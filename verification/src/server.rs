//! The tools as a client calls them: their parameters, what they reply, and what the server tells
//! of itself.

use vstd::prelude::*;
use vstd::utf8::*;

use crate::bytes;
use crate::files;
use crate::number;
use crate::path;
use crate::shell;
use crate::text;

verus! {

/// The time that a command has when none is given, in milliseconds.
pub const DEFAULT_TIMEOUT: u64 = 120_000;

/// The most time that a command can be given, in milliseconds.
pub const MAX_TIMEOUT: u64 = 600_000;

/// How many lines of a job's output are shown when no number is given.
pub const DEFAULT_TAIL: usize = 100;

/// Parameters of `read`.
#[derive(Debug)]
pub struct ReadArgs {
    /// Absolute path of the file to read, or a path relative to the shell's working directory.
    pub file_path: String,
    /// Line number to start from, counted from one.
    pub offset: Option<usize>,
    /// Number of lines to read.
    pub limit: Option<usize>,
}

/// Parameters of `write`.
#[derive(Debug)]
pub struct WriteArgs {
    /// Absolute path of the file to write.
    pub file_path: String,
    /// The whole content of the file.
    pub content: String,
}

/// Parameters of `edit`.
#[derive(Debug)]
pub struct EditArgs {
    /// Absolute path of the file to edit.
    pub file_path: String,
    /// The exact text to replace.
    pub old_string: String,
    /// The text to put in its place.
    pub new_string: String,
    /// Replace every occurrence instead of requiring `old_string` to be unique.
    pub replace_all: bool,
}

/// Parameters of `bash`.
#[derive(Debug)]
pub struct BashArgs {
    /// The command to run, with bash.
    pub command: String,
    /// Timeout in milliseconds. Ignored for a background run.
    pub timeout: Option<u64>,
    /// What the command does, in a few words, for the user to see: a background run is listed under
    /// it. It changes nothing of what is run.
    pub description: Option<String>,
    /// Run detached and return at once with a job id.
    pub run_in_background: bool,
}

/// Parameters of `bash_jobs`.
#[derive(Debug)]
pub struct BashJobsArgs {
    /// A job id from a background run. Without it, every job is listed.
    pub id: Option<String>,
    /// Stop the job.
    pub stop: bool,
    /// How many lines from the end of the job's output to return.
    pub tail: Option<usize>,
}

/// The reply of a tool.
#[derive(Debug)]
pub struct ToolReply {
    pub text: String,
    /// Whether the tool ran and what it ran failed.
    pub is_error: bool,
}

/// Whose fault it is that a tool did not run.
#[derive(Debug, Clone, Copy, PartialEq, Eq, Structural)]
pub enum Fault {
    /// The parameters were refused.
    InvalidParams,
    /// The server failed.
    Internal,
}

/// A tool that did not run.
#[derive(Debug)]
pub struct ToolError {
    pub fault: Fault,
    pub message: String,
}

/// A reply with this text that is no error.
pub fn text_result(text: String) -> (r: ToolReply)
    ensures
        r == (ToolReply { text, is_error: false }),
{
    ToolReply { text, is_error: false }
}

/// Parameters that were refused.
pub fn invalid(message: String) -> (r: ToolError)
    ensures
        r == (ToolError { fault: Fault::InvalidParams, message }),
{
    ToolError { fault: Fault::InvalidParams, message }
}

/// A failure of the server.
pub fn internal(message: String) -> (r: ToolError)
    ensures
        r == (ToolError { fault: Fault::Internal, message }),
{
    ToolError { fault: Fault::Internal, message }
}

/// Whether an error says that the parameters were refused because of this failure.
pub open spec fn refuses(e: ToolError, f: files::Failure) -> bool {
    e.fault == Fault::InvalidParams && e.message@ == files::failure_text(f)
}

/// What the server keeps of itself.
#[derive(Debug)]
pub struct Remote {
    /// Directories the file tools may touch. Empty means anywhere.
    roots: Vec<Vec<u8>>,
    /// Where the shell started.
    start_cwd: Vec<u8>,
    jobs: shell::Jobs,
    host: String,
    /// What the client is called.
    client: String,
}

/// The name of the machine, by what the command `hostname` wrote, if it ran.
pub open spec fn host_name(output: Option<Seq<u8>>) -> Seq<char> {
    match output {
        Some(out) if text::trim(bytes::shown(out)).len() > 0 => text::trim(bytes::shown(out)),
        _ => "remote"@,
    }
}

/// What a client is told: where it is working, and where the file tools work.
pub open spec fn instructions_text(
    host: Seq<char>,
    client: Seq<char>,
    cwd: Seq<u8>,
    roots: Seq<Seq<u8>>,
) -> Seq<char> {
    "You are working on the machine `"@ + host
        + "`, not on the one "@ + client
        + " runs on. The platform, working directory and shell in your environment describe the machine "@
        + client
        + " runs on; ignore them when asked where you are or what you are working on. Your working directory is "@
        + bytes::shown(cwd) + " on `"@ + host
        + "`. read, edit, write and bash are the remote forms of Read, Edit, Write and Bash: same parameters, same results. Use them for all file and shell work; the local file and shell tools are turned off. Every path is a path on `"@
        + host + "`; the file tools work under "@ + (if roots.len() == 0 {
        "anywhere"@
    } else {
        files::path_list(roots)
    }) + "."@
}

/// What a command's run is replied as: its output, and a note on how it ended when that was not
/// with status 0 in time.
pub open spec fn run_text(run: shell::Run, timeout: u64) -> Seq<char> {
    run.output@ + (if run.timed_out {
        "\n[timed out after "@ + number::decimal(timeout as nat) + " ms]"@
    } else if run.status != 0 {
        "\n[exit code "@ + number::signed_decimal(run.status as int) + "]"@
    } else {
        Seq::empty()
    })
}

/// The working directory after a run: where the shell ended up, when that could be read.
pub open spec fn cwd_after(cwd: Seq<u8>, ended_at: Option<Seq<u8>>) -> Seq<u8> {
    match ended_at {
        Some(dir) => dir,
        None => cwd,
    }
}

/// How a call of `bash` is to be run.
#[derive(Debug, Clone, Copy, PartialEq, Eq, Structural)]
pub enum BashPlan {
    Background,
    Foreground { timeout: u64 },
}

/// How a call of `bash` is to be run: in the background, or with its time, which has a limit.
pub open spec fn planned(run_in_background: bool, timeout: Option<u64>) -> BashPlan {
    if run_in_background {
        BashPlan::Background
    } else {
        BashPlan::Foreground {
            timeout: match timeout {
                Some(t) if t <= MAX_TIMEOUT => t,
                Some(_) => MAX_TIMEOUT,
                None => DEFAULT_TIMEOUT,
            },
        }
    }
}

/// The reply to `bash` for a job that was started.
pub open spec fn started_text(id: Seq<char>, out: Seq<u8>) -> Seq<char> {
    "Job "@ + id + " started in the background. Output is written to "@ + bytes::shown(out)
        + ". Poll it with bash_jobs."@
}

/// What a call of `bash_jobs` is for.
#[derive(Debug)]
pub enum JobsPlan {
    List,
    /// Stop a job, and only then show its last lines.
    Stop { id: String, tail: usize },
    /// Show a job's last lines.
    Show { id: String, tail: usize },
}

impl Remote {
    pub closed spec fn roots(&self) -> Seq<Seq<u8>> {
        bytes::views(self.roots@)
    }

    pub closed spec fn start_cwd(&self) -> Seq<u8> {
        self.start_cwd@
    }

    pub closed spec fn jobs_dir(&self) -> Seq<u8> {
        self.jobs.dir()
    }

    pub closed spec fn host(&self) -> Seq<char> {
        self.host@
    }

    pub closed spec fn client(&self) -> Seq<char> {
        self.client@
    }

    /// A server of the directories `roots` whose shell starts in `cwd`; `hostname` is what the
    /// command of that name wrote, if it ran, and `client` what the client is called.
    pub fn new(
        roots: Vec<Vec<u8>>,
        cwd: Vec<u8>,
        jobs: shell::Jobs,
        hostname: Option<&[u8]>,
        client: String,
    ) -> (r: Remote)
        ensures
            r.roots() == bytes::views(roots@),
            r.start_cwd() == cwd@,
            r.jobs_dir() == jobs.dir(),
            r.host() == host_name(
                match hostname {
                    Some(out) => Some(out@),
                    None => None,
                },
            ),
            r.client() == client@,
    {
        let mut host = "remote".to_owned();
        if let Some(out) = hostname {
            let written = bytes::lossy(out);
            let name = text::trimmed(written.as_str());
            if !name.as_str().is_empty() {
                host = name;
            }
        }
        Remote { roots, start_cwd: cwd, jobs, host, client }
    }

    /// The background jobs.
    pub fn jobs(&self) -> (r: &shell::Jobs)
        ensures
            r.dir() == self.jobs_dir(),
    {
        &self.jobs
    }

    /// The start of the search for a path from the client, taken against the shell's directory.
    pub fn resolve(&self, path: &str, cwd: &[u8]) -> (r: files::Resolution)
        ensures
            r.parts() == files::target_parts(path@, cwd@),
            r.state() == (files::State::Climb { depth: r.parts().len(), dangling: false }),
    {
        files::Resolution::begin(path, cwd)
    }

    /// The path that a finished search leads to, checked against the roots.
    pub fn resolved(&self, found: &files::Settled, canonical: Option<&[u8]>) -> (r: Result<
        Vec<u8>,
        ToolError,
    >)
        ensures
            ({
                let target = files::canonical_bytes(canonical);
                let (parts, end) = (found.parts(), found.end());
                match r {
                    Ok(p) => {
                        &&& files::permitted(parts, end, target, self.roots())
                        &&& p@ == files::real_path(parts, end.depth, target)
                    },
                    Err(e) => {
                        &&& !files::permitted(parts, end, target, self.roots())
                        &&& refuses(e, files::refusal(parts, end, target, self.roots()))
                    },
                }
            }),
    {
        match files::resolve(found, canonical, &self.roots) {
            Ok(p) => Ok(p),
            Err(e) => Err(invalid(e.message())),
        }
    }

    /// The reply to `read`, by what stands at the path.
    pub fn read(&self, path: &[u8], found: &files::Found, a: &ReadArgs) -> (r: Result<
        ToolReply,
        ToolError,
    >)
        ensures
            match (
                r,
                files::reading(
                    path@,
                    *found,
                    files::first_line(a.offset),
                    files::line_limit(a.limit),
                ),
            ) {
                (Ok(reply), Ok(text)) => reply.text@ == text && !reply.is_error,
                (Err(e), Err(f)) => refuses(e, f),
                _ => false,
            },
    {
        match files::read(path, found, a.offset, a.limit) {
            Ok(text) => Ok(text_result(text)),
            Err(e) => Err(invalid(e.message())),
        }
    }

    /// The reply to `write` once the content stands at the path.
    pub fn write(&self, path: &[u8], a: &WriteArgs) -> (r: ToolReply)
        ensures
            r.text@ == "Wrote "@ + number::decimal(encode_utf8(a.content@).len()) + " bytes to "@
                + bytes::shown(path@),
            !r.is_error,
    {
        let count = number::write_decimal(a.content.as_str().as_bytes().len() as u128);
        let shown = path::display(path);
        let mut out = "Wrote ".to_owned();
        out.append(count.as_str());
        out.append(" bytes to ");
        out.append(shown.as_str());
        text_result(out)
    }

    /// The new content for `edit`, and the reply once it stands at the path; `content` is the text
    /// of the file, `None` when it could not be read as text.
    pub fn edit(&self, path: &[u8], content: Option<&str>, a: &EditArgs) -> (r: Result<
        (String, ToolReply),
        ToolError,
    >)
        ensures
            match (
                r,
                files::editing(
                    path@,
                    text::opt(content),
                    a.old_string@,
                    a.new_string@,
                    a.replace_all,
                ),
            ) {
                (Ok((new_content, reply)), Ok((text, count))) => {
                    &&& new_content@ == text
                    &&& reply.text@ == "Edited "@ + bytes::shown(path@) + ": replaced "@
                        + number::decimal(count) + " occurrence"@ + (if count == 1 {
                        ""@
                    } else {
                        "s"@
                    })
                    &&& !reply.is_error
                },
                (Err(e), Err(f)) => refuses(e, f),
                _ => false,
            },
    {
        match files::edit(
            path,
            content,
            a.old_string.as_str(),
            a.new_string.as_str(),
            a.replace_all,
        ) {
            Ok((new_content, count)) => {
                let shown = path::display(path);
                let digits = number::write_decimal(count as u128);
                let mut out = "Edited ".to_owned();
                out.append(shown.as_str());
                out.append(": replaced ");
                out.append(digits.as_str());
                out.append(" occurrence");
                out.append(
                    if count == 1 {
                        ""
                    } else {
                        "s"
                    },
                );
                Ok((new_content, text_result(out)))
            },
            Err(e) => Err(invalid(e.message())),
        }
    }

    /// How a call of `bash` is to be run: in the background, or with its time, which has a limit.
    pub fn bash_plan(&self, a: &BashArgs) -> (r: BashPlan)
        ensures
            r == planned(a.run_in_background, a.timeout),
    {
        if a.run_in_background {
            return BashPlan::Background;
        }
        let timeout = match a.timeout {
            Some(t) => if t <= MAX_TIMEOUT {
                t
            } else {
                MAX_TIMEOUT
            },
            None => DEFAULT_TIMEOUT,
        };
        BashPlan::Foreground { timeout }
    }

    /// The reply to `bash` for a job that was started.
    pub fn bash_started(&self, job: &shell::Job) -> (r: ToolReply)
        ensures
            r.text@ == started_text(job.id@, job.out@),
            !r.is_error,
    {
        let shown = path::display(job.out.as_slice());
        let mut out = "Job ".to_owned();
        out.append(job.id.as_str());
        out.append(" started in the background. Output is written to ");
        out.append(shown.as_str());
        out.append(". Poll it with bash_jobs.");
        text_result(out)
    }

    /// The reply to `bash` for a command that has ended. The shell's directory becomes the one
    /// where the command ended up. A command that ran out of time or ended with a status other than
    /// 0 is replied as an error, with its output.
    pub fn bash(&self, cwd: &mut Vec<u8>, run: shell::Run, timeout: u64) -> (r: ToolReply)
        ensures
            final(cwd)@ == cwd_after(
                old(cwd)@,
                match run.cwd {
                    Some(dir) => Some(dir@),
                    None => None,
                },
            ),
            r.text@ == run_text(run, timeout),
            r.is_error == (run.timed_out || run.status != 0),
    {
        let mut out = run.output.clone();
        if run.timed_out {
            let time = number::write_decimal(timeout as u128);
            out.append("\n[timed out after ");
            out.append(time.as_str());
            out.append(" ms]");
        } else if run.status != 0 {
            let code = number::write_signed(run.status);
            out.append("\n[exit code ");
            out.append(code.as_str());
            out.append("]");
        }
        assert(out@ =~= run_text(run, timeout));
        let is_error = run.timed_out || run.status != 0;
        if let Some(dir) = run.cwd {
            *cwd = dir;
        }
        ToolReply { text: out, is_error }
    }

    /// What a call of `bash_jobs` is for. Without an id nothing is stopped.
    pub fn jobs_plan(&self, a: BashJobsArgs) -> (r: JobsPlan)
        ensures
            r == (match a.id {
                None => JobsPlan::List,
                Some(id) => {
                    let tail = match a.tail {
                        Some(n) => n,
                        None => DEFAULT_TAIL,
                    };
                    if a.stop {
                        JobsPlan::Stop { id, tail }
                    } else {
                        JobsPlan::Show { id, tail }
                    }
                },
            }),
    {
        match a.id {
            None => JobsPlan::List,
            Some(id) => {
                let tail = match a.tail {
                    Some(n) => n,
                    None => DEFAULT_TAIL,
                };
                if a.stop {
                    JobsPlan::Stop { id, tail }
                } else {
                    JobsPlan::Show { id, tail }
                }
            },
        }
    }

    /// How a call goes on that is to stop a job, by what became of finding the process group: its
    /// refusal ends the call, and else the group is to be signalled and the job shown.
    pub fn after_stop(
        &self,
        id: String,
        tail: usize,
        stopped: Result<i32, shell::ShellError>,
    ) -> (r: Result<(i32, JobsPlan), ToolError>)
        ensures
            match (r, stopped) {
                (Ok((signalled, plan)), Ok(group)) => {
                    &&& signalled == group
                    &&& plan == (JobsPlan::Show { id, tail })
                },
                (Err(e), Err(cause)) => {
                    &&& e.fault == Fault::InvalidParams
                    &&& e.message@ == shell::error_text(cause)
                },
                _ => false,
            },
    {
        match stopped {
            Ok(group) => Ok((group, JobsPlan::Show { id, tail })),
            Err(e) => Err(invalid(e.message())),
        }
    }

    /// The reply to `bash_jobs`, by what became of listing the jobs or showing the one.
    pub fn bash_jobs(&self, outcome: Result<String, shell::ShellError>) -> (r: Result<
        ToolReply,
        ToolError,
    >)
        ensures
            match (r, outcome) {
                (Ok(reply), Ok(text)) => reply == (ToolReply { text, is_error: false }),
                (Err(e), Err(cause)) => {
                    &&& e.fault == Fault::InvalidParams
                    &&& e.message@ == shell::error_text(cause)
                },
                _ => false,
            },
    {
        match outcome {
            Ok(text) => Ok(text_result(text)),
            Err(e) => Err(invalid(e.message())),
        }
    }

    /// What a client is told.
    pub fn get_info(&self) -> (r: String)
        ensures
            r@ == instructions_text(
                self.host(),
                self.client(),
                self.start_cwd(),
                self.roots(),
            ),
    {
        let roots = if self.roots.len() == 0 {
            "anywhere".to_owned()
        } else {
            files::list_paths(&self.roots)
        };
        assert(self.roots().len() == self.roots@.len());
        let cwd = path::display(self.start_cwd.as_slice());
        let mut out = "You are working on the machine `".to_owned();
        out.append(self.host.as_str());
        out.append("`, not on the one ");
        out.append(self.client.as_str());
        out.append(
            " runs on. The platform, working directory and shell in your environment describe the machine ",
        );
        out.append(self.client.as_str());
        out.append(
            " runs on; ignore them when asked where you are or what you are working on. Your working directory is ",
        );
        out.append(cwd.as_str());
        out.append(" on `");
        out.append(self.host.as_str());
        out.append(
            "`. read, edit, write and bash are the remote forms of Read, Edit, Write and Bash: same parameters, same results. Use them for all file and shell work; the local file and shell tools are turned off. Every path is a path on `",
        );
        out.append(self.host.as_str());
        out.append("`; the file tools work under ");
        out.append(roots.as_str());
        out.append(".");
        out
    }
}

/// Two calls of `bash` that differ in their descriptions alone are run alike: with the same plan,
/// and in the background, when they start at the same time, under the same id, with the same files,
/// script and reply. Only the text that is recorded for listings can differ, and it does not where
/// the descriptions are the same, none counting as an empty one.
pub proof fn description_changes_no_run(a: BashArgs, b: BashArgs, dir: Seq<u8>, nanos: nat)
    requires
        a.command@ == b.command@,
        a.timeout == b.timeout,
        a.run_in_background == b.run_in_background,
    ensures
        planned(a.run_in_background, a.timeout) == planned(b.run_in_background, b.timeout),
        ({
            let x = shell::job_plan(dir, nanos, a.command@, text::opt_owned(a.description));
            let y = shell::job_plan(dir, nanos, b.command@, text::opt_owned(b.description));
            &&& x.id == y.id && x.out == y.out && x.meta == y.meta && x.script == y.script
            &&& started_text(x.id, x.out) == started_text(y.id, y.out)
            &&& shell::or_empty(text::opt_owned(a.description)) == shell::or_empty(
                text::opt_owned(b.description),
            ) ==> x == y
        }),
{
}

/// The working directory after runs, one after another.
pub open spec fn cwd_after_all(start: Seq<u8>, runs: Seq<Option<Seq<u8>>>) -> Seq<u8>
    decreases runs.len(),
{
    if runs.len() == 0 {
        start
    } else {
        cwd_after(cwd_after_all(start, runs.drop_last()), runs.last())
    }
}

/// The working directory persists between calls: it is where the last run that could say so ended
/// up, and where the shell started when none could.
pub proof fn cwd_persists(start: Seq<u8>, runs: Seq<Option<Seq<u8>>>, last: int)
    requires
        -1 <= last < runs.len(),
        last >= 0 ==> runs[last] is Some,
        forall|i: int| last < i < runs.len() ==> (#[trigger] runs[i]) is None,
    ensures
        cwd_after_all(start, runs) == (if last >= 0 {
            runs[last]->0
        } else {
            start
        }),
    decreases runs.len(),
{
    if runs.len() > 0 {
        let front = runs.drop_last();
        if last < front.len() {
            assert(runs[runs.len() - 1] is None);
            assert forall|i: int| last < i < front.len() implies (#[trigger] front[i]) is None by {
                assert(front[i] == runs[i]);
            }
            cwd_persists(start, front, last);
        }
    }
}

} // verus!
