//! Laws of the server's replies.

use vstd::prelude::*;

use crate::bytes;
use crate::files;
use crate::number;
use crate::server;
use crate::shell;
use crate::text;

verus! {

/// The reply to a command that ended in time with status 0 is its output. Any other reply is the
/// output and a note, on a line of its own: on the time where that ran out, and else on the status.
pub proof fn replies_begin_with_the_output(run: shell::Run, timeout: u64)
    ensures
        ({
            let r = server::run_text(run, timeout);
            let note = r.skip(run.output@.len() as int);
            &&& r.len() >= run.output@.len() && r.take(run.output@.len() as int) == run.output@
            &&& !run.timed_out && run.status == 0 ==> note == Seq::<char>::empty()
            &&& run.timed_out ==> note == "\n[timed out after "@ + number::decimal(timeout as nat)
                + " ms]"@
            &&& !run.timed_out && run.status != 0 ==> note == "\n[exit code "@
                + number::signed_decimal(run.status as int) + "]"@
        }),
{
    let out = run.output@;
    let r = server::run_text(run, timeout);
    let note = r.skip(out.len() as int);
    assert(r.take(out.len() as int) =~= out);
    if run.timed_out {
        assert(note =~= "\n[timed out after "@ + number::decimal(timeout as nat) + " ms]"@);
    } else if run.status != 0 {
        assert(note =~= "\n[exit code "@ + number::signed_decimal(run.status as int) + "]"@);
    } else {
        assert(note =~= Seq::empty());
    }
}

/// The next command runs where the last one ended up, and where that could not be read, where it
/// was run.
pub proof fn commands_run_where_the_last_ended(cwd: Seq<u8>, dir: Seq<u8>)
    ensures
        server::cwd_after(cwd, Some(dir)) == dir,
        server::cwd_after(cwd, None) == cwd,
{
}

/// A command has two minutes when no time is given, the time that is given up to ten minutes, and
/// no more; in the background it has no limit.
pub proof fn commands_have_their_time(t: u64, timeout: Option<u64>)
    ensures
        server::planned(true, timeout) == server::BashPlan::Background,
        server::planned(false, None) == (server::BashPlan::Foreground { timeout: 120_000 }),
        t <= 600_000 ==> server::planned(false, Some(t)) == (server::BashPlan::Foreground {
            timeout: t,
        }),
        t > 600_000 ==> server::planned(false, Some(t)) == (server::BashPlan::Foreground {
            timeout: 600_000,
        }),
{
}

/// The reply to a job that was started names the job and where its output goes.
pub proof fn started_jobs_are_named(id: Seq<char>, out: Seq<u8>)
    ensures
        server::started_text(id, out) == "Job "@ + id
            + " started in the background. Output is written to "@ + bytes::shown(out)
            + ". Poll it with bash_jobs."@,
{
}

/// A refusal of the parameters says why.
pub proof fn refusals_carry_their_reason(e: server::ToolError, f: files::Failure)
    ensures
        server::refuses(e, f) <==> e.fault == server::Fault::InvalidParams && e.message@
            == files::failure_text(f),
{
}

/// The machine is called what its command for that wrote, without the white space around it, and
/// `remote` where that is nothing.
pub proof fn hosts_are_called_by_their_name(
    output: Seq<u8>,
    before: Seq<char>,
    name: Seq<char>,
    after: Seq<char>,
)
    requires
        crate::laws::text::blank(before),
        crate::laws::text::blank(after),
        name.len() > 0 ==> !text::white_space(name[0]) && !text::white_space(name.last()),
        bytes::shown(output) == before + name + after,
    ensures
        name.len() > 0 ==> server::host_name(Some(output)) == name,
        name.len() == 0 ==> server::host_name(Some(output)) == "remote"@,
        server::host_name(None) == "remote"@,
{
    crate::laws::text::trimming_keeps_the_middle(before, name, after);
}

/// What a client is told names the machine, the client, the working directory and the roots, in the
/// same words whatever they are; without roots the file tools work anywhere.
pub proof fn clients_are_told_where_they_work(
    host: Seq<char>,
    client: Seq<char>,
    cwd: Seq<u8>,
    roots: Seq<Seq<u8>>,
)
    ensures
        server::instructions_text(host, client, cwd, roots) == "You are working on the machine `"@
            + host + "`, not on the one "@ + client
            + " runs on. The platform, working directory and shell in your environment describe the machine "@
            + client
            + " runs on; ignore them when asked where you are or what you are working on. Your working directory is "@
            + bytes::shown(cwd) + " on `"@ + host
            + "`. read, edit, write and bash are the remote forms of Read, Edit, Write and Bash: same parameters, same results. Use them for all file and shell work; the local file and shell tools are turned off. Every path is a path on `"@
            + host + "`; the file tools work under "@ + (if roots.len() == 0 {
            "anywhere"@
        } else {
            files::path_list(roots)
        }) + "."@,
{
}

/// A call for one job shows its last hundred lines where no number is given.
pub proof fn jobs_show_a_hundred_lines()
    ensures
        server::DEFAULT_TAIL == 100,
{
}

} // verus!
