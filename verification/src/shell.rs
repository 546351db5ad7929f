//! The shell tool: the scripts that `bash` is given, what is made of its output and its end, and
//! the files of detached background jobs.

use vstd::prelude::*;
use vstd::utf8::*;

use crate::bytes;
use crate::number;
use crate::path;
use crate::text;

verus! {

/// Output past this many bytes is cut in the middle, keeping the head and the tail.
pub const MAX_OUTPUT: usize = 30_000;

/// The greatest character boundary up to `i`.
pub open spec fn floor_boundary(b: Seq<u8>, i: int) -> int
    decreases i,
{
    if i <= 0 {
        0
    } else if is_char_boundary(b, i) {
        i
    } else {
        floor_boundary(b, i - 1)
    }
}

/// The least character boundary from `i` on.
pub open spec fn ceil_boundary(b: Seq<u8>, i: int) -> int
    decreases b.len() - i,
{
    if i >= b.len() {
        b.len() as int
    } else if is_char_boundary(b, i) {
        i
    } else {
        ceil_boundary(b, i + 1)
    }
}

/// How many bytes of a long output stay at its start.
pub open spec fn head_end(s: Seq<char>) -> int {
    floor_boundary(encode_utf8(s), MAX_OUTPUT as int / 2)
}

/// Where the bytes that stay at the end of a long output start.
pub open spec fn tail_start(s: Seq<char>) -> int {
    ceil_boundary(encode_utf8(s), encode_utf8(s).len() - MAX_OUTPUT as int / 2)
}

/// What stands for the bytes that were cut.
pub open spec fn cut_note(count: nat) -> Seq<char> {
    "\n\n[… "@ + number::decimal(count) + " bytes cut from the middle of the output …]\n\n"@
}

/// `s`, with whole characters cut from its middle when it is too long.
pub open spec fn capped(s: Seq<char>) -> Seq<char> {
    let b = encode_utf8(s);
    if b.len() <= MAX_OUTPUT {
        s
    } else {
        decode_utf8(b.take(head_end(s))) + cut_note((tail_start(s) - head_end(s)) as nat)
            + decode_utf8(b.skip(tail_start(s)))
    }
}

/// Where the greatest character boundary up to a place is.
pub proof fn lemma_floor_boundary(b: Seq<u8>, i: int)
    requires
        valid_utf8(b),
    ensures
        i >= 0 ==> 0 <= floor_boundary(b, i) <= i,
        is_char_boundary(b, floor_boundary(b, i)),
        forall|k: int| floor_boundary(b, i) < k <= i ==> !is_char_boundary(b, k),
    decreases i,
{
    if i <= 0 {
        is_char_boundary_start_end_of_seq(b);
    } else if is_char_boundary(b, i) {
    } else {
        lemma_floor_boundary(b, i - 1);
    }
}

/// Where the least character boundary from a place on is.
pub proof fn lemma_ceil_boundary(b: Seq<u8>, i: int)
    requires
        valid_utf8(b),
        0 <= i <= b.len(),
    ensures
        i <= ceil_boundary(b, i) <= b.len(),
        is_char_boundary(b, ceil_boundary(b, i)),
        forall|k: int| i <= k < ceil_boundary(b, i) ==> !is_char_boundary(b, k),
    decreases b.len() - i,
{
    is_char_boundary_start_end_of_seq(b);
    if i >= b.len() {
    } else if is_char_boundary(b, i) {
    } else {
        lemma_ceil_boundary(b, i + 1);
    }
}

/// Among four neighbouring places in UTF-8 one is a character boundary.
proof fn lemma_boundary_near(b: Seq<u8>, i: int) -> (k: int)
    requires
        valid_utf8(b),
        0 <= i <= b.len(),
    ensures
        i - 3 <= k <= i,
        is_char_boundary(b, k),
    decreases b.len(),
{
    if i == 0 {
        is_char_boundary_start_end_of_seq(b);
        0
    } else {
        let n = length_of_first_scalar(b);
        assert(1 <= n <= 4);
        assert(n <= b.len());
        if i < n {
            is_char_boundary_start_end_of_seq(b);
            0
        } else {
            let k = lemma_boundary_near(pop_first_scalar(b), i - n);
            if k < 0 {
                0
            } else {
                assert(is_char_boundary(b, k + n));
                k + n
            }
        }
    }
}

/// Cutting keeps both ends: a long output is its head, what was cut, and its tail; the result is
/// the head and the tail with the note between them. Each end keeps half of the limit, short of it
/// by at most three bytes, so that no character is torn.
pub proof fn cut_keeps_both_ends(s: Seq<char>)
    requires
        encode_utf8(s).len() > MAX_OUTPUT,
    ensures
        ({
            let b = encode_utf8(s);
            let head = decode_utf8(b.take(head_end(s)));
            let middle = decode_utf8(b.subrange(head_end(s), tail_start(s)));
            let tail = decode_utf8(b.skip(tail_start(s)));
            &&& s == head + middle + tail
            &&& capped(s) == head + cut_note(encode_utf8(middle).len()) + tail
            &&& MAX_OUTPUT / 2 - 3 <= encode_utf8(head).len() <= MAX_OUTPUT / 2
            &&& MAX_OUTPUT / 2 - 3 <= encode_utf8(tail).len() <= MAX_OUTPUT / 2
        }),
{
    let b = encode_utf8(s);
    let (h, t) = (head_end(s), tail_start(s));
    let half = MAX_OUTPUT as int / 2;
    encode_utf8_valid_utf8(s);
    encode_utf8_decode_utf8(s);
    lemma_floor_boundary(b, half);
    lemma_ceil_boundary(b, b.len() - half);
    let k = lemma_boundary_near(b, half);
    assert(h >= k);
    let m = lemma_boundary_near(b, b.len() - half + 3);
    assert(t <= m);
    let front = b.take(h);
    let rest = b.skip(h);
    assert(b.subrange(0, h) =~= front);
    assert(b.subrange(h, b.len() as int) =~= rest);
    assert(b.subrange(0, t).subrange(0, h) =~= front);
    assert(b.subrange(0, t).subrange(h, t) =~= b.subrange(h, t));
    assert(b.subrange(t, b.len() as int) =~= b.skip(t));
    valid_utf8_split(b, h);
    valid_utf8_split(b, t);
    decode_utf8_split(b, t);
    lemma_boundary_of_prefix(b, t, h);
    valid_utf8_split(b.subrange(0, t), h);
    decode_utf8_split(b.subrange(0, t), h);
    decode_utf8_encode_utf8(front);
    decode_utf8_encode_utf8(b.subrange(h, t));
    decode_utf8_encode_utf8(b.skip(t));
}

/// Both ends that a cut keeps are UTF-8.
pub proof fn lemma_cut_valid(s: Seq<char>)
    requires
        encode_utf8(s).len() > MAX_OUTPUT,
    ensures
        valid_utf8(encode_utf8(s).take(head_end(s))),
        valid_utf8(encode_utf8(s).skip(tail_start(s))),
        0 <= head_end(s) <= tail_start(s) <= encode_utf8(s).len(),
{
    let b = encode_utf8(s);
    let half = MAX_OUTPUT as int / 2;
    encode_utf8_valid_utf8(s);
    lemma_floor_boundary(b, half);
    lemma_ceil_boundary(b, b.len() - half);
    valid_utf8_split(b, head_end(s));
    valid_utf8_split(b, tail_start(s));
    assert(b.subrange(0, head_end(s)) =~= b.take(head_end(s)));
    assert(b.subrange(tail_start(s), b.len() as int) =~= b.skip(tail_start(s)));
}

/// A boundary stays one in a prefix that ends at a boundary.
proof fn lemma_boundary_of_prefix(b: Seq<u8>, end: int, i: int)
    requires
        valid_utf8(b),
        0 <= i <= end <= b.len(),
        is_char_boundary(b, end),
        is_char_boundary(b, i),
        valid_utf8(b.subrange(0, end)),
    ensures
        is_char_boundary(b.subrange(0, end), i),
{
    let front = b.subrange(0, end);
    if i == end {
        is_char_boundary_start_end_of_seq(front);
    } else {
        is_char_boundary_iff_not_is_continuation_byte(b, i);
        is_char_boundary_iff_not_is_continuation_byte(front, i);
    }
}

/// `s`, with whole characters cut from its middle when it is longer than `MAX_OUTPUT` bytes.
pub fn cap(s: String) -> (r: String)
    ensures
        r@ == capped(s@),
{
    let whole = s.as_str();
    let len = whole.as_bytes().len();
    let ghost b = encode_utf8(s@);
    if len <= MAX_OUTPUT {
        return s;
    }
    proof {
        encode_utf8_valid_utf8(s@);
        lemma_floor_boundary(b, 15_000);
        lemma_ceil_boundary(b, len - 15_000);
        is_char_boundary_start_end_of_seq(b);
    }
    let half: usize = MAX_OUTPUT / 2;
    let mut head: usize = half;
    while head > 0 && !whole.is_char_boundary(head)
        invariant
            head <= half,
            b == encode_utf8(whole@),
            floor_boundary(b, head as int) == floor_boundary(b, half as int),
        decreases head,
    {
        head -= 1;
    }
    let mut tail: usize = len - half;
    while tail < len && !whole.is_char_boundary(tail)
        invariant
            len - half <= tail <= len,
            half <= len,
            b == encode_utf8(whole@),
            len == b.len(),
            ceil_boundary(b, tail as int) == ceil_boundary(b, len - half),
        decreases len - tail,
    {
        tail += 1;
    }
    let front = whole.split_at(head).0;
    let back = whole.split_at(tail).1;
    proof {
        encode_utf8_decode_utf8(front@);
        encode_utf8_decode_utf8(back@);
        assert(encode_utf8(front@) =~= b.take(head as int));
        assert(encode_utf8(back@) =~= b.skip(tail as int));
    }
    let count = number::write_decimal((tail - head) as u128);
    let mut out = front.to_owned();
    out.append("\n\n[… ");
    out.append(count.as_str());
    out.append(" bytes cut from the middle of the output …]\n\n");
    out.append(back);
    assert(out@ =~= capped(s@));
    out
}

/// The characters of `s`, with each single quote written so that it can stand inside single quotes.
pub open spec fn quote_body(s: Seq<char>) -> Seq<char>
    decreases s.len(),
{
    if s.len() == 0 {
        s
    } else if s[0] == '\'' {
        seq!['\'', '\\', '\'', '\''] + quote_body(s.skip(1))
    } else {
        seq![s[0]] + quote_body(s.skip(1))
    }
}

/// `s` in single quotes.
pub open spec fn quoted(s: Seq<char>) -> Seq<char> {
    seq!['\''] + quote_body(s) + seq!['\'']
}

/// `s` in single quotes, for a shell to read as one word.
pub fn quote(s: &str) -> (r: String)
    ensures
        r@ == quoted(s@),
{
    let cs = text::chars_of(s);
    let mut out = String::new();
    out.push('\'');
    let mut i: usize = 0;
    assert(s@.skip(0) =~= s@);
    assert(out@ + quote_body(s@.skip(0)) =~= seq!['\''] + quote_body(s@));
    while i < cs.len()
        invariant
            i <= cs@.len(),
            cs@ == s@,
            out@ + quote_body(s@.skip(i as int)) == seq!['\''] + quote_body(s@),
        decreases cs@.len() - i,
    {
        let ghost before = out@;
        let ghost tail = s@.skip(i as int);
        assert(tail.skip(1) =~= s@.skip(i + 1));
        if cs[i] == '\'' {
            out.push('\'');
            out.push('\\');
            out.push('\'');
            out.push('\'');
            assert(out@ + quote_body(s@.skip(i + 1)) =~= before + (seq!['\'', '\\', '\'', '\'']
                + quote_body(s@.skip(i + 1))));
        } else {
            out.push(cs[i]);
            assert(out@ + quote_body(s@.skip(i + 1)) =~= before + (seq![cs@[i as int]] + quote_body(
                s@.skip(i + 1),
            )));
        }
        i += 1;
    }
    assert(s@.skip(i as int) =~= Seq::empty());
    assert(out@ + quote_body(s@.skip(i as int)) =~= out@);
    out.push('\'');
    assert(out@ =~= quoted(s@));
    out
}

/// A path in single quotes, for a shell to read as one word.
pub fn shell_quote(p: &[u8]) -> (r: String)
    ensures
        r@ == quoted(bytes::shown(p@)),
{
    let shown = path::display(p);
    quote(shown.as_str())
}

/// What a POSIX shell makes of a word, from a place inside or outside of single quotes. Inside,
/// every character but the single quote stands for itself. Outside, a single quote opens a quoted
/// part, and a backslash makes the next character stand for itself, other than a line feed;
/// anything else is not of this form.
pub open spec fn shell_word(s: Seq<char>, inside: bool) -> Option<Seq<char>>
    decreases s.len(),
{
    if s.len() == 0 {
        if inside {
            None
        } else {
            Some(s)
        }
    } else if s[0] == '\'' {
        shell_word(s.skip(1), !inside)
    } else if inside {
        match shell_word(s.skip(1), true) {
            Some(rest) => Some(seq![s[0]] + rest),
            None => None,
        }
    } else if s[0] == '\\' && s.len() > 1 && s[1] != '\n' {
        match shell_word(s.skip(2), false) {
            Some(rest) => Some(seq![s[1]] + rest),
            None => None,
        }
    } else {
        None
    }
}

/// A quoted text is one word for a shell, and the word is that text.
pub proof fn quoted_reads_back(s: Seq<char>)
    ensures
        shell_word(quoted(s), false) == Some(s),
{
    lemma_quote_body_reads_back(s);
    let q = quoted(s);
    assert(q.skip(1) =~= quote_body(s) + seq!['\'']);
}

/// A quoted path names that path to a shell, when the path is UTF-8: the bytes of the word that the
/// shell reads are those of the path.
pub proof fn quoted_path_is_found(p: Seq<u8>)
    requires
        valid_utf8(p),
    ensures
        shell_word(quoted(bytes::shown(p)), false) matches Some(word) && encode_utf8(word) == p,
{
    quoted_reads_back(bytes::shown(p));
    decode_utf8_encode_utf8(p);
}

proof fn lemma_quote_body_reads_back(s: Seq<char>)
    ensures
        shell_word(quote_body(s) + seq!['\''], true) == Some(s),
    decreases s.len(),
{
    let w = quote_body(s) + seq!['\''];
    if s.len() == 0 {
        assert(w.skip(1) =~= Seq::empty());
        assert(w[0] == '\'');
        assert(shell_word(w.skip(1), false) == Some(w.skip(1)));
        assert(s =~= w.skip(1));
    } else {
        let rest = quote_body(s.skip(1)) + seq!['\''];
        lemma_quote_body_reads_back(s.skip(1));
        if s[0] == '\'' {
            let w1 = w.skip(1);
            let w3 = w1.skip(2);
            assert(w[0] == '\'');
            assert(w1[0] == '\\' && w1[1] == '\'');
            assert(w3[0] == '\'');
            assert(w3.skip(1) =~= rest);
            assert(shell_word(w3, false) == Some(s.skip(1)));
            assert(shell_word(w1, false) == Some(seq!['\''] + s.skip(1)));
        } else {
            assert(w[0] == s[0]);
            assert(w.skip(1) =~= rest);
        }
        assert(seq![s[0]] + s.skip(1) =~= s);
    }
}

/// What a command left: its output, its end, and where the shell ended up.
#[derive(Debug)]
pub struct Run {
    pub output: String,
    pub status: i32,
    pub timed_out: bool,
    /// Where the shell ended up, when it could be read.
    pub cwd: Option<Vec<u8>>,
}

/// How a command ended.
#[derive(Debug, Clone, Copy)]
pub enum Ended {
    /// By itself, with its exit code unless a signal ended it.
    Exited(Option<i32>),
    /// It was killed when its time was over.
    TimedOut,
}

/// Nanoseconds since the epoch by the clock's reading; 0 when the clock stands before the epoch.
pub fn nanos(since_epoch: Option<u128>) -> (r: u128)
    ensures
        r == (match since_epoch {
            Some(n) => n,
            None => 0,
        }),
{
    match since_epoch {
        Some(n) => n,
        None => 0,
    }
}

/// The file through which the shell says where it ended up, to the program of this name.
pub fn marker_path(temp_dir: &[u8], program: &str, pid: u32, nanos: u128) -> (r: Vec<u8>)
    ensures
        r@ == path::push(
            temp_dir@,
            encode_utf8(
                program@ + "-cwd-"@ + number::decimal(pid as nat) + "-"@ + number::decimal(
                    nanos as nat,
                ),
            ),
        ),
{
    let mut name = program.to_owned();
    name.append("-cwd-");
    let process = number::write_decimal(pid as u128);
    let time = number::write_decimal(nanos);
    name.append(process.as_str());
    name.append("-");
    name.append(time.as_str());
    path::pushed(temp_dir, name.as_str().as_bytes())
}

/// The script for a command: the command, then the shell's directory written to `marker`, and the
/// command's status as the status of the whole.
pub open spec fn script(command: Seq<char>, marker: Seq<u8>) -> Seq<char> {
    command + "\n__rc=$?; pwd > "@ + quoted(bytes::shown(marker))
        + " 2>/dev/null; exit $__rc"@
}

/// The script that `bash -c` is given for `command`.
pub fn run_script(command: &str, marker: &[u8]) -> (r: String)
    ensures
        r@ == script(command@, marker@),
{
    let mut out = command.to_owned();
    let file = shell_quote(marker);
    out.append("\n__rc=$?; pwd > ");
    out.append(file.as_str());
    out.append(" 2>/dev/null; exit $__rc");
    out
}

/// Standard output and standard error together, the second on a line of its own.
pub open spec fn combined(out: Seq<char>, err: Seq<char>) -> Seq<char> {
    if err.len() == 0 {
        out
    } else if out.len() > 0 && out.last() != '\n' {
        out + "\n"@ + err
    } else {
        out + err
    }
}

/// Standard output and standard error together, the second on a line of its own.
pub fn combine(out: &str, err: &str) -> (r: String)
    ensures
        r@ == combined(out@, err@),
{
    let mut both = out.to_owned();
    if !err.is_empty() {
        let cs = text::chars_of(out);
        if cs.len() > 0 && cs[cs.len() - 1] != '\n' {
            both.append("\n");
        }
        both.append(err);
    }
    both
}

/// The directory that the text of the marker file names: all of it but the line feed that `pwd`
/// writes behind the directory.
pub open spec fn named_dir(marker: Seq<char>) -> Seq<u8> {
    encode_utf8(
        if marker.len() > 0 && marker.last() == '\n' {
            marker.drop_last()
        } else {
            marker
        },
    )
}

/// What `pwd` writes names the directory, whatever characters stand in its name.
pub proof fn pwd_names_the_directory(dir: Seq<char>)
    ensures
        named_dir(dir + "\n"@) == encode_utf8(dir),
{
    reveal_strlit("\n");
    assert((dir + "\n"@).drop_last() =~= dir);
}

/// The directory that the text of the marker file names.
pub fn marker_dir(marker: &str) -> (r: Vec<u8>)
    ensures
        r@ == named_dir(marker@),
{
    let cs = text::chars_of(marker);
    if cs.len() > 0 && cs[cs.len() - 1] == '\n' {
        let dir = text::string_of(cs.as_slice(), 0, cs.len() - 1);
        assert(dir@ =~= marker@.drop_last());
        vstd::slice::slice_to_vec(dir.as_str().as_bytes())
    } else {
        vstd::slice::slice_to_vec(marker.as_bytes())
    }
}

/// What is made of a command that has ended: both outputs together and capped; its exit code, or
/// -1 when it has none or its time was over; and the directory that the marker file names, `None`
/// when the file could not be read as text, when `is_dir` says that it names a directory.
pub fn run(
    ended: Ended,
    stdout: &[u8],
    stderr: &[u8],
    marker: Option<&str>,
    is_dir: bool,
) -> (r: Run)
    ensures
        r.output@ == capped(combined(bytes::shown(stdout@), bytes::shown(stderr@))),
        r.timed_out == (ended is TimedOut),
        r.status == (match ended {
            Ended::Exited(Some(code)) => code as int,
            _ => -1,
        }),
        match (r.cwd, marker) {
            (Some(dir), Some(named)) => is_dir && dir@ == named_dir(named@),
            (None, Some(_)) => !is_dir,
            (None, None) => true,
            (Some(_), None) => false,
        },
{
    let out = bytes::lossy(stdout);
    let err = bytes::lossy(stderr);
    let both = combine(out.as_str(), err.as_str());
    let (status, timed_out) = match ended {
        Ended::Exited(Some(code)) => (code, false),
        Ended::Exited(None) => (-1, false),
        Ended::TimedOut => (-1, true),
    };
    let cwd = match marker {
        Some(named) => if is_dir {
            Some(marker_dir(named))
        } else {
            None
        },
        None => None,
    };
    Run { output: cap(both), status, timed_out, cwd }
}

/// Why a shell tool failed.
#[derive(Debug)]
pub enum ShellError {
    CannotStartBash,
    NoStatus,
    /// The directory of the job files could not be created.
    CannotCreate { path: Vec<u8> },
    /// The file that describes the job could not be written, for this reason.
    CannotDescribe { reason: String },
    CannotStartJob,
    NoJob { id: String },
}

/// The words for an error.
pub open spec fn error_text(e: ShellError) -> Seq<char> {
    match e {
        ShellError::CannotStartBash => "cannot start bash"@,
        ShellError::NoStatus => "bash did not report a status"@,
        ShellError::CannotCreate { path } => "cannot create "@ + bytes::shown(path@),
        ShellError::CannotDescribe { reason } => reason@,
        ShellError::CannotStartJob =>
            "cannot start the background job (is setsid installed?)"@,
        ShellError::NoJob { id } => "no job "@ + id@,
    }
}

impl ShellError {
    /// The words for this error.
    pub fn message(&self) -> (r: String)
        ensures
            r@ == error_text(*self),
    {
        match self {
            ShellError::CannotStartBash => "cannot start bash".to_owned(),
            ShellError::NoStatus => "bash did not report a status".to_owned(),
            ShellError::CannotCreate { path } => {
                let mut out = "cannot create ".to_owned();
                let shown = path::display(path.as_slice());
                out.append(shown.as_str());
                out
            },
            ShellError::CannotDescribe { reason } => reason.clone(),
            ShellError::CannotStartJob => {
                "cannot start the background job (is setsid installed?)".to_owned()
            },
            ShellError::NoJob { id } => {
                let mut out = "no job ".to_owned();
                out.append(id.as_str());
                out
            },
        }
    }
}

/// Detached background jobs: each writes its output to a file and its exit code to another, so
/// that it outlives the server and a later one can still read it.
#[derive(Debug)]
pub struct Jobs {
    dir: Vec<u8>,
}

/// A job that was started.
#[derive(Debug)]
pub struct Job {
    pub id: String,
    pub out: Vec<u8>,
}

/// How a job is started: the text that describes it goes to the file `meta`, and then `script` is
/// run under `setsid`.
#[derive(Debug)]
pub struct JobStart {
    pub job: Job,
    pub meta: Vec<u8>,
    pub meta_text: String,
    pub script: String,
}

/// What a `JobStart` holds.
pub ghost struct JobPlan {
    pub id: Seq<char>,
    pub out: Seq<u8>,
    pub meta: Seq<u8>,
    pub meta_text: Seq<char>,
    pub script: Seq<char>,
}

impl View for JobStart {
    type V = JobPlan;

    open spec fn view(&self) -> JobPlan {
        JobPlan {
            id: self.job.id@,
            out: self.job.out@,
            meta: self.meta@,
            meta_text: self.meta_text@,
            script: self.script@,
        }
    }
}

/// One job of a listing, with the texts of its files as far as they could be read.
#[derive(Debug)]
pub struct JobEntry {
    pub id: String,
    pub meta: Option<String>,
    pub status: Option<String>,
}

/// The file of a job with this suffix.
pub open spec fn job_file(dir: Seq<u8>, id: Seq<char>, suffix: Seq<char>) -> Seq<u8> {
    path::push(dir, encode_utf8(id + suffix))
}

/// The id of a job that is started at this time.
pub open spec fn job_id(nanos: nat) -> Seq<char> {
    number::in_base(nanos % 0x1_0000_0000, 16)
}

/// The text that describes a job.
pub open spec fn meta_text(description: Seq<char>, command: Seq<char>) -> Seq<char> {
    description + "\n"@ + command + "\n"@
}

/// The text of an optional string, empty when there is none.
pub open spec fn or_empty(s: Option<Seq<char>>) -> Seq<char> {
    match s {
        Some(s) => s,
        None => Seq::empty(),
    }
}

/// The id of the job that a file of this name describes.
pub open spec fn id_of(name: Seq<u8>) -> Option<Seq<char>> {
    let t = decode_utf8(name);
    if valid_utf8(name) && t.len() >= 4 && t.skip(t.len() - 4) == ".cmd"@ {
        Some(t.take(t.len() - 4))
    } else {
        None
    }
}

/// The ids of the jobs that files of these names describe.
pub open spec fn ids_in(names: Seq<Seq<u8>>) -> Seq<Seq<char>>
    decreases names.len(),
{
    if names.len() == 0 {
        Seq::empty()
    } else {
        match id_of(names.last()) {
            Some(id) => ids_in(names.drop_last()).push(id),
            None => ids_in(names.drop_last()),
        }
    }
}

/// The id of the job that a file of this name describes.
fn id_of_name(name: &[u8]) -> (r: Option<String>)
    ensures
        text::opt_owned(r) == id_of(name@),
{
    match bytes::utf8(name) {
        None => None,
        Some(t) => {
            let cs = text::chars_of(t.as_str());
            if cs.len() < 4 {
                return None;
            }
            let n = cs.len() - 4;
            let end = text::string_of(cs.as_slice(), n, cs.len());
            assert(end@ =~= t@.skip(n as int));
            if text::same(end.as_str(), ".cmd") {
                let id = text::string_of(cs.as_slice(), 0, n);
                assert(id@ =~= t@.take(n as int));
                Some(id)
            } else {
                None
            }
        },
    }
}

/// The script of a job: it records its process, runs the command with all output going to a file,
/// and records the command's status. The command's last line ends where the command does, so a
/// comment there takes in nothing of the script.
pub open spec fn job_script(dir: Seq<u8>, id: Seq<char>, command: Seq<char>) -> Seq<char> {
    "echo $$ > "@ + quoted(bytes::shown(job_file(dir, id, ".pid"@))) + "; ( "@ + command
        + "\n) > "@ + quoted(bytes::shown(job_file(dir, id, ".out"@))) + " 2>&1; echo $? > "@
        + quoted(bytes::shown(job_file(dir, id, ".status"@)))
}

/// How a command is started as a job at this time.
pub open spec fn job_plan(
    dir: Seq<u8>,
    nanos: nat,
    command: Seq<char>,
    description: Option<Seq<char>>,
) -> JobPlan {
    let id = job_id(nanos);
    JobPlan {
        id,
        out: job_file(dir, id, ".out"@),
        meta: job_file(dir, id, ".cmd"@),
        meta_text: meta_text(or_empty(description), command),
        script: job_script(dir, id, command),
    }
}

/// What is said of a job by the text of its status file.
pub open spec fn status_text(status: Option<Seq<char>>) -> Seq<char> {
    match status {
        Some(code) => "finished, exit code "@ + text::trim(code),
        None => "running"@,
    }
}

/// The line at this index, empty when there is none.
pub open spec fn line_or_empty(lines: Seq<Seq<char>>, i: int) -> Seq<char> {
    if i < lines.len() {
        lines[i]
    } else {
        Seq::empty()
    }
}

/// What a job is called in a listing: its description, or its command when that is empty.
pub open spec fn label(meta: Seq<char>) -> Seq<char> {
    let lines = text::lines(meta);
    if line_or_empty(lines, 0).len() == 0 {
        line_or_empty(lines, 1)
    } else {
        line_or_empty(lines, 0)
    }
}

/// The row of a job in a listing.
pub open spec fn entry_row(e: JobEntry) -> Seq<char> {
    e.id@ + "  "@ + status_text(text::opt_owned(e.status)) + "  "@ + label(
        or_empty(text::opt_owned(e.meta)),
    )
}

/// A listing of jobs.
pub open spec fn listing(entries: Seq<JobEntry>) -> Seq<char> {
    if entries.len() == 0 {
        "no background jobs"@
    } else {
        text::join(entries.map_values(|e: JobEntry| entry_row(e)), "\n"@)
    }
}

/// What is shown of a job: its status, where its output is and how many lines it has, and the last
/// `tail` of them.
pub open spec fn job_report(
    out: Seq<u8>,
    id: Seq<char>,
    status: Option<Seq<char>>,
    output: Seq<char>,
    tail: nat,
) -> Seq<char> {
    let lines = text::lines(output);
    let last = if lines.len() > tail {
        lines.skip(lines.len() - tail)
    } else {
        lines
    };
    "job "@ + id + ": "@ + status_text(status) + "\noutput: "@ + bytes::shown(out) + " ("@
        + number::decimal(lines.len()) + " lines"@ + (if lines.len() > tail {
        ", last "@ + number::decimal(tail)
    } else {
        Seq::empty()
    }) + ")\n"@ + text::join(last, "\n"@) + (if lines.len() > 0 {
        "\n"@
    } else {
        Seq::empty()
    })
}

/// The text of what an output file holds, empty when it could not be read.
pub open spec fn output_text(held: Option<&[u8]>) -> Seq<char> {
    match held {
        Some(held) => bytes::shown(held@),
        None => Seq::empty(),
    }
}

/// The text that is there, empty when there is none.
fn or_nothing(s: Option<&str>) -> (r: String)
    ensures
        r@ == or_empty(text::opt(s)),
{
    match s {
        Some(s) => s.to_owned(),
        None => String::new(),
    }
}

/// A copy of the line at this index, empty when there is none.
fn copy_line(lines: &Vec<String>, i: usize) -> (r: String)
    ensures
        r@ == line_or_empty(text::texts(lines@), i as int),
{
    if i < lines.len() {
        assert(text::texts(lines@)[i as int] == lines@[i as int]@);
        lines[i].clone()
    } else {
        String::new()
    }
}

/// What a job is called in a listing.
fn write_label(meta: &str) -> (r: String)
    ensures
        r@ == label(meta@),
{
    let lines = text::split_lines(meta);
    let description = copy_line(&lines, 0);
    if description.as_str().is_empty() {
        copy_line(&lines, 1)
    } else {
        description
    }
}

/// The row of a job in a listing.
fn write_entry(e: &JobEntry) -> (r: String)
    ensures
        r@ == entry_row(*e),
{
    let status = match &e.status {
        Some(code) => status_of(Some(code.as_str())),
        None => status_of(None),
    };
    let name = match &e.meta {
        Some(meta) => write_label(meta.as_str()),
        None => write_label(""),
    };
    proof {
        reveal_strlit("");
        assert(""@ =~= Seq::empty());
    }
    let mut out = e.id.clone();
    out.append("  ");
    out.append(status.as_str());
    out.append("  ");
    out.append(name.as_str());
    out
}

/// What is said of a job by the text of its status file.
fn status_of(status: Option<&str>) -> (r: String)
    ensures
        r@ == status_text(text::opt(status)),
{
    match status {
        Some(code) => {
            let mut out = "finished, exit code ".to_owned();
            let trimmed = text::trimmed(code);
            out.append(trimmed.as_str());
            out
        },
        None => "running".to_owned(),
    }
}

impl Jobs {
    /// Where the files of the jobs are.
    pub closed spec fn dir(&self) -> Seq<u8> {
        self.dir@
    }

    /// The jobs of the program of this name: their files stand in its directory `jobs` under the
    /// runtime directory, or under the directory for temporary files when there is none.
    pub fn open(runtime_dir: Option<&[u8]>, temp_dir: &[u8], program: &str) -> (r: Jobs)
        ensures
            r.dir() == path::push(
                path::push(
                    match runtime_dir {
                        Some(dir) => dir@,
                        None => temp_dir@,
                    },
                    encode_utf8(program@),
                ),
                encode_utf8("jobs"@),
            ),
    {
        let base = match runtime_dir {
            Some(dir) => dir,
            None => temp_dir,
        };
        let ours = path::pushed(base, program.as_bytes());
        Jobs { dir: path::pushed(ours.as_slice(), "jobs".as_bytes()) }
    }

    /// The directory of the job files.
    pub fn directory(&self) -> (r: Vec<u8>)
        ensures
            r@ == self.dir(),
    {
        vstd::slice::slice_to_vec(self.dir.as_slice())
    }

    /// The file of a job with this suffix.
    pub fn file(&self, id: &str, suffix: &str) -> (r: Vec<u8>)
        ensures
            r@ == job_file(self.dir(), id@, suffix@),
    {
        let mut name = id.to_owned();
        name.append(suffix);
        path::pushed(self.dir.as_slice(), name.as_str().as_bytes())
    }

    /// The ids of the jobs, in order, by the names of the files in the directory.
    pub fn ids(&self, names: &Vec<Vec<u8>>) -> (r: Vec<String>)
        ensures
            text::sorted(text::texts(r@)),
            text::texts(r@).to_multiset() == ids_in(bytes::views(names@)).to_multiset(),
    {
        let mut found: Vec<String> = Vec::new();
        let ghost all = bytes::views(names@);
        let mut i: usize = 0;
        assert(all.take(0) =~= Seq::empty());
        assert(text::texts(found@) =~= ids_in(all.take(0)));
        while i < names.len()
            invariant
                i <= names@.len(),
                all == bytes::views(names@),
                text::texts(found@) == ids_in(all.take(i as int)),
            decreases names@.len() - i,
        {
            let ghost before = text::texts(found@);
            assert(all.take(i + 1).drop_last() =~= all.take(i as int));
            assert(all.take(i + 1).last() == names@[i as int]@);
            if let Some(id) = id_of_name(names[i].as_slice()) {
                found.push(id);
                assert(text::texts(found@) =~= before.push(id@));
            }
            i += 1;
        }
        assert(all.take(i as int) =~= all);
        text::sort(&found)
    }

    /// How `command` is started as a job at this time. The description is recorded for listings and
    /// is no part of what is run.
    pub fn start(&self, nanos: u128, command: &str, description: Option<&str>) -> (r: JobStart)
        ensures
            r@ == job_plan(self.dir(), nanos as nat, command@, text::opt(description)),
    {
        let id = number::write_hex(nanos % 0x1_0000_0000);
        let out = self.file(id.as_str(), ".out");
        let status = self.file(id.as_str(), ".status");
        let meta = self.file(id.as_str(), ".cmd");
        let pid = self.file(id.as_str(), ".pid");
        let mut described = or_nothing(description);
        described.append("\n");
        described.append(command);
        described.append("\n");
        let pid_word = shell_quote(pid.as_slice());
        let out_word = shell_quote(out.as_slice());
        let status_word = shell_quote(status.as_slice());
        let mut script = "echo $$ > ".to_owned();
        script.append(pid_word.as_str());
        script.append("; ( ");
        script.append(command);
        script.append("\n) > ");
        script.append(out_word.as_str());
        script.append(" 2>&1; echo $? > ");
        script.append(status_word.as_str());
        JobStart { job: Job { id, out }, meta, meta_text: described, script }
    }

    /// What is said of a job by the text of its status file, `None` when it could not be read.
    pub fn status(&self, status: Option<&str>) -> (r: String)
        ensures
            r@ == status_text(text::opt(status)),
    {
        status_of(status)
    }

    /// A listing of jobs, one row each.
    pub fn list(&self, entries: &Vec<JobEntry>) -> (r: String)
        ensures
            r@ == listing(entries@),
    {
        if entries.len() == 0 {
            return "no background jobs".to_owned();
        }
        let mut shown: Vec<String> = Vec::new();
        let ghost all = entries@.map_values(|e: JobEntry| entry_row(e));
        let mut i: usize = 0;
        assert(text::texts(shown@) =~= all.take(0));
        while i < entries.len()
            invariant
                i <= entries@.len(),
                all == entries@.map_values(|e: JobEntry| entry_row(e)),
                text::texts(shown@) == all.take(i as int),
            decreases entries@.len() - i,
        {
            let ghost before = text::texts(shown@);
            let one = write_entry(&entries[i]);
            shown.push(one);
            assert(text::texts(shown@) =~= before.push(one@));
            assert(all.take(i + 1) =~= all.take(i as int).push(one@));
            i += 1;
        }
        assert(all.take(i as int) =~= all);
        text::joined(&shown, "\n")
    }

    /// The status of a job and the end of its output, capped. `known` says whether the file that
    /// describes the job is there; `output` is what its output file holds, and `status` the text
    /// of its status file, `None` when one could not be read.
    pub fn show(
        &self,
        id: &str,
        known: bool,
        output: Option<&[u8]>,
        status: Option<&str>,
        tail: usize,
    ) -> (r: Result<String, ShellError>)
        ensures
            match r {
                Ok(s) => known && s@ == capped(
                    job_report(
                        job_file(self.dir(), id@, ".out"@),
                        id@,
                        text::opt(status),
                        output_text(output),
                        tail as nat,
                    ),
                ),
                Err(e) => !known && (e matches ShellError::NoJob { id: missing } && missing@
                    == id@),
            },
    {
        if !known {
            return Err(ShellError::NoJob { id: id.to_owned() });
        }
        let out = self.file(id, ".out");
        let held = match output {
            Some(held) => bytes::lossy(held),
            None => String::new(),
        };
        let lines = text::split_lines(held.as_str());
        let ghost all = text::lines(held@);
        assert(lines@.len() == all.len());
        let start: usize = if lines.len() > tail {
            lines.len() - tail
        } else {
            0
        };
        let mut last: Vec<String> = Vec::new();
        let mut i: usize = start;
        assert(text::texts(last@) =~= all.subrange(start as int, start as int));
        while i < lines.len()
            invariant
                start <= i <= lines@.len(),
                all == text::texts(lines@),
                text::texts(last@) == all.subrange(start as int, i as int),
            decreases lines@.len() - i,
        {
            let ghost before = text::texts(last@);
            let line = lines[i].clone();
            assert(all[i as int] == lines@[i as int]@);
            last.push(line);
            assert(text::texts(last@) =~= before.push(line@));
            assert(all.subrange(start as int, i + 1) =~= all.subrange(start as int, i as int).push(
                line@,
            ));
            i += 1;
        }
        assert(all.subrange(start as int, i as int) =~= (if all.len() > tail {
            all.skip(all.len() - tail)
        } else {
            all
        }));
        let status = status_of(status);
        let place = path::display(out.as_slice());
        let count = number::write_decimal(lines.len() as u128);
        let body = text::joined(&last, "\n");
        let mut s = "job ".to_owned();
        s.append(id);
        s.append(": ");
        s.append(status.as_str());
        s.append("\noutput: ");
        s.append(place.as_str());
        s.append(" (");
        s.append(count.as_str());
        s.append(" lines");
        let ghost head = s@;
        if start > 0 {
            let wanted = number::write_decimal(tail as u128);
            s.append(", last ");
            s.append(wanted.as_str());
            assert(s@ =~= head + (", last "@ + number::decimal(tail as nat)));
        } else {
            assert(s@ =~= head + Seq::empty());
        }
        s.append(")\n");
        s.append(body.as_str());
        if lines.len() > 0 {
            s.append("\n");
        } else {
            assert(s@ =~= s@ + Seq::empty());
        }
        Ok(cap(s))
    }

    /// The process group that ends a job, by the text of the file with its process, `None` when it
    /// could not be read: the process leads its group, and a group is written as a negative number.
    pub fn stop(&self, id: &str, pid: Option<&str>) -> (r: Result<i32, ShellError>)
        ensures
            match (r, process_of(pid)) {
                (Ok(group), Some(process)) => group == (if process == i32::MIN {
                    i32::MIN as int
                } else {
                    -process
                }),
                (Err(e), None) => e matches ShellError::NoJob { id: missing } && missing@ == id@,
                _ => false,
            },
    {
        match pid {
            Some(held) => {
                let trimmed = text::trimmed(held);
                match number::read_i32(trimmed.as_str()) {
                    Some(process) => if process == i32::MIN {
                        Ok(process)
                    } else {
                        Ok(-process)
                    },
                    None => Err(ShellError::NoJob { id: id.to_owned() }),
                }
            },
            None => Err(ShellError::NoJob { id: id.to_owned() }),
        }
    }
}

/// The process that the text of a job's file names.
pub open spec fn process_of(pid: Option<&str>) -> Option<i32> {
    match pid {
        Some(held) => number::i32_value(text::trim(held@)),
        None => None,
    }
}

proof fn lemma_hex_ascii(n: nat)
    ensures
        number::in_base(n, 16).len() > 0,
        forall|i: int|
            0 <= i < number::in_base(n, 16).len() ==> {
                ||| '0' <= #[trigger] number::in_base(n, 16)[i] <= '9'
                ||| 'a' <= number::in_base(n, 16)[i] <= 'f'
            },
    decreases n,
{
    if n >= 16 {
        lemma_hex_ascii(n / 16);
        let front = number::in_base(n / 16, 16);
        assert forall|i: int| 0 <= i < number::in_base(n, 16).len() implies ({
            ||| '0' <= #[trigger] number::in_base(n, 16)[i] <= '9'
            ||| 'a' <= number::in_base(n, 16)[i] <= 'f'
        }) by {
            if i < front.len() {
                assert(number::in_base(n, 16)[i] == front[i]);
            }
        }
    }
}

/// A job that was started is found again: the file that describes it stands in the directory of
/// the jobs, and a listing reads its id from the name of that file.
pub proof fn started_job_is_listed(dir: Seq<u8>, nanos: nat)
    ensures
        ({
            let id = job_id(nanos);
            let name = encode_utf8(id + ".cmd"@);
            &&& path::file_name(job_file(dir, id, ".cmd"@)) == Some(name)
            &&& id_of(name) == Some(id)
        }),
{
    let id = job_id(nanos);
    let whole = id + ".cmd"@;
    let name = encode_utf8(whole);
    lemma_hex_ascii(nanos % 0x1_0000_0000);
    reveal_strlit(".cmd");
    assert(is_ascii_chars(whole)) by {
        assert forall|i: int| 0 <= i < whole.len() implies '\0' <= #[trigger] whole[i] <= '\u{7f}'
            by {
            if i < id.len() {
                assert(whole[i] == id[i]);
            } else {
                assert(whole[i] == ".cmd"@[i - id.len()]);
            }
        }
    }
    is_ascii_chars_encode_utf8(whole);
    encode_utf8_valid_utf8(whole);
    encode_utf8_decode_utf8(whole);
    assert(whole.skip(whole.len() - 4) =~= ".cmd"@);
    assert(whole.take(whole.len() - 4) =~= id);
    assert(name.len() == whole.len());
    assert(path::plain(name)) by {
        assert(name.len() > path::dot().len());
        assert forall|i: int| 0 <= i < name.len() implies name[i] != path::SLASH by {
            assert(name[i] == whole[i] as u8);
            if i < id.len() {
                assert(whole[i] == id[i]);
            } else {
                assert(whole[i] == ".cmd"@[i - id.len()]);
            }
        }
    }
    assert(name.len() > path::dotdot().len());
    path::file_name_of_push(dir, name);
}

/// A job is called what it was described as, when the description is a line of its own; without a
/// description it is called by its command, when that is one.
pub proof fn job_is_called(description: Seq<char>, command: Seq<char>)
    requires
        !description.contains('\n'),
        description.len() > 0 ==> description.last() != '\r',
    ensures
        description.len() > 0 ==> label(meta_text(description, command)) == description,
        description.len() == 0 && !command.contains('\n') && (command.len() > 0 ==> command.last()
            != '\r') ==> label(meta_text(description, command)) == command,
{
    reveal_strlit("\n");
    let meta = meta_text(description, command);
    let n = description.len() as int;
    assert forall|i: int| 0 <= i < n implies meta[i] != '\n' by {
        assert(meta[i] == description[i]);
    }
    assert(meta[n] == '\n');
    text::lemma_first_at_is(meta, '\n', n);
    assert(meta.take(n) =~= description);
    let rest = meta.skip(n + 1);
    assert(rest =~= command + "\n"@);
    let lines = text::lines(meta);
    assert(lines[0] == description);
    if description.len() == 0 && !command.contains('\n') && (command.len() > 0 ==> command.last()
        != '\r') {
        let m = command.len() as int;
        assert forall|i: int| 0 <= i < m implies rest[i] != '\n' by {
            assert(rest[i] == command[i]);
        }
        assert(rest[m] == '\n');
        text::lemma_first_at_is(rest, '\n', m);
        assert(rest.take(m) =~= command);
        assert(text::lines(rest)[0] == command);
        assert(lines[1] == text::lines(rest)[0]);
    }
}

} // verus!
