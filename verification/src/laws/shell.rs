//! Laws of the shell tool and the background jobs.

use vstd::prelude::*;
use vstd::utf8::*;

use crate::bytes;
use crate::number;
use crate::path;
use crate::shell;
use crate::text;

verus! {

/// Whether a text parts into these three, with as much in the first and in the last as whole
/// characters let it have of 15000 bytes.
pub open spec fn parts_for_cutting(
    s: Seq<char>,
    head: Seq<char>,
    middle: Seq<char>,
    tail: Seq<char>,
) -> bool {
    &&& s == head + middle + tail
    &&& middle.len() > 0
    &&& encode_utf8(head).len() <= 15000
    &&& encode_utf8(tail).len() <= 15000
    &&& encode_utf8(head.push(middle[0])).len() > 15000
    &&& encode_utf8(seq![middle.last()] + tail).len() > 15000
}

/// Output of up to 30000 bytes stays as it is. Of more, the head and the tail stay, each with as
/// many whole characters as fit in half of that, and between them stands how many bytes were cut.
pub proof fn long_output_is_cut_in_the_middle(s: Seq<char>)
    ensures
        encode_utf8(s).len() <= 30000 ==> shell::capped(s) == s,
        encode_utf8(s).len() > 30000 ==> exists|head: Seq<char>, middle: Seq<char>, tail: Seq<char>|
            #[trigger] parts_for_cutting(s, head, middle, tail) && shell::capped(s) == head
                + "\n\n[… "@ + number::decimal(encode_utf8(middle).len())
                + " bytes cut from the middle of the output …]\n\n"@ + tail,
{
    if encode_utf8(s).len() > 30000 {
        let b = encode_utf8(s);
        let (h, t) = (shell::head_end(s), shell::tail_start(s));
        let head = decode_utf8(b.take(h));
        let middle = decode_utf8(b.subrange(h, t));
        let tail = decode_utf8(b.skip(t));
        shell::cut_keeps_both_ends(s);
        encode_utf8_valid_utf8(s);
        shell::lemma_floor_boundary(b, 15000);
        shell::lemma_ceil_boundary(b, b.len() - 15000);
        bytes::encode_of_concat(head + middle, tail);
        bytes::encode_of_concat(head, middle);
        assert(encode_utf8(middle).len() > 0);
        assert(middle.len() > 0) by {
            if middle.len() == 0 {
                assert(middle =~= Seq::empty());
                assert(encode_utf8(middle) =~= Seq::empty());
            }
        }
        // One character more at either side ends at a boundary, and none is that near.
        let more = head.push(middle[0]);
        let less = middle.skip(1) + tail;
        assert(more + less =~= s);
        lemma_boundary_between(more, less);
        bytes::encode_of_concat(head, seq![middle[0]]);
        assert(head + seq![middle[0]] =~= more);
        lemma_encoded_nonempty(middle[0]);
        let n = encode_utf8(head).len() as int;
        assert(n == h) by {
            shell::lemma_cut_valid(s);
            decode_utf8_encode_utf8(b.take(h));
        }
        assert(encode_utf8(more).len() > 15000);
        let front = head + middle.drop_last();
        let back = seq![middle.last()] + tail;
        assert(front + back =~= s);
        lemma_boundary_between(front, back);
        bytes::encode_of_concat(front, back);
        bytes::encode_of_concat(seq![middle.last()], tail);
        lemma_encoded_nonempty(middle.last());
        let k = encode_utf8(front).len() as int;
        assert(encode_utf8(tail).len() == b.len() - t) by {
            shell::lemma_cut_valid(s);
            decode_utf8_encode_utf8(b.skip(t));
        }
        assert(k < t);
        assert(encode_utf8(back).len() > 15000);
        assert(parts_for_cutting(s, head, middle, tail));
        let note = shell::cut_note(encode_utf8(middle).len());
        assert(head + note + tail =~= head + "\n\n[… "@ + number::decimal(
            encode_utf8(middle).len(),
        ) + " bytes cut from the middle of the output …]\n\n"@ + tail);
    }
}

proof fn lemma_encoded_nonempty(c: char)
    ensures
        encode_utf8(seq![c]).len() > 0,
{
    encode_utf8_first_scalar(seq![c]);
}

/// Where one text ends and another begins, a character begins.
proof fn lemma_boundary_between(a: Seq<char>, c: Seq<char>)
    ensures
        is_char_boundary(encode_utf8(a + c), encode_utf8(a).len() as int),
{
    let b = encode_utf8(a + c);
    let i = encode_utf8(a).len() as int;
    bytes::encode_of_concat(a, c);
    encode_utf8_valid_utf8(a + c);
    encode_utf8_valid_utf8(c);
    is_char_boundary_start_end_of_seq(b);
    if i < b.len() {
        let back = encode_utf8(c);
        is_char_boundary_start_end_of_seq(back);
        is_char_boundary_iff_not_is_continuation_byte(back, 0);
        assert(b[i] == back[0]);
        is_char_boundary_iff_not_is_continuation_byte(b, i);
    }
}

/// Both outputs are there, the second behind the first, on a line of its own.
pub proof fn outputs_stand_one_behind_the_other(out: Seq<char>, err: Seq<char>)
    ensures
        err.len() == 0 ==> shell::combined(out, err) == out,
        out.len() == 0 ==> shell::combined(out, err) == err,
        err.len() > 0 && out.len() > 0 && out.last() == '\n' ==> shell::combined(out, err) == out
            + err,
        err.len() > 0 && out.len() > 0 && out.last() != '\n' ==> shell::combined(out, err)
            == out.push('\n') + err,
{
    reveal_strlit("\n");
    if out.len() == 0 {
        assert(out + err =~= err);
        if err.len() == 0 {
            assert(out =~= err);
        }
    }
    assert(out + "\n"@ + err =~= out.push('\n') + err);
}

/// Inside the single quotes every character stands for itself, and a single quote is written as one
/// that closes them, one behind a backslash, and one that opens them again.
pub proof fn quotes_are_closed_around_quotes(c: char, s: Seq<char>)
    ensures
        shell::quoted(Seq::empty()) == seq!['\'', '\''],
        c != '\'' ==> shell::quoted(seq![c] + s) == seq!['\'', c] + shell::quoted(s).skip(1),
        shell::quoted(seq!['\''] + s) == seq!['\'', '\'', '\\', '\'', '\''] + shell::quoted(
            s,
        ).skip(1),
{
    let none = Seq::<char>::empty();
    assert(shell::quoted(none) =~= seq!['\'', '\'']);
    assert((seq![c] + s).skip(1) =~= s);
    assert((seq!['\''] + s).skip(1) =~= s);
    if c != '\'' {
        assert(shell::quoted(seq![c] + s) =~= seq!['\'', c] + shell::quoted(s).skip(1));
    }
    assert(shell::quoted(seq!['\''] + s) =~= seq!['\'', '\'', '\\', '\'', '\'']
        + shell::quoted(s).skip(1));
}

/// The script of a command is the command and a line that no command changes. That line saves the
/// command's status before anything else, writes the directory to the marker, which it names as one
/// word, and at last leaves the shell with the saved status.
pub proof fn scripts_end_with_the_status_of_the_command(
    command: Seq<char>,
    other: Seq<char>,
    marker: Seq<u8>,
)
    ensures
        ({
            let whole = shell::script(command, marker);
            let line = whole.skip(command.len() as int);
            let save = "\n__rc=$?; pwd > "@;
            let leave = " 2>/dev/null; exit $__rc"@;
            let word = line.subrange(save.len() as int, line.len() - leave.len());
            &&& whole.len() >= command.len() && whole.take(command.len() as int) == command
            &&& line == shell::script(other, marker).skip(other.len() as int)
            &&& save.len() + leave.len() <= line.len()
            &&& line.take(save.len() as int) == save
            &&& line.skip(line.len() - leave.len()) == leave
            &&& shell::shell_word(word, false) == Some(bytes::shown(marker))
        }),
{
    let save = "\n__rc=$?; pwd > "@;
    let leave = " 2>/dev/null; exit $__rc"@;
    let quoted = shell::quoted(bytes::shown(marker));
    let line = save + quoted + leave;
    let whole = shell::script(command, marker);
    assert(whole =~= command + line);
    assert(whole.skip(command.len() as int) =~= line);
    assert(whole.take(command.len() as int) =~= command);
    assert(shell::script(other, marker) =~= other + line);
    assert(shell::script(other, marker).skip(other.len() as int) =~= line);
    assert(line.take(save.len() as int) =~= save);
    assert(line.skip(line.len() - leave.len()) =~= leave);
    assert(line.subrange(save.len() as int, line.len() - leave.len()) =~= quoted);
    shell::quoted_reads_back(bytes::shown(marker));
}

/// The script of a job is the same around every command: it records its process, runs the command
/// in a shell of its own that ends on a line of its own, sends both outputs to the job's file, and
/// records the status of that. The files are named as single words.
pub proof fn job_scripts_run_the_command_and_record_it(
    dir: Seq<u8>,
    id: Seq<char>,
    command: Seq<char>,
)
    ensures
        exists|pid: Seq<char>, out: Seq<char>, status: Seq<char>|
            #![trigger shell::shell_word(pid, false), shell::shell_word(out, false),
                shell::shell_word(status, false)]
            shell::shell_word(pid, false) == Some(
                bytes::shown(path::push(dir, encode_utf8(id + ".pid"@))),
            ) && shell::shell_word(out, false) == Some(
                bytes::shown(path::push(dir, encode_utf8(id + ".out"@))),
            ) && shell::shell_word(status, false) == Some(
                bytes::shown(path::push(dir, encode_utf8(id + ".status"@))),
            ) && shell::job_script(dir, id, command) == "echo $$ > "@ + pid + "; ( "@ + command
                + "\n) > "@ + out + " 2>&1; echo $? > "@ + status,
{
    let pid_file = bytes::shown(path::push(dir, encode_utf8(id + ".pid"@)));
    let out_file = bytes::shown(path::push(dir, encode_utf8(id + ".out"@)));
    let status_file = bytes::shown(path::push(dir, encode_utf8(id + ".status"@)));
    shell::quoted_reads_back(pid_file);
    shell::quoted_reads_back(out_file);
    shell::quoted_reads_back(status_file);
    let (pid, out, status) = (
        shell::quoted(pid_file),
        shell::quoted(out_file),
        shell::quoted(status_file),
    );
    assert(shell::shell_word(pid, false) == Some(pid_file));
    assert(shell::shell_word(out, false) == Some(out_file));
    assert(shell::shell_word(status, false) == Some(status_file));
}

/// A job has its files in the directory of the jobs, named by its id, which is the time's last
/// eight hexadecimal digits; it is started by its script, and its description and its command are
/// recorded one behind the other, each on its line.
pub proof fn jobs_are_started_under_their_id(
    dir: Seq<u8>,
    nanos: nat,
    command: Seq<char>,
    description: Option<Seq<char>>,
)
    ensures
        ({
            let r = shell::job_plan(dir, nanos, command, description);
            &&& r.id == number::in_base(nanos % 0x1_0000_0000, 16)
            &&& r.out == path::push(dir, encode_utf8(r.id + ".out"@))
            &&& r.meta == path::push(dir, encode_utf8(r.id + ".cmd"@))
            &&& r.script == shell::job_script(dir, r.id, command)
            &&& description matches Some(said) ==> r.meta_text == said + "\n"@ + command + "\n"@
            &&& description is None ==> r.meta_text == "\n"@ + command + "\n"@
        }),
{
    assert(Seq::<char>::empty() + "\n"@ =~= "\n"@);
}

/// The file of a job stands in the directory of the jobs, under the job's id with the suffix.
pub proof fn job_files_are_named_by_id(dir: Seq<u8>, id: Seq<char>, suffix: Seq<char>)
    ensures
        shell::job_file(dir, id, suffix) == path::push(dir, encode_utf8(id + suffix)),
{
}

/// A file describes a job exactly when its name is the id with `.cmd` behind it.
pub proof fn jobs_are_known_by_their_file(id: Seq<char>, name: Seq<u8>)
    ensures
        shell::id_of(encode_utf8(id + ".cmd"@)) == Some(id),
        shell::id_of(name) matches Some(found) ==> name == encode_utf8(found + ".cmd"@),
{
    let whole = id + ".cmd"@;
    reveal_strlit(".cmd");
    encode_utf8_valid_utf8(whole);
    encode_utf8_decode_utf8(whole);
    assert(whole.skip(whole.len() - 4) =~= ".cmd"@);
    assert(whole.take(whole.len() - 4) =~= id);
    if let Some(found) = shell::id_of(name) {
        let t = decode_utf8(name);
        decode_utf8_encode_utf8(name);
        assert(t =~= found + ".cmd"@);
    }
}

/// The jobs of a directory are those that its files describe, and no other file adds one.
pub proof fn every_described_job_is_listed(names: Seq<Seq<u8>>, name: Seq<u8>)
    ensures
        shell::ids_in(Seq::empty()) == Seq::<Seq<char>>::empty(),
        shell::id_of(name) matches Some(id) ==> shell::ids_in(names.push(name)) == shell::ids_in(
            names,
        ).push(id),
        shell::id_of(name) is None ==> shell::ids_in(names.push(name)) == shell::ids_in(names),
{
    assert(names.push(name).drop_last() =~= names);
}

/// A job has finished once its status file can be read, with the code that stands there, and runs
/// until then.
pub proof fn jobs_run_until_their_status_is_there(
    before: Seq<char>,
    code: Seq<char>,
    after: Seq<char>,
)
    requires
        crate::laws::text::blank(before),
        crate::laws::text::blank(after),
        code.len() > 0 ==> !text::white_space(code[0]) && !text::white_space(code.last()),
    ensures
        shell::status_text(None) == "running"@,
        shell::status_text(Some(before + code + after)) == "finished, exit code "@ + code,
{
    crate::laws::text::trimming_keeps_the_middle(before, code, after);
}

/// A job is called by the first line of its text, by the second where the first is empty, and by
/// nothing where there is neither.
pub proof fn jobs_are_called_by_their_first_line(
    line: Seq<char>,
    command: Seq<char>,
    rest: Seq<char>,
)
    requires
        !line.contains('\n'),
        !command.contains('\n'),
        line.len() > 0 ==> line.last() != '\r',
        command.len() > 0 ==> command.last() != '\r',
    ensures
        shell::label(Seq::empty()) == Seq::<char>::empty(),
        line.len() > 0 ==> shell::label(line.push('\n') + rest) == line,
        shell::label(seq!['\n'] + (command.push('\n') + rest)) == command,
        shell::label(seq!['\n']) == Seq::<char>::empty(),
{
    let none = Seq::<char>::empty();
    crate::laws::text::lines_end_at_line_feeds(line, rest);
    crate::laws::text::lines_end_at_line_feeds(command, rest);
    let back = command.push('\n') + rest;
    crate::laws::text::lines_end_at_line_feeds(none, back);
    assert(none.push('\n') + back =~= seq!['\n'] + back);
    crate::laws::text::lines_end_at_line_feeds(none, none);
    assert(none.push('\n') + none =~= seq!['\n']);
}

/// A listing has a row for each job, one below the other, in their order: the id, the status, and
/// what the job is called.
pub proof fn listings_have_a_row_for_each_job(entries: Seq<shell::JobEntry>, e: shell::JobEntry)
    ensures
        ({
            let row = e.id@ + "  "@ + shell::status_text(text::opt_owned(e.status)) + "  "@
                + shell::label(
                match e.meta {
                    Some(meta) => meta@,
                    None => Seq::empty(),
                },
            );
            &&& shell::listing(Seq::empty()) == "no background jobs"@
            &&& shell::listing(seq![e]) == row
            &&& entries.len() > 0 ==> shell::listing(entries.push(e)) == shell::listing(entries)
                + "\n"@ + row
        }),
{
    let each = |e: shell::JobEntry| shell::entry_row(e);
    let row = shell::entry_row(e);
    assert(seq![e].map_values(each) =~= seq![row]);
    assert(entries.push(e).map_values(each) =~= entries.map_values(each).push(row));
    crate::laws::text::joining_adds_one_part(entries.map_values(each), row, "\n"@);
}

/// Whether `shown` is the end of `lines`: as many as there are, up to `tail`, and counted from the
/// end each is the line of the whole.
pub open spec fn is_end_of(shown: Seq<Seq<char>>, lines: Seq<Seq<char>>, tail: nat) -> bool {
    &&& shown.len() == (if lines.len() < tail {
        lines.len()
    } else {
        tail
    })
    &&& forall|k: int|
        1 <= k <= shown.len() ==> #[trigger] shown[shown.len() - k] == lines[lines.len() - k]
}

/// What is shown of a job is its status, where its output is, how many lines that has and how many
/// of them are shown if not all are; and then the end of the output, each line on its own.
pub proof fn jobs_are_shown_by_their_end(
    out: Seq<u8>,
    id: Seq<char>,
    status: Option<Seq<char>>,
    output: Seq<char>,
    tail: nat,
)
    ensures
        exists|shown: Seq<Seq<char>>|
            #[trigger] is_end_of(shown, text::lines(output), tail) && shell::job_report(
                out,
                id,
                status,
                output,
                tail,
            ) == "job "@ + id + ": "@ + shell::status_text(status) + "\noutput: "@ + bytes::shown(
                out,
            ) + " ("@ + number::decimal(text::lines(output).len()) + " lines"@ + (if text::lines(
                output,
            ).len() > tail {
                ", last "@ + number::decimal(tail)
            } else {
                Seq::empty()
            }) + ")\n"@ + text::join(shown, "\n"@) + (if text::lines(output).len() > 0 {
                "\n"@
            } else {
                Seq::empty()
            }),
{
    let lines = text::lines(output);
    let shown = if lines.len() > tail {
        lines.skip(lines.len() - tail)
    } else {
        lines
    };
    assert forall|k: int| 1 <= k <= shown.len() implies #[trigger] shown[shown.len() - k]
        == lines[lines.len() - k] by {
        if lines.len() > tail {
            assert(shown[shown.len() - k] == lines[lines.len() - tail + shown.len() - k]);
        }
    }
    assert(is_end_of(shown, lines, tail));
}

/// The lines shown of a job are those of its output from the end: where one at least is shown, the
/// last is the last line of the output, and what is shown before it is the end of what stands
/// before it, with room for one line less.
pub proof fn the_last_line_of_a_job_is_shown_last(
    shown: Seq<Seq<char>>,
    lines: Seq<Seq<char>>,
    tail: nat,
)
    requires
        is_end_of(shown, lines, tail),
    ensures
        lines.len() > 0 && tail > 0 ==> shown.len() > 0 && shown.last() == lines.last(),
        lines.len() > 1 && tail > 1 ==> is_end_of(shown.drop_last(), lines.drop_last(), (tail - 1)
            as nat),
{
    if lines.len() > 0 && tail > 0 {
        assert(shown[shown.len() - 1] == lines[lines.len() - 1]);
    }
    if lines.len() > 1 && tail > 1 {
        let (s, l) = (shown.drop_last(), lines.drop_last());
        assert forall|k: int| 1 <= k <= s.len() implies #[trigger] s[s.len() - k] == l[l.len() - k]
            by {
            assert(shown[shown.len() - (k + 1)] == lines[lines.len() - (k + 1)]);
        }
    }
}

/// The output of a job is shown as the text of its bytes, and as none where there are none.
pub proof fn job_output_is_shown_as_text(held: &[u8])
    ensures
        shell::output_text(Some(held)) == bytes::shown(held@),
        shell::output_text(None) == Seq::<char>::empty(),
{
}

/// A marker names the directory that is written in it, with a line feed behind it or not.
pub proof fn markers_name_their_directory(dir: Seq<char>)
    ensures
        shell::named_dir(dir.push('\n')) == encode_utf8(dir),
        dir.len() == 0 || dir.last() != '\n' ==> shell::named_dir(dir) == encode_utf8(dir),
{
    assert(dir.push('\n').drop_last() =~= dir);
}

/// The process of a job is the number that its file holds, whatever white space stands around it.
pub proof fn processes_are_read_from_their_file(
    held: &str,
    before: Seq<char>,
    digits: Seq<char>,
    after: Seq<char>,
)
    requires
        crate::laws::text::blank(before),
        crate::laws::text::blank(after),
        digits.len() > 0,
        !text::white_space(digits[0]),
        !text::white_space(digits.last()),
        held@ == before + digits + after,
    ensures
        shell::process_of(Some(held)) == number::i32_value(digits),
        shell::process_of(None) is None,
{
    crate::laws::text::trimming_keeps_the_middle(before, digits, after);
}

/// A failure of the shell tool says what failed, and of which job or path.
pub proof fn shell_failures_say_what_failed(path: Vec<u8>, reason: String, id: String)
    ensures
        shell::error_text(shell::ShellError::CannotStartBash) == "cannot start bash"@,
        shell::error_text(shell::ShellError::NoStatus) == "bash did not report a status"@,
        shell::error_text(shell::ShellError::CannotCreate { path }) == "cannot create "@
            + bytes::shown(path@),
        shell::error_text(shell::ShellError::CannotDescribe { reason }) == reason@,
        shell::error_text(shell::ShellError::CannotStartJob)
            == "cannot start the background job (is setsid installed?)"@,
        shell::error_text(shell::ShellError::NoJob { id }) == "no job "@ + id@,
{
}

/// How a job is started is what its parts say.
pub proof fn starts_hold_what_they_hold(start: shell::JobStart)
    ensures
        start@.id == start.job.id@,
        start@.out == start.job.out@,
        start@.meta == start.meta@,
        start@.meta_text == start.meta_text@,
        start@.script == start.script@,
{
}

} // verus!
