//! Laws of the command line.

use vstd::prelude::*;
use vstd::utf8::*;

use crate::cli;
use crate::path;

verus! {

/// The program stands in for the one whose name it is run under, in whatever directory, and is the
/// server under any other name.
pub proof fn programs_are_run_by_name(dir: Seq<u8>, name: Seq<u8>)
    requires
        crate::laws::path::is_name(name),
        name != seq![46u8, 46u8],
    ensures
        ({
            let r = cli::invocation(Some(path::push(dir, name)));
            &&& (r == cli::Invocation::Xclip) <==> name == encode_utf8("xclip"@)
            &&& (r == cli::Invocation::Open) <==> name == encode_utf8("open"@)
            &&& (r == cli::Invocation::XdgOpen) <==> name == encode_utf8("xdg-open"@)
        }),
        cli::invocation(None) == cli::Invocation::Server,
{
    assert(path::dotdot() =~= seq![46u8, 46u8]);
    path::file_name_of_push(dir, name);
    reveal_strlit("xclip");
    reveal_strlit("open");
    reveal_strlit("xdg-open");
    is_ascii_chars_encode_utf8("xclip"@);
    is_ascii_chars_encode_utf8("open"@);
    is_ascii_chars_encode_utf8("xdg-open"@);
    assert(encode_utf8("xclip"@).len() == 5);
    assert(encode_utf8("open"@).len() == 4);
    assert(encode_utf8("xdg-open"@).len() == 8);
}

/// A path without a file name is run as the server.
pub proof fn nameless_paths_are_the_server(p: Seq<u8>)
    requires
        path::file_name(p) is None,
    ensures
        cli::invocation(Some(p)) == cli::Invocation::Server,
{
}

/// The arguments are `serve` and then pairs: a directory behind `--root` is served, one behind
/// `--cwd` is where the shell starts, and anything else, a pair cut short too, is not understood.
pub proof fn arguments_are_serve_and_pairs(
    args: Seq<Seq<char>>,
    option: Seq<char>,
    value: Seq<char>,
    rest: Seq<Seq<char>>,
)
    requires
        args.len() > 0,
    ensures
        cli::meaning(Seq::empty(), 0) == cli::Meaning::Usage,
        cli::meaning(args, 0) == (if args[0] == "serve"@ {
            cli::Meaning::Serve
        } else {
            cli::Meaning::Usage
        }),
        cli::meaning(args, args.len()) == cli::Meaning::End,
        cli::meaning(args.push(option), args.len()) == cli::Meaning::Usage,
        cli::meaning(args.push(option).push(value) + rest, args.len()) == (if option == "--root"@ {
            cli::Meaning::Root { dir: value }
        } else if option == "--cwd"@ {
            cli::Meaning::Cwd { dir: value }
        } else {
            cli::Meaning::Usage
        }),
{
}

/// `serve` takes one argument and an option two; nothing else takes any.
pub proof fn options_take_two_arguments(dir: Seq<char>)
    ensures
        cli::width(cli::Meaning::Serve) == 1,
        cli::width(cli::Meaning::Root { dir }) == 2,
        cli::width(cli::Meaning::Cwd { dir }) == 2,
        cli::width(cli::Meaning::Usage) == 0,
        cli::width(cli::Meaning::End) == 0,
{
}

/// A step of the command line says what it holds.
pub proof fn cli_steps_say_what_they_hold(dir: String)
    ensures
        cli::CliStep::Usage@ == cli::Meaning::Usage,
        cli::CliStep::Serve@ == cli::Meaning::Serve,
        (cli::CliStep::Root { dir })@ == (cli::Meaning::Root { dir: dir@ }),
        (cli::CliStep::Cwd { dir })@ == (cli::Meaning::Cwd { dir: dir@ }),
        cli::CliStep::End@ == cli::Meaning::End,
{
}

} // verus!
