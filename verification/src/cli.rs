//! The command line: the names that the program is run under, and the options of the server.

use vstd::prelude::*;
use vstd::utf8::*;

use crate::bytes;
use crate::path;
use crate::text;

verus! {

/// What the program is run as.
#[derive(Debug, Clone, Copy, PartialEq, Eq, Structural)]
pub enum Invocation {
    Xclip,
    Open,
    XdgOpen,
    Server,
}

/// What the program is run as, by the path it is run under.
pub open spec fn invocation(program: Option<Seq<u8>>) -> Invocation {
    match program {
        Some(p) => match path::file_name(p) {
            Some(name) => if name == encode_utf8("xclip"@) {
                Invocation::Xclip
            } else if name == encode_utf8("open"@) {
                Invocation::Open
            } else if name == encode_utf8("xdg-open"@) {
                Invocation::XdgOpen
            } else {
                Invocation::Server
            },
            None => Invocation::Server,
        },
        None => Invocation::Server,
    }
}

/// What the program is run as, by the path it is run under.
pub fn invoked_as(program: Option<&[u8]>) -> (r: Invocation)
    ensures
        r == invocation(match program {
            Some(p) => Some(p@),
            None => None,
        }),
{
    match program {
        None => Invocation::Server,
        Some(p) => match path::file_name_of(p) {
            None => Invocation::Server,
            Some(name) => if bytes::same(name.as_slice(), "xclip".as_bytes()) {
                Invocation::Xclip
            } else if bytes::same(name.as_slice(), "open".as_bytes()) {
                Invocation::Open
            } else if bytes::same(name.as_slice(), "xdg-open".as_bytes()) {
                Invocation::XdgOpen
            } else {
                Invocation::Server
            },
        },
    }
}

/// What the next arguments say.
#[derive(Debug)]
pub enum CliStep {
    /// The call cannot be understood.
    Usage,
    /// It is one of the server; the options follow.
    Serve,
    /// This directory is to be served.
    Root { dir: String },
    /// The shell is to start in this directory.
    Cwd { dir: String },
    /// There are no more.
    End,
}

/// What a `CliStep` says.
pub ghost enum Meaning {
    Usage,
    Serve,
    Root { dir: Seq<char> },
    Cwd { dir: Seq<char> },
    End,
}

impl View for CliStep {
    type V = Meaning;

    open spec fn view(&self) -> Meaning {
        match *self {
            CliStep::Usage => Meaning::Usage,
            CliStep::Serve => Meaning::Serve,
            CliStep::Root { dir } => Meaning::Root { dir: dir@ },
            CliStep::Cwd { dir } => Meaning::Cwd { dir: dir@ },
            CliStep::End => Meaning::End,
        }
    }
}

/// What the arguments from `at` on say. The first one is `serve`. Options follow, each with a value
/// behind it.
pub open spec fn meaning(args: Seq<Seq<char>>, at: nat) -> Meaning {
    if at == 0 {
        if args.len() > 0 && args[0] == "serve"@ {
            Meaning::Serve
        } else {
            Meaning::Usage
        }
    } else if at >= args.len() {
        Meaning::End
    } else if at + 1 >= args.len() {
        Meaning::Usage
    } else if args[at as int] == "--root"@ {
        Meaning::Root { dir: args[at as int + 1] }
    } else if args[at as int] == "--cwd"@ {
        Meaning::Cwd { dir: args[at as int + 1] }
    } else {
        Meaning::Usage
    }
}

/// How many arguments that takes.
pub open spec fn width(m: Meaning) -> nat {
    match m {
        Meaning::Serve => 1,
        Meaning::Root { dir } => 2,
        Meaning::Cwd { dir } => 2,
        _ => 0,
    }
}

/// What the arguments from `at` on say, and where the next ones start.
pub fn cli_step(args: &Vec<String>, at: usize) -> (r: (CliStep, usize))
    requires
        at <= args@.len(),
    ensures
        r.0@ == meaning(text::texts(args@), at as nat),
        r.1 == at + width(r.0@),
        r.1 <= args@.len(),
{
    let ghost all = text::texts(args@);
    assert(all.len() == args@.len());
    if at == 0 {
        if args.len() > 0 {
            assert(all[0] == args@[0]@);
            if text::same(args[0].as_str(), "serve") {
                return (CliStep::Serve, 1);
            }
        }
        return (CliStep::Usage, 0);
    }
    if at == args.len() {
        return (CliStep::End, at);
    }
    if at + 1 == args.len() {
        return (CliStep::Usage, at);
    }
    assert(all[at as int] == args@[at as int]@);
    assert(all[at + 1] == args@[at + 1]@);
    if text::same(args[at].as_str(), "--root") {
        (CliStep::Root { dir: args[at + 1].clone() }, at + 2)
    } else if text::same(args[at].as_str(), "--cwd") {
        (CliStep::Cwd { dir: args[at + 1].clone() }, at + 2)
    } else {
        (CliStep::Usage, at)
    }
}

/// What the options of the server add up to.
#[derive(Debug)]
pub struct Settings {
    /// The directories that are served.
    pub roots: Vec<Vec<u8>>,
    /// Where the shell starts.
    pub cwd: Vec<u8>,
}

impl Settings {
    /// Without options, the shell starts where the server was started.
    pub fn new(start: Vec<u8>) -> (r: Settings)
        ensures
            bytes::views(r.roots@) == Seq::<Seq<u8>>::empty(),
            r.cwd == start,
    {
        let r = Settings { roots: Vec::new(), cwd: start };
        assert(bytes::views(r.roots@) =~= Seq::empty());
        r
    }

    /// One option more, whose directory has this canonical path.
    pub fn apply(&mut self, step: &CliStep, canonical: Vec<u8>)
        ensures
            match *step {
                CliStep::Root { dir } => {
                    &&& bytes::views(final(self).roots@) == bytes::views(old(self).roots@).push(
                        canonical@,
                    )
                    &&& final(self).cwd == old(self).cwd
                },
                CliStep::Cwd { dir } => {
                    &&& final(self).roots == old(self).roots
                    &&& final(self).cwd == canonical
                },
                _ => *final(self) == *old(self),
            },
    {
        match step {
            CliStep::Root { dir } => {
                let ghost before = bytes::views(self.roots@);
                self.roots.push(canonical);
                assert(bytes::views(self.roots@) =~= before.push(canonical@));
            },
            CliStep::Cwd { dir } => {
                self.cwd = canonical;
            },
            _ => {},
        }
    }

    /// All options taken: where none names a directory to serve, it is the one that the server was
    /// started in, whose canonical path is `start`. So at least one is served.
    pub fn finish(self, start: Vec<u8>) -> (r: Settings)
        ensures
            r.cwd == self.cwd,
            bytes::views(r.roots@) == (if self.roots@.len() == 0 {
                seq![start@]
            } else {
                bytes::views(self.roots@)
            }),
            r.roots@.len() > 0,
    {
        let mut out = self;
        if out.roots.len() == 0 {
            out.roots.push(start);
            assert(bytes::views(out.roots@) =~= seq![start@]);
        }
        out
    }
}

} // verus!
