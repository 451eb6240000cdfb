//! Command-line flags. Running a command (files, autostart, printing) is the
//! caller's part; paths are carried as text.
use vstd::prelude::*;
use crate::notes_view::string_views;
use crate::text::{chars_eq, chars_of, starts_with, starts_with_exec};

verus! {

#[derive(Debug, Clone, PartialEq, Eq)]
pub enum Command {
    Run,
    InstallAutostart,
    UninstallAutostart,
    Help,
    Export(String),
    Backup(String),
    Restore(String),
    ImportBookmarks(String),
    SyncVault(Option<String>),
}

/// A command as plain values: its tag and its argument.
pub open spec fn command_view(c: Command) -> (int, Option<Seq<char>>) {
    match c {
        Command::Run => (0, None),
        Command::InstallAutostart => (1, None),
        Command::UninstallAutostart => (2, None),
        Command::Help => (3, None),
        Command::Export(p) => (4, Some(p@)),
        Command::Backup(p) => (5, Some(p@)),
        Command::Restore(p) => (6, Some(p@)),
        Command::ImportBookmarks(w) => (7, Some(w@)),
        Command::SyncVault(p) => (
            8,
            match p {
                Some(s) => Some(s@),
                None => None,
            },
        ),
    }
}

/// The command a flag at position `i` selects, if it is a known flag.
pub open spec fn flag_command(args: Seq<Seq<char>>, i: int) -> Option<(int, Option<Seq<char>>)> {
    let a = args[i];
    let next = if i + 1 < args.len() {
        Some(args[i + 1])
    } else {
        None
    };
    let with_arg = |tag: int|
        match next {
            Some(p) => (tag, Some(p)),
            None => (0int, None::<Seq<char>>),
        };
    if a == "--install-autostart"@ {
        Some((1, None))
    } else if a == "--uninstall-autostart"@ {
        Some((2, None))
    } else if a == "--help"@ || a == "-h"@ {
        Some((3, None))
    } else if a == "--export"@ {
        Some(with_arg(4))
    } else if a == "--backup"@ {
        Some(with_arg(5))
    } else if a == "--restore"@ {
        Some(with_arg(6))
    } else if a == "--import-bookmarks"@ {
        Some(with_arg(7))
    } else if a == "--sync-vault"@ {
        Some(
            (
                8,
                match next {
                    Some(p) => if starts_with(p, "--"@) {
                        None
                    } else {
                        Some(p)
                    },
                    None => None,
                },
            ),
        )
    } else {
        None
    }
}

/// The command of the first known flag at or after position `i`; `Run` when
/// there is none.
pub open spec fn parse_from(args: Seq<Seq<char>>, i: int) -> (int, Option<Seq<char>>)
    decreases args.len() - i,
{
    if i < 0 || i >= args.len() {
        (0, None)
    } else {
        match flag_command(args, i) {
            Some(c) => c,
            None => parse_from(args, i + 1),
        }
    }
}

fn is(a: &Vec<char>, lit: &str) -> (r: bool)
    ensures
        r == (a@ == lit@),
{
    chars_eq(a, &chars_of(lit))
}

pub fn parse_args(args: &[String]) -> (r: Command)
    ensures
        command_view(r) == parse_from(string_views(args@), 0),
{
    let ghost av = string_views(args@);
    let mut i: usize = 0;
    while i < args.len()
        invariant
            i <= args@.len(),
            av == string_views(args@),
            parse_from(av, 0) == parse_from(av, i as int),
        decreases args.len() - i,
    {
        let a = chars_of(args[i].as_str());
        assert(a@ == av[i as int]);
        let has_next = i + 1 < args.len();
        proof {
            if has_next {
                assert(av[i + 1] == args@[i + 1]@);
            }
        }
        if is(&a, "--install-autostart") {
            return Command::InstallAutostart;
        }
        if is(&a, "--uninstall-autostart") {
            return Command::UninstallAutostart;
        }
        if is(&a, "--help") || is(&a, "-h") {
            return Command::Help;
        }
        if is(&a, "--export") {
            return if has_next {
                Command::Export(args[i + 1].clone())
            } else {
                Command::Run
            };
        }
        if is(&a, "--backup") {
            return if has_next {
                Command::Backup(args[i + 1].clone())
            } else {
                Command::Run
            };
        }
        if is(&a, "--restore") {
            return if has_next {
                Command::Restore(args[i + 1].clone())
            } else {
                Command::Run
            };
        }
        if is(&a, "--import-bookmarks") {
            return if has_next {
                Command::ImportBookmarks(args[i + 1].clone())
            } else {
                Command::Run
            };
        }
        if is(&a, "--sync-vault") {
            let path = if has_next && !starts_with_exec(&chars_of(args[i + 1].as_str()), &chars_of("--")) {
                Some(args[i + 1].clone())
            } else {
                None
            };
            return Command::SyncVault(path);
        }
        i += 1;
    }
    Command::Run
}

} // verus!
