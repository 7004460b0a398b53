//! The command line: which command the arguments ask for, the help text,
//! and where the configuration file is.
use vstd::prelude::*;

use crate::location::texts;
use crate::menu::VERSION;
use crate::paths::{join, join_path};
use crate::text::{opt_view, str_eq, to_owned_string};

verus! {

/// A command of the program.
pub enum Command {
    /// Open a folder: by the selector given, or by choosing from the menu.
    Open(Option<String>),
    /// Move PDFs found in the paths given, or in the inboxes when none is.
    Move(Vec<String>),
    /// Install the latest release.
    Update,
    /// Print the version.
    Version,
    /// Print the help.
    Help,
}

pub enum CommandView {
    Open(Option<Seq<char>>),
    Move(Seq<Seq<char>>),
    Update,
    Version,
    Help,
}

impl View for Command {
    type V = CommandView;

    open spec fn view(&self) -> CommandView {
        match self {
            Command::Open(s) => CommandView::Open(
                match s {
                    Some(t) => Some(t@),
                    None => None,
                },
            ),
            Command::Move(v) => CommandView::Move(texts(v@)),
            Command::Update => CommandView::Update,
            Command::Version => CommandView::Version,
            Command::Help => CommandView::Help,
        }
    }
}

/// The command that the arguments (the program name left out) ask for.
pub open spec fn parse_command_spec(args: Seq<Seq<char>>) -> Result<CommandView, Seq<char>> {
    if args.len() == 0 {
        Ok(CommandView::Help)
    } else {
        let c = args[0];
        if c == "open"@ {
            if args.len() > 2 {
                Err("usage: shelve open [SELECTOR]"@)
            } else {
                Ok(
                    CommandView::Open(
                        if args.len() == 2 {
                            Some(args[1])
                        } else {
                            None
                        },
                    ),
                )
            }
        } else if c == "move"@ {
            Ok(CommandView::Move(args.skip(1)))
        } else if c == "update"@ {
            Ok(CommandView::Update)
        } else if c == "--version"@ || c == "-V"@ {
            Ok(CommandView::Version)
        } else if c == "--help"@ || c == "-h"@ {
            Ok(CommandView::Help)
        } else {
            Err("unknown command: "@ + c + "\n\nRun: shelve --help"@)
        }
    }
}

/// The command that the arguments (the program name left out) ask for.
pub fn parse_command(args: &[String]) -> (r: Result<Command, String>)
    ensures
        match r {
            Ok(c) => parse_command_spec(texts(args@)) == Ok::<CommandView, Seq<char>>(c@),
            Err(e) => parse_command_spec(texts(args@)) == Err::<CommandView, Seq<char>>(e@),
        },
{
    let ghost a = texts(args@);
    if args.len() == 0 {
        return Ok(Command::Help);
    }
    let c = args[0].as_str();
    assert(a[0] == c@);
    if str_eq(c, "open") {
        if args.len() > 2 {
            return Err(to_owned_string("usage: shelve open [SELECTOR]"));
        }
        if args.len() == 2 {
            assert(a[1] == args@[1]@);
            return Ok(Command::Open(Some(args[1].clone())));
        }
        return Ok(Command::Open(None));
    }
    if str_eq(c, "move") {
        let mut rest: Vec<String> = Vec::new();
        let mut i: usize = 1;
        while i < args.len()
            invariant
                1 <= i <= args@.len(),
                a == texts(args@),
                texts(rest@) == a.subrange(1, i as int),
            decreases args.len() - i,
        {
            let ghost before = texts(rest@);
            rest.push(args[i].clone());
            assert(texts(rest@) =~= before.push(args@[i as int]@));
            assert(texts(rest@) =~= a.subrange(1, i + 1));
            i = i + 1;
        }
        assert(a.subrange(1, args@.len() as int) =~= a.skip(1));
        return Ok(Command::Move(rest));
    }
    if str_eq(c, "update") {
        return Ok(Command::Update);
    }
    if str_eq(c, "--version") || str_eq(c, "-V") {
        return Ok(Command::Version);
    }
    if str_eq(c, "--help") || str_eq(c, "-h") {
        return Ok(Command::Help);
    }
    let mut e = to_owned_string("unknown command: ");
    e.append(c);
    e.append("\n\nRun: shelve --help");
    Err(e)
}

/// The text of `--help`.
pub fn help_text() -> (r: String)
    ensures
        r@ == "shelve "@ + VERSION@ + HELP_BODY@,
{
    let mut s = to_owned_string("shelve ");
    s.append(VERSION);
    s.append(HELP_BODY);
    s
}

/// The help after its first line.
pub const HELP_BODY: &'static str = "\n\nUsage:\n  shelve open [SELECTOR]\n  shelve move [FILE_OR_DIRECTORY ...]\n  shelve update\n\nCommands:\n  open    Choose a configured folder and open it in Finder\n  move    Choose destinations, preview, and move PDFs\n  update  Install the latest compatible GitHub Release\n\nOptions:\n  -h, --help     Print help\n  -V, --version  Print version";

/// Where the configuration is: `$SHELVE_CONFIG`, else
/// `$XDG_CONFIG_HOME/shelve/config.toml`, else
/// `$HOME/.config/shelve/config.toml`.
pub open spec fn config_path_spec(
    shelve_config: Option<Seq<char>>,
    xdg_config_home: Option<Seq<char>>,
    home: Option<Seq<char>>,
) -> Result<Seq<char>, Seq<char>> {
    match shelve_config {
        Some(p) => Ok(p),
        None => match xdg_config_home {
            Some(x) => Ok(join_path(x, "shelve/config.toml"@)),
            None => match home {
                Some(h) => Ok(join_path(h, ".config/shelve/config.toml"@)),
                None => Err("HOME is not set"@),
            },
        },
    }
}

/// Where the configuration is, from the values of `SHELVE_CONFIG`,
/// `XDG_CONFIG_HOME` and `HOME`.
pub fn config_path(shelve_config: Option<&str>, xdg_config_home: Option<&str>, home: Option<&str>) -> (r:
    Result<String, String>)
    ensures
        match r {
            Ok(p) => config_path_spec(opt_view(shelve_config), opt_view(xdg_config_home), opt_view(home))
                == Ok::<Seq<char>, Seq<char>>(p@),
            Err(e) => config_path_spec(
                opt_view(shelve_config),
                opt_view(xdg_config_home),
                opt_view(home),
            ) == Err::<Seq<char>, Seq<char>>(e@),
        },
{
    match shelve_config {
        Some(p) => Ok(to_owned_string(p)),
        None => match xdg_config_home {
            Some(x) => Ok(join(x, "shelve/config.toml")),
            None => match home {
                Some(h) => Ok(join(h, ".config/shelve/config.toml")),
                None => Err(to_owned_string("HOME is not set")),
            },
        },
    }
}

} // verus!
