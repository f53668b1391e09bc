//! The command dispatcher: plain command-line tokens become one operation
//! request for the store (or the init/help plumbing around it). The store
//! itself never sees tokens.

use vstd::prelude::*;

use crate::shell::Shell;
use crate::text::str_eq;

verus! {

/// One operation request, as the dispatcher hands it on.
#[derive(Debug, PartialEq, Eq)]
pub enum Request {
    /// A bare token: resolve it as a shortcut name and print its path.
    Lookup(String),
    /// Print all shortcuts.
    List,
    /// Bind a name (the given one, or the working directory's basename) to
    /// the working directory.
    Add(Option<String>),
    /// Remove the named shortcut.
    Remove(String),
    /// Print the integration snippet for the shell.
    Init(Shell),
    /// Print the usage text.
    Help,
}

/// Failure of token dispatch: a removal without a name to remove, or a
/// flag the tool does not know.
#[derive(Debug, Clone, Copy, PartialEq, Eq, Structural)]
pub enum ArgError {
    MissingShortcut,
    UnexpectedOption,
}

/// The token forms of the list command.
pub open spec fn is_list_token(t: Seq<char>) -> bool {
    t == "l"@ || t == "list"@
}

/// The token forms of the add command.
pub open spec fn is_add_token(t: Seq<char>) -> bool {
    t == "a"@ || t == "add"@
}

/// The token forms of the remove command.
pub open spec fn is_remove_token(t: Seq<char>) -> bool {
    t == "rm"@ || t == "remove"@
}

/// The token form of the init command.
pub open spec fn is_init_token(t: Seq<char>) -> bool {
    t == "init"@
}

/// The token forms of the help command.
pub open spec fn is_help_token(t: Seq<char>) -> bool {
    t == "help"@ || t == "--help"@
}

/// A token that looks like a flag: it starts with `-`, is more than the
/// bare `-` (which counts as an ordinary name), and is not the accepted
/// `--help`.
pub open spec fn is_option_token(t: Seq<char>) -> bool {
    t.len() >= 2 && t[0] == '-' && t != "--help"@
}

/// A token that names no command and is no flag: it is looked up as a
/// shortcut name.
pub open spec fn is_bare_token(t: Seq<char>) -> bool {
    &&& !is_list_token(t)
    &&& !is_add_token(t)
    &&& !is_remove_token(t)
    &&& !is_init_token(t)
    &&& !is_help_token(t)
    &&& !is_option_token(t)
}

/// Turn the command-line tokens (everything after the program name) into
/// one request: no tokens ask for help; the first token picks the
/// operation, the second (where one is taken) names the shortcut; tokens
/// beyond those are ignored.
pub fn parse_tokens(args: &Vec<String>) -> (r: Result<Request, ArgError>)
    ensures
        args@.len() == 0 ==> r == Ok::<Request, ArgError>(Request::Help),
        args@.len() > 0 ==> {
            let t0 = args@[0]@;
            &&& is_list_token(t0) ==> r == Ok::<Request, ArgError>(Request::List)
            &&& is_help_token(t0) ==> r == Ok::<Request, ArgError>(Request::Help)
            &&& is_init_token(t0) ==> r == Ok::<Request, ArgError>(Request::Init(Shell::Bash))
            &&& is_add_token(t0) ==> (if args@.len() >= 2 {
                r matches Ok(Request::Add(Some(s))) && s@ == args@[1]@
            } else {
                r == Ok::<Request, ArgError>(Request::Add(None))
            })
            &&& is_remove_token(t0) ==> (if args@.len() >= 2 {
                r matches Ok(Request::Remove(s)) && s@ == args@[1]@
            } else {
                r == Err::<Request, ArgError>(ArgError::MissingShortcut)
            })
            &&& is_option_token(t0) ==> r == Err::<Request, ArgError>(ArgError::UnexpectedOption)
            &&& is_bare_token(t0) ==> (r matches Ok(Request::Lookup(s)) && s@ == t0)
        },
{
    proof {
        reveal_strlit("l");
        reveal_strlit("list");
        reveal_strlit("a");
        reveal_strlit("add");
        reveal_strlit("rm");
        reveal_strlit("remove");
        reveal_strlit("init");
        reveal_strlit("help");
        reveal_strlit("--help");
        assert("l"@.len() == 1 && "a"@.len() == 1 && "rm"@.len() == 2 && "add"@.len() == 3
            && "list"@.len() == 4 && "help"@.len() == 4 && "init"@.len() == 4
            && "remove"@.len() == 6 && "--help"@.len() == 6);
        assert("l"@[0] == 'l' && "a"@[0] == 'a' && "list"@[0] == 'l' && "help"@[0] == 'h'
            && "init"@[0] == 'i' && "remove"@[0] == 'r' && "--help"@[0] == '-');
        assert("l"@ != "help"@ && "l"@ != "--help"@ && "l"@ != "init"@ && "l"@ != "a"@ && "l"@
            != "add"@ && "l"@ != "rm"@ && "l"@ != "remove"@);
        assert("list"@ != "help"@ && "list"@ != "--help"@ && "list"@ != "init"@ && "list"@
            != "a"@ && "list"@ != "add"@ && "list"@ != "rm"@ && "list"@ != "remove"@);
        assert("help"@ != "init"@ && "help"@ != "a"@ && "help"@ != "add"@ && "help"@ != "rm"@
            && "help"@ != "remove"@);
        assert("--help"@ != "init"@ && "--help"@ != "a"@ && "--help"@ != "add"@ && "--help"@
            != "rm"@ && "--help"@ != "remove"@);
        assert("init"@ != "a"@ && "init"@ != "add"@ && "init"@ != "rm"@ && "init"@
            != "remove"@);
        assert("a"@ != "rm"@ && "a"@ != "remove"@ && "add"@ != "rm"@ && "add"@ != "remove"@);
    }
    if args.len() == 0 {
        return Ok(Request::Help);
    }
    let t0 = &args[0];
    if str_eq(t0.as_str(), "l") || str_eq(t0.as_str(), "list") {
        Ok(Request::List)
    } else if str_eq(t0.as_str(), "help") || str_eq(t0.as_str(), "--help") {
        Ok(Request::Help)
    } else if str_eq(t0.as_str(), "init") {
        Ok(Request::Init(Shell::Bash))
    } else if str_eq(t0.as_str(), "a") || str_eq(t0.as_str(), "add") {
        if args.len() >= 2 {
            Ok(Request::Add(Some(args[1].clone())))
        } else {
            Ok(Request::Add(None))
        }
    } else if str_eq(t0.as_str(), "rm") || str_eq(t0.as_str(), "remove") {
        if args.len() >= 2 {
            Ok(Request::Remove(args[1].clone()))
        } else {
            Err(ArgError::MissingShortcut)
        }
    } else if t0.as_str().unicode_len() >= 2 && t0.as_str().get_char(0) == '-' {
        Err(ArgError::UnexpectedOption)
    } else {
        Ok(Request::Lookup(t0.clone()))
    }
}

} // verus!
