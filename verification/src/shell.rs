//! Shell integration: the snippet a shell evaluates so that a short
//! command can `cd` into a resolved shortcut.

use vstd::prelude::*;

verus! {

/// The shells the init command knows of.
#[derive(Debug, Clone, Copy, PartialEq, Eq, Structural)]
pub enum Shell {
    Bash,
    Fish,
    Zsh,
}

/// The integration snippet for Bash.
pub const BASH_INIT: &'static str = r##"# To make the binary work, add the following lines of code
# to your ~/.bash_profile or ~/.bashrc
#
# eval "$(gotors init)"
#
# It will autogenerate this text to make the magic happen.
g() {
  local dir="$(gotors $@)"
  test -d "$dir" && cd "$dir" || echo "$dir"
}"##;

/// The integration snippet for `sh`; only Bash has one so far.
pub fn init_script(sh: &Shell) -> (r: Option<String>)
    ensures
        match sh {
            Shell::Bash => r matches Some(s) && s@ == BASH_INIT@,
            _ => r is None,
        },
{
    match sh {
        Shell::Bash => Some(String::from_str(BASH_INIT)),
        _ => None,
    }
}

} // verus!
