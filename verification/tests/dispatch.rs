use gotors::dispatch::parse_tokens;
use gotors::dispatch::ArgError;
use gotors::dispatch::Request;
use gotors::paths::basename;
use gotors::paths::config_file_path;
use gotors::shell::init_script;
use gotors::shell::Shell;
use gotors::shell::BASH_INIT;

fn toks(args: &[&str]) -> Vec<String> {
    args.iter().map(|a| a.to_string()).collect()
}

#[test]
fn no_tokens_ask_for_help() {
    assert_eq!(parse_tokens(&toks(&[])), Ok(Request::Help));
}

#[test]
fn list_tokens() {
    assert_eq!(parse_tokens(&toks(&["l"])), Ok(Request::List));
    assert_eq!(parse_tokens(&toks(&["list"])), Ok(Request::List));
}

#[test]
fn help_tokens() {
    assert_eq!(parse_tokens(&toks(&["help"])), Ok(Request::Help));
    assert_eq!(parse_tokens(&toks(&["--help"])), Ok(Request::Help));
}

#[test]
fn init_token_picks_bash() {
    assert_eq!(parse_tokens(&toks(&["init"])), Ok(Request::Init(Shell::Bash)));
}

#[test]
fn add_with_and_without_name() {
    assert_eq!(
        parse_tokens(&toks(&["add", "proj"])),
        Ok(Request::Add(Some("proj".to_string())))
    );
    assert_eq!(
        parse_tokens(&toks(&["a", "proj"])),
        Ok(Request::Add(Some("proj".to_string())))
    );
    assert_eq!(parse_tokens(&toks(&["add"])), Ok(Request::Add(None)));
    assert_eq!(parse_tokens(&toks(&["a"])), Ok(Request::Add(None)));
}

#[test]
fn remove_needs_a_name() {
    assert_eq!(
        parse_tokens(&toks(&["rm", "proj"])),
        Ok(Request::Remove("proj".to_string()))
    );
    assert_eq!(
        parse_tokens(&toks(&["remove", "proj"])),
        Ok(Request::Remove("proj".to_string()))
    );
    assert_eq!(parse_tokens(&toks(&["rm"])), Err(ArgError::MissingShortcut));
    assert_eq!(parse_tokens(&toks(&["remove"])), Err(ArgError::MissingShortcut));
}

#[test]
fn tokens_after_the_operation_are_ignored() {
    assert_eq!(parse_tokens(&toks(&["list", "extra"])), Ok(Request::List));
    assert_eq!(
        parse_tokens(&toks(&["rm", "proj", "extra"])),
        Ok(Request::Remove("proj".to_string()))
    );
}

#[test]
fn unknown_flags_are_rejected() {
    assert_eq!(parse_tokens(&toks(&["-x"])), Err(ArgError::UnexpectedOption));
    assert_eq!(parse_tokens(&toks(&["--verbose"])), Err(ArgError::UnexpectedOption));
}

#[test]
fn bare_token_becomes_a_lookup() {
    assert_eq!(
        parse_tokens(&toks(&["proj"])),
        Ok(Request::Lookup("proj".to_string()))
    );
    // a lone dash is an ordinary name, as on most command lines
    assert_eq!(parse_tokens(&toks(&["-"])), Ok(Request::Lookup("-".to_string())));
}

#[test]
fn basename_takes_the_last_component() {
    assert_eq!(basename("/home/alice/project"), Some("project".to_string()));
    assert_eq!(basename("project"), Some("project".to_string()));
    assert_eq!(basename("/home/alice/project/"), Some("project".to_string()));
}

#[test]
fn basename_of_root_or_empty_is_none() {
    assert_eq!(basename("/"), None);
    assert_eq!(basename("///"), None);
    assert_eq!(basename(""), None);
}

#[test]
fn config_path_prefers_the_config_dir() {
    assert_eq!(
        config_file_path(Some("/home/u/.config".to_string()), Some("/home/u".to_string())),
        Some("/home/u/.config/goto/gotorc".to_string())
    );
    assert_eq!(
        config_file_path(None, Some("/home/u".to_string())),
        Some("/home/u/.gotorc".to_string())
    );
    assert_eq!(config_file_path(None, None), None);
}

#[test]
fn init_script_exists_only_for_bash() {
    assert_eq!(init_script(&Shell::Bash), Some(BASH_INIT.to_string()));
    assert_eq!(init_script(&Shell::Fish), None);
    assert_eq!(init_script(&Shell::Zsh), None);
}
