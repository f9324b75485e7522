use runi::command::{parse_exec, skip_arg};
use runi::error::EntryError;

#[test]
fn parses_program_and_flag() {
    let exec = parse_exec("alacritty -v").unwrap();
    assert_eq!(exec.cmd, "alacritty");
    assert_eq!(exec.args, vec!["-v".to_string()]);
}

#[test]
fn collapses_quadruple_backslash_and_strips_quotes() {
    let exec = parse_exec("env WINEPREFIX=/home/x/.wine wine \"C:\\\\\\\\Program.lnk\"").unwrap();
    assert_eq!(exec.cmd, "env");
    assert_eq!(
        exec.args,
        vec![
            "WINEPREFIX=/home/x/.wine".to_string(),
            "wine".to_string(),
            "C:\\Program.lnk".to_string(),
        ]
    );
}

#[test]
fn empty_input_is_malformed() {
    assert_eq!(parse_exec("").unwrap_err(), EntryError::MalformedExec);
}

#[test]
fn whitespace_only_input_is_malformed() {
    assert_eq!(parse_exec("  \t  ").unwrap_err(), EntryError::MalformedExec);
}

#[test]
fn field_codes_are_stripped() {
    let exec = parse_exec("firefox %u --new-window %F").unwrap();
    assert_eq!(exec.cmd, "firefox");
    assert_eq!(exec.args, vec!["--new-window".to_string()]);
}

#[test]
fn trailing_field_codes_leave_no_args() {
    let exec = parse_exec("nautilus %U").unwrap();
    assert_eq!(exec.cmd, "nautilus");
    assert!(exec.args.is_empty());
}

#[test]
fn whitespace_runs_collapse() {
    let exec = parse_exec("prog   a \t b").unwrap();
    assert_eq!(exec.cmd, "prog");
    assert_eq!(exec.args, vec!["a".to_string(), "b".to_string()]);
}

#[test]
fn continuation_joins_tokens_with_spaces() {
    let exec = parse_exec("wine C:\\\\Start\\\\ Menu\\\\Programs 1.lnk").unwrap();
    assert_eq!(exec.cmd, "wine");
    assert_eq!(
        exec.args,
        vec!["C:\\\\Start Menu\\\\Programs".to_string(), "1.lnk".to_string()]
    );
}

#[test]
fn unterminated_continuation_is_discarded() {
    let exec = parse_exec("prog alpha trailing\\\\").unwrap();
    assert_eq!(exec.cmd, "prog");
    assert_eq!(exec.args, vec!["alpha".to_string()]);
}

#[test]
fn unterminated_continuation_in_program_is_malformed() {
    assert_eq!(parse_exec("prog\\\\").unwrap_err(), EntryError::MalformedExec);
}

#[test]
fn skip_arg_matches_exactly_the_field_codes() {
    for code in [
        "%f", "%F", "%u", "%U", "%d", "%D", "%n", "%N", "%i", "%c", "%v", "%m",
    ] {
        assert!(skip_arg(code));
    }
    assert!(!skip_arg("%x"));
    assert!(!skip_arg("%%"));
    assert!(!skip_arg("f"));
    assert!(!skip_arg("%ff"));
}
