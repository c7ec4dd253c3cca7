use clap::{Arg, ArgAction, Command};
use dmi_copy::{parse_state_arg, ArgsError, DmiCopyArgs};

fn cli() -> Command {
    Command::new("dmi-copy")
        .arg(
            Arg::new("natural_args")
                .action(ArgAction::Append)
                .required(false)
                .conflicts_with_all(["from_flag", "to_flag", "state_flag"]),
        )
        .arg(
            Arg::new("from_flag")
                .long("from")
                .requires_all(["to_flag", "state_flag"]),
        )
        .arg(
            Arg::new("to_flag")
                .long("to")
                .requires_all(["from_flag", "state_flag"]),
        )
        .arg(
            Arg::new("state_flag")
                .long("state")
                .alias("states")
                .action(ArgAction::Append)
                .requires_all(["from_flag", "to_flag"]),
        )
}

fn parse_args(args: &[&str]) -> Result<DmiCopyArgs, String> {
    let argv = std::iter::once("dmi-copy").chain(args.iter().copied());
    let m = cli().try_get_matches_from(argv).map_err(|e| e.to_string())?;
    let natural: Vec<String> = m
        .get_many::<String>("natural_args")
        .map(|v| v.cloned().collect())
        .unwrap_or_default();
    let from = m.get_one::<String>("from_flag").cloned();
    let to = m.get_one::<String>("to_flag").cloned();
    let states: Option<Vec<String>> = m
        .get_many::<String>("state_flag")
        .map(|v| v.cloned().collect());
    DmiCopyArgs::parse_command_line(&natural, from, to, states).map_err(|e| e.message().to_string())
}

fn strings(v: &[&str]) -> Vec<String> {
    v.iter().map(|s| s.to_string()).collect()
}

#[test]
fn test_natural_syntax() {
    let result = parse_args(&["state1", "state2", "from", "original.dmi", "to", "target.dmi"]);
    assert!(result.is_ok());
    let args = result.unwrap();
    assert_eq!(args.icon_states, vec!["state1", "state2"]);
    assert_eq!(args.from, "original.dmi");
    assert_eq!(args.to, "target.dmi");
}

#[test]
fn test_traditional_syntax() {
    let result = parse_args(&[
        "--from",
        "original.dmi",
        "--to",
        "target.dmi",
        "--state",
        "state1,state2",
    ]);
    assert!(result.is_ok());
    let args = result.unwrap();
    assert_eq!(args.icon_states, vec!["state1", "state2"]);
    assert_eq!(args.from, "original.dmi");
    assert_eq!(args.to, "target.dmi");
}

#[test]
fn test_traditional_syntax_multiple_flags() {
    let result = parse_args(&[
        "--from",
        "original.dmi",
        "--to",
        "target.dmi",
        "--state",
        "state1",
        "--state",
        "state2,state3",
    ]);
    assert!(result.is_ok());
    let args = result.unwrap();
    assert_eq!(args.icon_states, vec!["state1", "state2", "state3"]);
    assert_eq!(args.from, "original.dmi");
    assert_eq!(args.to, "target.dmi");
}

#[test]
fn test_invalid_natural_syntax() {
    // Missing 'from' keyword
    assert!(parse_args(&["state1", "original.dmi", "to", "target.dmi"]).is_err());

    // Missing 'to' keyword
    assert!(parse_args(&["state1", "from", "original.dmi", "target.dmi"]).is_err());

    // No states specified
    assert!(parse_args(&["from", "original.dmi", "to", "target.dmi"]).is_err());
}

#[test]
fn test_invalid_traditional_syntax() {
    // Missing --from
    assert!(parse_args(&["--to", "target.dmi", "--state", "state1"]).is_err());

    // Missing --state
    assert!(parse_args(&["--from", "original.dmi", "--to", "target.dmi"]).is_err());

    // Missing --to
    assert!(parse_args(&["--from", "original.dmi", "--state", "state1"]).is_err());
}

#[test]
fn test_traditional_syntax_empty_states() {
    let result = parse_args(&[
        "--from",
        "original.dmi",
        "--to",
        "target.dmi",
        "--state",
        "state1,,state2",
    ]);
    assert!(result.is_ok());
    let args = result.unwrap();
    assert_eq!(args.icon_states, vec!["state1", "state2"]);
}

#[test]
fn state_arg_trims_and_drops_empty_pieces() {
    assert_eq!(parse_state_arg(&" a , b ,,\tc ".to_string()), vec!["a", "b", "c"]);
    assert_eq!(parse_state_arg(&"a,,b".to_string()), vec!["a", "b"]);
    assert_eq!(parse_state_arg(&"".to_string()), Vec::<String>::new());
    assert_eq!(parse_state_arg(&" , ,".to_string()), Vec::<String>::new());
    assert_eq!(parse_state_arg(&"two words".to_string()), vec!["two words"]);
}

#[test]
fn natural_syntax_keeps_state_order() {
    let args = DmiCopyArgs::parse_natural_syntax(&strings(&["c", "a", "b", "from", "F", "to", "T"]))
        .unwrap();
    assert_eq!(args.icon_states, vec!["c", "a", "b"]);
    assert_eq!(args.from, "F");
    assert_eq!(args.to, "T");
}

#[test]
fn natural_syntax_errors() {
    let run = |v: &[&str]| DmiCopyArgs::parse_natural_syntax(&strings(v)).err();
    assert_eq!(run(&["from", "F", "to", "T"]), Some(ArgsError::NoStatesBeforeFrom));
    assert_eq!(run(&["s", "to", "T"]), Some(ArgsError::SourceNotBeforeTo));
    assert_eq!(run(&["s", "from", "to", "T"]), Some(ArgsError::SourceNotBeforeTo));
    assert_eq!(run(&["s", "from", "F", "T"]), Some(ArgsError::ExpectedTo));
    assert_eq!(run(&["s", "from", "F", "to", "T", "x"]), Some(ArgsError::UnexpectedArguments));
    assert_eq!(run(&["s", "from", "F", "to", "T", "from"]), Some(ArgsError::UnexpectedArguments));
    assert_eq!(run(&["s", "from", "F", "to"]), Some(ArgsError::MissingDestination));
    assert_eq!(run(&["s", "from", "F"]), Some(ArgsError::MissingDestination));
    assert_eq!(run(&["s", "t"]), Some(ArgsError::MissingSourceAndDestination));
    assert_eq!(run(&[]), Some(ArgsError::MissingSourceAndDestination));
}

#[test]
fn flag_syntax_reports_the_missing_flag() {
    let f = || Some("F".to_string());
    let st = || Some(strings(&["a"]));
    assert_eq!(DmiCopyArgs::parse_flag_syntax(None, f(), st()).err(), Some(ArgsError::MissingFrom));
    assert_eq!(DmiCopyArgs::parse_flag_syntax(f(), None, st()).err(), Some(ArgsError::MissingTo));
    assert_eq!(DmiCopyArgs::parse_flag_syntax(f(), f(), None).err(), Some(ArgsError::MissingState));
    let ok = DmiCopyArgs::parse_flag_syntax(f(), Some("T".to_string()), Some(strings(&["b, a", "a"])))
        .unwrap();
    assert_eq!(ok.icon_states, vec!["b", "a", "a"]);
}

#[test]
fn command_line_picks_the_form() {
    let nat = strings(&["s", "from", "F", "to", "T"]);
    assert_eq!(
        DmiCopyArgs::parse_command_line(&nat, Some("F".to_string()), None, None).err(),
        Some(ArgsError::MixedSyntax)
    );
    assert_eq!(
        DmiCopyArgs::parse_command_line(&Vec::new(), None, None, None).err(),
        Some(ArgsError::NoArguments)
    );
    let args = DmiCopyArgs::parse_command_line(&nat, None, None, None).unwrap();
    assert_eq!(args.icon_states, vec!["s"]);
}
