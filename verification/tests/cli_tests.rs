use txml_processor::cli::flag_value;
use txml_processor::cli::is_flag;
use txml_processor::cli::map_flags;
use txml_processor::cli::Command;
use txml_processor::cli::CommandBuildError;

fn strings(words: &[&str]) -> Vec<String> {
    words.iter().map(|s| s.to_string()).collect()
}

#[test]
fn test_map_flags() {
    let args = strings(&["-n", "name", "a", "-a", "-p", "path", "-r"]);
    let result = map_flags(&args);

    assert_eq!(flag_value(&result, "-n").unwrap(), "name");
    assert_eq!(flag_value(&result, "-p").unwrap(), "path");
    assert_eq!(flag_value(&result, "-r").unwrap(), "");
    assert_eq!(flag_value(&result, "-a").unwrap(), "");

    let args = strings(&["mkt", "remove", "-n", "crates"]);
    let result = map_flags(&args);

    assert_eq!(flag_value(&result, "-n").unwrap(), "crates");
}

#[test]
fn test_is_flag() {
    assert_eq!(is_flag("-n"), true);
    assert_eq!(is_flag("--name"), true);
    assert_eq!(is_flag("name"), false);
}

#[test]
fn flag_lookup_misses_unset_flags() {
    let result = map_flags(&strings(&["-n", "name"]));
    assert!(flag_value(&result, "-o").is_none());
}

#[test]
fn repeated_flag_last_occurrence_wins() {
    let result = map_flags(&strings(&["-n", "first", "-n", "second"]));
    assert_eq!(flag_value(&result, "-n").unwrap(), "second");
}

#[test]
fn command_parse_dispatches_on_first_word() {
    match Command::parse("spawn -n tpl -o out") {
        Ok(Command::Spawn(args)) => assert_eq!(args, strings(&["-n", "tpl", "-o", "out"])),
        other => panic!("unexpected parse: {:?}", other.is_ok()),
    }
    assert!(matches!(Command::parse("list"), Ok(Command::List)));
    assert!(matches!(Command::parse("version"), Ok(Command::Version)));
    assert!(matches!(Command::parse("rm -n x"), Ok(Command::Remove(_))));
    assert!(matches!(Command::parse("add -p x"), Ok(Command::Add(_))));
    assert!(matches!(
        Command::parse("frobnicate"),
        Err(CommandBuildError::NotRecognisedCommand)
    ));
    assert!(matches!(
        Command::parse("   "),
        Err(CommandBuildError::NotEnoughArgsIntroduced)
    ));
}
