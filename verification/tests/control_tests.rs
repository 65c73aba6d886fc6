use wallfacer::control::{command_from_normalized, parse_command, Command};

#[test]
fn keywords_and_aliases() {
    assert_eq!(parse_command("left"), Some(Command::Left));
    assert_eq!(parse_command("prev"), Some(Command::Left));
    assert_eq!(parse_command("right"), Some(Command::Right));
    assert_eq!(parse_command("next"), Some(Command::Right));
    assert_eq!(parse_command("tab"), Some(Command::Tab));
    assert_eq!(parse_command("calibrate"), Some(Command::Tab));
    assert_eq!(parse_command("f"), Some(Command::ToggleFps));
    assert_eq!(parse_command("fps"), Some(Command::ToggleFps));
    assert_eq!(parse_command("s"), Some(Command::Save));
    assert_eq!(parse_command("save"), Some(Command::Save));
    assert_eq!(parse_command("l"), Some(Command::Load));
    assert_eq!(parse_command("load"), Some(Command::Load));
    assert_eq!(parse_command("q"), Some(Command::Quit));
    assert_eq!(parse_command("quit"), Some(Command::Quit));
    assert_eq!(parse_command("exit"), Some(Command::Quit));
}

#[test]
fn whitespace_and_case_are_ignored() {
    assert_eq!(parse_command("  LEFT \n"), Some(Command::Left));
    assert_eq!(parse_command("\tQuit"), Some(Command::Quit));
    assert_eq!(parse_command("Effect 3"), Some(Command::Effect(3)));
}

#[test]
fn effect_numbers() {
    assert_eq!(parse_command("effect 3"), Some(Command::Effect(3)));
    assert_eq!(parse_command("effect   12  "), Some(Command::Effect(12)));
    assert_eq!(parse_command("7"), Some(Command::Effect(7)));
    assert_eq!(parse_command("+7"), Some(Command::Effect(7)));
    assert_eq!(parse_command("0"), Some(Command::Effect(0)));
}

#[test]
fn unknown_lines_are_rejected() {
    assert_eq!(parse_command("foo"), None);
    assert_eq!(parse_command(""), None);
    assert_eq!(parse_command("effect"), None);
    assert_eq!(parse_command("effect x"), None);
    assert_eq!(parse_command("-3"), None);
    assert_eq!(parse_command("left right"), None);
    assert_eq!(parse_command("99999999999999999999999999"), None);
}

#[test]
fn normalized_lines_are_not_lowercased_again() {
    assert_eq!(command_from_normalized("left"), Some(Command::Left));
    assert_eq!(command_from_normalized("LEFT"), None);
    assert_eq!(command_from_normalized(" left"), None);
    assert_eq!(command_from_normalized("effect 42"), Some(Command::Effect(42)));
}
