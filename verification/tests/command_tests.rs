use flip_seven::action::Action;
use flip_seven::command::{command_action, line_action, parse_strategy_spec, SpecError, StrategyKind};

#[test]
fn strategy_specs() {
    assert_eq!(parse_strategy_spec("expected_value"), Ok(StrategyKind::ExpectedValue));
    assert_eq!(parse_strategy_spec("threshold25"), Ok(StrategyKind::Threshold(25)));
    assert_eq!(parse_strategy_spec("threshold-3"), Ok(StrategyKind::Threshold(-3)));
    assert_eq!(parse_strategy_spec("threshold"), Err(SpecError::BadThreshold));
    assert_eq!(parse_strategy_spec("thresholdx"), Err(SpecError::BadThreshold));
    assert_eq!(parse_strategy_spec("expected"), Err(SpecError::Unknown));
    assert_eq!(parse_strategy_spec(""), Err(SpecError::Unknown));
}

#[test]
fn commands() {
    assert_eq!(command_action("h", None), Some(Action::Hit(None)));
    assert_eq!(command_action("hit", Some("7")), Some(Action::Hit(Some(7))));
    assert_eq!(command_action("h", Some("seven")), Some(Action::Hit(None)));
    assert_eq!(command_action("s", None), Some(Action::Stay));
    assert_eq!(command_action("stay", Some("3")), Some(Action::Stay));
    assert_eq!(command_action("x", None), None);
}

#[test]
fn typed_lines() {
    assert_eq!(line_action("h\n"), Some(Action::Hit(None)));
    assert_eq!(line_action("  HIT   7  \n"), Some(Action::Hit(Some(7))));
    assert_eq!(line_action("Hit\tseven"), Some(Action::Hit(None)));
    assert_eq!(line_action("S"), Some(Action::Stay));
    assert_eq!(line_action("stay now"), Some(Action::Stay));
    assert_eq!(line_action("   \n"), None);
    assert_eq!(line_action(""), None);
    assert_eq!(line_action("hits"), None);
    assert_eq!(line_action("\u{3000}h\u{3000}+3"), Some(Action::Hit(Some(3))));
}
