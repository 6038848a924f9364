use nymp2p::controler::{first_word_of, parse_control, ControlCommand};

#[test]
fn control_commands() {
    assert_eq!(parse_control(b"stop\n"), ControlCommand::Stop);
    assert_eq!(parse_control(b"  stop now  "), ControlCommand::Stop);
    assert_eq!(parse_control(b"stopping"), ControlCommand::Unsupported);
    assert_eq!(parse_control(b"status"), ControlCommand::Unsupported);
    assert_eq!(parse_control(&[0xFF, b's']), ControlCommand::Unsupported);
    assert_eq!(first_word_of("a b c"), "a");
    assert_eq!(first_word_of(""), "");
}
