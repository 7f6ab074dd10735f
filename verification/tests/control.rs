use security::control::ControlCmd;

#[test]
fn buttons_give_commands() {
    assert_eq!(ControlCmd::from_button_idx(0), Some(ControlCmd::Arm));
    assert_eq!(ControlCmd::from_button_idx(1), Some(ControlCmd::Disarm));
    assert_eq!(ControlCmd::from_button_idx(2), Some(ControlCmd::Silent));
    assert_eq!(ControlCmd::from_button_idx(3), Some(ControlCmd::Alarm));
    assert_eq!(ControlCmd::from_button_idx(4), None);
    assert_eq!(ControlCmd::from_button_idx(usize::MAX), None);
}
