use security::touch::{PointerEvent, Position, TouchController};

fn at(x: u16, y: u16) -> Option<Position> {
    Some(Position { x, y })
}

#[test]
fn a_tap_with_jitter_is_released_where_it_was_pressed() {
    let mut c = TouchController::init();
    assert_eq!(c.poll(None), (None, false));
    let p = Position { x: 100, y: 200 };
    assert_eq!(c.poll(Some(p)), (Some(PointerEvent::Pressed(p)), true));
    assert_eq!(c.poll(at(129, 171)), (None, false));
    assert_eq!(c.poll(None), (Some(PointerEvent::Released(p)), false));
    assert_eq!(c.poll(None), (None, false));
}

#[test]
fn a_drag_is_followed() {
    let mut c = TouchController::init();
    c.poll(at(100, 100));
    let q = Position { x: 130, y: 100 };
    assert_eq!(c.poll(Some(q)), (Some(PointerEvent::Moved(q)), false));
    assert_eq!(c.poll(Some(q)), (None, false));
    let r = Position { x: 101, y: 100 };
    assert_eq!(c.poll(Some(r)), (Some(PointerEvent::Moved(r)), false));
    assert_eq!(c.poll(None), (Some(PointerEvent::Released(r)), false));
    let s = Position { x: 5, y: 6 };
    assert_eq!(c.poll(Some(s)), (Some(PointerEvent::Pressed(s)), true));
}
