use log::Level;
use security::logger::{
    enabled, format_message, level_tag, level_to_int, LogBuffer, LogEntry,
};
use security::screens::logs::LogScreenHandler;

fn entry(n: usize) -> LogEntry {
    LogEntry { level: 2, message: format!("m{n}") }
}

#[test]
fn levels() {
    let all = [Level::Error, Level::Warn, Level::Info, Level::Debug, Level::Trace];
    for (i, l) in all.iter().enumerate() {
        assert_eq!(level_to_int(*l), i as i32);
        assert_eq!(level_tag(*l), ['E', 'W', 'I', 'D', 'T'][i]);
        assert_eq!(enabled(*l), *l <= Level::Debug);
    }
}

#[test]
fn a_message_is_formatted() {
    let r = format_message(Level::Warn, "app::wifi", "нет сети").unwrap();
    assert_eq!(r.line, "W [app::wifi] нет сети");
    assert_eq!(r.entry.message, "[app::wifi] нет сети");
    assert_eq!(r.entry.level, 1);
    assert!(format_message(Level::Trace, "t", "x").is_none());
}

#[test]
fn the_ring_keeps_the_last_messages() {
    let mut b = LogBuffer::new();
    assert_eq!(b.total(), 0);
    for n in 0..300 {
        b.push(entry(n));
    }
    assert_eq!(b.total(), 300);
    assert_eq!(b.entries().len(), 256);
    assert_eq!(b.entries()[0].message, "m44");
    assert_eq!(b.entries()[255].message, "m299");
}

#[test]
fn the_log_screen_follows_unless_it_is_pinned() {
    let mut b = LogBuffer::new();
    let mut s = LogScreenHandler::new();
    assert!(!s.poll(&b));
    s.scroll_end(0);
    assert_eq!(s.scroll_to, -1);
    b.push(entry(0));
    b.push(entry(1));
    assert!(s.poll(&b));
    assert!(!s.poll(&b));
    assert_eq!(s.entries.len(), 2);
    assert_eq!(s.entries[1].message, "m1");
    assert_eq!(s.scroll_to, 1);
    s.scroll_start();
    assert!(s.pinned);
    b.push(entry(2));
    assert!(s.poll(&b));
    assert_eq!(s.scroll_to, 0);
    assert_eq!(s.entries.len(), 3);
    s.toggle_pin();
    assert!(!s.pinned);
    s.toggle_pin();
    s.scroll_end(s.entries.len() as i32);
    assert_eq!(s.scroll_to, 2);
    assert!(!s.pinned);
}
