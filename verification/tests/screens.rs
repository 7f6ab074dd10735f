use security::control::ControlCmd;
use security::gsm::{is_allowed, SimStatus};
use security::nvs::{NvsAnswer, NvsRead, NvsValue, NvsWrite};
use security::screens::delete_last_char;
use security::screens::security::{SecurityHandler, INACTIVITY_TIMEOUT_NS};
use security::screens::settings::{load_pin, pin_read, sanitize_pin, SettingsScreenHandler};
use security::screens::sim::{
    count_from, count_read, load_whitelist, number_reads, save_whitelist, whitelist_add,
    whitelist_remove, SimScreenHandler,
};
use std::collections::HashMap;

fn write_all(flash: &mut HashMap<String, NvsValue>, ws: Vec<NvsWrite>) {
    for w in ws {
        flash.insert(w.key, w.value);
    }
}

fn answer(flash: &HashMap<String, NvsValue>, r: &NvsRead) -> NvsAnswer {
    match r {
        NvsRead::Str { key, cap } => match flash.get(key) {
            Some(NvsValue::Str(s)) if s.len() < *cap => NvsAnswer::Str(s.clone()),
            Some(_) => NvsAnswer::Failed,
            None => NvsAnswer::Missing,
        },
        NvsRead::U8 { key } => match flash.get(key) {
            Some(NvsValue::U8(v)) => NvsAnswer::U8(*v),
            Some(_) => NvsAnswer::Failed,
            None => NvsAnswer::Missing,
        },
        NvsRead::U32 { .. } => NvsAnswer::Failed,
    }
}

fn load(flash: &HashMap<String, NvsValue>) -> Vec<String> {
    let n = count_from(&answer(flash, &count_read()));
    load_whitelist(&number_reads(n).iter().map(|r| answer(flash, r)).collect())
}

#[test]
fn the_delete_key_takes_one_character() {
    assert_eq!(delete_last_char("охрана"), "охран");
    assert_eq!(delete_last_char("a"), "");
    assert_eq!(delete_last_char(""), "");
    assert_eq!(delete_last_char("x😀"), "x");
}

#[test]
fn a_pin_is_eight_digits_at_most() {
    assert_eq!(sanitize_pin("12a3-4"), "1234");
    assert_eq!(sanitize_pin("1234567890"), "12345678");
    assert_eq!(sanitize_pin("٣x"), "");
    assert_eq!(sanitize_pin(&sanitize_pin("9 8 7")), "987");
}

#[test]
fn a_pin_is_kept() {
    let mut flash = HashMap::new();
    let mut s = SettingsScreenHandler::new(Some(&answer(&flash, &pin_read())));
    assert_eq!(s.pin, "");
    let saved = s.save_pin("12-34");
    assert_eq!(saved.message, "Settings: PIN saved");
    write_all(&mut flash, vec![saved.write]);
    assert_eq!(s.pin, "1234");
    assert_eq!(load_pin(Some(&answer(&flash, &pin_read()))), "1234");
    assert_eq!(s.save_pin("none").message, "Settings: PIN cleared");
    assert_eq!(s.pin, "");
    assert_eq!(load_pin(None), "");
    s.editing_text = "12".to_string();
    s.editing_delete_last();
    assert_eq!(s.editing_text, "1");
}

#[test]
fn the_right_pin_opens_the_panel() {
    let mut p = SecurityHandler::new(0);
    assert!(p.armed && !p.alarm);
    p.alarm = true;
    p.lock_screen();
    for d in ["1", "2", "3", "4"] {
        p.pin_digit(d);
    }
    assert_eq!(p.pin_display, "●●●●");
    p.pin_confirm("1234");
    assert!(!p.armed && !p.alarm && !p.ui_locked && !p.pin_error);
    assert_eq!(p.pin_display, "");
    p.lock_screen();
    p.pin_digit("7");
    p.pin_confirm("7");
    assert!(!p.ui_locked && !p.armed);
}

#[test]
fn a_wrong_pin_opens_nothing() {
    let mut p = SecurityHandler::new(0);
    p.lock_screen();
    p.pin_digit("1");
    p.pin_confirm("1234");
    assert!(p.armed && p.ui_locked && p.pin_error);
    assert_eq!(p.pin_display, "");
    p.pin_digit("1");
    assert!(!p.pin_error);
    p.pin_delete();
    assert_eq!(p.pin_display, "");
    p.pin_delete();
    p.pin_confirm("");
    assert!(!p.armed && !p.ui_locked);
}

#[test]
fn no_more_than_eight_digits_are_taken() {
    let mut p = SecurityHandler::new(0);
    for _ in 0..9 {
        p.pin_digit("5");
    }
    assert_eq!(p.entered, "55555555");
    p.pin_confirm("55555555");
    assert!(!p.armed);
    p.pin_digit("1234567");
    p.pin_digit("89");
    p.pin_digit("0");
    assert_eq!(p.entered, "123456789");
    assert_eq!(p.pin_display.chars().count(), 9);
}

#[test]
fn commands_are_obeyed_and_published() {
    let mut p = SecurityHandler::new(0);
    let r = p.poll(false, &vec![ControlCmd::Alarm, ControlCmd::Silent], 5);
    assert_eq!(r.published, vec!["alarm", "alarm_silenced"]);
    assert_eq!(r.backlight, None);
    assert!(p.armed && !p.alarm);
    let r = p.poll(false, &vec![ControlCmd::Alarm, ControlCmd::Disarm], 6);
    assert_eq!(r.published, vec!["alarm", "disarmed"]);
    assert!(!p.armed && !p.alarm);
    let r = p.poll(false, &vec![ControlCmd::Arm], 7);
    assert_eq!(r.published, vec!["armed"]);
    assert!(p.armed);
    p.disarm();
    assert_eq!(p.arm_now(), "armed");
    assert!(p.armed);
    assert_eq!(p.apply_cmd(ControlCmd::Silent), "alarm_silenced");
}

#[test]
fn an_idle_panel_goes_dark_and_locks() {
    let t = INACTIVITY_TIMEOUT_NS;
    assert_eq!(t, 60_000_000_000);
    let mut p = SecurityHandler::new(10);
    let none = vec![];
    assert_eq!(p.poll(false, &none, 9 + t).backlight, None);
    assert!(!p.ui_locked);
    assert_eq!(p.poll(false, &none, 10 + t).backlight, Some(false));
    assert!(p.ui_locked && p.armed);
    assert_eq!(p.poll(false, &none, 11 + 2 * t).backlight, None);
    assert_eq!(p.poll(true, &none, 12 + 2 * t).backlight, Some(true));
    assert!(p.ui_locked);
    assert_eq!(p.poll(true, &none, 13 + 2 * t).backlight, None);
    assert_eq!(p.poll(false, &none, 13 + 3 * t).backlight, Some(false));
    assert_eq!(p.poll(false, &vec![ControlCmd::Alarm], 14 + 3 * t).backlight, Some(true));
    assert_eq!(p.poll(false, &none, 0).backlight, None);
}

#[test]
fn the_list_of_numbers_is_kept() {
    let mut flash = HashMap::new();
    let mut wl = load(&flash);
    assert!(wl.is_empty());
    for n in [" +79001234567\n", "89990000000"] {
        let ws = whitelist_add(&mut wl, n).unwrap();
        write_all(&mut flash, ws);
    }
    assert_eq!(wl, vec!["+79001234567", "89990000000"]);
    assert_eq!(load(&flash), wl);
    assert!(whitelist_add(&mut wl, "   ").is_none());
    assert!(whitelist_add(&mut wl, "89990000000 ").is_none());
    assert!(whitelist_remove(&mut wl, 2).is_none());
    assert!(whitelist_remove(&mut wl, -1).is_none());
    assert!(is_allowed(&wl, "89001234567"));
    let ws = whitelist_remove(&mut wl, 0).unwrap();
    write_all(&mut flash, ws);
    assert_eq!(load(&flash), vec!["89990000000"]);
    assert!(!is_allowed(&wl, "89001234567"));
}

#[test]
fn the_list_holds_ten_numbers() {
    let mut wl = Vec::new();
    for i in 0..10 {
        assert!(whitelist_add(&mut wl, &format!("{i}")).is_some());
    }
    assert!(whitelist_add(&mut wl, "11").is_none());
    assert_eq!(save_whitelist(&wl).len(), 11);
    assert_eq!(save_whitelist(&wl)[10].key, "wl9");
    let mut flash = HashMap::new();
    write_all(&mut flash, save_whitelist(&wl));
    flash.insert("wl_n".to_string(), NvsValue::U8(200));
    assert_eq!(load(&flash).len(), 10);
    flash.insert("wl3".to_string(), NvsValue::Str("1".repeat(24)));
    assert_eq!(load(&flash).len(), 9);
}

#[test]
fn the_sim_screen_shows_the_card() {
    let wl = vec!["1".to_string()];
    let mut s = SimScreenHandler::new(&wl);
    assert_eq!(s.whitelist, wl);
    assert_eq!(s.status.msisdn, "");
    let mut status = SimStatus::default();
    status.set_number(Some("+7".to_string()));
    s.poll(&status);
    assert_eq!(s.status.msisdn, "+7");
    s.set_whitelist_ui(&vec![]);
    assert!(s.whitelist.is_empty());
    s.editing_text = "+79".to_string();
    s.editing_delete_last();
    assert_eq!(s.editing_text, "+7");
}
