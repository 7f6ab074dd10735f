use security::control::ControlCmd;
use security::gsm::{
    act_on_sms, at_reply, cmd_from_word, cmd_reply, csq_fits, delete_sms, is_allowed,
    normalize_number, numbers_match, parse_cpin, parse_creg, parse_csq, parse_cusd, parse_sms_cmd,
    parse_sms_list, poll_sms, poll_status, query_msisdn, query_msisdn_cnum, request, send_sms,
    sms_header, unread_sms, LinkState, MarkerReader, SimStatus, Sms, SmsAction, ASK_OPERATOR,
    ASK_UNREAD, UNKNOWN_CMD,
};

const LIST: &str = "AT+CMGL=\"REC UNREAD\"\r\n+CMGL: 3,\"REC UNREAD\",\"+79001234567\",\"\",\"24/01/01,12:00:00+12\"\r\n\r\n Arm \r\n+CMGL: 12,\"REC UNREAD\",\"MegaFon\",\"\",\"24/01/01,12:00:00+12\"\r\nПривет\r\n\r\nOK\r\n";

fn sms(sender: &str, text: &str) -> Sms {
    Sms { idx: 7, sender: sender.to_string(), text: text.to_string() }
}

#[test]
fn requests_end_their_line() {
    assert_eq!(request("AT+CSQ"), "AT+CSQ\r\n");
    assert_eq!(request(ASK_OPERATOR), "AT+CUSD=1,\"*103#\",15\r\n");
    assert_eq!(request(ASK_UNREAD), "AT+CMGL=\"REC UNREAD\"\r\n");
    assert_eq!(sms_header("+7900"), "AT+CMGS=\"+7900\"\r\n");
    assert_eq!(delete_sms(15), "AT+CMGD=15");
    assert_eq!(send_sms(true, "OK"), ("OK\u{1a}".to_string(), true));
    assert_eq!(send_sms(false, "OK"), ("\u{1b}".to_string(), false));
}

#[test]
fn bytes_become_text() {
    assert_eq!(at_reply(b""), None);
    assert_eq!(at_reply("Тест".as_bytes()), Some("Тест".to_string()));
    assert_eq!(at_reply(&[0x41, 0xFF, 0x42]), Some("A\u{FFFD}B".to_string()));
}

#[test]
fn an_answer_is_read_until_its_marker() {
    let mut m = MarkerReader::new("OK");
    assert_eq!(m.feed(b"\r\n+CSQ: 20"), None);
    assert_eq!(m.feed(b""), None);
    assert_eq!(m.feed(b",0\r\nO"), None);
    assert_eq!(m.feed(b"K\r\n"), Some("\r\n+CSQ: 20,0\r\nOK\r\n".to_string()));
}

#[test]
fn messages_are_listed() {
    let list = parse_sms_list(LIST);
    assert_eq!(list.len(), 2);
    assert_eq!(list[0].idx, 3);
    assert_eq!(list[0].sender, "+79001234567");
    assert_eq!(list[0].text, "Arm");
    assert_eq!(list[1].idx, 12);
    assert_eq!(list[1].sender, "MegaFon");
    assert_eq!(list[1].text, "Привет");
    assert!(parse_sms_list("OK").is_empty());
    assert!(parse_sms_list("+CMGL: 1,\"REC UNREAD\",\"\"\r\narm\r\n").is_empty());
    let odd = parse_sms_list("+CMGL: x,\"a\",\"+7\"");
    assert_eq!(odd.len(), 1);
    assert_eq!(odd[0].idx, 0);
    assert_eq!(odd[0].text, "");
    assert_eq!(unread_sms(Some(LIST.to_string())).len(), 2);
    assert!(unread_sms(Some("OK".to_string())).is_empty());
    assert!(unread_sms(None).is_empty());
}

#[test]
fn commands_are_read_in_both_languages_and_any_case() {
    assert_eq!(parse_sms_cmd(" ARM\r\n"), Some(ControlCmd::Arm));
    assert_eq!(parse_sms_cmd("Охрана"), Some(ControlCmd::Arm));
    assert_eq!(parse_sms_cmd("DisArm"), Some(ControlCmd::Disarm));
    assert_eq!(parse_sms_cmd("СНЯТЬ"), Some(ControlCmd::Disarm));
    assert_eq!(parse_sms_cmd("silent"), Some(ControlCmd::Silent));
    assert_eq!(parse_sms_cmd("Тихий"), Some(ControlCmd::Silent));
    assert_eq!(parse_sms_cmd("alarm"), Some(ControlCmd::Alarm));
    assert_eq!(parse_sms_cmd("ТРЕВОГА"), Some(ControlCmd::Alarm));
    assert_eq!(parse_sms_cmd("сНЯтЬ"), Some(ControlCmd::Disarm));
    assert_eq!(parse_sms_cmd("arm now"), None);
    assert_eq!(parse_sms_cmd(""), None);
    assert_eq!(cmd_from_word("arm"), Some(ControlCmd::Arm));
    assert_eq!(cmd_from_word("ARM"), None);
}

#[test]
fn commands_are_answered() {
    assert_eq!(cmd_reply(ControlCmd::Arm), "OK: поставлен на охрану");
    assert_eq!(cmd_reply(ControlCmd::Disarm), "OK: снят с охраны");
    assert_eq!(cmd_reply(ControlCmd::Silent), "OK: тревога отключена");
    assert_eq!(cmd_reply(ControlCmd::Alarm), "OK: тревога включена");
}

#[test]
fn numbers_are_normalized() {
    assert_eq!(normalize_number("8 (900) 123-45-67"), "79001234567");
    assert_eq!(normalize_number("+7 900 123 45 67"), "79001234567");
    assert_eq!(normalize_number("8900"), "8900");
    assert_eq!(normalize_number(&normalize_number("89001234567")), "79001234567");
    assert!(numbers_match("89001234567", "+79001234567"));
    assert!(!numbers_match("89001234567", "+79001234568"));
}

#[test]
fn a_listed_sender_is_obeyed() {
    let wl = vec!["89001234567".to_string()];
    assert!(is_allowed(&wl, "+79001234567"));
    let acts = poll_sms(&sms("+79001234567", "arm"), Some(&wl));
    assert_eq!(acts.len(), 3);
    assert!(matches!(acts[0], SmsAction::Command(ControlCmd::Arm)));
    assert!(matches!(&acts[1], SmsAction::Reply { to, text }
        if to == "+79001234567" && text == "OK: поставлен на охрану"));
    assert!(matches!(acts[2], SmsAction::Delete(7)));
    let acts = poll_sms(&sms("+79001234567", "hello"), Some(&wl));
    assert_eq!(acts.len(), 2);
    assert!(matches!(&acts[0], SmsAction::Reply { text, .. } if text == UNKNOWN_CMD));
    assert!(matches!(acts[1], SmsAction::Delete(7)));
}

#[test]
fn a_stranger_is_ignored() {
    let wl = vec!["89001234567".to_string()];
    assert!(!is_allowed(&wl, "+79990000000"));
    for acts in [
        poll_sms(&sms("+79990000000", "disarm"), Some(&wl)),
        poll_sms(&sms("+79001234567", "disarm"), None),
        act_on_sms(&sms("x", ""), false, Some(ControlCmd::Disarm)),
    ] {
        assert_eq!(acts.len(), 1);
        assert!(matches!(acts[0], SmsAction::Delete(7)));
    }
}

#[test]
fn the_signal_is_read() {
    assert_eq!(parse_csq("\r\n+CSQ: 20,0\r\n\r\nOK".to_string()), Some("20 (-73dBm)".to_string()));
    assert_eq!(parse_csq("+CSQ: 99,99".to_string()), Some("нет сигнала".to_string()));
    assert_eq!(parse_csq("+CSQ: 0,0".to_string()), Some("0 (-113dBm)".to_string()));
    assert_eq!(parse_csq("+CSQ: x".to_string()), None);
    assert_eq!(parse_csq("ERROR".to_string()), None);
    assert!(csq_fits("+CSQ: 31,0"));
    assert!(!csq_fits("+CSQ: 2000000000"));
    assert!(csq_fits("nothing"));
}

#[test]
fn the_registration_is_read() {
    let names = ["не зарегистрирован", "домашняя сеть", "поиск сети", "отказ", "неизвестно",
        "роуминг", "домашняя сеть (SMS)", "роуминг (SMS)", "неизвестно"];
    for (i, name) in names.iter().enumerate() {
        assert_eq!(parse_creg(format!("+CREG: 0,{i}\r\nOK")), Some(name.to_string()));
        assert_eq!(parse_creg(format!("+CREG: {i}")), Some(name.to_string()));
    }
    assert_eq!(parse_creg("+CREG: 0,x".to_string()), None);
    assert_eq!(parse_creg("+CREG: 0,256".to_string()), None);
    assert_eq!(parse_creg("OK".to_string()), None);
}

#[test]
fn the_card_and_the_number_are_read() {
    assert_eq!(parse_cpin("+CPIN: READY\r\nOK".to_string()), Some("READY".to_string()));
    assert_eq!(parse_cpin("ERROR".to_string()), None);
    assert_eq!(
        parse_cusd("+CUSD: 0,\"Ваш номер 89001234567.\",15"),
        Some("89001234567".to_string())
    );
    assert_eq!(parse_cusd("+CUSD: 0,\"нет данных\",15"), Some("нет данных".to_string()));
    assert_eq!(parse_cusd("+CUSD: 4"), None);
    assert_eq!(parse_cusd("OK"), None);
    let own = "+CNUM: \"\",\"+79001234567\",145\r\nOK".to_string();
    assert_eq!(query_msisdn_cnum(Some(own.clone())), Some("+79001234567".to_string()));
    assert_eq!(query_msisdn_cnum(Some("+CNUM: \"\",\"\",145".to_string())), None);
    assert_eq!(query_msisdn_cnum(None), None);
    let ussd = "+CUSD: 0,\"+79990000000\",15".to_string();
    assert_eq!(
        query_msisdn(query_msisdn_cnum(Some(own)), Some(ussd.clone())),
        Some("+79001234567".to_string())
    );
    assert_eq!(query_msisdn(None, Some(ussd)), Some("+79990000000".to_string()));
    assert_eq!(query_msisdn(None, None), None);
}

#[test]
fn the_status_is_polled() {
    let ok = |s: &str| Some(s.to_string());
    let p = poll_status(ok("+CSQ: 20,0"), ok("+CREG: 0,1"), None, None);
    let state: LinkState = p.state.unwrap();
    assert!(p.changed && !p.lost);
    assert_eq!(state.signal, "20 (-73dBm)");
    assert_eq!(state.reg, "домашняя сеть");
    assert_eq!(state.cpin, "");
    let same = poll_status(ok("+CSQ: 20,0"), ok("+CREG: 0,1"), None, Some(&state));
    assert!(!same.changed && !same.lost && same.state.is_some());
    let other = poll_status(ok("+CSQ: 21,0"), ok("+CREG: 0,1"), None, Some(&state));
    assert!(other.changed);
    let gone = poll_status(None, None, None, Some(&state));
    assert!(gone.state.is_none() && gone.lost && !gone.changed);
    let still = poll_status(None, None, None, None);
    assert!(!still.lost);
    let mut sim = SimStatus::default();
    sim.set_number(Some("+7".to_string()));
    sim.set_link(&state);
    let copy = sim.clone();
    assert_eq!((copy.msisdn.as_str(), copy.signal.as_str()), ("+7", "20 (-73dBm)"));
    sim.set_number(None);
    assert_eq!(sim.msisdn, "");
}
