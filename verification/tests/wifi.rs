use security::nvs::{NvsAnswer, NvsRead, NvsValue, NvsWrite};
use security::screens::wifi::WifiScreenHandler;
use security::wifi::{
    count_from, count_read, credential_reads, forget_credential, friendly_error,
    load_all_credentials, save_credentials, scan_result, start_error, AccessPoint, Auth,
    AutoConnect, Connector, Credential, LinkStep, ScannedNetwork, WifiCmd, WifiEvent, Worker,
    WorkerInput, WorkerStep,
};
use std::collections::HashMap;

fn write_all(flash: &mut HashMap<String, NvsValue>, ws: Vec<NvsWrite>) {
    for w in ws {
        flash.insert(w.key, w.value);
    }
}

fn answer(flash: &HashMap<String, NvsValue>, r: &NvsRead) -> NvsAnswer {
    match r {
        NvsRead::Str { key, cap } => match flash.get(key) {
            Some(NvsValue::Str(s)) if s.len() < *cap => NvsAnswer::Str(s.clone()),
            Some(_) => NvsAnswer::Failed,
            None => NvsAnswer::Missing,
        },
        NvsRead::U8 { key } => match flash.get(key) {
            Some(NvsValue::U8(v)) => NvsAnswer::U8(*v),
            Some(_) => NvsAnswer::Failed,
            None => NvsAnswer::Missing,
        },
        NvsRead::U32 { .. } => NvsAnswer::Failed,
    }
}

fn load(flash: &HashMap<String, NvsValue>) -> Vec<Credential> {
    let count = count_from(&answer(flash, &count_read()));
    let answers = credential_reads(count).iter().map(|r| answer(flash, r)).collect();
    load_all_credentials(count, &answers)
}

fn names(creds: &Vec<Credential>) -> Vec<String> {
    creds.iter().map(|c| format!("{}/{}", c.ssid, c.password)).collect()
}

fn ap(ssid: &str, rssi: i8, auth: Option<Auth>) -> AccessPoint {
    AccessPoint { ssid: ssid.to_string(), signal_strength: rssi, auth }
}

#[test]
fn saved_networks_are_loaded_the_last_first() {
    let mut flash = HashMap::new();
    assert!(load(&flash).is_empty());
    for i in 0..7 {
        let ws = save_credentials(&load(&flash), &format!("n{i}"), "p");
        write_all(&mut flash, ws);
    }
    assert_eq!(names(&load(&flash)), vec!["n6/p", "n5/p", "n4/p", "n3/p", "n2/p"]);
    let ws = save_credentials(&load(&flash), "n4", "new");
    write_all(&mut flash, ws);
    assert_eq!(names(&load(&flash)), vec!["n4/new", "n6/p", "n5/p", "n3/p", "n2/p"]);
}

#[test]
fn a_forgotten_network_is_gone() {
    let mut flash = HashMap::new();
    for n in ["a", "b", "c"] {
        let ws = save_credentials(&load(&flash), n, "p");
        write_all(&mut flash, ws);
    }
    assert!(forget_credential(&load(&flash), "x").is_none());
    let ws = forget_credential(&load(&flash), "b").unwrap();
    write_all(&mut flash, ws);
    assert_eq!(names(&load(&flash)), vec!["c/p", "a/p"]);
}

#[test]
fn a_network_under_the_older_keys_is_found() {
    let mut flash = HashMap::new();
    flash.insert("ssid".to_string(), NvsValue::Str("old".to_string()));
    assert!(load(&flash).is_empty());
    flash.insert("pwd".to_string(), NvsValue::Str("secret".to_string()));
    assert_eq!(names(&load(&flash)), vec!["old/secret"]);
    flash.insert("ssid".to_string(), NvsValue::Str("".to_string()));
    assert!(load(&flash).is_empty());
    flash.insert("ssid".to_string(), NvsValue::Str("old".to_string()));
    flash.insert("count".to_string(), NvsValue::U8(0));
    assert!(load(&flash).is_empty());
    flash.insert("count".to_string(), NvsValue::U8(200));
    assert_eq!(credential_reads(Some(200)).len(), 10);
    assert!(load(&flash).is_empty());
}

#[test]
fn a_scan_shows_the_strongest_of_each_name() {
    let aps = vec![
        ap("home", -70, Some(Auth::Protected)),
        ap("", -10, None),
        ap("cafe", -60, Some(Auth::Open)),
        ap("home", -50, None),
        ap("home", -55, Some(Auth::Protected)),
        ap("far", -90, Some(Auth::Protected)),
    ];
    let nets = scan_result(&aps);
    let shown: Vec<(&str, i32, bool)> =
        nets.iter().map(|n| (n.ssid.as_str(), n.rssi, n.secured)).collect();
    assert_eq!(shown, vec![("home", -50, false), ("cafe", -60, false), ("far", -90, true)]);
    assert!(scan_result(&vec![]).is_empty());
}

#[test]
fn errors_are_translated() {
    assert_eq!(friendly_error("x WIFI_REASON_AUTH_FAIL"), "Неверный пароль");
    assert_eq!(friendly_error("AUTH"), "Неверный пароль");
    assert_eq!(friendly_error("WIFI_REASON_NO_AP_FOUND"), "Сеть не найдена");
    assert_eq!(friendly_error("WIFI_REASON_ASSOC_TOOMANY"), "Слишком много подключений к точке доступа");
    assert_eq!(friendly_error("ESP_ERR_TIMEOUT"), "Таймаут подключения");
    assert_eq!(friendly_error("timeout"), "Таймаут подключения");
    assert_eq!(friendly_error("WIFI_REASON_BEACON_TIMEOUT"), "Таймаут подключения");
    assert_eq!(friendly_error("netif did not come up"), "Не удалось получить IP-адрес");
    assert_eq!(friendly_error("else"), "else");
}

#[test]
fn a_network_is_joined_at_the_third_attempt() {
    let mut c = Connector::new("home");
    assert!(matches!(c.next(false), Some(WifiEvent::Connecting { ssid, attempt: 1, max: 3 }) if ssid == "home"));
    assert_eq!(c.linked(Err("AUTH".to_string()), true), LinkStep::Retry);
    assert!(matches!(c.next(false), Some(WifiEvent::Connecting { attempt: 2, .. })));
    assert_eq!(c.linked(Ok(()), false), LinkStep::AwaitAddress);
    assert_eq!(c.addressed(false, false), LinkStep::Retry);
    assert!(matches!(c.next(false), Some(WifiEvent::Connecting { attempt: 3, .. })));
    assert_eq!(c.linked(Ok(()), false), LinkStep::AwaitAddress);
    assert_eq!(c.addressed(true, false), LinkStep::Joined);
    assert!(c.next(false).is_none());
    assert!(c.is_connected() && !c.is_cancelled());
    assert!(matches!(c.finish("10.0.0.2".to_string()),
        WifiEvent::Connected { ssid, ip } if ssid == "home" && ip == "10.0.0.2"));
}

#[test]
fn an_unset_address_is_not_told() {
    let mut c = Connector::new("home");
    c.next(false);
    c.linked(Ok(()), false);
    c.addressed(true, false);
    assert!(matches!(c.finish("0.0.0.0".to_string()), WifiEvent::Connected { ip, .. } if ip.is_empty()));
}

#[test]
fn a_series_ends_with_the_last_error_or_the_cancellation() {
    let mut c = Connector::new("home");
    for e in ["AUTH", "NO_AP", "other"] {
        assert!(c.next(false).is_some());
        c.linked(Err(e.to_string()), false);
    }
    assert!(c.next(true).is_none());
    assert!(!c.is_cancelled());
    assert!(matches!(c.finish(String::new()), WifiEvent::ConnectError(e) if e == "other"));
    let mut c = Connector::new("home");
    c.next(false);
    assert_eq!(c.linked(Ok(()), true), LinkStep::GiveUp);
    assert!(c.is_cancelled());
    assert!(matches!(c.finish(String::new()), WifiEvent::ConnectError(e) if e == "Отменено пользователем"));
    let mut c = Connector::new("home");
    c.next(false);
    c.linked(Ok(()), false);
    assert_eq!(c.addressed(true, true), LinkStep::GiveUp);
    assert!(!c.is_connected());
    let mut c = Connector::new("home");
    assert!(c.next(true).is_none());
    assert!(c.is_cancelled());
}

#[test]
fn the_worker_waits_and_reconnects() {
    let mut w = Worker::new();
    assert_eq!(w.wait_secs(), None);
    assert!(matches!(w.step(WorkerInput::Cmd(WifiCmd::Scan)), WorkerStep::Scan));
    assert!(matches!(
        w.step(WorkerInput::Cmd(WifiCmd::Connect { ssid: "a".to_string(), password: "b".to_string() })),
        WorkerStep::Connect { ssid, password } if ssid == "a" && password == "b"
    ));
    assert!(w.connect_ended(true));
    assert_eq!(w.wait_secs(), Some(10));
    assert!(matches!(w.step(WorkerInput::Timeout { link_up: None }), WorkerStep::Wait));
    assert!(matches!(w.step(WorkerInput::Timeout { link_up: Some(true) }), WorkerStep::Wait));
    assert!(matches!(w.step(WorkerInput::Timeout { link_up: Some(false) }), WorkerStep::Reconnect));
    assert!(!w.connected);
    w.connect_ended(true);
    assert!(matches!(
        w.step(WorkerInput::Cmd(WifiCmd::Disconnect { forget_ssid: Some("a".to_string()) })),
        WorkerStep::Disconnect { forget_ssid: Some(s) } if s == "a"
    ));
    assert!(!w.connected);
    assert!(matches!(w.step(WorkerInput::Closed), WorkerStep::Exit));
}

#[test]
fn stored_networks_are_tried_in_turn() {
    let cred = |n: &str| Credential { ssid: n.to_string(), password: String::new() };
    let mut a = AutoConnect::new(vec![cred("a"), cred("b"), cred("c")]);
    assert_eq!(a.next().unwrap().ssid, "a");
    a.ended(false);
    assert_eq!(a.next().unwrap().ssid, "b");
    a.ended(true);
    assert!(a.is_joined());
    assert!(a.next().is_none());
    let mut none = AutoConnect::new(vec![]);
    assert!(none.next().is_none());
    assert!(!none.is_joined());
}

#[test]
fn a_dead_radio_is_told_of() {
    assert!(matches!(start_error("init", "ESP_FAIL"), WifiEvent::ScanError(e) if e == "WiFi init: ESP_FAIL"));
}

#[test]
fn the_wifi_screen_shows_events() {
    let mut s = WifiScreenHandler::new();
    assert_eq!(s.poll(WifiEvent::Ready), None);
    assert!(s.ready);
    assert_eq!(s.status, "Нажмите Сканировать");
    assert!(matches!(s.scan_requested(), WifiCmd::Scan));
    assert!(s.scanning);
    assert_eq!(s.status, "Сканирование...");
    let net = ScannedNetwork { ssid: "home".to_string(), rssi: -40, secured: true };
    s.poll(WifiEvent::ScanResult(vec![net.clone(), net]));
    assert!(!s.scanning);
    assert_eq!(s.status, "Найдено сетей: 2");
    assert_eq!(s.networks.len(), 2);
    s.poll(WifiEvent::ScanError("boom".to_string()));
    assert_eq!(s.status, "ERR: boom");
    assert!(matches!(s.connect_requested("home", "pw"),
        WifiCmd::Connect { ssid, password } if ssid == "home" && password == "pw"));
    assert_eq!(s.status, "Подключение к home...");
    s.poll(WifiEvent::Connecting { ssid: "home".to_string(), attempt: 1, max: 3 });
    assert_eq!(s.status, "Подключение к home (1/3)...");
    assert!(s.connecting);
    let up = WifiEvent::Connected { ssid: "home".to_string(), ip: "10.0.0.2".to_string() };
    assert_eq!(s.poll(up), Some(true));
    assert_eq!(s.status, "Подключено: home • 10.0.0.2");
    assert!(s.is_connected && !s.connecting);
    assert!(matches!(s.disconnect(), WifiCmd::Disconnect { forget_ssid: Some(n) } if n == "home"));
    assert_eq!(s.status, "Отключение...");
    assert_eq!(s.poll(WifiEvent::Disconnected), Some(false));
    assert_eq!(s.status, "Отключено");
    assert_eq!(s.connected_ip, "");
    let up = WifiEvent::Connected { ssid: "home".to_string(), ip: String::new() };
    s.poll(up);
    assert_eq!(s.status, "Подключено: home");
    s.cancel_connect();
    assert_eq!(s.status, "Отмена...");
    assert_eq!(s.poll(WifiEvent::ConnectError("Отменено пользователем".to_string())), Some(false));
    assert_eq!(s.status, "Подключение отменено");
    s.poll(WifiEvent::ConnectError("не Отменено".to_string()));
    assert_eq!(s.status, "Ошибка: не Отменено");
    s.password = "пароль".to_string();
    s.password_delete_last();
    assert_eq!(s.password, "парол");
}
