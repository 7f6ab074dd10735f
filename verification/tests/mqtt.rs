use security::control::ControlCmd;
use security::mqtt::{
    attempt_once, check_wifi_down, cmd_from_topic, config_reads, connected_check, connected_step,
    create_client, disconnected_step, handle_message, load_config, save_config, subscribe_topics,
    wifi_came_up, AnswerRecv, AttemptReport, AttemptResult, CmdRecv, ConnWait, Connector, IdleStep,
    MqttCmd, MqttConfig, MqttEvent, MqttTopics, SessionStep,
};
use security::nvs::{NvsAnswer, NvsRead, NvsValue, NvsWrite};
use security::screens::mqtt::{default_config, read_config, set_field, MqttScreenHandler};
use std::collections::HashMap;

fn config() -> MqttConfig {
    MqttConfig {
        host: "10.0.0.1".to_string(),
        port: 8883,
        username: "user".to_string(),
        password: "".to_string(),
        client_id: "panel".to_string(),
        topics: MqttTopics {
            arm: "a".to_string(),
            disarm: "d".to_string(),
            silent: "".to_string(),
            alarm: "x".to_string(),
        },
    }
}

fn write_all(flash: &mut HashMap<String, NvsValue>, ws: Vec<NvsWrite>) {
    for w in ws {
        flash.insert(w.key, w.value);
    }
}

fn answer(flash: &HashMap<String, NvsValue>, r: &NvsRead) -> NvsAnswer {
    match r {
        NvsRead::Str { key, cap } => match flash.get(key) {
            Some(NvsValue::Str(s)) if s.len() < *cap => NvsAnswer::Str(s.clone()),
            Some(_) => NvsAnswer::Failed,
            None => NvsAnswer::Missing,
        },
        NvsRead::U8 { key } => match flash.get(key) {
            Some(NvsValue::U8(v)) => NvsAnswer::U8(*v),
            Some(_) => NvsAnswer::Failed,
            None => NvsAnswer::Missing,
        },
        NvsRead::U32 { key } => match flash.get(key) {
            Some(NvsValue::U32(v)) => NvsAnswer::U32(*v),
            Some(_) => NvsAnswer::Failed,
            None => NvsAnswer::Missing,
        },
    }
}

fn load(flash: &HashMap<String, NvsValue>) -> Option<MqttConfig> {
    load_config(&config_reads().iter().map(|r| answer(flash, r)).collect())
}

#[test]
fn a_configuration_is_read_back() {
    let mut flash = HashMap::new();
    assert!(load(&flash).is_none());
    write_all(&mut flash, save_config(&config()));
    let c = load(&flash).unwrap();
    assert_eq!(format!("{c:?}"), format!("{:?}", config()));
    let copy = c.clone();
    assert_eq!(copy.topics.alarm, "x");
    flash.insert("host".to_string(), NvsValue::Str("".to_string()));
    assert!(load(&flash).is_none());
}

#[test]
fn missing_parts_of_a_configuration_have_defaults() {
    let mut flash = HashMap::new();
    flash.insert("host".to_string(), NvsValue::Str("h".to_string()));
    let c = load(&flash).unwrap();
    assert_eq!(c.port, 1883);
    assert_eq!(c.username, "");
    assert_eq!(c.topics.arm, "security/arm");
    assert_eq!(c.topics.disarm, "security/disarm");
    assert_eq!(c.topics.silent, "security/silent");
    assert_eq!(c.topics.alarm, "security/alarm");
    flash.insert("port".to_string(), NvsValue::U32(65536 + 7));
    flash.insert("t_arm".to_string(), NvsValue::Str("x".repeat(128)));
    let c = load(&flash).unwrap();
    assert_eq!(c.port, 7);
    assert_eq!(c.topics.arm, "security/arm");
}

#[test]
fn topics_give_commands() {
    let t = config().topics;
    assert_eq!(cmd_from_topic("a", &t), Some(ControlCmd::Arm));
    assert_eq!(cmd_from_topic("d", &t), Some(ControlCmd::Disarm));
    assert_eq!(cmd_from_topic("x", &t), Some(ControlCmd::Alarm));
    assert_eq!(cmd_from_topic("", &t), None);
    assert_eq!(cmd_from_topic("other", &t), None);
    assert!(matches!(handle_message("d", &config()), Some(MqttEvent::Command(ControlCmd::Disarm))));
    assert!(handle_message("q", &config()).is_none());
    assert_eq!(subscribe_topics(&t), vec!["a", "d", "x"]);
}

#[test]
fn the_client_is_set_up() {
    let s = create_client(&config());
    assert_eq!(s.url, "mqtt://10.0.0.1:8883");
    assert_eq!(s.username, Some("user".to_string()));
    assert_eq!(s.password, None);
    assert_eq!(s.client_id, Some("panel".to_string()));
}

#[test]
fn the_worker_follows_commands_and_the_network() {
    assert!(wifi_came_up(&vec![false, true, false]));
    assert!(!wifi_came_up(&vec![false]));
    assert!(check_wifi_down(&vec![true, false, true]));
    assert!(!check_wifi_down(&vec![true]));
    assert!(matches!(disconnected_step(CmdRecv::Cmd(MqttCmd::Connect(config()))),
        IdleStep::Connect(c) if c.host == "10.0.0.1"));
    assert!(matches!(disconnected_step(CmdRecv::Cmd(MqttCmd::Disconnect)), IdleStep::Stay));
    assert!(matches!(disconnected_step(CmdRecv::Timeout), IdleStep::Stay));
    assert!(matches!(disconnected_step(CmdRecv::Closed), IdleStep::Exit));
    assert_eq!(connected_check(true, &vec![]), SessionStep::Leave);
    assert_eq!(connected_check(false, &vec![false]), SessionStep::Leave);
    assert_eq!(connected_check(false, &vec![true]), SessionStep::Stay);
    assert_eq!(connected_step(&CmdRecv::Cmd(MqttCmd::Disconnect)), SessionStep::Leave);
    assert_eq!(connected_step(&CmdRecv::Cmd(MqttCmd::Connect(config()))), SessionStep::Stay);
    assert_eq!(connected_step(&CmdRecv::Timeout), SessionStep::Stay);
    assert_eq!(connected_step(&CmdRecv::Closed), SessionStep::Exit);
}

#[test]
fn three_attempts_are_made_and_the_last_error_told() {
    let mut c = Connector::new();
    for n in 1..=3u8 {
        assert!(matches!(c.next(false), Some(MqttEvent::Connecting { attempt, max: 3 }) if attempt == n));
        assert!(c.ended(AttemptResult::Failed(format!("e{n}"))).is_none());
    }
    assert!(c.next(false).is_none());
    assert!(matches!(c.finish(false), MqttEvent::ConnectError(e) if e == "e3"));
}

#[test]
fn a_cancelled_series_ends() {
    let mut c = Connector::new();
    assert!(c.next(true).is_none());
    assert!(c.next(false).is_some());
    assert!(c.ended(AttemptResult::Cancelled).is_none());
    assert!(c.next(false).is_none());
    assert!(matches!(c.finish(true), MqttEvent::ConnectError(e) if e == "Отменено"));
    let mut c = Connector::new();
    c.next(false);
    assert!(matches!(c.ended(AttemptResult::Connected), Some(MqttEvent::Connected)));
}

#[test]
fn attempts_end_in_four_ways() {
    assert!(matches!(attempt_once(AttemptReport::NoClient("no".to_string())),
        AttemptResult::Failed(e) if e == "no"));
    assert!(matches!(attempt_once(AttemptReport::NoAnswer { cancelled: true }),
        AttemptResult::Cancelled));
    assert!(matches!(attempt_once(AttemptReport::NoAnswer { cancelled: false }),
        AttemptResult::Failed(e) if e == "Таймаут подключения"));
    assert!(matches!(attempt_once(AttemptReport::Answered { subscribed: true }),
        AttemptResult::Connected));
    assert!(matches!(attempt_once(AttemptReport::Answered { subscribed: false }),
        AttemptResult::Failed(e) if e == "Ошибка подписки на топики"));
}

#[test]
fn an_answer_is_awaited_a_hundred_times() {
    let mut w = ConnWait::new();
    let mut n = 0;
    while w.goes_on(false) {
        assert_eq!(w.looked(AnswerRecv::Timeout), None);
        n += 1;
    }
    assert_eq!(n, 100);
    let mut w = ConnWait::new();
    assert!(!w.goes_on(true));
    assert_eq!(w.looked(AnswerRecv::Came), Some(true));
    assert_eq!(w.looked(AnswerRecv::Closed), Some(false));
}

#[test]
fn the_form_gives_the_configuration_back() {
    let s = MqttScreenHandler::new(Some(config()));
    assert_eq!(s.status, "Не подключено");
    assert_eq!(s.form.port, "8883");
    assert_eq!(format!("{:?}", read_config(&s.form)), format!("{:?}", config()));
    let d = MqttScreenHandler::new(None);
    assert_eq!(format!("{:?}", read_config(&d.form)), format!("{:?}", default_config()));
    assert_eq!(d.form.port, "1883");
    assert_eq!(d.form.topic_alarm, "security/alarm");
}

#[test]
fn fields_are_set_by_number() {
    let mut s = MqttScreenHandler::new(None);
    for f in 0..=10 {
        set_field(&mut s.form, f, format!("{f}"));
    }
    let c = read_config(&s.form);
    assert_eq!((c.host.as_str(), c.port, c.username.as_str()), ("1", 2, "3"));
    assert_eq!((c.password.as_str(), c.client_id.as_str()), ("4", "5"));
    assert_eq!((c.topics.arm.as_str(), c.topics.disarm.as_str()), ("6", "7"));
    assert_eq!((c.topics.silent.as_str(), c.topics.alarm.as_str()), ("8", "9"));
    set_field(&mut s.form, 2, "70000".to_string());
    assert_eq!(read_config(&s.form).port, 1883);
}

#[test]
fn the_mqtt_screen_shows_events() {
    let mut s = MqttScreenHandler::new(Some(config()));
    assert!(matches!(s.connect_requested(), MqttCmd::Connect(c) if c.port == 8883));
    assert!(s.connecting);
    assert_eq!(s.status, "Подключение к 10.0.0.1...");
    s.handle_event(MqttEvent::Connecting { attempt: 2, max: 3 });
    assert_eq!(s.status, "Подключение (2/3)...");
    s.handle_event(MqttEvent::Connected);
    assert!(s.is_connected && !s.connecting);
    assert_eq!(s.status, "Подключено: 10.0.0.1:8883");
    assert_eq!(s.handle_event(MqttEvent::Command(ControlCmd::Silent)), Some(ControlCmd::Silent));
    assert_eq!(s.status, "Команда: Без звука");
    s.handle_event(MqttEvent::Command(ControlCmd::Arm));
    assert_eq!(s.status, "Команда: Охрана");
    s.handle_event(MqttEvent::Command(ControlCmd::Disarm));
    assert_eq!(s.status, "Команда: Снять с охраны");
    s.handle_event(MqttEvent::Command(ControlCmd::Alarm));
    assert_eq!(s.status, "Команда: Тревога");
    assert_eq!(s.handle_event(MqttEvent::Disconnected), None);
    assert!(!s.is_connected);
    assert_eq!(s.status, "Отключено");
    s.cancel_connect();
    assert_eq!(s.status, "Отмена...");
    s.handle_event(MqttEvent::ConnectError("Отменено".to_string()));
    assert_eq!(s.status, "Подключение отменено");
    s.handle_event(MqttEvent::ConnectError("нет".to_string()));
    assert_eq!(s.status, "нет");
    s.editing_text = "абв".to_string();
    s.editing_delete_last();
    assert_eq!(s.editing_text, "аб");
}
