use security::control::ControlCmd;
use security::nvs::{NvsAnswer, NvsRead, NvsValue};
use security::rc_devices::store::{
    apply_op, batch, device_reads, key, next_id_from, next_id_read, read_device,
};
use security::rc_devices::{DeviceStore, DeviceType};
use security::rf_receiver::RfCode;
use security::screens::rc_devices::{
    code_bound_this_session, code_to_cmd, device_info, RcDevicesScreenHandler, ScanCandidate,
};
use std::collections::HashMap;

const TYPES: [DeviceType; 6] = [
    DeviceType::Sensor,
    DeviceType::Remote,
    DeviceType::Motion,
    DeviceType::Garage,
    DeviceType::SmokeFire,
    DeviceType::Other,
];

fn answer(flash: &HashMap<String, NvsValue>, r: &NvsRead) -> NvsAnswer {
    match r {
        NvsRead::Str { key, cap } => match flash.get(key) {
            Some(NvsValue::Str(s)) if s.len() < *cap => NvsAnswer::Str(s.clone()),
            Some(_) => NvsAnswer::Failed,
            None => NvsAnswer::Missing,
        },
        NvsRead::U8 { key } => match flash.get(key) {
            Some(NvsValue::U8(v)) => NvsAnswer::U8(*v),
            Some(_) => NvsAnswer::Failed,
            None => NvsAnswer::Missing,
        },
        NvsRead::U32 { key } => match flash.get(key) {
            Some(NvsValue::U32(v)) => NvsAnswer::U32(*v),
            Some(_) => NvsAnswer::Failed,
            None => NvsAnswer::Missing,
        },
    }
}

fn flush(store: &mut DeviceStore, flash: &mut HashMap<String, NvsValue>) {
    for w in batch(&store.take_pending()) {
        flash.insert(w.key, w.value);
    }
}

fn reopen(flash: &HashMap<String, NvsValue>) -> DeviceStore {
    let nid = answer(flash, &next_id_read());
    let mut records = Vec::new();
    for id in 1..next_id_from(&nid) {
        records.push(device_reads(id).iter().map(|r| answer(flash, r)).collect());
    }
    DeviceStore::open(Some((nid, records)))
}

fn listed(store: &DeviceStore) -> Vec<(u32, String, DeviceType, String, String, u8)> {
    store
        .devices()
        .iter()
        .map(|d| {
            (
                d.id(),
                d.name().to_string(),
                d.device_type(),
                d.code_hex().to_string(),
                d.protocol().to_string(),
                d.bit_count(),
            )
        })
        .collect()
}

fn rf(code: u64) -> RfCode {
    RfCode { code, bit_count: 24, protocol: "EV1527" }
}

#[test]
fn kinds_have_labels_and_keys() {
    for t in TYPES {
        assert_eq!(DeviceType::from_str(t.as_str()), t);
        assert_eq!(DeviceType::from_key(t.as_key()), t);
        assert_eq!(DeviceType::from_key(t.as_str()), t);
    }
    assert_eq!(DeviceType::Sensor.as_str(), "Датчик");
    assert_eq!(DeviceType::Remote.as_str(), "Пульт");
    assert_eq!(DeviceType::Motion.as_str(), "Движение");
    assert_eq!(DeviceType::Garage.as_str(), "Гараж");
    assert_eq!(DeviceType::SmokeFire.as_str(), "Дым/Газ");
    assert_eq!(DeviceType::Other.as_str(), "Другое");
    assert_eq!(DeviceType::from_str("?"), DeviceType::Other);
    assert_eq!(DeviceType::Sensor.as_key(), "sensor");
    assert_eq!(DeviceType::Remote.as_key(), "remote");
}

#[test]
fn kinds_are_inferred() {
    assert_eq!(DeviceType::inferred_from("NiceFLO", 24), DeviceType::Garage);
    assert_eq!(DeviceType::inferred_from("CAME", 12), DeviceType::Garage);
    assert_eq!(DeviceType::inferred_from("HT6P20B", 28), DeviceType::Remote);
    assert_eq!(DeviceType::inferred_from("HS2303", 12), DeviceType::Motion);
    assert_eq!(DeviceType::inferred_from("HT12E", 12), DeviceType::Garage);
    assert_eq!(DeviceType::inferred_from("EV1527", 24), DeviceType::Sensor);
}

#[test]
fn devices_are_added_changed_and_deleted() {
    let mut s = DeviceStore::open(None);
    assert_eq!(s.next_id(), 1);
    let first = s.add("Дверь", DeviceType::Sensor, "A1", "EV1527", 24).unwrap();
    assert_eq!(first.id(), 1);
    s.add("Пульт", DeviceType::Remote, "B2", "HT6P20B", 28);
    assert!(s.contains_code("A1"));
    assert!(!s.contains_code("C3"));
    let d = s.get(1).unwrap().clone();
    s.update(d.with_name("Окно".to_string()).with_type(DeviceType::Motion));
    assert_eq!(listed(&s)[0], (1, "Окно".to_string(), DeviceType::Motion, "A1".to_string(), "EV1527".to_string(), 24));
    s.delete(1);
    s.delete(77);
    assert!(s.get(1).is_none());
    assert_eq!(s.devices().len(), 1);
    assert_eq!(s.add("x", DeviceType::Other, "D4", "p", 1).unwrap().id(), 3);
    assert_eq!(s.take_pending().len(), 5);
    assert!(s.take_pending().is_empty());
}

#[test]
fn a_restart_gives_the_devices_back() {
    let mut flash = HashMap::new();
    let mut s = reopen(&flash);
    assert_eq!(s.next_id(), 1);
    s.add("Дверь", DeviceType::Sensor, "A1", "EV1527", 24);
    s.add("Дым", DeviceType::SmokeFire, "B2", "EV1527-HR", 24);
    s.add("Ворота", DeviceType::Garage, "C3", "CAME", 12);
    s.delete(2);
    flush(&mut s, &mut flash);
    let again = reopen(&flash);
    assert_eq!(listed(&again), listed(&s));
    assert_eq!(again.next_id(), 4);
}

#[test]
fn ids_end_at_their_limit() {
    let mut flash = HashMap::new();
    flash.insert("nid".to_string(), NvsValue::U32(5000));
    let nid = answer(&flash, &next_id_read());
    assert_eq!(next_id_from(&nid), 1000);
    let mut s = reopen(&flash);
    assert!(s.add("x", DeviceType::Other, "A", "p", 1).is_none());
    assert!(s.devices().is_empty());
    flash.insert("nid".to_string(), NvsValue::U32(999));
    let mut s = reopen(&flash);
    assert_eq!(s.add("x", DeviceType::Other, "A", "p", 1).unwrap().id(), 999);
    assert!(s.add("y", DeviceType::Other, "B", "p", 1).is_none());
}

#[test]
fn stored_fields_decide_whether_there_is_a_device() {
    assert_eq!(key("nm", 999), "nm999");
    let s = |t: &str| NvsAnswer::Str(t.to_string());
    let d = read_device(5, &vec![NvsAnswer::Missing, s("remote"), s("AB"), s("p"), NvsAnswer::U8(24)]).unwrap();
    assert_eq!((d.id(), d.name(), d.device_type()), (5, "", DeviceType::Remote));
    let d = read_device(5, &vec![NvsAnswer::Failed, NvsAnswer::Failed, s("AB"), NvsAnswer::Failed, NvsAnswer::U8(24)]).unwrap();
    assert_eq!((d.id(), d.name(), d.device_type()), (5, "", DeviceType::Other));
    assert_eq!((d.code_hex(), d.protocol(), d.bit_count()), ("AB", "", 24));
    for bits in [NvsAnswer::Missing, NvsAnswer::Failed] {
        let d = read_device(5, &vec![s("n"), s("remote"), s("A1B2C3"), s("p"), bits]).unwrap();
        assert_eq!((d.name(), d.code_hex(), d.bit_count()), ("n", "A1B2C3", 0));
    }
    for code in [s(""), NvsAnswer::Missing, NvsAnswer::Failed] {
        assert!(read_device(5, &vec![s("n"), s("remote"), code, s("p"), NvsAnswer::U8(24)]).is_none());
    }
}

#[test]
fn a_device_with_too_long_a_name_survives_a_restart() {
    let mut flash = HashMap::new();
    let mut s = reopen(&flash);
    s.add(&"Д".repeat(33), DeviceType::Sensor, "A1", "EV1527", 24);
    flush(&mut s, &mut flash);
    let again = reopen(&flash);
    assert_eq!(listed(&again), vec![(1, String::new(), DeviceType::Sensor, "A1".to_string(), "EV1527".to_string(), 24)]);
}

#[test]
fn a_deletion_writes_empty_fields() {
    let mut s = DeviceStore::open(None);
    s.add("n", DeviceType::Other, "A", "p", 3);
    s.delete(1);
    let ops = s.take_pending();
    let ws = apply_op(&ops[1]);
    let keys: Vec<&str> = ws.iter().map(|w| w.key.as_str()).collect();
    assert_eq!(keys, vec!["nm1", "ty1", "cx1", "pr1", "bc1", "nid"]);
    assert!(matches!(&ws[2].value, NvsValue::Str(t) if t.is_empty()));
    assert!(matches!(ws[4].value, NvsValue::U8(0)));
    assert!(matches!(ws[5].value, NvsValue::U32(2)));
}

#[test]
fn a_remote_is_learned_bound_and_obeyed() {
    let mut store = DeviceStore::open(None);
    let mut s = RcDevicesScreenHandler::new(&store);
    s.scan_start();
    let step = s.poll(&mut store, &rf(0xABCDEF));
    assert!(!step.more && step.cmd.is_none());
    assert!(s.show_form && !s.scanning);
    assert_eq!((s.code_hex.as_str(), s.protocol.as_str(), s.bit_count), ("ABCDEF", "EV1527", 24));
    assert_eq!((s.edit_id, s.device_type.as_str()), (0, "Датчик"));
    s.save(&mut store, 0, "Брелок", "Пульт");
    assert_eq!(s.devices.len(), 1);
    assert!(s.binding_active);
    assert_eq!((s.binding_device_id, s.binding_device_name.as_str()), (1, "Брелок"));
    assert!(s.listens());
    assert!(!s.poll(&mut store, &rf(0x10)).more);
    assert!(s.poll(&mut store, &rf(0x10)).more);
    assert_eq!(s.binding_button_idx, 1);
    for c in [0x11, 0x12, 0x13] {
        assert!(!s.poll(&mut store, &rf(c)).more);
    }
    assert!(!s.listens());
    assert_eq!(s.binding_btn_code_0, "10");
    assert_eq!(s.binding_btn_code_3, "13");
    s.binding_active = false;
    let cmds = [ControlCmd::Arm, ControlCmd::Disarm, ControlCmd::Silent, ControlCmd::Alarm];
    for i in 0..4u64 {
        let step = s.poll(&mut store, &rf(0x10 + i));
        assert_eq!(step.cmd, Some(cmds[i as usize]));
        assert!(step.more);
    }
    assert_eq!(s.poll(&mut store, &rf(0x14)).cmd, None);
    assert_eq!(code_to_cmd(&store, "11"), Some(ControlCmd::Disarm));
    assert!(code_bound_this_session(&store, 1, "11", 2));
    assert!(!code_bound_this_session(&store, 1, "11", 1));
    assert!(!code_bound_this_session(&store, 2, "11", 4));
    assert!(store.contains_button_code("12"));
    s.scan_start();
    assert!(s.poll(&mut store, &rf(0xABCDEF)).more);
    assert!(s.poll(&mut store, &rf(0x12)).more);
    assert!(s.scanning);
    s.scan_cancel();
    s.save(&mut store, 1, "Брелок", "Датчик");
    assert_eq!(code_to_cmd(&store, "11"), None);
    s.save(&mut store, 1, "Брелок", "Пульт");
    assert_eq!(code_to_cmd(&store, "11"), Some(ControlCmd::Disarm));
    s.delete(&mut store, 1);
    assert!(s.devices.is_empty());
    assert_eq!(code_to_cmd(&store, "11"), None);
}

#[test]
fn a_remote_can_be_bound_anew() {
    let mut store = DeviceStore::open(None);
    store.add("p", DeviceType::Remote, "F", "EV1527", 24);
    store.bind_button(1, 0, "1".to_string());
    store.bind_button(1, 1, "2".to_string());
    let mut s = RcDevicesScreenHandler::new(&store);
    s.binding_load_codes(&store, 1);
    assert_eq!(s.binding_btn_code_1, "2");
    assert_eq!(s.binding_btn_code_2, "");
    s.binding_load_codes(&store, 9);
    assert_eq!(s.binding_btn_code_1, "2");
    s.binding_active = true;
    s.binding_device_id = 1;
    s.binding_button_idx = 0;
    assert!(!s.poll(&mut store, &rf(2)).more);
    assert_eq!(store.get(1).unwrap().button(0), Some("2"));
    assert_eq!(store.get(1).unwrap().button(4), None);
    s.binding_button_idx = -1;
    assert!(!s.listens());
}

#[test]
fn rows_and_candidates() {
    let mut store = DeviceStore::open(None);
    let d = store.add("Дверь", DeviceType::SmokeFire, "A1", "EV1527", 24).unwrap();
    let info = device_info(d);
    assert_eq!((info.id, info.name.as_str(), info.device_type.as_str()), (1, "Дверь", "Дым/Газ"));
    assert_eq!((info.code_hex.as_str(), info.protocol.as_str(), info.bit_count), ("A1", "EV1527", 24));
    let c = ScanCandidate::from_rf_code(&RfCode { code: 0, bit_count: 28, protocol: "HT6P20B" });
    assert_eq!((c.code_hex.as_str(), c.device_type), ("0", DeviceType::Remote));
    let mut s = RcDevicesScreenHandler::new(&store);
    s.device_name = "Окно".to_string();
    s.device_name_delete_last();
    assert_eq!(s.device_name, "Окн");
}
