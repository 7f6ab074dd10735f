use security::rf_receiver::{
    decode_bits, decode_rc, describe, dump_symbols, near, protocols, try_protocol, Listener,
    PinState, Protocol, Pulse, RfCode, RxAction, RxEvent, Symbol,
};

fn symbol(high: u32, low: u32) -> Symbol {
    Symbol {
        level0: Pulse { pin_state: PinState::High, ticks: high as u16 },
        level1: Pulse { pin_state: PinState::Low, ticks: low as u16 },
    }
}

fn frame(p: &Protocol, code: u64, t: u32) -> Vec<Symbol> {
    let mut v = vec![symbol(p.sync_high * t, p.sync_low * t)];
    for i in (0..p.bit_count).rev() {
        if (code >> i) & 1 == 1 {
            v.push(symbol(p.one_high * t, p.one_low * t));
        } else {
            v.push(symbol(p.zero_high * t, p.zero_low * t));
        }
    }
    v
}

fn noise() -> Symbol {
    symbol(5, 7)
}

#[test]
fn an_ev1527_frame_is_decoded() {
    let ps = protocols();
    assert_eq!(ps.len(), 11);
    let mut burst = frame(&ps[0], 0xA5C3F0, 300);
    burst.push(noise());
    let rc = decode_rc(&burst).unwrap();
    assert_eq!(rc.code, 0xA5C3F0);
    assert_eq!(rc.bit_count, 24);
    assert_eq!(rc.protocol, "EV1527");
}

#[test]
fn every_protocol_finds_its_own_frame() {
    for p in protocols() {
        let code = 0x5A5A5A5 & ((1u64 << p.bit_count) - 1);
        let t = p.t_max.min(65_000 / (p.sync_high + p.sync_low));
        let mut burst = vec![noise(), noise()];
        burst.extend(frame(&p, code, t));
        burst.push(noise());
        let rc = try_protocol(&burst, &p).unwrap();
        assert_eq!(rc.code, code, "{}", p.name);
        assert_eq!(rc.protocol, p.name);
        assert_eq!(rc.bit_count, p.bit_count);
    }
}

#[test]
fn a_frame_needs_a_symbol_after_it() {
    let ps = protocols();
    let burst = frame(&ps[0], 0x123456, 300);
    assert!(try_protocol(&burst, &ps[0]).is_none());
}

#[test]
fn a_frame_out_of_range_is_not_decoded() {
    let ps = protocols();
    let mut burst = frame(&ps[0], 0x123456, 79);
    burst.push(noise());
    assert!(try_protocol(&burst, &ps[0]).is_none());
    burst[0] = noise();
    assert!(decode_rc(&burst).is_none());
    assert!(decode_rc(&[]).is_none());
}

#[test]
fn a_sync_has_a_high_and_a_low_level() {
    let ps = protocols();
    let mut burst = frame(&ps[0], 0x123456, 300);
    burst.push(noise());
    burst[0].level0.pin_state = PinState::Low;
    assert!(try_protocol(&burst, &ps[0]).is_none());
}

#[test]
fn bits_tolerate_jitter() {
    let ps = protocols();
    let mut burst = frame(&ps[0], 0x800001, 200);
    burst[1] = symbol(3 * 200 + 150, 200 - 150);
    assert_eq!(decode_bits(&burst, 1, 24, 200, &ps[0]), Some(0x800001));
    burst[1] = symbol(3 * 200 + 151, 200);
    assert_eq!(decode_bits(&burst, 1, 24, 200, &ps[0]), None);
    assert_eq!(decode_bits(&burst, 2, 24, 200, &ps[0]), None);
}

#[test]
fn long_periods_and_long_codes_are_read() {
    let mut p = protocols()[0].clone();
    p.one_high = 0;
    p.one_low = 1;
    p.zero_high = 1;
    p.zero_low = 0;
    let (one, zero) = (symbol(0, 60_000), symbol(60_000, 0));
    assert_eq!(decode_bits(&[one, zero, one], 0, 3, 70_000, &p), Some(0b101));
    let mut burst = vec![one; 65];
    burst[64] = zero;
    assert_eq!(decode_bits(&burst, 0, 64, 70_000, &p), Some(u64::MAX));
    assert_eq!(decode_bits(&burst, 0, 65, 70_000, &p), Some(u64::MAX - 1));
}

#[test]
fn nearness_includes_the_tolerance() {
    assert!(near(100, 130, 30));
    assert!(near(130, 100, 30));
    assert!(!near(100, 131, 30));
    assert!(near(0, u32::MAX, u32::MAX));
}

#[test]
fn lines_of_the_log() {
    let rc = RfCode { code: 0xAB, bit_count: 24, protocol: "EV1527" };
    assert_eq!(describe(&rc), "RF [EV1527] code=0x0000AB (dec=171, 24bit)");
    let rc = RfCode { code: 0xFFF, bit_count: 12, protocol: "CAME" };
    assert_eq!(describe(&rc), "RF [CAME] code=0xFFF (dec=4095, 12bit)");
    assert_eq!(
        dump_symbols(&[symbol(1, 20), symbol(12345, 6)]),
        "RF raw symbols (2 total):\n  [  0] H:    1us L:   20us\n  [  1] H:12345us L:    6us"
    );
}

fn burst_of(code: u64) -> RxEvent {
    let mut b = frame(&protocols()[0], code, 300);
    b.push(noise());
    RxEvent::Burst(b)
}

#[test]
fn repeats_of_a_press_are_told_apart() {
    let ms = 1_000_000u64;
    let mut l = Listener::new(0);
    match l.step(burst_of(0x42), ms) {
        RxAction::Report(rc, line) => {
            assert_eq!(rc.code, 0x42);
            assert_eq!(line, "RF [EV1527] code=0x000042 (dec=66, 24bit)");
        }
        _ => panic!("a new code is reported"),
    }
    assert!(matches!(l.step(burst_of(0x42), 400 * ms), RxAction::Repeat));
    assert!(matches!(l.step(burst_of(0x42), 401 * ms), RxAction::Report(..)));
    assert!(matches!(l.step(burst_of(0x43), 402 * ms), RxAction::Report(..)));
    assert!(matches!(l.step(burst_of(0x42), 403 * ms), RxAction::Report(..)));
}

#[test]
fn other_receptions() {
    let mut l = Listener::new(0);
    assert!(matches!(l.step(RxEvent::Burst(vec![]), 1), RxAction::Idle));
    assert!(matches!(l.step(RxEvent::Burst(vec![noise(); 12]), 1), RxAction::ShortBurst(12)));
    assert!(matches!(l.step(RxEvent::Burst(vec![noise(); 13]), 1), RxAction::Unknown(b) if b.len() == 13));
    assert!(matches!(l.step(RxEvent::Timeout, 1), RxAction::Idle));
    assert!(matches!(l.step(RxEvent::Failed, 1), RxAction::Pause));
}
