//! What the flash holds of the store, and that nothing of it is lost.
use vstd::prelude::*;
use vstd::utf8::{is_ascii_chars, is_ascii_chars_encode_utf8};

use super::device::{keys_read_back, DeviceType, DeviceView};
use super::store::{
    batch_writes, device_of, device_read_views, devices_of, ids_below, key_of, lemma_position,
    next_id_of, next_id_read_view, op_writes, record_of, str_write, OpView, StoreView,
    MAX_ID, NAMESPACE, NAME_CAP, TEXT_CAP,
};
use crate::number::{decimal, numeral_injective};
use crate::nvs::{
    all_written, answer, answers, fits, lemma_written_in_parts, written, AnswerView, Image,
    ValueView, WriteView, MAX_TEXT,
};

verus! {

/// The device that the flash holds under this id.
pub open spec fn stored_device(image: Image, id: u32) -> Option<DeviceView> {
    device_of(id, answers(image, device_read_views(id)))
}

/// The device that the store has under this id, but for its buttons.
pub open spec fn known_device(s: StoreView, id: u32) -> Option<DeviceView> {
    match s.position(id) {
        Some(i) => Some(s.devices[i].unbound()),
        None => None,
    }
}

/// The flash holds the devices of the store and its next free id.
pub open spec fn holds(image: Image, s: StoreView) -> bool {
    &&& next_id_of(answer(image, next_id_read_view())) == s.next_id
    &&& forall|id: u32|
        0 < id < s.next_id ==> #[trigger] stored_device(image, id) == known_device(s, id)
}

/// Once the pending changes are written, the flash holds what the store has.
pub open spec fn in_step(image: Image, s: StoreView) -> bool {
    holds(all_written(image, batch_writes(s.pending)), s)
}

/// The texts of the device can be stored and fit the buffers that they are read into.
pub open spec fn keepable(d: DeviceView) -> bool {
    fits(d.name, NAME_CAP as nat) && fits(d.code_hex, TEXT_CAP as nat) && fits(
        d.protocol,
        TEXT_CAP as nat,
    )
}

/// The answers to the reads of the ids 1 to `n`.
pub open spec fn stored_records(image: Image, n: nat) -> Seq<Seq<AnswerView>> {
    Seq::new(n, |i: int| answers(image, device_read_views((i + 1) as u32)))
}

/// The devices without what their buttons are bound to.
pub open spec fn all_unbound(devices: Seq<DeviceView>) -> Seq<DeviceView> {
    devices.map_values(|d: DeviceView| d.unbound())
}

// ── Keys ────────────────────────────────────────────────────────────────────

proof fn lemma_keys_differ(p: Seq<char>, i: u32, q: Seq<char>, j: u32)
    requires
        p.len() == 2,
        q.len() == 2,
        p != q || i != j,
    ensures
        key_of(p, i) != key_of(q, j),
{
    let a = key_of(p, i);
    let b = key_of(q, j);
    if a == b {
        assert(a.subrange(0, 2) =~= p);
        assert(b.subrange(0, 2) =~= q);
        assert(a.skip(2) =~= decimal(i as nat));
        assert(b.skip(2) =~= decimal(j as nat));
        numeral_injective(i as nat, j as nat, 10);
    }
}

proof fn lemma_prefixes()
    ensures
        "nm"@.len() == 2 && "ty"@.len() == 2 && "cx"@.len() == 2 && "pr"@.len() == 2 && "bc"@.len()
            == 2,
        "nm"@ != "ty"@ && "nm"@ != "cx"@ && "nm"@ != "pr"@ && "nm"@ != "bc"@,
        "ty"@ != "cx"@ && "ty"@ != "pr"@ && "ty"@ != "bc"@,
        "cx"@ != "pr"@ && "cx"@ != "bc"@ && "pr"@ != "bc"@,
        forall|id: u32| #[trigger] key_of("nm"@, id) != "nid"@,
        forall|id: u32| #[trigger] key_of("ty"@, id) != "nid"@,
        forall|id: u32| #[trigger] key_of("cx"@, id) != "nid"@,
        forall|id: u32| #[trigger] key_of("pr"@, id) != "nid"@,
        forall|id: u32| #[trigger] key_of("bc"@, id) != "nid"@,
{
    reveal_strlit("nm");
    reveal_strlit("ty");
    reveal_strlit("cx");
    reveal_strlit("pr");
    reveal_strlit("bc");
    reveal_strlit("nid");
    assert("nm"@[0] == 'n' && "ty"@[0] == 't' && "cx"@[0] == 'c' && "pr"@[0] == 'p' && "bc"@[0]
        == 'b' && "nid"@[0] == 'n');
    assert("nm"@[1] == 'm' && "nid"@[1] == 'i');
    assert forall|id: u32| #[trigger] key_of("nm"@, id) != "nid"@ by {
        assert(key_of("nm"@, id)[1] == 'm');
    }
    assert forall|id: u32| #[trigger] key_of("ty"@, id) != "nid"@ by {
        assert(key_of("ty"@, id)[0] == 't');
    }
    assert forall|id: u32| #[trigger] key_of("cx"@, id) != "nid"@ by {
        assert(key_of("cx"@, id)[0] == 'c');
    }
    assert forall|id: u32| #[trigger] key_of("pr"@, id) != "nid"@ by {
        assert(key_of("pr"@, id)[0] == 'p');
    }
    assert forall|id: u32| #[trigger] key_of("bc"@, id) != "nid"@ by {
        assert(key_of("bc"@, id)[0] == 'b');
    }
}

// ── One record ──────────────────────────────────────────────────────────────

/// The five fields of a record and the next free id.
spec fn record_writes(
    id: u32,
    name: Seq<char>,
    type_key: Seq<char>,
    code_hex: Seq<char>,
    protocol: Seq<char>,
    bit_count: u8,
    next_id: u32,
) -> Seq<WriteView> {
    seq![
        str_write(key_of("nm"@, id), name),
        str_write(key_of("ty"@, id), type_key),
        str_write(key_of("cx"@, id), code_hex),
        str_write(key_of("pr"@, id), protocol),
        WriteView { key: key_of("bc"@, id), value: ValueView::U8(bit_count) },
        WriteView { key: "nid"@, value: ValueView::U32(next_id) },
    ]
}

proof fn lemma_record(
    image: Image,
    id: u32,
    name: Seq<char>,
    type_key: Seq<char>,
    code_hex: Seq<char>,
    protocol: Seq<char>,
    bit_count: u8,
    next_id: u32,
)
    requires
        fits(name, NAME_CAP as nat),
        fits(type_key, TEXT_CAP as nat),
        fits(code_hex, TEXT_CAP as nat),
        fits(protocol, TEXT_CAP as nat),
        next_id <= MAX_ID,
    ensures
        ({
            let after = all_written(
                image,
                record_writes(id, name, type_key, code_hex, protocol, bit_count, next_id),
            );
            &&& next_id_of(answer(after, next_id_read_view())) == next_id
            &&& answers(after, device_read_views(id)) == seq![
                AnswerView::Str(name),
                AnswerView::Str(type_key),
                AnswerView::Str(code_hex),
                AnswerView::Str(protocol),
                AnswerView::U8(bit_count),
            ]
            &&& forall|other: u32|
                other != id ==> #[trigger] answers(after, device_read_views(other)) == answers(
                    image,
                    device_read_views(other),
                )
        }),
{
    let ws = record_writes(id, name, type_key, code_hex, protocol, bit_count, next_id);
    let after = all_written(image, ws);
    let i1 = image.insert(ws[0].key, ws[0].value);
    let i2 = i1.insert(ws[1].key, ws[1].value);
    let i3 = i2.insert(ws[2].key, ws[2].value);
    let i4 = i3.insert(ws[3].key, ws[3].value);
    let i5 = i4.insert(ws[4].key, ws[4].value);
    let i6 = i5.insert(ws[5].key, ws[5].value);
    assert(after == i6) by {
        assert(ws.drop_last().drop_last().drop_last().drop_last().drop_last().drop_last()
            =~= Seq::<WriteView>::empty());
        assert(ws.drop_last().drop_last().drop_last().drop_last().drop_last() =~= seq![ws[0]]);
        assert(ws.drop_last().drop_last().drop_last().drop_last() =~= seq![ws[0], ws[1]]);
        assert(ws.drop_last().drop_last().drop_last() =~= seq![ws[0], ws[1], ws[2]]);
        assert(ws.drop_last().drop_last() =~= seq![ws[0], ws[1], ws[2], ws[3]]);
        assert(ws.drop_last() =~= seq![ws[0], ws[1], ws[2], ws[3], ws[4]]);
        assert(seq![ws[0]].drop_last() =~= Seq::<WriteView>::empty());
        reveal_with_fuel(all_written, 7);
    }
    lemma_prefixes();
    lemma_keys_differ("nm"@, id, "ty"@, id);
    lemma_keys_differ("nm"@, id, "cx"@, id);
    lemma_keys_differ("nm"@, id, "pr"@, id);
    lemma_keys_differ("nm"@, id, "bc"@, id);
    lemma_keys_differ("ty"@, id, "cx"@, id);
    lemma_keys_differ("ty"@, id, "pr"@, id);
    lemma_keys_differ("ty"@, id, "bc"@, id);
    lemma_keys_differ("cx"@, id, "pr"@, id);
    lemma_keys_differ("cx"@, id, "bc"@, id);
    lemma_keys_differ("pr"@, id, "bc"@, id);
    assert(answers(after, device_read_views(id)) =~= seq![
        AnswerView::Str(name),
        AnswerView::Str(type_key),
        AnswerView::Str(code_hex),
        AnswerView::Str(protocol),
        AnswerView::U8(bit_count),
    ]);
    assert forall|other: u32| other != id implies #[trigger] answers(
        after,
        device_read_views(other),
    ) == answers(image, device_read_views(other)) by {
        let prefixes = seq!["nm"@, "ty"@, "cx"@, "pr"@, "bc"@];
        assert forall|a: int, b: int|
            #![trigger prefixes[a], prefixes[b]]
            0 <= a < 5 && 0 <= b < 5 implies key_of(prefixes[a], other) != key_of(
            prefixes[b],
            id,
        ) by {
            lemma_keys_differ(prefixes[a], other, prefixes[b], id);
        }
        assert(prefixes[0] == "nm"@ && prefixes[1] == "ty"@ && prefixes[2] == "cx"@ && prefixes[3]
            == "pr"@ && prefixes[4] == "bc"@);
        assert(answers(after, device_read_views(other)) =~= answers(
            image,
            device_read_views(other),
        ));
    }
}

proof fn lemma_ascii_fits(s: Seq<char>, cap: nat)
    requires
        forall|i: int| 0 <= i < s.len() ==> '\0' < #[trigger] s[i] <= '\x7f',
        s.len() < cap <= MAX_TEXT,
    ensures
        fits(s, cap),
{
    assert(is_ascii_chars(s));
    is_ascii_chars_encode_utf8(s);
    assert(!s.contains('\0'));
}

proof fn lemma_key_fits(t: DeviceType)
    ensures
        fits(t.key(), TEXT_CAP as nat),
{
    reveal_strlit("sensor");
    reveal_strlit("remote");
    reveal_strlit("motion");
    reveal_strlit("garage");
    reveal_strlit("smoke_fire");
    reveal_strlit("other");
    lemma_ascii_fits(t.key(), TEXT_CAP as nat);
}

proof fn lemma_persist(image: Image, d: DeviceView, next_id: u32)
    requires
        d.wf(),
        keepable(d),
        next_id <= MAX_ID,
    ensures
        ({
            let after = all_written(image, op_writes(OpView::Persist(record_of(d), next_id)));
            &&& next_id_of(answer(after, next_id_read_view())) == next_id
            &&& stored_device(after, d.id) == Some(d.unbound())
            &&& forall|other: u32|
                other != d.id ==> #[trigger] stored_device(after, other) == stored_device(
                    image,
                    other,
                )
        }),
{
    let key = d.device_type.key();
    lemma_key_fits(d.device_type);
    keys_read_back(d.device_type);
    let ws = op_writes(OpView::Persist(record_of(d), next_id));
    assert(ws =~= record_writes(d.id, d.name, key, d.code_hex, d.protocol, d.bit_count, next_id));
    lemma_record(image, d.id, d.name, key, d.code_hex, d.protocol, d.bit_count, next_id);
    let after = all_written(image, ws);
    assert forall|other: u32| other != d.id implies #[trigger] stored_device(after, other)
        == stored_device(image, other) by {
        assert(answers(after, device_read_views(other)) == answers(
            image,
            device_read_views(other),
        ));
    }
}

proof fn lemma_erase(image: Image, id: u32, next_id: u32)
    requires
        next_id <= MAX_ID,
    ensures
        ({
            let after = all_written(image, op_writes(OpView::Delete(id, next_id)));
            &&& next_id_of(answer(after, next_id_read_view())) == next_id
            &&& stored_device(after, id) is None
            &&& forall|other: u32|
                other != id ==> #[trigger] stored_device(after, other) == stored_device(
                    image,
                    other,
                )
        }),
{
    let none = Seq::<char>::empty();
    lemma_ascii_fits(none, NAME_CAP as nat);
    lemma_ascii_fits(none, TEXT_CAP as nat);
    let ws = op_writes(OpView::Delete(id, next_id));
    assert(ws =~= record_writes(id, none, none, none, none, 0, next_id));
    lemma_record(image, id, none, none, none, none, 0, next_id);
    let after = all_written(image, ws);
    assert forall|other: u32| other != id implies #[trigger] stored_device(after, other)
        == stored_device(image, other) by {
        assert(answers(after, device_read_views(other)) == answers(
            image,
            device_read_views(other),
        ));
    }
}

proof fn lemma_one_more(image: Image, ops: Seq<OpView>, op: OpView)
    ensures
        all_written(image, batch_writes(ops.push(op))) == all_written(
            all_written(image, batch_writes(ops)),
            op_writes(op),
        ),
{
    assert(ops.push(op).drop_last() =~= ops);
    lemma_written_in_parts(image, batch_writes(ops), op_writes(op));
}

proof fn lemma_position_is(s: StoreView, i: int)
    requires
        s.wf(),
        0 <= i < s.devices.len(),
    ensures
        s.position(s.devices[i].id) == Some(i),
{
    lemma_position(s.devices, s.devices[i].id, 0);
}

proof fn lemma_position_none(s: StoreView, id: u32)
    requires
        forall|i: int| 0 <= i < s.devices.len() ==> (#[trigger] s.devices[i]).id != id,
    ensures
        s.position(id) is None,
{
    lemma_position(s.devices, id, 0);
}

// ── Laws ────────────────────────────────────────────────────────────────────

/// An empty flash is in step with the store that it is opened as.
pub proof fn empty_flash_is_in_step()
    ensures
        next_id_of(answer(Map::empty(), next_id_read_view())) == 1,
        in_step(
            Map::empty(),
            StoreView { devices: Seq::empty(), next_id: 1, pending: Seq::empty() },
        ),
{
}

/// Adding a device keeps the flash in step.
pub proof fn adding_keeps_in_step(
    image: Image,
    s: StoreView,
    name: Seq<char>,
    device_type: DeviceType,
    code_hex: Seq<char>,
    protocol: Seq<char>,
    bit_count: u8,
)
    requires
        s.wf(),
        in_step(image, s),
        0 < s.next_id < MAX_ID,
        code_hex.len() > 0,
        keepable(
            s.with_added(name, device_type, code_hex, protocol, bit_count).devices.last(),
        ),
    ensures
        in_step(image, s.with_added(name, device_type, code_hex, protocol, bit_count)),
{
    let s2 = s.with_added(name, device_type, code_hex, protocol, bit_count);
    let d = s2.devices.last();
    let flash = all_written(image, batch_writes(s.pending));
    lemma_one_more(image, s.pending, OpView::Persist(record_of(d), s2.next_id));
    lemma_persist(flash, d, s2.next_id);
    let after = all_written(image, batch_writes(s2.pending));
    assert forall|id: u32| 0 < id < s2.next_id implies #[trigger] stored_device(after, id)
        == known_device(s2, id) by {
        if id == d.id {
            lemma_position_is(s2, s.devices.len() as int);
        } else {
            assert(stored_device(flash, id) == known_device(s, id));
            lemma_position(s.devices, id, 0);
            match s.position(id) {
                Some(i) => {
                    assert(s2.devices[i] == s.devices[i]);
                    lemma_position_is(s2, i);
                },
                None => {
                    assert forall|i: int| 0 <= i < s2.devices.len() implies (
                    #[trigger] s2.devices[i]).id != id by {
                        if i < s.devices.len() {
                            assert(s2.devices[i] == s.devices[i]);
                        }
                    }
                    lemma_position_none(s2, id);
                },
            }
        }
    }
}

/// A device that was written is not lost: where its code fits, a restart finds
/// it under its id and with its code, even where its other texts do not fit.
pub proof fn a_written_device_is_found(image: Image, d: DeviceView, next_id: u32)
    requires
        d.wf(),
        fits(d.code_hex, TEXT_CAP as nat),
    ensures
        ({
            let after = all_written(image, op_writes(OpView::Persist(record_of(d), next_id)));
            &&& stored_device(after, d.id) is Some
            &&& stored_device(after, d.id)->0.id == d.id
            &&& stored_device(after, d.id)->0.code_hex == d.code_hex
        }),
{
    let ws = op_writes(OpView::Persist(record_of(d), next_id));
    let cx = key_of("cx"@, d.id);
    lemma_prefixes();
    lemma_keys_differ("cx"@, d.id, "pr"@, d.id);
    lemma_keys_differ("cx"@, d.id, "bc"@, d.id);
    let up_to_code = all_written(image, ws.take(3));
    let i4 = written(up_to_code, ws[3]);
    let i5 = written(i4, ws[4]);
    let i6 = written(i5, ws[5]);
    assert(all_written(image, ws) == i6) by {
        assert(ws.drop_last() =~= ws.take(5));
        assert(ws.take(5).drop_last() =~= ws.take(4));
        assert(ws.take(4).drop_last() =~= ws.take(3));
        assert(all_written(image, ws.take(4)) == i4);
        assert(all_written(image, ws.take(5)) == i5);
    }
    assert(ws.take(3).last() == str_write(cx, d.code_hex));
    assert(up_to_code.dom().contains(cx) && up_to_code[cx] == ValueView::Str(d.code_hex));
    assert(i6.dom().contains(cx) && i6[cx] == ValueView::Str(d.code_hex));
    assert(answers(i6, device_read_views(d.id))[2] == AnswerView::Str(d.code_hex));
}

/// Replacing a device keeps the flash in step.
pub proof fn updating_keeps_in_step(image: Image, s: StoreView, d: DeviceView)
    requires
        s.wf(),
        d.wf(),
        in_step(image, s),
        s.position(d.id) is Some ==> keepable(d),
    ensures
        in_step(image, s.with_updated(d)),
{
    lemma_position(s.devices, d.id, 0);
    if let Some(p) = s.position(d.id) {
        let s2 = s.with_updated(d);
        let flash = all_written(image, batch_writes(s.pending));
        lemma_one_more(image, s.pending, OpView::Persist(record_of(d), s.next_id));
        lemma_persist(flash, d, s.next_id);
        let after = all_written(image, batch_writes(s2.pending));
        assert(s2.wf());
        assert forall|id: u32| 0 < id < s2.next_id implies #[trigger] stored_device(after, id)
            == known_device(s2, id) by {
            if id == d.id {
                lemma_position_is(s2, p);
            } else {
                assert(stored_device(flash, id) == known_device(s, id));
                lemma_position(s.devices, id, 0);
                match s.position(id) {
                    Some(i) => {
                        assert(s2.devices[i] == s.devices[i]);
                        lemma_position_is(s2, i);
                    },
                    None => {
                        assert forall|i: int| 0 <= i < s2.devices.len() implies (
                        #[trigger] s2.devices[i]).id != id by {
                            if i != p {
                                assert(s2.devices[i] == s.devices[i]);
                            }
                        }
                        lemma_position_none(s2, id);
                    },
                }
            }
        }
    }
}

proof fn lemma_known_after_delete(s: StoreView, id: u32, p: int, o: u32)
    requires
        s.wf(),
        s.position(id) == Some(p),
    ensures
        s.with_deleted(id).wf(),
        known_device(s.with_deleted(id), o) == (if o == id {
            None
        } else {
            known_device(s, o)
        }),
{
    lemma_position(s.devices, id, 0);
    let s2 = s.with_deleted(id);
    assert(forall|i: int| 0 <= i < p ==> s2.devices[i] == s.devices[i]);
    assert(forall|i: int| p <= i < s2.devices.len() ==> s2.devices[i] == s.devices[i + 1]);
    assert(s2.wf());
    lemma_position(s.devices, o, 0);
    match s.position(o) {
        Some(i) if i < p => {
            lemma_position_is(s2, i);
        },
        Some(i) if i > p => {
            assert(s2.devices[i - 1] == s.devices[i]);
            lemma_position_is(s2, i - 1);
        },
        _ => {
            lemma_position_none(s2, o);
        },
    }
}

/// Removing a device keeps the flash in step.
pub proof fn deleting_keeps_in_step(image: Image, s: StoreView, id: u32)
    requires
        s.wf(),
        in_step(image, s),
    ensures
        in_step(image, s.with_deleted(id)),
{
    if let Some(p) = s.position(id) {
        let s2 = s.with_deleted(id);
        let flash = all_written(image, batch_writes(s.pending));
        lemma_one_more(image, s.pending, OpView::Delete(id, s.next_id));
        lemma_erase(flash, id, s.next_id);
        let after = all_written(image, batch_writes(s2.pending));
        assert forall|o: u32| 0 < o < s2.next_id implies #[trigger] stored_device(after, o)
            == known_device(s2, o) by {
            lemma_known_after_delete(s, id, p, o);
            assert(stored_device(flash, o) == known_device(s, o));
        }
    }
}

/// Binding a button keeps the flash in step.
pub proof fn binding_keeps_in_step(image: Image, s: StoreView, id: u32, idx: int, code: Seq<char>)
    requires
        s.wf(),
        0 <= idx < super::device::BUTTONS,
        in_step(image, s),
    ensures
        in_step(image, s.with_bound(id, idx, code)),
{
    lemma_position(s.devices, id, 0);
    if let Some(p) = s.position(id) {
        let s2 = s.with_bound(id, idx, code);
        assert(s2.wf());
        let after = all_written(image, batch_writes(s.pending));
        assert forall|o: u32| 0 < o < s2.next_id implies #[trigger] stored_device(after, o)
            == known_device(s2, o) by {
            assert(stored_device(after, o) == known_device(s, o));
            lemma_position(s.devices, o, 0);
            match s.position(o) {
                Some(i) => {
                    assert(s2.devices[i].id == s.devices[i].id);
                    lemma_position_is(s2, i);
                },
                None => {
                    assert forall|i: int| 0 <= i < s2.devices.len() implies (
                    #[trigger] s2.devices[i]).id != o by {
                        assert(s.devices[i].id != o);
                    }
                    lemma_position_none(s2, o);
                },
            }
        }
    }
}

/// Writing the pending changes, once they are taken from the store, keeps the
/// flash in step.
pub proof fn writing_keeps_in_step(image: Image, s: StoreView)
    requires
        in_step(image, s),
    ensures
        in_step(
            all_written(image, batch_writes(s.pending)),
            StoreView { pending: Seq::empty(), ..s },
        ),
{
    let after = all_written(image, batch_writes(s.pending));
    let s2 = StoreView { pending: Seq::empty(), ..s };
    assert forall|id: u32| 0 < id < s2.next_id implies #[trigger] stored_device(after, id)
        == known_device(s2, id) by {
        assert(stored_device(after, id) == known_device(s, id));
    }
}

proof fn lemma_reload(image: Image, s: StoreView, total: nat, n: nat, k: int)
    requires
        s.wf(),
        holds(image, s),
        n <= total,
        total < s.next_id,
        0 <= k <= s.devices.len(),
        forall|j: int| 0 <= j < k ==> (#[trigger] s.devices[j]).id <= n,
        forall|j: int| k <= j < s.devices.len() ==> (#[trigger] s.devices[j]).id > n,
    ensures
        devices_of(stored_records(image, total), n) == all_unbound(s.devices.take(k)),
    decreases n,
{
    let records = stored_records(image, total);
    if n == 0 {
        if k > 0 {
            assert(s.devices[0].wf());
        }
        assert(all_unbound(s.devices.take(k)) =~= Seq::<DeviceView>::empty());
    } else {
        let id = n as u32;
        assert(device_of(id, records[n - 1]) == stored_device(image, id));
        assert(stored_device(image, id) == known_device(s, id));
        if k > 0 && s.devices[k - 1].id == n {
            assert forall|j: int| 0 <= j < k - 1 implies (#[trigger] s.devices[j]).id <= n - 1 by {
                assert(s.devices[j].id < s.devices[k - 1].id);
            }
            lemma_reload(image, s, total, (n - 1) as nat, k - 1);
            lemma_position_is(s, k - 1);
            assert(all_unbound(s.devices.take(k)) =~= all_unbound(s.devices.take(k - 1)).push(
                s.devices[k - 1].unbound(),
            ));
        } else {
            assert forall|j: int| 0 <= j < k implies (#[trigger] s.devices[j]).id <= n - 1 by {
                if s.devices[j].id == n {
                    assert(j < k - 1);
                    assert(s.devices[j].id < s.devices[k - 1].id);
                }
            }
            assert forall|j: int| 0 <= j < s.devices.len() implies (#[trigger] s.devices[j]).id
                != id by {
                if j < k {
                    assert(s.devices[j].id <= n - 1);
                }
            }
            lemma_reload(image, s, total, (n - 1) as nat, k);
            lemma_position_none(s, id);
        }
    }
}

/// A store that is opened again comes back: from a flash that holds it, the
/// same devices in the same order and the same next free id are read, with no
/// button bound.
pub proof fn reopening_gives_the_store_back(image: Image, s: StoreView)
    requires
        s.wf(),
        holds(image, s),
    ensures
        next_id_of(answer(image, next_id_read_view())) == s.next_id,
        devices_of(
            stored_records(image, ids_below(s.next_id)),
            ids_below(s.next_id),
        ) == all_unbound(s.devices),
{
    let n = ids_below(s.next_id);
    assert(s.devices.take(s.devices.len() as int) =~= s.devices);
    if s.next_id > 0 {
        lemma_reload(image, s, n, n, s.devices.len() as int);
    } else {
        if s.devices.len() > 0 {
            assert(s.devices[0].id < s.next_id);
        }
        assert(all_unbound(s.devices) =~= Seq::<DeviceView>::empty());
    }
}

/// An id is given out once: the device that is added has a higher id than any
/// that the store has, and no change lowers the next free id.
pub proof fn ids_are_not_reused(
    s: StoreView,
    name: Seq<char>,
    device_type: DeviceType,
    code_hex: Seq<char>,
    protocol: Seq<char>,
    bit_count: u8,
    d: DeviceView,
    id: u32,
)
    requires
        s.wf(),
        s.next_id < MAX_ID,
    ensures
        ({
            let added = s.with_added(name, device_type, code_hex, protocol, bit_count);
            &&& forall|i: int|
                0 <= i < s.devices.len() ==> (#[trigger] s.devices[i]).id < added.devices.last().id
            &&& added.devices.last().id < added.next_id
        }),
        s.with_updated(d).next_id == s.next_id,
        s.with_deleted(id).next_id == s.next_id,
{
}

/// The text can be kept and read in a buffer of `size` bytes.
pub open spec fn short(s: Seq<char>, size: int) -> bool {
    vstd::utf8::encode_utf8(s).len() < size && !s.contains('\0')
}

/// A device is kept in the namespace `rc_devs`, field by field under keys with its id: `nm` its name, of up to 64
/// bytes, `ty` its kind, `cx` its code and `pr` its protocol, of up to 16 bytes, `bc` its
/// number of bits. The next free id is kept under `nid`. A restart finds the device as
/// it was, but for its buttons; the devices with other ids are not touched.
pub proof fn a_device_is_kept(image: Image, d: DeviceView, next_id: u32, other: u32)
    requires
        d.wf(),
        short(d.name, 65),
        short(d.code_hex, 17),
        short(d.protocol, 17),
        next_id <= 1000,
        other != d.id,
    ensures
        ({
            let after = all_written(image, op_writes(OpView::Persist(record_of(d), next_id)));
            let id = decimal(d.id as nat);
            &&& NAMESPACE@ == "rc_devs"@
            &&& after["nm"@ + id] == ValueView::Str(d.name)
            &&& after["ty"@ + id] == ValueView::Str(d.device_type.key())
            &&& after["cx"@ + id] == ValueView::Str(d.code_hex)
            &&& after["pr"@ + id] == ValueView::Str(d.protocol)
            &&& after["bc"@ + id] == ValueView::U8(d.bit_count)
            &&& after["nid"@] == ValueView::U32(next_id)
            &&& stored_device(after, d.id) matches Some(found) && found.id == d.id && found.name
                == d.name && found.device_type == d.device_type && found.code_hex == d.code_hex
                && found.protocol == d.protocol && found.bit_count == d.bit_count
            &&& stored_device(after, other) == stored_device(image, other)
        }),
{
    assert(keepable(d));
    lemma_persist(image, d, next_id);
    let key = d.device_type.key();
    lemma_key_fits(d.device_type);
    let ws = op_writes(OpView::Persist(record_of(d), next_id));
    assert(ws =~= record_writes(d.id, d.name, key, d.code_hex, d.protocol, d.bit_count, next_id));
    lemma_record(image, d.id, d.name, key, d.code_hex, d.protocol, d.bit_count, next_id);
    let after = all_written(image, ws);
    let a = answers(after, device_read_views(d.id));
    let rs = device_read_views(d.id);
    assert(a[0] == answer(after, rs[0]) && a[1] == answer(after, rs[1]) && a[2] == answer(
        after,
        rs[2],
    ) && a[3] == answer(after, rs[3]) && a[4] == answer(after, rs[4]));
    assert(after == written(all_written(image, ws.drop_last()), ws[5]));
}

/// A device that was erased is not found by a restart, and nothing of it is kept: its
/// texts are empty, and its number of bits is 0. The devices with other ids are not
/// touched.
pub proof fn an_erased_device_is_not_found(image: Image, id: u32, next_id: u32, other: u32)
    requires
        next_id <= 1000,
        other != id,
    ensures
        ({
            let after = all_written(image, op_writes(OpView::Delete(id, next_id)));
            let n = decimal(id as nat);
            &&& stored_device(after, id) is None
            &&& stored_device(after, other) == stored_device(image, other)
            &&& after["nm"@ + n] == ValueView::Str(Seq::empty())
            &&& after["ty"@ + n] == ValueView::Str(Seq::empty())
            &&& after["cx"@ + n] == ValueView::Str(Seq::empty())
            &&& after["pr"@ + n] == ValueView::Str(Seq::empty())
            &&& after["bc"@ + n] == ValueView::U8(0)
            &&& after["nid"@] == ValueView::U32(next_id)
        }),
{
    lemma_erase(image, id, next_id);
    let none = Seq::<char>::empty();
    lemma_ascii_fits(none, NAME_CAP as nat);
    lemma_ascii_fits(none, TEXT_CAP as nat);
    let ws = op_writes(OpView::Delete(id, next_id));
    assert(ws =~= record_writes(id, none, none, none, none, 0, next_id));
    lemma_record(image, id, none, none, none, none, 0, next_id);
    let after = all_written(image, ws);
    let rs = device_read_views(id);
    let a = answers(after, rs);
    assert(a[0] == answer(after, rs[0]) && a[1] == answer(after, rs[1]) && a[2] == answer(
        after,
        rs[2],
    ) && a[3] == answer(after, rs[3]) && a[4] == answer(after, rs[4]));
    assert(ws.last() == ws[5]);
    assert(after == written(all_written(image, ws.drop_last()), ws[5]));
}

/// The pending changes are written in their order, each in full.
pub proof fn changes_are_written_in_order(ops: Seq<OpView>, op: OpView)
    ensures
        batch_writes(ops.push(op)) == batch_writes(ops) + op_writes(op),
        batch_writes(Seq::empty()).len() == 0,
        op_writes(op).len() == 6,
{
    assert(ops.push(op).drop_last() =~= ops);
}

} // verus!
