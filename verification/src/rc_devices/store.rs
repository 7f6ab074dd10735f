//! The list of known devices, and how it is kept in flash.
//!
//! In the namespace [`NAMESPACE`] the key `nid` holds the next free id. The
//! device with the id N has the keys `nmN` (name), `tyN` (key of its kind),
//! `cxN` (code in hex), `prN` (protocol) and `bcN` (number of bits). There is no
//! index: on start the ids below the next free one are looked through, and a
//! device is there where its code is not empty, whatever became of its other
//! fields. What the buttons of a remote
//! are bound to is kept in memory only.
use vstd::prelude::*;

use super::device::{DeviceType, DeviceView, RfDevice, no_buttons, BUTTONS};
use crate::number::{decimal, to_decimal};
use crate::nvs::{
    get_str, get_u32, get_u8, put_str, put_u32, put_u8, stored_text_or, text_or,
};
use crate::nvs::{AnswerView, NvsAnswer, NvsRead, NvsWrite, ReadView, ValueView, WriteView};
use crate::text::{join, same, views};

verus! {

/// The namespace of the devices.
pub const NAMESPACE: &'static str = "rc_devs";

/// No device has this id or a higher one.
pub const MAX_ID: u32 = 1000;

/// The buffer for a name, in bytes.
pub const NAME_CAP: usize = 65;

/// The buffer for the other texts, in bytes.
pub const TEXT_CAP: usize = 17;

/// The fields of a device that are kept in flash.
pub struct NvsDeviceData {
    pub id: u32,
    pub name: String,
    pub type_key: String,
    pub code_hex: String,
    pub protocol: String,
    pub bit_count: u8,
}

/// A change that the flash has yet to see. Each carries the next free id.
pub enum NvsOp {
    /// Write a device.
    Persist(NvsDeviceData, u32),
    /// Erase the device with this id.
    Delete(u32, u32),
}

/// The model of the stored fields.
pub ghost struct RecordView {
    pub id: u32,
    pub name: Seq<char>,
    pub type_key: Seq<char>,
    pub code_hex: Seq<char>,
    pub protocol: Seq<char>,
    pub bit_count: u8,
}

/// The model of a change.
pub ghost enum OpView {
    Persist(RecordView, u32),
    Delete(u32, u32),
}

impl View for NvsDeviceData {
    type V = RecordView;

    open spec fn view(&self) -> RecordView {
        RecordView {
            id: self.id,
            name: self.name@,
            type_key: self.type_key@,
            code_hex: self.code_hex@,
            protocol: self.protocol@,
            bit_count: self.bit_count,
        }
    }
}

impl View for NvsOp {
    type V = OpView;

    open spec fn view(&self) -> OpView {
        match self {
            NvsOp::Persist(data, next_id) => OpView::Persist(data@, *next_id),
            NvsOp::Delete(id, next_id) => OpView::Delete(*id, *next_id),
        }
    }
}

// ── Keys, reads and writes ──────────────────────────────────────────────────

/// The stored fields of a device.
pub open spec fn record_of(d: DeviceView) -> RecordView {
    RecordView {
        id: d.id,
        name: d.name,
        type_key: d.device_type.key(),
        code_hex: d.code_hex,
        protocol: d.protocol,
        bit_count: d.bit_count,
    }
}

/// The key of a field of the device with this id.
pub open spec fn key_of(prefix: Seq<char>, id: u32) -> Seq<char> {
    prefix + decimal(id as nat)
}

pub open spec fn str_write(key: Seq<char>, value: Seq<char>) -> WriteView {
    WriteView { key, value: ValueView::Str(value) }
}

/// What a change writes.
pub open spec fn op_writes(op: OpView) -> Seq<WriteView> {
    match op {
        OpView::Persist(r, next_id) => seq![
            str_write(key_of("nm"@, r.id), r.name),
            str_write(key_of("ty"@, r.id), r.type_key),
            str_write(key_of("cx"@, r.id), r.code_hex),
            str_write(key_of("pr"@, r.id), r.protocol),
            WriteView { key: key_of("bc"@, r.id), value: ValueView::U8(r.bit_count) },
            WriteView { key: "nid"@, value: ValueView::U32(next_id) },
        ],
        OpView::Delete(id, next_id) => seq![
            str_write(key_of("nm"@, id), Seq::empty()),
            str_write(key_of("ty"@, id), Seq::empty()),
            str_write(key_of("cx"@, id), Seq::empty()),
            str_write(key_of("pr"@, id), Seq::empty()),
            WriteView { key: key_of("bc"@, id), value: ValueView::U8(0) },
            WriteView { key: "nid"@, value: ValueView::U32(next_id) },
        ],
    }
}

/// What the changes write, one after the other.
pub open spec fn batch_writes(ops: Seq<OpView>) -> Seq<WriteView>
    decreases ops.len(),
{
    if ops.len() == 0 {
        Seq::empty()
    } else {
        batch_writes(ops.drop_last()) + op_writes(ops.last())
    }
}

/// The read of the next free id.
pub open spec fn next_id_read_view() -> ReadView {
    ReadView::U32 { key: "nid"@ }
}

/// The reads of the device with this id: name, kind, code, protocol, bits.
pub open spec fn device_read_views(id: u32) -> Seq<ReadView> {
    seq![
        ReadView::Str { key: key_of("nm"@, id), cap: NAME_CAP as nat },
        ReadView::Str { key: key_of("ty"@, id), cap: TEXT_CAP as nat },
        ReadView::Str { key: key_of("cx"@, id), cap: TEXT_CAP as nat },
        ReadView::Str { key: key_of("pr"@, id), cap: TEXT_CAP as nat },
        ReadView::U8 { key: key_of("bc"@, id) },
    ]
}

/// The next free id that an answer gives: at most `MAX_ID`, and 1 where there is none.
pub open spec fn next_id_of(a: AnswerView) -> u32 {
    match a {
        AnswerView::U32(v) => if v < MAX_ID {
            v
        } else {
            MAX_ID
        },
        _ => 1,
    }
}

/// The device with this id that the answers to its reads give: there is one
/// where its code is a text that is not empty. A name, kind or protocol that is
/// not there or cannot be read counts as empty, such a number of bits as 0.
pub open spec fn device_of(id: u32, a: Seq<AnswerView>) -> Option<DeviceView> {
    match a[2] {
        AnswerView::Str(code_hex) if code_hex.len() > 0 => Some(
            DeviceView {
                id,
                name: text_or(a[0], Seq::empty()),
                device_type: DeviceType::of_key(text_or(a[1], Seq::empty())),
                code_hex,
                protocol: text_or(a[3], Seq::empty()),
                bit_count: match a[4] {
                    AnswerView::U8(n) => n,
                    _ => 0,
                },
                buttons: no_buttons(),
            },
        ),
        _ => None,
    }
}

/// The devices with the ids 1 to `n`; `records[i]` answers the reads of the id `i + 1`.
pub open spec fn devices_of(records: Seq<Seq<AnswerView>>, n: nat) -> Seq<DeviceView>
    decreases n,
{
    if n == 0 {
        Seq::empty()
    } else {
        let before = devices_of(records, (n - 1) as nat);
        match device_of(n as u32, records[n - 1]) {
            Some(d) => before.push(d),
            None => before,
        }
    }
}

/// The models of the answers.
pub open spec fn record_views(records: Seq<Vec<NvsAnswer>>) -> Seq<Seq<AnswerView>> {
    records.map_values(|r: Vec<NvsAnswer>| views(r@))
}

/// How many ids lie below the next free one.
pub open spec fn ids_below(next_id: u32) -> nat {
    if next_id == 0 {
        0
    } else {
        (next_id - 1) as nat
    }
}

/// The key of a field of the device with this id.
pub fn key(prefix: &str, id: u32) -> (r: String)
    ensures
        r@ == key_of(prefix@, id),
{
    join(prefix, to_decimal(id as u64).as_str())
}

fn to_nvs_data(d: &RfDevice) -> (r: NvsDeviceData)
    ensures
        r@ == record_of(d@),
{
    NvsDeviceData {
        id: d.id(),
        name: d.name().to_owned(),
        type_key: d.device_type().as_key().to_owned(),
        code_hex: d.code_hex().to_owned(),
        protocol: d.protocol().to_owned(),
        bit_count: d.bit_count(),
    }
}

/// What a change writes. An erased device is one with empty fields: the empty
/// code marks it.
pub fn apply_op(op: &NvsOp) -> (r: Vec<NvsWrite>)
    ensures
        views(r@) == op_writes(op@),
{
    let mut r: Vec<NvsWrite> = Vec::new();
    match op {
        NvsOp::Persist(d, next_id) => {
            r.push(put_str(key("nm", d.id).as_str(), d.name.as_str()));
            r.push(put_str(key("ty", d.id).as_str(), d.type_key.as_str()));
            r.push(put_str(key("cx", d.id).as_str(), d.code_hex.as_str()));
            r.push(put_str(key("pr", d.id).as_str(), d.protocol.as_str()));
            r.push(put_u8(key("bc", d.id).as_str(), d.bit_count));
            r.push(put_u32("nid", *next_id));
        },
        NvsOp::Delete(id, next_id) => {
            proof {
                reveal_strlit("");
                assert(""@ =~= Seq::<char>::empty());
            }
            r.push(put_str(key("nm", *id).as_str(), ""));
            r.push(put_str(key("ty", *id).as_str(), ""));
            r.push(put_str(key("cx", *id).as_str(), ""));
            r.push(put_str(key("pr", *id).as_str(), ""));
            r.push(put_u8(key("bc", *id).as_str(), 0));
            r.push(put_u32("nid", *next_id));
        },
    }
    assert(views(r@) =~= op_writes(op@));
    r
}

/// What the changes that have queued up write, in one go.
pub fn batch(ops: &Vec<NvsOp>) -> (r: Vec<NvsWrite>)
    ensures
        views(r@) == batch_writes(views(ops@)),
{
    let mut r: Vec<NvsWrite> = Vec::new();
    let mut i: usize = 0;
    assert(views(r@) =~= batch_writes(views(ops@).take(0)));
    while i < ops.len()
        invariant
            i <= ops@.len(),
            views(r@) == batch_writes(views(ops@).take(i as int)),
        decreases ops@.len() - i,
    {
        let mut ws = apply_op(&ops[i]);
        let ghost before = r@;
        let ghost added = ws@;
        r.append(&mut ws);
        proof {
            let ovs = views(ops@);
            assert(ovs.take(i + 1).drop_last() =~= ovs.take(i as int));
            assert(ovs.take(i + 1).last() == ops@[i as int]@);
            assert(views(before + added) =~= views(before) + views(added));
        }
        i = i + 1;
    }
    assert(views(ops@).take(i as int) =~= views(ops@));
    r
}

/// The read of the next free id.
pub fn next_id_read() -> (r: NvsRead)
    ensures
        r@ == next_id_read_view(),
{
    get_u32("nid")
}

/// The reads of the device with this id.
pub fn device_reads(id: u32) -> (r: Vec<NvsRead>)
    ensures
        views(r@) == device_read_views(id),
{
    let mut r: Vec<NvsRead> = Vec::new();
    r.push(get_str(key("nm", id).as_str(), NAME_CAP));
    r.push(get_str(key("ty", id).as_str(), TEXT_CAP));
    r.push(get_str(key("cx", id).as_str(), TEXT_CAP));
    r.push(get_str(key("pr", id).as_str(), TEXT_CAP));
    r.push(get_u8(key("bc", id).as_str()));
    assert(views(r@) =~= device_read_views(id));
    r
}

/// The next free id that an answer gives.
pub fn next_id_from(a: &NvsAnswer) -> (r: u32)
    ensures
        r == next_id_of(a@),
{
    match a {
        NvsAnswer::U32(v) => if *v < MAX_ID {
            *v
        } else {
            MAX_ID
        },
        _ => 1,
    }
}

/// The device that the answers to its reads give.
pub fn read_device(id: u32, a: &Vec<NvsAnswer>) -> (r: Option<RfDevice>)
    requires
        id > 0,
        a@.len() == 5,
    ensures
        crate::text::opt_view(r) == device_of(id, views(a@)),
{
    let ghost av = views(a@);
    assert(av[0] == a@[0]@ && av[1] == a@[1]@ && av[2] == a@[2]@ && av[3] == a@[3]@ && av[4]
        == a@[4]@);
    proof {
        reveal_strlit("");
        assert(""@ =~= Seq::<char>::empty());
    }
    let code_hex = match &a[2] {
        NvsAnswer::Str(code) => code.clone(),
        _ => return None,
    };
    if code_hex.as_str().is_empty() {
        return None;
    }
    let type_key = stored_text_or(&a[1], "");
    let bit_count = match &a[4] {
        NvsAnswer::U8(n) => *n,
        _ => 0,
    };
    Some(
        RfDevice::from_parts(
            id,
            stored_text_or(&a[0], ""),
            DeviceType::from_key(type_key.as_str()),
            code_hex,
            stored_text_or(&a[3], ""),
            bit_count,
        ),
    )
}

/// The stored devices and the next free id. `records[i]` answers the reads of
/// the id `i + 1`.
pub fn load_all(nid: &NvsAnswer, records: &Vec<Vec<NvsAnswer>>) -> (r: (Vec<RfDevice>, u32))
    requires
        records@.len() == ids_below(next_id_of(nid@)),
        forall|i: int| 0 <= i < records@.len() ==> (#[trigger] records@[i])@.len() == 5,
    ensures
        r.1 == next_id_of(nid@),
        views((r.0)@) == devices_of(record_views(records@), records@.len()),
{
    let next_id = next_id_from(nid);
    let mut devices: Vec<RfDevice> = Vec::new();
    let mut i: usize = 0;
    let ghost rv = record_views(records@);
    assert(views(devices@) =~= devices_of(rv, 0));
    while i < records.len()
        invariant
            i <= records@.len() <= MAX_ID,
            rv == record_views(records@),
            forall|j: int| 0 <= j < records@.len() ==> (#[trigger] records@[j])@.len() == 5,
            views(devices@) == devices_of(rv, i as nat),
        decreases records@.len() - i,
    {
        let found = read_device(i as u32 + 1, &records[i]);
        assert(rv[i as int] == views(records@[i as int]@));
        if let Some(dev) = found {
            proof {
                crate::text::lemma_views_push(devices@, dev);
            }
            devices.push(dev);
        }
        i = i + 1;
    }
    (devices, next_id)
}

// ── The store ───────────────────────────────────────────────────────────────

/// The model of the store.
pub ghost struct StoreView {
    pub devices: Seq<DeviceView>,
    pub next_id: u32,
    /// The changes that have not been taken to the flash, the oldest first.
    pub pending: Seq<OpView>,
}

impl StoreView {
    /// The devices are whole, stand in the order of their ids, and have ids
    /// below the next free one, which is at most `MAX_ID`.
    pub open spec fn wf(self) -> bool {
        &&& forall|i: int| 0 <= i < self.devices.len() ==> (#[trigger] self.devices[i]).wf()
        &&& forall|i: int, j: int|
            0 <= i < j < self.devices.len() ==> (#[trigger] self.devices[i]).id < (
            #[trigger] self.devices[j]).id
        &&& forall|i: int|
            0 <= i < self.devices.len() ==> (#[trigger] self.devices[i]).id < self.next_id
        &&& self.next_id <= MAX_ID
    }

    /// Where the device with this id stands.
    pub open spec fn position(self, id: u32) -> Option<int> {
        position_from(self.devices, id, 0)
    }

    /// The store with one more device, under the next free id.
    pub open spec fn with_added(
        self,
        name: Seq<char>,
        device_type: DeviceType,
        code_hex: Seq<char>,
        protocol: Seq<char>,
        bit_count: u8,
    ) -> StoreView {
        let d = DeviceView {
            id: self.next_id,
            name,
            device_type,
            code_hex,
            protocol,
            bit_count,
            buttons: no_buttons(),
        };
        let next_id = (self.next_id + 1) as u32;
        StoreView {
            devices: self.devices.push(d),
            next_id,
            pending: self.pending.push(OpView::Persist(record_of(d), next_id)),
        }
    }

    /// The store with a device replaced; as it was where it has none of that id.
    pub open spec fn with_updated(self, d: DeviceView) -> StoreView {
        match self.position(d.id) {
            Some(i) => StoreView {
                devices: self.devices.update(i, d),
                pending: self.pending.push(OpView::Persist(record_of(d), self.next_id)),
                ..self
            },
            None => self,
        }
    }

    /// The store without a device; as it was where it has none of that id.
    pub open spec fn with_deleted(self, id: u32) -> StoreView {
        match self.position(id) {
            Some(i) => StoreView {
                devices: self.devices.remove(i),
                pending: self.pending.push(OpView::Delete(id, self.next_id)),
                ..self
            },
            None => self,
        }
    }

    /// The store with a button of a device bound; as it was where it has no such
    /// device.
    pub open spec fn with_bound(self, id: u32, idx: int, code: Seq<char>) -> StoreView {
        match self.position(id) {
            Some(i) => {
                let d = self.devices[i];
                StoreView {
                    devices: self.devices.update(
                        i,
                        DeviceView { buttons: d.buttons.update(idx, Some(code)), ..d },
                    ),
                    ..self
                }
            },
            None => self,
        }
    }
}

/// Where the first device with this id stands, from `from` on.
pub open spec fn position_from(devices: Seq<DeviceView>, id: u32, from: int) -> Option<int>
    decreases devices.len() - from,
{
    if from < 0 || from >= devices.len() {
        None
    } else if devices[from].id == id {
        Some(from)
    } else {
        position_from(devices, id, from + 1)
    }
}

pub proof fn lemma_position(devices: Seq<DeviceView>, id: u32, from: int)
    requires
        0 <= from,
    ensures
        position_from(devices, id, from) matches Some(i) ==> from <= i < devices.len()
            && devices[i].id == id,
        position_from(devices, id, from) is None ==> forall|j: int|
            from <= j < devices.len() ==> (#[trigger] devices[j]).id != id,
    decreases devices.len() - from,
{
    if from < devices.len() && devices[from].id != id {
        lemma_position(devices, id, from + 1);
    }
}

/// Some device has this code.
pub open spec fn has_code(devices: Seq<DeviceView>, code: Seq<char>) -> bool {
    exists|i: int| 0 <= i < devices.len() && (#[trigger] devices[i]).code_hex == code
}

/// Some button of the device is bound to this code.
pub open spec fn has_button(d: DeviceView, code: Seq<char>) -> bool {
    exists|b: int| 0 <= b < BUTTONS && #[trigger] d.buttons[b] == Some(code)
}

/// Some button of some device is bound to this code.
pub open spec fn has_button_code(devices: Seq<DeviceView>, code: Seq<char>) -> bool {
    exists|i: int| 0 <= i < devices.len() && has_button(#[trigger] devices[i], code)
}

/// The known devices. The changes are taken to the flash by whoever owns it:
/// [`DeviceStore::take_pending`] hands them over.
pub struct DeviceStore {
    devices: Vec<RfDevice>,
    next_id: u32,
    pending: Vec<NvsOp>,
}

impl View for DeviceStore {
    type V = StoreView;

    closed spec fn view(&self) -> StoreView {
        StoreView {
            devices: views(self.devices@),
            next_id: self.next_id,
            pending: views(self.pending@),
        }
    }
}

proof fn lemma_loaded(records: Seq<Seq<AnswerView>>, n: nat)
    requires
        n < MAX_ID,
    ensures
        forall|i: int|
            0 <= i < devices_of(records, n).len() ==> (#[trigger] devices_of(records, n)[i]).wf()
                && devices_of(records, n)[i].id <= n,
        forall|i: int, j: int|
            0 <= i < j < devices_of(records, n).len() ==> (#[trigger] devices_of(records, n)[i]).id
                < (#[trigger] devices_of(records, n)[j]).id,
    decreases n,
{
    if n > 0 {
        lemma_loaded(records, (n - 1) as nat);
    }
}

impl DeviceStore {
    /// Opens the store with what was read: the next free id and the answers to
    /// the reads of the ids below it. Without a readable flash the store is empty.
    pub fn open(stored: Option<(NvsAnswer, Vec<Vec<NvsAnswer>>)>) -> (s: Self)
        requires
            stored matches Some((nid, records)) ==> {
                &&& records@.len() == ids_below(next_id_of(nid@))
                &&& forall|i: int| 0 <= i < records@.len() ==> (#[trigger] records@[i])@.len() == 5
            },
        ensures
            s@ == (match stored {
                Some((nid, records)) => StoreView {
                    devices: devices_of(record_views(records@), records@.len()),
                    next_id: next_id_of(nid@),
                    pending: Seq::empty(),
                },
                None => StoreView { devices: Seq::empty(), next_id: 1, pending: Seq::empty() },
            }),
            s@.wf(),
    {
        let (devices, next_id) = match &stored {
            Some((nid, records)) => {
                proof {
                    lemma_loaded(record_views(records@), records@.len());
                }
                load_all(nid, records)
            },
            None => {
                let none: Vec<RfDevice> = Vec::new();
                assert(views(none@) =~= Seq::<DeviceView>::empty());
                (none, 1)
            },
        };
        let pending: Vec<NvsOp> = Vec::new();
        assert(views(pending@) =~= Seq::<OpView>::empty());
        DeviceStore { devices, next_id, pending }
    }

    /// The devices, in the order of their ids.
    pub fn devices(&self) -> (r: &[RfDevice])
        ensures
            views(r@) == self@.devices,
    {
        self.devices.as_slice()
    }

    /// The id that the next device gets.
    pub fn next_id(&self) -> (r: u32)
        ensures
            r == self@.next_id,
    {
        self.next_id
    }

    /// Whether a device has this code.
    pub fn contains_code(&self, code_hex: &str) -> (r: bool)
        ensures
            r == has_code(self@.devices, code_hex@),
    {
        let mut i: usize = 0;
        while i < self.devices.len()
            invariant
                i <= self.devices@.len(),
                forall|j: int|
                    0 <= j < i ==> (#[trigger] self@.devices[j]).code_hex != code_hex@,
            decreases self.devices@.len() - i,
        {
            assert(self@.devices[i as int] == self.devices@[i as int]@);
            if same(self.devices[i].code_hex(), code_hex) {
                return true;
            }
            i = i + 1;
        }
        false
    }

    /// Whether a button of a device is bound to this code.
    pub fn contains_button_code(&self, code_hex: &str) -> (r: bool)
        ensures
            r == has_button_code(self@.devices, code_hex@),
    {
        let mut i: usize = 0;
        while i < self.devices.len()
            invariant
                i <= self.devices@.len(),
                forall|j: int| 0 <= j < i ==> !has_button(#[trigger] self@.devices[j], code_hex@),
            decreases self.devices@.len() - i,
        {
            let d = &self.devices[i];
            assert(self@.devices[i as int] == d@);
            let mut b: usize = 0;
            while b < BUTTONS
                invariant
                    i < self.devices@.len(),
                    b <= BUTTONS,
                    self@.devices[i as int] == d@,
                    forall|k: int| 0 <= k < b ==> #[trigger] d@.buttons[k] != Some(code_hex@),
                decreases BUTTONS - b,
            {
                if let Some(code) = d.button(b) {
                    if same(code, code_hex) {
                        assert(has_button(d@, code_hex@));
                        return true;
                    }
                }
                b = b + 1;
            }
            i = i + 1;
        }
        false
    }

    fn find(&self, id: u32) -> (r: Option<usize>)
        ensures
            match r {
                Some(i) => self@.position(id) == Some(i as int) && i < self.devices@.len(),
                None => self@.position(id) is None,
            },
    {
        let mut i: usize = 0;
        while i < self.devices.len()
            invariant
                i <= self.devices@.len(),
                position_from(self@.devices, id, i as int) == self@.position(id),
            decreases self.devices@.len() - i,
        {
            assert(self@.devices[i as int] == self.devices@[i as int]@);
            if self.devices[i].id() == id {
                return Some(i);
            }
            i = i + 1;
        }
        None
    }

    /// The device with this id.
    pub fn get(&self, id: u32) -> (r: Option<&RfDevice>)
        ensures
            match self@.position(id) {
                Some(i) => r is Some && r->0@ == self@.devices[i],
                None => r is None,
            },
    {
        match self.find(id) {
            Some(i) => Some(&self.devices[i]),
            None => None,
        }
    }

    fn enqueue(&mut self, op: NvsOp)
        ensures
            final(self)@ == (StoreView { pending: old(self)@.pending.push(op@), ..old(self)@ }),
    {
        proof {
            crate::text::lemma_views_push(self.pending@, op);
        }
        self.pending.push(op);
    }

    /// Hands over the changes that the flash has yet to see.
    pub fn take_pending(&mut self) -> (ops: Vec<NvsOp>)
        ensures
            views(ops@) == old(self)@.pending,
            final(self)@ == (StoreView { pending: Seq::empty(), ..old(self)@ }),
    {
        let mut ops: Vec<NvsOp> = Vec::new();
        assert(views(ops@) =~= Seq::<OpView>::empty());
        std::mem::swap(&mut ops, &mut self.pending);
        ops
    }

    /// Adds a device under the next free id; none where the ids are used up.
    pub fn add(
        &mut self,
        name: &str,
        device_type: DeviceType,
        code_hex: &str,
        protocol: &str,
        bit_count: u8,
    ) -> (r: Option<&RfDevice>)
        requires
            old(self)@.wf(),
            old(self)@.next_id > 0,
            old(self)@.next_id < MAX_ID ==> code_hex@.len() > 0,
        ensures
            old(self)@.next_id >= MAX_ID ==> r is None && final(self)@ == old(self)@,
            old(self)@.next_id < MAX_ID ==> {
                &&& final(self)@ == old(self)@.with_added(
                    name@,
                    device_type,
                    code_hex@,
                    protocol@,
                    bit_count,
                )
                &&& r is Some
                &&& r->0@ == final(self)@.devices.last()
            },
            final(self)@.wf(),
            final(self)@.next_id > 0,
    {
        if self.next_id >= MAX_ID {
            return None;
        }
        let id = self.next_id;
        self.next_id = self.next_id + 1;
        let d = RfDevice::from_parts(
            id,
            name.to_owned(),
            device_type,
            code_hex.to_owned(),
            protocol.to_owned(),
            bit_count,
        );
        let data = to_nvs_data(&d);
        proof {
            crate::text::lemma_views_push(self.devices@, d);
        }
        self.devices.push(d);
        let next_id = self.next_id;
        self.enqueue(NvsOp::Persist(data, next_id));
        assert(self@.devices.len() == self.devices@.len());
        let pos = self.devices.len() - 1;
        Some(&self.devices[pos])
    }

    /// Replaces the device that has the id of `updated`.
    pub fn update(&mut self, updated: RfDevice)
        requires
            old(self)@.wf(),
        ensures
            final(self)@ == old(self)@.with_updated(updated@),
            final(self)@.wf(),
    {
        proof {
            lemma_position(self@.devices, updated@.id, 0);
        }
        if let Some(pos) = self.find(updated.id()) {
            let ghost before = self.devices@;
            let data = to_nvs_data(&updated);
            self.devices.set(pos, updated);
            assert(views(self.devices@) =~= views(before).update(pos as int, updated@));
            let next_id = self.next_id;
            self.enqueue(NvsOp::Persist(data, next_id));
        }
    }

    /// Removes the device with this id.
    pub fn delete(&mut self, id: u32)
        requires
            old(self)@.wf(),
        ensures
            final(self)@ == old(self)@.with_deleted(id),
            final(self)@.wf(),
    {
        proof {
            lemma_position(self@.devices, id, 0);
        }
        if let Some(pos) = self.find(id) {
            let ghost before = self.devices@;
            let _ = self.devices.remove(pos);
            assert(views(self.devices@) =~= views(before).remove(pos as int));
            let next_id = self.next_id;
            self.enqueue(NvsOp::Delete(id, next_id));
        }
    }

    /// Binds a button of a device to a code.
    pub fn bind_button(&mut self, id: u32, idx: usize, code: String)
        requires
            old(self)@.wf(),
            idx < BUTTONS,
        ensures
            final(self)@ == old(self)@.with_bound(id, idx as int, code@),
            final(self)@.wf(),
    {
        proof {
            lemma_position(self@.devices, id, 0);
        }
        if let Some(pos) = self.find(id) {
            let ghost before = self.devices@;
            let bound = self.devices[pos].clone().with_button(idx, code);
            self.devices.set(pos, bound);
            assert(views(self.devices@) =~= views(before).update(pos as int, bound@));
        }
    }
}

// ── Laws ────────────────────────────────────────────────────────────────────

/// A new device stands last, under the id that was free, with what it was added
/// with and no button bound; the devices before it stay as they are, the next free
/// id is one higher, and the flash is to be told of just this device.
pub proof fn a_new_device_stands_last(
    s: StoreView,
    name: Seq<char>,
    device_type: DeviceType,
    code_hex: Seq<char>,
    protocol: Seq<char>,
    bit_count: u8,
)
    requires
        s.next_id < 1000,
    ensures
        ({
            let after = s.with_added(name, device_type, code_hex, protocol, bit_count);
            let n = s.devices.len() as int;
            let d = after.devices[n];
            &&& after.devices.len() == n + 1
            &&& forall|i: int| 0 <= i < n ==> #[trigger] after.devices[i] == s.devices[i]
            &&& d.id == s.next_id && d.name == name && d.device_type == device_type
            &&& d.code_hex == code_hex && d.protocol == protocol && d.bit_count == bit_count
            &&& d.buttons.len() == 4
            &&& forall|b: int| 0 <= b < 4 ==> #[trigger] d.buttons[b] is None
            &&& after.next_id == s.next_id + 1
            &&& after.pending.len() == s.pending.len() + 1
            &&& after.pending.drop_last() == s.pending
            &&& after.pending.last() == OpView::Persist(
                RecordView {
                    id: s.next_id,
                    name,
                    type_key: device_type.key(),
                    code_hex,
                    protocol,
                    bit_count,
                },
                after.next_id,
            )
        }),
{
    let after = s.with_added(name, device_type, code_hex, protocol, bit_count);
    assert(after.pending.drop_last() =~= s.pending);
}

/// Where a device stands: at the place of the first that has its id; there is none
/// just where no device has it.
pub proof fn a_device_is_found_by_its_id(s: StoreView, id: u32, i: int)
    requires
        s.wf(),
        0 <= i < s.devices.len(),
    ensures
        s.position(s.devices[i].id) == Some(i),
        s.position(id) is None <==> forall|j: int|
            0 <= j < s.devices.len() ==> (#[trigger] s.devices[j]).id != id,
{
    lemma_position(s.devices, s.devices[i].id, 0);
    lemma_position(s.devices, id, 0);
}

/// A replaced device is as it was given, at the place of the old one, and the flash
/// is to be told of it; all else stays as it is. A device with an id that is not
/// there changes nothing.
pub proof fn a_replaced_device_keeps_its_place(s: StoreView, i: int, d: DeviceView)
    requires
        s.wf(),
        0 <= i < s.devices.len(),
    ensures
        d.id == s.devices[i].id ==> {
            let after = s.with_updated(d);
            &&& after.devices.len() == s.devices.len()
            &&& after.devices[i] == d
            &&& forall|j: int|
                0 <= j < s.devices.len() && j != i ==> #[trigger] after.devices[j] == s.devices[j]
            &&& after.next_id == s.next_id
            &&& after.pending == s.pending.push(
                OpView::Persist(
                    RecordView {
                        id: d.id,
                        name: d.name,
                        type_key: d.device_type.key(),
                        code_hex: d.code_hex,
                        protocol: d.protocol,
                        bit_count: d.bit_count,
                    },
                    s.next_id,
                ),
            )
        },
        (forall|j: int| 0 <= j < s.devices.len() ==> (#[trigger] s.devices[j]).id != d.id)
            ==> s.with_updated(d) == s,
{
    a_device_is_found_by_its_id(s, d.id, i);
}

/// Removing takes out the one device with the id, lets those behind it move up, and
/// tells the flash; all else stays as it is. An id that is not there changes nothing.
pub proof fn a_removed_device_is_gone(s: StoreView, i: int, id: u32)
    requires
        s.wf(),
        0 <= i < s.devices.len(),
    ensures
        id == s.devices[i].id ==> {
            let after = s.with_deleted(id);
            &&& after.devices.len() == s.devices.len() - 1
            &&& forall|j: int| 0 <= j < i ==> #[trigger] after.devices[j] == s.devices[j]
            &&& forall|j: int|
                i <= j < s.devices.len() - 1 ==> #[trigger] after.devices[j] == s.devices[j + 1]
            &&& forall|j: int|
                0 <= j < after.devices.len() ==> (#[trigger] after.devices[j]).id != id
            &&& after.next_id == s.next_id
            &&& after.pending == s.pending.push(OpView::Delete(id, s.next_id))
        },
        (forall|j: int| 0 <= j < s.devices.len() ==> (#[trigger] s.devices[j]).id != id)
            ==> s.with_deleted(id) == s,
{
    a_device_is_found_by_its_id(s, id, i);
    if id == s.devices[i].id {
        let after = s.with_deleted(id);
        assert(after.devices == s.devices.remove(i));
        assert forall|j: int| 0 <= j < after.devices.len() implies (#[trigger] after.devices[j]).id
            != id by {
            if j < i {
                assert(after.devices[j] == s.devices[j]);
                assert(s.devices[j].id < s.devices[i].id);
            } else {
                assert(after.devices[j] == s.devices[j + 1]);
                assert(s.devices[i].id < s.devices[j + 1].id);
            }
        }
    }
}

/// Binding a button binds just that button of just that device, and leaves nothing
/// for the flash to do.
pub proof fn binding_touches_one_button(s: StoreView, i: int, idx: int, code: Seq<char>)
    requires
        s.wf(),
        0 <= i < s.devices.len(),
        0 <= idx < 4,
    ensures
        ({
            let after = s.with_bound(s.devices[i].id, idx, code);
            let d = after.devices[i];
            &&& after.devices.len() == s.devices.len()
            &&& d.buttons.len() == 4
            &&& d.buttons[idx] == Some(code)
            &&& forall|b: int|
                0 <= b < 4 && b != idx ==> #[trigger] d.buttons[b] == s.devices[i].buttons[b]
            &&& d.id == s.devices[i].id && d.name == s.devices[i].name && d.device_type
                == s.devices[i].device_type && d.code_hex == s.devices[i].code_hex && d.protocol
                == s.devices[i].protocol && d.bit_count == s.devices[i].bit_count
            &&& forall|j: int|
                0 <= j < s.devices.len() && j != i ==> #[trigger] after.devices[j] == s.devices[j]
            &&& after.next_id == s.next_id
            &&& after.pending == s.pending
        }),
{
    a_device_is_found_by_its_id(s, 0, i);
    assert(s.devices[i].wf());
}

/// The next free id that is read back is the one that was stored, up to 1000; where
/// none can be read it is 1.
pub proof fn the_next_id_is_bounded(a: AnswerView)
    ensures
        a matches AnswerView::U32(v) ==> next_id_of(a) == (if v <= 1000 {
            v
        } else {
            1000u32
        }),
        !(a is U32) ==> next_id_of(a) == 1,
{
}

/// A device is read where its code is a text that is not empty, and nowhere else;
/// each other field is what was read, or empty where that failed.
pub proof fn a_device_is_read_by_its_code(id: u32, a: Seq<AnswerView>)
    requires
        a.len() == 5,
    ensures
        device_of(id, a) is Some <==> (a[2] matches AnswerView::Str(code) && code.len() > 0),
        device_of(id, a) matches Some(d) ==> {
            &&& d.id == id
            &&& a[2] == AnswerView::Str(d.code_hex)
            &&& a[0] == AnswerView::Str(d.name) || !(a[0] is Str) && d.name.len() == 0
            &&& a[3] == AnswerView::Str(d.protocol) || !(a[3] is Str) && d.protocol.len() == 0
            &&& a[4] == AnswerView::U8(d.bit_count) || !(a[4] is U8) && d.bit_count == 0
            &&& a[1] matches AnswerView::Str(key) ==> d.device_type == DeviceType::of_key(key)
            &&& !(a[1] is Str) ==> d.device_type == DeviceType::of_key(Seq::empty())
            &&& d.buttons.len() == 4
            &&& forall|b: int| 0 <= b < 4 ==> #[trigger] d.buttons[b] is None
        },
{
}

/// The devices that a start reads: those with an id from 1 to `n` of which there is
/// one, each once, in the order of their ids.
pub proof fn a_start_reads_all_devices(records: Seq<Seq<AnswerView>>, n: nat, id: u32)
    requires
        n < 1000,
        0 < id <= n,
    ensures
        ({
            let read = devices_of(records, n);
            &&& device_of(id, records[id - 1]) is Some ==> exists|i: int|
                0 <= i < read.len() && Some(#[trigger] read[i]) == device_of(id, records[id - 1])
            &&& device_of(id, records[id - 1]) is None ==> forall|i: int|
                0 <= i < read.len() ==> (#[trigger] read[i]).id != id
            &&& forall|i: int, j: int|
                0 <= i < j < read.len() ==> (#[trigger] read[i]).id < (#[trigger] read[j]).id
            &&& forall|i: int| 0 <= i < read.len() ==> 0 < (#[trigger] read[i]).id <= n
        }),
    decreases n,
{
    lemma_loaded(records, n);
    let read = devices_of(records, n);
    let m = (n - 1) as nat;
    let before = devices_of(records, m);
    lemma_loaded(records, m);
    if id < n {
        a_start_reads_all_devices(records, m, id);
        if device_of(id, records[id - 1]) is Some {
            let i = choose|i: int|
                0 <= i < before.len() && Some(#[trigger] before[i]) == device_of(
                    id,
                    records[id - 1],
                );
            assert(read[i] == before[i]);
        } else {
            assert forall|i: int| 0 <= i < read.len() implies (#[trigger] read[i]).id != id by {
                if i < before.len() {
                    assert(read[i] == before[i]);
                }
            }
        }
    } else {
        if device_of(id, records[id - 1]) is Some {
            assert(Some(read[before.len() as int]) == device_of(id, records[id - 1]));
        } else {
            assert(read == before);
        }
    }
    assert forall|i: int| 0 <= i < read.len() implies 0 < (#[trigger] read[i]).id <= n by {
        assert(read[i].wf());
    }
}

} // verus!
