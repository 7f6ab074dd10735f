//! The screen of the radio devices: learning a code, binding the buttons of a
//! remote, and obeying a remote.
use vstd::prelude::*;

use super::{delete_last_char, without_last};
use crate::control::ControlCmd;
use crate::number::{hex, numeral_injective, to_hex};
use crate::rc_devices::device::{DeviceView, BUTTONS};
use crate::rc_devices::store::{
    has_button, has_button_code, has_code, lemma_position, position_from, OpView, StoreView, MAX_ID,
};
use crate::rc_devices::{DeviceStore, DeviceType, RfDevice};
use crate::rf_receiver::RfCode;
use crate::text::{lemma_views_push, same, views};

verus! {

// ── What is shown of a device ───────────────────────────────────────────────

/// A row of the list of devices.
pub struct RcDeviceInfo {
    pub id: i32,
    pub name: String,
    pub device_type: String,
    pub code_hex: String,
    pub protocol: String,
    pub bit_count: i32,
}

/// The model of a row.
pub ghost struct InfoView {
    pub id: i32,
    pub name: Seq<char>,
    pub device_type: Seq<char>,
    pub code_hex: Seq<char>,
    pub protocol: Seq<char>,
    pub bit_count: i32,
}

impl View for RcDeviceInfo {
    type V = InfoView;

    open spec fn view(&self) -> InfoView {
        InfoView {
            id: self.id,
            name: self.name@,
            device_type: self.device_type@,
            code_hex: self.code_hex@,
            protocol: self.protocol@,
            bit_count: self.bit_count,
        }
    }
}

/// The row of a device.
pub open spec fn info_of(d: DeviceView) -> InfoView {
    InfoView {
        id: d.id as i32,
        name: d.name,
        device_type: d.device_type.label(),
        code_hex: d.code_hex,
        protocol: d.protocol,
        bit_count: d.bit_count as i32,
    }
}

/// The rows of the devices, in their order.
pub open spec fn infos(devices: Seq<DeviceView>) -> Seq<InfoView> {
    devices.map_values(|d: DeviceView| info_of(d))
}

/// The row of a device.
pub fn device_info(d: &RfDevice) -> (r: RcDeviceInfo)
    ensures
        r@ == info_of(d@),
{
    RcDeviceInfo {
        id: d.id() as i32,
        name: d.name().to_owned(),
        device_type: d.device_type().as_str().to_owned(),
        code_hex: d.code_hex().to_owned(),
        protocol: d.protocol().to_owned(),
        bit_count: d.bit_count() as i32,
    }
}

fn rows(store: &DeviceStore) -> (r: Vec<RcDeviceInfo>)
    ensures
        views(r@) == infos(store@.devices),
{
    let devices = store.devices();
    let mut r: Vec<RcDeviceInfo> = Vec::new();
    let mut i: usize = 0;
    while i < devices.len()
        invariant
            i <= devices@.len(),
            views(devices@) == store@.devices,
            views(r@) =~= infos(store@.devices).take(i as int),
        decreases devices@.len() - i,
    {
        assert(store@.devices[i as int] == devices@[i as int]@);
        let info = device_info(&devices[i]);
        proof {
            lemma_views_push(r@, info);
        }
        r.push(info);
        i = i + 1;
    }
    assert(devices@.len() == store@.devices.len());
    assert(infos(store@.devices).take(i as int) =~= infos(store@.devices));
    r
}

// ── A code that was learned ─────────────────────────────────────────────────

/// A code that was received in order to be learned, with what it is likely to be.
pub struct ScanCandidate {
    pub code_hex: String,
    pub protocol: &'static str,
    pub bit_count: u8,
    pub device_type: DeviceType,
}

impl ScanCandidate {
    /// The candidate of a received code.
    pub fn from_rf_code(rf: &RfCode) -> (c: Self)
        ensures
            c.code_hex@ == hex(rf.code as nat),
            c.code_hex@.len() > 0,
            c.protocol == rf.protocol,
            c.bit_count == rf.bit_count,
            c.device_type == DeviceType::likely(rf.protocol@, rf.bit_count),
    {
        proof {
            crate::number::numeral_reads_back(rf.code as nat, 16);
        }
        ScanCandidate {
            code_hex: to_hex(rf.code),
            protocol: rf.protocol,
            bit_count: rf.bit_count,
            device_type: DeviceType::inferred_from(rf.protocol, rf.bit_count),
        }
    }
}

// ── From a code to a command ────────────────────────────────────────────────

/// The first button of a device that is bound to a code.
pub open spec fn button_of(d: DeviceView, code: Seq<char>) -> Option<int> {
    if d.buttons[0] == Some(code) {
        Some(0)
    } else if d.buttons[1] == Some(code) {
        Some(1)
    } else if d.buttons[2] == Some(code) {
        Some(2)
    } else if d.buttons[3] == Some(code) {
        Some(3)
    } else {
        None
    }
}

/// The command that a device gives with a code: that of the button, if it is a
/// remote.
pub open spec fn device_cmd(d: DeviceView, code: Seq<char>) -> Option<ControlCmd> {
    if d.device_type != DeviceType::Remote {
        None
    } else {
        match button_of(d, code) {
            Some(b) => ControlCmd::of_button(b),
            None => None,
        }
    }
}

/// The command that the first device from `from` on gives with a code.
pub open spec fn code_cmd(devices: Seq<DeviceView>, code: Seq<char>, from: int) -> Option<
    ControlCmd,
>
    decreases devices.len() - from,
{
    if from < 0 || from >= devices.len() {
        None
    } else {
        match device_cmd(devices[from], code) {
            Some(cmd) => Some(cmd),
            None => code_cmd(devices, code, from + 1),
        }
    }
}

fn pressed(device: &RfDevice, code: &str) -> (r: Option<ControlCmd>)
    ensures
        r == device_cmd(device@, code@),
{
    match device.device_type() {
        DeviceType::Remote => {},
        _ => return None,
    }
    let mut idx: usize = 0;
    while idx < BUTTONS
        invariant
            idx <= BUTTONS,
            device@.device_type == DeviceType::Remote,
            forall|b: int| 0 <= b < idx ==> #[trigger] device@.buttons[b] != Some(code@),
        decreases BUTTONS - idx,
    {
        if let Some(c) = device.button(idx) {
            if same(c, code) {
                assert(forall|b: int| 0 <= b < idx ==> device@.buttons[b] != Some(code@));
                assert(button_of(device@, code@) == Some(idx as int));
                return ControlCmd::from_button_idx(idx);
            }
        }
        idx = idx + 1;
    }
    assert(device@.buttons[0] != Some(code@) && device@.buttons[1] != Some(code@)
        && device@.buttons[2] != Some(code@) && device@.buttons[3] != Some(code@));
    None
}

/// The command that a code gives.
pub fn code_to_cmd(store: &DeviceStore, code: &str) -> (r: Option<ControlCmd>)
    ensures
        r == code_cmd(store@.devices, code@, 0),
{
    let devices = store.devices();
    let mut i: usize = 0;
    while i < devices.len()
        invariant
            i <= devices@.len(),
            views(devices@) == store@.devices,
            code_cmd(store@.devices, code@, i as int) == code_cmd(store@.devices, code@, 0),
        decreases devices@.len() - i,
    {
        assert(store@.devices[i as int] == devices@[i as int]@);
        if let Some(cmd) = pressed(&devices[i], code) {
            return Some(cmd);
        }
        i = i + 1;
    }
    assert(devices@.len() == store@.devices.len());
    None
}

// ── The screen ──────────────────────────────────────────────────────────────

/// The screen of the radio devices.
pub struct RcDevicesScreenHandler {
    pub devices: Vec<RcDeviceInfo>,
    /// A code is being learned.
    pub scanning: bool,
    pub show_form: bool,
    /// The form of a device.
    pub code_hex: String,
    pub protocol: String,
    pub bit_count: i32,
    /// The device that the form is about; 0 for a new one.
    pub edit_id: i32,
    pub device_name: String,
    pub device_type: String,
    /// The buttons of a remote are being bound.
    pub binding_active: bool,
    pub binding_device_id: i32,
    pub binding_device_name: String,
    /// The button that is bound next.
    pub binding_button_idx: i32,
    pub binding_btn_code_0: String,
    pub binding_btn_code_1: String,
    pub binding_btn_code_2: String,
    pub binding_btn_code_3: String,
}

/// The model of the screen.
pub ghost struct RcScreenView {
    pub devices: Seq<InfoView>,
    pub scanning: bool,
    pub show_form: bool,
    pub code_hex: Seq<char>,
    pub protocol: Seq<char>,
    pub bit_count: i32,
    pub edit_id: i32,
    pub device_name: Seq<char>,
    pub device_type: Seq<char>,
    pub binding_active: bool,
    pub binding_device_id: i32,
    pub binding_device_name: Seq<char>,
    pub binding_button_idx: i32,
    /// The code that is shown for each button.
    pub binding_codes: Seq<Seq<char>>,
}

impl View for RcDevicesScreenHandler {
    type V = RcScreenView;

    open spec fn view(&self) -> RcScreenView {
        RcScreenView {
            devices: views(self.devices@),
            scanning: self.scanning,
            show_form: self.show_form,
            code_hex: self.code_hex@,
            protocol: self.protocol@,
            bit_count: self.bit_count,
            edit_id: self.edit_id,
            device_name: self.device_name@,
            device_type: self.device_type@,
            binding_active: self.binding_active,
            binding_device_id: self.binding_device_id,
            binding_device_name: self.binding_device_name@,
            binding_button_idx: self.binding_button_idx,
            binding_codes: seq![
                self.binding_btn_code_0@,
                self.binding_btn_code_1@,
                self.binding_btn_code_2@,
                self.binding_btn_code_3@,
            ],
        }
    }
}

/// What the buttons show before any is bound.
pub open spec fn no_codes() -> Seq<Seq<char>> {
    seq![Seq::empty(), Seq::empty(), Seq::empty(), Seq::empty()]
}

/// What the buttons of a device show.
pub open spec fn shown_codes(d: DeviceView) -> Seq<Seq<char>> {
    Seq::new(
        BUTTONS as nat,
        |i: int|
            match d.buttons[i] {
                Some(code) => code,
                None => Seq::empty(),
            },
    )
}

/// One of the first `n` buttons of the device is bound to the code.
pub open spec fn bound_before(store: StoreView, id: u32, code: Seq<char>, n: int) -> bool {
    match store.position(id) {
        Some(i) => exists|b: int|
            0 <= b < n && b < BUTTONS && #[trigger] store.devices[i].buttons[b] == Some(code),
        None => false,
    }
}

/// The code belongs to a device or to a button already.
pub open spec fn known(store: StoreView, code: Seq<char>) -> bool {
    has_code(store.devices, code) || has_button_code(store.devices, code)
}

/// What a received code leads to.
pub struct RcStep {
    /// The command that is to be passed on.
    pub cmd: Option<ControlCmd>,
    /// Whether the next code is to be looked at, too, now.
    pub more: bool,
}

impl RcScreenView {
    /// Codes are looked at: not once all buttons of a remote are bound.
    pub open spec fn listens(self) -> bool {
        self.binding_active ==> 0 <= self.binding_button_idx < BUTTONS
    }

    /// A code is taken for the next button of the remote, unless one of the
    /// buttons before it has the code.
    pub open spec fn binds(self, store: StoreView, code: Seq<char>) -> bool {
        self.binding_active && !bound_before(
            store,
            self.binding_device_id as u32,
            code,
            self.binding_button_idx as int,
        )
    }

    /// A code is taken to be learned, unless it is known.
    pub open spec fn learns(self, store: StoreView, code: Seq<char>) -> bool {
        !self.binding_active && self.scanning && !known(store, code)
    }

    /// The command that a code gives: none while a code is learned or a button bound.
    pub open spec fn gives(self, store: StoreView, code: Seq<char>) -> Option<ControlCmd> {
        if self.binding_active || self.scanning {
            None
        } else {
            code_cmd(store.devices, code, 0)
        }
    }

    /// The store after a code was received.
    pub open spec fn store_after(self, store: StoreView, rf: RfCode) -> StoreView {
        let code = hex(rf.code as nat);
        if self.binds(store, code) {
            store.with_bound(self.binding_device_id as u32, self.binding_button_idx as int, code)
        } else {
            store
        }
    }

    /// The screen after a code was received.
    pub open spec fn after(self, store: StoreView, rf: RfCode) -> RcScreenView {
        let code = hex(rf.code as nat);
        if self.binds(store, code) {
            RcScreenView {
                binding_codes: self.binding_codes.update(self.binding_button_idx as int, code),
                binding_button_idx: (self.binding_button_idx + 1) as i32,
                ..self
            }
        } else if self.learns(store, code) {
            RcScreenView {
                code_hex: code,
                protocol: rf.protocol@,
                bit_count: rf.bit_count as i32,
                edit_id: 0,
                device_name: Seq::empty(),
                device_type: DeviceType::likely(rf.protocol@, rf.bit_count).label(),
                scanning: false,
                show_form: true,
                ..self
            }
        } else {
            self
        }
    }

    /// The store after the form was saved.
    pub open spec fn store_saved(
        self,
        store: StoreView,
        id: i32,
        name: Seq<char>,
        device_type: DeviceType,
    ) -> StoreView {
        if id == 0 {
            if store.next_id >= MAX_ID {
                store
            } else {
                store.with_added(
                    name,
                    device_type,
                    self.code_hex,
                    self.protocol,
                    self.bit_count as u8,
                )
            }
        } else {
            match store.position(id as u32) {
                Some(i) => store.with_updated(
                    DeviceView { name, device_type, ..store.devices[i] },
                ),
                None => store,
            }
        }
    }

    /// The remote that saving the form adds: its id.
    pub open spec fn new_remote(self, store: StoreView, id: i32, device_type: DeviceType) -> Option<
        u32,
    > {
        if id == 0 && store.next_id < MAX_ID && device_type == DeviceType::Remote {
            Some(store.next_id)
        } else {
            None
        }
    }

    /// The screen when the buttons of a new remote are to be bound.
    pub open spec fn binding_started(self, remote: Option<(u32, Seq<char>)>) -> RcScreenView {
        match remote {
            Some((id, name)) => RcScreenView {
                binding_codes: no_codes(),
                binding_device_id: id as i32,
                binding_device_name: name,
                binding_button_idx: 0,
                binding_active: true,
                ..self
            },
            None => self,
        }
    }
}

impl RcDevicesScreenHandler {
    /// The screen with the devices of the store.
    pub fn new(store: &DeviceStore) -> (s: Self)
        ensures
            s@ == (RcScreenView {
                devices: infos(store@.devices),
                scanning: false,
                show_form: false,
                code_hex: Seq::empty(),
                protocol: Seq::empty(),
                bit_count: 0,
                edit_id: 0,
                device_name: Seq::empty(),
                device_type: Seq::empty(),
                binding_active: false,
                binding_device_id: 0,
                binding_device_name: Seq::empty(),
                binding_button_idx: 0,
                binding_codes: no_codes(),
            }),
    {
        let s = RcDevicesScreenHandler {
            devices: rows(store),
            scanning: false,
            show_form: false,
            code_hex: String::new(),
            protocol: String::new(),
            bit_count: 0,
            edit_id: 0,
            device_name: String::new(),
            device_type: String::new(),
            binding_active: false,
            binding_device_id: 0,
            binding_device_name: String::new(),
            binding_button_idx: 0,
            binding_btn_code_0: String::new(),
            binding_btn_code_1: String::new(),
            binding_btn_code_2: String::new(),
            binding_btn_code_3: String::new(),
        };
        assert(s@.binding_codes =~= no_codes());
        s
    }

    /// Whether received codes are looked at.
    pub fn listens(&self) -> (r: bool)
        ensures
            r == self@.listens(),
    {
        !self.binding_active || (0 <= self.binding_button_idx && self.binding_button_idx < 4)
    }

    /// Takes one received code.
    pub fn poll(&mut self, store: &mut DeviceStore, rf: &RfCode) -> (r: RcStep)
        requires
            old(self)@.listens(),
            old(store)@.wf(),
        ensures
            final(self)@ == old(self)@.after(old(store)@, *rf),
            final(store)@ == old(self)@.store_after(old(store)@, *rf),
            final(store)@.wf(),
            r.cmd == (if old(self)@.binding_active || old(self)@.scanning {
                None
            } else {
                code_cmd(old(store)@.devices, hex(rf.code as nat), 0)
            }),
            r.cmd == old(self)@.gives(old(store)@, hex(rf.code as nat)),
            r.more == !(old(self)@.binds(old(store)@, hex(rf.code as nat)) || old(self)@.learns(
                old(store)@,
                hex(rf.code as nat),
            )),
    {
        if self.binding_active {
            RcStep { cmd: None, more: !self.try_bind_button(store, rf) }
        } else if self.scanning {
            RcStep { cmd: None, more: !self.poll_scan(store, rf) }
        } else {
            RcStep { cmd: code_to_cmd(store, to_hex(rf.code).as_str()), more: true }
        }
    }

    fn try_bind_button(&mut self, store: &mut DeviceStore, rf: &RfCode) -> (taken: bool)
        requires
            old(self)@.binding_active,
            0 <= old(self)@.binding_button_idx < BUTTONS,
            old(store)@.wf(),
        ensures
            taken == old(self)@.binds(old(store)@, hex(rf.code as nat)),
            final(self)@ == old(self)@.after(old(store)@, *rf),
            final(store)@ == old(self)@.store_after(old(store)@, *rf),
            final(store)@.wf(),
    {
        let idx = self.binding_button_idx as usize;
        let device_id = self.binding_device_id as u32;
        let code = to_hex(rf.code);
        if code_bound_this_session(store, device_id, code.as_str(), idx) {
            return false;
        }
        store.bind_button(device_id, idx, code.clone());
        self.set_binding_btn_code(idx, code);
        self.binding_button_idx = self.binding_button_idx + 1;
        true
    }

    fn poll_scan(&mut self, store: &DeviceStore, rf: &RfCode) -> (taken: bool)
        requires
            !old(self)@.binding_active,
            old(self)@.scanning,
        ensures
            taken == old(self)@.learns(store@, hex(rf.code as nat)),
            final(self)@ == old(self)@.after(store@, *rf),
    {
        let candidate = ScanCandidate::from_rf_code(rf);
        if store.contains_code(candidate.code_hex.as_str()) || store.contains_button_code(
            candidate.code_hex.as_str(),
        ) {
            return false;
        }
        self.populate_form(candidate);
        true
    }

    fn populate_form(&mut self, c: ScanCandidate)
        ensures
            final(self)@ == (RcScreenView {
                code_hex: c.code_hex@,
                protocol: c.protocol@,
                bit_count: c.bit_count as i32,
                edit_id: 0,
                device_name: Seq::empty(),
                device_type: c.device_type.label(),
                scanning: false,
                show_form: true,
                ..old(self)@
            }),
    {
        self.code_hex = c.code_hex;
        self.protocol = c.protocol.to_owned();
        self.bit_count = c.bit_count as i32;
        self.edit_id = 0;
        self.device_name = String::new();
        self.device_type = c.device_type.as_str().to_owned();
        self.scanning = false;
        self.show_form = true;
    }

    fn set_binding_btn_code(&mut self, idx: usize, code: String)
        requires
            idx < BUTTONS,
        ensures
            final(self)@ == (RcScreenView {
                binding_codes: old(self)@.binding_codes.update(idx as int, code@),
                ..old(self)@
            }),
    {
        if idx == 0 {
            self.binding_btn_code_0 = code;
        } else if idx == 1 {
            self.binding_btn_code_1 = code;
        } else if idx == 2 {
            self.binding_btn_code_2 = code;
        } else {
            self.binding_btn_code_3 = code;
        }
        assert(self@.binding_codes =~= old(self)@.binding_codes.update(idx as int, code@));
    }

    /// The key that learns a code.
    pub fn scan_start(&mut self)
        ensures
            final(self)@ == (RcScreenView { scanning: true, ..old(self)@ }),
    {
        self.scanning = true;
    }

    /// The key that ends learning.
    pub fn scan_cancel(&mut self)
        ensures
            final(self)@ == (RcScreenView { scanning: false, ..old(self)@ }),
    {
        self.scanning = false;
    }

    /// Shows the devices of the store.
    pub fn sync_devices_to_ui(&mut self, store: &DeviceStore)
        ensures
            final(self)@ == (RcScreenView { devices: infos(store@.devices), ..old(self)@ }),
    {
        self.devices = rows(store);
    }

    /// Saves the form: a new device where `id` is 0. Then the buttons of a new
    /// remote are bound.
    pub fn save(&mut self, store: &mut DeviceStore, id: i32, name: &str, type_str: &str)
        requires
            old(store)@.wf(),
            id == 0 ==> old(store)@.next_id > 0 && old(self)@.code_hex.len() > 0,
        ensures
            final(store)@ == old(self)@.store_saved(
                old(store)@,
                id,
                name@,
                DeviceType::of_label(type_str@),
            ),
            final(store)@.wf(),
            ({
                let synced = RcScreenView { devices: infos(final(store)@.devices), ..old(self)@ };
                final(self)@ == synced.binding_started(
                    match old(self)@.new_remote(
                        old(store)@,
                        id,
                        DeviceType::of_label(type_str@),
                    ) {
                        Some(new_id) => Some((new_id, name@)),
                        None => None,
                    },
                )
            }),
    {
        let device_type = DeviceType::from_str(type_str);
        let remote = self.apply_save(store, id, name, device_type);
        self.sync_devices_to_ui(store);
        self.start_binding_if_remote(remote);
    }

    fn apply_save(
        &self,
        store: &mut DeviceStore,
        id: i32,
        name: &str,
        device_type: DeviceType,
    ) -> (r: Option<(u32, String)>)
        requires
            old(store)@.wf(),
            id == 0 ==> old(store)@.next_id > 0 && self@.code_hex.len() > 0,
        ensures
            final(store)@ == self@.store_saved(old(store)@, id, name@, device_type),
            final(store)@.wf(),
            match r {
                Some((new_id, new_name)) => self@.new_remote(old(store)@, id, device_type) == Some(
                    new_id,
                ) && new_name@ == name@,
                None => self@.new_remote(old(store)@, id, device_type) is None,
            },
    {
        if id == 0 {
            let is_remote = match device_type {
                DeviceType::Remote => true,
                _ => false,
            };
            match store.add(
                name,
                device_type,
                self.code_hex.as_str(),
                self.protocol.as_str(),
                self.bit_count as u8,
            ) {
                Some(d) => if is_remote {
                    Some((d.id(), d.name().to_owned()))
                } else {
                    None
                },
                None => None,
            }
        } else {
            let found = match store.get(id as u32) {
                Some(d) => Some(d.clone()),
                None => None,
            };
            if let Some(d) = found {
                proof {
                    lemma_position(store@.devices, id as u32, 0);
                }
                store.update(d.with_name(name.to_owned()).with_type(device_type));
            }
            None
        }
    }

    fn start_binding_if_remote(&mut self, remote: Option<(u32, String)>)
        ensures
            final(self)@ == old(self)@.binding_started(
                match remote {
                    Some((id, name)) => Some((id, name@)),
                    None => None,
                },
            ),
    {
        if let Some((device_id, device_name)) = remote {
            self.binding_btn_code_0 = String::new();
            self.binding_btn_code_1 = String::new();
            self.binding_btn_code_2 = String::new();
            self.binding_btn_code_3 = String::new();
            assert(self@.binding_codes =~= no_codes());
            self.binding_device_id = device_id as i32;
            self.binding_device_name = device_name;
            self.binding_button_idx = 0;
            self.binding_active = true;
        }
    }

    /// The key that deletes a device.
    pub fn delete(&mut self, store: &mut DeviceStore, id: i32)
        requires
            old(store)@.wf(),
        ensures
            final(store)@ == old(store)@.with_deleted(id as u32),
            final(store)@.wf(),
            final(self)@ == (RcScreenView { devices: infos(final(store)@.devices), ..old(self)@ }),
    {
        store.delete(id as u32);
        self.sync_devices_to_ui(store);
    }

    /// Shows the codes that the buttons of a device are bound to.
    pub fn binding_load_codes(&mut self, store: &DeviceStore, device_id: i32)
        ensures
            final(self)@ == (match store@.position(device_id as u32) {
                Some(i) => RcScreenView {
                    binding_codes: shown_codes(store@.devices[i]),
                    ..old(self)@
                },
                None => old(self)@,
            }),
    {
        if let Some(d) = store.get(device_id as u32) {
            self.populate_button_codes(d);
        }
    }

    fn populate_button_codes(&mut self, d: &RfDevice)
        ensures
            final(self)@ == (RcScreenView { binding_codes: shown_codes(d@), ..old(self)@ }),
    {
        self.binding_btn_code_0 = shown_code(d, 0);
        self.binding_btn_code_1 = shown_code(d, 1);
        self.binding_btn_code_2 = shown_code(d, 2);
        self.binding_btn_code_3 = shown_code(d, 3);
        assert(self@.binding_codes =~= shown_codes(d@));
    }

    /// The DEL key.
    pub fn device_name_delete_last(&mut self)
        ensures
            final(self)@ == (RcScreenView {
                device_name: without_last(old(self)@.device_name),
                ..old(self)@
            }),
    {
        self.device_name = delete_last_char(self.device_name.as_str());
    }
}

fn shown_code(d: &RfDevice, idx: usize) -> (r: String)
    requires
        idx < BUTTONS,
    ensures
        r@ == shown_codes(d@)[idx as int],
{
    match d.button(idx) {
        Some(code) => code.to_owned(),
        None => String::new(),
    }
}

/// Whether one of the buttons before `current_idx` is bound to the code. What
/// the other buttons were bound to earlier does not count, so that a remote can
/// be bound anew.
pub fn code_bound_this_session(
    store: &DeviceStore,
    device_id: u32,
    code: &str,
    current_idx: usize,
) -> (r: bool)
    ensures
        r == bound_before(store@, device_id, code@, current_idx as int),
{
    let d = match store.get(device_id) {
        Some(d) => d,
        None => return false,
    };
    let ghost p = store@.position(device_id)->0;
    let mut i: usize = 0;
    while i < current_idx && i < BUTTONS
        invariant
            i <= BUTTONS,
            i <= current_idx,
            store@.position(device_id) == Some(p),
            d@ == store@.devices[p],
            forall|b: int| 0 <= b < i ==> #[trigger] d@.buttons[b] != Some(code@),
        decreases BUTTONS - i,
    {
        if let Some(c) = d.button(i) {
            if same(c, code) {
                assert(store@.devices[p].buttons[i as int] == Some(code@));
                return true;
            }
        }
        i = i + 1;
    }
    false
}

// ── Laws ────────────────────────────────────────────────────────────────────

/// A code gives a command just where a button of a remote is bound to it.
pub proof fn only_bound_codes_command(devices: Seq<DeviceView>, code: Seq<char>, from: int)
    requires
        0 <= from,
    ensures
        code_cmd(devices, code, from) is Some <==> exists|i: int|
            from <= i < devices.len() && (#[trigger] devices[i]).device_type == DeviceType::Remote
                && has_button(devices[i], code),
    decreases devices.len() - from,
{
    if from < devices.len() {
        only_bound_codes_command(devices, code, from + 1);
        let d = devices[from];
        if device_cmd(d, code) is Some {
            let b = button_of(d, code)->0;
            assert(d.buttons[b] == Some(code));
            assert(has_button(d, code));
        } else {
            if d.device_type == DeviceType::Remote && has_button(d, code) {
                let b = choose|b: int| 0 <= b < BUTTONS && #[trigger] d.buttons[b] == Some(code);
                assert(b == 0 || b == 1 || b == 2 || b == 3);
            }
        }
    }
}

/// The remote at position `p` has four codes that differ, and no remote before it
/// has any of them.
pub open spec fn well_bound(devices: Seq<DeviceView>, p: int, codes: Seq<Seq<char>>) -> bool {
    &&& 0 <= p < devices.len()
    &&& devices[p].device_type == DeviceType::Remote
    &&& codes.len() == BUTTONS && codes.no_duplicates()
    &&& forall|b: int| 0 <= b < BUTTONS ==> #[trigger] devices[p].buttons[b] == Some(codes[b])
    &&& forall|i: int, b: int|
        0 <= i < p && 0 <= b < BUTTONS && (#[trigger] devices[i]).device_type == DeviceType::Remote
            ==> !has_button(devices[i], #[trigger] codes[b])
}

proof fn lemma_commands_from(
    devices: Seq<DeviceView>,
    p: int,
    codes: Seq<Seq<char>>,
    b: int,
    from: int,
)
    requires
        well_bound(devices, p, codes),
        0 <= b < BUTTONS,
        0 <= from <= p,
    ensures
        code_cmd(devices, codes[b], from) == ControlCmd::of_button(b),
    decreases p - from,
{
    if from < p {
        let d = devices[from];
        if device_cmd(d, codes[b]) is Some {
            let k = button_of(d, codes[b])->0;
            assert(d.buttons[k] == Some(codes[b]));
            assert(has_button(d, codes[b]));
        }
        lemma_commands_from(devices, p, codes, b, from + 1);
    } else {
        let d = devices[p];
        assert(d.buttons[0] == Some(codes[0]) && d.buttons[1] == Some(codes[1]) && d.buttons[2]
            == Some(codes[2]) && d.buttons[3] == Some(codes[3]));
        assert(forall|k: int| 0 <= k < BUTTONS && k != b ==> codes[k] != codes[b]);
        assert(button_of(d, codes[b]) == Some(b));
    }
}

/// Each button of a remote gives its own command.
pub proof fn a_bound_remote_commands(
    devices: Seq<DeviceView>,
    p: int,
    codes: Seq<Seq<char>>,
    b: int,
)
    requires
        well_bound(devices, p, codes),
        0 <= b < BUTTONS,
    ensures
        code_cmd(devices, codes[b], 0) == ControlCmd::of_button(b),
{
    lemma_commands_from(devices, p, codes, b, 0);
}

/// The first `n` buttons of a device are bound to codes that differ.
pub open spec fn distinct_up_to(d: DeviceView, n: int) -> bool {
    &&& forall|b: int| 0 <= b < n ==> #[trigger] d.buttons[b] is Some
    &&& forall|b: int, c: int|
        0 <= b < c < n ==> #[trigger] d.buttons[b] != #[trigger] d.buttons[c]
}

/// A code that is taken for a button is bound to that button and to no button
/// before it; the other buttons and the other devices stay as they are.
pub proof fn a_session_binds_distinct_codes(screen: RcScreenView, store: StoreView, rf: RfCode)
    requires
        store.wf(),
        screen.binding_active,
        screen.listens(),
        store.position(screen.binding_device_id as u32) is Some,
        distinct_up_to(
            store.devices[store.position(screen.binding_device_id as u32)->0],
            screen.binding_button_idx as int,
        ),
    ensures
        ({
            let p = store.position(screen.binding_device_id as u32)->0;
            let idx = screen.binding_button_idx as int;
            let after = screen.store_after(store, rf);
            let shown = screen.after(store, rf);
            &&& distinct_up_to(after.devices[p], shown.binding_button_idx as int)
            &&& screen.binds(store, hex(rf.code as nat)) ==> {
                &&& shown.binding_button_idx == idx + 1
                &&& after.devices[p].buttons[idx] == Some(hex(rf.code as nat))
                &&& forall|b: int|
                    0 <= b < BUTTONS && b != idx ==> #[trigger] after.devices[p].buttons[b]
                        == store.devices[p].buttons[b]
                &&& forall|i: int|
                    0 <= i < store.devices.len() && i != p ==> #[trigger] after.devices[i]
                        == store.devices[i]
            }
            &&& !screen.binds(store, hex(rf.code as nat)) ==> after == store && shown == screen
        }),
{
    let id = screen.binding_device_id as u32;
    let p = store.position(id)->0;
    lemma_position(store.devices, id, 0);
    let idx = screen.binding_button_idx as int;
    let code = hex(rf.code as nat);
    let d = store.devices[p];
    assert(d.wf());
    if screen.binds(store, code) {
        let after = screen.store_after(store, rf).devices[p];
        assert(after.buttons == d.buttons.update(idx, Some(code)));
        assert forall|b: int, c: int| 0 <= b < c < idx + 1 implies #[trigger] after.buttons[b]
            != #[trigger] after.buttons[c] by {
            assert(after.buttons[b] == d.buttons[b]);
            if c < idx {
                assert(after.buttons[c] == d.buttons[c]);
            }
        }
        assert forall|b: int| 0 <= b < idx + 1 implies #[trigger] after.buttons[b] is Some by {
            if b < idx {
                assert(after.buttons[b] == d.buttons[b]);
            }
        }
    }
}

/// A screen and the store behind it.
pub ghost struct Session {
    pub screen: RcScreenView,
    pub store: StoreView,
}

impl Session {
    /// The screen and the store after the first `n` of the received codes.
    pub open spec fn after(self, rfs: Seq<RfCode>, n: nat) -> Session
        decreases n,
    {
        if n == 0 {
            self
        } else {
            let before = self.after(rfs, (n - 1) as nat);
            Session {
                screen: before.screen.after(before.store, rfs[n - 1]),
                store: before.screen.store_after(before.store, rfs[n - 1]),
            }
        }
    }
}

proof fn lemma_position_kept(devices: Seq<DeviceView>, p: int, d: DeviceView, id: u32, from: int)
    requires
        0 <= p < devices.len(),
        d.id == devices[p].id,
        0 <= from,
    ensures
        position_from(devices.update(p, d), id, from) == position_from(devices, id, from),
    decreases devices.len() - from,
{
    if from < devices.len() {
        lemma_position_kept(devices, p, d, id, from + 1);
    }
}

proof fn lemma_session(start: Session, rfs: Seq<RfCode>, n: nat, p: int)
    requires
        start.screen.binding_active,
        start.screen.binding_button_idx == 0,
        start.store.position(start.screen.binding_device_id as u32) == Some(p),
        start.store.devices[p].wf(),
        rfs.len() == BUTTONS,
        forall|b: int, c: int|
            0 <= b < c < BUTTONS ==> (#[trigger] rfs[b]).code != (#[trigger] rfs[c]).code,
        n <= BUTTONS,
    ensures
        ({
            let s = start.after(rfs, n);
            &&& s.screen.binding_active
            &&& s.screen.binding_button_idx == n
            &&& s.screen.binding_device_id == start.screen.binding_device_id
            &&& s.store.position(start.screen.binding_device_id as u32) == Some(p)
            &&& 0 <= p < s.store.devices.len() == start.store.devices.len()
            &&& s.store.devices[p].device_type == start.store.devices[p].device_type
            &&& s.store.devices[p].buttons.len() == BUTTONS
            &&& forall|b: int|
                0 <= b < n ==> #[trigger] s.store.devices[p].buttons[b] == Some(
                    hex(rfs[b].code as nat),
                )
            &&& forall|i: int|
                0 <= i < start.store.devices.len() && i != p ==> #[trigger] s.store.devices[i]
                    == start.store.devices[i]
        }),
    decreases n,
{
    let id = start.screen.binding_device_id as u32;
    lemma_position(start.store.devices, id, 0);
    if n > 0 {
        let k = (n - 1) as nat;
        lemma_session(start, rfs, k, p);
        let s = start.after(rfs, k);
        let code = hex(rfs[k as int].code as nat);
        let d = s.store.devices[p];
        lemma_position(s.store.devices, id, 0);
        if bound_before(s.store, id, code, k as int) {
            let b = choose|b: int|
                0 <= b < k && b < BUTTONS && #[trigger] s.store.devices[p].buttons[b] == Some(code);
            assert(s.store.devices[p].buttons[b] == Some(hex(rfs[b].code as nat)));
            numeral_injective(rfs[b].code as nat, rfs[k as int].code as nat, 16);
        }
        let bound = DeviceView { buttons: d.buttons.update(k as int, Some(code)), ..d };
        lemma_position_kept(s.store.devices, p, bound, id, 0);
        let after = start.after(rfs, n).store;
        assert(after.devices == s.store.devices.update(p, bound));
        assert forall|b: int| 0 <= b < n implies #[trigger] after.devices[p].buttons[b] == Some(
            hex(rfs[b].code as nat),
        ) by {
            if b < k {
                assert(after.devices[p].buttons[b] == d.buttons[b]);
            }
        }
    }
}

/// Pressing the four buttons of a remote while it is being bound makes each of
/// them give its command from then on.
pub proof fn binding_a_remote_makes_it_command(
    start: Session,
    rfs: Seq<RfCode>,
    p: int,
    b: int,
)
    requires
        start.screen.binding_active,
        start.screen.binding_button_idx == 0,
        start.store.position(start.screen.binding_device_id as u32) == Some(p),
        start.store.devices[p].wf(),
        start.store.devices[p].device_type == DeviceType::Remote,
        rfs.len() == BUTTONS,
        forall|b: int, c: int|
            0 <= b < c < BUTTONS ==> (#[trigger] rfs[b]).code != (#[trigger] rfs[c]).code,
        forall|i: int, c: int|
            0 <= i < p && 0 <= c < BUTTONS && (#[trigger] start.store.devices[i]).device_type
                == DeviceType::Remote ==> !has_button(
                start.store.devices[i],
                hex((#[trigger] rfs[c]).code as nat),
            ),
        0 <= b < BUTTONS,
    ensures
        ({
            let after = start.after(rfs, BUTTONS as nat);
            &&& code_cmd(after.store.devices, hex(rfs[b].code as nat), 0) == ControlCmd::of_button(b)
            &&& !after.screen.listens()
        }),
{
    lemma_session(start, rfs, BUTTONS as nat, p);
    let after = start.after(rfs, BUTTONS as nat).store.devices;
    let codes = Seq::new(BUTTONS as nat, |i: int| hex(rfs[i].code as nat));
    assert forall|i: int, j: int|
        0 <= i < codes.len() && 0 <= j < codes.len() && i != j implies codes[i] != codes[j] by {
        if codes[i] == codes[j] {
            numeral_injective(rfs[i].code as nat, rfs[j].code as nat, 16);
            let (lo, hi) = if i < j { (i, j) } else { (j, i) };
            assert(rfs[lo].code != rfs[hi].code);
        }
    }
    assert forall|i: int, c: int|
        0 <= i < p && 0 <= c < BUTTONS && (#[trigger] after[i]).device_type
            == DeviceType::Remote implies !has_button(after[i], #[trigger] codes[c]) by {
        assert(after[i] == start.store.devices[i]);
        assert(codes[c] == hex(rfs[c].code as nat));
    }
    assert(well_bound(after, p, codes));
    a_bound_remote_commands(after, p, codes, b);
}

/// A code that was saved with a new device is not learned again.
pub proof fn a_saved_code_is_known(
    screen: RcScreenView,
    store: StoreView,
    name: Seq<char>,
    device_type: DeviceType,
)
    requires
        store.next_id < MAX_ID,
    ensures
        known(screen.store_saved(store, 0, name, device_type), screen.code_hex),
{
    let after = screen.store_saved(store, 0, name, device_type);
    assert(after.devices[store.devices.len() as int].code_hex == screen.code_hex);
}

/// A deleted device gives no command any more, and leaves the others theirs.
pub proof fn a_deleted_remote_is_not_obeyed(store: StoreView, id: u32, code: Seq<char>)
    requires
        store.wf(),
        code_cmd(store.with_deleted(id).devices, code, 0) is Some,
    ensures
        exists|i: int|
            0 <= i < store.devices.len() && (#[trigger] store.devices[i]).id != id
                && store.devices[i].device_type == DeviceType::Remote && has_button(
                store.devices[i],
                code,
            ),
{
    let after = store.with_deleted(id).devices;
    only_bound_codes_command(after, code, 0);
    lemma_position(store.devices, id, 0);
    let j = choose|j: int|
        0 <= j < after.len() && (#[trigger] after[j]).device_type == DeviceType::Remote
            && has_button(after[j], code);
    match store.position(id) {
        Some(p) => {
            let i = if j < p { j } else { j + 1 };
            assert(after[j] == store.devices[i]);
            if i < p {
                assert(store.devices[i].id < store.devices[p].id);
            } else {
                assert(store.devices[p].id < store.devices[i].id);
            }
            assert(store.devices[i].id != id);
        },
        None => {
            assert(store.devices[j].id != id);
        },
    }
}

/// A row shows what its device is.
pub proof fn a_row_shows_its_device(devices: Seq<DeviceView>, i: int)
    requires
        0 <= i < devices.len(),
        devices[i].id < 1000,
    ensures
        infos(devices).len() == devices.len(),
        infos(devices)[i].id == devices[i].id,
        infos(devices)[i].name == devices[i].name,
        infos(devices)[i].device_type == devices[i].device_type.label(),
        infos(devices)[i].code_hex == devices[i].code_hex,
        infos(devices)[i].protocol == devices[i].protocol,
        infos(devices)[i].bit_count == devices[i].bit_count,
{
}

/// Saving the form of a known device gives it the name and the kind of the form, and
/// keeps its id, code, protocol, number of bits and buttons; every other device stays
/// as it is. Its row shows the name and the label of the kind, the flash is told of
/// both, and no binding is started.
pub proof fn an_edited_device_has_the_name_and_kind_of_the_form(
    screen: RcScreenView,
    store: StoreView,
    i: int,
    name: Seq<char>,
    device_type: DeviceType,
)
    requires
        store.wf(),
        0 <= i < store.devices.len(),
    ensures
        ({
            let id = store.devices[i].id as i32;
            let after = screen.store_saved(store, id, name, device_type);
            let d = after.devices[i];
            let row = infos(after.devices)[i];
            &&& after.devices.len() == store.devices.len()
            &&& d.name == name && d.device_type == device_type
            &&& d.id == store.devices[i].id && d.code_hex == store.devices[i].code_hex
            &&& d.protocol == store.devices[i].protocol && d.bit_count
                == store.devices[i].bit_count
            &&& d.buttons == store.devices[i].buttons
            &&& forall|j: int|
                0 <= j < store.devices.len() && j != i ==> #[trigger] after.devices[j]
                    == store.devices[j]
            &&& after.next_id == store.next_id
            &&& row.name == name && row.device_type == device_type.label()
            &&& row.id == id && row.code_hex == store.devices[i].code_hex
            &&& after.pending.len() == store.pending.len() + 1
            &&& after.pending.last() matches OpView::Persist(record, next_id) && record.id
                == d.id && record.name == name && record.type_key == device_type.key()
                && record.code_hex == d.code_hex && record.protocol == d.protocol
                && record.bit_count == d.bit_count && next_id == store.next_id
            &&& screen.new_remote(store, id, device_type) is None
        }),
{
    let old = store.devices[i];
    assert(old.wf());
    assert(old.id < store.next_id);
    crate::rc_devices::store::a_device_is_found_by_its_id(store, old.id, i);
    crate::rc_devices::store::a_replaced_device_keeps_its_place(
        store,
        i,
        DeviceView { name, device_type, ..old },
    );
    assert(old.id as i32 as u32 == old.id);
}

/// Saving the form of a device that is not there changes no device.
pub proof fn an_unknown_device_is_not_saved(
    screen: RcScreenView,
    store: StoreView,
    id: i32,
    name: Seq<char>,
    device_type: DeviceType,
)
    requires
        id > 0,
        forall|j: int| 0 <= j < store.devices.len() ==> (#[trigger] store.devices[j]).id != id,
    ensures
        screen.store_saved(store, id, name, device_type) == store,
        screen.new_remote(store, id, device_type) is None,
{
    lemma_position(store.devices, id as u32, 0);
}

/// Saving the form of a new device adds one with the name and kind of the form and
/// the code that was learned, under the next free id; no other device changes. From
/// the id 1000 on nothing is added.
pub proof fn a_learned_device_is_added(
    screen: RcScreenView,
    store: StoreView,
    name: Seq<char>,
    device_type: DeviceType,
)
    requires
        0 <= screen.bit_count <= 255,
    ensures
        ({
            let after = screen.store_saved(store, 0, name, device_type);
            let n = store.devices.len() as int;
            &&& store.next_id >= 1000 ==> after == store
            &&& store.next_id < 1000 ==> {
                &&& after.devices.len() == n + 1
                &&& after.devices[n].id == store.next_id
                &&& after.devices[n].name == name
                &&& after.devices[n].device_type == device_type
                &&& after.devices[n].code_hex == screen.code_hex
                &&& after.devices[n].protocol == screen.protocol
                &&& after.devices[n].bit_count == screen.bit_count
                &&& forall|b: int| 0 <= b < 4 ==> #[trigger] after.devices[n].buttons[b] is None
                &&& forall|j: int| 0 <= j < n ==> #[trigger] after.devices[j] == store.devices[j]
                &&& after.next_id == store.next_id + 1
            }
        }),
{
    if store.next_id < 1000 {
        crate::rc_devices::store::a_new_device_stands_last(
            store,
            name,
            device_type,
            screen.code_hex,
            screen.protocol,
            screen.bit_count as u8,
        );
    }
}

/// The buttons are to be bound after a remote was added, and after nothing else: the
/// first button of that remote comes first, and no code is shown yet. The rest of the
/// screen stays as it is.
pub proof fn a_new_remote_is_bound_next(
    screen: RcScreenView,
    store: StoreView,
    id: i32,
    name: Seq<char>,
    device_type: DeviceType,
)
    requires
        store.next_id <= 1000,
    ensures
        ({
            let shown = screen.binding_started(
                match screen.new_remote(store, id, device_type) {
                    Some(new_id) => Some((new_id, name)),
                    None => None,
                },
            );
            let starts = id == 0 && store.next_id < 1000 && device_type is Remote;
            &&& !starts ==> shown == screen
            &&& starts ==> {
                &&& shown.binding_active
                &&& shown.binding_device_id == store.next_id
                &&& shown.binding_device_name == name
                &&& shown.binding_button_idx == 0
                &&& shown.binding_codes.len() == 4
                &&& forall|b: int| 0 <= b < 4 ==> (#[trigger] shown.binding_codes[b]).len() == 0
            }
            &&& shown.devices == screen.devices && shown.scanning == screen.scanning
                && shown.show_form == screen.show_form && shown.code_hex == screen.code_hex
                && shown.protocol == screen.protocol && shown.bit_count == screen.bit_count
                && shown.edit_id == screen.edit_id && shown.device_name == screen.device_name
                && shown.device_type == screen.device_type
        }),
{
}

/// A code that no device and no button has is learned while codes are learned: it
/// fills the form of a new device, which is shown, and learning ends. A code that is
/// known, or one that comes while no code is learned, leaves the form alone. Learning
/// changes no device.
pub proof fn a_new_code_fills_the_form(screen: RcScreenView, store: StoreView, rf: RfCode)
    requires
        !screen.binding_active,
    ensures
        ({
            let code = hex(rf.code as nat);
            let after = screen.after(store, rf);
            let has_it = exists|i: int|
                0 <= i < store.devices.len() && ((#[trigger] store.devices[i]).code_hex == code
                    || has_button(store.devices[i], code));
            &&& screen.scanning && !has_it ==> {
                &&& after.code_hex == code
                &&& after.protocol == rf.protocol@
                &&& after.bit_count == rf.bit_count
                &&& after.edit_id == 0
                &&& after.device_name.len() == 0
                &&& after.device_type == DeviceType::likely(rf.protocol@, rf.bit_count).label()
                &&& after.show_form
                &&& !after.scanning
            }
            &&& !screen.scanning || has_it ==> after == screen
            &&& screen.store_after(store, rf) == store
            &&& after.devices == screen.devices
            &&& after.binding_active == screen.binding_active && after.binding_device_id
                == screen.binding_device_id && after.binding_device_name
                == screen.binding_device_name && after.binding_button_idx
                == screen.binding_button_idx && after.binding_codes == screen.binding_codes
        }),
{
    let code = hex(rf.code as nat);
    if known(store, code) {
        if has_code(store.devices, code) {
            let i = choose|i: int|
                0 <= i < store.devices.len() && (#[trigger] store.devices[i]).code_hex == code;
            assert(store.devices[i].code_hex == code);
        } else {
            let i = choose|i: int|
                0 <= i < store.devices.len() && has_button(#[trigger] store.devices[i], code);
            assert(has_button(store.devices[i], code));
        }
    } else {
        assert forall|i: int| 0 <= i < store.devices.len() implies !((
        #[trigger] store.devices[i]).code_hex == code || has_button(store.devices[i], code)) by {
            if store.devices[i].code_hex == code {
                assert(has_code(store.devices, code));
            }
            if has_button(store.devices[i], code) {
                assert(has_button_code(store.devices, code));
            }
        }
    }
}

/// A code that comes while buttons are bound is bound to the next button of the
/// remote, unless one of the buttons before it has the code; it is shown there, and
/// the next button comes next. Otherwise nothing happens; the form stays as it is
/// either way.
pub proof fn a_code_is_bound_to_the_next_button(
    screen: RcScreenView,
    store: StoreView,
    rf: RfCode,
    i: int,
)
    requires
        store.wf(),
        screen.binding_active,
        0 <= screen.binding_button_idx < 4,
        screen.binding_codes.len() == 4,
        0 <= i < store.devices.len(),
        screen.binding_device_id == store.devices[i].id,
    ensures
        ({
            let code = hex(rf.code as nat);
            let idx = screen.binding_button_idx as int;
            let after = screen.after(store, rf);
            let kept = screen.store_after(store, rf);
            let bound = exists|b: int|
                0 <= b < idx && #[trigger] store.devices[i].buttons[b] == Some(code);
            &&& bound ==> after == screen && kept == store
            &&& !bound ==> {
                &&& kept.devices[i].buttons[idx] == Some(code)
                &&& forall|b: int|
                    0 <= b < 4 && b != idx ==> #[trigger] kept.devices[i].buttons[b]
                        == store.devices[i].buttons[b]
                &&& forall|j: int|
                    0 <= j < store.devices.len() && j != i ==> #[trigger] kept.devices[j]
                        == store.devices[j]
                &&& after.binding_codes[idx] == code
                &&& forall|b: int|
                    0 <= b < 4 && b != idx ==> #[trigger] after.binding_codes[b]
                        == screen.binding_codes[b]
                &&& after.binding_button_idx == idx + 1
                &&& after.binding_active
                &&& after.binding_device_id == screen.binding_device_id
            }
            &&& after.scanning == screen.scanning && after.show_form == screen.show_form
                && after.code_hex == screen.code_hex && after.devices == screen.devices
                && after.edit_id == screen.edit_id && after.device_name == screen.device_name
                && after.device_type == screen.device_type && after.protocol == screen.protocol
                && after.bit_count == screen.bit_count && after.binding_device_name
                == screen.binding_device_name
        }),
{
    let code = hex(rf.code as nat);
    let idx = screen.binding_button_idx as int;
    let id = store.devices[i].id;
    crate::rc_devices::store::a_device_is_found_by_its_id(store, id, i);
    crate::rc_devices::store::binding_touches_one_button(store, i, idx, code);
    assert(screen.binding_device_id as u32 == id);
    assert(bound_before(store, id, code, idx) <==> exists|b: int|
        0 <= b < idx && #[trigger] store.devices[i].buttons[b] == Some(code));
}

/// Without learning and binding, a received code changes neither the screen nor a
/// device.
pub proof fn a_code_alone_changes_nothing(screen: RcScreenView, store: StoreView, rf: RfCode)
    requires
        !screen.binding_active,
        !screen.scanning,
    ensures
        screen.after(store, rf) == screen,
        screen.store_after(store, rf) == store,
{
}

/// The codes of the buttons are shown as they are bound, an unbound one as empty.
pub proof fn bound_codes_are_shown(d: DeviceView, b: int)
    requires
        0 <= b < 4,
    ensures
        shown_codes(d).len() == 4,
        d.buttons[b] matches Some(code) ==> shown_codes(d)[b] == code,
        d.buttons[b] is None ==> shown_codes(d)[b].len() == 0,
{
}

proof fn lemma_first_remote(devices: Seq<DeviceView>, code: Seq<char>, p: int, from: int)
    requires
        0 <= from <= p < devices.len(),
        device_cmd(devices[p], code) is Some,
        forall|j: int| from <= j < p ==> device_cmd(#[trigger] devices[j], code) is None,
    ensures
        code_cmd(devices, code, from) == device_cmd(devices[p], code),
    decreases p - from,
{
    if from < p {
        assert(device_cmd(devices[from], code) is None);
        lemma_first_remote(devices, code, p, from + 1);
    }
}

/// A button that is bound commands, whether or not the others are: where a button of
/// a remote has the code, and no button before it and no remote before its own has, the
/// code gives the command of that button. The first button arms, the second disarms,
/// the third silences and the fourth raises the alarm.
pub proof fn a_bound_button_commands(devices: Seq<DeviceView>, code: Seq<char>, p: int, b: int)
    requires
        0 <= p < devices.len(),
        0 <= b < 4,
        devices[p].device_type is Remote,
        devices[p].buttons[b] == Some(code),
        forall|c: int| 0 <= c < b ==> #[trigger] devices[p].buttons[c] != Some(code),
        forall|j: int, c: int|
            0 <= j < p && 0 <= c < 4 && (#[trigger] devices[j]).device_type is Remote ==> (
            #[trigger] devices[j].buttons[c]) != Some(code),
    ensures
        b == 0 ==> code_cmd(devices, code, 0) == Some(ControlCmd::Arm),
        b == 1 ==> code_cmd(devices, code, 0) == Some(ControlCmd::Disarm),
        b == 2 ==> code_cmd(devices, code, 0) == Some(ControlCmd::Silent),
        b == 3 ==> code_cmd(devices, code, 0) == Some(ControlCmd::Alarm),
{
    assert(forall|c: int| 0 <= c < b ==> devices[p].buttons[c] != Some(code));
    assert(b > 0 ==> devices[p].buttons[0] != Some(code));
    assert(b > 1 ==> devices[p].buttons[1] != Some(code));
    assert(b > 2 ==> devices[p].buttons[2] != Some(code));
    assert(button_of(devices[p], code) == Some(b));
    assert forall|j: int| 0 <= j < p implies device_cmd(#[trigger] devices[j], code) is None by {
        if devices[j].device_type is Remote {
            assert(devices[j].buttons[0] != Some(code) && devices[j].buttons[1] != Some(code)
                && devices[j].buttons[2] != Some(code) && devices[j].buttons[3] != Some(code));
        }
    }
    lemma_first_remote(devices, code, p, 0);
}

/// Codes are looked at unless all four buttons of a remote are bound and the binding
/// is not over.
pub proof fn codes_are_looked_at(screen: RcScreenView)
    ensures
        screen.listens() <==> !screen.binding_active || 0 <= screen.binding_button_idx < 4,
{
}

/// A remote commands while no code is learned and no button bound, and only then: a
/// code that is learned or bound gives no command.
pub proof fn learning_and_binding_give_no_command(
    screen: RcScreenView,
    store: StoreView,
    code: Seq<char>,
)
    ensures
        screen.binding_active || screen.scanning ==> screen.gives(store, code) is None,
        !screen.binding_active && !screen.scanning ==> screen.gives(store, code) == code_cmd(
            store.devices,
            code,
            0,
        ),
        screen.gives(store, code) is Some ==> !screen.binds(store, code) && !screen.learns(
            store,
            code,
        ),
{
}

} // verus!
