//! A radio device and its kind.
use vstd::prelude::*;

use crate::text::{opt_view, same};

verus! {

/// The buttons of a remote.
pub const BUTTONS: usize = 4;

/// The kind of a device.
#[derive(Clone, Copy, Debug, PartialEq, Eq, Structural)]
pub enum DeviceType {
    Sensor,
    Remote,
    Motion,
    Garage,
    SmokeFire,
    Other,
}

impl DeviceType {
    /// The name that the screens show.
    pub open spec fn label(self) -> Seq<char> {
        match self {
            DeviceType::Sensor => "Датчик"@,
            DeviceType::Remote => "Пульт"@,
            DeviceType::Motion => "Движение"@,
            DeviceType::Garage => "Гараж"@,
            DeviceType::SmokeFire => "Дым/Газ"@,
            DeviceType::Other => "Другое"@,
        }
    }

    /// The kind that a name on the screen stands for.
    pub open spec fn of_label(s: Seq<char>) -> DeviceType {
        if s == "Пульт"@ {
            DeviceType::Remote
        } else if s == "Движение"@ {
            DeviceType::Motion
        } else if s == "Гараж"@ {
            DeviceType::Garage
        } else if s == "Дым/Газ"@ {
            DeviceType::SmokeFire
        } else if s == "Датчик"@ {
            DeviceType::Sensor
        } else {
            DeviceType::Other
        }
    }

    /// The key that the kind is stored under, whatever the screens call it.
    pub open spec fn key(self) -> Seq<char> {
        match self {
            DeviceType::Sensor => "sensor"@,
            DeviceType::Remote => "remote"@,
            DeviceType::Motion => "motion"@,
            DeviceType::Garage => "garage"@,
            DeviceType::SmokeFire => "smoke_fire"@,
            DeviceType::Other => "other"@,
        }
    }

    /// The kind that a stored key stands for. Names from the screens are
    /// understood too: they were stored before the keys were.
    pub open spec fn of_key(s: Seq<char>) -> DeviceType {
        if s == "sensor"@ {
            DeviceType::Sensor
        } else if s == "remote"@ {
            DeviceType::Remote
        } else if s == "motion"@ {
            DeviceType::Motion
        } else if s == "garage"@ {
            DeviceType::Garage
        } else if s == "smoke_fire"@ {
            DeviceType::SmokeFire
        } else if s == "other"@ {
            DeviceType::Other
        } else {
            DeviceType::of_label(s)
        }
    }

    /// The likely kind of a device with this protocol and code width.
    pub open spec fn likely(protocol: Seq<char>, bits: u8) -> DeviceType {
        if protocol == "NiceFLO"@ || protocol == "CAME"@ {
            DeviceType::Garage
        } else if protocol == "HT6P20B"@ {
            DeviceType::Remote
        } else if protocol == "HS2303"@ {
            DeviceType::Motion
        } else if bits == 12 {
            DeviceType::Garage
        } else {
            DeviceType::Sensor
        }
    }

    /// The name that the screens show.
    pub fn as_str(self) -> (r: &'static str)
        ensures
            r@ == self.label(),
    {
        match self {
            DeviceType::Sensor => "Датчик",
            DeviceType::Remote => "Пульт",
            DeviceType::Motion => "Движение",
            DeviceType::Garage => "Гараж",
            DeviceType::SmokeFire => "Дым/Газ",
            DeviceType::Other => "Другое",
        }
    }

    /// The kind that a name on the screen stands for.
    pub fn from_str(s: &str) -> (r: Self)
        ensures
            r == DeviceType::of_label(s@),
    {
        if same(s, "Пульт") {
            DeviceType::Remote
        } else if same(s, "Движение") {
            DeviceType::Motion
        } else if same(s, "Гараж") {
            DeviceType::Garage
        } else if same(s, "Дым/Газ") {
            DeviceType::SmokeFire
        } else if same(s, "Датчик") {
            DeviceType::Sensor
        } else {
            DeviceType::Other
        }
    }

    /// The key that the kind is stored under.
    pub fn as_key(self) -> (r: &'static str)
        ensures
            r@ == self.key(),
    {
        match self {
            DeviceType::Sensor => "sensor",
            DeviceType::Remote => "remote",
            DeviceType::Motion => "motion",
            DeviceType::Garage => "garage",
            DeviceType::SmokeFire => "smoke_fire",
            DeviceType::Other => "other",
        }
    }

    /// The kind that a stored key, or an older stored name, stands for.
    pub fn from_key(s: &str) -> (r: Self)
        ensures
            r == DeviceType::of_key(s@),
    {
        if same(s, "sensor") {
            DeviceType::Sensor
        } else if same(s, "remote") {
            DeviceType::Remote
        } else if same(s, "motion") {
            DeviceType::Motion
        } else if same(s, "garage") {
            DeviceType::Garage
        } else if same(s, "smoke_fire") {
            DeviceType::SmokeFire
        } else if same(s, "other") {
            DeviceType::Other
        } else {
            DeviceType::from_str(s)
        }
    }

    /// The likely kind of a device with this protocol and code width.
    pub fn inferred_from(protocol: &str, bits: u8) -> (r: Self)
        ensures
            r == DeviceType::likely(protocol@, bits),
    {
        if same(protocol, "NiceFLO") || same(protocol, "CAME") {
            DeviceType::Garage
        } else if same(protocol, "HT6P20B") {
            DeviceType::Remote
        } else if same(protocol, "HS2303") {
            DeviceType::Motion
        } else if bits == 12 {
            DeviceType::Garage
        } else {
            DeviceType::Sensor
        }
    }
}

/// The name of a kind stands for that kind.
pub proof fn labels_read_back(t: DeviceType)
    ensures
        DeviceType::of_label(t.label()) == t,
{
    reveal_strlit("Датчик");
    reveal_strlit("Пульт");
    reveal_strlit("Движение");
    reveal_strlit("Гараж");
    reveal_strlit("Дым/Газ");
    reveal_strlit("Другое");
    assert("Датчик"@[0] == 'Д' && "Датчик"@[1] == 'а');
    assert("Пульт"@[0] == 'П');
    assert("Движение"@[0] == 'Д' && "Движение"@[1] == 'в');
    assert("Гараж"@[0] == 'Г');
    assert("Дым/Газ"@[0] == 'Д' && "Дым/Газ"@[1] == 'ы');
    assert("Другое"@[0] == 'Д' && "Другое"@[1] == 'р');
}

/// The stored key of a kind stands for that kind, and so does its name.
pub proof fn keys_read_back(t: DeviceType)
    ensures
        DeviceType::of_key(t.key()) == t,
        DeviceType::of_key(t.label()) == t,
{
    labels_read_back(t);
    reveal_strlit("sensor");
    reveal_strlit("remote");
    reveal_strlit("motion");
    reveal_strlit("garage");
    reveal_strlit("smoke_fire");
    reveal_strlit("other");
    reveal_strlit("Датчик");
    reveal_strlit("Пульт");
    reveal_strlit("Движение");
    reveal_strlit("Гараж");
    reveal_strlit("Дым/Газ");
    reveal_strlit("Другое");
    assert("sensor"@[0] == 's' && "sensor"@[1] == 'e');
    assert("remote"@[0] == 'r');
    assert("motion"@[0] == 'm');
    assert("garage"@[0] == 'g');
    assert("smoke_fire"@[0] == 's' && "smoke_fire"@[1] == 'm');
    assert("other"@[0] == 'o');
    assert("Датчик"@[0] == 'Д');
    assert("Пульт"@[0] == 'П');
    assert("Движение"@[0] == 'Д');
    assert("Гараж"@[0] == 'Г');
    assert("Дым/Газ"@[0] == 'Д');
    assert("Другое"@[0] == 'Д');
}

// ── The device ──────────────────────────────────────────────────────────────

/// The model of a device.
pub ghost struct DeviceView {
    pub id: u32,
    pub name: Seq<char>,
    pub device_type: DeviceType,
    pub code_hex: Seq<char>,
    pub protocol: Seq<char>,
    pub bit_count: u8,
    /// The code that each button of a remote is bound to.
    pub buttons: Seq<Option<Seq<char>>>,
}

impl DeviceView {
    /// A device has a positive id and a code, and as many buttons as a remote.
    pub open spec fn wf(self) -> bool {
        self.id > 0 && self.code_hex.len() > 0 && self.buttons.len() == BUTTONS
    }

    /// The device with none of its buttons bound.
    pub open spec fn unbound(self) -> DeviceView {
        DeviceView { buttons: no_buttons(), ..self }
    }
}

/// Four buttons, none of them bound.
pub open spec fn no_buttons() -> Seq<Option<Seq<char>>> {
    seq![None, None, None, None]
}

/// The codes of the buttons.
pub open spec fn button_views(buttons: Seq<Option<String>>) -> Seq<Option<Seq<char>>> {
    buttons.map_values(|b: Option<String>| opt_view(b))
}

/// A device: a value that is replaced, never changed. Only the store gives out ids.
#[derive(Debug)]
pub struct RfDevice {
    id: u32,
    name: String,
    device_type: DeviceType,
    code_hex: String,
    protocol: String,
    bit_count: u8,
    buttons: Vec<Option<String>>,
}

impl View for RfDevice {
    type V = DeviceView;

    closed spec fn view(&self) -> DeviceView {
        DeviceView {
            id: self.id,
            name: self.name@,
            device_type: self.device_type,
            code_hex: self.code_hex@,
            protocol: self.protocol@,
            bit_count: self.bit_count,
            buttons: button_views(self.buttons@),
        }
    }
}

impl RfDevice {
    #[verifier::type_invariant]
    spec fn inv(self) -> bool {
        self.id > 0 && self.code_hex@.len() > 0 && self.buttons@.len() == BUTTONS
    }

    pub(super) fn from_parts(
        id: u32,
        name: String,
        device_type: DeviceType,
        code_hex: String,
        protocol: String,
        bit_count: u8,
    ) -> (d: Self)
        requires
            id > 0,
            code_hex@.len() > 0,
        ensures
            d@ == (DeviceView {
                id,
                name: name@,
                device_type,
                code_hex: code_hex@,
                protocol: protocol@,
                bit_count,
                buttons: no_buttons(),
            }),
            d@.wf(),
    {
        let mut buttons: Vec<Option<String>> = Vec::new();
        buttons.push(None);
        buttons.push(None);
        buttons.push(None);
        buttons.push(None);
        assert(button_views(buttons@) =~= no_buttons());
        RfDevice { id, name, device_type, code_hex, protocol, bit_count, buttons }
    }

    pub fn id(&self) -> (r: u32)
        ensures
            r == self@.id,
            self@.wf(),
    {
        proof {
            use_type_invariant(self);
        }
        self.id
    }

    pub fn name(&self) -> (r: &str)
        ensures
            r@ == self@.name,
    {
        self.name.as_str()
    }

    pub fn device_type(&self) -> (r: DeviceType)
        ensures
            r == self@.device_type,
    {
        self.device_type
    }

    pub fn code_hex(&self) -> (r: &str)
        ensures
            r@ == self@.code_hex,
            r@.len() > 0,
    {
        proof {
            use_type_invariant(self);
        }
        self.code_hex.as_str()
    }

    pub fn protocol(&self) -> (r: &str)
        ensures
            r@ == self@.protocol,
    {
        self.protocol.as_str()
    }

    pub fn bit_count(&self) -> (r: u8)
        ensures
            r == self@.bit_count,
    {
        self.bit_count
    }

    /// The code that button `idx` is bound to.
    pub fn button(&self, idx: usize) -> (r: Option<&str>)
        ensures
            match r {
                Some(code) => idx < BUTTONS && self@.buttons[idx as int] == Some(code@),
                None => idx >= BUTTONS || self@.buttons[idx as int] is None,
            },
            self@.wf(),
    {
        proof {
            use_type_invariant(self);
        }
        if idx < self.buttons.len() {
            match &self.buttons[idx] {
                Some(code) => Some(code.as_str()),
                None => None,
            }
        } else {
            None
        }
    }

    /// The device under another name.
    pub fn with_name(self, name: String) -> (d: Self)
        ensures
            d@ == (DeviceView { name: name@, ..self@ }),
    {
        proof {
            use_type_invariant(&self);
        }
        RfDevice { name, ..self }
    }

    /// The device as one of another kind.
    pub fn with_type(self, device_type: DeviceType) -> (d: Self)
        ensures
            d@ == (DeviceView { device_type, ..self@ }),
    {
        proof {
            use_type_invariant(&self);
        }
        RfDevice { device_type, ..self }
    }

    /// The device with button `idx` bound to `code`.
    pub fn with_button(self, idx: usize, code: String) -> (d: Self)
        requires
            idx < BUTTONS,
        ensures
            d@ == (DeviceView { buttons: self@.buttons.update(idx as int, Some(code@)), ..self@ }),
            d@.wf(),
    {
        proof {
            use_type_invariant(&self);
        }
        let RfDevice { id, name, device_type, code_hex, protocol, bit_count, buttons } = self;
        let mut bound = buttons;
        let ghost before = bound@;
        bound.set(idx, Some(code));
        assert(button_views(bound@) =~= button_views(before).update(idx as int, Some(code@)));
        RfDevice { id, name, device_type, code_hex, protocol, bit_count, buttons: bound }
    }
}

impl Clone for RfDevice {
    fn clone(&self) -> (d: Self)
        ensures
            d@ == self@,
    {
        proof {
            use_type_invariant(self);
        }
        let mut buttons: Vec<Option<String>> = Vec::new();
        let mut i: usize = 0;
        while i < self.buttons.len()
            invariant
                i <= self.buttons@.len(),
                buttons@.len() == i,
                forall|j: int|
                    0 <= j < i ==> opt_view(#[trigger] buttons@[j]) == opt_view(self.buttons@[j]),
            decreases self.buttons@.len() - i,
        {
            let b = match &self.buttons[i] {
                Some(code) => Some(code.clone()),
                None => None,
            };
            buttons.push(b);
            i = i + 1;
        }
        assert(button_views(buttons@) =~= button_views(self.buttons@));
        RfDevice {
            id: self.id,
            name: self.name.clone(),
            device_type: self.device_type,
            code_hex: self.code_hex.clone(),
            protocol: self.protocol.clone(),
            bit_count: self.bit_count,
            buttons,
        }
    }
}

// ── Laws of the kinds ───────────────────────────────────────────────────────

/// What a new device is likely to be: NiceFLO, CAME and all other codes of twelve
/// bits are taken for a garage, HT6P20B for a remote, HS2303 for a motion detector,
/// and everything else for a sensor.
pub proof fn the_likely_kind_follows_the_protocol(protocol: Seq<char>, bits: u8)
    ensures
        DeviceType::likely(protocol, bits) == DeviceType::Remote <==> protocol == "HT6P20B"@,
        DeviceType::likely(protocol, bits) == DeviceType::Motion <==> protocol == "HS2303"@,
        DeviceType::likely(protocol, bits) == DeviceType::Garage <==> protocol == "NiceFLO"@
            || protocol == "CAME"@ || bits == 12 && protocol != "HT6P20B"@ && protocol
            != "HS2303"@,
        DeviceType::likely(protocol, bits) != DeviceType::SmokeFire,
        DeviceType::likely(protocol, bits) != DeviceType::Other,
{
    reveal_strlit("NiceFLO");
    reveal_strlit("CAME");
    reveal_strlit("HT6P20B");
    reveal_strlit("HS2303");
    assert("NiceFLO"@[0] == 'N' && "CAME"@[0] == 'C' && "HT6P20B"@[0] == 'H' && "HT6P20B"@[1]
        == 'T' && "HS2303"@[0] == 'H' && "HS2303"@[1] == 'S');
}

/// A name that no kind has stands for another kind of device, and a stored text
/// that is neither a key nor a name does, too.
pub proof fn unknown_names_are_other(s: Seq<char>)
    ensures
        DeviceType::of_label(s) != DeviceType::Other ==> s == DeviceType::of_label(s).label(),
        DeviceType::of_key(s) != DeviceType::Other ==> s == DeviceType::of_key(s).key() || s
            == DeviceType::of_key(s).label(),
{
}

/// The names that the screens show and the keys that the flash keeps.
pub proof fn kinds_are_called(t: DeviceType)
    ensures
        t.label() == match t {
            DeviceType::Sensor => "Датчик"@,
            DeviceType::Remote => "Пульт"@,
            DeviceType::Motion => "Движение"@,
            DeviceType::Garage => "Гараж"@,
            DeviceType::SmokeFire => "Дым/Газ"@,
            DeviceType::Other => "Другое"@,
        },
        t.key() == match t {
            DeviceType::Sensor => "sensor"@,
            DeviceType::Remote => "remote"@,
            DeviceType::Motion => "motion"@,
            DeviceType::Garage => "garage"@,
            DeviceType::SmokeFire => "smoke_fire"@,
            DeviceType::Other => "other"@,
        },
{
}

} // verus!
