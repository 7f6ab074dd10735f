//! The settings screen: the PIN of the panel.
use vstd::prelude::*;

use super::{delete_last_char, without_last};
use crate::nvs::{
    answer, get_str, put_str, stored_text_or, text_or, written, Image, NvsAnswer, NvsRead,
    NvsWrite, ReadView, ValueView, WriteView,
};
use crate::text::{chars_of, digits, digits_of, is_digit, lemma_all_digits, lemma_digits, string_of};
use vstd::utf8::{encode_utf8, is_ascii_chars, is_ascii_chars_encode_utf8};

verus! {

/// The namespace of the settings.
pub const NAMESPACE: &'static str = "settings";

/// The buffer for the PIN, in bytes.
pub const PIN_CAP: usize = 16;

/// A PIN has at most so many digits.
pub const PIN_DIGITS: usize = 8;

/// The first eight digits of a text: what is kept of it as a PIN.
pub open spec fn sanitized(pin: Seq<char>) -> Seq<char> {
    let ds = digits_of(pin);
    if ds.len() > PIN_DIGITS {
        ds.take(PIN_DIGITS as int)
    } else {
        ds
    }
}

/// At most eight digits.
pub open spec fn is_pin(s: Seq<char>) -> bool {
    s.len() <= PIN_DIGITS && forall|i: int| 0 <= i < s.len() ==> is_digit(#[trigger] s[i])
}

/// The write of a PIN.
pub open spec fn pin_write(pin: Seq<char>) -> WriteView {
    WriteView { key: "pin"@, value: ValueView::Str(pin) }
}

/// The read of the PIN.
pub open spec fn pin_read_view() -> ReadView {
    ReadView::Str { key: "pin"@, cap: PIN_CAP as nat }
}

/// The first eight digits of a text.
pub fn sanitize_pin(pin: &str) -> (r: String)
    ensures
        r@ == sanitized(pin@),
{
    let ds = digits(pin);
    let cs = chars_of(ds.as_str());
    let to: usize = if cs.len() > PIN_DIGITS {
        PIN_DIGITS
    } else {
        cs.len()
    };
    let r = string_of(&cs, 0, to);
    assert(r@ =~= sanitized(pin@));
    r
}

/// The read of the PIN.
pub fn pin_read() -> (r: NvsRead)
    ensures
        r@ == pin_read_view(),
{
    get_str("pin", PIN_CAP)
}

/// The PIN that the answer to its read gives, empty where there is none. The
/// answer is none where the flash cannot be opened.
pub fn load_pin(a: Option<&NvsAnswer>) -> (r: String)
    ensures
        r@ == (match a {
            Some(a) => text_or(a@, ""@),
            None => ""@,
        }),
{
    match a {
        Some(a) => stored_text_or(a, ""),
        None => "".to_owned(),
    }
}

/// The settings screen.
pub struct SettingsScreenHandler {
    /// The PIN; empty where there is none.
    pub pin: String,
    /// The text that is being typed.
    pub editing_text: String,
}

/// What a change of the PIN leads to.
pub struct PinSaved {
    pub write: NvsWrite,
    /// For the log.
    pub message: &'static str,
}

impl SettingsScreenHandler {
    /// The screen with the stored PIN.
    pub fn new(stored: Option<&NvsAnswer>) -> (s: Self)
        ensures
            s.pin@ == (match stored {
                Some(a) => text_or(a@, ""@),
                None => ""@,
            }),
            s.editing_text@ == ""@,
    {
        SettingsScreenHandler { pin: load_pin(stored), editing_text: "".to_owned() }
    }

    /// Takes a new PIN, and tells what to write.
    pub fn save_pin(&mut self, pin: &str) -> (r: PinSaved)
        ensures
            final(self).pin@ == sanitized(pin@),
            final(self).editing_text == old(self).editing_text,
            r.write@ == pin_write(sanitized(pin@)),
            r.message@ == (if sanitized(pin@).len() == 0 {
                "Settings: PIN cleared"@
            } else {
                "Settings: PIN saved"@
            }),
    {
        let clean = sanitize_pin(pin);
        let message = if clean.as_str().is_empty() {
            "Settings: PIN cleared"
        } else {
            "Settings: PIN saved"
        };
        let write = put_str("pin", clean.as_str());
        self.pin = clean;
        PinSaved { write, message }
    }

    /// The DEL key.
    pub fn editing_delete_last(&mut self)
        ensures
            final(self).editing_text@ == without_last(old(self).editing_text@),
            final(self).pin == old(self).pin,
    {
        self.editing_text = delete_last_char(self.editing_text.as_str());
    }
}

/// What is kept of a text is a PIN, and a PIN is kept as it is.
pub proof fn sanitizing_gives_a_pin(s: Seq<char>)
    ensures
        is_pin(sanitized(s)),
        is_pin(s) ==> sanitized(s) == s,
{
    lemma_digits(s);
    if is_pin(s) {
        lemma_all_digits(s);
    }
    assert forall|i: int| 0 <= i < sanitized(s).len() implies is_digit(
        #[trigger] sanitized(s)[i],
    ) by {
        assert(sanitized(s)[i] == digits_of(s)[i]);
    }
}

/// A PIN takes one byte for each digit.
pub proof fn lemma_pin_bytes(s: Seq<char>)
    requires
        forall|i: int| 0 <= i < s.len() ==> is_digit(#[trigger] s[i]),
    ensures
        encode_utf8(s).len() == s.len(),
        !s.contains('\0'),
{
    assert forall|i: int| 0 <= i < s.len() implies '\0' <= #[trigger] s[i] <= '\x7f' by {
        assert(is_digit(s[i]));
    }
    assert(is_ascii_chars(s));
    is_ascii_chars_encode_utf8(s);
    if s.contains('\0') {
        let i = choose|i: int| 0 <= i < s.len() && s[i] == '\0';
        assert(is_digit(s[i]));
    }
}

/// The PIN that was set is the one that a restart loads.
pub proof fn pin_reads_back(image: Image, pin: Seq<char>)
    ensures
        text_or(answer(written(image, pin_write(sanitized(pin))), pin_read_view()), ""@)
            == sanitized(pin),
{
    sanitizing_gives_a_pin(pin);
    lemma_pin_bytes(sanitized(pin));
}

/// A PIN is the digits of what was typed, up to the eighth.
pub proof fn a_pin_is_the_first_eight_digits(s: Seq<char>, i: int)
    ensures
        digits_of(s).len() <= 8 ==> sanitized(s) == digits_of(s),
        digits_of(s).len() > 8 ==> sanitized(s).len() == 8,
        0 <= i < sanitized(s).len() ==> sanitized(s)[i] == digits_of(s)[i],
{
}

/// The PIN is kept in the namespace `settings`, under the key `pin`, and nothing else is
/// touched.
pub proof fn the_pin_is_kept(image: Image, pin: Seq<char>, other: Seq<char>)
    requires
        other != "pin"@,
    ensures
        ({
            let after = written(image, pin_write(sanitized(pin)));
            &&& NAMESPACE@ == "settings"@
            &&& after.dom().contains("pin"@)
            &&& after["pin"@] == ValueView::Str(sanitized(pin))
            &&& after.dom().contains(other) == image.dom().contains(other)
            &&& after[other] == image[other]
        }),
{
    sanitizing_gives_a_pin(pin);
    lemma_pin_bytes(sanitized(pin));
}

} // verus!
