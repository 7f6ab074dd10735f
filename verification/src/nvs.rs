//! The key-value flash storage, as the library sees it.
//!
//! The library says which keys to read and what to write; whoever owns the
//! flash carries the requests out and hands the answers back.
use vstd::prelude::*;
use vstd::utf8::encode_utf8;

verus! {

// ── Requests and answers ────────────────────────────────────────────────────

/// A value to be read. `cap` is the size of the buffer in bytes; a text ends in
/// the buffer with a zero byte.
pub enum NvsRead {
    Str { key: String, cap: usize },
    U8 { key: String },
    U32 { key: String },
}

/// What a read came back with.
pub enum NvsAnswer {
    /// The read failed; a text that does not fit its buffer is such a failure.
    Failed,
    /// The key holds nothing.
    Missing,
    Str(String),
    U8(u8),
    U32(u32),
}

/// A value to be written.
pub enum NvsValue {
    Str(String),
    U8(u8),
    U32(u32),
}

/// A value and the key that it is written under.
pub struct NvsWrite {
    pub key: String,
    pub value: NvsValue,
}

// ── Their models ────────────────────────────────────────────────────────────

pub ghost enum ReadView {
    Str { key: Seq<char>, cap: nat },
    U8 { key: Seq<char> },
    U32 { key: Seq<char> },
}

pub ghost enum AnswerView {
    Failed,
    Missing,
    Str(Seq<char>),
    U8(u8),
    U32(u32),
}

pub ghost enum ValueView {
    Str(Seq<char>),
    U8(u8),
    U32(u32),
}

pub ghost struct WriteView {
    pub key: Seq<char>,
    pub value: ValueView,
}

impl View for NvsRead {
    type V = ReadView;

    open spec fn view(&self) -> ReadView {
        match self {
            NvsRead::Str { key, cap } => ReadView::Str { key: key@, cap: *cap as nat },
            NvsRead::U8 { key } => ReadView::U8 { key: key@ },
            NvsRead::U32 { key } => ReadView::U32 { key: key@ },
        }
    }
}

impl View for NvsAnswer {
    type V = AnswerView;

    open spec fn view(&self) -> AnswerView {
        match self {
            NvsAnswer::Failed => AnswerView::Failed,
            NvsAnswer::Missing => AnswerView::Missing,
            NvsAnswer::Str(s) => AnswerView::Str(s@),
            NvsAnswer::U8(v) => AnswerView::U8(*v),
            NvsAnswer::U32(v) => AnswerView::U32(*v),
        }
    }
}

impl View for NvsValue {
    type V = ValueView;

    open spec fn view(&self) -> ValueView {
        match self {
            NvsValue::Str(s) => ValueView::Str(s@),
            NvsValue::U8(v) => ValueView::U8(*v),
            NvsValue::U32(v) => ValueView::U32(*v),
        }
    }
}

impl View for NvsWrite {
    type V = WriteView;

    open spec fn view(&self) -> WriteView {
        WriteView { key: self.key@, value: self.value@ }
    }
}

// ── The storage as a map ────────────────────────────────────────────────────

/// What a namespace of the flash holds.
pub type Image = Map<Seq<char>, ValueView>;

/// How many bytes a text takes in a buffer, its zero byte included.
pub open spec fn stored_len(s: Seq<char>) -> nat {
    encode_utf8(s).len() + 1
}

/// The longest text that the flash takes, in bytes, its zero byte included.
pub const MAX_TEXT: usize = 4000;

/// The flash keeps texts that end with a zero byte, so it takes none that holds
/// one, nor one that is too long.
pub open spec fn storable(s: Seq<char>) -> bool {
    !s.contains('\0') && stored_len(s) <= MAX_TEXT
}

/// A text that can be written, and read back into a buffer of `cap` bytes.
pub open spec fn fits(s: Seq<char>, cap: nat) -> bool {
    storable(s) && stored_len(s) <= cap
}

/// The namespace after one write. A text with a zero byte in it is refused at
/// once; for another text the key is cleared first, and stays so where the text
/// is too long.
pub open spec fn written(image: Image, w: WriteView) -> Image {
    match w.value {
        ValueView::Str(s) if s.contains('\0') => image,
        ValueView::Str(s) if !storable(s) => image.remove(w.key),
        _ => image.insert(w.key, w.value),
    }
}

/// The namespace after the writes in their order.
pub open spec fn all_written(image: Image, ws: Seq<WriteView>) -> Image
    decreases ws.len(),
{
    if ws.len() == 0 {
        image
    } else {
        written(all_written(image, ws.drop_last()), ws.last())
    }
}

/// What a read comes back with.
pub open spec fn answer(image: Image, r: ReadView) -> AnswerView {
    match r {
        ReadView::Str { key, cap } => if image.dom().contains(key) {
            match image[key] {
                ValueView::Str(s) if stored_len(s) <= cap => AnswerView::Str(s),
                _ => AnswerView::Failed,
            }
        } else {
            AnswerView::Missing
        },
        ReadView::U8 { key } => if image.dom().contains(key) {
            match image[key] {
                ValueView::U8(v) => AnswerView::U8(v),
                _ => AnswerView::Failed,
            }
        } else {
            AnswerView::Missing
        },
        ReadView::U32 { key } => if image.dom().contains(key) {
            match image[key] {
                ValueView::U32(v) => AnswerView::U32(v),
                _ => AnswerView::Failed,
            }
        } else {
            AnswerView::Missing
        },
    }
}

/// What the reads come back with, in their order.
pub open spec fn answers(image: Image, rs: Seq<ReadView>) -> Seq<AnswerView> {
    rs.map_values(|r: ReadView| answer(image, r))
}

/// The writes in a row are the writes one part after the other.
pub proof fn lemma_written_in_parts(image: Image, a: Seq<WriteView>, b: Seq<WriteView>)
    ensures
        all_written(image, a + b) == all_written(all_written(image, a), b),
    decreases b.len(),
{
    if b.len() == 0 {
        assert(a + b =~= a);
    } else {
        assert((a + b).drop_last() =~= a + b.drop_last());
        assert((a + b).last() == b.last());
        lemma_written_in_parts(image, a, b.drop_last());
    }
}

/// Writes under keys that differ all stand.
pub proof fn lemma_distinct_writes(image: Image, ws: Seq<WriteView>)
    requires
        forall|i: int, j: int|
            0 <= i < j < ws.len() ==> (#[trigger] ws[i]).key != (#[trigger] ws[j]).key,
        forall|i: int|
            0 <= i < ws.len() ==> ((#[trigger] ws[i]).value matches ValueView::Str(s)
                ==> storable(s)),
    ensures
        forall|i: int|
            0 <= i < ws.len() ==> all_written(image, ws).dom().contains((#[trigger] ws[i]).key)
                && all_written(image, ws)[ws[i].key] == ws[i].value,
        forall|k: Seq<char>|
            (forall|i: int| 0 <= i < ws.len() ==> (#[trigger] ws[i]).key != k) ==> (
            all_written(image, ws).dom().contains(k) == #[trigger] image.dom().contains(k)
                && all_written(image, ws)[k] == image[k]),
    decreases ws.len(),
{
    if ws.len() > 0 {
        let init = ws.drop_last();
        assert(forall|i: int| 0 <= i < init.len() ==> init[i] == ws[i]);
        lemma_distinct_writes(image, init);
        let n = ws.len() - 1;
        assert(ws.last() == ws[n]);
        let after = all_written(image, ws);
        assert(after == all_written(image, init).insert(ws[n].key, ws[n].value));
        assert forall|i: int| 0 <= i < ws.len() implies after.dom().contains(
            (#[trigger] ws[i]).key,
        ) && after[ws[i].key] == ws[i].value by {
            if i < n {
                assert(init[i] == ws[i]);
            }
        }
        assert forall|k: Seq<char>|
            (forall|i: int| 0 <= i < ws.len() ==> (#[trigger] ws[i]).key != k) implies (
        after.dom().contains(k) == #[trigger] image.dom().contains(k) && after[k] == image[k]) by {
            assert(ws[n].key != k);
            assert(forall|i: int| 0 <= i < init.len() ==> (#[trigger] init[i]).key != k);
        }
    }
}

// ── Reading answers ─────────────────────────────────────────────────────────

/// The text of an answer where there is one, else `default`.
pub open spec fn text_or(a: AnswerView, default: Seq<char>) -> Seq<char> {
    match a {
        AnswerView::Str(s) => s,
        _ => default,
    }
}

/// The text of an answer where there is one, else `default`.
pub fn stored_text_or(a: &NvsAnswer, default: &str) -> (r: String)
    ensures
        r@ == text_or(a@, default@),
{
    match a {
        NvsAnswer::Str(s) => s.clone(),
        _ => default.to_owned(),
    }
}

/// Writes a text under `key`.
pub fn put_str(key: &str, value: &str) -> (w: NvsWrite)
    ensures
        w@ == (WriteView { key: key@, value: ValueView::Str(value@) }),
{
    NvsWrite { key: key.to_owned(), value: NvsValue::Str(value.to_owned()) }
}

/// Writes a byte under `key`.
pub fn put_u8(key: &str, value: u8) -> (w: NvsWrite)
    ensures
        w@ == (WriteView { key: key@, value: ValueView::U8(value) }),
{
    NvsWrite { key: key.to_owned(), value: NvsValue::U8(value) }
}

/// Writes a number under `key`.
pub fn put_u32(key: &str, value: u32) -> (w: NvsWrite)
    ensures
        w@ == (WriteView { key: key@, value: ValueView::U32(value) }),
{
    NvsWrite { key: key.to_owned(), value: NvsValue::U32(value) }
}

/// Reads a text under `key` into a buffer of `cap` bytes.
pub fn get_str(key: &str, cap: usize) -> (r: NvsRead)
    ensures
        r@ == (ReadView::Str { key: key@, cap: cap as nat }),
{
    NvsRead::Str { key: key.to_owned(), cap }
}

/// Reads a byte under `key`.
pub fn get_u8(key: &str) -> (r: NvsRead)
    ensures
        r@ == (ReadView::U8 { key: key@ }),
{
    NvsRead::U8 { key: key.to_owned() }
}

/// Reads a number under `key`.
pub fn get_u32(key: &str) -> (r: NvsRead)
    ensures
        r@ == (ReadView::U32 { key: key@ }),
{
    NvsRead::U32 { key: key.to_owned() }
}

} // verus!
