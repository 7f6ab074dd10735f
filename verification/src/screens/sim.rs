//! The screen of the SIM card: its state, and the numbers that may command by
//! text message.
use vstd::prelude::*;

use super::{delete_last_char, without_last};
use crate::gsm::{is_listed, SimStatus, SimView};
use crate::number::{decimal, numeral_injective, to_decimal};
use crate::nvs::{
    all_written, answer, answers, fits, get_str, get_u8, lemma_distinct_writes, put_str, put_u8,
    storable, AnswerView, Image, NvsAnswer, NvsRead, NvsWrite, ReadView, ValueView, WriteView,
};
use crate::text::{join, lemma_views_push, same, trim, trimmed, views};

verus! {

/// The namespace of the list.
pub const NAMESPACE: &'static str = "sim";

/// How many numbers the list holds.
pub const MAX_WL: usize = 10;

/// The buffer for a number, in bytes.
pub const NUMBER_CAP: usize = 24;

// ── The list ────────────────────────────────────────────────────────────────

/// The list with one more number, without the white space around it. An empty
/// number, one that is there already and one too many are not taken.
pub open spec fn with_number(list: Seq<Seq<char>>, num: Seq<char>) -> Option<Seq<Seq<char>>> {
    let num = trimmed(num);
    if num.len() == 0 || list.len() >= MAX_WL || list.contains(num) {
        None
    } else {
        Some(list.push(num))
    }
}

/// The list without the number in a row.
pub open spec fn without_row(list: Seq<Seq<char>>, idx: int) -> Option<Seq<Seq<char>>> {
    if 0 <= idx < list.len() {
        Some(list.remove(idx))
    } else {
        None
    }
}

/// The key of a number.
pub open spec fn number_key(i: nat) -> Seq<char> {
    "wl"@ + decimal(i)
}

/// The read of the count.
pub open spec fn count_read_view() -> ReadView {
    ReadView::U8 { key: "wl_n"@ }
}

/// How many numbers are looked at: at most ten, none without a count.
pub open spec fn count_of(a: AnswerView) -> nat {
    match a {
        AnswerView::U8(n) => if n < MAX_WL {
            n as nat
        } else {
            MAX_WL as nat
        },
        _ => 0,
    }
}

/// The reads of the first `n` numbers.
pub open spec fn number_read_views(n: nat) -> Seq<ReadView> {
    Seq::new(
        n,
        |i: int| ReadView::Str { key: number_key(i as nat), cap: NUMBER_CAP as nat },
    )
}

/// The numbers of the first `n` answers; what cannot be read is left out.
pub open spec fn numbers_of(a: Seq<AnswerView>, n: nat) -> Seq<Seq<char>>
    decreases n,
{
    if n == 0 {
        Seq::empty()
    } else {
        let before = numbers_of(a, (n - 1) as nat);
        match a[n - 1] {
            AnswerView::Str(s) => before.push(s),
            _ => before,
        }
    }
}

/// The list that a restart loads.
pub open spec fn loaded(image: Image) -> Seq<Seq<char>> {
    let n = count_of(answer(image, count_read_view()));
    numbers_of(answers(image, number_read_views(n)), n)
}

/// What storing the list writes.
pub open spec fn list_writes(list: Seq<Seq<char>>) -> Seq<WriteView> {
    seq![WriteView { key: "wl_n"@, value: ValueView::U8((list.len() % 256) as u8) }] + Seq::new(
        list.len(),
        |i: int| WriteView { key: number_key(i as nat), value: ValueView::Str(list[i]) },
    )
}

fn numbered(i: usize) -> (r: String)
    ensures
        r@ == number_key(i as nat),
{
    join("wl", to_decimal(i as u64).as_str())
}

/// The read of the count.
pub fn count_read() -> (r: NvsRead)
    ensures
        r@ == count_read_view(),
{
    get_u8("wl_n")
}

/// How many numbers are looked at.
pub fn count_from(a: &NvsAnswer) -> (r: usize)
    ensures
        r == count_of(a@),
{
    match a {
        NvsAnswer::U8(n) => if (*n as usize) < MAX_WL {
            *n as usize
        } else {
            MAX_WL
        },
        _ => 0,
    }
}

/// The reads of the first `n` numbers.
pub fn number_reads(n: usize) -> (r: Vec<NvsRead>)
    ensures
        views(r@) == number_read_views(n as nat),
{
    let mut r: Vec<NvsRead> = Vec::new();
    let mut i: usize = 0;
    while i < n
        invariant
            i <= n,
            views(r@) =~= number_read_views(i as nat),
        decreases n - i,
    {
        let read = get_str(numbered(i).as_str(), NUMBER_CAP);
        proof {
            lemma_views_push(r@, read);
        }
        r.push(read);
        i = i + 1;
    }
    r
}

/// The list that the answers give.
pub fn load_whitelist(a: &Vec<NvsAnswer>) -> (r: Vec<String>)
    ensures
        views(r@) == numbers_of(views(a@), a@.len()),
        r@.len() <= a@.len(),
{
    let ghost av = views(a@);
    let mut r: Vec<String> = Vec::new();
    let mut i: usize = 0;
    assert(views(r@) =~= numbers_of(av, 0));
    while i < a.len()
        invariant
            i <= a@.len(),
            av == views(a@),
            views(r@) == numbers_of(av, i as nat),
            r@.len() <= i,
        decreases a@.len() - i,
    {
        assert(av[i as int] == a@[i as int]@);
        if let NvsAnswer::Str(s) = &a[i] {
            let s = s.clone();
            proof {
                lemma_views_push(r@, s);
            }
            r.push(s);
        }
        i = i + 1;
    }
    r
}

/// What storing the list writes.
pub fn save_whitelist(list: &Vec<String>) -> (r: Vec<NvsWrite>)
    ensures
        views(r@) == list_writes(views(list@)),
{
    let ghost lv = views(list@);
    let mut r: Vec<NvsWrite> = Vec::new();
    r.push(put_u8("wl_n", (list.len() % 256) as u8));
    let mut i: usize = 0;
    assert(views(r@) =~= list_writes(lv).take(1));
    while i < list.len()
        invariant
            i <= list@.len(),
            lv == views(list@),
            views(r@) == list_writes(lv).take(i + 1),
        decreases list@.len() - i,
    {
        assert(lv[i as int] == list@[i as int]@);
        let w = put_str(numbered(i).as_str(), list[i].as_str());
        proof {
            lemma_views_push(r@, w);
            assert(list_writes(lv)[i + 1] == w@);
            assert(list_writes(lv).take(i + 2) =~= list_writes(lv).take(i + 1).push(w@));
        }
        r.push(w);
        i = i + 1;
    }
    assert(list_writes(lv).take(i + 1) =~= list_writes(lv));
    r
}

fn holds(list: &Vec<String>, num: &str) -> (r: bool)
    ensures
        r == views(list@).contains(num@),
{
    let ghost lv = views(list@);
    let mut i: usize = 0;
    while i < list.len()
        invariant
            i <= list@.len(),
            lv == views(list@),
            forall|j: int| 0 <= j < i ==> lv[j] != num@,
        decreases list@.len() - i,
    {
        assert(lv[i as int] == list@[i as int]@);
        if same(list[i].as_str(), num) {
            assert(lv.contains(num@));
            return true;
        }
        i = i + 1;
    }
    false
}

/// Takes a number into the list, and tells what to write; none where it is not
/// taken.
pub fn whitelist_add(list: &mut Vec<String>, num: &str) -> (r: Option<Vec<NvsWrite>>)
    ensures
        match with_number(views(old(list)@), num@) {
            Some(after) => {
                &&& views(final(list)@) == after
                &&& r is Some
                &&& views(r->0@) == list_writes(after)
            },
            None => r is None && *final(list) == *old(list),
        },
{
    let num = trim(num);
    if num.as_str().is_empty() {
        return None;
    }
    assert(list@.len() == views(list@).len());
    if list.len() >= MAX_WL || holds(list, num.as_str()) {
        return None;
    }
    proof {
        lemma_views_push(list@, num);
    }
    list.push(num);
    Some(save_whitelist(list))
}

/// Strikes the number in a row, and tells what to write; none where there is no
/// such row.
pub fn whitelist_remove(list: &mut Vec<String>, idx: i32) -> (r: Option<Vec<NvsWrite>>)
    ensures
        match without_row(views(old(list)@), idx as int) {
            Some(after) => {
                &&& views(final(list)@) == after
                &&& r is Some
                &&& views(r->0@) == list_writes(after)
            },
            None => r is None && *final(list) == *old(list),
        },
{
    assert(list@.len() == views(list@).len());
    if idx < 0 || idx as usize >= list.len() {
        return None;
    }
    let ghost before = list@;
    let _ = list.remove(idx as usize);
    assert(views(list@) =~= views(before).remove(idx as int));
    Some(save_whitelist(list))
}

// ── The screen ──────────────────────────────────────────────────────────────

/// The screen of the SIM card.
pub struct SimScreenHandler {
    /// The state that is shown.
    pub status: SimStatus,
    /// The numbers that are shown.
    pub whitelist: Vec<String>,
    /// The text that is being typed.
    pub editing_text: String,
}

fn copied(list: &Vec<String>) -> (r: Vec<String>)
    ensures
        views(r@) == views(list@),
{
    let mut r: Vec<String> = Vec::new();
    let mut i: usize = 0;
    while i < list.len()
        invariant
            i <= list@.len(),
            views(r@) =~= views(list@).take(i as int),
        decreases list@.len() - i,
    {
        let s = list[i].clone();
        proof {
            lemma_views_push(r@, s);
        }
        r.push(s);
        i = i + 1;
    }
    assert(views(list@).take(i as int) =~= views(list@));
    r
}

impl SimScreenHandler {
    /// The screen with the stored list; the state is not known yet.
    pub fn new(saved: &Vec<String>) -> (s: Self)
        ensures
            views(s.whitelist@) == views(saved@),
            s.status@ == (SimView {
                msisdn: Seq::empty(),
                signal: Seq::empty(),
                reg: Seq::empty(),
                cpin: Seq::empty(),
            }),
            s.editing_text@ == ""@,
    {
        SimScreenHandler {
            status: SimStatus::default(),
            whitelist: copied(saved),
            editing_text: "".to_owned(),
        }
    }

    /// Shows the list.
    pub fn set_whitelist_ui(&mut self, list: &Vec<String>)
        ensures
            views(final(self).whitelist@) == views(list@),
            final(self).status == old(self).status,
            final(self).editing_text == old(self).editing_text,
    {
        self.whitelist = copied(list);
    }

    /// Shows the state.
    pub fn poll(&mut self, status: &SimStatus)
        ensures
            final(self).status@ == status@,
            final(self).whitelist == old(self).whitelist,
            final(self).editing_text == old(self).editing_text,
    {
        self.status = status.clone();
    }

    /// The DEL key.
    pub fn editing_delete_last(&mut self)
        ensures
            final(self).editing_text@ == without_last(old(self).editing_text@),
            final(self).status == old(self).status,
            final(self).whitelist == old(self).whitelist,
    {
        self.editing_text = delete_last_char(self.editing_text.as_str());
    }
}

// ── Laws ────────────────────────────────────────────────────────────────────

/// The list holds no number twice, no empty one, and at most ten.
pub open spec fn list_ok(list: Seq<Seq<char>>) -> bool {
    &&& list.len() <= MAX_WL
    &&& list.no_duplicates()
    &&& forall|i: int| 0 <= i < list.len() ==> (#[trigger] list[i]).len() > 0
}

/// Adding and striking keep the list in order; what was there keeps its place.
pub proof fn the_list_stays_in_order(list: Seq<Seq<char>>, num: Seq<char>, idx: int)
    requires
        list_ok(list),
    ensures
        with_number(list, num) matches Some(after) ==> list_ok(after) && after.drop_last() == list,
        without_row(list, idx) matches Some(after) ==> list_ok(after) && after.insert(
            idx,
            list[idx],
        ) == list,
{
    if let Some(after) = with_number(list, num) {
        assert(after.drop_last() =~= list);
        assert forall|i: int, j: int|
            0 <= i < after.len() && 0 <= j < after.len() && i != j implies after[i] != after[j] by {
            if i < list.len() && j < list.len() {
                assert(list[i] != list[j]);
            } else if i < list.len() {
                assert(list.contains(list[i]));
            } else {
                assert(list.contains(list[j]));
            }
        }
    }
    if let Some(after) = without_row(list, idx) {
        assert(after.insert(idx, list[idx]) =~= list);
        assert forall|i: int, j: int|
            0 <= i < after.len() && 0 <= j < after.len() && i != j implies after[i] != after[j] by {
            let oi = if i < idx { i } else { i + 1 };
            let oj = if j < idx { j } else { j + 1 };
            assert(after[i] == list[oi] && after[j] == list[oj]);
        }
        assert forall|i: int| 0 <= i < after.len() implies (#[trigger] after[i]).len() > 0 by {
            assert(after[i] == list[if i < idx { i } else { i + 1 }]);
        }
    }
}

/// Striking the number that was added last gives the list back.
pub proof fn striking_undoes_adding(list: Seq<Seq<char>>, num: Seq<char>)
    requires
        with_number(list, num) is Some,
    ensures
        without_row(with_number(list, num)->0, list.len() as int) == Some(list),
{
    let after = with_number(list, num)->0;
    assert(after.remove(list.len() as int) =~= list);
}

/// A number that was added may command, and so may all that could before.
pub proof fn an_added_number_may_command(list: Seq<Seq<char>>, num: Seq<char>, sender: Seq<char>)
    requires
        with_number(list, num) is Some,
    ensures
        is_listed(with_number(list, num)->0, trimmed(num)),
        is_listed(list, sender) ==> is_listed(with_number(list, num)->0, sender),
{
    let after = with_number(list, num)->0;
    assert(after[list.len() as int] == trimmed(num));
    if is_listed(list, sender) {
        let i = choose|i: int|
            0 <= i < list.len() && crate::gsm::normalized(#[trigger] list[i])
                == crate::gsm::normalized(sender);
        assert(after[i] == list[i]);
    }
}

/// Striking a number lets nobody command who could not before.
pub proof fn striking_lets_nobody_in(list: Seq<Seq<char>>, idx: int, sender: Seq<char>)
    requires
        without_row(list, idx) is Some,
    ensures
        is_listed(without_row(list, idx)->0, sender) ==> is_listed(list, sender),
{
    let after = without_row(list, idx)->0;
    if is_listed(after, sender) {
        let i = choose|i: int|
            0 <= i < after.len() && crate::gsm::normalized(#[trigger] after[i])
                == crate::gsm::normalized(sender);
        assert(after[i] == list[if i < idx { i } else { i + 1 }]);
    }
}

proof fn lemma_numbers_back(a: Seq<AnswerView>, list: Seq<Seq<char>>, n: nat)
    requires
        n <= list.len(),
        forall|i: int| 0 <= i < list.len() ==> #[trigger] a[i] == AnswerView::Str(list[i]),
    ensures
        numbers_of(a, n) == list.take(n as int),
    decreases n,
{
    if n == 0 {
        assert(list.take(0) =~= Seq::<Seq<char>>::empty());
    } else {
        lemma_numbers_back(a, list, (n - 1) as nat);
        assert(a[n - 1] == AnswerView::Str(list[n - 1]));
        assert(list.take(n as int) =~= list.take(n - 1).push(list[n - 1]));
    }
}

proof fn lemma_list_kept(image: Image, list: Seq<Seq<char>>, k: int)
    requires
        list.len() <= MAX_WL,
        forall|i: int| 0 <= i < list.len() ==> fits(#[trigger] list[i], NUMBER_CAP as nat),
    ensures
        ({
            let after = all_written(image, list_writes(list));
            &&& answer(after, ReadView::U8 { key: "wl_n"@ }) == AnswerView::U8(list.len() as u8)
            &&& 0 <= k < list.len() ==> answer(
                after,
                ReadView::Str { key: number_key(k as nat), cap: NUMBER_CAP as nat },
            ) == AnswerView::Str(list[k])
        }),
{
    let ws = list_writes(list);
    let after = all_written(image, ws);
    reveal_strlit("wl");
    reveal_strlit("wl_n");
    assert("wl_n"@[2] == '_');
    assert forall|i: int| 0 < i < ws.len() implies (#[trigger] ws[i]).key == number_key(
        (i - 1) as nat,
    ) && ws[i].value == ValueView::Str(list[i - 1]) by {}
    assert forall|i: int, j: int| 0 <= i < j < ws.len() implies (#[trigger] ws[i]).key != (
    #[trigger] ws[j]).key by {
        let kj = number_key((j - 1) as nat);
        assert(ws[j].key == kj);
        assert(kj.skip(2) =~= decimal((j - 1) as nat));
        crate::number::numeral_reads_back((j - 1) as nat, 10);
        if i == 0 {
            if ws[0].key == kj {
                assert(decimal((j - 1) as nat)[0] == '_');
                assert(crate::number::all_digits(decimal((j - 1) as nat), 10));
            }
        } else {
            let ki = number_key((i - 1) as nat);
            assert(ki.skip(2) =~= decimal((i - 1) as nat));
            if ki == kj {
                numeral_injective((i - 1) as nat, (j - 1) as nat, 10);
            }
        }
    }
    assert forall|i: int| 0 <= i < ws.len() implies ((#[trigger] ws[i]).value matches ValueView::Str(
        t,
    ) ==> storable(t)) by {
        if i > 0 {
            assert(fits(list[i - 1], NUMBER_CAP as nat));
        }
    }
    lemma_distinct_writes(image, ws);
    assert(ws[0].key == "wl_n"@);
    if 0 <= k < list.len() {
        assert(ws[k + 1].key == number_key(k as nat));
        assert(fits(list[k], NUMBER_CAP as nat));
    }
}

/// A stored list is read back as it was, if its numbers fit their buffer.
pub proof fn whitelist_reads_back(image: Image, list: Seq<Seq<char>>)
    requires
        list.len() <= MAX_WL,
        forall|i: int| 0 <= i < list.len() ==> fits(#[trigger] list[i], NUMBER_CAP as nat),
    ensures
        loaded(all_written(image, list_writes(list))) == list,
{
    let n = list.len();
    let after = all_written(image, list_writes(list));
    lemma_list_kept(image, list, 0);
    assert(count_of(answer(after, count_read_view())) == n);
    let rs = number_read_views(n);
    let a = answers(after, rs);
    assert forall|i: int| 0 <= i < list.len() implies #[trigger] a[i] == AnswerView::Str(
        list[i],
    ) by {
        lemma_list_kept(image, list, i);
        assert(a[i] == answer(after, rs[i]));
    }
    lemma_numbers_back(a, list, n);
    assert(list.take(n as int) =~= list);
}

/// Which numbers are taken into the list: without the white space around it, one that
/// is not empty and not in the list yet, as long as the list has fewer than ten. It
/// comes last, and the others stay.
pub proof fn a_number_is_taken(list: Seq<Seq<char>>, num: Seq<char>)
    ensures
        with_number(list, num) is Some <==> trimmed(num).len() > 0 && list.len() < 10 && (forall|
            i: int,
        |
            0 <= i < list.len() ==> #[trigger] list[i] != trimmed(num)),
        with_number(list, num) matches Some(after) ==> {
            &&& after.len() == list.len() + 1
            &&& after[list.len() as int] == trimmed(num)
            &&& forall|i: int| 0 <= i < list.len() ==> #[trigger] after[i] == list[i]
        },
{
    if with_number(list, num) is Some {
        assert forall|i: int| 0 <= i < list.len() implies #[trigger] list[i] != trimmed(num) by {
            assert(list.contains(list[i]));
        }
    }
}

/// A row that is there is struck, and those behind it move up; the others stay.
pub proof fn a_row_is_struck(list: Seq<Seq<char>>, idx: int)
    ensures
        without_row(list, idx) is Some <==> 0 <= idx < list.len(),
        without_row(list, idx) matches Some(after) ==> {
            &&& after.len() == list.len() - 1
            &&& forall|i: int| 0 <= i < idx ==> #[trigger] after[i] == list[i]
            &&& forall|i: int| idx <= i < after.len() ==> #[trigger] after[i] == list[i + 1]
        },
{
}

/// A number that was struck may not command any more, unless another row gives the
/// same number.
pub proof fn a_struck_number_may_not_command(list: Seq<Seq<char>>, idx: int)
    requires
        0 <= idx < list.len(),
        forall|i: int|
            0 <= i < list.len() && i != idx ==> crate::gsm::normalized(#[trigger] list[i])
                != crate::gsm::normalized(list[idx]),
    ensures
        !is_listed(without_row(list, idx)->0, list[idx]),
{
    let after = without_row(list, idx)->0;
    assert forall|i: int| 0 <= i < after.len() implies crate::gsm::normalized(#[trigger] after[i])
        != crate::gsm::normalized(list[idx]) by {
        let j = if i < idx { i } else { i + 1 };
        assert(after[i] == list[j]);
    }
}

/// The list is kept in the namespace `sim`, as its length under `wl_n` and its numbers under `wl0`, `wl1` and
/// so on, each of at most 23 bytes; a restart reads it back.
pub proof fn the_list_is_kept(image: Image, list: Seq<Seq<char>>, i: int)
    requires
        list.len() <= 10,
        forall|j: int|
            0 <= j < list.len() ==> vstd::utf8::encode_utf8(#[trigger] list[j]).len() < 24
                && !list[j].contains('\0'),
        0 <= i < list.len(),
    ensures
        ({
            let after = all_written(image, list_writes(list));
            &&& NAMESPACE@ == "sim"@
            &&& answer(after, ReadView::U8 { key: "wl_n"@ }) == AnswerView::U8(list.len() as u8)
            &&& answer(after, ReadView::Str { key: "wl"@ + decimal(i as nat), cap: 24 })
                == AnswerView::Str(list[i])
            &&& loaded(after) == list
        }),
{
    assert forall|j: int| 0 <= j < list.len() implies fits(#[trigger] list[j], NUMBER_CAP as nat) by {
        assert(vstd::utf8::encode_utf8(list[j]).len() < 24);
    }
    whitelist_reads_back(image, list);
    lemma_list_kept(image, list, i);
}

/// At most ten numbers are read, as many as the count says; none without a count.
/// What cannot be read is left out, the rest keeps its order.
pub proof fn at_most_ten_numbers_are_read(a: AnswerView, answers: Seq<AnswerView>, n: nat)
    requires
        0 < n <= answers.len(),
    ensures
        a matches AnswerView::U8(v) ==> count_of(a) == (if v <= 10 {
            v as int
        } else {
            10
        }),
        !(a is U8) ==> count_of(a) == 0,
        numbers_of(answers, 0).len() == 0,
        answers[n - 1] matches AnswerView::Str(s) ==> numbers_of(answers, n) == numbers_of(
            answers,
            (n - 1) as nat,
        ).push(s),
        !(answers[n - 1] is Str) ==> numbers_of(answers, n) == numbers_of(
            answers,
            (n - 1) as nat,
        ),
{
}

} // verus!
