//! Text as a sequence of characters: the small vocabulary that the parsers and
//! the screens are written in.
use vstd::prelude::*;

verus! {

/// Appends one character: `String::push`, as its documentation says.
pub assume_specification[ String::push ](s: &mut String, c: char)
    ensures
        final(s)@ == old(s)@.push(c),
;

/// The Unicode property White_Space, character by character.
pub open spec fn is_white_space(c: char) -> bool {
    let n = c as u32;
    ||| 0x9 <= n <= 0xd
    ||| n == 0x20
    ||| n == 0x85
    ||| n == 0xa0
    ||| n == 0x1680
    ||| 0x2000 <= n <= 0x200a
    ||| n == 0x2028
    ||| n == 0x2029
    ||| n == 0x202f
    ||| n == 0x205f
    ||| n == 0x3000
}

/// Whether a character has the property White_Space.
pub fn is_space(c: char) -> (r: bool)
    ensures
        r == is_white_space(c),
{
    let n = c as u32;
    (0x9 <= n && n <= 0xd) || n == 0x20 || n == 0x85 || n == 0xa0 || n == 0x1680 || (0x2000 <= n
        && n <= 0x200a) || n == 0x2028 || n == 0x2029 || n == 0x202f || n == 0x205f || n == 0x3000
}

/// The models of the items of a sequence.
pub open spec fn views<T: View>(items: Seq<T>) -> Seq<T::V> {
    items.map_values(|t: T| t@)
}

/// The model of an optional value.
pub open spec fn opt_view<T: View>(o: Option<T>) -> Option<T::V> {
    match o {
        Some(t) => Some(t@),
        None => None,
    }
}

pub proof fn lemma_views_push<T: View>(items: Seq<T>, t: T)
    ensures
        views(items.push(t)) == views(items).push(t@),
{
    assert(views(items.push(t)) =~= views(items).push(t@));
}

/// The characters of `s`.
pub fn chars_of(s: &str) -> (cs: Vec<char>)
    ensures
        cs@ == s@,
{
    let mut cs: Vec<char> = Vec::new();
    for c in it: s.chars()
        invariant
            cs@ == it.seq().take(it.index()),
            it.seq() == s@,
    {
        cs.push(c);
    }
    cs
}

/// The text with the characters `cs[from..to]`.
pub fn string_of(cs: &Vec<char>, from: usize, to: usize) -> (s: String)
    requires
        from <= to <= cs@.len(),
    ensures
        s@ == cs@.subrange(from as int, to as int),
{
    let mut s = String::new();
    let mut i: usize = from;
    while i < to
        invariant
            from <= i <= to <= cs@.len(),
            s@ == cs@.subrange(from as int, i as int),
        decreases to - i,
    {
        s.push(cs[i]);
        i = i + 1;
    }
    s
}

/// Whether two texts are the same.
pub fn same(a: &str, b: &str) -> (r: bool)
    ensures
        r == (a@ == b@),
{
    a.to_owned() == b.to_owned()
}

/// The two texts in a row.
pub fn join(a: &str, b: &str) -> (r: String)
    ensures
        r@ == a@ + b@,
{
    let mut r = a.to_owned();
    r.append(b);
    r
}

/// `prefix`, `middle` and `suffix` in a row.
pub fn join3(prefix: &str, middle: &str, suffix: &str) -> (r: String)
    ensures
        r@ == prefix@ + middle@ + suffix@,
{
    let mut r = prefix.to_owned();
    r.append(middle);
    r.append(suffix);
    r
}

// ── Searching ───────────────────────────────────────────────────────────────

/// `pat` stands in `s` at position `i`.
pub open spec fn occurs_at(s: Seq<char>, pat: Seq<char>, i: int) -> bool {
    0 <= i && i + pat.len() <= s.len() && s.subrange(i, i + pat.len()) == pat
}

/// `pat` stands somewhere in `s`.
pub open spec fn contains(s: Seq<char>, pat: Seq<char>) -> bool {
    exists|i: int| occurs_at(s, pat, i)
}

/// The first position at or after `from` at which `pat` stands in `s`.
pub open spec fn seek(s: Seq<char>, pat: Seq<char>, from: int) -> Option<int>
    decreases s.len() - from + 1,
{
    if from < 0 || from + pat.len() > s.len() {
        None
    } else if occurs_at(s, pat, from) {
        Some(from)
    } else {
        seek(s, pat, from + 1)
    }
}

fn occurs(cs: &Vec<char>, pat: &Vec<char>, i: usize) -> (r: bool)
    requires
        i <= cs@.len(),
    ensures
        r == occurs_at(cs@, pat@, i as int),
{
    let n = cs.len();
    if pat.len() > n - i {
        return false;
    }
    let mut k: usize = 0;
    while k < pat.len()
        invariant
            k <= pat@.len(),
            i + pat@.len() <= cs@.len(),
            n == cs@.len(),
            forall|j: int| 0 <= j < k ==> cs@[i + j] == #[trigger] pat@[j],
        decreases pat@.len() - k,
    {
        if cs[i + k] != pat[k] {
            assert(cs@.subrange(i as int, i + pat@.len())[k as int] != pat@[k as int]);
            return false;
        }
        k = k + 1;
    }
    assert(cs@.subrange(i as int, i + pat@.len()) =~= pat@);
    true
}

/// Whether `pat` stands somewhere in `s`.
pub fn has(s: &str, pat: &str) -> (r: bool)
    ensures
        r == contains(s@, pat@),
{
    let cs = chars_of(s);
    let ps = chars_of(pat);
    let mut i: usize = 0;
    loop
        invariant
            i <= cs@.len(),
            cs@ == s@,
            ps@ == pat@,
            forall|j: int| 0 <= j < i ==> !occurs_at(s@, pat@, j),
        decreases cs@.len() - i,
    {
        if occurs(&cs, &ps, i) {
            return true;
        }
        if i == cs.len() {
            return false;
        }
        i = i + 1;
    }
}

/// `s` begins with `prefix`.
pub open spec fn begins_with(s: Seq<char>, prefix: Seq<char>) -> bool {
    occurs_at(s, prefix, 0)
}

/// Whether `s` begins with `prefix`.
pub fn starts(s: &str, prefix: &str) -> (r: bool)
    ensures
        r == begins_with(s@, prefix@),
{
    occurs(&chars_of(s), &chars_of(prefix), 0)
}

// ── Splitting ───────────────────────────────────────────────────────────────

/// The pieces of `s` from position `from` on, cut at each `sep`.
pub open spec fn pieces(s: Seq<char>, sep: Seq<char>, from: int) -> Seq<Seq<char>>
    recommends
        0 <= from <= s.len(),
    decreases s.len() - from,
{
    match seek(s, sep, from) {
        Some(i) if from <= i < i + sep.len() <= s.len() => seq![s.subrange(from, i)]
            + pieces(s, sep, i + sep.len()),
        _ => seq![s.subrange(from, s.len() as int)],
    }
}

/// The fields of `s` that `sep` parts.
pub open spec fn fields(s: Seq<char>, sep: Seq<char>) -> Seq<Seq<char>> {
    pieces(s, sep, 0)
}

/// The fields of `s` that `sep` parts, as `str::split` gives them.
pub fn split(s: &str, sep: &str) -> (r: Vec<String>)
    requires
        sep@.len() > 0,
    ensures
        views(r@) == fields(s@, sep@),
{
    let cs = chars_of(s);
    let ps = chars_of(sep);
    let mut out: Vec<String> = Vec::new();
    let mut start: usize = 0;
    let mut i: usize = 0;
    assert(views(out@) =~= Seq::<Seq<char>>::empty());
    assert(views(out@) + pieces(s@, sep@, 0) =~= fields(s@, sep@));
    while ps.len() <= cs.len() - i
        invariant
            start <= i <= cs@.len(),
            cs@ == s@,
            ps@ == sep@,
            sep@.len() > 0,
            seek(s@, sep@, start as int) == seek(s@, sep@, i as int),
            views(out@) + pieces(s@, sep@, start as int) == fields(s@, sep@),
        decreases cs@.len() - i,
    {
        if occurs(&cs, &ps, i) {
            let piece = string_of(&cs, start, i);
            proof {
                lemma_views_push(out@, piece);
                assert(views(out@) + (seq![piece@] + pieces(s@, sep@, i + sep@.len()))
                    =~= views(out@).push(piece@) + pieces(s@, sep@, i + sep@.len()));
            }
            out.push(piece);
            start = i + ps.len();
            i = start;
        } else {
            i = i + 1;
        }
    }
    let last = string_of(&cs, start, cs.len());
    proof {
        lemma_views_push(out@, last);
        assert(views(out@) + seq![last@] =~= views(out@).push(last@));
    }
    out.push(last);
    out
}

// ── Lines ───────────────────────────────────────────────────────────────────

/// A line without the carriage return that stood before its line feed.
pub open spec fn without_cr(line: Seq<char>) -> Seq<char> {
    if line.len() > 0 && line.last() == '\r' {
        line.drop_last()
    } else {
        line
    }
}

/// The lines of `s` from position `from` on. A line ends with a line feed, or
/// with a carriage return and a line feed; the last line may end without.
pub open spec fn lines_from(s: Seq<char>, from: int) -> Seq<Seq<char>>
    decreases s.len() - from,
{
    if from < 0 || from >= s.len() {
        Seq::empty()
    } else {
        match seek(s, seq!['\n'], from) {
            Some(i) if from <= i < s.len() => seq![without_cr(s.subrange(from, i))]
                + lines_from(s, i + 1),
            _ => seq![s.subrange(from, s.len() as int)],
        }
    }
}

/// The lines of `s`.
pub open spec fn lines_of(s: Seq<char>) -> Seq<Seq<char>> {
    lines_from(s, 0)
}

/// The lines of `s`, as `str::lines` gives them.
pub fn lines(s: &str) -> (r: Vec<String>)
    ensures
        views(r@) == lines_of(s@),
{
    let cs = chars_of(s);
    let mut out: Vec<String> = Vec::new();
    let mut start: usize = 0;
    let mut i: usize = 0;
    assert(views(out@) =~= Seq::<Seq<char>>::empty());
    assert(views(out@) + lines_from(s@, 0) =~= lines_of(s@));
    while i < cs.len()
        invariant
            start <= i <= cs@.len(),
            cs@ == s@,
            start < i ==> start < cs@.len(),
            seek(s@, seq!['\n'], start as int) == seek(s@, seq!['\n'], i as int),
            views(out@) + lines_from(s@, start as int) == lines_of(s@),
        decreases cs@.len() - i,
    {
        assert(occurs_at(s@, seq!['\n'], i as int) == (s@[i as int] == '\n')) by {
            let one = s@.subrange(i as int, i + 1);
            assert(one.len() == 1 && one[0] == s@[i as int]);
            if s@[i as int] == '\n' {
                assert(one =~= seq!['\n']);
            } else {
                assert(seq!['\n'][0] == '\n');
            }
        }
        if cs[i] == '\n' {
            let end = if i > start && cs[i - 1] == '\r' {
                i - 1
            } else {
                i
            };
            let line = string_of(&cs, start, end);
            proof {
                let whole = s@.subrange(start as int, i as int);
                assert(line@ =~= without_cr(whole));
                lemma_views_push(out@, line);
                assert(views(out@) + (seq![line@] + lines_from(s@, i + 1)) =~= views(out@).push(
                    line@,
                ) + lines_from(s@, i + 1));
            }
            out.push(line);
            start = i + 1;
        }
        i = i + 1;
    }
    if start < cs.len() {
        let line = string_of(&cs, start, cs.len());
        proof {
            lemma_views_push(out@, line);
            assert(views(out@) + seq![line@] =~= views(out@).push(line@));
        }
        out.push(line);
    }
    out
}

// ── Trimming ────────────────────────────────────────────────────────────────

/// `s` without the white space at its beginning.
pub open spec fn trimmed_start(s: Seq<char>) -> Seq<char>
    decreases s.len(),
{
    if s.len() > 0 && is_white_space(s[0]) {
        trimmed_start(s.drop_first())
    } else {
        s
    }
}

/// `s` without the white space at its end.
pub open spec fn trimmed_end(s: Seq<char>) -> Seq<char>
    decreases s.len(),
{
    if s.len() > 0 && is_white_space(s.last()) {
        trimmed_end(s.drop_last())
    } else {
        s
    }
}

/// `s` without the white space at its two ends.
pub open spec fn trimmed(s: Seq<char>) -> Seq<char> {
    trimmed_end(trimmed_start(s))
}

/// `s` without the white space at its two ends, as `str::trim` gives it.
pub fn trim(s: &str) -> (r: String)
    ensures
        r@ == trimmed(s@),
{
    let cs = chars_of(s);
    let mut from: usize = 0;
    assert(s@.skip(0) =~= s@);
    while from < cs.len() && is_space(cs[from])
        invariant
            from <= cs@.len(),
            cs@ == s@,
            trimmed_start(s@.skip(from as int)) == trimmed_start(s@),
        decreases cs@.len() - from,
    {
        assert(s@.skip(from as int).drop_first() =~= s@.skip(from + 1));
        from = from + 1;
    }
    let mut to: usize = cs.len();
    assert(trimmed_start(s@) == s@.skip(from as int));
    assert(s@.subrange(from as int, to as int) =~= s@.skip(from as int));
    while to > from && is_space(cs[to - 1])
        invariant
            from <= to <= cs@.len(),
            cs@ == s@,
            trimmed_end(s@.subrange(from as int, to as int)) == trimmed(s@),
        decreases to,
    {
        assert(s@.subrange(from as int, to as int).drop_last() =~= s@.subrange(
            from as int,
            to - 1,
        ));
        to = to - 1;
    }
    string_of(&cs, from, to)
}

/// `s` without any number of `prefix` at its beginning.
pub open spec fn without_prefixes(s: Seq<char>, prefix: Seq<char>) -> Seq<char>
    decreases s.len(),
{
    if prefix.len() > 0 && begins_with(s, prefix) {
        without_prefixes(s.skip(prefix.len() as int), prefix)
    } else {
        s
    }
}

/// `s` without any number of `prefix` at its beginning, as
/// `str::trim_start_matches` gives it.
pub fn strip_prefixes(s: &str, prefix: &str) -> (r: String)
    requires
        prefix@.len() > 0,
    ensures
        r@ == without_prefixes(s@, prefix@),
{
    let cs = chars_of(s);
    let ps = chars_of(prefix);
    let n = cs.len();
    let mut from: usize = 0;
    assert(s@.skip(0) =~= s@);
    loop
        invariant
            from <= cs@.len(),
            n == cs@.len(),
            cs@ == s@,
            ps@ == prefix@,
            prefix@.len() > 0,
            without_prefixes(s@.skip(from as int), prefix@) == without_prefixes(s@, prefix@),
        ensures
            from <= cs@.len(),
            s@.skip(from as int) == without_prefixes(s@, prefix@),
        decreases cs@.len() - from,
    {
        assert(occurs_at(s@, prefix@, from as int) == begins_with(
            s@.skip(from as int),
            prefix@,
        )) by {
            let rest = s@.skip(from as int);
            if prefix@.len() <= rest.len() {
                assert(rest.subrange(0, prefix@.len() as int) =~= s@.subrange(
                    from as int,
                    from + prefix@.len(),
                ));
            }
        }
        if !occurs(&cs, &ps, from) {
            break;
        }
        assert(s@.skip(from as int).skip(prefix@.len() as int) =~= s@.skip(from + prefix@.len()));
        from = from + ps.len();
    }
    assert(s@.skip(from as int) =~= s@.subrange(from as int, s@.len() as int));
    string_of(&cs, from, n)
}

/// A mark that ends a phrase: a comma, a full stop or a semicolon.
pub open spec fn is_mark(c: char) -> bool {
    c == ',' || c == '.' || c == ';'
}

/// `s` without the marks at its end.
pub open spec fn without_marks(s: Seq<char>) -> Seq<char>
    decreases s.len(),
{
    if s.len() > 0 && is_mark(s.last()) {
        without_marks(s.drop_last())
    } else {
        s
    }
}

/// `s` without the marks at its end.
pub fn strip_marks(s: &str) -> (r: String)
    ensures
        r@ == without_marks(s@),
{
    let cs = chars_of(s);
    let mut to: usize = cs.len();
    assert(s@.subrange(0, to as int) =~= s@);
    while to > 0 && (cs[to - 1] == ',' || cs[to - 1] == '.' || cs[to - 1] == ';')
        invariant
            to <= cs@.len(),
            cs@ == s@,
            without_marks(s@.subrange(0, to as int)) == without_marks(s@),
        decreases to,
    {
        assert(s@.subrange(0, to as int).drop_last() =~= s@.subrange(0, to - 1));
        to = to - 1;
    }
    string_of(&cs, 0, to)
}

// ── Words ───────────────────────────────────────────────────────────────────

/// How many characters at the beginning of `s` are not white space.
pub open spec fn word_len(s: Seq<char>) -> nat
    decreases s.len(),
{
    if s.len() == 0 || is_white_space(s[0]) {
        0
    } else {
        1 + word_len(s.drop_first())
    }
}

pub proof fn lemma_word_len(s: Seq<char>, k: int)
    requires
        0 <= k <= s.len(),
        forall|j: int| 0 <= j < k ==> !is_white_space(s[j]),
        k < s.len() ==> is_white_space(s[k]),
    ensures
        word_len(s) == k,
    decreases s.len(),
{
    if k > 0 {
        assert forall|j: int| 0 <= j < k - 1 implies !is_white_space(s.drop_first()[j]) by {
            assert(s.drop_first()[j] == s[j + 1]);
        }
        lemma_word_len(s.drop_first(), k - 1);
    }
}

/// The words of `s`: what white space parts.
pub open spec fn words_of(s: Seq<char>) -> Seq<Seq<char>>
    decreases s.len(),
{
    if s.len() == 0 {
        Seq::empty()
    } else if is_white_space(s[0]) {
        words_of(s.drop_first())
    } else {
        let k = word_len(s) as int;
        if 0 < k <= s.len() {
            seq![s.take(k)] + words_of(s.skip(k))
        } else {
            Seq::empty()
        }
    }
}

/// The words of `s`, as `str::split_whitespace` gives them.
pub fn words(s: &str) -> (r: Vec<String>)
    ensures
        views(r@) == words_of(s@),
{
    let cs = chars_of(s);
    let mut out: Vec<String> = Vec::new();
    let mut i: usize = 0;
    assert(views(out@) =~= Seq::<Seq<char>>::empty());
    assert(s@.skip(0) =~= s@);
    assert(views(out@) + words_of(s@) =~= words_of(s@));
    while i < cs.len()
        invariant
            i <= cs@.len(),
            cs@ == s@,
            views(out@) + words_of(s@.skip(i as int)) == words_of(s@),
        decreases cs@.len() - i,
    {
        let ghost rest = s@.skip(i as int);
        if is_space(cs[i]) {
            assert(rest.drop_first() =~= s@.skip(i + 1));
            i = i + 1;
        } else {
            let start = i;
            while i < cs.len() && !is_space(cs[i])
                invariant
                    start <= i <= cs@.len(),
                    cs@ == s@,
                    forall|j: int| start <= j < i ==> !is_white_space(#[trigger] cs@[j]),
                decreases cs@.len() - i,
            {
                i = i + 1;
            }
            let word = string_of(&cs, start, i);
            proof {
                let k = i - start;
                assert(!is_white_space(rest[0]));
                assert(k > 0);
                assert forall|j: int| 0 <= j < k implies !is_white_space(rest[j]) by {
                    assert(rest[j] == cs@[start + j]);
                }
                lemma_word_len(rest, k);
                assert(rest.take(k) =~= word@);
                assert(rest.skip(k) =~= s@.skip(i as int));
                lemma_views_push(out@, word);
                assert(views(out@) + (seq![word@] + words_of(s@.skip(i as int))) =~= views(
                    out@,
                ).push(word@) + words_of(s@.skip(i as int)));
            }
            out.push(word);
        }
    }
    assert(s@.skip(i as int).len() == 0);
    assert(views(out@) + Seq::<Seq<char>>::empty() =~= views(out@));
    out
}

// ── Characters ──────────────────────────────────────────────────────────────

/// An ASCII digit.
pub open spec fn is_digit(c: char) -> bool {
    '0' <= c <= '9'
}

/// The digits of `s`, in their order.
pub open spec fn digits_of(s: Seq<char>) -> Seq<char> {
    s.filter(|c: char| is_digit(c))
}

/// The digits of `s`, in their order.
pub fn digits(s: &str) -> (r: String)
    ensures
        r@ == digits_of(s@),
{
    let cs = chars_of(s);
    let mut out = String::new();
    let mut i: usize = 0;
    reveal(Seq::filter);
    assert(s@.take(0) =~= Seq::<char>::empty());
    while i < cs.len()
        invariant
            i <= cs@.len(),
            cs@ == s@,
            out@ == digits_of(s@.take(i as int)),
        decreases cs@.len() - i,
    {
        reveal(Seq::filter);
        assert(s@.take(i + 1).drop_last() =~= s@.take(i as int));
        if '0' <= cs[i] && cs[i] <= '9' {
            out.push(cs[i]);
        }
        i = i + 1;
    }
    assert(s@.take(i as int) =~= s@);
    out
}

/// The digits of a text are digits.
pub proof fn lemma_digits(s: Seq<char>)
    ensures
        forall|i: int| 0 <= i < digits_of(s).len() ==> is_digit(#[trigger] digits_of(s)[i]),
    decreases s.len(),
{
    reveal(Seq::filter);
    if s.len() > 0 {
        lemma_digits(s.drop_last());
    }
}

/// The digits of a text of digits are the text.
pub proof fn lemma_all_digits(s: Seq<char>)
    requires
        forall|i: int| 0 <= i < s.len() ==> is_digit(#[trigger] s[i]),
    ensures
        digits_of(s) == s,
    decreases s.len(),
{
    reveal(Seq::filter);
    if s.len() > 0 {
        lemma_all_digits(s.drop_last());
        assert(s.drop_last().push(s.last()) =~= s);
    } else {
        assert(digits_of(s) =~= s);
    }
}

/// `n` times the character `c`.
pub open spec fn repeated(c: char, n: nat) -> Seq<char> {
    Seq::new(n, |i: int| c)
}

/// `n` times the character `c`.
pub fn repeat(c: char, n: usize) -> (r: String)
    ensures
        r@ == repeated(c, n as nat),
{
    let mut r = String::new();
    let mut i: usize = 0;
    assert(r@ =~= repeated(c, 0));
    while i < n
        invariant
            i <= n,
            r@ == repeated(c, i as nat),
        decreases n - i,
    {
        assert(repeated(c, i as nat).push(c) =~= repeated(c, (i + 1) as nat));
        r.push(c);
        i = i + 1;
    }
    r
}

/// `s` filled up with `c` on its left to `width` characters.
pub open spec fn padded(s: Seq<char>, width: nat, c: char) -> Seq<char> {
    if s.len() >= width {
        s
    } else {
        repeated(c, (width - s.len()) as nat) + s
    }
}

/// `s` filled up with `c` on its left to `width` characters.
pub fn pad(s: &str, width: usize, c: char) -> (r: String)
    ensures
        r@ == padded(s@, width as nat, c),
{
    let n = s.unicode_len();
    if n >= width {
        s.to_owned()
    } else {
        join(repeat(c, width - n).as_str(), s)
    }
}

// ── Laws ────────────────────────────────────────────────────────────────────

/// What a search finds is the first place at or after `from`, and it finds none
/// just where there is none.
pub proof fn the_first_place_is_found(s: Seq<char>, pat: Seq<char>, from: int)
    requires
        0 <= from,
    ensures
        seek(s, pat, from) matches Some(i) ==> {
            &&& from <= i <= i + pat.len() <= s.len()
            &&& s.subrange(i, i + pat.len()) == pat
            &&& forall|j: int| from <= j < i ==> !#[trigger] occurs_at(s, pat, j)
        },
        seek(s, pat, from) is None ==> forall|j: int|
            from <= j ==> !#[trigger] occurs_at(s, pat, j),
    decreases s.len() - from + 1,
{
    if from + pat.len() <= s.len() && !occurs_at(s, pat, from) {
        the_first_place_is_found(s, pat, from + 1);
    }
}

/// A text stands in another just where the other is it with something before and
/// behind, which may be empty.
pub proof fn what_stands_in_a_text(before: Seq<char>, pat: Seq<char>, behind: Seq<char>, s: Seq<char>)
    ensures
        contains(before + pat + behind, pat),
        begins_with(pat + behind, pat),
        contains(s, pat) ==> exists|i: int|
            0 <= i && i + pat.len() <= s.len() && s == #[trigger] s.take(i) + pat + s.skip(
                i + pat.len(),
            ),
        begins_with(s, pat) ==> s == pat + s.skip(pat.len() as int),
        s.len() < pat.len() ==> !contains(s, pat) && !begins_with(s, pat),
{
    let whole = before + pat + behind;
    let at = before.len() as int;
    assert(whole.subrange(at, at + pat.len()) =~= pat);
    assert(occurs_at(whole, pat, at));
    assert((pat + behind).subrange(0, pat.len() as int) =~= pat);
    if contains(s, pat) {
        let i = choose|i: int| occurs_at(s, pat, i);
        assert(s =~= s.take(i) + s.subrange(i, i + pat.len()) + s.skip(i + pat.len()));
    }
    if begins_with(s, pat) {
        assert(s =~= s.subrange(0, pat.len() as int) + s.skip(pat.len() as int));
    }
}

/// The parts in a row, with `sep` between each two.
pub open spec fn joined(parts: Seq<Seq<char>>, sep: Seq<char>) -> Seq<char>
    decreases parts.len(),
{
    if parts.len() == 0 {
        Seq::empty()
    } else if parts.len() == 1 {
        parts[0]
    } else {
        parts[0] + sep + joined(parts.drop_first(), sep)
    }
}

proof fn lemma_pieces(s: Seq<char>, sep: Seq<char>, from: int)
    requires
        0 <= from <= s.len(),
        sep.len() > 0,
    ensures
        pieces(s, sep, from).len() > 0,
        joined(pieces(s, sep, from), sep) == s.skip(from),
        forall|k: int|
            0 <= k < pieces(s, sep, from).len() ==> !contains(
                #[trigger] pieces(s, sep, from)[k],
                sep,
            ),
    decreases s.len() - from,
{
    the_first_place_is_found(s, sep, from);
    let ps = pieces(s, sep, from);
    match seek(s, sep, from) {
        Some(i) => {
            let next = i + sep.len();
            let rest = pieces(s, sep, next);
            lemma_pieces(s, sep, next);
            let first = s.subrange(from, i);
            assert(ps == seq![first] + rest);
            assert(ps.drop_first() =~= rest);
            assert(s.skip(from) =~= first + s.subrange(i, next) + s.skip(next));
            assert(!contains(first, sep)) by {
                if contains(first, sep) {
                    let j = choose|j: int| occurs_at(first, sep, j);
                    assert(s.subrange(from + j, from + j + sep.len()) =~= first.subrange(
                        j,
                        j + sep.len(),
                    ));
                    assert(occurs_at(s, sep, from + j));
                }
            }
            assert forall|k: int| 0 <= k < ps.len() implies !contains(#[trigger] ps[k], sep) by {
                if k > 0 {
                    assert(ps[k] == rest[k - 1]);
                }
            }
        },
        None => {
            let last = s.subrange(from, s.len() as int);
            assert(last =~= s.skip(from));
            assert(ps == seq![last]);
            if contains(last, sep) {
                let j = choose|j: int| occurs_at(last, sep, j);
                assert(s.subrange(from + j, from + j + sep.len()) =~= last.subrange(
                    j,
                    j + sep.len(),
                ));
                assert(occurs_at(s, sep, from + j));
            }
        },
    }
}

/// Splitting loses nothing and leaves nothing to split: the fields, joined by the
/// separator, are the text, and no field holds the separator.
pub proof fn fields_join_back(s: Seq<char>, sep: Seq<char>)
    requires
        sep.len() > 0,
    ensures
        fields(s, sep).len() > 0,
        joined(fields(s, sep), sep) == s,
        forall|k: int|
            0 <= k < fields(s, sep).len() ==> !contains(#[trigger] fields(s, sep)[k], sep),
{
    lemma_pieces(s, sep, 0);
    assert(s.skip(0) =~= s);
}

proof fn lemma_seek_shift(s: Seq<char>, pat: Seq<char>, cut: int, from: int)
    requires
        0 <= cut <= from <= s.len(),
        pat.len() > 0,
    ensures
        seek(s, pat, from) == match seek(s.skip(cut), pat, from - cut) {
            Some(i) => Some(i + cut),
            None => None,
        },
    decreases s.len() - from + 1,
{
    let t = s.skip(cut);
    if from + pat.len() <= s.len() {
        assert(s.subrange(from, from + pat.len()) =~= t.subrange(
            from - cut,
            from - cut + pat.len(),
        ));
        if !occurs_at(s, pat, from) {
            lemma_seek_shift(s, pat, cut, from + 1);
        }
    }
}

proof fn lemma_pieces_shift(s: Seq<char>, sep: Seq<char>, cut: int, from: int)
    requires
        0 <= cut <= from <= s.len(),
        sep.len() > 0,
    ensures
        pieces(s, sep, from) == pieces(s.skip(cut), sep, from - cut),
    decreases s.len() - from,
{
    let t = s.skip(cut);
    lemma_seek_shift(s, sep, cut, from);
    the_first_place_is_found(s, sep, from);
    match seek(s, sep, from) {
        Some(i) => {
            lemma_pieces_shift(s, sep, cut, i + sep.len());
            assert(s.subrange(from, i) =~= t.subrange(from - cut, i - cut));
        },
        None => {
            assert(s.subrange(from, s.len() as int) =~= t.subrange(from - cut, t.len() as int));
        },
    }
}

/// The first field ends at the first separator: what stands before it is the first
/// field, and the fields of what stands behind follow. A text without a separator is
/// its only field.
pub proof fn a_separator_parts(a: Seq<char>, sep: Seq<char>, b: Seq<char>)
    requires
        sep.len() > 0,
    ensures
        (forall|j: int| 0 <= j < a.len() ==> !#[trigger] occurs_at(a + sep + b, sep, j)) ==> fields(
            a + sep + b,
            sep,
        ) == seq![a] + fields(b, sep),
        !contains(a, sep) ==> fields(a, sep) == seq![a],
{
    let s = a + sep + b;
    if forall|j: int| 0 <= j < a.len() ==> !#[trigger] occurs_at(s, sep, j) {
        let at = a.len() as int;
        assert(s.subrange(at, at + sep.len()) =~= sep);
        assert(occurs_at(s, sep, at));
        the_first_place_is_found(s, sep, 0);
        let i = seek(s, sep, 0)->0;
        assert(occurs_at(s, sep, i));
        assert(i == at);
        lemma_pieces_shift(s, sep, at + sep.len(), at + sep.len());
        assert(s.skip(at + sep.len()) =~= b);
        assert(s.subrange(0, at) =~= a);
    }
    if !contains(a, sep) {
        the_first_place_is_found(a, sep, 0);
        if let Some(i) = seek(a, sep, 0) {
            assert(occurs_at(a, sep, i));
        }
        assert(a.subrange(0, a.len() as int) =~= a);
    }
}

/// A separator of one character parts where it stands.
pub proof fn a_character_parts(a: Seq<char>, sep: Seq<char>, b: Seq<char>)
    requires
        sep.len() == 1,
        !a.contains(sep[0]),
    ensures
        fields(a + sep + b, sep) == seq![a] + fields(b, sep),
        fields(a, sep) == seq![a],
{
    let s = a + sep + b;
    assert forall|j: int| 0 <= j < a.len() implies !#[trigger] occurs_at(s, sep, j) by {
        if occurs_at(s, sep, j) {
            assert(s.subrange(j, j + 1)[0] == s[j]);
            assert(a[j] == sep[0]);
        }
    }
    assert(!contains(a, sep)) by {
        if contains(a, sep) {
            let j = choose|j: int| occurs_at(a, sep, j);
            assert(a.subrange(j, j + 1)[0] == a[j]);
            assert(a[j] == sep[0]);
        }
    }
    a_separator_parts(a, sep, b);
}

proof fn lemma_lines_shift(s: Seq<char>, cut: int, from: int)
    requires
        0 <= cut <= from <= s.len(),
    ensures
        lines_from(s, from) == lines_from(s.skip(cut), from - cut),
    decreases s.len() - from,
{
    let t = s.skip(cut);
    if from < s.len() {
        lemma_seek_shift(s, seq!['\n'], cut, from);
        the_first_place_is_found(s, seq!['\n'], from);
        match seek(s, seq!['\n'], from) {
            Some(i) => {
                lemma_lines_shift(s, cut, i + 1);
                assert(s.subrange(from, i) =~= t.subrange(from - cut, i - cut));
            },
            None => {
                assert(s.subrange(from, s.len() as int) =~= t.subrange(
                    from - cut,
                    t.len() as int,
                ));
            },
        }
    }
}

/// A line feed ends a line, and a carriage return before it belongs to the end, too;
/// the lines of what stands behind follow. What stands behind the last line feed is a
/// line unless it is empty, and keeps its carriage return.
pub proof fn a_line_feed_ends_a_line(a: Seq<char>, b: Seq<char>)
    requires
        !a.contains('\n'),
    ensures
        lines_of(a + seq!['\n'] + b) == seq![
            if a.len() > 0 && a[a.len() - 1] == '\r' {
                a.take(a.len() - 1)
            } else {
                a
            },
        ] + lines_of(b),
        a.len() > 0 ==> lines_of(a) == seq![a],
        lines_of(Seq::empty()) == Seq::<Seq<char>>::empty(),
{
    let nl = seq!['\n'];
    let s = a + nl + b;
    let at = a.len() as int;
    the_first_place_is_found(s, nl, 0);
    assert(s.subrange(at, at + 1) =~= nl);
    assert(occurs_at(s, nl, at));
    assert forall|j: int| 0 <= j < a.len() implies !#[trigger] occurs_at(s, nl, j) by {
        if occurs_at(s, nl, j) {
            assert(s.subrange(j, j + 1)[0] == s[j]);
            assert(a[j] == '\n');
        }
    }
    let i = seek(s, nl, 0)->0;
    assert(occurs_at(s, nl, i));
    assert(i == at);
    lemma_lines_shift(s, at + 1, at + 1);
    assert(s.skip(at + 1) =~= b);
    assert(s.subrange(0, at) =~= a);
    if a.len() > 0 {
        assert(a.take(a.len() - 1) =~= a.drop_last());
        the_first_place_is_found(a, nl, 0);
        if let Some(i) = seek(a, nl, 0) {
            assert(a.subrange(i, i + 1)[0] == a[i]);
            assert(a[i] == '\n');
        }
        assert(a.subrange(0, a.len() as int) =~= a);
    }
}

/// Every character is white space.
pub open spec fn all_white(s: Seq<char>) -> bool {
    forall|i: int| 0 <= i < s.len() ==> is_white_space(#[trigger] s[i])
}

proof fn lemma_trimmed_start(white: Seq<char>, rest: Seq<char>)
    requires
        all_white(white),
        rest.len() > 0 ==> !is_white_space(rest[0]),
    ensures
        trimmed_start(white + rest) == rest,
    decreases white.len(),
{
    if white.len() > 0 {
        assert((white + rest)[0] == white[0]);
        assert((white + rest).drop_first() =~= white.drop_first() + rest);
        assert forall|i: int| 0 <= i < white.drop_first().len() implies is_white_space(
            #[trigger] white.drop_first()[i],
        ) by {
            assert(white.drop_first()[i] == white[i + 1]);
        }
        lemma_trimmed_start(white.drop_first(), rest);
    } else {
        assert(white + rest =~= rest);
    }
}

proof fn lemma_trimmed_end(rest: Seq<char>, white: Seq<char>)
    requires
        all_white(white),
        rest.len() > 0 ==> !is_white_space(rest[rest.len() - 1]),
    ensures
        trimmed_end(rest + white) == rest,
    decreases white.len(),
{
    if white.len() > 0 {
        assert((rest + white).last() == white[white.len() - 1]);
        assert((rest + white).drop_last() =~= rest + white.drop_last());
        assert forall|i: int| 0 <= i < white.drop_last().len() implies is_white_space(
            #[trigger] white.drop_last()[i],
        ) by {
            assert(white.drop_last()[i] == white[i]);
        }
        lemma_trimmed_end(rest, white.drop_last());
    } else {
        assert(rest + white =~= rest);
    }
}

/// Trimming takes off just the white space at the two ends: what begins and ends with
/// something else comes out of any white space around it, and blank text comes out
/// empty.
pub proof fn trimming_takes_off_white_space(before: Seq<char>, s: Seq<char>, behind: Seq<char>)
    requires
        all_white(before),
        all_white(behind),
        s.len() > 0 ==> !is_white_space(s[0]) && !is_white_space(s[s.len() - 1]),
    ensures
        trimmed(before + s + behind) == s,
{
    if s.len() > 0 {
        assert((s + behind)[0] == s[0]);
        lemma_trimmed_start(before, s + behind);
        assert(before + s + behind =~= before + (s + behind));
        lemma_trimmed_end(s, behind);
    } else {
        assert(before + s + behind =~= (before + behind) + s);
        assert forall|i: int| 0 <= i < (before + behind).len() implies is_white_space(
            #[trigger] (before + behind)[i],
        ) by {
            if i < before.len() {
                assert((before + behind)[i] == before[i]);
            } else {
                assert((before + behind)[i] == behind[i - before.len()]);
            }
        }
        lemma_trimmed_start(before + behind, s);
        assert(trimmed_end(s) == s);
    }
}

proof fn lemma_start_is_cut(s: Seq<char>)
    ensures
        exists|i: int|
            0 <= i <= s.len() && trimmed_start(s) == #[trigger] s.skip(i) && all_white(s.take(i)),
        trimmed_start(s).len() > 0 ==> !is_white_space(trimmed_start(s)[0]),
    decreases s.len(),
{
    if s.len() > 0 && is_white_space(s[0]) {
        let t = s.drop_first();
        lemma_start_is_cut(t);
        let i = choose|i: int|
            0 <= i <= t.len() && trimmed_start(t) == #[trigger] t.skip(i) && all_white(t.take(i));
        assert(s.skip(i + 1) =~= t.skip(i));
        assert forall|j: int| 0 <= j < s.take(i + 1).len() implies is_white_space(
            #[trigger] s.take(i + 1)[j],
        ) by {
            if j > 0 {
                assert(s.take(i + 1)[j] == t.take(i)[j - 1]);
            }
        }
    } else {
        assert(s.skip(0) =~= s);
        assert(all_white(s.take(0)));
    }
}

proof fn lemma_end_is_cut(s: Seq<char>)
    ensures
        exists|i: int|
            0 <= i <= s.len() && trimmed_end(s) == #[trigger] s.take(i) && all_white(s.skip(i)),
        trimmed_end(s).len() > 0 ==> !is_white_space(trimmed_end(s)[trimmed_end(s).len() - 1]),
    decreases s.len(),
{
    if s.len() > 0 && is_white_space(s.last()) {
        let t = s.drop_last();
        lemma_end_is_cut(t);
        let i = choose|i: int|
            0 <= i <= t.len() && trimmed_end(t) == #[trigger] t.take(i) && all_white(t.skip(i));
        assert(s.take(i) =~= t.take(i));
        assert forall|j: int| 0 <= j < s.skip(i).len() implies is_white_space(
            #[trigger] s.skip(i)[j],
        ) by {
            if j < t.skip(i).len() {
                assert(s.skip(i)[j] == t.skip(i)[j]);
            }
        }
    } else {
        assert(s.take(s.len() as int) =~= s);
        assert(all_white(s.skip(s.len() as int)));
    }
}

/// What comes out of trimming stands in the text between white space, and begins and
/// ends with something else.
pub proof fn what_is_trimmed_stands_in_the_text(s: Seq<char>)
    ensures
        trimmed(s).len() > 0 ==> !is_white_space(trimmed(s)[0]) && !is_white_space(
            trimmed(s)[trimmed(s).len() - 1],
        ),
        exists|i: int, j: int|
            0 <= i <= j <= s.len() && trimmed(s) == #[trigger] s.subrange(i, j) && all_white(
                s.take(i),
            ) && all_white(s.skip(j)),
{
    lemma_start_is_cut(s);
    let t = trimmed_start(s);
    lemma_end_is_cut(t);
    let i = choose|i: int|
        0 <= i <= s.len() && trimmed_start(s) == #[trigger] s.skip(i) && all_white(s.take(i));
    let k = choose|k: int|
        0 <= k <= t.len() && trimmed_end(t) == #[trigger] t.take(k) && all_white(t.skip(k));
    assert(s.subrange(i, i + k) =~= t.take(k));
    assert(s.skip(i + k) =~= t.skip(k));
    if k > 0 {
        assert(trimmed(s)[0] == t[0]);
    }
}

/// Of the ASCII characters, the blank and those from the tabulator to the carriage
/// return are white space.
pub proof fn ascii_white_space(c: char)
    requires
        c <= '\x7f',
    ensures
        is_white_space(c) <==> c == ' ' || c == '\t' || c == '\n' || c == '\x0b' || c == '\x0c'
            || c == '\r',
{
}

/// The characters that are white space beyond ASCII: the next-line character, the
/// no-break space, the spaces of other scripts and typography, and the two separators.
pub proof fn other_white_space(c: char)
    requires
        c > '\x7f',
    ensures
        is_white_space(c) <==> c == '\u{85}' || c == '\u{a0}' || c == '\u{1680}' || '\u{2000}' <= c
            <= '\u{200a}' || c == '\u{2028}' || c == '\u{2029}' || c == '\u{202f}' || c
            == '\u{205f}' || c == '\u{3000}',
{
}

/// Any number of prefixes comes off, and only whole ones: behind them the text is
/// left as it is.
pub proof fn prefixes_come_off(prefix: Seq<char>, s: Seq<char>)
    requires
        prefix.len() > 0,
    ensures
        without_prefixes(prefix + s, prefix) == without_prefixes(s, prefix),
        !begins_with(s, prefix) ==> without_prefixes(s, prefix) == s,
        !begins_with(without_prefixes(s, prefix), prefix),
    decreases s.len(),
{
    let t = prefix + s;
    assert(t.subrange(0, prefix.len() as int) =~= prefix);
    assert(t.skip(prefix.len() as int) =~= s);
    if begins_with(s, prefix) {
        prefixes_come_off(prefix, s.skip(prefix.len() as int));
    }
}

/// The commas, full stops and semicolons at the end come off, and nothing else.
pub proof fn marks_come_off(s: Seq<char>, c: char)
    ensures
        c == ',' || c == '.' || c == ';' ==> without_marks(s.push(c)) == without_marks(s),
        !(c == ',' || c == '.' || c == ';') ==> without_marks(s.push(c)) == s.push(c),
        without_marks(Seq::empty()) == Seq::<char>::empty(),
{
    assert(s.push(c).drop_last() =~= s);
}

proof fn lemma_one_word(w: Seq<char>, rest: Seq<char>)
    requires
        w.len() > 0,
        forall|i: int| 0 <= i < w.len() ==> !is_white_space(#[trigger] w[i]),
        rest.len() > 0 ==> is_white_space(rest[0]),
    ensures
        words_of(w + rest) == seq![w] + words_of(rest),
{
    let s = w + rest;
    assert forall|j: int| 0 <= j < w.len() implies !is_white_space(s[j]) by {
        assert(s[j] == w[j]);
    }
    if rest.len() > 0 {
        assert(s[w.len() as int] == rest[0]);
    }
    lemma_word_len(s, w.len() as int);
    assert(!is_white_space(s[0]));
    assert(s.take(w.len() as int) =~= w);
    assert(s.skip(w.len() as int) =~= rest);
}

/// White space parts words, however much of it: what holds none is one word, white
/// space before a text gives no word, and behind a word the words of the rest follow.
pub proof fn white_space_parts_words(w: Seq<char>, c: char, rest: Seq<char>)
    requires
        w.len() > 0,
        forall|i: int| 0 <= i < w.len() ==> !is_white_space(#[trigger] w[i]),
        is_white_space(c),
    ensures
        words_of(w) == seq![w],
        words_of(w + seq![c] + rest) == seq![w] + words_of(rest),
        words_of(seq![c] + rest) == words_of(rest),
        words_of(Seq::empty()) == Seq::<Seq<char>>::empty(),
{
    let none = Seq::<char>::empty();
    assert(w + none =~= w);
    lemma_one_word(w, none);
    assert(seq![w] + words_of(none) =~= seq![w]);
    let spaced = seq![c] + rest;
    assert(spaced[0] == c);
    assert(spaced.drop_first() =~= rest);
    assert(w + seq![c] + rest =~= w + spaced);
    lemma_one_word(w, spaced);
}

/// Each digit of a text stays, in its place among the others, and nothing else does.
pub proof fn digits_stay(s: Seq<char>, c: char)
    ensures
        '0' <= c <= '9' ==> digits_of(s.push(c)) == digits_of(s).push(c),
        c < '0' || c > '9' ==> digits_of(s.push(c)) == digits_of(s),
        digits_of(Seq::empty()) == Seq::<char>::empty(),
{
    reveal(Seq::filter);
    assert(s.push(c).drop_last() =~= s);
}

/// A padded text has the width, or its own length where that is more; it ends with
/// the text, and only the padding stands before it.
pub proof fn padding_fills_up(s: Seq<char>, width: nat, c: char)
    ensures
        s.len() >= width ==> padded(s, width, c) == s,
        s.len() < width ==> padded(s, width, c).len() == width,
        s.len() < width ==> padded(s, width, c).skip(width - s.len()) == s,
        forall|i: int| 0 <= i < width - s.len() ==> #[trigger] padded(s, width, c)[i] == c,
{
    if s.len() < width {
        assert(padded(s, width, c).skip(width - s.len()) =~= s);
    }
}

} // verus!
