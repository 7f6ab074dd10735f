//! The GSM modem: its answers, and commands by text message.
use vstd::prelude::*;
use vstd::utf8::{decode_utf8, valid_utf8};

use crate::control::ControlCmd;
use crate::number::{
    decimal, parse_i32, parse_u32, parse_u8, parsed, parsed_signed, signed_decimal, to_decimal,
    to_signed_decimal,
};
use crate::text::{
    begins_with, contains, digits, digits_of, fields, has, is_digit, join, join3,
    lemma_all_digits, lemma_digits, lemma_views_push, lines, lines_of, opt_view, same, split,
    starts, strip_marks, strip_prefixes, trim, trimmed, views, without_marks, without_prefixes,
    words, words_of,
};

verus! {

// ── Outside calls ───────────────────────────────────────────────────────────

/// What `str::to_lowercase` makes of a text.
pub uninterp spec fn lowercase(s: Seq<char>) -> Seq<char>;

/// A letter of the English or the Russian alphabet, or another ASCII character.
pub open spec fn is_plain(c: char) -> bool {
    c <= '\x7f' || 'А' <= c <= 'я' || c == 'Ё' || c == 'ё'
}

/// All characters of a text are such.
pub open spec fn all_plain(s: Seq<char>) -> bool {
    forall|i: int| 0 <= i < s.len() ==> is_plain(#[trigger] s[i])
}

/// An English or Russian capital letter made small; another character as it is.
pub open spec fn small_letter(c: char) -> char {
    if 'A' <= c <= 'Z' || 'А' <= c <= 'Я' {
        (c as u32 + 32) as char
    } else if c == 'Ё' {
        'ё'
    } else {
        c
    }
}

/// A text with its English and Russian capital letters made small.
pub open spec fn small_letters(s: Seq<char>) -> Seq<char> {
    s.map_values(|c: char| small_letter(c))
}

/// `str::to_lowercase`: the text in small letters, by the rules of Unicode. Of
/// what those rules are, only the part for texts of English and Russian letters
/// and other ASCII characters is stated.
#[verifier::external_body]
fn to_lowercase(s: &str) -> (r: String)
    ensures
        r@ == lowercase(s@),
        all_plain(s@) ==> r@ == small_letters(s@),
{
    s.to_lowercase()
}

/// What `String::from_utf8_lossy` makes of bytes.
pub uninterp spec fn lossy_text(bytes: Seq<u8>) -> Seq<char>;

/// `String::from_utf8_lossy`: the text that the bytes encode; where they are no
/// UTF-8, replacement characters stand in it.
#[verifier::external_body]
fn from_utf8_lossy(bytes: &[u8]) -> (r: String)
    ensures
        r@ == lossy_text(bytes@),
        valid_utf8(bytes@) ==> r@ == decode_utf8(bytes@),
{
    String::from_utf8_lossy(bytes).into_owned()
}

// ── Talking to the modem ────────────────────────────────────────────────────

/// Text messages in text form.
pub const TEXT_MODE: &'static str = "AT+CMGF=1";

/// Asks for the signal.
pub const ASK_SIGNAL: &'static str = "AT+CSQ";

/// Asks for the registration.
pub const ASK_REGISTRATION: &'static str = "AT+CREG?";

/// Asks for the state of the card.
pub const ASK_PIN: &'static str = "AT+CPIN?";

/// Asks for the unread messages.
pub const ASK_UNREAD: &'static str = "AT+CMGL=\"REC UNREAD\"";

/// Asks for the card's own number.
pub const ASK_NUMBER: &'static str = "AT+CNUM";

/// Asks the operator for the number.
pub const ASK_OPERATOR: &'static str = "AT+CUSD=1,\"*103#\",15";

/// A request as it is sent: the command and the end of its line.
pub fn request(cmd: &str) -> (r: String)
    ensures
        r@ == cmd@ + "\r\n"@,
{
    join(cmd, "\r\n")
}

/// What the modem answered; none where it sent nothing.
pub fn at_reply(bytes: &[u8]) -> (r: Option<String>)
    ensures
        opt_view(r) == (if bytes@.len() == 0 {
            None
        } else {
            Some(lossy_text(bytes@))
        }),
        bytes@.len() > 0 && valid_utf8(bytes@) ==> opt_view(r) == Some(decode_utf8(bytes@)),
{
    if bytes.len() == 0 {
        None
    } else {
        Some(from_utf8_lossy(bytes))
    }
}

/// An answer that is read in chunks until a marker stands in it.
pub struct MarkerReader {
    acc: String,
    marker: String,
}

impl MarkerReader {
    /// What has come so far.
    pub closed spec fn text(&self) -> Seq<char> {
        self.acc@
    }

    /// What the answer is to hold.
    pub closed spec fn awaited(&self) -> Seq<char> {
        self.marker@
    }

    pub fn new(marker: &str) -> (m: Self)
        ensures
            m.text() == Seq::<char>::empty(),
            m.awaited() == marker@,
    {
        MarkerReader { acc: String::new(), marker: marker.to_owned() }
    }

    /// Takes a chunk, which may be empty. Gives the answer once the marker
    /// stands in it.
    pub fn feed(&mut self, chunk: &[u8]) -> (r: Option<String>)
        ensures
            final(self).awaited() == old(self).awaited(),
            final(self).text() == (if chunk@.len() > 0 {
                old(self).text() + lossy_text(chunk@)
            } else {
                old(self).text()
            }),
            opt_view(r) == (if contains(final(self).text(), old(self).awaited()) {
                Some(final(self).text())
            } else {
                None
            }),
    {
        if chunk.len() > 0 {
            let more = from_utf8_lossy(chunk);
            self.acc.append(more.as_str());
        }
        if has(self.acc.as_str(), self.marker.as_str()) {
            Some(self.acc.clone())
        } else {
            None
        }
    }
}

// ── Numbers ─────────────────────────────────────────────────────────────────

/// The digits of a phone number; eleven of them that begin with 8 are written
/// with 7 instead.
pub open spec fn normalized(n: Seq<char>) -> Seq<char> {
    let d = digits_of(n);
    if d.len() == 11 && d[0] == '8' {
        seq!['7'] + d.skip(1)
    } else {
        d
    }
}

/// The digits of a phone number, the 8 of a domestic one made a 7.
pub fn normalize_number(n: &str) -> (r: String)
    ensures
        r@ == normalized(n@),
{
    let d = digits(n);
    if d.as_str().unicode_len() == 11 && d.as_str().get_char(0) == '8' {
        let rest = d.as_str().substring_char(1, 11);
        proof {
            reveal_strlit("7");
            assert("7"@ =~= seq!['7']);
            assert(rest@ =~= d@.skip(1));
        }
        join("7", rest)
    } else {
        d
    }
}

/// Whether two numbers are the same, however they are written.
pub fn numbers_match(a: &str, b: &str) -> (r: bool)
    ensures
        r == (normalized(a@) == normalized(b@)),
{
    same(normalize_number(a).as_str(), normalize_number(b).as_str())
}

/// The sender is on the list.
pub open spec fn is_listed(whitelist: Seq<Seq<char>>, sender: Seq<char>) -> bool {
    exists|i: int|
        0 <= i < whitelist.len() && normalized(#[trigger] whitelist[i]) == normalized(sender)
}

/// Whether the sender is on the list.
pub fn is_allowed(whitelist: &Vec<String>, sender: &str) -> (r: bool)
    ensures
        r == is_listed(views(whitelist@), sender@),
{
    let mut i: usize = 0;
    let ghost wl = views(whitelist@);
    while i < whitelist.len()
        invariant
            i <= whitelist@.len(),
            wl == views(whitelist@),
            forall|j: int|
                0 <= j < i ==> normalized(#[trigger] wl[j]) != normalized(sender@),
        decreases whitelist@.len() - i,
    {
        assert(wl[i as int] == whitelist@[i as int]@);
        if numbers_match(whitelist[i].as_str(), sender) {
            return true;
        }
        i = i + 1;
    }
    false
}

// ── Text messages ───────────────────────────────────────────────────────────

/// A text message: its place in the modem, its sender and what it says.
pub struct Sms {
    pub idx: u32,
    pub sender: String,
    pub text: String,
}

/// The model of a text message.
pub ghost struct SmsView {
    pub idx: u32,
    pub sender: Seq<char>,
    pub text: Seq<char>,
}

impl View for Sms {
    type V = SmsView;

    open spec fn view(&self) -> SmsView {
        SmsView { idx: self.idx, sender: self.sender@, text: self.text@ }
    }
}

/// The `n`-th of the texts; empty where there are not so many.
pub open spec fn nth_or_empty(xs: Seq<Seq<char>>, n: int) -> Seq<char> {
    if 0 <= n < xs.len() {
        xs[n]
    } else {
        Seq::empty()
    }
}

/// The first line from the `k`-th on that is not blank, trimmed; empty where
/// all are.
pub open spec fn first_text(ls: Seq<Seq<char>>, k: int) -> Seq<char>
    decreases ls.len() - k,
{
    if k < 0 || k >= ls.len() {
        Seq::empty()
    } else if trimmed(ls[k]).len() > 0 {
        trimmed(ls[k])
    } else {
        first_text(ls, k + 1)
    }
}

/// The message of one entry of the list. The entry's first line is its header,
/// such as `1,"REC UNREAD","+79001234567","","24/01/01,12:00:00+12"`; the
/// message is the next line that is not blank.
pub open spec fn sms_of(entry: Seq<char>) -> SmsView {
    let ls = lines_of(entry);
    let header = trimmed(nth_or_empty(ls, 0));
    SmsView {
        idx: match parsed(trimmed(fields(header, ","@)[0]), u32::MAX as nat) {
            Some(v) => v as u32,
            None => 0,
        },
        sender: nth_or_empty(fields(header, "\""@), 3),
        text: first_text(ls, 1),
    }
}

/// The messages of the first `n` pieces of a list; the first piece is what
/// stands before the first entry, and entries without a sender are left out.
pub open spec fn sms_in(pieces: Seq<Seq<char>>, n: nat) -> Seq<SmsView>
    decreases n,
{
    if n <= 1 {
        Seq::empty()
    } else {
        let before = sms_in(pieces, (n - 1) as nat);
        let sms = sms_of(pieces[n - 1]);
        if sms.sender.len() > 0 {
            before.push(sms)
        } else {
            before
        }
    }
}

/// The messages that a list holds.
pub open spec fn sms_list(raw: Seq<char>) -> Seq<SmsView> {
    let pieces = fields(raw, "+CMGL:"@);
    sms_in(pieces, pieces.len())
}

fn nth_text(xs: &Vec<String>, n: usize) -> (r: String)
    ensures
        r@ == nth_or_empty(views(xs@), n as int),
{
    if n < xs.len() {
        xs[n].clone()
    } else {
        String::new()
    }
}

proof fn lemma_fields_some(s: Seq<char>, sep: Seq<char>)
    ensures
        fields(s, sep).len() > 0,
{
}

fn parse_entry(entry: &str) -> (r: Sms)
    ensures
        r@ == sms_of(entry@),
{
    proof {
        reveal_strlit(",");
        reveal_strlit("\"");
    }
    let ls = lines(entry);
    let header = trim(nth_text(&ls, 0).as_str());
    let commas = split(header.as_str(), ",");
    proof {
        lemma_fields_some(header@, ","@);
    }
    let first = trim(commas[0].as_str());
    assert(views(commas@)[0] == commas@[0]@);
    let idx = match parse_u32(first.as_str()) {
        Some(v) => v,
        None => 0,
    };
    let quoted = split(header.as_str(), "\"");
    let sender = nth_text(&quoted, 3);
    let mut text = String::new();
    let mut k: usize = 1;
    let ghost lv = views(ls@);
    while k < ls.len()
        invariant_except_break
            text@ == Seq::<char>::empty(),
        invariant
            1 <= k,
            k <= ls@.len() || k == 1,
            lv == views(ls@),
            first_text(lv, k as int) == first_text(lv, 1),
        ensures
            text@ == first_text(lv, 1),
        decreases ls@.len() - k,
    {
        let line = trim(ls[k].as_str());
        assert(lv[k as int] == ls@[k as int]@);
        if !line.as_str().is_empty() {
            text = line;
            break;
        }
        k = k + 1;
    }
    Sms { idx, sender, text }
}

/// The messages that a list holds.
pub fn parse_sms_list(raw: &str) -> (r: Vec<Sms>)
    ensures
        views(r@) == sms_list(raw@),
{
    proof {
        reveal_strlit("+CMGL:");
    }
    let pieces = split(raw, "+CMGL:");
    let ghost pv = views(pieces@);
    let mut out: Vec<Sms> = Vec::new();
    let mut i: usize = 1;
    proof {
        lemma_fields_some(raw@, "+CMGL:"@);
        assert(views(out@) =~= sms_in(pv, 1));
    }
    while i < pieces.len()
        invariant
            1 <= i <= pieces@.len(),
            pv == views(pieces@),
            views(out@) == sms_in(pv, i as nat),
        decreases pieces@.len() - i,
    {
        let sms = parse_entry(pieces[i].as_str());
        assert(pv[i as int] == pieces@[i as int]@);
        if !sms.sender.as_str().is_empty() {
            proof {
                lemma_views_push(out@, sms);
            }
            out.push(sms);
        }
        i = i + 1;
    }
    out
}

/// The messages of the modem's answer, none without one.
pub open spec fn unread_of(raw: Option<Seq<char>>) -> Seq<SmsView> {
    match raw {
        Some(s) => sms_list(s),
        None => Seq::empty(),
    }
}

/// A list without the marker holds no message.
proof fn lemma_no_messages(raw: Seq<char>)
    requires
        !contains(raw, "+CMGL:"@),
    ensures
        sms_list(raw) == Seq::<SmsView>::empty(),
{
    reveal_strlit("+CMGL:");
    crate::text::a_separator_parts(raw, "+CMGL:"@, Seq::empty());
}

/// The unread messages: those of the modem's answer, none without one.
pub fn unread_sms(raw: Option<String>) -> (r: Vec<Sms>)
    ensures
        views(r@) == (match raw {
            Some(s) if contains(s@, "+CMGL:"@) => sms_list(s@),
            _ => Seq::empty(),
        }),
        views(r@) == unread_of(opt_view(raw)),
{
    if let Some(s) = &raw {
        if has(s.as_str(), "+CMGL:") {
            return parse_sms_list(s.as_str());
        }
        proof {
            lemma_no_messages(s@);
        }
    }
    let none: Vec<Sms> = Vec::new();
    assert(views(none@) =~= Seq::<SmsView>::empty());
    none
}

/// The command that a word in small letters stands for.
pub open spec fn cmd_of_word(w: Seq<char>) -> Option<ControlCmd> {
    if w == "arm"@ || w == "охрана"@ {
        Some(ControlCmd::Arm)
    } else if w == "disarm"@ || w == "снять"@ {
        Some(ControlCmd::Disarm)
    } else if w == "silent"@ || w == "тихий"@ {
        Some(ControlCmd::Silent)
    } else if w == "alarm"@ || w == "тревога"@ {
        Some(ControlCmd::Alarm)
    } else {
        None
    }
}

/// The command that a word in small letters stands for.
pub fn cmd_from_word(w: &str) -> (r: Option<ControlCmd>)
    ensures
        r == cmd_of_word(w@),
{
    if same(w, "arm") || same(w, "охрана") {
        Some(ControlCmd::Arm)
    } else if same(w, "disarm") || same(w, "снять") {
        Some(ControlCmd::Disarm)
    } else if same(w, "silent") || same(w, "тихий") {
        Some(ControlCmd::Silent)
    } else if same(w, "alarm") || same(w, "тревога") {
        Some(ControlCmd::Alarm)
    } else {
        None
    }
}

/// The command that a message gives, in capital or small letters.
pub fn parse_sms_cmd(text: &str) -> (r: Option<ControlCmd>)
    ensures
        r == cmd_of_word(lowercase(trimmed(text@))),
        all_plain(trimmed(text@)) ==> r == cmd_of_word(small_letters(trimmed(text@))),
{
    cmd_from_word(to_lowercase(trim(text).as_str()).as_str())
}

/// The answer to a command.
pub open spec fn reply_of(cmd: ControlCmd) -> Seq<char> {
    match cmd {
        ControlCmd::Arm => "OK: поставлен на охрану"@,
        ControlCmd::Disarm => "OK: снят с охраны"@,
        ControlCmd::Silent => "OK: тревога отключена"@,
        ControlCmd::Alarm => "OK: тревога включена"@,
    }
}

/// The answer to a command.
pub fn cmd_reply(cmd: ControlCmd) -> (r: &'static str)
    ensures
        r@ == reply_of(cmd),
{
    match cmd {
        ControlCmd::Arm => "OK: поставлен на охрану",
        ControlCmd::Disarm => "OK: снят с охраны",
        ControlCmd::Silent => "OK: тревога отключена",
        ControlCmd::Alarm => "OK: тревога включена",
    }
}

/// The answer to a message that is no command.
pub const UNKNOWN_CMD: &'static str = "Неизвестная команда. Доступны: arm, disarm, silent, alarm";

/// What is to be done about a message.
pub enum SmsAction {
    /// Pass the command on.
    Command(ControlCmd),
    /// Send a message.
    Reply { to: String, text: String },
    /// Delete the message from the modem.
    Delete(u32),
}

/// The model of such an action.
pub ghost enum SmsActionView {
    Command(ControlCmd),
    Reply { to: Seq<char>, text: Seq<char> },
    Delete(u32),
}

impl View for SmsAction {
    type V = SmsActionView;

    open spec fn view(&self) -> SmsActionView {
        match self {
            SmsAction::Command(cmd) => SmsActionView::Command(*cmd),
            SmsAction::Reply { to, text } => SmsActionView::Reply { to: to@, text: text@ },
            SmsAction::Delete(idx) => SmsActionView::Delete(*idx),
        }
    }
}

/// What is done about a message with the command `cmd`: nothing but deleting it
/// where its sender is not allowed.
pub open spec fn sms_actions(sms: SmsView, allowed: bool, cmd: Option<ControlCmd>) -> Seq<
    SmsActionView,
> {
    if !allowed {
        seq![SmsActionView::Delete(sms.idx)]
    } else {
        match cmd {
            Some(c) => seq![
                SmsActionView::Command(c),
                SmsActionView::Reply { to: sms.sender, text: reply_of(c) },
                SmsActionView::Delete(sms.idx),
            ],
            None => seq![
                SmsActionView::Reply { to: sms.sender, text: UNKNOWN_CMD@ },
                SmsActionView::Delete(sms.idx),
            ],
        }
    }
}

/// What is done about a message with the command `cmd`.
pub fn act_on_sms(sms: &Sms, allowed: bool, cmd: Option<ControlCmd>) -> (r: Vec<SmsAction>)
    ensures
        views(r@) == sms_actions(sms@, allowed, cmd),
{
    let mut r: Vec<SmsAction> = Vec::new();
    if allowed {
        match cmd {
            Some(c) => {
                r.push(SmsAction::Command(c));
                r.push(
                    SmsAction::Reply { to: sms.sender.clone(), text: cmd_reply(c).to_owned() },
                );
            },
            None => {
                r.push(
                    SmsAction::Reply { to: sms.sender.clone(), text: UNKNOWN_CMD.to_owned() },
                );
            },
        }
    }
    r.push(SmsAction::Delete(sms.idx));
    assert(views(r@) =~= sms_actions(sms@, allowed, cmd));
    r
}

/// What is done about a message. Without a list nobody is allowed.
pub fn poll_sms(sms: &Sms, whitelist: Option<&Vec<String>>) -> (r: Vec<SmsAction>)
    ensures
        views(r@) == sms_actions(
            sms@,
            match whitelist {
                Some(wl) => is_listed(views(wl@), sms@.sender),
                None => false,
            },
            cmd_of_word(lowercase(trimmed(sms@.text))),
        ),
        all_plain(trimmed(sms@.text)) ==> views(r@) == sms_actions(
            sms@,
            match whitelist {
                Some(wl) => is_listed(views(wl@), sms@.sender),
                None => false,
            },
            cmd_of_word(small_letters(trimmed(sms@.text))),
        ),
{
    let allowed = match whitelist {
        Some(wl) => is_allowed(wl, sms.sender.as_str()),
        None => false,
    };
    let cmd = parse_sms_cmd(sms.text.as_str());
    act_on_sms(sms, allowed, cmd)
}

/// Asks for the prompt to a message.
pub fn sms_header(to: &str) -> (r: String)
    ensures
        r@ == "AT+CMGS=\""@ + to@ + "\"\r\n"@,
{
    join3("AT+CMGS=\"", to, "\"\r\n")
}

/// What is sent after the wait for the prompt, and whether a confirmation is to
/// be waited for: the text and the character that ends it, or, without a prompt,
/// the character that gives the message up.
pub fn send_sms(prompted: bool, text: &str) -> (r: (String, bool))
    ensures
        (r.0)@ == (if prompted {
            text@ + "\x1A"@
        } else {
            "\x1B"@
        }),
        r.1 == prompted,
{
    if prompted {
        (join(text, "\x1A"), true)
    } else {
        ("\x1B".to_owned(), false)
    }
}

/// The command that deletes a message.
pub fn delete_sms(idx: u32) -> (r: String)
    ensures
        r@ == "AT+CMGD="@ + decimal(idx as nat),
{
    join("AT+CMGD=", to_decimal(idx as u64).as_str())
}

// ── The modem's answers ─────────────────────────────────────────────────────

/// The first line from the `k`-th on that begins with `prefix`.
pub open spec fn line_beginning(ls: Seq<Seq<char>>, prefix: Seq<char>, k: int) -> Option<
    Seq<char>,
>
    decreases ls.len() - k,
{
    if k < 0 || k >= ls.len() {
        None
    } else if begins_with(ls[k], prefix) {
        Some(ls[k])
    } else {
        line_beginning(ls, prefix, k + 1)
    }
}

/// The first line of an answer that begins with `prefix`.
pub open spec fn line_of(resp: Seq<char>, prefix: Seq<char>) -> Option<Seq<char>> {
    line_beginning(lines_of(resp), prefix, 0)
}

fn find_line(resp: &str, prefix: &str) -> (r: Option<String>)
    ensures
        opt_view(r) == line_of(resp@, prefix@),
{
    let ls = lines(resp);
    let ghost lv = views(ls@);
    let mut k: usize = 0;
    while k < ls.len()
        invariant
            k <= ls@.len(),
            lv == views(ls@),
            lv == lines_of(resp@),
            line_beginning(lv, prefix@, k as int) == line_beginning(lv, prefix@, 0),
        decreases ls@.len() - k,
    {
        assert(lv[k as int] == ls@[k as int]@);
        if starts(ls[k].as_str(), prefix) {
            return Some(ls[k].clone());
        }
        k = k + 1;
    }
    None
}

/// What an answer says behind its keyword.
pub open spec fn said(line: Seq<char>, keyword: Seq<char>) -> Seq<char> {
    trimmed(without_prefixes(line, keyword))
}

/// The signal that an answer gives.
pub open spec fn csq_rssi(resp: Seq<char>) -> Option<int> {
    match line_of(resp, "+CSQ:"@) {
        Some(line) => parsed_signed(
            trimmed(fields(said(line, "+CSQ:"@), ","@)[0]),
            i32::MAX as nat,
        ),
        None => None,
    }
}

/// The signal as the screen shows it. 99 stands for none.
pub open spec fn signal_text(rssi: int) -> Seq<char> {
    if rssi == 99 {
        "нет сигнала"@
    } else {
        signed_decimal(rssi) + " ("@ + signed_decimal(-113 + 2 * rssi) + "dBm)"@
    }
}

/// The signal can be worked out in 32 bits.
pub open spec fn csq_in_range(resp: Seq<char>) -> bool {
    csq_rssi(resp) matches Some(v) ==> v == 99 || i32::MIN <= 2 * v - 113 && 2 * v <= i32::MAX
}

fn read_rssi(resp: &str) -> (r: Option<i32>)
    ensures
        match r {
            Some(v) => csq_rssi(resp@) == Some(v as int),
            None => csq_rssi(resp@) is None,
        },
{
    proof {
        reveal_strlit("+CSQ:");
        reveal_strlit(",");
    }
    let line = match find_line(resp, "+CSQ:") {
        Some(l) => l,
        None => return None,
    };
    let val = trim(strip_prefixes(line.as_str(), "+CSQ:").as_str());
    let parts = split(val.as_str(), ",");
    proof {
        lemma_fields_some(val@, ","@);
        assert(views(parts@)[0] == parts@[0]@);
    }
    parse_i32(trim(parts[0].as_str()).as_str())
}

/// Whether the signal of an answer can be worked out.
pub fn csq_fits(resp: &str) -> (r: bool)
    ensures
        r == csq_in_range(resp@),
{
    match read_rssi(resp) {
        Some(v) => v == 99 || (v >= -1073741767 && v <= 1073741823),
        None => true,
    }
}

/// The signal that an answer gives.
pub fn parse_csq(resp: String) -> (r: Option<String>)
    requires
        csq_in_range(resp@),
    ensures
        opt_view(r) == (match csq_rssi(resp@) {
            Some(rssi) => Some(signal_text(rssi)),
            None => None,
        }),
{
    let rssi = match read_rssi(resp.as_str()) {
        Some(v) => v,
        None => return None,
    };
    if rssi == 99 {
        return Some("нет сигнала".to_owned());
    }
    let dbm = -113 + 2 * rssi;
    let mut s = to_signed_decimal(rssi as i64);
    s.append(" (");
    s.append(to_signed_decimal(dbm as i64).as_str());
    s.append("dBm)");
    Some(s)
}

/// The registration as the screen shows it.
pub open spec fn registration_text(stat: nat) -> Seq<char> {
    if stat == 0 {
        "не зарегистрирован"@
    } else if stat == 1 {
        "домашняя сеть"@
    } else if stat == 2 {
        "поиск сети"@
    } else if stat == 3 {
        "отказ"@
    } else if stat == 5 {
        "роуминг"@
    } else if stat == 6 {
        "домашняя сеть (SMS)"@
    } else if stat == 7 {
        "роуминг (SMS)"@
    } else {
        "неизвестно"@
    }
}

/// The registration that an answer gives: its second value, or its only one.
pub open spec fn creg_stat(resp: Seq<char>) -> Option<nat> {
    match line_of(resp, "+CREG:"@) {
        Some(line) => {
            let val = said(line, "+CREG:"@);
            let parts = fields(val, ","@);
            parsed(
                trimmed(
                    if parts.len() > 1 {
                        parts[1]
                    } else {
                        val
                    },
                ),
                u8::MAX as nat,
            )
        },
        None => None,
    }
}

/// The registration that an answer gives.
pub fn parse_creg(resp: String) -> (r: Option<String>)
    ensures
        opt_view(r) == (match creg_stat(resp@) {
            Some(stat) => Some(registration_text(stat)),
            None => None,
        }),
{
    proof {
        reveal_strlit("+CREG:");
        reveal_strlit(",");
    }
    let line = match find_line(resp.as_str(), "+CREG:") {
        Some(l) => l,
        None => return None,
    };
    let val = trim(strip_prefixes(line.as_str(), "+CREG:").as_str());
    let parts = split(val.as_str(), ",");
    let raw_stat = if parts.len() > 1 {
        assert(views(parts@)[1] == parts@[1]@);
        trim(parts[1].as_str())
    } else {
        trim(val.as_str())
    };
    let stat = match parse_u8(raw_stat.as_str()) {
        Some(v) => v,
        None => return None,
    };
    let text = match stat {
        0 => "не зарегистрирован",
        1 => "домашняя сеть",
        2 => "поиск сети",
        3 => "отказ",
        5 => "роуминг",
        6 => "домашняя сеть (SMS)",
        7 => "роуминг (SMS)",
        _ => "неизвестно",
    };
    Some(text.to_owned())
}

/// The state of the card that an answer gives.
pub fn parse_cpin(resp: String) -> (r: Option<String>)
    ensures
        opt_view(r) == (match line_of(resp@, "+CPIN:"@) {
            Some(line) => Some(said(line, "+CPIN:"@)),
            None => None,
        }),
{
    proof {
        reveal_strlit("+CPIN:");
    }
    match find_line(resp.as_str(), "+CPIN:") {
        Some(line) => Some(trim(strip_prefixes(line.as_str(), "+CPIN:").as_str())),
        None => None,
    }
}

/// A word that looks like a phone number.
pub open spec fn is_phone(w: Seq<char>) -> bool {
    w.len() > 0 && (w[0] == '+' || w[0] == '7' || w[0] == '8') && digits_of(w).len() >= 10
}

/// The first of the words from the `k`-th on that looks like a phone number.
pub open spec fn first_phone(ws: Seq<Seq<char>>, k: int) -> Option<Seq<char>>
    decreases ws.len() - k,
{
    if k < 0 || k >= ws.len() {
        None
    } else if is_phone(ws[k]) {
        Some(ws[k])
    } else {
        first_phone(ws, k + 1)
    }
}

/// What the operator answers: the phone number in the message, without the
/// marks behind it, or the whole message where there is none.
pub open spec fn cusd_text(resp: Seq<char>) -> Option<Seq<char>> {
    match line_of(resp, "+CUSD:"@) {
        Some(line) => {
            let quoted = fields(line, "\""@);
            if quoted.len() > 1 {
                match first_phone(words_of(quoted[1]), 0) {
                    Some(w) => Some(without_marks(w)),
                    None => Some(quoted[1]),
                }
            } else {
                None
            }
        },
        None => None,
    }
}

fn looks_like_phone(w: &str) -> (r: bool)
    ensures
        r == is_phone(w@),
{
    if w.unicode_len() == 0 {
        return false;
    }
    let c = w.get_char(0);
    (c == '+' || c == '7' || c == '8') && digits(w).as_str().unicode_len() >= 10
}

/// The number that the operator answers with.
pub fn parse_cusd(resp: &str) -> (r: Option<String>)
    ensures
        opt_view(r) == cusd_text(resp@),
{
    proof {
        reveal_strlit("\"");
    }
    let line = match find_line(resp, "+CUSD:") {
        Some(l) => l,
        None => return None,
    };
    let quoted = split(line.as_str(), "\"");
    if quoted.len() <= 1 {
        return None;
    }
    assert(views(quoted@)[1] == quoted@[1]@);
    let ws = words(quoted[1].as_str());
    let ghost wv = views(ws@);
    let mut k: usize = 0;
    while k < ws.len()
        invariant
            k <= ws@.len(),
            wv == views(ws@),
            wv == words_of(quoted@[1]@),
            1 < quoted@.len(),
            views(quoted@) == fields(line@, "\""@),
            views(quoted@)[1] == quoted@[1]@,
            line_of(resp@, "+CUSD:"@) == Some(line@),
            first_phone(wv, k as int) == first_phone(wv, 0),
        decreases ws@.len() - k,
    {
        assert(wv[k as int] == ws@[k as int]@);
        if looks_like_phone(ws[k].as_str()) {
            return Some(strip_marks(ws[k].as_str()));
        }
        k = k + 1;
    }
    Some(quoted[1].clone())
}

/// The card's own number: the second quoted text of the answer, where it is not
/// empty.
pub open spec fn cnum_text(resp: Seq<char>) -> Option<Seq<char>> {
    match line_of(resp, "+CNUM:"@) {
        Some(line) => {
            let num = nth_or_empty(fields(line, "\""@), 3);
            if num.len() > 0 {
                Some(num)
            } else {
                None
            }
        },
        None => None,
    }
}

/// The card's own number.
pub fn query_msisdn_cnum(raw: Option<String>) -> (r: Option<String>)
    ensures
        opt_view(r) == (match raw {
            Some(resp) => cnum_text(resp@),
            None => None,
        }),
{
    proof {
        reveal_strlit("\"");
    }
    let resp = match raw {
        Some(s) => s,
        None => return None,
    };
    let line = match find_line(resp.as_str(), "+CNUM:") {
        Some(l) => l,
        None => return None,
    };
    let num = nth_text(&split(line.as_str(), "\""), 3);
    if num.as_str().is_empty() {
        None
    } else {
        Some(num)
    }
}

/// The number of the card: its own, where it knows it, else that from the operator's
/// answer.
pub open spec fn number_of(own: Option<Seq<char>>, operator: Option<Seq<char>>) -> Option<
    Seq<char>,
> {
    match own {
        Some(num) => Some(num),
        None => match operator {
            Some(resp) => cusd_text(resp),
            None => None,
        },
    }
}

/// The number from the operator's answer, for a card that does not know its own.
pub fn query_msisdn(own: Option<String>, operator: Option<String>) -> (r: Option<String>)
    ensures
        opt_view(r) == (match (own, operator) {
            (Some(num), _) => Some(num@),
            (None, Some(resp)) => cusd_text(resp@),
            (None, None) => None,
        }),
        opt_view(r) == number_of(opt_view(own), opt_view(operator)),
{
    match own {
        Some(num) => Some(num),
        None => match operator {
            Some(resp) => parse_cusd(resp.as_str()),
            None => None,
        },
    }
}

// ── Status ──────────────────────────────────────────────────────────────────

/// The state of the link: signal, registration, card. Unknown parts are empty.
pub struct LinkState {
    pub signal: String,
    pub reg: String,
    pub cpin: String,
}

/// The model of the state.
pub ghost struct LinkView {
    pub signal: Seq<char>,
    pub reg: Seq<char>,
    pub cpin: Seq<char>,
}

impl View for LinkState {
    type V = LinkView;

    open spec fn view(&self) -> LinkView {
        LinkView { signal: self.signal@, reg: self.reg@, cpin: self.cpin@ }
    }
}

/// What the screen shows of the card.
pub struct SimStatus {
    pub msisdn: String,
    pub signal: String,
    pub reg: String,
    pub cpin: String,
}

/// The model of what is shown.
pub ghost struct SimView {
    pub msisdn: Seq<char>,
    pub signal: Seq<char>,
    pub reg: Seq<char>,
    pub cpin: Seq<char>,
}

impl View for SimStatus {
    type V = SimView;

    open spec fn view(&self) -> SimView {
        SimView { msisdn: self.msisdn@, signal: self.signal@, reg: self.reg@, cpin: self.cpin@ }
    }
}

impl Default for SimStatus {
    fn default() -> (s: Self)
        ensures
            s@ == (SimView {
                msisdn: Seq::empty(),
                signal: Seq::empty(),
                reg: Seq::empty(),
                cpin: Seq::empty(),
            }),
    {
        SimStatus {
            msisdn: String::new(),
            signal: String::new(),
            reg: String::new(),
            cpin: String::new(),
        }
    }
}

impl Clone for SimStatus {
    fn clone(&self) -> (s: Self)
        ensures
            s@ == self@,
    {
        SimStatus {
            msisdn: self.msisdn.clone(),
            signal: self.signal.clone(),
            reg: self.reg.clone(),
            cpin: self.cpin.clone(),
        }
    }
}

impl SimStatus {
    /// Shows a new state of the link.
    pub fn set_link(&mut self, state: &LinkState)
        ensures
            final(self)@ == (SimView {
                msisdn: old(self)@.msisdn,
                signal: state@.signal,
                reg: state@.reg,
                cpin: state@.cpin,
            }),
    {
        self.signal = state.signal.clone();
        self.reg = state.reg.clone();
        self.cpin = state.cpin.clone();
    }

    /// Shows the number; none where it is not known.
    pub fn set_number(&mut self, msisdn: Option<String>)
        ensures
            final(self)@ == (SimView {
                msisdn: match msisdn {
                    Some(num) => num@,
                    None => Seq::empty(),
                },
                ..old(self)@
            }),
    {
        self.msisdn = match msisdn {
            Some(num) => num,
            None => String::new(),
        };
    }
}

/// The text, or an empty one.
pub open spec fn or_empty(t: Option<Seq<char>>) -> Seq<char> {
    match t {
        Some(s) => s,
        None => Seq::empty(),
    }
}

/// The signal of an answer, as the screen shows it.
pub open spec fn csq_text(resp: Option<Seq<char>>) -> Option<Seq<char>> {
    match resp {
        Some(s) => match csq_rssi(s) {
            Some(rssi) => Some(signal_text(rssi)),
            None => None,
        },
        None => None,
    }
}

/// The registration of an answer, as the screen shows it.
pub open spec fn creg_text(resp: Option<Seq<char>>) -> Option<Seq<char>> {
    match resp {
        Some(s) => match creg_stat(s) {
            Some(stat) => Some(registration_text(stat)),
            None => None,
        },
        None => None,
    }
}

/// The card of an answer, as the screen shows it.
pub open spec fn cpin_text(resp: Option<Seq<char>>) -> Option<Seq<char>> {
    match resp {
        Some(s) => match line_of(s, "+CPIN:"@) {
            Some(line) => Some(said(line, "+CPIN:"@)),
            None => None,
        },
        None => None,
    }
}

/// The state that the three answers give; none where none of them can be read.
pub open spec fn link_of(
    csq: Option<Seq<char>>,
    creg: Option<Seq<char>>,
    cpin: Option<Seq<char>>,
) -> Option<LinkView> {
    let signal = csq_text(csq);
    let reg = creg_text(creg);
    let sim = cpin_text(cpin);
    if signal is None && reg is None && sim is None {
        None
    } else {
        Some(LinkView { signal: or_empty(signal), reg: or_empty(reg), cpin: or_empty(sim) })
    }
}

/// There is a state, and it is not the one before.
pub open spec fn is_news(before: Option<LinkView>, state: Option<LinkView>) -> bool {
    state is Some && before != state
}

/// The modem has stopped answering.
pub open spec fn is_loss(before: Option<LinkView>, state: Option<LinkView>) -> bool {
    state is None && before is Some
}

/// The outcome of a poll.
pub struct StatusPoll {
    /// The state; none where the modem does not answer.
    pub state: Option<LinkState>,
    /// There is a state, and it is not the one before.
    pub changed: bool,
    /// The modem has stopped answering.
    pub lost: bool,
}

fn text_or_empty(t: Option<String>) -> (r: String)
    ensures
        r@ == or_empty(opt_view(t)),
{
    match t {
        Some(s) => s,
        None => String::new(),
    }
}

/// Reads the three answers to a poll. `last` is the state before.
pub fn poll_status(
    csq: Option<String>,
    creg: Option<String>,
    cpin: Option<String>,
    last: Option<&LinkState>,
) -> (r: StatusPoll)
    requires
        csq matches Some(s) ==> csq_in_range(s@),
    ensures
        ({
            let state = link_of(opt_view(csq), opt_view(creg), opt_view(cpin));
            let before: Option<LinkView> = match last {
                Some(l) => Some(l@),
                None => None,
            };
            &&& opt_view(r.state) == state
            &&& r.changed == (state is Some && before != state)
            &&& r.lost == (state is None && before is Some)
            &&& r.changed == is_news(before, state)
            &&& r.lost == is_loss(before, state)
        }),
{
    let signal = match csq {
        Some(s) => parse_csq(s),
        None => None,
    };
    let reg = match creg {
        Some(s) => parse_creg(s),
        None => None,
    };
    let sim = match cpin {
        Some(s) => parse_cpin(s),
        None => None,
    };
    if signal.is_none() && reg.is_none() && sim.is_none() {
        return StatusPoll { state: None, changed: false, lost: last.is_some() };
    }
    let state = LinkState {
        signal: text_or_empty(signal),
        reg: text_or_empty(reg),
        cpin: text_or_empty(sim),
    };
    let changed = match last {
        Some(l) => !(same(l.signal.as_str(), state.signal.as_str()) && same(
            l.reg.as_str(),
            state.reg.as_str(),
        ) && same(l.cpin.as_str(), state.cpin.as_str())),
        None => true,
    };
    StatusPoll { state: Some(state), changed, lost: false }
}

// ── Laws ────────────────────────────────────────────────────────────────────

/// A normalized number holds digits only, and is its own normal form.
#[verifier::spinoff_prover]
pub proof fn normalizing_twice_is_once(n: Seq<char>)
    ensures
        forall|i: int| 0 <= i < normalized(n).len() ==> is_digit(#[trigger] normalized(n)[i]),
        normalized(normalized(n)) == normalized(n),
{
    lemma_digits(n);
    let m = normalized(n);
    assert forall|i: int| 0 <= i < m.len() implies is_digit(#[trigger] m[i]) by {
        let d = digits_of(n);
        if d.len() == 11 && d[0] == '8' && i > 0 {
            assert(m[i] == d[i]);
        }
    }
    lemma_all_digits(m);
}

/// The domestic and the international form of a number are the same number:
/// `8`, or `+7`, before ten digits.
#[verifier::spinoff_prover]
pub proof fn domestic_and_international_match(rest: Seq<char>)
    requires
        rest.len() == 10,
        forall|i: int| 0 <= i < rest.len() ==> is_digit(#[trigger] rest[i]),
    ensures
        normalized(seq!['8'] + rest) == normalized(seq!['+', '7'] + rest),
        normalized(seq!['8'] + rest) == seq!['7'] + rest,
{
    lemma_leading_digit('8', rest);
    lemma_leading_digit('7', rest);
    lemma_domestic(rest);
    lemma_international(rest);
}

proof fn lemma_normal_form(n: Seq<char>, d: Seq<char>)
    requires
        digits_of(n) == d,
    ensures
        d.len() == 11 && d[0] == '8' ==> normalized(n) == seq!['7'] + d.skip(1),
        !(d.len() == 11 && d[0] == '8') ==> normalized(n) == d,
{
}

#[verifier::spinoff_prover]
proof fn lemma_domestic(rest: Seq<char>)
    requires
        rest.len() == 10,
        digits_of(seq!['8'] + rest) == seq!['8'] + rest,
    ensures
        normalized(seq!['8'] + rest) == seq!['7'] + rest,
{
    let d = seq!['8'] + rest;
    assert(d.skip(1) =~= rest);
    lemma_normal_form(d, d);
}

proof fn lemma_plus_first(rest: Seq<char>)
    ensures
        seq!['+', '7'] + rest == seq!['+'] + (seq!['7'] + rest),
{
    assert(seq!['+', '7'] + rest =~= seq!['+'] + (seq!['7'] + rest));
}

#[verifier::spinoff_prover]
proof fn lemma_international(rest: Seq<char>)
    requires
        rest.len() == 10,
        digits_of(seq!['7'] + rest) == seq!['7'] + rest,
    ensures
        normalized(seq!['+', '7'] + rest) == seq!['7'] + rest,
{
    let b = seq!['7'] + rest;
    let s = seq!['+', '7'] + rest;
    lemma_plus_first(rest);
    lemma_digits_skip_plus(b);
    lemma_normal_form(s, b);
}

proof fn lemma_leading_digit(c: char, rest: Seq<char>)
    requires
        is_digit(c),
        forall|i: int| 0 <= i < rest.len() ==> is_digit(#[trigger] rest[i]),
    ensures
        digits_of(seq![c] + rest) == seq![c] + rest,
{
    let s = seq![c] + rest;
    assert forall|i: int| 0 <= i < s.len() implies is_digit(#[trigger] s[i]) by {
        if i > 0 {
            assert(s[i] == rest[i - 1]);
        }
    }
    lemma_all_digits(s);
}

proof fn lemma_digits_skip_plus(s: Seq<char>)
    ensures
        digits_of(seq!['+'] + s) == digits_of(s),
    decreases s.len(),
{
    reveal(Seq::filter);
    let t = seq!['+'] + s;
    if s.len() == 0 {
        assert(t.drop_last() =~= s);
        assert(t.last() == '+' && !is_digit('+'));
    } else {
        assert(t.drop_last() =~= seq!['+'] + s.drop_last());
        assert(t.last() == s.last());
        lemma_digits_skip_plus(s.drop_last());
    }
}

/// A stranger has no say: to a message from a sender who is not allowed there
/// is no command and no reply, whatever it says.
pub proof fn strangers_are_ignored(sms: SmsView, cmd: Option<ControlCmd>, i: int)
    requires
        0 <= i < sms_actions(sms, false, cmd).len(),
    ensures
        sms_actions(sms, false, cmd)[i] == SmsActionView::Delete(sms.idx),
{
}

/// Every message is deleted, last of all and once; a command is passed on at most
/// once, and then its sender is told of that very command.
pub proof fn messages_are_answered_and_deleted(
    sms: SmsView,
    allowed: bool,
    cmd: Option<ControlCmd>,
    i: int,
)
    requires
        0 <= i < sms_actions(sms, allowed, cmd).len(),
    ensures
        sms_actions(sms, allowed, cmd).last() == SmsActionView::Delete(sms.idx),
        sms_actions(sms, allowed, cmd)[i] is Delete ==> i == sms_actions(sms, allowed, cmd).len()
            - 1,
        sms_actions(sms, allowed, cmd)[i] matches SmsActionView::Command(c) ==> i == 0 && cmd
            == Some(c) && allowed && sms_actions(sms, allowed, cmd)[1] == (SmsActionView::Reply {
            to: sms.sender,
            text: reply_of(c),
        }),
{
}

proof fn lemma_digits_add(a: Seq<char>, b: Seq<char>)
    ensures
        digits_of(a + b) == digits_of(a) + digits_of(b),
    decreases b.len(),
{
    reveal(Seq::filter);
    if b.len() == 0 {
        assert(a + b =~= a);
        assert(digits_of(a) + digits_of(b) =~= digits_of(a));
    } else {
        assert((a + b).drop_last() =~= a + b.drop_last());
        assert((a + b).last() == b.last());
        lemma_digits_add(a, b.drop_last());
        assert(digits_of(a + b) =~= digits_of(a) + digits_of(b));
    }
}

proof fn lemma_separator(a: Seq<char>, c: char, b: Seq<char>)
    requires
        c < '0' || c > '9',
    ensures
        digits_of(a + seq![c] + b) == digits_of(a + b),
{
    lemma_digits_add(a + seq![c], b);
    crate::text::digits_stay(a, c);
    assert(a + seq![c] =~= a.push(c));
    lemma_digits_add(a, b);
}

/// How a number is written does not matter: what is no digit may stand anywhere in it.
#[verifier::spinoff_prover]
pub proof fn separators_do_not_matter(a: Seq<char>, c: char, b: Seq<char>)
    requires
        c < '0' || c > '9',
    ensures
        normalized(a + seq![c] + b) == normalized(a + b),
{
    lemma_separator(a, c, b);
    let d = digits_of(a + b);
    lemma_normal_form(a + seq![c] + b, d);
    lemma_normal_form(a + b, d);
}

/// Of a number's digits, a leading 8 of eleven is read as a 7, and all else as it is.
#[verifier::spinoff_prover]
pub proof fn a_number_is_its_digits(d: Seq<char>)
    requires
        forall|i: int| 0 <= i < d.len() ==> '0' <= #[trigger] d[i] <= '9',
    ensures
        d.len() == 11 && d[0] == '8' ==> normalized(d) == seq!['7'] + d.skip(1),
        !(d.len() == 11 && d[0] == '8') ==> normalized(d) == d,
{
    assert(digits_of(d) == d) by {
        assert forall|i: int| 0 <= i < d.len() implies is_digit(#[trigger] d[i]) by {}
        lemma_all_digits(d);
    }
    lemma_normal_form(d, d);
}

/// What is done about a message: of a sender who is allowed, a command is passed on and
/// answered, and anything else is answered with the words that are understood; then
/// the message is deleted. Of another sender it is only deleted.
pub proof fn a_listed_sender_is_obeyed(sms: SmsView, cmd: ControlCmd)
    ensures
        sms_actions(sms, true, Some(cmd)) == seq![
            SmsActionView::Command(cmd),
            SmsActionView::Reply {
                to: sms.sender,
                text: match cmd {
                    ControlCmd::Arm => "OK: поставлен на охрану"@,
                    ControlCmd::Disarm => "OK: снят с охраны"@,
                    ControlCmd::Silent => "OK: тревога отключена"@,
                    ControlCmd::Alarm => "OK: тревога включена"@,
                },
            },
            SmsActionView::Delete(sms.idx),
        ],
        sms_actions(sms, true, None) == seq![
            SmsActionView::Reply {
                to: sms.sender,
                text: "Неизвестная команда. Доступны: arm, disarm, silent, alarm"@,
            },
            SmsActionView::Delete(sms.idx),
        ],
        sms_actions(sms, false, Some(cmd)) == seq![SmsActionView::Delete(sms.idx)],
        sms_actions(sms, false, None) == seq![SmsActionView::Delete(sms.idx)],
{
}

/// The words that command, in both languages; no other word does.
pub proof fn each_command_has_its_words(w: Seq<char>)
    ensures
        cmd_of_word(w) == Some(ControlCmd::Arm) <==> w == "arm"@ || w == "охрана"@,
        cmd_of_word(w) == Some(ControlCmd::Disarm) <==> w == "disarm"@ || w == "снять"@,
        cmd_of_word(w) == Some(ControlCmd::Silent) <==> w == "silent"@ || w == "тихий"@,
        cmd_of_word(w) == Some(ControlCmd::Alarm) <==> w == "alarm"@ || w == "тревога"@,
{
    reveal_strlit("arm");
    reveal_strlit("disarm");
    reveal_strlit("silent");
    reveal_strlit("alarm");
    reveal_strlit("охрана");
    reveal_strlit("снять");
    reveal_strlit("тихий");
    reveal_strlit("тревога");
    assert("arm"@.len() == 3 && "alarm"@.len() == 5 && "disarm"@[0] == 'd' && "silent"@[0] == 's');
    assert("alarm"@[0] == 'a' && "arm"@[0] == 'a');
    assert("охрана"@[0] == 'о' && "снять"@[0] == 'с' && "тихий"@[0] == 'т' && "тихий"@[1] == 'и');
    assert("тревога"@[0] == 'т' && "тревога"@[1] == 'р');
}

// ── Laws of the modem's lists ───────────────────────────────────────────────

proof fn lemma_marker(a: Seq<char>, b: Seq<char>)
    requires
        !contains(a, "+CMGL:"@),
    ensures
        fields(a + "+CMGL:"@ + b, "+CMGL:"@) == seq![a] + fields(b, "+CMGL:"@),
        fields(a, "+CMGL:"@) == seq![a],
{
    reveal_strlit("+CMGL:");
    let m = "+CMGL:"@;
    let s = a + m + b;
    assert(m.len() == 6 && m[0] == '+' && m[1] == 'C' && m[2] == 'M' && m[3] == 'G' && m[4] == 'L'
        && m[5] == ':');
    assert forall|j: int| 0 <= j < a.len() implies !#[trigger] crate::text::occurs_at(s, m, j) by {
        if crate::text::occurs_at(s, m, j) {
            let found = s.subrange(j, j + 6);
            if j + 6 <= a.len() {
                assert(a.subrange(j, j + 6) =~= found);
                assert(crate::text::occurs_at(a, m, j));
            } else {
                let k = a.len() - j;
                assert(found[k] == s[a.len() as int]);
                assert(s[a.len() as int] == '+');
                assert(m[k] == '+');
            }
        }
    }
    crate::text::a_separator_parts(a, m, b);
}

proof fn lemma_marked(pieces: Seq<Seq<char>>)
    requires
        pieces.len() > 0,
        forall|i: int| 0 <= i < pieces.len() ==> !contains(#[trigger] pieces[i], "+CMGL:"@),
    ensures
        fields(crate::text::joined(pieces, "+CMGL:"@), "+CMGL:"@) == pieces,
    decreases pieces.len(),
{
    let m = "+CMGL:"@;
    assert(!contains(pieces[0], m));
    if pieces.len() == 1 {
        lemma_marker(pieces[0], Seq::empty());
        assert(seq![pieces[0]] =~= pieces);
    } else {
        let rest = pieces.drop_first();
        assert forall|i: int| 0 <= i < rest.len() implies !contains(#[trigger] rest[i], m) by {
            assert(rest[i] == pieces[i + 1]);
        }
        lemma_marked(rest);
        lemma_marker(pieces[0], crate::text::joined(rest, m));
        assert(seq![pieces[0]] + rest =~= pieces);
    }
}

proof fn lemma_earlier_pieces(pieces: Seq<Seq<char>>, e: Seq<char>, n: nat)
    requires
        n <= pieces.len(),
    ensures
        sms_in(pieces.push(e), n) == sms_in(pieces, n),
    decreases n,
{
    if n > 1 {
        lemma_earlier_pieces(pieces, e, (n - 1) as nat);
    }
}

/// A list is read entry by entry, each behind its marker: one more entry is one more
/// message, behind the others, if it has a sender. What stands before the first marker
/// gives no message.
pub proof fn a_list_is_read_entry_by_entry(pieces: Seq<Seq<char>>, entry: Seq<char>)
    requires
        pieces.len() > 0,
        forall|i: int| 0 <= i < pieces.len() ==> !contains(#[trigger] pieces[i], "+CMGL:"@),
        !contains(entry, "+CMGL:"@),
    ensures
        ({
            let before = sms_list(crate::text::joined(pieces, "+CMGL:"@));
            let after = sms_list(crate::text::joined(pieces.push(entry), "+CMGL:"@));
            &&& pieces.len() == 1 ==> before.len() == 0
            &&& sms_of(entry).sender.len() > 0 ==> after == before.push(sms_of(entry))
            &&& sms_of(entry).sender.len() == 0 ==> after == before
        }),
{
    let more = pieces.push(entry);
    assert forall|i: int| 0 <= i < more.len() implies !contains(#[trigger] more[i], "+CMGL:"@) by {
        if i < pieces.len() {
            assert(more[i] == pieces[i]);
        }
    }
    lemma_marked(pieces);
    lemma_marked(more);
    lemma_earlier_pieces(pieces, entry, pieces.len());
    assert(more[more.len() - 1] == entry);
}

proof fn lemma_plain_decimal(n: nat)
    ensures
        decimal(n).len() > 0,
        forall|i: int| 0 <= i < decimal(n).len() ==> '0' <= #[trigger] decimal(n)[i] <= '9',
        trimmed(decimal(n)) == decimal(n),
{
    crate::number::numeral_reads_back(n, 10);
    let d = decimal(n);
    assert forall|i: int| 0 <= i < d.len() implies '0' <= #[trigger] d[i] <= '9' by {
        assert(crate::number::digit_value(d[i]) < 10);
    }
    let none = Seq::<char>::empty();
    crate::text::ascii_white_space(d[0]);
    crate::text::ascii_white_space(d[d.len() - 1]);
    crate::text::trimming_takes_off_white_space(none, d, none);
    assert(none + d + none =~= d);
}

proof fn lemma_no_char(d: Seq<char>, c: char)
    requires
        forall|i: int| 0 <= i < d.len() ==> '0' <= #[trigger] d[i] <= '9',
        c < '0' || c > '9',
    ensures
        !d.contains(c),
{
    if d.contains(c) {
        let i = choose|i: int| 0 <= i < d.len() && d[i] == c;
        assert('0' <= d[i] <= '9');
    }
}

/// The first line of an entry behind its marker: the place of the message, its state
/// and its sender, and whatever follows.
pub open spec fn entry_header(idx: nat, state: Seq<char>, sender: Seq<char>, more: Seq<char>) -> Seq<
    char,
> {
    decimal(idx) + ","@ + "\""@ + state + "\""@ + ","@ + "\""@ + sender + "\""@ + more
}

proof fn lemma_header_fields(idx: nat, state: Seq<char>, sender: Seq<char>, more: Seq<char>)
    requires
        !state.contains('"'),
        !sender.contains('"'),
    ensures
        fields(entry_header(idx, state, sender, more), ","@)[0] == decimal(idx),
        fields(entry_header(idx, state, sender, more), "\""@).len() > 3,
        fields(entry_header(idx, state, sender, more), "\""@)[3] == sender,
{
    reveal_strlit(",");
    reveal_strlit("\"");
    let h = entry_header(idx, state, sender, more);
    let d = decimal(idx);
    let q = "\""@;
    let c = ","@;
    assert(q[0] == '"' && c[0] == ',' && q.len() == 1 && c.len() == 1);
    lemma_plain_decimal(idx);
    lemma_no_char(d, ',');
    lemma_no_char(d, '"');
    let behind_comma = q + state + q + c + q + sender + q + more;
    assert(h =~= d + c + behind_comma);
    crate::text::a_character_parts(d, c, behind_comma);
    let tail3 = sender + q + more;
    let tail2 = c + q + tail3;
    let tail1 = state + q + tail2;
    assert(h =~= (d + c) + q + tail1);
    assert(!(d + c).contains('"')) by {
        if (d + c).contains('"') {
            let i = choose|i: int| 0 <= i < (d + c).len() && (d + c)[i] == '"';
            if i < d.len() {
                assert(d[i] == '"');
            }
        }
    }
    crate::text::a_character_parts(d + c, q, tail1);
    crate::text::a_character_parts(state, q, tail2);
    assert(!c.contains('"'));
    assert(tail2 =~= c + q + tail3);
    crate::text::a_character_parts(c, q, tail3);
    crate::text::a_character_parts(sender, q, more);
    let f3 = fields(tail3, q);
    let f2 = fields(tail2, q);
    let f1 = fields(tail1, q);
    assert(f3 == seq![sender] + fields(more, q));
    assert(f2 == seq![c] + f3);
    assert(f1 == seq![state] + f2);
    let f = fields(h, q);
    assert(f == seq![d + c] + f1);
    assert(f[3] == f1[2] && f1[2] == f2[1] && f2[1] == f3[0] && f3[0] == sender);
}

/// A message is read as the modem lists it: the place, the sender and, from the next
/// line that is not blank, the text, without the white space around it.
pub proof fn a_listed_message_is_read(
    idx: nat,
    state: Seq<char>,
    sender: Seq<char>,
    more: Seq<char>,
    text: Seq<char>,
    tail: Seq<char>,
)
    requires
        idx <= u32::MAX,
        !state.contains('"') && !state.contains('\n'),
        !sender.contains('"') && !sender.contains('\n'),
        !more.contains('\n'),
        more.len() > 0 ==> !crate::text::is_white_space(more[more.len() - 1]),
        !text.contains('\n'),
        trimmed(text).len() > 0,
    ensures
        sms_of(
            " "@ + entry_header(idx, state, sender, more) + "\r\n"@ + text + "\r\n"@ + tail,
        ) == (SmsView { idx: idx as u32, sender, text: trimmed(text) }),
{
    reveal_strlit(" ");
    reveal_strlit("\r\n");
    reveal_strlit(",");
    reveal_strlit("\"");
    let h = entry_header(idx, state, sender, more);
    let cr = seq!['\r'];
    let nl = seq!['\n'];
    assert("\r\n"@ =~= cr + nl);
    let entry = " "@ + h + "\r\n"@ + text + "\r\n"@ + tail;
    let rest = text + cr + nl + tail;
    assert(entry =~= (" "@ + h + cr) + nl + rest);
    let d = decimal(idx);
    lemma_plain_decimal(idx);
    lemma_no_char(d, '\n');
    let first = " "@ + h + cr;
    assert(!first.contains('\n')) by {
        if first.contains('\n') {
            let i = choose|i: int| 0 <= i < first.len() && first[i] == '\n';
            assert(first[0] == ' ');
            let k = i - 1;
            if 0 <= k < h.len() {
                assert(h[k] == '\n');
                let at_state = d.len() + 2;
                let at_sender = at_state + state.len() + 3;
                let at_more = at_sender + sender.len() + 1;
                if k < d.len() {
                    assert(h[k] == d[k]);
                } else if at_state <= k < at_state + state.len() {
                    assert(h[k] == state[k - at_state]);
                } else if at_sender <= k < at_sender + sender.len() {
                    assert(h[k] == sender[k - at_sender]);
                } else if k >= at_more {
                    assert(h[k] == more[k - at_more]);
                }
            }
        }
    }
    crate::text::a_line_feed_ends_a_line(first, rest);
    assert(first.take(first.len() - 1) =~= " "@ + h);
    let body = text + cr;
    assert(!body.contains('\n')) by {
        if body.contains('\n') {
            let i = choose|i: int| 0 <= i < body.len() && body[i] == '\n';
            if i < text.len() {
                assert(text[i] == '\n');
            }
        }
    }
    assert(rest =~= body + nl + tail);
    crate::text::a_line_feed_ends_a_line(body, tail);
    assert(body.take(body.len() - 1) =~= text);
    let ls = lines_of(entry);
    assert(ls == seq![" "@ + h] + lines_of(rest));
    assert(lines_of(rest) == seq![text] + lines_of(tail));
    assert(ls[0] == " "@ + h && ls[1] == text && ls.len() >= 2);
    let none = Seq::<char>::empty();
    assert(h[0] == d[0]);
    let last = h[h.len() - 1];
    assert(!crate::text::is_white_space(last)) by {
        crate::text::ascii_white_space('"');
        if more.len() > 0 {
            assert(last == more[more.len() - 1]);
        } else {
            assert(last == '"');
        }
    }
    crate::text::ascii_white_space(h[0]);
    crate::text::ascii_white_space(' ');
    crate::text::trimming_takes_off_white_space(" "@, h, none);
    assert(" "@ + h + none =~= " "@ + h);
    lemma_header_fields(idx, state, sender, more);
    crate::number::decimal_parses_back(idx, u32::MAX as nat);
}

/// The text of a message is the first line behind the header that is not blank.
pub proof fn blank_lines_are_skipped(ls: Seq<Seq<char>>, k: int)
    requires
        0 <= k < ls.len(),
    ensures
        trimmed(ls[k]).len() > 0 ==> first_text(ls, k) == trimmed(ls[k]),
        trimmed(ls[k]).len() == 0 ==> first_text(ls, k) == first_text(ls, k + 1),
        first_text(ls, ls.len() as int).len() == 0,
{
}

// ── Laws of the modem's answers ─────────────────────────────────────────────

proof fn lemma_next_lines(first: Seq<char>, ls: Seq<Seq<char>>, prefix: Seq<char>, k: int)
    requires
        0 <= k,
    ensures
        line_beginning(seq![first] + ls, prefix, k + 1) == line_beginning(ls, prefix, k),
    decreases ls.len() - k,
{
    let all = seq![first] + ls;
    if k < ls.len() {
        assert(all[k + 1] == ls[k]);
        lemma_next_lines(first, ls, prefix, k + 1);
    }
}

/// The line of an answer is the first that begins with the keyword: lines before it
/// that do not are passed over, and an answer without one has none.
pub proof fn the_first_line_with_the_keyword_counts(a: Seq<char>, b: Seq<char>, keyword: Seq<char>)
    requires
        !a.contains('\n'),
        keyword.len() > 0,
    ensures
        ({
            let line = if a.len() > 0 && a[a.len() - 1] == '\r' {
                a.take(a.len() - 1)
            } else {
                a
            };
            line_of(a + seq!['\n'] + b, keyword) == if begins_with(line, keyword) {
                Some(line)
            } else {
                line_of(b, keyword)
            }
        }),
        line_of(a, keyword) == (if begins_with(a, keyword) {
            Some(a)
        } else {
            None
        }),
{
    crate::text::a_line_feed_ends_a_line(a, b);
    let line = if a.len() > 0 && a[a.len() - 1] == '\r' { a.take(a.len() - 1) } else { a };
    let ls = lines_of(b);
    assert((seq![line] + ls)[0] == line);
    lemma_next_lines(line, ls, keyword, 0);
    if a.len() > 0 {
        assert(line_beginning(seq![a], keyword, 1) is None);
    } else {
        assert(a =~= Seq::<char>::empty());
    }
}

proof fn lemma_said(keyword: Seq<char>, value: Seq<char>)
    requires
        keyword.len() > 0,
        keyword[0] != ' ',
        value.len() > 0,
        !crate::text::is_white_space(value[0]),
        !crate::text::is_white_space(value[value.len() - 1]),
    ensures
        said(keyword + " "@ + value, keyword) == value,
{
    reveal_strlit(" ");
    let t = " "@ + value;
    assert(keyword + " "@ + value =~= keyword + t);
    crate::text::prefixes_come_off(keyword, t);
    assert(!begins_with(t, keyword)) by {
        if begins_with(t, keyword) {
            assert(t.subrange(0, keyword.len() as int)[0] == t[0]);
        }
    }
    let none = Seq::<char>::empty();
    crate::text::ascii_white_space(' ');
    crate::text::trimming_takes_off_white_space(" "@, value, none);
    assert(" "@ + value + none =~= t);
}

/// The signal is the first number behind the keyword.
pub proof fn the_signal_is_the_first_number(resp: Seq<char>, n: nat, more: Seq<char>)
    requires
        n <= i32::MAX,
        more.len() > 0 ==> !crate::text::is_white_space(more[more.len() - 1]),
        line_of(resp, "+CSQ:"@) == Some("+CSQ:"@ + " "@ + (decimal(n) + ","@ + more)),
    ensures
        csq_rssi(resp) == Some(n as int),
{
    reveal_strlit("+CSQ:");
    reveal_strlit(",");
    let d = decimal(n);
    let value = d + ","@ + more;
    lemma_plain_decimal(n);
    lemma_no_char(d, ',');
    assert(value[0] == d[0]);
    crate::text::ascii_white_space(d[0]);
    crate::text::ascii_white_space(',');
    if more.len() > 0 {
        assert(value[value.len() - 1] == more[more.len() - 1]);
    } else {
        assert(value[value.len() - 1] == ',');
    }
    lemma_said("+CSQ:"@, value);
    crate::text::a_character_parts(d, ","@, more);
    assert(fields(value, ","@)[0] == d);
    crate::number::decimal_parses_back(n, i32::MAX as nat);
    assert(d[0] != '-');
}

/// The registration is the second number behind the keyword, or the only one.
pub proof fn the_registration_is_the_second_number(
    resp: Seq<char>,
    mode: nat,
    n: nat,
    more: Seq<char>,
)
    requires
        n <= 255,
    ensures
        line_of(resp, "+CREG:"@) == Some("+CREG:"@ + " "@ + (decimal(mode) + ","@ + decimal(n)))
            ==> creg_stat(resp) == Some(n),
        line_of(resp, "+CREG:"@) == Some(
            "+CREG:"@ + " "@ + (decimal(mode) + ","@ + decimal(n) + ","@ + more),
        ) && (more.len() > 0 ==> !crate::text::is_white_space(more[more.len() - 1])) ==> creg_stat(
            resp,
        ) == Some(n),
        line_of(resp, "+CREG:"@) == Some("+CREG:"@ + " "@ + decimal(n)) ==> creg_stat(resp)
            == Some(n),
{
    reveal_strlit("+CREG:");
    reveal_strlit(",");
    let c = ","@;
    let m = decimal(mode);
    let d = decimal(n);
    lemma_plain_decimal(mode);
    lemma_plain_decimal(n);
    lemma_no_char(m, ',');
    lemma_no_char(d, ',');
    crate::text::ascii_white_space(m[0]);
    crate::text::ascii_white_space(d[0]);
    crate::text::ascii_white_space(d[d.len() - 1]);
    crate::text::ascii_white_space(',');
    crate::number::decimal_parses_back(n, 255);
    let none = Seq::<char>::empty();
    crate::text::a_character_parts(m, c, d);
    crate::text::a_character_parts(d, c, none);
    let two = m + c + d;
    assert(two[0] == m[0] && two[two.len() - 1] == d[d.len() - 1]);
    lemma_said("+CREG:"@, two);
    assert(fields(two, c) == seq![m] + seq![d]);
    assert(fields(two, c)[1] == d);
    let three = m + c + d + c + more;
    assert(three =~= m + c + (d + c + more));
    crate::text::a_character_parts(m, c, d + c + more);
    crate::text::a_character_parts(d, c, more);
    assert(three[0] == m[0]);
    if more.len() > 0 {
        assert(three[three.len() - 1] == more[more.len() - 1]);
    } else {
        assert(three[three.len() - 1] == ',');
    }
    if more.len() > 0 ==> !crate::text::is_white_space(more[more.len() - 1]) {
        lemma_said("+CREG:"@, three);
        assert(fields(three, c)[1] == fields(d + c + more, c)[0]);
        assert(fields(three, c)[1] == d);
    }
    lemma_said("+CREG:"@, d);
}

/// The state of the card is what stands behind the keyword.
pub proof fn the_card_is_what_is_said(resp: Seq<char>, state: Seq<char>)
    requires
        state.len() > 0,
        !crate::text::is_white_space(state[0]),
        !crate::text::is_white_space(state[state.len() - 1]),
        line_of(resp, "+CPIN:"@) == Some("+CPIN:"@ + " "@ + state),
    ensures
        cpin_text(Some(resp)) == Some(state),
{
    reveal_strlit("+CPIN:");
    lemma_said("+CPIN:"@, state);
}

/// The signal as it is shown: the number, and its strength, which is two dBm for each
/// step above -113; 99 stands for no signal.
pub proof fn the_signal_is_shown_in_dbm(n: nat)
    ensures
        n == 99 ==> signal_text(n as int) == "нет сигнала"@,
        n < 57 ==> signal_text(n as int) == decimal(n) + " ("@ + (seq!['-'] + decimal(
            (113 - 2 * n) as nat,
        )) + "dBm)"@,
        n >= 57 && n != 99 ==> signal_text(n as int) == decimal(n) + " ("@ + decimal(
            (2 * n - 113) as nat,
        ) + "dBm)"@,
{
}

/// The registration as it is shown.
pub proof fn the_registration_is_shown(stat: nat)
    ensures
        stat == 0 ==> registration_text(stat) == "не зарегистрирован"@,
        stat == 1 ==> registration_text(stat) == "домашняя сеть"@,
        stat == 2 ==> registration_text(stat) == "поиск сети"@,
        stat == 3 ==> registration_text(stat) == "отказ"@,
        stat == 5 ==> registration_text(stat) == "роуминг"@,
        stat == 6 ==> registration_text(stat) == "домашняя сеть (SMS)"@,
        stat == 7 ==> registration_text(stat) == "роуминг (SMS)"@,
        stat == 4 || stat > 7 ==> registration_text(stat) == "неизвестно"@,
{
}

/// Each answer that can be read is shown, whether or not the others can; what cannot
/// be read is empty. There is no state just where none of them can be read.
pub proof fn each_answer_counts(
    csq: Option<Seq<char>>,
    creg: Option<Seq<char>>,
    cpin: Option<Seq<char>>,
)
    ensures
        link_of(csq, creg, cpin) is None <==> csq_text(csq) is None && creg_text(creg) is None
            && cpin_text(cpin) is None,
        link_of(csq, creg, cpin) matches Some(link) ==> {
            &&& csq_text(csq) matches Some(t) ==> link.signal == t
            &&& csq_text(csq) is None ==> link.signal.len() == 0
            &&& creg_text(creg) matches Some(t) ==> link.reg == t
            &&& creg_text(creg) is None ==> link.reg.len() == 0
            &&& cpin_text(cpin) matches Some(t) ==> link.cpin == t
            &&& cpin_text(cpin) is None ==> link.cpin.len() == 0
        },
        csq matches Some(s) ==> (csq_rssi(s) matches Some(v) ==> csq_text(csq) == Some(
            signal_text(v),
        )),
        csq matches Some(s) ==> (csq_rssi(s) is None ==> csq_text(csq) is None),
        creg matches Some(s) ==> (creg_stat(s) matches Some(v) ==> creg_text(creg) == Some(
            registration_text(v),
        )),
        creg matches Some(s) ==> (creg_stat(s) is None ==> creg_text(creg) is None),
        csq is None ==> csq_text(csq) is None,
        creg is None ==> creg_text(creg) is None,
        cpin is None ==> cpin_text(cpin) is None,
{
}

/// A word looks like a phone number where it begins with `+`, `7` or `8` and holds ten
/// digits or more; the first such word is taken.
pub proof fn the_first_phone_number_is_taken(ws: Seq<Seq<char>>, k: int)
    requires
        0 <= k < ws.len(),
    ensures
        ({
            let phone = ws[k].len() > 0 && (ws[k][0] == '+' || ws[k][0] == '7' || ws[k][0] == '8')
                && digits_of(ws[k]).len() >= 10;
            &&& phone ==> first_phone(ws, k) == Some(ws[k])
            &&& !phone ==> first_phone(ws, k) == first_phone(ws, k + 1)
        }),
        first_phone(ws, ws.len() as int) is None,
{
}

/// The operator's message is what stands in the first quotes; a phone number in it is
/// taken without the marks behind it, and without one the message is taken whole.
pub proof fn the_operator_message_is_quoted(
    resp: Seq<char>,
    head: Seq<char>,
    message: Seq<char>,
    more: Seq<char>,
)
    requires
        !head.contains('"'),
        !message.contains('"'),
        line_of(resp, "+CUSD:"@) == Some(head + "\""@ + message + "\""@ + more),
    ensures
        first_phone(words_of(message), 0) matches Some(w) ==> cusd_text(resp) == Some(
            without_marks(w),
        ),
        first_phone(words_of(message), 0) is None ==> cusd_text(resp) == Some(message),
{
    reveal_strlit("\"");
    let q = "\""@;
    let line = head + q + message + q + more;
    assert(line =~= head + q + (message + q + more));
    crate::text::a_character_parts(head, q, message + q + more);
    crate::text::a_character_parts(message, q, more);
    assert(fields(line, q)[1] == fields(message + q + more, q)[0]);
    assert(fields(line, q)[1] == message);
}

/// The card's own number is what stands in the second quotes, if that is not empty.
pub proof fn the_own_number_is_quoted(
    resp: Seq<char>,
    head: Seq<char>,
    name: Seq<char>,
    between: Seq<char>,
    num: Seq<char>,
    more: Seq<char>,
)
    requires
        !head.contains('"') && !name.contains('"') && !between.contains('"') && !num.contains('"'),
        line_of(resp, "+CNUM:"@) == Some(
            head + "\""@ + name + "\""@ + between + "\""@ + num + "\""@ + more,
        ),
    ensures
        cnum_text(resp) == (if num.len() > 0 {
            Some(num)
        } else {
            None
        }),
{
    reveal_strlit("\"");
    let q = "\""@;
    let line = head + q + name + q + between + q + num + q + more;
    let t3 = num + q + more;
    let t2 = between + q + t3;
    let t1 = name + q + t2;
    assert(line =~= head + q + t1);
    crate::text::a_character_parts(head, q, t1);
    crate::text::a_character_parts(name, q, t2);
    crate::text::a_character_parts(between, q, t3);
    crate::text::a_character_parts(num, q, more);
    let f3 = fields(t3, q);
    let f2 = fields(t2, q);
    let f1 = fields(t1, q);
    let f = fields(line, q);
    assert(f == seq![head] + f1 && f1 == seq![name] + f2 && f2 == seq![between] + f3);
    assert(f[3] == f1[2] && f1[2] == f2[1] && f2[1] == f3[0] && f3[0] == num);
    assert(f.len() > 3);
}

/// Capital letters of both alphabets are made small, each on its own, and all else
/// stays as it is.
pub proof fn capitals_are_made_small(s: Seq<char>, i: int)
    requires
        0 <= i < s.len(),
    ensures
        small_letters(s).len() == s.len(),
        'A' <= s[i] <= 'Z' ==> small_letters(s)[i] as int == s[i] as int + ('a' as int - 'A' as int),
        'А' <= s[i] <= 'Я' ==> small_letters(s)[i] as int == s[i] as int + ('а' as int - 'А' as int),
        s[i] == 'Ё' ==> small_letters(s)[i] == 'ё',
        !('A' <= s[i] <= 'Z' || 'А' <= s[i] <= 'Я' || s[i] == 'Ё') ==> small_letters(s)[i] == s[i],
{
}

/// A sender is allowed just where some number of the list is the same number, however
/// the two are written; so the domestic form allows the international one.
#[verifier::spinoff_prover]
pub proof fn a_listed_number_is_allowed(
    list: Seq<Seq<char>>,
    i: int,
    sender: Seq<char>,
    rest: Seq<char>,
)
    requires
        0 <= i < list.len(),
        rest.len() == 10,
        forall|j: int| 0 <= j < rest.len() ==> '0' <= #[trigger] rest[j] <= '9',
    ensures
        is_listed(list, list[i]),
        normalized(list[i]) == normalized(sender) ==> is_listed(list, sender),
        list[i] == seq!['8'] + rest ==> is_listed(list, seq!['+', '7'] + rest),
        list[i] == seq!['+', '7'] + rest ==> is_listed(list, seq!['8'] + rest),
        is_listed(list, sender) ==> exists|j: int|
            0 <= j < list.len() && normalized(#[trigger] list[j]) == normalized(sender),
{
    assert forall|j: int| 0 <= j < rest.len() implies is_digit(#[trigger] rest[j]) by {}
    domestic_and_international_match(rest);
}

/// The strength of a signal can be worked out in 32 bits for the numbers from
/// -1073741767 to 1073741823, and needs not be for 99.
pub proof fn most_signals_can_be_worked_out(resp: Seq<char>)
    ensures
        csq_in_range(resp) <==> match csq_rssi(resp) {
            Some(v) => v == 99 || -1073741767 <= v <= 1073741823,
            None => true,
        },
{
}

/// A poll tells of a state that differs from the one before in any part, or that comes
/// after none; it tells of a loss just where there was a state and none can be read; an
/// unchanged state is told as neither.
pub proof fn a_poll_tells_of_changes(before: Option<LinkView>, state: Option<LinkView>)
    ensures
        !(is_news(before, state) && is_loss(before, state)),
        is_loss(before, state) <==> before is Some && state is None,
        before is None && state is Some ==> is_news(before, state),
        before matches Some(a) ==> (state matches Some(b) ==> (is_news(before, state) <==> a.signal
            != b.signal || a.reg != b.reg || a.cpin != b.cpin)),
        state is None ==> !is_news(before, state),
        before == state ==> !is_news(before, state) && !is_loss(before, state),
{
}

/// The number that the card knows comes before the one that the operator tells; where
/// the card knows none, the operator's answer counts.
pub proof fn the_own_number_comes_first(own: Option<Seq<char>>, operator: Option<Seq<char>>)
    ensures
        own is Some ==> number_of(own, operator) == own,
        own is None && operator is None ==> number_of(own, operator) is None,
        own is None ==> (operator matches Some(resp) ==> number_of(own, operator) == cusd_text(
            resp,
        )),
{
}

/// Without an answer, and in an answer without an entry, there is no message; the
/// messages of a list are all there.
pub proof fn unread_messages_are_those_of_the_list(raw: Seq<char>)
    ensures
        unread_of(None).len() == 0,
        unread_of(Some(raw)) == sms_list(raw),
        !contains(raw, "+CMGL:"@) ==> unread_of(Some(raw)).len() == 0,
{
    if !contains(raw, "+CMGL:"@) {
        lemma_no_messages(raw);
    }
}

} // verus!
