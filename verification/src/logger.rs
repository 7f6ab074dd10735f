//! The log: each message goes to the console and into a ring of the last ones.
use log::Level;
use vstd::prelude::*;

use crate::text::views;

verus! {

/// The severity of a message, as the crate `log` has it.
#[verifier::external_type_specification]
pub struct ExLevel(log::Level);

/// How many messages are kept.
pub const RING_CAPACITY: usize = 256;

/// A kept message. `level` is 0 for an error, 1 for a warning, 2 for an
/// information, 3 for a debug message, 4 for a trace.
pub struct LogEntry {
    pub level: i32,
    pub message: String,
}

/// The model of a kept message.
pub ghost struct EntryView {
    pub level: i32,
    pub message: Seq<char>,
}

impl View for LogEntry {
    type V = EntryView;

    open spec fn view(&self) -> EntryView {
        EntryView { level: self.level, message: self.message@ }
    }
}

impl Clone for LogEntry {
    fn clone(&self) -> (e: Self)
        ensures
            e@ == self@,
    {
        LogEntry { level: self.level, message: self.message.clone() }
    }
}

// ── Levels ──────────────────────────────────────────────────────────────────

/// The number of a level.
pub open spec fn level_number(l: Level) -> i32 {
    match l {
        Level::Error => 0,
        Level::Warn => 1,
        Level::Info => 2,
        Level::Debug => 3,
        Level::Trace => 4,
    }
}

/// The letter of a level.
pub open spec fn level_letter(l: Level) -> char {
    match l {
        Level::Error => 'E',
        Level::Warn => 'W',
        Level::Info => 'I',
        Level::Debug => 'D',
        Level::Trace => 'T',
    }
}

/// The number of a level.
pub fn level_to_int(l: Level) -> (r: i32)
    ensures
        r == level_number(l),
{
    match l {
        Level::Error => 0,
        Level::Warn => 1,
        Level::Info => 2,
        Level::Debug => 3,
        Level::Trace => 4,
    }
}

/// The letter of a level.
pub fn level_tag(l: Level) -> (r: char)
    ensures
        r == level_letter(l),
{
    match l {
        Level::Error => 'E',
        Level::Warn => 'W',
        Level::Info => 'I',
        Level::Debug => 'D',
        Level::Trace => 'T',
    }
}

/// Whether messages of a level are logged: all but traces.
pub fn enabled(l: Level) -> (r: bool)
    ensures
        r == !(l is Trace),
{
    level_to_int(l) <= 3
}

/// What is done with a message that is logged.
pub struct Logged {
    /// The line for the console.
    pub line: String,
    /// The entry for the ring.
    pub entry: LogEntry,
}

/// The line for the console and the entry for the ring; none for a message that
/// is not logged. `target` is where the message comes from.
pub fn format_message(l: Level, target: &str, args: &str) -> (r: Option<Logged>)
    ensures
        l is Trace ==> r is None,
        !(l is Trace) ==> {
            &&& r is Some
            &&& r->0.line@ == seq![level_letter(l)] + " ["@ + target@ + "] "@ + args@
            &&& r->0.entry@ == (EntryView {
                level: level_number(l),
                message: "["@ + target@ + "] "@ + args@,
            })
        },
{
    if !enabled(l) {
        return None;
    }
    let mut line = String::new();
    line.push(level_tag(l));
    assert(line@ =~= seq![level_letter(l)]);
    line.append(" [");
    line.append(target);
    line.append("] ");
    line.append(args);
    let mut message = "[".to_owned();
    message.append(target);
    message.append("] ");
    message.append(args);
    Some(Logged { line, entry: LogEntry { level: level_to_int(l), message } })
}

// ── The ring ────────────────────────────────────────────────────────────────

/// The model of the ring.
pub ghost struct BufferView {
    /// The kept messages, the oldest first.
    pub entries: Seq<EntryView>,
    /// How many messages there ever were.
    pub total: nat,
}

impl BufferView {
    /// The ring is full once there were as many messages as it keeps.
    pub open spec fn wf(self) -> bool {
        self.entries.len() == (if self.total < RING_CAPACITY {
            self.total
        } else {
            RING_CAPACITY as nat
        })
    }

    /// The ring with one more message; a full ring drops its oldest.
    pub open spec fn with(self, e: EntryView) -> BufferView {
        BufferView {
            entries: (if self.entries.len() == RING_CAPACITY {
                self.entries.drop_first()
            } else {
                self.entries
            }).push(e),
            total: self.total + 1,
        }
    }

    /// The ring after a series of messages.
    pub open spec fn with_all(self, es: Seq<EntryView>) -> BufferView
        decreases es.len(),
    {
        if es.len() == 0 {
            self
        } else {
            self.with_all(es.drop_last()).with(es.last())
        }
    }

    /// A ring without a message.
    pub open spec fn empty() -> BufferView {
        BufferView { entries: Seq::empty(), total: 0 }
    }
}

/// The ring of the last messages.
pub struct LogBuffer {
    entries: Vec<LogEntry>,
    total: usize,
}

impl View for LogBuffer {
    type V = BufferView;

    closed spec fn view(&self) -> BufferView {
        BufferView { entries: views(self.entries@), total: self.total as nat }
    }
}

impl LogBuffer {
    /// A ring without a message.
    pub fn new() -> (b: Self)
        ensures
            b@ == BufferView::empty(),
            b@.wf(),
    {
        let b = LogBuffer { entries: Vec::with_capacity(RING_CAPACITY), total: 0 };
        assert(views(b.entries@) =~= Seq::<EntryView>::empty());
        b
    }

    /// Keeps a message.
    pub fn push(&mut self, entry: LogEntry)
        requires
            old(self)@.wf(),
            old(self)@.total < usize::MAX,
        ensures
            final(self)@ == old(self)@.with(entry@),
            final(self)@.wf(),
    {
        let ghost before = self.entries@;
        if self.entries.len() == RING_CAPACITY {
            let _ = self.entries.remove(0);
            assert(views(self.entries@) =~= views(before).drop_first());
        }
        proof {
            crate::text::lemma_views_push(self.entries@, entry);
        }
        self.entries.push(entry);
        self.total = self.total + 1;
    }

    /// The kept messages, the oldest first.
    pub fn entries(&self) -> (r: &[LogEntry])
        ensures
            views(r@) == self@.entries,
    {
        self.entries.as_slice()
    }

    /// How many messages there ever were.
    pub fn total(&self) -> (r: usize)
        ensures
            r == self@.total,
    {
        self.total
    }
}

/// The last `RING_CAPACITY` messages of a series, or all of a shorter one.
pub open spec fn last_ones(es: Seq<EntryView>) -> Seq<EntryView> {
    if es.len() <= RING_CAPACITY {
        es
    } else {
        es.skip(es.len() - RING_CAPACITY)
    }
}

/// The ring keeps the last messages in their order, and counts all of them.
pub proof fn ring_keeps_the_last(es: Seq<EntryView>)
    ensures
        BufferView::empty().with_all(es).entries == last_ones(es),
        BufferView::empty().with_all(es).total == es.len(),
    decreases es.len(),
{
    if es.len() > 0 {
        ring_keeps_the_last(es.drop_last());
        assert(BufferView::empty().with_all(es).entries =~= last_ones(es));
    }
}

/// The levels are numbered and lettered by their severity, the gravest first.
pub proof fn levels_are_numbered_by_severity(l: Level)
    ensures
        level_number(l) == match l {
            Level::Error => 0int,
            Level::Warn => 1,
            Level::Info => 2,
            Level::Debug => 3,
            Level::Trace => 4,
        },
        level_letter(l) == match l {
            Level::Error => 'E',
            Level::Warn => 'W',
            Level::Info => 'I',
            Level::Debug => 'D',
            Level::Trace => 'T',
        },
{
}

/// One more message comes last. A ring of 256 messages loses its oldest to it, a
/// shorter one loses none; the others stay in their order.
pub proof fn one_more_message_comes_last(buf: BufferView, e: EntryView)
    requires
        buf.entries.len() <= 256,
    ensures
        ({
            let after = buf.with(e);
            let n = buf.entries.len() as int;
            &&& after.total == buf.total + 1
            &&& after.entries.last() == e
            &&& n < 256 ==> after.entries.len() == n + 1 && forall|i: int|
                0 <= i < n ==> #[trigger] after.entries[i] == buf.entries[i]
            &&& n == 256 ==> after.entries.len() == 256 && forall|i: int|
                0 <= i < 255 ==> #[trigger] after.entries[i] == buf.entries[i + 1]
        }),
{
}

/// After a series of messages the ring holds the last 256 of them, or all of fewer.
pub proof fn the_last_256_are_kept(es: Seq<EntryView>, i: int)
    ensures
        ({
            let kept = BufferView::empty().with_all(es).entries;
            let n = es.len() as int;
            &&& n <= 256 ==> kept == es
            &&& n > 256 ==> kept.len() == 256
            &&& n > 256 && 0 <= i < 256 ==> kept[i] == es[n - 256 + i]
        }),
{
    ring_keeps_the_last(es);
}

} // verus!
