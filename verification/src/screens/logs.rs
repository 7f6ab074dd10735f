//! The screen that shows the last log messages.
use vstd::prelude::*;

use crate::logger::{BufferView, EntryView, LogBuffer, LogEntry};
use crate::text::{lemma_views_push, views};

verus! {

/// The log screen.
pub struct LogScreenHandler {
    /// The messages that are shown, the oldest first.
    pub entries: Vec<LogEntry>,
    /// The row that the list is scrolled to.
    pub scroll_to: i32,
    /// The list stays where it is when messages come.
    pub pinned: bool,
    /// How many messages there had been when the list was last filled.
    pub known_total: usize,
}

/// The model of the log screen.
pub ghost struct LogScreenView {
    pub entries: Seq<EntryView>,
    pub scroll_to: int,
    pub pinned: bool,
    pub known_total: nat,
}

impl View for LogScreenHandler {
    type V = LogScreenView;

    open spec fn view(&self) -> LogScreenView {
        LogScreenView {
            entries: views(self.entries@),
            scroll_to: self.scroll_to as int,
            pinned: self.pinned,
            known_total: self.known_total as nat,
        }
    }
}

impl LogScreenView {
    /// The screen after a look at the ring of messages.
    pub open spec fn polled(self, buf: BufferView) -> LogScreenView {
        if buf.total == self.known_total {
            self
        } else {
            LogScreenView {
                entries: buf.entries,
                scroll_to: if self.pinned {
                    self.scroll_to
                } else {
                    buf.entries.len() - 1
                },
                pinned: self.pinned,
                known_total: buf.total,
            }
        }
    }

    /// What is shown was the ring when there had been `known_total` messages.
    pub open spec fn in_step(self, buf: BufferView) -> bool {
        &&& self.known_total <= buf.total
        &&& self.known_total == buf.total ==> self.entries == buf.entries
    }
}

impl LogScreenHandler {
    /// A screen that has shown nothing yet.
    pub fn new() -> (s: Self)
        ensures
            s@ == (LogScreenView {
                entries: Seq::empty(),
                scroll_to: 0,
                pinned: false,
                known_total: 0,
            }),
    {
        let s = LogScreenHandler {
            entries: Vec::new(),
            scroll_to: 0,
            pinned: false,
            known_total: 0,
        };
        assert(s@.entries =~= Seq::<EntryView>::empty());
        s
    }

    /// Takes new messages over. Returns whether there were any.
    pub fn poll(&mut self, buf: &LogBuffer) -> (changed: bool)
        requires
            buf@.wf(),
        ensures
            final(self)@ == old(self)@.polled(buf@),
            changed == (buf@.total != old(self)@.known_total),
    {
        let total = buf.total();
        if total == self.known_total {
            return false;
        }
        self.known_total = total;
        let from = buf.entries();
        let mut entries: Vec<LogEntry> = Vec::new();
        let mut i: usize = 0;
        assert(views(entries@) =~= views(from@).take(0));
        while i < from.len()
            invariant
                i <= from@.len(),
                views(entries@) == views(from@).take(i as int),
            decreases from@.len() - i,
        {
            let e = from[i].clone();
            proof {
                lemma_views_push(entries@, e);
                assert(views(from@).take(i + 1) =~= views(from@).take(i as int).push(e@));
            }
            entries.push(e);
            i = i + 1;
        }
        assert(views(from@).take(i as int) =~= views(from@));
        assert(entries@.len() == views(entries@).len());
        if !self.pinned {
            self.scroll_to = entries.len() as i32 - 1;
        }
        self.entries = entries;
        true
    }

    /// Scrolls to the last of `count` rows, and follows new messages again.
    pub fn scroll_end(&mut self, count: i32)
        requires
            count >= 0,
        ensures
            final(self)@ == (LogScreenView { scroll_to: count - 1, pinned: false, ..old(self)@ }),
    {
        self.scroll_to = count - 1;
        self.pinned = false;
    }

    /// Scrolls to the first row, and stays there.
    pub fn scroll_start(&mut self)
        ensures
            final(self)@ == (LogScreenView { scroll_to: 0, pinned: true, ..old(self)@ }),
    {
        self.scroll_to = 0;
        self.pinned = true;
    }

    /// Pins the list, or lets it follow new messages again.
    pub fn toggle_pin(&mut self)
        ensures
            final(self)@ == (LogScreenView { pinned: !old(self)@.pinned, ..old(self)@ }),
    {
        self.pinned = !self.pinned;
    }
}

proof fn lemma_total_grows(buf: BufferView, es: Seq<EntryView>)
    ensures
        buf.with_all(es).total == buf.total + es.len(),
    decreases es.len(),
{
    if es.len() > 0 {
        lemma_total_grows(buf, es.drop_last());
    }
}

/// Whatever messages came since the last look, a look shows just what the ring
/// keeps.
pub proof fn a_look_shows_the_ring(screen: LogScreenView, buf: BufferView, es: Seq<EntryView>)
    requires
        screen.in_step(buf),
    ensures
        screen.polled(buf.with_all(es)).entries == buf.with_all(es).entries,
        screen.polled(buf.with_all(es)).in_step(buf.with_all(es)),
{
    lemma_total_grows(buf, es);
}

/// New messages do not move a list that is pinned; another list shows its last
/// row.
pub proof fn a_pinned_list_stays(screen: LogScreenView, buf: BufferView)
    requires
        buf.total != screen.known_total,
    ensures
        screen.pinned ==> screen.polled(buf).scroll_to == screen.scroll_to,
        !screen.pinned ==> screen.polled(buf).scroll_to == screen.polled(buf).entries.len() - 1,
        screen.polled(buf).pinned == screen.pinned,
{
}

/// A look takes over the messages and their number where there are new ones, and
/// does nothing else where there are none.
pub proof fn a_look_takes_new_messages(screen: LogScreenView, buf: BufferView)
    ensures
        buf.total == screen.known_total ==> screen.polled(buf) == screen,
        buf.total != screen.known_total ==> screen.polled(buf).entries == buf.entries
            && screen.polled(buf).known_total == buf.total && screen.polled(buf).pinned
            == screen.pinned,
{
}

} // verus!
