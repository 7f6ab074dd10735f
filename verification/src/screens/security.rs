//! The guard of the house: armed or not, alarm or not, and the lock of the screen.
use vstd::prelude::*;

use super::settings::{
    is_pin, lemma_pin_bytes, pin_read_view, pin_reads_back, pin_write, sanitized,
    sanitizing_gives_a_pin,
};
use super::{delete_last_char, without_last};
use crate::control::ControlCmd;
use crate::nvs::{answer, text_or, written, Image};
use crate::text::{repeat, repeated, same, views};
use vstd::utf8::encode_utf8;

verus! {

/// After so long without a touch or a command the screen goes dark and locks.
pub const INACTIVITY_TIMEOUT_NS: u64 = 60_000_000_000;

/// No further digit is taken once so many bytes were typed.
pub const ENTRY_BYTES: usize = 8;

/// The model of the panel.
pub ghost struct PanelView {
    pub armed: bool,
    pub alarm: bool,
    pub ui_locked: bool,
    pub pin_error: bool,
    /// What is shown of the typed PIN.
    pub pin_display: Seq<char>,
    /// What was typed.
    pub entered: Seq<char>,
    pub backlight_on: bool,
    /// When there was last a touch or a command, in nanoseconds.
    pub last_activity: u64,
}

/// What is shown of a typed PIN: one dot for each byte.
pub open spec fn dots(entered: Seq<char>) -> Seq<char> {
    repeated('●', encode_utf8(entered).len())
}

/// What is published about a command.
pub open spec fn event_of(cmd: ControlCmd) -> Seq<char> {
    match cmd {
        ControlCmd::Arm => "armed"@,
        ControlCmd::Disarm => "disarmed"@,
        ControlCmd::Silent => "alarm_silenced"@,
        ControlCmd::Alarm => "alarm"@,
    }
}

impl PanelView {
    /// A digit was typed.
    pub open spec fn typed(self, digit: Seq<char>) -> PanelView {
        let entered = if encode_utf8(self.entered).len() < ENTRY_BYTES {
            self.entered + digit
        } else {
            self.entered
        };
        PanelView { entered, pin_display: dots(entered), pin_error: false, ..self }
    }

    /// Digits were typed, one after the other.
    pub open spec fn all_typed(self, digits: Seq<char>) -> PanelView
        decreases digits.len(),
    {
        if digits.len() == 0 {
            self
        } else {
            self.all_typed(digits.drop_last()).typed(seq![digits.last()])
        }
    }

    /// The last character was taken back.
    pub open spec fn erased(self) -> PanelView {
        let entered = without_last(self.entered);
        PanelView { entered, pin_display: dots(entered), ..self }
    }

    /// The guard is on.
    pub open spec fn with_guard(self) -> PanelView {
        PanelView { armed: true, ui_locked: false, ..self }
    }

    /// The guard is off.
    pub open spec fn without_guard(self) -> PanelView {
        PanelView { armed: false, alarm: false, ui_locked: false, pin_error: false, ..self }
    }

    /// The typed PIN was confirmed: an empty stored PIN lets everyone in.
    pub open spec fn confirmed(self, stored: Seq<char>) -> PanelView {
        let cleared = PanelView { entered: Seq::empty(), pin_display: Seq::empty(), ..self };
        if stored.len() == 0 || self.entered == stored {
            cleared.without_guard()
        } else {
            PanelView { pin_error: true, ..cleared }
        }
    }

    /// A command was obeyed.
    pub open spec fn applied(self, cmd: ControlCmd) -> PanelView {
        match cmd {
            ControlCmd::Arm => self.with_guard(),
            ControlCmd::Disarm => self.without_guard(),
            ControlCmd::Silent => PanelView { alarm: false, ..self },
            ControlCmd::Alarm => PanelView { alarm: true, ..self },
        }
    }

    /// The commands were obeyed, one after the other.
    pub open spec fn all_applied(self, cmds: Seq<ControlCmd>) -> PanelView
        decreases cmds.len(),
    {
        if cmds.len() == 0 {
            self
        } else {
            self.all_applied(cmds.drop_last()).applied(cmds.last())
        }
    }

    /// Somebody is there.
    pub open spec fn woken(self, now: u64) -> PanelView {
        PanelView { backlight_on: true, last_activity: now, ..self }
    }

    /// It is time to go dark.
    pub open spec fn idle(self, now: u64) -> bool {
        self.backlight_on && now - self.last_activity >= INACTIVITY_TIMEOUT_NS
    }

    /// The screen went dark and is locked.
    pub open spec fn asleep(self) -> PanelView {
        PanelView { backlight_on: false, ui_locked: true, ..self }
    }

    /// The panel after a look at touches and commands.
    pub open spec fn polled(self, touched: bool, cmds: Seq<ControlCmd>, now: u64) -> PanelView {
        if touched || cmds.len() > 0 {
            self.woken(now).all_applied(cmds)
        } else if self.idle(now) {
            self.asleep()
        } else {
            self
        }
    }
}

/// The panel.
pub struct SecurityHandler {
    pub armed: bool,
    pub alarm: bool,
    pub ui_locked: bool,
    pub pin_error: bool,
    /// What is shown of the typed PIN.
    pub pin_display: String,
    /// What was typed.
    pub entered: String,
    pub backlight_on: bool,
    /// When there was last a touch or a command, in nanoseconds.
    pub last_activity: u64,
}

impl View for SecurityHandler {
    type V = PanelView;

    open spec fn view(&self) -> PanelView {
        PanelView {
            armed: self.armed,
            alarm: self.alarm,
            ui_locked: self.ui_locked,
            pin_error: self.pin_error,
            pin_display: self.pin_display@,
            entered: self.entered@,
            backlight_on: self.backlight_on,
            last_activity: self.last_activity,
        }
    }
}

/// What a look at touches and commands leads to.
pub struct Polled {
    /// Switch the backlight on or off.
    pub backlight: Option<bool>,
    /// What to publish, in this order.
    pub published: Vec<&'static str>,
}

fn byte_len(s: &String) -> (r: usize)
    ensures
        r == encode_utf8(s@).len(),
{
    s.as_str().as_bytes().len()
}

impl SecurityHandler {
    /// The panel after a start: the guard is on, the screen is lit.
    pub fn new(now: u64) -> (s: Self)
        ensures
            s@ == (PanelView {
                armed: true,
                alarm: false,
                ui_locked: false,
                pin_error: false,
                pin_display: Seq::empty(),
                entered: Seq::empty(),
                backlight_on: true,
                last_activity: now,
            }),
    {
        SecurityHandler {
            armed: true,
            alarm: false,
            ui_locked: false,
            pin_error: false,
            pin_display: String::new(),
            entered: String::new(),
            backlight_on: true,
            last_activity: now,
        }
    }

    /// A digit key.
    pub fn pin_digit(&mut self, digit: &str)
        ensures
            final(self)@ == old(self)@.typed(digit@),
    {
        if byte_len(&self.entered) < ENTRY_BYTES {
            self.entered.append(digit);
        }
        self.pin_display = repeat('●', byte_len(&self.entered));
        self.pin_error = false;
    }

    /// The DEL key.
    pub fn pin_delete(&mut self)
        ensures
            final(self)@ == old(self)@.erased(),
    {
        self.entered = delete_last_char(self.entered.as_str());
        self.pin_display = repeat('●', byte_len(&self.entered));
    }

    /// The OK key. `stored` is the PIN of the settings.
    pub fn pin_confirm(&mut self, stored: &str)
        ensures
            final(self)@ == old(self)@.confirmed(stored@),
    {
        let ok = stored.is_empty() || same(self.entered.as_str(), stored);
        self.entered = String::new();
        self.pin_display = String::new();
        if ok {
            self.unlock();
        } else {
            self.pin_error = true;
        }
    }

    /// The key that sets the guard. Returns what to publish.
    pub fn arm_now(&mut self) -> (event: &'static str)
        ensures
            final(self)@ == old(self)@.with_guard(),
            event@ == event_of(ControlCmd::Arm),
    {
        self.do_arm();
        "armed"
    }

    /// The key that locks the screen.
    pub fn lock_screen(&mut self)
        ensures
            final(self)@ == (PanelView { ui_locked: true, ..old(self)@ }),
    {
        self.ui_locked = true;
    }

    /// Sets the guard.
    pub fn do_arm(&mut self)
        ensures
            final(self)@ == old(self)@.with_guard(),
    {
        self.armed = true;
        self.ui_locked = false;
    }

    /// Takes the guard off.
    pub fn disarm(&mut self)
        ensures
            final(self)@ == old(self)@.without_guard(),
    {
        self.armed = false;
        self.alarm = false;
        self.ui_locked = false;
        self.pin_error = false;
    }

    /// Takes off the guard, if it is on, and the lock of the screen.
    pub fn unlock(&mut self)
        ensures
            final(self)@ == old(self)@.without_guard(),
    {
        if self.armed || self.alarm {
            self.disarm();
        } else {
            self.ui_locked = false;
            self.pin_error = false;
        }
    }

    /// Obeys a command. Returns what to publish.
    pub fn apply_cmd(&mut self, cmd: ControlCmd) -> (event: &'static str)
        ensures
            final(self)@ == old(self)@.applied(cmd),
            event@ == event_of(cmd),
    {
        match cmd {
            ControlCmd::Arm => {
                self.do_arm();
                "armed"
            },
            ControlCmd::Disarm => {
                self.disarm();
                "disarmed"
            },
            ControlCmd::Silent => {
                self.alarm = false;
                "alarm_silenced"
            },
            ControlCmd::Alarm => {
                self.alarm = true;
                "alarm"
            },
        }
    }

    /// Goes dark where nobody was there for long. Returns whether it did: the
    /// backlight is then to be switched off.
    pub fn tick_inactivity(&mut self, now: u64) -> (dark: bool)
        ensures
            dark == old(self)@.idle(now),
            final(self)@ == (if old(self)@.idle(now) {
                old(self)@.asleep()
            } else {
                old(self)@
            }),
    {
        if self.backlight_on && now >= self.last_activity && now - self.last_activity
            >= INACTIVITY_TIMEOUT_NS {
            self.backlight_on = false;
            self.ui_locked = true;
            true
        } else {
            false
        }
    }

    /// Takes whether the screen was touched, and the commands that came.
    pub fn poll(&mut self, touched: bool, cmds: &Vec<ControlCmd>, now: u64) -> (r: Polled)
        ensures
            final(self)@ == old(self)@.polled(touched, cmds@, now),
            views(r.published@) == cmds@.map_values(|c: ControlCmd| event_of(c)),
            r.backlight == (if touched || cmds@.len() > 0 {
                if old(self)@.backlight_on {
                    None
                } else {
                    Some(true)
                }
            } else if old(self)@.idle(now) {
                Some(false)
            } else {
                None
            }),
            match r.backlight {
                Some(on) => final(self)@.backlight_on == on && old(self)@.backlight_on == !on,
                None => final(self)@.backlight_on == old(self)@.backlight_on,
            },
    {
        let mut backlight: Option<bool> = None;
        let mut published: Vec<&'static str> = Vec::new();
        if touched || cmds.len() > 0 {
            if !self.backlight_on {
                backlight = Some(true);
                self.backlight_on = true;
            }
            self.last_activity = now;
        }
        let ghost awake = self@;
        let mut i: usize = 0;
        assert(views(published@) =~= cmds@.take(0).map_values(|c: ControlCmd| event_of(c)));
        while i < cmds.len()
            invariant
                i <= cmds@.len(),
                self@ == awake.all_applied(cmds@.take(i as int)),
                views(published@) == cmds@.take(i as int).map_values(
                    |c: ControlCmd| event_of(c),
                ),
            decreases cmds@.len() - i,
        {
            let event = self.apply_cmd(cmds[i]);
            proof {
                let so_far = cmds@.take(i as int);
                assert(cmds@.take(i + 1).drop_last() =~= so_far);
                assert(cmds@.take(i + 1).last() == cmds@[i as int]);
                crate::text::lemma_views_push(published@, event);
                assert(cmds@.take(i + 1).map_values(|c: ControlCmd| event_of(c))
                    =~= so_far.map_values(|c: ControlCmd| event_of(c)).push(event@));
            }
            published.push(event);
            i = i + 1;
        }
        assert(cmds@.take(i as int) =~= cmds@);
        proof {
            lemma_commands_keep_watch(awake, cmds@);
        }
        if self.tick_inactivity(now) {
            backlight = Some(false);
        }
        Polled { backlight, published }
    }
}

proof fn lemma_commands_keep_watch(panel: PanelView, cmds: Seq<ControlCmd>)
    ensures
        panel.all_applied(cmds).last_activity == panel.last_activity,
        panel.all_applied(cmds).backlight_on == panel.backlight_on,
    decreases cmds.len(),
{
    if cmds.len() > 0 {
        lemma_commands_keep_watch(panel, cmds.drop_last());
    }
}

// ── Laws ────────────────────────────────────────────────────────────────────

/// A wrong PIN changes nothing but what was typed, and is told of.
pub proof fn a_wrong_pin_opens_nothing(panel: PanelView, stored: Seq<char>)
    requires
        stored.len() > 0,
        panel.entered != stored,
    ensures
        panel.confirmed(stored) == (PanelView {
            entered: Seq::empty(),
            pin_display: Seq::empty(),
            pin_error: true,
            ..panel
        }),
{
}

proof fn lemma_typed(panel: PanelView, digits: Seq<char>)
    requires
        is_pin(digits),
        panel.entered.len() == 0,
    ensures
        panel.all_typed(digits).entered == digits,
        panel.all_typed(digits).armed == panel.armed,
        panel.all_typed(digits).alarm == panel.alarm,
        panel.all_typed(digits).ui_locked == panel.ui_locked,
    decreases digits.len(),
{
    if digits.len() > 0 {
        let init = digits.drop_last();
        assert(forall|i: int| 0 <= i < init.len() ==> init[i] == digits[i]);
        lemma_typed(panel, init);
        lemma_pin_bytes(init);
        assert(init + seq![digits.last()] =~= digits);
    } else {
        assert(panel.entered =~= digits);
    }
}

/// Typing the stored PIN digit by digit and confirming it takes off the guard,
/// the alarm and the lock; typing alone takes off none of them.
pub proof fn the_right_pin_opens(panel: PanelView, stored: Seq<char>)
    requires
        is_pin(stored),
        panel.entered.len() == 0,
    ensures
        ({
            let typed = panel.all_typed(stored);
            let open = typed.confirmed(stored);
            &&& typed.armed == panel.armed && typed.alarm == panel.alarm && typed.ui_locked
                == panel.ui_locked
            &&& !open.armed && !open.alarm && !open.ui_locked && !open.pin_error
        }),
{
    lemma_typed(panel, stored);
}

/// The PIN that was set in the settings opens the panel after a restart.
pub proof fn a_saved_pin_opens_after_a_restart(image: Image, pin: Seq<char>, panel: PanelView)
    requires
        panel.entered.len() == 0,
    ensures
        ({
            let stored = text_or(
                answer(written(image, pin_write(sanitized(pin))), pin_read_view()),
                ""@,
            );
            let open = panel.all_typed(sanitized(pin)).confirmed(stored);
            !open.armed && !open.alarm && !open.ui_locked && !open.pin_error
        }),
{
    pin_reads_back(image, pin);
    sanitizing_gives_a_pin(pin);
    the_right_pin_opens(panel, sanitized(pin));
}

/// Without a PIN any entry opens.
pub proof fn without_a_pin_everyone_gets_in(panel: PanelView)
    ensures
        ({
            let open = panel.confirmed(Seq::empty());
            !open.armed && !open.alarm && !open.ui_locked && !open.pin_error
        }),
{
}

/// The DEL key takes back a digit that was taken.
pub proof fn deleting_undoes_typing(panel: PanelView, digit: char)
    requires
        encode_utf8(panel.entered).len() < ENTRY_BYTES,
    ensures
        panel.typed(seq![digit]).erased().entered == panel.entered,
{
    assert((panel.entered + seq![digit]).drop_last() =~= panel.entered);
}

/// Only the command to disarm takes the guard off, and only the commands to
/// disarm and to silence end an alarm.
pub proof fn the_guard_is_not_lost(panel: PanelView, cmds: Seq<ControlCmd>)
    ensures
        panel.armed && !cmds.contains(ControlCmd::Disarm) ==> panel.all_applied(cmds).armed,
        panel.alarm && !cmds.contains(ControlCmd::Disarm) && !cmds.contains(ControlCmd::Silent)
            ==> panel.all_applied(cmds).alarm,
    decreases cmds.len(),
{
    if cmds.len() > 0 {
        let init = cmds.drop_last();
        the_guard_is_not_lost(panel, init);
        let last = cmds.len() - 1;
        assert(cmds[last] == cmds.last());
        assert forall|c: ControlCmd| init.contains(c) implies cmds.contains(c) by {
            let i = choose|i: int| 0 <= i < init.len() && init[i] == c;
            assert(cmds[i] == c);
        }
        assert(cmds.contains(cmds.last()));
    }
}

/// Time alone never takes the guard off or ends an alarm: a minute without a
/// touch or a command darkens and locks the screen, less does nothing.
pub proof fn idleness_locks_the_screen(panel: PanelView, now: u64)
    requires
        panel.backlight_on,
        panel.last_activity <= now,
    ensures
        ({
            let after = panel.polled(false, Seq::empty(), now);
            &&& after.armed == panel.armed && after.alarm == panel.alarm
            &&& now - panel.last_activity >= INACTIVITY_TIMEOUT_NS ==> after.ui_locked
                && !after.backlight_on
            &&& now - panel.last_activity < INACTIVITY_TIMEOUT_NS ==> after == panel
        }),
{
}

/// A touch or a command lights a dark screen; a touch alone does not unlock it.
pub proof fn activity_lights_the_screen(
    panel: PanelView,
    touched: bool,
    cmds: Seq<ControlCmd>,
    now: u64,
)
    requires
        touched || cmds.len() > 0,
    ensures
        panel.polled(touched, cmds, now).backlight_on,
        panel.polled(touched, cmds, now).last_activity == now,
        cmds.len() == 0 ==> panel.polled(touched, cmds, now).ui_locked == panel.ui_locked,
{
    lemma_commands_keep_watch(panel.woken(now), cmds);
}

/// No command of the series after its `i`-th is `c`.
pub open spec fn none_after(cmds: Seq<ControlCmd>, i: int, c: ControlCmd) -> bool {
    forall|j: int| i < j < cmds.len() ==> #[trigger] cmds[j] != c
}

proof fn lemma_last_word(panel: PanelView, cmds: Seq<ControlCmd>, i: int)
    requires
        0 <= i < cmds.len(),
    ensures
        ({
            let after = panel.all_applied(cmds);
            &&& cmds[i] is Alarm && none_after(cmds, i, ControlCmd::Silent) && none_after(
                cmds,
                i,
                ControlCmd::Disarm,
            ) ==> after.alarm
            &&& (cmds[i] is Silent || cmds[i] is Disarm) && none_after(cmds, i, ControlCmd::Alarm)
                ==> !after.alarm
            &&& cmds[i] is Arm && none_after(cmds, i, ControlCmd::Disarm) ==> after.armed
            &&& cmds[i] is Disarm && none_after(cmds, i, ControlCmd::Arm) ==> !after.armed
            &&& cmds[i] is Arm || cmds[i] is Disarm ==> !after.ui_locked
            &&& cmds[i] is Disarm ==> !after.pin_error
        }),
    decreases cmds.len(),
{
    let init = cmds.drop_last();
    let last = cmds.len() - 1;
    assert(cmds[last] == cmds.last());
    if i < last {
        lemma_last_word(panel, init, i);
        assert(init[i] == cmds[i]);
        assert forall|c: ControlCmd| #[trigger] none_after(cmds, i, c) implies none_after(
            init,
            i,
            c,
        ) && cmds.last() != c by {
            assert(forall|j: int| i < j < init.len() ==> init[j] == cmds[j]);
        }
    }
}

/// The last word counts. In a series of commands, whatever the panel was before:
/// the alarm is on where the last of those that concern it raises it, and off where
/// that one silences or disarms; the guard is on where the last of those that
/// concern it arms, and off where that one disarms. Arming and disarming unlock the
/// screen.
pub proof fn the_last_command_counts(
    panel: PanelView,
    touched: bool,
    cmds: Seq<ControlCmd>,
    now: u64,
    i: int,
)
    requires
        0 <= i < cmds.len(),
    ensures
        ({
            let after = panel.polled(touched, cmds, now);
            &&& cmds[i] is Alarm && none_after(cmds, i, ControlCmd::Silent) && none_after(
                cmds,
                i,
                ControlCmd::Disarm,
            ) ==> after.alarm
            &&& (cmds[i] is Silent || cmds[i] is Disarm) && none_after(cmds, i, ControlCmd::Alarm)
                ==> !after.alarm
            &&& cmds[i] is Arm && none_after(cmds, i, ControlCmd::Disarm) ==> after.armed
            &&& cmds[i] is Disarm && none_after(cmds, i, ControlCmd::Arm) ==> !after.armed
            &&& cmds[i] is Arm || cmds[i] is Disarm ==> !after.ui_locked
            &&& cmds[i] is Disarm ==> !after.pin_error
        }),
{
    lemma_last_word(panel.woken(now), cmds, i);
}

/// One command does its work and nothing else: arming leaves the alarm as it is,
/// silencing and raising the alarm leave the guard and the lock, and no command
/// touches what was typed, the backlight or the time of the last activity.
pub proof fn a_command_does_its_work(panel: PanelView, cmd: ControlCmd)
    ensures
        panel.applied(cmd).armed == match cmd {
            ControlCmd::Arm => true,
            ControlCmd::Disarm => false,
            _ => panel.armed,
        },
        panel.applied(cmd).alarm == match cmd {
            ControlCmd::Arm => panel.alarm,
            ControlCmd::Alarm => true,
            _ => false,
        },
        panel.applied(cmd).ui_locked == (panel.ui_locked && (cmd is Silent || cmd is Alarm)),
        panel.applied(cmd).pin_error == (panel.pin_error && !(cmd is Disarm)),
        panel.applied(cmd).entered == panel.entered,
        panel.applied(cmd).pin_display == panel.pin_display,
        panel.applied(cmd).backlight_on == panel.backlight_on,
        panel.applied(cmd).last_activity == panel.last_activity,
        panel.all_applied(seq![cmd]) == panel.applied(cmd),
{
    assert(seq![cmd].drop_last() =~= Seq::<ControlCmd>::empty());
    assert(panel.all_applied(seq![cmd].drop_last()) == panel);
}

/// A series of commands is obeyed in its order, each once: obeying two series one
/// after the other is obeying them in a row.
pub proof fn commands_are_obeyed_in_order(
    panel: PanelView,
    first: Seq<ControlCmd>,
    next: Seq<ControlCmd>,
)
    ensures
        panel.all_applied(first + next) == panel.all_applied(first).all_applied(next),
    decreases next.len(),
{
    if next.len() == 0 {
        assert(first + next =~= first);
    } else {
        assert((first + next).drop_last() =~= first + next.drop_last());
        assert((first + next).last() == next.last());
        commands_are_obeyed_in_order(panel, first, next.drop_last());
    }
}

/// What is published tells the command.
pub proof fn what_is_published_tells_the_command(cmd: ControlCmd)
    ensures
        event_of(cmd) == "armed"@ <==> cmd is Arm,
        event_of(cmd) == "disarmed"@ <==> cmd is Disarm,
        event_of(cmd) == "alarm_silenced"@ <==> cmd is Silent,
        event_of(cmd) == "alarm"@ <==> cmd is Alarm,
{
    reveal_strlit("armed");
    reveal_strlit("disarmed");
    reveal_strlit("alarm_silenced");
    reveal_strlit("alarm");
    assert("armed"@.len() == 5 && "alarm"@.len() == 5 && "disarmed"@.len() == 8);
    assert("alarm_silenced"@.len() == 14);
    assert("armed"@[1] == 'r' && "alarm"@[1] == 'l');
}

/// The entry takes characters until it holds eight bytes, and none from then on;
/// each key takes the error back, and shows a dot for each byte of the entry. No key
/// touches the guard, the alarm, the lock or the backlight.
pub proof fn the_entry_takes_eight_bytes(panel: PanelView, digit: Seq<char>)
    ensures
        ({
            let after = panel.typed(digit);
            let erased = panel.erased();
            &&& encode_utf8(panel.entered).len() < 8 ==> after.entered == panel.entered + digit
            &&& encode_utf8(panel.entered).len() >= 8 ==> after.entered == panel.entered
            &&& !after.pin_error
            &&& after.pin_display.len() == encode_utf8(after.entered).len()
            &&& erased.pin_display.len() == encode_utf8(erased.entered).len()
            &&& forall|i: int| 0 <= i < after.pin_display.len() ==> after.pin_display[i] == '●'
            &&& forall|i: int| 0 <= i < erased.pin_display.len() ==> erased.pin_display[i] == '●'
            &&& panel.entered.len() == 0 ==> erased.entered == panel.entered
            &&& panel.entered.len() > 0 ==> erased.entered.len() == panel.entered.len() - 1
            &&& forall|i: int|
                0 <= i < erased.entered.len() ==> #[trigger] erased.entered[i] == panel.entered[i]
            &&& erased.pin_error == panel.pin_error
            &&& after.armed == panel.armed && erased.armed == panel.armed
            &&& after.alarm == panel.alarm && erased.alarm == panel.alarm
            &&& after.ui_locked == panel.ui_locked && erased.ui_locked == panel.ui_locked
            &&& after.backlight_on == panel.backlight_on && erased.backlight_on
                == panel.backlight_on
            &&& after.last_activity == panel.last_activity && erased.last_activity
                == panel.last_activity
        }),
{
}

/// The OK key opens just where there is no PIN or the entry is the PIN; either way
/// the entry is gone. Opening takes off the guard, the alarm, the lock and the error;
/// what does not open leaves the first three as they were, and shows the error.
pub proof fn the_pin_decides(panel: PanelView, stored: Seq<char>)
    ensures
        ({
            let after = panel.confirmed(stored);
            let opens = stored.len() == 0 || panel.entered == stored;
            &&& after.entered.len() == 0 && after.pin_display.len() == 0
            &&& after.armed == (panel.armed && !opens)
            &&& after.alarm == (panel.alarm && !opens)
            &&& after.ui_locked == (panel.ui_locked && !opens)
            &&& after.pin_error == !opens
            &&& after.backlight_on == panel.backlight_on
            &&& after.last_activity == panel.last_activity
        }),
{
}

/// The screen goes dark after sixty seconds without a touch or a command, no sooner,
/// and only where it was lit; a touch or a command lights it. Neither touches the
/// entry.
pub proof fn the_screen_sleeps_after_a_minute(
    panel: PanelView,
    touched: bool,
    cmds: Seq<ControlCmd>,
    now: u64,
)
    ensures
        ({
            let after = panel.polled(touched, cmds, now);
            let quiet = !touched && cmds.len() == 0;
            let sleeps = quiet && panel.backlight_on && now >= panel.last_activity + 60_000_000_000;
            &&& !quiet ==> after.backlight_on && after.last_activity == now
            &&& sleeps ==> !after.backlight_on && after.ui_locked && after.last_activity
                == panel.last_activity
            &&& quiet ==> after.armed == panel.armed && after.alarm == panel.alarm
                && after.pin_error == panel.pin_error
            &&& quiet && !sleeps ==> after == panel
            &&& after.entered == panel.entered && after.pin_display == panel.pin_display
            &&& cmds.len() == 0 && touched ==> after.armed == panel.armed && after.alarm
                == panel.alarm && after.ui_locked == panel.ui_locked && after.pin_error
                == panel.pin_error
        }),
{
    lemma_commands_keep_watch(panel.woken(now), cmds);
    lemma_commands_keep_the_entry(panel.woken(now), cmds);
}

proof fn lemma_commands_keep_the_entry(panel: PanelView, cmds: Seq<ControlCmd>)
    ensures
        panel.all_applied(cmds).entered == panel.entered,
        panel.all_applied(cmds).pin_display == panel.pin_display,
    decreases cmds.len(),
{
    if cmds.len() > 0 {
        lemma_commands_keep_the_entry(panel, cmds.drop_last());
    }
}

} // verus!
