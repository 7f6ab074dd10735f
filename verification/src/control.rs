//! The commands that a remote, a broker or a text message can give.
use vstd::prelude::*;

verus! {

/// A command to the panel.
#[derive(Debug, Clone, Copy, PartialEq, Eq, Structural)]
pub enum ControlCmd {
    Arm,
    Disarm,
    Silent,
    Alarm,
}

impl ControlCmd {
    /// The command of a remote's button.
    pub open spec fn of_button(idx: int) -> Option<ControlCmd> {
        if idx == 0 {
            Some(ControlCmd::Arm)
        } else if idx == 1 {
            Some(ControlCmd::Disarm)
        } else if idx == 2 {
            Some(ControlCmd::Silent)
        } else if idx == 3 {
            Some(ControlCmd::Alarm)
        } else {
            None
        }
    }

    /// The buttons of a remote: 0 arms, 1 disarms, 2 silences, 3 raises the alarm.
    pub fn from_button_idx(idx: usize) -> (r: Option<Self>)
        ensures
            r == ControlCmd::of_button(idx as int),
    {
        match idx {
            0 => Some(ControlCmd::Arm),
            1 => Some(ControlCmd::Disarm),
            2 => Some(ControlCmd::Silent),
            3 => Some(ControlCmd::Alarm),
            _ => None,
        }
    }
}

/// Every command has one button, and no two buttons share a command.
pub proof fn buttons_and_commands_pair_up(cmd: ControlCmd, i: int, j: int)
    ensures
        exists|k: int| 0 <= k < 4 && ControlCmd::of_button(k) == Some(cmd),
        ControlCmd::of_button(i) is Some <==> 0 <= i < 4,
        ControlCmd::of_button(i) is Some && ControlCmd::of_button(i) == ControlCmd::of_button(j)
            ==> i == j,
{
    assert(ControlCmd::of_button(0) == Some(ControlCmd::Arm));
    assert(ControlCmd::of_button(1) == Some(ControlCmd::Disarm));
    assert(ControlCmd::of_button(2) == Some(ControlCmd::Silent));
    assert(ControlCmd::of_button(3) == Some(ControlCmd::Alarm));
}

/// The first button arms, the second disarms, the third silences, the fourth
/// raises the alarm, and nothing else commands.
pub proof fn each_button_has_its_command(idx: int, cmd: ControlCmd)
    ensures
        ControlCmd::of_button(idx) == Some(cmd) <==> match cmd {
            ControlCmd::Arm => idx == 0,
            ControlCmd::Disarm => idx == 1,
            ControlCmd::Silent => idx == 2,
            ControlCmd::Alarm => idx == 3,
        },
{
}

} // verus!
