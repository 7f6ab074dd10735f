//! From readings of the touch panel to pointer events.
use vstd::prelude::*;

verus! {

/// How far a finger moves, in pixels, before a press becomes a drag. The panel
/// jitters by 15 to 20 pixels under a finger that does not move.
pub const DRAG_THRESHOLD: u16 = 30;

/// A point of the screen.
#[derive(Debug, Clone, Copy, PartialEq, Eq, Structural)]
pub struct Position {
    pub x: u16,
    pub y: u16,
}

/// What the user interface is told.
#[derive(Debug, Clone, Copy, PartialEq, Eq, Structural)]
pub enum PointerEvent {
    Pressed(Position),
    Moved(Position),
    Released(Position),
}

/// The state of the touch panel.
#[derive(Debug, Clone, Copy, PartialEq, Eq, Structural)]
pub struct TouchController {
    /// A finger is down.
    pub pressed: bool,
    /// It has moved far enough to be dragging.
    pub is_drag: bool,
    /// Where it came down.
    pub press_pos: Position,
    /// Where it was reported last.
    pub last_pos: Position,
}

/// The distance between two coordinates.
pub open spec fn distance(a: u16, b: u16) -> int {
    if a >= b {
        a - b
    } else {
        b - a
    }
}

/// `p` and `q` are at least `d` pixels apart in one of the two directions.
pub open spec fn apart(p: Position, q: Position, d: int) -> bool {
    distance(p.x, q.x) >= d || distance(p.y, q.y) >= d
}

impl TouchController {
    /// The state after a reading, and what is told of it.
    pub open spec fn after(self, reading: Option<Position>) -> (TouchController, Option<
        PointerEvent,
    >) {
        match reading {
            Some(pos) => if !self.pressed {
                (
                    TouchController {
                        pressed: true,
                        is_drag: false,
                        press_pos: pos,
                        last_pos: pos,
                    },
                    Some(PointerEvent::Pressed(pos)),
                )
            } else {
                let is_drag = self.is_drag || apart(pos, self.press_pos, DRAG_THRESHOLD as int);
                if is_drag && apart(pos, self.last_pos, 1) {
                    (
                        TouchController { is_drag, last_pos: pos, ..self },
                        Some(PointerEvent::Moved(pos)),
                    )
                } else {
                    (TouchController { is_drag, ..self }, None)
                }
            },
            None => if self.pressed {
                (
                    TouchController { pressed: false, is_drag: false, ..self },
                    Some(PointerEvent::Released(self.reported())),
                )
            } else {
                (self, None)
            },
        }
    }

    /// Where a finger that is down was reported last.
    pub open spec fn reported(self) -> Position {
        if self.is_drag {
            self.last_pos
        } else {
            self.press_pos
        }
    }

    /// The state after a series of readings.
    pub open spec fn after_all(self, readings: Seq<Option<Position>>) -> TouchController
        decreases readings.len(),
    {
        if readings.len() == 0 {
            self
        } else {
            self.after_all(readings.drop_last()).after(readings.last()).0
        }
    }

    /// What is told of a series of readings.
    pub open spec fn events(self, readings: Seq<Option<Position>>) -> Seq<PointerEvent>
        decreases readings.len(),
    {
        if readings.len() == 0 {
            Seq::empty()
        } else {
            let before = self.events(readings.drop_last());
            match self.after_all(readings.drop_last()).after(readings.last()).1 {
                Some(e) => before.push(e),
                None => before,
            }
        }
    }

    /// A panel that nothing touches.
    pub fn init() -> (c: Self)
        ensures
            c == (TouchController {
                pressed: false,
                is_drag: false,
                press_pos: (Position { x: 0, y: 0 }),
                last_pos: (Position { x: 0, y: 0 }),
            }),
    {
        let origin = Position { x: 0, y: 0 };
        TouchController { pressed: false, is_drag: false, press_pos: origin, last_pos: origin }
    }

    /// Takes a reading: where a finger is, or that there is none. Returns what
    /// the user interface is to be told, and whether the finger just came down.
    pub fn poll(&mut self, reading: Option<Position>) -> (r: (Option<PointerEvent>, bool))
        ensures
            *final(self) == old(self).after(reading).0,
            r.0 == old(self).after(reading).1,
            r.1 == (reading is Some && !old(self).pressed),
    {
        match reading {
            Some(pos) => {
                if !self.pressed {
                    self.pressed = true;
                    self.is_drag = false;
                    self.press_pos = pos;
                    self.last_pos = pos;
                    (Some(PointerEvent::Pressed(pos)), true)
                } else {
                    if !self.is_drag && far(pos, self.press_pos, DRAG_THRESHOLD) {
                        self.is_drag = true;
                    }
                    if self.is_drag && far(pos, self.last_pos, 1) {
                        self.last_pos = pos;
                        (Some(PointerEvent::Moved(pos)), false)
                    } else {
                        (None, false)
                    }
                }
            },
            None => {
                if self.pressed {
                    let release_pos = if self.is_drag {
                        self.last_pos
                    } else {
                        self.press_pos
                    };
                    self.pressed = false;
                    self.is_drag = false;
                    (Some(PointerEvent::Released(release_pos)), false)
                } else {
                    (None, false)
                }
            },
        }
    }
}

fn gap(a: u16, b: u16) -> (r: u16)
    ensures
        r == distance(a, b),
{
    if a >= b {
        a - b
    } else {
        b - a
    }
}

fn far(p: Position, q: Position, d: u16) -> (r: bool)
    ensures
        r == apart(p, q, d as int),
{
    gap(p.x, q.x) >= d || gap(p.y, q.y) >= d
}

// ── Laws ────────────────────────────────────────────────────────────────────

/// A touch in which the finger stays within the threshold: it comes down at
/// `pos` and is lifted again.
pub open spec fn tap(pos: Position, held: Seq<Position>) -> Seq<Option<Position>> {
    seq![Some(pos)] + held.map_values(|p: Position| Some(p)) + seq![None]
}

proof fn lemma_held(c: TouchController, pos: Position, held: Seq<Position>)
    requires
        !c.pressed,
        forall|i: int|
            0 <= i < held.len() ==> !apart(#[trigger] held[i], pos, DRAG_THRESHOLD as int),
    ensures
        ({
            let readings = seq![Some(pos)] + held.map_values(|p: Position| Some(p));
            &&& c.after_all(readings) == (TouchController {
                pressed: true,
                is_drag: false,
                press_pos: pos,
                last_pos: pos,
            })
            &&& c.events(readings) == seq![PointerEvent::Pressed(pos)]
        }),
    decreases held.len(),
{
    let readings = seq![Some(pos)] + held.map_values(|p: Position| Some(p));
    if held.len() == 0 {
        assert(readings =~= seq![Some(pos)]);
        assert(readings.drop_last() =~= Seq::<Option<Position>>::empty());
        assert(c.after_all(readings.drop_last()) == c);
        assert(c.events(readings.drop_last()) =~= Seq::<PointerEvent>::empty());
        assert(c.events(readings) =~= seq![PointerEvent::Pressed(pos)]);
    } else {
        assert(forall|i: int| 0 <= i < held.drop_last().len() ==> held.drop_last()[i] == held[i]);
        lemma_held(c, pos, held.drop_last());
        assert(readings.drop_last() =~= seq![Some(pos)] + held.drop_last().map_values(
            |p: Position| Some(p),
        ));
        assert(readings.last() == Some(held.last()));
        assert(held.last() == held[held.len() - 1]);
    }
}

/// A tap is a click: the press and the release are told at the same point, and
/// nothing between them, however the panel jitters within the threshold.
pub proof fn tap_is_a_click(c: TouchController, pos: Position, held: Seq<Position>)
    requires
        !c.pressed,
        forall|i: int|
            0 <= i < held.len() ==> !apart(#[trigger] held[i], pos, DRAG_THRESHOLD as int),
    ensures
        c.events(tap(pos, held)) == seq![PointerEvent::Pressed(pos), PointerEvent::Released(pos)],
{
    lemma_held(c, pos, held);
    let readings = tap(pos, held);
    assert(readings.drop_last() =~= seq![Some(pos)] + held.map_values(|p: Position| Some(p)));
    assert(c.events(readings) =~= seq![PointerEvent::Pressed(pos), PointerEvent::Released(pos)]);
}

/// Whether a finger is down after these events, if `down` said so before them
/// and each press found none down, each move and release one.
pub open spec fn in_turn(down: bool, events: Seq<PointerEvent>) -> Option<bool>
    decreases events.len(),
{
    if events.len() == 0 {
        Some(down)
    } else {
        match (in_turn(down, events.drop_last()), events.last()) {
            (Some(false), PointerEvent::Pressed(_)) => Some(true),
            (Some(true), PointerEvent::Moved(_)) => Some(true),
            (Some(true), PointerEvent::Released(_)) => Some(false),
            _ => None,
        }
    }
}

/// Presses and releases come in turn, and moves only between a press and its
/// release, whatever the panel reads.
pub proof fn events_come_in_turn(c: TouchController, readings: Seq<Option<Position>>)
    ensures
        in_turn(c.pressed, c.events(readings)) == Some(c.after_all(readings).pressed),
    decreases readings.len(),
{
    if readings.len() > 0 {
        events_come_in_turn(c, readings.drop_last());
        let before = c.events(readings.drop_last());
        match c.after_all(readings.drop_last()).after(readings.last()).1 {
            Some(e) => {
                assert(before.push(e).drop_last() =~= before);
            },
            None => {},
        }
    }
}

/// The point of an event.
pub open spec fn point_of(e: PointerEvent) -> Position {
    match e {
        PointerEvent::Pressed(p) => p,
        PointerEvent::Moved(p) => p,
        PointerEvent::Released(p) => p,
    }
}

/// A release is told where the finger was told of last: at the press for a tap,
/// at the last move for a drag.
pub proof fn release_is_where_last_told(c: TouchController, readings: Seq<Option<Position>>)
    requires
        !c.pressed,
        c.after_all(readings).pressed,
    ensures
        c.events(readings).len() > 0,
        point_of(c.events(readings).last()) == c.after_all(readings).reported(),
        c.events(readings.push(None)) == c.events(readings).push(
            PointerEvent::Released(point_of(c.events(readings).last())),
        ),
    decreases readings.len(),
{
    assert(readings.push(None).drop_last() =~= readings);
    if readings.len() > 0 {
        let s = c.after_all(readings.drop_last());
        if s.pressed {
            release_is_where_last_told(c, readings.drop_last());
            lemma_drag_was_told(c, readings.drop_last());
        }
    }
}

/// Before a press becomes a drag, the last told point is the point of the press.
proof fn lemma_drag_was_told(c: TouchController, readings: Seq<Option<Position>>)
    requires
        !c.pressed,
    ensures
        c.after_all(readings).pressed && !c.after_all(readings).is_drag ==> c.after_all(
            readings,
        ).last_pos == c.after_all(readings).press_pos,
    decreases readings.len(),
{
    if readings.len() > 0 {
        lemma_drag_was_told(c, readings.drop_last());
    }
}

/// A drag is followed: a finger that is read 30 pixels or more from where it came
/// down, to the left, to the right, above or below, is told as a move to that
/// point, unless that is where it was told last. From then on the smallest move is
/// told, back towards the press too.
pub proof fn a_drag_is_followed(c: TouchController, first: Position, next: Position)
    requires
        c.pressed,
        ({
            ||| first.x >= c.press_pos.x + 30
            ||| c.press_pos.x >= first.x + 30
            ||| first.y >= c.press_pos.y + 30
            ||| c.press_pos.y >= first.y + 30
            ||| c.is_drag
        }),
    ensures
        c.events(seq![Some(first)]) == if first == c.last_pos {
            Seq::<PointerEvent>::empty()
        } else {
            seq![PointerEvent::Moved(first)]
        },
        c.events(seq![Some(first), Some(next)]) == if next == first {
            c.events(seq![Some(first)])
        } else {
            c.events(seq![Some(first)]).push(PointerEvent::Moved(next))
        },
        c.after_all(seq![Some(first)]).is_drag,
        c.after_all(seq![Some(first)]).pressed,
        c.after_all(seq![Some(first)]).last_pos == first,
{
    lemma_one_reading(c, Some(first));
    let d = c.after(Some(first)).0;
    let both = seq![Some(first), Some(next)];
    assert(both.drop_last() =~= seq![Some(first)]);
    assert(both.last() == Some(next));
    assert(d.is_drag && d.pressed && d.last_pos == first);
}

proof fn lemma_one_reading(c: TouchController, r: Option<Position>)
    ensures
        c.after_all(seq![r]) == c.after(r).0,
        c.events(seq![r]) == match c.after(r).1 {
            Some(e) => seq![e],
            None => Seq::<PointerEvent>::empty(),
        },
{
    let one = seq![r];
    assert(one.drop_last() =~= Seq::<Option<Position>>::empty());
    assert(one.last() == r);
    assert(c.after_all(one.drop_last()) == c);
    assert(c.events(one.drop_last()) =~= Seq::<PointerEvent>::empty());
}

/// The points of a path that differ from the one before them, `from` being before
/// the first.
pub open spec fn moves(from: Position, path: Seq<Position>) -> Seq<PointerEvent>
    decreases path.len(),
{
    if path.len() == 0 {
        Seq::empty()
    } else {
        let before = if path.len() == 1 {
            from
        } else {
            path[path.len() - 2]
        };
        if path.last() == before {
            moves(from, path.drop_last())
        } else {
            moves(from, path.drop_last()).push(PointerEvent::Moved(path.last()))
        }
    }
}

/// The readings of a finger that comes down at `pos`, is held there and then goes
/// along `path`.
pub open spec fn stroke(pos: Position, held: Seq<Position>, path: Seq<Position>) -> Seq<
    Option<Position>,
> {
    seq![Some(pos)] + held.map_values(|p: Position| Some(p)) + path.map_values(
        |p: Position| Some(p),
    )
}

proof fn lemma_dragged(c: TouchController, pos: Position, held: Seq<Position>, path: Seq<Position>)
    requires
        !c.pressed,
        forall|i: int|
            0 <= i < held.len() ==> !apart(#[trigger] held[i], pos, DRAG_THRESHOLD as int),
        path.len() > 0,
        ({
            ||| path[0].x >= pos.x + 30
            ||| pos.x >= path[0].x + 30
            ||| path[0].y >= pos.y + 30
            ||| pos.y >= path[0].y + 30
        }),
    ensures
        ({
            let readings = stroke(pos, held, path);
            let s = c.after_all(readings);
            &&& c.events(readings) == seq![PointerEvent::Pressed(pos)] + moves(pos, path)
            &&& s.pressed && s.is_drag && s.last_pos == path.last()
        }),
    decreases path.len(),
{
    let readings = stroke(pos, held, path);
    let shorter = stroke(pos, held, path.drop_last());
    assert(readings.drop_last() =~= shorter);
    assert(readings.last() == Some(path.last()));
    if path.len() == 1 {
        assert(shorter =~= seq![Some(pos)] + held.map_values(|p: Position| Some(p)));
        lemma_held(c, pos, held);
        assert(moves(pos, path.drop_last()) =~= Seq::<PointerEvent>::empty());
        assert(path.last() == path[0]);
        assert(c.events(readings) =~= seq![PointerEvent::Pressed(pos)] + moves(pos, path));
    } else {
        assert(path.drop_last()[0] == path[0]);
        assert(path.drop_last().last() == path[path.len() - 2]);
        lemma_dragged(c, pos, held, path.drop_last());
        assert(c.events(readings) =~= seq![PointerEvent::Pressed(pos)] + moves(pos, path));
    }
}

/// A drag as a whole: the finger comes down at `pos`, is held for a while within 29
/// pixels of it in both directions, is read next 30 pixels or more away in x or in y,
/// wanders along `path` and is lifted. The press is told where it was, then each point
/// of the path that differs from the one before, and the release at the last point of
/// the path.
pub proof fn a_drag_is_told(
    c: TouchController,
    pos: Position,
    held: Seq<Position>,
    path: Seq<Position>,
)
    requires
        !c.pressed,
        forall|i: int|
            0 <= i < held.len() ==> (#[trigger] held[i]).x < pos.x + 30 && pos.x < held[i].x + 30
                && held[i].y < pos.y + 30 && pos.y < held[i].y + 30,
        path.len() > 0,
        ({
            ||| path[0].x >= pos.x + 30
            ||| pos.x >= path[0].x + 30
            ||| path[0].y >= pos.y + 30
            ||| pos.y >= path[0].y + 30
        }),
    ensures
        c.events(stroke(pos, held, path)) == seq![PointerEvent::Pressed(pos)] + moves(pos, path),
        c.events(stroke(pos, held, path) + seq![None]) == seq![PointerEvent::Pressed(pos)] + moves(
            pos,
            path,
        ) + seq![PointerEvent::Released(path.last())],
{
    assert forall|i: int| 0 <= i < held.len() implies !apart(
        #[trigger] held[i],
        pos,
        DRAG_THRESHOLD as int,
    ) by {
        assert(held[i].x < pos.x + 30);
    }
    lemma_dragged(c, pos, held, path);
    let dragged = stroke(pos, held, path);
    let readings = dragged + seq![None];
    assert(readings.drop_last() =~= dragged);
    assert(readings.last() is None);
    assert(c.events(readings) =~= seq![PointerEvent::Pressed(pos)] + moves(pos, path) + seq![
        PointerEvent::Released(path.last()),
    ]);
}

/// Nothing is told, and nothing changes, while no finger is on the panel and none
/// was; a finger that is held within 29 pixels of where it came down in both
/// directions is not told either, and the press stays what it was.
pub proof fn rest_is_silent(c: TouchController, reading: Option<Position>)
    requires
        reading is None ==> !c.pressed,
        reading matches Some(p) ==> {
            &&& c.pressed
            &&& !c.is_drag
            &&& p.x < c.press_pos.x + 30
            &&& c.press_pos.x < p.x + 30
            &&& p.y < c.press_pos.y + 30
            &&& c.press_pos.y < p.y + 30
        },
    ensures
        c.events(seq![reading]) == Seq::<PointerEvent>::empty(),
        c.after_all(seq![reading]) == c,
{
    lemma_one_reading(c, reading);
}

/// A finger that comes down on a panel that nothing touched is told where it came
/// down, and where it is lifted again at once it is told at that same point.
pub proof fn a_press_is_told(c: TouchController, pos: Position)
    requires
        !c.pressed,
    ensures
        c.events(seq![Some(pos)]) == seq![PointerEvent::Pressed(pos)],
        c.events(seq![Some(pos), None]) == seq![
            PointerEvent::Pressed(pos),
            PointerEvent::Released(pos),
        ],
        !c.after_all(seq![Some(pos), None]).pressed,
{
    lemma_one_reading(c, Some(pos));
    let both = seq![Some(pos), None];
    assert(both.drop_last() =~= seq![Some(pos)]);
    assert(both.last() is None);
    assert(c.events(both) =~= seq![PointerEvent::Pressed(pos), PointerEvent::Released(pos)]);
}

} // verus!
