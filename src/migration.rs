use vstd::prelude::*;
use crate::node::Error;

verus! {

/// The state a member is told to give a slot.
#[derive(Debug, Clone, Copy, PartialEq, Eq, Structural)]
pub enum SlotState {
    Importing,
    Migrating,
    Stable,
    Node,
}

/// How many keys are asked for per batch while a slot is drained.
pub const BATCH: usize = 100;

/// Where the hand-over of one slot stands.
#[derive(Debug, Clone, Copy, PartialEq, Eq, Structural)]
pub enum Phase {
    /// Nothing sent yet.
    Start,
    /// The target was told to import the slot.
    Importing,
    /// The source was told to migrate the slot.
    Migrating,
    /// A batch of keys was asked for.
    Draining,
    /// A batch of keys is being moved.
    Moving,
    /// Member number `i` of the owner list was told the new owner.
    Assigning(usize),
    Done,
    /// A step failed; the slot stays half handed over until it is repaired.
    Failed,
}

/// What the driver reports back after carrying out an action.
#[derive(Debug, Clone, Copy, PartialEq, Eq, Structural)]
pub enum Event {
    /// The command was accepted.
    Ack,
    /// A batch of this many keys was found in the slot.
    Keys(usize),
    /// The batch was moved to the target.
    Moved,
    /// A command or a transfer failed.
    Failed,
}

/// What the driver is to do next. Members are indices into the driver's list.
#[derive(Debug, Clone, Copy, PartialEq, Eq, Structural)]
pub enum Action {
    /// Tell `node` the slot's state, naming member `owner`.
    SetSlot { node: usize, slot: usize, state: SlotState, owner: usize },
    /// Ask `node` for up to `limit` keys of the slot.
    GetKeys { node: usize, slot: usize, limit: usize },
    /// Move the batch last found from `from` to `to`.
    MoveKeys { from: usize, to: usize },
    Done,
    Failed,
}

/// The hand-over of one slot from `src` to `dst`; `informs` are the other
/// masters, told the new owner after `src` and `dst`.
pub struct Migration {
    pub slot: usize,
    pub src: usize,
    pub dst: usize,
    pub informs: Vec<usize>,
    pub phase: Phase,
}

/// The member told the new owner at step `i`: source, target, then the others.
pub open spec fn assignee(m: Migration, i: int) -> usize {
    if i == 0 {
        m.src
    } else if i == 1 {
        m.dst
    } else {
        m.informs@[i - 2]
    }
}

pub open spec fn assign_action(m: Migration, i: int) -> Action {
    Action::SetSlot { node: assignee(m, i), slot: m.slot, state: SlotState::Node, owner: m.dst }
}

/// The next phase and action of the hand-over, given the event that the last
/// action brought.
pub open spec fn step(m: Migration, ev: Event) -> (Phase, Action) {
    match (m.phase, ev) {
        (Phase::Start, _) => (
            Phase::Importing,
            Action::SetSlot {
                node: m.dst,
                slot: m.slot,
                state: SlotState::Importing,
                owner: m.src,
            },
        ),
        (Phase::Importing, Event::Ack) => (
            Phase::Migrating,
            Action::SetSlot {
                node: m.src,
                slot: m.slot,
                state: SlotState::Migrating,
                owner: m.dst,
            },
        ),
        (Phase::Migrating, Event::Ack) | (Phase::Moving, Event::Moved) => (
            Phase::Draining,
            Action::GetKeys { node: m.src, slot: m.slot, limit: BATCH },
        ),
        (Phase::Draining, Event::Keys(n)) => if n == 0 {
            (Phase::Assigning(0), assign_action(m, 0))
        } else {
            (Phase::Moving, Action::MoveKeys { from: m.src, to: m.dst })
        },
        (Phase::Assigning(i), Event::Ack) => if i + 1 < m.informs@.len() + 2 {
            (Phase::Assigning((i + 1) as usize), assign_action(m, i + 1))
        } else {
            (Phase::Done, Action::Done)
        },
        (Phase::Done, _) => (Phase::Done, Action::Done),
        _ => (Phase::Failed, Action::Failed),
    }
}

/// Starts the hand-over of `slot` from `src` to `dst`.
pub fn migrate_slot(slot: usize, src: usize, dst: usize, informs: Vec<usize>) -> (r: Migration)
    ensures
        r.slot == slot,
        r.src == src,
        r.dst == dst,
        r.informs@ == informs@,
        r.phase == Phase::Start,
{
    Migration { slot, src, dst, informs, phase: Phase::Start }
}

impl Migration {
    /// Takes the event that the last action brought and says what to do next.
    pub fn next(&mut self, ev: Event) -> (r: Action)
        requires
            old(self).informs@.len() + 2 <= usize::MAX,
        ensures
            (final(self).phase, r) == step(*old(self), ev),
            final(self).slot == old(self).slot,
            final(self).src == old(self).src,
            final(self).dst == old(self).dst,
            final(self).informs@ == old(self).informs@,
    {
        let (phase, action) = match (self.phase, ev) {
            (Phase::Start, _) => (
                Phase::Importing,
                Action::SetSlot {
                    node: self.dst,
                    slot: self.slot,
                    state: SlotState::Importing,
                    owner: self.src,
                },
            ),
            (Phase::Importing, Event::Ack) => (
                Phase::Migrating,
                Action::SetSlot {
                    node: self.src,
                    slot: self.slot,
                    state: SlotState::Migrating,
                    owner: self.dst,
                },
            ),
            (Phase::Migrating, Event::Ack) | (Phase::Moving, Event::Moved) => (
                Phase::Draining,
                Action::GetKeys { node: self.src, slot: self.slot, limit: BATCH },
            ),
            (Phase::Draining, Event::Keys(n)) => if n == 0 {
                (Phase::Assigning(0), self.assign(0))
            } else {
                (Phase::Moving, Action::MoveKeys { from: self.src, to: self.dst })
            },
            (Phase::Assigning(i), Event::Ack) => if i < self.informs.len() + 1 {
                (Phase::Assigning(i + 1), self.assign(i + 1))
            } else {
                (Phase::Done, Action::Done)
            },
            (Phase::Done, _) => (Phase::Done, Action::Done),
            _ => (Phase::Failed, Action::Failed),
        };
        self.phase = phase;
        action
    }

    fn assign(&self, i: usize) -> (r: Action)
        requires
            i < self.informs@.len() + 2,
        ensures
            r == assign_action(*self, i as int),
    {
        let node = if i == 0 {
            self.src
        } else if i == 1 {
            self.dst
        } else {
            self.informs[i - 2]
        };
        Action::SetSlot { node, slot: self.slot, state: SlotState::Node, owner: self.dst }
    }

    /// How the hand-over ended: `Migration` when a step failed, which leaves
    /// the slot for a later repair; `None` while it runs.
    pub fn outcome(&self) -> (r: Option<Result<(), Error>>)
        ensures
            self.phase == Phase::Done ==> r == Some(Ok::<(), Error>(())),
            self.phase == Phase::Failed ==> r == Some(Err::<(), Error>(Error::Migration)),
            self.phase != Phase::Done && self.phase != Phase::Failed ==> r is None,
    {
        match self.phase {
            Phase::Done => Some(Ok(())),
            Phase::Failed => Some(Err(Error::Migration)),
            _ => None,
        }
    }

    /// Whether the hand-over has ended, well or not.
    pub fn finished(&self) -> (r: bool)
        ensures
            r == (self.phase == Phase::Done || self.phase == Phase::Failed),
    {
        match self.phase {
            Phase::Done | Phase::Failed => true,
            _ => false,
        }
    }
}

} // verus!
