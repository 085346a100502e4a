//! The spin lock that serialises all operations on an allocator: what a contender does with the
//! lock flag, and why at most one is inside.

use vstd::prelude::*;

verus! {

/// What a contender does after it has swapped `true` into the lock flag.
pub enum Turn {
    /// The lock was free: it is now this contender's.
    Enter,
    /// The lock was held: try again.
    Spin,
}

/// Decide from the value that the swap gave back.
pub fn turn(was_held: bool) -> (t: Turn)
    ensures
        t == turn_of(was_held),
        t is Enter <==> !was_held,
{
    if was_held {
        Turn::Spin
    } else {
        Turn::Enter
    }
}

/// A contender enters exactly when the flag was clear.
pub open spec fn turn_of(was_held: bool) -> Turn {
    if was_held {
        Turn::Spin
    } else {
        Turn::Enter
    }
}

/// An atomic operation on the lock flag.
pub enum FlagOp {
    /// A contender swaps `true` into the flag.
    Swap(int),
    /// A contender leaves, and stores `false`.
    Clear(int),
}

/// The flag, and the contenders that are inside.
pub struct LockState {
    pub held: bool,
    pub inside: Set<int>,
}

impl LockState {
    /// A free lock.
    pub open spec fn free() -> LockState {
        LockState { held: false, inside: Set::empty() }
    }

    /// A contender swaps only while it is outside, and clears only while it is inside.
    pub open spec fn allows(self, op: FlagOp) -> bool {
        match op {
            FlagOp::Swap(who) => !self.inside.contains(who),
            FlagOp::Clear(who) => self.inside.contains(who),
        }
    }

    /// The state after `op`.
    pub open spec fn after(self, op: FlagOp) -> LockState {
        match op {
            FlagOp::Swap(who) => LockState {
                held: true,
                inside: if turn_of(self.held) is Enter {
                    self.inside.insert(who)
                } else {
                    self.inside
                },
            },
            FlagOp::Clear(who) => LockState { held: false, inside: self.inside.remove(who) },
        }
    }

    /// The state of a free lock after `ops`, in the order in which they reach the flag.
    pub open spec fn run(ops: Seq<FlagOp>) -> LockState
        decreases ops.len(),
    {
        if ops.len() == 0 {
            Self::free()
        } else {
            Self::run(ops.drop_last()).after(ops.last())
        }
    }

    /// Every one of `ops` was allowed when it came.
    pub open spec fn allowed(ops: Seq<FlagOp>) -> bool
        decreases ops.len(),
    {
        ops.len() == 0 || (Self::allowed(ops.drop_last()) && Self::run(ops.drop_last()).allows(
            ops.last(),
        ))
    }
}

/// Mutual exclusion: whatever the contenders do, the flag is set exactly while one of them is
/// inside, and no two are.
pub proof fn at_most_one_inside(ops: Seq<FlagOp>)
    requires
        LockState::allowed(ops),
    ensures
        LockState::run(ops).held <==> exists|a: int| LockState::run(ops).inside.contains(a),
        forall|a: int, b: int|
            LockState::run(ops).inside.contains(a) && LockState::run(ops).inside.contains(b) ==> a
                == b,
    decreases ops.len(),
{
    if ops.len() > 0 {
        at_most_one_inside(ops.drop_last());
        let pre = LockState::run(ops.drop_last());
        match ops.last() {
            FlagOp::Swap(who) => {
                assert(pre.after(ops.last()).inside.contains(who) || pre.held);
            },
            FlagOp::Clear(who) => {},
        }
    }
}

/// A swap leaves the flag set. It lets its contender in where the flag was clear, and nobody where
/// the flag was set. Leaving clears the flag and takes out nobody else.
pub proof fn swap_enters_a_clear_flag(s: LockState, who: int, other: int)
    ensures
        s.after(FlagOp::Swap(who)).held,
        !s.held ==> s.after(FlagOp::Swap(who)).inside.contains(who),
        s.held ==> s.after(FlagOp::Swap(who)).inside == s.inside,
        !s.after(FlagOp::Clear(who)).held,
        !s.after(FlagOp::Clear(who)).inside.contains(who),
        other != who ==> {
            &&& s.after(FlagOp::Swap(who)).inside.contains(other) == s.inside.contains(other)
            &&& s.after(FlagOp::Clear(who)).inside.contains(other) == s.inside.contains(other)
        },
{
}

/// Contenders start outside a clear flag, and each operation acts on what the ones before it left.
/// Any contender outside may swap, and any inside may leave.
pub proof fn operations_reach_the_flag_in_turn(ops: Seq<FlagOp>, op: FlagOp, who: int)
    ensures
        !LockState::run(Seq::empty()).held,
        !LockState::run(Seq::empty()).inside.contains(who),
        LockState::run(ops.push(op)) == LockState::run(ops).after(op),
        LockState::allowed(Seq::empty()),
        LockState::allowed(ops) ==> {
            &&& LockState::allowed(ops.push(FlagOp::Swap(who))) <==> !LockState::run(
                ops,
            ).inside.contains(who)
            &&& LockState::allowed(ops.push(FlagOp::Clear(who))) <==> LockState::run(
                ops,
            ).inside.contains(who)
        },
{
    assert(ops.push(op).drop_last() =~= ops);
    assert(ops.push(FlagOp::Swap(who)).drop_last() =~= ops);
    assert(ops.push(FlagOp::Clear(who)).drop_last() =~= ops);
}

/// A released lock can be taken: after the holder has left, the next swap enters.
pub proof fn released_lock_is_free(ops: Seq<FlagOp>, holder: int, next: int)
    requires
        LockState::allowed(ops),
        LockState::run(ops).inside.contains(holder),
    ensures
        LockState::run(ops.push(FlagOp::Clear(holder)).push(FlagOp::Swap(next))).inside.contains(
            next,
        ),
{
    let left = ops.push(FlagOp::Clear(holder));
    let taken = left.push(FlagOp::Swap(next));
    assert(left.drop_last() =~= ops);
    assert(taken.drop_last() =~= left);
    assert(LockState::run(left) == LockState::run(ops).after(FlagOp::Clear(holder)));
}

} // verus!
