//! Laws of nesting: when a walk completes, and what a bracketed part of a
//! sequence leaves behind.

use crate::lsystem::Sym;
use crate::turtle::{lemma_walk_concat, Turtle};
use vstd::prelude::*;

verus! {

/// By how much a symbol changes the number of saved poses.
pub open spec fn depth_change(sym: Sym) -> int {
    match sym {
        Sym::Push => 1,
        Sym::Pop => -1,
        _ => 0,
    }
}

/// The nesting depth at the end of a sequence: its `Push`es less its `Pop`s.
pub open spec fn depth(syms: Seq<Sym>) -> int
    decreases syms.len(),
{
    if syms.len() == 0 {
        0
    } else {
        depth(syms.drop_last()) + depth_change(syms.last())
    }
}

/// Whether the depth at the end of every prefix of `syms` is at least
/// `floor`.
pub open spec fn stays_above(syms: Seq<Sym>, floor: int) -> bool {
    forall|k: int| 0 <= k <= syms.len() ==> depth(#[trigger] syms.take(k)) >= floor
}

/// Whether every `Pop` of the sequence has an earlier `Push` of its own.
pub open spec fn well_nested(syms: Seq<Sym>) -> bool {
    stays_above(syms, 0)
}

/// Whether every `Pop` has an earlier `Push` of its own and every `Push` a
/// later `Pop`.
pub open spec fn balanced(syms: Seq<Sym>) -> bool {
    well_nested(syms) && depth(syms) == 0
}

proof fn lemma_stays_above_front(syms: Seq<Sym>, floor: int)
    requires
        syms.len() > 0,
    ensures
        stays_above(syms, floor) <==> stays_above(syms.drop_last(), floor) && depth(syms) >= floor,
{
    let front = syms.drop_last();
    assert(syms.take(syms.len() as int) =~= syms);
    assert forall|k: int| 0 <= k <= front.len() implies #[trigger] front.take(k) == syms.take(
        k,
    ) by {
        assert(front.take(k) =~= syms.take(k));
    }
    if stays_above(syms, floor) {
        assert forall|k: int| 0 <= k <= front.len() implies depth(#[trigger] front.take(k))
            >= floor by {
            assert(depth(syms.take(k)) >= floor);
        }
    }
    if stays_above(front, floor) && depth(syms) >= floor {
        assert forall|k: int| 0 <= k <= syms.len() implies depth(#[trigger] syms.take(k))
            >= floor by {
            if k < syms.len() {
                assert(depth(front.take(k)) >= floor);
            }
        }
    }
}

/// A walk completes exactly if the nesting never falls below what the
/// turtle has saved at its start; it then ends with as many saved poses as
/// it started with, more or less the depth of the sequence.
pub proof fn lemma_walk_completes_iff(t: Turtle, syms: Seq<Sym>)
    ensures
        t.walk(syms) is Some <==> stays_above(syms, -(t.stack.len() as int)),
        t.walk(syms) is Some ==> t.walk(syms).unwrap().stack.len() == t.stack.len() + depth(syms),
    decreases syms.len(),
{
    let floor = -(t.stack.len() as int);
    if syms.len() == 0 {
        assert forall|k: int| 0 <= k <= syms.len() implies depth(#[trigger] syms.take(k))
            >= floor by {
            assert(syms.take(k) =~= syms);
        }
    } else {
        lemma_walk_completes_iff(t, syms.drop_last());
        lemma_stays_above_front(syms, floor);
    }
}

/// A walk over a well-nested sequence leaves alone what was saved before it.
pub proof fn lemma_walk_keeps_saved(t: Turtle, syms: Seq<Sym>)
    requires
        well_nested(syms),
    ensures
        t.walk(syms) is Some,
        t.walk(syms).unwrap().stack.len() == t.stack.len() + depth(syms),
        t.walk(syms).unwrap().stack.take(t.stack.len() as int) == t.stack,
    decreases syms.len(),
{
    lemma_walk_completes_iff(t, syms);
    if syms.len() == 0 {
        assert(t.stack.take(t.stack.len() as int) =~= t.stack);
    } else {
        lemma_stays_above_front(syms, 0);
        lemma_walk_keeps_saved(t, syms.drop_last());
        let u = t.walk(syms.drop_last()).unwrap();
        let v = t.walk(syms).unwrap();
        assert(v.stack.take(t.stack.len() as int) =~= u.stack.take(t.stack.len() as int));
    }
}

/// A balanced sequence can be walked from any state, and the walk ends with
/// exactly the poses saved with which it started.
pub proof fn lemma_balanced_walk(t: Turtle, syms: Seq<Sym>)
    requires
        balanced(syms),
    ensures
        t.walk(syms) is Some,
        t.walk(syms).unwrap().stack == t.stack,
{
    lemma_walk_keeps_saved(t, syms);
    let u = t.walk(syms).unwrap();
    assert(u.stack.take(t.stack.len() as int) =~= u.stack);
}

/// Interpretation of a balanced sequence completes.
pub proof fn lemma_balanced_completes(syms: Seq<Sym>)
    requires
        balanced(syms),
    ensures
        Turtle::start().walk(syms) is Some,
{
    lemma_balanced_walk(Turtle::start(), syms);
}

/// Interpretation completes exactly if the sequence is well nested.
pub proof fn lemma_completes_iff_well_nested(syms: Seq<Sym>)
    ensures
        Turtle::start().walk(syms) is Some <==> well_nested(syms),
{
    lemma_walk_completes_iff(Turtle::start(), syms);
}

/// A walk over one symbol is one step.
pub proof fn lemma_walk_one(t: Turtle, sym: Sym)
    ensures
        t.walk(seq![sym]) == t.step(sym),
{
    assert(seq![sym].drop_last() =~= Seq::<Sym>::empty());
    assert(t.walk(Seq::<Sym>::empty()) == Some(t));
}

/// A balanced sequence between a `Push` and a `Pop` is a branch: after it the
/// turtle stands where it stood before it, looks where it looked, and has
/// saved what it had saved. Only the strokes of the branch are new.
pub proof fn lemma_branch_restores(t: Turtle, inner: Seq<Sym>)
    requires
        balanced(inner),
    ensures
        t.walk(seq![Sym::Push] + inner + seq![Sym::Pop]) is Some,
        t.walk(seq![Sym::Push] + inner + seq![Sym::Pop]).unwrap().pose == t.pose,
        t.walk(seq![Sym::Push] + inner + seq![Sym::Pop]).unwrap().stack == t.stack,
{
    let opened = t.step(Sym::Push).unwrap();
    lemma_walk_one(t, Sym::Push);
    lemma_walk_concat(t, seq![Sym::Push], inner);
    lemma_balanced_walk(opened, inner);
    let inside = opened.walk(inner).unwrap();
    lemma_walk_concat(t, seq![Sym::Push] + inner, seq![Sym::Pop]);
    lemma_walk_one(inside, Sym::Pop);
    assert(opened.stack.drop_last() =~= t.stack);
}

} // verus!
