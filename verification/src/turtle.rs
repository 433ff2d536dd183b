//! The turtle interpreter: it walks a symbol sequence and resolves it into
//! the strokes of a drawing.
//!
//! The walk is kept free of coordinates. A position is named by a point:
//! point 0 is the origin, and point `k + 1` is the end of stroke `k`. A
//! heading is counted in turns: the number of right turns taken less the
//! number of left turns. Stroke `k` starts at the point it names and leads one
//! step in the direction of its heading, so whoever draws needs only the turn
//! angle and the step length to place every point; the path distance at the
//! end of stroke `k` is `k + 1` steps.

use crate::lsystem::Sym;
use crate::nesting::{lemma_completes_iff_well_nested, well_nested};
use vstd::prelude::*;

verus! {

/// Where the turtle stands and where it looks.
#[derive(PartialEq, Eq, Structural, Debug, Clone, Copy)]
pub struct Pose {
    /// The point the turtle stands on.
    pub at: usize,
    /// Right turns less left turns.
    pub heading: i128,
}

/// A pose over the mathematical integers.
pub struct PoseModel {
    pub at: nat,
    pub heading: int,
}

impl View for Pose {
    type V = PoseModel;

    open spec fn view(&self) -> PoseModel {
        PoseModel { at: self.at as nat, heading: self.heading as int }
    }
}

/// A sequence of poses over the mathematical integers.
pub open spec fn poses(v: Seq<Pose>) -> Seq<PoseModel> {
    v.map_values(|p: Pose| p@)
}

/// The turtle in the middle of a walk.
pub struct Turtle {
    /// The current pose.
    pub pose: PoseModel,
    /// The poses saved and not yet restored, the latest last.
    pub stack: Seq<PoseModel>,
    /// The strokes drawn so far, each as the pose from which it was drawn.
    pub strokes: Seq<PoseModel>,
}

impl Turtle {
    /// The turtle before the first symbol: on the origin, heading 0, nothing
    /// saved, nothing drawn.
    pub open spec fn start() -> Turtle {
        Turtle {
            pose: PoseModel { at: 0, heading: 0 },
            stack: Seq::empty(),
            strokes: Seq::empty(),
        }
    }

    /// What one symbol does to the turtle. `None` where the symbol is a `Pop`
    /// and nothing is saved.
    pub open spec fn step(self, sym: Sym) -> Option<Turtle> {
        match sym {
            Sym::Fwd(_) => Some(
                Turtle {
                    pose: PoseModel { at: self.strokes.len() + 1, heading: self.pose.heading },
                    stack: self.stack,
                    strokes: self.strokes.push(self.pose),
                },
            ),
            Sym::Var(_) => Some(self),
            Sym::TurnLeft => Some(
                Turtle {
                    pose: PoseModel { at: self.pose.at, heading: self.pose.heading - 1 },
                    ..self
                },
            ),
            Sym::TurnRight => Some(
                Turtle {
                    pose: PoseModel { at: self.pose.at, heading: self.pose.heading + 1 },
                    ..self
                },
            ),
            Sym::Push => Some(Turtle { stack: self.stack.push(self.pose), ..self }),
            Sym::Pop => if self.stack.len() == 0 {
                None
            } else {
                Some(Turtle { pose: self.stack.last(), stack: self.stack.drop_last(), ..self })
            },
        }
    }

    /// What a sequence of symbols does to the turtle, symbol by symbol from
    /// the left. `None` where some `Pop` finds nothing saved.
    pub open spec fn walk(self, syms: Seq<Sym>) -> Option<Turtle>
        decreases syms.len(),
    {
        if syms.len() == 0 {
            Some(self)
        } else {
            match self.walk(syms.drop_last()) {
                Some(t) => t.step(syms.last()),
                None => None,
            }
        }
    }
}

impl Turtle {
    /// Whether the turtle's poses name points that exist: a stroke starts at
    /// the origin or at the end of an earlier stroke, and the turtle and the
    /// poses it has saved stand on the origin or at the end of a stroke drawn.
    pub open spec fn tidy(self) -> bool {
        &&& self.pose.at <= self.strokes.len()
        &&& forall|k: int| 0 <= k < self.strokes.len() ==> (#[trigger] self.strokes[k]).at <= k
        &&& forall|j: int|
            0 <= j < self.stack.len() ==> (#[trigger] self.stack[j]).at <= self.strokes.len()
    }
}

/// How many symbols of the sequence draw a stroke.
pub open spec fn forwards(syms: Seq<Sym>) -> nat
    decreases syms.len(),
{
    if syms.len() == 0 {
        0
    } else {
        forwards(syms.drop_last()) + if syms.last() is Fwd {
            1nat
        } else {
            0nat
        }
    }
}

/// A drawing: its strokes in the order in which they were drawn, each as the
/// pose from which it was drawn, and the pose in which the turtle ended.
#[derive(Debug)]
pub struct Drawing {
    pub strokes: Vec<Pose>,
    pub end: Pose,
}

/// Mismatched nesting: the `Pop` at `index` found nothing saved.
#[derive(PartialEq, Eq, Structural, Debug, Clone, Copy)]
pub struct NestingError {
    pub index: usize,
}

/// A walk over a sequence is the walk over its first part, continued over
/// the rest.
pub proof fn lemma_walk_concat(t: Turtle, a: Seq<Sym>, b: Seq<Sym>)
    ensures
        t.walk(a + b) == match t.walk(a) {
            Some(u) => u.walk(b),
            None => None,
        },
    decreases b.len(),
{
    if b.len() == 0 {
        assert(a + b =~= a);
    } else {
        assert((a + b).drop_last() =~= a + b.drop_last());
        lemma_walk_concat(t, a, b.drop_last());
    }
}

/// A walk that fails on a prefix fails on the whole sequence.
pub proof fn lemma_walk_fails_for_good(t: Turtle, syms: Seq<Sym>, k: int)
    requires
        0 <= k <= syms.len(),
        t.walk(syms.take(k)) is None,
    ensures
        t.walk(syms) is None,
{
    assert(syms =~= syms.take(k) + syms.skip(k));
    lemma_walk_concat(t, syms.take(k), syms.skip(k));
}

/// A walk from a tidy state ends in a tidy state.
pub proof fn lemma_walk_keeps_tidy(t: Turtle, syms: Seq<Sym>)
    requires
        t.tidy(),
        t.walk(syms) is Some,
    ensures
        t.walk(syms).unwrap().tidy(),
    decreases syms.len(),
{
    if syms.len() > 0 {
        lemma_walk_keeps_tidy(t, syms.drop_last());
    }
}

/// A walk draws one stroke for each forward symbol, behind the strokes that
/// were drawn before it, which it leaves as they are.
pub proof fn lemma_one_stroke_per_forward(t: Turtle, syms: Seq<Sym>)
    requires
        t.walk(syms) is Some,
    ensures
        t.walk(syms).unwrap().strokes.len() == t.strokes.len() + forwards(syms),
        t.walk(syms).unwrap().strokes.take(t.strokes.len() as int) == t.strokes,
    decreases syms.len(),
{
    if syms.len() == 0 {
        assert(t.strokes.take(t.strokes.len() as int) =~= t.strokes);
    } else {
        lemma_one_stroke_per_forward(t, syms.drop_last());
        let u = t.walk(syms.drop_last()).unwrap();
        let v = t.walk(syms).unwrap();
        assert(v.strokes.take(t.strokes.len() as int) =~= u.strokes.take(t.strokes.len() as int));
    }
}

/// Walks `syms` from the origin.
///
/// Returns the drawing, or the place of the first `Pop` that finds nothing
/// saved. Every symbol before that `Pop` has taken effect by then, and none
/// after it is looked at.
pub fn interpret(syms: &[Sym]) -> (r: Result<Drawing, NestingError>)
    ensures
        match r {
            Ok(d) => {
                &&& match Turtle::start().walk(syms@) {
                    Some(t) => d.end@ == t.pose && poses(d.strokes@) == t.strokes,
                    None => false,
                }
                &&& d.strokes@.len() == forwards(syms@)
                &&& d.end.at <= d.strokes@.len()
                &&& forall|k: int| 0 <= k < d.strokes@.len() ==> (#[trigger] d.strokes@[k]).at <= k
            },
            Err(e) => {
                &&& e.index < syms@.len()
                &&& syms@[e.index as int] == Sym::Pop
                &&& Turtle::start().walk(syms@.take(e.index as int)) is Some
                &&& Turtle::start().walk(syms@.take(e.index + 1)) is None
                &&& Turtle::start().walk(syms@) is None
                &&& well_nested(syms@.take(e.index as int))
                &&& !well_nested(syms@.take(e.index + 1))
            },
        },
        r is Ok <==> well_nested(syms@),
{
    let mut pose = Pose { at: 0, heading: 0 };
    let mut stack: Vec<Pose> = Vec::new();
    let mut strokes: Vec<Pose> = Vec::new();
    let mut i: usize = 0;
    assert(syms@.take(0) =~= Seq::<Sym>::empty());
    assert(poses(stack@) =~= Seq::<PoseModel>::empty());
    assert(poses(strokes@) =~= Seq::<PoseModel>::empty());
    while i < syms.len()
        invariant
            i <= syms@.len(),
            Turtle::start().walk(syms@.take(i as int)) == Some(
                Turtle { pose: pose@, stack: poses(stack@), strokes: poses(strokes@) },
            ),
            strokes@.len() <= i,
            -i <= pose.heading <= i,
            forall|j: int| 0 <= j < stack@.len() ==> -i <= (#[trigger] stack@[j]).heading <= i,
        decreases syms@.len() - i,
    {
        let sym = syms[i];
        let ghost before = Turtle { pose: pose@, stack: poses(stack@), strokes: poses(strokes@) };
        proof {
            assert(syms@.take(i + 1).drop_last() =~= syms@.take(i as int));
            assert(syms@.take(i + 1).last() == sym);
        }
        match sym {
            Sym::Fwd(_) => {
                strokes.push(pose);
                pose = Pose { at: strokes.len(), heading: pose.heading };
                assert(poses(strokes@) =~= before.strokes.push(before.pose));
            },
            Sym::Var(_) => {},
            Sym::TurnLeft => {
                pose = Pose { at: pose.at, heading: pose.heading - 1 };
            },
            Sym::TurnRight => {
                pose = Pose { at: pose.at, heading: pose.heading + 1 };
            },
            Sym::Push => {
                stack.push(pose);
                assert(poses(stack@) =~= before.stack.push(before.pose));
            },
            Sym::Pop => {
                match stack.pop() {
                    Some(saved) => {
                        pose = saved;
                        assert(poses(stack@) =~= before.stack.drop_last());
                    },
                    None => {
                        proof {
                            lemma_walk_fails_for_good(Turtle::start(), syms@, i + 1);
                            lemma_completes_iff_well_nested(syms@);
                            lemma_completes_iff_well_nested(syms@.take(i as int));
                            lemma_completes_iff_well_nested(syms@.take(i + 1));
                        }
                        return Err(NestingError { index: i });
                    },
                }
            },
        }
        i += 1;
    }
    proof {
        assert(syms@.take(syms@.len() as int) =~= syms@);
        lemma_completes_iff_well_nested(syms@);
        lemma_walk_keeps_tidy(Turtle::start(), syms@);
        lemma_one_stroke_per_forward(Turtle::start(), syms@);
        assert forall|k: int| 0 <= k < strokes@.len() implies (#[trigger] strokes@[k]).at <= k by {
            assert(poses(strokes@)[k].at <= k);
        }
    }
    Ok(Drawing { strokes, end: pose })
}

} // verus!
