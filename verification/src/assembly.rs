//! Stitching one route together from separate path segments.
//!
//! Where the source delivers a route as loose segments in no useful order, a
//! hand-written list of instructions names the segments one after the other
//! and says which of them run backwards.
//!
//! The points are whatever the caller works with. A point that could not be
//! brought into the target coordinate system is handed in as `None`; a
//! segment with such a point is left out whole.

use vstd::prelude::*;

verus! {

/// One step of the assembly: take segment `index`, backwards if `reversed`.
#[derive(Clone, Copy, Debug, PartialEq, Eq, Structural)]
pub struct Instruction {
    pub index: usize,
    pub reversed: bool,
}

/// What became of one instruction.
#[derive(Clone, Copy, Debug, PartialEq, Eq, Structural)]
pub enum Outcome {
    /// The segment's points were appended to the route.
    Appended,
    /// There is no segment with the instruction's index; nothing was appended.
    InvalidIndex,
    /// A point of the segment was missing; nothing was appended.
    ConversionFailed,
}

/// The route put together and, instruction by instruction, what happened.
#[derive(Clone, Debug, PartialEq, Eq)]
pub struct Assembly<P> {
    pub points: Vec<P>,
    pub outcomes: Vec<Outcome>,
}

/// A feature of the path service: the course that it belongs to and its
/// segments.
#[derive(Clone, Debug, PartialEq, Eq)]
pub struct PathFeature<P> {
    pub course: String,
    pub paths: Vec<Vec<Option<P>>>,
}

/// Whether no point of `segment` is missing.
pub open spec fn all_converted<P>(segment: Seq<Option<P>>) -> bool {
    forall|i: int| 0 <= i < segment.len() ==> (#[trigger] segment[i]) is Some
}

/// The points of a segment of which none is missing.
pub open spec fn converted<P>(segment: Seq<Option<P>>) -> Seq<P> {
    Seq::new(segment.len(), |i: int| segment[i]->Some_0)
}

/// `points` in the direction asked for.
pub open spec fn oriented<P>(points: Seq<P>, reversed: bool) -> Seq<P> {
    if reversed {
        points.reverse()
    } else {
        points
    }
}

/// What becomes of `instruction` given `segments`.
pub open spec fn outcome_of<P>(segments: Seq<Vec<Option<P>>>, instruction: Instruction) -> Outcome {
    if instruction.index >= segments.len() {
        Outcome::InvalidIndex
    } else if !all_converted(segments[instruction.index as int]@) {
        Outcome::ConversionFailed
    } else {
        Outcome::Appended
    }
}

/// The points that `instruction` adds to the route: those of its segment in
/// the direction asked for, or none where the instruction fails.
pub open spec fn contribution<P>(segments: Seq<Vec<Option<P>>>, instruction: Instruction) -> Seq<
    P,
> {
    if outcome_of(segments, instruction) is Appended {
        oriented(converted(segments[instruction.index as int]@), instruction.reversed)
    } else {
        Seq::empty()
    }
}

/// The route that `instructions` put together from `segments`: what each
/// instruction adds, in the order of the instructions.
pub open spec fn assembled<P>(
    segments: Seq<Vec<Option<P>>>,
    instructions: Seq<Instruction>,
) -> Seq<P>
    decreases instructions.len(),
{
    if instructions.len() == 0 {
        Seq::empty()
    } else {
        assembled(segments, instructions.drop_last()) + contribution(segments, instructions.last())
    }
}

/// What becomes of each of `instructions`, in their order.
pub open spec fn outcomes_of<P>(
    segments: Seq<Vec<Option<P>>>,
    instructions: Seq<Instruction>,
) -> Seq<Outcome> {
    Seq::new(instructions.len(), |k: int| outcome_of(segments, instructions[k]))
}

/// The route of one course: what the instructions put together from each
/// feature of that course, feature after feature.
pub open spec fn course_route<P>(
    features: Seq<PathFeature<P>>,
    course: Seq<char>,
    instructions: Seq<Instruction>,
) -> Seq<P>
    decreases features.len(),
{
    if features.len() == 0 {
        Seq::empty()
    } else {
        course_route(features.drop_last(), course, instructions) + if features.last().course@
            == course {
            assembled(features.last().paths@, instructions)
        } else {
            Seq::empty()
        }
    }
}

/// What becomes of the instructions for each feature of one course, feature
/// after feature.
pub open spec fn course_outcomes<P>(
    features: Seq<PathFeature<P>>,
    course: Seq<char>,
    instructions: Seq<Instruction>,
) -> Seq<Outcome>
    decreases features.len(),
{
    if features.len() == 0 {
        Seq::empty()
    } else {
        course_outcomes(features.drop_last(), course, instructions) + if features.last().course@
            == course {
            outcomes_of(features.last().paths@, instructions)
        } else {
            Seq::empty()
        }
    }
}

/// The points of `segment` in the direction asked for, or `None` if one of
/// them is missing.
pub fn write_segment<P: Copy>(segment: &Vec<Option<P>>, reversed: bool) -> (points: Option<
    Vec<P>,
>)
    ensures
        points is Some <==> all_converted(segment@),
        points matches Some(p) ==> p@ == oriented(converted(segment@), reversed),
{
    let count: usize = segment.len();
    let mut points: Vec<P> = Vec::with_capacity(count);
    let mut i: usize = 0;
    while i < count
        invariant
            i <= count,
            count == segment@.len(),
            points@.len() == i,
            forall|k: int|
                0 <= k < i ==> (#[trigger] oriented(segment@, reversed)[k]) is Some && points@[k]
                    == oriented(segment@, reversed)[k]->Some_0,
        decreases count - i,
    {
        let at: usize = if reversed {
            count - 1 - i
        } else {
            i
        };
        assert(oriented(segment@, reversed)[i as int] == segment@[at as int]);
        match segment[at] {
            Some(point) => {
                points.push(point);
            },
            None => {
                return None;
            },
        }
        i = i + 1;
    }
    proof {
        assert forall|k: int| 0 <= k < segment@.len() implies (#[trigger] segment@[k]) is Some by {
            let from = if reversed {
                count - 1 - k
            } else {
                k
            };
            assert(oriented(segment@, reversed)[from] == segment@[k]);
        }
        assert(points@ =~= oriented(converted(segment@), reversed));
    }
    Some(points)
}

/// Puts the route together: for each instruction in turn, the points of the
/// segment that it names are appended in the direction asked for. An
/// instruction that names no segment, or a segment with a missing point,
/// appends nothing and the assembly goes on.
pub fn assemble_route<P: Copy>(
    segments: &Vec<Vec<Option<P>>>,
    instructions: &Vec<Instruction>,
) -> (assembly: Assembly<P>)
    ensures
        assembly.points@ == assembled(segments@, instructions@),
        assembly.outcomes@ == outcomes_of(segments@, instructions@),
{
    let mut points: Vec<P> = Vec::new();
    let mut outcomes: Vec<Outcome> = Vec::new();
    let mut k: usize = 0;
    while k < instructions.len()
        invariant
            k <= instructions@.len(),
            points@ == assembled(segments@, instructions@.take(k as int)),
            outcomes@ == outcomes_of(segments@, instructions@.take(k as int)),
        decreases instructions@.len() - k,
    {
        let instruction: Instruction = instructions[k];
        proof {
            assert(instructions@.take(k + 1).drop_last() =~= instructions@.take(k as int));
            assert(instructions@.take(k + 1).last() == instruction);
        }
        if instruction.index >= segments.len() {
            outcomes.push(Outcome::InvalidIndex);
        } else {
            match write_segment(&segments[instruction.index], instruction.reversed) {
                Some(mut piece) => {
                    points.append(&mut piece);
                    outcomes.push(Outcome::Appended);
                },
                None => {
                    outcomes.push(Outcome::ConversionFailed);
                },
            }
        }
        assert(points@ =~= assembled(segments@, instructions@.take(k + 1)));
        assert(outcomes@ =~= outcomes_of(segments@, instructions@.take(k + 1)));
        k = k + 1;
    }
    assert(instructions@.take(k as int) =~= instructions@);
    Assembly { points, outcomes }
}

/// Puts the route of one course together: the instructions are carried out
/// on each feature whose course is exactly `course`, and what they yield is
/// joined in the order of the features.
pub fn assemble_course<P: Copy>(
    features: &Vec<PathFeature<P>>,
    course: &str,
    instructions: &Vec<Instruction>,
) -> (assembly: Assembly<P>)
    ensures
        assembly.points@ == course_route(features@, course@, instructions@),
        assembly.outcomes@ == course_outcomes(features@, course@, instructions@),
{
    let wanted: String = course.to_owned();
    let mut points: Vec<P> = Vec::new();
    let mut outcomes: Vec<Outcome> = Vec::new();
    let mut i: usize = 0;
    while i < features.len()
        invariant
            i <= features@.len(),
            wanted@ == course@,
            points@ == course_route(features@.take(i as int), course@, instructions@),
            outcomes@ == course_outcomes(features@.take(i as int), course@, instructions@),
        decreases features@.len() - i,
    {
        proof {
            assert(features@.take(i + 1).drop_last() =~= features@.take(i as int));
            assert(features@.take(i + 1).last() == features@[i as int]);
        }
        if features[i].course == wanted {
            let mut part = assemble_route(&features[i].paths, instructions);
            points.append(&mut part.points);
            outcomes.append(&mut part.outcomes);
        }
        assert(points@ =~= course_route(features@.take(i + 1), course@, instructions@));
        assert(outcomes@ =~= course_outcomes(features@.take(i + 1), course@, instructions@));
        i = i + 1;
    }
    assert(features@.take(i as int) =~= features@);
    Assembly { points, outcomes }
}

/// Turning a run of points round twice gives the run back.
pub proof fn lemma_reversed_twice<P>(points: Seq<P>)
    ensures
        oriented(oriented(points, true), true) == points,
{
    assert(points.reverse().reverse() =~= points);
}

/// Two lists of instructions carried out one after the other yield what the
/// first yields, followed by what the second yields.
pub proof fn lemma_assembled_in_turn<P>(
    segments: Seq<Vec<Option<P>>>,
    first: Seq<Instruction>,
    second: Seq<Instruction>,
)
    ensures
        assembled(segments, first + second) == assembled(segments, first) + assembled(
            segments,
            second,
        ),
        outcomes_of(segments, first + second) == outcomes_of(segments, first) + outcomes_of(
            segments,
            second,
        ),
    decreases second.len(),
{
    if second.len() == 0 {
        assert(first + second =~= first);
    } else {
        assert((first + second).drop_last() =~= first + second.drop_last());
        assert((first + second).last() == second.last());
        lemma_assembled_in_turn(segments, first, second.drop_last());
    }
    assert(outcomes_of(segments, first + second) =~= outcomes_of(segments, first) + outcomes_of(
        segments,
        second,
    ));
    assert(assembled(segments, first + second) =~= assembled(segments, first) + assembled(
        segments,
        second,
    ));
}

} // verus!
