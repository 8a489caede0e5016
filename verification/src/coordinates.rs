//! Nested coordinate values and their flattening.
//!
//! A coordinate is a signed fixed-point number: the caller picks the unit (a
//! ten-millionth of a degree, say) and converts at the edge, so that two
//! coordinates are the same point exactly when they are the same integer.

use vstd::prelude::*;

verus! {

/// A coordinate value as features carry it: a number, or a sequence of such
/// values nested to any depth.
#[derive(Debug, PartialEq, Eq)]
pub enum Coordinates {
    Scalar(i64),
    Sequence(Vec<Coordinates>),
}

/// What the first `n` of `items` flatten to, one item after the other.
pub open spec fn flat_prefix(items: Seq<Coordinates>, n: nat) -> Seq<i64>
    decreases items, n,
{
    if n == 0 || n > items.len() {
        Seq::empty()
    } else {
        flat_prefix(items, (n - 1) as nat) + items[n - 1].flat()
    }
}

/// What each of `items` flattens to, item by item.
pub open spec fn contributions(items: Seq<Coordinates>) -> Seq<Seq<i64>> {
    Seq::new(items.len(), |i: int| items[i].flat())
}

impl Coordinates {
    /// The numbers of this value in depth-first, left-to-right order: a
    /// number contributes itself, a sequence what its items contribute, one
    /// after the other.
    pub open spec fn flat(self) -> Seq<i64>
        decreases self, 0nat,
    {
        match self {
            Coordinates::Scalar(value) => seq![value],
            Coordinates::Sequence(items) => flat_prefix(items@, items@.len()),
        }
    }

    /// Whether `other` has the same numbers in the same nesting.
    pub open spec fn same_as(self, other: Coordinates) -> bool
        decreases self,
    {
        match self {
            Coordinates::Scalar(value) => other == Coordinates::Scalar(value),
            Coordinates::Sequence(items) => {
                &&& other matches Coordinates::Sequence(others)
                &&& others@.len() == items@.len()
                &&& forall|i: int|
                    0 <= i < items@.len() ==> (#[trigger] items@[i]).same_as(others@[i])
            },
        }
    }

    /// Whether this value is one position: a sequence of exactly two numbers.
    pub open spec fn is_position(self) -> bool {
        &&& self matches Coordinates::Sequence(items)
        &&& items@.len() == 2
        &&& items@[0] is Scalar
        &&& items@[1] is Scalar
    }

    /// Whether this value holds positions nested `depth` sequences deep: at
    /// depth 0 it is a position, and one level up it is a sequence of values
    /// that are each one level less deep.
    pub open spec fn nests_positions(self, depth: nat) -> bool
        decreases depth,
    {
        if depth == 0 {
            self.is_position()
        } else {
            &&& self matches Coordinates::Sequence(items)
            &&& forall|i: int|
                0 <= i < items@.len() ==> (#[trigger] items@[i]).nests_positions(
                    (depth - 1) as nat,
                )
        }
    }

    /// Whether this value holds positions nested `depth` sequences deep.
    pub fn holds_positions(&self, depth: u8) -> (holds: bool)
        ensures
            holds == self.nests_positions(depth as nat),
        decreases depth,
    {
        match self {
            Coordinates::Scalar(_) => false,
            Coordinates::Sequence(items) => {
                if depth == 0 {
                    items.len() == 2 && matches!(items[0], Coordinates::Scalar(_)) && matches!(
                        items[1],
                        Coordinates::Scalar(_)
                    )
                } else {
                    let mut i: usize = 0;
                    while i < items.len()
                        invariant
                            i <= items.len(),
                            depth > 0,
                            *self == Coordinates::Sequence(*items),
                            forall|k: int|
                                0 <= k < i ==> (#[trigger] items@[k]).nests_positions(
                                    (depth - 1) as nat,
                                ),
                        decreases items.len() - i,
                    {
                        if !items[i].holds_positions(depth - 1) {
                            assert(!items@[i as int].nests_positions((depth as nat - 1) as nat));
                            assert(self->Sequence_0@ == items@);
                            return false;
                        }
                        i = i + 1;
                    }
                    true
                }
            },
        }
    }

    /// Appends the numbers of this value to `out`, in order.
    fn flatten_into(&self, out: &mut Vec<i64>)
        ensures
            final(out)@ == old(out)@ + self.flat(),
        decreases *self,
    {
        match self {
            Coordinates::Scalar(value) => {
                out.push(*value);
                assert(out@ =~= old(out)@ + self.flat());
            },
            Coordinates::Sequence(items) => {
                assert(out@ =~= old(out)@ + flat_prefix(items@, 0));
                let mut i: usize = 0;
                while i < items.len()
                    invariant
                        i <= items.len(),
                        *self == Coordinates::Sequence(*items),
                        out@ == old(out)@ + flat_prefix(items@, i as nat),
                    decreases items.len() - i,
                {
                    proof {
                        assert(decreases_to!(*self => self->Sequence_0));
                        assert(decreases_to!(*items => items@));
                        assert(decreases_to!(items@ => items@[i as int]));
                    }
                    items[i].flatten_into(out);
                    assert(out@ =~= old(out)@ + flat_prefix(items@, (i + 1) as nat));
                    i = i + 1;
                }
            },
        }
    }

    /// The numbers of this value in depth-first, left-to-right order.
    pub fn flatten(&self) -> (numbers: Vec<i64>)
        ensures
            numbers@ == self.flat(),
    {
        let mut numbers: Vec<i64> = Vec::new();
        self.flatten_into(&mut numbers);
        assert(numbers@ =~= self.flat());
        numbers
    }
}

proof fn lemma_flat_prefix_concatenates(items: Seq<Coordinates>, n: nat)
    requires
        n <= items.len(),
    ensures
        flat_prefix(items, n) == contributions(items).take(n as int).flatten(),
    decreases n,
{
    let pieces = contributions(items);
    if n == 0 {
        assert(pieces.take(0).flatten() =~= Seq::<i64>::empty());
    } else {
        lemma_flat_prefix_concatenates(items, (n - 1) as nat);
        assert(pieces.take(n as int) =~= pieces.take(n - 1).push(pieces[n - 1]));
        pieces.take(n - 1).lemma_flatten_push(pieces[n - 1]);
    }
}

impl Clone for Coordinates {
    /// A copy with the same numbers in the same nesting.
    fn clone(&self) -> (copy: Coordinates)
        ensures
            self.same_as(copy),
        decreases *self,
    {
        match self {
            Coordinates::Scalar(value) => Coordinates::Scalar(*value),
            Coordinates::Sequence(items) => {
                let mut copies: Vec<Coordinates> = Vec::new();
                let mut i: usize = 0;
                while i < items.len()
                    invariant
                        i <= items.len(),
                        *self == Coordinates::Sequence(*items),
                        copies@.len() == i,
                        forall|k: int| 0 <= k < i ==> (#[trigger] items@[k]).same_as(copies@[k]),
                    decreases items.len() - i,
                {
                    proof {
                        assert(decreases_to!(*self => self->Sequence_0));
                        assert(decreases_to!(*items => items@));
                        assert(decreases_to!(items@ => items@[i as int]));
                    }
                    let item = items[i].clone();
                    copies.push(item);
                    i = i + 1;
                }
                Coordinates::Sequence(copies)
            },
        }
    }
}

proof fn lemma_same_prefix(items: Seq<Coordinates>, others: Seq<Coordinates>, n: nat)
    requires
        n <= items.len() == others.len(),
        forall|i: int| 0 <= i < items.len() ==> (#[trigger] items[i]).flat() == others[i].flat(),
    ensures
        flat_prefix(items, n) == flat_prefix(others, n),
    decreases n,
{
    if n > 0 {
        lemma_same_prefix(items, others, (n - 1) as nat);
        assert(items[n - 1].flat() == others[n - 1].flat());
    }
}

/// Values with the same numbers in the same nesting flatten alike.
pub proof fn lemma_same_flat(value: Coordinates, other: Coordinates)
    requires
        value.same_as(other),
    ensures
        value.flat() == other.flat(),
    decreases value,
{
    if let Coordinates::Sequence(items) = value {
        let others = other->Sequence_0;
        assert forall|i: int| 0 <= i < items@.len() implies (#[trigger] items@[i]).flat()
            == others@[i].flat() by {
            lemma_same_flat(items@[i], others@[i]);
        }
        lemma_same_prefix(items@, others@, items@.len());
    }
}

/// Values with the same numbers in the same nesting hold positions at the
/// same depth.
pub proof fn lemma_same_depth(value: Coordinates, other: Coordinates, depth: nat)
    requires
        value.same_as(other),
    ensures
        value.nests_positions(depth) == other.nests_positions(depth),
    decreases depth,
{
    if let Coordinates::Sequence(items) = value {
        let others = other->Sequence_0;
        if depth == 0 {
            if items@.len() == 2 {
                assert(items@[0].same_as(others@[0]));
                assert(items@[1].same_as(others@[1]));
            }
        } else {
            assert forall|i: int| 0 <= i < items@.len() implies (#[trigger] items@[i])
                .nests_positions((depth - 1) as nat) == others@[i].nests_positions(
                (depth - 1) as nat,
            ) by {
                lemma_same_depth(items@[i], others@[i], (depth - 1) as nat);
            }
            if value.nests_positions(depth) {
                assert forall|i: int| 0 <= i < others@.len() implies (#[trigger] others@[i])
                    .nests_positions((depth - 1) as nat) by {
                    assert(items@[i].nests_positions((depth - 1) as nat));
                }
            }
            if other.nests_positions(depth) {
                assert forall|i: int| 0 <= i < items@.len() implies (#[trigger] items@[i])
                    .nests_positions((depth - 1) as nat) by {
                    assert(others@[i].nests_positions((depth - 1) as nat));
                }
            }
        }
    }
}

/// A number flattens to itself.
pub proof fn lemma_flat_of_scalar(value: i64)
    ensures
        Coordinates::Scalar(value).flat() == seq![value],
{
}

/// A sequence flattens to the concatenation of what its items flatten to,
/// in the order of the items.
pub proof fn lemma_flat_of_sequence(items: Vec<Coordinates>)
    ensures
        Coordinates::Sequence(items).flat() == contributions(items@).flatten(),
{
    lemma_flat_prefix_concatenates(items@, items@.len());
    assert(contributions(items@).take(items@.len() as int) =~= contributions(items@));
}

proof fn lemma_flat_prefix_even(items: Seq<Coordinates>, n: nat)
    requires
        n <= items.len(),
        forall|i: int| 0 <= i < items.len() ==> (#[trigger] items[i].flat()).len() % 2 == 0,
    ensures
        flat_prefix(items, n).len() % 2 == 0,
    decreases n,
{
    if n > 0 {
        lemma_flat_prefix_even(items, (n - 1) as nat);
        assert(items[n - 1].flat().len() % 2 == 0);
    }
}

/// Positions flatten to whole pairs: at any depth of nesting the flattened
/// numbers are even in count.
pub proof fn lemma_positions_flatten_to_pairs(value: Coordinates, depth: nat)
    requires
        value.nests_positions(depth),
    ensures
        value.flat().len() % 2 == 0,
    decreases depth,
{
    let items = value->Sequence_0@;
    if depth == 0 {
        assert(flat_prefix(items, 1) == flat_prefix(items, 0) + items[0].flat());
        assert(flat_prefix(items, 2) == flat_prefix(items, 1) + items[1].flat());
    } else {
        assert forall|i: int| 0 <= i < items.len() implies (#[trigger] items[i].flat()).len() % 2
            == 0 by {
            lemma_positions_flatten_to_pairs(items[i], (depth - 1) as nat);
        }
        lemma_flat_prefix_even(items, items.len());
    }
}

} // verus!
