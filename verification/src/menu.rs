//! The decisions behind the prompts: which sizes are accepted and which
//! strategies a selection names.

use vstd::prelude::*;

verus! {

/// The width used when none is given.
pub const DEFAULT_WIDTH: usize = 41;

/// The height used when none is given.
pub const DEFAULT_HEIGHT: usize = 21;

/// The least width and height a maze can have.
pub const MIN_SIZE: usize = 5;

/// The size to use for a requested width or height: a request below the
/// minimum is refused; an even one is raised to the next odd number.
pub fn adjust_size(requested: usize) -> (size: Option<usize>)
    ensures
        size is None <==> requested < MIN_SIZE,
        size matches Some(n) ==> n % 2 == 1 && requested <= n <= requested + 1,
{
    if requested >= MIN_SIZE {
        let n = requested | 1;
        assert(n % 2 == 1 && requested <= n && n - requested <= 1) by (bit_vector)
            requires
                n == requested | 1,
        ;
        Some(n)
    } else {
        None
    }
}

/// Why a selection is refused.
#[derive(Debug, Clone, Copy, PartialEq, Eq, Structural)]
pub enum Refusal {
    /// The selection names nothing.
    Empty,
    /// The number held, the first such in the selection, is not in the list.
    NotListed(usize),
}

/// Position `i` holds the first number that is not between 1 and
/// `available`.
pub open spec fn first_unlisted(numbers: Seq<usize>, available: usize, i: int) -> bool {
    &&& 0 <= i < numbers.len()
    &&& !(1 <= numbers[i] <= available)
    &&& forall|j: int| 0 <= j < i ==> 1 <= #[trigger] numbers[j] <= available
}

/// One of the first `upto` numbers names position `p`, counting from 1.
pub open spec fn named(numbers: Seq<usize>, upto: int, p: int) -> bool {
    exists|j: int| 0 <= j < upto && #[trigger] numbers[j] == p + 1
}

/// `chosen` lists, in rising order and once each, the positions counted from
/// 0 of the entries that `numbers` names counting from 1.
pub open spec fn names_selection(numbers: Seq<usize>, chosen: Seq<usize>) -> bool {
    &&& forall|i: int, j: int| 0 <= i < j < chosen.len() ==> chosen[i] < chosen[j]
    &&& forall|k: int|
        0 <= k < chosen.len() ==> named(numbers, numbers.len() as int, #[trigger] chosen[k] as int)
    &&& forall|i: int|
        0 <= i < numbers.len() ==> 1 <= #[trigger] numbers[i] && chosen.contains(
            (numbers[i] - 1) as usize,
        )
}

/// Every number lies between 1 and `available`.
pub open spec fn all_listed(numbers: Seq<usize>, available: usize) -> bool {
    forall|i: int| 0 <= i < numbers.len() ==> 1 <= #[trigger] numbers[i] <= available
}

/// The strategies that a selection names: `numbers` counts from 1 into a
/// list of `available` entries. An empty selection is refused, and so is one
/// with a number outside the list, which is reported; otherwise the
/// positions come back counted from 0, in rising order and without repeats.
pub fn select_entries(numbers: &Vec<usize>, available: usize) -> (chosen: Result<
    Vec<usize>,
    Refusal,
>)
    ensures
        match chosen {
            Ok(v) => numbers@.len() > 0 && all_listed(numbers@, available) && names_selection(
                numbers@,
                v@,
            ),
            Err(Refusal::Empty) => numbers@.len() == 0,
            Err(Refusal::NotListed(n)) => exists|i: int|
                first_unlisted(numbers@, available, i) && numbers@[i] == n,
        },
{
    if numbers.len() == 0 {
        return Err(Refusal::Empty);
    }
    let mut marked: Vec<bool> = Vec::new();
    while marked.len() < available
        invariant
            marked@.len() <= available,
            forall|p: int| 0 <= p < marked@.len() ==> !marked@[p],
        decreases available - marked@.len(),
    {
        marked.push(false);
    }
    let mut i: usize = 0;
    while i < numbers.len()
        invariant
            i <= numbers.len(),
            marked@.len() == available,
            forall|j: int| 0 <= j < i ==> 1 <= #[trigger] numbers@[j] <= available,
            forall|p: int|
                0 <= p < available ==> (#[trigger] marked@[p] <==> named(numbers@, i as int, p)),
        decreases numbers.len() - i,
    {
        let n = numbers[i];
        if n < 1 || n > available {
            assert(first_unlisted(numbers@, available, i as int));
            return Err(Refusal::NotListed(n));
        }
        let ghost before = marked@;
        marked[n - 1] = true;
        proof {
            assert forall|p: int| 0 <= p < available implies (#[trigger] marked@[p] <==> named(
                numbers@,
                i + 1,
                p,
            )) by {
                if p == n - 1 {
                    assert(numbers@[i as int] == p + 1);
                } else {
                    assert(marked@[p] == before[p]);
                    if named(numbers@, i as int, p) {
                        let j = choose|j: int| 0 <= j < i && #[trigger] numbers@[j] == p + 1;
                        assert(0 <= j < i + 1 && numbers@[j] == p + 1);
                    }
                    if named(numbers@, i + 1, p) {
                        let j = choose|j: int| 0 <= j < i + 1 && #[trigger] numbers@[j] == p + 1;
                        assert(0 <= j < i && numbers@[j] == p + 1);
                    }
                }
            }
        }
        i = i + 1;
    }
    let mut chosen: Vec<usize> = Vec::new();
    let mut p: usize = 0;
    while p < available
        invariant
            p <= available,
            marked@.len() == available,
            forall|k: int|
                0 <= k < chosen@.len() ==> #[trigger] chosen@[k] < p && marked@[chosen@[k] as int],
            forall|a: int, b: int| 0 <= a < b < chosen@.len() ==> chosen@[a] < chosen@[b],
            forall|q: int| 0 <= q < p && #[trigger] marked@[q] ==> chosen@.contains(q as usize),
        decreases available - p,
    {
        if marked[p] {
            let ghost before = chosen@;
            chosen.push(p);
            proof {
                assert forall|q: int| 0 <= q < p + 1 && #[trigger] marked@[q] implies chosen@.contains(
                    q as usize,
                ) by {
                    if q == p {
                        assert(chosen@[before.len() as int] == q);
                    } else {
                        let k = choose|k: int| 0 <= k < before.len() && before[k] == q as usize;
                        assert(chosen@[k] == q);
                    }
                }
            }
        }
        p = p + 1;
    }
    proof {
        assert forall|i: int| 0 <= i < numbers@.len() implies 1 <= #[trigger] numbers@[i]
            && chosen@.contains((numbers@[i] - 1) as usize) by {
            let q = numbers@[i] - 1;
            assert(named(numbers@, numbers@.len() as int, q));
            assert(marked@[q]);
        }
    }
    Ok(chosen)
}

} // verus!
