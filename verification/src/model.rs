use vstd::prelude::*;

verus! {

/// Control phase of the generator.
///
/// `A` means no simple increment is pending: the next step walks back to the
/// last settled slot and redistributes the residual from there.  `B` carries a
/// pending split: slot `k` holds `x`, slot `l == k + 1` holds the residual, and
/// the next step grows `x` by one at the cost of the residual.
#[derive(Clone, Copy)]
pub enum State {
    A,
    B { x: usize, l: usize },
}

/// Abstract state of a generator: the working buffer, the boundary index `k`
/// of the settled prefix, the residual `y`, the control phase, and the number
/// `n` being partitioned.
#[verifier::ext_equal]
pub struct GenModel {
    pub a: Seq<usize>,
    pub k: usize,
    pub y: usize,
    pub next: State,
    pub n: usize,
}

/// Sum of a sequence of parts.
pub open spec fn seq_sum(s: Seq<usize>) -> nat
    decreases s.len(),
{
    if s.len() == 0 {
        0
    } else {
        (seq_sum(s.drop_last()) + s.last()) as nat
    }
}

/// The parts appear in non-decreasing order.
pub open spec fn nondecreasing(s: Seq<usize>) -> bool {
    forall|i: int, j: int| 0 <= i <= j < s.len() ==> s[i] <= s[j]
}

/// Strict lexicographic order on part sequences, witnessed by the first
/// position where the two differ.
pub open spec fn lex_lt(p: Seq<usize>, q: Seq<usize>) -> bool {
    exists|j: int|
        0 <= j < p.len() && j < q.len() && p.subrange(0, j) == q.subrange(0, j) && p[j] < q[j]
}

/// The greedy inner descent: as long as the residual `y` can pay for two more
/// copies of `x`, settle another slot at `x` and move the boundary right.
/// Returns the buffer, boundary and residual at the point where the descent
/// stops.
pub open spec fn settle(a: Seq<usize>, k: int, x: usize, y: usize) -> (Seq<usize>, int, usize)
    decreases y,
{
    if 1 <= x && 2 * x <= y && 0 <= k < a.len() {
        settle(a.update(k, x), k + 1, x, (y - x) as usize)
    } else {
        (a, k, y)
    }
}

/// The common tail of a step, after the descent has fixed `x` and the
/// residual: either split the remainder into the two parts `x` and `y`, or
/// close the partition with the single part `x + y` and bank `x + y - 1` as
/// the next residual.
pub open spec fn emit_model(s: GenModel, x: usize) -> (GenModel, Option<Seq<usize>>) {
    if x <= s.y {
        let a2 = s.a.update(s.k as int, x).update(s.k + 1, s.y);
        (
            (GenModel { a: a2, next: State::B { x, l: (s.k + 1) as usize }, ..s }),
            Some(a2.subrange(0, s.k + 2)),
        )
    } else {
        let a2 = s.a.update(s.k as int, (x + s.y) as usize);
        (
            (GenModel { a: a2, y: (x + s.y - 1) as usize, next: State::A, ..s }),
            Some(a2.subrange(0, s.k + 1)),
        )
    }
}

/// One transition of the generator: the successor state together with the
/// partition produced, or `None` once the enumeration is over.
pub open spec fn step(s: GenModel) -> (GenModel, Option<Seq<usize>>) {
    match s.next {
        State::A => {
            if s.k == 0 {
                if s.a.len() == 1 {
                    ((GenModel { a: s.a.drop_last(), ..s }), Some(Seq::empty()))
                } else {
                    (s, None)
                }
            } else {
                let k0 = (s.k - 1) as usize;
                let x = (s.a[k0 as int] + 1) as usize;
                let t = settle(s.a, k0 as int, x, s.y);
                emit_model((GenModel { a: t.0, k: t.1 as usize, y: t.2, ..s }), x)
            }
        },
        State::B { x, .. } => emit_model(
            (GenModel { y: (s.y - 1) as usize, ..s }),
            (x + 1) as usize,
        ),
    }
}

/// The generator has nothing left to produce: every further step returns
/// `None` and leaves the state alone.
pub open spec fn exhausted(s: GenModel) -> bool {
    s.next is A && s.k == 0 && s.a.len() != 1
}

/// The state a generator starts from, for either construction path.
pub open spec fn init_model(n: usize) -> GenModel {
    GenModel {
        a: Seq::new((n + 1) as nat, |i: int| 0usize),
        k: if n == 0 {
            0
        } else {
            1
        },
        y: if n == 0 {
            0
        } else {
            (n - 1) as usize
        },
        next: State::A,
        n,
    }
}

/// Facts that hold between calls while the generator rests in phase `A` with
/// a non-empty settled prefix.  The first disjunct of the last conjunct is the
/// freshly built state, before anything was produced; afterwards slot `k`
/// still holds the last part produced and `y` is exactly one less than it.
pub open spec fn outer_live(s: GenModel) -> bool {
    &&& s.a.len() == s.n + 1
    &&& 1 <= s.k < s.a.len()
    &&& seq_sum(s.a.take(s.k as int)) + s.y + 1 == s.n
    &&& nondecreasing(s.a.take(s.k as int))
    &&& {
        ||| (s.k == 1 && s.a[0] == 0)
        ||| ((forall|i: int| 0 <= i < s.k ==> 1 <= s.a[i]) && 1 <= s.a[s.k as int] && s.y + 1
            == s.a[s.k as int] && nondecreasing(s.a.take(s.k + 1)))
    }
}

/// Facts that hold between calls in phase `B`: the buffer up to `l == k + 1`
/// is exactly the partition just produced, with `x` and the residual as its
/// two last parts.
pub open spec fn inner_live(s: GenModel, x: usize, l: usize) -> bool {
    &&& s.a.len() == s.n + 1
    &&& l == s.k + 1
    &&& s.k + 1 < s.a.len()
    &&& 1 <= x <= s.y
    &&& s.a[s.k as int] == x
    &&& s.a[l as int] == s.y
    &&& seq_sum(s.a.take(s.k as int)) + x + s.y == s.n
    &&& forall|i: int| 0 <= i < s.k ==> 1 <= s.a[i]
    &&& nondecreasing(s.a.take(s.k as int))
    &&& (1 <= s.k ==> s.a[s.k - 1] <= x)
}

/// The generator's invariant, by phase.
pub open spec fn inv(s: GenModel) -> bool {
    match s.next {
        State::A => {
            if s.k == 0 {
                if s.a.len() == 1 {
                    s.n == 0
                } else {
                    true
                }
            } else {
                outer_live(s)
            }
        },
        State::B { x, l } => inner_live(s, x, l),
    }
}

/// Facts that hold at the point where a step has fixed the next part `x` and
/// is about to emit: the precondition of the shared emitting tail.
pub open spec fn mid(s: GenModel, x: usize) -> bool {
    &&& s.a.len() == s.n + 1
    &&& s.k < s.a.len()
    &&& 1 <= x
    &&& seq_sum(s.a.take(s.k as int)) + x + s.y == s.n
    &&& forall|i: int| 0 <= i < s.k ==> 1 <= s.a[i]
    &&& nondecreasing(s.a.take(s.k as int))
    &&& (1 <= s.k ==> s.a[s.k - 1] <= x)
}

/// The partition the generator produced last, reconstructed from its state;
/// `None` for a freshly built generator.
pub open spec fn last_emitted(s: GenModel) -> Option<Seq<usize>> {
    match s.next {
        State::A => {
            if s.k == 0 {
                if s.a.len() == 0 {
                    Some(Seq::empty())
                } else if s.a.len() == 1 {
                    None
                } else {
                    Some(s.a.take(1))
                }
            } else {
                if s.k == 1 && s.a[0] == 0 {
                    None
                } else {
                    Some(s.a.take(s.k + 1))
                }
            }
        },
        State::B { .. } => Some(s.a.take(s.k + 2)),
    }
}

} // verus!
