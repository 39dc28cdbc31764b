//! Ordering facts about the emission sequence.
//!
//! Every transition that produces a partition produces one that is strictly
//! greater, in lexicographic order, than the partition produced just before
//! it ([`lemma_step_increases`]), and the successor state again remembers
//! what it produced ([`lemma_step_remembers`]).  Since the order is strict
//! and transitive, no partition is ever produced twice.

use vstd::prelude::*;

use crate::lemmas::{lemma_sum_ge_elem, lemma_sum_ge_len, lemma_sum_push, lemma_sum_take_succ};
use crate::model::{
    emit_model, inv, last_emitted, lex_lt, mid, nondecreasing, seq_sum, settle, step, GenModel,
    State,
};

verus! {

/// What the greedy descent leaves behind: the slots it settled all hold `x`,
/// everything below its starting point is untouched, the sum bookkeeping
/// still balances, and the residual can no longer pay for two copies of `x`.
proof fn lemma_settle_facts(a: Seq<usize>, k: int, x: usize, y: usize, n: usize)
    requires
        0 <= k < a.len(),
        a.len() == n + 1,
        1 <= x,
        seq_sum(a.take(k)) + x + y == n,
        forall|i: int| 0 <= i < k ==> 1 <= a[i],
        nondecreasing(a.take(k)),
        1 <= k ==> a[k - 1] <= x,
    ensures
        settle(a, k, x, y).0.len() == a.len(),
        k <= settle(a, k, x, y).1 < a.len(),
        settle(a, k, x, y).0.subrange(0, k) == a.subrange(0, k),
        forall|i: int| k <= i < settle(a, k, x, y).1 ==> settle(a, k, x, y).0[i] == x,
        seq_sum(settle(a, k, x, y).0.take(settle(a, k, x, y).1)) + x + settle(a, k, x, y).2 == n,
        2 * x > settle(a, k, x, y).2,
        nondecreasing(settle(a, k, x, y).0.take(settle(a, k, x, y).1)),
        forall|i: int| 0 <= i < settle(a, k, x, y).1 ==> 1 <= settle(a, k, x, y).0[i],
        1 <= settle(a, k, x, y).1 ==> settle(a, k, x, y).0[settle(a, k, x, y).1 - 1] <= x,
    decreases y,
{
    if 2 * x <= y {
        let a1 = a.update(k, x);
        lemma_sum_ge_len(a.take(k));
        assert(a1.take(k) =~= a.take(k));
        assert(a1.take(k + 1) =~= a.take(k).push(x));
        lemma_sum_push(a.take(k), x);
        assert forall|i: int, j: int|
            #![trigger a1.take(k + 1)[i], a1.take(k + 1)[j]]
            0 <= i <= j < k + 1 implies a1.take(k + 1)[i] <= a1.take(k + 1)[j] by {
            if j < k {
                assert(a.take(k)[i] <= a.take(k)[j]);
            } else if i < k {
                assert(a.take(k)[i] <= a.take(k)[k - 1]);
            }
        }
        lemma_settle_facts(a1, k + 1, x, (y - x) as usize, n);
        let r = settle(a, k, x, y);
        assert(r == settle(a1, k + 1, x, (y - x) as usize));
        assert(r.0.subrange(0, k + 1) == a1.subrange(0, k + 1));
        assert forall|i: int| 0 <= i < k implies r.0[i] == a[i] by {
            assert(r.0.subrange(0, k + 1)[i] == a1.subrange(0, k + 1)[i]);
        }
        assert(r.0.subrange(0, k) =~= a.subrange(0, k));
        assert forall|i: int| k <= i < r.1 implies r.0[i] == x by {
            if i == k {
                assert(r.0.subrange(0, k + 1)[k] == a1.subrange(0, k + 1)[k]);
            }
        }
    }
}

/// The strict order is transitive.
pub proof fn lemma_lex_lt_trans(p: Seq<usize>, q: Seq<usize>, r: Seq<usize>)
    requires
        lex_lt(p, q),
        lex_lt(q, r),
    ensures
        lex_lt(p, r),
{
    let j1: int = choose|j: int|
        0 <= j < p.len() && j < q.len() && p.subrange(0, j) == q.subrange(0, j) && p[j] < q[j];
    let j2: int = choose|j: int|
        0 <= j < q.len() && j < r.len() && q.subrange(0, j) == r.subrange(0, j) && q[j] < r[j];
    let j: int = if j1 <= j2 {
        j1
    } else {
        j2
    };
    assert forall|i: int| 0 <= i < j implies p[i] == r[i] by {
        assert(p.subrange(0, j1)[i] == q.subrange(0, j1)[i]);
        assert(q.subrange(0, j2)[i] == r.subrange(0, j2)[i]);
    }
    assert(p.subrange(0, j) =~= r.subrange(0, j));
    if j1 < j2 {
        assert(q.subrange(0, j2)[j] == r.subrange(0, j2)[j]);
    } else if j2 < j1 {
        assert(p.subrange(0, j1)[j] == q.subrange(0, j1)[j]);
    }
    assert(p[j] < r[j]);
}

/// The strict order separates its two sides: they are different sequences.
pub proof fn lemma_lex_lt_neq(p: Seq<usize>, q: Seq<usize>)
    requires
        lex_lt(p, q),
    ensures
        p != q,
{
    let j: int = choose|j: int|
        0 <= j < p.len() && j < q.len() && p.subrange(0, j) == q.subrange(0, j) && p[j] < q[j];
    assert(p[j] < q[j]);
}

/// After a transition that produces a partition, the successor state again
/// remembers that partition as the one produced last.
pub proof fn lemma_step_remembers(s: GenModel, q: Seq<usize>)
    requires
        inv(s),
        step(s).1 == Some(q),
    ensures
        last_emitted(step(s).0) == Some(q),
{
    match s.next {
        State::A => {
            if s.k == 0 {
                assert(s.a.len() == 1);
                assert(step(s).0.a =~= Seq::<usize>::empty());
            } else {
                let k0: int = s.k - 1;
                let x: usize = (s.a[k0] + 1) as usize;
                lemma_outer_descent_pre(s, x);
                lemma_settle_facts(s.a, k0, x, s.y, s.n);
                let t = settle(s.a, k0, x, s.y);
                let m = GenModel { a: t.0, k: t.1 as usize, y: t.2, ..s };
                lemma_emit_remembers(m, x);
            }
        },
        State::B { x, .. } => {
            let m = GenModel { y: (s.y - 1) as usize, ..s };
            let x2: usize = (x + 1) as usize;
            lemma_inner_emit_pre(s, x2);
            lemma_emit_remembers(m, x2);
        },
    }
}

/// In phase `A` with a settled prefix, the facts needed to run the descent
/// from slot `k - 1` with the incremented part.
proof fn lemma_outer_descent_pre(s: GenModel, x: usize)
    requires
        inv(s),
        s.next is A,
        1 <= s.k,
        x == (s.a[s.k - 1] + 1) as usize,
    ensures
        x == s.a[s.k - 1] + 1,
        1 <= x,
        seq_sum(s.a.take(s.k - 1)) + x + s.y == s.n,
        forall|i: int| 0 <= i < s.k - 1 ==> 1 <= s.a[i],
        nondecreasing(s.a.take(s.k - 1)),
        2 <= s.k ==> s.a[s.k - 2] <= x,
{
    let k0: int = s.k - 1;
    lemma_sum_ge_elem(s.a.take(s.k as int), k0);
    assert(s.a.take(s.k as int)[k0] == s.a[k0]);
    assert(s.a[k0] + 1 <= s.n);
    lemma_sum_take_succ(s.a, k0);
    assert(s.a.take(s.k as int).take(k0) =~= s.a.take(k0));
    assert forall|i: int, j: int| 0 <= i <= j < k0 implies s.a.take(k0)[i] <= s.a.take(k0)[j] by {
        assert(s.a.take(s.k as int)[i] <= s.a.take(s.k as int)[j]);
    }
    if 2 <= s.k {
        assert(s.a.take(s.k as int)[k0 - 1] <= s.a.take(s.k as int)[k0]);
    }
    assert forall|i: int| 0 <= i < k0 implies 1 <= s.a[i] by {
        // `k0 >= 1` rules out the freshly built shape, so the settled prefix
        // consists of parts already produced.
        assert(!(s.k == 1 && s.a[0] == 0));
    }
}

/// In phase `B`, the facts needed to emit with the incremented part.
proof fn lemma_inner_emit_pre(s: GenModel, x2: usize)
    requires
        inv(s),
        s.next matches State::B { x, .. } && x2 == (x + 1) as usize,
    ensures
        s.next matches State::B { x, .. } ==> x2 == x + 1,
        1 <= s.y,
        seq_sum(s.a.take(s.k as int)) + x2 + (s.y - 1) == s.n,
        s.k + 1 < s.a.len(),
        1 <= s.k ==> s.a[s.k - 1] < x2,
{
}

/// The emitting tail leaves the produced partition readable from the
/// successor state.
proof fn lemma_emit_remembers(m: GenModel, x: usize)
    requires
        m.a.len() == m.n + 1,
        0 <= m.k < m.a.len(),
        1 <= x,
        seq_sum(m.a.take(m.k as int)) + x + m.y == m.n,
        forall|i: int| 0 <= i < m.k ==> 1 <= m.a[i],
    ensures
        last_emitted(emit_model(m, x).0) == emit_model(m, x).1,
{
    lemma_sum_ge_len(m.a.take(m.k as int));
    let ki: int = m.k as int;
    if x <= m.y {
        let a2 = m.a.update(ki, x).update(ki + 1, m.y);
        assert(a2.take(ki + 2) =~= a2.subrange(0, ki + 2));
        assert(emit_model(m, x).0.k == m.k);
    } else {
        let a2 = m.a.update(ki, (x + m.y) as usize);
        if m.k == 0 {
            assert(seq_sum(m.a.take(0)) == 0);
            assert(x + m.y == m.n);
            assert(a2.take(1) =~= a2.subrange(0, 1));
        } else {
            assert(1 <= a2[0]);
            assert(a2.take(ki + 1) =~= a2.subrange(0, ki + 1));
        }
    }
}

/// The emitting tail keeps the invariant.
proof fn lemma_emit_preserves_inv(m: GenModel, x: usize)
    requires
        mid(m, x),
    ensures
        inv(emit_model(m, x).0),
{
    lemma_sum_ge_len(m.a.take(m.k as int));
    let ki: int = m.k as int;
    if x <= m.y {
        let a2 = m.a.update(ki, x).update(ki + 1, m.y);
        assert(a2.take(ki) =~= m.a.take(ki));
        assert(m.k + 2 <= m.a.len());
    } else {
        let a2 = m.a.update(ki, (x + m.y) as usize);
        assert(a2.take(ki) =~= m.a.take(ki));
        if m.k == 0 {
            assert(seq_sum(m.a.take(0)) == 0);
            assert(x + m.y == m.n);
        } else {
            assert forall|i: int, j: int|
                #![trigger a2.take(ki + 1)[i], a2.take(ki + 1)[j]]
                0 <= i <= j < ki + 1 implies a2.take(ki + 1)[i] <= a2.take(ki + 1)[j] by {
                if j < ki {
                    assert(m.a.take(ki)[i] <= m.a.take(ki)[j]);
                } else if i < ki {
                    assert(m.a.take(ki)[i] <= m.a.take(ki)[ki - 1]);
                }
            }
        }
    }
}

/// Every transition keeps the invariant: whatever a well-formed generator
/// state steps to is well-formed again.
pub proof fn lemma_step_preserves_inv(s: GenModel)
    requires
        inv(s),
    ensures
        inv(step(s).0),
{
    match s.next {
        State::A => {
            if s.k == 0 {
            } else {
                let k0: int = s.k - 1;
                let x: usize = (s.a[k0] + 1) as usize;
                lemma_outer_descent_pre(s, x);
                lemma_settle_facts(s.a, k0, x, s.y, s.n);
                let t = settle(s.a, k0, x, s.y);
                let m = GenModel { a: t.0, k: t.1 as usize, y: t.2, ..s };
                lemma_emit_preserves_inv(m, x);
            }
        },
        State::B { x, .. } => {
            let x2: usize = (x + 1) as usize;
            lemma_inner_emit_pre(s, x2);
            let m = GenModel { y: (s.y - 1) as usize, ..s };
            lemma_emit_preserves_inv(m, x2);
        },
    }
}

/// Along a run, the invariant carries from the starting state to every later
/// state.
proof fn lemma_run_inv(states: Seq<GenModel>, outs: Seq<Seq<usize>>, t: int)
    requires
        states.len() == outs.len() + 1,
        inv(states[0]),
        forall|u: int| 0 <= u < outs.len() ==> step(states[u]) == (states[u + 1], Some(outs[u])),
        0 <= t < states.len(),
    ensures
        inv(states[t]),
    decreases t,
{
    if t > 0 {
        lemma_run_inv(states, outs, t - 1);
        lemma_step_preserves_inv(states[t - 1]);
    }
}

/// Each produced partition is strictly greater, in lexicographic order, than
/// the partition produced by the call just before it.  Together with
/// [`lemma_lex_lt_trans`] and [`lemma_lex_lt_neq`] this shows that the
/// generator never produces the same partition twice.
pub proof fn lemma_step_increases(s: GenModel, p: Seq<usize>, q: Seq<usize>)
    requires
        inv(s),
        last_emitted(s) == Some(p),
        step(s).1 == Some(q),
    ensures
        lex_lt(p, q),
{
    match s.next {
        State::A => {
            assert(1 <= s.k);
            let k0: int = s.k - 1;
            let x: usize = (s.a[k0] + 1) as usize;
            lemma_outer_descent_pre(s, x);
            lemma_settle_facts(s.a, k0, x, s.y, s.n);
            let t = settle(s.a, k0, x, s.y);
            let m = GenModel { a: t.0, k: t.1 as usize, y: t.2, ..s };
            assert(q == emit_model(m, x).1->Some_0);
            lemma_sum_ge_len(t.0.take(t.1));
            assert(p == s.a.take(s.k + 1));
            assert(p[k0] == s.a[k0]);
            assert forall|i: int| 0 <= i < k0 implies q[i] == p[i] by {
                assert(t.0.subrange(0, k0)[i] == s.a.subrange(0, k0)[i]);
            }
            assert(q[k0] >= x) by {
                if k0 < t.1 {
                    assert(t.0[k0] == x);
                }
            }
            assert(p.subrange(0, k0) =~= q.subrange(0, k0));
            assert(p[k0] < q[k0]);
            assert(lex_lt(p, q));
        },
        State::B { x, .. } => {
            let x2: usize = (x + 1) as usize;
            lemma_inner_emit_pre(s, x2);
            let m = GenModel { y: (s.y - 1) as usize, ..s };
            let ki: int = s.k as int;
            assert(q == emit_model(m, x2).1->Some_0);
            assert(p == s.a.take(s.k + 2));
            assert(p[ki] == s.a[ki]);
            assert forall|i: int| 0 <= i < ki implies q[i] == p[i] by {}
            assert(q[ki] >= x2);
            assert(p.subrange(0, ki) =~= q.subrange(0, ki));
            assert(p[ki] < q[ki]);
            assert(lex_lt(p, q));
        },
    }
}

/// Over a whole run — a well-formed starting state followed by transitions
/// that each produced a partition — the partitions come out in strictly
/// increasing lexicographic order.
pub proof fn lemma_run_increases(states: Seq<GenModel>, outs: Seq<Seq<usize>>, i: int, j: int)
    requires
        states.len() == outs.len() + 1,
        inv(states[0]),
        forall|u: int| 0 <= u < outs.len() ==> step(states[u]) == (states[u + 1], Some(outs[u])),
        0 <= i < j < outs.len(),
    ensures
        lex_lt(outs[i], outs[j]),
    decreases j - i,
{
    lemma_run_inv(states, outs, i);
    lemma_run_inv(states, outs, i + 1);
    lemma_step_remembers(states[i], outs[i]);
    lemma_step_increases(states[i + 1], outs[i], outs[i + 1]);
    if i + 1 < j {
        lemma_run_increases(states, outs, i + 1, j);
        lemma_lex_lt_trans(outs[i], outs[i + 1], outs[j]);
    }
}

/// No two partitions produced in one run are identical.
pub proof fn lemma_run_no_repeats(states: Seq<GenModel>, outs: Seq<Seq<usize>>, i: int, j: int)
    requires
        states.len() == outs.len() + 1,
        inv(states[0]),
        forall|u: int| 0 <= u < outs.len() ==> step(states[u]) == (states[u + 1], Some(outs[u])),
        0 <= i < j < outs.len(),
    ensures
        outs[i] != outs[j],
{
    lemma_run_increases(states, outs, i, j);
    lemma_lex_lt_neq(outs[i], outs[j]);
}

} // verus!
