//! Enumeration of the integer partitions of a natural number.
//!
//! A [`Partitions`] generator produces, one call at a time, every way of
//! writing a fixed number `n` as a sum of positive parts, each partition
//! reported as a non-decreasing sequence.  The generator keeps one working
//! buffer and a two-phase state machine, so moving from one partition to the
//! next only touches the buffer slots that change.
//!
//! The abstract machine lives in [`model`]; every call to
//! [`Partitions::next`] is proved to perform exactly one transition
//! [`model::step`] of that machine, and every produced partition is proved to
//! sum to `n`, to have only positive parts, and to be non-decreasing.  The
//! ordering facts in [`laws`] show that successive partitions strictly grow
//! in lexicographic order, so none is produced twice.

use vstd::prelude::*;

pub mod laws;
mod lemmas;
pub mod model;

use crate::lemmas::{
    lemma_init_model_wf, lemma_sum_ge_elem, lemma_sum_ge_len, lemma_sum_push, lemma_sum_take_succ,
};
use crate::model::{
    emit_model, exhausted, init_model, inv, mid, nondecreasing, seq_sum, step, GenModel, State,
};

verus! {

/// Produces the partitions of a fixed number, one per call to [`Self::next`].
pub struct Partitions {
    a: Vec<usize>,
    k: usize,
    y: usize,
    next: State,
    n: Ghost<usize>,
}

impl View for Partitions {
    type V = GenModel;

    closed spec fn view(&self) -> GenModel {
        GenModel { a: self.a@, k: self.k, y: self.y, next: self.next, n: self.n@ }
    }
}

/// Builds a vector of `m` zero slots.
fn zeros(m: usize) -> (v: Vec<usize>)
    ensures
        v@ == Seq::new(m as nat, |i: int| 0usize),
{
    let mut v: Vec<usize> = Vec::new();
    let mut i: usize = 0;
    while i < m
        invariant
            i <= m,
            v@ == Seq::new(i as nat, |j: int| 0usize),
        decreases m - i,
    {
        v.push(0);
        i = i + 1;
        proof {
            assert(v@ =~= Seq::new(i as nat, |j: int| 0usize));
        }
    }
    v
}

/// Copies the first `m` slots of the buffer into a fresh vector.
fn copy_prefix(a: &Vec<usize>, m: usize) -> (r: Vec<usize>)
    requires
        m <= a.len(),
    ensures
        r@ == a@.subrange(0, m as int),
{
    let mut r: Vec<usize> = Vec::new();
    let mut i: usize = 0;
    while i < m
        invariant
            i <= m,
            m <= a.len(),
            r@ == a@.subrange(0, i as int),
        decreases m - i,
    {
        r.push(a[i]);
        i = i + 1;
        proof {
            assert(r@ =~= a@.subrange(0, i as int));
        }
    }
    r
}

impl Partitions {
    /// The generator's invariant: its state satisfies the phase facts of the
    /// abstract machine.
    pub open spec fn wf(self) -> bool {
        inv(self@)
    }

    /// Makes a new generator for the partitions of `n`.
    #[inline]
    pub fn new(n: usize) -> (p: Partitions)
        requires
            n < usize::MAX,
        ensures
            p.wf(),
            p@ == init_model(n),
    {
        let a = zeros(n + 1);
        let p = Partitions {
            a,
            k: if n == 0 {
                0
            } else {
                1
            },
            y: if n == 0 {
                0
            } else {
                n - 1
            },
            next: State::A,
            n: Ghost(n),
        };
        proof {
            assert(p@ =~= init_model(n));
            lemma_init_model_wf(n);
        }
        p
    }

    /// Makes a new generator for the partitions of `n`, reusing a
    /// caller-supplied buffer to avoid an allocation.  Whatever the buffer
    /// held is discarded: it is cleared and refilled with `n + 1` zero slots,
    /// so the generator starts from exactly the same state as [`Self::new`]
    /// and produces exactly the same partitions.
    #[inline]
    pub fn recycle(n: usize, vec: Vec<usize>) -> (p: Partitions)
        requires
            n < usize::MAX,
        ensures
            p.wf(),
            p@ == init_model(n),
    {
        let mut vec = vec;
        vec.clear();
        vec.reserve(n + 1);
        let mut i: usize = 0;
        while i < n + 1
            invariant
                n < usize::MAX,
                i <= n + 1,
                vec@ == Seq::new(i as nat, |j: int| 0usize),
            decreases n + 1 - i,
        {
            vec.push(0);
            i = i + 1;
            proof {
                assert(vec@ =~= Seq::new(i as nat, |j: int| 0usize));
            }
        }
        let p = Partitions {
            a: vec,
            k: if n == 0 {
                0
            } else {
                1
            },
            y: if n == 0 {
                0
            } else {
                n - 1
            },
            next: State::A,
            n: Ghost(n),
        };
        proof {
            assert(p@ =~= init_model(n));
            lemma_init_model_wf(n);
        }
        p
    }

    /// Advances the machine by exactly one partition.  Returns the new live
    /// prefix of the buffer as an owned vector, or `None` once every
    /// partition of `n` has been produced; after that, every further call
    /// returns `None` again and changes nothing.
    ///
    /// Each produced partition sums to `n`, has only positive parts, and is
    /// non-decreasing; the empty partition appears only for `n == 0`.
    pub fn next(&mut self) -> (r: Option<Vec<usize>>)
        requires
            old(self).wf(),
        ensures
            final(self).wf(),
            final(self)@ == step(old(self)@).0,
            r matches Some(v) ==> Some(v@) == step(old(self)@).1,
            r is None <==> step(old(self)@).1 is None,
            r is None <==> exhausted(old(self)@),
            r is None ==> *final(self) == *old(self),
            final(self)@.n == old(self)@.n,
            r matches Some(v) ==> seq_sum(v@) == old(self)@.n,
            r matches Some(v) ==> forall|i: int| 0 <= i < v@.len() ==> 1 <= v@[i],
            r matches Some(v) ==> (v@.len() == 0 ==> old(self)@.n == 0),
            r matches Some(v) ==> nondecreasing(v@),
    {
        let ghost pre: GenModel = self@;
        match self.next {
            State::A => {
                if self.k == 0 {
                    if self.a.len() == 1 {
                        // The one partition of zero: the empty sequence.
                        self.a.pop();
                        proof {
                            assert(self@ =~= step(pre).0);
                            assert(seq_sum(Seq::<usize>::empty()) == 0);
                        }
                        Some(Vec::new())
                    } else {
                        None
                    }
                } else {
                    self.k = self.k - 1;
                    proof {
                        if !(pre.k == 1 && pre.a[0] == 0) {
                            lemma_sum_ge_elem(pre.a.take(pre.k as int), pre.k - 1);
                        }
                        lemma_sum_take_succ(pre.a, pre.k - 1);
                    }
                    let x: usize = self.a[self.k] + 1;
                    let ghost a0 = self.a@;
                    let ghost k0: int = self.k as int;
                    let ghost y0 = self.y;
                    proof {
                        assert(a0.take(k0) =~= pre.a.take(pre.k as int).take(k0));
                        assert(seq_sum(a0.take(k0)) + x + self.y == pre.n);
                    }
                    while x <= self.y / 2
                        invariant
                            self.next == State::A,
                            self.n@ == pre.n,
                            self.a.len() == pre.n + 1,
                            k0 <= self.k,
                            self.k < self.a.len(),
                            1 <= x,
                            seq_sum(self.a@.take(self.k as int)) + x + self.y == pre.n,
                            forall|i: int| 0 <= i < self.k ==> 1 <= self.a@[i],
                            nondecreasing(self.a@.take(self.k as int)),
                            1 <= self.k ==> self.a@[self.k - 1] <= x,
                            crate::model::settle(a0, k0, x, y0) == crate::model::settle(
                                self.a@,
                                self.k as int,
                                x,
                                self.y,
                            ),
                        decreases self.y,
                    {
                        let ghost pa = self.a@;
                        let ghost pk: int = self.k as int;
                        let ghost py = self.y;
                        proof {
                            assert(2 * x <= py);
                            lemma_sum_ge_len(pa.take(pk));
                        }
                        self.a[self.k] = x;
                        self.y = self.y - x;
                        self.k = self.k + 1;
                        proof {
                            assert(self.a@ == pa.update(pk, x));
                            assert(self.a@.take(pk) =~= pa.take(pk));
                            assert(self.a@.take(pk + 1) =~= pa.take(pk).push(x));
                            lemma_sum_push(pa.take(pk), x);
                            assert forall|i: int, j: int|
                                0 <= i <= j < self.k implies self.a@.take(self.k as int)[i]
                                <= self.a@.take(self.k as int)[j] by {
                                if j < pk {
                                    assert(pa.take(pk)[i] <= pa.take(pk)[j]);
                                } else if i < pk {
                                    assert(pa.take(pk)[i] <= pa.take(pk)[pk - 1]);
                                }
                            }
                            assert(crate::model::settle(pa, pk, x, py) == crate::model::settle(
                                self.a@,
                                self.k as int,
                                x,
                                self.y,
                            ));
                        }
                    }
                    proof {
                        assert(2 * x > self.y);
                        assert(crate::model::settle(a0, k0, x, y0) == (
                            self.a@,
                            self.k as int,
                            self.y,
                        ));
                        assert(mid(self@, x));
                        assert(self@ =~= (GenModel {
                            a: crate::model::settle(a0, k0, x, y0).0,
                            k: crate::model::settle(a0, k0, x, y0).1 as usize,
                            y: crate::model::settle(a0, k0, x, y0).2,
                            ..pre
                        }));
                        assert(step(pre) == emit_model(self@, x));
                    }
                    let r = self.emit_from(x);
                    Some(r)
                }
            },
            State::B { x, .. } => {
                proof {
                    assert(x + 1 <= pre.n);
                }
                let x2: usize = x + 1;
                self.y = self.y - 1;
                proof {
                    assert(self@ =~= (GenModel { y: (pre.y - 1) as usize, ..pre }));
                    assert(mid(self@, x2));
                    assert(step(pre) == emit_model(self@, x2));
                }
                let r = self.emit_from(x2);
                Some(r)
            },
        }
    }

    /// Destroys the generator and returns its buffer for further use.  The
    /// buffer's contents are stale working state and carry no meaning.
    #[inline]
    pub fn end(self) -> (v: Vec<usize>)
        ensures
            v@ == self@.a,
    {
        self.a
    }

    /// The shared emitting tail of a step: the next part `x` is fixed, and the
    /// remainder is either split into `x` and the residual or closed as the
    /// single part `x + y`.
    fn emit_from(&mut self, x: usize) -> (r: Vec<usize>)
        requires
            mid(old(self)@, x),
        ensures
            final(self)@ == emit_model(old(self)@, x).0,
            Some(r@) == emit_model(old(self)@, x).1,
            final(self).wf(),
            seq_sum(r@) == old(self)@.n,
            forall|i: int| 0 <= i < r@.len() ==> 1 <= r@[i],
            r@.len() >= 1,
            nondecreasing(r@),
    {
        let ghost s0: GenModel = self@;
        proof {
            lemma_sum_ge_len(s0.a.take(s0.k as int));
        }
        if x <= self.y {
            // The residual can stand as a part of its own: split.
            proof {
                assert(s0.k + x + s0.y <= s0.n);
                assert(s0.k + 2 <= s0.a.len());
            }
            let l: usize = self.k + 1;
            self.a[self.k] = x;
            self.a[l] = self.y;
            self.next = State::B { x, l };
            let r = copy_prefix(&self.a, l + 1);
            proof {
                let a2 = s0.a.update(s0.k as int, x).update(s0.k + 1, s0.y);
                assert(self.a@ == a2);
                assert(self@ =~= emit_model(s0, x).0);
                assert(r@ == a2.subrange(0, s0.k + 2));
                assert(a2.take(s0.k as int) =~= s0.a.take(s0.k as int));
                assert(r@ =~= s0.a.take(s0.k as int).push(x).push(s0.y));
                lemma_sum_push(s0.a.take(s0.k as int), x);
                lemma_sum_push(s0.a.take(s0.k as int).push(x), s0.y);
                assert(seq_sum(r@) == s0.n);
                assert forall|i: int, j: int| 0 <= i <= j < r@.len() implies r@[i] <= r@[j] by {
                    if j < s0.k {
                        assert(s0.a.take(s0.k as int)[i] <= s0.a.take(s0.k as int)[j]);
                    } else if i < s0.k {
                        assert(s0.a.take(s0.k as int)[i] <= s0.a.take(s0.k as int)[s0.k - 1]);
                    }
                }
                assert forall|i: int| 0 <= i < r@.len() implies 1 <= r@[i] by {
                    if i < s0.k {
                        assert(r@[i] == s0.a[i]);
                    }
                }
                assert(nondecreasing(self@.a.take(self@.k as int)));
                assert(inv(self@));
            }
            r
        } else {
            // The residual cannot stand alone: close with one part `x + y`.
            let t: usize = x + self.y;
            self.a[self.k] = t;
            self.y = t - 1;
            self.next = State::A;
            let r = copy_prefix(&self.a, self.k + 1);
            proof {
                let a2 = s0.a.update(s0.k as int, t);
                assert(self.a@ == a2);
                assert(self@ =~= emit_model(s0, x).0);
                assert(r@ == a2.subrange(0, s0.k + 1));
                assert(a2.take(s0.k as int) =~= s0.a.take(s0.k as int));
                assert(r@ =~= s0.a.take(s0.k as int).push(t));
                lemma_sum_push(s0.a.take(s0.k as int), t);
                assert(seq_sum(r@) == s0.n);
                assert forall|i: int, j: int| 0 <= i <= j < r@.len() implies r@[i] <= r@[j] by {
                    if j < s0.k {
                        assert(s0.a.take(s0.k as int)[i] <= s0.a.take(s0.k as int)[j]);
                    } else if i < s0.k {
                        assert(s0.a.take(s0.k as int)[i] <= s0.a.take(s0.k as int)[s0.k - 1]);
                    }
                }
                assert forall|i: int| 0 <= i < r@.len() implies 1 <= r@[i] by {
                    if i < s0.k {
                        assert(r@[i] == s0.a[i]);
                    }
                }
                if self.k >= 1 {
                    assert(a2.take(s0.k + 1) =~= r@);
                    assert(nondecreasing(self@.a.take(self@.k as int)));
                } else {
                    assert(seq_sum(s0.a.take(0)) == 0);
                    assert(s0.n >= 1);
                }
                assert(inv(self@));
            }
            r
        }
    }
}

} // verus!
