//! The enumerator of fact combinations: every tuple of `arity` positions
//! below `size`, in the order of an odometer whose last wheel turns fastest.

use vstd::arithmetic::div_mod::lemma_fundamental_div_mod_converse;
use vstd::prelude::*;

verus! {

/// The number of tuples of `k` positions below `m`: `m` to the power `k`.
pub open spec fn count(m: nat, k: nat) -> nat
    decreases k,
{
    if k == 0 {
        1
    } else {
        count(m, (k - 1) as nat) * m
    }
}

/// A tuple is a combination where each of its positions is below `m`.
pub open spec fn valid(t: Seq<usize>, m: nat) -> bool {
    forall|i: int| 0 <= i < t.len() ==> t[i] < m
}

/// The place of a combination in the enumeration: the number that its
/// positions spell in base `m`, first position most significant.
pub open spec fn rank(t: Seq<usize>, m: nat) -> nat
    decreases t.len(),
{
    if t.len() == 0 {
        0
    } else {
        (rank(t.drop_last(), m) * m + t.last()) as nat
    }
}

/// The combination at place `j` of the enumeration of tuples of `k`
/// positions below `m`.
pub open spec fn nth_combo(m: nat, k: nat, j: nat) -> Seq<usize>
    decreases k,
{
    if k == 0 || m == 0 {
        Seq::empty()
    } else {
        nth_combo(m, (k - 1) as nat, j / m).push((j % m) as usize)
    }
}

/// A combination stands at a place below the number of combinations.
pub proof fn lemma_rank_bound(t: Seq<usize>, m: nat)
    requires
        valid(t, m),
    ensures
        rank(t, m) < count(m, t.len()),
    decreases t.len(),
{
    if t.len() > 0 {
        let d = t.drop_last();
        lemma_rank_bound(d, m);
        let r = rank(d, m);
        let c = count(m, d.len());
        assert(r * m + t.last() < c * m) by (nonlinear_arith)
            requires
                r < c,
                t.last() < m,
        ;
    }
}

/// The combination at the place of `t` is `t`.
pub proof fn lemma_nth_of_rank(t: Seq<usize>, m: nat)
    requires
        valid(t, m),
    ensures
        nth_combo(m, t.len(), rank(t, m)) == t,
    decreases t.len(),
{
    if t.len() > 0 {
        let d = t.drop_last();
        lemma_nth_of_rank(d, m);
        let j = rank(t, m);
        lemma_fundamental_div_mod_converse(j as int, m as int, rank(d, m) as int, t.last() as int);
        assert(nth_combo(m, t.len(), j) =~= t);
    } else {
        assert(nth_combo(m, 0, 0) =~= t);
    }
}

/// The combination at place `j` is a combination, and stands at place `j`.
pub proof fn lemma_rank_of_nth(m: nat, k: nat, j: nat)
    requires
        m <= usize::MAX,
        j < count(m, k),
    ensures
        nth_combo(m, k, j).len() == k,
        valid(nth_combo(m, k, j), m),
        rank(nth_combo(m, k, j), m) == j,
    decreases k,
{
    if k > 0 {
        let c = count(m, (k - 1) as nat);
        assert(m > 0) by (nonlinear_arith)
            requires
                j < c * m,
        ;
        assert(j / m < c) by (nonlinear_arith)
            requires
                j < c * m,
                m > 0,
        ;
        lemma_rank_of_nth(m, (k - 1) as nat, j / m);
        let t = nth_combo(m, k, j);
        assert(t.drop_last() =~= nth_combo(m, (k - 1) as nat, j / m));
        assert(j % m < m && (j / m) * m + j % m == j) by (nonlinear_arith)
            requires
                m > 0,
        ;
        assert(t.last() == j % m);
    }
}

/// The enumeration is exhaustive: its places `0` up to `count(m, k)` hold
/// combinations of `k` positions below `m`, no two places hold the same
/// combination, and every combination stands at one of the places.
pub proof fn lemma_combos_exhaustive(m: nat, k: nat)
    requires
        m <= usize::MAX,
    ensures
        forall|j: nat|
            j < count(m, k) ==> (#[trigger] nth_combo(m, k, j)).len() == k && valid(
                nth_combo(m, k, j),
                m,
            ),
        forall|i: nat, j: nat|
            i < count(m, k) && j < count(m, k) && i != j ==> nth_combo(m, k, i) != nth_combo(
                m,
                k,
                j,
            ),
        forall|t: Seq<usize>|
            t.len() == k && valid(t, m) ==> (#[trigger] rank(t, m)) < count(m, k) && nth_combo(
                m,
                k,
                rank(t, m),
            ) == t,
{
    assert forall|j: nat| j < count(m, k) implies (#[trigger] nth_combo(m, k, j)).len() == k
        && valid(nth_combo(m, k, j), m) by {
        lemma_rank_of_nth(m, k, j);
    }
    assert forall|i: nat, j: nat|
        i < count(m, k) && j < count(m, k) && i != j implies nth_combo(m, k, i) != nth_combo(
        m,
        k,
        j,
    ) by {
        lemma_rank_of_nth(m, k, i);
        lemma_rank_of_nth(m, k, j);
    }
    assert forall|t: Seq<usize>| t.len() == k && valid(t, m) implies (#[trigger] rank(t, m))
        < count(m, k) && nth_combo(m, k, rank(t, m)) == t by {
        lemma_rank_bound(t, m);
        lemma_nth_of_rank(t, m);
    }
}

/// `s` comes before `t` in dictionary order: they are equally long, and at
/// the first position where they differ `s` is lower.
pub open spec fn lex_less(s: Seq<usize>, t: Seq<usize>) -> bool {
    s.len() == t.len() && exists|i: int|
        0 <= i < s.len() && #[trigger] s.take(i) == t.take(i) && s[i] < t[i]
}

/// A combination that comes before another in dictionary order stands at a
/// lower place.
pub proof fn lemma_rank_ordered(s: Seq<usize>, t: Seq<usize>, m: nat)
    requires
        valid(s, m),
        valid(t, m),
        lex_less(s, t),
    ensures
        rank(s, m) < rank(t, m),
    decreases s.len(),
{
    let i = choose|i: int| 0 <= i < s.len() && #[trigger] s.take(i) == t.take(i) && s[i] < t[i];
    let sd = s.drop_last();
    let td = t.drop_last();
    if i == s.len() - 1 {
        assert(sd =~= s.take(i));
        assert(td =~= t.take(i));
    } else {
        assert(sd.take(i) =~= s.take(i));
        assert(td.take(i) =~= t.take(i));
        assert(sd[i] < td[i]);
        lemma_rank_ordered(sd, td, m);
        let a = rank(sd, m);
        let b = rank(td, m);
        assert(a * m + s.last() < b * m + t.last()) by (nonlinear_arith)
            requires
                a < b,
                s.last() < m,
        ;
    }
}

/// The enumeration goes in dictionary order: a combination at a later place
/// never comes before one at an earlier place.
pub proof fn lemma_combos_in_order(m: nat, k: nat, i: nat, j: nat)
    requires
        m <= usize::MAX,
        i <= j < count(m, k),
    ensures
        !lex_less(nth_combo(m, k, j), nth_combo(m, k, i)),
{
    lemma_rank_of_nth(m, k, i);
    lemma_rank_of_nth(m, k, j);
    if lex_less(nth_combo(m, k, j), nth_combo(m, k, i)) {
        lemma_rank_ordered(nth_combo(m, k, j), nth_combo(m, k, i), m);
    }
}

/// The enumerator's state: the combination to hand out next, or exhausted.
#[derive(Debug)]
pub struct ComboIter {
    size: usize,
    indices: Vec<usize>,
    done: bool,
}

impl ComboIter {
    /// The number of facts that the positions range over.
    pub closed spec fn size(&self) -> nat {
        self.size as nat
    }

    /// The number of positions of each combination.
    pub closed spec fn arity(&self) -> nat {
        self.indices@.len()
    }

    /// The number of combinations handed out so far.
    pub closed spec fn position(&self) -> nat {
        if self.done {
            count(self.size as nat, self.indices@.len())
        } else {
            rank(self.indices@, self.size as nat)
        }
    }

    /// The state is one that the enumerator can reach.
    pub closed spec fn wf(&self) -> bool {
        !self.done ==> valid(self.indices@, self.size as nat)
    }

    /// No more combinations have been handed out than there are.
    pub proof fn lemma_position_bound(&self)
        requires
            self.wf(),
        ensures
            self.position() <= count(self.size(), self.arity()),
    {
        if !self.done {
            lemma_rank_bound(self.indices@, self.size as nat);
        }
    }

    /// An enumerator of the tuples of `arity` positions below `size`, at the
    /// start of the enumeration.
    pub fn new(size: usize, arity: usize) -> (r: ComboIter)
        ensures
            r.wf(),
            r.size() == size,
            r.arity() == arity,
            r.position() == 0,
    {
        let mut indices: Vec<usize> = Vec::new();
        let mut i: usize = 0;
        while i < arity
            invariant
                i <= arity,
                indices@.len() == i,
                forall|j: int| 0 <= j < i ==> indices@[j] == 0,
                rank(indices@, size as nat) == 0,
            decreases arity - i,
        {
            let ghost before = indices@;
            indices.push(0);
            assert(indices@.drop_last() =~= before);
            assert(0 * (size as nat) + 0 == 0) by (nonlinear_arith);
            i += 1;
        }
        let done = arity > 0 && size == 0;
        proof {
            if done {
                assert(count(0, arity as nat) == 0) by (nonlinear_arith)
                    requires
                        count(0, arity as nat) == count(0, (arity - 1) as nat) * 0,
                ;
            }
        }
        ComboIter { size, indices, done }
    }

    /// Turns the wheels of the first `n` positions on by one combination.
    /// Returns whether they ran over, back to all zero.
    fn advance(indices: &mut Vec<usize>, n: usize, size: usize) -> (carried: bool)
        requires
            n <= old(indices)@.len(),
            valid(old(indices)@, size as nat),
        ensures
            final(indices)@.len() == old(indices)@.len(),
            valid(final(indices)@, size as nat),
            final(indices)@.skip(n as int) == old(indices)@.skip(n as int),
            !carried ==> rank(final(indices)@.take(n as int), size as nat) == rank(
                old(indices)@.take(n as int),
                size as nat,
            ) + 1,
            carried ==> rank(old(indices)@.take(n as int), size as nat) + 1 == count(
                size as nat,
                n as nat,
            ),
        decreases n,
    {
        let ghost m = size as nat;
        let ghost before = indices@;
        if n == 0 {
            assert(indices@.take(0) =~= Seq::<usize>::empty());
            return true;
        }
        let d = indices[n - 1];
        assert(before.take(n as int).drop_last() =~= before.take(n - 1));
        assert(before.take(n as int).last() == d);
        if d + 1 < size {
            indices.set(n - 1, d + 1);
            assert(indices@.take(n as int).drop_last() =~= before.take(n - 1));
            assert(indices@.skip(n as int) =~= before.skip(n as int));
            false
        } else {
            indices.set(n - 1, 0);
            let ghost mid = indices@;
            assert(mid.take(n - 1) =~= before.take(n - 1));
            let carried = ComboIter::advance(indices, n - 1, size);
            assert(indices@[n - 1] == mid.skip(n - 1)[0]);
            assert(indices@.skip(n as int) =~= before.skip(n as int)) by {
                assert forall|j: int| 0 <= j < before.len() - n implies indices@.skip(n as int)[j]
                    == before.skip(n as int)[j] by {
                    assert(indices@.skip(n - 1)[j + 1] == mid.skip(n - 1)[j + 1]);
                }
            }
            assert(indices@.take(n as int).drop_last() =~= indices@.take(n - 1));
            assert(indices@.take(n as int).last() == 0);
            let ghost r0 = rank(before.take(n - 1), m);
            let ghost r1 = rank(indices@.take(n - 1), m);
            proof {
                if carried {
                    let c = count(m, (n - 1) as nat);
                    assert(r0 * m + d + 1 == c * m) by (nonlinear_arith)
                        requires
                            r0 + 1 == c,
                            d + 1 == m,
                    ;
                } else {
                    assert(r1 * m + 0 == r0 * m + d + 1) by (nonlinear_arith)
                        requires
                            r1 == r0 + 1,
                            d + 1 == m,
                    ;
                }
            }
            carried
        }
    }

    /// Hands out the next combination, or `None` once every combination has
    /// been handed out.
    pub fn next(&mut self) -> (r: Option<Vec<usize>>)
        requires
            old(self).wf(),
        ensures
            final(self).wf(),
            final(self).size() == old(self).size(),
            final(self).arity() == old(self).arity(),
            old(self).position() < count(old(self).size(), old(self).arity()) ==> r is Some
                && r->Some_0@ == nth_combo(
                old(self).size(),
                old(self).arity(),
                old(self).position(),
            ) && final(self).position() == old(self).position() + 1,
            old(self).position() >= count(old(self).size(), old(self).arity()) ==> r is None
                && final(self).position() == old(self).position(),
    {
        if self.done {
            return None;
        }
        proof {
            lemma_rank_bound(self.indices@, self.size as nat);
            lemma_nth_of_rank(self.indices@, self.size as nat);
        }
        let out = self.indices.clone();
        let ghost before = self.indices@;
        let n = self.indices.len();
        let mut indices = Vec::new();
        std::mem::swap(&mut indices, &mut self.indices);
        let carried = ComboIter::advance(&mut indices, n, self.size);
        assert(before.take(n as int) =~= before);
        assert(indices@.take(n as int) =~= indices@);
        self.indices = indices;
        self.done = carried;
        Some(out)
    }
}

} // verus!
