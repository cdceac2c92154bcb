//! Fresh variable numbers: a rule's variables mean something only inside
//! that rule, so each rule gets numbers that no other rule has.

use crate::atom::VisitVars;
use std::collections::HashMap;
use vstd::prelude::*;

verus! {

broadcast use vstd::std_specs::hash::group_hash_axioms;

/// The renaming that gives the variables `vars` fresh numbers from `start`
/// on, and the first number left unused. Each variable gets the next unused
/// number where it is first met; where it is met again it keeps that number.
pub open spec fn fresh(vars: Seq<u32>, start: nat) -> (Map<u32, u32>, nat)
    decreases vars.len(),
{
    if vars.len() == 0 {
        (Map::empty(), start)
    } else {
        let (m, n) = fresh(vars.drop_last(), start);
        let v = vars.last();
        if m.contains_key(v) {
            (m, n)
        } else {
            (m.insert(v, n as u32), n + 1)
        }
    }
}

/// The fresh renaming maps exactly the variables met, each to a number from
/// `start` up to the first unused one, and no two of them to the same number.
pub proof fn lemma_fresh(vars: Seq<u32>, start: nat)
    requires
        fresh(vars, start).1 <= u32::MAX + 1,
    ensures
        start <= fresh(vars, start).1 <= start + vars.len(),
        forall|v: u32| fresh(vars, start).0.contains_key(v) <==> vars.contains(v),
        forall|v: u32| #[trigger]
            fresh(vars, start).0.contains_key(v) ==> start <= fresh(vars, start).0[v] < fresh(
                vars,
                start,
            ).1,
        forall|v: u32, w: u32|
            fresh(vars, start).0.contains_key(v) && fresh(vars, start).0.contains_key(w) && v != w
                ==> fresh(vars, start).0[v] != fresh(vars, start).0[w],
    decreases vars.len(),
{
    if vars.len() > 0 {
        let d = vars.drop_last();
        lemma_fresh_grows(d, start);
        lemma_fresh(d, start);
        let m = fresh(d, start).0;
        assert forall|v: u32| fresh(vars, start).0.contains_key(v) <==> vars.contains(v) by {
            if vars.contains(v) {
                let j = choose|j: int| 0 <= j < vars.len() && vars[j] == v;
                if j < d.len() {
                    assert(d[j] == v);
                }
            }
            if d.contains(v) {
                let j = choose|j: int| 0 <= j < d.len() && d[j] == v;
                assert(vars[j] == v);
            }
            if v == vars.last() {
                assert(vars[vars.len() - 1] == v);
            }
        }
    }
}

/// Meeting one more variable never lowers the first unused number.
pub proof fn lemma_fresh_grows(vars: Seq<u32>, start: nat)
    ensures
        start <= fresh(vars, start).1,
        vars.len() > 0 ==> fresh(vars.drop_last(), start).1 <= fresh(vars, start).1,
    decreases vars.len(),
{
    if vars.len() > 0 {
        lemma_fresh_grows(vars.drop_last(), start);
    }
}

/// The first unused number after some of the variables is at most the one
/// after all of them.
pub proof fn lemma_fresh_prefix(vars: Seq<u32>, i: int, start: nat)
    requires
        0 <= i <= vars.len(),
    ensures
        fresh(vars.take(i), start).1 <= fresh(vars, start).1,
    decreases vars.len() - i,
{
    if i < vars.len() {
        lemma_fresh_prefix(vars, i + 1, start);
        assert(vars.take(i + 1).drop_last() =~= vars.take(i));
        lemma_fresh_grows(vars.take(i + 1), start);
    } else {
        assert(vars.take(i) =~= vars);
    }
}

/// Two renamings made one after the other share no number: the second
/// begins where the first ended.
pub proof fn lemma_fresh_disjoint(first: Seq<u32>, second: Seq<u32>, start: nat)
    requires
        fresh(second, fresh(first, start).1).1 <= u32::MAX + 1,
    ensures
        forall|v: u32, w: u32|
            fresh(first, start).0.contains_key(v) && fresh(
                second,
                fresh(first, start).1,
            ).0.contains_key(w) ==> fresh(first, start).0[v] != fresh(
                second,
                fresh(first, start).1,
            ).0[w],
{
    let mid = fresh(first, start).1;
    lemma_fresh_grows(second, mid);
    lemma_fresh(first, start);
    lemma_fresh(second, mid);
}

/// The source of fresh variable numbers.
#[derive(Debug)]
pub struct VarAllocator {
    next: u32,
    buf: HashMap<u32, u32>,
}

impl VarAllocator {
    /// The first number that has not been given out.
    pub closed spec fn next_id(&self) -> nat {
        self.next as nat
    }

    /// The first unused number is a variable number itself.
    pub proof fn lemma_next_id_bound(&self)
        ensures
            self.next_id() <= u32::MAX,
    {
    }

    /// An allocator that has given out no number.
    pub fn new() -> (r: VarAllocator)
        ensures
            r.next_id() == 0,
    {
        VarAllocator { next: 0, buf: HashMap::new() }
    }

    /// An allocator that has given out the numbers below `next`: for
    /// variables that are to stay apart from numbers in use.
    pub fn starting_at(next: u32) -> (r: VarAllocator)
        ensures
            r.next_id() == next,
    {
        VarAllocator { next, buf: HashMap::new() }
    }

    /// Whether fresh numbers for `vars` can still be given out.
    pub fn has_room(&self, vars: &Vec<u32>) -> (r: bool)
        ensures
            r == (fresh(vars@, self.next_id()).1 <= u32::MAX),
    {
        let mut seen: HashMap<u32, u32> = HashMap::new();
        let mut n: u64 = self.next as u64;
        let ghost start = self.next as nat;
        let mut i: usize = 0;
        assert(vars@.take(0) =~= Seq::<u32>::empty());
        assert(seen@ =~= Map::<u32, u32>::empty());
        while i < vars.len()
            invariant
                i <= vars.len(),
                start == self.next as nat,
                fresh(vars@.take(i as int), start).0.dom() == seen@.dom(),
                fresh(vars@.take(i as int), start).1 == n,
                n <= u32::MAX,
            decreases vars.len() - i,
        {
            let v = vars[i];
            assert(vars@.take(i + 1).drop_last() =~= vars@.take(i as int));
            assert(vars@.take(i + 1).last() == v);
            assert(seen@.dom().contains(v) == seen@.contains_key(v));
            if !seen.contains_key(&v) {
                seen.insert(v, 0);
                n = n + 1;
                assert(fresh(vars@.take(i + 1), start).0.dom() =~= seen@.dom());
                if n > 0xffff_ffff {
                    proof {
                        lemma_fresh_prefix(vars@, i + 1, start);
                    }
                    return false;
                }
            }
            i += 1;
        }
        assert(vars@.take(i as int) =~= vars@);
        true
    }

    /// Fills the renaming with fresh numbers for `vars`.
    fn allocate(&mut self, vars: &Vec<u32>)
        requires
            fresh(vars@, old(self).next_id()).1 <= u32::MAX,
        ensures
            final(self).buf@ == fresh(vars@, old(self).next_id()).0,
            final(self).next_id() == fresh(vars@, old(self).next_id()).1,
    {
        let ghost start = self.next as nat;
        self.buf.clear();
        let mut i: usize = 0;
        assert(vars@.take(0) =~= Seq::<u32>::empty());
        assert(self.buf@ =~= Map::<u32, u32>::empty());
        while i < vars.len()
            invariant
                i <= vars.len(),
                fresh(vars@, start).1 <= u32::MAX,
                fresh(vars@.take(i as int), start) == (self.buf@, self.next as nat),
            decreases vars.len() - i,
        {
            let v = vars[i];
            proof {
                assert(vars@.take(i + 1).drop_last() =~= vars@.take(i as int));
                assert(vars@.take(i + 1).last() == v);
                lemma_fresh_prefix(vars@, i + 1, start);
            }
            if !self.buf.contains_key(&v) {
                self.buf.insert(v, self.next);
                self.next = self.next + 1;
            }
            i += 1;
        }
        assert(vars@.take(i as int) =~= vars@);
    }

    /// Renames the variables of `t` to numbers that were never given out:
    /// each distinct variable gets the next unused number where it is first
    /// met, and keeps it wherever it occurs again in `t`.
    pub fn refresh<T: VisitVars>(&mut self, t: &mut T)
        requires
            fresh(old(t).var_seq(), old(self).next_id()).1 <= u32::MAX,
        ensures
            old(t).renamed_as(fresh(old(t).var_seq(), old(self).next_id()).0, final(t)),
            final(self).next_id() == fresh(old(t).var_seq(), old(self).next_id()).1,
            final(self).next_id() >= old(self).next_id(),
    {
        proof {
            lemma_fresh_grows(t.var_seq(), self.next_id());
        }
        let vars = t.visit_vars();
        self.allocate(&vars);
        t.visit_vars_mut(&self.buf);
    }

    /// Renames the variables of `t` as `refresh` does, where there are
    /// numbers enough. Returns whether there were; where not, nothing has
    /// changed.
    pub fn try_refresh<T: VisitVars>(&mut self, t: &mut T) -> (ok: bool)
        ensures
            ok == (fresh(old(t).var_seq(), old(self).next_id()).1 <= u32::MAX),
            ok ==> old(t).renamed_as(fresh(old(t).var_seq(), old(self).next_id()).0, final(t)),
            ok ==> final(self).next_id() == fresh(old(t).var_seq(), old(self).next_id()).1,
            !ok ==> *final(t) == *old(t) && final(self).next_id() == old(self).next_id(),
    {
        let vars = t.visit_vars();
        if !self.has_room(&vars) {
            return false;
        }
        self.allocate(&vars);
        t.visit_vars_mut(&self.buf);
        true
    }
}

impl Default for VarAllocator {
    fn default() -> (r: VarAllocator)
        ensures
            r.next_id() == 0,
    {
        VarAllocator::new()
    }
}

} // verus!
