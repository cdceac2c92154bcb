//! Equivalence classes over numbered nodes: each node carries the number of
//! the node that stands for its class.

use vstd::prelude::*;

verus! {

/// Each node's representative is a node, and stands for itself.
pub open spec fn graph_wf(g: Seq<usize>) -> bool {
    forall|i: int| 0 <= i < g.len() ==> (#[trigger] g[i]) < g.len() && g[g[i] as int] == g[i]
}

/// Whatever `g` holds equal, `h` holds equal too.
pub open spec fn finer(g: Seq<usize>, h: Seq<usize>) -> bool {
    &&& g.len() == h.len()
    &&& forall|x: int, y: int|
        0 <= x < g.len() && 0 <= y < g.len() && #[trigger] g[x] == #[trigger] g[y] ==> h[x] == h[y]
}

/// The classes after those of `a` and `b` have been made one: the nodes of
/// the class of `b` go over to the representative of `a`.
pub open spec fn merged(g: Seq<usize>, a: int, b: int) -> Seq<usize> {
    Seq::new(
        g.len(),
        |i: int|
            if g[i] == g[b] {
                g[a]
            } else {
                g[i]
            },
    )
}

/// The number of classes among the first `n` nodes: the nodes that stand
/// for themselves.
pub open spec fn roots(g: Seq<usize>, n: nat) -> nat
    decreases n,
{
    if n == 0 || n > g.len() {
        0
    } else if g[n - 1] == n - 1 {
        roots(g, (n - 1) as nat) + 1
    } else {
        roots(g, (n - 1) as nat)
    }
}

/// The nodes among the first `n` whose representative is `label`, in
/// rising order.
pub open spec fn members(g: Seq<usize>, label: usize, n: nat) -> Seq<usize>
    decreases n,
{
    if n == 0 || n > g.len() {
        Seq::empty()
    } else if g[n - 1] == label {
        members(g, label, (n - 1) as nat).push((n - 1) as usize)
    } else {
        members(g, label, (n - 1) as nat)
    }
}

/// `members` holds the nodes of the class, and no others.
pub proof fn lemma_members(g: Seq<usize>, label: usize, n: nat)
    requires
        n <= g.len(),
        g.len() <= usize::MAX,
    ensures
        forall|k: int|
            0 <= k < members(g, label, n).len() ==> (#[trigger] members(g, label, n)[k]) < n
                && g[members(g, label, n)[k] as int] == label,
        forall|x: int|
            0 <= x < n && g[x] == label ==> exists|k: int|
                0 <= k < members(g, label, n).len() && #[trigger] members(g, label, n)[k] == x,
    decreases n,
{
    if n > 0 {
        lemma_members(g, label, (n - 1) as nat);
        let prev = members(g, label, (n - 1) as nat);
        let cur = members(g, label, n);
        assert forall|x: int| 0 <= x < n && g[x] == label implies exists|k: int|
            0 <= k < cur.len() && #[trigger] cur[k] == x by {
            if x < n - 1 {
                let k = choose|k: int| 0 <= k < prev.len() && #[trigger] prev[k] == x;
                assert(cur[k] == x);
            } else {
                assert(cur[cur.len() - 1] == x);
            }
        }
    }
}

/// Making two classes one leaves one class fewer.
pub proof fn lemma_merged_roots(g: Seq<usize>, a: int, b: int, n: nat)
    requires
        graph_wf(g),
        0 <= a < g.len(),
        0 <= b < g.len(),
        g[a] != g[b],
        n <= g.len(),
    ensures
        graph_wf(merged(g, a, b)),
        finer(g, merged(g, a, b)),
        roots(merged(g, a, b), n) + (if g[b] < n {
            1nat
        } else {
            0nat
        }) == roots(g, n),
    decreases n,
{
    let h = merged(g, a, b);
    assert(graph_wf(h)) by {
        assert forall|i: int| 0 <= i < h.len() implies (#[trigger] h[i]) < h.len() && h[h[i] as int]
            == h[i] by {
            assert(g[i] < g.len());
            assert(g[a] < g.len());
        }
    }
    if n > 0 {
        lemma_merged_roots(g, a, b, (n - 1) as nat);
        assert(g[n - 1] < g.len());
    }
}

/// The joined classes hold nothing equal that is not owed: whatever holds
/// equal all that `g` does, and `a` and `b`, holds equal all that the
/// joined classes do.
pub proof fn lemma_merged_least(g: Seq<usize>, a: int, b: int, h: Seq<usize>)
    requires
        0 <= a < g.len(),
        0 <= b < g.len(),
        finer(g, h),
        h[a] == h[b],
    ensures
        finer(merged(g, a, b), h),
{
    let m = merged(g, a, b);
    assert forall|x: int, y: int|
        0 <= x < m.len() && 0 <= y < m.len() && #[trigger] m[x] == #[trigger] m[y] implies h[x]
        == h[y] by {
        if g[x] == g[b] {
            assert(h[x] == h[b]);
        }
        if g[y] == g[b] {
            assert(h[y] == h[b]);
        }
        if m[x] == g[a] && g[x] != g[b] {
            assert(g[x] == g[a]);
            assert(h[x] == h[a]);
        }
        if m[y] == g[a] && g[y] != g[b] {
            assert(g[y] == g[a]);
            assert(h[y] == h[a]);
        }
    }
}

/// Classes that only grow never become more.
pub proof fn lemma_finer_transitive(g: Seq<usize>, h: Seq<usize>, k: Seq<usize>)
    requires
        finer(g, h),
        finer(h, k),
    ensures
        finer(g, k),
{
    assert forall|x: int, y: int|
        0 <= x < g.len() && 0 <= y < g.len() && #[trigger] g[x] == #[trigger] g[y] implies k[x]
        == k[y] by {
        assert(h[x] == h[y]);
    }
}

/// A partition of the nodes `0` up to a fixed number into classes.
#[derive(Debug)]
pub struct EqGraph {
    reps: Vec<usize>,
}

impl View for EqGraph {
    type V = Seq<usize>;

    closed spec fn view(&self) -> Seq<usize> {
        self.reps@
    }
}

impl EqGraph {
    /// The representatives are in order: see `graph_wf`.
    pub open spec fn wf(&self) -> bool {
        graph_wf(self@)
    }

    /// `n` nodes, each in a class of its own.
    pub fn new(n: usize) -> (r: EqGraph)
        ensures
            r.wf(),
            r@.len() == n,
            forall|i: int| 0 <= i < n ==> r@[i] == i,
    {
        let mut reps: Vec<usize> = Vec::new();
        let mut i: usize = 0;
        while i < n
            invariant
                i <= n,
                reps@.len() == i,
                forall|j: int| 0 <= j < i ==> reps@[j] == j,
            decreases n - i,
        {
            reps.push(i);
            i += 1;
        }
        EqGraph { reps }
    }

    /// The number of nodes.
    pub fn len(&self) -> (r: usize)
        ensures
            r == self@.len(),
    {
        self.reps.len()
    }

    /// The node that stands for the class of `a`.
    pub fn representative(&self, a: usize) -> (r: usize)
        requires
            a < self@.len(),
        ensures
            r == self@[a as int],
    {
        self.reps[a]
    }

    /// Whether `a` and `b` are in one class.
    pub fn related(&self, a: usize, b: usize) -> (r: bool)
        requires
            a < self@.len(),
            b < self@.len(),
        ensures
            r == (self@[a as int] == self@[b as int]),
    {
        self.reps[a] == self.reps[b]
    }

    /// Makes the classes of `a` and `b` one. Returns whether that changed
    /// anything: `false` where the two were in one class already.
    pub fn relate(&mut self, a: usize, b: usize) -> (r: bool)
        requires
            old(self).wf(),
            a < old(self)@.len(),
            b < old(self)@.len(),
        ensures
            final(self).wf(),
            r == (old(self)@[a as int] != old(self)@[b as int]),
            final(self)@ == merged(old(self)@, a as int, b as int),
            finer(old(self)@, final(self)@),
            r ==> roots(final(self)@, final(self)@.len()) < roots(old(self)@, old(self)@.len()),
            !r ==> final(self)@ == old(self)@,
    {
        let ghost g = self@;
        let la = self.reps[a];
        let lb = self.reps[b];
        if la == lb {
            assert(merged(g, a as int, b as int) =~= g);
            return false;
        }
        let n = self.reps.len();
        let mut i: usize = 0;
        while i < n
            invariant
                i <= n,
                n == g.len(),
                self.reps@.len() == n,
                la == g[a as int],
                lb == g[b as int],
                forall|j: int| 0 <= j < i ==> self.reps@[j] == merged(g, a as int, b as int)[j],
                forall|j: int| i <= j < n ==> self.reps@[j] == g[j],
            decreases n - i,
        {
            if self.reps[i] == lb {
                self.reps.set(i, la);
            }
            i += 1;
        }
        proof {
            assert(self@ =~= merged(g, a as int, b as int));
            lemma_merged_roots(g, a as int, b as int, g.len());
        }
        true
    }

    /// The nodes of the class of `a`, in rising order.
    pub fn equivalents(&self, a: usize) -> (r: Vec<usize>)
        requires
            a < self@.len(),
        ensures
            r@ == members(self@, self@[a as int], self@.len()),
            forall|k: int|
                0 <= k < r@.len() ==> (#[trigger] r@[k]) < self@.len() && self@[r@[k] as int]
                    == self@[a as int],
            forall|x: int|
                0 <= x < self@.len() && self@[x] == self@[a as int] ==> exists|k: int|
                    0 <= k < r@.len() && #[trigger] r@[k] == x,
    {
        let n = self.reps.len();
        proof {
            lemma_members(self@, self@[a as int], n as nat);
        }
        let label = self.reps[a];
        let mut out: Vec<usize> = Vec::new();
        let mut i: usize = 0;
        while i < n
            invariant
                i <= n,
                n == self.reps.len(),
                a < n,
                label == self@[a as int],
                out@ == members(self@, label, i as nat),
            decreases n - i,
        {
            if self.reps[i] == label {
                out.push(i);
            }
            i += 1;
        }
        out
    }
}

} // verus!
