//! Joint consistency by congruence closure: the terms to be equated are
//! numbered nodes, and declaring two of them equal carries the equality
//! into the corresponding elements of tuples.

use crate::atom::{lemma_view_tuple, views, Atom, Term};
use crate::classes::{finer, lemma_finer_transitive, lemma_merged_least, roots, EqGraph};
use vstd::prelude::*;

verus! {

/// A term as a node: its elements are the numbers of other nodes.
#[derive(Debug)]
pub enum Node {
    Tuple(Vec<usize>),
    Id(String),
    Var(u32),
}

/// The mathematical value of a node.
pub enum NodeView {
    Tuple(Seq<usize>),
    Id(Seq<char>),
    Var(u32),
}

impl View for Node {
    type V = NodeView;

    open spec fn view(&self) -> NodeView {
        match self {
            Node::Tuple(kids) => NodeView::Tuple(kids@),
            Node::Id(s) => NodeView::Id(s@),
            Node::Var(v) => NodeView::Var(*v),
        }
    }
}

/// Two nodes that cannot be equal whatever their variables stand for: two
/// different constants, a constant and a tuple, or tuples of different
/// lengths.
pub open spec fn clash(x: NodeView, y: NodeView) -> bool {
    match x {
        NodeView::Id(s) => match y {
            NodeView::Id(t) => s != t,
            NodeView::Tuple(_) => true,
            NodeView::Var(_) => false,
        },
        NodeView::Tuple(xs) => match y {
            NodeView::Id(_) => true,
            NodeView::Tuple(ys) => xs.len() != ys.len(),
            NodeView::Var(_) => false,
        },
        NodeView::Var(_) => false,
    }
}

/// Every element of a tuple node is a node with a lower number.
pub open spec fn table_wf(t: Seq<NodeView>) -> bool {
    forall|i: int, j: int|
        0 <= i < t.len() && t[i] is Tuple && 0 <= j < t[i]->Tuple_0.len() ==> (
        #[trigger] t[i]->Tuple_0[j]) < i
}

/// No two nodes of the table are the same.
pub open spec fn distinct(t: Seq<NodeView>) -> bool {
    forall|i: int, j: int| 0 <= i < j < t.len() ==> #[trigger] t[i] != #[trigger] t[j]
}

/// The term that node `i` of the table stands for.
pub open spec fn term_of(t: Seq<NodeView>, i: nat) -> Term
    decreases i, 1nat, 0nat,
{
    if i >= t.len() {
        Term::Var(0)
    } else {
        match t[i as int] {
            NodeView::Id(s) => Term::Id(s),
            NodeView::Var(v) => Term::Var(v),
            NodeView::Tuple(kids) => Term::Tuple(kid_terms(t, kids, i, kids.len())),
        }
    }
}

/// The terms that the first `n` elements of node `i` stand for.
pub open spec fn kid_terms(t: Seq<NodeView>, kids: Seq<usize>, i: nat, n: nat) -> Seq<Term>
    decreases i, 0nat, n,
{
    if n == 0 || n > kids.len() {
        Seq::empty()
    } else {
        kid_terms(t, kids, i, (n - 1) as nat).push(
            if kids[n - 1] < i {
                term_of(t, kids[n - 1] as nat)
            } else {
                Term::Var(0)
            },
        )
    }
}

/// The node `v` of the table `t` stands for the term `a`, given what its
/// elements stand for.
pub open spec fn stands_for(t: Seq<NodeView>, v: NodeView, a: Term) -> bool {
    match v {
        NodeView::Id(s) => a == Term::Id(s),
        NodeView::Var(w) => a == Term::Var(w),
        NodeView::Tuple(kids) => a is Tuple && a->Tuple_0.len() == kids.len() && forall|j: int|
            0 <= j < kids.len() ==> (#[trigger] kids[j]) < t.len() && term_of(t, kids[j] as nat)
                == a->Tuple_0[j],
    }
}

/// `kid_terms` lists the terms of the elements in order.
pub proof fn lemma_kid_terms(t: Seq<NodeView>, kids: Seq<usize>, i: nat, n: nat)
    requires
        n <= kids.len(),
        forall|j: int| 0 <= j < kids.len() ==> kids[j] < i,
    ensures
        kid_terms(t, kids, i, n).len() == n,
        forall|j: int| 0 <= j < n ==> kid_terms(t, kids, i, n)[j] == term_of(t, kids[j] as nat),
    decreases n,
{
    if n > 0 {
        lemma_kid_terms(t, kids, i, (n - 1) as nat);
    }
}

/// Nodes added to a table leave the terms of the nodes before them alone.
pub proof fn lemma_term_of_prefix(t: Seq<NodeView>, u: Seq<NodeView>, i: nat)
    requires
        t.is_prefix_of(u),
        table_wf(t),
        i < t.len(),
    ensures
        term_of(u, i) == term_of(t, i),
    decreases i,
{
    assert(u[i as int] == t[i as int]);
    match t[i as int] {
        NodeView::Tuple(kids) => {
            lemma_kid_terms(t, kids, i, kids.len());
            lemma_kid_terms(u, kids, i, kids.len());
            assert forall|j: int| 0 <= j < kids.len() implies term_of(u, kids[j] as nat)
                == term_of(t, kids[j] as nat) by {
                assert(t[i as int]->Tuple_0[j] < i);
                lemma_term_of_prefix(t, u, kids[j] as nat);
            }
            assert(kid_terms(t, kids, i, kids.len()) =~= kid_terms(u, kids, i, kids.len()));
        },
        _ => {},
    }
}

/// The nodes `x` and `y` agree under the classes `g`: they do not clash,
/// and where both are tuples their elements are equal pair by pair.
pub open spec fn agrees(t: Seq<NodeView>, g: Seq<usize>, x: int, y: int) -> bool {
    &&& !clash(t[x], t[y])
    &&& t[x] is Tuple && t[y] is Tuple ==> forall|j: int|
        0 <= j < t[x]->Tuple_0.len() ==> g[t[x]->Tuple_0[j] as int] == g[(
        #[trigger] t[y]->Tuple_0[j]) as int]
}

/// Every two nodes that `g` holds equal and `base` did not agree under `g`.
pub open spec fn closed_since(t: Seq<NodeView>, base: Seq<usize>, g: Seq<usize>) -> bool {
    forall|x: int, y: int|
        0 <= x < g.len() && 0 <= y < g.len() && #[trigger] g[x] == #[trigger] g[y] && base[x]
            != base[y] ==> agrees(t, g, x, y)
}

/// Every two nodes that `g` holds equal agree: no class holds a clash, and
/// equal tuples have equal elements.
pub open spec fn closed(t: Seq<NodeView>, g: Seq<usize>) -> bool {
    forall|x: int, y: int|
        0 <= x < g.len() && 0 <= y < g.len() && #[trigger] g[x] == #[trigger] g[y] ==> agrees(
            t,
            g,
            x,
            y,
        )
}

/// Equality is carried from `x` and `y` into their elements under `h`:
/// where both are tuples of one length, their elements are equal pair by
/// pair.
pub open spec fn carried(t: Seq<NodeView>, h: Seq<usize>, x: int, y: int) -> bool {
    t[x] is Tuple && t[y] is Tuple && t[x]->Tuple_0.len() == t[y]->Tuple_0.len() ==> forall|
        j: int,
    |
        0 <= j < t[x]->Tuple_0.len() ==> h[t[x]->Tuple_0[j] as int] == h[(
        #[trigger] t[y]->Tuple_0[j]) as int]
}

/// The classes `h` are a congruence: equality of two tuples of one length
/// is carried into their elements.
pub open spec fn congruent(t: Seq<NodeView>, h: Seq<usize>) -> bool {
    &&& h.len() == t.len()
    &&& forall|x: int, y: int|
        0 <= x < h.len() && 0 <= y < h.len() && #[trigger] h[x] == #[trigger] h[y] ==> carried(
            t,
            h,
            x,
            y,
        )
}

/// The classes `h` are a congruence that holds equal whatever `base` does.
pub open spec fn admits(t: Seq<NodeView>, base: Seq<usize>, h: Seq<usize>) -> bool {
    congruent(t, h) && finer(base, h)
}

/// Two nodes that agree still agree when classes have grown.
pub proof fn lemma_agrees_finer(t: Seq<NodeView>, g: Seq<usize>, h: Seq<usize>, x: int, y: int)
    requires
        table_wf(t),
        t.len() == g.len(),
        finer(g, h),
        0 <= x < g.len(),
        0 <= y < g.len(),
        agrees(t, g, x, y),
    ensures
        agrees(t, h, x, y),
{
    if t[x] is Tuple && t[y] is Tuple {
        let xs = t[x]->Tuple_0;
        let ys = t[y]->Tuple_0;
        assert forall|j: int| 0 <= j < xs.len() implies h[xs[j] as int] == h[(
        #[trigger] ys[j]) as int] by {
            assert(xs[j] < t.len());
            assert(ys[j] < t.len());
            assert(g[xs[j] as int] == g[ys[j] as int]);
        }
    }
}

/// What was equated since `base` stays accounted for when more is equated.
pub proof fn lemma_closed_since_step(
    t: Seq<NodeView>,
    base: Seq<usize>,
    g: Seq<usize>,
    h: Seq<usize>,
)
    requires
        table_wf(t),
        t.len() == g.len(),
        finer(base, g),
        finer(g, h),
        closed_since(t, base, g),
        closed_since(t, g, h),
    ensures
        closed_since(t, base, h),
{
    assert forall|x: int, y: int|
        0 <= x < h.len() && 0 <= y < h.len() && #[trigger] h[x] == #[trigger] h[y] && base[x]
            != base[y] implies agrees(t, h, x, y) by {
        if g[x] == g[y] {
            lemma_agrees_finer(t, g, h, x, y);
        }
    }
}

/// A table of nodes.
#[derive(Debug)]
pub struct TermTable {
    nodes: Vec<Node>,
}

impl View for TermTable {
    type V = Seq<NodeView>;

    closed spec fn view(&self) -> Seq<NodeView> {
        Seq::new(self.nodes@.len(), |i: int| self.nodes@[i]@)
    }
}

/// Two nodes of one class that clash.
#[derive(Debug)]
pub struct EqClash(pub usize, pub usize);

impl TermTable {
    /// Every element of a tuple node is a node with a lower number, and
    /// no two nodes are the same.
    pub open spec fn wf(&self) -> bool {
        table_wf(self@) && distinct(self@)
    }

    /// A table without nodes.
    pub fn new() -> (r: TermTable)
        ensures
            r.wf(),
            r@.len() == 0,
    {
        TermTable { nodes: Vec::new() }
    }

    /// The number of nodes.
    pub fn len(&self) -> (r: usize)
        ensures
            r == self@.len(),
    {
        self.nodes.len()
    }

    /// Whether two nodes are the same.
    fn same_node(a: &Node, b: &Node) -> (r: bool)
        ensures
            r == (a@ == b@),
    {
        match a {
            Node::Id(x) => match b {
                Node::Id(y) => *x == *y,
                _ => false,
            },
            Node::Var(x) => match b {
                Node::Var(y) => *x == *y,
                _ => false,
            },
            Node::Tuple(xs) => match b {
                Node::Tuple(ys) => {
                    if xs.len() != ys.len() {
                        return false;
                    }
                    let mut i: usize = 0;
                    while i < xs.len()
                        invariant
                            i <= xs.len(),
                            xs.len() == ys.len(),
                            a@ == NodeView::Tuple(xs@),
                            b@ == NodeView::Tuple(ys@),
                            forall|j: int| 0 <= j < i ==> xs@[j] == ys@[j],
                        decreases xs.len() - i,
                    {
                        if xs[i] != ys[i] {
                            assert(xs@[i as int] != ys@[i as int]);
                            return false;
                        }
                        i += 1;
                    }
                    assert(xs@ =~= ys@);
                    true
                },
                _ => false,
            },
        }
    }

    /// Gives `atom` and every term inside it a node, unless it has one, and
    /// returns the number of the node of `atom`. Nodes that are there keep
    /// their numbers.
    pub fn intern(&mut self, atom: &Atom) -> (r: usize)
        requires
            old(self).wf(),
        ensures
            final(self).wf(),
            old(self)@.is_prefix_of(final(self)@),
            r < final(self)@.len(),
            term_of(final(self)@, r as nat) == atom@,
            forall|w: nat|
                w < old(self)@.len() && #[trigger] term_of(old(self)@, w) == atom@ ==> r == w
                    && final(self)@ == old(self)@,
        decreases atom,
    {
        let node = match atom {
            Atom::Id(s) => Node::Id(s.clone()),
            Atom::Var(v) => Node::Var(*v),
            Atom::Tuple(xs) => {
                let mut kids: Vec<usize> = Vec::new();
                let mut i: usize = 0;
                while i < xs.len()
                    invariant
                        i <= xs.len(),
                        atom is Tuple,
                        *xs == atom->Tuple_0,
                        self.wf(),
                        old(self)@.is_prefix_of(self@),
                        kids@.len() == i,
                        forall|j: int|
                            0 <= j < i ==> (#[trigger] kids@[j]) < self@.len() && term_of(
                                self@,
                                kids@[j] as nat,
                            ) == xs@[j]@,
                        forall|w: nat|
                            w < old(self)@.len() && #[trigger] term_of(old(self)@, w) == atom@
                                ==> self@ == old(self)@ && old(self)@[w as int] is Tuple
                                && kids@ == old(self)@[w as int]->Tuple_0.take(i as int),
                    decreases xs.len() - i,
                {
                    assert(decreases_to!(atom => atom->Tuple_0));
                    assert(decreases_to!(*xs => xs[i as int]));
                    let ghost before = self@;
                    let k = self.intern(&xs[i]);
                    proof {
                        assert forall|j: int| 0 <= j < i implies (#[trigger] kids@[j]) < self@.len()
                            && term_of(self@, kids@[j] as nat) == xs@[j]@ by {
                            lemma_term_of_prefix(before, self@, kids@[j] as nat);
                        }
                    }
                    kids.push(k);
                    proof {
                        lemma_view_tuple(*xs);
                        assert forall|w: nat|
                            w < old(self)@.len() && #[trigger] term_of(old(self)@, w)
                                == atom@ implies self@ == old(self)@ && old(self)@[w as int] is Tuple
                            && kids@ == old(self)@[w as int]->Tuple_0.take(i + 1) by {
                            let ks = old(self)@[w as int]->Tuple_0;
                            assert forall|j: int| 0 <= j < ks.len() implies ks[j] < w by {
                                assert(old(self)@[w as int]->Tuple_0[j] < w);
                            }
                            lemma_kid_terms(old(self)@, ks, w, ks.len());
                            assert(before == old(self)@);
                            assert(kid_terms(old(self)@, ks, w, ks.len()) == views(xs@));
                            assert(views(xs@)[i as int] == xs@[i as int]@);
                            assert(term_of(before, ks[i as int] as nat) == xs@[i as int]@);
                            assert(kids@ =~= ks.take(i + 1));
                        }
                    }
                    i += 1;
                }
                proof {
                    lemma_view_tuple(*xs);
                    assert forall|w: nat|
                        w < old(self)@.len() && #[trigger] term_of(old(self)@, w)
                            == atom@ implies old(self)@[w as int] == NodeView::Tuple(kids@) by {
                        let ks = old(self)@[w as int]->Tuple_0;
                        assert forall|j: int| 0 <= j < ks.len() implies ks[j] < w by {
                            assert(old(self)@[w as int]->Tuple_0[j] < w);
                        }
                        lemma_kid_terms(old(self)@, ks, w, ks.len());
                        assert(ks.take(i as int) =~= ks);
                    }
                }
                Node::Tuple(kids)
            },
        };
        let ghost t = self@;
        let ghost v = node@;
        assert(stands_for(t, v, atom@));
        assert forall|w: nat|
            w < old(self)@.len() && #[trigger] term_of(old(self)@, w) == atom@ implies t == old(
            self,
        )@ && t[w as int] == v by {}
        let mut i: usize = 0;
        while i < self.nodes.len()
            invariant
                i <= self.nodes.len(),
                self@ == t,
                v == node@,
                table_wf(t),
                distinct(t),
                old(self)@.is_prefix_of(t),
                stands_for(t, v, atom@),
                forall|j: int| 0 <= j < i ==> t[j] != v,
                forall|w: nat|
                    w < old(self)@.len() && #[trigger] term_of(old(self)@, w) == atom@ ==> t
                        == old(self)@ && t[w as int] == v,
            decreases self.nodes.len() - i,
        {
            if TermTable::same_node(&self.nodes[i], &node) {
                proof {
                    assert(t[i as int] == v);
                    self.lemma_node_term(i as nat, v, atom@);
                }
                return i;
            }
            i += 1;
        }
        let n = self.nodes.len();
        self.nodes.push(node);
        proof {
            assert(t.is_prefix_of(self@));
            assert(self@[n as int] == v);
            assert(self.wf()) by {
                assert forall|i: int, j: int|
                    0 <= i < self@.len() && self@[i] is Tuple && 0 <= j < self@[i]->Tuple_0.len() implies (
                #[trigger] self@[i]->Tuple_0[j]) < i by {
                    if i < n {
                        assert(self@[i] == t[i]);
                    }
                }
                assert forall|i: int, j: int| 0 <= i < j < self@.len() implies #[trigger] self@[i]
                    != #[trigger] self@[j] by {
                    assert(self@[i] == t[i]);
                    if j < n {
                        assert(self@[j] == t[j]);
                    }
                }
            }
            if v is Tuple {
                assert forall|j: int| 0 <= j < v->Tuple_0.len() implies term_of(
                    self@,
                    (#[trigger] v->Tuple_0[j]) as nat,
                ) == term_of(t, v->Tuple_0[j] as nat) by {
                    lemma_term_of_prefix(t, self@, v->Tuple_0[j] as nat);
                }
            }
            assert(stands_for(self@, v, atom@));
            self.lemma_node_term(n as nat, v, atom@);
        }
        n
    }

    /// A node whose elements stand for the elements of a term stands for
    /// that term.
    proof fn lemma_node_term(&self, i: nat, v: NodeView, a: Term)
        requires
            self.wf(),
            i < self@.len(),
            self@[i as int] == v,
            stands_for(self@, v, a),
        ensures
            term_of(self@, i) == a,
    {
        match v {
            NodeView::Tuple(kids) => {
                assert forall|j: int| 0 <= j < kids.len() implies kids[j] < i by {
                    assert(self@[i as int]->Tuple_0[j] < i);
                }
                lemma_kid_terms(self@, kids, i, kids.len());
                assert(kid_terms(self@, kids, i, kids.len()) =~= a->Tuple_0);
            },
            _ => {},
        }
    }

    /// The node with number `i`.
    pub fn node(&self, i: usize) -> (r: &Node)
        requires
            i < self@.len(),
        ensures
            r@ == self@[i as int],
    {
        &self.nodes[i]
    }
}

/// Checks one pair of nodes of a class: a clash is an error, and where both
/// are tuples of one length their elements are equated pair by pair.
fn check_pair(eg: &mut EqGraph, table: &TermTable, x: usize, y: usize) -> (r: Result<(), EqClash>)
    requires
        old(eg).wf(),
        table.wf(),
        old(eg)@.len() == table@.len(),
        x < table@.len(),
        y < table@.len(),
        old(eg)@[x as int] == old(eg)@[y as int],
    ensures
        final(eg).wf(),
        finer(old(eg)@, final(eg)@),
        roots(final(eg)@, final(eg)@.len()) <= roots(old(eg)@, old(eg)@.len()),
        forall|h: Seq<usize>| #[trigger] admits(table@, old(eg)@, h) ==> finer(final(eg)@, h),
        r is Ok ==> closed_since(table@, old(eg)@, final(eg)@),
        r is Ok ==> agrees(table@, final(eg)@, x as int, y as int),
        r is Err ==> {
            let c = r->Err_0;
            &&& c.0 < table@.len()
            &&& c.1 < table@.len()
            &&& final(eg)@[c.0 as int] == final(eg)@[c.1 as int]
            &&& clash(table@[c.0 as int], table@[c.1 as int])
        },
    decreases roots(old(eg)@, old(eg)@.len()), 1nat,
{
    let ghost t = table@;
    let ghost g0 = eg@;
    match table.node(x) {
        Node::Id(xid) => match table.node(y) {
            Node::Id(yid) => {
                if *xid != *yid {
                    return Err(EqClash(x, y));
                }
                Ok(())
            },
            Node::Tuple(_) => Err(EqClash(x, y)),
            Node::Var(_) => Ok(()),
        },
        Node::Var(_) => Ok(()),
        Node::Tuple(xargs) => match table.node(y) {
            Node::Id(_) => Err(EqClash(x, y)),
            Node::Var(_) => Ok(()),
            Node::Tuple(yargs) => {
                if xargs.len() != yargs.len() {
                    return Err(EqClash(x, y));
                }
                let mut j: usize = 0;
                while j < xargs.len()
                    invariant
                        j <= xargs.len(),
                        xargs.len() == yargs.len(),
                        t == table@,
                        table.wf(),
                        t[x as int] == NodeView::Tuple(xargs@),
                        t[y as int] == NodeView::Tuple(yargs@),
                        x < t.len(),
                        y < t.len(),
                        eg.wf(),
                        eg@.len() == t.len(),
                        g0 == old(eg)@,
                        finer(g0, eg@),
                        roots(eg@, eg@.len()) <= roots(g0, g0.len()),
                        closed_since(t, g0, eg@),
                        g0[x as int] == g0[y as int],
                        forall|h: Seq<usize>| #[trigger] admits(t, g0, h) ==> finer(eg@, h),
                        forall|i: int|
                            0 <= i < j ==> eg@[xargs@[i] as int] == eg@[(
                            #[trigger] yargs@[i]) as int],
                    decreases xargs.len() - j,
                {
                    let ghost g1 = eg@;
                    assert(t[x as int]->Tuple_0[j as int] < t.len());
                    assert(t[y as int]->Tuple_0[j as int] < t.len());
                    let sub = equate(eg, table, xargs[j], yargs[j]);
                    proof {
                        lemma_finer_transitive(g0, g1, eg@);
                        assert forall|h: Seq<usize>| #[trigger] admits(t, g0, h) implies finer(
                            eg@,
                            h,
                        ) by {
                            assert(finer(g1, h));
                            assert(h[x as int] == h[y as int]);
                            assert(carried(t, h, x as int, y as int));
                            assert(h[xargs@[j as int] as int] == h[t[y as int]->Tuple_0[j as int] as int]);
                            assert(admits(t, g1, h));
                        }
                    }
                    match sub {
                        Err(c) => {
                            return Err(c);
                        },
                        Ok(_) => {},
                    }
                    proof {
                        lemma_closed_since_step(t, g0, g1, eg@);
                        assert forall|i: int| 0 <= i < j implies eg@[xargs@[i] as int] == eg@[(
                        #[trigger] yargs@[i]) as int] by {
                            assert(t[x as int]->Tuple_0[i] < t.len());
                            assert(t[y as int]->Tuple_0[i] < t.len());
                            assert(g1[xargs@[i] as int] == g1[yargs@[i] as int]);
                        }
                    }
                    j += 1;
                }
                Ok(())
            },
        },
    }
}

/// Declares the nodes `a` and `b` equal. Where that joins two classes,
/// every two nodes of the joined class are checked against each other: two
/// different constants, a constant and a tuple, or two tuples of different
/// lengths in one class are a clash, and two tuples of one length have their
/// elements equated in turn.
///
/// The classes only grow. On success `a` and `b` are in one class, and every
/// two nodes that were brought together agree under the classes reached:
/// classes that were closed before are closed again. A clash names two
/// clashing nodes of one class.
pub fn equate(eg: &mut EqGraph, table: &TermTable, a: usize, b: usize) -> (r: Result<(), EqClash>)
    requires
        old(eg).wf(),
        table.wf(),
        old(eg)@.len() == table@.len(),
        a < table@.len(),
        b < table@.len(),
    ensures
        final(eg).wf(),
        finer(old(eg)@, final(eg)@),
        roots(final(eg)@, final(eg)@.len()) <= roots(old(eg)@, old(eg)@.len()),
        final(eg)@[a as int] == final(eg)@[b as int],
        forall|h: Seq<usize>|
            #[trigger] admits(table@, old(eg)@, h) && h[a as int] == h[b as int] ==> finer(
                final(eg)@,
                h,
            ),
        r is Ok ==> closed_since(table@, old(eg)@, final(eg)@),
        r is Ok && closed(table@, old(eg)@) ==> closed(table@, final(eg)@),
        r is Err ==> {
            let c = r->Err_0;
            &&& c.0 < table@.len()
            &&& c.1 < table@.len()
            &&& final(eg)@[c.0 as int] == final(eg)@[c.1 as int]
            &&& clash(table@[c.0 as int], table@[c.1 as int])
        },
    decreases roots(old(eg)@, old(eg)@.len()), 0nat,
{
    let ghost t = table@;
    let ghost g0 = eg@;
    if !eg.relate(a, b) {
        assert(closed_since(t, g0, eg@));
        return Ok(());
    }
    let ghost g1 = eg@;
    let class = eg.equivalents(a);
    proof {
        assert forall|h: Seq<usize>| #[trigger]
            admits(t, g0, h) && h[a as int] == h[b as int] implies finer(g1, h) by {
            lemma_merged_least(g0, a as int, b as int, h);
        }
    }
    let mut p: usize = 0;
    while p < class.len()
        invariant
            p <= class.len(),
            t == table@,
            table.wf(),
            eg.wf(),
            eg@.len() == t.len(),
            a < t.len(),
            b < t.len(),
            g0 == old(eg)@,
            finer(g0, g1),
            finer(g1, eg@),
            g1[a as int] == g1[b as int],
            forall|x: int|
                0 <= x < g1.len() && g1[x] == g1[a as int] ==> exists|k: int|
                    0 <= k < class@.len() && #[trigger] class@[k] == x,
            forall|k: int|
                0 <= k < class@.len() ==> (#[trigger] class@[k]) < g1.len() && g1[class@[k] as int]
                    == g1[a as int],
            roots(g1, g1.len()) < roots(g0, g0.len()),
            roots(eg@, eg@.len()) <= roots(g1, g1.len()),
            closed_since(t, g1, eg@),
            forall|h: Seq<usize>| #[trigger]
                admits(t, g0, h) && h[a as int] == h[b as int] ==> finer(eg@, h),
            forall|k: int, l: int|
                0 <= k < p && 0 <= l < class@.len() ==> agrees(
                    t,
                    eg@,
                    #[trigger] class@[k] as int,
                    #[trigger] class@[l] as int,
                ),
        decreases class.len() - p,
    {
        let x = class[p];
        let mut q: usize = 0;
        while q < class.len()
            invariant
                p < class.len(),
                q <= class.len(),
                x == class@[p as int],
                t == table@,
                table.wf(),
                eg.wf(),
                eg@.len() == t.len(),
                a < t.len(),
                b < t.len(),
                g0 == old(eg)@,
                finer(g0, g1),
                finer(g1, eg@),
                g1[a as int] == g1[b as int],
                forall|k: int|
                    0 <= k < class@.len() ==> (#[trigger] class@[k]) < g1.len() && g1[class@[k] as int]
                        == g1[a as int],
                roots(g1, g1.len()) < roots(g0, g0.len()),
                roots(eg@, eg@.len()) <= roots(g1, g1.len()),
                closed_since(t, g1, eg@),
                forall|h: Seq<usize>| #[trigger]
                    admits(t, g0, h) && h[a as int] == h[b as int] ==> finer(eg@, h),
                forall|k: int, l: int|
                    0 <= k < p && 0 <= l < class@.len() ==> agrees(
                        t,
                        eg@,
                        #[trigger] class@[k] as int,
                        #[trigger] class@[l] as int,
                    ),
                forall|l: int|
                    0 <= l < q ==> agrees(t, eg@, x as int, #[trigger] class@[l] as int),
            decreases class.len() - q,
        {
            let y = class[q];
            let ghost g2 = eg@;
            assert(g1[x as int] == g1[y as int]);
            let checked = check_pair(eg, table, x, y);
            proof {
                lemma_finer_transitive(g1, g2, eg@);
                lemma_finer_transitive(g0, g1, eg@);
                assert forall|h: Seq<usize>| #[trigger]
                    admits(t, g0, h) && h[a as int] == h[b as int] implies finer(eg@, h) by {
                    assert(admits(t, g2, h));
                }
            }
            match checked {
                Err(c) => {
                    return Err(c);
                },
                Ok(_) => {},
            }
            proof {
                lemma_closed_since_step(t, g1, g2, eg@);
                assert forall|k: int, l: int| 0 <= k < p && 0 <= l < class@.len() implies agrees(
                    t,
                    eg@,
                    #[trigger] class@[k] as int,
                    #[trigger] class@[l] as int,
                ) by {
                    lemma_agrees_finer(t, g2, eg@, class@[k] as int, class@[l] as int);
                }
                assert forall|l: int| 0 <= l < q implies agrees(
                    t,
                    eg@,
                    x as int,
                    #[trigger] class@[l] as int,
                ) by {
                    lemma_agrees_finer(t, g2, eg@, x as int, class@[l] as int);
                }
            }
            q += 1;
        }
        p += 1;
    }
    proof {
        lemma_finer_transitive(g0, g1, eg@);
        let g = eg@;
        assert forall|x: int, y: int|
            0 <= x < g.len() && 0 <= y < g.len() && #[trigger] g[x] == #[trigger] g[y] && g0[x]
                != g0[y] implies agrees(t, g, x, y) by {
            if g1[x] == g1[y] {
                assert(g1[x] == g1[a as int]);
                let k = choose|k: int| 0 <= k < class@.len() && #[trigger] class@[k] == x;
                let l = choose|l: int| 0 <= l < class@.len() && #[trigger] class@[l] == y;
                assert(agrees(t, g, class@[k] as int, class@[l] as int));
            }
        }
        if closed(t, g0) {
            assert forall|x: int, y: int|
                0 <= x < g.len() && 0 <= y < g.len() && #[trigger] g[x] == #[trigger] g[y] implies agrees(
                t,
                g,
                x,
                y,
            ) by {
                if g0[x] == g0[y] {
                    lemma_agrees_finer(t, g0, g, x, y);
                }
            }
        }
    }
    Ok(())
}

/// The classes `h` hold the two nodes of each of the first `n` pairs equal.
pub open spec fn relates(h: Seq<usize>, pairs: Seq<(usize, usize)>, n: nat) -> bool {
    forall|k: int| 0 <= k < n && k < pairs.len() ==> h[pairs[k].0 as int] == h[(#[trigger] pairs[k]).1 as int]
}

/// What equating the pairs of terms came to: the nodes of the terms, the
/// numbers of the nodes of each pair, the classes reached, and the clash
/// that ended the work, if there was one.
#[derive(Debug)]
pub struct Closure {
    pub table: TermTable,
    pub pairs: Vec<(usize, usize)>,
    pub classes: EqGraph,
    pub clash: Option<EqClash>,
}

/// Equates the two terms of each pair, all in one set of classes, and says
/// whether the pairings are consistent together.
///
/// Without a clash, the classes are closed, hold the two terms of every
/// pair equal, and hold nothing equal that a congruence with these pairs
/// could keep apart. A clash names two clashing nodes that every
/// congruence with these pairs holds equal: the pairings are not
/// consistent.
pub fn equate_all(terms: &Vec<(&Atom, &Atom)>) -> (r: Closure)
    ensures
        r.table.wf(),
        r.classes.wf(),
        r.classes@.len() == r.table@.len(),
        r.pairs@.len() == terms@.len(),
        forall|k: int|
            0 <= k < terms@.len() ==> {
                &&& (#[trigger] r.pairs@[k]).0 < r.table@.len()
                &&& r.pairs@[k].1 < r.table@.len()
                &&& term_of(r.table@, r.pairs@[k].0 as nat) == terms@[k].0@
                &&& term_of(r.table@, r.pairs@[k].1 as nat) == terms@[k].1@
            },
        r.clash is None ==> {
            &&& closed(r.table@, r.classes@)
            &&& relates(r.classes@, r.pairs@, r.pairs@.len())
            &&& forall|h: Seq<usize>|
                #[trigger] congruent(r.table@, h) && relates(h, r.pairs@, r.pairs@.len()) ==> finer(
                    r.classes@,
                    h,
                )
        },
        r.clash is Some ==> {
            let c = r.clash->Some_0;
            &&& c.0 < r.table@.len()
            &&& c.1 < r.table@.len()
            &&& clash(r.table@[c.0 as int], r.table@[c.1 as int])
            &&& forall|h: Seq<usize>|
                #[trigger] congruent(r.table@, h) && relates(h, r.pairs@, r.pairs@.len()) ==> h[c.0 as int]
                    == h[c.1 as int]
        },
{
    let mut table = TermTable::new();
    let mut pairs: Vec<(usize, usize)> = Vec::new();
    let mut i: usize = 0;
    while i < terms.len()
        invariant
            i <= terms.len(),
            table.wf(),
            pairs@.len() == i,
            forall|k: int|
                0 <= k < i ==> {
                    &&& (#[trigger] pairs@[k]).0 < table@.len()
                    &&& pairs@[k].1 < table@.len()
                    &&& term_of(table@, pairs@[k].0 as nat) == terms@[k].0@
                    &&& term_of(table@, pairs@[k].1 as nat) == terms@[k].1@
                },
        decreases terms.len() - i,
    {
        let ghost t0 = table@;
        let left = table.intern(terms[i].0);
        let ghost t1 = table@;
        let right = table.intern(terms[i].1);
        proof {
            lemma_term_of_prefix(t1, table@, left as nat);
            assert(t0.is_prefix_of(table@));
            assert forall|k: int| 0 <= k < i implies {
                &&& (#[trigger] pairs@[k]).0 < table@.len()
                &&& pairs@[k].1 < table@.len()
                &&& term_of(table@, pairs@[k].0 as nat) == terms@[k].0@
                &&& term_of(table@, pairs@[k].1 as nat) == terms@[k].1@
            } by {
                lemma_term_of_prefix(t0, table@, pairs@[k].0 as nat);
                lemma_term_of_prefix(t0, table@, pairs@[k].1 as nat);
            }
        }
        pairs.push((left, right));
        i += 1;
    }
    let mut classes = EqGraph::new(table.len());
    let ghost t = table@;
    let ghost ids = pairs@;
    proof {
        assert forall|x: int, y: int|
            0 <= x < classes@.len() && 0 <= y < classes@.len() && #[trigger] classes@[x]
                == #[trigger] classes@[y] implies agrees(t, classes@, x, y) by {
            assert(x == y);
        }
        assert forall|h: Seq<usize>| #[trigger] congruent(t, h) implies finer(classes@, h) by {
            assert forall|x: int, y: int|
                0 <= x < classes@.len() && 0 <= y < classes@.len() && #[trigger] classes@[x]
                    == #[trigger] classes@[y] implies h[x] == h[y] by {
                assert(x == y);
            }
        }
    }
    let mut found: Option<EqClash> = None;
    let mut j: usize = 0;
    while j < pairs.len() && found.is_none()
        invariant
            j <= pairs.len(),
            t == table@,
            ids == pairs@,
            table.wf(),
            classes.wf(),
            classes@.len() == t.len(),
            forall|k: int|
                0 <= k < ids.len() ==> (#[trigger] ids[k]).0 < t.len() && ids[k].1 < t.len(),
            found is None ==> closed(t, classes@) && relates(classes@, ids, j as nat),
            forall|h: Seq<usize>|
                #[trigger] congruent(t, h) && relates(h, ids, j as nat) ==> finer(classes@, h),
            found is Some ==> {
                let c = found->Some_0;
                &&& c.0 < t.len()
                &&& c.1 < t.len()
                &&& clash(t[c.0 as int], t[c.1 as int])
                &&& classes@[c.0 as int] == classes@[c.1 as int]
            },
        decreases pairs.len() - j + if found is None { 1int } else { 0int },
    {
        let ghost g = classes@;
        let (left, right) = pairs[j];
        assert(ids[j as int].0 < t.len());
        let outcome = equate(&mut classes, &table, left, right);
        proof {
            assert forall|h: Seq<usize>|
                #[trigger] congruent(t, h) && relates(h, ids, (j + 1) as nat) implies finer(
                classes@,
                h,
            ) by {
                assert(relates(h, ids, j as nat));
                assert(h[ids[j as int].0 as int] == h[ids[j as int].1 as int]);
                assert(admits(t, g, h));
            }
        }
        match outcome {
            Err(c) => {
                found = Some(c);
            },
            Ok(_) => {
                assert forall|k: int| 0 <= k < j + 1 implies classes@[ids[k].0 as int]
                    == classes@[(#[trigger] ids[k]).1 as int] by {
                    if k < j {
                        assert(g[ids[k].0 as int] == g[ids[k].1 as int]);
                    }
                }
            },
        }
        j += 1;
    }
    proof {
        if found is Some {
            let c = found->Some_0;
            assert forall|h: Seq<usize>|
                #[trigger] congruent(t, h) && relates(h, ids, ids.len()) implies h[c.0 as int]
                == h[c.1 as int] by {
                assert(relates(h, ids, j as nat));
            }
        } else {
            assert forall|h: Seq<usize>|
                #[trigger] congruent(t, h) && relates(h, ids, ids.len()) implies finer(
                classes@,
                h,
            ) by {
                assert(relates(h, ids, j as nat));
            }
        }
    }
    Closure { table, pairs, classes, clash: found }
}

} // verus!
