use vstd::prelude::*;

verus! {

/// A parent array is a forest when every vertex links to itself (a root)
/// or to a strictly smaller vertex.
pub open spec fn is_forest(parent: Seq<usize>) -> bool {
    forall|v: int| 0 <= v < parent.len() ==> #[trigger] parent[v] <= v
}

/// The root reached from `v` by following parent links.
pub open spec fn root_of(parent: Seq<usize>, v: int) -> int
    decreases v,
{
    if 0 <= v < parent.len() && (parent[v] as int) < v {
        root_of(parent, parent[v] as int)
    } else {
        v
    }
}

/// Two parent arrays induce the same representative for every vertex.
pub open spec fn same_roots(p: Seq<usize>, q: Seq<usize>) -> bool {
    &&& p.len() == q.len()
    &&& forall|v: int| 0 <= v < p.len() ==> #[trigger] root_of(q, v) == root_of(p, v)
}

/// The representative that `r` has after the roots `ra` and `rb` are merged:
/// the lower of the two roots represents the merged component.
pub open spec fn merged_root(r: int, ra: int, rb: int) -> int {
    if r == ra || r == rb {
        if ra <= rb {
            ra
        } else {
            rb
        }
    } else {
        r
    }
}

/// `q` is what `p` becomes under `union(a, b)`: the components of `a` and `b`
/// are merged and every other representative stays where it was.
pub open spec fn is_union(p: Seq<usize>, q: Seq<usize>, a: int, b: int) -> bool {
    &&& p.len() == q.len()
    &&& forall|v: int|
        0 <= v < p.len() ==> #[trigger] root_of(q, v) == merged_root(
            root_of(p, v),
            root_of(p, a),
            root_of(p, b),
        )
}

/// `a` and `b` have the same representative.
pub open spec fn joined(p: Seq<usize>, a: int, b: int) -> bool {
    root_of(p, a) == root_of(p, b)
}

/// The vertex reached from `v` after `k` parent steps.
pub open spec fn ancestor(parent: Seq<usize>, v: int, k: nat) -> int
    decreases k,
{
    if k == 0 || !(0 <= v < parent.len()) {
        v
    } else {
        ancestor(parent, parent[v] as int, (k - 1) as nat)
    }
}

/// In a forest the representative of a vertex is a root no larger than it.
pub proof fn lemma_root_is_root(p: Seq<usize>, v: int)
    requires
        is_forest(p),
        0 <= v < p.len(),
    ensures
        0 <= root_of(p, v) <= v,
        p[root_of(p, v)] == root_of(p, v),
        root_of(p, root_of(p, v)) == root_of(p, v),
    decreases v,
{
    if (p[v] as int) < v {
        lemma_root_is_root(p, p[v] as int);
    }
}

/// Following parent links from any vertex never comes back to it unless it
/// is a root, and within `v` steps it arrives at the representative of `v`.
pub proof fn lemma_forest_acyclic(p: Seq<usize>, v: int, k: nat)
    requires
        is_forest(p),
        0 <= v < p.len(),
    ensures
        0 <= ancestor(p, v, k) <= v,
        k > 0 && p[v] != v ==> ancestor(p, v, k) < v,
        k >= v ==> ancestor(p, v, k) == root_of(p, v),
    decreases k,
{
    if k > 0 {
        lemma_forest_acyclic(p, p[v] as int, (k - 1) as nat);
        if p[v] == v {
            lemma_ancestor_of_root(p, v, (k - 1) as nat);
        }
    }
}

proof fn lemma_ancestor_of_root(p: Seq<usize>, v: int, k: nat)
    requires
        0 <= v < p.len(),
        p[v] == v,
    ensures
        ancestor(p, v, k) == v,
    decreases k,
{
    if k > 0 {
        lemma_ancestor_of_root(p, v, (k - 1) as nat);
    }
}

/// Relinking `x` to its grandparent keeps the forest and every representative.
proof fn lemma_halve(p: Seq<usize>, x: int)
    requires
        is_forest(p),
        0 <= x < p.len(),
    ensures
        is_forest(p.update(x, p[p[x] as int])),
        same_roots(p, p.update(x, p[p[x] as int])),
{
    let q = p.update(x, p[p[x] as int]);
    assert(is_forest(q));
    assert forall|v: int| 0 <= v < p.len() implies #[trigger] root_of(q, v) == root_of(p, v) by {
        lemma_halve_at(p, x, v);
    }
}

proof fn lemma_halve_at(p: Seq<usize>, x: int, v: int)
    requires
        is_forest(p),
        0 <= x < p.len(),
        0 <= v < p.len(),
    ensures
        root_of(p.update(x, p[p[x] as int]), v) == root_of(p, v),
    decreases v,
{
    let q = p.update(x, p[p[x] as int]);
    let px = p[x] as int;
    let gx = p[px] as int;
    if v == x {
        if gx < x {
            lemma_halve_at(p, x, gx);
            if px < x {
                assert(root_of(p, x) == root_of(p, px));
                if gx < px {
                    assert(root_of(p, px) == root_of(p, gx));
                }
            }
        }
    } else if (p[v] as int) < v {
        lemma_halve_at(p, x, p[v] as int);
    }
}

/// Linking the root `hi` below the smaller root `lo` keeps the forest and
/// moves exactly the component of `hi` under `lo`.
proof fn lemma_link(p: Seq<usize>, hi: int, lo: int)
    requires
        is_forest(p),
        0 <= lo < hi < p.len(),
        p[hi] == hi,
        p[lo] == lo,
    ensures
        is_forest(p.update(hi, lo as usize)),
        forall|v: int|
            0 <= v < p.len() ==> #[trigger] root_of(p.update(hi, lo as usize), v) == (if root_of(
                p,
                v,
            ) == hi {
                lo
            } else {
                root_of(p, v)
            }),
{
    let q = p.update(hi, lo as usize);
    assert(is_forest(q));
    assert forall|v: int| 0 <= v < p.len() implies #[trigger] root_of(q, v) == (if root_of(p, v)
        == hi {
        lo
    } else {
        root_of(p, v)
    }) by {
        lemma_link_at(p, hi, lo, v);
    }
}

proof fn lemma_link_at(p: Seq<usize>, hi: int, lo: int, v: int)
    requires
        is_forest(p),
        0 <= lo < hi < p.len(),
        p[hi] == hi,
        p[lo] == lo,
        0 <= v < p.len(),
    ensures
        root_of(p.update(hi, lo as usize), v) == (if root_of(p, v) == hi {
            lo
        } else {
            root_of(p, v)
        }),
    decreases v,
{
    let q = p.update(hi, lo as usize);
    if v == hi {
        assert(root_of(q, lo) == lo);
    } else if (p[v] as int) < v {
        lemma_link_at(p, hi, lo, p[v] as int);
    }
}

/// Once two vertices share a representative, a `union` keeps them together.
pub proof fn lemma_union_keeps_joined(p: Seq<usize>, q: Seq<usize>, a: int, b: int, x: int, y: int)
    requires
        is_union(p, q, a, b),
        0 <= x < p.len(),
        0 <= y < p.len(),
        joined(p, x, y),
    ensures
        joined(q, x, y),
{
}

/// Once two vertices share a representative, a `find` keeps them together.
pub proof fn lemma_find_keeps_joined(p: Seq<usize>, q: Seq<usize>, x: int, y: int)
    requires
        same_roots(p, q),
        0 <= x < p.len(),
        0 <= y < p.len(),
        joined(p, x, y),
    ensures
        joined(q, x, y),
{
}

/// After `union(a, b)` the two vertices share a representative.
pub proof fn lemma_union_joins(p: Seq<usize>, q: Seq<usize>, a: int, b: int)
    requires
        is_union(p, q, a, b),
        0 <= a < p.len(),
        0 <= b < p.len(),
    ensures
        joined(q, a, b),
{
}

/// A second `union(a, b)` right after a first one changes no representative.
pub proof fn lemma_union_idempotent(
    p0: Seq<usize>,
    p1: Seq<usize>,
    p2: Seq<usize>,
    a: int,
    b: int,
)
    requires
        0 <= a < p0.len(),
        0 <= b < p0.len(),
        is_union(p0, p1, a, b),
        is_union(p1, p2, a, b),
    ensures
        same_roots(p1, p2),
{
    assert(joined(p1, a, b));
}

/// `union(a, b)` and `union(b, a)` lead to the same representatives.
pub proof fn lemma_union_commutes(p: Seq<usize>, q1: Seq<usize>, q2: Seq<usize>, a: int, b: int)
    requires
        is_union(p, q1, a, b),
        is_union(p, q2, b, a),
    ensures
        same_roots(q1, q2),
{
}

/// Finds the representative of `v`, halving the path on the way.
fn find_in(parent: &mut Vec<usize>, v: usize) -> (r: usize)
    requires
        is_forest(old(parent)@),
        v < old(parent)@.len(),
    ensures
        is_forest(final(parent)@),
        same_roots(old(parent)@, final(parent)@),
        r == root_of(old(parent)@, v as int),
{
    let mut x = v;
    while parent[x] != x
        invariant
            is_forest(parent@),
            same_roots(old(parent)@, parent@),
            x < parent@.len(),
            root_of(parent@, x as int) == root_of(old(parent)@, v as int),
        decreases x,
    {
        let px = parent[x];
        let gx = parent[px];
        proof {
            lemma_halve(parent@, x as int);
            assert(root_of(parent@, x as int) == root_of(parent@, px as int));
            if (gx as int) < (px as int) {
                assert(root_of(parent@, px as int) == root_of(parent@, gx as int));
            }
        }
        parent.set(x, gx);
        x = gx;
    }
    x
}

/// A union-find structure over the vertices `0..len()`.
pub struct DisjointSetStruct {
    parent: Vec<usize>,
}

impl View for DisjointSetStruct {
    type V = Seq<usize>;

    closed spec fn view(&self) -> Seq<usize> {
        self.parent@
    }
}

impl DisjointSetStruct {
    /// The parent links form a forest; every operation keeps it so.
    pub open spec fn wf(&self) -> bool {
        is_forest(self@)
    }

    /// A structure of `n` singleton components: every vertex is its own root.
    pub fn new(n: usize) -> (d: Self)
        ensures
            d.wf(),
            d@.len() == n,
            forall|v: int| 0 <= v < n ==> #[trigger] d@[v] == v,
            forall|v: int| 0 <= v < n ==> #[trigger] root_of(d@, v) == v,
    {
        let mut parent: Vec<usize> = Vec::with_capacity(n);
        let mut i: usize = 0;
        while i < n
            invariant
                i <= n,
                parent@.len() == i,
                forall|v: int| 0 <= v < i ==> #[trigger] parent@[v] == v,
            decreases n - i,
        {
            parent.push(i);
            i = i + 1;
        }
        DisjointSetStruct { parent }
    }

    /// The number of vertices.
    pub fn len(&self) -> (n: usize)
        ensures
            n == self@.len(),
    {
        self.parent.len()
    }

    /// The representative of `v`; the path from `v` is halved on the way,
    /// which changes no representative.
    pub fn find(&mut self, v: usize) -> (r: usize)
        requires
            old(self).wf(),
            v < old(self)@.len(),
        ensures
            final(self).wf(),
            r == root_of(old(self)@, v as int),
            same_roots(old(self)@, final(self)@),
    {
        find_in(&mut self.parent, v)
    }

    /// Merges the components of `a` and `b`; the root of the merged
    /// component is the lower of their two roots.
    pub fn union(&mut self, a: usize, b: usize)
        requires
            old(self).wf(),
            a < old(self)@.len(),
            b < old(self)@.len(),
        ensures
            final(self).wf(),
            is_union(old(self)@, final(self)@, a as int, b as int),
    {
        let ra = find_in(&mut self.parent, a);
        let rb = find_in(&mut self.parent, b);
        proof {
            lemma_root_is_root(self@, a as int);
            lemma_root_is_root(self@, b as int);
        }
        if ra != rb {
            let (lo, hi) = if ra < rb {
                (ra, rb)
            } else {
                (rb, ra)
            };
            proof {
                lemma_link(self@, hi as int, lo as int);
            }
            self.parent.set(hi, lo);
        }
    }
}

} // verus!
