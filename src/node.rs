//! The nodes of the tree, with the split, borrow and merge steps that keep
//! them balanced, and the proofs that each step keeps the stored entries and
//! the structural invariants.
use vstd::prelude::*;

use crate::model::{copied, has_key, lookup, sorted_by_key, to_map, Entry};

verus! {

/// Every `u32` key lies below this bound.
pub open spec fn key_limit() -> int {
    0x1_0000_0000
}

/// The fewest keys that a node other than the root may hold for degree `d`:
/// `ceil(d / 2) - 1`, and never less than one.
pub open spec fn min_keys(d: nat) -> nat {
    if (d + 1) / 2 >= 2 {
        ((d + 1) / 2 - 1) as nat
    } else {
        1
    }
}

/// The items of `s` are strictly ascending.
pub open spec fn strictly_ascending(s: Seq<u32>) -> bool {
    forall|i: int, j: int| 0 <= i < j < s.len() ==> #[trigger] s[i] < #[trigger] s[j]
}

/// The entries of a leaf: its keys paired with the values at the same places.
pub open spec fn leaf_entries(keys: Seq<u32>, values: Seq<u32>) -> Seq<Entry> {
    Seq::new(keys.len(), |i: int| (keys[i], values[i]))
}

/// A node of the tree. A leaf holds keys and their values side by side; an
/// internal node holds separator keys and one more child than it has keys.
pub struct Node {
    keys: Vec<u32>,
    values: Vec<u32>,
    children: Vec<Node>,
    is_leaf: bool,
}

/// The entries under the nodes `cs`, all at height `h`, in order.
pub closed spec fn entries_of(cs: Seq<Node>, h: nat) -> Seq<Entry>
    decreases h, cs.len(),
{
    if cs.len() == 0 {
        Seq::empty()
    } else {
        entries_of(cs.drop_last(), h) + cs.last().entries(h)
    }
}

impl Node {
    /// The lower bound of the keys under child `j`.
    pub closed spec fn child_lo(self, j: int, lo: int) -> int {
        if j == 0 {
            lo
        } else {
            self.keys@[j - 1] as int
        }
    }

    /// The (exclusive) upper bound of the keys under child `j`.
    pub closed spec fn child_hi(self, j: int, hi: int) -> int {
        if j == self.keys@.len() {
            hi
        } else {
            self.keys@[j] as int
        }
    }

    /// The node's own layout at height `h` (0 for a leaf), with every key of a
    /// leaf in `[lo, hi)` and every separator strictly inside `(lo, hi)`.
    pub closed spec fn shape_ok(self, h: nat, lo: int, hi: int) -> bool {
        &&& strictly_ascending(self.keys@)
        &&& if h == 0 {
            &&& self.is_leaf
            &&& self.values@.len() == self.keys@.len()
            &&& self.children@.len() == 0
            &&& forall|i: int| 0 <= i < self.keys@.len() ==> lo <= #[trigger] self.keys@[i] < hi
        } else {
            &&& !self.is_leaf
            &&& self.children@.len() == self.keys@.len() + 1
            &&& forall|i: int| 0 <= i < self.keys@.len() ==> lo < #[trigger] self.keys@[i] < hi
        }
    }

    /// The subtree rooted here is well formed at height `h` for degree `d`,
    /// with its keys in `[lo, hi)`: every leaf lies at depth `h`, keys ascend,
    /// and every child holds between `min_keys(d)` and `d - 1` keys, except
    /// that child `under` may hold one key less and child `over` one more.
    /// The node's own key count is not bounded here.
    pub closed spec fn wf_rec(self, h: nat, d: nat, lo: int, hi: int, under: int, over: int) -> bool
        decreases h,
    {
        &&& self.shape_ok(h, lo, hi)
        &&& h > 0 ==> forall|j: int|
            0 <= j < self.children@.len() ==> {
                let c = #[trigger] self.children@[j];
                &&& c.wf_rec((h - 1) as nat, d, self.child_lo(j, lo), self.child_hi(j, hi), -1, -1)
                &&& c.keys@.len() < d + (if j == over { 1int } else { 0int })
                &&& c.keys@.len() + (if j == under { 1int } else { 0int }) >= min_keys(d)
            }
    }

    /// A well-formed subtree whose own key count is below `d`.
    pub open spec fn wf_node(self, h: nat, d: nat, lo: int, hi: int) -> bool {
        self.wf_rec(h, d, lo, hi, -1, -1) && self.key_count() < d
    }

    /// The number of keys held by this node itself.
    pub closed spec fn key_count(self) -> nat {
        self.keys@.len()
    }

    /// The number of children of this node.
    pub closed spec fn child_count(self) -> nat {
        self.children@.len()
    }

    /// The children of this node.
    pub closed spec fn child_nodes(self) -> Seq<Node> {
        self.children@
    }

    /// Child `j` of this node.
    pub closed spec fn child(self, j: int) -> Node {
        self.children@[j]
    }

    /// The keys held by this node itself: entry keys in a leaf, separators
    /// in an internal node.
    pub closed spec fn separators(self) -> Seq<u32> {
        self.keys@
    }

    /// Whether this node is a leaf.
    pub closed spec fn leaf(self) -> bool {
        self.is_leaf
    }

    /// This node is a leaf without entries.
    pub closed spec fn is_empty_leaf(self) -> bool {
        &&& self.is_leaf
        &&& self.keys@.len() == 0
        &&& self.values@.len() == 0
        &&& self.children@.len() == 0
    }

    /// The entries stored under this node, at height `h`, in order.
    pub closed spec fn entries(self, h: nat) -> Seq<Entry>
        decreases h, 0nat,
    {
        if h == 0 {
            leaf_entries(self.keys@, self.values@)
        } else {
            entries_of(self.children@, (h - 1) as nat)
        }
    }
}

proof fn lemma_entries_of_concat(a: Seq<Node>, b: Seq<Node>, h: nat)
    ensures
        entries_of(a + b, h) == entries_of(a, h) + entries_of(b, h),
    decreases b.len(),
{
    if b.len() == 0 {
        assert(a + b =~= a);
        assert(entries_of(a, h) + entries_of(b, h) =~= entries_of(a, h));
    } else {
        lemma_entries_of_concat(a, b.drop_last(), h);
        assert((a + b).drop_last() =~= a + b.drop_last());
        assert((a + b).last() == b.last());
        assert(entries_of(a + b, h) =~= entries_of(a, h) + entries_of(b, h));
    }
}

proof fn lemma_entries_of_one(c: Node, h: nat)
    ensures
        entries_of(seq![c], h) == c.entries(h),
{
    assert(seq![c].drop_last() =~= Seq::<Node>::empty());
    assert(entries_of(Seq::<Node>::empty(), h) == Seq::<Entry>::empty());
    assert(entries_of(seq![c], h) =~= c.entries(h));
}

proof fn lemma_entries_of_two(a: Node, b: Node, h: nat)
    ensures
        entries_of(seq![a, b], h) == a.entries(h) + b.entries(h),
{
    assert(seq![a, b].drop_last() =~= seq![a]);
    lemma_entries_of_one(a, h);
}

/// The entries under `cs` split around child `i`.
proof fn lemma_entries_of_pieces(cs: Seq<Node>, i: int, h: nat)
    requires
        0 <= i < cs.len(),
    ensures
        entries_of(cs, h) == entries_of(cs.take(i), h) + cs[i].entries(h) + entries_of(
            cs.skip(i + 1),
            h,
        ),
{
    assert(cs =~= cs.take(i) + seq![cs[i]] + cs.skip(i + 1));
    lemma_entries_of_concat(cs.take(i) + seq![cs[i]], cs.skip(i + 1), h);
    lemma_entries_of_concat(cs.take(i), seq![cs[i]], h);
    lemma_entries_of_one(cs[i], h);
}

/// Replacing two neighbouring children by two others that hold the same
/// entries between them keeps the entries.
proof fn lemma_entries_of_replace_two(cs: Seq<Node>, i: int, a: Node, b: Node, h: nat)
    requires
        0 <= i,
        i + 1 < cs.len(),
        a.entries(h) + b.entries(h) == cs[i].entries(h) + cs[i + 1].entries(h),
    ensures
        entries_of(cs.update(i, a).update(i + 1, b), h) == entries_of(cs, h),
{
    let t = cs.update(i, a).update(i + 1, b);
    assert(cs =~= cs.take(i) + seq![cs[i], cs[i + 1]] + cs.skip(i + 2));
    assert(t =~= cs.take(i) + seq![a, b] + cs.skip(i + 2));
    lemma_entries_of_concat(cs.take(i) + seq![cs[i], cs[i + 1]], cs.skip(i + 2), h);
    lemma_entries_of_concat(cs.take(i), seq![cs[i], cs[i + 1]], h);
    lemma_entries_of_concat(cs.take(i) + seq![a, b], cs.skip(i + 2), h);
    lemma_entries_of_concat(cs.take(i), seq![a, b], h);
    lemma_entries_of_two(a, b, h);
    lemma_entries_of_two(cs[i], cs[i + 1], h);
}

/// Replacing two neighbouring children by one that holds the entries of both
/// keeps the entries.
proof fn lemma_entries_of_merge(cs: Seq<Node>, i: int, m: Node, h: nat)
    requires
        0 <= i,
        i + 1 < cs.len(),
        m.entries(h) == cs[i].entries(h) + cs[i + 1].entries(h),
    ensures
        entries_of(cs.update(i, m).remove(i + 1), h) == entries_of(cs, h),
{
    let t = cs.update(i, m).remove(i + 1);
    assert(cs =~= cs.take(i) + seq![cs[i], cs[i + 1]] + cs.skip(i + 2));
    assert(t =~= cs.take(i) + seq![m] + cs.skip(i + 2));
    lemma_entries_of_concat(cs.take(i) + seq![cs[i], cs[i + 1]], cs.skip(i + 2), h);
    lemma_entries_of_concat(cs.take(i), seq![cs[i], cs[i + 1]], h);
    lemma_entries_of_concat(cs.take(i) + seq![m], cs.skip(i + 2), h);
    lemma_entries_of_concat(cs.take(i), seq![m], h);
    lemma_entries_of_one(m, h);
    lemma_entries_of_two(cs[i], cs[i + 1], h);
}

/// A well-formed subtree holds its entries in ascending order within its
/// bounds.
pub proof fn lemma_wf_entries(n: Node, h: nat, d: nat, lo: int, hi: int, under: int, over: int)
    requires
        n.wf_rec(h, d, lo, hi, under, over),
    ensures
        n.leaf() <==> h == 0,
        sorted_by_key(n.entries(h)),
        forall|i: int|
            0 <= i < n.entries(h).len() ==> lo <= #[trigger] n.entries(h)[i].0 < hi,
    decreases h, 0nat,
{
    if h > 0 {
        let cs = n.children@;
        lemma_children_range(n, (h - 1) as nat, d, lo, hi, under, over, 0, cs.len() as int);
        assert(cs.subrange(0, cs.len() as int) =~= cs);
    }
}

/// The entries under children `a..b` ascend and lie between the bounds of
/// child `a` and those of child `b - 1`.
proof fn lemma_children_range(
    n: Node,
    h: nat,
    d: nat,
    lo: int,
    hi: int,
    under: int,
    over: int,
    a: int,
    b: int,
)
    requires
        n.wf_rec(h + 1, d, lo, hi, under, over),
        0 <= a < b <= n.children@.len(),
    ensures
        sorted_by_key(entries_of(n.children@.subrange(a, b), h)),
        forall|i: int|
            0 <= i < entries_of(n.children@.subrange(a, b), h).len() ==> n.child_lo(a, lo)
                <= #[trigger] entries_of(n.children@.subrange(a, b), h)[i].0 < n.child_hi(b - 1, hi),
    decreases h, b - a,
{
    let cs = n.children@;
    let c = cs[b - 1];
    assert(c.wf_rec(h, d, n.child_lo(b - 1, lo), n.child_hi(b - 1, hi), -1, -1));
    lemma_wf_entries(c, h, d, n.child_lo(b - 1, lo), n.child_hi(b - 1, hi), -1, -1);
    let s = cs.subrange(a, b);
    assert(s.drop_last() =~= cs.subrange(a, b - 1));
    assert(s.last() == c);
    if b == a + 1 {
        assert(s.drop_last() =~= Seq::<Node>::empty());
        assert(entries_of(Seq::<Node>::empty(), h) == Seq::<Entry>::empty());
        assert(entries_of(s, h) =~= c.entries(h));
    } else {
        lemma_children_range(n, h, d, lo, hi, under, over, a, b - 1);
        let p = entries_of(cs.subrange(a, b - 1), h);
        let q = c.entries(h);
        assert(entries_of(s, h) == p + q);
        assert(n.child_hi(b - 2, hi) == n.child_lo(b - 1, lo));
        assert(n.child_lo(a, lo) <= n.child_lo(b - 1, lo));
        assert(n.child_hi(b - 2, hi) <= n.child_hi(b - 1, hi));
        assert forall|i: int, j: int|
            0 <= i < j < (p + q).len() implies #[trigger] (p + q)[i].0 < #[trigger] (p + q)[j].0 by {
            if j < p.len() {
            } else if i >= p.len() {
                assert((p + q)[i] == q[i - p.len()]);
                assert((p + q)[j] == q[j - p.len()]);
            } else {
                assert((p + q)[i] == p[i]);
                assert((p + q)[j] == q[j - p.len()]);
            }
        }
        assert forall|i: int| 0 <= i < (p + q).len() implies n.child_lo(a, lo) <= #[trigger] (
        p + q)[i].0 < n.child_hi(b - 1, hi) by {
            if i < p.len() {
                assert((p + q)[i] == p[i]);
            } else {
                assert((p + q)[i] == q[i - p.len()]);
            }
        }
    }
}

/// The entries of a node at height `h > 0` are those of the children before
/// child `i`, then those of child `i`, then those after it; the first lie
/// below the bounds of child `i`, the last above.
proof fn lemma_route(n: Node, h: nat, d: nat, lo: int, hi: int, under: int, over: int, i: int)
    requires
        h > 0,
        n.wf_rec(h, d, lo, hi, under, over),
        0 <= i < n.children@.len(),
    ensures
        n.entries(h) == entries_of(n.children@.take(i), (h - 1) as nat) + n.children@[i].entries(
            (h - 1) as nat,
        ) + entries_of(n.children@.skip(i + 1), (h - 1) as nat),
        forall|j: int|
            0 <= j < entries_of(n.children@.take(i), (h - 1) as nat).len() ==> #[trigger] entries_of(
                n.children@.take(i),
                (h - 1) as nat,
            )[j].0 < n.child_lo(i, lo),
        forall|j: int|
            0 <= j < entries_of(n.children@.skip(i + 1), (h - 1) as nat).len() ==> #[trigger] entries_of(
                n.children@.skip(i + 1),
                (h - 1) as nat,
            )[j].0 >= n.child_hi(i, hi),
{
    let cs = n.children@;
    let g = (h - 1) as nat;
    lemma_entries_of_pieces(cs, i, g);
    if i > 0 {
        lemma_children_range(n, g, d, lo, hi, under, over, 0, i);
        assert(cs.take(i) =~= cs.subrange(0, i));
        assert(n.child_hi(i - 1, hi) == n.child_lo(i, lo));
    } else {
        assert(cs.take(i) =~= Seq::<Node>::empty());
        assert(entries_of(Seq::<Node>::empty(), g) == Seq::<Entry>::empty());
    }
    if i + 1 < cs.len() {
        lemma_children_range(n, g, d, lo, hi, under, over, i + 1, cs.len() as int);
        assert(cs.skip(i + 1) =~= cs.subrange(i + 1, cs.len() as int));
        assert(n.child_hi(i, hi) == n.child_lo(i + 1, lo));
    } else {
        assert(cs.skip(i + 1) =~= Seq::<Node>::empty());
        assert(entries_of(Seq::<Node>::empty(), g) == Seq::<Entry>::empty());
    }
}

/// A lookup of `k` in `p + c + s` where every key of `p` is below `k` and
/// every key of `s` above it is a lookup in `c`.
proof fn lemma_lookup_middle(p: Seq<Entry>, c: Seq<Entry>, s: Seq<Entry>, k: u32)
    requires
        sorted_by_key(p + c + s),
        forall|j: int| 0 <= j < p.len() ==> #[trigger] p[j].0 < k,
        forall|j: int| 0 <= j < s.len() ==> #[trigger] s[j].0 > k,
    ensures
        sorted_by_key(c),
        lookup(to_map(p + c + s), k) == lookup(to_map(c), k),
{
    let t = p + c + s;
    assert forall|i: int, j: int| 0 <= i < j < c.len() implies #[trigger] c[i].0 < #[trigger] c[j].0 by {
        assert(t[p.len() + i] == c[i]);
        assert(t[p.len() + j] == c[j]);
    }
    if has_key(c, k) {
        let i = choose|i: int| 0 <= i < c.len() && #[trigger] c[i].0 == k;
        assert(t[p.len() + i] == c[i]);
        crate::model::lemma_to_map_at(t, p.len() + i);
        crate::model::lemma_to_map_at(c, i);
    } else if has_key(t, k) {
        let i = choose|i: int| 0 <= i < t.len() && #[trigger] t[i].0 == k;
        if i < p.len() {
            assert(t[i] == p[i]);
        } else if i < p.len() + c.len() {
            assert(t[i] == c[i - p.len()]);
        } else {
            assert(t[i] == s[i - p.len() - c.len()]);
        }
    }
}

/// The number of keys below `key` in ascending `keys`.
fn lower_bound(keys: &Vec<u32>, key: u32) -> (r: usize)
    requires
        strictly_ascending(keys@),
    ensures
        r <= keys@.len(),
        forall|j: int| 0 <= j < r ==> #[trigger] keys@[j] < key,
        forall|j: int| r <= j < keys@.len() ==> #[trigger] keys@[j] >= key,
{
    let mut a: usize = 0;
    let mut b: usize = keys.len();
    while a < b
        invariant
            a <= b <= keys@.len(),
            strictly_ascending(keys@),
            forall|j: int| 0 <= j < a ==> #[trigger] keys@[j] < key,
            forall|j: int| b <= j < keys@.len() ==> #[trigger] keys@[j] >= key,
        decreases b - a,
    {
        let mid: usize = a + (b - a) / 2;
        if keys[mid] < key {
            a = mid + 1;
        } else {
            b = mid;
        }
    }
    a
}

/// The number of keys at or below `key` in ascending `keys`: the child of an
/// internal node that `key` is routed to.
fn upper_bound(keys: &Vec<u32>, key: u32) -> (r: usize)
    requires
        strictly_ascending(keys@),
    ensures
        r <= keys@.len(),
        forall|j: int| 0 <= j < r ==> #[trigger] keys@[j] <= key,
        forall|j: int| r <= j < keys@.len() ==> #[trigger] keys@[j] > key,
{
    let mut a: usize = 0;
    let mut b: usize = keys.len();
    while a < b
        invariant
            a <= b <= keys@.len(),
            strictly_ascending(keys@),
            forall|j: int| 0 <= j < a ==> #[trigger] keys@[j] <= key,
            forall|j: int| b <= j < keys@.len() ==> #[trigger] keys@[j] > key,
        decreases b - a,
    {
        let mid: usize = a + (b - a) / 2;
        if keys[mid] <= key {
            a = mid + 1;
        } else {
            b = mid;
        }
    }
    a
}

impl Node {
    /// Looks `key` up in the subtree rooted here.
    pub fn search(
        &self,
        key: &u32,
        Ghost(h): Ghost<nat>,
        Ghost(d): Ghost<nat>,
        Ghost(lo): Ghost<int>,
        Ghost(hi): Ghost<int>,
    ) -> (r: Option<&u32>)
        requires
            self.wf_rec(h, d, lo, hi, -1, -1),
        ensures
            copied(r) == lookup(to_map(self.entries(h)), *key),
        decreases h,
    {
        proof {
            lemma_wf_entries(*self, h, d, lo, hi, -1, -1);
        }
        if self.is_leaf {
            let i = lower_bound(&self.keys, *key);
            let ghost es = self.entries(h);
            if i < self.keys.len() && self.keys[i] == *key {
                proof {
                    crate::model::lemma_to_map_at(es, i as int);
                }
                Some(&self.values[i])
            } else {
                proof {
                    if has_key(es, *key) {
                        let j = choose|j: int| 0 <= j < es.len() && #[trigger] es[j].0 == *key;
                        assert(self.keys@[j] == *key);
                    }
                }
                None
            }
        } else {
            let i = upper_bound(&self.keys, *key);
            proof {
                let ghost g = (h - 1) as nat;
                lemma_route(*self, h, d, lo, hi, -1, -1, i as int);
                let ghost p = entries_of(self.children@.take(i as int), g);
                let ghost s = entries_of(self.children@.skip(i as int + 1), g);
                assert forall|j: int| 0 <= j < p.len() implies #[trigger] p[j].0 < *key by {
                    assert(p[j].0 < self.child_lo(i as int, lo));
                }
                assert forall|j: int| 0 <= j < s.len() implies #[trigger] s[j].0 > *key by {
                    assert(s[j].0 >= self.child_hi(i as int, hi));
                }
                lemma_lookup_middle(p, self.children@[i as int].entries(g), s, *key);
            }
            self.children[i].search(
                key,
                Ghost((h - 1) as nat),
                Ghost(d),
                Ghost(self.child_lo(i as int, lo)),
                Ghost(self.child_hi(i as int, hi)),
            )
        }
    }
}

/// The two halves of an overfull leaf are leaves, split at the first key of
/// the right half.
proof fn lemma_split_leaf(c: Node, l: Node, r: Node, d: nat, clo: int, chi: int, s: int)
    requires
        d >= 3,
        c.wf_rec(0, d, clo, chi, -1, -1),
        c.keys@.len() == d,
        s == (d + 1) / 2,
        l.keys@ == c.keys@.subrange(0, s),
        l.values@ == c.values@.subrange(0, s),
        r.keys@ == c.keys@.subrange(s, d as int),
        r.values@ == c.values@.subrange(s, d as int),
        l.is_leaf && r.is_leaf,
        l.children@.len() == 0 && r.children@.len() == 0,
    ensures
        clo < r.keys@[0] < chi,
        l.wf_rec(0, d, clo, r.keys@[0] as int, -1, -1),
        r.wf_rec(0, d, r.keys@[0] as int, chi, -1, -1),
        min_keys(d) <= l.keys@.len() < d,
        min_keys(d) <= r.keys@.len() < d,
        l.entries(0) + r.entries(0) == c.entries(0),
{
    let sep = r.keys@[0];
    assert(c.keys@[0] < c.keys@[s]);
    assert(l.entries(0) + r.entries(0) =~= c.entries(0));
}

/// The two halves of an overfull internal node, split around its key at `m`,
/// which moves up.
proof fn lemma_split_internal(
    c: Node,
    l: Node,
    r: Node,
    g: nat,
    d: nat,
    clo: int,
    chi: int,
    m: int,
)
    requires
        d >= 3,
        g > 0,
        c.wf_rec(g, d, clo, chi, -1, -1),
        c.keys@.len() == d,
        m == d / 2,
        l.keys@ == c.keys@.subrange(0, m),
        l.children@ == c.children@.subrange(0, m + 1),
        r.keys@ == c.keys@.subrange(m + 1, d as int),
        r.children@ == c.children@.subrange(m + 1, d + 1 as int),
        !l.is_leaf && !r.is_leaf,
    ensures
        clo < c.keys@[m] < chi,
        l.wf_rec(g, d, clo, c.keys@[m] as int, -1, -1),
        r.wf_rec(g, d, c.keys@[m] as int, chi, -1, -1),
        min_keys(d) <= l.keys@.len() < d,
        min_keys(d) <= r.keys@.len() < d,
        l.entries(g) + r.entries(g) == c.entries(g),
{
    let sep = c.keys@[m] as int;
    assert(c.keys@[0] <= c.keys@[m]);
    assert forall|j: int| 0 <= j < l.children@.len() implies {
        let x = #[trigger] l.children@[j];
        &&& x.wf_rec((g - 1) as nat, d, l.child_lo(j, clo), l.child_hi(j, sep), -1, -1)
        &&& x.keys@.len() < d
        &&& x.keys@.len() >= min_keys(d)
    } by {
        assert(l.children@[j] == c.children@[j]);
        assert(l.child_lo(j, clo) == c.child_lo(j, clo));
        assert(l.child_hi(j, sep) == c.child_hi(j, chi));
    }
    assert forall|j: int| 0 <= j < r.children@.len() implies {
        let x = #[trigger] r.children@[j];
        &&& x.wf_rec((g - 1) as nat, d, r.child_lo(j, sep), r.child_hi(j, chi), -1, -1)
        &&& x.keys@.len() < d
        &&& x.keys@.len() >= min_keys(d)
    } by {
        assert(r.children@[j] == c.children@[m + 1 + j]);
        assert(r.child_lo(j, sep) == c.child_lo(m + 1 + j, clo));
        assert(r.child_hi(j, chi) == c.child_hi(m + 1 + j, chi));
    }
    assert(c.children@ =~= l.children@ + r.children@);
    lemma_entries_of_concat(l.children@, r.children@, (g - 1) as nat);
}

/// Replacing child `i` by two children split at `sep`, and inserting `sep`
/// among the keys, gives a well-formed node with the same entries.
#[verifier::rlimit(40)]
proof fn lemma_split_parent(
    o: Node,
    n: Node,
    h: nat,
    d: nat,
    lo: int,
    hi: int,
    i: int,
    l: Node,
    r: Node,
    sep: u32,
)
    requires
        h > 0,
        o.wf_rec(h, d, lo, hi, -1, i),
        0 <= i < o.children@.len(),
        n.keys@ == o.keys@.insert(i, sep),
        n.children@ == o.children@.update(i, l).insert(i + 1, r),
        n.is_leaf == o.is_leaf,
        o.child_lo(i, lo) < sep < o.child_hi(i, hi),
        l.wf_rec((h - 1) as nat, d, o.child_lo(i, lo), sep as int, -1, -1),
        r.wf_rec((h - 1) as nat, d, sep as int, o.child_hi(i, hi), -1, -1),
        min_keys(d) <= l.keys@.len() < d,
        min_keys(d) <= r.keys@.len() < d,
        l.entries((h - 1) as nat) + r.entries((h - 1) as nat) == o.children@[i].entries(
            (h - 1) as nat,
        ),
    ensures
        n.wf_rec(h, d, lo, hi, -1, -1),
        n.entries(h) == o.entries(h),
{
    let g = (h - 1) as nat;
    assert(lo <= o.child_lo(i, lo));
    assert(o.child_hi(i, hi) <= hi);
    assert forall|a: int, b: int|
        0 <= a < b < n.keys@.len() implies #[trigger] n.keys@[a] < #[trigger] n.keys@[b] by {
        if b < i {
        } else if b == i {
            assert(o.keys@[a] <= o.child_lo(i, lo));
        } else if a == i {
            assert(o.keys@[b - 1] >= o.child_hi(i, hi));
        } else if a < i {
            assert(n.keys@[b] == o.keys@[b - 1]);
        } else {
            assert(n.keys@[a] == o.keys@[a - 1]);
            assert(n.keys@[b] == o.keys@[b - 1]);
        }
    }
    assert forall|j: int| 0 <= j < n.children@.len() implies {
        let x = #[trigger] n.children@[j];
        &&& x.wf_rec(g, d, n.child_lo(j, lo), n.child_hi(j, hi), -1, -1)
        &&& x.keys@.len() < d
        &&& x.keys@.len() >= min_keys(d)
    } by {
        if j < i {
            assert(n.children@[j] == o.children@[j]);
            assert(n.child_lo(j, lo) == o.child_lo(j, lo));
            assert(n.child_hi(j, hi) == o.child_hi(j, hi));
        } else if j == i {
            assert(n.child_lo(j, lo) == o.child_lo(i, lo));
        } else if j == i + 1 {
            assert(n.child_hi(j, hi) == o.child_hi(i, hi));
        } else {
            assert(n.children@[j] == o.children@[j - 1]);
            assert(n.child_lo(j, lo) == o.child_lo(j - 1, lo));
            assert(n.child_hi(j, hi) == o.child_hi(j - 1, hi));
        }
    }
    lemma_entries_of_merge(n.children@, i, o.children@[i], g);
    assert(n.children@.update(i, o.children@[i]).remove(i + 1) =~= o.children@);
}

/// Replacing child `i` by a subtree with the same bounds keeps the node well
/// formed, with the new child's entries in place of the old ones.
proof fn lemma_replace_child(
    o: Node,
    n: Node,
    h: nat,
    d: nat,
    lo: int,
    hi: int,
    i: int,
    c: Node,
    under: int,
    over: int,
)
    requires
        h > 0,
        o.wf_rec(h, d, lo, hi, -1, -1),
        0 <= i < o.children@.len(),
        under == -1 || under == i,
        over == -1 || over == i,
        n.keys@ == o.keys@,
        n.is_leaf == o.is_leaf,
        n.children@ == o.children@.update(i, c),
        c.wf_rec((h - 1) as nat, d, o.child_lo(i, lo), o.child_hi(i, hi), -1, -1),
        c.keys@.len() < d + (if i == over { 1int } else { 0int }),
        c.keys@.len() + (if i == under { 1int } else { 0int }) >= min_keys(d),
    ensures
        n.wf_rec(h, d, lo, hi, under, over),
        n.entries(h) == entries_of(o.children@.take(i), (h - 1) as nat) + c.entries((h - 1) as nat)
            + entries_of(o.children@.skip(i + 1), (h - 1) as nat),
{
    let g = (h - 1) as nat;
    assert forall|j: int| 0 <= j < n.children@.len() implies {
        let x = #[trigger] n.children@[j];
        &&& x.wf_rec(g, d, n.child_lo(j, lo), n.child_hi(j, hi), -1, -1)
        &&& x.keys@.len() < d + (if j == over { 1int } else { 0int })
        &&& x.keys@.len() + (if j == under { 1int } else { 0int }) >= min_keys(d)
    } by {
        if j != i {
            assert(n.children@[j] == o.children@[j]);
        }
        assert(n.child_lo(j, lo) == o.child_lo(j, lo));
        assert(n.child_hi(j, hi) == o.child_hi(j, hi));
    }
    lemma_entries_of_pieces(n.children@, i, g);
    assert(n.children@.take(i) =~= o.children@.take(i));
    assert(n.children@.skip(i + 1) =~= o.children@.skip(i + 1));
}

/// An empty leaf is a well-formed tree of height zero without entries.
pub proof fn lemma_empty_leaf(n: Node, d: nat, lo: int, hi: int)
    requires
        n.is_empty_leaf(),
        d >= 1,
    ensures
        n.wf_node(0, d, lo, hi),
        n.entries(0) == Seq::<Entry>::empty(),
{
    assert(n.entries(0) =~= Seq::<Entry>::empty());
}

/// The lower bound of child `t` of a node with separators `keys` and lower
/// bound `lo`.
pub open spec fn seq_lo(keys: Seq<u32>, t: int, lo: int) -> int {
    if t == 0 {
        lo
    } else {
        keys[t - 1] as int
    }
}

/// The upper bound of child `t` of a node with separators `keys` and upper
/// bound `hi`.
pub open spec fn seq_hi(keys: Seq<u32>, t: int, hi: int) -> int {
    if t == keys.len() {
        hi
    } else {
        keys[t] as int
    }
}

/// The keys `k` and children `cs` of two joined internal nodes make a
/// well-formed node within `(a, b)`, whatever its own key count.
spec fn joined_ok(k: Seq<u32>, cs: Seq<Node>, g: nat, d: nat, a: int, b: int) -> bool {
    &&& cs.len() == k.len() + 1
    &&& strictly_ascending(k)
    &&& forall|t: int| 0 <= t < k.len() ==> a < #[trigger] k[t] < b
    &&& forall|t: int|
        0 <= t < cs.len() ==> {
            let c = #[trigger] cs[t];
            &&& c.wf_rec((g - 1) as nat, d, seq_lo(k, t, a), seq_hi(k, t, b), -1, -1)
            &&& c.key_count() < d
            &&& c.key_count() >= min_keys(d)
        }
}

/// Two neighbouring internal nodes `x` and `y`, separated by `s`, read as one
/// node with the keys of `x`, then `s`, then the keys of `y`, and the children
/// of both: its keys ascend within `(a, b)` and each child keeps its bounds.
proof fn lemma_joined(x: Node, y: Node, s: u32, g: nat, d: nat, a: int, b: int)
    requires
        g > 0,
        a < s < b,
        x.wf_rec(g, d, a, s as int, -1, -1),
        y.wf_rec(g, d, s as int, b, -1, -1),
    ensures
        joined_ok(x.keys@ + seq![s] + y.keys@, x.children@ + y.children@, g, d, a, b),
{
    let k = x.keys@ + seq![s] + y.keys@;
    let cs = x.children@ + y.children@;
    let nx = x.keys@.len() as int;
    assert forall|i: int, j: int| 0 <= i < j < k.len() implies #[trigger] k[i] < #[trigger] k[j] by {
        if j < nx {
            assert(k[i] == x.keys@[i] && k[j] == x.keys@[j]);
        } else if j == nx {
            assert(k[i] == x.keys@[i]);
        } else if i < nx {
            assert(k[i] == x.keys@[i] && k[j] == y.keys@[j - nx - 1]);
        } else if i == nx {
            assert(k[j] == y.keys@[j - nx - 1]);
        } else {
            assert(k[i] == y.keys@[i - nx - 1] && k[j] == y.keys@[j - nx - 1]);
        }
    }
    assert forall|t: int| 0 <= t < k.len() implies a < #[trigger] k[t] < b by {
        if t < nx {
            assert(k[t] == x.keys@[t]);
        } else if t > nx {
            assert(k[t] == y.keys@[t - nx - 1]);
        }
    }
    assert forall|t: int| 0 <= t < cs.len() implies {
        let c = #[trigger] cs[t];
        &&& c.wf_rec((g - 1) as nat, d, seq_lo(k, t, a), seq_hi(k, t, b), -1, -1)
        &&& c.keys@.len() < d
        &&& c.keys@.len() >= min_keys(d)
    } by {
        if t <= nx {
            assert(cs[t] == x.children@[t]);
            assert(seq_lo(k, t, a) == x.child_lo(t, a));
            assert(seq_hi(k, t, b) == x.child_hi(t, s as int));
        } else {
            let u = t - nx - 1;
            assert(cs[t] == y.children@[u]);
            assert(seq_lo(k, t, a) == y.child_lo(u, s as int));
            assert(seq_hi(k, t, b) == y.child_hi(u, b));
        }
    }
}

/// The first `p` keys and `p + 1` children of a joined node form a
/// well-formed node below the key at `p`.
proof fn lemma_joined_prefix(k: Seq<u32>, cs: Seq<Node>, x2: Node, p: int, g: nat, d: nat, a: int, b: int)
    requires
        g > 0,
        joined_ok(k, cs, g, d, a, b),
        0 <= p < k.len(),
        !x2.is_leaf,
        x2.keys@ == k.take(p),
        x2.children@ == cs.take(p + 1),
    ensures
        a < k[p] < b,
        x2.wf_rec(g, d, a, k[p] as int, -1, -1),
{
    let s2 = k[p];
    assert forall|i: int, j: int| 0 <= i < j < x2.keys@.len() implies #[trigger] x2.keys@[i] < #[trigger] x2.keys@[j] by {
        assert(x2.keys@[i] == k[i] && x2.keys@[j] == k[j]);
    }
    assert forall|j: int| 0 <= j < x2.keys@.len() implies a < #[trigger] x2.keys@[j] < s2 by {
        assert(x2.keys@[j] == k[j]);
    }
    assert forall|j: int| 0 <= j < x2.children@.len() implies {
        let c = #[trigger] x2.children@[j];
        &&& c.wf_rec((g - 1) as nat, d, x2.child_lo(j, a), x2.child_hi(j, s2 as int), -1, -1)
        &&& c.keys@.len() < d
        &&& c.keys@.len() >= min_keys(d)
    } by {
        assert(x2.children@[j] == cs[j]);
        assert(x2.child_lo(j, a) == seq_lo(k, j, a));
        assert(x2.child_hi(j, s2 as int) == seq_hi(k, j, b));
    }
}

/// The keys after `p` and the children after `p + 1` of a joined node form a
/// well-formed node above the key at `p`.
proof fn lemma_joined_suffix(k: Seq<u32>, cs: Seq<Node>, y2: Node, p: int, g: nat, d: nat, a: int, b: int)
    requires
        g > 0,
        joined_ok(k, cs, g, d, a, b),
        0 <= p < k.len(),
        !y2.is_leaf,
        y2.keys@ == k.skip(p + 1),
        y2.children@ == cs.skip(p + 1),
    ensures
        y2.wf_rec(g, d, k[p] as int, b, -1, -1),
{
    let s2 = k[p];
    assert forall|i: int, j: int| 0 <= i < j < y2.keys@.len() implies #[trigger] y2.keys@[i] < #[trigger] y2.keys@[j] by {
        assert(y2.keys@[i] == k[p + 1 + i] && y2.keys@[j] == k[p + 1 + j]);
    }
    assert forall|j: int| 0 <= j < y2.keys@.len() implies s2 < #[trigger] y2.keys@[j] < b by {
        assert(y2.keys@[j] == k[p + 1 + j]);
    }
    assert forall|j: int| 0 <= j < y2.children@.len() implies {
        let c = #[trigger] y2.children@[j];
        &&& c.wf_rec((g - 1) as nat, d, y2.child_lo(j, s2 as int), y2.child_hi(j, b), -1, -1)
        &&& c.keys@.len() < d
        &&& c.keys@.len() >= min_keys(d)
    } by {
        assert(y2.children@[j] == cs[p + 1 + j]);
        assert(y2.child_lo(j, s2 as int) == seq_lo(k, p + 1 + j, a));
        assert(y2.child_hi(j, b) == seq_hi(k, p + 1 + j, b));
    }
}

/// Internal nodes that share out the keys, the separator and the children of
/// two neighbours `x` and `y` in the same order are well formed around the new
/// separator `s2`, and hold the same entries between them.
proof fn lemma_redistribute_internal(
    x: Node,
    y: Node,
    s: u32,
    x2: Node,
    y2: Node,
    s2: u32,
    g: nat,
    d: nat,
    a: int,
    b: int,
)
    requires
        g > 0,
        a < s < b,
        x.wf_rec(g, d, a, s as int, -1, -1),
        y.wf_rec(g, d, s as int, b, -1, -1),
        !x2.is_leaf && !y2.is_leaf,
        x.keys@ + seq![s] + y.keys@ == x2.keys@ + seq![s2] + y2.keys@,
        x.children@ + y.children@ == x2.children@ + y2.children@,
        x2.children@.len() == x2.keys@.len() + 1,
    ensures
        a < s2 < b,
        x2.wf_rec(g, d, a, s2 as int, -1, -1),
        y2.wf_rec(g, d, s2 as int, b, -1, -1),
        x2.entries(g) + y2.entries(g) == x.entries(g) + y.entries(g),
{
    lemma_joined(x, y, s, g, d, a, b);
    let k = x.keys@ + seq![s] + y.keys@;
    let cs = x.children@ + y.children@;
    let p = x2.keys@.len() as int;
    let k2 = x2.keys@ + seq![s2] + y2.keys@;
    let cs2 = x2.children@ + y2.children@;
    assert(k2[p] == s2);
    assert(x2.keys@ =~= k2.take(p));
    assert(y2.keys@ =~= k2.skip(p + 1));
    assert(x2.children@ =~= cs2.take(p + 1));
    assert(y2.children@ =~= cs2.skip(p + 1));
    lemma_joined_prefix(k, cs, x2, p, g, d, a, b);
    lemma_joined_suffix(k, cs, y2, p, g, d, a, b);
    lemma_entries_of_concat(x.children@, y.children@, (g - 1) as nat);
    lemma_entries_of_concat(x2.children@, y2.children@, (g - 1) as nat);
}

/// Two neighbouring internal nodes and the separator between them, joined
/// into one node, give a well-formed node with the entries of both.
proof fn lemma_join_internal(x: Node, y: Node, s: u32, m: Node, g: nat, d: nat, a: int, b: int)
    requires
        g > 0,
        a < s < b,
        x.wf_rec(g, d, a, s as int, -1, -1),
        y.wf_rec(g, d, s as int, b, -1, -1),
        !m.is_leaf,
        m.keys@ == x.keys@ + seq![s] + y.keys@,
        m.children@ == x.children@ + y.children@,
    ensures
        m.wf_rec(g, d, a, b, -1, -1),
        m.entries(g) == x.entries(g) + y.entries(g),
{
    lemma_joined(x, y, s, g, d, a, b);
    assert forall|j: int| 0 <= j < m.children@.len() implies {
        let c = #[trigger] m.children@[j];
        &&& c.wf_rec((g - 1) as nat, d, m.child_lo(j, a), m.child_hi(j, b), -1, -1)
        &&& c.keys@.len() < d
        &&& c.keys@.len() >= min_keys(d)
    } by {
        assert(m.child_lo(j, a) == seq_lo(m.keys@, j, a));
        assert(m.child_hi(j, b) == seq_hi(m.keys@, j, b));
    }
    lemma_entries_of_concat(x.children@, y.children@, (g - 1) as nat);
}

/// Leaves that share out the entries of two neighbouring leaves in the same
/// order, each keeping at least one, are well formed around the first key of
/// the second.
proof fn lemma_redistribute_leaf(x: Node, y: Node, s: int, x2: Node, y2: Node, d: nat, a: int, b: int)
    requires
        a < s < b,
        x.wf_rec(0, d, a, s, -1, -1),
        y.wf_rec(0, d, s, b, -1, -1),
        x2.is_leaf && y2.is_leaf,
        x2.children@.len() == 0 && y2.children@.len() == 0,
        x2.keys@.len() == x2.values@.len(),
        x.keys@ + y.keys@ == x2.keys@ + y2.keys@,
        x.values@ + y.values@ == x2.values@ + y2.values@,
        x2.keys@.len() >= 1,
        y2.keys@.len() >= 1,
    ensures
        a < y2.keys@[0] < b,
        x2.wf_rec(0, d, a, y2.keys@[0] as int, -1, -1),
        y2.wf_rec(0, d, y2.keys@[0] as int, b, -1, -1),
        x2.entries(0) + y2.entries(0) == x.entries(0) + y.entries(0),
{
    let k = x.keys@ + y.keys@;
    let nx = x.keys@.len() as int;
    let p = x2.keys@.len() as int;
    assert forall|i: int, j: int| 0 <= i < j < k.len() implies #[trigger] k[i] < #[trigger] k[j] by {
        if j < nx {
            assert(k[i] == x.keys@[i] && k[j] == x.keys@[j]);
        } else if i < nx {
            assert(k[i] == x.keys@[i] && k[j] == y.keys@[j - nx]);
        } else {
            assert(k[i] == y.keys@[i - nx] && k[j] == y.keys@[j - nx]);
        }
    }
    assert forall|t: int| 0 <= t < k.len() implies a <= #[trigger] k[t] < b by {
        if t < nx {
            assert(k[t] == x.keys@[t]);
        } else {
            assert(k[t] == y.keys@[t - nx]);
        }
    }
    assert forall|j: int| 0 <= j < x2.keys@.len() implies #[trigger] x2.keys@[j] == k[j] by {
        assert(k[j] == (x2.keys@ + y2.keys@)[j]);
    }
    assert forall|j: int| 0 <= j < y2.keys@.len() implies #[trigger] y2.keys@[j] == k[p + j] by {
        assert(k[p + j] == (x2.keys@ + y2.keys@)[p + j]);
    }
    assert(k[0] < k[p]);
    assert(x.shape_ok(0, a, s) && y.shape_ok(0, s, b));
    assert(x.values@.len() == x.keys@.len() && y.values@.len() == y.keys@.len());
    assert((x.keys@ + y.keys@).len() == (x2.keys@ + y2.keys@).len());
    assert((x.values@ + y.values@).len() == (x2.values@ + y2.values@).len());
    assert((x.values@ + y.values@).len() == x.values@.len() + y.values@.len());
    assert((x2.values@ + y2.values@).len() == x2.values@.len() + y2.values@.len());
    assert((x2.keys@ + y2.keys@).len() == x2.keys@.len() + y2.keys@.len());
    assert((x.keys@ + y.keys@).len() == x.keys@.len() + y.keys@.len());
    assert(y2.values@.len() == y2.keys@.len());
    assert(x2.entries(0) + y2.entries(0) =~= x.entries(0) + y.entries(0)) by {
        let e = x.entries(0) + y.entries(0);
        let e2 = x2.entries(0) + y2.entries(0);
        assert forall|t: int| 0 <= t < e.len() implies e[t] == e2[t] by {
            assert((x.values@ + y.values@)[t] == (x2.values@ + y2.values@)[t]);
            assert((x.keys@ + y.keys@)[t] == (x2.keys@ + y2.keys@)[t]);
            if t < nx {
                assert(e[t] == (x.keys@[t], x.values@[t]));
            } else {
                assert(e[t] == (y.keys@[t - nx], y.values@[t - nx]));
            }
            assert(e[t] == ((x.keys@ + y.keys@)[t], (x.values@ + y.values@)[t]));
            if t < p {
                assert(e2[t] == (x2.keys@[t], x2.values@[t]));
            } else {
                assert(e2[t] == (y2.keys@[t - p], y2.values@[t - p]));
            }
            assert(e2[t] == ((x2.keys@ + y2.keys@)[t], (x2.values@ + y2.values@)[t]));
        }
    }
}

/// Two neighbouring leaves joined into one give a well-formed leaf with the
/// entries of both.
proof fn lemma_join_leaf(x: Node, y: Node, s: int, m: Node, d: nat, a: int, b: int)
    requires
        a < s < b,
        x.wf_rec(0, d, a, s, -1, -1),
        y.wf_rec(0, d, s, b, -1, -1),
        m.is_leaf,
        m.children@.len() == 0,
        m.keys@ == x.keys@ + y.keys@,
        m.values@ == x.values@ + y.values@,
    ensures
        m.wf_rec(0, d, a, b, -1, -1),
        m.entries(0) == x.entries(0) + y.entries(0),
{
    let k = m.keys@;
    let nx = x.keys@.len() as int;
    assert forall|i: int, j: int| 0 <= i < j < k.len() implies #[trigger] k[i] < #[trigger] k[j] by {
        if j < nx {
            assert(k[i] == x.keys@[i] && k[j] == x.keys@[j]);
        } else if i < nx {
            assert(k[i] == x.keys@[i] && k[j] == y.keys@[j - nx]);
        } else {
            assert(k[i] == y.keys@[i - nx] && k[j] == y.keys@[j - nx]);
        }
    }
    assert forall|t: int| 0 <= t < k.len() implies a <= #[trigger] k[t] < b by {
        if t < nx {
            assert(k[t] == x.keys@[t]);
        } else {
            assert(k[t] == y.keys@[t - nx]);
        }
    }
    assert(m.entries(0) =~= x.entries(0) + y.entries(0));
}

/// Replacing two neighbouring children by two others with the same entries
/// between them, split at a new separator `s2`, keeps the node well formed.
#[verifier::rlimit(40)]
proof fn lemma_parent_replace_two(
    o: Node,
    n: Node,
    h: nat,
    d: nat,
    lo: int,
    hi: int,
    i: int,
    a: Node,
    b: Node,
    s2: u32,
    under: int,
)
    requires
        h > 0,
        o.wf_rec(h, d, lo, hi, under, -1),
        under == i || under == i + 1,
        0 <= i,
        i + 1 < o.children@.len(),
        n.keys@ == o.keys@.update(i, s2),
        n.children@ == o.children@.update(i, a).update(i + 1, b),
        n.is_leaf == o.is_leaf,
        o.child_lo(i, lo) < s2 < o.child_hi(i + 1, hi),
        a.wf_rec((h - 1) as nat, d, o.child_lo(i, lo), s2 as int, -1, -1),
        b.wf_rec((h - 1) as nat, d, s2 as int, o.child_hi(i + 1, hi), -1, -1),
        min_keys(d) <= a.keys@.len() < d,
        min_keys(d) <= b.keys@.len() < d,
        a.entries((h - 1) as nat) + b.entries((h - 1) as nat) == o.children@[i].entries(
            (h - 1) as nat,
        ) + o.children@[i + 1].entries((h - 1) as nat),
    ensures
        n.wf_rec(h, d, lo, hi, -1, -1),
        n.entries(h) == o.entries(h),
{
    let g = (h - 1) as nat;
    assert(lo <= o.child_lo(i, lo));
    assert(o.child_hi(i + 1, hi) <= hi);
    assert forall|x: int, y: int|
        0 <= x < y < n.keys@.len() implies #[trigger] n.keys@[x] < #[trigger] n.keys@[y] by {
        if x == i {
            assert(o.keys@[y] >= o.child_hi(i + 1, hi));
        } else if y == i {
            assert(o.keys@[x] <= o.child_lo(i, lo));
        }
    }
    assert forall|j: int| 0 <= j < n.children@.len() implies {
        let x = #[trigger] n.children@[j];
        &&& x.wf_rec(g, d, n.child_lo(j, lo), n.child_hi(j, hi), -1, -1)
        &&& x.keys@.len() < d
        &&& x.keys@.len() >= min_keys(d)
    } by {
        if j != i && j != i + 1 {
            assert(n.children@[j] == o.children@[j]);
            assert(n.child_lo(j, lo) == o.child_lo(j, lo));
            assert(n.child_hi(j, hi) == o.child_hi(j, hi));
        } else if j == i {
            assert(n.child_lo(j, lo) == o.child_lo(i, lo));
        } else {
            assert(n.child_hi(j, hi) == o.child_hi(i + 1, hi));
        }
    }
    lemma_entries_of_replace_two(o.children@, i, a, b, g);
}

/// Replacing two neighbouring children by one holding the entries of both,
/// and dropping the separator between them, keeps the node well formed.
#[verifier::rlimit(40)]
proof fn lemma_parent_merge(
    o: Node,
    n: Node,
    h: nat,
    d: nat,
    lo: int,
    hi: int,
    i: int,
    m: Node,
    under: int,
)
    requires
        h > 0,
        o.wf_rec(h, d, lo, hi, under, -1),
        under == i || under == i + 1,
        0 <= i,
        i + 1 < o.children@.len(),
        n.keys@ == o.keys@.remove(i),
        n.children@ == o.children@.update(i, m).remove(i + 1),
        n.is_leaf == o.is_leaf,
        m.wf_rec((h - 1) as nat, d, o.child_lo(i, lo), o.child_hi(i + 1, hi), -1, -1),
        min_keys(d) <= m.keys@.len() < d,
        m.entries((h - 1) as nat) == o.children@[i].entries((h - 1) as nat) + o.children@[i
            + 1].entries((h - 1) as nat),
    ensures
        n.wf_rec(h, d, lo, hi, -1, -1),
        n.entries(h) == o.entries(h),
{
    let g = (h - 1) as nat;
    assert forall|x: int, y: int|
        0 <= x < y < n.keys@.len() implies #[trigger] n.keys@[x] < #[trigger] n.keys@[y] by {
        if x < i {
            assert(n.keys@[x] == o.keys@[x]);
        } else {
            assert(n.keys@[x] == o.keys@[x + 1]);
        }
        if y < i {
            assert(n.keys@[y] == o.keys@[y]);
        } else {
            assert(n.keys@[y] == o.keys@[y + 1]);
        }
    }
    assert forall|j: int| 0 <= j < n.children@.len() implies {
        let x = #[trigger] n.children@[j];
        &&& x.wf_rec(g, d, n.child_lo(j, lo), n.child_hi(j, hi), -1, -1)
        &&& x.keys@.len() < d
        &&& x.keys@.len() >= min_keys(d)
    } by {
        if j < i {
            assert(n.children@[j] == o.children@[j]);
            assert(n.child_lo(j, lo) == o.child_lo(j, lo));
            assert(n.child_hi(j, hi) == o.child_hi(j, hi));
        } else if j == i {
            assert(n.child_lo(j, lo) == o.child_lo(i, lo));
            assert(n.child_hi(j, hi) == o.child_hi(i + 1, hi));
        } else {
            assert(n.children@[j] == o.children@[j + 1]);
            assert(n.child_lo(j, lo) == o.child_lo(j + 1, lo));
            assert(n.child_hi(j, hi) == o.child_hi(j + 1, hi));
        }
    }
    lemma_entries_of_merge(o.children@, i, m, g);
}

/// A node whose relaxed children are back within the bounds is well formed
/// without relaxation.
proof fn lemma_settle(n: Node, h: nat, d: nat, lo: int, hi: int, under: int, over: int)
    requires
        h > 0,
        n.wf_rec(h, d, lo, hi, under, over),
        0 <= under < n.children@.len() ==> n.children@[under].keys@.len() >= min_keys(d),
        0 <= over < n.children@.len() ==> n.children@[over].keys@.len() < d,
    ensures
        n.wf_rec(h, d, lo, hi, -1, -1),
{
    assert forall|j: int| 0 <= j < n.children@.len() implies {
        let x = #[trigger] n.children@[j];
        &&& x.wf_rec((h - 1) as nat, d, n.child_lo(j, lo), n.child_hi(j, hi), -1, -1)
        &&& x.keys@.len() < d
        &&& x.keys@.len() >= min_keys(d)
    } by {
        let x = n.children@[j];
        assert(x.keys@.len() < d + (if j == over { 1int } else { 0int }));
        assert(x.keys@.len() + (if j == under { 1int } else { 0int }) >= min_keys(d));
    }
}

/// A well-formed subtree that is not an empty leaf holds entries, the first
/// of which lies under its first child.
proof fn lemma_nonempty(n: Node, h: nat, d: nat, lo: int, hi: int)
    requires
        n.wf_rec(h, d, lo, hi, -1, -1),
        h == 0 ==> n.keys@.len() >= 1,
    ensures
        n.entries(h).len() >= 1,
        h > 0 ==> n.children@[0].entries((h - 1) as nat).len() >= 1 && n.entries(h)[0]
            == n.children@[0].entries((h - 1) as nat)[0],
    decreases h,
{
    if h > 0 {
        let g = (h - 1) as nat;
        let c = n.children@[0];
        assert(c.wf_rec(g, d, n.child_lo(0, lo), n.child_hi(0, hi), -1, -1));
        lemma_nonempty(c, g, d, n.child_lo(0, lo), n.child_hi(0, hi));
        lemma_entries_of_pieces(n.children@, 0, g);
        assert(n.children@.take(0) =~= Seq::<Node>::empty());
        assert(entries_of(Seq::<Node>::empty(), g) == Seq::<Entry>::empty());
        let rest = entries_of(n.children@.skip(1), g);
        assert(n.entries(h) == Seq::<Entry>::empty() + c.entries(g) + rest);
        assert(n.entries(h)[0] == c.entries(g)[0]);
    }
}

/// A subtree stays well formed under a higher lower bound that its first
/// entry still meets.
proof fn lemma_raise_lo(n: Node, h: nat, d: nat, lo: int, hi: int, lo2: int)
    requires
        n.wf_rec(h, d, lo, hi, -1, -1),
        h == 0 ==> n.keys@.len() >= 1,
        lo <= lo2,
        n.entries(h).len() >= 1,
        lo2 <= n.entries(h)[0].0,
    ensures
        n.wf_rec(h, d, lo2, hi, -1, -1),
    decreases h,
{
    if h == 0 {
        assert(n.entries(h)[0].0 == n.keys@[0]);
        assert forall|i: int| 0 <= i < n.keys@.len() implies lo2 <= #[trigger] n.keys@[i] < hi by {
            if i > 0 {
                assert(n.keys@[0] < n.keys@[i]);
            }
        }
    } else {
        let g = (h - 1) as nat;
        let c = n.children@[0];
        lemma_nonempty(n, h, d, lo, hi);
        assert(c.wf_rec(g, d, lo, n.child_hi(0, hi), -1, -1));
        lemma_wf_entries(c, g, d, lo, n.child_hi(0, hi), -1, -1);
        assert(c.entries(g)[0].0 < n.child_hi(0, hi));
        assert forall|i: int| 0 <= i < n.keys@.len() implies lo2 < #[trigger] n.keys@[i] < hi by {
            if i > 0 {
                assert(n.keys@[0] < n.keys@[i]);
            }
        }
        lemma_raise_lo(c, g, d, lo, n.child_hi(0, hi), lo2);
        assert forall|j: int| 0 <= j < n.children@.len() implies {
            let x = #[trigger] n.children@[j];
            &&& x.wf_rec(g, d, n.child_lo(j, lo2), n.child_hi(j, hi), -1, -1)
            &&& x.keys@.len() < d
            &&& x.keys@.len() >= min_keys(d)
        } by {
            if j > 0 {
                assert(n.child_lo(j, lo2) == n.child_lo(j, lo));
            }
        }
    }
}

/// A subtree stays well formed under a higher upper bound.
proof fn lemma_raise_hi(n: Node, h: nat, d: nat, lo: int, hi: int, hi2: int)
    requires
        n.wf_rec(h, d, lo, hi, -1, -1),
        hi <= hi2,
    ensures
        n.wf_rec(h, d, lo, hi2, -1, -1),
    decreases h,
{
    if h > 0 {
        let g = (h - 1) as nat;
        let last = n.keys@.len() as int;
        let c = n.children@[last];
        assert(c.wf_rec(g, d, n.child_lo(last, lo), hi, -1, -1));
        lemma_raise_hi(c, g, d, n.child_lo(last, lo), hi, hi2);
        assert forall|j: int| 0 <= j < n.children@.len() implies {
            let x = #[trigger] n.children@[j];
            &&& x.wf_rec(g, d, n.child_lo(j, lo), n.child_hi(j, hi2), -1, -1)
            &&& x.keys@.len() < d
            &&& x.keys@.len() >= min_keys(d)
        } by {
            if j < last {
                assert(n.child_hi(j, hi2) == n.child_hi(j, hi));
            }
        }
    }
}

/// `path` is a sequence of child positions that can be followed down from `n`.
pub closed spec fn is_path(n: Node, path: Seq<int>) -> bool
    decreases path.len(),
{
    path.len() == 0 || (0 <= path[0] < n.children@.len() && is_path(
        n.children@[path[0]],
        path.skip(1),
    ))
}

/// The node reached from `n` by following the child positions of `path`.
pub closed spec fn descend(n: Node, path: Seq<int>) -> Node
    decreases path.len(),
{
    if path.len() == 0 {
        n
    } else {
        descend(n.children@[path[0]], path.skip(1))
    }
}

/// In a well-formed subtree of height `h`, a node reached by a path is a leaf
/// exactly at depth `h`; a node below the top holds between `min_keys(d)` and
/// `d - 1` keys; an internal node has one more child than keys.
pub proof fn lemma_node_on_path(n: Node, h: nat, d: nat, lo: int, hi: int, path: Seq<int>)
    requires
        n.wf_rec(h, d, lo, hi, -1, -1),
        is_path(n, path),
    ensures
        path.len() <= h,
        descend(n, path).leaf() <==> path.len() == h,
        !descend(n, path).leaf() ==> descend(n, path).child_count() == descend(n, path).key_count()
            + 1,
        path.len() == 0 ==> descend(n, path) == n,
        path.len() > 0 ==> min_keys(d) <= descend(n, path).key_count() < d,
    decreases path.len(),
{
    lemma_wf_entries(n, h, d, lo, hi, -1, -1);
    if path.len() > 0 {
        let j = path[0];
        let c = n.children@[j];
        assert(h > 0);
        assert(c.wf_rec((h - 1) as nat, d, n.child_lo(j, lo), n.child_hi(j, hi), -1, -1));
        lemma_node_on_path(c, (h - 1) as nat, d, n.child_lo(j, lo), n.child_hi(j, hi), path.skip(1));
        if path.len() == 1 {
            assert(path.skip(1).len() == 0);
        }
    }
}

/// No node reached from `n` by any path holds `key` among its own keys.
pub open spec fn free_of(n: Node, key: u32) -> bool {
    forall|p: Seq<int>| is_path(n, p) ==> !(#[trigger] descend(n, p)).separators().contains(key)
}

/// A node without `key` among its own keys, whose children are all free of
/// `key`, is free of `key`.
proof fn lemma_free_compose(n: Node, key: u32)
    requires
        !n.keys@.contains(key),
        forall|j: int| 0 <= j < n.children@.len() ==> free_of(#[trigger] n.children@[j], key),
    ensures
        free_of(n, key),
{
    assert forall|p: Seq<int>| is_path(n, p) implies !(#[trigger] descend(n, p)).separators().contains(
        key,
    ) by {
        if p.len() > 0 {
            let c = n.children@[p[0]];
            assert(is_path(c, p.skip(1)));
            assert(descend(n, p) == descend(c, p.skip(1)));
        } else {
            assert(descend(n, p) == n);
        }
    }
}

/// A well-formed subtree whose bounds leave `key` out is free of `key`.
proof fn lemma_free_outside(n: Node, h: nat, d: nat, lo: int, hi: int, key: u32)
    requires
        n.wf_rec(h, d, lo, hi, -1, -1),
        key < lo || key >= hi,
    ensures
        free_of(n, key),
    decreases h,
{
    if n.keys@.contains(key) {
        let t = choose|t: int| 0 <= t < n.keys@.len() && n.keys@[t] == key;
        assert(lo <= n.keys@[t] < hi);
    }
    assert forall|j: int| 0 <= j < n.children@.len() implies free_of(#[trigger] n.children@[j], key) by {
        let c = n.children@[j];
        assert(h > 0);
        assert(c.wf_rec((h - 1) as nat, d, n.child_lo(j, lo), n.child_hi(j, hi), -1, -1));
        assert(lo <= n.child_lo(j, lo) && n.child_hi(j, hi) <= hi);
        lemma_free_outside(c, (h - 1) as nat, d, n.child_lo(j, lo), n.child_hi(j, hi), key);
    }
    lemma_free_compose(n, key);
}

/// The empty path leads from a node to itself.
pub proof fn lemma_empty_path(n: Node)
    ensures
        is_path(n, Seq::empty()),
        descend(n, Seq::empty()) == n,
{
}

/// A node free of `key` has a first child free of `key`.
pub proof fn lemma_free_first_child(n: Node, key: u32)
    requires
        free_of(n, key),
        n.child_count() >= 1,
    ensures
        free_of(n.child(0), key),
{
    let c = n.children@[0];
    assert forall|p: Seq<int>| is_path(c, p) implies !(#[trigger] descend(c, p)).separators().contains(
        key,
    ) by {
        let q = seq![0int] + p;
        assert(q.skip(1) =~= p);
        assert(is_path(n, q));
        assert(descend(n, q) == descend(c, p));
    }
}

/// The shape that a borrow from the left sibling of child `i` leaves: the
/// sibling's last entry moves over (in leaves), or its last key moves up and
/// the separator and its last child move down (in internal nodes).
pub open spec fn borrowed_left(o: Node, n: Node, i: int, h: nat) -> bool {
    &&& n.child_nodes() == o.child_nodes().update(i - 1, n.child(i - 1)).update(i, n.child(i))
    &&& n.separators() == o.separators().update(i - 1, o.child(i - 1).separators().last())
    &&& h == 1 ==> {
        &&& n.child(i - 1).entries(0) == o.child(i - 1).entries(0).drop_last()
        &&& n.child(i).entries(0) == seq![o.child(i - 1).entries(0).last()] + o.child(i).entries(0)
    }
    &&& h > 1 ==> {
        &&& n.child(i - 1).separators() == o.child(i - 1).separators().drop_last()
        &&& n.child(i - 1).child_nodes() == o.child(i - 1).child_nodes().drop_last()
        &&& n.child(i).separators() == seq![o.separators()[i - 1]] + o.child(i).separators()
        &&& n.child(i).child_nodes() == seq![o.child(i - 1).child_nodes().last()] + o.child(
            i,
        ).child_nodes()
    }
}

/// The shape that a borrow from the right sibling of child `i` leaves: the
/// sibling's first entry moves over (in leaves), or its first key moves up
/// and the separator and its first child move down (in internal nodes).
pub open spec fn borrowed_right(o: Node, n: Node, i: int, h: nat) -> bool {
    &&& n.child_nodes() == o.child_nodes().update(i, n.child(i)).update(i + 1, n.child(i + 1))
    &&& h == 1 ==> {
        &&& n.separators() == o.separators().update(i, o.child(i + 1).separators()[1])
        &&& n.child(i).entries(0) == o.child(i).entries(0).push(o.child(i + 1).entries(0)[0])
        &&& n.child(i + 1).entries(0) == o.child(i + 1).entries(0).skip(1)
    }
    &&& h > 1 ==> {
        &&& n.separators() == o.separators().update(i, o.child(i + 1).separators()[0])
        &&& n.child(i).separators() == o.child(i).separators().push(o.separators()[i])
        &&& n.child(i).child_nodes() == o.child(i).child_nodes().push(
            o.child(i + 1).child_nodes()[0],
        )
        &&& n.child(i + 1).separators() == o.child(i + 1).separators().skip(1)
        &&& n.child(i + 1).child_nodes() == o.child(i + 1).child_nodes().skip(1)
    }
}

/// The shape that merging children `i` and `i + 1` leaves: one key fewer
/// here, and one child holding the entries (in leaves), or the keys, the
/// separator and the children (in internal nodes), of both.
pub open spec fn merged(o: Node, n: Node, i: int, h: nat) -> bool {
    &&& n.key_count() + 1 == o.key_count()
    &&& n.separators() == o.separators().remove(i)
    &&& n.child_nodes() == o.child_nodes().update(i, n.child(i)).remove(i + 1)
    &&& h == 1 ==> n.child(i).entries(0) == o.child(i).entries(0) + o.child(i + 1).entries(0)
    &&& h > 1 ==> {
        &&& n.child(i).separators() == o.child(i).separators() + seq![o.separators()[i]] + o.child(
            i + 1,
        ).separators()
        &&& n.child(i).child_nodes() == o.child(i).child_nodes() + o.child(i + 1).child_nodes()
    }
}

/// The fewest keys that a node other than the root may hold: `ceil(d / 2) - 1`,
/// and at least one.
fn min_key(max_degree: usize) -> (r: usize)
    requires
        max_degree >= 3,
    ensures
        r == min_keys(max_degree as nat),
        1 <= r < max_degree,
{
    let m = (max_degree - max_degree / 2) - 1;
    if m == 0 {
        1
    } else {
        m
    }
}

impl Node {
    /// An empty node; a leaf if `is_leaf`.
    pub fn new(is_leaf: bool) -> (r: Node)
        ensures
            r.key_count() == 0,
            r.child_count() == 0,
            r.leaf() == is_leaf,
            is_leaf ==> r.is_empty_leaf(),
    {
        Node { keys: Vec::new(), values: Vec::new(), children: Vec::new(), is_leaf }
    }

    /// Splits child `index`, which holds `max_degree` keys, into two
    /// children and moves the key between them up into this node. A leaf
    /// keeps its first `ceil(max_degree / 2)` entries and hands the rest to
    /// the new right sibling, whose first key becomes the separator; an
    /// internal node hands up its key at `max_degree / 2` and keeps the keys
    /// on either side of it in the two halves.
    pub fn split_child(
        &mut self,
        index: usize,
        max_degree: usize,
        Ghost(h): Ghost<nat>,
        Ghost(lo): Ghost<int>,
        Ghost(hi): Ghost<int>,
    )
        requires
            h > 0,
            max_degree >= 3,
            old(self).wf_rec(h, max_degree as nat, lo, hi, -1, index as int),
            index < old(self).child_count(),
            old(self).child(index as int).key_count() == max_degree,
            old(self).key_count() < max_degree,
        ensures
            final(self).wf_rec(h, max_degree as nat, lo, hi, -1, -1),
            final(self).key_count() == old(self).key_count() + 1,
            final(self).entries(h) == old(self).entries(h),
            final(self).child_count() == old(self).child_count() + 1,
            final(self).child_nodes() == old(self).child_nodes().update(
                index as int,
                final(self).child(index as int),
            ).insert(index + 1, final(self).child(index + 1)),
            final(self).child(index as int).leaf() == (h == 1),
            final(self).child(index + 1).leaf() == (h == 1),
            h == 1 ==> final(self).separators() == old(self).separators().insert(
                index as int,
                old(self).child(index as int).separators()[(max_degree - max_degree / 2) as int],
            ),
            h == 1 ==> final(self).child(index as int).entries(0) == old(self).child(
                index as int,
            ).entries(0).take((max_degree - max_degree / 2) as int),
            h == 1 ==> final(self).child(index + 1).entries(0) == old(self).child(
                index as int,
            ).entries(0).skip((max_degree - max_degree / 2) as int),
            h > 1 ==> final(self).separators() == old(self).separators().insert(
                index as int,
                old(self).child(index as int).separators()[(max_degree / 2) as int],
            ),
            h > 1 ==> final(self).child(index as int).separators() == old(self).child(
                index as int,
            ).separators().take((max_degree / 2) as int),
            h > 1 ==> final(self).child(index + 1).separators() == old(self).child(
                index as int,
            ).separators().skip(max_degree / 2 + 1int),
            h > 1 ==> final(self).child(index as int).child_nodes() == old(self).child(
                index as int,
            ).child_nodes().take(max_degree / 2 + 1int),
            h > 1 ==> final(self).child(index + 1).child_nodes() == old(self).child(
                index as int,
            ).child_nodes().skip(max_degree / 2 + 1int),
    {
        let ghost o = *self;
        let ghost d = max_degree as nat;
        let ghost g = (h - 1) as nat;
        let ghost clo = o.child_lo(index as int, lo);
        let ghost chi = o.child_hi(index as int, hi);
        let mut child = self.children.remove(index);
        let ghost c = child;
        assert(c.wf_rec(g, d, clo, chi, -1, -1));
        let sep: u32;
        let right: Node;
        if child.is_leaf {
            let s: usize = max_degree - max_degree / 2;
            let rk = child.keys.split_off(s);
            let rv = child.values.split_off(s);
            sep = rk[0];
            right = Node { keys: rk, values: rv, children: Vec::new(), is_leaf: true };
            proof {
                lemma_split_leaf(c, child, right, d, clo, chi, s as int);
                assert(child.entries(0) =~= c.entries(0).take(s as int));
                assert(right.entries(0) =~= c.entries(0).skip(s as int));
            }
        } else {
            let m: usize = max_degree / 2;
            let rk = child.keys.split_off(m + 1);
            let rc = child.children.split_off(m + 1);
            sep = child.keys.pop().unwrap();
            right = Node { keys: rk, values: Vec::new(), children: rc, is_leaf: false };
            proof {
                assert(child.keys@ =~= c.keys@.subrange(0, m as int));
                lemma_split_internal(c, child, right, g, d, clo, chi, m as int);
                assert(child.keys@ =~= c.keys@.take(m as int));
                assert(right.keys@ =~= c.keys@.skip(m as int + 1));
                assert(child.children@ =~= c.children@.take(m as int + 1));
                assert(right.children@ =~= c.children@.skip(m as int + 1));
            }
        }
        self.keys.insert(index, sep);
        self.children.insert(index, child);
        self.children.insert(index + 1, right);
        proof {
            assert(self.children@ =~= o.children@.update(index as int, child).insert(
                index as int + 1,
                right,
            ));
            lemma_split_parent(o, *self, h, d, lo, hi, index as int, child, right, sep);
        }
    }

    /// The number of keys held by this node itself.
    pub fn num_keys(&self) -> (r: usize)
        ensures
            r == self.key_count(),
    {
        self.keys.len()
    }

    /// A new root above `child`, which holds `max_degree` keys and is split
    /// in two under it: the tree grows by one level.
    pub fn grow(child: Node, max_degree: usize, Ghost(h): Ghost<nat>) -> (r: Node)
        requires
            max_degree >= 3,
            child.wf_rec(h, max_degree as nat, 0, key_limit(), -1, -1),
            child.key_count() == max_degree,
        ensures
            r.wf_node(h + 1, max_degree as nat, 0, key_limit()),
            r.key_count() == 1,
            r.entries(h + 1) == child.entries(h),
    {
        let mut r = Node::new(false);
        r.children.push(child);
        proof {
            assert(r.children@ =~= seq![child]);
            lemma_entries_of_one(child, h);
            assert(r.child_lo(0, 0) == 0);
            assert(r.child_hi(0, key_limit()) == key_limit());
        }
        r.split_child(0, max_degree, Ghost(h + 1), Ghost(0), Ghost(key_limit()));
        r
    }

    /// Appends the entries under this node, in order, to `out`.
    pub fn collect(&self, out: &mut Vec<(u32, u32)>, Ghost(h): Ghost<nat>, Ghost(d): Ghost<nat>, Ghost(lo): Ghost<int>, Ghost(hi): Ghost<int>)
        requires
            self.wf_rec(h, d, lo, hi, -1, -1),
        ensures
            final(out)@ == old(out)@ + self.entries(h),
        decreases h,
    {
        if self.is_leaf {
            let mut i: usize = 0;
            while i < self.keys.len()
                invariant
                    h == 0,
                    self.wf_rec(h, d, lo, hi, -1, -1),
                    i <= self.keys@.len(),
                    out@ == old(out)@ + self.entries(h).take(i as int),
                decreases self.keys@.len() - i,
            {
                out.push((self.keys[i], self.values[i]));
                i += 1;
                assert(out@ =~= old(out)@ + self.entries(h).take(i as int));
            }
            assert(self.entries(h).take(i as int) =~= self.entries(h));
        } else {
            let ghost g = (h - 1) as nat;
            let mut j: usize = 0;
            assert(self.children@.take(0) =~= Seq::<Node>::empty());
            assert(entries_of(Seq::<Node>::empty(), g) == Seq::<Entry>::empty());
            assert(out@ =~= old(out)@ + entries_of(self.children@.take(0), g));
            while j < self.children.len()
                invariant
                    h > 0,
                    g == h - 1,
                    self.wf_rec(h, d, lo, hi, -1, -1),
                    j <= self.children@.len(),
                    out@ == old(out)@ + entries_of(self.children@.take(j as int), g),
                decreases self.children@.len() - j,
            {
                assert(self.children@[j as int].wf_rec(g, d, self.child_lo(j as int, lo), self.child_hi(j as int, hi), -1, -1));
                self.children[j].collect(out, Ghost(g), Ghost(d), Ghost(self.child_lo(j as int, lo)), Ghost(self.child_hi(j as int, hi)));
                proof {
                    assert(self.children@.take(j as int + 1).drop_last() =~= self.children@.take(j as int));
                    assert(self.children@.take(j as int + 1).last() == self.children@[j as int]);
                }
                j += 1;
                assert(out@ =~= old(out)@ + entries_of(self.children@.take(j as int), g));
            }
            assert(self.children@.take(j as int) =~= self.children@);
        }
    }

    /// Inserts `key` with `value` into the subtree rooted here. A key that is
    /// already present keeps its value and leaves the subtree as it was. A
    /// child that fills up to `max_degree` keys is split; this node itself
    /// may end up holding `max_degree` keys, for the caller to split.
    pub fn insert_non_full(
        &mut self,
        key: u32,
        value: u32,
        max_degree: usize,
        Ghost(h): Ghost<nat>,
        Ghost(lo): Ghost<int>,
        Ghost(hi): Ghost<int>,
    )
        requires
            max_degree >= 3,
            old(self).wf_node(h, max_degree as nat, lo, hi),
            lo <= key < hi,
        ensures
            final(self).wf_rec(h, max_degree as nat, lo, hi, -1, -1),
            old(self).key_count() <= final(self).key_count() <= max_degree,
            final(self).key_count() <= old(self).key_count() + 1,
            to_map(old(self).entries(h)).contains_key(key) ==> *final(self) == *old(self),
            !to_map(old(self).entries(h)).contains_key(key) ==> exists|p: int|
                0 <= p <= old(self).entries(h).len() && final(self).entries(h) == old(
                    self,
                ).entries(h).insert(p, (key, value)),
    {
        let d = Ghost(max_degree as nat);
        if self.search(&key, Ghost(h), d, Ghost(lo), Ghost(hi)).is_some() {
            return;
        }
        self.insert_absent(key, value, max_degree, Ghost(h), Ghost(lo), Ghost(hi));
    }

    /// Removes `key` from the subtree rooted here and returns its value, or
    /// `None` when the subtree does not hold it, leaving it as it was. Each
    /// child on the way down is rebalanced on the way back up; this node may
    /// end up with one key fewer.
    pub fn remove(
        &mut self,
        key: &u32,
        max_degree: usize,
        Ghost(h): Ghost<nat>,
        Ghost(lo): Ghost<int>,
        Ghost(hi): Ghost<int>,
    ) -> (r: Option<u32>)
        requires
            max_degree >= 3,
            old(self).wf_node(h, max_degree as nat, lo, hi),
            h > 0 ==> old(self).key_count() >= 1,
        ensures
            final(self).wf_node(h, max_degree as nat, lo, hi),
            final(self).key_count() <= old(self).key_count() <= final(self).key_count() + 1,
            r == lookup(to_map(old(self).entries(h)), *key),
            r is None ==> *final(self) == *old(self),
            r is Some ==> exists|p: int|
                0 <= p < old(self).entries(h).len() && old(self).entries(h)[p].0 == *key
                    && final(self).entries(h) == old(self).entries(h).remove(p),
    {
        let ghost o = *self;
        let d = Ghost(max_degree as nat);
        if self.search(key, Ghost(h), d, Ghost(lo), Ghost(hi)).is_none() {
            return None;
        }
        let r = self.remove_present(key, max_degree, Ghost(h), Ghost(lo), Ghost(hi));
        proof {
            let p = choose|p: int|
                0 <= p < o.entries(h).len() && o.entries(h)[p].0 == *key && r == Some(
                    o.entries(h)[p].1,
                ) && self.entries(h) == o.entries(h).remove(p);
            lemma_wf_entries(o, h, max_degree as nat, lo, hi, -1, -1);
            crate::model::lemma_to_map_at(o.entries(h), p);
        }
        r
    }

    /// Relieves child `index`, one key short, by rotating through the
    /// separator on its left: the left sibling gives up its last key (and, in
    /// an internal node, its last child).
    pub fn borrow_from_left(
        &mut self,
        index: usize,
        max_degree: usize,
        Ghost(h): Ghost<nat>,
        Ghost(lo): Ghost<int>,
        Ghost(hi): Ghost<int>,
    )
        requires
            h > 0,
            max_degree >= 3,
            old(self).wf_rec(h, max_degree as nat, lo, hi, index as int, -1),
            0 < index < old(self).child_count(),
            old(self).child(index - 1).key_count() > min_keys(max_degree as nat),
            old(self).child(index as int).key_count() < min_keys(max_degree as nat),
        ensures
            final(self).wf_rec(h, max_degree as nat, lo, hi, -1, -1),
            final(self).key_count() == old(self).key_count(),
            final(self).entries(h) == old(self).entries(h),
            borrowed_left(*old(self), *final(self), index as int, h),
    {
        let ghost o = *self;
        let ghost d = max_degree as nat;
        let ghost g = (h - 1) as nat;
        let ghost i = index as int;
        let ghost a = o.child_lo(i - 1, lo);
        let ghost b = o.child_hi(i, hi);
        let ghost sep = o.keys@[i - 1];
        let ghost ol = o.children@[i - 1];
        let ghost oc = o.children@[i];
        proof {
            assert(ol.wf_rec(g, d, a, sep as int, -1, -1));
            assert(oc.wf_rec(g, d, sep as int, b, -1, -1));
            assert(o.child_lo(i, lo) == sep && o.child_hi(i - 1, hi) == sep);
        }
        let mut child = self.children.remove(index);
        let mut left = self.children.remove(index - 1);
        let k: u32;
        if child.is_leaf {
            k = left.keys.pop().unwrap();
            let v = left.values.pop().unwrap();
            child.keys.insert(0, k);
            child.values.insert(0, v);
            proof {
                assert(ol.keys@ + oc.keys@ =~= left.keys@ + child.keys@);
                assert(ol.values@ + oc.values@ =~= left.values@ + child.values@);
                lemma_redistribute_leaf(ol, oc, sep as int, left, child, d, a, b);
                assert(left.entries(0) =~= ol.entries(0).drop_last());
                assert(child.entries(0) =~= seq![ol.entries(0).last()] + oc.entries(0));
            }
        } else {
            k = left.keys.pop().unwrap();
            let moved = left.children.pop().unwrap();
            let s = self.keys[index - 1];
            child.keys.insert(0, s);
            child.children.insert(0, moved);
            proof {
                assert(ol.keys@ + seq![sep] + oc.keys@ =~= left.keys@ + seq![k] + child.keys@);
                assert(ol.children@ + oc.children@ =~= left.children@ + child.children@);
                lemma_redistribute_internal(ol, oc, sep, left, child, k, g, d, a, b);
                assert(child.keys@ =~= seq![sep] + oc.keys@);
                assert(child.children@ =~= seq![ol.children@.last()] + oc.children@);
            }
        }
        self.keys.set(index - 1, k);
        self.children.insert(index - 1, left);
        self.children.insert(index, child);
        proof {
            assert(self.children@ =~= o.children@.update(i - 1, left).update(i, child));
            lemma_parent_replace_two(o, *self, h, d, lo, hi, i - 1, left, child, k, i);
        }
    }

    /// Relieves child `index`, one key short, by rotating through the
    /// separator on its right: the right sibling gives up its first key (and,
    /// in an internal node, its first child).
    #[verifier::rlimit(80)]
    pub fn borrow_from_right(
        &mut self,
        index: usize,
        max_degree: usize,
        Ghost(h): Ghost<nat>,
        Ghost(lo): Ghost<int>,
        Ghost(hi): Ghost<int>,
    )
        requires
            h > 0,
            max_degree >= 3,
            old(self).wf_rec(h, max_degree as nat, lo, hi, index as int, -1),
            index + 1 < old(self).child_count(),
            old(self).child(index + 1).key_count() > min_keys(max_degree as nat),
            old(self).child(index as int).key_count() < min_keys(max_degree as nat),
        ensures
            final(self).wf_rec(h, max_degree as nat, lo, hi, -1, -1),
            final(self).key_count() == old(self).key_count(),
            final(self).entries(h) == old(self).entries(h),
            borrowed_right(*old(self), *final(self), index as int, h),
    {
        let ghost o = *self;
        let ghost d = max_degree as nat;
        let ghost g = (h - 1) as nat;
        let ghost i = index as int;
        let ghost a = o.child_lo(i, lo);
        let ghost b = o.child_hi(i + 1, hi);
        let ghost sep = o.keys@[i];
        let ghost oc = o.children@[i];
        let ghost orr = o.children@[i + 1];
        proof {
            assert(oc.wf_rec(g, d, a, sep as int, -1, -1));
            assert(orr.wf_rec(g, d, sep as int, b, -1, -1));
            assert(o.child_lo(i + 1, lo) == sep && o.child_hi(i, hi) == sep);
        }
        let count = self.children.len();
        assert(index + 1 < count);
        let mut right = self.children.remove(index + 1);
        let mut child = self.children.remove(index);
        let k: u32;
        if child.is_leaf {
            let k0 = right.keys.remove(0);
            let v = right.values.remove(0);
            child.keys.push(k0);
            child.values.push(v);
            k = right.keys[0];
            proof {
                assert(oc.keys@ + orr.keys@ =~= child.keys@ + right.keys@);
                assert(oc.values@ + orr.values@ =~= child.values@ + right.values@);
                lemma_redistribute_leaf(oc, orr, sep as int, child, right, d, a, b);
                assert(child.entries(0) =~= oc.entries(0).push(orr.entries(0)[0]));
                assert(right.entries(0) =~= orr.entries(0).skip(1));
            }
        } else {
            k = right.keys.remove(0);
            let moved = right.children.remove(0);
            let s = self.keys[index];
            child.keys.push(s);
            child.children.push(moved);
            proof {
                assert(oc.keys@ + seq![sep] + orr.keys@ =~= child.keys@ + seq![k] + right.keys@);
                assert(oc.children@ + orr.children@ =~= child.children@ + right.children@);
                lemma_redistribute_internal(oc, orr, sep, child, right, k, g, d, a, b);
                assert(right.keys@ =~= orr.keys@.skip(1));
                assert(right.children@ =~= orr.children@.skip(1));
            }
        }
        self.keys.set(index, k);
        self.children.insert(index, child);
        self.children.insert(index + 1, right);
        proof {
            assert(self.children@ =~= o.children@.update(i, child).update(i + 1, right));
            lemma_parent_replace_two(o, *self, h, d, lo, hi, i, child, right, k, i);
        }
    }

    /// Joins child `index + 1` into child `index`, together with the separator
    /// between them when they are internal, and drops that separator here.
    pub fn merge_children(
        &mut self,
        index: usize,
        max_degree: usize,
        Ghost(h): Ghost<nat>,
        Ghost(lo): Ghost<int>,
        Ghost(hi): Ghost<int>,
        Ghost(under): Ghost<int>,
    )
        requires
            h > 0,
            max_degree >= 3,
            old(self).wf_rec(h, max_degree as nat, lo, hi, under, -1),
            under == index || under == index + 1,
            index + 1 < old(self).child_count(),
            old(self).child(index as int).key_count() + old(self).child(index + 1).key_count() + (
            if h == 1 {
                0int
            } else {
                1int
            }) < max_degree,
            old(self).child(index as int).key_count() + old(self).child(index + 1).key_count()
                >= min_keys(max_degree as nat),
        ensures
            final(self).wf_rec(h, max_degree as nat, lo, hi, -1, -1),
            final(self).key_count() + 1 == old(self).key_count(),
            final(self).entries(h) == old(self).entries(h),
            merged(*old(self), *final(self), index as int, h),
    {
        let ghost o = *self;
        let ghost d = max_degree as nat;
        let ghost g = (h - 1) as nat;
        let ghost i = index as int;
        let ghost a = o.child_lo(i, lo);
        let ghost b = o.child_hi(i + 1, hi);
        let ghost sep = o.keys@[i];
        let ghost oc = o.children@[i];
        let ghost orr = o.children@[i + 1];
        proof {
            assert(oc.wf_rec(g, d, a, sep as int, -1, -1));
            assert(orr.wf_rec(g, d, sep as int, b, -1, -1));
            assert(o.child_lo(i + 1, lo) == sep && o.child_hi(i, hi) == sep);
        }
        let count = self.children.len();
        assert(index + 1 < count);
        let mut right = self.children.remove(index + 1);
        let mut left = self.children.remove(index);
        let s = self.keys.remove(index);
        if left.is_leaf {
            left.keys.append(&mut right.keys);
            left.values.append(&mut right.values);
            proof {
                lemma_join_leaf(oc, orr, sep as int, left, d, a, b);
            }
        } else {
            left.keys.push(s);
            left.keys.append(&mut right.keys);
            left.children.append(&mut right.children);
            proof {
                assert(left.keys@ =~= oc.keys@ + seq![sep] + orr.keys@);
                lemma_join_internal(oc, orr, sep, left, g, d, a, b);
            }
        }
        self.children.insert(index, left);
        proof {
            assert(self.children@ =~= o.children@.update(i, left).remove(i + 1));
            lemma_parent_merge(o, *self, h, d, lo, hi, i, left, under);
        }
    }

    /// Restores the occupancy of child `index`, which may be one key short:
    /// borrow from the left sibling if it has a key to spare, else from the
    /// right sibling, else merge with the left sibling (with the right one for
    /// the first child). A merge leaves this node one key fewer.
    pub fn rebalance(
        &mut self,
        index: usize,
        max_degree: usize,
        Ghost(h): Ghost<nat>,
        Ghost(lo): Ghost<int>,
        Ghost(hi): Ghost<int>,
    )
        requires
            h > 0,
            max_degree >= 3,
            old(self).wf_rec(h, max_degree as nat, lo, hi, index as int, -1),
            index < old(self).child_count(),
            old(self).key_count() >= 1,
        ensures
            final(self).wf_rec(h, max_degree as nat, lo, hi, -1, -1),
            final(self).key_count() <= old(self).key_count() <= final(self).key_count() + 1,
            final(self).entries(h) == old(self).entries(h),
            old(self).child(index as int).key_count() >= min_keys(max_degree as nat)
                ==> *final(self) == *old(self),
            old(self).child(index as int).key_count() < min_keys(max_degree as nat) ==> {
                let m = min_keys(max_degree as nat);
                let left_spare = index > 0 && old(self).child(index - 1).key_count() > m;
                let right_spare = index + 1 < old(self).child_count() && old(self).child(
                    index + 1,
                ).key_count() > m;
                &&& left_spare ==> borrowed_left(*old(self), *final(self), index as int, h)
                &&& !left_spare && right_spare ==> borrowed_right(
                    *old(self),
                    *final(self),
                    index as int,
                    h,
                )
                &&& !left_spare && !right_spare && index > 0 ==> merged(
                    *old(self),
                    *final(self),
                    index - 1,
                    h,
                )
                &&& !left_spare && !right_spare && index == 0 ==> merged(
                    *old(self),
                    *final(self),
                    0,
                    h,
                )
            },
    {
        let ghost d = max_degree as nat;
        let min = min_key(max_degree);
        let n = self.children.len();
        if self.children[index].keys.len() >= min {
            proof {
                lemma_settle(*self, h, d, lo, hi, index as int, -1);
            }
            return;
        }
        proof {
            assert(min_keys(d) * 2 < d);
        }
        if index > 0 && self.children[index - 1].keys.len() > min {
            self.borrow_from_left(index, max_degree, Ghost(h), Ghost(lo), Ghost(hi));
        } else if index + 1 < n && self.children[index + 1].keys.len() > min {
            self.borrow_from_right(index, max_degree, Ghost(h), Ghost(lo), Ghost(hi));
        } else if index > 0 {
            self.merge_children(
                index - 1,
                max_degree,
                Ghost(h),
                Ghost(lo),
                Ghost(hi),
                Ghost(index as int),
            );
        } else {
            self.merge_children(index, max_degree, Ghost(h), Ghost(lo), Ghost(hi), Ghost(0));
        }
    }

    /// Removes `key`, which the subtree rooted here holds, and returns its
    /// value. Each child on the way down is rebalanced on the way back up;
    /// this node may end up with one key fewer.
    #[verifier::rlimit(80)]
    fn remove_present(
        &mut self,
        key: &u32,
        max_degree: usize,
        Ghost(h): Ghost<nat>,
        Ghost(lo): Ghost<int>,
        Ghost(hi): Ghost<int>,
    ) -> (r: Option<u32>)
        requires
            max_degree >= 3,
            old(self).wf_node(h, max_degree as nat, lo, hi),
            h > 0 ==> old(self).key_count() >= 1,
            to_map(old(self).entries(h)).contains_key(*key),
        ensures
            final(self).wf_node(h, max_degree as nat, lo, hi),
            final(self).key_count() <= old(self).key_count() <= final(self).key_count() + 1,
            exists|p: int|
                0 <= p < old(self).entries(h).len() && old(self).entries(h)[p].0 == *key && r
                    == Some(old(self).entries(h)[p].1) && final(self).entries(h) == old(
                    self,
                ).entries(h).remove(p),
        decreases h,
    {
        let ghost o = *self;
        let ghost d = max_degree as nat;
        proof {
            lemma_wf_entries(o, h, d, lo, hi, -1, -1);
        }
        if self.is_leaf {
            let i = lower_bound(&self.keys, *key);
            proof {
                let es = o.entries(h);
                let j = choose|j: int| 0 <= j < es.len() && #[trigger] es[j].0 == *key;
                assert(o.keys@[j] == *key);
                if i < j {
                    assert(o.keys@[i as int] < o.keys@[j]);
                }
            }
            let v = self.values.remove(i);
            self.keys.remove(i);
            proof {
                assert(self.entries(h) =~= o.entries(h).remove(i as int));
            }
            Some(v)
        } else {
            let i = upper_bound(&self.keys, *key);
            let ghost g = (h - 1) as nat;
            let ghost clo = o.child_lo(i as int, lo);
            let ghost chi = o.child_hi(i as int, hi);
            let ghost pre = entries_of(o.children@.take(i as int), g);
            let ghost suf = entries_of(o.children@.skip(i as int + 1), g);
            let ghost oc = o.children@[i as int];
            proof {
                lemma_route(o, h, d, lo, hi, -1, -1, i as int);
                assert forall|j: int| 0 <= j < pre.len() implies #[trigger] pre[j].0 < *key by {
                    assert(pre[j].0 < clo);
                }
                assert forall|j: int| 0 <= j < suf.len() implies #[trigger] suf[j].0 > *key by {
                    assert(suf[j].0 >= chi);
                }
                lemma_lookup_middle(pre, oc.entries(g), suf, *key);
                assert(oc.wf_rec(g, d, clo, chi, -1, -1));
            }
            let mut child = self.children.remove(i);
            let r = child.remove_present(key, max_degree, Ghost(g), Ghost(clo), Ghost(chi));
            self.children.insert(i, child);
            proof {
                let q = choose|q: int|
                    0 <= q < oc.entries(g).len() && oc.entries(g)[q].0 == *key && r == Some(
                        oc.entries(g)[q].1,
                    ) && child.entries(g) == oc.entries(g).remove(q);
                assert(self.children@ =~= o.children@.update(i as int, child));
                lemma_replace_child(o, *self, h, d, lo, hi, i as int, child, i as int, -1);
                assert(pre + child.entries(g) + suf =~= o.entries(h).remove(pre.len() + q));
                assert(o.entries(h)[pre.len() + q] == oc.entries(g)[q]);
            }
            self.rebalance(i, max_degree, Ghost(h), Ghost(lo), Ghost(hi));
            r
        }
    }

    /// The smallest key stored under this node: the first key of its
    /// leftmost leaf.
    pub fn first_key(
        &self,
        Ghost(h): Ghost<nat>,
        Ghost(d): Ghost<nat>,
        Ghost(lo): Ghost<int>,
        Ghost(hi): Ghost<int>,
    ) -> (r: u32)
        requires
            self.wf_rec(h, d, lo, hi, -1, -1),
            h == 0 ==> self.key_count() >= 1,
        ensures
            self.entries(h).len() >= 1,
            r == self.entries(h)[0].0,
        decreases h,
    {
        proof {
            lemma_nonempty(*self, h, d, lo, hi);
        }
        if self.is_leaf {
            self.keys[0]
        } else {
            proof {
                assert(self.children@[0].wf_rec(
                    (h - 1) as nat,
                    d,
                    self.child_lo(0, lo),
                    self.child_hi(0, hi),
                    -1,
                    -1,
                ));
            }
            self.children[0].first_key(
                Ghost((h - 1) as nat),
                Ghost(d),
                Ghost(self.child_lo(0, lo)),
                Ghost(self.child_hi(0, hi)),
            )
        }
    }

    /// Replaces separator `index`, a key that is no longer stored, with its
    /// inorder successor: the smallest key stored under the child to its
    /// right.
    pub fn fill_with_inorder_successor(
        &mut self,
        index: usize,
        Ghost(h): Ghost<nat>,
        Ghost(d): Ghost<nat>,
        Ghost(lo): Ghost<int>,
        Ghost(hi): Ghost<int>,
    )
        requires
            h > 0,
            old(self).wf_rec(h, d, lo, hi, -1, -1),
            index < old(self).key_count(),
            !has_key(
                old(self).child(index + 1).entries((h - 1) as nat),
                old(self).separators()[index as int],
            ),
        ensures
            final(self).wf_rec(h, d, lo, hi, -1, -1),
            final(self).entries(h) == old(self).entries(h),
            final(self).key_count() == old(self).key_count(),
            final(self).separators() == old(self).separators().update(
                index as int,
                old(self).child(index + 1).entries((h - 1) as nat)[0].0,
            ),
            final(self).separators()[index as int] > old(self).separators()[index as int],
            final(self).child_nodes() == old(self).child_nodes(),
            h > 1 ==> !final(self).child(index + 1).separators().contains(
                final(self).separators()[index as int],
            ),
    {
        let ghost o = *self;
        let ghost g = (h - 1) as nat;
        let ghost i = index as int;
        let ghost c = o.children@[i + 1];
        let ghost sep = o.keys@[i];
        let ghost chi = o.child_hi(i + 1, hi);
        proof {
            assert(c.wf_rec(g, d, sep as int, chi, -1, -1));
            assert(c.keys@.len() >= min_keys(d));
        }
        let count = self.children.len();
        assert(index + 1 < count);
        let s = self.children[index + 1].first_key(Ghost(g), Ghost(d), Ghost(sep as int), Ghost(chi));
        proof {
            lemma_wf_entries(c, g, d, sep as int, chi, -1, -1);
            assert(s != sep);
            lemma_raise_lo(c, g, d, sep as int, chi, s as int);
            let left = o.children@[i];
            assert(left.wf_rec(g, d, o.child_lo(i, lo), sep as int, -1, -1));
            lemma_raise_hi(left, g, d, o.child_lo(i, lo), sep as int, s as int);
            assert(chi <= hi);
        }
        self.keys.set(index, s);
        proof {
            let n = *self;
            assert forall|x: int, y: int|
                0 <= x < y < n.keys@.len() implies #[trigger] n.keys@[x] < #[trigger] n.keys@[y] by {
                if x == i {
                    assert(o.keys@[y] >= chi);
                } else if y == i {
                    assert(o.keys@[x] <= sep);
                }
            }
            assert forall|j: int| 0 <= j < n.children@.len() implies {
                let x = #[trigger] n.children@[j];
                &&& x.wf_rec(g, d, n.child_lo(j, lo), n.child_hi(j, hi), -1, -1)
                &&& x.keys@.len() < d
                &&& x.keys@.len() >= min_keys(d)
            } by {
                if j != i && j != i + 1 {
                    assert(n.child_lo(j, lo) == o.child_lo(j, lo));
                    assert(n.child_hi(j, hi) == o.child_hi(j, hi));
                } else if j == i {
                    assert(n.child_lo(j, lo) == o.child_lo(j, lo));
                } else {
                    assert(n.child_hi(j, hi) == chi);
                }
            }
            if h > 1 && c.keys@.contains(s) {
                let t = choose|t: int| 0 <= t < c.keys@.len() && c.keys@[t] == s;
                assert(c.shape_ok(g, s as int, chi));
            }
        }
    }

    /// Looks along the path of `key`, which is no longer stored, for a
    /// separator equal to it, and replaces that separator with its inorder
    /// successor: afterwards no node of the subtree holds `key`.
    pub fn refresh_separator(
        &mut self,
        key: &u32,
        Ghost(h): Ghost<nat>,
        Ghost(d): Ghost<nat>,
        Ghost(lo): Ghost<int>,
        Ghost(hi): Ghost<int>,
    )
        requires
            old(self).wf_rec(h, d, lo, hi, -1, -1),
            !has_key(old(self).entries(h), *key),
        ensures
            final(self).wf_rec(h, d, lo, hi, -1, -1),
            final(self).entries(h) == old(self).entries(h),
            final(self).key_count() == old(self).key_count(),
            free_of(*final(self), *key),
        decreases h,
    {
        if self.is_leaf {
            proof {
                if self.keys@.contains(*key) {
                    let t = choose|t: int| 0 <= t < self.keys@.len() && self.keys@[t] == *key;
                    assert(self.entries(h)[t].0 == *key);
                }
                lemma_free_compose(*self, *key);
            }
            return;
        }
        let ghost o = *self;
        let ghost g = (h - 1) as nat;
        let j = lower_bound(&self.keys, *key);
        if j < self.keys.len() && self.keys[j] == *key {
            proof {
                lemma_route(o, h, d, lo, hi, -1, -1, j as int + 1);
                let pre = entries_of(o.children@.take(j as int + 1), g);
                let c = o.children@[j as int + 1].entries(g);
                if has_key(c, *key) {
                    let t = choose|t: int| 0 <= t < c.len() && #[trigger] c[t].0 == *key;
                    assert(o.entries(h)[pre.len() + t] == c[t]);
                }
            }
            self.fill_with_inorder_successor(j, Ghost(h), Ghost(d), Ghost(lo), Ghost(hi));
            proof {
                let n = *self;
                let ji = j as int;
                if n.keys@.contains(*key) {
                    let t = choose|t: int| 0 <= t < n.keys@.len() && n.keys@[t] == *key;
                    if t < ji {
                        assert(o.keys@[t] < o.keys@[ji]);
                    } else if t > ji {
                        assert(o.keys@[t] > o.keys@[ji]);
                    }
                }
                assert forall|c: int| 0 <= c < n.children@.len() implies free_of(
                    #[trigger] n.children@[c],
                    *key,
                ) by {
                    let x = n.children@[c];
                    if c == ji {
                        assert(o.child_hi(c, hi) == *key);
                        lemma_free_outside(x, g, d, o.child_lo(c, lo), o.child_hi(c, hi), *key);
                    } else {
                        assert(x.wf_rec(g, d, n.child_lo(c, lo), n.child_hi(c, hi), -1, -1));
                        if c < ji {
                            assert(n.child_hi(c, hi) == o.keys@[c]);
                            assert(o.keys@[c] < o.keys@[ji]);
                        } else if c == ji + 1 {
                            assert(n.child_lo(c, lo) == n.keys@[ji]);
                        } else {
                            assert(n.child_lo(c, lo) == o.keys@[c - 1]);
                            assert(o.keys@[c - 1] > o.keys@[ji]);
                        }
                        lemma_free_outside(x, g, d, n.child_lo(c, lo), n.child_hi(c, hi), *key);
                    }
                }
                lemma_free_compose(n, *key);
            }
        } else {
            let i = upper_bound(&self.keys, *key);
            let ghost clo = o.child_lo(i as int, lo);
            let ghost chi = o.child_hi(i as int, hi);
            let ghost oc = o.children@[i as int];
            proof {
                lemma_route(o, h, d, lo, hi, -1, -1, i as int);
                let pre = entries_of(o.children@.take(i as int), g);
                let c = oc.entries(g);
                if has_key(c, *key) {
                    let t = choose|t: int| 0 <= t < c.len() && #[trigger] c[t].0 == *key;
                    assert(o.entries(h)[pre.len() + t] == c[t]);
                }
                assert(oc.wf_rec(g, d, clo, chi, -1, -1));
            }
            let mut child = self.children.remove(i);
            child.refresh_separator(key, Ghost(g), Ghost(d), Ghost(clo), Ghost(chi));
            self.children.insert(i, child);
            proof {
                assert(self.children@ =~= o.children@.update(i as int, child));
                lemma_replace_child(o, *self, h, d, lo, hi, i as int, child, -1, -1);
                lemma_entries_of_pieces(o.children@, i as int, g);
                let n = *self;
                let ii = i as int;
                if n.keys@.contains(*key) {
                    let t = choose|t: int| 0 <= t < n.keys@.len() && n.keys@[t] == *key;
                    if t > j as int {
                        assert(n.keys@[t] > n.keys@[j as int]);
                    }
                }
                assert forall|c: int| 0 <= c < n.children@.len() implies free_of(
                    #[trigger] n.children@[c],
                    *key,
                ) by {
                    if c != ii {
                        let x = n.children@[c];
                        assert(x.wf_rec(g, d, n.child_lo(c, lo), n.child_hi(c, hi), -1, -1));
                        if c < ii {
                            assert(n.child_hi(c, hi) <= n.child_lo(ii, lo));
                        } else {
                            assert(n.child_lo(c, lo) >= n.child_hi(ii, hi));
                        }
                        lemma_free_outside(x, g, d, n.child_lo(c, lo), n.child_hi(c, hi), *key);
                    }
                }
                lemma_free_compose(n, *key);
            }
        }
    }

    /// Whether this node is a leaf.
    pub fn is_leaf_node(&self) -> (r: bool)
        ensures
            r == self.leaf(),
    {
        self.is_leaf
    }

    /// The only child of an internal node without keys, which takes its
    /// place: the tree shrinks by one level.
    pub fn into_only_child(
        self,
        Ghost(h): Ghost<nat>,
        Ghost(d): Ghost<nat>,
        Ghost(lo): Ghost<int>,
        Ghost(hi): Ghost<int>,
    ) -> (r: Node)
        requires
            h > 0,
            self.wf_rec(h, d, lo, hi, -1, -1),
            self.key_count() == 0,
        ensures
            r.wf_node((h - 1) as nat, d, lo, hi),
            r.entries((h - 1) as nat) == self.entries(h),
            h > 1 ==> r.key_count() >= 1,
            r == self.child(0),
    {
        let ghost o = self;
        let mut s = self;
        let r = s.children.pop().unwrap();
        proof {
            assert(o.children@ =~= seq![r]);
            lemma_entries_of_one(r, (h - 1) as nat);
            assert(o.child_lo(0, lo) == lo && o.child_hi(0, hi) == hi);
            assert(r.wf_rec((h - 1) as nat, d, lo, hi, -1, -1));
        }
        r
    }

    /// Inserts `key` with `value` into the subtree rooted here, which does
    /// not hold `key` yet. A child that fills up to `max_degree` keys is split;
    /// this node itself may end up holding `max_degree` keys, for the caller
    /// to split.
    fn insert_absent(
        &mut self,
        key: u32,
        value: u32,
        max_degree: usize,
        Ghost(h): Ghost<nat>,
        Ghost(lo): Ghost<int>,
        Ghost(hi): Ghost<int>,
    )
        requires
            max_degree >= 3,
            old(self).wf_node(h, max_degree as nat, lo, hi),
            lo <= key < hi,
            !to_map(old(self).entries(h)).contains_key(key),
        ensures
            final(self).wf_rec(h, max_degree as nat, lo, hi, -1, -1),
            old(self).key_count() <= final(self).key_count() <= max_degree,
            final(self).key_count() <= old(self).key_count() + 1,
            exists|p: int|
                0 <= p <= old(self).entries(h).len() && final(self).entries(h) == old(
                    self,
                ).entries(h).insert(p, (key, value)),
        decreases h,
    {
        let ghost o = *self;
        let ghost d = max_degree as nat;
        proof {
            lemma_wf_entries(o, h, d, lo, hi, -1, -1);
        }
        if self.is_leaf {
            let p = lower_bound(&self.keys, key);
            proof {
                assert forall|j: int| 0 <= j < o.keys@.len() implies o.keys@[j] != key by {
                    assert(o.entries(h)[j].0 == o.keys@[j]);
                }
            }
            self.keys.insert(p, key);
            self.values.insert(p, value);
            proof {
                assert forall|a: int, b: int|
                    0 <= a < b < self.keys@.len() implies #[trigger] self.keys@[a]
                    < #[trigger] self.keys@[b] by {
                    if b < p {
                    } else if b == p {
                        assert(o.keys@[a] < key);
                    } else if a == p {
                        assert(o.keys@[b - 1] >= key);
                        assert(o.keys@[b - 1] != key);
                    } else if a < p {
                        assert(self.keys@[b] == o.keys@[b - 1]);
                    } else {
                        assert(self.keys@[a] == o.keys@[a - 1]);
                        assert(self.keys@[b] == o.keys@[b - 1]);
                    }
                }
                assert(self.entries(h) =~= o.entries(h).insert(p as int, (key, value)));
            }
        } else {
            let i = upper_bound(&self.keys, key);
            let ghost g = (h - 1) as nat;
            let ghost clo = o.child_lo(i as int, lo);
            let ghost chi = o.child_hi(i as int, hi);
            let ghost pre = entries_of(o.children@.take(i as int), g);
            let ghost suf = entries_of(o.children@.skip(i as int + 1), g);
            let ghost oc = o.children@[i as int];
            proof {
                lemma_route(o, h, d, lo, hi, -1, -1, i as int);
                assert forall|j: int| 0 <= j < pre.len() implies #[trigger] pre[j].0 < key by {
                    assert(pre[j].0 < clo);
                }
                assert forall|j: int| 0 <= j < suf.len() implies #[trigger] suf[j].0 > key by {
                    assert(suf[j].0 >= chi);
                }
                lemma_lookup_middle(pre, oc.entries(g), suf, key);
                assert(oc.wf_rec(g, d, clo, chi, -1, -1));
            }
            let mut child = self.children.remove(i);
            child.insert_absent(key, value, max_degree, Ghost(g), Ghost(clo), Ghost(chi));
            let full = child.keys.len() == max_degree;
            self.children.insert(i, child);
            proof {
                let q = choose|q: int|
                    0 <= q <= oc.entries(g).len() && child.entries(g) == oc.entries(g).insert(
                        q,
                        (key, value),
                    );
                assert(self.children@ =~= o.children@.update(i as int, child));
                if full {
                    lemma_replace_child(o, *self, h, d, lo, hi, i as int, child, -1, i as int);
                } else {
                    lemma_replace_child(o, *self, h, d, lo, hi, i as int, child, -1, -1);
                }
                assert(pre + child.entries(g) + suf =~= o.entries(h).insert(
                    pre.len() + q,
                    (key, value),
                ));
            }
            if full {
                self.split_child(i, max_degree, Ghost(h), Ghost(lo), Ghost(hi));
            }
        }
    }
}

} // verus!
