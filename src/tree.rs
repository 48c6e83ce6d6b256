//! The tree: the root node, the degree it was built with, and the public
//! operations.
use vstd::prelude::*;

use crate::model::{
    copied, inserted, inserted_all, lookup, removed, sorted_by_key, to_map, Entry, TreeError,
};
use crate::node::{
    descend, is_path, key_limit, lemma_empty_leaf, lemma_empty_path, lemma_free_first_child, lemma_node_on_path, lemma_wf_entries, min_keys,
    Node,
};

verus! {

/// An ordered index from `u32` keys to `u32` values, kept as a B+Tree of a
/// fixed maximum degree.
pub struct BPlusTree {
    root: Option<Node>,
    max_degree: usize,
    height: Ghost<nat>,
}

impl View for BPlusTree {
    type V = Map<u32, u32>;

    /// The associations held by the tree.
    closed spec fn view(&self) -> Map<u32, u32> {
        to_map(self.entries())
    }
}

impl BPlusTree {
    /// The entries held by the tree, in the order of its leaves.
    pub closed spec fn entries(&self) -> Seq<Entry> {
        match self.root {
            Some(r) => r.entries(self.height@),
            None => Seq::empty(),
        }
    }

    /// The maximum degree that the tree was built with.
    pub closed spec fn degree(&self) -> nat {
        self.max_degree as nat
    }

    /// The number of levels below the root.
    pub closed spec fn height(&self) -> nat {
        self.height@
    }

    /// `path` is a sequence of child positions that can be followed down from
    /// the root.
    pub closed spec fn has_node_at(&self, path: Seq<int>) -> bool {
        match self.root {
            Some(r) => is_path(r, path),
            None => false,
        }
    }

    /// The node reached from the root by following `path`.
    pub closed spec fn node_at(&self, path: Seq<int>) -> Node {
        descend(self.root.unwrap(), path)
    }

    /// The tree is well formed: its degree is at least three; all leaves lie
    /// at the same depth; keys ascend within each node and separators route
    /// each key to the only child that may hold it; every node other than the
    /// root holds between `min_keys(degree)` and `degree - 1` keys, an internal
    /// node one more child than keys; the root holds at most `degree - 1` keys,
    /// and at least one if it is internal.
    pub closed spec fn wf(&self) -> bool {
        &&& self.max_degree >= 3
        &&& match self.root {
            Some(r) => {
                &&& r.wf_node(self.height@, self.max_degree as nat, 0, key_limit())
                &&& self.height@ > 0 ==> r.key_count() >= 1
            },
            None => self.height@ == 0,
        }
    }

    /// A tree of degree `max_degree` holding each of `numbers`, each number
    /// as its own value; a degree below three is refused.
    pub fn new(numbers: Vec<u32>, max_degree: usize) -> (r: Result<BPlusTree, TreeError>)
        ensures
            r.is_ok() <==> max_degree >= 3,
            r matches Err(e) ==> e == TreeError::InvalidConfiguration,
            r matches Ok(t) ==> {
                &&& t.wf()
                &&& t.degree() == max_degree
                &&& t@ == inserted_all(Map::empty(), numbers@)
            },
    {
        if max_degree < 3 {
            return Err(TreeError::InvalidConfiguration);
        }
        let mut tree = BPlusTree { root: None, max_degree, height: Ghost(0) };
        proof {
            assert(tree.entries() =~= Seq::<Entry>::empty());
            assert(tree@ =~= Map::<u32, u32>::empty());
            assert(numbers@.take(0) =~= Seq::<u32>::empty());
        }
        let mut i: usize = 0;
        while i < numbers.len()
            invariant
                i <= numbers@.len(),
                tree.wf(),
                tree.degree() == max_degree,
                tree@ == inserted_all(Map::empty(), numbers@.take(i as int)),
            decreases numbers@.len() - i,
        {
            tree.insert(numbers[i], numbers[i]);
            proof {
                assert(numbers@.take(i as int + 1).drop_last() =~= numbers@.take(i as int));
            }
            i += 1;
        }
        proof {
            assert(numbers@.take(i as int) =~= numbers@);
        }
        Ok(tree)
    }

    /// Inserts `key` with `value`. A key that is already present keeps its
    /// first value: the insert is then ignored. The tree grows by one level
    /// exactly when the root splits, and the new root then holds one key.
    pub fn insert(&mut self, key: u32, value: u32)
        requires
            old(self).wf(),
        ensures
            final(self).wf(),
            final(self).degree() == old(self).degree(),
            final(self)@ == inserted(old(self)@, key, value),
            final(self).height() == old(self).height() || final(self).height() == old(
                self,
            ).height() + 1,
            final(self).has_node_at(Seq::empty()),
            final(self).height() == old(self).height() + 1 ==> final(self).node_at(
                Seq::empty(),
            ).key_count() == 1,
    {
        let d = self.max_degree;
        let ghost old_entries = self.entries();
        let mut root = match self.root.take() {
            Some(r) => r,
            None => {
                let n = Node::new(true);
                proof {
                    lemma_empty_leaf(n, d as nat, 0, key_limit());
                }
                n
            },
        };
        let ghost h = self.height@;
        let ghost old_root = root;
        proof {
            lemma_wf_entries(root, h, d as nat, 0, key_limit(), -1, -1);
            assert(old_root.entries(h) == old_entries);
        }
        root.insert_non_full(key, value, d, Ghost(h), Ghost(0), Ghost(key_limit()));
        proof {
            lemma_wf_entries(root, h, d as nat, 0, key_limit(), -1, -1);
            if !to_map(old_root.entries(h)).contains_key(key) {
                let p = choose|p: int|
                    0 <= p <= old_root.entries(h).len() && root.entries(h)
                        == old_root.entries(h).insert(p, (key, value));
                crate::model::lemma_to_map_insert(old_root.entries(h), p, (key, value));
            }
        }
        if root.num_keys() == d {
            root = Node::grow(root, d, Ghost(h));
            self.height = Ghost(h + 1);
        }
        self.root = Some(root);
        proof {
            lemma_empty_path(root);
        }
    }

    /// Removes `key` and returns its value, or `None` when the tree does not
    /// hold it, in which case the tree is left exactly as it was. A separator
    /// equal to the removed key is replaced by its inorder successor, so that
    /// afterwards no node holds the key. The tree loses one level exactly
    /// when the root, left with a single key, gives it up and its only child
    /// takes its place.
    pub fn remove(&mut self, key: &u32) -> (r: Option<u32>)
        requires
            old(self).wf(),
        ensures
            final(self).wf(),
            final(self).degree() == old(self).degree(),
            r == lookup(old(self)@, *key),
            final(self)@ == removed(old(self)@, *key),
            r is None ==> *final(self) == *old(self),
            r is Some ==> forall|p: Seq<int>|
                final(self).has_node_at(p) ==> !(#[trigger] final(self).node_at(
                    p,
                )).separators().contains(*key),
            final(self).height() == old(self).height() || final(self).height() + 1 == old(
                self,
            ).height(),
            final(self).height() + 1 == old(self).height() ==> old(self).node_at(
                Seq::empty(),
            ).key_count() == 1,
    {
        let d = self.max_degree;
        let ghost h = self.height@;
        let ghost o = *self;
        let mut root = match self.root.take() {
            Some(r) => r,
            None => {
                proof {
                    assert(o.entries() =~= Seq::<Entry>::empty());
                    assert(removed(o@, *key) =~= o@);
                }
                return None;
            },
        };
        let ghost old_root = root;
        proof {
            lemma_wf_entries(old_root, h, d as nat, 0, key_limit(), -1, -1);
            lemma_empty_path(old_root);
        }
        let r = root.remove(key, d, Ghost(h), Ghost(0), Ghost(key_limit()));
        if r.is_none() {
            self.root = Some(root);
            proof {
                assert(removed(o@, *key) =~= o@);
            }
            return None;
        }
        proof {
            let p = choose|p: int|
                0 <= p < old_root.entries(h).len() && old_root.entries(h)[p].0 == *key
                    && root.entries(h) == old_root.entries(h).remove(p);
            crate::model::lemma_to_map_remove(old_root.entries(h), p);
            assert(!to_map(root.entries(h)).contains_key(*key));
        }
        root.refresh_separator(key, Ghost(h), Ghost(d as nat), Ghost(0), Ghost(key_limit()));
        proof {
            lemma_wf_entries(root, h, d as nat, 0, key_limit(), -1, -1);
        }
        if !root.is_leaf_node() && root.num_keys() == 0 {
            let ghost before = root;
            root = root.into_only_child(Ghost(h), Ghost(d as nat), Ghost(0), Ghost(key_limit()));
            self.height = Ghost((h - 1) as nat);
            proof {
                lemma_empty_path(before);
                lemma_node_on_path(before, h, d as nat, 0, key_limit(), Seq::empty());
                lemma_free_first_child(before, *key);
            }
        }
        self.root = Some(root);
        r
    }

    /// The value stored under `key`, if any.
    pub fn get(&self, key: &u32) -> (r: Option<&u32>)
        requires
            self.wf(),
        ensures
            copied(r) == lookup(self@, *key),
    {
        match &self.root {
            Some(root) => root.search(
                key,
                Ghost(self.height@),
                Ghost(self.max_degree as nat),
                Ghost(0),
                Ghost(key_limit()),
            ),
            None => None,
        }
    }

    /// Every entry of the tree, in ascending order of keys.
    pub fn traverse(&self) -> (r: Vec<(u32, u32)>)
        requires
            self.wf(),
        ensures
            r@ == self.entries(),
            sorted_by_key(r@),
            to_map(r@) == self@,
    {
        let mut out: Vec<(u32, u32)> = Vec::new();
        match &self.root {
            Some(root) => {
                root.collect(
                    &mut out,
                    Ghost(self.height@),
                    Ghost(self.max_degree as nat),
                    Ghost(0),
                    Ghost(key_limit()),
                );
                proof {
                    lemma_wf_entries(*root, self.height@, self.max_degree as nat, 0, key_limit(), -1, -1);
                }
            },
            None => {},
        }
        assert(out@ =~= self.entries());
        out
    }
}

/// Every node other than the root holds between `min_keys(degree)` and
/// `degree - 1` keys, the root at most `degree - 1`, and every internal node
/// exactly one more child than keys.
pub proof fn lemma_occupancy(t: &BPlusTree, path: Seq<int>)
    requires
        t.wf(),
        t.has_node_at(path),
    ensures
        t.node_at(path).key_count() < t.degree(),
        path.len() > 0 ==> min_keys(t.degree()) <= t.node_at(path).key_count(),
        !t.node_at(path).leaf() ==> t.node_at(path).child_count() == t.node_at(path).key_count()
            + 1,
{
    let r = t.root.unwrap();
    lemma_node_on_path(r, t.height@, t.max_degree as nat, 0, key_limit(), path);
}

/// A well-formed tree above a single leaf has a root node, reached by the
/// empty path.
pub proof fn lemma_root_exists(t: &BPlusTree)
    requires
        t.wf(),
        t.height() > 0,
    ensures
        t.has_node_at(Seq::empty()),
{
    lemma_empty_path(t.root.unwrap());
}

/// All leaves lie at the same depth: the node that a path reaches is a leaf
/// exactly when the path is as long as the tree is high.
pub proof fn lemma_leaf_depth(t: &BPlusTree, path: Seq<int>)
    requires
        t.wf(),
        t.has_node_at(path),
    ensures
        t.node_at(path).leaf() <==> path.len() == t.height(),
        path.len() <= t.height(),
{
    lemma_node_on_path(t.root.unwrap(), t.height@, t.max_degree as nat, 0, key_limit(), path);
}

} // verus!
