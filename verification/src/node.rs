use crate::prefix::{
    common_prefix_len, lemma_common_prefix_len_parts, lemma_common_prefix_len_same,
    lemma_common_prefix_len_symmetric, lemma_common_prefix_len_unique,
    lemma_prefix_iff_shares_all, lemma_same_head_same_tail, longest_common_prefix,
};
use vstd::prelude::*;

verus! {

/// An edge labelled `label` is the one that a lookup of `key` takes: the
/// label is the whole key, or a non-empty prefix of it.
spec fn leads_to(label: Seq<char>, key: Seq<char>) -> bool {
    label == key || (label.len() > 0 && label.is_prefix_of(key))
}

/// `key` shares a proper part of `label`: some of it, and not all.
spec fn shares_part(key: Seq<char>, label: Seq<char>) -> bool {
    0 < common_prefix_len(key, label) < label.len()
}

/// Whether a tree that holds `bound` files `key` as an edge when it is
/// inserted: every key but the empty one offered to a tree that holds
/// something already.
pub open spec fn files_as_edge<T>(bound: Map<Seq<char>, T>, key: Seq<char>) -> bool {
    key.len() > 0 || forall|k: Seq<char>| !bound.contains_key(k)
}

/// What a tree that held `bound` holds once `key` was inserted with `val`.
pub open spec fn bind<T>(bound: Map<Seq<char>, T>, key: Seq<char>, val: T) -> Map<Seq<char>, T> {
    if files_as_edge(bound, key) {
        bound.insert(key, val)
    } else {
        bound
    }
}

/// A node of a compressed prefix tree. The node is the tree: it owns its
/// edges, each a label and the subtree below it, and may hold a value of its
/// own. A search takes the one edge whose label begins the key, and finds the
/// value of the node at which the key is used up.
#[derive(Debug)]
pub struct RadixNode<'a, T> {
    nodes: Vec<(&'a str, RadixNode<'a, T>)>,
    val: Option<T>,
}

impl<'a, T> RadixNode<'a, T> {
    /// The value held by the node itself, as opposed to those below its edges.
    pub closed spec fn value(&self) -> Option<T> {
        self.val
    }

    /// The label of edge `i`.
    spec fn label(&self, i: int) -> Seq<char> {
        self.nodes@[i].0@
    }

    /// The subtree below edge `i`.
    spec fn child(&self, i: int) -> RadixNode<'a, T> {
        self.nodes@[i].1
    }

    /// Edge `i` is the one that a search for `key` takes.
    spec fn takes_edge(&self, i: int, key: Seq<char>) -> bool {
        0 <= i < self.nodes@.len() && leads_to(self.label(i), key)
    }

    /// What a search for `key` finds, going down from this node.
    spec fn lookup(&self, key: Seq<char>) -> Option<T>
        decreases key.len(),
    {
        if exists|i: int| self.takes_edge(i, key) {
            let i = choose|i: int| self.takes_edge(i, key);
            if self.label(i) == key {
                self.child(i).val
            } else {
                self.child(i).lookup(key.skip(self.label(i).len() as int))
            }
        } else {
            None
        }
    }

    /// Sibling labels are distinct and share no prefix.
    spec fn siblings_apart(&self) -> bool {
        forall|i: int, j: int|
            0 <= i < self.nodes@.len() && 0 <= j < self.nodes@.len() && i != j ==> {
                &&& #[trigger] self.label(i) != #[trigger] self.label(j)
                &&& common_prefix_len(self.label(i), self.label(j)) == 0
            }
    }

    /// Something can be found in or below the node.
    spec fn inhabited(&self) -> bool {
        self.val is Some || self.nodes@.len() > 0
    }

    /// Validity of a node below the root: as `wf`, and no label is empty.
    spec fn inner_wf(&self) -> bool
        decreases self,
    {
        &&& self.siblings_apart()
        &&& forall|i: int|
            0 <= i < self.nodes@.len() ==> {
                &&& (#[trigger] self.nodes@[i]).0@.len() > 0
                &&& self.nodes@[i].1.inner_wf()
                &&& self.nodes@[i].1.inhabited()
            }
    }

    /// Validity of a tree: sibling labels are distinct and share no prefix,
    /// only the root may have an edge with the empty label, and nothing is
    /// kept that holds no value.
    pub closed spec fn wf(&self) -> bool {
        &&& self.siblings_apart()
        &&& forall|i: int|
            0 <= i < self.nodes@.len() ==> {
                &&& (#[trigger] self.nodes@[i]).1.inner_wf()
                &&& self.nodes@[i].1.inhabited()
                &&& self.nodes@[i].0@.len() == 0 ==> self.nodes@[i].1.val is Some
            }
    }

    /// The keys that can be found in the tree, each with its value.
    pub closed spec fn view(&self) -> Map<Seq<char>, T> {
        Map::new(|k: Seq<char>| self.lookup(k) is Some, |k: Seq<char>| self.lookup(k)->0)
    }

    /// A search from `self` finds what it found from `before`, except for
    /// `key`, which it finds with `val`.
    spec fn rebinds(&self, before: &Self, key: Seq<char>, val: T) -> bool {
        forall|k: Seq<char>|
            #[trigger] self.lookup(k) == if k == key {
                Some(val)
            } else {
                before.lookup(k)
            }
    }

    /// A key takes at most one edge.
    proof fn lemma_one_edge(&self, i: int, j: int, key: Seq<char>)
        requires
            self.siblings_apart(),
            self.takes_edge(i, key),
            self.takes_edge(j, key),
        ensures
            i == j,
    {
        if i != j {
            let a = self.label(i);
            let b = self.label(j);
            assert(a != b && common_prefix_len(a, b) == 0);
            if a.len() > 0 && b.len() > 0 {
                assert(a[0] == key.subrange(0, a.len() as int)[0]);
                assert(b[0] == key.subrange(0, b.len() as int)[0]);
            }
        }
    }

    /// A search goes on below the edge that the key takes.
    proof fn lemma_lookup_below(&self, i: int, key: Seq<char>)
        requires
            self.siblings_apart(),
            self.takes_edge(i, key),
        ensures
            self.lookup(key) == if self.label(i) == key {
                self.child(i).val
            } else {
                self.child(i).lookup(key.skip(self.label(i).len() as int))
            },
    {
        let j = choose|j: int| self.takes_edge(j, key);
        self.lemma_one_edge(i, j, key);
    }

    /// A node below the root is a valid tree.
    proof fn lemma_inner_is_wf(&self)
        requires
            self.inner_wf(),
        ensures
            self.wf(),
    {
    }

    /// Below a node without edges nothing is found.
    proof fn lemma_leaf_finds_nothing(&self, key: Seq<char>)
        requires
            self.nodes@.len() == 0,
        ensures
            self.lookup(key) is None,
    {
    }

    /// Siblings are apart in a node whose labels are those of a node in which
    /// they are.
    proof fn lemma_same_labels_apart(&self, other: &Self)
        requires
            other.siblings_apart(),
            self.nodes@.len() == other.nodes@.len(),
            forall|j: int| 0 <= j < self.nodes@.len() ==> self.label(j) == other.label(j),
        ensures
            self.siblings_apart(),
    {
        assert forall|a: int, b: int|
            0 <= a < self.nodes@.len() && 0 <= b < self.nodes@.len() && a != b implies {
            &&& #[trigger] self.label(a) != #[trigger] self.label(b)
            &&& common_prefix_len(self.label(a), self.label(b)) == 0
        } by {
            assert(other.label(a) != other.label(b));
        }
    }

    /// After the subtree below edge `i` was changed and its label kept, a
    /// search that takes that edge goes on in the new subtree, and every
    /// other search finds what it found before.
    proof fn lemma_lookup_after_update(
        &self,
        before: &Self,
        i: int,
        label: &'a str,
        below: Self,
        key: Seq<char>,
    )
        requires
            before.siblings_apart(),
            0 <= i < before.nodes@.len(),
            label@ == before.label(i),
            self.nodes@ == before.nodes@.update(i, (label, below)),
        ensures
            self.siblings_apart(),
            self.lookup(key) == if before.takes_edge(i, key) {
                if label@ == key {
                    below.val
                } else {
                    below.lookup(key.skip(label@.len() as int))
                }
            } else {
                before.lookup(key)
            },
    {
        self.lemma_same_labels_apart(before);
        if before.takes_edge(i, key) {
            assert(self.takes_edge(i, key));
            self.lemma_lookup_below(i, key);
        } else if exists|j: int| before.takes_edge(j, key) {
            let j = choose|j: int| before.takes_edge(j, key);
            assert(self.takes_edge(j, key));
            before.lemma_lookup_below(j, key);
            self.lemma_lookup_below(j, key);
        } else {
            assert forall|j: int| !self.takes_edge(j, key) by {
                if self.takes_edge(j, key) {
                    assert(before.takes_edge(j, key));
                }
            }
        }
    }

    /// A search depends on the edges alone, not on the node's own value.
    proof fn lemma_lookup_same_edges(&self, other: &Self, key: Seq<char>)
        requires
            self.siblings_apart(),
            self.nodes@ == other.nodes@,
        ensures
            self.lookup(key) == other.lookup(key),
    {
        if exists|j: int| self.takes_edge(j, key) {
            let j = choose|j: int| self.takes_edge(j, key);
            assert(other.takes_edge(j, key));
            other.lemma_same_labels_apart(self);
            self.lemma_lookup_below(j, key);
            other.lemma_lookup_below(j, key);
        } else {
            assert forall|j: int| !other.takes_edge(j, key) by {
                if other.takes_edge(j, key) {
                    assert(self.takes_edge(j, key));
                }
            }
        }
    }

    /// After a leaf was added under a label that shares no prefix with the
    /// labels already there, the label finds the leaf's value, and every
    /// other search finds what it found before.
    proof fn lemma_lookup_after_push(&self, before: &Self, label: &'a str, leaf: Self, key: Seq<char>)
        requires
            before.siblings_apart(),
            forall|j: int|
                0 <= j < before.nodes@.len() ==> common_prefix_len(label@, before.label(j)) == 0,
            label@.len() > 0 || before.nodes@.len() == 0,
            leaf.nodes@.len() == 0,
            self.nodes@ == before.nodes@.push((label, leaf)),
        ensures
            self.siblings_apart(),
            self.lookup(key) == if key == label@ {
                leaf.val
            } else {
                before.lookup(key)
            },
    {
        let n = before.nodes@.len() as int;
        assert(self.label(n) == label@);
        assert forall|j: int| 0 <= j < n implies self.label(j) == before.label(j) by {}
        assert(self.siblings_apart()) by {
            assert forall|a: int, b: int|
                0 <= a < self.nodes@.len() && 0 <= b < self.nodes@.len() && a != b implies {
                &&& #[trigger] self.label(a) != #[trigger] self.label(b)
                &&& common_prefix_len(self.label(a), self.label(b)) == 0
            } by {
                if a < n && b < n {
                    assert(before.label(a) != before.label(b));
                } else if a == n {
                    assert(common_prefix_len(label@, before.label(b)) == 0);
                    lemma_common_prefix_len_same(label@);
                } else {
                    assert(common_prefix_len(label@, before.label(a)) == 0);
                    lemma_common_prefix_len_symmetric(label@, before.label(a));
                    lemma_common_prefix_len_same(label@);
                }
            }
        }
        if self.takes_edge(n, key) {
            self.lemma_lookup_below(n, key);
            if key != label@ {
                leaf.lemma_leaf_finds_nothing(key.skip(label@.len() as int));
                assert(key[0] == key.subrange(0, label@.len() as int)[0]);
                assert forall|j: int| !before.takes_edge(j, key) by {
                    if before.takes_edge(j, key) {
                        let other = before.label(j);
                        assert(common_prefix_len(label@, other) == 0);
                        assert(key[0] == key.subrange(0, other.len() as int)[0]);
                    }
                }
            }
        } else if exists|j: int| before.takes_edge(j, key) {
            let j = choose|j: int| before.takes_edge(j, key);
            assert(self.takes_edge(j, key));
            before.lemma_lookup_below(j, key);
            self.lemma_lookup_below(j, key);
        } else {
            assert forall|j: int| !self.takes_edge(j, key) by {
                if self.takes_edge(j, key) {
                    assert(before.takes_edge(j, key));
                }
            }
        }
    }

    /// A tree stays valid when the subtree below one of its edges is
    /// replaced by another valid one that holds something.
    proof fn lemma_wf_after_update(&self, before: &Self, i: int, label: &'a str, below: Self)
        requires
            before.wf(),
            0 <= i < before.nodes@.len(),
            label@ == before.label(i),
            label@.len() > 0,
            below.inner_wf(),
            below.inhabited(),
            self.nodes@ == before.nodes@.update(i, (label, below)),
        ensures
            self.wf(),
            before.inner_wf() ==> self.inner_wf(),
    {
        self.lemma_same_labels_apart(before);
        assert forall|j: int| 0 <= j < self.nodes@.len() implies {
            &&& (#[trigger] self.nodes@[j]).1.inner_wf()
            &&& self.nodes@[j].1.inhabited()
            &&& self.nodes@[j].0@.len() == 0 ==> self.nodes@[j].1.val is Some
            &&& before.inner_wf() ==> self.nodes@[j].0@.len() > 0
        } by {
            if j != i {
                assert(self.nodes@[j] == before.nodes@[j]);
            }
        }
    }

    /// Validity depends on the edges alone.
    proof fn lemma_same_edges_wf(&self, other: &Self)
        requires
            self.wf(),
            self.nodes@ == other.nodes@,
        ensures
            other.wf(),
            self.inner_wf() ==> other.inner_wf(),
    {
        other.lemma_same_labels_apart(self);
    }

    /// A tree stays valid when a leaf with a value is added under a label
    /// that shares no prefix with the labels already there.
    proof fn lemma_wf_after_push(&self, before: &Self, label: &'a str, leaf: Self)
        requires
            before.wf(),
            forall|j: int|
                0 <= j < before.nodes@.len() ==> common_prefix_len(label@, before.label(j)) == 0,
            label@.len() > 0 || before.nodes@.len() == 0,
            leaf.nodes@.len() == 0,
            leaf.val is Some,
            self.nodes@ == before.nodes@.push((label, leaf)),
        ensures
            self.wf(),
            before.inner_wf() && label@.len() > 0 ==> self.inner_wf(),
    {
        self.lemma_lookup_after_push(before, label, leaf, label@);
        assert(leaf.inner_wf());
        assert forall|j: int| 0 <= j < self.nodes@.len() implies {
            &&& (#[trigger] self.nodes@[j]).1.inner_wf()
            &&& self.nodes@[j].1.inhabited()
            &&& self.nodes@[j].0@.len() == 0 ==> self.nodes@[j].1.val is Some
            &&& before.inner_wf() && label@.len() > 0 ==> self.nodes@[j].0@.len() > 0
        } by {
            if j < before.nodes@.len() {
                assert(self.nodes@[j] == before.nodes@[j]);
            }
        }
    }

    /// Adding a leaf that holds `val`, under a label that shares no prefix
    /// with the labels already there, binds the label to `val`.
    proof fn lemma_push_binds(&self, before: &Self, label: &'a str, leaf: Self, val: T)
        requires
            before.wf(),
            forall|j: int|
                0 <= j < before.nodes@.len() ==> common_prefix_len(label@, before.label(j)) == 0,
            label@.len() > 0 || before.nodes@.len() == 0,
            leaf.nodes@.len() == 0,
            leaf.val == Some(val),
            self.nodes@ == before.nodes@.push((label, leaf)),
        ensures
            self.wf(),
            before.inner_wf() && label@.len() > 0 ==> self.inner_wf(),
            self.rebinds(before, label@, val),
    {
        self.lemma_wf_after_push(before, label, leaf);
        assert forall|k: Seq<char>|
            #[trigger] self.lookup(k) == if k == label@ {
                Some(val)
            } else {
                before.lookup(k)
            } by {
            self.lemma_lookup_after_push(before, label, leaf, k);
        }
    }

    /// Giving the node below edge `i` the value `val` binds the edge's label
    /// to `val`.
    proof fn lemma_overwrite_binds(&self, before: &Self, i: int, label: &'a str, after: Self, val: T)
        requires
            before.wf(),
            0 <= i < before.nodes@.len(),
            label@ == before.label(i),
            label@.len() > 0,
            after.nodes@ == before.child(i).nodes@,
            after.val == Some(val),
            self.nodes@ == before.nodes@.update(i, (label, after)),
        ensures
            self.wf(),
            before.inner_wf() ==> self.inner_wf(),
            self.rebinds(before, label@, val),
    {
        let below = before.child(i);
        assert(before.nodes@[i].1.inner_wf());
        below.lemma_inner_is_wf();
        below.lemma_same_edges_wf(&after);
        self.lemma_wf_after_update(before, i, label, after);
        assert forall|k: Seq<char>|
            #[trigger] self.lookup(k) == if k == label@ {
                Some(val)
            } else {
                before.lookup(k)
            } by {
            self.lemma_lookup_after_update(before, i, label, after, k);
            if before.takes_edge(i, k) {
                before.lemma_lookup_below(i, k);
                if k != label@ {
                    below.lemma_lookup_same_edges(&after, k.skip(label@.len() as int));
                }
            }
        }
    }

    /// Binding the rest of `key` below the edge whose label begins `key`
    /// binds `key`.
    proof fn lemma_descent_binds(
        &self,
        before: &Self,
        i: int,
        label: &'a str,
        after: Self,
        key: Seq<char>,
        val: T,
    )
        requires
            before.wf(),
            0 <= i < before.nodes@.len(),
            label@ == before.label(i),
            label@.len() > 0,
            label@.is_prefix_of(key),
            label@ != key,
            after.inner_wf(),
            after.inhabited(),
            after.val == before.child(i).val,
            after.rebinds(&before.child(i), key.skip(label@.len() as int), val),
            self.nodes@ == before.nodes@.update(i, (label, after)),
        ensures
            self.wf(),
            before.inner_wf() ==> self.inner_wf(),
            self.rebinds(before, key, val),
    {
        let cut = label@.len() as int;
        self.lemma_wf_after_update(before, i, label, after);
        assert forall|k: Seq<char>|
            #[trigger] self.lookup(k) == if k == key {
                Some(val)
            } else {
                before.lookup(k)
            } by {
            self.lemma_lookup_after_update(before, i, label, after, k);
            if before.takes_edge(i, k) {
                before.lemma_lookup_below(i, k);
                if k != key && k != label@ && k.skip(cut) == key.skip(cut) {
                    lemma_same_head_same_tail(k, key, cut);
                }
            }
        }
    }

    /// The shape that `split_node` leaves: edge `index` of `before` now has
    /// the label `base_key` and leads to a node without a value, whose one
    /// edge leads under `splitted_key` to the subtree that edge `index` had.
    spec fn is_split_of(
        &self,
        before: &Self,
        index: int,
        base_key: Seq<char>,
        splitted_key: Seq<char>,
    ) -> bool {
        &&& 0 <= index < before.nodes@.len()
        &&& base_key.len() > 0
        &&& splitted_key.len() > 0
        &&& before.label(index) == base_key + splitted_key
        &&& self.nodes@.len() == before.nodes@.len()
        &&& forall|j: int|
            0 <= j < before.nodes@.len() && j != index ==> self.nodes@[j] == before.nodes@[j]
        &&& self.label(index) == base_key
        &&& self.child(index).val is None
        &&& self.child(index).nodes@.len() == 1
        &&& self.child(index).label(0) == splitted_key
        &&& self.child(index).child(0) == before.child(index)
    }

    /// Siblings stay apart when an edge is split.
    proof fn lemma_split_keeps_apart(
        &self,
        before: &Self,
        index: int,
        base_key: Seq<char>,
        splitted_key: Seq<char>,
    )
        requires
            before.siblings_apart(),
            self.is_split_of(before, index, base_key, splitted_key),
        ensures
            self.siblings_apart(),
    {
        let whole = before.label(index);
        assert(whole[0] == base_key[0]);
        assert forall|a: int, b: int|
            0 <= a < self.nodes@.len() && 0 <= b < self.nodes@.len() && a != b implies {
            &&& #[trigger] self.label(a) != #[trigger] self.label(b)
            &&& common_prefix_len(self.label(a), self.label(b)) == 0
        } by {
            assert(before.label(a) != before.label(b));
            assert(common_prefix_len(before.label(a), before.label(b)) == 0);
            if a != index && b != index {
                assert(self.nodes@[a] == before.nodes@[a]);
                assert(self.nodes@[b] == before.nodes@[b]);
            } else if a == index {
                assert(self.nodes@[b] == before.nodes@[b]);
            } else {
                assert(self.nodes@[a] == before.nodes@[a]);
            }
        }
    }

    /// A tree stays valid when an edge is split.
    proof fn lemma_split_keeps_wf(
        &self,
        before: &Self,
        index: int,
        base_key: Seq<char>,
        splitted_key: Seq<char>,
    )
        requires
            before.wf(),
            self.is_split_of(before, index, base_key, splitted_key),
        ensures
            self.wf(),
            before.inner_wf() ==> self.inner_wf(),
    {
        self.lemma_split_keeps_apart(before, index, base_key, splitted_key);
        let middle = self.child(index);
        assert(middle.inner_wf()) by {
            assert(middle.nodes@[0].1 == before.nodes@[index].1);
            assert(middle.siblings_apart());
        }
        assert forall|j: int| 0 <= j < self.nodes@.len() implies {
            &&& (#[trigger] self.nodes@[j]).1.inner_wf()
            &&& self.nodes@[j].1.inhabited()
            &&& self.nodes@[j].0@.len() == 0 ==> self.nodes@[j].1.val is Some
            &&& before.inner_wf() ==> self.nodes@[j].0@.len() > 0
        } by {
            if j != index {
                assert(self.nodes@[j] == before.nodes@[j]);
            }
        }
    }

    /// Every search finds after a split what it found before.
    proof fn lemma_split_keeps_lookup(
        &self,
        before: &Self,
        index: int,
        base_key: Seq<char>,
        splitted_key: Seq<char>,
        key: Seq<char>,
    )
        requires
            before.siblings_apart(),
            self.is_split_of(before, index, base_key, splitted_key),
        ensures
            self.lookup(key) == before.lookup(key),
    {
        self.lemma_split_keeps_apart(before, index, base_key, splitted_key);
        let whole = before.label(index);
        let middle = self.child(index);
        let cut = base_key.len() as int;
        let tail = key.skip(cut);
        assert(whole.take(cut) =~= base_key);
        assert(whole.skip(cut) =~= splitted_key);
        assert(middle.siblings_apart());
        if before.takes_edge(index, key) {
            before.lemma_lookup_below(index, key);
            assert(base_key =~= key.take(cut));
            assert(self.takes_edge(index, key));
            self.lemma_lookup_below(index, key);
            if whole == key {
                assert(tail =~= splitted_key);
            } else {
                assert(splitted_key =~= tail.take(splitted_key.len() as int));
                assert(tail.skip(splitted_key.len() as int) =~= key.skip(whole.len() as int));
                if splitted_key == tail {
                    assert(key =~= key.take(cut) + tail);
                }
            }
            assert(middle.takes_edge(0, tail));
            middle.lemma_lookup_below(0, tail);
        } else if self.takes_edge(index, key) {
            self.lemma_lookup_below(index, key);
            assert forall|j: int| !before.takes_edge(j, key) by {
                if before.takes_edge(j, key) {
                    assert(j != index);
                    assert(self.nodes@[j] == before.nodes@[j]);
                    assert(self.takes_edge(j, key));
                    self.lemma_one_edge(j, index, key);
                }
            }
            if base_key != key {
                assert forall|j: int| !middle.takes_edge(j, tail) by {
                    if middle.takes_edge(j, tail) {
                        assert(j == 0);
                        assert(whole =~= key.take(whole.len() as int));
                        if splitted_key == tail {
                            assert(whole =~= key);
                        }
                    }
                }
            }
        } else if exists|j: int| before.takes_edge(j, key) {
            let j = choose|j: int| before.takes_edge(j, key);
            assert(self.nodes@[j] == before.nodes@[j]);
            assert(self.takes_edge(j, key));
            before.lemma_lookup_below(j, key);
            self.lemma_lookup_below(j, key);
        } else {
            assert forall|j: int| !self.takes_edge(j, key) by {
                if self.takes_edge(j, key) {
                    assert(self.nodes@[j] == before.nodes@[j]);
                    assert(before.takes_edge(j, key));
                }
            }
        }
    }

    /// Once the edge that shares a proper part of its label with `key` is
    /// split where `key` parts from it, no edge is left to split for `key`.
    proof fn lemma_split_settles(
        &self,
        before: &Self,
        index: int,
        base_key: Seq<char>,
        splitted_key: Seq<char>,
        key: Seq<char>,
    )
        requires
            before.siblings_apart(),
            self.is_split_of(before, index, base_key, splitted_key),
            base_key.len() == common_prefix_len(key, before.label(index)),
        ensures
            before.pending_split(key) == 1,
            self.pending_split(key) == 0,
    {
        let whole = before.label(index);
        let cut = base_key.len() as int;
        assert(shares_part(key, whole));
        lemma_common_prefix_len_parts(key, whole);
        assert forall|j: int| 0 <= j < self.nodes@.len() implies !shares_part(
            key,
            #[trigger] self.label(j),
        ) by {
            if j == index {
                assert(whole.take(cut) =~= base_key);
                assert(key.take(cut) =~= base_key.take(cut));
                lemma_common_prefix_len_unique(key, base_key, cut);
            } else {
                assert(self.nodes@[j] == before.nodes@[j]);
                assert(before.label(j) != whole);
                assert(common_prefix_len(whole, before.label(j)) == 0);
            }
        }
    }

    /// A valid node below the root that holds something holds it under some
    /// key: the empty one if the node has a value, else one that a search
    /// from the node finds.
    proof fn lemma_holds_key(&self) -> (key: Seq<char>)
        requires
            self.inner_wf(),
            self.inhabited(),
        ensures
            key.len() == 0 ==> self.val is Some,
            key.len() > 0 ==> self.lookup(key) is Some,
        decreases self,
    {
        if self.val is Some {
            Seq::empty()
        } else {
            let label = self.label(0);
            let below = self.child(0);
            assert(self.nodes@[0].1.inner_wf() && self.nodes@[0].0@.len() > 0);
            let rest = below.lemma_holds_key();
            let key = label + rest;
            assert(label =~= key.take(label.len() as int));
            assert(rest =~= key.skip(label.len() as int));
            assert(self.takes_edge(0, key));
            self.lemma_lookup_below(0, key);
            if rest.len() == 0 {
                assert(key =~= label);
            }
            key
        }
    }

    /// A valid tree has no edges exactly when nothing can be found in it.
    proof fn lemma_edges_iff_keys(&self)
        requires
            self.wf(),
        ensures
            self.nodes@.len() == 0 <==> forall|k: Seq<char>| !self@.contains_key(k),
    {
        if self.nodes@.len() == 0 {
            assert forall|k: Seq<char>| !self@.contains_key(k) by {
                self.lemma_leaf_finds_nothing(k);
            }
        } else {
            let label = self.label(0);
            let below = self.child(0);
            assert(self.nodes@[0].1.inner_wf());
            if label.len() == 0 {
                assert(self.takes_edge(0, label));
                self.lemma_lookup_below(0, label);
                assert(self@.contains_key(label));
            } else {
                let rest = below.lemma_holds_key();
                let key = label + rest;
                assert(label =~= key.take(label.len() as int));
                assert(rest =~= key.skip(label.len() as int));
                if rest.len() == 0 {
                    assert(key =~= label);
                }
                assert(self.takes_edge(0, key));
                self.lemma_lookup_below(0, key);
                assert(self@.contains_key(key));
            }
        }
    }

    /// A node with a value and no edges.
    pub fn new(val: T) -> (node: Self)
        ensures
            node.wf(),
            node@ == Map::<Seq<char>, T>::empty(),
            node.value() == Some(val),
    {
        let node = RadixNode { nodes: Vec::new(), val: Some(val) };
        assert(node@ =~= Map::<Seq<char>, T>::empty());
        node
    }

    /// A node with neither value nor edges: the empty tree.
    pub fn new_empty() -> (node: Self)
        ensures
            node.wf(),
            node@ == Map::<Seq<char>, T>::empty(),
            node.value() == None::<T>,
    {
        let node = RadixNode { nodes: Vec::new(), val: None };
        assert(node@ =~= Map::<Seq<char>, T>::empty());
        node
    }

    /// Whether some edge shares a proper part of its label with `key`, so
    /// that it has to be split before `key` can be filed.
    spec fn pending_split(&self, key: Seq<char>) -> nat {
        if exists|i: int|
            0 <= i < self.nodes@.len() && shares_part(key, #[trigger] self.label(i)) {
            1
        } else {
            0
        }
    }

    /// Binds `path` to `val`. A key that is bound already gets the new value;
    /// nothing else that was bound changes.
    ///
    /// The empty key is filed as an edge only while the node has no edges
    /// yet. Offered to a node that has some, it sets the node's own value,
    /// which no search returns.
    pub fn insert(&mut self, path: &'a str, val: T)
        requires
            old(self).wf(),
        ensures
            final(self).wf(),
            final(self)@ == bind(old(self)@, path@, val),
            final(self).value() == if files_as_edge(old(self)@, path@) {
                old(self).value()
            } else {
                Some(val)
            },
    {
        proof {
            self.lemma_edges_iff_keys();
        }
        self.insert_value(path, val);
        proof {
            if files_as_edge(old(self)@, path@) {
                assert(self@ =~= old(self)@.insert(path@, val));
            } else {
                assert forall|k: Seq<char>| self.lookup(k) == old(self).lookup(k) by {
                    old(self).lemma_lookup_same_edges(self, k);
                }
                assert(self@ =~= old(self)@);
            }
        }
    }

    /// Files `val` under `path` below this node: as a new leaf where no edge
    /// shares a prefix with `path`, else at or below the one edge that does,
    /// which is split first if `path` parts from its label midway.
    fn insert_value(&mut self, path: &'a str, val: T)
        requires
            old(self).wf(),
        ensures
            final(self).wf(),
            final(self).nodes@.len() > 0,
            old(self).inner_wf() && path@.len() > 0 ==> final(self).inner_wf(),
            path@.len() > 0 || old(self).nodes@.len() == 0 ==> {
                &&& final(self).val == old(self).val
                &&& final(self).rebinds(old(self), path@, val)
            },
            path@.len() == 0 && old(self).nodes@.len() > 0 ==> {
                &&& final(self).val == Some(val)
                &&& final(self).nodes@ == old(self).nodes@
            },
        decreases path@.len(), old(self).pending_split(path@),
    {
        if self.nodes.is_empty() {
            let leaf = RadixNode::new(val);
            self.nodes.push((path, leaf));
            proof {
                leaf.lemma_edges_iff_keys();
                self.lemma_push_binds(old(self), path, leaf, val);
            }
            return ;
        } else if path.is_empty() {
            self.val = Some(val);
            proof {
                old(self).lemma_same_edges_wf(self);
            }
            return ;
        }
        let path_length = path.unicode_len();
        let mut i: usize = 0;
        while i < self.nodes.len()
            invariant
                *self == *old(self),
                self.wf(),
                path_length == path@.len(),
                path_length > 0,
                i <= self.nodes@.len(),
                forall|j: int| 0 <= j < i ==> common_prefix_len(path@, self.label(j)) == 0,
            decreases self.nodes@.len() - i,
        {
            let key: &'a str = self.nodes[i].0;
            let splitting_index = longest_common_prefix(path, key);
            if splitting_index != 0 {
                let key_length = key.unicode_len();
                proof {
                    lemma_common_prefix_len_parts(path@, key@);
                    lemma_common_prefix_len_symmetric(path@, key@);
                    lemma_prefix_iff_shares_all(key@, path@);
                }
                if key_length == splitting_index {
                    if path_length == splitting_index {
                        let edge = &mut self.nodes[i];
                        edge.1.val = Some(val);
                        proof {
                            assert(key@ =~= path@);
                            let after = self.nodes@[i as int].1;
                            self.lemma_overwrite_binds(old(self), i as int, key, after, val);
                        }
                        return ;
                    }
                    let rest = path.substring_char(key_length, path_length);
                    proof {
                        old(self).nodes@[i as int].1.lemma_inner_is_wf();
                    }
                    let edge = &mut self.nodes[i];
                    edge.1.insert_value(rest, val);
                    proof {
                        let after = self.nodes@[i as int].1;
                        self.lemma_descent_binds(old(self), i as int, key, after, path@, val);
                    }
                    return ;
                }
                let base_key = key.substring_char(0, splitting_index);
                let splitted_key = key.substring_char(splitting_index, key_length);
                proof {
                    assert(key@ =~= base_key@ + splitted_key@);
                }
                self.split_node(i, base_key, splitted_key);
                proof {
                    self.lemma_split_settles(
                        old(self),
                        i as int,
                        base_key@,
                        splitted_key@,
                        path@,
                    );
                }
                self.insert_value(path, val);
                return ;
            }
            i = i + 1;
        }
        let leaf = RadixNode::new(val);
        self.nodes.push((path, leaf));
        proof {
            leaf.lemma_edges_iff_keys();
            self.lemma_push_binds(old(self), path, leaf, val);
        }
    }

    /// Splits the edge at `index`, whose label is `base_key` followed by
    /// `splitted_key`: the edge keeps `base_key` and leads to a new node
    /// without a value, below which `splitted_key` leads to the subtree that
    /// the edge had. Every search finds what it found before.
    fn split_node(&mut self, index: usize, base_key: &'a str, splitted_key: &'a str)
        requires
            old(self).wf(),
            index < old(self).nodes@.len(),
            base_key@.len() > 0,
            splitted_key@.len() > 0,
            old(self).label(index as int) == base_key@ + splitted_key@,
        ensures
            final(self).wf(),
            old(self).inner_wf() ==> final(self).inner_wf(),
            final(self).val == old(self).val,
            final(self).is_split_of(old(self), index as int, base_key@, splitted_key@),
            forall|k: Seq<char>| #[trigger] final(self).lookup(k) == old(self).lookup(k),
    {
        let main_node = RadixNode::new_empty();
        proof {
            main_node.lemma_edges_iff_keys();
        }
        self.nodes.push((base_key, main_node));
        let (_, node) = self.nodes.swap_remove(index);
        let main_node = &mut self.nodes[index];
        main_node.1.fill_node(splitted_key, node);
        proof {
            let middle = self.nodes@[index as int].1;
            assert(self.nodes@ =~= old(self).nodes@.update(index as int, (base_key, middle)));
            self.lemma_split_keeps_wf(old(self), index as int, base_key@, splitted_key@);
            assert forall|k: Seq<char>| #[trigger] self.lookup(k) == old(self).lookup(k) by {
                self.lemma_split_keeps_lookup(
                    old(self),
                    index as int,
                    base_key@,
                    splitted_key@,
                    k,
                );
            }
        }
    }

    /// Hangs `node` below this node, which has no edges yet, under
    /// `splitted_key`.
    fn fill_node(&mut self, splitted_key: &'a str, node: RadixNode<'a, T>)
        requires
            old(self).nodes@.len() == 0,
        ensures
            final(self).val == old(self).val,
            final(self).nodes@ == seq![(splitted_key, node)],
    {
        self.nodes.push((splitted_key, node));
        assert(self.nodes@ =~= seq![(splitted_key, node)]);
    }

    /// Looks `path` up: the value bound to exactly this key, if there is one.
    pub fn get(&self, path: &'a str) -> (found: Option<&T>)
        requires
            self.wf(),
        ensures
            match found {
                Some(val) => self@.contains_key(path@) && self@[path@] == *val,
                None => !self@.contains_key(path@),
            },
        decreases path@.len(),
    {
        if self.nodes.is_empty() {
            return None;
        }
        let path_length = path.unicode_len();
        let mut i: usize = 0;
        while i < self.nodes.len()
            invariant
                self.wf(),
                path_length == path@.len(),
                i <= self.nodes@.len(),
                forall|j: int| 0 <= j < i ==> !self.takes_edge(j, path@),
            decreases self.nodes@.len() - i,
        {
            let key: &'a str = self.nodes[i].0;
            let shared = longest_common_prefix(key, path);
            let key_length = key.unicode_len();
            proof {
                lemma_prefix_iff_shares_all(key@, path@);
                lemma_common_prefix_len_parts(key@, path@);
            }
            if shared == key_length {
                if shared == path_length {
                    proof {
                        assert(key@ =~= path@);
                        self.lemma_lookup_below(i as int, path@);
                    }
                    return self.nodes[i].1.val.as_ref();
                } else if key_length > 0 {
                    let rest = path.substring_char(key_length, path_length);
                    proof {
                        self.lemma_lookup_below(i as int, path@);
                        self.nodes@[i as int].1.lemma_inner_is_wf();
                    }
                    return self.nodes[i].1.get(rest);
                }
            }
            i = i + 1;
        }
        None
    }
}

impl<'a, T> Default for RadixNode<'a, T> {
    /// The empty tree.
    fn default() -> (node: Self)
        ensures
            node.wf(),
            node@ == Map::<Seq<char>, T>::empty(),
            node.value() == None::<T>,
    {
        Self::new_empty()
    }
}

} // verus!
