use crate::node::{bind, files_as_edge, RadixNode};
use vstd::prelude::*;

verus! {

/// A compressed prefix tree, held by its root.
#[derive(Debug)]
pub struct Radyx<'a, T> {
    root: RadixNode<'a, T>,
}

impl<'a, T> Radyx<'a, T> {
    /// The keys that can be found in the tree, each with its value.
    pub closed spec fn view(&self) -> Map<Seq<char>, T> {
        self.root@
    }

    /// The value held by the root itself.
    pub closed spec fn value(&self) -> Option<T> {
        self.root.value()
    }

    /// Validity of the tree: that of its root.
    pub closed spec fn wf(&self) -> bool {
        self.root.wf()
    }

    /// A tree whose root has a value and no edges.
    pub fn new(val: T) -> (tree: Self)
        ensures
            tree.wf(),
            tree@ == Map::<Seq<char>, T>::empty(),
            tree.value() == Some(val),
    {
        Radyx { root: RadixNode::new(val) }
    }

    /// The empty tree.
    pub fn new_empty() -> (tree: Self)
        ensures
            tree.wf(),
            tree@ == Map::<Seq<char>, T>::empty(),
            tree.value() == None::<T>,
    {
        Radyx { root: RadixNode::new_empty() }
    }

    /// Binds `path` to `val`, as `RadixNode::insert` does at the root.
    pub fn insert(&mut self, path: &'a str, val: T)
        requires
            old(self).wf(),
        ensures
            final(self).wf(),
            final(self)@ == bind(old(self)@, path@, val),
            final(self).value() == if files_as_edge(old(self)@, path@) {
                old(self).value()
            } else {
                Some(val)
            },
    {
        self.root.insert(path, val);
    }

    /// Looks `path` up: the value bound to exactly this key, if there is one.
    pub fn get(&self, path: &'a str) -> (found: Option<&T>)
        requires
            self.wf(),
        ensures
            match found {
                Some(val) => self@.contains_key(path@) && self@[path@] == *val,
                None => !self@.contains_key(path@),
            },
    {
        self.root.get(path)
    }
}

impl<'a, T> Default for Radyx<'a, T> {
    /// The empty tree.
    fn default() -> (tree: Self)
        ensures
            tree.wf(),
            tree@ == Map::<Seq<char>, T>::empty(),
            tree.value() == None::<T>,
    {
        Self::new_empty()
    }
}

} // verus!
