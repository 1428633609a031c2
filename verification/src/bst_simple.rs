//! An unbalanced binary search tree of `i32` keys with set semantics:
//! insertion reports whether the key was new, search reports whether a
//! key is present.

use vstd::prelude::*;

verus! {

/// A binary search tree of distinct `i32` keys.
#[derive(Debug)]
pub struct BST {
    root: Link,
}

/// An edge of the tree: either nothing, or a further node.
#[derive(Debug)]
enum Link {
    Empty,
    More(Box<Node>),
}

#[derive(Debug)]
struct Node {
    elem: i32,
    left: Link,
    right: Link,
}

impl Node {
    /// The set of keys in the subtree rooted at this node.
    pub closed spec fn as_set(self) -> Set<i32>
        decreases self,
    {
        self.left.as_set().union(self.right.as_set()).insert(self.elem)
    }

    /// The search-tree ordering at this node and below it.
    pub closed spec fn well_formed(self) -> bool
        decreases self,
    {
        &&& self.left.well_formed()
        &&& self.right.well_formed()
        &&& forall|x: i32| self.left.as_set().contains(x) ==> x < self.elem
        &&& forall|x: i32| self.right.as_set().contains(x) ==> x > self.elem
    }

    /// Inserts `elem` into the subtree rooted here; reports whether it
    /// was absent.
    fn insert(&mut self, elem: i32) -> (r: bool)
        requires
            old(self).well_formed(),
        ensures
            final(self).well_formed(),
            final(self).as_set() == old(self).as_set().insert(elem),
            r == !old(self).as_set().contains(elem),
        decreases *old(self),
    {
        let r: bool;
        if elem == self.elem {
            r = false;
        } else if elem < self.elem {
            proof {
                if old(self).right.as_set().contains(elem) {
                    assert(elem > old(self).elem);
                }
            }
            r = (&mut self.left).insert(elem);
        } else {
            proof {
                if old(self).left.as_set().contains(elem) {
                    assert(elem < old(self).elem);
                }
            }
            r = (&mut self.right).insert(elem);
        }
        proof {
            reveal_with_fuel(Link::as_set, 2);
            reveal_with_fuel(Link::well_formed, 2);
            assert(self.as_set() =~= old(self).as_set().insert(elem));
        }
        r
    }

    /// Whether `elem` occurs in the subtree rooted here.
    fn search(&self, elem: i32) -> (r: bool)
        requires
            self.well_formed(),
        ensures
            r == self.as_set().contains(elem),
        decreases self,
    {
        let found: bool;
        if elem == self.elem {
            found = true;
        } else if elem < self.elem {
            found = self.left.search(elem);
            proof {
                if self.right.as_set().contains(elem) {
                    assert(elem > self.elem);
                }
            }
        } else {
            found = self.right.search(elem);
            proof {
                if self.left.as_set().contains(elem) {
                    assert(elem < self.elem);
                }
            }
        }
        proof {
            reveal_with_fuel(Link::as_set, 2);
            reveal_with_fuel(Link::well_formed, 2);
            assert(found == self.as_set().contains(elem));
        }
        found
    }
}

impl Link {
    /// The set of keys reachable through this link.
    pub closed spec fn as_set(self) -> Set<i32>
        decreases self,
    {
        match self {
            Link::Empty => Set::empty(),
            Link::More(node) => node.as_set(),
        }
    }

    /// The search-tree ordering: smaller keys left, larger keys right,
    /// recursively.
    pub closed spec fn well_formed(self) -> bool
        decreases self,
    {
        match self {
            Link::Empty => true,
            Link::More(node) => node.well_formed(),
        }
    }

    /// A leaf holding just `elem`.
    fn new(elem: i32) -> (l: Link)
        ensures
            l.well_formed(),
            l.as_set() == Set::empty().insert(elem),
    {
        let l = Link::More(Box::new(Node { elem: elem, left: Link::Empty, right: Link::Empty }));
        proof {
            reveal_with_fuel(Link::as_set, 2);
            reveal_with_fuel(Link::well_formed, 2);
            assert(l.as_set() =~= Set::empty().insert(elem));
        }
        l
    }

    /// Inserts `elem` below this link; reports whether it was absent.
    pub fn insert(&mut self, elem: i32) -> (r: bool)
        requires
            old(self).well_formed(),
        ensures
            final(self).well_formed(),
            final(self).as_set() == old(self).as_set().insert(elem),
            r == !old(self).as_set().contains(elem),
        decreases *old(self),
    {
        let mut taken = Link::Empty;
        core::mem::swap(self, &mut taken);
        match taken {
            Link::Empty => {
                *self = Link::new(elem);
                proof {
                    reveal_with_fuel(Link::as_set, 2);
                    assert(self.as_set() =~= old(self).as_set().insert(elem));
                }
                true
            },
            Link::More(mut node) => {
                let r = (&mut *node).insert(elem);
                *self = Link::More(node);
                proof {
                    reveal_with_fuel(Link::as_set, 2);
                    reveal_with_fuel(Link::well_formed, 2);
                    assert(self.as_set() =~= old(self).as_set().insert(elem));
                }
                r
            },
        }
    }

    /// Whether `elem` occurs below this link.
    pub fn search(&self, elem: i32) -> (r: bool)
        requires
            self.well_formed(),
        ensures
            r == self.as_set().contains(elem),
        decreases self,
    {
        match self {
            Link::Empty => false,
            Link::More(node) => node.search(elem),
        }
    }
}

impl View for BST {
    type V = Set<i32>;

    closed spec fn view(&self) -> Set<i32> {
        self.root.as_set()
    }
}

impl BST {
    /// The search-tree ordering holds everywhere in the tree.
    pub closed spec fn well_formed(self) -> bool {
        self.root.well_formed()
    }

    /// Creates an empty tree.
    pub fn new() -> (t: BST)
        ensures
            t.well_formed(),
            t@ =~= Set::<i32>::empty(),
    {
        BST { root: Link::Empty }
    }

    /// Inserts a key; reports whether it was absent before.
    pub fn insert(&mut self, elem: i32) -> (r: bool)
        requires
            old(self).well_formed(),
        ensures
            final(self).well_formed(),
            final(self)@ == old(self)@.insert(elem),
            r == !old(self)@.contains(elem),
    {
        self.root.insert(elem)
    }

    /// Whether a key is in the tree.
    pub fn search(&self, elem: i32) -> (r: bool)
        requires
            self.well_formed(),
        ensures
            r == self@.contains(elem),
    {
        self.root.search(elem)
    }
}

} // verus!
