//! An unbalanced binary search tree over any totally ordered, copyable
//! key type, with set semantics and an in-order iterator that hands the
//! keys out in ascending order.

use std::collections::VecDeque;
use vstd::prelude::*;

verus! {

/// The outcome of a three-way comparison.
#[derive(Clone, Copy, Debug, PartialEq, Eq, Structural)]
pub enum Cmp {
    Less,
    Equal,
    Greater,
}

/// A total order on a key type: a reflexive, transitive, antisymmetric
/// and total relation `le`, together with an executable three-way
/// comparison that decides it.
pub trait TotalOrder: Sized + Copy {
    /// The ordering relation itself.
    spec fn le(self, other: Self) -> bool;

    /// Every value is ordered with itself.
    proof fn lemma_reflexive(a: Self)
        ensures
            a.le(a),
    ;

    /// The order composes.
    proof fn lemma_transitive(a: Self, b: Self, c: Self)
        requires
            a.le(b),
            b.le(c),
        ensures
            a.le(c),
    ;

    /// Values ordered both ways are the same value.
    proof fn lemma_antisymmetric(a: Self, b: Self)
        requires
            a.le(b),
            b.le(a),
        ensures
            a == b,
    ;

    /// Any two values are ordered one way or the other.
    proof fn lemma_total(a: Self, b: Self)
        ensures
            a.le(b) || b.le(a),
    ;

    /// Decides the order of two values.
    fn compare(&self, other: &Self) -> (c: Cmp)
        ensures
            (match c {
                Cmp::Less => self.le(*other) && *self != *other,
                Cmp::Equal => *self == *other,
                Cmp::Greater => other.le(*self) && *self != *other,
            }),
    ;
}

impl TotalOrder for i32 {
    open spec fn le(self, other: Self) -> bool {
        self <= other
    }

    proof fn lemma_reflexive(a: Self) {
    }

    proof fn lemma_transitive(a: Self, b: Self, c: Self) {
    }

    proof fn lemma_antisymmetric(a: Self, b: Self) {
    }

    proof fn lemma_total(a: Self, b: Self) {
    }

    fn compare(&self, other: &Self) -> (c: Cmp) {
        if *self < *other {
            Cmp::Less
        } else if *self == *other {
            Cmp::Equal
        } else {
            Cmp::Greater
        }
    }
}

/// An edge of the tree: either nothing, or a further node.
struct Link<T: TotalOrder>(Option<Box<Node<T>>>);

struct Node<T: TotalOrder> {
    elem: T,
    left: Link<T>,
    right: Link<T>,
}

/// A binary search tree of distinct keys of any totally ordered type.
pub struct BST<T: TotalOrder> {
    root: Link<T>,
}

/// Hands out the keys of a consumed tree in ascending order.
pub struct IntoIter<T: TotalOrder> {
    next: VecDeque<T>,
}

/// A strictly ascending sequence: every earlier element is below, and
/// different from, every later one.
pub open spec fn sorted_strict<T: TotalOrder>(s: Seq<T>) -> bool {
    forall|i: int, j: int| 0 <= i < j < s.len() ==> s[i].le(s[j]) && s[i] != s[j]
}

impl<T: TotalOrder> Node<T> {
    /// The set of keys in the subtree rooted at this node.
    pub closed spec fn as_set(self) -> Set<T>
        decreases self,
    {
        self.left.as_set().union(self.right.as_set()).insert(self.elem)
    }

    /// The search-tree ordering at this node and below it.
    pub closed spec fn well_formed(self) -> bool
        decreases self,
    {
        &&& self.left.well_formed()
        &&& self.right.well_formed()
        &&& forall|x: T| self.left.as_set().contains(x) ==> x.le(self.elem) && x != self.elem
        &&& forall|x: T| self.right.as_set().contains(x) ==> self.elem.le(x) && x != self.elem
    }

    /// Boxes a fresh leaf holding `elem`.
    pub fn boxed(elem: T) -> (b: Box<Node<T>>)
        ensures
            b.well_formed(),
            b.as_set() == Set::empty().insert(elem),
    {
        let b = Box::new(Node { elem, left: Link(None), right: Link(None) });
        proof {
            reveal_with_fuel(Link::as_set, 2);
            reveal_with_fuel(Link::well_formed, 2);
            assert(b.as_set() =~= Set::empty().insert(elem));
        }
        b
    }

    /// Inserts `elem` into the subtree rooted here; reports whether it
    /// was absent.
    fn insert(&mut self, elem: T) -> (r: bool)
        requires
            old(self).well_formed(),
        ensures
            final(self).well_formed(),
            final(self).as_set() == old(self).as_set().insert(elem),
            r == !old(self).as_set().contains(elem),
        decreases *old(self),
    {
        let r: bool;
        match elem.compare(&self.elem) {
            Cmp::Equal => {
                r = false;
            },
            Cmp::Less => {
                proof {
                    if old(self).right.as_set().contains(elem) {
                        T::lemma_antisymmetric(elem, old(self).elem);
                    }
                }
                r = (&mut self.left).insert(elem);
            },
            Cmp::Greater => {
                proof {
                    if old(self).left.as_set().contains(elem) {
                        T::lemma_antisymmetric(elem, old(self).elem);
                    }
                }
                r = (&mut self.right).insert(elem);
            },
        }
        proof {
            reveal_with_fuel(Link::as_set, 2);
            reveal_with_fuel(Link::well_formed, 2);
            assert(self.as_set() =~= old(self).as_set().insert(elem));
        }
        r
    }

    /// Lists the keys of the subtree rooted here in ascending order.
    fn inorder(&self) -> (d: VecDeque<T>)
        requires
            self.well_formed(),
        ensures
            sorted_strict(d@),
            forall|x: T| d@.contains(x) <==> self.as_set().contains(x),
        decreases self,
    {
        let mut left = self.left.inorder();
        let ghost dl: Seq<T> = left@;
        left.push_back(self.elem);
        let mut right = self.right.inorder();
        let ghost dr: Seq<T> = right@;
        left.append(&mut right);
        proof {
            assert(left@ == dl.push(self.elem) + dr);
            let n1 = dl.len() as int;
            assert forall|x: T| #[trigger] left@.contains(x) implies self.as_set().contains(x) by {
                let i = choose|i: int| 0 <= i < left@.len() && left@[i] == x;
                if i < n1 {
                    assert(dl[i] == x);
                    assert(dl.contains(x));
                } else if i == n1 {
                    assert(x == self.elem);
                } else {
                    assert(dr[i - n1 - 1] == x);
                    assert(dr.contains(x));
                }
            }
            assert forall|x: T| self.as_set().contains(x) implies #[trigger] left@.contains(x) by {
                if self.left.as_set().contains(x) {
                    let i = choose|i: int| 0 <= i < dl.len() && dl[i] == x;
                    assert(left@[i] == x);
                } else if x == self.elem {
                    assert(left@[n1] == x);
                } else {
                    assert(self.right.as_set().contains(x));
                    let i = choose|i: int| 0 <= i < dr.len() && dr[i] == x;
                    assert(left@[n1 + 1 + i] == x);
                }
            }
            assert forall|i: int, j: int| 0 <= i < j < left@.len() implies left@[i].le(left@[j])
                && left@[i] != left@[j] by {
                let x = left@[i];
                let y = left@[j];
                if j < n1 {
                    assert(dl[i] == x && dl[j] == y);
                } else if i < n1 && j == n1 {
                    assert(dl[i] == x);
                    assert(dl.contains(x));
                } else if i < n1 && j > n1 {
                    assert(dl[i] == x);
                    assert(dl.contains(x));
                    assert(dr[j - n1 - 1] == y);
                    assert(dr.contains(y));
                    T::lemma_transitive(x, self.elem, y);
                    if x == y {
                        T::lemma_antisymmetric(x, self.elem);
                    }
                } else if i == n1 && j > n1 {
                    assert(dr[j - n1 - 1] == y);
                    assert(dr.contains(y));
                } else {
                    assert(dr[i - n1 - 1] == x && dr[j - n1 - 1] == y);
                }
            }
        }
        left
    }

    /// Whether `elem` occurs in the subtree rooted here.
    fn search(&self, elem: T) -> (r: bool)
        requires
            self.well_formed(),
        ensures
            r == self.as_set().contains(elem),
        decreases self,
    {
        let found: bool;
        match elem.compare(&self.elem) {
            Cmp::Equal => {
                found = true;
            },
            Cmp::Less => {
                found = self.left.search(elem);
                proof {
                    if self.right.as_set().contains(elem) {
                        T::lemma_antisymmetric(elem, self.elem);
                    }
                }
            },
            Cmp::Greater => {
                found = self.right.search(elem);
                proof {
                    if self.left.as_set().contains(elem) {
                        T::lemma_antisymmetric(elem, self.elem);
                    }
                }
            },
        }
        proof {
            reveal_with_fuel(Link::as_set, 2);
            reveal_with_fuel(Link::well_formed, 2);
            assert(found == self.as_set().contains(elem));
        }
        found
    }
}

impl<T: TotalOrder> Link<T> {
    /// The set of keys reachable through this link.
    pub closed spec fn as_set(self) -> Set<T>
        decreases self,
    {
        match self {
            Link(None) => Set::empty(),
            Link(Some(node)) => node.as_set(),
        }
    }

    /// The search-tree ordering: keys below this link are arranged
    /// smaller left, larger right, recursively.
    pub closed spec fn well_formed(self) -> bool
        decreases self,
    {
        match self {
            Link(None) => true,
            Link(Some(node)) => node.well_formed(),
        }
    }

    /// Inserts `elem` below this link; reports whether it was absent.
    fn insert(&mut self, elem: T) -> (r: bool)
        requires
            old(self).well_formed(),
        ensures
            final(self).well_formed(),
            final(self).as_set() == old(self).as_set().insert(elem),
            r == !old(self).as_set().contains(elem),
        decreases *old(self),
    {
        let mut taken = Link(None);
        core::mem::swap(self, &mut taken);
        match taken {
            Link(None) => {
                *self = Link(Some(Node::boxed(elem)));
                proof {
                    reveal_with_fuel(Link::as_set, 2);
                    assert(self.as_set() =~= old(self).as_set().insert(elem));
                }
                true
            },
            Link(Some(mut node)) => {
                let r = (&mut *node).insert(elem);
                *self = Link(Some(node));
                proof {
                    reveal_with_fuel(Link::as_set, 2);
                    reveal_with_fuel(Link::well_formed, 2);
                    assert(self.as_set() =~= old(self).as_set().insert(elem));
                }
                r
            },
        }
    }

    /// Whether `elem` occurs below this link.
    fn search(&self, elem: T) -> (r: bool)
        requires
            self.well_formed(),
        ensures
            r == self.as_set().contains(elem),
        decreases self,
    {
        match self {
            Link(None) => false,
            Link(Some(node)) => node.search(elem),
        }
    }

    /// Lists the keys below this link in ascending order.
    fn inorder(&self) -> (d: VecDeque<T>)
        requires
            self.well_formed(),
        ensures
            sorted_strict(d@),
            forall|x: T| d@.contains(x) <==> self.as_set().contains(x),
        decreases self,
    {
        match self {
            Link(None) => VecDeque::new(),
            Link(Some(node)) => node.inorder(),
        }
    }
}

impl<T: TotalOrder> View for IntoIter<T> {
    type V = Seq<T>;

    closed spec fn view(&self) -> Seq<T> {
        self.next@
    }
}

impl<T: TotalOrder> IntoIter<T> {
    /// Hands out the next key in ascending order, until none are left.
    pub fn next(&mut self) -> (r: Option<T>)
        ensures
            old(self)@.len() == 0 ==> r is None && final(self)@ == old(self)@,
            old(self)@.len() > 0 ==> r == Some::<T>(old(self)@[0]) && final(self)@ == old(
                self,
            )@.drop_first(),
    {
        let r = self.next.pop_front();
        proof {
            if old(self)@.len() > 0 {
                assert(old(self)@.subrange(1, old(self)@.len() as int) =~= old(
                    self,
                )@.drop_first());
            }
        }
        r
    }
}

impl<T: TotalOrder> View for BST<T> {
    type V = Set<T>;

    closed spec fn view(&self) -> Set<T> {
        self.root.as_set()
    }
}

impl<T: TotalOrder> BST<T> {
    /// The search-tree ordering holds everywhere in the tree.
    pub closed spec fn well_formed(self) -> bool {
        self.root.well_formed()
    }

    /// Creates an empty tree.
    pub fn new() -> (t: BST<T>)
        ensures
            t.well_formed(),
            t@ =~= Set::<T>::empty(),
    {
        BST { root: Link(None) }
    }

    /// Inserts a key; reports whether it was absent before.
    pub fn insert(&mut self, elem: T) -> (r: bool)
        requires
            old(self).well_formed(),
        ensures
            final(self).well_formed(),
            final(self)@ == old(self)@.insert(elem),
            r == !old(self)@.contains(elem),
    {
        self.root.insert(elem)
    }

    /// Whether a key is in the tree.
    pub fn search(&self, elem: T) -> (r: bool)
        requires
            self.well_formed(),
        ensures
            r == self@.contains(elem),
    {
        self.root.search(elem)
    }

    /// Consumes the tree into an iterator over its keys, ascending.
    pub fn into_iter(self) -> (it: IntoIter<T>)
        requires
            self.well_formed(),
        ensures
            sorted_strict(it@),
            forall|x: T| it@.contains(x) <==> self@.contains(x),
    {
        IntoIter { next: self.root.inorder() }
    }
}

} // verus!
