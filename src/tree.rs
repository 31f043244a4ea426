//! A binary search tree, owned and rebuilt by value.

use vstd::prelude::*;
use std::rc::Rc;
use std::cmp::Ordering;

verus! {

/// A key type with a strict total order, compared at run time by `compare`.
pub trait TreeKey: Sized {
    spec fn less(self, other: Self) -> bool;

    proof fn lemma_order(a: Self, b: Self, c: Self)
        ensures
            !a.less(a),
            a.less(b) || b.less(a) || a == b,
            a.less(b) && b.less(c) ==> a.less(c),
    ;

    fn compare(&self, other: &Self) -> (o: Ordering)
        ensures
            (o == Ordering::Less) == self.less(*other),
            (o == Ordering::Equal) == (*self == *other),
            (o == Ordering::Greater) == other.less(*self),
    ;
}

impl TreeKey for i32 {
    open spec fn less(self, other: Self) -> bool {
        self < other
    }

    proof fn lemma_order(a: Self, b: Self, c: Self) {
    }

    fn compare(&self, other: &Self) -> (o: Ordering) {
        if *self < *other {
            Ordering::Less
        } else if *self == *other {
            Ordering::Equal
        } else {
            Ordering::Greater
        }
    }
}

impl TreeKey for i64 {
    open spec fn less(self, other: Self) -> bool {
        self < other
    }

    proof fn lemma_order(a: Self, b: Self, c: Self) {
    }

    fn compare(&self, other: &Self) -> (o: Ordering) {
        if *self < *other {
            Ordering::Less
        } else if *self == *other {
            Ordering::Equal
        } else {
            Ordering::Greater
        }
    }
}

impl TreeKey for u32 {
    open spec fn less(self, other: Self) -> bool {
        self < other
    }

    proof fn lemma_order(a: Self, b: Self, c: Self) {
    }

    fn compare(&self, other: &Self) -> (o: Ordering) {
        if *self < *other {
            Ordering::Less
        } else if *self == *other {
            Ordering::Equal
        } else {
            Ordering::Greater
        }
    }
}

impl TreeKey for u64 {
    open spec fn less(self, other: Self) -> bool {
        self < other
    }

    proof fn lemma_order(a: Self, b: Self, c: Self) {
    }

    fn compare(&self, other: &Self) -> (o: Ordering) {
        if *self < *other {
            Ordering::Less
        } else if *self == *other {
            Ordering::Equal
        } else {
            Ordering::Greater
        }
    }
}

impl TreeKey for usize {
    open spec fn less(self, other: Self) -> bool {
        self < other
    }

    proof fn lemma_order(a: Self, b: Self, c: Self) {
    }

    fn compare(&self, other: &Self) -> (o: Ordering) {
        if *self < *other {
            Ordering::Less
        } else if *self == *other {
            Ordering::Equal
        } else {
            Ordering::Greater
        }
    }
}

impl TreeKey for char {
    open spec fn less(self, other: Self) -> bool {
        self < other
    }

    proof fn lemma_order(a: Self, b: Self, c: Self) {
    }

    fn compare(&self, other: &Self) -> (o: Ordering) {
        if *self < *other {
            Ordering::Less
        } else if *self == *other {
            Ordering::Equal
        } else {
            Ordering::Greater
        }
    }
}

/// A binary tree whose nodes hold a key and a value.
#[derive(Debug, PartialEq)]
pub enum BinaryTree<K, V> {
    Leaf,
    NonLeaf { key: K, val: V, left: Box<BinaryTree<K, V>>, right: Box<BinaryTree<K, V>> },
}

impl<K: Clone, V: Clone> Clone for BinaryTree<K, V> {
    fn clone(&self) -> (r: Self)
        decreases self,
    {
        match self {
            BinaryTree::Leaf => BinaryTree::Leaf,
            BinaryTree::NonLeaf { key, val, left, right } => BinaryTree::NonLeaf {
                key: key.clone(),
                val: val.clone(),
                left: Box::new((**left).clone()),
                right: Box::new((**right).clone()),
            },
        }
    }
}

impl<K: TreeKey, V> BinaryTree<K, V> {
    /// The entries of the tree; a key nearer the root wins over the same key below it.
    pub open spec fn view(self) -> Map<K, V>
        decreases self,
    {
        match self {
            BinaryTree::Leaf => Map::empty(),
            BinaryTree::NonLeaf { key, val, left, right } => left.view().union_prefer_right(
                right.view(),
            ).insert(key, val),
        }
    }

    /// Every key of a left subtree is less than its node's key, and every key of a
    /// right subtree greater.
    pub open spec fn well_formed(self) -> bool
        decreases self,
    {
        match self {
            BinaryTree::Leaf => true,
            BinaryTree::NonLeaf { key, val, left, right } => {
                &&& forall|k: K| #[trigger] left.view().contains_key(k) ==> k.less(key)
                &&& forall|k: K| #[trigger] right.view().contains_key(k) ==> key.less(k)
                &&& left.well_formed()
                &&& right.well_formed()
            },
        }
    }

    /// The value stored under `key`.
    pub fn lookup(&self, key: &K) -> (r: Option<&V>)
        requires
            self.well_formed(),
        ensures
            match r {
                Some(v) => self.view().contains_key(*key) && self.view()[*key] == *v,
                None => !self.view().contains_key(*key),
            },
        decreases self,
    {
        match self {
            BinaryTree::Leaf => None,
            BinaryTree::NonLeaf { key: k, val: v, left, right } => {
                proof {
                    K::lemma_order(*k, *key, *key);
                }
                match k.compare(key) {
                    Ordering::Equal => Some(v),
                    Ordering::Less => {
                        proof {
                            assert(!left.view().contains_key(*key)) by {
                                if left.view().contains_key(*key) {
                                    K::lemma_order(*key, *k, *key);
                                }
                            }
                        }
                        right.lookup(key)
                    },
                    Ordering::Greater => {
                        proof {
                            assert(!right.view().contains_key(*key)) by {
                                if right.view().contains_key(*key) {
                                    K::lemma_order(*key, *k, *key);
                                }
                            }
                        }
                        left.lookup(key)
                    },
                }
            },
        }
    }

    /// The tree with `val` stored under `key`, replacing any value held there.
    pub fn insert(self, key: K, val: V) -> (r: Self)
        requires
            self.well_formed(),
        ensures
            r.well_formed(),
            r.view() == self.view().insert(key, val),
        decreases self,
    {
        match self {
            BinaryTree::Leaf => {
                let r = BinaryTree::NonLeaf {
                    key,
                    val,
                    left: Box::new(BinaryTree::Leaf),
                    right: Box::new(BinaryTree::Leaf),
                };
                proof {
                    assert(BinaryTree::<K, V>::Leaf.view() == Map::<K, V>::empty());
                    assert(r.view() =~= Map::<K, V>::empty().insert(key, val));
                }
                r
            },
            BinaryTree::NonLeaf { key: k, val: v, left, right } => {
                let ghost old_view = self.view();
                let ghost lv = left.view();
                let ghost rv = right.view();
                proof {
                    K::lemma_order(k, key, key);
                }
                match k.compare(&key) {
                    Ordering::Equal => {
                        let r = BinaryTree::NonLeaf { key, val, left, right };
                        proof {
                            assert(r.view() =~= old_view.insert(key, val));
                        }
                        r
                    },
                    Ordering::Greater => {
                        let new_left = (*left).insert(key, val);
                        let r = BinaryTree::NonLeaf { key: k, val: v, left: Box::new(new_left), right };
                        proof {
                            assert forall|x: K| #[trigger] new_left.view().contains_key(x) implies x.less(k) by {
                                if x != key {
                                    assert(lv.contains_key(x));
                                }
                            }
                            assert(!rv.contains_key(key)) by {
                                if rv.contains_key(key) {
                                    K::lemma_order(key, k, key);
                                }
                            }
                            assert(r.view() =~= old_view.insert(key, val));
                        }
                        r
                    },
                    Ordering::Less => {
                        let new_right = (*right).insert(key, val);
                        let r = BinaryTree::NonLeaf { key: k, val: v, left, right: Box::new(new_right) };
                        proof {
                            assert forall|x: K| #[trigger] new_right.view().contains_key(x) implies k.less(x) by {
                                if x != key {
                                    assert(rv.contains_key(x));
                                }
                            }
                            assert(!lv.contains_key(key)) by {
                                if lv.contains_key(key) {
                                    K::lemma_order(key, k, key);
                                }
                            }
                            assert(r.view() =~= old_view.insert(key, val));
                        }
                        r
                    },
                }
            },
        }
    }
    /// A mapped tree has the same keys, so it is well formed when this one is.
    pub proof fn lemma_mapped_keys<F: Fn(V) -> V>(self, r: Self, f: &F)
        requires
            self.mapped_by(r, *f),
        ensures
            r.view().dom() == self.view().dom(),
            self.well_formed() ==> r.well_formed(),
        decreases self,
    {
        match self {
            BinaryTree::Leaf => {
                assert(r.view().dom() =~= self.view().dom());
            },
            BinaryTree::NonLeaf { key, val, left, right } => {
                match r {
                    BinaryTree::Leaf => {},
                    BinaryTree::NonLeaf { key: k2, val: v2, left: l2, right: r2 } => {
                        (*left).lemma_mapped_keys(*l2, f);
                        (*right).lemma_mapped_keys(*r2, f);
                        assert(r.view().dom() =~= self.view().dom());
                        if self.well_formed() {
                            assert forall|k: K| #[trigger] (*l2).view().contains_key(k) implies k.less(key) by {
                                assert((*left).view().dom().contains(k));
                            }
                            assert forall|k: K| #[trigger] (*r2).view().contains_key(k) implies key.less(k) by {
                                assert((*right).view().dom().contains(k));
                            }
                        }
                    },
                }
            },
        }
    }

    pub fn is_leaf(&self) -> (b: bool)
        ensures
            b == (self is Leaf),
    {
        match self {
            BinaryTree::Leaf => true,
            BinaryTree::NonLeaf { .. } => false,
        }
    }

    proof fn lemma_nonleaf_view(self)
        requires
            self is NonLeaf,
        ensures
            self.view().contains_key(self->key),
    {
    }

    /// Takes out the entry with the least key; `None` for an empty tree.
    pub fn remove_smallest(self) -> (r: Option<(K, V, Self)>)
        requires
            self.well_formed(),
        ensures
            r is None ==> self.view() == Map::<K, V>::empty(),
            r matches Some((k, v, t)) ==> {
                &&& self.view().contains_key(k)
                &&& self.view()[k] == v
                &&& forall|x: K| #[trigger] self.view().contains_key(x) && x != k ==> k.less(x)
                &&& t.well_formed()
                &&& t.view() == self.view().remove(k)
            },
        decreases self,
    {
        match self {
            BinaryTree::Leaf => None,
            BinaryTree::NonLeaf { key, val, left, right } => {
                let ghost old_view = self.view();
                let ghost lv = left.view();
                let ghost rv = right.view();
                match (*left).remove_smallest() {
                    None => {
                        let t = *right;
                        proof {
                            K::lemma_order(key, key, key);
                            assert(t.view() =~= old_view.remove(key));
                        }
                        Some((key, val, t))
                    },
                    Some((k, v, tree)) => {
                        let t = BinaryTree::NonLeaf { key, val, left: Box::new(tree), right };
                        proof {
                            K::lemma_order(k, key, key);
                            assert forall|x: K| #[trigger] old_view.contains_key(x) && x != k implies k.less(x) by {
                                if rv.contains_key(x) {
                                    K::lemma_order(k, key, x);
                                }
                            }
                            assert(!rv.contains_key(k)) by {
                                if rv.contains_key(k) {
                                    K::lemma_order(k, key, k);
                                }
                            }
                            assert(t.view() =~= old_view.remove(k));
                        }
                        Some((k, v, t))
                    },
                }
            },
        }
    }

    /// The tree without any entry under `key`.
    pub fn remove(self, key: &K) -> (r: Self)
        requires
            self.well_formed(),
        ensures
            r.well_formed(),
            r.view() == self.view().remove(*key),
        decreases self,
    {
        match self {
            BinaryTree::Leaf => {
                proof {
                    assert(self.view().remove(*key) =~= self.view());
                }
                self
            },
            BinaryTree::NonLeaf { key: k, val, left, right } => {
                let ghost old_view = self.view();
                let ghost lv = left.view();
                let ghost rv = right.view();
                proof {
                    K::lemma_order(k, *key, *key);
                }
                match k.compare(key) {
                    Ordering::Equal => {
                        proof {
                            assert(!lv.contains_key(k));
                            assert(!rv.contains_key(k));
                        }
                        let l = *left;
                        let rt = *right;
                        if l.is_leaf() {
                            proof {
                                assert(rt.view() =~= old_view.remove(*key));
                            }
                            rt
                        } else if rt.is_leaf() {
                            proof {
                                assert(l.view() =~= old_view.remove(*key));
                            }
                            l
                        } else {
                            proof {
                                rt.lemma_nonleaf_view();
                            }
                            match rt.remove_smallest() {
                                Some((k2, v2, r2)) => {
                                    let t = BinaryTree::NonLeaf { key: k2, val: v2, left: Box::new(l), right: Box::new(r2) };
                                    proof {
                                        assert forall|x: K| #[trigger] lv.contains_key(x) implies x.less(k2) by {
                                            K::lemma_order(x, k, k2);
                                        }
                                        assert(!lv.contains_key(k2)) by {
                                            K::lemma_order(k2, k, k2);
                                        }
                                        assert(t.view() =~= old_view.remove(*key));
                                    }
                                    t
                                },
                                None => BinaryTree::Leaf,
                            }
                        }
                    },
                    Ordering::Greater => {
                        let new_left = (*left).remove(key);
                        let t = BinaryTree::NonLeaf { key: k, val, left: Box::new(new_left), right };
                        proof {
                            assert(!rv.contains_key(*key)) by {
                                if rv.contains_key(*key) {
                                    K::lemma_order(*key, k, *key);
                                }
                            }
                            assert(t.view() =~= old_view.remove(*key));
                        }
                        t
                    },
                    Ordering::Less => {
                        let new_right = (*right).remove(key);
                        let t = BinaryTree::NonLeaf { key: k, val, left, right: Box::new(new_right) };
                        proof {
                            assert(!lv.contains_key(*key)) by {
                                if lv.contains_key(*key) {
                                    K::lemma_order(*key, k, *key);
                                }
                            }
                            assert(t.view() =~= old_view.remove(*key));
                        }
                        t
                    },
                }
            },
        }
    }
}

impl<K, V> BinaryTree<K, V> {
    /// `r` has the shape and keys of this tree, with each value `v` replaced by one
    /// that `f` may return for `v`.
    pub open spec fn mapped_by<F: Fn(V) -> V>(self, r: Self, f: F) -> bool
        decreases self,
    {
        match self {
            BinaryTree::Leaf => r is Leaf,
            BinaryTree::NonLeaf { key, val, left, right } => match r {
                BinaryTree::Leaf => false,
                BinaryTree::NonLeaf { key: k2, val: v2, left: l2, right: r2 } => {
                    &&& k2 == key
                    &&& f.ensures((val,), v2)
                    &&& (*left).mapped_by(*l2, f)
                    &&& (*right).mapped_by(*r2, f)
                },
            },
        }
    }

    /// Like `mapped_by`, for the nodes less than `depth` below the root; the nodes
    /// further down are kept as they are.
    pub open spec fn mapped_above<F: Fn(V) -> V>(self, r: Self, f: F, depth: nat) -> bool
        decreases self,
    {
        match self {
            BinaryTree::Leaf => r is Leaf,
            BinaryTree::NonLeaf { key, val, left, right } => match r {
                BinaryTree::Leaf => false,
                BinaryTree::NonLeaf { key: k2, val: v2, left: l2, right: r2 } => {
                    &&& k2 == key
                    &&& if depth > 0 {
                        f.ensures((val,), v2)
                    } else {
                        v2 == val
                    }
                    &&& (*left).mapped_above(*l2, f, if depth > 0 { (depth - 1) as nat } else { 0 })
                    &&& (*right).mapped_above(*r2, f, if depth > 0 { (depth - 1) as nat } else { 0 })
                },
            },
        }
    }

    /// `r` is this tree with the values of the nodes exactly `depth` below the root
    /// replaced by what `f` may return for them.
    pub open spec fn level_mapped<F: Fn(V) -> V>(self, r: Self, f: F, depth: nat) -> bool
        decreases self,
    {
        match self {
            BinaryTree::Leaf => r is Leaf,
            BinaryTree::NonLeaf { key, val, left, right } => match r {
                BinaryTree::Leaf => false,
                BinaryTree::NonLeaf { key: k2, val: v2, left: l2, right: r2 } => {
                    &&& k2 == key
                    &&& if depth == 0 {
                        f.ensures((val,), v2) && l2 == left && r2 == right
                    } else {
                        v2 == val && (*left).level_mapped(*l2, f, (depth - 1) as nat) && (*right).level_mapped(
                            *r2,
                            f,
                            (depth - 1) as nat,
                        )
                    }
                },
            },
        }
    }

    pub open spec fn height(self) -> nat
        decreases self,
    {
        match self {
            BinaryTree::Leaf => 0,
            BinaryTree::NonLeaf { left, right, .. } => {
                let l = (*left).height();
                let r = (*right).height();
                1 + if l >= r { l } else { r }
            },
        }
    }

    proof fn lemma_mapped_above_zero<F: Fn(V) -> V>(self, r: Self, f: F)
        ensures
            self.mapped_above(r, f, 0) == (r == self),
        decreases self,
    {
        match self {
            BinaryTree::Leaf => {},
            BinaryTree::NonLeaf { key, val, left, right } => {
                match r {
                    BinaryTree::Leaf => {},
                    BinaryTree::NonLeaf { key: k2, val: v2, left: l2, right: r2 } => {
                        (*left).lemma_mapped_above_zero(*l2, f);
                        (*right).lemma_mapped_above_zero(*r2, f);
                    },
                }
            },
        }
    }

    proof fn lemma_level_step<F: Fn(V) -> V>(self, r1: Self, r2: Self, f: F, depth: nat)
        requires
            self.mapped_above(r1, f, depth),
            r1.level_mapped(r2, f, depth),
        ensures
            self.mapped_above(r2, f, depth + 1),
        decreases self,
    {
        match self {
            BinaryTree::Leaf => {},
            BinaryTree::NonLeaf { key, val, left, right } => {
                match r1 {
                    BinaryTree::Leaf => {},
                    BinaryTree::NonLeaf { key: k1, val: v1, left: l1, right: rr1 } => {
                        match r2 {
                            BinaryTree::Leaf => {},
                            BinaryTree::NonLeaf { key: k2, val: v2, left: l2, right: rr2 } => {
                                if depth == 0 {
                                    self.lemma_mapped_above_zero(r1, f);
                                    (*left).lemma_mapped_above_zero(*l2, f);
                                    (*right).lemma_mapped_above_zero(*rr2, f);
                                } else {
                                    (*left).lemma_level_step(*l1, *l2, f, (depth - 1) as nat);
                                    (*right).lemma_level_step(*rr1, *rr2, f, (depth - 1) as nat);
                                }
                            },
                        }
                    },
                }
            },
        }
    }

    proof fn lemma_mapped_above_height<F: Fn(V) -> V>(self, r: Self, f: F, depth: nat)
        requires
            self.mapped_above(r, f, depth),
            depth >= self.height(),
        ensures
            self.mapped_by(r, f),
        decreases self,
    {
        match self {
            BinaryTree::Leaf => {},
            BinaryTree::NonLeaf { key, val, left, right } => {
                match r {
                    BinaryTree::Leaf => {},
                    BinaryTree::NonLeaf { key: k2, val: v2, left: l2, right: r2 } => {
                        (*left).lemma_mapped_above_height(*l2, f, (depth - 1) as nat);
                        (*right).lemma_mapped_above_height(*r2, f, (depth - 1) as nat);
                    },
                }
            },
        }
    }

    proof fn lemma_level_mapped_height<F: Fn(V) -> V>(self, r: Self, f: F, depth: nat)
        requires
            self.level_mapped(r, f, depth),
        ensures
            r.height() == self.height(),
        decreases self,
    {
        match self {
            BinaryTree::Leaf => {},
            BinaryTree::NonLeaf { key, val, left, right } => {
                match r {
                    BinaryTree::Leaf => {},
                    BinaryTree::NonLeaf { key: k2, val: v2, left: l2, right: r2 } => {
                        if depth > 0 {
                            (*left).lemma_level_mapped_height(*l2, f, (depth - 1) as nat);
                            (*right).lemma_level_mapped_height(*r2, f, (depth - 1) as nat);
                        }
                    },
                }
            },
        }
    }

    proof fn lemma_mapped_above_refl<F: Fn(V) -> V>(self, f: F)
        ensures
            self.mapped_above(self, f, 0),
    {
        self.lemma_mapped_above_zero(self, f);
    }

    fn exec_height(&self) -> (h: usize)
        requires
            self.height() <= usize::MAX,
        ensures
            h == self.height(),
        decreases self,
    {
        match self {
            BinaryTree::Leaf => 0,
            BinaryTree::NonLeaf { left, right, .. } => {
                let l = left.exec_height();
                let r = right.exec_height();
                if l >= r {
                    l + 1
                } else {
                    r + 1
                }
            },
        }
    }

    fn map_values<F: Fn(V) -> V>(self, f: &F) -> (r: Self)
        requires
            forall|v: V| f.requires((v,)),
        ensures
            self.mapped_by(r, *f),
        decreases self,
    {
        match self {
            BinaryTree::Leaf => BinaryTree::Leaf,
            BinaryTree::NonLeaf { key, val, left, right } => {
                let val = f(val);
                let left = (*left).map_values(f);
                let right = (*right).map_values(f);
                BinaryTree::NonLeaf { key, val, left: Box::new(left), right: Box::new(right) }
            },
        }
    }

    fn map_level<F: Fn(V) -> V>(self, depth: usize, f: &F) -> (r: Self)
        requires
            forall|v: V| f.requires((v,)),
        ensures
            self.level_mapped(r, *f, depth as nat),
        decreases self,
    {
        match self {
            BinaryTree::Leaf => BinaryTree::Leaf,
            BinaryTree::NonLeaf { key, val, left, right } => {
                if depth == 0 {
                    let val = f(val);
                    BinaryTree::NonLeaf { key, val, left, right }
                } else {
                    let left = (*left).map_level(depth - 1, f);
                    let right = (*right).map_level(depth - 1, f);
                    BinaryTree::NonLeaf { key, val, left: Box::new(left), right: Box::new(right) }
                }
            },
        }
    }

}

impl<K: TreeKey, V> BinaryTree<K, V> {
    /// Applies `f` to every value, depth first: a node, then its left subtree, then its
    /// right subtree. Keys and shape are kept.
    pub fn map_dfs<F: Fn(V) -> V>(self, f: Rc<F>) -> (r: Self)
        requires
            forall|v: V| (*f).requires((v,)),
        ensures
            self.mapped_by(r, *f),
            r.view().dom() == self.view().dom(),
            self.well_formed() ==> r.well_formed(),
    {
        let r = self.map_values(&*f);
        proof {
            self.lemma_mapped_keys(r, &*f);
        }
        r
    }

    /// Applies `f` to every value, breadth first: the root, then the nodes one level
    /// down from left to right, and so on. Keys and shape are kept.
    pub fn map_bfs<F: Fn(V) -> V>(self, f: Rc<F>) -> (r: Self)
        requires
            forall|v: V| (*f).requires((v,)),
            self.height() <= usize::MAX,
        ensures
            self.mapped_by(r, *f),
            r.view().dom() == self.view().dom(),
            self.well_formed() ==> r.well_formed(),
    {
        let g: &F = &*f;
        let h = self.exec_height();
        let ghost orig = self;
        proof {
            orig.lemma_mapped_above_refl(*g);
        }
        let mut t = self;
        let mut depth: usize = 0;
        while depth < h
            invariant
                forall|v: V| g.requires((v,)),
                h == orig.height(),
                depth <= h,
                t.height() == orig.height(),
                orig.mapped_above(t, *g, depth as nat),
            decreases h - depth,
        {
            let next = t.map_level(depth, g);
            proof {
                t.lemma_level_mapped_height(next, *g, depth as nat);
                orig.lemma_level_step(t, next, *g, depth as nat);
            }
            t = next;
            depth = depth + 1;
        }
        proof {
            orig.lemma_mapped_above_height(t, *g, depth as nat);
            orig.lemma_mapped_keys(t, g);
        }
        t
    }
}

} // verus!
