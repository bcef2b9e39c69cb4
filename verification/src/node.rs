//! The nodes of a red-black tree, their meaning as sorted sequences of pairs,
//! lookup, and insertion with Okasaki's rebalancing.
use crate::entries::{
    lemma_all_lt_keys_lt, lemma_lookup_node, lemma_map_of_node, lemma_sorted_node, map_of, sorted,
    with_entry,
};
use crate::order::{compare_keys, key_lt, key_order_lawful, KeyOrder};
use crate::shared::{make_mut, share};
use std::sync::Arc;
use vstd::arithmetic::power2::{lemma_pow2_unfold, pow2};
use vstd::prelude::*;

verus! {

/// A key with its value.
#[derive(Debug)]
pub struct Entry<K, V> {
    pub key: K,
    pub value: V,
}

impl<K: Clone, V: Clone> Clone for Entry<K, V> {
    fn clone(&self) -> (e: Entry<K, V>)
        ensures
            cloned::<K>(self.key, e.key),
            cloned::<V>(self.value, e.value),
    {
        Entry { key: self.key.clone(), value: self.value.clone() }
    }
}

impl<K, V> Entry<K, V> {
    pub fn new(key: K, value: V) -> (e: Entry<K, V>)
        ensures
            e.key == key,
            e.value == value,
    {
        Entry { key, value }
    }
}

#[derive(Clone, Copy, Debug)]
pub enum Color {
    Red,
    Black,
}

#[derive(Debug)]
pub struct Node<K, V> {
    pub entry: Arc<Entry<K, V>>,
    pub color: Color,
    pub left: Option<Arc<Node<K, V>>>,
    pub right: Option<Arc<Node<K, V>>>,
}

/// The pairs of a tree, in order.
pub open spec fn elems<K, V>(t: Option<Arc<Node<K, V>>>) -> Seq<(K, V)>
    decreases t,
{
    match t {
        None => Seq::empty(),
        Some(n) => elems(n.left) + seq![(n.entry.key, n.entry.value)] + elems(n.right),
    }
}

/// The number of black nodes on a path from the root down the left spine.
pub open spec fn bh<K, V>(t: Option<Arc<Node<K, V>>>) -> nat
    decreases t,
{
    match t {
        None => 0,
        Some(n) => bh(n.left) + if n.color is Black {
            1nat
        } else {
            0nat
        },
    }
}

/// The number of nodes on the longest path down from the root.
pub open spec fn height<K, V>(t: Option<Arc<Node<K, V>>>) -> nat
    decreases t,
{
    match t {
        None => 0,
        Some(n) => 1 + if height(n.left) >= height(n.right) {
            height(n.left)
        } else {
            height(n.right)
        },
    }
}

/// The number of nodes that a search for `k` compares `k` with: it starts at
/// the root, stops at a node holding `k`, and otherwise goes left of a greater
/// key and right of a smaller one until it falls off the tree.
pub open spec fn path_len<K: Ord, V>(t: Option<Arc<Node<K, V>>>, k: K) -> nat
    decreases t,
{
    match t {
        None => 0,
        Some(n) => 1 + if key_lt(k, n.entry.key) {
            path_len(n.left, k)
        } else if k == n.entry.key {
            0
        } else {
            path_len(n.right, k)
        },
    }
}

/// A search follows a single path down, so it meets no more nodes than the
/// longest path has.
pub proof fn lemma_path_len_height<K: Ord, V>(t: Option<Arc<Node<K, V>>>, k: K)
    ensures
        path_len(t, k) <= height(t),
    decreases t,
{
    if t is Some {
        lemma_path_len_height(lchild(t), k);
        lemma_path_len_height(rchild(t), k);
    }
}

/// A red-black tree of black height `b` has at least `2^b - 1` nodes, and no path
/// down it has more than `2b` nodes, or `2b + 1` under a red root.
pub proof fn lemma_balanced<K, V>(t: Option<Arc<Node<K, V>>>)
    requires
        valid(t),
    ensures
        pow2(bh(t)) <= elems(t).len() + 1,
        height(t) <= 2 * bh(t) + if is_red(t) {
            1int
        } else {
            0int
        },
    decreases t,
{
    if t is None {
        lemma_pow2_unfold_zero();
    } else {
        lemma_balanced(lchild(t));
        lemma_balanced(rchild(t));
        if !is_red(t) {
            lemma_pow2_unfold(bh(lchild(t)) + 1);
        }
    }
}

proof fn lemma_pow2_unfold_zero()
    ensures
        pow2(0) == 1,
{
    vstd::arithmetic::power2::lemma2_to64();
}

pub open spec fn is_red<K, V>(t: Option<Arc<Node<K, V>>>) -> bool {
    match t {
        Some(n) => n.color is Red,
        None => false,
    }
}

/// A red-black tree: every path down has as many black nodes, and no red node
/// has a red child. The root may be red.
pub open spec fn valid<K, V>(t: Option<Arc<Node<K, V>>>) -> bool
    decreases t,
{
    match t {
        None => true,
        Some(n) => {
            &&& valid(n.left)
            &&& valid(n.right)
            &&& bh(n.left) == bh(n.right)
            &&& n.color is Red ==> !is_red(n.left) && !is_red(n.right)
        },
    }
}

/// A red-black tree except that its root may be red with a red child.
pub open spec fn red_ok<K, V>(t: Option<Arc<Node<K, V>>>) -> bool {
    match t {
        None => true,
        Some(n) => n.almost(),
    }
}

impl<K, V> Node<K, V> {
    pub open spec fn kv(self) -> (K, V) {
        (self.entry.key, self.entry.value)
    }

    pub open spec fn node_elems(self) -> Seq<(K, V)> {
        elems(self.left) + seq![self.kv()] + elems(self.right)
    }

    pub open spec fn node_bh(self) -> nat {
        bh(self.left) + if self.color is Black {
            1nat
        } else {
            0nat
        }
    }

    /// Both children are red-black trees of the same black height.
    pub open spec fn almost(self) -> bool {
        &&& valid(self.left)
        &&& valid(self.right)
        &&& bh(self.left) == bh(self.right)
    }

    pub open spec fn node_valid(self) -> bool {
        &&& self.almost()
        &&& self.color is Red ==> !is_red(self.left) && !is_red(self.right)
    }
}

impl<K, V> Clone for Node<K, V> {
    fn clone(&self) -> (r: Node<K, V>)
        ensures
            r == *self,
    {
        Node {
            entry: share(&self.entry),
            color: self.color,
            left: match &self.left {
                Some(l) => Some(share(l)),
                None => None,
            },
            right: match &self.right {
                Some(r) => Some(share(r)),
                None => None,
            },
        }
    }
}

impl<K: Ord, V> Node<K, V> {
    pub fn new_red(entry: Entry<K, V>) -> (n: Node<K, V>)
        ensures
            n.entry == entry,
            n.color is Red,
            n.left is None,
            n.right is None,
    {
        Node { entry: Arc::new(entry), color: Color::Red, left: None, right: None }
    }

    pub fn new_black(entry: Entry<K, V>) -> (n: Node<K, V>)
        ensures
            n.entry == entry,
            n.color is Black,
            n.left is None,
            n.right is None,
    {
        Node { entry: Arc::new(entry), color: Color::Black, left: None, right: None }
    }

    pub fn borrow(node: &Option<Arc<Node<K, V>>>) -> (r: Option<&Node<K, V>>)
        ensures
            r == match *node {
                Some(n) => Some(&*n),
                None => None,
            },
    {
        match node {
            Some(n) => Some(&**n),
            None => None,
        }
    }

    pub fn left_color(&self) -> (c: Option<Color>)
        ensures
            c == match self.left {
                Some(l) => Some(l.color),
                None => None,
            },
    {
        match &self.left {
            Some(l) => Some(l.color),
            None => None,
        }
    }

    pub fn right_color(&self) -> (c: Option<Color>)
        ensures
            c == match self.right {
                Some(r) => Some(r.color),
                None => None,
            },
    {
        match &self.right {
            Some(r) => Some(r.color),
            None => None,
        }
    }
}

impl<K: Ord, V> Node<K, V> {
    /// The number of nodes that a search for `k` from this node compares `k` with.
    pub open spec fn search_len(self, k: K) -> nat {
        path_len(Some(Arc::new(self)), k)
    }

    /// The entry under `key`, if the node's tree holds one. The search visits
    /// one node per call, `search_len` of them at most.
    pub fn get(&self, key: &K) -> (r: Option<&Entry<K, V>>)
        requires
            key_order_lawful::<K>(),
            sorted(self.node_elems()),
        ensures
            match r {
                Some(e) => e.key == *key && map_of(self.node_elems()).dom().contains(*key)
                    && map_of(self.node_elems())[*key] == e.value,
                None => !map_of(self.node_elems()).dom().contains(*key),
            },
        decreases self.search_len(*key),
    {
        proof {
            lemma_lookup_node(elems(self.left), self.kv(), elems(self.right), *key);
            lemma_sorted_node(elems(self.left), self.kv(), elems(self.right));
        }
        match compare_keys(key, &self.entry.key) {
            KeyOrder::Less => match &self.left {
                Some(l) => l.get(key),
                None => None,
            },
            KeyOrder::Equal => Some(&*self.entry),
            KeyOrder::Greater => match &self.right {
                Some(r) => r.get(key),
                None => None,
            },
        }
    }

    /// The entry with the least key.
    pub fn first(&self) -> (e: &Entry<K, V>)
        ensures
            (e.key, e.value) == self.node_elems()[0],
        decreases self,
    {
        match &self.left {
            Some(l) => l.first(),
            None => &*self.entry,
        }
    }

    /// The entry with the greatest key.
    pub fn last(&self) -> (e: &Entry<K, V>)
        ensures
            (e.key, e.value) == self.node_elems().last(),
        decreases self,
    {
        match &self.right {
            Some(r) => r.last(),
            None => &*self.entry,
        }
    }
}

/// A tree whose root is the node `n`, read through `n`.
pub proof fn lemma_unfold<K, V>(n: Node<K, V>)
    ensures
        elems(Some(Arc::new(n))) == n.node_elems(),
        bh(Some(Arc::new(n))) == n.node_bh(),
        valid(Some(Arc::new(n))) == n.node_valid(),
        red_ok(Some(Arc::new(n))) == n.almost(),
        is_red(Some(Arc::new(n))) == n.color is Red,
{
}

/// The node an `Arc` points to.
pub open spec fn pointee<K, V>(a: Arc<Node<K, V>>) -> Node<K, V> {
    *a
}

pub open spec fn lchild<K, V>(t: Option<Arc<Node<K, V>>>) -> Option<Arc<Node<K, V>>> {
    match t {
        Some(n) => n.left,
        None => None,
    }
}

pub open spec fn rchild<K, V>(t: Option<Arc<Node<K, V>>>) -> Option<Arc<Node<K, V>>> {
    match t {
        Some(n) => n.right,
        None => None,
    }
}

/// The root node of a non-empty tree.
pub open spec fn top<K, V>(t: Option<Arc<Node<K, V>>>) -> Node<K, V> {
    *t.unwrap()
}

/// The tree whose root has the given entry, color and children.
pub open spec fn tree<K, V>(
    entry: Arc<Entry<K, V>>,
    color: Color,
    left: Option<Arc<Node<K, V>>>,
    right: Option<Arc<Node<K, V>>>,
) -> Option<Arc<Node<K, V>>> {
    Some(Arc::new(Node { entry, color, left, right }))
}

/// Okasaki's rebalanced node: `y` red over `x` and `z` black, with `a`, `b`,
/// `c`, `d` below them in order.
pub open spec fn red_over_blacks<K, V>(
    a: Option<Arc<Node<K, V>>>,
    x: Arc<Entry<K, V>>,
    b: Option<Arc<Node<K, V>>>,
    y: Arc<Entry<K, V>>,
    c: Option<Arc<Node<K, V>>>,
    z: Arc<Entry<K, V>>,
    d: Option<Arc<Node<K, V>>>,
) -> Node<K, V> {
    Node {
        entry: y,
        color: Color::Red,
        left: tree(x, Color::Black, a, b),
        right: tree(z, Color::Black, c, d),
    }
}

/// The node that `balance` makes of `n`: for a black node with a red child over
/// a red grandchild, the first of the four cases of Okasaki's figure that
/// applies; any other node as it is.
pub open spec fn balance_spec<K, V>(n: Node<K, V>) -> Node<K, V> {
    if n.color is Red {
        n
    } else if is_red(n.left) && is_red(lchild(n.left)) {
        let y = top(n.left);
        let x = top(y.left);
        red_over_blacks(x.left, x.entry, x.right, y.entry, y.right, n.entry, n.right)
    } else if is_red(n.left) && is_red(rchild(n.left)) {
        let x = top(n.left);
        let y = top(x.right);
        red_over_blacks(x.left, x.entry, y.left, y.entry, y.right, n.entry, n.right)
    } else if is_red(n.right) && is_red(lchild(n.right)) {
        let z = top(n.right);
        let y = top(z.left);
        red_over_blacks(n.left, n.entry, y.left, y.entry, y.right, z.entry, z.right)
    } else if is_red(n.right) && is_red(rchild(n.right)) {
        let y = top(n.right);
        let z = top(y.right);
        red_over_blacks(n.left, n.entry, y.left, y.entry, z.left, z.entry, z.right)
    } else {
        n
    }
}

/// A non-empty tree, read through its root node.
pub proof fn lemma_unfold_link<K, V>(t: Option<Arc<Node<K, V>>>)
    requires
        t is Some,
    ensures
        elems(t) == t.unwrap().node_elems(),
        bh(t) == t.unwrap().node_bh(),
        valid(t) == t.unwrap().node_valid(),
        red_ok(t) == t.unwrap().almost(),
        is_red(t) == t.unwrap().color is Red,
        height(lchild(t)) < height(t),
        height(rchild(t)) < height(t),
{
}

impl<K: Ord, V> Node<K, V> {
    /// What `balance` asks of a black node: both children red-black trees of one
    /// black height, except that one of them may be red with a red child.
    pub open spec fn balance_ready(self) -> bool {
        &&& red_ok(self.left)
        &&& red_ok(self.right)
        &&& bh(self.left) == bh(self.right)
        &&& valid(self.left) || valid(self.right)
    }

    /// Okasaki's rebalancing of a black node one of whose children is red with a
    /// red child: the three nodes become a red node over two black ones.
    /// A red node is left as it is.
    pub fn balance(&mut self)
        requires
            old(self).color is Black ==> old(self).balance_ready(),
        ensures
            *final(self) == balance_spec(*old(self)),
            final(self).node_elems() == old(self).node_elems(),
            old(self).color is Black ==> final(self).node_valid() && final(self).node_bh()
                == old(self).node_bh(),
    {
        match self.color {
            Color::Black => {
                let color_l: Option<Color> = self.left_color();
                let color_l_l: Option<Color> = match &self.left {
                    Some(l) => l.left_color(),
                    None => None,
                };
                let color_l_r: Option<Color> = match &self.left {
                    Some(l) => l.right_color(),
                    None => None,
                };
                let color_r: Option<Color> = self.right_color();
                let color_r_l: Option<Color> = match &self.right {
                    Some(r) => r.left_color(),
                    None => None,
                };
                let color_r_r: Option<Color> = match &self.right {
                    Some(r) => r.right_color(),
                    None => None,
                };

                match (color_l, color_l_l, color_l_r, color_r, color_r_l, color_r_r) {
                    (Some(Color::Red), Some(Color::Red), ..) => self.balance_case_1(),
                    (Some(Color::Red), _, Some(Color::Red), ..) => self.balance_case_2(),
                    (.., Some(Color::Red), Some(Color::Red), _) => self.balance_case_3(),
                    (.., Some(Color::Red), _, Some(Color::Red)) => self.balance_case_4(),
                    _ => (),
                }
            },
            Color::Red => (),
        }
    }

    /// Case 1: `z` black, its left child `y` red, and `y`'s left child `x` red.
    fn balance_case_1(&mut self)
        requires
            old(self).color is Black,
            old(self).balance_ready(),
            is_red(old(self).left),
            is_red(lchild(old(self).left)),
        ensures
            *final(self) == balance_spec(*old(self)),
            final(self).node_elems() == old(self).node_elems(),
            final(self).node_valid(),
            final(self).node_bh() == old(self).node_bh(),
    {
        let ghost z = *self;
        let mut node_l_arc = self.left.take().unwrap();
        {
            let node_l: &mut Node<K, V> = make_mut(&mut node_l_arc);
            let ghost y = *node_l;
            let mut node_l_l_arc = node_l.left.take().unwrap();
            {
                let node_l_l: &mut Node<K, V> = make_mut(&mut node_l_l_arc);
                let ghost x = *node_l_l;

                self.color = Color::Red;
                node_l.color = Color::Black;
                node_l_l.color = Color::Black;

                std::mem::swap(&mut self.entry, &mut node_l.entry);
                std::mem::swap(&mut node_l.left, &mut node_l.right);
                std::mem::swap(&mut self.right, &mut node_l.right);
                proof {
                    assert(z.left == Some(Arc::new(y)));
                    assert(y.left == Some(Arc::new(x)));
                    lemma_unfold(y);
                    lemma_unfold(x);
                    lemma_unfold(*node_l);
                    lemma_unfold(*node_l_l);
                }
            }
            self.left = Some(node_l_l_arc);
        }
        self.right = Some(node_l_arc);
        proof {
            assert(self.node_elems() =~= z.node_elems());
        }
    }

    /// Case 2: `z` black, its left child `x` red, and `x`'s right child `y` red.
    fn balance_case_2(&mut self)
        requires
            old(self).color is Black,
            old(self).balance_ready(),
            is_red(old(self).left),
            is_red(rchild(old(self).left)),
            !is_red(lchild(old(self).left)),
        ensures
            *final(self) == balance_spec(*old(self)),
            final(self).node_elems() == old(self).node_elems(),
            final(self).node_valid(),
            final(self).node_bh() == old(self).node_bh(),
    {
        let ghost z = *self;
        let mut node_l_arc = self.left.take().unwrap();
        {
            let node_l: &mut Node<K, V> = make_mut(&mut node_l_arc);
            let ghost x = *node_l;
            let mut node_l_r_arc = node_l.right.take().unwrap();
            {
                let node_l_r: &mut Node<K, V> = make_mut(&mut node_l_r_arc);
                let ghost y = *node_l_r;

                self.color = Color::Red;
                node_l.color = Color::Black;
                node_l_r.color = Color::Black;

                std::mem::swap(&mut self.entry, &mut node_l_r.entry);
                std::mem::swap(&mut node_l_r.left, &mut node_l_r.right);
                std::mem::swap(&mut node_l.right, &mut node_l_r.right);
                std::mem::swap(&mut self.right, &mut node_l_r.right);
                proof {
                    assert(z.left == Some(Arc::new(x)));
                    assert(x.right == Some(Arc::new(y)));
                    lemma_unfold(y);
                    lemma_unfold(x);
                    lemma_unfold(*node_l);
                    lemma_unfold(*node_l_r);
                }
            }
            self.right = Some(node_l_r_arc);
        }
        self.left = Some(node_l_arc);
        proof {
            assert(self.node_elems() =~= z.node_elems());
        }
    }

    /// Case 3: `x` black, its right child `z` red, and `z`'s left child `y` red.
    fn balance_case_3(&mut self)
        requires
            old(self).color is Black,
            old(self).balance_ready(),
            is_red(old(self).right),
            is_red(lchild(old(self).right)),
            !(is_red(old(self).left) && is_red(lchild(old(self).left))),
            !(is_red(old(self).left) && is_red(rchild(old(self).left))),
        ensures
            *final(self) == balance_spec(*old(self)),
            final(self).node_elems() == old(self).node_elems(),
            final(self).node_valid(),
            final(self).node_bh() == old(self).node_bh(),
    {
        let ghost x = *self;
        let mut node_r_arc = self.right.take().unwrap();
        {
            let node_r: &mut Node<K, V> = make_mut(&mut node_r_arc);
            let ghost z = *node_r;
            let mut node_r_l_arc = node_r.left.take().unwrap();
            {
                let node_r_l: &mut Node<K, V> = make_mut(&mut node_r_l_arc);
                let ghost y = *node_r_l;

                self.color = Color::Red;
                node_r.color = Color::Black;
                node_r_l.color = Color::Black;

                std::mem::swap(&mut self.entry, &mut node_r_l.entry);
                std::mem::swap(&mut node_r.left, &mut node_r_l.right);
                std::mem::swap(&mut node_r_l.left, &mut node_r_l.right);
                std::mem::swap(&mut self.left, &mut node_r_l.left);
                proof {
                    assert(x.right == Some(Arc::new(z)));
                    assert(z.left == Some(Arc::new(y)));
                    lemma_unfold(y);
                    lemma_unfold(z);
                    lemma_unfold(*node_r);
                    lemma_unfold(*node_r_l);
                }
            }
            self.left = Some(node_r_l_arc);
        }
        self.right = Some(node_r_arc);
        proof {
            assert(self.node_elems() =~= x.node_elems());
        }
    }

    /// Case 4: `x` black, its right child `y` red, and `y`'s right child `z` red.
    fn balance_case_4(&mut self)
        requires
            old(self).color is Black,
            old(self).balance_ready(),
            is_red(old(self).right),
            is_red(rchild(old(self).right)),
            !is_red(lchild(old(self).right)),
            !(is_red(old(self).left) && is_red(lchild(old(self).left))),
            !(is_red(old(self).left) && is_red(rchild(old(self).left))),
        ensures
            *final(self) == balance_spec(*old(self)),
            final(self).node_elems() == old(self).node_elems(),
            final(self).node_valid(),
            final(self).node_bh() == old(self).node_bh(),
    {
        let ghost x = *self;
        let mut node_r_arc = self.right.take().unwrap();
        {
            let node_r: &mut Node<K, V> = make_mut(&mut node_r_arc);
            let ghost y = *node_r;
            let mut node_r_r_arc = node_r.right.take().unwrap();
            {
                let node_r_r: &mut Node<K, V> = make_mut(&mut node_r_r_arc);
                let ghost z = *node_r_r;

                self.color = Color::Red;
                node_r.color = Color::Black;
                node_r_r.color = Color::Black;

                std::mem::swap(&mut self.entry, &mut node_r.entry);
                std::mem::swap(&mut node_r.left, &mut node_r.right);
                std::mem::swap(&mut self.left, &mut node_r.left);
                proof {
                    assert(x.right == Some(Arc::new(y)));
                    assert(y.right == Some(Arc::new(z)));
                    lemma_unfold(y);
                    lemma_unfold(z);
                    lemma_unfold(*node_r);
                    lemma_unfold(*node_r_r);
                }
            }
            self.right = Some(node_r_r_arc);
        }
        self.left = Some(node_r_arc);
        proof {
            assert(self.node_elems() =~= x.node_elems());
        }
    }
}

/// What inserting into a tree gives: the pair is in, the tree stays sorted, and
/// the colors are as `ins` leaves them.
pub open spec fn inserted<K: Ord, V>(
    before: Option<Arc<Node<K, V>>>,
    after: Option<Arc<Node<K, V>>>,
    k: K,
    v: V,
    is_new: bool,
) -> bool {
    &&& after is Some
    &&& sorted(elems(after))
    &&& map_of(elems(after)) == map_of(elems(before)).insert(k, v)
    &&& is_new == !map_of(elems(before)).dom().contains(k)
    &&& elems(after).len() == elems(before).len() + if is_new {
        1int
    } else {
        0int
    }
}

/// The tree that inserting `k` with `v` into `t` gives (Okasaki's `ins`):
/// down the path to the key, each node whose side gained a new key is
/// rebalanced, an equal key has its entry replaced, and a root is painted black.
pub open spec fn ins_spec<K: Ord, V>(t: Option<Arc<Node<K, V>>>, k: K, v: V, is_root: bool) -> Option<
    Arc<Node<K, V>>,
>
    decreases t,
{
    match t {
        None => tree(
            Arc::new(Entry { key: k, value: v }),
            if is_root {
                Color::Black
            } else {
                Color::Red
            },
            None,
            None,
        ),
        Some(n) => {
            let m = if key_lt(k, n.entry.key) {
                let nn = Node {
                    entry: n.entry,
                    color: n.color,
                    left: ins_spec(n.left, k, v, false),
                    right: n.right,
                };
                if map_of(elems(n.left)).dom().contains(k) {
                    nn
                } else {
                    balance_spec(nn)
                }
            } else if k == n.entry.key {
                Node {
                    entry: Arc::new(Entry { key: k, value: v }),
                    color: n.color,
                    left: n.left,
                    right: n.right,
                }
            } else {
                let nn = Node {
                    entry: n.entry,
                    color: n.color,
                    left: n.left,
                    right: ins_spec(n.right, k, v, false),
                };
                if map_of(elems(n.right)).dom().contains(k) {
                    nn
                } else {
                    balance_spec(nn)
                }
            };
            tree(
                m.entry,
                if is_root {
                    Color::Black
                } else {
                    m.color
                },
                m.left,
                m.right,
            )
        },
    }
}

/// Inserts `k` with `v` below `node`, repainting the root black when `is_root`;
/// returns whether the key is new.
fn ins<K: Ord, V>(node: &mut Option<Arc<Node<K, V>>>, k: K, v: V, is_root: bool) -> (is_new: bool)
    requires
        key_order_lawful::<K>(),
        valid(*old(node)),
        sorted(elems(*old(node))),
    ensures
        *final(node) == ins_spec(*old(node), k, v, is_root),
        inserted(*old(node), *final(node), k, v, is_new),
        is_root ==> valid(*final(node)) && !is_red(*final(node)),
        is_root ==> bh(*final(node)) <= bh(*old(node)) + 1,
        !is_root ==> {
            &&& bh(*final(node)) == bh(*old(node))
            &&& red_ok(*final(node))
            &&& !is_red(*old(node)) ==> valid(*final(node))
            &&& !is_new ==> valid(*final(node)) && is_red(*final(node)) == is_red(*old(node))
        },
    decreases path_len(*old(node), k),
{
    match node {
        Some(arc) => {
            let n = make_mut(arc);
            let ghost n0 = *n;
            proof {
                lemma_unfold(n0);
                assert(*old(node) == Some(Arc::new(n0)));
                assert(n0.node_valid());
                lemma_sorted_node(elems(n.left), n.kv(), elems(n.right));
                lemma_lookup_node(elems(n.left), n.kv(), elems(n.right), k);
                lemma_all_lt_keys_lt(elems(n.left), n.kv().0);
                lemma_all_lt_keys_lt(elems(n.right), n.kv().0);
            }
            let ret = match compare_keys(&k, &n.entry.key) {
                KeyOrder::Less => {
                    let is_new_key = ins(&mut n.left, k, v, false);
                    proof {
                        lemma_all_lt_keys_lt(elems(n.left), n.kv().0);
                        lemma_sorted_node(elems(n.left), n.kv(), elems(n.right));
                        lemma_map_of_node(elems(n.left), n.kv(), elems(n.right));
                        assert(map_of(n.node_elems()) =~= map_of(n0.node_elems()).insert(k, v));
                    }
                    if is_new_key {
                        n.balance();
                    }
                    is_new_key
                },
                KeyOrder::Equal => {
                    n.entry = Arc::new(Entry::new(k, v));
                    proof {
                        lemma_sorted_node(elems(n.left), n.kv(), elems(n.right));
                        lemma_map_of_node(elems(n.left), n.kv(), elems(n.right));
                        assert(map_of(n.node_elems()) =~= map_of(n0.node_elems()).insert(k, v));
                    }
                    false
                },
                KeyOrder::Greater => {
                    let is_new_key = ins(&mut n.right, k, v, false);
                    proof {
                        lemma_all_lt_keys_lt(elems(n.right), n.kv().0);
                        lemma_sorted_node(elems(n.left), n.kv(), elems(n.right));
                        lemma_map_of_node(elems(n.left), n.kv(), elems(n.right));
                        assert(map_of(n.node_elems()) =~= map_of(n0.node_elems()).insert(k, v));
                    }
                    if is_new_key {
                        n.balance();
                    }
                    is_new_key
                },
            };
            if is_root {
                n.color = Color::Black;
            }
            proof {
                lemma_unfold(*n);
            }
            ret
        },
        None => {
            *node = if is_root {
                Some(Arc::new(Node::new_black(Entry::new(k, v))))
            } else {
                Some(Arc::new(Node::new_red(Entry::new(k, v))))
            };
            proof {
                let s = seq![(k, v)];
                assert(elems(*node) =~= s);
                assert(s.drop_last() =~= Seq::<(K, V)>::empty());
                assert(map_of(s.drop_last()) == Map::<K, V>::empty());
                assert(map_of(s) =~= Map::<K, V>::empty().insert(k, v));
            }
            true
        },
    }
}

impl<K: Ord, V> Node<K, V> {
    /// Inserts the entry and returns whether the key is new.
    pub fn insert(root: &mut Option<Arc<Node<K, V>>>, key: K, value: V) -> (is_new: bool)
        requires
            key_order_lawful::<K>(),
            valid(*old(root)),
            sorted(elems(*old(root))),
        ensures
            *final(root) == ins_spec(*old(root), key, value, true),
            inserted(*old(root), *final(root), key, value, is_new),
            valid(*final(root)),
            !is_red(*final(root)),
            bh(*final(root)) <= bh(*old(root)) + 1,
    {
        ins(root, key, value, true)
    }
}

impl<K: Ord + Clone, V: Clone> Node<K, V> {
    /// A mutable reference to the entry under `key`, if any; every node on the
    /// way down is first made unshared.
    ///
    /// The entry under `key` is itself cloned when shared, key included, so the
    /// key in the tree afterwards is a clone of `key`. Changing the key through
    /// the reference would break the order of the tree, so callers reach only
    /// the value.
    pub fn get_mut(&mut self, key: &K) -> (r: Option<&mut Entry<K, V>>)
        requires
            key_order_lawful::<K>(),
            sorted(old(self).node_elems()),
        ensures
            final(self).color == old(self).color,
            final(self).node_bh() == old(self).node_bh(),
            old(self).node_valid() ==> final(self).node_valid(),
            match r {
                Some(e) => {
                    &&& map_of(old(self).node_elems()).dom().contains(*key)
                    &&& cloned::<K>(*key, e.key)
                    &&& cloned::<V>(map_of(old(self).node_elems())[*key], e.value)
                    &&& final(self).node_elems() == with_entry(
                        old(self).node_elems(),
                        *key,
                        (final(e).key, final(e).value),
                    )
                },
                None => {
                    &&& !map_of(old(self).node_elems()).dom().contains(*key)
                    &&& *final(self) == *old(self)
                },
            },
        decreases old(self).search_len(*key),
    {
        proof {
            lemma_lookup_node(elems(self.left), self.kv(), elems(self.right), *key);
            lemma_sorted_node(elems(self.left), self.kv(), elems(self.right));
        }
        match compare_keys(key, &self.entry.key) {
            KeyOrder::Less => match self.left.as_mut() {
                Some(l) => make_mut(l).get_mut(key),
                None => None,
            },
            KeyOrder::Equal => Some(make_mut(&mut self.entry)),
            KeyOrder::Greater => match self.right.as_mut() {
                Some(r) => make_mut(r).get_mut(key),
                None => None,
            },
        }
    }
}

} // verus!
