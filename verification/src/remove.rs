//! Removal from the tree, after Kahrs' "Red-Black Trees with Types": fusing the
//! two children of a removed node, and rebalancing a side that lost a black node.
use crate::entries::{
    lemma_map_of_has, lemma_map_of_key, lemma_removed_empty, lemma_removed_here,
    lemma_removed_left, lemma_removed_right, lemma_sorted_node, map_of, removed_pairs, sorted,
};
use crate::node::{
    balance_spec, bh, elems, is_red, lchild, lemma_unfold, lemma_unfold_link, pointee, rchild,
    height, path_len, red_ok, top, tree, valid, Color, Node,
};
use crate::order::{compare_keys, key_lt, key_order_lawful, KeyOrder};
use crate::shared::make_mut;
use std::sync::Arc;
use vstd::prelude::*;

verus! {

/// A tree has no pairs exactly when it is empty.
proof fn lemma_empty_iff_none<K, V>(t: Option<Arc<Node<K, V>>>)
    ensures
        (elems(t).len() == 0) == (t is None),
{
    if t is Some {
        lemma_unfold_link(t);
    }
}

/// Overwrites `dest` with the value that `src` points to, taking it out of
/// `src` when no other pointer shares it.
fn replace<T: Clone>(dest: &mut T, src: Arc<T>)
    ensures
        cloned::<T>(*src, *final(dest)),
{
    let mut src = src;
    let src_ref = make_mut(&mut src);
    std::mem::swap(dest, src_ref);
}

/// The root of a non-empty tree repainted `color`, with its entry and subtrees kept.
pub open spec fn repainted<K, V>(t: Option<Arc<Node<K, V>>>, color: Color) -> Option<
    Arc<Node<K, V>>,
> {
    tree(top(t).entry, color, top(t).left, top(t).right)
}

/// The node that `remove_balance` makes of `n`: two red children repainted
/// black under a red node, or else what `balance` makes of it.
pub open spec fn remove_balance_spec<K, V>(n: Node<K, V>) -> Node<K, V> {
    if is_red(n.left) && is_red(n.right) {
        Node {
            entry: n.entry,
            color: Color::Red,
            left: repainted(n.left, Color::Black),
            right: repainted(n.right, Color::Black),
        }
    } else {
        balance_spec(n)
    }
}

/// The node that `remove_balance_left` makes of `n` (Kahrs' `balleft`).
pub open spec fn balleft_spec<K, V>(n: Node<K, V>) -> Node<K, V> {
    if is_red(n.left) {
        Node {
            entry: n.entry,
            color: Color::Red,
            left: repainted(n.left, Color::Black),
            right: n.right,
        }
    } else if n.right is Some && !is_red(n.right) {
        remove_balance_spec(
            Node {
                entry: n.entry,
                color: Color::Black,
                left: n.left,
                right: repainted(n.right, Color::Red),
            },
        )
    } else if is_red(n.right) && lchild(n.right) is Some && !is_red(lchild(n.right)) {
        let z = top(n.right);
        let y = top(z.left);
        Node {
            entry: y.entry,
            color: Color::Red,
            left: tree(n.entry, Color::Black, n.left, y.left),
            right: Some(
                Arc::new(
                    remove_balance_spec(
                        Node {
                            entry: z.entry,
                            color: Color::Black,
                            left: y.right,
                            right: repainted(z.right, Color::Red),
                        },
                    ),
                ),
            ),
        }
    } else {
        n
    }
}

/// The node that `remove_balance_right` makes of `n` (Kahrs' `balright`).
pub open spec fn balright_spec<K, V>(n: Node<K, V>) -> Node<K, V> {
    if is_red(n.right) {
        Node {
            entry: n.entry,
            color: Color::Red,
            left: n.left,
            right: repainted(n.right, Color::Black),
        }
    } else if n.left is Some && !is_red(n.left) {
        remove_balance_spec(
            Node {
                entry: n.entry,
                color: Color::Black,
                left: repainted(n.left, Color::Red),
                right: n.right,
            },
        )
    } else if is_red(n.left) && rchild(n.left) is Some && !is_red(rchild(n.left)) {
        let x = top(n.left);
        let y = top(x.right);
        Node {
            entry: y.entry,
            color: Color::Red,
            left: Some(
                Arc::new(
                    remove_balance_spec(
                        Node {
                            entry: x.entry,
                            color: Color::Black,
                            left: repainted(x.left, Color::Red),
                            right: y.left,
                        },
                    ),
                ),
            ),
            right: tree(n.entry, Color::Black, y.right, n.right),
        }
    } else {
        n
    }
}

impl<K: Ord, V> Node<K, V> {
    /// Kahrs' `balance` on a black node: two red children are repainted black
    /// under a red node, and otherwise Okasaki's `balance` applies.
    pub fn remove_balance(&mut self)
        requires
            old(self).color is Black,
            red_ok(old(self).left),
            red_ok(old(self).right),
            bh(old(self).left) == bh(old(self).right),
        ensures
            *final(self) == remove_balance_spec(*old(self)),
            final(self).node_elems() == old(self).node_elems(),
            final(self).node_valid(),
            final(self).node_bh() == old(self).node_bh(),
    {
        match (self.left_color(), self.right_color()) {
            (Some(Color::Red), Some(Color::Red)) => {
                let ghost a = *self;
                make_mut(self.left.as_mut().unwrap()).color = Color::Black;
                make_mut(self.right.as_mut().unwrap()).color = Color::Black;

                self.color = Color::Red;
                proof {
                    lemma_unfold_link(a.left);
                    lemma_unfold_link(a.right);
                    lemma_unfold_link(self.left);
                    lemma_unfold_link(self.right);
                }
            },
            _ => {
                self.balance();
            },
        }
    }

    /// Kahrs' `balleft`: the left side lost a black node; restores the black
    /// height of the right side.
    pub fn remove_balance_left(&mut self)
        requires
            red_ok(old(self).left),
            valid(old(self).right),
            bh(old(self).right) == bh(old(self).left) + 1,
        ensures
            *final(self) == balleft_spec(*old(self)),
            final(self).node_elems() == old(self).node_elems(),
            final(self).almost(),
            final(self).node_bh() == bh(old(self).right),
            !is_red(old(self).right) ==> final(self).node_valid(),
    {
        let color_l: Option<Color> = self.left_color();
        let color_r: Option<Color> = self.right_color();
        let color_r_l: Option<Color> = match &self.right {
            Some(r) => r.left_color(),
            None => None,
        };

        match (color_l, color_r, color_r_l) {
            (Some(Color::Red), ..) => {
                let ghost a = *self;
                make_mut(self.left.as_mut().unwrap()).color = Color::Black;
                self.color = Color::Red;
                proof {
                    lemma_unfold_link(a.left);
                    lemma_unfold_link(self.left);
                }
            },
            (_, Some(Color::Black), _) => {
                let ghost a = *self;
                make_mut(self.right.as_mut().unwrap()).color = Color::Red;
                self.color = Color::Black;
                proof {
                    lemma_unfold_link(a.right);
                    lemma_unfold_link(self.right);
                }
                self.remove_balance();
            },
            (_, Some(Color::Red), Some(Color::Black)) => self.remove_balance_left_red(),
            _ => {
                proof {
                    lemma_unfold_link(self.right);
                    assert(false);
                }
            },
        }
    }

    /// Kahrs' `balright`: the right side lost a black node; restores the black
    /// height of the left side.
    pub fn remove_balance_right(&mut self)
        requires
            valid(old(self).left),
            red_ok(old(self).right),
            bh(old(self).left) == bh(old(self).right) + 1,
        ensures
            *final(self) == balright_spec(*old(self)),
            final(self).node_elems() == old(self).node_elems(),
            final(self).almost(),
            final(self).node_bh() == bh(old(self).left),
            !is_red(old(self).left) ==> final(self).node_valid(),
    {
        let color_r: Option<Color> = self.right_color();
        let color_l: Option<Color> = self.left_color();
        let color_l_r: Option<Color> = match &self.left {
            Some(l) => l.right_color(),
            None => None,
        };

        match (color_l, color_l_r, color_r) {
            (.., Some(Color::Red)) => {
                let ghost a = *self;
                make_mut(self.right.as_mut().unwrap()).color = Color::Black;
                self.color = Color::Red;
                proof {
                    lemma_unfold_link(a.right);
                    lemma_unfold_link(self.right);
                }
            },
            (Some(Color::Black), ..) => {
                let ghost a = *self;
                make_mut(self.left.as_mut().unwrap()).color = Color::Red;
                self.color = Color::Black;
                proof {
                    lemma_unfold_link(a.left);
                    lemma_unfold_link(self.left);
                }
                self.remove_balance();
            },
            (Some(Color::Red), Some(Color::Black), _) => self.remove_balance_right_red(),
            _ => {
                proof {
                    lemma_unfold_link(self.left);
                    assert(false);
                }
            },
        }
    }

    /// `balleft` when the right child is red over a black left grandchild.
    #[verifier::rlimit(60)]
    fn remove_balance_left_red(&mut self)
        requires
            valid(old(self).left),
            !is_red(old(self).left),
            valid(old(self).right),
            is_red(old(self).right),
            !is_red(lchild(old(self).right)),
            lchild(old(self).right) is Some,
            bh(old(self).right) == bh(old(self).left) + 1,
        ensures
            *final(self) == balleft_spec(*old(self)),
            final(self).node_elems() == old(self).node_elems(),
            final(self).almost(),
            final(self).node_bh() == bh(old(self).right),
    {
        let ghost a = *self;
        let self_r = make_mut(self.right.as_mut().unwrap());
        let ghost z = *self_r;

        let mut self_r_l_arc = self_r.left.take().unwrap();
        let ghost y = pointee(self_r_l_arc);
        proof {
            assert(a.right == Some(Arc::new(z)));
            lemma_unfold(z);
            assert(z.left == Some(Arc::new(y)));
            lemma_unfold(y);
            assert(bh(y.left) + 1 == bh(a.right));
            lemma_unfold_link(z.right);
        }
        let new_r_l = {
            let self_r_l = make_mut(&mut self_r_l_arc);

            self_r_l.right.take()
        };

        self_r.color = Color::Black;
        self_r.left = new_r_l;
        make_mut(self_r.right.as_mut().unwrap()).color = Color::Red;
        proof {
            lemma_unfold_link(self_r.right);
            assert(red_ok(self_r.right));
            assert(bh(self_r.right) == bh(self_r.left));
            assert(elems(self_r.right) == elems(z.right));
        }

        self_r.remove_balance();
        let ghost z1 = *self_r;

        self.color = Color::Red;

        {
            let self_r_l = make_mut(&mut self_r_l_arc);

            self_r_l.right = self_r_l.left.take();
            self_r_l.left = self.left.take();

            std::mem::swap(&mut self.entry, &mut self_r_l.entry);
            proof {
                assert(self_r_l.node_valid());
                assert(self_r_l.node_bh() == bh(a.right));
                lemma_unfold(*self_r_l);
            }
        }
        self.left = Some(self_r_l_arc);
        proof {
            lemma_unfold(z1);
            assert(self.node_elems() =~= a.node_elems());
        }
    }

    /// `balright` when the left child is red over a black right grandchild.
    #[verifier::rlimit(60)]
    fn remove_balance_right_red(&mut self)
        requires
            valid(old(self).left),
            is_red(old(self).left),
            !is_red(rchild(old(self).left)),
            rchild(old(self).left) is Some,
            valid(old(self).right),
            !is_red(old(self).right),
            bh(old(self).left) == bh(old(self).right) + 1,
        ensures
            *final(self) == balright_spec(*old(self)),
            final(self).node_elems() == old(self).node_elems(),
            final(self).almost(),
            final(self).node_bh() == bh(old(self).left),
    {
        let ghost a = *self;
        let self_l = make_mut(self.left.as_mut().unwrap());
        let ghost x = *self_l;

        let mut self_l_r_arc = self_l.right.take().unwrap();
        let ghost y = pointee(self_l_r_arc);
        proof {
            assert(a.left == Some(Arc::new(x)));
            lemma_unfold(x);
            assert(x.right == Some(Arc::new(y)));
            lemma_unfold(y);
            assert(bh(y.right) + 1 == bh(a.left));
            lemma_unfold_link(x.left);
        }
        let new_l_r = {
            let self_l_r = make_mut(&mut self_l_r_arc);

            self_l_r.left.take()
        };

        self_l.color = Color::Black;
        self_l.right = new_l_r;
        make_mut(self_l.left.as_mut().unwrap()).color = Color::Red;
        proof {
            lemma_unfold_link(self_l.left);
            assert(red_ok(self_l.left));
            assert(bh(self_l.left) == bh(self_l.right));
            assert(elems(self_l.left) == elems(x.left));
        }

        self_l.remove_balance();
        let ghost x1 = *self_l;

        self.color = Color::Red;

        {
            let self_l_r = make_mut(&mut self_l_r_arc);

            self_l_r.left = self_l_r.right.take();
            self_l_r.right = self.right.take();

            std::mem::swap(&mut self.entry, &mut self_l_r.entry);
            proof {
                assert(self_l_r.node_valid());
                assert(self_l_r.node_bh() == bh(a.left));
                lemma_unfold(*self_l_r);
            }
        }
        self.right = Some(self_l_r_arc);
        proof {
            lemma_unfold(x1);
            assert(self.node_elems() =~= a.node_elems());
        }
    }
}

/// What fusing the two children `left` and `right` of a removed node leaves in
/// `n`: their pairs in order, a tree of their black height whose root may be red
/// with a red child, and a red-black tree when neither child was red.
pub open spec fn fused<K, V>(
    n: Node<K, V>,
    left: Option<Arc<Node<K, V>>>,
    right: Option<Arc<Node<K, V>>>,
) -> bool {
    &&& n.node_elems() == elems(left) + elems(right)
    &&& n.almost()
    &&& n.node_bh() == bh(left)
    &&& !is_red(left) && !is_red(right) ==> n.node_valid()
}

/// Regrouping the pairs of `T (T a x b) y (T c z d)` once `b` and `c` have
/// been fused into `T b' w c'`.
proof fn lemma_regroup<T>(
    a: Seq<T>,
    x: T,
    b: Seq<T>,
    c: Seq<T>,
    y: T,
    d: Seq<T>,
    fl: Seq<T>,
    w: T,
    fr: Seq<T>,
)
    requires
        fl + seq![w] + fr == b + c,
    ensures
        (a + seq![x] + fl) + seq![w] + (fr + seq![y] + d) == (a + seq![x] + b) + (c + seq![y] + d),
{
    assert((a + seq![x] + fl) + seq![w] + (fr + seq![y] + d) =~= (a + seq![x]) + (fl + seq![w] + fr)
        + (seq![y] + d));
    assert((a + seq![x] + b) + (c + seq![y] + d) =~= (a + seq![x]) + (b + c) + (seq![y] + d));
}

/// The node that `remove_fuse` makes of two non-empty or one non-empty
/// children (Kahrs' `app`).
pub open spec fn app_spec<K, V>(l: Option<Arc<Node<K, V>>>, r: Option<Arc<Node<K, V>>>) -> Node<
    K,
    V,
>
    decreases elems(l).len() + elems(r).len(),
{
    if l is None {
        top(r)
    } else if r is None {
        top(l)
    } else {
        let ln = top(l);
        let rn = top(r);
        if ln.color is Black && rn.color is Red {
            Node {
                entry: rn.entry,
                color: rn.color,
                left: Some(Arc::new(app_spec(l, rn.left))),
                right: rn.right,
            }
        } else if ln.color is Red && rn.color is Black {
            Node {
                entry: ln.entry,
                color: ln.color,
                left: ln.left,
                right: Some(Arc::new(app_spec(ln.right, r))),
            }
        } else {
            let fused = ln.right is Some || rn.left is Some;
            let bc = app_spec(ln.right, rn.left);
            if fused && bc.color is Red {
                Node {
                    entry: bc.entry,
                    color: bc.color,
                    left: tree(ln.entry, ln.color, ln.left, bc.left),
                    right: tree(rn.entry, rn.color, bc.right, rn.right),
                }
            } else {
                let r1 = tree(
                    rn.entry,
                    rn.color,
                    if fused {
                        Some(Arc::new(bc))
                    } else {
                        None
                    },
                    rn.right,
                );
                if ln.color is Red {
                    Node { entry: ln.entry, color: ln.color, left: ln.left, right: r1 }
                } else {
                    balleft_spec(Node { entry: ln.entry, color: Color::Red, left: ln.left, right: r1 })
                }
            }
        }
    }
}

impl<K: Ord, V> Node<K, V> {
    /// Kahrs' `app`: fuses the two children of a removed node into `node`.
    /// Returns `false`, leaving `node` as it is, if both are empty.
    pub fn remove_fuse(
        node: &mut Node<K, V>,
        left: Option<Arc<Node<K, V>>>,
        right: Option<Arc<Node<K, V>>>,
    ) -> (r: bool)
        requires
            valid(left),
            valid(right),
            bh(left) == bh(right),
        ensures
            r == (left is Some || right is Some),
            r ==> *final(node) == app_spec(left, right),
            r ==> fused(*final(node), left, right),
            !r ==> *final(node) == *old(node),
        decreases height(left) + height(right), 1int,
    {
        match (left, right) {
            (None, None) => false,
            (None, Some(r_arc)) => {
                proof {
                    lemma_unfold_link(Some(r_arc));
                }
                replace(node, r_arc);
                true
            },
            (Some(l_arc), None) => {
                proof {
                    lemma_unfold_link(Some(l_arc));
                }
                replace(node, l_arc);
                true
            },
            (Some(l_arc), Some(r_arc)) => {
                match (l_arc.color, r_arc.color) {
                    (Color::Black, Color::Red) => Node::fuse_black_red(node, l_arc, r_arc),
                    (Color::Red, Color::Black) => Node::fuse_red_black(node, l_arc, r_arc),
                    (Color::Red, Color::Red) => Node::fuse_red_red(node, l_arc, r_arc),
                    (Color::Black, Color::Black) => Node::fuse_black_black(node, l_arc, r_arc),
                }
                true
            },
        }
    }

    /// `app a (T R b x c) = T R (app a b) x c`.
    fn fuse_black_red(node: &mut Node<K, V>, l_arc: Arc<Node<K, V>>, r_arc: Arc<Node<K, V>>)
        requires
            l_arc.color is Black,
            r_arc.color is Red,
            valid(Some(l_arc)),
            valid(Some(r_arc)),
            bh(Some(l_arc)) == bh(Some(r_arc)),
        ensures
            *final(node) == app_spec(Some(l_arc), Some(r_arc)),
            fused(*final(node), Some(l_arc), Some(r_arc)),
        decreases height(Some(l_arc)) + height(Some(r_arc)), 0int,
    {
        let ghost l0 = Some(l_arc);
        let ghost r0 = Some(r_arc);
        let mut r_arc = r_arc;
        {
            let r = make_mut(&mut r_arc);
            let ghost z = *r;
            proof {
                lemma_unfold_link(l0);
                lemma_unfold_link(r0);
                assert(r0 == Some(Arc::new(z)));
                lemma_unfold(z);
            }
            let rl = r.left.take();

            // This will always return `true`.
            Node::remove_fuse(node, Some(l_arc), rl);

            std::mem::swap(node, r);
            proof {
                lemma_unfold(*r);
            }
        }
        node.left = Some(r_arc);
        proof {
            assert(node.node_elems() =~= elems(l0) + elems(r0));
        }
    }

    /// `app (T R a x b) c = T R a x (app b c)`.
    #[verifier::spinoff_prover]
    #[verifier::rlimit(40)]
    fn fuse_red_black(node: &mut Node<K, V>, l_arc: Arc<Node<K, V>>, r_arc: Arc<Node<K, V>>)
        requires
            l_arc.color is Red,
            r_arc.color is Black,
            valid(Some(l_arc)),
            valid(Some(r_arc)),
            bh(Some(l_arc)) == bh(Some(r_arc)),
        ensures
            *final(node) == app_spec(Some(l_arc), Some(r_arc)),
            fused(*final(node), Some(l_arc), Some(r_arc)),
        decreases height(Some(l_arc)) + height(Some(r_arc)), 0int,
    {
        let ghost l0 = Some(l_arc);
        let ghost r0 = Some(r_arc);
        let mut l_arc = l_arc;
        {
            let l = make_mut(&mut l_arc);
            let ghost x = *l;
            proof {
                lemma_unfold_link(l0);
                lemma_unfold_link(r0);
                assert(l0 == Some(Arc::new(x)));
                lemma_unfold(x);
            }
            let lr = l.right.take();

            // This will always return `true`.
            Node::remove_fuse(node, lr, Some(r_arc));

            std::mem::swap(node, l);
            proof {
                lemma_unfold(*l);
            }
        }
        node.right = Some(l_arc);
        proof {
            assert(node.node_elems() =~= elems(l0) + elems(r0));
        }
    }

    /// `app (T R a x b) (T R c y d)`: fuses `b` and `c`, then puts a red root
    /// of the result on top, or hangs the result under `y`.
    #[verifier::rlimit(50)]
    fn fuse_red_red(node: &mut Node<K, V>, l_arc: Arc<Node<K, V>>, r_arc: Arc<Node<K, V>>)
        requires
            l_arc.color is Red,
            r_arc.color is Red,
            valid(Some(l_arc)),
            valid(Some(r_arc)),
            bh(Some(l_arc)) == bh(Some(r_arc)),
        ensures
            *final(node) == app_spec(Some(l_arc), Some(r_arc)),
            fused(*final(node), Some(l_arc), Some(r_arc)),
        decreases height(Some(l_arc)) + height(Some(r_arc)), 0int,
    {
        let ghost l0 = Some(l_arc);
        let ghost r0 = Some(r_arc);
        let mut l_arc = l_arc;
        let mut r_arc = r_arc;
        let ghost x = pointee(l_arc);
        let ghost y = pointee(r_arc);
        proof {
            lemma_unfold_link(l0);
            lemma_unfold_link(r0);
            lemma_unfold(x);
            lemma_unfold(y);
        }
        let fused = {
            let r = make_mut(&mut r_arc);
            let rl = r.left.take();
            let l = make_mut(&mut l_arc);
            let lr = l.right.take();
            proof {
                lemma_unfold(*l);
                lemma_unfold(*r);
            }

            Node::remove_fuse(node, lr, rl)
        };
        let ghost bc = *node;

        match node.color {
            Color::Red if fused => {
                let fl = node.left.take();
                let fr = node.right.take();

                {
                    let r = make_mut(&mut r_arc);
                    let l = make_mut(&mut l_arc);

                    l.right = fl;
                    r.left = fr;
                    proof {
                        lemma_unfold(*l);
                        lemma_unfold(*r);
                    }
                }

                node.left = Some(l_arc);
                node.right = Some(r_arc);
                proof {
                    lemma_regroup(
                        elems(x.left),
                        x.kv(),
                        elems(x.right),
                        elems(y.left),
                        y.kv(),
                        elems(y.right),
                        elems(bc.left),
                        bc.kv(),
                        elems(bc.right),
                    );
                }
            },
            _ => {
                {
                    let l = make_mut(&mut l_arc);
                    std::mem::swap(l, node);
                    proof {
                        lemma_unfold(*l);
                    }
                }

                if fused {
                    let r = make_mut(&mut r_arc);
                    r.left = Some(l_arc);
                    proof {
                        lemma_unfold(*r);
                    }
                } else {
                    proof {
                        lemma_unfold(pointee(r_arc));
                    }
                }

                node.right = Some(r_arc);
                proof {
                    assert(node.node_elems() =~= elems(l0) + elems(r0));
                }
            },
        }
    }

    /// `app (T B a x b) (T B c y d)`: fuses `b` and `c`, then puts a red root
    /// of the result on top, or rebalances with `balleft` under a red `x`.
    #[verifier::rlimit(50)]
    fn fuse_black_black(node: &mut Node<K, V>, l_arc: Arc<Node<K, V>>, r_arc: Arc<Node<K, V>>)
        requires
            l_arc.color is Black,
            r_arc.color is Black,
            valid(Some(l_arc)),
            valid(Some(r_arc)),
            bh(Some(l_arc)) == bh(Some(r_arc)),
        ensures
            *final(node) == app_spec(Some(l_arc), Some(r_arc)),
            fused(*final(node), Some(l_arc), Some(r_arc)),
        decreases height(Some(l_arc)) + height(Some(r_arc)), 0int,
    {
        let ghost l0 = Some(l_arc);
        let ghost r0 = Some(r_arc);
        let mut l_arc = l_arc;
        let mut r_arc = r_arc;
        let ghost x = pointee(l_arc);
        let ghost y = pointee(r_arc);
        proof {
            lemma_unfold_link(l0);
            lemma_unfold_link(r0);
            lemma_unfold(x);
            lemma_unfold(y);
        }
        let fused = {
            let r = make_mut(&mut r_arc);
            let rl = r.left.take();
            let l = make_mut(&mut l_arc);
            let lr = l.right.take();
            proof {
                lemma_unfold(*l);
                lemma_unfold(*r);
            }

            Node::remove_fuse(node, lr, rl)
        };
        let ghost bc = *node;

        match node.color {
            Color::Red if fused => {
                let fl = node.left.take();
                let fr = node.right.take();

                {
                    let r = make_mut(&mut r_arc);
                    let l = make_mut(&mut l_arc);

                    l.right = fl;
                    r.left = fr;
                    proof {
                        lemma_unfold(*l);
                        lemma_unfold(*r);
                    }
                }

                node.left = Some(l_arc);
                node.right = Some(r_arc);
                proof {
                    lemma_regroup(
                        elems(x.left),
                        x.kv(),
                        elems(x.right),
                        elems(y.left),
                        y.kv(),
                        elems(y.right),
                        elems(bc.left),
                        bc.kv(),
                        elems(bc.right),
                    );
                }
            },
            _ => {
                {
                    let l = make_mut(&mut l_arc);
                    std::mem::swap(l, node);
                    proof {
                        lemma_unfold(*l);
                    }
                }

                if fused {
                    let r = make_mut(&mut r_arc);
                    r.left = Some(l_arc);
                    proof {
                        lemma_unfold(*r);
                    }
                } else {
                    proof {
                        lemma_unfold(pointee(r_arc));
                    }
                }

                node.color = Color::Red;
                node.right = Some(r_arc);
                proof {
                    assert(node.left == x.left);
                    assert(bh(node.left) + 1 == bh(node.right));
                    assert(valid(node.right));
                }

                let ghost before = *node;
                node.remove_balance_left();
                proof {
                    assert(before.node_elems() =~= elems(l0) + elems(r0));
                }
            },
        }
    }
}

/// Removes `k` from the left side of `node`, which sorts after it.
fn del_left<K: Ord, V>(node: &mut Node<K, V>, k: &K) -> (removed: bool)
    requires
        key_order_lawful::<K>(),
        old(node).node_valid(),
        sorted(old(node).node_elems()),
        key_lt(*k, old(node).entry.key),
    ensures
        removed_pairs(old(node).node_elems(), final(node).node_elems(), *k, removed),
        old(node).color is Black ==> final(node).almost() && final(node).node_bh() + 1 == old(
            node,
        ).node_bh(),
        old(node).color is Red ==> final(node).node_valid() && final(node).node_bh() == old(
            node,
        ).node_bh(),
    decreases path_len(old(node).left, *k), 2int,
{
    let ghost n0 = *node;
    proof {
        lemma_sorted_node(elems(n0.left), n0.kv(), elems(n0.right));
    }
    let original_left_color = node.left_color();
    let removed = del(&mut node.left, k, false);
    node.color = Color::Red;  // In case of rebalance the color does not matter.
    proof {
        lemma_removed_left(elems(n0.left), n0.kv(), elems(n0.right), elems(node.left), *k, removed);
        if n0.left is Some {
            lemma_unfold_link(n0.left);
        }
    }
    if let Some(Color::Black) = original_left_color {
        node.remove_balance_left();
    }
    removed
}

/// Removes `k` from the right side of `node`, which sorts before it.
fn del_right<K: Ord, V>(node: &mut Node<K, V>, k: &K) -> (removed: bool)
    requires
        key_order_lawful::<K>(),
        old(node).node_valid(),
        sorted(old(node).node_elems()),
        key_lt(old(node).entry.key, *k),
    ensures
        removed_pairs(old(node).node_elems(), final(node).node_elems(), *k, removed),
        old(node).color is Black ==> final(node).almost() && final(node).node_bh() + 1 == old(
            node,
        ).node_bh(),
        old(node).color is Red ==> final(node).node_valid() && final(node).node_bh() == old(
            node,
        ).node_bh(),
    decreases path_len(old(node).right, *k), 2int,
{
    let ghost n0 = *node;
    proof {
        lemma_sorted_node(elems(n0.left), n0.kv(), elems(n0.right));
    }
    let original_right_color = node.right_color();
    let removed = del(&mut node.right, k, false);
    node.color = Color::Red;  // In case of rebalance the color does not matter.
    proof {
        lemma_removed_right(elems(n0.left), n0.kv(), elems(n0.right), elems(node.right), *k, removed);
        if n0.right is Some {
            lemma_unfold_link(n0.right);
        }
    }
    if let Some(Color::Black) = original_right_color {
        node.remove_balance_right();
    }
    removed
}

/// Removes `k` from the tree at `node`, repainting the root black when `is_root`;
/// returns whether the key was there. An emptied tree becomes `None`.
fn del<K: Ord, V>(node: &mut Option<Arc<Node<K, V>>>, k: &K, is_root: bool) -> (removed: bool)
    requires
        key_order_lawful::<K>(),
        valid(*old(node)),
        sorted(elems(*old(node))),
    ensures
        removed_pairs(elems(*old(node)), elems(*final(node)), *k, removed),
        is_root ==> valid(*final(node)) && !is_red(*final(node)),
        !is_root ==> {
            &&& *old(node) is None ==> *final(node) is None
            &&& (*old(node) is Some && !is_red(*old(node))) ==> red_ok(*final(node)) && bh(
                *final(node),
            ) + 1 == bh(*old(node))
            &&& is_red(*old(node)) ==> valid(*final(node)) && bh(*final(node)) == bh(*old(node))
        },
    decreases path_len(*old(node), *k), 1int,
{
    let ghost old_node = *node;
    let (removed, make_node_none) = match node {
        Some(node_arc) => {
            let n = make_mut(node_arc);
            let ghost n0 = *n;
            proof {
                lemma_unfold(n0);
                assert(old_node == Some(Arc::new(n0)));
            }
            let ret = match compare_keys(k, &n.entry.key) {
                KeyOrder::Less => (del_left(n, k), false),
                KeyOrder::Equal => {
                    let left = n.left.take();
                    let right = n.right.take();
                    proof {
                        lemma_removed_here(elems(left), n0.kv(), elems(right));
                    }
                    let make_node_none = !Node::remove_fuse(n, left, right);

                    (true, make_node_none)
                },
                KeyOrder::Greater => (del_right(n, k), false),
            };

            if is_root {
                n.color = Color::Black;
            }
            proof {
                lemma_unfold(*n);
            }

            ret
        },
        None => {
            proof {
                lemma_removed_empty::<K, V>(*k);
            }
            (false, false)
        },
    };

    if make_node_none {
        *node = None;
    }

    removed
}

impl<K: Ord, V> Node<K, V> {
    /// Returns `true` if the key was present.
    ///
    /// If the node becomes empty `*root` will be set to `None`.
    pub fn remove(root: &mut Option<Arc<Node<K, V>>>, key: &K) -> (removed: bool)
        requires
            key_order_lawful::<K>(),
            valid(*old(root)),
            sorted(elems(*old(root))),
        ensures
            removed_pairs(elems(*old(root)), elems(*final(root)), *key, removed),
            valid(*final(root)),
            !is_red(*final(root)),
            *final(root) is None <==> (*old(root) is None || (elems(*old(root)).len() == 1
                && elems(*old(root))[0].0 == *key)),
    {
        let ghost before = *root;
        let removed = del(root, key, true);
        proof {
            lemma_empty_iff_none(before);
            lemma_empty_iff_none(*root);
            let s = elems(before);
            if s.len() == 1 {
                lemma_map_of_has(s, 0);
                if map_of(s).dom().contains(*key) {
                    lemma_map_of_key(s, *key);
                }
            }
        }
        removed
    }
}

} // verus!
