//! In-order iteration over a map, from either end, with two stacks of nodes.
use crate::iter_utils::conservative_height;
use crate::map::RedBlackTreeMap;
use crate::node::{elems, lemma_unfold_link, Entry, Node};
use std::sync::Arc;
use vstd::prelude::*;

verus! {

/// The pairs still to come from a forward stack: the top node's own pair and
/// right side, then what lies under it. Its left side has been visited.
pub(crate) open spec fn fwd_seq<K, V>(s: Seq<&Node<K, V>>) -> Seq<(K, V)>
    decreases s.len(),
{
    if s.len() == 0 {
        Seq::empty()
    } else {
        seq![s.last().kv()] + elems(s.last().right) + fwd_seq(s.drop_last())
    }
}

/// The pairs still to come from a backward stack, in increasing order: what
/// lies under the top node, then its left side and its own pair.
pub(crate) open spec fn bwd_seq<K, V>(s: Seq<&Node<K, V>>) -> Seq<(K, V)>
    decreases s.len(),
{
    if s.len() == 0 {
        Seq::empty()
    } else {
        bwd_seq(s.drop_last()) + elems(s.last().left) + seq![s.last().kv()]
    }
}

pub(crate) open spec fn stack_seq<K, V>(s: Seq<&Node<K, V>>, backwards: bool) -> Seq<(K, V)> {
    if backwards {
        bwd_seq(s)
    } else {
        fwd_seq(s)
    }
}

/// The pairs still to come from a stack whose top node is wholly unvisited.
pub(crate) open spec fn pending<K, V>(s: Seq<&Node<K, V>>, backwards: bool) -> Seq<(K, V)> {
    if s.len() == 0 {
        Seq::empty()
    } else if backwards {
        bwd_seq(s.drop_last()) + s.last().node_elems()
    } else {
        s.last().node_elems() + fwd_seq(s.drop_last())
    }
}

/// The nodes a stack holds, bottom first.
pub(crate) open spec fn nodes_of<K, V>(s: Seq<&Node<K, V>>) -> Seq<Node<K, V>> {
    s.map_values(|r: &Node<K, V>| *r)
}

/// The leftmost (rightmost, when `backwards`) path of a tree, root first.
pub(crate) open spec fn spine<K, V>(t: Option<Arc<Node<K, V>>>, backwards: bool) -> Seq<Node<K, V>>
    decreases t,
{
    match t {
        None => Seq::empty(),
        Some(n) => if backwards {
            seq![*n] + spine(n.right, true)
        } else {
            seq![*n] + spine(n.left, false)
        },
    }
}

/// The path below node `n` that `dig` pushes: its leftmost (rightmost) path.
pub(crate) open spec fn spine_below<K, V>(n: Node<K, V>, backwards: bool) -> Seq<Node<K, V>> {
    if backwards {
        spine(n.right, true)
    } else {
        spine(n.left, false)
    }
}

/// An iterator over the entries of a map in increasing order of keys, which can
/// also be taken from the greatest key down.
#[derive(Debug)]
pub struct IterArc<'a, K: 'a, V: 'a> {
    map: &'a RedBlackTreeMap<K, V>,
    stack_forward: Option<Vec<&'a Node<K, V>>>,
    stack_backward: Option<Vec<&'a Node<K, V>>>,
    left_index: usize,  // inclusive
    right_index: usize,  // exclusive
}

impl<'a, K: Ord, V> IterArc<'a, K, V> {
    /// The entries not yet handed out from either end, in increasing order.
    pub closed spec fn remaining(self) -> Seq<(K, V)> {
        self.map.entries().subrange(self.left_index as int, self.right_index as int)
    }

    /// The entries of the map the iterator runs over.
    pub closed spec fn source(self) -> Seq<(K, V)> {
        self.map.entries()
    }

    /// How many entries `next` has handed out.
    pub closed spec fn taken_front(self) -> nat {
        self.left_index as nat
    }

    /// How many entries `next_back` has handed out.
    pub closed spec fn taken_back(self) -> nat {
        (self.map.entries().len() - self.right_index) as nat
    }

    /// After `i` entries were taken from the front and `j` from the back, in any
    /// order, what remains is exactly the run of entries from `i` up to `n - j`,
    /// `n` being the number of entries: while `i + j < n` the next from the front
    /// is entry `i` and the next from the back entry `n - 1 - j`, and none is
    /// handed out twice, since the two ends never cross.
    pub proof fn lemma_taken_from_both_ends(self)
        requires
            self.wf(),
        ensures
            self.taken_front() + self.taken_back() <= self.source().len(),
            self.remaining() == self.source().subrange(
                self.taken_front() as int,
                self.source().len() - self.taken_back(),
            ),
            self.remaining().len() == self.source().len() - self.taken_front()
                - self.taken_back(),
            self.taken_front() + self.taken_back() < self.source().len() ==> {
                &&& self.remaining()[0] == self.source()[self.taken_front() as int]
                &&& self.remaining().last() == self.source()[self.source().len() - 1
                    - self.taken_back()]
            },
    {
    }

    pub closed spec fn wf(self) -> bool {
        let all = self.map.entries();
        &&& self.map.wf()
        &&& self.left_index <= self.right_index <= all.len()
        &&& match self.stack_forward {
            None => self.left_index == 0,
            Some(s) => fwd_seq(s@) == all.subrange(self.left_index as int, all.len() as int),
        }
        &&& match self.stack_backward {
            None => self.right_index == all.len(),
            Some(s) => bwd_seq(s@) == all.subrange(0, self.right_index as int),
        }
    }

    fn new(map: &'a RedBlackTreeMap<K, V>) -> (it: IterArc<'a, K, V>)
        requires
            map.wf(),
        ensures
            it.wf(),
            it.remaining() == map.entries(),
            it.source() == map.entries(),
            it.taken_front() == 0,
            it.taken_back() == 0,
    {
        IterArc {
            map,
            stack_forward: None,
            stack_backward: None,
            left_index: 0,
            right_index: map.size(),
        }
    }

    /// Pushes the leftmost (rightmost, when `backwards`) path below the top node.
    fn dig(stack: &mut Vec<&'a Node<K, V>>, backwards: bool)
        ensures
            old(stack)@.len() == 0 ==> final(stack)@ == old(stack)@,
            old(stack)@.len() > 0 ==> nodes_of(final(stack)@) == nodes_of(old(stack)@)
                + spine_below(*old(stack)@.last(), backwards),
            stack_seq(final(stack)@, backwards) == pending(old(stack)@, backwards),
        decreases (if old(stack)@.len() > 0 {
            old(stack)@.last().node_elems().len()
        } else {
            0
        }),
    {
        let len = stack.len();
        let child: Option<&'a Node<K, V>> = if len > 0 {
            let node: &'a Node<K, V> = stack[len - 1];
            let c = if backwards {
                &node.right
            } else {
                &node.left
            };
            Node::borrow(c)
        } else {
            None
        };

        if let Some(c) = child {
            let ghost s0 = stack@;
            stack.push(c);
            proof {
                let top = s0.last();
                assert(stack@.drop_last() =~= s0);
                assert(stack@.last() == c);
                if backwards {
                    lemma_unfold_link(top.right);
                } else {
                    lemma_unfold_link(top.left);
                }
            }
            IterArc::dig(stack, backwards);
            proof {
                assert(nodes_of(s0.push(c)) =~= nodes_of(s0) + seq![*c]);
                if backwards {
                    assert(s0.last().right == Some(Arc::new(*c)));
                } else {
                    assert(s0.last().left == Some(Arc::new(*c)));
                }
                assert(nodes_of(stack@) =~= nodes_of(s0) + spine_below(*s0.last(), backwards));
                if backwards {
                    assert(pending(s0, true) =~= bwd_seq(s0.drop_last()) + elems(s0.last().left)
                        + seq![s0.last().kv()] + c.node_elems());
                } else {
                    assert(pending(s0, false) =~= c.node_elems() + seq![s0.last().kv()] + elems(
                        s0.last().right,
                    ) + fwd_seq(s0.drop_last()));
                }
            }
        } else {
            proof {
                if len > 0 {
                    assert(pending(stack@, backwards) =~= stack_seq(stack@, backwards));
                    assert(nodes_of(stack@) =~= nodes_of(stack@) + spine_below(
                        *stack@.last(),
                        backwards,
                    ));
                }
            }
        }
    }

    fn init_if_needed(&mut self, backwards: bool)
        requires
            old(self).wf(),
        ensures
            final(self).wf(),
            final(self).remaining() == old(self).remaining(),
            backwards ==> final(self).stack_backward is Some,
            !backwards ==> final(self).stack_forward is Some,
            backwards && old(self).stack_backward is Some ==> *final(self) == *old(self),
            !backwards && old(self).stack_forward is Some ==> *final(self) == *old(self),
            final(self).map == old(self).map,
            final(self).left_index == old(self).left_index,
            final(self).right_index == old(self).right_index,
            backwards ==> final(self).stack_forward == old(self).stack_forward,
            !backwards ==> final(self).stack_backward == old(self).stack_backward,
            backwards && old(self).stack_backward is None ==> nodes_of(
                final(self).stack_backward.unwrap()@,
            ) == spine(old(self).map.root, true),
            !backwards && old(self).stack_forward is None ==> nodes_of(
                final(self).stack_forward.unwrap()@,
            ) == spine(old(self).map.root, false),
    {
        let needed = if backwards {
            self.stack_backward.is_none()
        } else {
            self.stack_forward.is_none()
        };
        if needed {
            proof {
                self.map.lemma_wf();
            }
            let mut stack = Vec::with_capacity(conservative_height(self.map.size()) + 1);

            if let Some(r) = Node::borrow(&self.map.root) {
                stack.push(r);
            }
            let ghost all = self.map.entries();
            proof {
                self.map.lemma_reveal();
                if self.map.root is Some {
                    lemma_unfold_link(self.map.root);
                    assert(stack@.drop_last() =~= Seq::<&Node<K, V>>::empty());
                }
                assert(pending(stack@, backwards) =~= all);
                assert(all.subrange(0, all.len() as int) =~= all);
            }

            let ghost s1 = stack@;
            IterArc::dig(&mut stack, backwards);
            proof {
                if self.map.root is Some {
                    assert(nodes_of(s1) =~= seq![*s1.last()]);
                    assert(nodes_of(stack@) =~= spine(self.map.root, backwards));
                } else {
                    assert(nodes_of(stack@) =~= spine(self.map.root, backwards));
                }
            }

            if backwards {
                self.stack_backward = Some(stack);
            } else {
                self.stack_forward = Some(stack);
            }
        }
    }

    #[inline]
    fn non_empty(&self) -> (r: bool)
        ensures
            r == (self.left_index < self.right_index),
    {
        self.left_index < self.right_index
    }

    /// Moves past the top node of the stack.
    fn advance(stack: &mut Vec<&'a Node<K, V>>, backwards: bool)
        ensures
            old(stack)@.len() == 0 ==> final(stack)@ == old(stack)@,
            old(stack)@.len() > 0 && !backwards ==> nodes_of(final(stack)@) == nodes_of(
                old(stack)@.drop_last(),
            ) + spine(old(stack)@.last().right, false),
            old(stack)@.len() > 0 && backwards ==> nodes_of(final(stack)@) == nodes_of(
                old(stack)@.drop_last(),
            ) + spine(old(stack)@.last().left, true),
            old(stack)@.len() > 0 && !backwards ==> fwd_seq(final(stack)@) == fwd_seq(
                old(stack)@,
            ).drop_first(),
            old(stack)@.len() > 0 && backwards ==> bwd_seq(final(stack)@) == bwd_seq(
                old(stack)@,
            ).drop_last(),
    {
        let ghost s0 = stack@;
        if let Some(node) = stack.pop() {
            let child = if backwards {
                &node.left
            } else {
                &node.right
            };
            proof {
                assert(stack@ == s0.drop_last());
            }

            if let Some(c) = Node::borrow(child) {
                stack.push(c);
                proof {
                    assert(stack@.drop_last() =~= s0.drop_last());
                    if backwards {
                        lemma_unfold_link(node.left);
                    } else {
                        lemma_unfold_link(node.right);
                    }
                }
                IterArc::dig(stack, backwards);
                proof {
                    if backwards {
                        assert(bwd_seq(s0).drop_last() =~= pending(s0.drop_last().push(c), true));
                    } else {
                        assert(fwd_seq(s0).drop_first() =~= pending(
                            s0.drop_last().push(c),
                            false,
                        ));
                    }
                }
            } else {
                proof {
                    if backwards {
                        assert(bwd_seq(s0).drop_last() =~= bwd_seq(stack@));
                    } else {
                        assert(fwd_seq(s0).drop_first() =~= fwd_seq(stack@));
                    }
                }
            }
        }
    }

    /// The entry of the top node.
    #[inline]
    fn current(stack: &[&'a Node<K, V>]) -> (r: Option<&'a Arc<Entry<K, V>>>)
        ensures
            match r {
                Some(e) => stack@.len() > 0 && *e == stack@.last().entry,
                None => stack@.len() == 0,
            },
    {
        let len = stack.len();
        if len > 0 {
            let node: &'a Node<K, V> = stack[len - 1];
            Some(&node.entry)
        } else {
            None
        }
    }

    fn advance_forward(&mut self)
        requires
            old(self).wf(),
            old(self).stack_forward is Some,
        ensures
            final(self).wf(),
            final(self).stack_forward is Some,
            final(self).map == old(self).map,
            final(self).remaining() == if old(self).remaining().len() > 0 {
                old(self).remaining().drop_first()
            } else {
                old(self).remaining()
            },
            final(self).left_index == old(self).left_index + if old(self).remaining().len() > 0 {
                1int
            } else {
                0int
            },
            final(self).right_index == old(self).right_index,
    {
        if self.non_empty() {
            let mut stack = self.stack_forward.take().unwrap();
            IterArc::advance(&mut stack, false);
            self.stack_forward = Some(stack);

            self.left_index += 1;
            proof {
                let all = self.map.entries();
                assert(all.subrange(self.left_index - 1, all.len() as int).drop_first()
                    =~= all.subrange(self.left_index as int, all.len() as int));
                assert(old(self).remaining().drop_first() =~= self.remaining());
            }
        }
    }

    fn current_forward(&self) -> (r: Option<&'a Arc<Entry<K, V>>>)
        requires
            self.wf(),
            self.stack_forward is Some,
        ensures
            match r {
                Some(e) => self.remaining().len() > 0 && (e.key, e.value) == self.remaining()[0],
                None => self.remaining().len() == 0,
            },
    {
        if self.non_empty() {
            proof {
                let all = self.map.entries();
                let s = self.stack_forward.unwrap()@;
                assert(all.subrange(self.left_index as int, all.len() as int)[0] == all[self.left_index as int]);
                assert(self.remaining()[0] == all[self.left_index as int]);
                assert(s.len() > 0);
            }
            IterArc::current(self.stack_forward.as_ref().unwrap().as_slice())
        } else {
            None
        }
    }

    fn advance_backward(&mut self)
        requires
            old(self).wf(),
            old(self).stack_backward is Some,
        ensures
            final(self).wf(),
            final(self).stack_backward is Some,
            final(self).map == old(self).map,
            final(self).remaining() == if old(self).remaining().len() > 0 {
                old(self).remaining().drop_last()
            } else {
                old(self).remaining()
            },
            final(self).right_index == old(self).right_index - if old(self).remaining().len() > 0 {
                1int
            } else {
                0int
            },
            final(self).left_index == old(self).left_index,
    {
        if self.non_empty() {
            let mut stack = self.stack_backward.take().unwrap();
            IterArc::advance(&mut stack, true);
            self.stack_backward = Some(stack);

            self.right_index -= 1;
            proof {
                let all = self.map.entries();
                assert(all.subrange(0, self.right_index + 1).drop_last() =~= all.subrange(
                    0,
                    self.right_index as int,
                ));
                assert(old(self).remaining().drop_last() =~= self.remaining());
            }
        }
    }

    fn current_backward(&self) -> (r: Option<&'a Arc<Entry<K, V>>>)
        requires
            self.wf(),
            self.stack_backward is Some,
        ensures
            match r {
                Some(e) => self.remaining().len() > 0 && (e.key, e.value) == self.remaining().last(),
                None => self.remaining().len() == 0,
            },
    {
        if self.non_empty() {
            proof {
                let all = self.map.entries();
                let s = self.stack_backward.unwrap()@;
                assert(self.remaining().last() == all[self.right_index - 1]);
                assert(s.len() > 0);
                assert(bwd_seq(s).last() == s.last().kv());
                assert(all.subrange(0, self.right_index as int).last() == all[self.right_index - 1]);
            }
            IterArc::current(self.stack_backward.as_ref().unwrap().as_slice())
        } else {
            None
        }
    }

    /// The entry with the least key not yet handed out, if any.
    pub fn next(&mut self) -> (r: Option<(&'a K, &'a V)>)
        requires
            old(self).wf(),
        ensures
            final(self).wf(),
            final(self).source() == old(self).source(),
            match r {
                Some((k, v)) => {
                    &&& old(self).remaining().len() > 0
                    &&& (*k, *v) == old(self).remaining()[0]
                    &&& final(self).remaining() == old(self).remaining().drop_first()
                    &&& final(self).taken_front() == old(self).taken_front() + 1
                },
                None => old(self).remaining().len() == 0 && final(self).remaining() == old(
                    self,
                ).remaining() && final(self).taken_front() == old(self).taken_front(),
            },
            final(self).taken_back() == old(self).taken_back(),
    {
        self.init_if_needed(false);

        let current = self.current_forward();

        self.advance_forward();

        match current {
            Some(e) => Some((&e.key, &e.value)),
            None => None,
        }
    }

    /// The entry with the greatest key not yet handed out, if any.
    pub fn next_back(&mut self) -> (r: Option<(&'a K, &'a V)>)
        requires
            old(self).wf(),
        ensures
            final(self).wf(),
            final(self).source() == old(self).source(),
            match r {
                Some((k, v)) => {
                    &&& old(self).remaining().len() > 0
                    &&& (*k, *v) == old(self).remaining().last()
                    &&& final(self).remaining() == old(self).remaining().drop_last()
                    &&& final(self).taken_back() == old(self).taken_back() + 1
                },
                None => old(self).remaining().len() == 0 && final(self).remaining() == old(
                    self,
                ).remaining() && final(self).taken_back() == old(self).taken_back(),
            },
            final(self).taken_front() == old(self).taken_front(),
    {
        self.init_if_needed(true);

        let current = self.current_backward();

        self.advance_backward();

        match current {
            Some(e) => Some((&e.key, &e.value)),
            None => None,
        }
    }

    /// How many entries are still to come: exactly, as both bounds.
    pub fn size_hint(&self) -> (r: (usize, Option<usize>))
        requires
            self.wf(),
        ensures
            r.0 == self.remaining().len(),
            r.1 == Some(self.remaining().len() as usize),
    {
        let len = self.right_index - self.left_index;

        (len, Some(len))
    }
}

impl<K: Ord, V> RedBlackTreeMap<K, V> {
    /// An iterator over the entries in increasing order of keys.
    pub fn iter(&self) -> (it: IterArc<'_, K, V>)
        requires
            self.wf(),
        ensures
            it.wf(),
            it.remaining() == self.entries(),
            it.source() == self.entries(),
            it.taken_front() == 0,
            it.taken_back() == 0,
    {
        self.iter_arc()
    }

    fn iter_arc(&self) -> (it: IterArc<'_, K, V>)
        requires
            self.wf(),
        ensures
            it.wf(),
            it.remaining() == self.entries(),
            it.source() == self.entries(),
            it.taken_front() == 0,
            it.taken_back() == 0,
    {
        IterArc::new(self)
    }

    /// The keys in increasing order.
    pub fn keys(&self) -> (r: Vec<&K>)
        requires
            self.wf(),
        ensures
            r@.len() == self.entries().len(),
            forall|i: int| 0 <= i < r@.len() ==> *r@[i] == self.entries()[i].0,
    {
        let mut it = self.iter();
        let mut keys: Vec<&K> = Vec::new();
        let ghost all = self.entries();
        proof {
            assert(all.subrange(0, all.len() as int) =~= all);
        }
        loop
            invariant
                it.wf(),
                keys@.len() <= all.len(),
                it.remaining() == all.subrange(keys@.len() as int, all.len() as int),
                forall|i: int| 0 <= i < keys@.len() ==> *keys@[i] == all[i].0,
            ensures
                keys@.len() == all.len(),
                forall|i: int| 0 <= i < keys@.len() ==> *keys@[i] == all[i].0,
            decreases it.remaining().len(),
        {
            match it.next() {
                Some((k, _)) => {
                    proof {
                        assert(all.subrange(keys@.len() as int, all.len() as int)[0] == all[keys@.len() as int]);
                        assert(all.subrange(keys@.len() as int, all.len() as int).drop_first()
                            =~= all.subrange(keys@.len() + 1int, all.len() as int));
                    }
                    keys.push(k);
                },
                None => {
                    break ;
                },
            }
        }
        keys
    }

    /// The values in increasing order of their keys.
    pub fn values(&self) -> (r: Vec<&V>)
        requires
            self.wf(),
        ensures
            r@.len() == self.entries().len(),
            forall|i: int| 0 <= i < r@.len() ==> *r@[i] == self.entries()[i].1,
    {
        let mut it = self.iter();
        let mut values: Vec<&V> = Vec::new();
        let ghost all = self.entries();
        proof {
            assert(all.subrange(0, all.len() as int) =~= all);
        }
        loop
            invariant
                it.wf(),
                values@.len() <= all.len(),
                it.remaining() == all.subrange(values@.len() as int, all.len() as int),
                forall|i: int| 0 <= i < values@.len() ==> *values@[i] == all[i].1,
            ensures
                values@.len() == all.len(),
                forall|i: int| 0 <= i < values@.len() ==> *values@[i] == all[i].1,
            decreases it.remaining().len(),
        {
            match it.next() {
                Some((_, v)) => {
                    proof {
                        assert(all.subrange(values@.len() as int, all.len() as int)[0]
                            == all[values@.len() as int]);
                        assert(all.subrange(values@.len() as int, all.len() as int).drop_first()
                            =~= all.subrange(values@.len() + 1int, all.len() as int));
                    }
                    values.push(v);
                },
                None => {
                    break ;
                },
            }
        }
        values
    }
}

} // verus!
