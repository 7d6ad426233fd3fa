use vstd::prelude::*;
use crate::utils::ghost_cell::GhostToken;
use crate::utils::trc::Trc;

verus! {

/// One element of a list: the value and a half handle to each neighbour.
pub struct Node<T> {
    pub val: T,
    prev: Option<Trc<Node<T>, 1, 2>>,
    next: Option<Trc<Node<T>, 1, 2>>,
}

impl<T> Node<T> {
    fn new(val: T) -> (node: Self)
        ensures
            node.val == val,
            node.prev is None,
            node.next is None,
    {
        Node { val, prev: None, next: None }
    }

    /// The value that the node carries.
    pub closed spec fn value(&self) -> T {
        self.val
    }

    /// The value that the node carries.
    pub fn get(&self) -> (val: &T)
        ensures
            *val == self.value(),
    {
        &self.val
    }

    /// Exclusive access to the value; the handles to the neighbours stay
    /// what they are.
    pub fn get_mut(&mut self) -> (val: &mut T)
        ensures
            *val == old(self).value(),
            final(self).value() == *final(val),
            final(self).prev_addr() == old(self).prev_addr(),
            final(self).next_addr() == old(self).next_addr(),
    {
        &mut self.val
    }

    /// Gives up the node for the value that it carries.
    pub fn into_inner(self) -> (val: T)
        ensures
            val == self.value(),
    {
        self.val
    }

    /// The address of the node before this one, if the node holds a handle to it.
    pub closed spec fn prev_addr(&self) -> Option<usize> {
        match self.prev {
            Some(p) => Some(p.addr()),
            None => None,
        }
    }

    /// The address of the node after this one, if the node holds a handle to it.
    pub closed spec fn next_addr(&self) -> Option<usize> {
        match self.next {
            Some(n) => Some(n.addr()),
            None => None,
        }
    }
}

/// The node at place `i` of `nodes` is live in `cells` and holds handles to
/// exactly its neighbours in `nodes`.
pub open spec fn linked<T>(cells: Map<usize, Node<T>>, nodes: Seq<usize>, i: int) -> bool {
    &&& cells.dom().contains(nodes[i])
    &&& cells[nodes[i]].prev_addr() == if i == 0 {
        None
    } else {
        Some(nodes[i - 1])
    }
    &&& cells[nodes[i]].next_addr() == if i == nodes.len() - 1 {
        None
    } else {
        Some(nodes[i + 1])
    }
}

/// Every cell of `before` that is none of `nodes` is in `after` with the same value.
pub open spec fn others_kept<T>(
    before: Map<usize, Node<T>>,
    after: Map<usize, Node<T>>,
    nodes: Seq<usize>,
) -> bool {
    forall|a: usize|
        before.dom().contains(a) && !nodes.contains(a) ==> after.dom().contains(a) && after[a]
            == before[a]
}

/// A doubly linked list whose nodes live in the scope of a token. Each node's
/// ownership is two halves: one held by the node before it, or by the list if
/// it is the first; the other by the node after it, or by the list if it is the
/// last.
pub struct LinkedList<T> {
    head_tail: Option<(Trc<Node<T>, 1, 2>, Trc<Node<T>, 1, 2>)>,
    nodes: Ghost<Seq<usize>>,
}

impl<T> LinkedList<T> {
    /// The addresses of the list's nodes, front to back.
    pub closed spec fn nodes(&self) -> Seq<usize> {
        self.nodes@
    }

    /// The list's invariant with respect to the scope that its nodes live in.
    pub closed spec fn wf(&self, token: GhostToken<Node<T>>) -> bool {
        let a = self.nodes@;
        &&& token.wf()
        &&& a.no_duplicates()
        &&& match self.head_tail {
            None => a.len() == 0,
            Some((head, tail)) => a.len() > 0 && head.addr() == a[0] && tail.addr() == a[a.len()
                - 1],
        }
        &&& forall|i: int| 0 <= i < a.len() ==> #[trigger] linked(token@, a, i)
    }

    /// The address that the list's handle to its first node points at.
    pub closed spec fn head_addr(&self) -> Option<usize> {
        match self.head_tail {
            Some((head, _)) => Some(head.addr()),
            None => None,
        }
    }

    /// The address that the list's handle to its last node points at.
    pub closed spec fn tail_addr(&self) -> Option<usize> {
        match self.head_tail {
            Some((_, tail)) => Some(tail.addr()),
            None => None,
        }
    }

    /// The handles that a well-formed list holds to the node at place `i` are
    /// exactly two halves: one from the side of the front, held by the node
    /// before it or, for the first node, by the list; one from the side of
    /// the back, held by the node after it or, for the last node, by the
    /// list. Together they are the whole of the node.
    pub proof fn lemma_handles_to_node(&self, token: GhostToken<Node<T>>, i: int)
        requires
            self.wf(token),
            0 <= i < self.nodes().len(),
        ensures
            self.head_addr() == Some(self.nodes()[i]) <==> i == 0,
            self.tail_addr() == Some(self.nodes()[i]) <==> i == self.nodes().len() - 1,
            forall|j: int|
                0 <= j < self.nodes().len() ==> (token@[#[trigger] self.nodes()[j]].next_addr()
                    == Some(self.nodes()[i]) <==> j == i - 1),
            forall|j: int|
                0 <= j < self.nodes().len() ==> (token@[#[trigger] self.nodes()[j]].prev_addr()
                    == Some(self.nodes()[i]) <==> j == i + 1),
    {
        let a = self.nodes@;
        assert forall|j: int| 0 <= j < a.len() implies (token@[#[trigger] a[j]].next_addr()
            == Some(a[i]) <==> j == i - 1) by {
            assert(linked(token@, a, j));
        }
        assert forall|j: int| 0 <= j < a.len() implies (token@[#[trigger] a[j]].prev_addr()
            == Some(a[i]) <==> j == i + 1) by {
            assert(linked(token@, a, j));
        }
    }

    /// Every node of a well-formed list is a live cell of the scope.
    pub proof fn lemma_nodes_live(&self, token: GhostToken<Node<T>>, i: int)
        requires
            self.wf(token),
            0 <= i < self.nodes().len(),
        ensures
            token.wf(),
            token@.dom().contains(self.nodes()[i]),
    {
        assert(linked(token@, self.nodes@, i));
    }

    /// What happens to cells that are none of the list's nodes does not touch
    /// the list: it stays well formed and keeps its values.
    pub proof fn lemma_other_cells(&self, before: GhostToken<Node<T>>, after: GhostToken<Node<T>>)
        requires
            self.wf(before),
            after.wf(),
            forall|a: usize|
                self.nodes().contains(a) ==> after@.dom().contains(a) && after@[a] == before@[a],
        ensures
            self.wf(after),
            self.values(after) == self.values(before),
    {
        let a = self.nodes@;
        assert forall|i: int| 0 <= i < a.len() implies #[trigger] linked(after@, a, i) by {
            assert(linked(before@, a, i));
            assert(self.nodes()[i] == a[i]);
            assert(self.nodes().contains(a[i]));
            if i > 0 {
                assert(self.nodes().contains(a[i - 1]));
            }
            if i < a.len() - 1 {
                assert(self.nodes().contains(a[i + 1]));
            }
        }
        assert(self.values(after) =~= self.values(before)) by {
            assert forall|i: int| 0 <= i < a.len() implies after@[a[i]] == before@[a[i]] by {
                assert(self.nodes()[i] == a[i]);
                assert(self.nodes().contains(a[i]));
            }
        }
    }

    /// A list is well formed only in a well-formed scope.
    pub proof fn lemma_scope_wf(&self, token: GhostToken<Node<T>>)
        requires
            self.wf(token),
        ensures
            token.wf(),
    {
    }

    /// No node stands at two places of a well-formed list.
    pub proof fn lemma_nodes_distinct(&self, token: GhostToken<Node<T>>)
        requires
            self.wf(token),
        ensures
            self.nodes().no_duplicates(),
    {
    }

    /// The values of the list, front to back.
    pub open spec fn values(&self, token: GhostToken<Node<T>>) -> Seq<T> {
        Seq::new(self.nodes().len(), |i: int| token@[self.nodes()[i]].value())
    }

    /// The list of no nodes; it is well formed in every scope.
    pub fn new() -> (list: Self)
        ensures
            list.nodes() == Seq::<usize>::empty(),
            forall|token: GhostToken<Node<T>>| token.wf() ==> list.wf(token),
    {
        Self { head_tail: None, nodes: Ghost(Seq::empty()) }
    }

    /// Allocates a node for `val` and puts it before the first.
    pub fn push_front(&mut self, val: T, token: &mut GhostToken<Node<T>>)
        requires
            old(self).wf(*old(token)),
        ensures
            final(token).wf(),
            final(self).wf(*final(token)),
            final(self).values(*final(token)) == seq![val] + old(self).values(*old(token)),
            final(self).nodes().len() == old(self).nodes().len() + 1,
            final(self).nodes().drop_first() == old(self).nodes(),
            !old(token)@.dom().contains(final(self).nodes()[0]),
            final(token)@.dom() == old(token)@.dom().insert(final(self).nodes()[0]),
            others_kept(old(token)@, final(token)@, old(self).nodes()),
    {
        let full = Trc::<Node<T>, 2, 2>::new(Node::new(val), token);
        let ghost addr = full.addr();
        let ghost mid = token@;
        let (a, b) = full.split::<1, 1>();
        match self.head_tail.take() {
            Some((head, tail)) => {
                proof {
                    assert(linked(old(token)@, old(self).nodes@, 0));
                }
                let h = head.borrow_mut(token);
                h.prev = Some(b);
                let n = a.borrow_mut(token);
                n.next = Some(head);
                self.head_tail = Some((a, tail));
            },
            None => {
                self.head_tail = Some((a, b));
            },
        }
        self.nodes = Ghost(seq![addr] + old(self).nodes@);
        proof {
            let before = old(self).nodes@;
            let after = self.nodes@;
            assert(after.drop_first() =~= before);
            assert forall|i: int| 0 <= i < after.len() implies #[trigger] linked(
                token@,
                after,
                i,
            ) by {
                if i > 0 {
                    assert(after[i] == before[i - 1]);
                    assert(linked(old(token)@, before, i - 1));
                    assert(i > 1 ==> after[i - 1] == before[i - 2]);
                    assert(i < after.len() - 1 ==> after[i + 1] == before[i]);
                } else {
                    assert(after.len() > 1 ==> after[1] == before[0]);
                }
            }
            assert forall|i: int, j: int| 0 <= i < after.len() && 0 <= j < after.len() && i != j implies after[i] != after[j] by {
                if i > 0 {
                    assert(linked(old(token)@, before, i - 1));
                }
                if j > 0 {
                    assert(linked(old(token)@, before, j - 1));
                }
            }
            assert(self.values(*token) =~= seq![val] + old(self).values(*old(token))) by {
                assert forall|i: int| 1 <= i < after.len() implies token@[after[i]].val == old(
                    token,
                )@[before[i - 1]].val by {
                    assert(linked(old(token)@, before, i - 1));
                }
            }
            assert(token@.dom() =~= old(token)@.dom().insert(addr));
        }
    }

    /// Allocates a node for `val` and puts it after the last.
    pub fn push_back(&mut self, val: T, token: &mut GhostToken<Node<T>>)
        requires
            old(self).wf(*old(token)),
        ensures
            final(token).wf(),
            final(self).wf(*final(token)),
            final(self).values(*final(token)) == old(self).values(*old(token)).push(val),
            final(self).nodes().len() == old(self).nodes().len() + 1,
            final(self).nodes().drop_last() == old(self).nodes(),
            !old(token)@.dom().contains(final(self).nodes().last()),
            final(token)@.dom() == old(token)@.dom().insert(final(self).nodes().last()),
            others_kept(old(token)@, final(token)@, old(self).nodes()),
    {
        let full = Trc::<Node<T>, 2, 2>::new(Node::new(val), token);
        let ghost addr = full.addr();
        let (a, b) = full.split::<1, 1>();
        match self.head_tail.take() {
            Some((head, tail)) => {
                proof {
                    assert(linked(old(token)@, old(self).nodes@, old(self).nodes@.len() - 1));
                }
                let t = tail.borrow_mut(token);
                t.next = Some(b);
                let n = a.borrow_mut(token);
                n.prev = Some(tail);
                self.head_tail = Some((head, a));
            },
            None => {
                self.head_tail = Some((a, b));
            },
        }
        self.nodes = Ghost(old(self).nodes@.push(addr));
        proof {
            let before = old(self).nodes@;
            let after = self.nodes@;
            assert(after.drop_last() =~= before);
            assert forall|i: int| 0 <= i < after.len() implies #[trigger] linked(
                token@,
                after,
                i,
            ) by {
                if i < before.len() {
                    assert(linked(old(token)@, before, i));
                }
            }
            assert forall|i: int, j: int|
                0 <= i < after.len() && 0 <= j < after.len() && i != j implies after[i]
                != after[j] by {
                if i < before.len() {
                    assert(linked(old(token)@, before, i));
                }
                if j < before.len() {
                    assert(linked(old(token)@, before, j));
                }
            }
            assert(self.values(*token) =~= old(self).values(*old(token)).push(val)) by {
                assert forall|i: int| 0 <= i < before.len() implies token@[after[i]].value() == old(
                    token,
                )@[before[i]].value() by {
                    assert(linked(old(token)@, before, i));
                }
            }
            assert(token@.dom() =~= old(token)@.dom().insert(addr));
        }
    }

    /// Takes the first node out, gives its cell back to the scope and returns
    /// its value; `None` from the empty list.
    pub fn pop_front(&mut self, token: &mut GhostToken<Node<T>>) -> (popped: Option<T>)
        requires
            old(self).wf(*old(token)),
        ensures
            final(token).wf(),
            final(self).wf(*final(token)),
            old(self).nodes().len() == 0 ==> popped is None && final(self).nodes() == old(
                self,
            ).nodes() && final(token)@ == old(token)@,
            old(self).nodes().len() > 0 ==> popped == Some(old(self).values(*old(token))[0])
                && final(self).nodes() == old(self).nodes().drop_first() && final(self).values(
                *final(token),
            ) == old(self).values(*old(token)).drop_first() && final(token)@.dom() == old(
                token,
            )@.dom().remove(old(self).nodes()[0]),
            others_kept(old(token)@, final(token)@, old(self).nodes()),
    {
        let (head, tail) = match self.head_tail.take() {
            Some(pair) => pair,
            None => {
                return None;
            },
        };
        let ghost before = old(self).nodes@;
        proof {
            assert(linked(old(token)@, before, 0));
        }
        if head.has_same_pointee(&tail) {
            let full = Trc::<Node<T>, 2, 2>::join(head, tail);
            let node = full.into_inner(token);
            self.nodes = Ghost(Seq::empty());
            proof {
                assert(before.len() == 1);
                assert(self.nodes@ =~= before.drop_first());
                assert(self.values(*token) =~= old(self).values(*old(token)).drop_first());
            }
            return Some(node.val);
        }
        proof {
            assert(linked(old(token)@, before, 1));
        }
        let next = head.borrow_mut(token).next.take().unwrap();
        let other_head = next.borrow_mut(token).prev.take().unwrap();
        let full = Trc::<Node<T>, 2, 2>::join(other_head, head);
        self.head_tail = Some((next, tail));
        let node = full.into_inner(token);
        self.nodes = Ghost(before.drop_first());
        proof {
            let after = self.nodes@;
            assert forall|i: int| 0 <= i < after.len() implies #[trigger] linked(
                token@,
                after,
                i,
            ) by {
                assert(linked(old(token)@, before, i + 1));
            }
            assert(self.values(*token) =~= old(self).values(*old(token)).drop_first()) by {
                assert forall|i: int| 0 <= i < after.len() implies token@[after[i]].value() == old(
                    token,
                )@[before[i + 1]].value() by {
                    assert(linked(old(token)@, before, i + 1));
                }
            }
            assert(token@.dom() =~= old(token)@.dom().remove(before[0]));
        }
        Some(node.val)
    }

    /// Takes the last node out, gives its cell back to the scope and returns
    /// its value; `None` from the empty list.
    pub fn pop_back(&mut self, token: &mut GhostToken<Node<T>>) -> (popped: Option<T>)
        requires
            old(self).wf(*old(token)),
        ensures
            final(token).wf(),
            final(self).wf(*final(token)),
            old(self).nodes().len() == 0 ==> popped is None && final(self).nodes() == old(
                self,
            ).nodes() && final(token)@ == old(token)@,
            old(self).nodes().len() > 0 ==> popped == Some(old(self).values(*old(token)).last())
                && final(self).nodes() == old(self).nodes().drop_last() && final(self).values(
                *final(token),
            ) == old(self).values(*old(token)).drop_last() && final(token)@.dom() == old(
                token,
            )@.dom().remove(old(self).nodes().last()),
            others_kept(old(token)@, final(token)@, old(self).nodes()),
    {
        let (head, tail) = match self.head_tail.take() {
            Some(pair) => pair,
            None => {
                return None;
            },
        };
        let ghost before = old(self).nodes@;
        let ghost last = before.len() - 1;
        proof {
            assert(linked(old(token)@, before, last));
        }
        if head.has_same_pointee(&tail) {
            let full = Trc::<Node<T>, 2, 2>::join(head, tail);
            let node = full.into_inner(token);
            self.nodes = Ghost(Seq::empty());
            proof {
                assert(before.len() == 1);
                assert(self.nodes@ =~= before.drop_last());
                assert(self.values(*token) =~= old(self).values(*old(token)).drop_last());
            }
            return Some(node.val);
        }
        proof {
            assert(linked(old(token)@, before, last - 1));
        }
        let prev = tail.borrow_mut(token).prev.take().unwrap();
        let other_tail = prev.borrow_mut(token).next.take().unwrap();
        let full = Trc::<Node<T>, 2, 2>::join(other_tail, tail);
        self.head_tail = Some((head, prev));
        let node = full.into_inner(token);
        self.nodes = Ghost(before.drop_last());
        proof {
            let after = self.nodes@;
            assert forall|i: int| 0 <= i < after.len() implies #[trigger] linked(
                token@,
                after,
                i,
            ) by {
                assert(linked(old(token)@, before, i));
            }
            assert(self.values(*token) =~= old(self).values(*old(token)).drop_last()) by {
                assert forall|i: int| 0 <= i < after.len() implies token@[after[i]].value() == old(
                    token,
                )@[before[i]].value() by {
                    assert(linked(old(token)@, before, i));
                }
            }
            assert(token@.dom() =~= old(token)@.dom().remove(before[last]));
        }
        Some(node.val)
    }

    /// The first value, if there is one.
    pub fn front<'a>(&'a self, token: &'a GhostToken<Node<T>>) -> (r: Option<&'a T>)
        requires
            self.wf(*token),
        ensures
            match r {
                Some(val) => self.nodes().len() > 0 && *val == self.values(*token)[0],
                None => self.nodes().len() == 0,
            },
    {
        match &self.head_tail {
            Some((head, _)) => {
                proof {
                    assert(linked(token@, self.nodes@, 0));
                }
                Some(&head.borrow(token).val)
            },
            None => None,
        }
    }

    /// The last value, if there is one.
    pub fn back<'a>(&'a self, token: &'a GhostToken<Node<T>>) -> (r: Option<&'a T>)
        requires
            self.wf(*token),
        ensures
            match r {
                Some(val) => self.nodes().len() > 0 && *val == self.values(*token).last(),
                None => self.nodes().len() == 0,
            },
    {
        match &self.head_tail {
            Some((_, tail)) => {
                proof {
                    assert(linked(token@, self.nodes@, self.nodes@.len() - 1));
                }
                Some(&tail.borrow(token).val)
            },
            None => None,
        }
    }

    /// Writing another value into the node at place `i` keeps the list, and
    /// changes its values at place `i` only.
    proof fn lemma_value_rewritten(
        &self,
        before: GhostToken<Node<T>>,
        after: GhostToken<Node<T>>,
        i: int,
    )
        requires
            self.wf(before),
            0 <= i < self.nodes().len(),
            after.wf(),
            after@ == before@.insert(self.nodes()[i], after@[self.nodes()[i]]),
            after@[self.nodes()[i]].prev == before@[self.nodes()[i]].prev,
            after@[self.nodes()[i]].next == before@[self.nodes()[i]].next,
        ensures
            self.wf(after),
            self.values(after) == self.values(before).update(i, after@[self.nodes()[i]].value()),
    {
        let a = self.nodes@;
        assert forall|j: int| 0 <= j < a.len() implies #[trigger] linked(after@, a, j) by {
            assert(linked(before@, a, j));
        }
        assert(self.values(after) =~= self.values(before).update(
            i,
            after@[self.nodes()[i]].value(),
        ));
    }

    /// Exclusive access to the first value, if there is one: the list holds
    /// what is written there.
    pub fn front_mut<'a>(&'a mut self, token: &'a mut GhostToken<Node<T>>) -> (r: Option<
        &'a mut T,
    >)
        requires
            old(self).wf(*old(token)),
        ensures
            *final(self) == *old(self),
            match r {
                Some(val) => old(self).nodes().len() > 0 && *val == old(self).values(
                    *old(token),
                )[0] && final(token).wf() && final(self).wf(*final(token)) && final(self).values(
                    *final(token),
                ) == old(
                    self,
                ).values(*old(token)).update(0, *final(val)) && final(token)@.dom() == old(
                    token,
                )@.dom() && others_kept(old(token)@, final(token)@, old(self).nodes()),
                None => old(self).nodes().len() == 0 && *final(token) == *old(token),
            },
    {
        match &self.head_tail {
            Some((head, _)) => {
                proof {
                    let list = *self;
                    let before = *token;
                    assert(linked(before@, list.nodes@, 0));
                    assert forall|after: GhostToken<Node<T>>|
                        after.wf() && after@ == before@.insert(
                            list.nodes()[0],
                            after@[list.nodes()[0]],
                        ) && after@[list.nodes()[0]].prev == before@[list.nodes()[0]].prev
                            && after@[list.nodes()[0]].next
                            == before@[list.nodes()[0]].next implies #[trigger] list.wf(after)
                        && list.values(after) == list.values(before).update(
                        0,
                        after@[list.nodes()[0]].value(),
                    ) && after@.dom() == before@.dom() by {
                        list.lemma_value_rewritten(before, after, 0);
                        assert(after@.dom() =~= before@.dom());
                    }
                }
                let node = head.borrow_mut(token);
                Some(&mut node.val)
            },
            None => None,
        }
    }

    /// Exclusive access to the last value, if there is one: the list holds
    /// what is written there.
    pub fn back_mut<'a>(&'a mut self, token: &'a mut GhostToken<Node<T>>) -> (r: Option<
        &'a mut T,
    >)
        requires
            old(self).wf(*old(token)),
        ensures
            *final(self) == *old(self),
            match r {
                Some(val) => old(self).nodes().len() > 0 && *val == old(self).values(
                    *old(token),
                ).last() && final(token).wf() && final(self).wf(*final(token)) && final(self).values(
                    *final(token),
                )
                    == old(self).values(*old(token)).update(
                    old(self).nodes().len() - 1,
                    *final(val),
                ) && final(token)@.dom() == old(token)@.dom() && others_kept(
                    old(token)@,
                    final(token)@,
                    old(self).nodes(),
                ),
                None => old(self).nodes().len() == 0 && *final(token) == *old(token),
            },
    {
        match &self.head_tail {
            Some((_, tail)) => {
                proof {
                    let list = *self;
                    let before = *token;
                    let last = list.nodes@.len() - 1;
                    assert(linked(before@, list.nodes@, last));
                    assert forall|after: GhostToken<Node<T>>|
                        after.wf() && after@ == before@.insert(
                            list.nodes()[last],
                            after@[list.nodes()[last]],
                        ) && after@[list.nodes()[last]].prev == before@[list.nodes()[last]].prev
                            && after@[list.nodes()[last]].next
                            == before@[list.nodes()[last]].next implies #[trigger] list.wf(after)
                        && list.values(after) == list.values(before).update(
                        last,
                        after@[list.nodes()[last]].value(),
                    ) && after@.dom() == before@.dom() by {
                        list.lemma_value_rewritten(before, after, last);
                        assert(after@.dom() =~= before@.dom());
                    }
                }
                let node = tail.borrow_mut(token);
                Some(&mut node.val)
            },
            None => None,
        }
    }

    /// Ends the list: walks it from the front and gives every node's cell
    /// back to the scope, values included.
    pub fn drop(self, token: &mut GhostToken<Node<T>>)
        requires
            self.wf(*old(token)),
        ensures
            final(token).wf(),
            final(token)@ == old(token)@.remove_keys(self.nodes().to_set()),
    {
        let ghost a = self.nodes@;
        let ghost mut k: int = 0;
        let mut cur = match self.head_tail {
            Some((head, _)) => Some(head),
            None => None,
        };
        proof {
            assert(a.subrange(0, 0).to_set() =~= Set::<usize>::empty());
            assert(token@ =~= old(token)@.remove_keys(a.subrange(0, 0).to_set()));
        }
        while cur.is_some()
            invariant
                self.wf(*old(token)),
                a == self.nodes@,
                token.wf(),
                0 <= k <= a.len(),
                match cur {
                    Some(head) => k < a.len() && head.addr() == a[k],
                    None => k == a.len(),
                },
                token@ == old(token)@.remove_keys(a.subrange(0, k).to_set()),
            decreases a.len() - k,
        {
            let head = cur.unwrap();
            proof {
                assert(linked(old(token)@, a, k));
                assert(!a.subrange(0, k).to_set().contains(a[k])) by {
                    if a.subrange(0, k).contains(a[k]) {
                        let j = choose|j: int| 0 <= j < k && a.subrange(0, k)[j] == a[k];
                        assert(a[j] == a[k]);
                    }
                }
            }
            let node = head.borrow_mut(token);
            let _prev = node.prev.take();
            let next = node.next.take();
            let full = Trc::<Node<T>, 2, 2>::lift_from(head);
            let _node = full.into_inner(token);
            proof {
                let s0 = a.subrange(0, k);
                let s1 = a.subrange(0, k + 1);
                assert forall|x: usize| s1.to_set().contains(x) <==> (s0.to_set().contains(x) || x
                    == a[k]) by {
                    if s0.contains(x) {
                        let j = choose|j: int| 0 <= j < k && s0[j] == x;
                        assert(s1[j] == x);
                    }
                    if x == a[k] {
                        assert(s1[k] == x);
                    }
                    if s1.contains(x) {
                        let j = choose|j: int| 0 <= j < k + 1 && s1[j] == x;
                        if j < k {
                            assert(s0[j] == x);
                        }
                    }
                }
                assert(token@ =~= old(token)@.remove_keys(s1.to_set()));
                k = k + 1;
            }
            cur = next;
        }
        proof {
            assert(a.subrange(0, k) =~= a);
        }
    }
}

impl<T> Default for LinkedList<T> {
    fn default() -> (list: Self)
        ensures
            list.nodes() == Seq::<usize>::empty(),
            forall|token: GhostToken<Node<T>>| token.wf() ==> list.wf(token),
    {
        Self::new()
    }
}

/// The values of a list with the values `s` after each of `vals` was pushed
/// to its front, in the order of `vals`.
pub open spec fn pushed_front<T>(s: Seq<T>, vals: Seq<T>) -> Seq<T>
    decreases vals.len(),
{
    if vals.len() == 0 {
        s
    } else {
        pushed_front(seq![vals[0]] + s, vals.drop_first())
    }
}

/// What `n` pops from the back of a list with the values `s` return, in the
/// order of the pops.
pub open spec fn popped_back<T>(s: Seq<T>, n: nat) -> Seq<T>
    decreases n,
{
    if n == 0 || s.len() == 0 {
        Seq::empty()
    } else {
        seq![s.last()] + popped_back(s.drop_last(), (n - 1) as nat)
    }
}

/// What `n` pops from the front of a list with the values `s` return, in the
/// order of the pops.
pub open spec fn popped_front<T>(s: Seq<T>, n: nat) -> Seq<T>
    decreases n,
{
    if n == 0 || s.len() == 0 {
        Seq::empty()
    } else {
        seq![s[0]] + popped_front(s.drop_first(), (n - 1) as nat)
    }
}

/// Values pushed to the front stand before what was there, the last pushed
/// first.
pub proof fn lemma_pushed_front<T>(s: Seq<T>, vals: Seq<T>)
    ensures
        pushed_front(s, vals) == vals.reverse() + s,
    decreases vals.len(),
{
    if vals.len() == 0 {
        assert(vals.reverse() + s =~= s);
    } else {
        let rest = vals.drop_first();
        lemma_pushed_front(seq![vals[0]] + s, rest);
        assert(rest.reverse() + (seq![vals[0]] + s) =~= vals.reverse() + s);
    }
}

/// Popping a whole list from the back returns its values from the last to
/// the first.
pub proof fn lemma_popped_back<T>(s: Seq<T>)
    ensures
        popped_back(s, s.len()) == s.reverse(),
    decreases s.len(),
{
    if s.len() == 0 {
        assert(popped_back(s, s.len()) =~= s.reverse());
    } else {
        lemma_popped_back(s.drop_last());
        assert(seq![s.last()] + s.drop_last().reverse() =~= s.reverse());
    }
}

/// Popping a whole list from the front returns its values from the first to
/// the last.
pub proof fn lemma_popped_front<T>(s: Seq<T>)
    ensures
        popped_front(s, s.len()) == s,
    decreases s.len(),
{
    if s.len() == 0 {
        assert(popped_front(s, s.len()) =~= s);
    } else {
        lemma_popped_front(s.drop_first());
        assert(seq![s[0]] + s.drop_first() =~= s);
    }
}

/// First in, first out across the two ends: values pushed to the front of an
/// empty list come out at the back in the order in which they were pushed.
pub proof fn lemma_push_front_pop_back_round_trip<T>(vals: Seq<T>)
    ensures
        popped_back(pushed_front(Seq::empty(), vals), vals.len()) == vals,
{
    lemma_pushed_front(Seq::<T>::empty(), vals);
    let pushed = pushed_front(Seq::<T>::empty(), vals);
    assert(pushed =~= vals.reverse());
    lemma_popped_back(pushed);
    assert(vals.reverse().reverse() =~= vals);
}

/// Last in, first out at one end: values pushed to the front of an empty list
/// come out at the front in the reverse of the order in which they were
/// pushed.
pub proof fn lemma_push_front_pop_front_reverses<T>(vals: Seq<T>)
    ensures
        popped_front(pushed_front(Seq::empty(), vals), vals.len()) == vals.reverse(),
{
    lemma_pushed_front(Seq::<T>::empty(), vals);
    let pushed = pushed_front(Seq::<T>::empty(), vals);
    assert(pushed =~= vals.reverse());
    lemma_popped_front(pushed);
}

} // verus!
