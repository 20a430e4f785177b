//! A doubly linked list whose links live inside caller-owned nodes.
//!
//! The nodes sit in an arena (a `Vec<Node<T>>`) owned by the caller; links are
//! arena indices. Several lists may thread through one arena, as long as no node
//! belongs to two of them.
use vstd::prelude::*;
use std::marker::PhantomData;

verus! {

/// One arena slot: a payload and the indices of its neighbours in the list
/// that currently holds it.
pub struct Node<T> {
    pub next: Option<usize>,
    pub prev: Option<usize>,
    pub object: T,
}

impl<T> Node<T> {
    /// A node carrying `object`, linked to nothing.
    pub fn new(object: T) -> (r: Self)
        ensures
            r.next is None,
            r.prev is None,
            r.object == object,
    {
        Node { next: None, prev: None, object }
    }

    pub fn as_mut(&mut self) -> (r: &mut T)
        ensures
            *r == old(self).object,
            final(self).object == *final(r),
            final(self).next == old(self).next,
            final(self).prev == old(self).prev,
    {
        &mut self.object
    }

    pub fn as_ref(&self) -> (r: &T)
        ensures
            *r == self.object,
    {
        &self.object
    }
}

/// A list threaded through an arena of `Node<T>`; it holds only its head.
/// Its ghost view is the sequence of member indices, head first.
pub struct InplaceList<T> {
    first: Option<usize>,
    members: Ghost<Seq<usize>>,
    marker: PhantomData<T>,
}

impl<T> Clone for InplaceList<T> {
    fn clone(&self) -> (r: Self)
        ensures
            r == *self,
    {
        InplaceList { first: self.first, members: self.members, marker: PhantomData }
    }
}

impl<T> Copy for InplaceList<T> {

}

impl<T> View for InplaceList<T> {
    type V = Seq<usize>;

    closed spec fn view(&self) -> Seq<usize> {
        self.members@
    }
}

/// The links that member `k` of `s` must carry.
pub open spec fn prev_link(s: Seq<usize>, k: int) -> Option<usize> {
    if k == 0 {
        None
    } else {
        Some(s[k - 1])
    }
}

pub open spec fn next_link(s: Seq<usize>, k: int) -> Option<usize> {
    if k == s.len() - 1 {
        None
    } else {
        Some(s[k + 1])
    }
}

impl<T> InplaceList<T> {
    pub closed spec fn head(&self) -> Option<usize> {
        self.first
    }

    /// The list's members are distinct indices into `nodes`, linked in order,
    /// and the head is the first of them.
    pub open spec fn wf(&self, nodes: Seq<Node<T>>) -> bool {
        let s = self@;
        &&& self.head() == (if s.len() == 0 {
            None::<usize>
        } else {
            Some(s[0])
        })
        &&& s.no_duplicates()
        &&& forall|k: int| 0 <= k < s.len() ==> #[trigger] s[k] < nodes.len()
        &&& forall|k: int| 0 <= k < s.len() ==> (#[trigger] nodes[s[k] as int]).prev == prev_link(s, k)
        &&& forall|k: int| 0 <= k < s.len() ==> (#[trigger] nodes[s[k] as int]).next == next_link(s, k)
    }

    /// The list stays well formed over any arena that agrees with `a` on the
    /// links of its members.
    pub proof fn lemma_frame(&self, a: Seq<Node<T>>, b: Seq<Node<T>>)
        requires
            self.wf(a),
            a.len() == b.len(),
            forall|j: int|
                0 <= j < a.len() && self@.contains(j as usize) ==> (#[trigger] b[j]).next == a[j].next
                    && b[j].prev == a[j].prev,
        ensures
            self.wf(b),
    {
        let s = self@;
        assert forall|k: int| 0 <= k < s.len() implies (#[trigger] b[s[k] as int]).prev == prev_link(s, k)
            && b[s[k] as int].next == next_link(s, k) by {
            assert(s.contains(s[k]));
            assert(a[s[k] as int].prev == prev_link(s, k));
            assert(a[s[k] as int].next == next_link(s, k));
        }
    }

    /// An empty list.
    pub fn new() -> (r: Self)
        ensures
            r@ == Seq::<usize>::empty(),
            r.head() is None,
    {
        InplaceList { first: None, members: Ghost(Seq::empty()), marker: PhantomData }
    }

    /// The index of the head (on a well-formed list, `self@[0]`), or `None`
    /// for an empty list.
    pub fn first(&self) -> (r: Option<usize>)
        ensures
            r == self.head(),
    {
        self.first
    }

    /// Makes node `i` the new head. Only the links of `i` and of the former
    /// head change; no payload changes.
    pub fn insert(&mut self, nodes: &mut Vec<Node<T>>, i: usize)
        requires
            old(self).wf(old(nodes)@),
            i < old(nodes)@.len(),
            !old(self)@.contains(i),
        ensures
            final(self)@ == seq![i] + old(self)@,
            final(self).wf(final(nodes)@),
            final(nodes)@.len() == old(nodes)@.len(),
            forall|j: int|
                0 <= j < old(nodes)@.len() && j != i && !old(self)@.contains(j as usize)
                    ==> #[trigger] final(nodes)@[j] == old(nodes)@[j],
            forall|j: int|
                0 <= j < old(nodes)@.len() ==> (#[trigger] final(nodes)@[j]).object == old(
                    nodes,
                )@[j].object,
    {
        let ghost s = self@;
        let old_first = self.first;
        nodes[i].prev = None;
        nodes[i].next = old_first;
        if let Some(second) = old_first {
            assert(s.contains(s[0]));
            nodes[second].prev = Some(i);
        }
        self.first = Some(i);
        self.members = Ghost(seq![i] + s);
        proof {
            let t = seq![i] + s;
            assert(t.no_duplicates()) by {
                assert forall|a: int, b: int| 0 <= a < b < t.len() implies t[a] != t[b] by {
                    if a == 0 {
                        assert(s.contains(t[b]));
                    } else {
                        assert(t[a] == s[a - 1] && t[b] == s[b - 1]);
                    }
                }
            }
            assert forall|k: int| 1 <= k < t.len() implies (#[trigger] nodes@[t[k] as int]).prev
                == prev_link(t, k) && nodes@[t[k] as int].next == next_link(t, k) by {
                assert(t[k] == s[k - 1]);
                assert(s.contains(s[k - 1]));
            }
            assert forall|k: int| 0 <= k < t.len() implies #[trigger] t[k] < nodes@.len() by {
                if k > 0 {
                    assert(t[k] == s[k - 1]);
                }
            }
        }
    }

    /// Splices node `i` out of the list and clears its links. Only the links
    /// of `i` and of its two neighbours change; no payload changes.
    pub fn remove(&mut self, nodes: &mut Vec<Node<T>>, i: usize)
        requires
            old(self).wf(old(nodes)@),
            old(self)@.contains(i),
        ensures
            final(self)@ == old(self)@.remove(old(self)@.index_of(i)),
            final(self)@.len() == old(self)@.len() - 1,
            forall|j: usize| #[trigger]
                final(self)@.contains(j) <==> (old(self)@.contains(j) && j != i),
            final(self).wf(final(nodes)@),
            final(nodes)@.len() == old(nodes)@.len(),
            final(nodes)@[i as int].next is None,
            final(nodes)@[i as int].prev is None,
            forall|j: int|
                0 <= j < old(nodes)@.len() && !old(self)@.contains(j as usize)
                    ==> #[trigger] final(nodes)@[j] == old(nodes)@[j],
            forall|j: int|
                0 <= j < old(nodes)@.len() ==> (#[trigger] final(nodes)@[j]).object == old(
                    nodes,
                )@[j].object,
    {
        let ghost s = self@;
        let ghost k = s.index_of(i);
        proof {
            assert(s[k] == i);
        }
        let prev = nodes[i].prev;
        let next = nodes[i].next;
        if let Some(f) = self.first {
            if f == i {
                self.first = next;
            }
        }
        if let Some(p) = prev {
            assert(s[k - 1] == p);
            nodes[p].next = next;
        }
        if let Some(n) = next {
            assert(s[k + 1] == n);
            nodes[n].prev = prev;
        }
        nodes[i].next = None;
        nodes[i].prev = None;
        self.members = Ghost(s.remove(k));
        proof {
            let t = s.remove(k);
            s.remove_ensures(k);
            assert(k == 0 <==> s[0] == i);
            assert forall|a: int, b: int| 0 <= a < b < t.len() implies t[a] != t[b] by {
                let a2 = if a < k { a } else { a + 1 };
                let b2 = if b < k { b } else { b + 1 };
                assert(t[a] == s[a2] && t[b] == s[b2]);
            }
            assert forall|m: int| 0 <= m < t.len() implies #[trigger] t[m] < nodes@.len()
                && nodes@[t[m] as int].prev == prev_link(t, m)
                && nodes@[t[m] as int].next == next_link(t, m) by {
                let m2 = if m < k { m } else { m + 1 };
                assert(t[m] == s[m2]);
                assert(s[m2] != i);
            }
            assert forall|j: usize| #[trigger] t.contains(j) <==> (s.contains(j) && j != i) by {
                if s.contains(j) && j != i {
                    let x = choose|x: int| 0 <= x < s.len() && s[x] == j;
                    let y = if x < k { x } else { x - 1 };
                    assert(t[y] == j);
                }
                if t.contains(j) {
                    let y = choose|y: int| 0 <= y < t.len() && t[y] == j;
                    let x = if y < k { y } else { y + 1 };
                    assert(s[x] == j);
                }
            }
            assert forall|j: int|
                0 <= j < nodes@.len() && !s.contains(j as usize) implies #[trigger] nodes@[j]
                == old(nodes)@[j] by {
                assert(s.contains(s[k]));
                if k > 0 {
                    assert(s.contains(s[k - 1]));
                }
                if k < s.len() - 1 {
                    assert(s.contains(s[k + 1]));
                }
            }
        }
    }
}

} // verus!
