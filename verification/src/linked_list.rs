//! Singly-linked list of copyable values.
//!
//! An ordinary pointer-chasing container: the only property it keeps is the
//! order of its elements, modelled as a sequence. Appending adds at the back,
//! `remove` takes the element at a position, and `iter` hands out a cursor
//! over a snapshot of the values.

use vstd::prelude::*;

verus! {

/// One list node: a value and the owned rest of the chain. Ownership runs
/// strictly front to back, so the chain is acyclic by construction.
#[derive(Debug)]
struct Node<T: Copy> {
    value: T,
    next: Option<Box<Node<T>>>,
}

/// The values of a chain, front to back.
spec fn node_seq<T: Copy>(o: Option<Box<Node<T>>>) -> Seq<T>
    decreases o,
{
    match o {
        Option::None => Seq::empty(),
        Option::Some(node) => seq![node.value] + node_seq(node.next),
    }
}

/// Singly-linked list: the owned head of the chain plus the element count.
#[derive(Debug)]
pub struct LinkedList<T: Copy> {
    head: Option<Box<Node<T>>>,
    len: usize,
}

/// Cursor over a snapshot of a list's values, handed out by `iter`; `next`
/// yields the remaining values front to back.
pub struct NodeIter<T: Copy> {
    items: Vec<T>,
    pos: usize,
}

impl<T: Copy> NodeIter<T> {
    /// The values the cursor has not yielded yet.
    pub closed spec fn remaining(self) -> Seq<T> {
        self.items@.skip(self.pos as int)
    }

    /// Cursor invariant: the position never runs past the snapshot.
    pub closed spec fn wf(self) -> bool {
        self.pos <= self.items@.len()
    }

    /// Yields the next value, or `None` once the snapshot is exhausted.
    pub fn next(&mut self) -> (r: Option<T>)
        requires
            old(self).wf(),
        ensures
            final(self).wf(),
            old(self).remaining().len() == 0 ==> r == None::<T> && *final(self) == *old(self),
            old(self).remaining().len() > 0 ==> r == Some(old(self).remaining()[0])
                && final(self).remaining() == old(self).remaining().drop_first(),
    {
        if self.pos < self.items.len() {
            let v = self.items[self.pos];
            self.pos = self.pos + 1;
            proof {
                assert(final(self).remaining() =~= old(self).remaining().drop_first());
            }
            Some(v)
        } else {
            None
        }
    }
}

/// Appends `value` at the back of the chain.
fn append_node<T: Copy>(o: &mut Option<Box<Node<T>>>, value: T)
    ensures
        node_seq(*final(o)) == node_seq(*old(o)).push(value),
    decreases *old(o),
{
    match o.take() {
        None => {
            *o = Some(Box::new(Node { value, next: None }));
            proof {
                assert(node_seq(*final(o)) =~= node_seq(*old(o)).push(value));
            }
        }
        Some(mut boxed) => {
            append_node(&mut boxed.next, value);
            *o = Some(boxed);
            proof {
                assert(node_seq(*final(o)) =~= node_seq(*old(o)).push(value));
            }
        }
    }
}

/// Unlinks the node `index` steps into the chain and returns its value;
/// leaves the chain alone when the index runs past the end.
fn remove_node<T: Copy>(o: &mut Option<Box<Node<T>>>, index: usize) -> (r: Option<T>)
    ensures
        index < node_seq(*old(o)).len() ==> r == Some(node_seq(*old(o))[index as int])
            && node_seq(*final(o)) == node_seq(*old(o)).remove(index as int),
        index >= node_seq(*old(o)).len() ==> r == None::<T> && *final(o) == *old(o),
    decreases *old(o),
{
    match o.take() {
        None => None,
        Some(mut boxed) => {
            if index == 0 {
                let v = boxed.value;
                *o = boxed.next;
                proof {
                    assert(node_seq(*final(o)) =~= node_seq(*old(o)).remove(0));
                }
                Some(v)
            } else {
                let r = remove_node(&mut boxed.next, index - 1);
                *o = Some(boxed);
                proof {
                    if index < node_seq(*old(o)).len() {
                        assert(node_seq(*final(o)) =~= node_seq(*old(o)).remove(index as int));
                    }
                }
                r
            }
        }
    }
}

impl<T: Copy> View for LinkedList<T> {
    type V = Seq<T>;

    /// The list's values, front to back.
    closed spec fn view(&self) -> Seq<T> {
        node_seq(self.head)
    }
}

impl<T: Copy> LinkedList<T> {
    /// List invariant: the stored count equals the chain's length.
    /// Established by `new` and preserved by every operation.
    pub closed spec fn wf(self) -> bool {
        self.len == node_seq(self.head).len()
    }

    /// An empty list.
    pub fn new() -> (r: LinkedList<T>)
        ensures
            r.wf(),
            r@ == Seq::<T>::empty(),
    {
        LinkedList { head: None, len: 0 }
    }

    /// A cursor over a snapshot of the current values; the list itself is
    /// left untouched.
    pub fn iter(&self) -> (r: NodeIter<T>)
        requires
            self@.len() > 0,
        ensures
            r.wf(),
            r.remaining() == self@,
    {
        let mut items: Vec<T> = Vec::new();
        collect_values(&self.head, &mut items);
        proof {
            assert(items@.skip(0) =~= self@);
        }
        NodeIter { items, pos: 0 }
    }

    /// Appends `value` at the back.
    pub fn append(&mut self, value: T)
        requires
            old(self).wf(),
            old(self)@.len() < usize::MAX,
        ensures
            final(self).wf(),
            final(self)@ == old(self)@.push(value),
    {
        append_node(&mut self.head, value);
        self.len = self.len + 1;
    }

    /// Removes and returns the element at `index`, shifting what follows one
    /// step forward; `None`, with the list untouched, when `index` runs past
    /// the end.
    pub fn remove(&mut self, index: usize) -> (r: Option<T>)
        requires
            old(self).wf(),
        ensures
            final(self).wf(),
            index < old(self)@.len() ==> r == Some(old(self)@[index as int]) && final(self)@
                == old(self)@.remove(index as int),
            index >= old(self)@.len() ==> r == None::<T> && *final(self) == *old(self),
    {
        let r = remove_node(&mut self.head, index);
        match r {
            Some(_) => {
                self.len = self.len - 1;
            }
            None => {
            }
        }
        r
    }

    /// Number of elements.
    pub fn len(&self) -> (r: usize)
        requires
            self.wf(),
        ensures
            r == self@.len(),
    {
        self.len
    }
}

/// Appends the chain's values to `out`, front to back.
fn collect_values<T: Copy>(o: &Option<Box<Node<T>>>, out: &mut Vec<T>)
    ensures
        final(out)@ == old(out)@ + node_seq(*o),
    decreases *o,
{
    match o {
        None => {
            proof {
                assert(old(out)@ + node_seq(*o) =~= old(out)@);
            }
        }
        Some(node) => {
            out.push(node.value);
            collect_values(&node.next, out);
            proof {
                assert(final(out)@ =~= old(out)@ + node_seq(*o));
            }
        }
    }
}

} // verus!
