//! A singly linked list that grows and shrinks at its front.

use crate::text::{chars_of, debug_text, join, joined};
use std::fmt::Debug;
use vstd::prelude::*;

verus! {

/// A link of the list: a value and the rest of the list behind it.
pub struct Node<T> {
    value: T,
    next: Option<Box<Node<T>>>,
}

/// The values from a link to the end of the list.
pub closed spec fn chain<T>(link: Option<Box<Node<T>>>) -> Seq<T>
    decreases link,
{
    match link {
        None => Seq::empty(),
        Some(node) => seq![node.value] + chain(node.next),
    }
}

impl<T> View for Node<T> {
    type V = Seq<T>;

    /// The value of the link and those behind it.
    closed spec fn view(&self) -> Seq<T> {
        seq![self.value] + chain(self.next)
    }
}

/// A list of values; the first is the one that was pushed last.
pub struct LinkList<T> {
    head: Option<Box<Node<T>>>,
}

impl<T> View for LinkList<T> {
    type V = Seq<T>;

    closed spec fn view(&self) -> Seq<T> {
        chain(self.head)
    }
}

impl<T> LinkList<T> {
    /// Makes an empty list.
    pub fn new() -> (list: Self)
        ensures
            list@ == Seq::<T>::empty(),
    {
        LinkList { head: None }
    }

    /// Puts `value` in front of the list.
    pub fn push_front(&mut self, value: T)
        ensures
            final(self)@ == seq![value] + old(self)@,
    {
        let next = self.head.take();
        self.head = Some(Box::new(Node { value, next }));
    }

    /// Takes the first value off the list.
    pub fn pop_front(&mut self) -> (value: Option<T>)
        ensures
            match value {
                Some(first) => old(self)@.len() > 0 && first == old(self)@[0] && final(self)@
                    == old(self)@.drop_first(),
                None => old(self)@.len() == 0 && final(self)@ == old(self)@,
            },
    {
        match self.head.take() {
            None => None,
            Some(node) => {
                let node = *node;
                proof {
                    assert((seq![node.value] + chain(node.next)).drop_first() =~= chain(
                        node.next,
                    ));
                }
                self.head = node.next;
                Some(node.value)
            },
        }
    }

    /// Starts a traversal of the values from the front.
    pub fn iter(&self) -> (iter: Iter<'_, T>)
        ensures
            iter.remaining() == self@,
    {
        Iter {
            node: match &self.head {
                Some(node) => Some(&**node),
                None => None,
            },
        }
    }

    /// Turns the list into a traversal that hands its values out.
    pub fn into_iter(self) -> (iter: IntoIter<T>)
        ensures
            iter.remaining() == self@,
    {
        IntoIter(self)
    }
}

impl<T: Debug> LinkList<T> {
    /// The texts of the values from the front, with an arrow between each
    /// two neighbours. The text of a value is what its `Debug` writes.
    pub fn to_text(&self) -> (text: String)
        ensures
            exists|shown: Seq<Seq<char>>|
                shown.len() == self@.len() && text@ == joined(shown, " -> "@),
    {
        let mut texts: Vec<String> = Vec::new();
        let mut iter = self.iter();
        loop
            invariant
                texts@.len() + iter.remaining().len() == self@.len(),
            ensures
                texts@.len() == self@.len(),
            decreases iter.remaining().len(),
        {
            match iter.next() {
                Some(value) => {
                    texts.push(debug_text(value));
                },
                None => {
                    break ;
                },
            }
        }
        let text = join(&texts, " -> ");
        proof {
            assert(chars_of(texts@).len() == self@.len());
        }
        text
    }
}

impl<T> Default for LinkList<T> {
    /// The empty list.
    fn default() -> (list: Self)
        ensures
            list@ == Seq::<T>::empty(),
    {
        LinkList { head: None }
    }
}

/// A traversal of a list's values by reference.
pub struct Iter<'a, T> {
    node: Option<&'a Node<T>>,
}

impl<'a, T> Iter<'a, T> {
    /// The values that are still to come.
    pub closed spec fn remaining(&self) -> Seq<T> {
        match self.node {
            Some(node) => node@,
            None => Seq::empty(),
        }
    }

    /// Hands out the next value, if one is left.
    pub fn next(&mut self) -> (item: Option<&'a T>)
        ensures
            match item {
                Some(value) => old(self).remaining().len() > 0 && *value == old(
                    self,
                ).remaining()[0] && final(self).remaining() == old(self).remaining().drop_first(),
                None => old(self).remaining().len() == 0 && final(self).remaining() == old(
                    self,
                ).remaining(),
            },
    {
        match self.node {
            None => None,
            Some(node) => {
                proof {
                    assert(node@.drop_first() =~= chain(node.next));
                }
                self.node = match &node.next {
                    Some(next) => Some(&**next),
                    None => None,
                };
                Some(&node.value)
            },
        }
    }
}

/// A traversal that owns a list and hands its values out.
pub struct IntoIter<T>(LinkList<T>);

impl<T> IntoIter<T> {
    /// The values that are still to come.
    pub closed spec fn remaining(&self) -> Seq<T> {
        self.0@
    }

    /// Hands out the next value, if one is left.
    pub fn next(&mut self) -> (item: Option<T>)
        ensures
            match item {
                Some(value) => old(self).remaining().len() > 0 && value == old(
                    self,
                ).remaining()[0] && final(self).remaining() == old(self).remaining().drop_first(),
                None => old(self).remaining().len() == 0 && final(self).remaining() == old(
                    self,
                ).remaining(),
            },
    {
        self.0.pop_front()
    }
}

/// A traversal of a list's values by mutable reference.
pub struct IterMut<'a, T> {
    /// The link that the traversal stands at.
    pub node: Option<&'a mut Node<T>>,
}

impl<T> LinkList<T> {
    /// Starts a traversal that can change the values in place. When the
    /// traversal and the references it handed out are done, the list holds
    /// what they left.
    pub fn iter_mut(&mut self) -> (iter: IterMut<'_, T>)
        ensures
            iter.remaining() == old(self)@,
            final(self)@ == match iter.node {
                Some(node) => final(node)@,
                None => Seq::empty(),
            },
    {
        IterMut {
            node: match &mut self.head {
                Some(node) => Some(&mut **node),
                None => None,
            },
        }
    }
}

impl<'a, T> IterMut<'a, T> {
    /// The values that are still to come, as they are now.
    pub open spec fn remaining(&self) -> Seq<T> {
        match self.node {
            Some(node) => node@,
            None => Seq::empty(),
        }
    }

    /// Hands out the next value, if one is left. What the link at which the
    /// traversal stood holds in the end is what the reference leaves,
    /// followed by what the links behind it hold in the end.
    pub fn next(&mut self) -> (item: Option<&'a mut T>)
        ensures
            match item {
                Some(value) => {
                    &&& old(self).remaining().len() > 0
                    &&& *value == old(self).remaining()[0]
                    &&& final(self).remaining() == old(self).remaining().drop_first()
                    &&& old(self).node is Some
                    &&& final(old(self).node->0)@ == seq![*final(value)] + match final(self).node {
                        Some(node) => final(node)@,
                        None => Seq::empty(),
                    }
                },
                None => {
                    &&& old(self).node is None
                    &&& final(self).node is None
                },
            },
    {
        match self.node.take() {
            None => None,
            Some(node) => {
                proof {
                    assert(node@.drop_first() =~= chain(node.next));
                }
                self.node = match &mut node.next {
                    Some(next) => Some(&mut **next),
                    None => None,
                };
                Some(&mut node.value)
            },
        }
    }
}

} // verus!
