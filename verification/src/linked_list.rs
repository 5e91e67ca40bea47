//! A singly linked list that grows at either end and is read by position.
use vstd::prelude::*;

verus! {

/// One link of the list: an item and the rest of the list after it.
pub struct Node<T> {
    next: Option<Box<Node<T>>>,
    item: T,
}

impl<T> Node<T> {
    fn new(item: T, next: Option<Box<Node<T>>>) -> (n: Self)
        ensures
            n.item == item,
            n.next == next,
    {
        Node { next, item }
    }

    /// The items of a chain of links, from the first.
    pub closed spec fn chain(node: Option<Box<Node<T>>>) -> Seq<T>
        decreases node,
    {
        match node {
            None => Seq::empty(),
            Some(n) => n.items(),
        }
    }

    /// The items from this link on.
    pub closed spec fn items(self) -> Seq<T>
        decreases self,
    {
        seq![self.item] + Node::<T>::chain(self.next)
    }

    /// Puts `item` after the last link of the chain.
    fn append(node: &mut Option<Box<Node<T>>>, item: T)
        ensures
            Node::<T>::chain(*final(node)) =~= Node::<T>::chain(*old(node)).push(item),
        decreases *old(node),
    {
        match node.take() {
            None => {
                *node = Some(Box::new(Node::new(item, None)));
                assert(Node::<T>::chain(None) =~= Seq::<T>::empty());
            },
            Some(mut link) => {
                Self::append(&mut link.next, item);
                *node = Some(link);
            },
        }
    }

    /// The item `index` places after this link.
    fn item_at(self, index: u32) -> (item: T)
        requires
            index < self.items().len(),
        ensures
            item == self.items()[index as int],
        decreases index,
    {
        let Node { next, item } = self;
        if index == 0 {
            item
        } else {
            match next {
                Some(link) => (*link).item_at(index - 1),
                None => {
                    assert(Node::<T>::chain(None) =~= Seq::<T>::empty());
                    vstd::pervasive::unreached()
                },
            }
        }
    }
}

/// A list of items, counted in `size`.
pub struct LinkedList<T> {
    head: Option<Box<Node<T>>>,
    size: u32,
}

impl<T> View for LinkedList<T> {
    type V = Seq<T>;

    closed spec fn view(&self) -> Seq<T> {
        Node::<T>::chain(self.head)
    }
}

impl<T> LinkedList<T> {
    /// The count agrees with the links.
    pub closed spec fn wf(&self) -> bool {
        self.size == self@.len()
    }

    /// The empty list.
    pub fn new() -> (l: Self)
        ensures
            l.wf(),
            l@ == Seq::<T>::empty(),
    {
        LinkedList { head: None, size: 0 }
    }

    /// Makes an empty list hold `item` alone.
    fn init_list(&mut self, item: T)
        requires
            old(self).wf(),
            old(self)@.len() == 0,
        ensures
            final(self).wf(),
            final(self)@ == seq![item],
    {
        self.head = Some(Box::new(Node::new(item, None)));
        assert(Node::<T>::chain(None) =~= Seq::<T>::empty());
        assert(self@ =~= seq![item]);
        self.size = 1;
    }

    /// Puts `item` before the first item.
    pub fn add_first(&mut self, item: T)
        requires
            old(self).wf(),
            old(self)@.len() < u32::MAX,
        ensures
            final(self).wf(),
            final(self)@ == seq![item] + old(self)@,
    {
        match self.head.take() {
            Some(node) => {
                self.head = Some(Box::new(Node::new(item, Some(node))));
                self.size = self.size + 1;
            },
            None => {
                self.init_list(item);
                assert(seq![item] + Seq::<T>::empty() =~= seq![item]);
            },
        }
    }

    /// Puts `item` after the last item.
    pub fn add_last(&mut self, item: T)
        requires
            old(self).wf(),
            old(self)@.len() < u32::MAX,
        ensures
            final(self).wf(),
            final(self)@ == old(self)@.push(item),
    {
        if self.head.is_none() {
            self.init_list(item);
            assert(Seq::<T>::empty().push(item) =~= seq![item]);
        } else {
            Node::append(&mut self.head, item);
            self.size = self.size + 1;
        }
    }

    /// The item at position `index`, counted from the first.
    pub fn get(self, index: u32) -> (item: T)
        requires
            index < self@.len(),
        ensures
            item == self@[index as int],
    {
        match self.head {
            Some(node) => (*node).item_at(index),
            None => {
                assert(Node::<T>::chain(None) =~= Seq::<T>::empty());
                vstd::pervasive::unreached()
            },
        }
    }
}

} // verus!
