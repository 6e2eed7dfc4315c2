use vstd::prelude::*;

verus! {

/// A singly linked stack whose nodes record the length of the list they head.
#[derive(Debug)]
pub enum Stack<T> {
    Empty,
    Elem { val: T, next: Box<Stack<T>>, len: usize },
}

impl<T> Stack<T> {
    /// The elements from the top down.
    pub open spec fn items(&self) -> Seq<T>
        decreases self,
    {
        match self {
            Stack::Empty => Seq::empty(),
            Stack::Elem { val, next, .. } => seq![*val] + next.items(),
        }
    }

    /// Every node's `len` is the length of the list it heads.
    pub open spec fn wf(&self) -> bool
        decreases self,
    {
        match self {
            Stack::Empty => true,
            Stack::Elem { next, len, .. } => next.wf() && *len as nat == 1 + next.items().len(),
        }
    }

    /// An empty stack.
    pub fn new() -> (r: Self)
        ensures
            r.wf(),
            r.items() == Seq::<T>::empty(),
    {
        Stack::Empty
    }

    /// The stack with `val` on top of `self`.
    pub fn push(self, val: T) -> (r: Self)
        requires
            self.wf(),
            self.items().len() < usize::MAX,
        ensures
            r.wf(),
            r.items() == seq![val] + self.items(),
    {
        let new_len = 1 + self.len();
        Stack::Elem { val, next: Box::new(self), len: new_len }
    }

    /// The number of elements, read from the top node.
    pub fn len(&self) -> (r: usize)
        requires
            self.wf(),
        ensures
            r == self.items().len(),
    {
        match self {
            Stack::Empty => 0,
            Stack::Elem { len, .. } => *len,
        }
    }

    /// Whether the stack has no element.
    pub fn is_empty(&self) -> (r: bool)
        ensures
            r == (self.items().len() == 0),
    {
        matches!(self, Stack::Empty)
    }

    /// The top element and the rest, or `None` when empty.
    pub fn pop(self) -> (r: Option<(T, Stack<T>)>)
        requires
            self.wf(),
        ensures
            match r {
                None => self.items().len() == 0,
                Some((v, rest)) => rest.wf() && self.items() == seq![v] + rest.items(),
            },
    {
        match self {
            Stack::Empty => None,
            Stack::Elem { val, next, .. } => Some((val, *next)),
        }
    }
}

} // verus!
