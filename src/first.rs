use vstd::prelude::*;

verus! {

/// One cell of the stack: a value and the rest of the chain, owned.
struct Node {
    elem: i32,
    next: Option<Box<Node>>,
}

/// A last-in, first-out stack of `i32`.
pub struct List {
    head: Option<Box<Node>>,
}

/// The values of a chain, from its first cell to its last.
spec fn chain(link: Option<Box<Node>>) -> Seq<i32>
    decreases link,
{
    match link {
        None => Seq::empty(),
        Some(node) => seq![node.elem].add(chain(node.next)),
    }
}

impl View for List {
    type V = Seq<i32>;

    /// The values on the stack, the top first.
    closed spec fn view(&self) -> Seq<i32> {
        chain(self.head)
    }
}

impl List {
    /// An empty stack.
    pub fn new() -> (r: Self)
        ensures
            r@ == Seq::<i32>::empty(),
    {
        List { head: None }
    }

    /// Puts `elem` on top of the stack.
    pub fn push(&mut self, elem: i32)
        ensures
            final(self)@ == seq![elem].add(old(self)@),
    {
        let new_node = Box::new(Node { elem: elem, next: self.head.take() });
        self.head = Some(new_node);
    }

    /// Takes the top value off the stack, or returns `None` when it is empty.
    pub fn pop(&mut self) -> (r: Option<i32>)
        ensures
            old(self)@.len() == 0 ==> r == None::<i32> && final(self)@ == old(self)@,
            old(self)@.len() > 0 ==> r == Some(old(self)@[0]) && final(self)@ == old(self)@.drop_first(),
    {
        match self.head.take() {
            None => None,
            Some(mut node) => {
                self.head = node.next.take();
                Some(node.elem)
            },
        }
    }
}

impl Drop for List {
    /// Releases the cells one at a time, so that a long chain is not torn
    /// down through one nested destructor call per cell.
    fn drop(&mut self)
        opens_invariants none
        no_unwind
    {
        let mut cur: Option<Box<Node>> = None;
        std::mem::swap(&mut cur, &mut self.head);
        loop
            decreases chain(cur).len(),
        {
            match cur {
                Some(mut node) => {
                    let mut rest: Option<Box<Node>> = None;
                    std::mem::swap(&mut rest, &mut node.next);
                    cur = rest;
                },
                None => {
                    break;
                },
            }
        }
    }
}

} // verus!
