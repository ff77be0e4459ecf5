use vstd::prelude::*;
use crate::list::texts_of;
use crate::sorting::{Texts, cons};

verus! {

/// A singly linked list of strings, new ones added at the front, meant for a
/// caller that reads it under a shared lock and changes it under an exclusive
/// one. Its sort makes passes until a pass swaps nothing, and its pass swaps
/// nothing, so sorting leaves the list as it is.
pub struct LinkedList {
    list: crate::list::LinkedList,
}

impl View for LinkedList {
    type V = Texts;

    closed spec fn view(&self) -> Texts {
        self.list@
    }
}

impl LinkedList {
    /// An empty list.
    pub fn new() -> (list: Self)
        ensures
            list@ == Seq::<Seq<char>>::empty(),
    {
        LinkedList { list: crate::list::LinkedList::new() }
    }

    /// Adds `data` in front of the list.
    pub fn push_front(&mut self, data: String)
        ensures
            final(self)@ == cons(data@, old(self)@),
    {
        self.list.push_front(data);
    }

    /// Passes over the list until a pass swaps nothing. No pass swaps
    /// anything, so the list stays as it is.
    pub fn bubble_sort(&mut self)
        ensures
            final(self)@ == old(self)@,
    {
        loop
            invariant
                self@ == old(self)@,
            decreases 1nat,
        {
            let swapped = false;
            if !swapped {
                break ;
            }
        }
    }

    /// The strings of the list, front to back, as a reader sees them.
    pub fn to_vec(&self) -> (v: Vec<String>)
        ensures
            texts_of(v@) == self@,
    {
        self.list.to_vec()
    }
}

} // verus!
