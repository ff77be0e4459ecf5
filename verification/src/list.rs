use vstd::prelude::*;
use crate::order::string_gt;
use crate::sorting::{
    Texts,
    cons,
    bubble_pass,
    inversions,
    sorted,
    adjacent_sorted,
    same_entries,
    compare_swap,
    lemma_bubble_pass,
    lemma_adjacent_sorted_is_sorted,
};

verus! {

/// A node of a singly linked list of strings.
struct Node {
    data: String,
    next: Option<Box<Node>>,
}

/// The strings from `node` to the end of its list.
spec fn node_texts(node: Node) -> Texts
    decreases node,
{
    cons(node.data@, opt_texts(node.next))
}

/// The strings of a list that starts at `link` (empty for `None`).
spec fn opt_texts(link: Option<Box<Node>>) -> Texts
    decreases link,
{
    match link {
        None => Seq::empty(),
        Some(node) => node_texts(*node),
    }
}

/// Renders a vector of strings as the list of their characters.
pub open spec fn texts_of(v: Seq<String>) -> Texts {
    v.map_values(|s: String| s@)
}

/// Appends the strings from `node` on to `out`, in list order.
fn collect_from(node: &Node, out: &mut Vec<String>)
    ensures
        texts_of(final(out)@) == texts_of(old(out)@) + node_texts(*node),
    decreases *node,
{
    out.push(node.data.clone());
    proof {
        assert(texts_of(out@) =~= texts_of(old(out)@).push(node.data@));
    }
    match &node.next {
        None => {
            assert(texts_of(out@) =~= texts_of(old(out)@) + node_texts(*node));
        },
        Some(next) => {
            collect_from(next, out);
            assert(texts_of(out@) =~= texts_of(old(out)@) + node_texts(*node));
        },
    }
}

/// The strings of the list that starts at `link`, in order.
fn collect_link(link: &Option<Box<Node>>) -> (v: Vec<String>)
    ensures
        texts_of(v@) == opt_texts(*link),
{
    let mut v: Vec<String> = Vec::new();
    match link {
        None => {
            assert(texts_of(v@) =~= opt_texts(*link));
        },
        Some(node) => {
            collect_from(node, &mut v);
            assert(texts_of(v@) =~= opt_texts(*link));
        },
    }
    v
}

/// One bubble pass over the list that starts at `node`: every string that is
/// greater than its successor trades places with it, front to back.
fn pass_node(node: &mut Node) -> (swapped: bool)
    ensures
        (node_texts(*final(node)), swapped) == bubble_pass(node_texts(*old(node))),
    decreases node_texts(*old(node)).len(),
{
    let ghost s = node_texts(*node);
    let ghost old_next = node.next;
    match node.next.take() {
        None => {
            assert(s.len() == 1);
            assert(node_texts(*node) =~= s);
            false
        },
        Some(mut next) => {
            let ghost rest = opt_texts(next.next);
            assert(old_next == Some(next));
            assert(opt_texts(old_next) == node_texts(*next));
            assert(node_texts(*next) == cons(next.data@, rest));
            assert(s.len() >= 2);
            assert(s.skip(2) =~= rest);
            assert(s.drop_first() =~= node_texts(*next));
            let mut swapped = false;
            if string_gt(&node.data, &next.data) {
                std::mem::swap(&mut node.data, &mut next.data);
                swapped = true;
                assert(node_texts(*next) =~= cons(s[0], s.skip(2)));
            }
            let rest_swapped = pass_node(&mut *next);
            node.next = Some(next);
            swapped || rest_swapped
        },
    }
}

/// Whether the list from `node` has an entry at `i + 1`.
fn node_has_pair_at(node: &Node, i: usize) -> (r: bool)
    ensures
        r == (i + 1 < node_texts(*node).len()),
    decreases *node,
{
    match &node.next {
        None => {
            assert(node_texts(*node).len() == 1);
            false
        },
        Some(next) => {
            assert(opt_texts(node.next) == node_texts(**next));
            assert(node_texts(*node).len() == node_texts(**next).len() + 1);
            if i == 0 {
                true
            } else {
                node_has_pair_at(next, i - 1)
            }
        },
    }
}

/// Compare-and-swap at position `i` of the list from `node`.
fn node_compare_swap_at(node: &mut Node, i: usize) -> (swapped: bool)
    requires
        i + 1 < node_texts(*old(node)).len(),
    ensures
        (node_texts(*final(node)), swapped) == compare_swap(node_texts(*old(node)), i as int),
    decreases node_texts(*old(node)).len(),
{
    let ghost s = node_texts(*node);
    let ghost old_next = node.next;
    let mut next = node.next.take().unwrap();
    assert(old_next == Some(next));
    assert(opt_texts(old_next) == node_texts(*next));
    assert(s.drop_first() =~= node_texts(*next));
    let swapped;
    if i == 0 {
        let ghost rest = opt_texts(next.next);
        assert(node_texts(*next) == cons(next.data@, rest));
        if string_gt(&node.data, &next.data) {
            std::mem::swap(&mut node.data, &mut next.data);
            swapped = true;
        } else {
            swapped = false;
        }
        assert(node_texts(*next) == cons(next.data@, rest));
    } else {
        swapped = node_compare_swap_at(&mut *next, i - 1);
    }
    let ghost nt = node_texts(*next);
    let ghost d = node.data@;
    node.next = Some(next);
    proof {
        let t = node_texts(*node);
        assert(opt_texts(node.next) == nt);
        assert(t == cons(d, nt));
        assert(t =~= compare_swap(s, i as int).0);
    }
    swapped
}

/// Puts `last` at the end of the list from `node`.
fn node_append(node: &mut Node, last: Box<Node>)
    requires
        last.next is None,
    ensures
        node_texts(*final(node)) == node_texts(*old(node)).push(last.data@),
    decreases node_texts(*old(node)).len(),
{
    let ghost s = node_texts(*node);
    let ghost old_next = node.next;
    let ghost d = last.data@;
    match node.next.take() {
        None => {
            assert(opt_texts(last.next) =~= Seq::<Seq<char>>::empty());
            assert(node_texts(*last) == cons(d, Seq::<Seq<char>>::empty()));
            assert(opt_texts(old_next) =~= Seq::<Seq<char>>::empty());
            node.next = Some(last);
            assert(opt_texts(node.next) == cons(d, Seq::<Seq<char>>::empty()));
            assert(node_texts(*node) =~= s.push(d));
        },
        Some(mut next) => {
            assert(old_next == Some(next));
            assert(opt_texts(old_next) == node_texts(*next));
            node_append(&mut *next, last);
            let ghost nt = node_texts(*next);
            node.next = Some(next);
            assert(opt_texts(node.next) == nt);
            assert(node_texts(*node) =~= s.push(d));
        },
    }
}

/// A singly linked list of strings, new ones added at the front.
pub struct LinkedList {
    head: Option<Box<Node>>,
}

impl View for LinkedList {
    type V = Texts;

    closed spec fn view(&self) -> Texts {
        opt_texts(self.head)
    }
}

impl LinkedList {
    /// An empty list.
    pub fn new() -> (list: Self)
        ensures
            list@ == Seq::<Seq<char>>::empty(),
    {
        LinkedList { head: None }
    }

    /// Adds `data` in front of the list.
    pub fn push_front(&mut self, data: String)
        ensures
            final(self)@ == cons(data@, old(self)@),
    {
        let new_node = Box::new(Node { data, next: self.head.take() });
        self.head = Some(new_node);
    }

    /// The strings of the list, front to back.
    pub fn to_vec(&self) -> (v: Vec<String>)
        ensures
            texts_of(v@) == self@,
    {
        collect_link(&self.head)
    }

    /// One bubble pass over the whole list; tells whether it swapped anything.
    pub fn bubble_pass(&mut self) -> (swapped: bool)
        ensures
            (final(self)@, swapped) == bubble_pass(old(self)@),
    {
        match self.head.take() {
            None => {
                assert(bubble_pass(old(self)@) == (old(self)@, false));
                false
            },
            Some(mut head) => {
                let swapped = pass_node(&mut *head);
                self.head = Some(head);
                swapped
            },
        }
    }

    /// Whether the list has an entry at position `i + 1`.
    pub fn has_pair_at(&self, i: usize) -> (r: bool)
        ensures
            r == (i + 1 < self@.len()),
    {
        match &self.head {
            None => false,
            Some(node) => node_has_pair_at(node, i),
        }
    }

    /// Compare-and-swap at position `i`: the strings at `i` and `i + 1` trade
    /// places when the first is greater. Tells whether they did.
    pub fn compare_swap_at(&mut self, i: usize) -> (swapped: bool)
        requires
            i + 1 < old(self)@.len(),
        ensures
            (final(self)@, swapped) == compare_swap(old(self)@, i as int),
    {
        let mut head = self.head.take().unwrap();
        let swapped = node_compare_swap_at(&mut *head, i);
        self.head = Some(head);
        swapped
    }

    /// Sorts the strings in ascending order by repeated bubble passes, until
    /// a pass swaps nothing. The data moves between the nodes; the nodes stay.
    pub fn bubble_sort(&mut self)
        ensures
            sorted(final(self)@),
            same_entries(final(self)@, old(self)@),
    {
        if self.head.is_none() {
            proof {
                lemma_adjacent_sorted_is_sorted(self@);
            }
            return;
        }
        let mut swapped = true;
        while swapped
            invariant
                same_entries(self@, old(self)@),
                !swapped ==> adjacent_sorted(self@),
            decreases inversions(self@) + if swapped { 1nat } else { 0nat },
        {
            proof {
                lemma_bubble_pass(self@);
            }
            swapped = self.bubble_pass();
        }
        proof {
            lemma_adjacent_sorted_is_sorted(self@);
        }
    }
}

/// A singly linked list of strings that keeps them in the order they come:
/// each new one is put at the end.
pub struct SortedList {
    head: Option<Box<Node>>,
}

impl View for SortedList {
    type V = Texts;

    closed spec fn view(&self) -> Texts {
        opt_texts(self.head)
    }
}

impl SortedList {
    /// An empty list.
    pub fn new() -> (list: Self)
        ensures
            list@ == Seq::<Seq<char>>::empty(),
    {
        SortedList { head: None }
    }

    /// Puts `data` at the end of the list.
    pub fn insert(&mut self, data: String)
        ensures
            final(self)@ == old(self)@.push(data@),
    {
        let new_node = Box::new(Node { data, next: None });
        match self.head.take() {
            None => {
                let ghost d = new_node.data@;
                self.head = Some(new_node);
                assert(opt_texts(self.head) =~= old(self)@.push(d));
            },
            Some(mut head) => {
                node_append(&mut *head, new_node);
                self.head = Some(head);
            },
        }
    }

    /// The strings of the list, front to back.
    pub fn to_vec(&self) -> (v: Vec<String>)
        ensures
            texts_of(v@) == self@,
    {
        collect_link(&self.head)
    }
}

} // verus!
