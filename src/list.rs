use vstd::prelude::*;
use std::rc::Rc;

verus! {

struct Node<T> {
    item: T,
    next: Option<Rc<Node<T>>>,
}

/// Relies on `Rc::clone`: the clone is another pointer to the same node.
#[verifier::external_body]
fn share<T>(n: &Rc<Node<T>>) -> (r: Rc<Node<T>>)
    ensures
        r == *n,
{
    Rc::clone(n)
}

/// A persistent singly linked list: lists share their tails.
pub struct List<T> {
    head: Option<Rc<Node<T>>>,
}

spec fn link_view<T>(l: Option<Rc<Node<T>>>) -> Seq<T>
    decreases l,
{
    match l {
        Some(n) => seq![n.item] + link_view(n.next),
        None => Seq::empty(),
    }
}

impl<T> View for List<T> {
    type V = Seq<T>;

    closed spec fn view(&self) -> Seq<T> {
        link_view(self.head)
    }
}

impl<T> List<T> {
    /// The first item, if any.
    pub fn head(&self) -> (r: Option<&T>)
        ensures
            r matches Some(x) ==> self@.len() > 0 && *x == self@[0],
            r is None ==> self@.len() == 0,
    {
        match &self.head {
            Some(n) => Some(&n.item),
            None => None,
        }
    }

    /// The empty list.
    pub fn new() -> (r: Self)
        ensures
            r@ == Seq::<T>::empty(),
    {
        List { head: None }
    }

    /// A new list of `item` followed by this one, which it shares.
    pub fn prepend(&self, item: T) -> (r: List<T>)
        ensures
            r@ == seq![item] + self@,
    {
        let next = match &self.head {
            Some(n) => Some(share(n)),
            None => None,
        };
        List { head: Some(Rc::new(Node { item, next })) }
    }

    /// The list without its first item (empty stays empty), sharing its nodes.
    pub fn tail(&self) -> (r: List<T>)
        ensures
            r@ == if self@.len() == 0 { Seq::<T>::empty() } else { self@.drop_first() },
    {
        match &self.head {
            Some(n) => {
                let next = match &n.next {
                    Some(m) => Some(share(m)),
                    None => None,
                };
                proof {
                    assert((seq![n.item] + link_view(n.next)).drop_first() =~= link_view(n.next));
                }
                List { head: next }
            },
            None => List { head: None },
        }
    }
}

} // verus!
