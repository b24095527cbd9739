//! A node of the linked-list RGA.
use vstd::prelude::*;
use crate::s4vector::S4Vector;

verus! {

/// A single node in the RGA linked list.
///
/// `obj` is the stored character; `None` marks a tombstone (a deleted
/// character). `s_k` is the vector given by the insert that made the node: it
/// never changes, identifies the node, and orders concurrent inserts. `s_p` is
/// the vector of the last operation that took effect on the node, used to
/// order deletes and updates. `link` is the index of the next node in the list
/// (`None` at the tail). `next` chains nodes that share a bucket of an
/// identifier index; the list itself never sets it.
#[derive(Debug)]
pub struct Node {
    pub obj: Option<char>,
    pub s_k: S4Vector,
    pub s_p: S4Vector,
    pub link: Option<usize>,
    pub next: Option<usize>,
}

impl Clone for Node {
    fn clone(&self) -> (res: Self)
        ensures
            res == *self,
    {
        Node {
            obj: self.obj,
            s_k: self.s_k.clone(),
            s_p: self.s_p.clone(),
            link: self.link,
            next: self.next,
        }
    }
}

impl Node {
    /// A live node holding `obj`, last touched by the insert that made it.
    pub fn new(obj: char, s_k: S4Vector) -> (r: Self)
        ensures
            r == (Node { obj: Some(obj), s_k, s_p: s_k, link: None, next: None }),
    {
        Node { obj: Some(obj), s_p: s_k.clone(), s_k, link: None, next: None }
    }

    /// Returns `true` if the node has been deleted.
    pub fn is_tombstone(&self) -> (r: bool)
        ensures
            r == (self.obj is None),
    {
        self.obj.is_none()
    }
}

} // verus!
