//! Identities of align points.

use vstd::prelude::*;

verus! {

/// An align point identifier: usually a name, but possibly a unique token
/// handed out by an [`UniqueIdSource`].
#[derive(Debug, Hash)]
pub enum AlignPointId {
    Named(String),
    Unique(usize),
}

impl Clone for AlignPointId {
    fn clone(&self) -> (r: Self)
        ensures
            r@ == self@,
    {
        match self {
            AlignPointId::Named(s) => AlignPointId::Named(s.clone()),
            AlignPointId::Unique(x) => AlignPointId::Unique(*x),
        }
    }
}

/// The mathematical value of an [`AlignPointId`].
pub enum AlignPointIdView {
    Named(Seq<char>),
    Unique(int),
}

impl View for AlignPointId {
    type V = AlignPointIdView;

    open spec fn view(&self) -> AlignPointIdView {
        match self {
            AlignPointId::Named(s) => AlignPointIdView::Named(s@),
            AlignPointId::Unique(x) => AlignPointIdView::Unique(*x as int),
        }
    }
}

/// Whether two identifiers denote the same align point.
pub fn id_eq(a: &AlignPointId, b: &AlignPointId) -> (r: bool)
    ensures
        r == (a@ == b@),
{
    match (a, b) {
        (AlignPointId::Named(x), AlignPointId::Named(y)) => x.eq(y),
        (AlignPointId::Unique(x), AlignPointId::Unique(y)) => x == y,
        _ => false,
    }
}

/// A counter handing out identifiers that no other call on the same counter
/// has returned.
pub struct UniqueIdSource {
    next: usize,
}

impl UniqueIdSource {
    pub closed spec fn spec_next(self) -> int {
        self.next as int
    }

    pub fn new() -> (r: UniqueIdSource)
        ensures
            r.spec_next() == 0,
    {
        UniqueIdSource { next: 0 }
    }

    /// Returns a fresh unique identifier: the one numbered by the counter,
    /// which every later call on this source leaves behind.
    pub fn fresh(&mut self) -> (r: AlignPointId)
        requires
            old(self).spec_next() < usize::MAX,
        ensures
            r@ == (AlignPointIdView::Unique(old(self).spec_next())),
            final(self).spec_next() == old(self).spec_next() + 1,
    {
        let k = self.next;
        self.next = self.next + 1;
        AlignPointId::Unique(k)
    }
}

/// An element requesting alignment: content marked with it is aligned with
/// every other piece of content carrying the same name, on the axes it
/// enables.
#[derive(Clone, Debug)]
pub struct AlignPointElem {
    /// The name of the align point.
    pub name: String,
    /// Whether the point takes part in horizontal alignment.
    pub horizontal: bool,
    /// Whether the point takes part in vertical alignment.
    pub vertical: bool,
}

impl AlignPointElem {
    /// An element with the given name, aligning on both axes.
    pub fn new(name: String) -> (r: AlignPointElem)
        ensures
            r.name@ == name@,
            r.horizontal,
            r.vertical,
    {
        AlignPointElem { name, horizontal: true, vertical: true }
    }

    /// The identifier of the point this element denotes.
    pub fn id(&self) -> (r: AlignPointId)
        ensures
            r@ == (AlignPointIdView::Named(self.name@)),
    {
        AlignPointId::Named(self.name.clone())
    }
}

} // verus!
