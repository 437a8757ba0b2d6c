//! The registry that says which aggregate keyword a path needs.

use vstd::prelude::*;
use crate::ty::Tag;

verus! {

/// One registered aggregate.
#[derive(Debug)]
pub struct Registered {
    pub path: String,
    pub tag: Tag,
}

/// Maps the path of each registered aggregate to its keyword.
/// Where a path is registered more than once, the last registration counts.
#[derive(Debug)]
pub struct CTypeResolver {
    entries: Vec<Registered>,
}

impl View for CTypeResolver {
    type V = Seq<(Seq<char>, Tag)>;

    closed spec fn view(&self) -> Seq<(Seq<char>, Tag)> {
        Seq::new(self.entries.len() as nat, |i: int| (self.entries[i].path@, self.entries[i].tag))
    }
}

/// The keyword registered for `name`, if it is registered: that of the last registration.
pub open spec fn tag_of(registry: Seq<(Seq<char>, Tag)>, name: Seq<char>) -> Option<Tag>
    decreases registry.len(),
{
    if registry.len() == 0 {
        None
    } else if registry.last().0 == name {
        Some(registry.last().1)
    } else {
        tag_of(registry.drop_last(), name)
    }
}

impl CTypeResolver {
    /// An empty registry.
    pub fn new() -> (r: CTypeResolver)
        ensures
            r@ == Seq::<(Seq<char>, Tag)>::empty(),
    {
        let r = CTypeResolver { entries: Vec::new() };
        assert(r@ =~= Seq::<(Seq<char>, Tag)>::empty());
        r
    }

    /// Registers `path` as an aggregate with the keyword `tag`.
    pub fn add(&mut self, path: String, tag: Tag)
        ensures
            final(self)@ == old(self)@.push((path@, tag)),
    {
        self.entries.push(Registered { path, tag });
        assert(self@ =~= old(self)@.push((path@, tag)));
    }

    /// The keyword that a reference to `name` needs, if `name` is an aggregate.
    pub fn type_for(&self, name: &String) -> (r: Option<Tag>)
        ensures
            r == tag_of(self@, name@),
    {
        let mut i: usize = self.entries.len();
        assert(self@.take(i as int) =~= self@);
        while i > 0
            invariant
                i <= self.entries.len(),
                tag_of(self@, name@) == tag_of(self@.take(i as int), name@),
            decreases i,
        {
            i -= 1;
            assert(self@.take(i + 1).last() == self@[i as int]);
            assert(self@.take(i + 1).drop_last() =~= self@.take(i as int));
            if self.entries[i].path == *name {
                return Some(self.entries[i].tag);
            }
        }
        None
    }
}

} // verus!
