use vstd::prelude::*;

verus! {

/// The minimal state any collection here exposes: its size.
pub trait Container {
    /// The number of entries, as a mathematical count.
    spec fn size(&self) -> nat;

    /// The collection's model is meaningful: the order, equality or hashing
    /// that it keys by behaves lawfully. For the collections of this library
    /// that is always so; for the standard maps and sets it is a property of
    /// the key type.
    open spec fn lawful_model(&self) -> bool {
        true
    }

    /// The number of entries currently held.
    fn len(&self) -> (n: usize)
        ensures
            n == self.size(),
    ;

    /// Whether the collection holds no entries.
    fn is_empty(&self) -> (b: bool)
        ensures
            b == (self.size() == 0),
    {
        self.len() == 0
    }
}

/// A collection that can be emptied.
pub trait Clearable: Container {
    /// Remove all entries.
    fn clear(&mut self)
        ensures
            old(self).lawful_model() ==> final(self).size() == 0,
    ;
}

} // verus!
