//! The revision stamp written into a bundle.
use vstd::prelude::*;
use vstd::string::*;

verus! {

/// The revision of the library a bundle was made from.
pub struct Metadata {
    pub commit: String,
}

impl Metadata {
    /// The stamp for revision `id`, marked `-dirty` when the checkout
    /// has uncommitted changes.
    pub fn new(id: &str, dirty: bool) -> (r: Metadata)
        ensures
            r.commit@ == if dirty { id@ + "-dirty"@ } else { id@ },
    {
        let mut commit = String::from_str(id);
        if dirty {
            commit.append("-dirty");
        }
        Metadata { commit }
    }

    pub fn get_commit(&self) -> (r: &str)
        ensures
            r@ == self.commit@,
    {
        self.commit.as_str()
    }
}

} // verus!
