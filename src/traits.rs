use vstd::prelude::*;

use crate::error::DnsError;

verus! {

/// A value with a DNS wire form.
pub trait Serializable: Sized {
    /// The wire bytes of this value.
    spec fn encoding(&self) -> Seq<u8>;

    /// Writes this value in wire form, its fields as they stand; never fails.
    /// The value is left as it was.
    fn serialize(&mut self) -> (r: Result<Vec<u8>, DnsError>)
        ensures
            *final(self) == *old(self),
            r matches Ok(v) && v@ == old(self).encoding(),
    ;
}

} // verus!
