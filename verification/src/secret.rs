//! A secret byte string that is given up by consuming it.

use vstd::prelude::*;

verus! {

/// Bytes that can be read only by taking the whole value apart.
pub struct Secret {
    bytes: Vec<u8>,
}

impl View for Secret {
    type V = Seq<u8>;

    /// The bytes held.
    closed spec fn view(&self) -> Seq<u8> {
        self.bytes@
    }
}

impl Secret {
    /// Wraps `bytes`.
    pub fn new(bytes: Vec<u8>) -> (secret: Self)
        ensures
            secret@ == bytes@,
    {
        Secret { bytes }
    }

    /// Consumes the secret and hands back its bytes.
    pub fn into_bytes(self) -> (bytes: Vec<u8>)
        ensures
            bytes@ == self@,
    {
        self.bytes
    }
}

} // verus!
