//! Header records: the name/value pairs that blocks encode and decode.

use vstd::prelude::*;

verus! {

/// A single header: an opaque octet-sequence name and value.
///
/// No case folding or HTTP-level validation happens at this layer.
#[derive(Debug, Clone, PartialEq, Eq)]
pub struct Header {
    pub name: Vec<u8>,
    pub value: Vec<u8>,
}

impl View for Header {
    type V = (Seq<u8>, Seq<u8>);

    open spec fn view(&self) -> (Seq<u8>, Seq<u8>) {
        (self.name@, self.value@)
    }
}

/// A header together with the encoder-side sensitivity hint.
///
/// A sensitive header must never be inserted into a dynamic table.
#[derive(Debug, Clone, PartialEq, Eq)]
pub struct EncodableHeader {
    pub name: Vec<u8>,
    pub value: Vec<u8>,
    pub is_sensitive: bool,
}

impl View for EncodableHeader {
    type V = (Seq<u8>, Seq<u8>, bool);

    open spec fn view(&self) -> (Seq<u8>, Seq<u8>, bool) {
        (self.name@, self.value@, self.is_sensitive)
    }
}

/// Octet-sequence equality, the only comparison the codec ever makes.
pub fn bytes_eq(a: &[u8], b: &[u8]) -> (r: bool)
    ensures
        r == (a@ == b@),
{
    if a.len() != b.len() {
        return false;
    }
    let mut i: usize = 0;
    while i < a.len()
        invariant
            a@.len() == b@.len(),
            i <= a@.len(),
            forall|j: int| 0 <= j < i ==> a@[j] == b@[j],
        decreases a@.len() - i,
    {
        if a[i] != b[i] {
            return false;
        }
        i = i + 1;
    }
    proof {
        assert(a@ =~= b@);
    }
    true
}

} // verus!
