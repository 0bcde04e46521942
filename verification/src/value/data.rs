//! The raw byte-blob value kind.

use vstd::prelude::*;

verus! {

/// An arbitrary byte blob together with its declared length.
///
/// The declared length travels through the wire format as its own field, so
/// it is carried here explicitly; a well-formed blob declares exactly the
/// count of its bytes.
#[derive(Debug)]
pub struct Data {
    /// The bytes themselves.
    pub data: Vec<u8>,
    /// The declared length of the blob.
    pub len: usize,
}

impl View for Data {
    type V = (Seq<u8>, int);

    open spec fn view(&self) -> (Seq<u8>, int) {
        (self.data@, self.len as int)
    }
}

/// A blob's declared length matches its byte count.
pub open spec fn wf_data(bytes: Seq<u8>, len: int) -> bool {
    len == bytes.len()
}

impl Clone for Data {
    fn clone(&self) -> (r: Self)
        ensures
            r@ == self@,
    {
        Data { data: clone_bytes(&self.data), len: self.len }
    }
}

impl PartialEq for Data {
    fn eq(&self, other: &Self) -> (r: bool) {
        if self.len != other.len {
            return false;
        }
        eq_bytes(&self.data, &other.data)
    }
}

impl vstd::std_specs::cmp::PartialEqSpecImpl for Data {
    open spec fn obeys_eq_spec() -> bool {
        true
    }

    open spec fn eq_spec(&self, other: &Self) -> bool {
        self@ == other@
    }
}

/// An exact copy of a byte vector.
pub fn clone_bytes(v: &Vec<u8>) -> (r: Vec<u8>)
    ensures
        r@ == v@,
{
    let mut out: Vec<u8> = Vec::new();
    let mut i: usize = 0;
    while i < v.len()
        invariant
            i <= v@.len(),
            out@ == v@.take(i as int),
        decreases v@.len() - i,
    {
        out.push(v[i]);
        proof {
            assert(out@ =~= v@.take(i + 1));
        }
        i = i + 1;
    }
    proof {
        assert(out@ =~= v@);
    }
    out
}

/// Whether two byte vectors hold the same bytes.
pub fn eq_bytes(a: &Vec<u8>, b: &Vec<u8>) -> (r: bool)
    ensures
        r == (a@ == b@),
{
    if a.len() != b.len() {
        proof {
            assert(a@ != b@);
        }
        return false;
    }
    let mut i: usize = 0;
    while i < a.len()
        invariant
            i <= a@.len(),
            a@.len() == b@.len(),
            forall|j: int| 0 <= j < i ==> a@[j] == b@[j],
        decreases a@.len() - i,
    {
        if a[i] != b[i] {
            return false;
        }
        i = i + 1;
    }
    proof {
        assert(a@ =~= b@);
    }
    true
}

impl Data {
    /// Wraps a byte vector as a blob whose declared length is its count.
    pub fn new(data: Vec<u8>) -> (r: Self)
        ensures
            r@.0 == data@,
            r@.1 == data@.len(),
            wf_data(r@.0, r@.1),
    {
        let len = data.len();
        Data { data, len }
    }

    /// Drops all bytes and sets the declared length to zero.
    pub fn clear(&mut self)
        ensures
            final(self)@.0 =~= Seq::<u8>::empty(),
            final(self)@.1 == 0,
    {
        self.data.clear();
        self.len = 0;
    }

    /// The declared length of the blob.
    pub fn len(&self) -> (r: usize)
        ensures
            r as int == self@.1,
    {
        self.len
    }

    /// Whether the declared length is zero.
    pub fn is_empty(&self) -> (r: bool)
        ensures
            r == (self@.1 == 0),
    {
        self.len == 0
    }

    /// The bytes of the blob.
    pub fn into_vec(self) -> (r: Vec<u8>)
        ensures
            r@ == self@.0,
    {
        self.data
    }
}

impl From<Vec<u8>> for Data {
    fn from(data: Vec<u8>) -> (r: Self) {
        let len = data.len();
        Data { data, len }
    }
}

impl vstd::std_specs::convert::FromSpecImpl<Vec<u8>> for Data {
    open spec fn obeys_from_spec() -> bool {
        true
    }

    open spec fn from_spec(data: Vec<u8>) -> Self {
        Data { data, len: data@.len() as usize }
    }
}

} // verus!
