//! A buffer that composed wire data is appended to, up to a limit.

use vstd::prelude::*;

verus! {

/// An attempt to append more octets than a builder has room for.
#[derive(Clone, Copy, Debug, PartialEq, Eq, Structural)]
pub struct ShortBuf;

/// The octets a builder holds and the length it may not exceed.
pub struct BuilderView {
    pub bytes: Seq<u8>,
    pub limit: nat,
}

/// An octets builder: appends either succeed whole or leave it unchanged.
pub struct Builder {
    octets: Vec<u8>,
    limit: usize,
}

impl View for Builder {
    type V = BuilderView;

    closed spec fn view(&self) -> BuilderView {
        BuilderView { bytes: self.octets@, limit: self.limit as nat }
    }
}

impl Builder {
    /// An empty builder limited only by the address space.
    pub fn new() -> (b: Builder)
        ensures
            b@.bytes == Seq::<u8>::empty(),
            b@.limit == usize::MAX,
    {
        Builder { octets: Vec::new(), limit: usize::MAX }
    }

    /// An empty builder that holds at most `limit` octets.
    pub fn with_limit(limit: usize) -> (b: Builder)
        ensures
            b@.bytes == Seq::<u8>::empty(),
            b@.limit == limit,
    {
        Builder { octets: Vec::new(), limit }
    }

    /// The number of octets in the builder.
    pub fn len(&self) -> (n: usize)
        ensures
            n == self@.bytes.len(),
    {
        self.octets.len()
    }

    /// The most octets the builder holds.
    pub fn limit(&self) -> (n: usize)
        ensures
            n == self@.limit,
    {
        self.limit
    }

    /// The octets in the builder.
    pub fn as_slice(&self) -> (s: &[u8])
        ensures
            s@ == self@.bytes,
    {
        self.octets.as_slice()
    }

    /// The octets in the builder, as a vector.
    pub fn into_vec(self) -> (v: Vec<u8>)
        ensures
            v@ == self@.bytes,
    {
        self.octets
    }

    /// Appends `data` if it fits, else leaves the builder unchanged.
    pub fn append_slice(&mut self, data: &[u8]) -> (r: Result<(), ShortBuf>)
        ensures
            final(self)@.limit == old(self)@.limit,
            r is Ok <==> old(self)@.bytes.len() + data@.len() <= old(self)@.limit,
            r is Ok ==> final(self)@.bytes == old(self)@.bytes + data@,
            r is Err ==> final(self)@.bytes == old(self)@.bytes,
    {
        if data.len() <= self.limit && self.octets.len() <= self.limit - data.len() {
            self.octets.extend_from_slice(data);
            Ok(())
        } else {
            Err(ShortBuf)
        }
    }

    /// Cuts the builder back to its first `len` octets; a longer `len`
    /// leaves it as it is.
    pub fn truncate(&mut self, len: usize)
        ensures
            final(self)@.limit == old(self)@.limit,
            final(self)@.bytes == if len <= old(self)@.bytes.len() {
                old(self)@.bytes.take(len as int)
            } else {
                old(self)@.bytes
            },
    {
        self.octets.truncate(len);
    }
}

} // verus!
