//! Shared, read-only bytes.
use std::sync::Arc;

use vstd::prelude::*;

verus! {

/// A range of bytes that shares its storage with its copies and its parts.
pub struct OwnedBytes {
    data: Arc<Vec<u8>>,
    start: usize,
    end: usize,
}

impl OwnedBytes {
    #[verifier::type_invariant]
    spec fn in_range(self) -> bool {
        self.start <= self.end <= self.data@.len()
    }

    /// The bytes in the range.
    pub closed spec fn view(&self) -> Seq<u8> {
        self.data@.subrange(self.start as int, self.end as int)
    }

    /// Takes all of `data`.
    pub fn new(data: Vec<u8>) -> (bytes: OwnedBytes)
        ensures
            bytes@ == data@,
    {
        let end: usize = data.len();
        let bytes = OwnedBytes { data: Arc::new(data), start: 0, end };
        assert(bytes@ =~= data@);
        bytes
    }

    /// The bytes as a slice.
    pub fn as_slice(&self) -> (slice: &[u8])
        ensures
            slice@ == self@,
    {
        proof {
            use_type_invariant(self);
        }
        &self.data.as_slice()[self.start..self.end]
    }

    /// The number of bytes.
    pub fn len(&self) -> (len: usize)
        ensures
            len == self@.len(),
    {
        proof {
            use_type_invariant(self);
        }
        self.end - self.start
    }

    /// True when there are no bytes.
    pub fn is_empty(&self) -> (empty: bool)
        ensures
            empty == (self@.len() == 0),
    {
        self.len() == 0
    }

    /// The part from `from` up to `to`, not counting `to`.
    pub fn slice(&self, from: usize, to: usize) -> (part: OwnedBytes)
        requires
            from <= to <= self@.len(),
        ensures
            part@ == self@.subrange(from as int, to as int),
    {
        proof {
            use_type_invariant(self);
        }
        let part = OwnedBytes {
            data: self.data.clone(),
            start: self.start + from,
            end: self.start + to,
        };
        assert(part@ =~= self@.subrange(from as int, to as int));
        part
    }

    /// The first `mid` bytes, and the others.
    pub fn split(self, mid: usize) -> (parts: (OwnedBytes, OwnedBytes))
        requires
            mid <= self@.len(),
        ensures
            parts.0@ == self@.take(mid as int),
            parts.1@ == self@.skip(mid as int),
    {
        let len: usize = self.len();
        let first = self.slice(0, mid);
        let second = self.slice(mid, len);
        assert(first@ =~= self@.take(mid as int));
        assert(second@ =~= self@.skip(mid as int));
        (first, second)
    }

    /// Drops the first `count` bytes.
    pub fn advance(&mut self, count: usize)
        requires
            count <= old(self)@.len(),
        ensures
            final(self)@ == old(self)@.skip(count as int),
    {
        let len: usize = self.len();
        let rest = self.slice(count, len);
        assert(rest@ =~= self@.skip(count as int));
        *self = rest;
    }
}

impl Clone for OwnedBytes {
    fn clone(&self) -> (copy: Self)
        ensures
            copy@ == self@,
    {
        let len: usize = self.len();
        let copy = self.slice(0, len);
        assert(copy@ =~= self@);
        copy
    }
}

} // verus!
