//! Byte ranges from a paged source, whatever that source is: a mapped file, a
//! buffer pool, or bytes in memory.

use vstd::prelude::*;

verus! {

/// How a range of bytes is going to be used.
#[derive(Debug, Clone, Copy, PartialEq, Eq, Structural)]
pub enum AccessHint {
    /// In sequence: reading ahead pays.
    Sequential,
    /// In random order: reading ahead does not pay.
    Random,
    /// Soon: worth fetching now.
    WillNeed,
    /// Not for a while: may be dropped from the cache.
    DontNeed,
}

/// Why a range cannot be fetched.
#[derive(Debug, Clone, Copy, PartialEq, Eq, Structural)]
pub enum FetchError {
    /// `offset + len` overflows.
    InvalidInput,
    /// The range goes beyond the region.
    UnexpectedEof,
}

/// What fetching a range of a region gives.
pub open spec fn fetched(region: Seq<u8>, offset: usize, len: usize) -> Result<Seq<u8>, FetchError> {
    if offset + len > usize::MAX {
        Err(FetchError::InvalidInput)
    } else if offset + len > region.len() {
        Err(FetchError::UnexpectedEof)
    } else {
        Ok(region.subrange(offset as int, offset + len))
    }
}

/// Within a region the bytes of a range are those of the region from the offset on, no
/// more and no fewer. A range that goes beyond its end is rejected, and so is one whose
/// end is no number at all.
pub proof fn law_ranges_of_a_region(region: Seq<u8>, offset: usize, len: usize, i: int)
    ensures
        offset + len > usize::MAX ==> fetched(region, offset, len) == Err::<Seq<u8>, FetchError>(
            FetchError::InvalidInput,
        ),
        region.len() < offset + len <= usize::MAX ==> fetched(region, offset, len) == Err::<
            Seq<u8>,
            FetchError,
        >(FetchError::UnexpectedEof),
        offset + len <= region.len() && region.len() <= usize::MAX ==> fetched(region, offset, len)
            is Ok && fetched(region, offset, len)->Ok_0.len() == len,
        fetched(region, offset, len) is Ok && 0 <= i < len ==> fetched(region, offset, len)->Ok_0[i]
            == region[offset + i],
{
}

/// Fetches byte ranges from a paged source. Offsets count from the start of the
/// fetcher's own region.
pub trait PageFetcher: Send + Sync {
    /// The bytes of the region.
    spec fn region(&self) -> Seq<u8>;

    /// Fetches `len` bytes from `offset` on.
    fn fetch(&self, offset: usize, len: usize) -> (r: Result<&[u8], FetchError>)
        ensures
            match r {
                Ok(bytes) => fetched(self.region(), offset, len) == Ok::<Seq<u8>, FetchError>(
                    bytes@,
                ),
                Err(e) => fetched(self.region(), offset, len) == Err::<Seq<u8>, FetchError>(e),
            },
    ;

    /// The length of the region in bytes.
    fn len(&self) -> (r: usize)
        ensures
            r == self.region().len(),
    ;

    /// Whether the region is empty.
    fn is_empty(&self) -> (r: bool)
        ensures
            r == (self.region().len() == 0),
    {
        self.len() == 0
    }

    /// Passes on how a range is going to be used. Hints that cannot be used have
    /// no effect.
    fn advise(&self, offset: usize, len: usize, hint: AccessHint);
}

/// A region whose bytes are all in memory.
pub struct InMemoryPages {
    bytes: Vec<u8>,
}

impl InMemoryPages {
    /// The bytes held.
    pub closed spec fn content(&self) -> Seq<u8> {
        self.bytes@
    }

    /// Creates a region from its bytes.
    #[must_use]
    pub fn new(bytes: Vec<u8>) -> (r: Self)
        ensures
            r.content() == bytes@,
    {
        Self { bytes }
    }
}

impl PageFetcher for InMemoryPages {
    open spec fn region(&self) -> Seq<u8> {
        self.content()
    }

    fn fetch(&self, offset: usize, len: usize) -> (r: Result<&[u8], FetchError>) {
        match offset.checked_add(len) {
            None => Err(FetchError::InvalidInput),
            Some(end) => {
                if end > self.bytes.len() {
                    Err(FetchError::UnexpectedEof)
                } else {
                    Ok(vstd::slice::slice_subrange(self.bytes.as_slice(), offset, end))
                }
            },
        }
    }

    fn len(&self) -> (r: usize) {
        self.bytes.len()
    }

    fn advise(&self, _offset: usize, _len: usize, _hint: AccessHint) {
    }
}

} // verus!
