//! The data file image: an 8-byte big-endian write-offset header counting
//! the content bytes behind it, the frames at `[8, 8 + W)`, and arbitrary
//! reserve bytes beyond. The caller maps this image onto the real file.

use vstd::prelude::*;

use crate::be::{be_u64, lemma_u64_be_roundtrip, read_u64_be, u64_be};
use crate::Error;

verus! {

/// The content length `W` stored in an image's header.
pub open spec fn spec_content_len(s: Seq<u8>) -> u64
    recommends
        s.len() >= 8,
{
    be_u64(s.subrange(0, 8))
}

/// The write offset of an image: the first byte after the content.
pub open spec fn spec_write_offset(s: Seq<u8>) -> int {
    8 + spec_content_len(s)
}

/// The content of an image: the bytes between header and write offset.
pub open spec fn spec_content(s: Seq<u8>) -> Seq<u8>
    recommends
        8 <= spec_write_offset(s) <= s.len(),
{
    s.subrange(8, spec_write_offset(s))
}

fn write_bytes_at(data: &mut Vec<u8>, at: usize, src: &[u8])
    requires
        at + src@.len() <= old(data)@.len(),
    ensures
        final(data)@.len() == old(data)@.len(),
        final(data)@ == old(data)@.subrange(0, at as int) + src@ + old(data)@.skip(
            at + src@.len(),
        ),
{
    // reading the length witnesses that the image fits the machine
    let total = data.len();
    let mut i: usize = 0;
    while i < src.len()
        invariant
            i <= src@.len(),
            total == data@.len(),
            at + src@.len() <= data@.len(),
            data@.len() == old(data)@.len(),
            data@ == old(data)@.subrange(0, at as int) + src@.take(i as int) + old(data)@.skip(
                at + i,
            ),
        decreases src@.len() - i,
    {
        let b = src[i];
        data.set(at + i, b);
        proof {
            assert(data@ =~= old(data)@.subrange(0, at as int) + src@.take(i + 1) + old(
                data,
            )@.skip(at + i + 1));
        }
        i = i + 1;
    }
    proof {
        assert(data@ =~= old(data)@.subrange(0, at as int) + src@ + old(data)@.skip(
            at + src@.len(),
        ));
    }
}

/// A fixed-size image of the data file, with its write-offset header.
pub struct MemoryMap {
    data: Vec<u8>,
}

impl View for MemoryMap {
    type V = Seq<u8>;

    closed spec fn view(&self) -> Seq<u8> {
        self.data@
    }
}

impl MemoryMap {
    /// A well-formed image holds the header and its whole content.
    pub open spec fn wf(&self) -> bool {
        &&& self@.len() >= 8
        &&& spec_write_offset(self@) <= self@.len()
    }

    /// Adopts a file image. A header claiming more content than the image
    /// holds cannot be trusted, so it is reset and the image starts empty.
    pub fn new(data: Vec<u8>) -> (r: Self)
        requires
            data@.len() >= 8,
        ensures
            r.wf(),
            r@.len() == data@.len(),
            r@.skip(8) == data@.skip(8),
            spec_write_offset(data@) <= data@.len() ==> r@ == data@,
            spec_write_offset(data@) > data@.len() ==> spec_content_len(r@) == 0,
    {
        let stored = read_u64_be(data.as_slice(), 0);
        proof {
            assert(data@.subrange(0, 8) =~= data@.subrange(0int, 8int));
        }
        let len = data.len();
        let mut mm = MemoryMap { data };
        if stored > (len - 8) as u64 {
            mm.reset_header();
        }
        mm
    }

    fn reset_header(&mut self)
        requires
            old(self)@.len() >= 8,
        ensures
            final(self)@.len() == old(self)@.len(),
            final(self)@.skip(8) == old(self)@.skip(8),
            spec_content_len(final(self)@) == 0,
            final(self).wf(),
    {
        let mut header: Vec<u8> = Vec::new();
        crate::be::push_u64_be(&mut header, 0);
        write_bytes_at(&mut self.data, 0, header.as_slice());
        proof {
            lemma_u64_be_roundtrip(0);
            assert(self@.subrange(0, 8) =~= u64_be(0));
            assert(self@.skip(8) =~= old(self)@.skip(8));
        }
    }

    /// The first byte after the content: where the next frame goes.
    pub fn write_offset(&self) -> (r: usize)
        requires
            self.wf(),
        ensures
            r == spec_write_offset(self@),
    {
        // reading the size witnesses that the offset fits a usize
        let _n = self.data.len();
        let stored = read_u64_be(self.data.as_slice(), 0);
        proof {
            assert(self@.subrange(0, 8) =~= self@.subrange(0int, 8int));
        }
        8 + (stored as usize)
    }

    /// Where the content begins: right after the header.
    pub fn content_start_offset(&self) -> (r: usize)
        ensures
            r == 8,
    {
        8
    }

    /// The image's full size.
    pub fn len(&self) -> (r: usize)
        ensures
            r == self@.len(),
    {
        self.data.len()
    }

    /// Appends `value` at the write offset and moves the header past it.
    pub fn append(&mut self, value: Vec<u8>)
        requires
            old(self).wf(),
            spec_write_offset(old(self)@) + value@.len() <= old(self)@.len(),
        ensures
            final(self).wf(),
            final(self)@.len() == old(self)@.len(),
            spec_content(final(self)@) == spec_content(old(self)@) + value@,
            spec_write_offset(final(self)@) == spec_write_offset(old(self)@) + value@.len(),
    {
        let image_len = self.data.len();
        let start = self.write_offset();
        let vlen = value.len();
        let ghost before = self@;
        write_bytes_at(&mut self.data, start, value.as_slice());
        let ghost mid = self@;
        proof {
            assert(mid.subrange(0, 8) =~= before.subrange(0, 8));
        }
        let new_content_len = ((start - 8) + vlen) as u64;
        let mut header: Vec<u8> = Vec::new();
        crate::be::push_u64_be(&mut header, new_content_len);
        write_bytes_at(&mut self.data, 0, header.as_slice());
        proof {
            lemma_u64_be_roundtrip(new_content_len);
            assert(self@.subrange(0, 8) =~= u64_be(new_content_len));
            assert(spec_content_len(self@) == new_content_len);
            assert(spec_content(self@) =~= spec_content(before) + value@);
        }
    }

    /// Empties the image: the content length becomes zero. Stale bytes stay
    /// behind the header but are no longer reachable.
    pub fn reset(&mut self)
        requires
            old(self).wf(),
        ensures
            final(self).wf(),
            final(self)@.len() == old(self)@.len(),
            spec_content_len(final(self)@) == 0,
            spec_content(final(self)@) == Seq::<u8>::empty(),
            final(self)@.skip(8) == old(self)@.skip(8),
    {
        self.reset_header();
        proof {
            assert(spec_content(self@) =~= Seq::<u8>::empty());
        }
    }

    /// Reads the bytes in `[start, end)`.
    pub fn read(&self, start: usize, end: usize) -> (r: &[u8])
        requires
            start <= end <= self@.len(),
        ensures
            r@ == self@.subrange(start as int, end as int),
    {
        vstd::slice::slice_subrange(self.data.as_slice(), start, end)
    }

    /// Cuts the content back to its first `new_len` bytes: replay found the
    /// tail unreadable, so the header no longer counts it.
    pub fn clamp_content(&mut self, new_len: usize)
        requires
            old(self).wf(),
            new_len <= spec_content_len(old(self)@),
        ensures
            final(self).wf(),
            final(self)@.len() == old(self)@.len(),
            spec_content_len(final(self)@) == new_len,
            spec_content(final(self)@) == spec_content(old(self)@).take(new_len as int),
    {
        let ghost before = self@;
        let mut header: Vec<u8> = Vec::new();
        crate::be::push_u64_be(&mut header, new_len as u64);
        write_bytes_at(&mut self.data, 0, header.as_slice());
        proof {
            lemma_u64_be_roundtrip(new_len as u64);
            assert(self@.subrange(0, 8) =~= u64_be(new_len as u64));
            assert(spec_content(self@) =~= spec_content(before).take(new_len as int));
        }
    }

    /// Grows the image by `by` zero bytes; the content is untouched.
    pub fn grow(&mut self, by: usize) -> (r: Result<(), Error>)
        requires
            old(self).wf(),
        ensures
            final(self).wf(),
            spec_content(final(self)@) == spec_content(old(self)@),
            spec_write_offset(final(self)@) == spec_write_offset(old(self)@),
            match r {
                Ok(()) => final(self)@.len() == old(self)@.len() + by && final(self)@.len()
                    <= usize::MAX,
                Err(e) => e is IOError && final(self)@ == old(self)@,
            },
            old(self)@.len() + by <= usize::MAX ==> r is Ok,
    {
        if self.data.len() > usize::MAX - by {
            return Err(Error::IOError("file size limit reached".to_owned()));
        }
        let target = self.data.len() + by;
        while self.data.len() < target
            invariant
                old(self)@.len() <= self.data@.len() <= target,
                self.data@.subrange(0, old(self)@.len() as int) == old(self)@,
            decreases target - self.data@.len(),
        {
            self.data.push(0);
            proof {
                assert(self.data@.subrange(0, old(self)@.len() as int) =~= old(self)@);
            }
        }
        proof {
            assert(self@.subrange(0, 8) =~= old(self)@.subrange(0, 8));
            assert(spec_content(self@) =~= spec_content(old(self)@));
        }
        Ok(())
    }

    /// Hands the image back, for the caller to persist.
    pub fn into_bytes(self) -> (r: Vec<u8>)
        ensures
            r@ == self@,
    {
        self.data
    }
}

} // verus!
