//! The two protection states of the code mapping.
//!
//! `ExecutableBuffer` is the executable, read-only state; `MutableBuffer`
//! is the writable, non-executable state. Each state is a distinct type and
//! the only way from one to the other consumes the old state, so no value
//! is ever writable and executable at once. The backing store models the
//! fixed-size mapping; `length` is the number of live code bytes in it.
use vstd::prelude::*;
use crate::disp::splice;

verus! {

/// The executable state of the mapping: live code in `[0, length)` of a
/// backing store whose size never changes while the value exists.
pub struct ExecutableBuffer {
    backing: Vec<u8>,
    length: usize,
}

/// The writable state of the mapping: same storage, same meaning of
/// `length`, but open to byte writes and closed to execution.
pub struct MutableBuffer {
    backing: Vec<u8>,
    length: usize,
}

impl ExecutableBuffer {
    /// The whole backing store.
    pub closed spec fn bytes(&self) -> Seq<u8> {
        self.backing@
    }

    /// The number of live code bytes.
    pub closed spec fn spec_len(&self) -> nat {
        self.length as nat
    }

    /// The live bytes lie inside the backing store.
    pub open spec fn wf(&self) -> bool {
        self.spec_len() <= self.bytes().len()
    }

    /// Allocate a mapping of `cap` zeroed bytes with `len` of them live.
    pub fn new(len: usize, cap: usize) -> (r: ExecutableBuffer)
        requires
            len <= cap,
        ensures
            r.bytes() == Seq::new(cap as nat, |i: int| 0u8),
            r.spec_len() == len,
            r.wf(),
    {
        let mut backing: Vec<u8> = Vec::new();
        let mut i: usize = 0;
        while i < cap
            invariant
                i <= cap,
                backing@ == Seq::new(i as nat, |j: int| 0u8),
            decreases cap - i,
        {
            backing.push(0u8);
            proof {
                assert(backing@ =~= Seq::new((i + 1) as nat, |j: int| 0u8));
            }
            i = i + 1;
        }
        ExecutableBuffer { backing, length: len }
    }

    /// The number of live code bytes.
    pub fn len(&self) -> (r: usize)
        ensures
            r as nat == self.spec_len(),
    {
        self.length
    }

    /// The size of the backing store.
    pub fn capacity(&self) -> (r: usize)
        ensures
            r as nat == self.bytes().len(),
    {
        self.backing.len()
    }

    /// Read one byte of the mapping.
    pub fn byte_at(&self, i: usize) -> (r: u8)
        requires
            i < self.bytes().len(),
        ensures
            r == self.bytes()[i as int],
    {
        self.backing[i]
    }

    /// A copy of the live code bytes.
    pub fn code(&self) -> (r: Vec<u8>)
        requires
            self.wf(),
        ensures
            r@ == self.bytes().take(self.spec_len() as int),
    {
        let mut out: Vec<u8> = Vec::new();
        let mut i: usize = 0;
        while i < self.length
            invariant
                i <= self.length,
                self.wf(),
                out@ == self.bytes().take(i as int),
            decreases self.length - i,
        {
            out.push(self.backing[i]);
            proof {
                assert(out@ =~= self.bytes().take(i + 1));
            }
            i = i + 1;
        }
        out
    }

    /// Build an executable mapping over already prepared bytes.
    pub fn from_vec(backing: Vec<u8>, len: usize) -> (r: ExecutableBuffer)
        requires
            len as nat <= backing@.len(),
        ensures
            r.bytes() == backing@,
            r.spec_len() == len as nat,
            r.wf(),
    {
        ExecutableBuffer { backing, length: len }
    }

    /// Flip the mapping to its writable state. The storage is unchanged.
    pub fn make_mut(self) -> (r: MutableBuffer)
        ensures
            r.bytes() == self.bytes(),
            r.spec_len() == self.spec_len(),
    {
        let ExecutableBuffer { backing, length } = self;
        MutableBuffer { backing, length }
    }
}

impl MutableBuffer {
    /// The whole backing store.
    pub closed spec fn bytes(&self) -> Seq<u8> {
        self.backing@
    }

    /// The number of live code bytes.
    pub closed spec fn spec_len(&self) -> nat {
        self.length as nat
    }

    /// The live bytes lie inside the backing store.
    pub open spec fn wf(&self) -> bool {
        self.spec_len() <= self.bytes().len()
    }

    /// Build a writable mapping over already prepared bytes.
    pub fn from_vec(backing: Vec<u8>, len: usize) -> (r: MutableBuffer)
        requires
            len as nat <= backing@.len(),
        ensures
            r.bytes() == backing@,
            r.spec_len() == len as nat,
            r.wf(),
    {
        MutableBuffer { backing, length: len }
    }

    /// Take the storage and the live length back out.
    pub fn into_parts(self) -> (r: (Vec<u8>, usize))
        ensures
            r.0@ == self.bytes(),
            r.1 as nat == self.spec_len(),
    {
        let MutableBuffer { backing, length } = self;
        (backing, length)
    }

    /// The size of the backing store.
    pub fn capacity(&self) -> (r: usize)
        ensures
            r as nat == self.bytes().len(),
    {
        self.backing.len()
    }

    /// Write one byte.
    pub fn write(&mut self, i: usize, b: u8)
        requires
            i < old(self).bytes().len(),
        ensures
            final(self).bytes() == old(self).bytes().update(i as int, b),
            final(self).spec_len() == old(self).spec_len(),
    {
        self.backing[i] = b;
    }

    /// Overwrite the bytes starting at `at` with `data`.
    pub fn write_bytes(&mut self, at: usize, data: &Vec<u8>)
        requires
            at + data@.len() <= old(self).bytes().len(),
        ensures
            final(self).bytes() == splice(old(self).bytes(), at as int, data@),
            final(self).bytes().len() == old(self).bytes().len(),
            final(self).spec_len() == old(self).spec_len(),
    {
        let cap = self.backing.len();
        let mut j: usize = 0;
        while j < data.len()
            invariant
                j <= data@.len(),
                at + data@.len() <= old(self).bytes().len(),
                cap as nat == old(self).bytes().len(),
                self.bytes().len() == old(self).bytes().len(),
                self.spec_len() == old(self).spec_len(),
                self.bytes() == old(self).bytes().take(at as int) + data@.take(j as int)
                    + old(self).bytes().skip(at + j),
            decreases data@.len() - j,
        {
            proof {
                assert(self.bytes().update(at + j, data@[j as int]) =~= old(self).bytes().take(
                    at as int,
                ) + data@.take(j + 1) + old(self).bytes().skip(at + j + 1));
            }
            self.backing[at + j] = data[j];
            j = j + 1;
        }
        proof {
            assert(data@.take(data@.len() as int) =~= data@);
            assert(self.bytes() =~= splice(old(self).bytes(), at as int, data@));
        }
    }

    /// Force the live length back inside the backing store. A value built
    /// by this module's constructors already satisfies that; the call is
    /// the run-time witness where the provenance of a value is unknown.
    pub fn clamp_len(&mut self)
        ensures
            final(self).bytes() == old(self).bytes(),
            final(self).wf(),
            old(self).wf() ==> final(self).spec_len() == old(self).spec_len(),
    {
        if self.length > self.backing.len() {
            self.length = self.backing.len();
        }
    }

    /// Flip the mapping back to its executable state.
    pub fn make_exec(self) -> (r: ExecutableBuffer)
        ensures
            r.bytes() == self.bytes(),
            r.spec_len() == self.spec_len(),
    {
        let MutableBuffer { backing, length } = self;
        ExecutableBuffer { backing, length }
    }
}

} // verus!
