//! The physical-memory access capability: a trait whose contract is stated
//! over a byte-sequence model of the target's physical memory, and a simple
//! buffer-backed implementation that plays the role of a connector.

use vstd::prelude::*;

use crate::types::{Error, PhysicalAddress};

verus! {

/// `m` with the range starting at `a` overwritten by `d`; bytes outside the
/// range (and outside `m`'s bounds) are unchanged.
pub open spec fn update_range(m: Seq<u8>, a: int, d: Seq<u8>) -> Seq<u8> {
    Seq::new(m.len(), |i: int| if a <= i < a + d.len() { d[i - a] } else { m[i] })
}

/// `n` zero bytes.
pub open spec fn zeros(n: nat) -> Seq<u8> {
    Seq::new(n, |i: int| 0u8)
}

/// Reading back an updated range returns exactly the written bytes.
pub proof fn lemma_update_range_read_back(m: Seq<u8>, a: int, d: Seq<u8>)
    requires
        0 <= a,
        a + d.len() <= m.len(),
    ensures
        update_range(m, a, d).subrange(a, a + d.len()) == d,
{
    assert(update_range(m, a, d).subrange(a, a + d.len()) =~= d);
}

/// A range disjoint from the updated one reads the same before and after.
pub proof fn lemma_update_range_disjoint(m: Seq<u8>, a: int, d: Seq<u8>, b: int, l: int)
    requires
        0 <= b,
        0 <= l,
        b + l <= m.len(),
        b + l <= a || a + d.len() <= b,
    ensures
        update_range(m, a, d).subrange(b, b + l) == m.subrange(b, b + l),
{
    assert(update_range(m, a, d).subrange(b, b + l) =~= m.subrange(b, b + l));
}

/// Batched physical access to a target's memory.
///
/// The model is a byte sequence starting at physical address zero, together
/// with two predicates saying which requests succeed. Reads and writes may
/// fail (a connector's transport can), but they never change which requests
/// would succeed, and a successful operation behaves exactly like reading or
/// writing the model.
pub trait AccessPhysicalMemory: Sized {
    /// Implementation-specific well-formedness; established by constructors
    /// and preserved by every operation.
    spec fn inv(&self) -> bool;

    /// The bytes of the target's physical memory.
    spec fn mem(&self) -> Seq<u8>;

    /// Whether a read of `len` bytes at `addr` succeeds.
    spec fn read_ok(&self, addr: PhysicalAddress, len: nat) -> bool;

    /// Whether a write of `len` bytes at `addr` succeeds.
    spec fn write_ok(&self, addr: PhysicalAddress, len: nat) -> bool;

    /// A successful read lies within the model.
    proof fn lemma_read_ok_in_bounds(&self, addr: PhysicalAddress, len: nat)
        requires
            self.inv(),
            self.read_ok(addr, len),
            len > 0,
        ensures
            addr.address.0 + len <= self.mem().len(),
    ;

    /// A successful write lies within the model.
    proof fn lemma_write_ok_in_bounds(&self, addr: PhysicalAddress, len: nat)
        requires
            self.inv(),
            self.write_ok(addr, len),
            len > 0,
        ensures
            addr.address.0 + len <= self.mem().len(),
    ;

    /// Fill `out` with the bytes at physical address `addr`.
    fn phys_read_raw_into(&mut self, addr: PhysicalAddress, out: &mut Vec<u8>) -> (r: Result<
        (),
        Error,
    >)
        requires
            old(self).inv(),
            addr.address.0 + old(out)@.len() <= u64::MAX,
        ensures
            final(self).inv(),
            final(self).mem() == old(self).mem(),
            forall|a: PhysicalAddress, l: nat|
                #[trigger] final(self).read_ok(a, l) == old(self).read_ok(a, l),
            forall|a: PhysicalAddress, l: nat|
                #[trigger] final(self).write_ok(a, l) == old(self).write_ok(a, l),
            final(out)@.len() == old(out)@.len(),
            r is Ok <==> old(self).read_ok(addr, old(out)@.len() as nat),
            r is Ok && old(out)@.len() > 0 ==> final(out)@ == old(self).mem().subrange(
                addr.address.0 as int,
                addr.address.0 + old(out)@.len(),
            ),
    ;

    /// Write `data` at physical address `addr`.
    fn phys_write_raw(&mut self, addr: PhysicalAddress, data: &Vec<u8>) -> (r: Result<(), Error>)
        requires
            old(self).inv(),
            addr.address.0 + data@.len() <= u64::MAX,
        ensures
            final(self).inv(),
            forall|a: PhysicalAddress, l: nat|
                #[trigger] final(self).read_ok(a, l) == old(self).read_ok(a, l),
            forall|a: PhysicalAddress, l: nat|
                #[trigger] final(self).write_ok(a, l) == old(self).write_ok(a, l),
            r is Ok <==> old(self).write_ok(addr, data@.len() as nat),
            r is Ok ==> final(self).mem() == update_range(
                old(self).mem(),
                addr.address.0 as int,
                data@,
            ),
            r is Err ==> final(self).mem() == old(self).mem(),
    ;
}

/// A connector backed by an in-crate byte buffer: physical address `a` is
/// byte `a` of the buffer. Every in-bounds request succeeds. It records the
/// reads issued to it so that callers can observe caching behaviour.
pub struct BufferMemory {
    pub buf: Vec<u8>,
    pub reads: Vec<(u64, usize)>,
}

impl BufferMemory {
    /// A memory holding exactly `contents`.
    pub fn with_contents(contents: Vec<u8>) -> (r: BufferMemory)
        ensures
            r.inv(),
            r.mem() == contents@,
            r.reads@ == Seq::<(u64, usize)>::empty(),
    {
        BufferMemory { buf: contents, reads: Vec::new() }
    }

    /// The base-address/length pairs of every read issued so far, oldest
    /// first.
    pub fn read_log(&self) -> (r: &Vec<(u64, usize)>)
        ensures
            r == self.reads,
    {
        &self.reads
    }
}

impl AccessPhysicalMemory for BufferMemory {
    open spec fn inv(&self) -> bool {
        true
    }

    open spec fn mem(&self) -> Seq<u8> {
        self.buf@
    }

    open spec fn read_ok(&self, addr: PhysicalAddress, len: nat) -> bool {
        addr.address.0 + len <= self.buf@.len()
    }

    open spec fn write_ok(&self, addr: PhysicalAddress, len: nat) -> bool {
        addr.address.0 + len <= self.buf@.len()
    }

    proof fn lemma_read_ok_in_bounds(&self, addr: PhysicalAddress, len: nat) {
    }

    proof fn lemma_write_ok_in_bounds(&self, addr: PhysicalAddress, len: nat) {
    }

    fn phys_read_raw_into(&mut self, addr: PhysicalAddress, out: &mut Vec<u8>) -> (r: Result<
        (),
        Error,
    >) {
        let len = out.len();
        self.reads.push((addr.address.0, len));
        if (self.buf.len() as u64) < addr.address.0 {
            return Err(Error::Connector);
        }
        if ((self.buf.len() as u64) - addr.address.0) < (len as u64) {
            return Err(Error::Connector);
        }
        let base = addr.address.0 as usize;
        let mut i: usize = 0;
        while i < len
            invariant
                i <= len,
                out@.len() == len,
                self.buf == old(self).buf,
                self.reads@ == old(self).reads@.push((addr.address.0, len as usize)),
                base == addr.address.0,
                base + len <= self.buf@.len(),
                self.buf@.len() <= usize::MAX,
                forall|j: int| 0 <= j < i ==> out@[j] == self.buf@[base + j],
            decreases len - i,
        {
            let b = self.buf[base + i];
            out.set(i, b);
            i = i + 1;
        }
        assert(out@ =~= self.buf@.subrange(addr.address.0 as int, addr.address.0 + len));
        Ok(())
    }

    fn phys_write_raw(&mut self, addr: PhysicalAddress, data: &Vec<u8>) -> (r: Result<(), Error>) {
        let len = data.len();
        if (self.buf.len() as u64) < addr.address.0 {
            return Err(Error::Connector);
        }
        if ((self.buf.len() as u64) - addr.address.0) < (len as u64) {
            return Err(Error::Connector);
        }
        let base = addr.address.0 as usize;
        let mut i: usize = 0;
        while i < len
            invariant
                i <= len,
                data@.len() == len,
                self.reads == old(self).reads,
                base == addr.address.0,
                base + len <= self.buf@.len(),
                self.buf@.len() <= usize::MAX,
                self.buf@.len() == old(self).buf@.len(),
                forall|j: int| 0 <= j < i ==> self.buf@[base + j] == data@[j],
                forall|j: int|
                    0 <= j < self.buf@.len() && !(base <= j < base + i) ==> self.buf@[j] == old(
                        self,
                    ).buf@[j],
            decreases len - i,
        {
            let b = data[i];
            self.buf.set(base + i, b);
            i = i + 1;
        }
        assert(self.buf@ =~= update_range(old(self).buf@, addr.address.0 as int, data@));
        Ok(())
    }
}

} // verus!
