//! The page cache: a fixed budget of page-sized slots with validity bits,
//! and the caching wrapper that composes it with any physical-memory
//! implementation while remaining transparent to readers.

use vstd::prelude::*;

use crate::mem::{update_range, AccessPhysicalMemory};
use crate::types::{
    align_down, lemma_align_down, lemma_align_down_monotone, lemma_align_down_same_page, Address,
    Error, Length, Page, PageType, PhysicalAddress,
};

verus! {

/// One cache slot. While `valid` is false the buffer contents carry no
/// meaning.
pub struct CachedPage {
    pub address: Address,
    pub buf: Vec<u8>,
    pub valid: bool,
    pub page_type: PageType,
}

/// Whether the cache stores pages of this type. Ordinary mapped pages are
/// cached; page-table pages and pages of unknown provenance are not.
pub open spec fn spec_is_cached_page_type(t: PageType) -> bool {
    t is Page
}

/// A direct-mapped store of page-sized buffers, indexed by page base
/// address modulo the slot count.
pub struct PageCache {
    pub page_size: Length,
    pub slots: Vec<CachedPage>,
}

impl PageCache {
    /// Structural well-formedness: a positive page size, at least one slot,
    /// full-size buffers, and every valid slot holding an aligned page in
    /// its home slot.
    pub open spec fn wf(&self) -> bool {
        &&& 0 < self.page_size.0 <= usize::MAX
        &&& self.slots@.len() >= 1
        &&& forall|i: int|
            0 <= i < self.slots@.len() ==> (#[trigger] self.slots@[i]).buf@.len()
                == self.page_size.0
        &&& forall|i: int|
            0 <= i < self.slots@.len() && (#[trigger] self.slots@[i]).valid ==> {
                &&& self.slots@[i].address.0 % self.page_size.0 == 0
                &&& self.slot_of(self.slots@[i].address.0) == i
            }
    }

    /// The home slot of the page with base address `p`.
    pub open spec fn slot_of(&self, p: u64) -> int {
        (p as int / self.page_size.0 as int) % self.slots@.len() as int
    }

    /// Whether the page with base address `p` is currently held and valid.
    pub open spec fn valid_for(&self, p: u64) -> bool {
        &&& self.slots@[self.slot_of(p)].valid
        &&& self.slots@[self.slot_of(p)].address.0 == p
    }

    /// The bytes held for the page with base address `p`.
    pub open spec fn buf_for(&self, p: u64) -> Seq<u8> {
        self.slots@[self.slot_of(p)].buf@
    }

    proof fn lemma_slot_of_in_range(&self, p: u64)
        requires
            self.wf(),
        ensures
            0 <= self.slot_of(p) < self.slots@.len(),
    {
        vstd::arithmetic::div_mod::lemma_mod_bound(
            p as int / self.page_size.0 as int,
            self.slots@.len() as int,
        );
        vstd::arithmetic::div_mod::lemma_div_pos_is_pos(p as int, self.page_size.0 as int);
    }

    /// An empty cache of `slot_count` slots of `page_size` bytes each.
    pub fn new(page_size: Length, slot_count: usize) -> (r: PageCache)
        requires
            0 < page_size.0 <= usize::MAX,
            slot_count >= 1,
        ensures
            r.wf(),
            r.page_size == page_size,
            r.slots@.len() == slot_count,
            forall|i: int| 0 <= i < slot_count ==> !(#[trigger] r.slots@[i]).valid,
    {
        let mut slots: Vec<CachedPage> = Vec::new();
        let mut i: usize = 0;
        while i < slot_count
            invariant
                i <= slot_count,
                slots@.len() == i,
                0 < page_size.0 <= usize::MAX,
                forall|j: int|
                    0 <= j < i ==> !(#[trigger] slots@[j]).valid && slots@[j].buf@.len()
                        == page_size.0,
            decreases slot_count - i,
        {
            let buf: Vec<u8> = vec![0u8; page_size.0 as usize];
            slots.push(
                CachedPage { address: Address(0), buf, valid: false, page_type: PageType::Unknown },
            );
            i = i + 1;
        }
        PageCache { page_size, slots }
    }

    /// The cache's page granularity.
    pub fn page_size(&self) -> (r: Length)
        ensures
            r == self.page_size,
    {
        self.page_size
    }

    /// Whether pages of type `t` are cached at all.
    pub fn is_cached_page_type(&self, t: PageType) -> (r: bool)
        ensures
            r == spec_is_cached_page_type(t),
    {
        match t {
            PageType::Page => true,
            _ => false,
        }
    }

    /// The slot index of the page containing `p`.
    fn slot_index(&self, p: u64) -> (r: usize)
        requires
            self.wf(),
            p % self.page_size.0 == 0,
        ensures
            r == self.slot_of(p),
    {
        proof {
            self.lemma_slot_of_in_range(p);
        }
        ((p / self.page_size.0) % (self.slots.len() as u64)) as usize
    }

    /// The buffer held for the page with base `page_base`, if it is valid.
    pub fn cached_page(&self, page_base: Address) -> (r: Option<&Vec<u8>>)
        requires
            self.wf(),
            page_base.0 % self.page_size.0 == 0,
        ensures
            match r {
                Some(b) => self.valid_for(page_base.0) && b@ == self.buf_for(page_base.0),
                None => !self.valid_for(page_base.0),
            },
    {
        let idx = self.slot_index(page_base.0);
        let slot = &self.slots[idx];
        if slot.valid && slot.address.0 == page_base.0 {
            Some(&slot.buf)
        } else {
            None
        }
    }

    /// Store `buf` as the now-valid contents of the page containing
    /// `paddr`, evicting whatever shared its slot.
    pub fn validate_page(&mut self, paddr: Address, page_type: PageType, buf: Vec<u8>)
        requires
            old(self).wf(),
            buf@.len() == old(self).page_size.0,
        ensures
            final(self).wf(),
            final(self).page_size == old(self).page_size,
            final(self).slots@.len() == old(self).slots@.len(),
            ({
                let pb = (paddr.0 - paddr.0 % old(self).page_size.0) as u64;
                let idx = old(self).slot_of(pb);
                &&& final(self).slots@ == old(self).slots@.update(
                    idx,
                    CachedPage { address: Address(pb), buf, valid: true, page_type },
                )
                &&& final(self).valid_for(pb)
                &&& final(self).buf_for(pb) == buf@
                &&& forall|q: u64|
                    old(self).slot_of(q) != idx ==> #[trigger] final(self).valid_for(q) == old(
                        self,
                    ).valid_for(q) && final(self).buf_for(q) == old(self).buf_for(q)
                &&& forall|q: u64|
                    old(self).slot_of(q) == idx && q != pb ==> !#[trigger] final(self).valid_for(q)
            }),
    {
        proof {
            lemma_align_down(paddr.0 as int, self.page_size.0 as int);
        }
        let pb = paddr.0 - paddr.0 % self.page_size.0;
        let idx = self.slot_index(pb);
        let ghost pre = *self;
        let slot = CachedPage { address: Address(pb), buf, valid: true, page_type };
        self.slots.set(idx, slot);
        proof {
            assert(self.slot_of(pb) == idx);
            assert forall|q: u64| pre.slot_of(q) != idx implies #[trigger] self.valid_for(q)
                == pre.valid_for(q) && self.buf_for(q) == pre.buf_for(q) by {
                pre.lemma_slot_of_in_range(q);
            }
            assert(self.wf());
        }
    }

    /// Mark the slot holding the page that contains `paddr` invalid.
    pub fn invalidate_page(&mut self, paddr: Address, page_type: PageType)
        requires
            old(self).wf(),
        ensures
            final(self).wf(),
            final(self).page_size == old(self).page_size,
            final(self).slots@.len() == old(self).slots@.len(),
            ({
                let pb = (paddr.0 - paddr.0 % old(self).page_size.0) as u64;
                let idx = old(self).slot_of(pb);
                &&& final(self).slots@ == old(self).slots@.update(
                    idx,
                    CachedPage {
                        address: old(self).slots@[idx].address,
                        buf: old(self).slots@[idx].buf,
                        valid: false,
                        page_type: old(self).slots@[idx].page_type,
                    },
                )
                &&& forall|q: u64|
                    old(self).slot_of(q) == idx ==> !#[trigger] final(self).valid_for(q)
                &&& forall|q: u64|
                    old(self).slot_of(q) != idx ==> #[trigger] final(self).valid_for(q) == old(
                        self,
                    ).valid_for(q) && final(self).buf_for(q) == old(self).buf_for(q)
            }),
    {
        proof {
            lemma_align_down(paddr.0 as int, self.page_size.0 as int);
        }
        let pb = paddr.0 - paddr.0 % self.page_size.0;
        let idx = self.slot_index(pb);
        let ghost pre = *self;
        let addr_keep = self.slots[idx].address;
        let pt_keep = self.slots[idx].page_type;
        let old_slot = self.slots.remove(idx);
        let slot = CachedPage {
            address: addr_keep,
            buf: old_slot.buf,
            valid: false,
            page_type: pt_keep,
        };
        self.slots.insert(idx, slot);
        proof {
            assert(self.slots@ =~= pre.slots@.update(
                idx as int,
                CachedPage {
                    address: pre.slots@[idx as int].address,
                    buf: pre.slots@[idx as int].buf,
                    valid: false,
                    page_type: pre.slots@[idx as int].page_type,
                },
            ));
            assert forall|q: u64| pre.slot_of(q) != idx implies #[trigger] self.valid_for(q)
                == pre.valid_for(q) && self.buf_for(q) == pre.buf_for(q) by {
                pre.lemma_slot_of_in_range(q);
            }
            assert(self.wf());
        }
    }
}

/// Whether `pb` is the base of a cache page (granule `ps`) that intersects
/// the byte range `[a, a + l)`.
pub open spec fn granule_in_range(pb: int, a: int, l: int, ps: int) -> bool {
    &&& l > 0
    &&& pb % ps == 0
    &&& align_down(a, ps) <= pb
    &&& pb < a + l
}

/// Whether the byte range `[a, a + l)` touches no more cache pages than
/// the cache has slots, so that no two of its pages share a direct-mapped
/// slot.
pub open spec fn fits_slot_budget(cache: PageCache, a: int, l: int) -> bool {
    l > 0 ==> align_down(a + l - 1, cache.page_size.0 as int) - align_down(
        a,
        cache.page_size.0 as int,
    ) < cache.slots@.len() * (cache.page_size.0 as int)
}

/// Within the slot budget, two distinct pages of one range live in
/// distinct slots.
pub proof fn lemma_distinct_touched_slots(cache: PageCache, a: int, l: int, pb1: u64, pb2: u64)
    requires
        cache.wf(),
        0 <= a,
        fits_slot_budget(cache, a, l),
        granule_in_range(pb1 as int, a, l, cache.page_size.0 as int),
        granule_in_range(pb2 as int, a, l, cache.page_size.0 as int),
        pb1 != pb2,
    ensures
        cache.slot_of(pb1) != cache.slot_of(pb2),
{
    let ps = cache.page_size.0 as int;
    let n = cache.slots@.len() as int;
    lemma_align_down(a, ps);
    lemma_align_down(a + l - 1, ps);
    lemma_align_down_monotone(pb1 as int, a + l - 1, ps);
    lemma_align_down_monotone(pb2 as int, a + l - 1, ps);
    assert(align_down(pb1 as int, ps) == pb1);
    assert(align_down(pb2 as int, ps) == pb2);
    let q1 = pb1 as int / ps;
    let q2 = pb2 as int / ps;
    vstd::arithmetic::div_mod::lemma_fundamental_div_mod(pb1 as int, ps);
    vstd::arithmetic::div_mod::lemma_fundamental_div_mod(pb2 as int, ps);
    assert(pb1 as int == ps * q1);
    assert(pb2 as int == ps * q2);
    let lo = if q1 < q2 {
        q1
    } else {
        q2
    };
    let hi = if q1 < q2 {
        q2
    } else {
        q1
    };
    let d = hi - lo;
    assert(1 <= d);
    assert(ps * hi - ps * lo < n * ps);
    assert(d * ps < n * ps) by {
        vstd::arithmetic::mul::lemma_mul_is_distributive_sub_other_way(ps, hi, lo);
        vstd::arithmetic::mul::lemma_mul_is_commutative(d, ps);
    }
    assert(d < n) by {
        if d >= n {
            vstd::arithmetic::mul::lemma_mul_inequality(n, d, ps);
        }
    }
    if cache.slot_of(pb1) == cache.slot_of(pb2) {
        assert(lo % n == hi % n);
        assert(d % n == (hi - lo) % n);
        vstd::arithmetic::div_mod::lemma_sub_mod_noop(hi, lo, n);
        vstd::arithmetic::div_mod::lemma_small_mod(d as nat, n as nat);
        assert(d % n == d);
        assert((hi % n - lo % n) % n == 0) by {
            vstd::arithmetic::div_mod::lemma_small_mod(0nat, n as nat);
        }
        assert(false);
    }
}

/// A caching layer over any physical-memory implementation. Reads of
/// cacheable pages are served from the cache, filling it page by page;
/// writes invalidate every overlapping cache page before being passed
/// through.
pub struct CachedMemoryAccess<T: AccessPhysicalMemory> {
    pub mem: T,
    pub cache: PageCache,
}

impl<T: AccessPhysicalMemory> CachedMemoryAccess<T> {
    /// Coupling between cache and backing memory: every valid slot holds
    /// exactly the backing bytes of its page, and that page is readable.
    pub open spec fn coupled(&self) -> bool {
        forall|i: int|
            0 <= i < self.cache.slots@.len() && (#[trigger] self.cache.slots@[i]).valid ==> {
                let b = self.cache.slots@[i].address.0 as int;
                &&& b + self.cache.page_size.0 <= self.mem.mem().len()
                &&& self.cache.slots@[i].buf@ == self.mem.mem().subrange(
                    b,
                    b + self.cache.page_size.0,
                )
                &&& self.mem.read_ok(
                    PhysicalAddress { address: self.cache.slots@[i].address, page: None },
                    self.cache.page_size.0 as nat,
                )
            }
    }

    /// Whether the page hint of `addr` makes the access cacheable.
    pub open spec fn cacheable_hint(addr: PhysicalAddress) -> bool {
        match addr.page {
            Some(p) => spec_is_cached_page_type(p.page_type),
            None => false,
        }
    }

    /// Success condition of a cacheable read: the whole range fits the
    /// address space and every cache page it touches is readable from the
    /// backing memory.
    pub open spec fn cached_range_ok(&self, a: u64, l: nat) -> bool {
        let ps = self.cache.page_size.0 as int;
        if l == 0 {
            true
        } else {
            &&& a + l <= u64::MAX
            &&& align_down(a + l - 1, ps) + ps <= u64::MAX
            &&& forall|pb: u64|
                granule_in_range(pb as int, a as int, l as int, ps) ==> self.mem.read_ok(
                    PhysicalAddress { address: Address(pb), page: None },
                    self.cache.page_size.0 as nat,
                )
        }
    }

    /// Build the caching layer over `mem` from a fresh (all-invalid) cache.
    /// Starting from invalid slots is what establishes the coupling
    /// invariant: a pre-filled cache could claim bytes the backing memory
    /// never held.
    pub fn with(mem: T, cache: PageCache) -> (r: CachedMemoryAccess<T>)
        requires
            mem.inv(),
            cache.wf(),
            forall|i: int| 0 <= i < cache.slots@.len() ==> !(#[trigger] cache.slots@[i]).valid,
        ensures
            r.inv(),
            r.mem == mem,
            r.cache == cache,
    {
        CachedMemoryAccess { mem, cache }
    }

    /// Tear the layer apart again, releasing the backing memory.
    pub fn into_parts(self) -> (r: (T, PageCache))
        ensures
            r.0 == self.mem,
            r.1 == self.cache,
    {
        let CachedMemoryAccess { mem, cache } = self;
        (mem, cache)
    }

    /// The cached read path, with its cache discipline spelled out: an
    /// uncacheable address bypasses the cache entirely; a read served from
    /// valid slots alone touches neither the cache nor the backing memory;
    /// and a successful cacheable read within the slot budget leaves every
    /// page it touched valid, holding that page's backing bytes. The
    /// trait's `phys_read_raw_into` delegates here.
    #[verifier::loop_isolation(false)]
    #[verifier::rlimit(100)]
    pub fn cached_phys_read(&mut self, addr: PhysicalAddress, out: &mut Vec<u8>) -> (r: Result<
        (),
        Error,
    >)
        requires
            old(self).inv(),
            addr.address.0 + old(out)@.len() <= u64::MAX,
        ensures
            final(self).inv(),
            final(self).mem() == old(self).mem(),
            forall|x: PhysicalAddress, l: nat|
                #[trigger] final(self).read_ok(x, l) == old(self).read_ok(x, l),
            forall|x: PhysicalAddress, l: nat|
                #[trigger] final(self).write_ok(x, l) == old(self).write_ok(x, l),
            final(out)@.len() == old(out)@.len(),
            r is Ok <==> old(self).read_ok(addr, old(out)@.len() as nat),
            r is Ok && old(out)@.len() > 0 ==> final(out)@ == old(self).mem().subrange(
                addr.address.0 as int,
                addr.address.0 + old(out)@.len(),
            ),
            !Self::cacheable_hint(addr) ==> final(self).cache == old(self).cache,
            Self::cacheable_hint(addr) && (forall|pb: u64|
                #[trigger] granule_in_range(
                    pb as int,
                    addr.address.0 as int,
                    old(out)@.len() as int,
                    old(self).cache.page_size.0 as int,
                ) ==> old(self).cache.valid_for(pb)) ==> final(self).mem == old(self).mem
                && final(self).cache == old(self).cache,
            r is Ok && Self::cacheable_hint(addr) && fits_slot_budget(
                old(self).cache,
                addr.address.0 as int,
                old(out)@.len() as int,
            ) ==> forall|pb: u64|
                #[trigger] granule_in_range(
                    pb as int,
                    addr.address.0 as int,
                    old(out)@.len() as int,
                    old(self).cache.page_size.0 as int,
                ) ==> final(self).cache.valid_for(pb) && final(self).cache.buf_for(pb) == old(
                self,
            ).mem.mem().subrange(pb as int, pb + old(self).cache.page_size.0),
    {
        let cacheable = match addr.page {
            Some(pg) => self.cache.is_cached_page_type(pg.page_type),
            None => false,
        };
        if !cacheable {
            return self.mem.phys_read_raw_into(addr, out);
        }
        let len = out.len();
        if len == 0 {
            return Ok(());
        }
        let ps64 = self.cache.page_size.0;
        let a = addr.address.0;
        let last = a + (len as u64) - 1;
        proof {
            lemma_align_down(last as int, ps64 as int);
        }
        let last_pb = last - last % ps64;
        if ps64 > u64::MAX - last_pb {
            return Err(Error::Connector);
        }
        let pt = match addr.page {
            Some(pg) => pg.page_type,
            None => PageType::Unknown,
        };
        let mut i: usize = 0;
        while i < len
            invariant
                self.mem.inv(),
                self.cache.wf(),
                self.coupled(),
                self.mem.mem() == old(self).mem.mem(),
                forall|x: PhysicalAddress, l: nat|
                    #[trigger] self.mem.read_ok(x, l) == old(self).mem.read_ok(x, l),
                forall|x: PhysicalAddress, l: nat|
                    #[trigger] self.mem.write_ok(x, l) == old(self).mem.write_ok(x, l),
                self.cache.page_size == old(self).cache.page_size,
                self.cache.slots@.len() == old(self).cache.slots@.len(),
                out@.len() == len,
                i <= len,
                len > 0,
                a == addr.address.0,
                a + len <= u64::MAX,
                ps64 == self.cache.page_size.0,
                0 < ps64 <= usize::MAX,
                last == a + len - 1,
                last_pb == align_down(last as int, ps64 as int),
                last_pb + ps64 <= u64::MAX,
                forall|pb: u64|
                    granule_in_range(pb as int, a as int, i as int, ps64 as int) ==> old(
                        self,
                    ).mem.read_ok(
                        PhysicalAddress { address: Address(pb), page: None },
                        ps64 as nat,
                    ),
                forall|j: int| 0 <= j < i ==> out@[j] == old(self).mem.mem()[a + j],
                i > 0 && i < len ==> (a + i) % (ps64 as int) == 0,
                (forall|pb: u64|
                    #[trigger] granule_in_range(pb as int, a as int, len as int, ps64 as int)
                        ==> old(self).cache.valid_for(pb)) ==> (self.mem == old(self).mem
                    && self.cache == old(self).cache),
                fits_slot_budget(old(self).cache, a as int, len as int) ==> (forall|pb: u64|
                    #[trigger] granule_in_range(pb as int, a as int, i as int, ps64 as int)
                        ==> self.cache.valid_for(pb) && self.cache.buf_for(pb) == old(
                        self,
                    ).mem.mem().subrange(pb as int, pb + ps64)),
            decreases len - i,
        {
            let cur = a + (i as u64);
            proof {
                lemma_align_down(cur as int, ps64 as int);
                lemma_align_down_monotone(cur as int, last as int, ps64 as int);
                lemma_align_down_monotone(a as int, cur as int, ps64 as int);
            }
            let pb = cur - cur % ps64;
            let off = (cur - pb) as usize;
            let rem_page = ps64 - (cur % ps64);
            let cl: usize = if ((len - i) as u64) <= rem_page {
                len - i
            } else {
                rem_page as usize
            };
            assert(cl > 0);
            assert(off + cl <= ps64);
            assert(cur + cl <= a + len);
            // every byte of this chunk lies in the page at pb
            let ghost pre = *self;
            let hit = self.cache.cached_page(Address(pb)).is_some();
            if hit {
                proof {
                    pre.cache.lemma_slot_of_in_range(pb);
                }
                let cbuf = self.cache.cached_page(Address(pb)).unwrap();
                let mut k: usize = 0;
                while k < cl
                    invariant
                        k <= cl,
                        out@.len() == len,
                        i + cl <= len,
                        cbuf@.len() == ps64,
                        off + cl <= cbuf@.len(),
                        forall|j: int| 0 <= j < k ==> #[trigger] out@[i + j] == cbuf@[off + j],
                        forall|j: int| 0 <= j < i ==> out@[j] == old(self).mem.mem()[a + j],
                    decreases cl - k,
                {
                    let b = cbuf[off + k];
                    out.set(i + k, b);
                    k = k + 1;
                }
                proof {
                    let bi = pb as int;
                    assert(self.cache.valid_for(pb));
                    let si = self.cache.slot_of(pb);
                    self.cache.lemma_slot_of_in_range(pb);
                    assert(self.cache.slots@[si].valid);
                    assert(self.cache.slots@[si].address.0 == pb);
                    assert(cbuf@ == self.mem.mem().subrange(bi, bi + ps64));
                    assert forall|j: int| 0 <= j < i + cl implies out@[j] == old(
                        self,
                    ).mem.mem()[a + j] by {
                        if i <= j < i + cl {
                            let jj = j - i;
                            assert(out@[i + jj] == cbuf@[off + jj]);
                            assert(i + jj == j);
                        }
                    }
                    // the page at pb is readable, extending the processed set
                    assert(self.mem.read_ok(
                        PhysicalAddress { address: Address(pb), page: None },
                        ps64 as nat,
                    ));
                    assert(self.cache.buf_for(pb) == old(self).mem.mem().subrange(
                        pb as int,
                        pb + ps64,
                    ));
                    if fits_slot_budget(old(self).cache, a as int, len as int) {
                        assert forall|pb2: u64|
                            granule_in_range(
                                pb2 as int,
                                a as int,
                                (i + cl) as int,
                                ps64 as int,
                            ) implies self.cache.valid_for(pb2) && self.cache.buf_for(pb2) == old(
                            self,
                        ).mem.mem().subrange(pb2 as int, pb2 + ps64) by {
                            if !granule_in_range(pb2 as int, a as int, i as int, ps64 as int) {
                                lemma_align_down_same_page(cur as int, pb2 as int, ps64 as int);
                            }
                        }
                    }
                    assert forall|pb2: u64|
                        granule_in_range(
                            pb2 as int,
                            a as int,
                            (i + cl) as int,
                            ps64 as int,
                        ) implies old(self).mem.read_ok(
                        PhysicalAddress { address: Address(pb2), page: None },
                        ps64 as nat,
                    ) by {
                        if !granule_in_range(pb2 as int, a as int, i as int, ps64 as int) {
                            lemma_align_down_same_page(cur as int, pb2 as int, ps64 as int);
                        }
                    }
                }
            } else {
                proof {
                    // a miss refutes the all-valid hypothesis: had every
                    // touched page been valid at entry, the cache would be
                    // unchanged so far and this page would still hit
                    if forall|pb2: u64|
                        #[trigger] granule_in_range(pb2 as int, a as int, len as int, ps64 as int)
                            ==> old(self).cache.valid_for(pb2) {
                        assert(self.cache == old(self).cache);
                        assert(granule_in_range(pb as int, a as int, len as int, ps64 as int));
                        assert(old(self).cache.valid_for(pb));
                        assert(false);
                    }
                }
                let mut pbuf: Vec<u8> = vec![0u8; ps64 as usize];
                let res = self.mem.phys_read_raw_into(
                    PhysicalAddress { address: Address(pb), page: None },
                    &mut pbuf,
                );
                match res {
                    Result::Err(e) => {
                        proof {
                            assert(granule_in_range(pb as int, a as int, len as int, ps64 as int));
                            assert(!old(self).read_ok(addr, len as nat));
                        }
                        return Err(e);
                    },
                    Result::Ok(()) => {
                        proof {
                            self.mem.lemma_read_ok_in_bounds(
                                PhysicalAddress { address: Address(pb), page: None },
                                ps64 as nat,
                            );
                        }
                        let mut k: usize = 0;
                        while k < cl
                            invariant
                                k <= cl,
                                out@.len() == len,
                                i + cl <= len,
                                pbuf@.len() == ps64,
                                off + cl <= pbuf@.len(),
                                forall|j: int| 0 <= j < k ==> #[trigger] out@[i + j] == pbuf@[off + j],
                                forall|j: int| 0 <= j < i ==> out@[j] == old(self).mem.mem()[a + j],
                            decreases cl - k,
                        {
                            let b = pbuf[off + k];
                            out.set(i + k, b);
                            k = k + 1;
                        }
                        let ghost pbuf_snapshot = pbuf@;
                        self.cache.validate_page(Address(pb), pt, pbuf);
                        proof {
                            assert(pb % ps64 == 0);
                            assert(pb == (pb - pb % ps64) as u64);
                            assert(pbuf_snapshot == old(self).mem.mem().subrange(
                                pb as int,
                                pb + ps64,
                            ));
                            assert forall|j: int| 0 <= j < i + cl implies out@[j] == old(
                                self,
                            ).mem.mem()[a + j] by {
                                if i <= j < i + cl {
                                    let jj = j - i;
                                    assert(out@[i + jj] == pbuf_snapshot[off + jj]);
                                    assert(i + jj == j);
                                }
                            }
                            assert forall|pb2: u64|
                                granule_in_range(
                                    pb2 as int,
                                    a as int,
                                    (i + cl) as int,
                                    ps64 as int,
                                ) implies old(self).mem.read_ok(
                                PhysicalAddress { address: Address(pb2), page: None },
                                ps64 as nat,
                            ) by {
                                if !granule_in_range(pb2 as int, a as int, i as int, ps64 as int) {
                                    lemma_align_down_same_page(cur as int, pb2 as int, ps64 as int);
                                }
                            }
                            assert(self.coupled());
                            if fits_slot_budget(old(self).cache, a as int, len as int) {
                                // the freshly validated page evicts nothing
                                // the range already touched: distinct pages
                                // of a budget-fitting range have distinct
                                // slots
                                assert(self.cache.valid_for(pb));
                                assert(self.cache.buf_for(pb) == pbuf_snapshot);
                                assert forall|pb2: u64|
                                    granule_in_range(
                                        pb2 as int,
                                        a as int,
                                        (i + cl) as int,
                                        ps64 as int,
                                    ) implies self.cache.valid_for(pb2) && self.cache.buf_for(pb2)
                                    == old(self).mem.mem().subrange(pb2 as int, pb2 + ps64) by {
                                    if granule_in_range(
                                        pb2 as int,
                                        a as int,
                                        i as int,
                                        ps64 as int,
                                    ) {
                                        assert(i > 0);
                                        assert(cur as int % ps64 as int == 0);
                                        assert(pb == cur);
                                        assert(pb2 != pb);
                                        assert(granule_in_range(
                                            pb2 as int,
                                            a as int,
                                            len as int,
                                            ps64 as int,
                                        ));
                                        assert(granule_in_range(
                                            pb as int,
                                            a as int,
                                            len as int,
                                            ps64 as int,
                                        ));
                                        lemma_distinct_touched_slots(
                                            old(self).cache,
                                            a as int,
                                            len as int,
                                            pb2,
                                            pb,
                                        );
                                        assert(pre.cache.slot_of(pb2) != pre.cache.slot_of(pb));
                                    } else {
                                        lemma_align_down_same_page(
                                            cur as int,
                                            pb2 as int,
                                            ps64 as int,
                                        );
                                    }
                                }
                            }
                        }
                    },
                }
            }
            proof {
                // chunk boundaries other than the last land on page edges
                if i + cl < len {
                    assert(cl == ps64 - (cur as int % ps64 as int));
                    assert((a + i + cl) % (ps64 as int) == 0) by {
                        vstd::arithmetic::div_mod::lemma_fundamental_div_mod(
                            cur as int,
                            ps64 as int,
                        );
                        assert(cur + cl == pb + ps64);
                        vstd::arithmetic::div_mod::lemma_add_mod_noop(
                            pb as int,
                            ps64 as int,
                            ps64 as int,
                        );
                        vstd::arithmetic::div_mod::lemma_mod_self_0(ps64 as int);
                        vstd::arithmetic::div_mod::lemma_small_mod(0nat, ps64 as nat);
                    }
                }
            }
            i = i + cl;
        }
        proof {
            assert(granule_in_range(last_pb as int, a as int, len as int, ps64 as int)) by {
                lemma_align_down(last as int, ps64 as int);
                lemma_align_down_monotone(a as int, last as int, ps64 as int);
            }
            old(self).mem.lemma_read_ok_in_bounds(
                PhysicalAddress { address: Address(last_pb), page: None },
                ps64 as nat,
            );
            assert(a + len <= old(self).mem.mem().len());
            assert(out@ =~= old(self).mem.mem().subrange(a as int, a as int + len));
            assert(old(self).read_ok(addr, len as nat));
        }
        Ok(())
    }
}


impl<T: AccessPhysicalMemory> AccessPhysicalMemory for CachedMemoryAccess<T> {
    open spec fn inv(&self) -> bool {
        &&& self.mem.inv()
        &&& self.cache.wf()
        &&& self.coupled()
    }

    open spec fn mem(&self) -> Seq<u8> {
        self.mem.mem()
    }

    open spec fn read_ok(&self, addr: PhysicalAddress, len: nat) -> bool {
        if Self::cacheable_hint(addr) {
            self.cached_range_ok(addr.address.0, len)
        } else {
            self.mem.read_ok(addr, len)
        }
    }

    open spec fn write_ok(&self, addr: PhysicalAddress, len: nat) -> bool {
        self.mem.write_ok(addr, len)
    }

    proof fn lemma_read_ok_in_bounds(&self, addr: PhysicalAddress, len: nat) {
        if Self::cacheable_hint(addr) {
            let a = addr.address.0 as int;
            let ps = self.cache.page_size.0 as int;
            lemma_align_down(a + len - 1, ps);
            lemma_align_down(a, ps);
            lemma_align_down_monotone(a, a + len - 1, ps);
            let pbl = align_down(a + len - 1, ps);
            assert(granule_in_range(pbl, a, len as int, ps));
            self.mem.lemma_read_ok_in_bounds(
                PhysicalAddress { address: Address(pbl as u64), page: None },
                self.cache.page_size.0 as nat,
            );
        } else {
            self.mem.lemma_read_ok_in_bounds(addr, len);
        }
    }

    proof fn lemma_write_ok_in_bounds(&self, addr: PhysicalAddress, len: nat) {
        self.mem.lemma_write_ok_in_bounds(addr, len);
    }

    fn phys_read_raw_into(&mut self, addr: PhysicalAddress, out: &mut Vec<u8>) -> (r: Result<
        (),
        Error,
    >) {
        self.cached_phys_read(addr, out)
    }

    #[verifier::loop_isolation(false)]
    fn phys_write_raw(&mut self, addr: PhysicalAddress, data: &Vec<u8>) -> (r: Result<(), Error>) {
        let len = data.len();
        let a = addr.address.0;
        let ps64 = self.cache.page_size.0;
        let pt = match addr.page {
            Some(pg) => pg.page_type,
            None => PageType::Unknown,
        };
        if len > 0 {
            proof {
                lemma_align_down(a as int, ps64 as int);
            }
            let end = a + (len as u64);
            let mut p = a - a % ps64;
            while p < end
                invariant
                    self.mem == old(self).mem,
                    self.cache.wf(),
                    self.coupled(),
                    self.cache.page_size == old(self).cache.page_size,
                    self.cache.slots@.len() == old(self).cache.slots@.len(),
                    ps64 == self.cache.page_size.0,
                    0 < ps64 <= usize::MAX,
                    a == addr.address.0,
                    end == a + len,
                    end <= u64::MAX,
                    p % ps64 == 0 || p >= end,
                    align_down(a as int, ps64 as int) <= p,
                    forall|i: int|
                        0 <= i < self.cache.slots@.len() && (#[trigger] self.cache.slots@[i]).valid
                            ==> !(align_down(a as int, ps64 as int)
                            <= self.cache.slots@[i].address.0 < p),
                decreases end - p,
            {
                let ghost pre = *self;
                self.cache.invalidate_page(Address(p), pt);
                proof {
                    lemma_align_down(p as int, ps64 as int);
                    assert(p == (p - p % ps64) as u64);
                    assert forall|i: int|
                        0 <= i < self.cache.slots@.len() && (#[trigger] self.cache.slots@[i]).valid
                            implies !(align_down(a as int, ps64 as int)
                        <= self.cache.slots@[i].address.0 < p + ps64) by {
                        let q = self.cache.slots@[i].address.0;
                        pre.cache.lemma_slot_of_in_range(q);
                        assert(pre.cache.slots@[i].valid);
                        assert(pre.cache.slots@[i].address.0 == q);
                        if align_down(a as int, ps64 as int) <= q < p + ps64 {
                            if q < p {
                                assert(false);
                            } else {
                                // q is aligned and within the page at p, so q == p
                                lemma_align_down(q as int, ps64 as int);
                                lemma_align_down_same_page(p as int, q as int, ps64 as int);
                                assert(q == p);
                                assert(pre.cache.slot_of(q) == pre.cache.slot_of(p));
                                assert(!self.cache.valid_for(q));
                                assert(false);
                            }
                        }
                    }
                }
                if ps64 > u64::MAX - p {
                    proof {
                        assert forall|i: int|
                            0 <= i < self.cache.slots@.len()
                                && (#[trigger] self.cache.slots@[i]).valid implies !(align_down(
                            a as int,
                            ps64 as int,
                        ) <= self.cache.slots@[i].address.0 < end) by {
                            let q = self.cache.slots@[i].address.0;
                            assert(q < p + ps64);
                        }
                    }
                    p = end;
                } else {
                    proof {
                        vstd::arithmetic::div_mod::lemma_add_mod_noop(
                            p as int,
                            ps64 as int,
                            ps64 as int,
                        );
                        vstd::arithmetic::div_mod::lemma_mod_self_0(ps64 as int);
                        vstd::arithmetic::div_mod::lemma_small_mod(0nat, ps64 as nat);
                    }
                    let np = p + ps64;
                    p = if np > end {
                        end
                    } else {
                        np
                    };
                }
            }
        }
        let ghost before_write = *self;
        let r = self.mem.phys_write_raw(addr, data);
        proof {
            match r {
                Result::Ok(()) => {
                    assert forall|i: int|
                        0 <= i < self.cache.slots@.len() && (#[trigger] self.cache.slots@[i]).valid
                            implies {
                        let b = self.cache.slots@[i].address.0 as int;
                        &&& b + ps64 <= self.mem.mem().len()
                        &&& self.cache.slots@[i].buf@ == self.mem.mem().subrange(b, b + ps64)
                        &&& self.mem.read_ok(
                            PhysicalAddress { address: self.cache.slots@[i].address, page: None },
                            ps64 as nat,
                        )
                    } by {
                        let b = self.cache.slots@[i].address.0 as int;
                        if len > 0 {
                            lemma_align_down(a as int, ps64 as int);
                            assert(!(align_down(a as int, ps64 as int) <= b < a + len));
                            if b + ps64 <= a || a + len <= b {
                            } else {
                                // b intersects the write range, so it was invalidated
                                assert(b < a + len);
                                assert(b + ps64 > a);
                                assert(b % (ps64 as int) == 0);
                                if b < align_down(a as int, ps64 as int) {
                                    // aligned and strictly below the first page
                                    lemma_aligned_below(
                                        b,
                                        align_down(a as int, ps64 as int),
                                        ps64 as int,
                                    );
                                    assert(b + ps64 <= align_down(a as int, ps64 as int));
                                    assert(false);
                                } else {
                                    assert(false);
                                }
                            }
                            crate::mem::lemma_update_range_disjoint(
                                before_write.mem.mem(),
                                a as int,
                                data@,
                                b,
                                ps64 as int,
                            );
                        } else {
                            assert(self.mem.mem() =~= before_write.mem.mem());
                        }
                    }
                },
                Result::Err(_) => {
                    assert(self.coupled());
                },
            }
        }
        r
    }
}

/// Two distinct multiples of `ps` are at least `ps` apart.
pub proof fn lemma_aligned_below(x: int, y: int, ps: int)
    requires
        0 < ps,
        0 <= x < y,
        x % ps == 0,
        y % ps == 0,
    ensures
        x + ps <= y,
{
    vstd::arithmetic::div_mod::lemma_fundamental_div_mod(x, ps);
    vstd::arithmetic::div_mod::lemma_fundamental_div_mod(y, ps);
    assert(x == ps * (x / ps));
    assert(y == ps * (y / ps));
    if x / ps >= y / ps {
        vstd::arithmetic::mul::lemma_mul_inequality(y / ps, x / ps, ps);
        vstd::arithmetic::mul::lemma_mul_is_commutative(x / ps, ps);
        vstd::arithmetic::mul::lemma_mul_is_commutative(y / ps, ps);
        assert(false);
    }
    vstd::arithmetic::mul::lemma_mul_inequality(x / ps + 1, y / ps, ps);
    vstd::arithmetic::mul::lemma_mul_is_distributive_add_other_way(ps, x / ps, 1);
    vstd::arithmetic::mul::lemma_mul_is_commutative(x / ps, ps);
    vstd::arithmetic::mul::lemma_mul_is_commutative(y / ps, ps);
}

/// Cache transparency: the caching layer's memory model is exactly the
/// backing memory's model, so the bytes a successful cached read returns
/// equal the bytes a successful direct read of the same range returns.
pub proof fn lemma_cache_transparency<T: AccessPhysicalMemory>(
    c: CachedMemoryAccess<T>,
    addr: PhysicalAddress,
    len: nat,
    cached_out: Seq<u8>,
    direct_out: Seq<u8>,
)
    requires
        cached_out == c.mem().subrange(addr.address.0 as int, addr.address.0 + len),
        direct_out == c.mem.mem().subrange(addr.address.0 as int, addr.address.0 + len),
    ensures
        cached_out == direct_out,
{
}

/// Read-after-write: writing `data` at a physical address and then reading
/// the same range back returns exactly `data`. The two hypotheses are the
/// postconditions of a successful `phys_write_raw` and `phys_read_raw_into`
/// on any implementation, the caching layer included.
pub proof fn lemma_read_after_write<T: AccessPhysicalMemory>(
    pre: T,
    post: T,
    addr: PhysicalAddress,
    data: Seq<u8>,
    readback: Seq<u8>,
)
    requires
        pre.inv(),
        pre.write_ok(addr, data.len()),
        data.len() > 0,
        post.mem() == update_range(pre.mem(), addr.address.0 as int, data),
        readback == post.mem().subrange(addr.address.0 as int, addr.address.0 + data.len()),
    ensures
        readback == data,
{
    pre.lemma_write_ok_in_bounds(addr, data.len());
    crate::mem::lemma_update_range_read_back(pre.mem(), addr.address.0 as int, data);
}

} // verus!
