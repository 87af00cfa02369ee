//! The virtual address translator's byte-range operations: reads and
//! writes split on page boundaries, each chunk translated independently.
//! Translation failures zero-fill read chunks and drop write chunks;
//! physical I/O errors propagate.

use vstd::prelude::*;

use crate::arch::{
    le32, le64, lemma_vtop_mapped_bounds, read_ok_fn, vtop_spec, write_ok_fn, Architecture,
    Translation,
};
use crate::cache::CachedMemoryAccess;
use crate::mem::{update_range, zeros, AccessPhysicalMemory, BufferMemory};
use crate::types::{Address, Error, Length, Page, PhysicalAddress};

verus! {

/// The length of the first chunk of a virtual range: up to the next 4 KiB
/// boundary, capped by what remains.
pub open spec fn chunk_len(va: u64, len: nat) -> nat {
    let to_end = 0x1000 - (va as int % 0x1000);
    if len <= to_end {
        len
    } else {
        to_end as nat
    }
}

/// What one read chunk of `cl` bytes at `va` yields: the backing bytes of
/// its translation, zeroes when the translation fails, `None` when the
/// physical read of a mapped chunk would fail.
pub open spec fn chunk_head(
    bytes: Seq<u8>,
    ok: spec_fn(PhysicalAddress, nat) -> bool,
    arch: Architecture,
    dtb: u64,
    va: u64,
    cl: nat,
) -> Option<Seq<u8>> {
    match vtop_spec(bytes, ok, arch, dtb, va) {
        Translation::Mapped(pa) => if ok(pa, cl) {
            Some(bytes.subrange(pa.address.0 as int, pa.address.0 + cl))
        } else {
            None
        },
        _ => Some(zeros(cl)),
    }
}

/// The bytes a chunked virtual read returns: each chunk is translated at
/// its base; a mapped chunk reads the backing bytes (`None` if that
/// physical read would fail), an unmapped chunk reads as zeroes.
pub open spec fn virt_read_spec(
    bytes: Seq<u8>,
    ok: spec_fn(PhysicalAddress, nat) -> bool,
    arch: Architecture,
    dtb: u64,
    va: u64,
    len: nat,
) -> Option<Seq<u8>>
    decreases len,
{
    if len == 0 {
        Some(Seq::empty())
    } else {
        let cl = chunk_len(va, len);
        match chunk_head(bytes, ok, arch, dtb, va, cl) {
            Option::None => None,
            Option::Some(h) => match virt_read_spec(
                bytes,
                ok,
                arch,
                dtb,
                (va + cl) as u64,
                (len - cl) as nat,
            ) {
                Option::None => None,
                Option::Some(t) => Some(h + t),
            },
        }
    }
}

/// What one write chunk leaves of the memory: the range at its
/// translation overwritten by `head`, the memory unchanged when the
/// translation fails, `None` when the physical write of a mapped chunk
/// would fail.
pub open spec fn write_chunk_step(
    bytes: Seq<u8>,
    rok: spec_fn(PhysicalAddress, nat) -> bool,
    wok: spec_fn(PhysicalAddress, nat) -> bool,
    arch: Architecture,
    dtb: u64,
    va: u64,
    head: Seq<u8>,
) -> Option<Seq<u8>> {
    match vtop_spec(bytes, rok, arch, dtb, va) {
        Translation::Mapped(pa) => if wok(pa, head.len()) {
            Some(update_range(bytes, pa.address.0 as int, head))
        } else {
            None
        },
        _ => Some(bytes),
    }
}

/// The memory left by a chunked virtual write: a mapped chunk updates the
/// backing bytes (`None` if that physical write would fail), an unmapped
/// chunk is silently dropped. Later chunks are translated against the
/// memory as already updated by earlier ones.
pub open spec fn virt_write_spec(
    bytes: Seq<u8>,
    rok: spec_fn(PhysicalAddress, nat) -> bool,
    wok: spec_fn(PhysicalAddress, nat) -> bool,
    arch: Architecture,
    dtb: u64,
    va: u64,
    data: Seq<u8>,
) -> Option<Seq<u8>>
    decreases data.len(),
{
    if data.len() == 0 {
        Some(bytes)
    } else {
        let cl = chunk_len(va, data.len());
        match write_chunk_step(bytes, rok, wok, arch, dtb, va, data.subrange(0, cl as int)) {
            Option::None => None,
            Option::Some(m) => virt_write_spec(
                m,
                rok,
                wok,
                arch,
                dtb,
                (va + cl) as u64,
                data.skip(cl as int),
            ),
        }
    }
}


/// At a chunk boundary (`va + i` page-aligned, `i > 0`) the first chunk of
/// a range of `i` bytes at `va` runs exactly to the page edge.
proof fn lemma_boundary_first_chunk(va: u64, i: nat)
    requires
        i > 0,
        (va + i) % 0x1000 == 0,
    ensures
        chunk_len(va, i) == 0x1000 - (va as int % 0x1000),
        chunk_len(va, i) <= i,
{
    let m = 0x1000int;
    let r = va as int % m;
    let q = i as int % m;
    vstd::arithmetic::div_mod::lemma_mod_bound(va as int, m);
    vstd::arithmetic::div_mod::lemma_mod_bound(i as int, m);
    vstd::arithmetic::div_mod::lemma_add_mod_noop(va as int, i as int, m);
    assert((r + q) % m == 0);
    if r + q < m {
        vstd::arithmetic::div_mod::lemma_small_mod((r + q) as nat, m as nat);
        assert(r == 0 && q == 0);
        // i is a positive multiple of the page size
        vstd::arithmetic::div_mod::lemma_fundamental_div_mod(i as int, m);
        assert(i as int == m * (i as int / m));
        vstd::arithmetic::div_mod::lemma_div_pos_is_pos(i as int, m);
        if i as int / m == 0 {
            assert(false);
        }
        vstd::arithmetic::mul::lemma_mul_inequality(1, i as int / m, m);
        vstd::arithmetic::mul::lemma_mul_is_commutative(i as int / m, m);
        assert(i >= m);
    } else {
        vstd::arithmetic::div_mod::lemma_fundamental_div_mod_converse(r + q, m, 1, r + q - m);
        assert(r + q == m);
        vstd::arithmetic::div_mod::lemma_fundamental_div_mod(i as int, m);
        vstd::arithmetic::mul::lemma_mul_nonnegative(m, i as int / m);
        vstd::arithmetic::div_mod::lemma_div_pos_is_pos(i as int, m);
        assert(i as int >= q);
    }
}

/// Reading one more chunk extends a chunk-aligned prefix: the bytes of a
/// read of `i + cl` bytes at `va` are the bytes of the length-`i` read
/// followed by the head of the next chunk.
pub proof fn lemma_virt_read_spec_extend(
    bytes: Seq<u8>,
    ok: spec_fn(PhysicalAddress, nat) -> bool,
    arch: Architecture,
    dtb: u64,
    va: u64,
    i: nat,
    cl: nat,
)
    requires
        i == 0 || (va + i) % 0x1000 == 0,
        va + i + cl <= u64::MAX,
        0 < cl,
        cl <= 0x1000 - ((va + i) as u64) as int % 0x1000,
    ensures
        virt_read_spec(bytes, ok, arch, dtb, va, (i + cl) as nat) == (match (
            virt_read_spec(bytes, ok, arch, dtb, va, i),
            chunk_head(bytes, ok, arch, dtb, (va + i) as u64, cl),
        ) {
            (Option::Some(p), Option::Some(h)) => Some(p + h),
            _ => None::<Seq<u8>>,
        }),
    decreases i,
{
    if i == 0 {
        assert(chunk_len(va, cl) == cl);
        match chunk_head(bytes, ok, arch, dtb, va, cl) {
            Option::None => {
            },
            Option::Some(h) => {
                assert(virt_read_spec(bytes, ok, arch, dtb, (va + cl) as u64, 0) == Some(
                    Seq::<u8>::empty(),
                ));
                assert(h + Seq::<u8>::empty() =~= h);
                assert(Seq::<u8>::empty() + h =~= h);
            },
        }
    } else {
        lemma_boundary_first_chunk(va, i);
        let c0 = chunk_len(va, i);
        assert(chunk_len(va, (i + cl) as nat) == c0);
        match chunk_head(bytes, ok, arch, dtb, va, c0) {
            Option::None => {
            },
            Option::Some(h0) => {
                lemma_virt_read_spec_extend(
                    bytes,
                    ok,
                    arch,
                    dtb,
                    (va + c0) as u64,
                    (i - c0) as nat,
                    cl,
                );
                match (
                    virt_read_spec(bytes, ok, arch, dtb, (va + c0) as u64, (i - c0) as nat),
                    chunk_head(bytes, ok, arch, dtb, (va + i) as u64, cl),
                ) {
                    (Option::Some(p1), Option::Some(h)) => {
                        assert(h0 + (p1 + h) =~= (h0 + p1) + h);
                    },
                    _ => {
                    },
                }
            },
        }
    }
}

/// Writing one more chunk extends a chunk-aligned prefix: the memory left
/// by writing the first `i + cl` bytes of `data` is the memory left by the
/// first `i` bytes with the next chunk's step applied.
pub proof fn lemma_virt_write_spec_extend(
    bytes: Seq<u8>,
    rok: spec_fn(PhysicalAddress, nat) -> bool,
    wok: spec_fn(PhysicalAddress, nat) -> bool,
    arch: Architecture,
    dtb: u64,
    va: u64,
    data: Seq<u8>,
    i: nat,
    cl: nat,
)
    requires
        i == 0 || (va + i) % 0x1000 == 0,
        va + i + cl <= u64::MAX,
        0 < cl,
        cl <= 0x1000 - ((va + i) as u64) as int % 0x1000,
        i + cl <= data.len(),
    ensures
        virt_write_spec(bytes, rok, wok, arch, dtb, va, data.take((i + cl) as int)) == (match (
        virt_write_spec(bytes, rok, wok, arch, dtb, va, data.take(i as int))) {
            Option::None => None::<Seq<u8>>,
            Option::Some(m) => write_chunk_step(
                m,
                rok,
                wok,
                arch,
                dtb,
                (va + i) as u64,
                data.subrange(i as int, (i + cl) as int),
            ),
        }),
    decreases i,
{
    let dl = data.take((i + cl) as int);
    let dp = data.take(i as int);
    let lhs = virt_write_spec(bytes, rok, wok, arch, dtb, va, dl);
    let rhs_base = virt_write_spec(bytes, rok, wok, arch, dtb, va, dp);
    let head = data.subrange(i as int, (i + cl) as int);
    if i == 0 {
        assert(dp =~= Seq::<u8>::empty());
        assert(rhs_base == Some(bytes));
        assert(chunk_len(va, (i + cl) as nat) == cl);
        assert(dl.subrange(0, cl as int) =~= data.subrange(0, cl as int));
        assert(data.subrange(0, cl as int) =~= head);
        assert((va + i) as u64 == va);
        match write_chunk_step(bytes, rok, wok, arch, dtb, va, head) {
            Option::None => {
                assert(lhs is None);
            },
            Option::Some(m) => {
                assert(dl.skip(cl as int) =~= Seq::<u8>::empty());
                assert(virt_write_spec(bytes, rok, wok, arch, dtb, va, dl) == virt_write_spec(
                    m,
                    rok,
                    wok,
                    arch,
                    dtb,
                    (va + cl) as u64,
                    dl.skip(cl as int),
                ));
                assert(lhs == Some(m));
            },
        }
    } else {
        lemma_boundary_first_chunk(va, i);
        let c0 = chunk_len(va, i);
        assert(chunk_len(va, (i + cl) as nat) == c0);
        assert(dl.subrange(0, c0 as int) =~= data.subrange(0, c0 as int));
        assert(dp.subrange(0, c0 as int) =~= data.subrange(0, c0 as int));
        match write_chunk_step(bytes, rok, wok, arch, dtb, va, data.subrange(0, c0 as int)) {
            Option::None => {
                assert(lhs is None);
                assert(rhs_base is None);
            },
            Option::Some(m) => {
                let dskip = data.skip(c0 as int);
                assert(dl.skip(c0 as int) =~= dskip.take((i + cl - c0) as int));
                assert(dp.skip(c0 as int) =~= dskip.take((i - c0) as int));
                assert(lhs == virt_write_spec(
                    m,
                    rok,
                    wok,
                    arch,
                    dtb,
                    (va + c0) as u64,
                    dskip.take((i - c0 + cl) as int),
                ));
                assert(rhs_base == virt_write_spec(
                    m,
                    rok,
                    wok,
                    arch,
                    dtb,
                    (va + c0) as u64,
                    dskip.take((i - c0) as int),
                ));
                lemma_virt_write_spec_extend(
                    m,
                    rok,
                    wok,
                    arch,
                    dtb,
                    (va + c0) as u64,
                    dskip,
                    (i - c0) as nat,
                    cl,
                );
                assert(dskip.subrange((i - c0) as int, (i - c0 + cl) as int) =~= head);
                assert(((va + c0) as u64 + (i - c0)) as u64 == (va + i) as u64);
            },
        }
    }
}


/// One proof step of the chunked read: a known prefix and a known chunk
/// head extend to a known longer prefix.
proof fn lemma_read_prefix_step(
    bytes: Seq<u8>,
    ok: spec_fn(PhysicalAddress, nat) -> bool,
    arch: Architecture,
    dtb: u64,
    va: u64,
    i: nat,
    cl: nat,
    prefix: Seq<u8>,
    h: Seq<u8>,
)
    requires
        i == 0 || (va + i) % 0x1000 == 0,
        va + i + cl <= u64::MAX,
        0 < cl,
        cl <= 0x1000 - ((va + i) as u64) as int % 0x1000,
        virt_read_spec(bytes, ok, arch, dtb, va, i) == Some(prefix),
        chunk_head(bytes, ok, arch, dtb, (va + i) as u64, cl) == Some(h),
    ensures
        virt_read_spec(bytes, ok, arch, dtb, va, (i + cl) as nat) == Some(prefix + h),
{
    lemma_virt_read_spec_extend(bytes, ok, arch, dtb, va, i, cl);
}

/// A failing chunk at a chunk-aligned offset fails the whole read.
proof fn lemma_virt_read_spec_fail(
    bytes: Seq<u8>,
    ok: spec_fn(PhysicalAddress, nat) -> bool,
    arch: Architecture,
    dtb: u64,
    va: u64,
    i: nat,
    len: nat,
)
    requires
        i == 0 || (va + i) % 0x1000 == 0,
        i < len,
        va + len <= u64::MAX,
        chunk_head(
            bytes,
            ok,
            arch,
            dtb,
            (va + i) as u64,
            chunk_len((va + i) as u64, (len - i) as nat),
        ) is None,
    ensures
        virt_read_spec(bytes, ok, arch, dtb, va, len) is None,
    decreases i,
{
    if i != 0 {
        lemma_boundary_first_chunk(va, i);
        let c0 = chunk_len(va, i);
        assert(chunk_len(va, len) == c0);
        match chunk_head(bytes, ok, arch, dtb, va, c0) {
            Option::None => {
            },
            Option::Some(h0) => {
                lemma_virt_read_spec_fail(
                    bytes,
                    ok,
                    arch,
                    dtb,
                    (va + c0) as u64,
                    (i - c0) as nat,
                    (len - c0) as nat,
                );
            },
        }
    }
}

/// The end of a page-limited chunk lands on a page boundary.
proof fn lemma_chunk_end_aligned(cur: u64, cl: nat)
    requires
        cl == 0x1000 - (cur as int % 0x1000),
        cur + cl <= u64::MAX,
    ensures
        (cur + cl) % 0x1000 == 0,
{
    crate::types::lemma_align_down(cur as int, 0x1000);
    assert(cur + cl == crate::types::align_down(cur as int, 0x1000) + 0x1000);
    vstd::arithmetic::div_mod::lemma_add_mod_noop(
        crate::types::align_down(cur as int, 0x1000),
        0x1000,
        0x1000,
    );
    vstd::arithmetic::div_mod::lemma_mod_self_0(0x1000);
    vstd::arithmetic::div_mod::lemma_small_mod(0nat, 0x1000nat);
}

/// Fill `out` with the bytes at virtual address `addr` in the address
/// space rooted at `dtb`, zero-filling every chunk whose translation
/// fails.
#[verifier::loop_isolation(false)]
#[verifier::rlimit(100)]
pub fn virt_read_raw_into<T: AccessPhysicalMemory>(
    mem: &mut T,
    arch: Architecture,
    dtb: Address,
    addr: Address,
    out: &mut Vec<u8>,
) -> (r: Result<(), Error>)
    requires
        old(mem).inv(),
        addr.0 + old(out)@.len() <= u64::MAX,
        dtb.0 + 0x1000 <= u64::MAX,
    ensures
        final(mem).inv(),
        final(mem).mem() == old(mem).mem(),
        forall|x: PhysicalAddress, l: nat|
            #[trigger] final(mem).read_ok(x, l) == old(mem).read_ok(x, l),
        forall|x: PhysicalAddress, l: nat|
            #[trigger] final(mem).write_ok(x, l) == old(mem).write_ok(x, l),
        final(out)@.len() == old(out)@.len(),
        ({
            match virt_read_spec(
                old(mem).mem(),
                read_ok_fn(*old(mem)),
                arch,
                dtb.0,
                addr.0,
                old(out)@.len() as nat,
            ) {
                Option::Some(bytes) => r is Ok && final(out)@ == bytes,
                Option::None => r is Err,
            }
        }),
        r is Err ==> exists|i: int|
            {
                &&& 0 <= i <= old(out)@.len()
                &&& #[trigger] virt_read_spec(
                    old(mem).mem(),
                    read_ok_fn(*old(mem)),
                    arch,
                    dtb.0,
                    addr.0,
                    i as nat,
                ) == Some(final(out)@.subrange(0, i))
                &&& final(out)@.subrange(i, old(out)@.len() as int) == old(out)@.subrange(
                    i,
                    old(out)@.len() as int,
                )
            },
{
    let ghost bytes0 = old(mem).mem();
    let ghost ok0 = read_ok_fn(*old(mem));
    let len = out.len();
    proof {
        assert(out@.subrange(0, 0) =~= Seq::<u8>::empty());
    }
    let mut i: usize = 0;
    while i < len
        invariant
            mem.inv(),
            mem.mem() == bytes0,
            forall|x: PhysicalAddress, l: nat|
                #[trigger] mem.read_ok(x, l) == old(mem).read_ok(x, l),
            forall|x: PhysicalAddress, l: nat|
                #[trigger] mem.write_ok(x, l) == old(mem).write_ok(x, l),
            out@.len() == len,
            i <= len,
            i > 0 && i < len ==> (addr.0 + i) % 0x1000 == 0,
            virt_read_spec(bytes0, ok0, arch, dtb.0, addr.0, i as nat) == Some(
                out@.subrange(0, i as int),
            ),
            forall|j: int| i <= j < len ==> out@[j] == old(out)@[j],
        decreases len - i,
    {
        let cur = addr.0 + (i as u64);
        let rem = len - i;
        let to_end = 0x1000 - (cur % 0x1000);
        let cl: usize = if (rem as u64) <= to_end {
            rem
        } else {
            to_end as usize
        };
        assert(cl == chunk_len(cur, rem as nat));
        assert(cl > 0);
        let ghost out_prev = out@;
        proof {
            assert(read_ok_fn(*mem) =~= ok0);
        }
        let tr = arch.virt_to_phys(mem, dtb, Address(cur));
        proof {
            lemma_vtop_mapped_bounds(bytes0, ok0, arch, dtb.0, cur);
        }
        match tr {
            Result::Ok(pa) => {
                let mut cbuf: Vec<u8> = vec![0u8; cl];
                let res = mem.phys_read_raw_into(pa, &mut cbuf);
                match res {
                    Result::Err(e) => {
                        proof {
                            assert(chunk_head(bytes0, ok0, arch, dtb.0, cur, cl as nat) is None);
                            lemma_virt_read_spec_fail(
                                bytes0,
                                ok0,
                                arch,
                                dtb.0,
                                addr.0,
                                i as nat,
                                len as nat,
                            );
                            assert(out@.subrange(i as int, len as int) =~= old(out)@.subrange(
                                i as int,
                                len as int,
                            ));
                            assert(exists|ii: int|
                                {
                                    &&& 0 <= ii <= len
                                    &&& #[trigger] virt_read_spec(
                                        bytes0,
                                        ok0,
                                        arch,
                                        dtb.0,
                                        addr.0,
                                        ii as nat,
                                    ) == Some(out@.subrange(0, ii))
                                    &&& out@.subrange(ii, len as int) == old(out)@.subrange(
                                        ii,
                                        len as int,
                                    )
                                }) by {
                                assert(virt_read_spec(bytes0, ok0, arch, dtb.0, addr.0, i as nat)
                                    == Some(out@.subrange(0, i as int)));
                            }
                        }
                        return Err(e);
                    },
                    Result::Ok(()) => {
                        let mut k: usize = 0;
                        while k < cl
                            invariant
                                k <= cl,
                                out@.len() == len,
                                cbuf@.len() == cl,
                                forall|j: int| 0 <= j < k ==> #[trigger] out@[i + j] == cbuf@[j],
                                forall|j: int|
                                    0 <= j < out@.len() && !(i <= j < i + k) ==> out@[j]
                                        == out_prev[j],
                            decreases cl - k,
                        {
                            let b = cbuf[k];
                            out.set(i + k, b);
                            k = k + 1;
                        }
                        proof {
                            let h = bytes0.subrange(pa.address.0 as int, pa.address.0 + cl);
                            assert(cbuf@ == h);
                            assert(chunk_head(bytes0, ok0, arch, dtb.0, cur, cl as nat) == Some(
                                cbuf@,
                            ));
                            assert(out@.subrange(0, i as int) =~= out_prev.subrange(0, i as int));
                            assert forall|j: int|
                                0 <= j < i + cl implies out@[j] == (out_prev.subrange(0, i as int)
                                + cbuf@)[j] by {
                                if i <= j {
                                    let jj = j - i;
                                    assert(out@[i + jj] == cbuf@[jj]);
                                }
                            }
                            assert(out@.subrange(0, i + cl) =~= out_prev.subrange(0, i as int)
                                + cbuf@);
                            lemma_read_prefix_step(
                                bytes0,
                                ok0,
                                arch,
                                dtb.0,
                                addr.0,
                                i as nat,
                                cl as nat,
                                out_prev.subrange(0, i as int),
                                cbuf@,
                            );
                        }
                    },
                }
            },
            Result::Err(_) => {
                let mut k: usize = 0;
                while k < cl
                    invariant
                        k <= cl,
                        out@.len() == len,
                        forall|j: int| 0 <= j < k ==> #[trigger] out@[i + j] == 0u8,
                        forall|j: int|
                            0 <= j < out@.len() && !(i <= j < i + k) ==> out@[j] == out_prev[j],
                    decreases cl - k,
                {
                    out.set(i + k, 0u8);
                    k = k + 1;
                }
                proof {
                    let h = zeros(cl as nat);
                    assert(chunk_head(bytes0, ok0, arch, dtb.0, cur, cl as nat) == Some(h));
                    assert(out@.subrange(0, i as int) =~= out_prev.subrange(0, i as int));
                    assert forall|j: int|
                        0 <= j < i + cl implies out@[j] == (out_prev.subrange(0, i as int) + h)[j] by {
                        if i <= j {
                            let jj = j - i;
                            assert(out@[i + jj] == 0u8);
                        }
                    }
                    assert(out@.subrange(0, i + cl) =~= out_prev.subrange(0, i as int) + h);
                    lemma_read_prefix_step(
                        bytes0,
                        ok0,
                        arch,
                        dtb.0,
                        addr.0,
                        i as nat,
                        cl as nat,
                        out_prev.subrange(0, i as int),
                        h,
                    );
                }
            },
        }
        proof {
            assert forall|j: int| i + cl <= j < len implies out@[j] == old(out)@[j] by {
                assert(out@[j] == out_prev[j]);
            }
            if i + cl < len {
                lemma_chunk_end_aligned(cur, cl as nat);
            }
        }
        i = i + cl;
    }
    proof {
        assert(out@.subrange(0, len as int) =~= out@);
    }
    Ok(())
}

/// Write `data` at virtual address `addr`, silently dropping every chunk
/// whose translation fails.
#[verifier::loop_isolation(false)]
#[verifier::rlimit(100)]
pub fn virt_write_raw<T: AccessPhysicalMemory>(
    mem: &mut T,
    arch: Architecture,
    dtb: Address,
    addr: Address,
    data: &Vec<u8>,
) -> (r: Result<(), Error>)
    requires
        old(mem).inv(),
        addr.0 + data@.len() <= u64::MAX,
        dtb.0 + 0x1000 <= u64::MAX,
    ensures
        final(mem).inv(),
        forall|x: PhysicalAddress, l: nat|
            #[trigger] final(mem).read_ok(x, l) == old(mem).read_ok(x, l),
        forall|x: PhysicalAddress, l: nat|
            #[trigger] final(mem).write_ok(x, l) == old(mem).write_ok(x, l),
        ({
            match virt_write_spec(
                old(mem).mem(),
                read_ok_fn(*old(mem)),
                write_ok_fn(*old(mem)),
                arch,
                dtb.0,
                addr.0,
                data@,
            ) {
                Option::Some(m2) => r is Ok && final(mem).mem() == m2,
                Option::None => r is Err,
            }
        }),
        r is Err ==> exists|i: int|
            {
                &&& 0 <= i <= data@.len()
                &&& #[trigger] virt_write_spec(
                    old(mem).mem(),
                    read_ok_fn(*old(mem)),
                    write_ok_fn(*old(mem)),
                    arch,
                    dtb.0,
                    addr.0,
                    data@.take(i),
                ) == Some(final(mem).mem())
            },
{
    let ghost bytes0 = old(mem).mem();
    let ghost ok0 = read_ok_fn(*old(mem));
    let ghost wok0 = write_ok_fn(*old(mem));
    let len = data.len();
    proof {
        assert(data@.skip(0) =~= data@);
        assert(data@.take(0) =~= Seq::<u8>::empty());
    }
    let mut i: usize = 0;
    while i < len
        invariant
            mem.inv(),
            forall|x: PhysicalAddress, l: nat|
                #[trigger] mem.read_ok(x, l) == old(mem).read_ok(x, l),
            forall|x: PhysicalAddress, l: nat|
                #[trigger] mem.write_ok(x, l) == old(mem).write_ok(x, l),
            i <= len,
            i > 0 && i < len ==> (addr.0 + i) % 0x1000 == 0,
            virt_write_spec(bytes0, ok0, wok0, arch, dtb.0, addr.0, data@.take(i as int)) == Some(
                mem.mem(),
            ),
            virt_write_spec(bytes0, ok0, wok0, arch, dtb.0, addr.0, data@) == virt_write_spec(
                mem.mem(),
                ok0,
                wok0,
                arch,
                dtb.0,
                (addr.0 + i) as u64,
                data@.skip(i as int),
            ),
        decreases len - i,
    {
        let cur = addr.0 + (i as u64);
        let rem = len - i;
        let to_end = 0x1000 - (cur % 0x1000);
        let cl: usize = if (rem as u64) <= to_end {
            rem
        } else {
            to_end as usize
        };
        assert(cl == chunk_len(cur, rem as nat));
        assert(cl > 0);
        let ghost bytes_cur = mem.mem();
        proof {
            assert(read_ok_fn(*mem) =~= ok0);
            assert(write_ok_fn(*mem) =~= wok0);
            assert(data@.skip(i as int).len() == rem as nat);
        }
        let tr = arch.virt_to_phys(mem, dtb, Address(cur));
        proof {
            lemma_vtop_mapped_bounds(bytes_cur, ok0, arch, dtb.0, cur);
            assert(data@.skip(i as int).subrange(0, cl as int) =~= data@.subrange(
                i as int,
                i + cl,
            ));
            assert(data@.skip(i as int).skip(cl as int) =~= data@.skip(i + cl));
        }
        match tr {
            Result::Ok(pa) => {
                let mut cbuf: Vec<u8> = Vec::new();
                let mut k: usize = 0;
                while k < cl
                    invariant
                        k <= cl,
                        cbuf@.len() == k,
                        forall|j: int| 0 <= j < k ==> #[trigger] cbuf@[j] == data@[i + j],
                    decreases cl - k,
                {
                    let b = data[i + k];
                    cbuf.push(b);
                    k = k + 1;
                }
                proof {
                    assert(cbuf@ =~= data@.subrange(i as int, i + cl));
                }
                let res = mem.phys_write_raw(pa, &cbuf);
                match res {
                    Result::Err(e) => {
                        proof {
                            assert(virt_write_spec(
                                bytes_cur,
                                ok0,
                                wok0,
                                arch,
                                dtb.0,
                                cur,
                                data@.skip(i as int),
                            ) is None);
                            assert(mem.mem() == bytes_cur);
                            assert(exists|ii: int|
                                {
                                    &&& 0 <= ii <= data@.len()
                                    &&& #[trigger] virt_write_spec(
                                        bytes0,
                                        ok0,
                                        wok0,
                                        arch,
                                        dtb.0,
                                        addr.0,
                                        data@.take(ii),
                                    ) == Some(mem.mem())
                                }) by {
                                assert(virt_write_spec(
                                    bytes0,
                                    ok0,
                                    wok0,
                                    arch,
                                    dtb.0,
                                    addr.0,
                                    data@.take(i as int),
                                ) == Some(mem.mem()));
                            }
                        }
                        return Err(e);
                    },
                    Result::Ok(()) => {
                        proof {
                            assert(mem.mem() == update_range(
                                bytes_cur,
                                pa.address.0 as int,
                                data@.subrange(i as int, i + cl),
                            ));
                            lemma_virt_write_spec_extend(
                                bytes0,
                                ok0,
                                wok0,
                                arch,
                                dtb.0,
                                addr.0,
                                data@,
                                i as nat,
                                cl as nat,
                            );
                            assert(write_chunk_step(
                                bytes_cur,
                                ok0,
                                wok0,
                                arch,
                                dtb.0,
                                cur,
                                data@.subrange(i as int, i + cl),
                            ) == Some(mem.mem()));
                            assert(virt_write_spec(
                                bytes0,
                                ok0,
                                wok0,
                                arch,
                                dtb.0,
                                addr.0,
                                data@.take((i + cl) as int),
                            ) == Some(mem.mem()));
                        }
                    },
                }
            },
            Result::Err(_) => {
                proof {
                    assert(mem.mem() == bytes_cur);
                    lemma_virt_write_spec_extend(
                        bytes0,
                        ok0,
                        wok0,
                        arch,
                        dtb.0,
                        addr.0,
                        data@,
                        i as nat,
                        cl as nat,
                    );
                    assert(write_chunk_step(
                        bytes_cur,
                        ok0,
                        wok0,
                        arch,
                        dtb.0,
                        cur,
                        data@.subrange(i as int, i + cl),
                    ) == Some(bytes_cur));
                    assert(virt_write_spec(
                        bytes0,
                        ok0,
                        wok0,
                        arch,
                        dtb.0,
                        addr.0,
                        data@.take((i + cl) as int),
                    ) == Some(mem.mem()));
                }
            },
        }
        proof {
            if i + cl < len {
                lemma_chunk_end_aligned(cur, cl as nat);
            }
        }
        i = i + cl;
    }
    proof {
        assert(data@.skip(len as int) =~= Seq::<u8>::empty());
        assert(data@.take(len as int) =~= data@);
    }
    Ok(())
}

/// The page descriptor of the page containing virtual address `addr`, or
/// the translation error.
pub fn virt_page_info<T: AccessPhysicalMemory>(
    mem: &mut T,
    arch: Architecture,
    dtb: Address,
    addr: Address,
) -> (r: Result<Page, Error>)
    requires
        old(mem).inv(),
        dtb.0 + 0x1000 <= u64::MAX,
    ensures
        final(mem).inv(),
        final(mem).mem() == old(mem).mem(),
        forall|x: PhysicalAddress, l: nat|
            #[trigger] final(mem).read_ok(x, l) == old(mem).read_ok(x, l),
        forall|x: PhysicalAddress, l: nat|
            #[trigger] final(mem).write_ok(x, l) == old(mem).write_ok(x, l),
        ({
            match vtop_spec(old(mem).mem(), read_ok_fn(*old(mem)), arch, dtb.0, addr.0) {
                Translation::Mapped(pa) => match pa.page {
                    Some(pg) => r == Ok::<Page, Error>(pg),
                    None => r == Err::<Page, Error>(Error::PageInfoNotFound),
                },
                Translation::NotPresent => r == Err::<Page, Error>(Error::PageNotPresent),
                Translation::Fault => r == Err::<Page, Error>(Error::PageTableReadFailed),
            }
        }),
{
    match arch.virt_to_phys(mem, dtb, addr) {
        Result::Ok(pa) => match pa.page {
            Some(pg) => Ok(pg),
            None => Err(Error::PageInfoNotFound),
        },
        Result::Err(e) => Err(e),
    }
}

/// Zero-fill on unmapped: when translation fails for every address the
/// read touches, the read succeeds and returns only zeroes.
pub proof fn lemma_virt_read_unmapped_zero_fill(
    bytes: Seq<u8>,
    ok: spec_fn(PhysicalAddress, nat) -> bool,
    arch: Architecture,
    dtb: u64,
    va: u64,
    len: nat,
)
    requires
        va + len <= u64::MAX,
        forall|v: u64|
            va <= v < va + len ==> !(#[trigger] vtop_spec(bytes, ok, arch, dtb, v) is Mapped),
    ensures
        virt_read_spec(bytes, ok, arch, dtb, va, len) == Some(zeros(len)),
    decreases len,
{
    if len == 0 {
        assert(zeros(0) =~= Seq::<u8>::empty());
    } else {
        let cl = chunk_len(va, len);
        assert(!(vtop_spec(bytes, ok, arch, dtb, va) is Mapped));
        lemma_virt_read_unmapped_zero_fill(
            bytes,
            ok,
            arch,
            dtb,
            (va + cl) as u64,
            (len - cl) as nat,
        );
        assert(zeros(cl) + zeros((len - cl) as nat) =~= zeros(len));
    }
}

/// Page-size independence. In general a virtual read depends only on the
/// memory bytes and the read-success predicate (`lemma_virt_read_agree`
/// is that general statement), and a cache's page size can reach the
/// predicate only where the backing memory has unreadable holes at page
/// ends. This lemma discharges the premise for the concrete stacks the
/// crate builds: over backing buffers with the same contents, a whole
/// number of 4 KiB pages long, caching layers expose the same memory
/// model and the same read-success predicate whatever their cache page
/// sizes (any divisors of 4 KiB), so a virtual read returns the same
/// bytes through either stack.
pub proof fn lemma_virt_read_page_size_independent(
    c1: CachedMemoryAccess<BufferMemory>,
    c2: CachedMemoryAccess<BufferMemory>,
    arch: Architecture,
    dtb: u64,
    va: u64,
    len: nat,
)
    requires
        c1.inv(),
        c2.inv(),
        c1.mem.mem() == c2.mem.mem(),
        c1.mem.mem().len() % 0x1000 == 0,
        0x1000int % c1.cache.page_size.0 as int == 0,
        0x1000int % c2.cache.page_size.0 as int == 0,
    ensures
        virt_read_spec(c1.mem(), read_ok_fn(c1), arch, dtb, va, len) == virt_read_spec(
            c2.mem(),
            read_ok_fn(c2),
            arch,
            dtb,
            va,
            len,
        ),
{
    lemma_cached_buffer_read_ok(c1);
    lemma_cached_buffer_read_ok(c2);
    assert forall|a: PhysicalAddress, l: nat| #[trigger] c1.read_ok(a, l) == c2.read_ok(
        a,
        l,
    ) by {
        if l == 0 {
            assert(c1.mem.mem().len() == c2.mem.mem().len());
        }
    }
    assert(read_ok_fn(c1) =~= read_ok_fn(c2));
}

/// Over a buffer whose length is a whole number of 4 KiB pages, a caching
/// layer's read-success predicate collapses to a bounds check, whatever
/// its cache page size (any divisor of 4 KiB).
pub proof fn lemma_cached_buffer_read_ok(c: CachedMemoryAccess<BufferMemory>)
    requires
        c.inv(),
        c.mem.mem().len() % 0x1000 == 0,
        0x1000int % c.cache.page_size.0 as int == 0,
    ensures
        forall|a: PhysicalAddress, l: nat|
            l > 0 ==> #[trigger] c.read_ok(a, l) == (a.address.0 + l <= c.mem.mem().len()),
{
    let d = c.cache.page_size.0 as int;
    let big_l = c.mem.mem().len() as int;
    lemma_mod_divides_transitive(big_l, 0x1000, d);
    vstd::std_specs::vec::axiom_spec_len(&c.mem.buf);
    assert forall|a: PhysicalAddress, l: nat| l > 0 implies #[trigger] c.read_ok(a, l) == (
    a.address.0 + l <= big_l) by {
        if CachedMemoryAccess::<BufferMemory>::cacheable_hint(a) && l > 0 {
            let av = a.address.0 as int;
            crate::types::lemma_align_down(av + l - 1, d);
            crate::types::lemma_align_down(av, d);
            crate::types::lemma_align_down_monotone(av, av + l - 1, d);
            let pbl = crate::types::align_down(av + l - 1, d);
            if c.read_ok(a, l) {
                assert(crate::cache::granule_in_range(pbl, av, l as int, d));
                assert(c.mem.read_ok(
                    PhysicalAddress { address: Address(pbl as u64), page: None },
                    d as nat,
                ));
                assert(av + l <= big_l);
            }
            if av + l <= big_l {
                assert forall|pb: u64|
                    crate::cache::granule_in_range(
                        pb as int,
                        av,
                        l as int,
                        d,
                    ) implies c.mem.read_ok(
                    PhysicalAddress { address: Address(pb), page: None },
                    c.cache.page_size.0 as nat,
                ) by {
                    if pb + d > big_l {
                        crate::cache::lemma_aligned_below(pb as int, big_l, d);
                        assert(false);
                    }
                }
                crate::cache::lemma_aligned_below(pbl, big_l, d);
                assert(pbl + d <= big_l);
                assert(c.cached_range_ok(a.address.0, l));
            }
        }
    }
}

/// Divisibility is transitive: a multiple of 4 KiB is a multiple of every
/// divisor of 4 KiB.
proof fn lemma_mod_divides_transitive(l: int, m: int, d: int)
    requires
        0 < d,
        0 < m,
        l >= 0,
        l % m == 0,
        m % d == 0,
    ensures
        l % d == 0,
{
    vstd::arithmetic::div_mod::lemma_fundamental_div_mod(l, m);
    vstd::arithmetic::div_mod::lemma_fundamental_div_mod(m, d);
    assert(l == (d * (m / d)) * (l / m));
    vstd::arithmetic::mul::lemma_mul_is_associative(d, m / d, l / m);
    vstd::arithmetic::div_mod::lemma_mod_multiples_basic((m / d) * (l / m), d);
    vstd::arithmetic::mul::lemma_mul_is_commutative(d, (m / d) * (l / m));
}

/// The little-endian value of the four bytes of `b`.
pub fn decode_le32(b: &Vec<u8>) -> (r: u64)
    requires
        b@.len() == 4,
    ensures
        r == le32(b@),
        r <= 0xFFFFFFFF,
{
    (b[0] as u64) + (b[1] as u64) * 0x100 + (b[2] as u64) * 0x10000 + (b[3] as u64) * 0x1000000
}

/// The little-endian value of the eight bytes of `b`.
pub fn decode_le64(b: &Vec<u8>) -> (r: u64)
    requires
        b@.len() == 8,
    ensures
        r == le64(b@),
{
    (b[0] as u64) + (b[1] as u64) * 0x100 + (b[2] as u64) * 0x10000 + (b[3] as u64) * 0x1000000 + (
    b[4] as u64) * 0x100000000 + (b[5] as u64) * 0x10000000000 + (b[6] as u64) * 0x1000000000000 + (
    b[7] as u64) * 0x100000000000000
}

/// The pointer-sized little-endian value a virtual read at `va` returns,
/// `None` when the physical read of a mapped chunk would fail.
pub open spec fn virt_read_addr_spec(
    bytes: Seq<u8>,
    ok: spec_fn(PhysicalAddress, nat) -> bool,
    arch: Architecture,
    dtb: u64,
    va: u64,
) -> Option<u64> {
    let w = arch.spec_pointer_width() as nat;
    match virt_read_spec(bytes, ok, arch, dtb, va, w) {
        Option::None => None,
        Option::Some(b) => Some(
            (if w == 4 {
                le32(b)
            } else {
                le64(b)
            }) as u64,
        ),
    }
}

/// Read a pointer-sized little-endian address at virtual address `addr`.
pub fn virt_read_addr<T: AccessPhysicalMemory>(
    mem: &mut T,
    arch: Architecture,
    dtb: Address,
    addr: Address,
) -> (r: Result<Address, Error>)
    requires
        old(mem).inv(),
        addr.0 + 8 <= u64::MAX,
        dtb.0 + 0x1000 <= u64::MAX,
    ensures
        final(mem).inv(),
        final(mem).mem() == old(mem).mem(),
        forall|x: PhysicalAddress, l: nat|
            #[trigger] final(mem).read_ok(x, l) == old(mem).read_ok(x, l),
        forall|x: PhysicalAddress, l: nat|
            #[trigger] final(mem).write_ok(x, l) == old(mem).write_ok(x, l),
        ({
            match virt_read_addr_spec(old(mem).mem(), read_ok_fn(*old(mem)), arch, dtb.0, addr.0) {
                Option::Some(v) => r == Ok::<Address, Error>(Address(v)),
                Option::None => r is Err,
            }
        }),
{
    let w = arch.pointer_width();
    let mut buf: Vec<u8> = vec![0u8; w as usize];
    match virt_read_raw_into(mem, arch, dtb, addr, &mut buf) {
        Result::Err(e) => Err(e),
        Result::Ok(()) => {
            let v: u64 = if w == 4 {
                decode_le32(&buf)
            } else {
                decode_le64(&buf)
            };
            Ok(Address(v))
        },
    }
}

/// The signed 32-bit interpretation of an unsigned value below 2^32.
pub open spec fn as_i32(v: int) -> int {
    if v % 0x100000000 < 0x80000000 {
        v % 0x100000000
    } else {
        v % 0x100000000 - 0x100000000
    }
}

/// The signed 32-bit little-endian value a virtual read at `va` returns.
pub open spec fn virt_read_i32_spec(
    bytes: Seq<u8>,
    ok: spec_fn(PhysicalAddress, nat) -> bool,
    arch: Architecture,
    dtb: u64,
    va: u64,
) -> Option<int> {
    match virt_read_spec(bytes, ok, arch, dtb, va, 4) {
        Option::None => None,
        Option::Some(b) => Some(as_i32(le32(b))),
    }
}

/// Read a signed 32-bit little-endian integer at virtual address `addr`.
pub fn virt_read_i32<T: AccessPhysicalMemory>(
    mem: &mut T,
    arch: Architecture,
    dtb: Address,
    addr: Address,
) -> (r: Result<i32, Error>)
    requires
        old(mem).inv(),
        addr.0 + 4 <= u64::MAX,
        dtb.0 + 0x1000 <= u64::MAX,
    ensures
        final(mem).inv(),
        final(mem).mem() == old(mem).mem(),
        forall|x: PhysicalAddress, l: nat|
            #[trigger] final(mem).read_ok(x, l) == old(mem).read_ok(x, l),
        forall|x: PhysicalAddress, l: nat|
            #[trigger] final(mem).write_ok(x, l) == old(mem).write_ok(x, l),
        ({
            match virt_read_i32_spec(old(mem).mem(), read_ok_fn(*old(mem)), arch, dtb.0, addr.0) {
                Option::Some(v) => r is Ok && r.unwrap() == v,
                Option::None => r is Err,
            }
        }),
{
    let mut buf: Vec<u8> = vec![0u8; 4];
    match virt_read_raw_into(mem, arch, dtb, addr, &mut buf) {
        Result::Err(e) => Err(e),
        Result::Ok(()) => {
            let v = decode_le32(&buf);
            let u: u32 = v as u32;
            let x: i32 = if u < 0x80000000 {
                u as i32
            } else {
                let d: u32 = 0xFFFFFFFF - u;
                -(d as i32) - 1
            };
            proof {
                assert(u == le32(buf@));
                assert(x == as_i32(le32(buf@)));
            }
            Ok(x)
        },
    }
}

/// The index of the first NUL byte of `b`, or `b`'s length if there is
/// none.
pub open spec fn first_nul(b: Seq<u8>) -> int
    decreases b.len(),
{
    if b.len() == 0 {
        0
    } else if b[0] == 0 {
        0
    } else {
        1 + first_nul(b.skip(1))
    }
}

/// The bytes of `b` before its first NUL.
pub open spec fn cstr_of(b: Seq<u8>) -> Seq<u8> {
    b.take(first_nul(b))
}

/// `first_nul` is characterised by scanning: it is the first index holding
/// zero, or the length.
pub proof fn lemma_first_nul(b: Seq<u8>, k: int)
    requires
        0 <= k <= b.len(),
        forall|j: int| 0 <= j < k ==> b[j] != 0,
        k == b.len() || b[k] == 0,
    ensures
        first_nul(b) == k,
    decreases b.len(),
{
    if b.len() != 0 {
        if k == 0 {
        } else {
            assert(b[0] != 0);
            lemma_first_nul(b.skip(1), k - 1);
        }
    }
}

/// Relies on String::from_utf8_lossy (with Cow::into_owned converting the
/// result): valid UTF-8 input decodes to exactly its characters.
#[verifier::external_body]
pub(crate) fn bytes_to_string_lossy(b: &Vec<u8>) -> (r: String)
    ensures
        vstd::utf8::valid_utf8(b@) ==> r@ == vstd::utf8::decode_utf8(b@),
{
    String::from_utf8_lossy(b.as_slice()).into_owned()
}

/// Read `len` bytes at virtual address `addr` and return the C string they
/// begin with: the bytes before the first NUL, decoded as UTF-8.
pub fn virt_read_cstr<T: AccessPhysicalMemory>(
    mem: &mut T,
    arch: Architecture,
    dtb: Address,
    addr: Address,
    len: Length,
) -> (r: Result<String, Error>)
    requires
        old(mem).inv(),
        addr.0 + len.0 <= u64::MAX,
        len.0 <= usize::MAX,
        dtb.0 + 0x1000 <= u64::MAX,
    ensures
        final(mem).inv(),
        final(mem).mem() == old(mem).mem(),
        forall|x: PhysicalAddress, l: nat|
            #[trigger] final(mem).read_ok(x, l) == old(mem).read_ok(x, l),
        forall|x: PhysicalAddress, l: nat|
            #[trigger] final(mem).write_ok(x, l) == old(mem).write_ok(x, l),
        ({
            match virt_read_spec(
                old(mem).mem(),
                read_ok_fn(*old(mem)),
                arch,
                dtb.0,
                addr.0,
                len.0 as nat,
            ) {
                Option::Some(b) => r is Ok && (vstd::utf8::valid_utf8(cstr_of(b))
                    ==> r.unwrap()@ == vstd::utf8::decode_utf8(cstr_of(b))),
                Option::None => r is Err,
            }
        }),
{
    let mut buf: Vec<u8> = vec![0u8; len.0 as usize];
    match virt_read_raw_into(mem, arch, dtb, addr, &mut buf) {
        Result::Err(e) => Err(e),
        Result::Ok(()) => {
            let prefix = cstr_prefix(&buf);
            Ok(bytes_to_string_lossy(&prefix))
        },
    }
}

/// The bytes of `b` before its first NUL, as a fresh vector.
pub fn cstr_prefix(b: &Vec<u8>) -> (r: Vec<u8>)
    ensures
        r@ == cstr_of(b@),
{
    let mut n: usize = 0;
    let mut found = false;
    let total = b.len();
    while !found && n < total
        invariant
            n <= total,
            total == b@.len(),
            forall|j: int| 0 <= j < n ==> b@[j] != 0,
            found ==> n < total && b@[n as int] == 0,
        decreases total - n + (if found {
            0int
        } else {
            1int
        }),
    {
        if b[n] == 0 {
            found = true;
        } else {
            n = n + 1;
        }
    }
    proof {
        lemma_first_nul(b@, n as int);
    }
    let mut prefix: Vec<u8> = Vec::new();
    let mut k: usize = 0;
    while k < n
        invariant
            k <= n,
            n <= b@.len(),
            prefix@.len() == k,
            forall|j: int| 0 <= j < k ==> prefix@[j] == b@[j],
        decreases n - k,
    {
        let x = b[k];
        prefix.push(x);
        k = k + 1;
    }
    proof {
        assert(prefix@ =~= cstr_of(b@));
    }
    prefix
}

/// Translation only queries positive-length reads, so two read-success
/// predicates that agree on those yield the same translation.
pub proof fn lemma_vtop_agree(
    bytes: Seq<u8>,
    ok1: spec_fn(PhysicalAddress, nat) -> bool,
    ok2: spec_fn(PhysicalAddress, nat) -> bool,
    arch: Architecture,
    dtb: u64,
    va: u64,
)
    requires
        forall|a: PhysicalAddress, l: nat| l > 0 ==> #[trigger] ok1(a, l) == #[trigger] ok2(a, l),
    ensures
        vtop_spec(bytes, ok1, arch, dtb, va) == vtop_spec(bytes, ok2, arch, dtb, va),
{
    reveal(crate::arch::vtop_x86);
    reveal(crate::arch::vtop_x86_pae);
    reveal(crate::arch::vtop_x64);
}

/// A chunked virtual read only queries positive-length reads, so two
/// read-success predicates that agree on those yield the same bytes.
pub proof fn lemma_virt_read_agree(
    bytes: Seq<u8>,
    ok1: spec_fn(PhysicalAddress, nat) -> bool,
    ok2: spec_fn(PhysicalAddress, nat) -> bool,
    arch: Architecture,
    dtb: u64,
    va: u64,
    len: nat,
)
    requires
        forall|a: PhysicalAddress, l: nat| l > 0 ==> #[trigger] ok1(a, l) == #[trigger] ok2(a, l),
    ensures
        virt_read_spec(bytes, ok1, arch, dtb, va, len) == virt_read_spec(
            bytes,
            ok2,
            arch,
            dtb,
            va,
            len,
        ),
    decreases len,
{
    if len != 0 {
        lemma_vtop_agree(bytes, ok1, ok2, arch, dtb, va);
        let cl = chunk_len(va, len);
        lemma_virt_read_agree(bytes, ok1, ok2, arch, dtb, (va + cl) as u64, (len - cl) as nat);
    }
}

/// Cache transparency over whole virtual reads: against a backing buffer
/// a whole number of 4 KiB pages long, a virtual read through the caching
/// layer returns exactly the bytes it returns straight from the backing
/// memory, whatever the cache's page size (any divisor of 4 KiB).
pub proof fn lemma_virt_read_cache_transparent(
    c: CachedMemoryAccess<BufferMemory>,
    arch: Architecture,
    dtb: u64,
    va: u64,
    len: nat,
)
    requires
        c.inv(),
        c.mem.mem().len() % 0x1000 == 0,
        0x1000int % c.cache.page_size.0 as int == 0,
    ensures
        virt_read_spec(c.mem(), read_ok_fn(c), arch, dtb, va, len) == virt_read_spec(
            c.mem.mem(),
            read_ok_fn(c.mem),
            arch,
            dtb,
            va,
            len,
        ),
{
    lemma_cached_buffer_read_ok(c);
    assert forall|a: PhysicalAddress, l: nat| l > 0 implies #[trigger] read_ok_fn(c)(a, l)
        == #[trigger] read_ok_fn(c.mem)(a, l) by {
        assert(c.read_ok(a, l) == (a.address.0 + l <= c.mem.mem().len()));
    }
    lemma_virt_read_agree(
        c.mem.mem(),
        read_ok_fn(c),
        read_ok_fn(c.mem),
        arch,
        dtb,
        va,
        len,
    );
}

} // verus!
