//! Architecture descriptors and the page-table walker: translation of
//! guest-virtual to guest-physical addresses by reading the target's own
//! page tables through a physical-memory accessor.

use vstd::prelude::*;

use crate::mem::AccessPhysicalMemory;
use crate::types::{Address, Error, Length, Page, PageType, PhysicalAddress};

verus! {

/// The paging layouts the walker understands: 32-bit two-level, PAE
/// three-level, and 64-bit four-level with 2 MiB and 1 GiB large pages.
#[derive(Clone, Copy, Debug, PartialEq, Eq, Structural)]
pub enum Architecture {
    X86,
    X86Pae,
    X64,
}

/// The outcome of one translation attempt: a physical address with its
/// page descriptor, a missing present bit, or a failed page-table read.
pub enum Translation {
    Mapped(PhysicalAddress),
    NotPresent,
    Fault,
}

/// The read-success predicate of `t`, frozen as a function value so that
/// specifications stay meaningful while `t` itself evolves.
pub open spec fn read_ok_fn<T: AccessPhysicalMemory>(t: T) -> spec_fn(PhysicalAddress, nat) -> bool {
    |a: PhysicalAddress, l: nat| t.read_ok(a, l)
}

/// The write-success predicate of `t`, frozen as a function value.
pub open spec fn write_ok_fn<T: AccessPhysicalMemory>(t: T) -> spec_fn(
    PhysicalAddress,
    nat,
) -> bool {
    |a: PhysicalAddress, l: nat| t.write_ok(a, l)
}

/// The little-endian value of four bytes.
pub open spec fn le32(b: Seq<u8>) -> int {
    b[0] + b[1] * 0x100 + b[2] * 0x10000 + b[3] * 0x1000000
}

/// The little-endian value of eight bytes.
pub open spec fn le64(b: Seq<u8>) -> int {
    b[0] + b[1] * 0x100 + b[2] * 0x10000 + b[3] * 0x1000000 + b[4] * 0x100000000 + b[5]
        * 0x10000000000 + b[6] * 0x1000000000000 + b[7] * 0x100000000000000
}

/// The physical address a page-table entry is read at: tagged with a
/// page-table page hint so a cache beneath may choose to cache it.
pub open spec fn spec_table_entry_phys(a: u64) -> PhysicalAddress {
    PhysicalAddress {
        address: Address(a),
        page: Some(
            Page {
                page_type: PageType::PageTable,
                page_base: Address((a - a % 0x1000) as u64),
                page_size: Length(0x1000),
            },
        ),
    }
}

/// A four-byte table-entry read: the value if the read succeeds, `None` if
/// it would fail.
pub open spec fn spec_read32(bytes: Seq<u8>, ok: spec_fn(PhysicalAddress, nat) -> bool, a: int) -> Option<
    int,
> {
    if 0 <= a && a + 4 <= u64::MAX && ok(spec_table_entry_phys(a as u64), 4) {
        Some(le32(bytes.subrange(a, a + 4)))
    } else {
        None
    }
}

/// An eight-byte table-entry read.
pub open spec fn spec_read64(bytes: Seq<u8>, ok: spec_fn(PhysicalAddress, nat) -> bool, a: int) -> Option<
    int,
> {
    if 0 <= a && a + 8 <= u64::MAX && ok(spec_table_entry_phys(a as u64), 8) {
        Some(le64(bytes.subrange(a, a + 8)))
    } else {
        None
    }
}

/// Bits 12..51 of a 64-bit entry: the 4 KiB-aligned frame it points at.
pub open spec fn frame52(e: int) -> int {
    ((e / 0x1000) % 0x10000000000) * 0x1000
}

/// Bits 21..51 of a 64-bit entry: the 2 MiB-aligned frame of a large page.
pub open spec fn frame2m(e: int) -> int {
    ((e / 0x200000) % 0x80000000) * 0x200000
}

/// Bits 30..51 of a 64-bit entry: the 1 GiB-aligned frame of a huge page.
pub open spec fn frame1g(e: int) -> int {
    ((e / 0x40000000) % 0x400000) * 0x40000000
}

/// Whether the present bit (bit 0) of an entry is set.
pub open spec fn entry_present(e: int) -> bool {
    e % 2 == 1
}

/// Whether the large-page bit (bit 7) of an entry is set.
pub open spec fn entry_large(e: int) -> bool {
    (e / 0x80) % 2 == 1
}

/// The translated address for a leaf frame: the frame plus the virtual
/// offset within a page of `size` bytes, described by a `Page` of that size.
pub open spec fn spec_mapped(frame: int, va: u64, size: int) -> PhysicalAddress {
    PhysicalAddress {
        address: Address((frame + (va as int % size)) as u64),
        page: Some(
            Page {
                page_type: PageType::Page,
                page_base: Address(frame as u64),
                page_size: Length(size as u64),
            },
        ),
    }
}

/// The 32-bit non-PAE walk: page directory, then page table, 4 KiB leaves.
#[verifier::opaque]
pub open spec fn vtop_x86(
    bytes: Seq<u8>,
    ok: spec_fn(PhysicalAddress, nat) -> bool,
    dtb: u64,
    va: u64,
) -> Translation {
    let pde_a = dtb + 4 * ((va as int / 0x400000) % 0x400);
    match spec_read32(bytes, ok, pde_a) {
        Option::None => Translation::Fault,
        Option::Some(pde) => if !entry_present(pde) {
            Translation::NotPresent
        } else {
            let pte_a = (pde - pde % 0x1000) + 4 * ((va as int / 0x1000) % 0x400);
            match spec_read32(bytes, ok, pte_a) {
                Option::None => Translation::Fault,
                Option::Some(pte) => if !entry_present(pte) {
                    Translation::NotPresent
                } else {
                    Translation::Mapped(spec_mapped(pte - pte % 0x1000, va, 0x1000))
                },
            }
        },
    }
}

/// The PAE walk: directory pointer table, directory, table, 4 KiB leaves.
#[verifier::opaque]
pub open spec fn vtop_x86_pae(
    bytes: Seq<u8>,
    ok: spec_fn(PhysicalAddress, nat) -> bool,
    dtb: u64,
    va: u64,
) -> Translation {
    let e1_a = dtb + 8 * ((va as int / 0x40000000) % 4);
    match spec_read64(bytes, ok, e1_a) {
        Option::None => Translation::Fault,
        Option::Some(e1) => if !entry_present(e1) {
            Translation::NotPresent
        } else {
            let e2_a = frame52(e1) + 8 * ((va as int / 0x200000) % 0x200);
            match spec_read64(bytes, ok, e2_a) {
                Option::None => Translation::Fault,
                Option::Some(e2) => if !entry_present(e2) {
                    Translation::NotPresent
                } else {
                    let e3_a = frame52(e2) + 8 * ((va as int / 0x1000) % 0x200);
                    match spec_read64(bytes, ok, e3_a) {
                        Option::None => Translation::Fault,
                        Option::Some(e3) => if !entry_present(e3) {
                            Translation::NotPresent
                        } else {
                            Translation::Mapped(spec_mapped(frame52(e3), va, 0x1000))
                        },
                    }
                },
            }
        },
    }
}

/// The 64-bit four-level walk with large-page bits tested at the
/// directory-pointer (1 GiB) and directory (2 MiB) levels.
#[verifier::opaque]
pub open spec fn vtop_x64(
    bytes: Seq<u8>,
    ok: spec_fn(PhysicalAddress, nat) -> bool,
    dtb: u64,
    va: u64,
) -> Translation {
    let e1_a = dtb + 8 * ((va as int / 0x8000000000) % 0x200);
    match spec_read64(bytes, ok, e1_a) {
        Option::None => Translation::Fault,
        Option::Some(e1) => if !entry_present(e1) {
            Translation::NotPresent
        } else {
            let e2_a = frame52(e1) + 8 * ((va as int / 0x40000000) % 0x200);
            match spec_read64(bytes, ok, e2_a) {
                Option::None => Translation::Fault,
                Option::Some(e2) => if !entry_present(e2) {
                    Translation::NotPresent
                } else if entry_large(e2) {
                    Translation::Mapped(spec_mapped(frame1g(e2), va, 0x40000000))
                } else {
                    let e3_a = frame52(e2) + 8 * ((va as int / 0x200000) % 0x200);
                    match spec_read64(bytes, ok, e3_a) {
                        Option::None => Translation::Fault,
                        Option::Some(e3) => if !entry_present(e3) {
                            Translation::NotPresent
                        } else if entry_large(e3) {
                            Translation::Mapped(spec_mapped(frame2m(e3), va, 0x200000))
                        } else {
                            let e4_a = frame52(e3) + 8 * ((va as int / 0x1000) % 0x200);
                            match spec_read64(bytes, ok, e4_a) {
                                Option::None => Translation::Fault,
                                Option::Some(e4) => if !entry_present(e4) {
                                    Translation::NotPresent
                                } else {
                                    Translation::Mapped(spec_mapped(frame52(e4), va, 0x1000))
                                },
                            }
                        },
                    }
                },
            }
        },
    }
}

/// Translation under architecture `arch`.
pub open spec fn vtop_spec(
    bytes: Seq<u8>,
    ok: spec_fn(PhysicalAddress, nat) -> bool,
    arch: Architecture,
    dtb: u64,
    va: u64,
) -> Translation {
    match arch {
        Architecture::X86 => vtop_x86(bytes, ok, dtb, va),
        Architecture::X86Pae => vtop_x86_pae(bytes, ok, dtb, va),
        Architecture::X64 => vtop_x64(bytes, ok, dtb, va),
    }
}

/// A mapped translation stays clear of the top of the address space (so
/// that reads of up to one 4 KiB page at it cannot wrap) and always
/// carries a page descriptor.
#[verifier::rlimit(100)]
pub proof fn lemma_vtop_mapped_bounds(
    bytes: Seq<u8>,
    ok: spec_fn(PhysicalAddress, nat) -> bool,
    arch: Architecture,
    dtb: u64,
    va: u64,
)
    ensures
        match vtop_spec(bytes, ok, arch, dtb, va) {
            Translation::Mapped(pa) => pa.address.0 + 0x1000 <= u64::MAX && pa.page is Some,
            _ => true,
        },
{
    reveal(vtop_x86);
    reveal(vtop_x86_pae);
    reveal(vtop_x64);
    lemma_frame_bounds();
    vstd::arithmetic::div_mod::lemma_mod_bound(va as int, 0x1000);
    vstd::arithmetic::div_mod::lemma_mod_bound(va as int, 0x200000);
    vstd::arithmetic::div_mod::lemma_mod_bound(va as int, 0x40000000);
}

/// The frame extractors stay below 2^52, so every frame-plus-offset sum
/// fits comfortably below the top of the 64-bit space.
proof fn lemma_frame_bounds()
    ensures
        forall|e: int| 0 <= #[trigger] frame52(e) <= 0xFFFFFFFFFF000,
        forall|e: int| 0 <= #[trigger] frame2m(e) <= 0xFFFFFFFE00000,
        forall|e: int| 0 <= #[trigger] frame1g(e) <= 0xFFFFFC0000000,
{
    assert forall|e: int| 0 <= #[trigger] frame52(e) <= 0xFFFFFFFFFF000 by {
        vstd::arithmetic::div_mod::lemma_mod_bound(e / 0x1000, 0x10000000000);
        vstd::arithmetic::mul::lemma_mul_inequality((e / 0x1000) % 0x10000000000, 0xFFFFFFFFFF, 0x1000);
        vstd::arithmetic::mul::lemma_mul_nonnegative((e / 0x1000) % 0x10000000000, 0x1000);
    }
    assert forall|e: int| 0 <= #[trigger] frame2m(e) <= 0xFFFFFFFE00000 by {
        vstd::arithmetic::div_mod::lemma_mod_bound(e / 0x200000, 0x80000000);
        vstd::arithmetic::mul::lemma_mul_inequality((e / 0x200000) % 0x80000000, 0x7FFFFFFF, 0x200000);
        vstd::arithmetic::mul::lemma_mul_nonnegative((e / 0x200000) % 0x80000000, 0x200000);
    }
    assert forall|e: int| 0 <= #[trigger] frame1g(e) <= 0xFFFFFC0000000 by {
        vstd::arithmetic::div_mod::lemma_mod_bound(e / 0x40000000, 0x400000);
        vstd::arithmetic::mul::lemma_mul_inequality((e / 0x40000000) % 0x400000, 0x3FFFFF, 0x40000000);
        vstd::arithmetic::mul::lemma_mul_nonnegative((e / 0x40000000) % 0x400000, 0x40000000);
    }
}

/// Read and decode a four-byte page-table entry at physical address `a`.
#[verifier::loop_isolation(false)]
fn read_entry32<T: AccessPhysicalMemory>(mem: &mut T, a: u64) -> (r: Result<u64, Error>)
    requires
        old(mem).inv(),
        a + 4 <= u64::MAX,
    ensures
        final(mem).inv(),
        final(mem).mem() == old(mem).mem(),
        forall|x: PhysicalAddress, l: nat|
            #[trigger] final(mem).read_ok(x, l) == old(mem).read_ok(x, l),
        forall|x: PhysicalAddress, l: nat|
            #[trigger] final(mem).write_ok(x, l) == old(mem).write_ok(x, l),
        ({
            match spec_read32(old(mem).mem(), read_ok_fn(*old(mem)), a as int) {
                Option::Some(v) => r == Ok::<u64, Error>(v as u64) && 0 <= v <= 0xFFFFFFFF,
                Option::None => r == Err::<u64, Error>(Error::PageTableReadFailed),
            }
        }),
{
    proof {
        crate::types::lemma_align_down(a as int, 0x1000);
    }
    let pa = PhysicalAddress {
        address: Address(a),
        page: Some(
            Page {
                page_type: PageType::PageTable,
                page_base: Address(a - a % 0x1000),
                page_size: Length(0x1000),
            },
        ),
    };
    let mut buf: Vec<u8> = vec![0u8; 4];
    match mem.phys_read_raw_into(pa, &mut buf) {
        Result::Err(_) => Err(Error::PageTableReadFailed),
        Result::Ok(()) => {
            let v = (buf[0] as u64) + (buf[1] as u64) * 0x100 + (buf[2] as u64) * 0x10000 + (
            buf[3] as u64) * 0x1000000;
            proof {
                assert(buf@ == old(mem).mem().subrange(a as int, a as int + 4));
                assert(v == le32(old(mem).mem().subrange(a as int, a as int + 4)));
            }
            Ok(v)
        },
    }
}

/// Read and decode an eight-byte page-table entry at physical address `a`.
#[verifier::loop_isolation(false)]
fn read_entry64<T: AccessPhysicalMemory>(mem: &mut T, a: u64) -> (r: Result<u64, Error>)
    requires
        old(mem).inv(),
        a + 8 <= u64::MAX,
    ensures
        final(mem).inv(),
        final(mem).mem() == old(mem).mem(),
        forall|x: PhysicalAddress, l: nat|
            #[trigger] final(mem).read_ok(x, l) == old(mem).read_ok(x, l),
        forall|x: PhysicalAddress, l: nat|
            #[trigger] final(mem).write_ok(x, l) == old(mem).write_ok(x, l),
        ({
            match spec_read64(old(mem).mem(), read_ok_fn(*old(mem)), a as int) {
                Option::Some(v) => r == Ok::<u64, Error>(v as u64) && 0 <= v <= u64::MAX,
                Option::None => r == Err::<u64, Error>(Error::PageTableReadFailed),
            }
        }),
{
    proof {
        crate::types::lemma_align_down(a as int, 0x1000);
    }
    let pa = PhysicalAddress {
        address: Address(a),
        page: Some(
            Page {
                page_type: PageType::PageTable,
                page_base: Address(a - a % 0x1000),
                page_size: Length(0x1000),
            },
        ),
    };
    let mut buf: Vec<u8> = vec![0u8; 8];
    match mem.phys_read_raw_into(pa, &mut buf) {
        Result::Err(_) => Err(Error::PageTableReadFailed),
        Result::Ok(()) => {
            let v = (buf[0] as u64) + (buf[1] as u64) * 0x100 + (buf[2] as u64) * 0x10000 + (
            buf[3] as u64) * 0x1000000 + (buf[4] as u64) * 0x100000000 + (buf[5] as u64)
                * 0x10000000000 + (buf[6] as u64) * 0x1000000000000 + (buf[7] as u64)
                * 0x100000000000000;
            proof {
                assert(buf@ == old(mem).mem().subrange(a as int, a as int + 8));
                assert(v == le64(old(mem).mem().subrange(a as int, a as int + 8)));
            }
            Ok(v)
        },
    }
}

/// Bits 12..51 of an entry, as the executable counterpart of `frame52`.
fn frame52_exec(e: u64) -> (r: u64)
    ensures
        r == frame52(e as int),
        r <= 0xFFFFFFFFFF000,
{
    proof {
        lemma_frame_bounds();
    }
    ((e / 0x1000) % 0x10000000000) * 0x1000
}

impl Architecture {
    /// The architectural page size: 4 KiB on all three layouts.
    pub fn page_size(&self) -> (r: Length)
        ensures
            r.0 == 0x1000,
    {
        Length(0x1000)
    }

    /// The width in bytes of a virtual-address-sized pointer in the target.
    pub fn pointer_width(&self) -> (r: u64)
        ensures
            r == self.spec_pointer_width(),
    {
        match self {
            Architecture::X86 => 4,
            Architecture::X86Pae => 4,
            Architecture::X64 => 8,
        }
    }

    /// Specification of `pointer_width`.
    pub open spec fn spec_pointer_width(&self) -> u64 {
        match self {
            Architecture::X86 => 4,
            Architecture::X86Pae => 4,
            Architecture::X64 => 8,
        }
    }

    /// Walk the page tables rooted at `dtb` to translate `vaddr`. Pure with
    /// respect to the target state: it only reads, and its outcome is
    /// exactly `vtop_spec` over the memory model.
    pub fn virt_to_phys<T: AccessPhysicalMemory>(
        &self,
        mem: &mut T,
        dtb: Address,
        vaddr: Address,
    ) -> (r: Result<PhysicalAddress, Error>)
        requires
            old(mem).inv(),
            dtb.0 + 0x1000 <= u64::MAX,
        ensures
            final(mem).inv(),
            final(mem).mem() == old(mem).mem(),
            forall|x: PhysicalAddress, l: nat|
                #[trigger] final(mem).read_ok(x, l) == old(mem).read_ok(x, l),
            forall|x: PhysicalAddress, l: nat|
                #[trigger] final(mem).write_ok(x, l) == old(mem).write_ok(x, l),
            ({
                match vtop_spec(old(mem).mem(), read_ok_fn(*old(mem)), *self, dtb.0, vaddr.0) {
                    Translation::Mapped(pa) => r == Ok::<PhysicalAddress, Error>(pa),
                    Translation::NotPresent => r == Err::<PhysicalAddress, Error>(
                        Error::PageNotPresent,
                    ),
                    Translation::Fault => r == Err::<PhysicalAddress, Error>(
                        Error::PageTableReadFailed,
                    ),
                }
            }),
    {
        match self {
            Architecture::X86 => Self::vtop_x86_exec(mem, dtb.0, vaddr.0),
            Architecture::X86Pae => Self::vtop_x86_pae_exec(mem, dtb.0, vaddr.0),
            Architecture::X64 => Self::vtop_x64_exec(mem, dtb.0, vaddr.0),
        }
    }

    fn vtop_x86_exec<T: AccessPhysicalMemory>(mem: &mut T, dtb: u64, va: u64) -> (r: Result<
        PhysicalAddress,
        Error,
    >)
        requires
            old(mem).inv(),
            dtb + 0x1000 <= u64::MAX,
        ensures
            final(mem).inv(),
            final(mem).mem() == old(mem).mem(),
            forall|x: PhysicalAddress, l: nat|
                #[trigger] final(mem).read_ok(x, l) == old(mem).read_ok(x, l),
            forall|x: PhysicalAddress, l: nat|
                #[trigger] final(mem).write_ok(x, l) == old(mem).write_ok(x, l),
            ({
                match vtop_x86(old(mem).mem(), read_ok_fn(*old(mem)), dtb, va) {
                    Translation::Mapped(pa) => r == Ok::<PhysicalAddress, Error>(pa),
                    Translation::NotPresent => r == Err::<PhysicalAddress, Error>(
                        Error::PageNotPresent,
                    ),
                    Translation::Fault => r == Err::<PhysicalAddress, Error>(
                        Error::PageTableReadFailed,
                    ),
                }
            }),
    {
        proof {
            reveal(vtop_x86);
        }
        let pde_a = dtb + 4 * ((va / 0x400000) % 0x400);
        let pde = match read_entry32(mem, pde_a) {
            Result::Ok(v) => v,
            Result::Err(e) => {
                return Err(e);
            },
        };
        if pde % 2 == 0 {
            return Err(Error::PageNotPresent);
        }
        let pte_a = (pde - pde % 0x1000) + 4 * ((va / 0x1000) % 0x400);
        let pte = match read_entry32(mem, pte_a) {
            Result::Ok(v) => v,
            Result::Err(e) => {
                return Err(e);
            },
        };
        if pte % 2 == 0 {
            return Err(Error::PageNotPresent);
        }
        let frame = pte - pte % 0x1000;
        Ok(
            PhysicalAddress {
                address: Address(frame + va % 0x1000),
                page: Some(
                    Page {
                        page_type: PageType::Page,
                        page_base: Address(frame),
                        page_size: Length(0x1000),
                    },
                ),
            },
        )
    }

    fn vtop_x86_pae_exec<T: AccessPhysicalMemory>(mem: &mut T, dtb: u64, va: u64) -> (r: Result<
        PhysicalAddress,
        Error,
    >)
        requires
            old(mem).inv(),
            dtb + 0x1000 <= u64::MAX,
        ensures
            final(mem).inv(),
            final(mem).mem() == old(mem).mem(),
            forall|x: PhysicalAddress, l: nat|
                #[trigger] final(mem).read_ok(x, l) == old(mem).read_ok(x, l),
            forall|x: PhysicalAddress, l: nat|
                #[trigger] final(mem).write_ok(x, l) == old(mem).write_ok(x, l),
            ({
                match vtop_x86_pae(old(mem).mem(), read_ok_fn(*old(mem)), dtb, va) {
                    Translation::Mapped(pa) => r == Ok::<PhysicalAddress, Error>(pa),
                    Translation::NotPresent => r == Err::<PhysicalAddress, Error>(
                        Error::PageNotPresent,
                    ),
                    Translation::Fault => r == Err::<PhysicalAddress, Error>(
                        Error::PageTableReadFailed,
                    ),
                }
            }),
    {
        proof {
            reveal(vtop_x86_pae);
        }
        let e1_a = dtb + 8 * ((va / 0x40000000) % 4);
        let e1 = match read_entry64(mem, e1_a) {
            Result::Ok(v) => v,
            Result::Err(e) => {
                return Err(e);
            },
        };
        if e1 % 2 == 0 {
            return Err(Error::PageNotPresent);
        }
        let e2_a = frame52_exec(e1) + 8 * ((va / 0x200000) % 0x200);
        let e2 = match read_entry64(mem, e2_a) {
            Result::Ok(v) => v,
            Result::Err(e) => {
                return Err(e);
            },
        };
        if e2 % 2 == 0 {
            return Err(Error::PageNotPresent);
        }
        let e3_a = frame52_exec(e2) + 8 * ((va / 0x1000) % 0x200);
        let e3 = match read_entry64(mem, e3_a) {
            Result::Ok(v) => v,
            Result::Err(e) => {
                return Err(e);
            },
        };
        if e3 % 2 == 0 {
            return Err(Error::PageNotPresent);
        }
        let frame = frame52_exec(e3);
        Ok(
            PhysicalAddress {
                address: Address(frame + va % 0x1000),
                page: Some(
                    Page {
                        page_type: PageType::Page,
                        page_base: Address(frame),
                        page_size: Length(0x1000),
                    },
                ),
            },
        )
    }

    fn vtop_x64_exec<T: AccessPhysicalMemory>(mem: &mut T, dtb: u64, va: u64) -> (r: Result<
        PhysicalAddress,
        Error,
    >)
        requires
            old(mem).inv(),
            dtb + 0x1000 <= u64::MAX,
        ensures
            final(mem).inv(),
            final(mem).mem() == old(mem).mem(),
            forall|x: PhysicalAddress, l: nat|
                #[trigger] final(mem).read_ok(x, l) == old(mem).read_ok(x, l),
            forall|x: PhysicalAddress, l: nat|
                #[trigger] final(mem).write_ok(x, l) == old(mem).write_ok(x, l),
            ({
                match vtop_x64(old(mem).mem(), read_ok_fn(*old(mem)), dtb, va) {
                    Translation::Mapped(pa) => r == Ok::<PhysicalAddress, Error>(pa),
                    Translation::NotPresent => r == Err::<PhysicalAddress, Error>(
                        Error::PageNotPresent,
                    ),
                    Translation::Fault => r == Err::<PhysicalAddress, Error>(
                        Error::PageTableReadFailed,
                    ),
                }
            }),
    {
        proof {
            reveal(vtop_x64);
        }
        let e1_a = dtb + 8 * ((va / 0x8000000000) % 0x200);
        let e1 = match read_entry64(mem, e1_a) {
            Result::Ok(v) => v,
            Result::Err(e) => {
                return Err(e);
            },
        };
        if e1 % 2 == 0 {
            return Err(Error::PageNotPresent);
        }
        let e2_a = frame52_exec(e1) + 8 * ((va / 0x40000000) % 0x200);
        let e2 = match read_entry64(mem, e2_a) {
            Result::Ok(v) => v,
            Result::Err(e) => {
                return Err(e);
            },
        };
        if e2 % 2 == 0 {
            return Err(Error::PageNotPresent);
        }
        if (e2 / 0x80) % 2 == 1 {
            proof {
                lemma_frame_bounds();
                vstd::arithmetic::div_mod::lemma_mod_bound(va as int, 0x40000000);
            }
            let frame = ((e2 / 0x40000000) % 0x400000) * 0x40000000;
            return Ok(
                PhysicalAddress {
                    address: Address(frame + va % 0x40000000),
                    page: Some(
                        Page {
                            page_type: PageType::Page,
                            page_base: Address(frame),
                            page_size: Length(0x40000000),
                        },
                    ),
                },
            );
        }
        let e3_a = frame52_exec(e2) + 8 * ((va / 0x200000) % 0x200);
        let e3 = match read_entry64(mem, e3_a) {
            Result::Ok(v) => v,
            Result::Err(e) => {
                return Err(e);
            },
        };
        if e3 % 2 == 0 {
            return Err(Error::PageNotPresent);
        }
        if (e3 / 0x80) % 2 == 1 {
            proof {
                lemma_frame_bounds();
                vstd::arithmetic::div_mod::lemma_mod_bound(va as int, 0x200000);
            }
            let frame = ((e3 / 0x200000) % 0x80000000) * 0x200000;
            return Ok(
                PhysicalAddress {
                    address: Address(frame + va % 0x200000),
                    page: Some(
                        Page {
                            page_type: PageType::Page,
                            page_base: Address(frame),
                            page_size: Length(0x200000),
                        },
                    ),
                },
            );
        }
        let e4_a = frame52_exec(e3) + 8 * ((va / 0x1000) % 0x200);
        let e4 = match read_entry64(mem, e4_a) {
            Result::Ok(v) => v,
            Result::Err(e) => {
                return Err(e);
            },
        };
        if e4 % 2 == 0 {
            return Err(Error::PageNotPresent);
        }
        let frame = frame52_exec(e4);
        Ok(
            PhysicalAddress {
                address: Address(frame + va % 0x1000),
                page: Some(
                    Page {
                        page_type: PageType::Page,
                        page_base: Address(frame),
                        page_size: Length(0x1000),
                    },
                ),
            },
        )
    }
}

} // verus!
