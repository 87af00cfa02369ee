use memflow::arch::Architecture;
use memflow::cache::{CachedMemoryAccess, PageCache};
use memflow::mem::BufferMemory;
use memflow::types::{Address, Error, Length};
use memflow::vat;

fn put_u32(mem: &mut Vec<u8>, at: usize, v: u32) {
    let b = v.to_le_bytes();
    mem[at..at + 4].copy_from_slice(&b);
}

fn put_u64(mem: &mut Vec<u8>, at: usize, v: u64) {
    let b = v.to_le_bytes();
    mem[at..at + 8].copy_from_slice(&b);
}

/// An x64 target: dtb at 0x1000, virt 0x10000 -> phys 0xA000 (0x11s),
/// virt 0x11000 unmapped, virt 0x12000 -> phys 0xB000 (0x22s).
fn x64_target() -> Vec<u8> {
    let mut m = vec![0u8; 0xC000];
    put_u64(&mut m, 0x1000, 0x2000 | 1); // PML4[0]
    put_u64(&mut m, 0x2000, 0x3000 | 1); // PDPT[0]
    put_u64(&mut m, 0x3000, 0x4000 | 1); // PD[0]
    put_u64(&mut m, 0x4000 + 8 * 0x10, 0xA000 | 1); // PT[0x10] -> 0xA000
    put_u64(&mut m, 0x4000 + 8 * 0x12, 0xB000 | 1); // PT[0x12] -> 0xB000
    for b in m[0xA000..0xB000].iter_mut() {
        *b = 0x11;
    }
    for b in m[0xB000..0xC000].iter_mut() {
        *b = 0x22;
    }
    m
}

#[test]
fn x86_two_level_translation() {
    let mut m = vec![0u8; 0x8000];
    put_u32(&mut m, 0x1000 + 4 * 0x001, 0x2000 | 1); // PDE for virt 0x403000
    put_u32(&mut m, 0x2000 + 4 * 0x003, 0x7000 | 1); // PTE
    let mut mem = BufferMemory::with_contents(m);
    let pa = Architecture::X86
        .virt_to_phys(&mut mem, Address(0x1000), Address(0x403000))
        .unwrap();
    assert_eq!(pa.address.0, 0x7000);
    let page = pa.page.unwrap();
    assert_eq!(page.page_base.0, 0x7000);
    assert_eq!(page.page_size.0, 0x1000);
}

#[test]
fn x86_pae_three_level_translation() {
    let mut m = vec![0u8; 0x8000];
    put_u64(&mut m, 0x1000, 0x2000 | 1); // PDPTE[0]
    put_u64(&mut m, 0x2000 + 8 * 2, 0x3000 | 1); // PDE for virt 0x400000
    put_u64(&mut m, 0x3000 + 8 * 5, 0x6000 | 1); // PTE for virt 0x405000
    let mut mem = BufferMemory::with_contents(m);
    let pa = Architecture::X86Pae
        .virt_to_phys(&mut mem, Address(0x1000), Address(0x405123))
        .unwrap();
    assert_eq!(pa.address.0, 0x6123);
}

#[test]
fn x64_large_page_translation() {
    let mut m = vec![0u8; 0x8000];
    put_u64(&mut m, 0x1000, 0x2000 | 1); // PML4[0]
    put_u64(&mut m, 0x2000, 0x3000 | 1); // PDPT[0]
    put_u64(&mut m, 0x3000 + 8, 0x600000 | 0x80 | 1); // PD[1]: 2 MiB page at 0x600000
    let mut mem = BufferMemory::with_contents(m);
    // virt 0x200000 + 0x1234 lies in PD entry 1
    let pa = Architecture::X64
        .virt_to_phys(&mut mem, Address(0x1000), Address(0x201234))
        .unwrap();
    assert_eq!(pa.address.0, 0x601234);
    let page = pa.page.unwrap();
    assert_eq!(page.page_base.0, 0x600000);
    assert_eq!(page.page_size.0, 0x200000);
}

#[test]
fn translation_not_present() {
    let m = vec![0u8; 0x4000];
    let mut mem = BufferMemory::with_contents(m);
    let r = Architecture::X86.virt_to_phys(&mut mem, Address(0x1000), Address(0x403000));
    assert_eq!(r.unwrap_err(), Error::PageNotPresent);
}

#[test]
fn translation_table_read_fault() {
    // dtb points past the end of physical memory
    let m = vec![0u8; 0x1000];
    let mut mem = BufferMemory::with_contents(m);
    let r = Architecture::X86.virt_to_phys(&mut mem, Address(0x2000), Address(0));
    assert_eq!(r.unwrap_err(), Error::PageTableReadFailed);
}

#[test]
fn multi_page_virtual_read_crosses_unmapped_hole() {
    let mut mem = BufferMemory::with_contents(x64_target());
    let mut out = vec![0xEEu8; 8200];
    vat::virt_read_raw_into(
        &mut mem,
        Architecture::X64,
        Address(0x1000),
        Address(0x10FF8),
        &mut out,
    )
    .unwrap();
    assert!(out[..8].iter().all(|b| *b == 0x11));
    assert!(out[8..8 + 4096].iter().all(|b| *b == 0x00));
    assert!(out[8 + 4096..].iter().all(|b| *b == 0x22));
}

#[test]
fn virtual_read_zero_fills_when_everything_is_unmapped() {
    let mut m = vec![0u8; 0x4000];
    put_u64(&mut m, 0x1000, 0x2000 | 1); // PML4[0] present but PDPT empty
    let mut mem = BufferMemory::with_contents(m);
    let mut out = vec![0xAAu8; 5000];
    vat::virt_read_raw_into(
        &mut mem,
        Architecture::X64,
        Address(0x1000),
        Address(0x12345),
        &mut out,
    )
    .unwrap();
    assert!(out.iter().all(|b| *b == 0));
}

#[test]
fn virtual_read_does_not_depend_on_cache_page_size() {
    let mut out_small = vec![0u8; 8200];
    let mut out_large = vec![0u8; 8200];
    {
        let mem = BufferMemory::with_contents(x64_target());
        let mut stack = CachedMemoryAccess::with(mem, PageCache::new(Length(1024), 8));
        vat::virt_read_raw_into(
            &mut stack,
            Architecture::X64,
            Address(0x1000),
            Address(0x10FF8),
            &mut out_small,
        )
        .unwrap();
    }
    {
        let mem = BufferMemory::with_contents(x64_target());
        let mut stack = CachedMemoryAccess::with(mem, PageCache::new(Length(4096), 8));
        vat::virt_read_raw_into(
            &mut stack,
            Architecture::X64,
            Address(0x1000),
            Address(0x10FF8),
            &mut out_large,
        )
        .unwrap();
    }
    assert_eq!(out_small, out_large);
}

#[test]
fn virtual_write_skips_unmapped_chunks() {
    let mut mem = BufferMemory::with_contents(x64_target());
    let data = vec![0x55u8; 8200];
    vat::virt_write_raw(
        &mut mem,
        Architecture::X64,
        Address(0x1000),
        Address(0x10FF8),
        &data,
    )
    .unwrap();
    // the mapped head and tail were written; the hole was dropped
    let mut back = vec![0u8; 8200];
    vat::virt_read_raw_into(
        &mut mem,
        Architecture::X64,
        Address(0x1000),
        Address(0x10FF8),
        &mut back,
    )
    .unwrap();
    assert!(back[..8].iter().all(|b| *b == 0x55));
    assert!(back[8..8 + 4096].iter().all(|b| *b == 0x00));
    assert!(back[8 + 4096..].iter().all(|b| *b == 0x55));
}

#[test]
fn virt_page_info_reports_page_and_errors() {
    let mut mem = BufferMemory::with_contents(x64_target());
    let page = vat::virt_page_info(
        &mut mem,
        Architecture::X64,
        Address(0x1000),
        Address(0x10123),
    )
    .unwrap();
    assert_eq!(page.page_base.0, 0xA000);
    assert_eq!(page.page_size.0, 0x1000);

    let err = vat::virt_page_info(
        &mut mem,
        Architecture::X64,
        Address(0x1000),
        Address(0x11000),
    )
    .unwrap_err();
    assert_eq!(err, Error::PageNotPresent);
}

#[test]
fn typed_virtual_reads() {
    let mut m = x64_target();
    // place values inside the page mapped at virt 0x10000 (phys 0xA000)
    put_u64(&mut m, 0xA000, 0xDEAD_BEEF_CAFE_F00D);
    put_u32(&mut m, 0xA008, 0xFFFF_FFFF); // -1 as i32
    m[0xA010..0xA018].copy_from_slice(b"svc.exe\0");
    let mut mem = BufferMemory::with_contents(m);
    let a = vat::virt_read_addr(&mut mem, Architecture::X64, Address(0x1000), Address(0x10000))
        .unwrap();
    assert_eq!(a.0, 0xDEAD_BEEF_CAFE_F00D);
    let v = vat::virt_read_i32(&mut mem, Architecture::X64, Address(0x1000), Address(0x10008))
        .unwrap();
    assert_eq!(v, -1);
    let s = vat::virt_read_cstr(
        &mut mem,
        Architecture::X64,
        Address(0x1000),
        Address(0x10010),
        Length(16),
    )
    .unwrap();
    assert_eq!(s, "svc.exe");
}

#[test]
fn cached_and_direct_virtual_reads_agree() {
    let mut direct = BufferMemory::with_contents(x64_target());
    let mem = BufferMemory::with_contents(x64_target());
    let mut cached = CachedMemoryAccess::with(mem, PageCache::new(Length(4096), 4));
    for (va, len) in [(0x10000u64, 64usize), (0x10FF8, 8200), (0x12345, 100)] {
        let mut a = vec![0u8; len];
        let mut b = vec![0u8; len];
        vat::virt_read_raw_into(&mut direct, Architecture::X64, Address(0x1000), Address(va), &mut a)
            .unwrap();
        vat::virt_read_raw_into(&mut cached, Architecture::X64, Address(0x1000), Address(va), &mut b)
            .unwrap();
        assert_eq!(a, b);
    }
}

/// A target whose second virtual page translates to a physical address
/// beyond the end of memory, so its physical I/O fails.
fn x64_target_with_bad_mapping() -> Vec<u8> {
    let mut m = vec![0u8; 0xC000];
    put_u64(&mut m, 0x1000, 0x2000 | 1);
    put_u64(&mut m, 0x2000, 0x3000 | 1);
    put_u64(&mut m, 0x3000, 0x4000 | 1);
    put_u64(&mut m, 0x4000 + 8 * 0x10, 0xA000 | 1); // virt 0x10000 -> 0xA000
    put_u64(&mut m, 0x4000 + 8 * 0x11, 0x20000 | 1); // virt 0x11000 -> past the end
    for b in m[0xA000..0xB000].iter_mut() {
        *b = 0x33;
    }
    m
}

#[test]
fn failed_read_keeps_the_untouched_tail() {
    let mut mem = BufferMemory::with_contents(x64_target_with_bad_mapping());
    let mut out = vec![0xEEu8; 16];
    // 8 bytes from the good page, then a chunk whose physical read fails
    let r = vat::virt_read_raw_into(
        &mut mem,
        Architecture::X64,
        Address(0x1000),
        Address(0x10FF8),
        &mut out,
    );
    assert!(r.is_err());
    assert!(out[..8].iter().all(|b| *b == 0x33)); // prefix before the failure
    assert!(out[8..].iter().all(|b| *b == 0xEE)); // tail left untouched
}

#[test]
fn failed_write_keeps_the_prefix() {
    let mut mem = BufferMemory::with_contents(x64_target_with_bad_mapping());
    let data = vec![0x77u8; 16];
    let r = vat::virt_write_raw(
        &mut mem,
        Architecture::X64,
        Address(0x1000),
        Address(0x10FF8),
        &data,
    );
    assert!(r.is_err());
    // the chunk before the failure was written; nothing else changed
    assert!(mem.buf[0xAFF8..0xB000].iter().all(|b| *b == 0x77));
    assert!(mem.buf[0xA000..0xAFF8].iter().all(|b| *b == 0x33));
}
