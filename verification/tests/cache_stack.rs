use memflow::cache::{CachedMemoryAccess, PageCache};
use memflow::mem::{AccessPhysicalMemory, BufferMemory};
use memflow::types::{Address, Length, Page, PageType, PhysicalAddress};

fn paged(addr: u64, page_base: u64, page_size: u64) -> PhysicalAddress {
    PhysicalAddress::with_page(
        Address(addr),
        Page {
            page_type: PageType::Page,
            page_base: Address(page_base),
            page_size: Length(page_size),
        },
    )
}

fn stack_with(
    contents: Vec<u8>,
    page_size: u64,
    slots: usize,
) -> CachedMemoryAccess<BufferMemory> {
    let mem = BufferMemory::with_contents(contents);
    let cache = PageCache::new(Length(page_size), slots);
    CachedMemoryAccess::with(mem, cache)
}

#[test]
fn cached_page_hit_issues_one_backing_read() {
    let mut contents = vec![0u8; 0x2000];
    for b in contents[0x1000..0x2000].iter_mut() {
        *b = 0xAB;
    }
    let mut stack = stack_with(contents, 4096, 16);

    let mut out1 = vec![0u8; 32];
    stack
        .phys_read_raw_into(paged(0x1010, 0x1000, 4096), &mut out1)
        .unwrap();
    assert_eq!(out1, vec![0xAB; 32]);

    let mut out2 = vec![0u8; 32];
    stack
        .phys_read_raw_into(paged(0x1010, 0x1000, 4096), &mut out2)
        .unwrap();
    assert_eq!(out2, vec![0xAB; 32]);

    // the backing memory observed exactly one read: the full page at 0x1000
    assert_eq!(stack.mem.read_log().as_slice(), &[(0x1000u64, 4096usize)]);
}

#[test]
fn overlapping_write_invalidates_cached_page() {
    let mut stack = stack_with(vec![0u8; 0x3000], 4096, 16);

    let mut out = vec![0xEEu8; 16];
    stack
        .phys_read_raw_into(paged(0x2000, 0x2000, 4096), &mut out)
        .unwrap();
    assert_eq!(out, vec![0x00; 16]);

    stack
        .phys_write_raw(paged(0x2008, 0x2000, 4096), &vec![0xFF; 8])
        .unwrap();

    let mut out2 = vec![0u8; 16];
    stack
        .phys_read_raw_into(paged(0x2000, 0x2000, 4096), &mut out2)
        .unwrap();
    let expected = vec![0, 0, 0, 0, 0, 0, 0, 0, 0xFF, 0xFF, 0xFF, 0xFF, 0xFF, 0xFF, 0xFF, 0xFF];
    assert_eq!(out2, expected);
}

#[test]
fn read_after_write_returns_written_bytes() {
    let mut stack = stack_with(vec![0u8; 0x4000], 1024, 8);
    let data = vec![1u8, 2, 3, 4, 5, 6, 7];
    stack
        .phys_write_raw(paged(0x1234, 0x1000, 4096), &data)
        .unwrap();
    let mut back = vec![0u8; 7];
    stack
        .phys_read_raw_into(paged(0x1234, 0x1000, 4096), &mut back)
        .unwrap();
    assert_eq!(back, data);
}

#[test]
fn cached_stack_is_transparent() {
    let mut contents = vec![0u8; 0x3000];
    for (i, b) in contents.iter_mut().enumerate() {
        *b = (i % 251) as u8;
    }
    let mut direct = BufferMemory::with_contents(contents.clone());
    let mut cached = stack_with(contents, 1024, 4);

    // an access pattern with hits, misses and evictions
    let requests = [(0u64, 100usize), (0x800, 64), (0, 100), (0x2F00, 0x100), (0x7FF, 2)];
    for (addr, len) in requests.iter() {
        let mut a = vec![0u8; *len];
        let mut b = vec![0u8; *len];
        direct
            .phys_read_raw_into(paged(*addr, *addr & !0xFFF, 4096), &mut a)
            .unwrap();
        cached
            .phys_read_raw_into(paged(*addr, *addr & !0xFFF, 4096), &mut b)
            .unwrap();
        assert_eq!(a, b);
    }
}

#[test]
fn page_table_pages_are_not_cached() {
    let mut stack = stack_with(vec![7u8; 0x2000], 4096, 16);
    let pa = PhysicalAddress::with_page(
        Address(0x1000),
        Page {
            page_type: PageType::PageTable,
            page_base: Address(0x1000),
            page_size: Length(4096),
        },
    );
    let mut out = vec![0u8; 8];
    stack.phys_read_raw_into(pa, &mut out).unwrap();
    stack.phys_read_raw_into(pa, &mut out).unwrap();
    // both reads went straight through, at the requested length
    assert_eq!(stack.mem.read_log().as_slice(), &[(0x1000u64, 8usize), (0x1000, 8)]);
}

#[test]
fn unhinted_reads_pass_through() {
    let mut stack = stack_with(vec![9u8; 0x1000], 4096, 16);
    let mut out = vec![0u8; 4];
    stack
        .phys_read_raw_into(PhysicalAddress::direct(Address(0x10)), &mut out)
        .unwrap();
    assert_eq!(out, vec![9; 4]);
    assert_eq!(stack.mem.read_log().as_slice(), &[(0x10u64, 4usize)]);
}

#[test]
fn out_of_bounds_read_fails() {
    let mut stack = stack_with(vec![0u8; 0x1000], 4096, 16);
    let mut out = vec![0u8; 16];
    assert!(stack
        .phys_read_raw_into(paged(0xFF8, 0, 4096), &mut out)
        .is_err());
}
