use memflow::arch::Architecture;
use memflow::cache::PageCache;
use memflow::types::{Address, Error, Length, PageType};

#[test]
fn address_arithmetic() {
    assert!(Address::null().is_null());
    assert!(!Address(1).is_null());
    assert_eq!(Address(0x1234).as_page_aligned(Length(0x1000)).0, 0x1000);
    assert_eq!(Address(0x1000).as_page_aligned(Length(0x1000)).0, 0x1000);
    assert_eq!(Address(0x1234).as_page_aligned(Length(0x100)).0, 0x1200);
    assert_eq!(Address(0x10).add_len(Length(0x20)).0, 0x30);
    assert_eq!(Address(0x30).sub_addr(Address(0x10)).0, 0x20);
}

#[test]
fn length_constructors() {
    assert_eq!(Length::from_b(17).0, 17);
    assert_eq!(Length::from_kb(4).0, 4096);
    assert_eq!(Length::from_mb(2).0, 2 * 1024 * 1024);
    assert_eq!(Length::from_pages(3, Length(0x1000)).0, 0x3000);
    assert_eq!(Length(42).as_usize(), 42usize);
}

#[test]
fn architecture_constants() {
    for arch in [Architecture::X86, Architecture::X86Pae, Architecture::X64] {
        assert_eq!(arch.page_size().0, 0x1000);
    }
    assert_eq!(Architecture::X86.pointer_width(), 4);
    assert_eq!(Architecture::X86Pae.pointer_width(), 4);
    assert_eq!(Architecture::X64.pointer_width(), 8);
}

#[test]
fn cache_filters_page_types() {
    let cache = PageCache::new(Length(0x1000), 4);
    assert_eq!(cache.page_size().0, 0x1000);
    assert!(cache.is_cached_page_type(PageType::Page));
    assert!(!cache.is_cached_page_type(PageType::PageTable));
    assert!(!cache.is_cached_page_type(PageType::Unknown));
    assert!(cache.cached_page(Address(0x2000)).is_none());
}

#[test]
fn errors_describe_themselves() {
    let errors = [
        Error::Connector,
        Error::VersionMismatch,
        Error::InstantiationFailed,
        Error::PageNotPresent,
        Error::PageTableReadFailed,
        Error::PageInfoNotFound,
        Error::InvalidPeImage,
        Error::InvalidArgs,
        Error::SymbolsNotFound,
    ];
    let mut seen: Vec<&'static str> = Vec::new();
    for e in errors {
        let s = e.as_str();
        assert!(!s.is_empty());
        assert!(!seen.contains(&s));
        seen.push(s);
    }
}
