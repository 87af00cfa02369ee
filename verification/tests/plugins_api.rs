use memflow::plugins::{
    check_connector_version, create_bare, create_with_logging, create_without_logging,
    find_export_by_prefix, find_export_by_prefix_macho, find_export_by_prefix_pe, level_from_i32,
    Args, Level, LibraryRefs, MEMFLOW_CONNECTOR_VERSION,
};
use memflow::types::Error;

#[test]
fn version_check_accepts_only_the_current_abi() {
    assert!(check_connector_version(MEMFLOW_CONNECTOR_VERSION).is_ok());
    assert_eq!(check_connector_version(7).unwrap_err(), Error::VersionMismatch);
    assert_eq!(check_connector_version(9).unwrap_err(), Error::VersionMismatch);
    assert_eq!(check_connector_version(0).unwrap_err(), Error::VersionMismatch);
}

#[test]
fn library_stays_loaded_while_any_clone_lives() {
    let mut refs = LibraryRefs::new_loaded();
    refs.acquire(); // instance
    refs.acquire(); // clone
    refs.release(); // instance drops
    assert!(!refs.unloaded);
    refs.release(); // clone drops
    assert!(!refs.unloaded); // the inventory handle still holds it
    refs.release(); // inventory drops
    assert!(refs.unloaded);
    assert_eq!(refs.live, 0);
}

#[test]
fn log_levels_decode_with_trace_fallback() {
    assert_eq!(level_from_i32(1), Level::Error);
    assert_eq!(level_from_i32(2), Level::Warn);
    assert_eq!(level_from_i32(3), Level::Info);
    assert_eq!(level_from_i32(4), Level::Debug);
    assert_eq!(level_from_i32(5), Level::Trace);
    assert_eq!(level_from_i32(0), Level::Trace);
    assert_eq!(level_from_i32(-3), Level::Trace);
    assert_eq!(level_from_i32(99), Level::Trace);
}

#[test]
fn args_parse_and_serialize() {
    let args = Args::parse("device=FPGA,addr=0x1000").unwrap();
    assert_eq!(args.entries.len(), 2);
    assert_eq!(args.entries[0].0, "device");
    assert_eq!(args.entries[0].1, "FPGA");
    assert_eq!(args.entries[1].0, "addr");
    assert_eq!(args.entries[1].1, "0x1000");
    assert_eq!(args.to_arg_string(), "device=FPGA,addr=0x1000");
}

#[test]
fn args_edge_cases() {
    assert_eq!(Args::parse("").unwrap().entries.len(), 0);
    assert_eq!(Args::new().to_arg_string(), "");

    // the value may contain further '=' characters; the first one splits
    let a = Args::parse("k=a=b").unwrap();
    assert_eq!(a.entries[0].0, "k");
    assert_eq!(a.entries[0].1, "a=b");

    // empty key or value is allowed, a part without '=' is not
    let b = Args::parse("=v,k=").unwrap();
    assert_eq!(b.entries[0].0, "");
    assert_eq!(b.entries[0].1, "v");
    assert_eq!(b.entries[1].1, "");
    assert_eq!(Args::parse("novalue").unwrap_err(), Error::InvalidArgs);
    assert_eq!(Args::parse("a=1,,b=2").unwrap_err(), Error::InvalidArgs);
}

#[test]
fn create_with_logging_forwards_parsed_args() {
    let (status, instance) = create_with_logging("key=value", 3, |args: Args, level: Level| {
        assert_eq!(level, Level::Info);
        assert_eq!(args.entries[0].0, "key");
        Ok::<String, Error>(args.entries[0].1.clone())
    });
    assert_eq!(status, 0);
    assert_eq!(instance.unwrap(), "value");
}

#[test]
fn create_reports_failures_as_nonzero() {
    let (status, instance) =
        create_with_logging("bad args", 1, |_args: Args, _level: Level| Ok::<u32, Error>(1));
    assert_eq!(status, -1);
    assert!(instance.is_none());

    let (status2, instance2) = create_without_logging("k=v", |_args: Args| {
        Err::<u32, Error>(Error::InstantiationFailed)
    });
    assert_eq!(status2, -1);
    assert!(instance2.is_none());
}

#[test]
fn create_bare_forwards_input() {
    let (status, instance) = create_bare("k=v", 41u32, 5, |_a: Args, input: u32, _l: Level| {
        Ok::<u32, Error>(input + 1)
    });
    assert_eq!(status, 0);
    assert_eq!(instance.unwrap(), 42);
}

#[test]
fn export_scan_rejects_non_elf_bytes() {
    let r = find_export_by_prefix(&[0u8; 64], "MEMFLOW_CONNECTOR_");
    assert_eq!(r.unwrap_err(), Error::Connector);
}

/// A minimal 64-bit little-endian ELF with no sections: it parses, and
/// carries no symbols at all.
fn minimal_elf64() -> Vec<u8> {
    let mut e = vec![0u8; 64];
    e[0..4].copy_from_slice(&[0x7F, b'E', b'L', b'F']);
    e[4] = 2; // 64-bit
    e[5] = 1; // little-endian
    e[6] = 1; // version
    e[16] = 2; // ET_EXEC
    e[18] = 0x3E; // x86-64
    e[20] = 1; // version
    e[52] = 64; // e_ehsize
    e
}

#[test]
fn export_scan_of_symbolless_library_is_empty() {
    let r = find_export_by_prefix(&minimal_elf64(), "MEMFLOW_CONNECTOR_").unwrap();
    assert!(r.is_empty());
}

#[test]
fn pe_export_scan_rejects_garbage() {
    let r = find_export_by_prefix_pe(&[5u8; 128], "MEMFLOW_CONNECTOR_");
    assert_eq!(r.unwrap_err(), Error::Connector);
}

#[test]
fn macho_export_scan_rejects_garbage() {
    let r = find_export_by_prefix_macho(&[5u8; 128], "MEMFLOW_CONNECTOR_");
    assert_eq!(r.unwrap_err(), Error::Connector);
}

fn put_u32(e: &mut Vec<u8>, at: usize, v: u32) {
    e[at..at + 4].copy_from_slice(&v.to_le_bytes());
}

fn put_u64(e: &mut Vec<u8>, at: usize, v: u64) {
    e[at..at + 8].copy_from_slice(&v.to_le_bytes());
}

/// An ELF64 with a two-entry symbol table: one connector export and one
/// unrelated symbol.
fn elf64_with_symbols() -> Vec<u8> {
    let mut e = vec![0u8; 0x240];
    e[0..4].copy_from_slice(&[0x7F, b'E', b'L', b'F']);
    e[4] = 2; // 64-bit
    e[5] = 1; // little-endian
    e[6] = 1; // version
    e[16] = 2; // ET_EXEC
    e[18] = 0x3E; // x86-64
    e[20] = 1; // version
    put_u64(&mut e, 0x28, 0x100); // e_shoff
    e[52] = 64; // e_ehsize
    e[58] = 64; // e_shentsize
    e[60] = 3; // e_shnum
    e[62] = 0; // e_shstrndx

    // symbol table at 0x40: null entry + two named entries
    put_u32(&mut e, 0x40 + 24, 1); // st_name -> "MEMFLOW_CONNECTOR_qemu"
    put_u32(&mut e, 0x40 + 48, 24); // st_name -> "other"

    // string table at 0xC0: "\0MEMFLOW_CONNECTOR_qemu\0other\0"
    let strtab = b"\0MEMFLOW_CONNECTOR_qemu\0other\0";
    e[0xC0..0xC0 + strtab.len()].copy_from_slice(strtab);

    // section headers at 0x100: null, symtab, strtab
    let sh_symtab = 0x100 + 64;
    put_u32(&mut e, sh_symtab + 4, 2); // SHT_SYMTAB
    put_u64(&mut e, sh_symtab + 24, 0x40); // sh_offset
    put_u64(&mut e, sh_symtab + 32, 72); // sh_size: 3 entries
    put_u32(&mut e, sh_symtab + 40, 2); // sh_link -> strtab
    put_u64(&mut e, sh_symtab + 48, 8); // sh_addralign
    put_u64(&mut e, sh_symtab + 56, 24); // sh_entsize
    let sh_strtab = 0x100 + 128;
    put_u32(&mut e, sh_strtab + 4, 3); // SHT_STRTAB
    put_u64(&mut e, sh_strtab + 24, 0xC0); // sh_offset
    put_u64(&mut e, sh_strtab + 32, strtab.len() as u64); // sh_size
    put_u64(&mut e, sh_strtab + 48, 1); // sh_addralign
    e
}

#[test]
fn export_scan_filters_by_prefix() {
    let elf = elf64_with_symbols();
    let hits = find_export_by_prefix(&elf, "MEMFLOW_CONNECTOR_").unwrap();
    assert_eq!(hits, vec!["MEMFLOW_CONNECTOR_qemu".to_string()]);
    let all = find_export_by_prefix(&elf, "").unwrap();
    assert_eq!(all.len(), 3); // the null entry resolves to the empty name
    assert!(find_export_by_prefix(&elf, "QEMU_").unwrap().is_empty());
}

/// A 64-bit Mach-O with one symbol-table entry carrying the underscored
/// connector name.
fn macho64_with_symbol() -> Vec<u8> {
    let mut m = vec![0u8; 0x100];
    put_u32(&mut m, 0, 0xFEED_FACF); // 64-bit magic
    put_u32(&mut m, 4, 0x0100_0007); // x86-64
    put_u32(&mut m, 12, 2); // MH_EXECUTE
    put_u32(&mut m, 16, 1); // one load command
    put_u32(&mut m, 20, 24); // total command size
    // LC_SYMTAB at 0x20
    put_u32(&mut m, 0x20, 0x2);
    put_u32(&mut m, 0x24, 24);
    put_u32(&mut m, 0x28, 0x40); // symoff
    put_u32(&mut m, 0x2C, 1); // nsyms
    put_u32(&mut m, 0x30, 0x60); // stroff
    put_u32(&mut m, 0x34, 0x20); // strsize
    // one nlist_64 at 0x40
    put_u32(&mut m, 0x40, 1); // n_strx
    // string table at 0x60
    let strtab = b"\0_MEMFLOW_CONNECTOR_kvm\0";
    m[0x60..0x60 + strtab.len()].copy_from_slice(strtab);
    m
}

#[test]
fn macho_export_scan_strips_the_leading_underscore() {
    let hits =
        find_export_by_prefix_macho(&macho64_with_symbol(), "MEMFLOW_CONNECTOR_").unwrap();
    assert_eq!(hits, vec!["MEMFLOW_CONNECTOR_kvm".to_string()]);
    assert!(
        find_export_by_prefix_macho(&macho64_with_symbol(), "OTHER_").unwrap().is_empty()
    );
}

#[test]
fn duplicate_idents_are_detected() {
    let names = vec!["qemu".to_string(), "kvm".to_string()];
    assert!(memflow::plugins::contains_ident(&names, "kvm"));
    assert!(!memflow::plugins::contains_ident(&names, "pcileech"));
    assert!(!memflow::plugins::contains_ident(&Vec::new(), "qemu"));
}
