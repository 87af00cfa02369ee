use memflow::arch::Architecture;
use memflow::mem::BufferMemory;
use memflow::process::{PdbField, PdbStruct, Process, ProcessIterator, StartBlock, Windows, PDB};
use memflow::types::{Address, Error, Length};

fn put_u32(mem: &mut Vec<u8>, at: usize, v: u32) {
    let b = v.to_le_bytes();
    mem[at..at + 4].copy_from_slice(&b);
}

fn field(name: &str, offset: u64) -> PdbField {
    PdbField { name: name.to_string(), offset: Length(offset) }
}

fn kernel_pdb() -> PDB {
    PDB {
        structs: vec![
            PdbStruct {
                name: "_EPROCESS".to_string(),
                fields: vec![
                    field("UniqueProcessId", 0x8),
                    field("ActiveProcessLinks", 0x10),
                    field("ImageFileName", 0x20),
                ],
            },
            PdbStruct {
                name: "_LIST_ENTRY".to_string(),
                fields: vec![field("Flink", 0x0), field("Blink", 0x4)],
            },
        ],
    }
}

/// An x86 target whose page tables identity-map the page at 0x5000, with
/// three `_EPROCESS` records chained by their back-links: 0x5000 (system),
/// 0x5100 and 0x5200, the last one linking back to the first.
fn windows_target() -> (Windows, BufferMemory) {
    let mut m = vec![0u8; 0x8000];
    put_u32(&mut m, 0x1000, 0x2000 | 1); // PDE[0]
    put_u32(&mut m, 0x2000 + 4 * 5, 0x5000 | 1); // PTE[5]: virt 0x5000 -> phys 0x5000

    // eprocess records: pid at +8, links at +0x10, Blink at links+4, name at +0x20
    for (i, base) in [0x5000usize, 0x5100, 0x5200].iter().enumerate() {
        put_u32(&mut m, base + 0x8, 100 + i as u32);
    }
    m[0x5020..0x5027].copy_from_slice(b"System\0");
    m[0x5120..0x5128].copy_from_slice(b"smss.exe");
    m[0x5220..0x5229].copy_from_slice(b"csrss.exe");
    // Blink chain: 0x5000 -> 0x5100 -> 0x5200 -> 0x5000
    put_u32(&mut m, 0x5014, 0x5110); // &entry1.ActiveProcessLinks
    put_u32(&mut m, 0x5114, 0x5210);
    put_u32(&mut m, 0x5214, 0x5010);

    let win = Windows {
        start_block: StartBlock {
            arch: Architecture::X86,
            dtb: Address(0x1000),
            kernel_base: Address(0x5000),
        },
        kernel_pdb: Some(kernel_pdb()),
        eprocess_base: Address(0x5000),
    };
    (win, BufferMemory::with_contents(m))
}

#[test]
fn iterator_walks_list_and_terminates_at_system() {
    let (win, mut mem) = windows_target();
    let mut it = ProcessIterator::new(&win);
    let mut seen: Vec<u64> = Vec::new();
    while let Some(p) = it.next(&mut mem) {
        seen.push(p.eprocess.0);
        assert!(seen.len() <= 16, "walk failed to terminate");
    }
    // entries 0..N once each, no reread of the system process
    assert_eq!(seen, vec![0x5000, 0x5100, 0x5200]);
    // the iterator stays exhausted
    assert!(it.next(&mut mem).is_none());
}

#[test]
fn process_pid_and_name() {
    let (win, mut mem) = windows_target();
    let p0 = Process::new(&win, Address(0x5000));
    assert_eq!(p0.get_pid(&mut mem).unwrap(), 100);
    assert_eq!(p0.get_name(&mut mem).unwrap(), "System");

    let p2 = Process::new(&win, Address(0x5200));
    assert_eq!(p2.get_pid(&mut mem).unwrap(), 102);
    assert_eq!(p2.get_name(&mut mem).unwrap(), "csrss.exe");
}

#[test]
fn name_is_capped_at_sixteen_bytes() {
    let (win, mut mem) = windows_target();
    let p1 = Process::new(&win, Address(0x5100));
    // "smss.exe" followed by zero bytes up to the 16-byte field
    assert_eq!(p1.get_name(&mut mem).unwrap(), "smss.exe");
}

#[test]
fn missing_symbols_are_reported() {
    let (mut win, mut mem) = windows_target();
    win.kernel_pdb = None;
    let p = Process::new(&win, Address(0x5000));
    assert_eq!(p.get_pid(&mut mem).unwrap_err(), Error::SymbolsNotFound);
    assert_eq!(p.get_name(&mut mem).unwrap_err(), Error::SymbolsNotFound);
    let mut it = ProcessIterator::new(&win);
    assert!(it.next(&mut mem).is_none());
}

#[test]
fn pdb_lookup_resolves_structs_and_fields() {
    let pdb = kernel_pdb();
    let ep = pdb.get_struct("_EPROCESS").unwrap();
    assert_eq!(ep.get_field("ActiveProcessLinks").unwrap().offset.0, 0x10);
    assert!(ep.get_field("NoSuchField").is_none());
    assert!(pdb.get_struct("_KTHREAD").is_none());
}

#[test]
fn unreadable_link_ends_the_walk() {
    let (win, mem) = windows_target();
    // break the chain: entry 1's Blink points into unmapped space
    let mut m = mem.buf.clone();
    put_u32(&mut m, 0x5114, 0xDEAD0010);
    let mut mem2 = BufferMemory::with_contents(m);
    let mut it = ProcessIterator::new(&win);
    let mut seen: Vec<u64> = Vec::new();
    while let Some(p) = it.next(&mut mem2) {
        seen.push(p.eprocess.0);
        assert!(seen.len() <= 16);
    }
    // the dangling entry is yielded once; its link then reads as null
    // (unmapped links zero-fill) and the walk ends without aborting
    assert_eq!(seen, vec![0x5000, 0x5100, 0xDEAD0000]);
}
