use memflow::arch::Architecture;
use memflow::mem::BufferMemory;
use memflow::pdb::{generate_guid, pdb_file_name, CodeView70};
use memflow::pe::{probe_pe_header, try_fetch_pe_header, try_fetch_pe_size};
use memflow::process::StartBlock;
use memflow::types::{Address, Error};

fn put_u16(mem: &mut Vec<u8>, at: usize, v: u16) {
    mem[at..at + 2].copy_from_slice(&v.to_le_bytes());
}

fn put_u32(mem: &mut Vec<u8>, at: usize, v: u32) {
    mem[at..at + 4].copy_from_slice(&v.to_le_bytes());
}

fn put_u64(mem: &mut Vec<u8>, at: usize, v: u64) {
    mem[at..at + 8].copy_from_slice(&v.to_le_bytes());
}

/// A minimal PE32+ image: DOS header, NT signature, empty file header,
/// 64-bit optional header with SizeOfImage = 0x2000 and no directories.
fn minimal_pe64() -> Vec<u8> {
    let mut pe = vec![0u8; 0x2000];
    put_u16(&mut pe, 0x00, 0x5A4D); // 'MZ'
    put_u32(&mut pe, 0x3C, 0x40); // e_lfanew
    put_u32(&mut pe, 0x40, 0x0000_4550); // "PE\0\0"
    put_u16(&mut pe, 0x44, 0x8664); // machine
    put_u16(&mut pe, 0x46, 0); // no sections
    put_u16(&mut pe, 0x54, 240); // size of optional header
    put_u16(&mut pe, 0x58, 0x020B); // PE32+ magic
    put_u32(&mut pe, 0x58 + 56, 0x2000); // SizeOfImage
    put_u32(&mut pe, 0x58 + 60, 0x200); // SizeOfHeaders
    put_u32(&mut pe, 0x58 + 108, 0); // NumberOfRvaAndSizes
    pe
}

/// An x64 target mapping virt 0x10000..0x12000 onto the two physical
/// pages at 0xA000 holding `image`.
fn target_with_image(image: &[u8]) -> (StartBlock, BufferMemory) {
    let mut m = vec![0u8; 0xC000];
    put_u64(&mut m, 0x1000, 0x2000 | 1);
    put_u64(&mut m, 0x2000, 0x3000 | 1);
    put_u64(&mut m, 0x3000, 0x4000 | 1);
    put_u64(&mut m, 0x4000 + 8 * 0x10, 0xA000 | 1);
    put_u64(&mut m, 0x4000 + 8 * 0x11, 0xB000 | 1);
    m[0xA000..0xA000 + image.len()].copy_from_slice(image);
    let sb = StartBlock {
        arch: Architecture::X64,
        dtb: Address(0x1000),
        kernel_base: Address(0x10000),
    };
    (sb, BufferMemory::with_contents(m))
}

#[test]
fn pe_size_is_read_from_the_optional_header() {
    let (sb, mut mem) = target_with_image(&minimal_pe64());
    let size = try_fetch_pe_size(&mut mem, &sb, Address(0x10000)).unwrap();
    assert_eq!(size.0, 0x2000);
}

#[test]
fn pe_header_fetch_rereads_the_full_image() {
    let image = minimal_pe64();
    let (sb, mut mem) = target_with_image(&image);
    let buf = try_fetch_pe_header(&mut mem, &sb, Address(0x10000)).unwrap();
    assert_eq!(buf.len(), 0x2000);
    assert_eq!(buf, image);
}

#[test]
fn non_pe_bytes_are_rejected() {
    let (sb, mut mem) = target_with_image(&[0x11u8; 0x2000]);
    let err = try_fetch_pe_size(&mut mem, &sb, Address(0x10000)).unwrap_err();
    assert_eq!(err, Error::InvalidPeImage);
}

#[test]
fn probe_without_exports_is_rejected() {
    let (sb, mut mem) = target_with_image(&minimal_pe64());
    let err = probe_pe_header(&mut mem, &sb, Address(0x10000)).unwrap_err();
    assert_eq!(err, Error::InvalidPeImage);
}

#[test]
fn guid_formats_signature_fields_little_endian_uppercase() {
    let cv = CodeView70 {
        signature: vec![
            0x11, 0x22, 0x33, 0x44, 0x55, 0x66, 0x77, 0x88, 0x99, 0xAA, 0xBB, 0xCC, 0xDD, 0xEE,
            0xFF, 0x00,
        ],
        age: 0x0A,
        file_name: b"ntkrnlmp.pdb\0\0".to_vec(),
    };
    let guid = generate_guid(&cv).unwrap();
    assert_eq!(guid, "443322116655887799AABBCCDDEEFF00A");
    assert_eq!(pdb_file_name(&cv), "ntkrnlmp.pdb");
}

#[test]
fn guid_of_zero_age_keeps_one_digit() {
    let cv = CodeView70 { signature: vec![0u8; 16], age: 0, file_name: vec![] };
    let guid = generate_guid(&cv).unwrap();
    assert_eq!(guid, "000000000000000000000000000000000");
    assert_eq!(pdb_file_name(&cv), "");
}

#[test]
fn guid_requires_a_sixteen_byte_signature() {
    let cv = CodeView70 { signature: vec![1, 2, 3], age: 1, file_name: vec![] };
    assert_eq!(generate_guid(&cv).unwrap_err(), Error::InvalidPeImage);
}
