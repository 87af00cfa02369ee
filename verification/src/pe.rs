//! PE header probing over virtual memory: read one page at a candidate
//! address, parse it as a PE image to learn the full image size, then
//! re-read exactly that many bytes. Parsing itself is delegated to the
//! `pelite` crate behind named, trusted results.

use vstd::prelude::*;

use dataview::PodMethods;

use crate::arch::read_ok_fn;
use crate::mem::AccessPhysicalMemory;
use crate::types::{Address, Error, Length, PhysicalAddress};
use crate::vat::{virt_read_raw_into, virt_read_spec};

verus! {

/// The `SizeOfImage` field of the optional header of the PE image that
/// `b` parses as; `None` when `b` is no valid PE image. A function of the
/// bytes alone: the wrapper parses an aligned copy, so pelite's pointer
/// alignment check cannot make the outcome depend on the allocation.
pub uninterp spec fn pe_size_of_image(b: Seq<u8>) -> Option<u32>;

/// The export directory's DLL name of the PE image that `b` parses as,
/// decoded as UTF-8; `None` when `b` has no parseable export name. A
/// function of the bytes alone, by the same aligned copy.
pub uninterp spec fn pe_export_dll_name(b: Seq<u8>) -> Option<Seq<char>>;

/// Relies on pelite::PeView::from_bytes and PeView::optional_header: the
/// 32- and 64-bit optional headers both carry SizeOfImage, returned here
/// whenever the buffer validates as a PE image. The bytes are copied into
/// eight-byte-aligned storage (viewed through dataview's Pod methods)
/// first, so validation sees the bytes alone, never the buffer's address.
#[verifier::external_body]
fn parse_size_of_image(buf: &Vec<u8>) -> (r: Option<u32>)
    ensures
        r == pe_size_of_image(buf@),
{
    let mut aligned: Vec<u64> = vec![0u64; buf.len() / 8 + 1];
    let bytes: &mut [u8] = aligned.as_mut_slice().as_bytes_mut();
    bytes[..buf.len()].copy_from_slice(buf.as_slice());
    match pelite::PeView::from_bytes(&bytes[..buf.len()]) {
        Ok(pe) => Some(
            match pe.optional_header() {
                pelite::Wrap::T32(opt32) => opt32.SizeOfImage,
                pelite::Wrap::T64(opt64) => opt64.SizeOfImage,
            },
        ),
        Err(_) => None,
    }
}

/// Relies on pelite::PeView::from_bytes, PeView::exports and
/// Exports::dll_name: the NUL-terminated export name, when the buffer
/// validates as a PE image with a UTF-8 export name. The bytes are copied
/// into eight-byte-aligned storage first, as in `parse_size_of_image`.
#[verifier::external_body]
fn parse_export_dll_name(buf: &Vec<u8>) -> (r: Option<String>)
    ensures
        match r {
            Some(s) => pe_export_dll_name(buf@) == Some(s@),
            None => pe_export_dll_name(buf@) is None,
        },
{
    let mut aligned: Vec<u64> = vec![0u64; buf.len() / 8 + 1];
    let bytes: &mut [u8] = aligned.as_mut_slice().as_bytes_mut();
    bytes[..buf.len()].copy_from_slice(buf.as_slice());
    let pe = match pelite::PeView::from_bytes(&bytes[..buf.len()]) {
        Ok(pe) => pe,
        Err(_) => return None,
    };
    let name = match pe.exports() {
        Ok(exports) => match exports.dll_name() {
            Ok(name) => name,
            Err(_) => return None,
        },
        Err(_) => return None,
    };
    name.to_str().ok().map(|s| s.to_owned())
}

/// What `try_fetch_pe_size` returns, over the memory model: the probe
/// page's bytes parsed for SizeOfImage; `None` when the probe read itself
/// fails.
pub open spec fn pe_size_outcome(
    bytes: Seq<u8>,
    ok: spec_fn(PhysicalAddress, nat) -> bool,
    arch: crate::arch::Architecture,
    dtb: u64,
    va: u64,
) -> Option<Result<Length, Error>> {
    match virt_read_spec(bytes, ok, arch, dtb, va, 0x1000) {
        Option::None => None,
        Option::Some(probe) => Some(
            match pe_size_of_image(probe) {
                Option::Some(size) => Ok(Length(size as u64)),
                Option::None => Err(Error::InvalidPeImage),
            },
        ),
    }
}

/// Read one 4 KiB page at `addr` in `start_block`'s address space and
/// parse it as a PE header to learn the image's full size.
pub fn try_fetch_pe_size<T: AccessPhysicalMemory>(
    mem: &mut T,
    start_block: &crate::process::StartBlock,
    addr: Address,
) -> (r: Result<Length, Error>)
    requires
        old(mem).inv(),
        addr.0 + 0x1000 <= u64::MAX,
        start_block.dtb.0 + 0x1000 <= u64::MAX,
    ensures
        final(mem).inv(),
        final(mem).mem() == old(mem).mem(),
        forall|x: PhysicalAddress, l: nat|
            #[trigger] final(mem).read_ok(x, l) == old(mem).read_ok(x, l),
        forall|x: PhysicalAddress, l: nat|
            #[trigger] final(mem).write_ok(x, l) == old(mem).write_ok(x, l),
        ({
            match pe_size_outcome(
                old(mem).mem(),
                read_ok_fn(*old(mem)),
                start_block.arch,
                start_block.dtb.0,
                addr.0,
            ) {
                Option::Some(out) => r == out,
                Option::None => r is Err,
            }
        }),
{
    let mut probe_buf: Vec<u8> = vec![0u8; 0x1000];
    match virt_read_raw_into(mem, start_block.arch, start_block.dtb, addr, &mut probe_buf) {
        Result::Err(e) => Err(e),
        Result::Ok(()) => match parse_size_of_image(&probe_buf) {
            Option::Some(size) => Ok(Length(size as u64)),
            Option::None => Err(Error::InvalidPeImage),
        },
    }
}

/// What `try_fetch_pe_header` returns, over the memory model: the size
/// probe's outcome, then the bytes of a read of exactly that size.
pub open spec fn pe_header_outcome(
    bytes: Seq<u8>,
    ok: spec_fn(PhysicalAddress, nat) -> bool,
    arch: crate::arch::Architecture,
    dtb: u64,
    va: u64,
) -> Option<Result<Seq<u8>, Error>> {
    match pe_size_outcome(bytes, ok, arch, dtb, va) {
        Option::None => None,
        Option::Some(Result::Err(e)) => Some(Err(e)),
        Option::Some(Result::Ok(size)) => match virt_read_spec(
            bytes,
            ok,
            arch,
            dtb,
            va,
            size.0 as nat,
        ) {
            Option::None => None,
            Option::Some(image) => Some(Ok(image)),
        },
    }
}

/// Fetch a whole PE image: probe one page for the header, then read
/// exactly `SizeOfImage` bytes from the same address.
pub fn try_fetch_pe_header<T: AccessPhysicalMemory>(
    mem: &mut T,
    start_block: &crate::process::StartBlock,
    addr: Address,
) -> (r: Result<Vec<u8>, Error>)
    requires
        old(mem).inv(),
        addr.0 + 0x100000000 <= u64::MAX,
        start_block.dtb.0 + 0x1000 <= u64::MAX,
    ensures
        final(mem).inv(),
        final(mem).mem() == old(mem).mem(),
        forall|x: PhysicalAddress, l: nat|
            #[trigger] final(mem).read_ok(x, l) == old(mem).read_ok(x, l),
        forall|x: PhysicalAddress, l: nat|
            #[trigger] final(mem).write_ok(x, l) == old(mem).write_ok(x, l),
        ({
            match pe_header_outcome(
                old(mem).mem(),
                read_ok_fn(*old(mem)),
                start_block.arch,
                start_block.dtb.0,
                addr.0,
            ) {
                Option::Some(Result::Ok(image)) => r is Ok && r.unwrap()@ == image,
                Option::Some(Result::Err(e)) => r == Err::<Vec<u8>, Error>(e),
                Option::None => r is Err,
            }
        }),
{
    let size_of_image = match try_fetch_pe_size(mem, start_block, addr) {
        Result::Ok(s) => s,
        Result::Err(e) => {
            return Err(e);
        },
    };
    proof {
        assert(read_ok_fn(*mem) =~= read_ok_fn(*old(mem)));
    }
    let mut buf: Vec<u8> = vec![0u8; size_of_image.0 as usize];
    match virt_read_raw_into(mem, start_block.arch, start_block.dtb, addr, &mut buf) {
        Result::Err(e) => Err(e),
        Result::Ok(()) => Ok(buf),
    }
}

/// Probe a candidate address for a PE header and return the image's
/// export DLL name.
pub fn probe_pe_header<T: AccessPhysicalMemory>(
    mem: &mut T,
    start_block: &crate::process::StartBlock,
    probe_addr: Address,
) -> (r: Result<String, Error>)
    requires
        old(mem).inv(),
        probe_addr.0 + 0x100000000 <= u64::MAX,
        start_block.dtb.0 + 0x1000 <= u64::MAX,
    ensures
        final(mem).inv(),
        final(mem).mem() == old(mem).mem(),
        forall|x: PhysicalAddress, l: nat|
            #[trigger] final(mem).read_ok(x, l) == old(mem).read_ok(x, l),
        forall|x: PhysicalAddress, l: nat|
            #[trigger] final(mem).write_ok(x, l) == old(mem).write_ok(x, l),
        ({
            match pe_header_outcome(
                old(mem).mem(),
                read_ok_fn(*old(mem)),
                start_block.arch,
                start_block.dtb.0,
                probe_addr.0,
            ) {
                Option::Some(Result::Ok(image)) => match pe_export_dll_name(image) {
                    Option::Some(name) => r is Ok && r.unwrap()@ == name,
                    Option::None => r == Err::<String, Error>(Error::InvalidPeImage),
                },
                Option::Some(Result::Err(e)) => r == Err::<String, Error>(e),
                Option::None => r is Err,
            }
        }),
{
    let pe_buf = match try_fetch_pe_header(mem, start_block, probe_addr) {
        Result::Ok(b) => b,
        Result::Err(e) => {
            return Err(e);
        },
    };
    match parse_export_dll_name(&pe_buf) {
        Option::Some(name) => Ok(name),
        Option::None => Err(Error::InvalidPeImage),
    }
}

} // verus!
