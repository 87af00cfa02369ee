//! Debug-symbol identification: the CodeView record carried by a PE image
//! and the GUID-plus-age string under which the matching PDB file is
//! published on a symbol server.

use vstd::prelude::*;

use crate::types::Error;
use crate::vat::{bytes_to_string_lossy, cstr_of, cstr_prefix};

verus! {

/// The CodeView record of a PE debug directory: a 16-byte signature, an
/// age counter and the NUL-terminated PDB file name.
pub struct CodeView70 {
    pub signature: Vec<u8>,
    pub age: u32,
    pub file_name: Vec<u8>,
}

/// The uppercase hex digit of a value below 16.
pub open spec fn hex_digit(n: int) -> char {
    if n == 0 {
        '0'
    } else if n == 1 {
        '1'
    } else if n == 2 {
        '2'
    } else if n == 3 {
        '3'
    } else if n == 4 {
        '4'
    } else if n == 5 {
        '5'
    } else if n == 6 {
        '6'
    } else if n == 7 {
        '7'
    } else if n == 8 {
        '8'
    } else if n == 9 {
        '9'
    } else if n == 10 {
        'A'
    } else if n == 11 {
        'B'
    } else if n == 12 {
        'C'
    } else if n == 13 {
        'D'
    } else if n == 14 {
        'E'
    } else {
        'F'
    }
}

/// `v` written as exactly `d` uppercase hex digits, most significant
/// first.
pub open spec fn hex_fixed(v: int, d: nat) -> Seq<char>
    decreases d,
{
    if d == 0 {
        Seq::empty()
    } else {
        hex_fixed(v / 16, (d - 1) as nat) + seq![hex_digit(v % 16)]
    }
}

/// `v` written in uppercase hex without leading zeroes (a lone zero for
/// zero).
pub open spec fn hex_no_pad(v: int) -> Seq<char>
    decreases v,
{
    if v < 16 {
        seq![hex_digit(v % 16)]
    } else {
        hex_no_pad(v / 16) + seq![hex_digit(v % 16)]
    }
}

/// The little-endian value of two bytes.
pub open spec fn le16(b: Seq<u8>) -> int {
    b[0] + b[1] * 0x100
}

/// The hex digits of bytes `i..16` of a signature, two per byte.
pub open spec fn bytes_hex(sig: Seq<u8>, i: int) -> Seq<char>
    decreases 16 - i,
{
    if i >= 16 {
        Seq::empty()
    } else {
        hex_fixed(sig[i] as int, 2) + bytes_hex(sig, i + 1)
    }
}

/// The identifier under which a PDB is published: the signature's first
/// three fields read little-endian and written as fixed-width uppercase
/// hex, the remaining eight bytes written byte by byte, then the age in
/// unpadded uppercase hex.
pub open spec fn guid_of(sig: Seq<u8>, age: u32) -> Seq<char> {
    hex_fixed(crate::arch::le32(sig.subrange(0, 4)), 8) + hex_fixed(le16(sig.subrange(4, 6)), 4)
        + hex_fixed(le16(sig.subrange(6, 8)), 4) + bytes_hex(sig, 8) + hex_no_pad(age as int)
}

/// A one-character string slice holding the uppercase hex digit of `n`.
fn hex_char_str(n: u64) -> (r: &'static str)
    requires
        n < 16,
    ensures
        r@.len() == 1,
        r@[0] == hex_digit(n as int),
{
    proof {
        reveal_strlit("0");
        reveal_strlit("1");
        reveal_strlit("2");
        reveal_strlit("3");
        reveal_strlit("4");
        reveal_strlit("5");
        reveal_strlit("6");
        reveal_strlit("7");
        reveal_strlit("8");
        reveal_strlit("9");
        reveal_strlit("A");
        reveal_strlit("B");
        reveal_strlit("C");
        reveal_strlit("D");
        reveal_strlit("E");
        reveal_strlit("F");
    }
    if n == 0 {
        "0"
    } else if n == 1 {
        "1"
    } else if n == 2 {
        "2"
    } else if n == 3 {
        "3"
    } else if n == 4 {
        "4"
    } else if n == 5 {
        "5"
    } else if n == 6 {
        "6"
    } else if n == 7 {
        "7"
    } else if n == 8 {
        "8"
    } else if n == 9 {
        "9"
    } else if n == 10 {
        "A"
    } else if n == 11 {
        "B"
    } else if n == 12 {
        "C"
    } else if n == 13 {
        "D"
    } else if n == 14 {
        "E"
    } else {
        "F"
    }
}

/// `v` as exactly `d` uppercase hex digits, most significant first.
fn hex_fixed_str(v: u64, d: u64) -> (r: String)
    ensures
        r@ == hex_fixed(v as int, d as nat),
    decreases d,
{
    if d == 0 {
        let s = String::new();
        proof {
            assert(s@ =~= hex_fixed(v as int, 0));
        }
        s
    } else {
        let mut s = hex_fixed_str(v / 16, d - 1);
        s.append(hex_char_str(v % 16));
        proof {
            assert(s@ =~= hex_fixed(v as int, d as nat));
        }
        s
    }
}

/// `v` in uppercase hex without leading zeroes.
fn hex_no_pad_str(v: u64) -> (r: String)
    ensures
        r@ == hex_no_pad(v as int),
    decreases v,
{
    if v < 16 {
        let mut s = String::new();
        s.append(hex_char_str(v));
        proof {
            assert(s@ =~= hex_no_pad(v as int));
        }
        s
    } else {
        let mut s = hex_no_pad_str(v / 16);
        s.append(hex_char_str(v % 16));
        proof {
            assert(s@ =~= hex_no_pad(v as int));
        }
        s
    }
}

/// Format the GUID-plus-age identifier of a CodeView record. Fails exactly
/// when the signature is not 16 bytes long.
pub fn generate_guid(codeview: &CodeView70) -> (r: Result<String, Error>)
    ensures
        codeview.signature@.len() == 16 ==> r is Ok && r.unwrap()@ == guid_of(
            codeview.signature@,
            codeview.age,
        ),
        codeview.signature@.len() != 16 ==> r == Err::<String, Error>(Error::InvalidPeImage),
{
    if codeview.signature.len() != 16 {
        return Err(Error::InvalidPeImage);
    }
    let sig = &codeview.signature;
    let d1: u64 = (sig[0] as u64) + (sig[1] as u64) * 0x100 + (sig[2] as u64) * 0x10000 + (
    sig[3] as u64) * 0x1000000;
    let d2: u64 = (sig[4] as u64) + (sig[5] as u64) * 0x100;
    let d3: u64 = (sig[6] as u64) + (sig[7] as u64) * 0x100;
    proof {
        assert(sig@.subrange(0, 4) =~= seq![sig@[0], sig@[1], sig@[2], sig@[3]]);
        assert(sig@.subrange(4, 6) =~= seq![sig@[4], sig@[5]]);
        assert(sig@.subrange(6, 8) =~= seq![sig@[6], sig@[7]]);
        assert(d1 == crate::arch::le32(sig@.subrange(0, 4)));
        assert(d2 == le16(sig@.subrange(4, 6)));
        assert(d3 == le16(sig@.subrange(6, 8)));
    }
    let mut s = hex_fixed_str(d1, 8);
    let part2 = hex_fixed_str(d2, 4);
    s.append(part2.as_str());
    let part3 = hex_fixed_str(d3, 4);
    s.append(part3.as_str());
    let ghost mid = s@;
    let mut i: usize = 8;
    while i < 16
        invariant
            8 <= i <= 16,
            sig@.len() == 16,
            bytes_hex(sig@, 8) == s@.subrange(mid.len() as int, s@.len() as int) + bytes_hex(
                sig@,
                i as int,
            ),
            s@.subrange(0, mid.len() as int) == mid,
            s@.len() >= mid.len(),
        decreases 16 - i,
    {
        let b = sig[i];
        let ghost s_prev = s@;
        let hi = hex_fixed_str((b as u64) / 16, 1);
        s.append(hi.as_str());
        let lo = hex_char_str((b as u64) % 16);
        s.append(lo);
        proof {
            assert(hex_fixed(b as int, 2) =~= hex_fixed(b as int / 16, 1) + seq![
                hex_digit(b as int % 16),
            ]);
            assert(s@ =~= s_prev + hex_fixed(b as int, 2));
            assert(s@.subrange(0, mid.len() as int) =~= mid);
            assert(s@.subrange(mid.len() as int, s@.len() as int) =~= s_prev.subrange(
                mid.len() as int,
                s_prev.len() as int,
            ) + hex_fixed(b as int, 2));
            assert(s@.subrange(mid.len() as int, s@.len() as int) + bytes_hex(sig@, i + 1)
                =~= s_prev.subrange(mid.len() as int, s_prev.len() as int) + (hex_fixed(
                b as int,
                2,
            ) + bytes_hex(sig@, i + 1)));
        }
        i = i + 1;
    }
    let ghost before_tail = s@;
    let tail = hex_no_pad_str(codeview.age as u64);
    s.append(tail.as_str());
    proof {
        assert(bytes_hex(sig@, 16) =~= Seq::<char>::empty());
        assert(before_tail.subrange(mid.len() as int, before_tail.len() as int) + bytes_hex(
            sig@,
            16,
        ) =~= before_tail.subrange(mid.len() as int, before_tail.len() as int));
        assert(before_tail =~= mid + before_tail.subrange(
            mid.len() as int,
            before_tail.len() as int,
        ));
        assert(before_tail =~= mid + bytes_hex(sig@, 8));
        assert(s@ =~= (mid + bytes_hex(sig@, 8)) + hex_no_pad(codeview.age as int));
        assert(s@ =~= guid_of(sig@, codeview.age));
    }
    Ok(s)
}

/// The PDB file name of a CodeView record: the bytes before the first NUL
/// of its name field, decoded as UTF-8.
pub fn pdb_file_name(codeview: &CodeView70) -> (r: String)
    ensures
        vstd::utf8::valid_utf8(cstr_of(codeview.file_name@)) ==> r@ == vstd::utf8::decode_utf8(
            cstr_of(codeview.file_name@),
        ),
{
    let prefix = cstr_prefix(&codeview.file_name);
    bytes_to_string_lossy(&prefix)
}

} // verus!
