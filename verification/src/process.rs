//! Process discovery: the start block that roots all introspection, a
//! model of resolved PDB symbols (structs and field offsets), and the walk
//! of the kernel's circular process list via back-links.

use vstd::prelude::*;

use crate::arch::{read_ok_fn, Architecture};
use crate::mem::AccessPhysicalMemory;
use crate::types::{Address, Error, Length, PhysicalAddress};
use crate::vat::{
    cstr_of, virt_read_addr, virt_read_addr_spec, virt_read_cstr, virt_read_i32,
    virt_read_i32_spec, virt_read_spec,
};

verus! {

/// The triple that bootstraps target introspection: the paging layout,
/// the kernel's page-table root and the kernel image base.
#[derive(Clone, Copy, Debug)]
pub struct StartBlock {
    pub arch: Architecture,
    pub dtb: Address,
    pub kernel_base: Address,
}

/// A named field of a debug-info struct, with its byte offset.
pub struct PdbField {
    pub name: String,
    pub offset: Length,
}

/// A named struct resolved from debug info.
pub struct PdbStruct {
    pub name: String,
    pub fields: Vec<PdbField>,
}

/// Resolved debug symbols: a set of named structs with field offsets,
/// read-only once built.
pub struct PDB {
    pub structs: Vec<PdbStruct>,
}

/// The first field of `fields` named `name`.
pub open spec fn find_field(fields: Seq<PdbField>, name: Seq<char>) -> Option<PdbField>
    decreases fields.len(),
{
    if fields.len() == 0 {
        None
    } else if fields[0].name@ == name {
        Some(fields[0])
    } else {
        find_field(fields.skip(1), name)
    }
}

/// The first struct of `structs` named `name`.
pub open spec fn find_struct(structs: Seq<PdbStruct>, name: Seq<char>) -> Option<PdbStruct>
    decreases structs.len(),
{
    if structs.len() == 0 {
        None
    } else if structs[0].name@ == name {
        Some(structs[0])
    } else {
        find_struct(structs.skip(1), name)
    }
}

/// Relies on str's PartialEq: two string slices compare equal exactly when
/// their character sequences are equal.
#[verifier::external_body]
pub(crate) fn str_eq(a: &str, b: &str) -> (r: bool)
    ensures
        r == (a@ == b@),
{
    a == b
}

impl PdbStruct {
    /// Look up a field by name; the first match wins.
    pub fn get_field(&self, name: &str) -> (r: Option<&PdbField>)
        ensures
            match r {
                Some(f) => find_field(self.fields@, name@) == Some(*f),
                None => find_field(self.fields@, name@) is None,
            },
    {
        let n = self.fields.len();
        let mut i: usize = 0;
        proof {
            assert(self.fields@.skip(0) =~= self.fields@);
        }
        while i < n
            invariant
                i <= n,
                n == self.fields@.len(),
                find_field(self.fields@, name@) == find_field(self.fields@.skip(i as int), name@),
            decreases n - i,
        {
            proof {
                assert(self.fields@.skip(i as int)[0] == self.fields@[i as int]);
                assert(self.fields@.skip(i as int).skip(1) =~= self.fields@.skip(i as int + 1));
            }
            if str_eq(self.fields[i].name.as_str(), name) {
                return Some(&self.fields[i]);
            }
            i = i + 1;
        }
        proof {
            assert(self.fields@.skip(n as int) =~= Seq::<PdbField>::empty());
        }
        None
    }
}

impl PDB {
    /// Look up a struct by name; the first match wins.
    pub fn get_struct(&self, name: &str) -> (r: Option<&PdbStruct>)
        ensures
            match r {
                Some(s) => find_struct(self.structs@, name@) == Some(*s),
                None => find_struct(self.structs@, name@) is None,
            },
    {
        let n = self.structs.len();
        let mut i: usize = 0;
        proof {
            assert(self.structs@.skip(0) =~= self.structs@);
        }
        while i < n
            invariant
                i <= n,
                n == self.structs@.len(),
                find_struct(self.structs@, name@) == find_struct(
                    self.structs@.skip(i as int),
                    name@,
                ),
            decreases n - i,
        {
            proof {
                assert(self.structs@.skip(i as int)[0] == self.structs@[i as int]);
                assert(self.structs@.skip(i as int).skip(1) =~= self.structs@.skip(i as int + 1));
            }
            if str_eq(self.structs[i].name.as_str(), name) {
                return Some(&self.structs[i]);
            }
            i = i + 1;
        }
        proof {
            assert(self.structs@.skip(n as int) =~= Seq::<PdbStruct>::empty());
        }
        None
    }
}

/// The reconstructed state of a target running Windows: where its kernel
/// lives, and the symbols that give meaning to its structures.
pub struct Windows {
    pub start_block: StartBlock,
    pub kernel_pdb: Option<PDB>,
    pub eprocess_base: Address,
}

/// The offsets the process walk needs: `ActiveProcessLinks` within
/// `_EPROCESS` and `Blink` within `_LIST_ENTRY`.
pub open spec fn link_offsets(pdb: PDB) -> Option<(u64, u64)> {
    match find_struct(pdb.structs@, "_EPROCESS"@) {
        Option::None => None,
        Option::Some(ep) => match find_struct(pdb.structs@, "_LIST_ENTRY"@) {
            Option::None => None,
            Option::Some(le) => match find_field(ep.fields@, "ActiveProcessLinks"@) {
                Option::None => None,
                Option::Some(links) => match find_field(le.fields@, "Blink"@) {
                    Option::None => None,
                    Option::Some(blink) => Some((links.offset.0, blink.offset.0)),
                },
            },
        },
    }
}

/// The successor of `cur` in the process walk: the back-link read at
/// `cur + links + blink`, rebased by subtracting the link offset. An
/// unreadable, unrepresentable or underflowing link reads as null, and
/// arriving back at the system process terminates the walk with null.
pub open spec fn next_eprocess_spec(
    bytes: Seq<u8>,
    ok: spec_fn(PhysicalAddress, nat) -> bool,
    sb: StartBlock,
    links: u64,
    blink: u64,
    eprocess_base: u64,
    cur: u64,
) -> u64 {
    if cur + links + blink + 8 > u64::MAX {
        0
    } else {
        match virt_read_addr_spec(bytes, ok, sb.arch, sb.dtb.0, (cur + links + blink) as u64) {
            Option::None => 0,
            Option::Some(a) => {
                let n: u64 = if a == 0 {
                    0
                } else if a >= links {
                    (a - links) as u64
                } else {
                    0
                };
                if n == eprocess_base {
                    0
                } else {
                    n
                }
            },
        }
    }
}

/// A lazy walk over the target's process list, driven by `Blink`
/// back-links from the system process. It borrows its context for its
/// lifetime and reads the target through an accessor handed to each step.
pub struct ProcessIterator<'a> {
    pub win: &'a Windows,
    pub eprocess: Address,
}

/// One process of the target: enough state to answer per-process queries
/// through any memory accessor.
pub struct Process<'a> {
    pub win: &'a Windows,
    pub eprocess: Address,
}

impl<'a> ProcessIterator<'a> {
    /// Start the walk at the context's system process.
    pub fn new(win: &'a Windows) -> (r: ProcessIterator<'a>)
        ensures
            r.win == win,
            r.eprocess == win.eprocess_base,
    {
        ProcessIterator { win, eprocess: win.eprocess_base }
    }

    /// The next process of the walk, reading the target through `mem`.
    /// Yields nothing once the walk has reached null (the walk's end, a
    /// missing symbol, or an unreadable link).
    pub fn next<T: AccessPhysicalMemory>(&mut self, mem: &mut T) -> (r: Option<Process<'a>>)
        requires
            old(mem).inv(),
            old(self).win.start_block.dtb.0 + 0x1000 <= u64::MAX,
        ensures
            final(mem).inv(),
            final(mem).mem() == old(mem).mem(),
            forall|x: PhysicalAddress, l: nat|
                #[trigger] final(mem).read_ok(x, l) == old(mem).read_ok(x, l),
            forall|x: PhysicalAddress, l: nat|
                #[trigger] final(mem).write_ok(x, l) == old(mem).write_ok(x, l),
            final(self).win == old(self).win,
            old(self).eprocess.0 == 0 ==> r is None && final(self).eprocess == old(self).eprocess,
            old(self).eprocess.0 != 0 && old(self).win.kernel_pdb is None ==> r is None
                && final(self).eprocess == old(self).eprocess,
            old(self).eprocess.0 != 0 && old(self).win.kernel_pdb is Some ==> ({
                match link_offsets(old(self).win.kernel_pdb.unwrap()) {
                    Option::None => r is None && final(self).eprocess == old(self).eprocess,
                    Option::Some(lb) => {
                        &&& r matches Some(p) && p.win == old(self).win && p.eprocess == old(
                            self,
                        ).eprocess
                        &&& final(self).eprocess.0 == next_eprocess_spec(
                            old(mem).mem(),
                            read_ok_fn(*old(mem)),
                            old(self).win.start_block,
                            lb.0,
                            lb.1,
                            old(self).win.eprocess_base.0,
                            old(self).eprocess.0,
                        )
                    },
                }
            }),
    {
        if self.eprocess.0 == 0 {
            return None;
        }
        let (links, blink) = match &self.win.kernel_pdb {
            None => {
                return None;
            },
            Some(pdb) => {
                let ep = match pdb.get_struct("_EPROCESS") {
                    Some(s) => s,
                    None => {
                        return None;
                    },
                };
                let le = match pdb.get_struct("_LIST_ENTRY") {
                    Some(s) => s,
                    None => {
                        return None;
                    },
                };
                let links = match ep.get_field("ActiveProcessLinks") {
                    Some(f) => f.offset,
                    None => {
                        return None;
                    },
                };
                let blink = match le.get_field("Blink") {
                    Some(f) => f.offset,
                    None => {
                        return None;
                    },
                };
                (links.0, blink.0)
            },
        };
        let cur = self.eprocess;
        let next: u64 = if links > u64::MAX - cur.0 || blink > u64::MAX - (cur.0 + links) || 8
            > u64::MAX - (cur.0 + links + blink) {
            0
        } else {
            let link_va = cur.0 + links + blink;
            match virt_read_addr(
                mem,
                self.win.start_block.arch,
                self.win.start_block.dtb,
                Address(link_va),
            ) {
                Result::Err(_) => 0,
                Result::Ok(a) => {
                    let n: u64 = if a.0 == 0 {
                        0
                    } else if a.0 >= links {
                        a.0 - links
                    } else {
                        0
                    };
                    if n == self.win.eprocess_base.0 {
                        0
                    } else {
                        n
                    }
                },
            }
        };
        self.eprocess = Address(next);
        Some(Process { win: self.win, eprocess: cur })
    }
}

/// What `get_pid` returns, over the memory model: the symbol lookups, the
/// address-space limit, then a signed 32-bit read at the resolved offset.
/// `None` stands for a propagated physical-read error.
pub open spec fn pid_outcome(
    bytes: Seq<u8>,
    ok: spec_fn(PhysicalAddress, nat) -> bool,
    sb: StartBlock,
    kernel_pdb: Option<PDB>,
    eprocess: u64,
) -> Option<Result<i32, Error>> {
    match kernel_pdb {
        Option::None => Some(Err(Error::SymbolsNotFound)),
        Option::Some(pdb) => match find_struct(pdb.structs@, "_EPROCESS"@) {
            Option::None => Some(Err(Error::SymbolsNotFound)),
            Option::Some(ep) => match find_field(ep.fields@, "UniqueProcessId"@) {
                Option::None => Some(Err(Error::SymbolsNotFound)),
                Option::Some(f) => if eprocess + f.offset.0 + 4 > u64::MAX {
                    Some(Err(Error::PageNotPresent))
                } else {
                    match virt_read_i32_spec(
                        bytes,
                        ok,
                        sb.arch,
                        sb.dtb.0,
                        (eprocess + f.offset.0) as u64,
                    ) {
                        Option::None => None,
                        Option::Some(v) => Some(Ok(v as i32)),
                    }
                },
            },
        },
    }
}

/// What `get_name` returns, over the memory model: the bytes of a 16-byte
/// read at the resolved `ImageFileName` offset. `None` stands for a
/// propagated physical-read error.
pub open spec fn name_outcome(
    bytes: Seq<u8>,
    ok: spec_fn(PhysicalAddress, nat) -> bool,
    sb: StartBlock,
    kernel_pdb: Option<PDB>,
    eprocess: u64,
) -> Option<Result<Seq<u8>, Error>> {
    match kernel_pdb {
        Option::None => Some(Err(Error::SymbolsNotFound)),
        Option::Some(pdb) => match find_struct(pdb.structs@, "_EPROCESS"@) {
            Option::None => Some(Err(Error::SymbolsNotFound)),
            Option::Some(ep) => match find_field(ep.fields@, "ImageFileName"@) {
                Option::None => Some(Err(Error::SymbolsNotFound)),
                Option::Some(f) => if eprocess + f.offset.0 + 16 > u64::MAX {
                    Some(Err(Error::PageNotPresent))
                } else {
                    match virt_read_spec(
                        bytes,
                        ok,
                        sb.arch,
                        sb.dtb.0,
                        (eprocess + f.offset.0) as u64,
                        16,
                    ) {
                        Option::None => None,
                        Option::Some(b) => Some(Ok(b)),
                    }
                },
            },
        },
    }
}

impl<'a> Process<'a> {
    /// A per-process view of `win` rooted at `eprocess`.
    pub fn new(win: &'a Windows, eprocess: Address) -> (r: Process<'a>)
        ensures
            r.win == win,
            r.eprocess == eprocess,
    {
        Process { win, eprocess }
    }

    /// The process id: the signed 32-bit `UniqueProcessId` field.
    pub fn get_pid<T: AccessPhysicalMemory>(&self, mem: &mut T) -> (r: Result<i32, Error>)
        requires
            old(mem).inv(),
            self.win.start_block.dtb.0 + 0x1000 <= u64::MAX,
        ensures
            final(mem).inv(),
            final(mem).mem() == old(mem).mem(),
            forall|x: PhysicalAddress, l: nat|
                #[trigger] final(mem).read_ok(x, l) == old(mem).read_ok(x, l),
            forall|x: PhysicalAddress, l: nat|
                #[trigger] final(mem).write_ok(x, l) == old(mem).write_ok(x, l),
            ({
                match pid_outcome(
                    old(mem).mem(),
                    read_ok_fn(*old(mem)),
                    self.win.start_block,
                    self.win.kernel_pdb,
                    self.eprocess.0,
                ) {
                    Option::Some(out) => r == out,
                    Option::None => r is Err,
                }
            }),
    {
        let pdb = match &self.win.kernel_pdb {
            Some(p) => p,
            None => {
                return Err(Error::SymbolsNotFound);
            },
        };
        let ep = match pdb.get_struct("_EPROCESS") {
            Some(s) => s,
            None => {
                return Err(Error::SymbolsNotFound);
            },
        };
        let f = match ep.get_field("UniqueProcessId") {
            Some(f) => f,
            None => {
                return Err(Error::SymbolsNotFound);
            },
        };
        let off = f.offset.0;
        if off > u64::MAX - self.eprocess.0 || 4 > u64::MAX - (self.eprocess.0 + off) {
            return Err(Error::PageNotPresent);
        }
        virt_read_i32(
            mem,
            self.win.start_block.arch,
            self.win.start_block.dtb,
            Address(self.eprocess.0 + off),
        )
    }

    /// The process name: the 16-byte `ImageFileName` field, truncated at
    /// its first NUL and decoded as UTF-8.
    pub fn get_name<T: AccessPhysicalMemory>(&self, mem: &mut T) -> (r: Result<String, Error>)
        requires
            old(mem).inv(),
            self.win.start_block.dtb.0 + 0x1000 <= u64::MAX,
        ensures
            final(mem).inv(),
            final(mem).mem() == old(mem).mem(),
            forall|x: PhysicalAddress, l: nat|
                #[trigger] final(mem).read_ok(x, l) == old(mem).read_ok(x, l),
            forall|x: PhysicalAddress, l: nat|
                #[trigger] final(mem).write_ok(x, l) == old(mem).write_ok(x, l),
            ({
                match name_outcome(
                    old(mem).mem(),
                    read_ok_fn(*old(mem)),
                    self.win.start_block,
                    self.win.kernel_pdb,
                    self.eprocess.0,
                ) {
                    Option::Some(Result::Ok(b)) => r is Ok && (vstd::utf8::valid_utf8(cstr_of(b))
                        ==> r.unwrap()@ == vstd::utf8::decode_utf8(cstr_of(b))),
                    Option::Some(Result::Err(e)) => r == Err::<String, Error>(e),
                    Option::None => r is Err,
                }
            }),
    {
        let pdb = match &self.win.kernel_pdb {
            Some(p) => p,
            None => {
                return Err(Error::SymbolsNotFound);
            },
        };
        let ep = match pdb.get_struct("_EPROCESS") {
            Some(s) => s,
            None => {
                return Err(Error::SymbolsNotFound);
            },
        };
        let f = match ep.get_field("ImageFileName") {
            Some(f) => f,
            None => {
                return Err(Error::SymbolsNotFound);
            },
        };
        let off = f.offset.0;
        if off > u64::MAX - self.eprocess.0 || 16 > u64::MAX - (self.eprocess.0 + off) {
            return Err(Error::PageNotPresent);
        }
        virt_read_cstr(
            mem,
            self.win.start_block.arch,
            self.win.start_block.dtb,
            Address(self.eprocess.0 + off),
            Length(16),
        )
    }
}

} // verus!
