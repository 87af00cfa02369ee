//! Plugin machinery: connector arguments, log levels, the ABI version
//! check, the shared-library lifetime discipline, the instantiation
//! helpers connectors are built from, and export scanning of candidate
//! libraries.

use vstd::prelude::*;

use crate::types::Error;

verus! {

/// The connector ABI version this inventory was built for. A plugin built
/// against any other version is refused.
pub const MEMFLOW_CONNECTOR_VERSION: i32 = 8;

/// Whether a descriptor's version is the supported one.
pub open spec fn version_ok(v: i32) -> bool {
    v == MEMFLOW_CONNECTOR_VERSION
}

/// The version check: accept a connector descriptor exactly when it
/// matches this ABI version. Loading never yields an instance from a
/// mismatched plugin, because instantiation only happens after this
/// check succeeds.
pub fn check_connector_version(connector_version: i32) -> (r: Result<(), Error>)
    ensures
        r is Ok <==> version_ok(connector_version),
        r is Err ==> r == Err::<(), Error>(Error::VersionMismatch),
{
    if connector_version == MEMFLOW_CONNECTOR_VERSION {
        Ok(())
    } else {
        Err(Error::VersionMismatch)
    }
}

/// Shared-ownership bookkeeping for one loaded plugin library: the count
/// of handles (the inventory's own plus every connector instance and
/// clone) that keep it mapped, and whether it has been unloaded.
pub struct LibraryRefs {
    pub live: u64,
    pub unloaded: bool,
}

impl LibraryRefs {
    /// The lifetime discipline: the library is unloaded exactly when no
    /// handle remains.
    pub open spec fn wf(&self) -> bool {
        self.unloaded <==> self.live == 0
    }

    /// A freshly loaded library, kept alive by the inventory's handle.
    pub fn new_loaded() -> (r: LibraryRefs)
        ensures
            r.wf(),
            r.live == 1,
            !r.unloaded,
    {
        LibraryRefs { live: 1, unloaded: false }
    }

    /// A new instance or clone takes a handle on the library.
    pub fn acquire(&mut self)
        requires
            old(self).wf(),
            !old(self).unloaded,
            old(self).live < u64::MAX,
        ensures
            final(self).wf(),
            final(self).live == old(self).live + 1,
            !final(self).unloaded,
    {
        self.live = self.live + 1;
    }

    /// A dropped instance or clone releases its handle; the library is
    /// unloaded exactly when it was the last one.
    pub fn release(&mut self)
        requires
            old(self).wf(),
            old(self).live > 0,
        ensures
            final(self).wf(),
            final(self).live == old(self).live - 1,
            final(self).unloaded <==> old(self).live == 1,
    {
        self.live = self.live - 1;
        if self.live == 0 {
            self.unloaded = true;
        }
    }
}

/// Lifetime law: after one handle is released, the library is unloaded
/// exactly when no other handle (instance or clone) remained beside it.
pub proof fn lemma_library_lifetime(before: LibraryRefs, after: LibraryRefs)
    requires
        before.wf(),
        before.live > 0,
        after.wf(),
        after.live == before.live - 1,
    ensures
        after.unloaded <==> before.live == 1,
{
}

/// The log levels a connector can be created with.
#[derive(Clone, Copy, Debug, PartialEq, Eq, Structural)]
pub enum Level {
    Error,
    Warn,
    Info,
    Debug,
    Trace,
}

/// The level encoded by an integer: one through five name the levels from
/// error to trace; anything else means trace.
pub open spec fn level_from(l: int) -> Level {
    if l == 1 {
        Level::Error
    } else if l == 2 {
        Level::Warn
    } else if l == 3 {
        Level::Info
    } else if l == 4 {
        Level::Debug
    } else {
        Level::Trace
    }
}

/// Decode a wire-format log level.
pub fn level_from_i32(log_level: i32) -> (r: Level)
    ensures
        r == level_from(log_level as int),
{
    match log_level {
        1 => Level::Error,
        2 => Level::Warn,
        3 => Level::Info,
        4 => Level::Debug,
        _ => Level::Trace,
    }
}

/// The index of the first occurrence of `ch` in `s`, or `s`'s length.
pub open spec fn find_char(s: Seq<char>, ch: char) -> int
    decreases s.len(),
{
    if s.len() == 0 {
        0
    } else if s[0] == ch {
        0
    } else {
        1 + find_char(s.skip(1), ch)
    }
}

/// `find_char` lands between zero and the length.
pub proof fn lemma_find_char_bounds(s: Seq<char>, ch: char)
    ensures
        0 <= find_char(s, ch) <= s.len(),
    decreases s.len(),
{
    if s.len() != 0 && s[0] != ch {
        lemma_find_char_bounds(s.skip(1), ch);
    }
}

/// `find_char` is characterised by scanning.
pub proof fn lemma_find_char(s: Seq<char>, ch: char, k: int)
    requires
        0 <= k <= s.len(),
        forall|j: int| 0 <= j < k ==> s[j] != ch,
        k == s.len() || s[k] == ch,
    ensures
        find_char(s, ch) == k,
    decreases s.len(),
{
    if s.len() != 0 && k != 0 {
        lemma_find_char(s.skip(1), ch, k - 1);
    }
}

/// One `key=value` part: the text before the first `=` and the text after
/// it; `None` when the part has no `=` at all.
pub open spec fn parse_part(part: Seq<char>) -> Option<(Seq<char>, Seq<char>)> {
    let e = find_char(part, '=');
    if e == part.len() {
        None
    } else {
        Some((part.take(e), part.skip(e + 1)))
    }
}

/// A comma-separated list of `key=value` pairs. The empty string holds no
/// pairs; otherwise every comma-separated part must carry an `=`. A
/// trailing comma after the last pair is tolerated.
pub open spec fn parse_args_spec(s: Seq<char>) -> Option<Seq<(Seq<char>, Seq<char>)>>
    decreases s.len(),
    via parse_args_spec_decreases
{
    if s.len() == 0 {
        Some(Seq::empty())
    } else {
        let c = find_char(s, ',');
        match parse_part(s.take(c)) {
            Option::None => None,
            Option::Some(kv) => if c == s.len() {
                Some(seq![kv])
            } else {
                match parse_args_spec(s.skip(c + 1)) {
                    Option::None => None,
                    Option::Some(rest) => Some(seq![kv] + rest),
                }
            },
        }
    }
}

#[via_fn]
proof fn parse_args_spec_decreases(s: Seq<char>) {
    lemma_find_char_bounds(s, ',');
}

/// The serialized form: `key=value` pairs joined by commas.
pub open spec fn serialize_args(entries: Seq<(Seq<char>, Seq<char>)>) -> Seq<char>
    decreases entries.len(),
{
    if entries.len() == 0 {
        Seq::empty()
    } else {
        let head = entries[0].0 + seq!['='] + entries[0].1;
        if entries.len() == 1 {
            head
        } else {
            head + seq![','] + serialize_args(entries.skip(1))
        }
    }
}

/// A connector's creation arguments: an ordered list of key/value pairs.
#[derive(Debug)]
pub struct Args {
    pub entries: Vec<(String, String)>,
}

impl View for Args {
    type V = Seq<(Seq<char>, Seq<char>)>;

    open spec fn view(&self) -> Seq<(Seq<char>, Seq<char>)> {
        Seq::new(self.entries@.len(), |i: int| (self.entries@[i].0@, self.entries@[i].1@))
    }
}

impl Args {
    /// No arguments.
    pub fn new() -> (r: Args)
        ensures
            r@ == Seq::<(Seq<char>, Seq<char>)>::empty(),
    {
        let r = Args { entries: Vec::new() };
        proof {
            assert(r@ =~= Seq::<(Seq<char>, Seq<char>)>::empty());
        }
        r
    }

    /// Parse a comma-separated `key=value` list.
    #[verifier::loop_isolation(false)]
    pub fn parse(s: &str) -> (r: Result<Args, Error>)
        ensures
            match parse_args_spec(s@) {
                Option::Some(entries) => r is Ok && r.unwrap()@ == entries,
                Option::None => r == Err::<Args, Error>(Error::InvalidArgs),
            },
    {
        let len = s.unicode_len();
        let mut entries: Vec<(String, String)> = Vec::new();
        let ghost dv = Seq::new(entries@.len(), |i: int| (entries@[i].0@, entries@[i].1@));
        let mut pos: usize = 0;
        proof {
            assert(s@.skip(0) =~= s@);
        }
        while pos < len
            invariant
                pos <= len,
                len == s@.len(),
                ({
                    let acc = Seq::new(
                        entries@.len(),
                        |i: int| (entries@[i].0@, entries@[i].1@),
                    );
                    parse_args_spec(s@) == (match parse_args_spec(s@.skip(pos as int)) {
                        Option::None => None::<Seq<(Seq<char>, Seq<char>)>>,
                        Option::Some(rest) => Some(acc + rest),
                    })
                }),
            decreases len - pos,
        {
            let ghost acc_prev = Seq::new(
                entries@.len(),
                |i: int| (entries@[i].0@, entries@[i].1@),
            );
            // find the end of this part
            let mut j: usize = pos;
            let mut found_comma = false;
            while !found_comma && j < len
                invariant
                    pos <= j <= len,
                    len == s@.len(),
                    forall|q: int| pos <= q < j ==> s@[q] != ',',
                    found_comma ==> j < len && s@[j as int] == ',',
                decreases len - j + (if found_comma {
                    0int
                } else {
                    1int
                }),
            {
                if s.get_char(j) == ',' {
                    found_comma = true;
                } else {
                    j = j + 1;
                }
            }
            proof {
                assert forall|q: int| 0 <= q < j - pos implies s@.skip(pos as int)[q] != ',' by {
                    assert(s@.skip(pos as int)[q] == s@[pos + q]);
                }
                if found_comma {
                    lemma_find_char(s@.skip(pos as int), ',', j - pos);
                } else {
                    lemma_find_char(s@.skip(pos as int), ',', j - pos);
                }
                assert(s@.skip(pos as int).take(j - pos) =~= s@.subrange(pos as int, j as int));
            }
            // find the first '=' within the part
            let mut e: usize = pos;
            let mut found_eq = false;
            while !found_eq && e < j
                invariant
                    pos <= e <= j <= len,
                    len == s@.len(),
                    forall|q: int| pos <= q < e ==> s@[q] != '=',
                    found_eq ==> e < j && s@[e as int] == '=',
                decreases j - e + (if found_eq {
                    0int
                } else {
                    1int
                }),
            {
                if s.get_char(e) == '=' {
                    found_eq = true;
                } else {
                    e = e + 1;
                }
            }
            let ghost part = s@.subrange(pos as int, j as int);
            proof {
                assert forall|q: int| 0 <= q < e - pos implies part[q] != '=' by {
                    assert(part[q] == s@[pos + q]);
                }
                lemma_find_char(part, '=', e - pos);
            }
            if !found_eq {
                proof {
                    assert(parse_part(part) is None);
                    assert(parse_args_spec(s@.skip(pos as int)) is None);
                }
                return Err(Error::InvalidArgs);
            }
            let key = String::from_str(s.substring_char(pos, e));
            let value = String::from_str(s.substring_char(e + 1, j));
            proof {
                assert(key@ =~= part.take(e - pos));
                assert(value@ =~= part.skip(e - pos + 1));
                assert(parse_part(part) == Some((key@, value@)));
            }
            entries.push((key, value));
            proof {
                let acc = Seq::new(entries@.len(), |i: int| (entries@[i].0@, entries@[i].1@));
                assert(acc =~= acc_prev.push((key@, value@)));
                if j == len {
                    assert(parse_args_spec(s@.skip(pos as int)) == Some(seq![(key@, value@)]));
                    assert(acc_prev + seq![(key@, value@)] =~= acc);
                    assert(s@.skip(len as int) =~= Seq::<char>::empty());
                    assert(acc + Seq::<(Seq<char>, Seq<char>)>::empty() =~= acc);
                } else {
                    assert(s@.skip(pos as int).skip(j - pos + 1) =~= s@.skip(j + 1));
                    match parse_args_spec(s@.skip(j + 1)) {
                        Option::None => {
                            assert(parse_args_spec(s@.skip(pos as int)) is None);
                        },
                        Option::Some(rest) => {
                            assert(parse_args_spec(s@.skip(pos as int)) == Some(
                                seq![(key@, value@)] + rest,
                            ));
                            assert(acc_prev + (seq![(key@, value@)] + rest) =~= acc + rest);
                        },
                    }
                }
            }
            if j == len {
                pos = len;
            } else {
                pos = j + 1;
            }
        }
        proof {
            assert(s@.skip(len as int) =~= Seq::<char>::empty());
            let acc = Seq::new(entries@.len(), |i: int| (entries@[i].0@, entries@[i].1@));
            assert(acc + Seq::<(Seq<char>, Seq<char>)>::empty() =~= acc);
        }
        let r = Args { entries };
        Ok(r)
    }

    /// Serialize back to a comma-separated `key=value` list (without the
    /// trailing NUL, which belongs to the C boundary).
    #[verifier::loop_isolation(false)]
    pub fn to_arg_string(&self) -> (r: String)
        ensures
            r@ == serialize_args(self@),
    {
        proof {
            reveal_strlit("=");
            reveal_strlit(",");
        }
        let mut out = String::new();
        let n = self.entries.len();
        let mut i: usize = 0;
        proof {
            assert(self@.skip(0) =~= self@);
            assert(out@ + serialize_args(self@) =~= serialize_args(self@));
        }
        while i < n
            invariant
                i <= n,
                n == self.entries@.len(),
                serialize_args(self@) == out@ + serialize_args(self@.skip(i as int)),
            decreases n - i,
        {
            let ghost out_prev = out@;
            out.append(self.entries[i].0.as_str());
            out.append("=");
            out.append(self.entries[i].1.as_str());
            if i + 1 < n {
                out.append(",");
            }
            proof {
                let suffix = self@.skip(i as int);
                assert(suffix[0] == (self.entries@[i as int].0@, self.entries@[i as int].1@));
                assert(suffix.skip(1) =~= self@.skip(i as int + 1));
                let head = suffix[0].0 + seq!['='] + suffix[0].1;
                assert("="@ =~= seq!['=']);
                assert(","@ =~= seq![',']);
                if i + 1 < n {
                    assert(out@ =~= out_prev + (head + seq![',']));
                    assert(serialize_args(suffix) =~= (head + seq![',']) + serialize_args(
                        suffix.skip(1),
                    ));
                    assert(out_prev + ((head + seq![',']) + serialize_args(suffix.skip(1))) =~= (
                    out_prev + (head + seq![','])) + serialize_args(suffix.skip(1)));
                } else {
                    assert(out@ =~= out_prev + head);
                    assert(serialize_args(suffix) =~= head);
                    assert(self@.skip(i as int + 1) =~= Seq::<(Seq<char>, Seq<char>)>::empty());
                    assert(out@ + serialize_args(self@.skip(i as int + 1)) =~= out@);
                }
            }
            i = i + 1;
        }
        proof {
            assert(self@.skip(n as int) =~= Seq::<(Seq<char>, Seq<char>)>::empty());
            assert(out@ + serialize_args(self@.skip(n as int)) =~= out@);
        }
        out
    }
}

/// The symbol names of the ELF image `b` parses as, in symbol-table
/// order, each `None` where the string table yields no name; `None`
/// overall when `b` is no valid ELF image. A function of the bytes alone.
pub uninterp spec fn elf_symbol_names(b: Seq<u8>) -> Option<Seq<Option<Seq<char>>>>;

/// Relies on goblin::elf::Elf::parse and Strtab::get_at: every symbol's
/// name looked up in the string table, in symbol-table order.
#[verifier::external_body]
fn parse_elf_symbols(buf: &[u8]) -> (r: Option<Vec<Option<String>>>)
    ensures
        match r {
            Some(v) => elf_symbol_names(buf@) == Some(v.deep_view()),
            None => elf_symbol_names(buf@) is None,
        },
{
    match goblin::elf::Elf::parse(buf) {
        Ok(elf) => Some(
            elf.syms.iter().map(|s| elf.strtab.get_at(s.st_name).map(|n| n.to_owned())).collect(),
        ),
        Err(_) => None,
    }
}

/// Whether `p` is a prefix of `s`.
pub open spec fn is_prefix(p: Seq<char>, s: Seq<char>) -> bool {
    p.len() <= s.len() && s.subrange(0, p.len() as int) == p
}

/// Relies on str::starts_with: true exactly when the pattern matches a
/// prefix of the string slice.
#[verifier::external_body]
fn str_starts_with(s: &str, prefix: &str) -> (r: bool)
    ensures
        r == is_prefix(prefix@, s@),
{
    s.starts_with(prefix)
}

/// The named symbols that begin with `prefix`, in order.
pub open spec fn prefixed_names(names: Seq<Option<Seq<char>>>, prefix: Seq<char>) -> Seq<Seq<char>>
    decreases names.len(),
{
    if names.len() == 0 {
        Seq::empty()
    } else {
        let rest = prefixed_names(names.drop_last(), prefix);
        match names.last() {
            Option::Some(n) => if is_prefix(prefix, n) {
                rest.push(n)
            } else {
                rest
            },
            Option::None => rest,
        }
    }
}

/// Filter a symbol list down to the named entries that begin with
/// `prefix`.
#[verifier::loop_isolation(false)]
fn filter_prefixed(syms: &Vec<Option<String>>, prefix: &str) -> (r: Vec<String>)
    ensures
        r.deep_view() == prefixed_names(syms.deep_view(), prefix@),
{
    let ghost names = syms.deep_view();
    let mut out: Vec<String> = Vec::new();
    let mut i: usize = 0;
    proof {
        assert(names.take(0) =~= Seq::<Option<Seq<char>>>::empty());
        assert(out.deep_view() =~= prefixed_names(names.take(0), prefix@));
    }
    while i < syms.len()
        invariant
            i <= syms@.len(),
            names == syms.deep_view(),
            out.deep_view() == prefixed_names(names.take(i as int), prefix@),
        decreases syms@.len() - i,
    {
        let ghost out_prev = out.deep_view();
        proof {
            assert(names.take(i as int + 1).drop_last() =~= names.take(i as int));
            assert(names.take(i as int + 1).last() == names[i as int]);
            assert(names[i as int] == syms@[i as int].deep_view());
        }
        match &syms[i] {
            Some(name) => {
                if str_starts_with(name.as_str(), prefix) {
                    let owned = name.clone();
                    out.push(owned);
                    proof {
                        assert(out.deep_view() =~= out_prev.push(name@));
                    }
                } else {
                    proof {
                        assert(out.deep_view() =~= out_prev);
                    }
                }
            },
            None => {
                proof {
                    assert(out.deep_view() =~= out_prev);
                }
            },
        }
        i = i + 1;
    }
    proof {
        assert(names.take(syms@.len() as int) =~= names);
    }
    out
}

/// Scan an ELF image's symbol table for exported names that begin with
/// `prefix`. The caller supplies the library file's bytes.
pub fn find_export_by_prefix(buf: &[u8], prefix: &str) -> (r: Result<Vec<String>, Error>)
    ensures
        match elf_symbol_names(buf@) {
            Option::Some(names) => r is Ok && r.unwrap().deep_view() == prefixed_names(
                names,
                prefix@,
            ),
            Option::None => r == Err::<Vec<String>, Error>(Error::Connector),
        },
{
    match parse_elf_symbols(buf) {
        Some(v) => Ok(filter_prefixed(&v, prefix)),
        None => Err(Error::Connector),
    }
}

/// The export-directory names of the PE image `b` parses as; `None` when
/// `b` is no valid PE image. A function of the bytes alone.
pub uninterp spec fn pe_symbol_names(b: Seq<u8>) -> Option<Seq<Option<Seq<char>>>>;

/// Relies on goblin::pe::PE::parse: the export directory's entries, in
/// order, each with its name where it carries one.
#[verifier::external_body]
fn parse_pe_exports(buf: &[u8]) -> (r: Option<Vec<Option<String>>>)
    ensures
        match r {
            Some(v) => pe_symbol_names(buf@) == Some(v.deep_view()),
            None => pe_symbol_names(buf@) is None,
        },
{
    match goblin::pe::PE::parse(buf) {
        Ok(pe) => Some(pe.exports.iter().map(|e| e.name.map(|n| n.to_owned())).collect()),
        Err(_) => None,
    }
}

/// Scan a PE image's export directory for names that begin with `prefix`.
pub fn find_export_by_prefix_pe(buf: &[u8], prefix: &str) -> (r: Result<Vec<String>, Error>)
    ensures
        match pe_symbol_names(buf@) {
            Option::Some(names) => r is Ok && r.unwrap().deep_view() == prefixed_names(
                names,
                prefix@,
            ),
            Option::None => r == Err::<Vec<String>, Error>(Error::Connector),
        },
{
    match parse_pe_exports(buf) {
        Some(v) => Ok(filter_prefixed(&v, prefix)),
        None => Err(Error::Connector),
    }
}

/// The symbol names of the Mach-O image `b` parses as (for a fat
/// container, of its first Mach-O member); `None` when `b` holds neither.
/// A function of the bytes alone.
pub uninterp spec fn macho_symbol_names(b: Seq<u8>) -> Option<Seq<Option<Seq<char>>>>;

/// Relies on goblin::mach::Mach::parse and SymbolIterator: the symbol
/// names of the binary, taken from the first Mach-O member of a fat
/// container; entries whose name cannot be read are `None`.
#[verifier::external_body]
fn parse_macho_symbols(buf: &[u8]) -> (r: Option<Vec<Option<String>>>)
    ensures
        match r {
            Some(v) => macho_symbol_names(buf@) == Some(v.deep_view()),
            None => macho_symbol_names(buf@) is None,
        },
{
    let macho = match goblin::mach::Mach::parse(buf) {
        Ok(goblin::mach::Mach::Binary(m)) => m,
        Ok(goblin::mach::Mach::Fat(fat)) => {
            match (0..fat.narches).find_map(|i| match fat.get(i) {
                Ok(goblin::mach::SingleArch::MachO(m)) => Some(m),
                _ => None,
            }) {
                Some(m) => m,
                None => return None,
            }
        },
        Err(_) => return None,
    };
    Some(macho.symbols().map(|res| res.ok().map(|(name, _)| name.to_string())).collect())
}

/// The named symbols that begin with an underscore followed by `prefix`,
/// with that underscore stripped: Mach-O object files prefix every symbol
/// name with one.
pub open spec fn macho_prefixed_names(names: Seq<Option<Seq<char>>>, prefix: Seq<char>) -> Seq<
    Seq<char>,
>
    decreases names.len(),
{
    if names.len() == 0 {
        Seq::empty()
    } else {
        let rest = macho_prefixed_names(names.drop_last(), prefix);
        match names.last() {
            Option::Some(n) => if is_prefix(seq!['_'] + prefix, n) {
                rest.push(n.skip(1))
            } else {
                rest
            },
            Option::None => rest,
        }
    }
}

/// Scan a Mach-O image's symbol table for names that begin with `prefix`,
/// stripping the leading underscore the object format adds.
#[verifier::loop_isolation(false)]
pub fn find_export_by_prefix_macho(buf: &[u8], prefix: &str) -> (r: Result<Vec<String>, Error>)
    ensures
        match macho_symbol_names(buf@) {
            Option::Some(names) => r is Ok && r.unwrap().deep_view() == macho_prefixed_names(
                names,
                prefix@,
            ),
            Option::None => r == Err::<Vec<String>, Error>(Error::Connector),
        },
{
    let syms = match parse_macho_symbols(buf) {
        Some(v) => v,
        None => {
            return Err(Error::Connector);
        },
    };
    proof {
        reveal_strlit("_");
    }
    let macho_prefix = String::from_str("_").concat(prefix);
    proof {
        assert(macho_prefix@ =~= seq!['_'] + prefix@);
    }
    let ghost names = syms.deep_view();
    let mut out: Vec<String> = Vec::new();
    let mut i: usize = 0;
    proof {
        assert(names.take(0) =~= Seq::<Option<Seq<char>>>::empty());
        assert(out.deep_view() =~= macho_prefixed_names(names.take(0), prefix@));
    }
    while i < syms.len()
        invariant
            i <= syms@.len(),
            names == syms.deep_view(),
            macho_prefix@ == seq!['_'] + prefix@,
            out.deep_view() == macho_prefixed_names(names.take(i as int), prefix@),
        decreases syms@.len() - i,
    {
        let ghost out_prev = out.deep_view();
        proof {
            assert(names.take(i as int + 1).drop_last() =~= names.take(i as int));
            assert(names.take(i as int + 1).last() == names[i as int]);
            assert(names[i as int] == syms@[i as int].deep_view());
        }
        match &syms[i] {
            Some(name) => {
                if str_starts_with(name.as_str(), macho_prefix.as_str()) {
                    let name_len = name.as_str().unicode_len();
                    let stripped = String::from_str(name.as_str().substring_char(1, name_len));
                    proof {
                        assert(stripped@ =~= name@.skip(1));
                    }
                    out.push(stripped);
                    proof {
                        assert(out.deep_view() =~= out_prev.push(name@.skip(1)));
                    }
                } else {
                    proof {
                        assert(out.deep_view() =~= out_prev);
                    }
                }
            },
            None => {
                proof {
                    assert(out.deep_view() =~= out_prev);
                }
            },
        }
        i = i + 1;
    }
    proof {
        assert(names.take(syms@.len() as int) =~= names);
    }
    Ok(out)
}

/// Instantiate an object from an argument string and a wire-format log
/// level: the pattern every connector's create entry point follows. The
/// status is zero exactly on success; the creation function receives the
/// parsed arguments and the decoded level.
pub fn create_with_logging<T, F: FnOnce(Args, Level) -> Result<T, Error>>(
    args: &str,
    log_level: i32,
    create_fn: F,
) -> (r: (i32, Option<T>))
    requires
        forall|a: Args, lvl: Level| #[trigger] call_requires(create_fn, (a, lvl)),
    ensures
        parse_args_spec(args@) is None ==> r.0 == -1 && r.1 is None,
        parse_args_spec(args@) is Some && r.1 is Some ==> r.0 == 0 && exists|a: Args|
            a@ == parse_args_spec(args@).unwrap() && #[trigger] call_ensures(
                create_fn,
                (a, level_from(log_level as int)),
                Ok(r.1.unwrap()),
            ),
        parse_args_spec(args@) is Some && r.1 is None ==> r.0 == -1 && exists|a: Args, e: Error|
            a@ == parse_args_spec(args@).unwrap() && #[trigger] call_ensures(
                create_fn,
                (a, level_from(log_level as int)),
                Err::<T, Error>(e),
            ),
{
    let level = level_from_i32(log_level);
    match Args::parse(args) {
        Result::Err(_) => (-1, None),
        Result::Ok(parsed) => {
            let ghost pa = parsed;
            match create_fn(parsed, level) {
                Result::Ok(t) => {
                    let ghost gt = t;
                    let res: (i32, Option<T>) = (0, Some(t));
                    proof {
                        let lvl = level_from(log_level as int);
                        let entries = parse_args_spec(args@).unwrap();
                        assert(res.1.unwrap() == gt);
                        assert(exists|a: Args|
                            a@ == entries && #[trigger] call_ensures(
                                create_fn,
                                (a, lvl),
                                Ok::<T, Error>(res.1.unwrap()),
                            )) by {
                            assert(pa@ == entries && call_ensures(
                                create_fn,
                                (pa, lvl),
                                Ok::<T, Error>(res.1.unwrap()),
                            ));
                        }
                    }
                    res
                },
                Result::Err(e) => {
                    proof {
                        let lvl = level_from(log_level as int);
                        let entries = parse_args_spec(args@).unwrap();
                        assert(call_ensures(create_fn, (pa, lvl), Err::<T, Error>(e)));
                        assert(exists|a: Args, e2: Error|
                            a@ == entries && #[trigger] call_ensures(
                                create_fn,
                                (a, lvl),
                                Err::<T, Error>(e2),
                            )) by {
                            assert(pa@ == entries && call_ensures(
                                create_fn,
                                (pa, lvl),
                                Err::<T, Error>(e),
                            ));
                        }
                    }
                    (-1, None)
                },
            }
        },
    }
}

/// Instantiate an object that also consumes a caller-supplied input value
/// alongside the parsed arguments and log level.
pub fn create_bare<T, I, F: FnOnce(Args, I, Level) -> Result<T, Error>>(
    args: &str,
    input: I,
    log_level: i32,
    create_fn: F,
) -> (r: (i32, Option<T>))
    requires
        forall|a: Args, inp: I, lvl: Level| #[trigger] call_requires(create_fn, (a, inp, lvl)),
    ensures
        parse_args_spec(args@) is None ==> r.0 == -1 && r.1 is None,
        parse_args_spec(args@) is Some && r.1 is Some ==> r.0 == 0 && exists|a: Args|
            a@ == parse_args_spec(args@).unwrap() && #[trigger] call_ensures(
                create_fn,
                (a, input, level_from(log_level as int)),
                Ok(r.1.unwrap()),
            ),
        parse_args_spec(args@) is Some && r.1 is None ==> r.0 == -1 && exists|a: Args, e: Error|
            a@ == parse_args_spec(args@).unwrap() && #[trigger] call_ensures(
                create_fn,
                (a, input, level_from(log_level as int)),
                Err::<T, Error>(e),
            ),
{
    let level = level_from_i32(log_level);
    match Args::parse(args) {
        Result::Err(_) => (-1, None),
        Result::Ok(parsed) => {
            let ghost pa = parsed;
            let ghost pi = input;
            match create_fn(parsed, input, level) {
                Result::Ok(t) => {
                    let ghost gt = t;
                    let res: (i32, Option<T>) = (0, Some(t));
                    proof {
                        let lvl = level_from(log_level as int);
                        let entries = parse_args_spec(args@).unwrap();
                        assert(res.1.unwrap() == gt);
                        assert(exists|a: Args|
                            a@ == entries && #[trigger] call_ensures(
                                create_fn,
                                (a, pi, lvl),
                                Ok::<T, Error>(res.1.unwrap()),
                            )) by {
                            assert(pa@ == entries && call_ensures(
                                create_fn,
                                (pa, pi, lvl),
                                Ok::<T, Error>(res.1.unwrap()),
                            ));
                        }
                    }
                    res
                },
                Result::Err(e) => {
                    proof {
                        let lvl = level_from(log_level as int);
                        let entries = parse_args_spec(args@).unwrap();
                        assert(exists|a: Args, e2: Error|
                            a@ == entries && #[trigger] call_ensures(
                                create_fn,
                                (a, pi, lvl),
                                Err::<T, Error>(e2),
                            )) by {
                            assert(pa@ == entries && call_ensures(
                                create_fn,
                                (pa, pi, lvl),
                                Err::<T, Error>(e),
                            ));
                        }
                    }
                    (-1, None)
                },
            }
        },
    }
}

/// Instantiate an object from an argument string alone, without logging.
pub fn create_without_logging<T, F: FnOnce(Args) -> Result<T, Error>>(
    args: &str,
    create_fn: F,
) -> (r: (i32, Option<T>))
    requires
        forall|a: Args| #[trigger] call_requires(create_fn, (a,)),
    ensures
        parse_args_spec(args@) is None ==> r.0 == -1 && r.1 is None,
        parse_args_spec(args@) is Some && r.1 is Some ==> r.0 == 0 && exists|a: Args|
            a@ == parse_args_spec(args@).unwrap() && #[trigger] call_ensures(
                create_fn,
                (a,),
                Ok(r.1.unwrap()),
            ),
        parse_args_spec(args@) is Some && r.1 is None ==> r.0 == -1 && exists|a: Args, e: Error|
            a@ == parse_args_spec(args@).unwrap() && #[trigger] call_ensures(
                create_fn,
                (a,),
                Err::<T, Error>(e),
            ),
{
    match Args::parse(args) {
        Result::Err(_) => (-1, None),
        Result::Ok(parsed) => {
            let ghost pa = parsed;
            match create_fn(parsed) {
                Result::Ok(t) => {
                    let ghost gt = t;
                    let res: (i32, Option<T>) = (0, Some(t));
                    proof {
                        let entries = parse_args_spec(args@).unwrap();
                        assert(res.1.unwrap() == gt);
                        assert(exists|a: Args|
                            a@ == entries && #[trigger] call_ensures(
                                create_fn,
                                (a,),
                                Ok::<T, Error>(res.1.unwrap()),
                            )) by {
                            assert(pa@ == entries && call_ensures(
                                create_fn,
                                (pa,),
                                Ok::<T, Error>(res.1.unwrap()),
                            ));
                        }
                    }
                    res
                },
                Result::Err(e) => {
                    proof {
                        let entries = parse_args_spec(args@).unwrap();
                        assert(exists|a: Args, e2: Error|
                            a@ == entries && #[trigger] call_ensures(
                                create_fn,
                                (a,),
                                Err::<T, Error>(e2),
                            )) by {
                            assert(pa@ == entries && call_ensures(
                                create_fn,
                                (pa,),
                                Err::<T, Error>(e),
                            ));
                        }
                    }
                    (-1, None)
                },
            }
        },
    }
}

/// Whether `ident` already occurs among `names`: the decision behind the
/// inventory's first-wins rule for duplicate connector names.
pub fn contains_ident(names: &Vec<String>, ident: &str) -> (r: bool)
    ensures
        r == exists|k: int| 0 <= k < names@.len() && (#[trigger] names@[k])@ == ident@,
{
    let n = names.len();
    let mut i: usize = 0;
    while i < n
        invariant
            i <= n,
            n == names@.len(),
            forall|k: int| 0 <= k < i ==> (#[trigger] names@[k])@ != ident@,
        decreases n - i,
    {
        if crate::process::str_eq(names[i].as_str(), ident) {
            proof {
                assert((names@[i as int])@ == ident@);
            }
            return true;
        }
        i = i + 1;
    }
    false
}

} // verus!
