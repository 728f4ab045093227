use vstd::hash_map::StringHashMap;
use vstd::prelude::*;

use crate::text::{before_first, chars_of, copy_string, find, find_in, lemma_find_from_some, opt_string_view, lines, ranges_match, split_lines, string_of, trim, trim_bounds};

verus! {

// ---------------------------------------------------------------------------
// The dynamic linker's cache
// ---------------------------------------------------------------------------

/// The libraries that the dynamic linker knows, by name: 32-bit ones and
/// x86-64 ones.
pub struct LdCache {
    pub lib32: StringHashMap<String>,
    pub lib64: StringHashMap<String>,
}

pub open spec fn string_map_view(m: Map<Seq<char>, String>) -> Map<Seq<char>, Seq<char>> {
    m.map_values(|s: String| s@)
}

impl LdCache {
    pub open spec fn view(&self) -> (Map<Seq<char>, Seq<char>>, Map<Seq<char>, Seq<char>>) {
        (string_map_view(self.lib32@), string_map_view(self.lib64@))
    }
}

/// Reading one line of `ldconfig -p`: `name (flags) => path`; a line whose
/// flags mention `x86-64` names a 64-bit library.
pub open spec fn ld_step(
    st: (Map<Seq<char>, Seq<char>>, Map<Seq<char>, Seq<char>>),
    raw: Seq<char>,
) -> (Map<Seq<char>, Seq<char>>, Map<Seq<char>, Seq<char>>) {
    let line = trim(raw);
    match find(line, " => "@) {
        None => st,
        Some(i) => {
            let left = line.take(i);
            let right = line.skip(i + 4);
            let path = before_first(right, " => "@);
            let name = before_first(left, " ("@);
            if find(left, "x86-64"@) is Some {
                (st.0, st.1.insert(name, path))
            } else {
                (st.0.insert(name, path), st.1)
            }
        },
    }
}

/// Reading the lines `ls` in order from empty maps.
pub open spec fn ld_fold(ls: Seq<Seq<char>>) -> (Map<Seq<char>, Seq<char>>, Map<Seq<char>, Seq<char>>)
    decreases ls.len(),
{
    if ls.len() == 0 {
        (Map::empty(), Map::empty())
    } else {
        ld_step(ld_fold(ls.drop_last()), ls.last())
    }
}

/// The libraries that the output of `ldconfig -p` lists (its first line is
/// a summary, not a library).
pub open spec fn parse_ld_cache(text: Seq<char>) -> (Map<Seq<char>, Seq<char>>, Map<Seq<char>, Seq<char>>) {
    let ls = lines(text);
    if ls.len() == 0 {
        ld_fold(ls)
    } else {
        ld_fold(ls.drop_first())
    }
}

proof fn lemma_insert_view(m: Map<Seq<char>, String>, k: Seq<char>, v: String)
    ensures
        string_map_view(m.insert(k, v)) == string_map_view(m).insert(k, v@),
{
    assert(string_map_view(m.insert(k, v)) =~= string_map_view(m).insert(k, v@));
}

/// Reads the output of `ldconfig -p` into the libraries it lists.
pub fn load_ld_cache(text: &str) -> (out: LdCache)
    ensures
        out@ == parse_ld_cache(text@),
{
    let cs = chars_of(text);
    let ranges = split_lines(&cs);
    let arrow = chars_of(" => ");
    let paren = chars_of(" (");
    let x86_64 = chars_of("x86-64");
    let ghost ls = lines(cs@);
    let ghost rest = if ls.len() == 0 {
        ls
    } else {
        ls.drop_first()
    };
    let mut lib32: StringHashMap<String> = StringHashMap::new();
    let mut lib64: StringHashMap<String> = StringHashMap::new();
    proof {
        reveal_strlit(" => ");
        reveal_strlit(" (");
        reveal_strlit("x86-64");
        assert(string_map_view(lib32@) =~= Map::<Seq<char>, Seq<char>>::empty());
        assert(string_map_view(lib64@) =~= Map::<Seq<char>, Seq<char>>::empty());
        assert(rest.take(0) =~= Seq::<Seq<char>>::empty());
    }
    let mut i: usize = 1;
    while i < ranges.len()
        invariant
            cs@ == text@,
            ls == lines(cs@),
            ranges_match(cs@, ranges@, ls),
            ls.len() > 0 ==> rest == ls.drop_first(),
            arrow@ == " => "@,
            paren@ == " ("@,
            x86_64@ == "x86-64"@,
            arrow@.len() == 4,
            paren@.len() == 2,
            x86_64@.len() == 6,
            1 <= i,
            i <= ranges@.len() || ranges@.len() == 0,
            ranges@.len() > 0 ==> ld_fold(rest.take(i - 1)) == (string_map_view(lib32@), string_map_view(lib64@)),
            ranges@.len() == 0 ==> string_map_view(lib32@) == Map::<Seq<char>, Seq<char>>::empty()
                && string_map_view(lib64@) == Map::<Seq<char>, Seq<char>>::empty(),
        decreases ranges@.len() - i,
    {
        let (lo, hi) = ranges[i];
        proof {
            assert(ranges@[i as int] == (lo, hi));
            assert(rest[i - 1] == ls[i as int]);
            assert(rest.take(i as int).drop_last() =~= rest.take(i - 1));
            assert(rest.take(i as int).last() == ls[i as int]);
        }
        let (a, b) = trim_bounds(&cs, lo, hi, false);
        let ghost line = cs@.subrange(a as int, b as int);
        let ghost st = (string_map_view(lib32@), string_map_view(lib64@));
        proof {
            assert(line == trim(ls[i as int]));
        }
        match find_in(&cs, a, b, &arrow) {
            Some(p) => {
                let ghost k = p - a;
                proof {
                    lemma_find_from_some(line, " => "@, 0);
                    assert(p + 4 <= b);
                    assert(line.take(k) =~= cs@.subrange(a as int, p as int));
                    assert(line.skip(k + 4) =~= cs@.subrange(p + 4, b as int));
                    reveal_strlit(" => ");
                }
                let path_end = match find_in(&cs, p + 4, b, &arrow) {
                    Some(q) => q,
                    None => b,
                };
                let name_end = match find_in(&cs, a, p, &paren) {
                    Some(q) => q,
                    None => p,
                };
                proof {
                    let right = line.skip(k + 4);
                    let left = line.take(k);
                    assert(cs@.subrange(p + 4, path_end as int) =~= before_first(right, " => "@));
                    assert(cs@.subrange(a as int, name_end as int) =~= before_first(left, " ("@));
                }
                let name = string_of(&cs, a, name_end);
                let path = string_of(&cs, p + 4, path_end);
                let is64 = find_in(&cs, a, p, &x86_64).is_some();
                if is64 {
                    proof {
                        lemma_insert_view(lib64@, name@, path);
                    }
                    lib64.insert(name, path);
                } else {
                    proof {
                        lemma_insert_view(lib32@, name@, path);
                    }
                    lib32.insert(name, path);
                }
                proof {
                    assert(ld_step(st, ls[i as int]) == (string_map_view(lib32@), string_map_view(lib64@)));
                }
            },
            None => {},
        }
        i = i + 1;
    }
    proof {
        if ranges@.len() > 0 {
            assert(rest.take(ranges@.len() - 1) =~= rest);
        } else {
            assert(ld_fold(ls) =~= (Map::<Seq<char>, Seq<char>>::empty(), Map::<Seq<char>, Seq<char>>::empty()));
        }
    }
    LdCache { lib32, lib64 }
}

// ---------------------------------------------------------------------------
// ELF files
// ---------------------------------------------------------------------------

/// The word size of an ELF file from its first bytes: the magic
/// `\x7fELF`, then the class byte, 1 for 32-bit and 2 for 64-bit.
pub open spec fn elf_class_of(b: Seq<u8>) -> Option<u8> {
    if b.len() >= 5 && b[0] == 0x7f && b[1] == 0x45 && b[2] == 0x4c && b[3] == 0x46 {
        if b[4] == 1 {
            Some(32)
        } else if b[4] == 2 {
            Some(64)
        } else {
            None
        }
    } else {
        None
    }
}

/// Whether the bytes `bytes` start an ELF file, and of which word size.
pub fn is_elf(bytes: &[u8]) -> (out: Option<u8>)
    ensures
        out == elf_class_of(bytes@),
{
    if bytes.len() < 5 {
        return None;
    }
    if bytes[0] == 0x7f && bytes[1] == 0x45 && bytes[2] == 0x4c && bytes[3] == 0x46 {
        if bytes[4] == 1 {
            Some(32)
        } else if bytes[4] == 2 {
            Some(64)
        } else {
            None
        }
    } else {
        None
    }
}

/// The tag of a dynamic section entry that names a needed library.
pub const DT_NEEDED: u64 = 1;

/// An entry of the dynamic section of an ELF file: its tag, its value, and
/// the string that the dynamic string table holds at that value, if any.
pub struct DynamicEntry {
    pub tag: u64,
    pub value: u64,
    pub name: Option<String>,
}

pub open spec fn dynamic_entry_view(e: DynamicEntry) -> (u64, u64, Option<Seq<char>>) {
    (e.tag, e.value, opt_string_view(e.name))
}

pub open spec fn dynamic_view(d: Option<Vec<DynamicEntry>>) -> Option<Seq<(u64, u64, Option<Seq<char>>)>> {
    match d {
        Some(v) => Some(v@.map_values(|e: DynamicEntry| dynamic_entry_view(e))),
        None => None,
    }
}

/// What goblin reads of the dynamic section of the ELF file `bytes`: `None`
/// when the file does not parse, `Some(None)` when it has no dynamic
/// section, else its entries as `(tag, value, string at value)`.
pub uninterp spec fn elf_dynamic(bytes: Seq<u8>) -> Option<Option<Seq<(u64, u64, Option<Seq<char>>)>>>;

/// Declares goblin's error type.
#[verifier::external_type_specification]
#[verifier::external_body]
pub struct ExGoblinError(goblin::error::Error);

/// Parses `bytes` with `goblin::elf::Elf::parse` and reads its dynamic
/// section: each entry `d` of `dynamic.dyns` becomes its `d_tag`, its
/// `d_val` and `dynstrtab.get_at(d_val)`.  The contract only names the
/// result (`elf_dynamic`) as a function of the bytes.
#[verifier::external_body]
fn parse_elf_dynamic(bytes: &[u8]) -> (out: Result<Option<Vec<DynamicEntry>>, goblin::error::Error>)
    ensures
        match out {
            Ok(d) => elf_dynamic(bytes@) == Some(dynamic_view(d)),
            Err(_) => elf_dynamic(bytes@) is None,
        },
{
    let elf = goblin::elf::Elf::parse(bytes)?;
    Ok(elf.dynamic.as_ref().map(|d| d.dyns.iter().map(|e| DynamicEntry {
        tag: e.d_tag,
        value: e.d_val,
        name: elf.dynstrtab.get_at(e.d_val as usize).map(|s| s.to_string()),
    }).collect()))
}

/// The paths, in order, of the libraries that the entries name in
/// `DT_NEEDED` entries and that `libs` knows.
pub open spec fn needed_paths(
    entries: Seq<(u64, u64, Option<Seq<char>>)>,
    libs: Map<Seq<char>, Seq<char>>,
) -> Seq<Seq<char>>
    decreases entries.len(),
{
    if entries.len() == 0 {
        Seq::empty()
    } else {
        let rest = needed_paths(entries.drop_last(), libs);
        let e = entries.last();
        if e.0 == DT_NEEDED && e.2 is Some && libs.contains_key(e.2.unwrap()) {
            rest.push(libs[e.2.unwrap()])
        } else {
            rest
        }
    }
}

/// The libraries that a file of word size `arch`, with the dynamic section
/// `dynamic` (as goblin reads it), needs, as paths that `ld` knows.
pub open spec fn needed_objects(
    arch: Option<u8>,
    dynamic: Option<Option<Seq<(u64, u64, Option<Seq<char>>)>>>,
    ld: (Map<Seq<char>, Seq<char>>, Map<Seq<char>, Seq<char>>),
) -> Seq<Seq<char>> {
    match (arch, dynamic) {
        (Some(a), Some(Some(entries))) => needed_paths(entries, if a == 32 { ld.0 } else { ld.1 }),
        _ => Seq::empty(),
    }
}

/// The paths of the libraries that the entries `entries` of a dynamic
/// section name as needed, looked up in `libs`.
pub fn needed_from_dynamic(entries: &Vec<DynamicEntry>, libs: &StringHashMap<String>) -> (out: Vec<String>)
    ensures
        out.deep_view() == needed_paths(
            entries@.map_values(|e: DynamicEntry| dynamic_entry_view(e)),
            string_map_view(libs@),
        ),
{
    let ghost ev = entries@.map_values(|e: DynamicEntry| dynamic_entry_view(e));
    let mut out: Vec<String> = Vec::new();
    let mut i: usize = 0;
    while i < entries.len()
        invariant
            i <= entries@.len(),
            ev == entries@.map_values(|e: DynamicEntry| dynamic_entry_view(e)),
            out.deep_view() == needed_paths(ev.take(i as int), string_map_view(libs@)),
        decreases entries@.len() - i,
    {
        proof {
            assert(ev.take(i + 1).drop_last() =~= ev.take(i as int));
            assert(ev.take(i + 1).last() == dynamic_entry_view(entries@[i as int]));
        }
        let e = &entries[i];
        if e.tag == DT_NEEDED {
            match &e.name {
                Some(n) => {
                    match libs.get(n.as_str()) {
                        Some(p) => {
                            let ghost prev = out.deep_view();
                            out.push(copy_string(p));
                            proof {
                                assert(out.deep_view() =~= prev.push(p@));
                            }
                        },
                        None => {},
                    }
                },
                None => {},
            }
        }
        i = i + 1;
    }
    proof {
        assert(ev.take(entries@.len() as int) =~= ev);
    }
    out
}

/// The paths of the libraries that the file with contents `bytes` needs:
/// for an ELF file, its `DT_NEEDED` entries that the dynamic linker's
/// cache `ld` knows for its word size; for any other file, none.
pub fn get_needed_shared_objects(bytes: &[u8], ld: &LdCache) -> (out: Vec<String>)
    ensures
        out.deep_view() == needed_objects(elf_class_of(bytes@), elf_dynamic(bytes@), ld@),
{
    let arch = match is_elf(bytes) {
        Some(a) => a,
        None => return Vec::new(),
    };
    let dynamic = match parse_elf_dynamic(bytes) {
        Ok(d) => d,
        Err(_) => return Vec::new(),
    };
    needed_from_elf(arch, &dynamic, ld)
}

/// The paths of the libraries that an ELF file of word size `arch` needs,
/// given its dynamic section `dynamic` as goblin reads it.
pub fn needed_from_elf(arch: u8, dynamic: &Option<Vec<DynamicEntry>>, ld: &LdCache) -> (out: Vec<String>)
    ensures
        out.deep_view() == needed_objects(Some(arch), Some(dynamic_view(*dynamic)), ld@),
{
    let libs = if arch == 32 {
        &ld.lib32
    } else {
        &ld.lib64
    };
    match dynamic {
        Some(entries) => needed_from_dynamic(entries, libs),
        None => Vec::new(),
    }
}

} // verus!
