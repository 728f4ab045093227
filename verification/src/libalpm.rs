use vstd::prelude::*;

use crate::assoc::{AssocList, keys_filtered, lemma_keys_filtered_done, lemma_keys_filtered_step};
use crate::text::{chars_of, contains_string, is_digit, opt_string_view, copy_string, copy_strings, lines, parse_i64, parse_i64_spec, ranges_match, split_lines, string_of, trim, trim_bounds, trim_by};

verus! {

/// The directory of pacman's local package database.
pub const PACMAN_CACHE: &'static str = "/var/lib/pacman/local/";

/// The lock file that pacman holds while it works on its database.
pub const DB_LOCK_FILE: &'static str = "/var/lib/pacman/db.lck";

// ---------------------------------------------------------------------------
// The `desc` file of a package
// ---------------------------------------------------------------------------

/// The fields of a `desc` file: each `%KEY%` header names a field whose
/// values are the non-empty lines that follow it.
pub struct PacmanDesc {
    pub fields: AssocList<Vec<String>>,
}

impl PacmanDesc {
    pub open spec fn view(&self) -> Map<Seq<char>, Seq<Seq<char>>> {
        self.fields.view()
    }
}

/// A line that opens a field: it starts and ends with `'%'`.
pub open spec fn is_field_header(line: Seq<char>) -> bool {
    line.len() > 0 && line[0] == '%' && line.last() == '%'
}

/// The values recorded so far for `key`.
pub open spec fn values_of(m: Map<Seq<char>, Seq<Seq<char>>>, key: Seq<char>) -> Seq<Seq<char>> {
    if m.contains_key(key) {
        m[key]
    } else {
        Seq::empty()
    }
}

/// Reading one line of a `desc` file: the fields so far and the field that
/// is open, if any.
pub open spec fn desc_step(
    st: (Map<Seq<char>, Seq<Seq<char>>>, Option<Seq<char>>),
    raw: Seq<char>,
) -> (Map<Seq<char>, Seq<Seq<char>>>, Option<Seq<char>>) {
    let line = trim(raw);
    if is_field_header(line) {
        (st.0, Some(trim_by(line, true)))
    } else {
        match st.1 {
            Some(key) => if line.len() > 0 {
                (st.0.insert(key, values_of(st.0, key).push(line)), st.1)
            } else {
                st
            },
            None => st,
        }
    }
}

/// Reading the lines `ls` in order from an empty start.
pub open spec fn desc_fold(ls: Seq<Seq<char>>) -> (
    Map<Seq<char>, Seq<Seq<char>>>,
    Option<Seq<char>>,
)
    decreases ls.len(),
{
    if ls.len() == 0 {
        (Map::empty(), None)
    } else {
        desc_step(desc_fold(ls.drop_last()), ls.last())
    }
}

/// The fields that the text `content` of a `desc` file holds.
pub open spec fn parse_desc(content: Seq<char>) -> Map<Seq<char>, Seq<Seq<char>>> {
    desc_fold(lines(content)).0
}

/// Reads the text of a `desc` file into its fields.
pub fn parse_pacman_desc_file(content: &str) -> (out: PacmanDesc)
    ensures
        out@ == parse_desc(content@),
{
    let cs = chars_of(content);
    let ranges = split_lines(&cs);
    let ghost ls = lines(cs@);
    let mut fields: AssocList<Vec<String>> = AssocList::new();
    let mut current: Option<String> = None;
    let mut i: usize = 0;
    proof {
        assert(ls.take(0) =~= Seq::<Seq<char>>::empty());
    }
    while i < ranges.len()
        invariant
            cs@ == content@,
            ls == lines(cs@),
            ranges_match(cs@, ranges@, ls),
            i <= ranges@.len(),
            desc_fold(ls.take(i as int)) == (fields.view(), opt_string_view(current)),
        decreases ranges@.len() - i,
    {
        let (lo, hi) = ranges[i];
        proof {
            assert(ranges@[i as int] == (lo, hi));
        }
        let (a, b) = trim_bounds(&cs, lo, hi, false);
        let ghost line = cs@.subrange(a as int, b as int);
        proof {
            assert(line == trim(ls[i as int]));
            assert(ls.take(i + 1).drop_last() =~= ls.take(i as int));
            assert(ls.take(i + 1).last() == ls[i as int]);
            assert(line.len() == b - a);
            if a < b {
                assert(line[0] == cs@[a as int]);
                assert(line.last() == cs@[b - 1]);
            }
        }
        let ghost st = desc_fold(ls.take(i as int));
        let ghost next = desc_step(st, ls[i as int]);
        if a < b && cs[a] == '%' && cs[b - 1] == '%' {
            let (c, d) = trim_bounds(&cs, a, b, true);
            current = Some(string_of(&cs, c, d));
            proof {
                assert(is_field_header(line));
                assert(next == (fields.view(), opt_string_view(current)));
            }
        } else {
            proof {
                assert(!is_field_header(line));
            }
            match &current {
                Some(k) => {
                    if a < b {
                        let value = string_of(&cs, a, b);
                        let ghost old_view = fields.view();
                        let mut vals = match fields.get(k) {
                            Some(v) => copy_strings(v),
                            None => Vec::new(),
                        };
                        let ghost before = vals.deep_view();
                        proof {
                            assert(before =~= values_of(old_view, k@));
                            assert(st.0 == old_view);
                            assert(st.1 == Some(k@));
                        }
                        vals.push(value);
                        proof {
                            assert(vals.deep_view() =~= before.push(line));
                        }
                        fields.insert(copy_string(k), vals);
                        proof {
                            assert(next.0 =~= fields.view());
                        }
                    }
                },
                None => {},
            }
        }
        proof {
            assert(desc_fold(ls.take(i + 1)) == next);
        }
        i = i + 1;
    }
    proof {
        assert(ls.take(ranges@.len() as int) =~= ls);
    }
    PacmanDesc { fields }
}

// ---------------------------------------------------------------------------
// Packages
// ---------------------------------------------------------------------------

/// An installed package as its `desc` file describes it.
pub struct PacmanPackage {
    pub name: String,
    pub version: String,
    pub depends: Vec<String>,
    pub db: String,
    pub install_date: i64,
}

/// The value of a package.
pub struct PackageView {
    pub name: Seq<char>,
    pub version: Seq<char>,
    pub depends: Seq<Seq<char>>,
    pub db: Seq<char>,
    pub install_date: i64,
}

impl DeepView for PacmanPackage {
    type V = PackageView;

    open spec fn deep_view(&self) -> PackageView {
        PackageView {
            name: self.name@,
            version: self.version@,
            depends: self.depends.deep_view(),
            db: self.db@,
            install_date: self.install_date,
        }
    }
}

/// The first value of the field `key`, or `"unknown"`.
pub open spec fn first_or_unknown(m: Map<Seq<char>, Seq<Seq<char>>>, key: Seq<char>) -> Seq<char> {
    if m.contains_key(key) && m[key].len() > 0 {
        m[key][0]
    } else {
        "unknown"@
    }
}

/// The install date that the fields give, when the first `INSTALLDATE`
/// value is a number in range.
pub open spec fn install_date_of(m: Map<Seq<char>, Seq<Seq<char>>>) -> Option<i64> {
    if m.contains_key("INSTALLDATE"@) && m["INSTALLDATE"@].len() > 0 {
        parse_i64_spec(m["INSTALLDATE"@][0])
    } else {
        None
    }
}

/// The package that the fields describe.
pub open spec fn package_of(m: Map<Seq<char>, Seq<Seq<char>>>) -> PackageView {
    PackageView {
        name: first_or_unknown(m, "NAME"@),
        version: first_or_unknown(m, "VERSION"@),
        depends: values_of(m, "DEPENDS"@),
        db: first_or_unknown(m, "INSTALLED_DB"@),
        install_date: install_date_of(m).unwrap(),
    }
}

/// The first value of the field `key`, or `"unknown"`.
fn first_value_or_unknown(desc: &PacmanDesc, key: &str) -> (out: String)
    ensures
        out@ == first_or_unknown(desc@, key@),
{
    let k = String::from_str(key);
    match desc.fields.get(&k) {
        Some(v) => {
            if v.len() > 0 {
                proof {
                    assert(v.deep_view()[0] == v@[0]@);
                }
                return copy_string(&v[0]);
            }
        },
        None => {},
    }
    String::from_str("unknown")
}

/// The install date of the package that `desc` describes, when its first
/// `INSTALLDATE` value is a number in range.
pub fn install_date(desc: &PacmanDesc) -> (out: Option<i64>)
    ensures
        out == install_date_of(desc@),
{
    let k = String::from_str("INSTALLDATE");
    match desc.fields.get(&k) {
        Some(v) => {
            if v.len() > 0 {
                proof {
                    assert(v.deep_view()[0] == v@[0]@);
                }
                let cs = chars_of(v[0].as_str());
                proof {
                    assert(cs@.subrange(0, cs@.len() as int) =~= cs@);
                }
                return parse_i64(&cs, 0, cs.len());
            }
            None
        },
        None => None,
    }
}

/// The package that the fields of a `desc` file describe.
pub fn package_from_desc(desc: &PacmanDesc) -> (out: PacmanPackage)
    requires
        install_date_of(desc@) is Some,
    ensures
        out.deep_view() == package_of(desc@),
        desc@.contains_key("DEPENDS"@) ==> out.depends.deep_view() == desc@["DEPENDS"@],
        !desc@.contains_key("DEPENDS"@) ==> out.depends.deep_view() == Seq::<Seq<char>>::empty(),
{
    let name = first_value_or_unknown(desc, "NAME");
    let version = first_value_or_unknown(desc, "VERSION");
    let date = install_date(desc);
    let db = first_value_or_unknown(desc, "INSTALLED_DB");
    let k = String::from_str("DEPENDS");
    let depends = match desc.fields.get(&k) {
        Some(v) => copy_strings(v),
        None => Vec::new(),
    };
    proof {
        assert(depends.deep_view() =~= values_of(desc@, "DEPENDS"@));
    }
    PacmanPackage { name, version, depends, db, install_date: date.unwrap() }
}

/// The package that the text of its `desc` file describes.  The file must
/// give an `INSTALLDATE` that is a number in range.
pub fn load_package_from_file(content: &str) -> (out: PacmanPackage)
    requires
        install_date_of(parse_desc(content@)) is Some,
    ensures
        out.deep_view() == package_of(parse_desc(content@)),
        parse_desc(content@).contains_key("DEPENDS"@) ==> out.depends.deep_view() == parse_desc(content@)["DEPENDS"@],
        !parse_desc(content@).contains_key("DEPENDS"@) ==> out.depends.deep_view() == Seq::<Seq<char>>::empty(),
{
    let desc = parse_pacman_desc_file(content);
    package_from_desc(&desc)
}

/// A copy of a package.
pub fn copy_package(p: &PacmanPackage) -> (out: PacmanPackage)
    ensures
        out.deep_view() == p.deep_view(),
{
    PacmanPackage {
        name: copy_string(&p.name),
        version: copy_string(&p.version),
        depends: copy_strings(&p.depends),
        db: copy_string(&p.db),
        install_date: p.install_date,
    }
}

// ---------------------------------------------------------------------------
// The local package database
// ---------------------------------------------------------------------------

/// The installed packages, by name.
pub struct LocalDb {
    pub packages: AssocList<PacmanPackage>,
}

impl LocalDb {
    pub open spec fn view(&self) -> Map<Seq<char>, PackageView> {
        self.packages.view()
    }
}

/// The packages `ps` by name; of two with one name the later one counts.
pub open spec fn index_by_name(ps: Seq<PackageView>) -> Map<Seq<char>, PackageView>
    decreases ps.len(),
{
    if ps.len() == 0 {
        Map::empty()
    } else {
        index_by_name(ps.drop_last()).insert(ps.last().name, ps.last())
    }
}

/// The database of the packages `packages`, read in order.
pub fn load_localdb_packages(packages: &Vec<PacmanPackage>) -> (out: LocalDb)
    ensures
        out@ == index_by_name(packages.deep_view()),
{
    let mut db = AssocList::new();
    let mut i: usize = 0;
    while i < packages.len()
        invariant
            i <= packages@.len(),
            db.view() == index_by_name(packages.deep_view().take(i as int)),
        decreases packages@.len() - i,
    {
        let p = copy_package(&packages[i]);
        proof {
            assert(packages.deep_view().take(i + 1).drop_last() =~= packages.deep_view().take(i as int));
            assert(packages.deep_view().take(i + 1).last() == packages@[i as int].deep_view());
        }
        db.insert(copy_string(&packages[i].name), p);
        i = i + 1;
    }
    proof {
        assert(packages.deep_view().take(packages@.len() as int) =~= packages.deep_view());
    }
    LocalDb { packages: db }
}

/// The names of all installed packages, each once.
pub fn get_local_packages(db: &LocalDb) -> (out: Vec<String>)
    ensures
        out.deep_view().no_duplicates(),
        forall|k: Seq<char>| #[trigger] out.deep_view().contains(k) <==> db@.contains_key(k),
{
    let n = db.packages.len();
    let mut out: Vec<String> = Vec::new();
    let mut i: usize = 0;
    while i < n
        invariant
            n == db.packages.keys_seq().len(),
            n == db.packages.spec_len(),
            i <= n,
            out.deep_view() == db.packages.keys_seq().take(i as int),
        decreases n - i,
    {
        let k = db.packages.key(i);
        let ghost prev = out.deep_view();
        out.push(copy_string(k));
        proof {
            assert(out.deep_view() =~= prev.push(k@));
            assert(out.deep_view() =~= db.packages.keys_seq().take(i + 1));
        }
        i = i + 1;
    }
    proof {
        assert(db.packages.keys_seq().take(n as int) =~= db.packages.keys_seq());
    }
    out
}

/// Whether a package did not come from a sync database (a foreign package,
/// such as one built from the AUR).
pub open spec fn is_foreign(p: PackageView) -> bool {
    p.db == "unknown"@
}

/// Whether `p` lists `dep` among its dependencies.
pub open spec fn depends_on(p: PackageView, dep: Seq<char>) -> bool {
    p.depends.contains(dep)
}

/// The names of the foreign packages (`INSTALLED_DB` unknown), each once.
pub fn get_aur_packages(db: &LocalDb) -> (out: Vec<String>)
    ensures
        out.deep_view().no_duplicates(),
        forall|k: Seq<char>| #[trigger] out.deep_view().contains(k) <==> db@.contains_key(k) && is_foreign(db@[k]),
        forall|k: Seq<char>| #[trigger] out.deep_view().contains(k) <==> db@.contains_key(k) && db@[k].db == "unknown"@,
{
    let unknown = String::from_str("unknown");
    let n = db.packages.len();
    let ghost keys = db.packages.keys_seq();
    let ghost pred = |p: PackageView| is_foreign(p);
    let mut out: Vec<String> = Vec::new();
    let mut i: usize = 0;
    while i < n
        invariant
            n == keys.len(),
            n == db.packages.spec_len(),
            keys == db.packages.keys_seq(),
            i <= n,
            unknown@ == "unknown"@,
            pred == (|p: PackageView| is_foreign(p)),
            keys.no_duplicates(),
            forall|j: int| 0 <= j < n ==> #[trigger] db@[keys[j]] == db.packages.value_at(j),
            keys_filtered(keys, db@, pred, i as int, out.deep_view()),
        decreases n - i,
    {
        let k = db.packages.key(i);
        let v = db.packages.value(i);
        proof {
            lemma_keys_filtered_step(keys, db@, pred, i as int, out.deep_view());
        }
        let foreign = v.db == unknown;
        proof {
            assert(v.deep_view() == db@[keys[i as int]]);
            assert(foreign == pred(db@[keys[i as int]]));
        }
        if foreign {
            let ghost prev = out.deep_view();
            out.push(copy_string(k));
            proof {
                assert(out.deep_view() =~= prev.push(k@));
            }
        }
        i = i + 1;
    }
    proof {
        lemma_keys_filtered_done(keys, db@, pred, out.deep_view());
    }
    out
}

/// The names of the packages that list `pkg` among their dependencies,
/// each once.
pub fn get_required_by_of_package(db: &LocalDb, pkg: &String) -> (out: Vec<String>)
    ensures
        out.deep_view().no_duplicates(),
        forall|k: Seq<char>| #[trigger] out.deep_view().contains(k) <==> db@.contains_key(k) && depends_on(db@[k], pkg@),
{
    let n = db.packages.len();
    let ghost keys = db.packages.keys_seq();
    let ghost pred = |p: PackageView| depends_on(p, pkg@);
    let mut out: Vec<String> = Vec::new();
    let mut i: usize = 0;
    while i < n
        invariant
            n == keys.len(),
            n == db.packages.spec_len(),
            keys == db.packages.keys_seq(),
            i <= n,
            pred == (|p: PackageView| depends_on(p, pkg@)),
            keys.no_duplicates(),
            forall|j: int| 0 <= j < n ==> #[trigger] db@[keys[j]] == db.packages.value_at(j),
            keys_filtered(keys, db@, pred, i as int, out.deep_view()),
        decreases n - i,
    {
        let k = db.packages.key(i);
        let v = db.packages.value(i);
        proof {
            lemma_keys_filtered_step(keys, db@, pred, i as int, out.deep_view());
        }
        let uses = contains_string(&v.depends, pkg);
        proof {
            assert(v.deep_view() == db@[keys[i as int]]);
            assert(uses == pred(db@[keys[i as int]]));
        }
        if uses {
            let ghost prev = out.deep_view();
            out.push(copy_string(k));
            proof {
                assert(out.deep_view() =~= prev.push(k@));
            }
        }
        i = i + 1;
    }
    proof {
        lemma_keys_filtered_done(keys, db@, pred, out.deep_view());
    }
    out
}

/// The package named `pkg`, which must be installed.
pub fn get_package_info(db: &LocalDb, pkg: &String) -> (out: PacmanPackage)
    requires
        db@.contains_key(pkg@),
    ensures
        out.deep_view() == db@[pkg@],
{
    match db.packages.get(pkg) {
        Some(p) => copy_package(p),
        None => {
            proof {
                assert(false);
            }
            PacmanPackage {
                name: String::new(),
                version: String::new(),
                depends: Vec::new(),
                db: String::new(),
                install_date: 0,
            }
        },
    }
}

/// The dependencies of the package named `pkg`, which must be installed.
pub fn get_depends_of_package(db: &LocalDb, pkg: &String) -> (out: Vec<String>)
    requires
        db@.contains_key(pkg@),
    ensures
        out.deep_view() == db@[pkg@].depends,
{
    get_package_info(db, pkg).depends
}

// ---------------------------------------------------------------------------
// Files of a package
// ---------------------------------------------------------------------------

/// The path of the file `leaf` in the database entry of a package:
/// `PACMAN_CACHE` + name + `-` + version + `/` + leaf.
pub open spec fn entry_path(name: Seq<char>, version: Seq<char>, leaf: Seq<char>) -> Seq<char> {
    PACMAN_CACHE@ + name + "-"@ + version + "/"@ + leaf
}

/// The path of the file `leaf` in the database entry of the package `name`
/// at `version`.
pub fn package_entry_path(name: &String, version: &String, leaf: &str) -> (out: String)
    ensures
        out@ == entry_path(name@, version@, leaf@),
{
    let mut out = String::from_str(PACMAN_CACHE);
    out.append(name.as_str());
    out.append("-");
    out.append(version.as_str());
    out.append("/");
    out.append(leaf);
    out
}

/// The position of the first line `%BACKUP%`, or the number of lines.
pub open spec fn backup_index(ls: Seq<Seq<char>>) -> int
    decreases ls.len(),
{
    if ls.len() == 0 {
        0
    } else if ls[0] == "%BACKUP%"@ {
        0
    } else {
        1 + backup_index(ls.drop_first())
    }
}

pub proof fn lemma_backup_index_at(ls: Seq<Seq<char>>, k: int)
    requires
        0 <= k <= ls.len(),
        forall|j: int| 0 <= j < k ==> ls[j] != "%BACKUP%"@,
        k == ls.len() || ls[k] == "%BACKUP%"@,
    ensures
        backup_index(ls) == k,
    decreases k,
{
    if k > 0 {
        lemma_backup_index_at(ls.drop_first(), k - 1);
    }
}

/// The paths that the text of a package's `files` file lists: the lines
/// after the `%FILES%` header and before `%BACKUP%`, each made absolute.
pub open spec fn files_listed(content: Seq<char>) -> Seq<Seq<char>> {
    let ls = lines(content);
    let k = backup_index(ls);
    if k >= 1 {
        ls.subrange(1, k).map_values(|l: Seq<char>| seq!['/'] + l)
    } else {
        Seq::empty()
    }
}

/// Whether `s[lo..hi]` is the text `t`.
fn range_is(s: &Vec<char>, lo: usize, hi: usize, t: &Vec<char>) -> (out: bool)
    requires
        lo <= hi <= s@.len(),
    ensures
        out == (s@.subrange(lo as int, hi as int) == t@),
{
    if hi - lo != t.len() {
        return false;
    }
    let mut i: usize = 0;
    while i < t.len()
        invariant
            hi - lo == t@.len(),
            lo <= hi <= s@.len(),
            i <= t@.len(),
            forall|j: int| 0 <= j < i ==> s@[lo + j] == t@[j],
        decreases t@.len() - i,
    {
        if s[lo + i] != t[i] {
            proof {
                assert(s@.subrange(lo as int, hi as int)[i as int] != t@[i as int]);
            }
            return false;
        }
        i = i + 1;
    }
    proof {
        assert(s@.subrange(lo as int, hi as int) =~= t@);
    }
    true
}

/// The paths that the text of a package's `files` file lists (before any
/// check that they exist on disk).
pub fn get_files_of_package(content: &str) -> (out: Vec<String>)
    ensures
        out.deep_view() == files_listed(content@),
        lines(content@).len() >= 1 && (forall|j: int| 0 <= j < lines(content@).len() ==> lines(content@)[j] != "%BACKUP%"@)
            ==> out.deep_view().len() == lines(content@).len() - 1 && forall|i: int|
            0 <= i < lines(content@).len() - 1 ==> #[trigger] out.deep_view()[i] == seq!['/'] + lines(content@)[i + 1],
{
    let cs = chars_of(content);
    let ranges = split_lines(&cs);
    let backup = chars_of("%BACKUP%");
    let ghost ls = lines(cs@);
    let mut k: usize = 0;
    while k < ranges.len() && !range_is(&cs, ranges[k].0, ranges[k].1, &backup)
        invariant
            ls == lines(cs@),
            ranges_match(cs@, ranges@, ls),
            backup@ == "%BACKUP%"@,
            k <= ranges@.len(),
            forall|j: int| 0 <= j < k ==> ls[j] != "%BACKUP%"@,
        decreases ranges@.len() - k,
    {
        proof {
            assert(ranges@[k as int] == ranges[k as int]);
        }
        k = k + 1;
    }
    proof {
        if k < ranges@.len() {
            assert(ranges@[k as int] == ranges[k as int]);
        }
        lemma_backup_index_at(ls, k as int);
    }
    let mut out: Vec<String> = Vec::new();
    if k >= 1 {
        let mut i: usize = 1;
        while i < k
            invariant
                ls == lines(cs@),
                ranges_match(cs@, ranges@, ls),
                1 <= i <= k <= ranges@.len(),
                out.deep_view() == ls.subrange(1, i as int).map_values(|l: Seq<char>| seq!['/'] + l),
            decreases k - i,
        {
            let (lo, hi) = ranges[i];
            proof {
                assert(ranges@[i as int] == (lo, hi));
            }
            let mut path = String::from_str("/");
            proof {
                reveal_strlit("/");
            }
            let line = string_of(&cs, lo, hi);
            path.append(line.as_str());
            let ghost prev = out.deep_view();
            out.push(path);
            proof {
                assert("/"@ =~= seq!['/']);
                assert(line@ == ls[i as int]);
                assert(path@ == seq!['/'] + ls[i as int]);
                assert(out.deep_view() =~= prev.push(path@));
                assert(ls.subrange(1, i + 1) =~= ls.subrange(1, i as int).push(ls[i as int]));
                assert(out.deep_view() =~= ls.subrange(1, i + 1).map_values(|l: Seq<char>| seq!['/'] + l));
            }
            i = i + 1;
        }
    } else {
        proof {
            assert(out.deep_view() =~= Seq::<Seq<char>>::empty());
        }
    }
    proof {
        if lines(content@).len() >= 1 && (forall|j: int| 0 <= j < lines(content@).len() ==> lines(content@)[j] != "%BACKUP%"@) {
            crate::laws::law_files_listed_without_backup(content@);
        }
    }
    out
}

// ---------------------------------------------------------------------------
// Shared libraries of a package
// ---------------------------------------------------------------------------

/// `t` is a version suffix: zero or more groups of `'.'` and one or more
/// ASCII digits (`(\.[0-9]+)*`).
pub open spec fn is_version_suffix(t: Seq<char>) -> bool {
    t.len() == 0 || {
        &&& t[0] == '.'
        &&& is_digit(t.last())
        &&& forall|k: int| 0 <= k < t.len() ==> #[trigger] t[k] == '.' || is_digit(t[k])
        &&& forall|k: int| 0 <= k < t.len() - 1 ==> #[trigger] t[k] == '.' ==> is_digit(t[k + 1])
    }
}

/// From position `i` to its end, `path` is `lib`, one or more characters
/// other than `'/'`, `.so`, then a version suffix
/// (`lib[^/]+\.so(\.[0-9]+)*`).
pub open spec fn so_name_from(path: Seq<char>, i: int) -> bool {
    exists|j: int|
        #![trigger path.skip(j + 3)]
        {
            &&& 0 <= i
            &&& i + 3 < j
            &&& j + 3 <= path.len()
            &&& path[i] == 'l' && path[i + 1] == 'i' && path[i + 2] == 'b'
            &&& forall|k: int| i + 3 <= k < j ==> #[trigger] path[k] != '/'
            &&& path[j] == '.' && path[j + 1] == 's' && path[j + 2] == 'o'
            &&& is_version_suffix(path.skip(j + 3))
        }
}

/// `path` matches the regular expression `lib[^/]+\.so(\.[0-9]+)*$`: some
/// suffix of it is a shared library name.
pub open spec fn is_so_path(path: Seq<char>) -> bool {
    exists|i: int| so_name_from(path, i)
}

/// Builds the regular expression `lib[^/]+\.so(\.[0-9]+)*$` with
/// `regex::Regex::new` (a valid pattern, so it does not fail) and calls
/// `Regex::is_match` on `path`.  The contract claims that the answer is
/// `is_so_path`, the language of that pattern as the regex crate reads it:
/// unanchored at the start, `[^/]` any character but `'/'`, `$` the end of
/// the text.
#[verifier::external_body]
fn matches_so_pattern(path: &str) -> (out: bool)
    ensures
        out == is_so_path(path@),
{
    regex::Regex::new(r"lib[^/]+\.so(\.[0-9]+)*$").unwrap().is_match(path)
}

/// The shared libraries among the files `files`, in order.
pub fn get_so_files_of_pkg(files: &Vec<String>) -> (out: Vec<String>)
    ensures
        out.deep_view() == files.deep_view().filter(|p: Seq<char>| is_so_path(p)),
{
    let ghost pred = |p: Seq<char>| is_so_path(p);
    let mut out: Vec<String> = Vec::new();
    let mut i: usize = 0;
    while i < files.len()
        invariant
            i <= files@.len(),
            pred == (|p: Seq<char>| is_so_path(p)),
            out.deep_view() == files.deep_view().take(i as int).filter(pred),
        decreases files@.len() - i,
    {
        let ghost prev = out.deep_view();
        proof {
            assert(files.deep_view().take(i + 1) =~= files.deep_view().take(i as int).push(files@[i as int]@));
            files.deep_view().take(i as int).lemma_filter_push(files@[i as int]@, pred);
        }
        if matches_so_pattern(files[i].as_str()) {
            out.push(copy_string(&files[i]));
            proof {
                assert(out.deep_view() =~= prev.push(files@[i as int]@));
            }
        }
        i = i + 1;
    }
    proof {
        assert(files.deep_view().take(files@.len() as int) =~= files.deep_view());
    }
    out
}

/// The shared objects that any of the lists `needed` names, each once.
pub fn get_so_dependencies_of_pkg(needed: &Vec<Vec<String>>) -> (out: Vec<String>)
    ensures
        out.deep_view().no_duplicates(),
        forall|s: Seq<char>| #[trigger] out.deep_view().contains(s) <==> exists|i: int|
            0 <= i < needed@.len() && (#[trigger] needed@[i]).deep_view().contains(s),
{
    let mut out: Vec<String> = Vec::new();
    let mut i: usize = 0;
    while i < needed.len()
        invariant
            i <= needed@.len(),
            out.deep_view().no_duplicates(),
            forall|s: Seq<char>| #[trigger] out.deep_view().contains(s) <==> exists|a: int|
                0 <= a < i && (#[trigger] needed@[a]).deep_view().contains(s),
        decreases needed@.len() - i,
    {
        let list = &needed[i];
        let mut j: usize = 0;
        while j < list.len()
            invariant
                i < needed@.len(),
                list == needed@[i as int],
                j <= list@.len(),
                out.deep_view().no_duplicates(),
                forall|s: Seq<char>| #[trigger] out.deep_view().contains(s) <==> (exists|a: int|
                    0 <= a < i && (#[trigger] needed@[a]).deep_view().contains(s)) || list.deep_view().take(j as int).contains(s),
            decreases list@.len() - j,
        {
            let ghost prev = out.deep_view();
            let ghost x = list@[j as int]@;
            proof {
                let t = list.deep_view().take(j as int);
                assert(list.deep_view().take(j + 1) =~= t.push(x));
                assert forall|s: Seq<char>| #[trigger] list.deep_view().take(j + 1).contains(s) <==> t.contains(s) || s == x by {
                    let t1 = list.deep_view().take(j + 1);
                    if t1.contains(s) && s != x {
                        let y = choose|y: int| 0 <= y < t1.len() && t1[y] == s;
                        assert(t[y] == s);
                    }
                    if s == x {
                        assert(t1[j as int] == s);
                    }
                    if t.contains(s) {
                        let y = choose|y: int| 0 <= y < t.len() && t[y] == s;
                        assert(t1[y] == s);
                    }
                }
            }
            if !contains_string(&out, &list[j]) {
                out.push(copy_string(&list[j]));
                proof {
                    assert(out.deep_view() =~= prev.push(list@[j as int]@));
                    assert forall|a: int, b: int| 0 <= a < b < out.deep_view().len() implies out.deep_view()[a] != out.deep_view()[b] by {
                        if b == out.deep_view().len() - 1 {
                            assert(prev.contains(prev[a]));
                        }
                    }
                    assert forall|s: Seq<char>| #[trigger] out.deep_view().contains(s) <==> prev.contains(s) || s == list@[j as int]@ by {
                        if out.deep_view().contains(s) && s != list@[j as int]@ {
                            let x = choose|x: int| 0 <= x < out.deep_view().len() && out.deep_view()[x] == s;
                            assert(prev[x] == s);
                        }
                        if s == list@[j as int]@ {
                            assert(out.deep_view()[prev.len() as int] == s);
                        }
                        if prev.contains(s) {
                            let x = choose|x: int| 0 <= x < prev.len() && prev[x] == s;
                            assert(out.deep_view()[x] == s);
                        }
                    }
                }
            }
            j = j + 1;
        }
        proof {
            assert(list.deep_view().take(list@.len() as int) =~= list.deep_view());
            assert forall|s: Seq<char>| #[trigger] out.deep_view().contains(s) <==> exists|a: int|
                0 <= a < i + 1 && (#[trigger] needed@[a]).deep_view().contains(s) by {
                if list.deep_view().contains(s) {
                    assert(needed@[i as int].deep_view().contains(s));
                }
                if exists|a: int| 0 <= a < i + 1 && (#[trigger] needed@[a]).deep_view().contains(s) {
                    let a = choose|a: int| 0 <= a < i + 1 && (#[trigger] needed@[a]).deep_view().contains(s);
                    if a < i {
                    } else {
                        assert(list.deep_view().contains(s));
                    }
                }
            }
        }
        i = i + 1;
    }
    out
}

} // verus!
