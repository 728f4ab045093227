pub use vstd::hash_map::StringHashMap;
use vstd::prelude::*;

use crate::assoc::{AssocList, keys_filtered, lemma_keys_filtered_done, lemma_keys_filtered_step};
use crate::text::{contains_string, copy_string, copy_strings, sort_strings, sorted};

verus! {

// ---------------------------------------------------------------------------
// Entries
// ---------------------------------------------------------------------------

/// What the cache records of one installed package.
pub struct CacheEntry {
    pub dependencies: Vec<String>,
    pub db: String,
    pub so_files: Vec<String>,
    /// For each file of the package that links shared objects, those objects.
    pub so_dependencies: AssocList<Vec<String>>,
}

/// The value of a cache entry.
pub struct EntryView {
    pub dependencies: Seq<Seq<char>>,
    pub db: Seq<char>,
    pub so_files: Seq<Seq<char>>,
    pub so_dependencies: Map<Seq<char>, Seq<Seq<char>>>,
}

impl DeepView for CacheEntry {
    type V = EntryView;

    open spec fn deep_view(&self) -> EntryView {
        EntryView {
            dependencies: self.dependencies.deep_view(),
            db: self.db@,
            so_files: self.so_files.deep_view(),
            so_dependencies: self.so_dependencies.view(),
        }
    }
}

/// The entry of a package about which nothing is known.
pub open spec fn default_entry() -> EntryView {
    EntryView {
        dependencies: Seq::empty(),
        db: "unknown"@,
        so_files: Seq::empty(),
        so_dependencies: Map::empty(),
    }
}

impl Default for CacheEntry {
    fn default() -> (out: Self)
        ensures
            out.deep_view() == default_entry(),
    {
        let out = CacheEntry {
            dependencies: Vec::new(),
            db: String::from_str("unknown"),
            so_files: Vec::new(),
            so_dependencies: AssocList::new(),
        };
        proof {
            assert(out.dependencies.deep_view() =~= Seq::<Seq<char>>::empty());
            assert(out.so_files.deep_view() =~= Seq::<Seq<char>>::empty());
        }
        out
    }
}

/// The map from each file to the shared objects it needs, from the pairs
/// `per_file` read in order (of two pairs for one file the later counts).
pub open spec fn needs_by_file(per_file: Seq<(Seq<char>, Seq<Seq<char>>)>) -> Map<Seq<char>, Seq<Seq<char>>>
    decreases per_file.len(),
{
    if per_file.len() == 0 {
        Map::empty()
    } else {
        needs_by_file(per_file.drop_last()).insert(per_file.last().0, per_file.last().1)
    }
}

pub open spec fn pairs_view(v: Seq<(String, Vec<String>)>) -> Seq<(Seq<char>, Seq<Seq<char>>)> {
    v.map_values(|p: (String, Vec<String>)| (p.0@, p.1.deep_view()))
}

/// The shared objects that each file needs, from the pairs of a file and
/// the objects it needs.
pub fn so_dependencies_by_file(per_file: &Vec<(String, Vec<String>)>) -> (out: AssocList<Vec<String>>)
    ensures
        out.view() == needs_by_file(pairs_view(per_file@)),
{
    let mut out: AssocList<Vec<String>> = AssocList::new();
    let mut i: usize = 0;
    while i < per_file.len()
        invariant
            i <= per_file@.len(),
            out.view() == needs_by_file(pairs_view(per_file@.take(i as int))),
        decreases per_file@.len() - i,
    {
        proof {
            assert(pairs_view(per_file@.take(i + 1)).drop_last() =~= pairs_view(per_file@.take(i as int)));
            assert(pairs_view(per_file@.take(i + 1)).last() == (per_file@[i as int].0@, per_file@[i as int].1.deep_view()));
        }
        out.insert(copy_string(&per_file[i].0), copy_strings(&per_file[i].1));
        i = i + 1;
    }
    proof {
        assert(per_file@.take(per_file@.len() as int) =~= per_file@);
    }
    out
}

/// The entry of a freshly scanned package, with its dependencies and its
/// shared objects in ascending order.
pub fn sorted_entry(
    dependencies: Vec<String>,
    db: String,
    so_files: Vec<String>,
    so_dependencies: AssocList<Vec<String>>,
) -> (out: CacheEntry)
    ensures
        sorted(out.dependencies.deep_view()),
        out.dependencies.deep_view().to_multiset() == dependencies.deep_view().to_multiset(),
        out.db@ == db@,
        sorted(out.so_files.deep_view()),
        out.so_files.deep_view().to_multiset() == so_files.deep_view().to_multiset(),
        out.so_dependencies.view() == so_dependencies.view(),
{
    CacheEntry {
        dependencies: sort_strings(dependencies),
        db,
        so_files: sort_strings(so_files),
        so_dependencies,
    }
}

// ---------------------------------------------------------------------------
// The cache
// ---------------------------------------------------------------------------

/// What is known of each installed package, by name.
pub struct Cache {
    pub data: AssocList<CacheEntry>,
}

impl Cache {
    pub open spec fn view(&self) -> Map<Seq<char>, EntryView> {
        self.data.view()
    }
}

impl Default for Cache {
    fn default() -> (out: Self)
        ensures
            out@ == Map::<Seq<char>, EntryView>::empty(),
    {
        Cache { data: AssocList::new() }
    }
}

/// A package that no sync database provides.
pub open spec fn is_foreign_entry(e: EntryView) -> bool {
    e.db == "unknown"@
}

/// The map `m` without the keys in `names`.
pub open spec fn without(m: Map<Seq<char>, EntryView>, names: Seq<Seq<char>>) -> Map<Seq<char>, EntryView> {
    m.remove_keys(names.to_set())
}

impl Cache {
    /// The names of the foreign packages, each once.
    pub fn get_aur_packages(&self) -> (out: Vec<String>)
        ensures
            out.deep_view().no_duplicates(),
            forall|k: Seq<char>| #[trigger] out.deep_view().contains(k) <==> self@.contains_key(k) && is_foreign_entry(self@[k]),
            forall|k: Seq<char>| #[trigger] out.deep_view().contains(k) <==> self@.contains_key(k) && self@[k].db == "unknown"@,
    {
        let unknown = String::from_str("unknown");
        let n = self.data.len();
        let ghost keys = self.data.keys_seq();
        let ghost pred = |e: EntryView| is_foreign_entry(e);
        let mut out: Vec<String> = Vec::new();
        let mut i: usize = 0;
        while i < n
            invariant
                n == keys.len(),
                n == self.data.spec_len(),
                keys == self.data.keys_seq(),
                i <= n,
                unknown@ == "unknown"@,
                pred == (|e: EntryView| is_foreign_entry(e)),
                keys.no_duplicates(),
                forall|j: int| 0 <= j < n ==> #[trigger] self@[keys[j]] == self.data.value_at(j),
                keys_filtered(keys, self@, pred, i as int, out.deep_view()),
            decreases n - i,
        {
            let k = self.data.key(i);
            let v = self.data.value(i);
            proof {
                lemma_keys_filtered_step(keys, self@, pred, i as int, out.deep_view());
            }
            let foreign = v.db == unknown;
            proof {
                assert(v.deep_view() == self@[keys[i as int]]);
                assert(foreign == pred(self@[keys[i as int]]));
            }
            if foreign {
                let ghost prev = out.deep_view();
                out.push(copy_string(k));
                proof {
                    assert(out.deep_view() =~= prev.push(k@));
                }
            }
            i = i + 1;
        }
        proof {
            lemma_keys_filtered_done(keys, self@, pred, out.deep_view());
        }
        out
    }

    /// Records `entry` as what is known of the package `name`, in place of
    /// anything recorded before.
    pub fn insert_entry(&mut self, name: String, entry: CacheEntry)
        ensures
            final(self)@ == old(self)@.insert(name@, entry.deep_view()),
    {
        self.data.insert(name, entry);
    }

    /// Forgets the packages `names`.
    pub fn remove_packages(&mut self, names: &Vec<String>)
        ensures
            final(self)@ == without(old(self)@, names.deep_view()),
    {
        let ghost start = self@;
        let mut i: usize = 0;
        proof {
            assert(names.deep_view().take(0).to_set() =~= Set::<Seq<char>>::empty());
            assert(start =~= without(start, names.deep_view().take(0)));
        }
        while i < names.len()
            invariant
                i <= names@.len(),
                self@ == without(start, names.deep_view().take(i as int)),
            decreases names@.len() - i,
        {
            self.data.remove(&names[i]);
            proof {
                let t = names.deep_view().take(i as int);
                let x = names@[i as int]@;
                assert(names.deep_view().take(i + 1) =~= t.push(x));
                assert(t.push(x).to_set() =~= t.to_set().insert(x)) by {
                    assert forall|y: Seq<char>| #[trigger] t.push(x).to_set().contains(y) <==> t.to_set().insert(x).contains(y) by {
                        if t.push(x).contains(y) && y != x {
                            let a = choose|a: int| 0 <= a < t.push(x).len() && t.push(x)[a] == y;
                            assert(t[a] == y);
                        }
                        if y == x {
                            assert(t.push(x)[t.len() as int] == y);
                        }
                        if t.contains(y) {
                            let a = choose|a: int| 0 <= a < t.len() && t[a] == y;
                            assert(t.push(x)[a] == y);
                        }
                    }
                }
                assert(self@ =~= without(start, names.deep_view().take(i + 1)));
            }
            i = i + 1;
        }
        proof {
            assert(names.deep_view().take(names@.len() as int) =~= names.deep_view());
        }
    }
}

// ---------------------------------------------------------------------------
// Upgrades
// ---------------------------------------------------------------------------

/// The shared object `f` belongs to the old or the new version of a package
/// that is being upgraded.
pub open spec fn touched_by_upgrade(
    old_cache: Map<Seq<char>, EntryView>,
    pkg: Seq<char>,
    new_so_files: Seq<Seq<char>>,
    f: Seq<char>,
) -> bool {
    new_so_files.contains(f) || (old_cache.contains_key(pkg) && old_cache[pkg].so_files.contains(f))
}

/// `after` is `before` where each shared object of the new or the old
/// version of `pkg` is recorded as changed by `pkg`.
pub open spec fn changes_recorded(
    before: Map<Seq<char>, String>,
    after: Map<Seq<char>, String>,
    old_cache: Map<Seq<char>, EntryView>,
    pkg: Seq<char>,
    new_so_files: Seq<Seq<char>>,
) -> bool {
    &&& forall|f: Seq<char>| #[trigger] after.contains_key(f) <==> before.contains_key(f)
        || touched_by_upgrade(old_cache, pkg, new_so_files, f)
    &&& forall|f: Seq<char>|
        touched_by_upgrade(old_cache, pkg, new_so_files, f) ==> (#[trigger] after[f])@ == pkg
    &&& forall|f: Seq<char>|
        before.contains_key(f) && !touched_by_upgrade(old_cache, pkg, new_so_files, f)
            ==> #[trigger] after[f] == before[f]
}

/// Records, for each shared object of the new or the old version of the
/// package `pkg`, that `pkg` changed it.
pub fn accumulate_changed_so_files(
    acc: &mut StringHashMap<String>,
    old_cache: &Cache,
    pkg: &String,
    new_so_files: &Vec<String>,
)
    ensures
        changes_recorded(old(acc)@, final(acc)@, old_cache@, pkg@, new_so_files.deep_view()),
        forall|f: Seq<char>| #[trigger] new_so_files.deep_view().contains(f) ==> final(acc)@.contains_key(f)
            && final(acc)@[f]@ == pkg@,
        old_cache@.contains_key(pkg@) ==> forall|f: Seq<char>|
            #[trigger] old_cache@[pkg@].so_files.contains(f) ==> final(acc)@.contains_key(f) && final(acc)@[f]@ == pkg@,
{
    let ghost start = acc@;
    let ghost new_v = new_so_files.deep_view();
    let mut i: usize = 0;
    while i < new_so_files.len()
        invariant
            i <= new_so_files@.len(),
            new_v == new_so_files.deep_view(),
            forall|f: Seq<char>| #[trigger] acc@.contains_key(f) <==> start.contains_key(f) || new_v.take(i as int).contains(f),
            forall|f: Seq<char>| new_v.take(i as int).contains(f) ==> (#[trigger] acc@[f])@ == pkg@,
            forall|f: Seq<char>| start.contains_key(f) && !new_v.take(i as int).contains(f) ==> #[trigger] acc@[f] == start[f],
        decreases new_so_files@.len() - i,
    {
        let ghost t = new_v.take(i as int);
        let ghost x = new_so_files@[i as int]@;
        proof {
            assert(new_v.take(i + 1) =~= t.push(x));
            assert forall|y: Seq<char>| #[trigger] t.push(x).contains(y) <==> t.contains(y) || y == x by {
                if t.push(x).contains(y) && y != x {
                    let a = choose|a: int| 0 <= a < t.push(x).len() && t.push(x)[a] == y;
                    assert(t[a] == y);
                }
                if y == x {
                    assert(t.push(x)[t.len() as int] == y);
                }
                if t.contains(y) {
                    let a = choose|a: int| 0 <= a < t.len() && t[a] == y;
                    assert(t.push(x)[a] == y);
                }
            }
        }
        acc.insert(copy_string(&new_so_files[i]), copy_string(pkg));
        i = i + 1;
    }
    proof {
        assert(new_v.take(new_so_files@.len() as int) =~= new_v);
    }
    let ghost mid = acc@;
    match old_cache.data.get(pkg) {
        Some(old_entry) => {
            let ghost old_v = old_entry.so_files.deep_view();
            let mut j: usize = 0;
            while j < old_entry.so_files.len()
                invariant
                    j <= old_entry.so_files@.len(),
                    old_v == old_entry.so_files.deep_view(),
                    new_v == new_so_files.deep_view(),
                    forall|f: Seq<char>| #[trigger] acc@.contains_key(f) <==> mid.contains_key(f) || old_v.take(j as int).contains(f),
                    forall|f: Seq<char>| old_v.take(j as int).contains(f) ==> (#[trigger] acc@[f])@ == pkg@,
                    forall|f: Seq<char>| mid.contains_key(f) && !old_v.take(j as int).contains(f) ==> #[trigger] acc@[f] == mid[f],
                    forall|f: Seq<char>| new_v.contains(f) ==> #[trigger] mid.contains_key(f) && mid[f]@ == pkg@,
                decreases old_entry.so_files@.len() - j,
            {
                let ghost t = old_v.take(j as int);
                let ghost x = old_entry.so_files@[j as int]@;
                proof {
                    assert(old_v.take(j + 1) =~= t.push(x));
                    assert forall|y: Seq<char>| #[trigger] t.push(x).contains(y) <==> t.contains(y) || y == x by {
                        if t.push(x).contains(y) && y != x {
                            let a = choose|a: int| 0 <= a < t.push(x).len() && t.push(x)[a] == y;
                            assert(t[a] == y);
                        }
                        if y == x {
                            assert(t.push(x)[t.len() as int] == y);
                        }
                        if t.contains(y) {
                            let a = choose|a: int| 0 <= a < t.len() && t[a] == y;
                            assert(t.push(x)[a] == y);
                        }
                    }
                }
                // Objects that the new version no longer ships.
                if !contains_string(new_so_files, &old_entry.so_files[j]) {
                    acc.insert(copy_string(&old_entry.so_files[j]), copy_string(pkg));
                } else {
                    proof {
                        assert(new_v.contains(x));
                        assert(mid.contains_key(x));
                    }
                }
                j = j + 1;
            }
            proof {
                assert(old_v.take(old_entry.so_files@.len() as int) =~= old_v);
            }
        },
        None => {},
    }
    proof {
        crate::laws::law_upgrade_records_every_shipped_object(start, acc@, old_cache@, pkg@, new_v);
    }
}

/// Some of the shared objects `needs` is recorded as changed.
pub open spec fn links_changed(needs: Seq<Seq<char>>, changed: Map<Seq<char>, String>) -> bool {
    exists|i: int| 0 <= i < needs.len() && changed.contains_key(#[trigger] needs[i])
}

/// Some file of the package links a changed shared object.
pub open spec fn has_stale_files(e: EntryView, changed: Map<Seq<char>, String>) -> bool {
    exists|x: Seq<char>| #[trigger] e.so_dependencies.contains_key(x) && links_changed(e.so_dependencies[x], changed)
}

/// `files` are, each once, the files of the package that link a changed
/// shared object.
pub open spec fn stale_files_of(e: EntryView, changed: Map<Seq<char>, String>, files: Seq<Seq<char>>) -> bool {
    &&& files.no_duplicates()
    &&& forall|x: Seq<char>| #[trigger] files.contains(x) <==> e.so_dependencies.contains_key(x)
        && links_changed(e.so_dependencies[x], changed)
}

/// `plan` names each package of `cache` with files that link a changed
/// shared object, and gives those files.
pub open spec fn is_rescan_plan(
    cache: Map<Seq<char>, EntryView>,
    changed: Map<Seq<char>, String>,
    plan: Map<Seq<char>, Seq<Seq<char>>>,
) -> bool {
    &&& forall|p: Seq<char>| #[trigger] plan.contains_key(p) <==> cache.contains_key(p) && has_stale_files(cache[p], changed)
    &&& forall|p: Seq<char>| #[trigger] plan.contains_key(p) ==> stale_files_of(cache[p], changed, plan[p])
}

/// Whether one of the shared objects `needs` is recorded as changed.
fn links_changed_exec(needs: &Vec<String>, changed: &StringHashMap<String>) -> (out: bool)
    ensures
        out == links_changed(needs.deep_view(), changed@),
{
    let mut i: usize = 0;
    while i < needs.len()
        invariant
            i <= needs@.len(),
            forall|j: int| 0 <= j < i ==> !changed@.contains_key(#[trigger] needs.deep_view()[j]),
        decreases needs@.len() - i,
    {
        if changed.contains_key(needs[i].as_str()) {
            proof {
                assert(changed@.contains_key(needs.deep_view()[i as int]));
            }
            return true;
        }
        i = i + 1;
    }
    false
}

/// The files of a package that link a changed shared object, each once.
fn stale_files(entry: &CacheEntry, changed: &StringHashMap<String>) -> (out: Vec<String>)
    ensures
        stale_files_of(entry.deep_view(), changed@, out.deep_view()),
{
    let deps = &entry.so_dependencies;
    let n = deps.len();
    let ghost keys = deps.keys_seq();
    let ghost pred = |needs: Seq<Seq<char>>| links_changed(needs, changed@);
    let mut out: Vec<String> = Vec::new();
    let mut i: usize = 0;
    while i < n
        invariant
            n == keys.len(),
            n == deps.spec_len(),
            keys == deps.keys_seq(),
            i <= n,
            pred == (|needs: Seq<Seq<char>>| links_changed(needs, changed@)),
            keys.no_duplicates(),
            forall|k: Seq<char>| #[trigger] deps.view().contains_key(k) <==> keys.contains(k),
            forall|j: int| 0 <= j < n ==> #[trigger] deps.view()[keys[j]] == deps.value_at(j),
            keys_filtered(keys, deps.view(), pred, i as int, out.deep_view()),
        decreases n - i,
    {
        let k = deps.key(i);
        let v = deps.value(i);
        proof {
            lemma_keys_filtered_step(keys, deps.view(), pred, i as int, out.deep_view());
        }
        let hit = links_changed_exec(v, changed);
        proof {
            assert(v.deep_view() == deps.view()[keys[i as int]]);
            assert(hit == pred(deps.view()[keys[i as int]]));
        }
        if hit {
            let ghost prev = out.deep_view();
            out.push(copy_string(k));
            proof {
                assert(out.deep_view() =~= prev.push(k@));
            }
        }
        i = i + 1;
    }
    proof {
        lemma_keys_filtered_done(keys, deps.view(), pred, out.deep_view());
    }
    out
}

/// For each package of `cache` with files that link a shared object
/// recorded in `changed`, those files.
pub fn execs_to_scan(cache: &Cache, changed: &StringHashMap<String>) -> (plan: AssocList<Vec<String>>)
    ensures
        is_rescan_plan(cache@, changed@, plan.view()),
        forall|p: Seq<char>, x: Seq<char>, i: int|
            cache@.contains_key(p) && #[trigger] cache@[p].so_dependencies.contains_key(x) && 0 <= i
                < cache@[p].so_dependencies[x].len() && #[trigger] changed@.contains_key(cache@[p].so_dependencies[x][i])
                ==> plan.view().contains_key(p) && plan.view()[p].contains(x),
{
    let n = cache.data.len();
    let ghost keys = cache.data.keys_seq();
    let mut plan: AssocList<Vec<String>> = AssocList::new();
    let mut i: usize = 0;
    while i < n
        invariant
            n == keys.len(),
            n == cache.data.spec_len(),
            keys == cache.data.keys_seq(),
            i <= n,
            keys.no_duplicates(),
            forall|k: Seq<char>| #[trigger] cache@.contains_key(k) <==> keys.contains(k),
            forall|j: int| 0 <= j < n ==> #[trigger] cache@[keys[j]] == cache.data.value_at(j),
            forall|p: Seq<char>| #[trigger] plan.view().contains_key(p) <==> exists|j: int|
                0 <= j < i && keys[j] == p && has_stale_files(cache@[p], changed@),
            forall|p: Seq<char>| #[trigger] plan.view().contains_key(p) ==> stale_files_of(cache@[p], changed@, plan.view()[p]),
        decreases n - i,
    {
        let k = cache.data.key(i);
        let v = cache.data.value(i);
        let files = stale_files(v, changed);
        let ghost e = cache@[keys[i as int]];
        proof {
            assert(v.deep_view() == e);
            if has_stale_files(e, changed@) {
                let x = choose|x: Seq<char>| #[trigger] e.so_dependencies.contains_key(x) && links_changed(e.so_dependencies[x], changed@);
                assert(files.deep_view().contains(x));
            }
            if files.deep_view().len() > 0 {
                assert(files.deep_view().contains(files.deep_view()[0]));
            }
            assert(!plan.view().contains_key(k@)) by {
                if plan.view().contains_key(k@) {
                    let j = choose|j: int| 0 <= j < i && keys[j] == k@ && has_stale_files(cache@[k@], changed@);
                    assert(keys[j] == keys[i as int]);
                }
            }
        }
        if files.len() > 0 {
            plan.insert(copy_string(k), files);
        }
        proof {
            assert forall|p: Seq<char>| #[trigger] plan.view().contains_key(p) <==> exists|j: int|
                0 <= j < i + 1 && keys[j] == p && has_stale_files(cache@[p], changed@) by {
                if p == k@ {
                    if has_stale_files(e, changed@) {
                        assert(keys[i as int] == p);
                    }
                } else if exists|j: int| 0 <= j < i + 1 && keys[j] == p && has_stale_files(cache@[p], changed@) {
                    let j = choose|j: int| 0 <= j < i + 1 && keys[j] == p && has_stale_files(cache@[p], changed@);
                    assert(j != i);
                }
            }
        }
        i = i + 1;
    }
    proof {
        assert forall|p: Seq<char>| #[trigger] plan.view().contains_key(p) <==> cache@.contains_key(p) && has_stale_files(cache@[p], changed@) by {
            if cache@.contains_key(p) && has_stale_files(cache@[p], changed@) {
                assert(keys.contains(p));
                let j = choose|j: int| 0 <= j < keys.len() && keys[j] == p;
            }
            if plan.view().contains_key(p) {
                let j = choose|j: int| 0 <= j < i && keys[j] == p && has_stale_files(cache@[p], changed@);
                assert(keys.contains(p));
            }
        }
    }
    proof {
        crate::laws::law_rescan_plan_is_every_linking_file(cache@, changed@, plan.view());
    }
    plan
}

/// `m` where each file of `files` that `fresh` knows takes the shared
/// objects that `fresh` gives for it.
pub open spec fn refreshed(
    m: Map<Seq<char>, Seq<Seq<char>>>,
    files: Seq<Seq<char>>,
    fresh: Map<Seq<char>, Seq<Seq<char>>>,
) -> Map<Seq<char>, Seq<Seq<char>>> {
    Map::new(
        |x: Seq<char>| m.contains_key(x) || (files.contains(x) && fresh.contains_key(x)),
        |x: Seq<char>| if files.contains(x) && fresh.contains_key(x) {
            fresh[x]
        } else {
            m[x]
        },
    )
}

/// The entry `e` with the links of the files `files` taken from `fresh`.
pub open spec fn entry_refreshed(
    e: EntryView,
    files: Seq<Seq<char>>,
    fresh: Map<Seq<char>, Seq<Seq<char>>>,
) -> EntryView {
    EntryView { so_dependencies: refreshed(e.so_dependencies, files, fresh), ..e }
}

impl Cache {
    /// For the package `pkg`, if it is recorded, takes the shared objects of
    /// each of the files `files` from `fresh`, where `fresh` knows the file.
    pub fn refresh_so_dependencies(
        &mut self,
        pkg: &String,
        files: &Vec<String>,
        fresh: &AssocList<Vec<String>>,
    )
        ensures
            !old(self)@.contains_key(pkg@) ==> final(self)@ == old(self)@,
            old(self)@.contains_key(pkg@) ==> final(self)@ == old(self)@.insert(
                pkg@,
                entry_refreshed(old(self)@[pkg@], files.deep_view(), fresh.view()),
            ),
    {
        match self.data.find(pkg) {
            Some(i) => {
                let ghost start = self@;
                let mut e = self.data.replace_value(i, CacheEntry::default());
                let ghost orig = e.so_dependencies.view();
                let ghost orig_e = e.deep_view();
                let ghost mid = self@;
                let ghost fv = files.deep_view();
                let mut k: usize = 0;
                proof {
                    assert(refreshed(orig, fv.take(0), fresh.view()) =~= orig);
                }
                while k < files.len()
                    invariant
                        k <= files@.len(),
                        fv == files.deep_view(),
                        i < self.data.spec_len(),
                        self.data.keys_seq()[i as int] == pkg@,
                        self@ == mid,
                        e.dependencies.deep_view() == orig_e.dependencies,
                        e.db@ == orig_e.db,
                        e.so_files.deep_view() == orig_e.so_files,
                        e.so_dependencies.view() == refreshed(orig, fv.take(k as int), fresh.view()),
                    decreases files@.len() - k,
                {
                    let ghost t = fv.take(k as int);
                    let ghost x = files@[k as int]@;
                    proof {
                        assert(fv.take(k + 1) =~= t.push(x));
                        assert forall|y: Seq<char>| #[trigger] t.push(x).contains(y) <==> t.contains(y) || y == x by {
                            if t.push(x).contains(y) && y != x {
                                let a = choose|a: int| 0 <= a < t.push(x).len() && t.push(x)[a] == y;
                                assert(t[a] == y);
                            }
                            if y == x {
                                assert(t.push(x)[t.len() as int] == y);
                            }
                            if t.contains(y) {
                                let a = choose|a: int| 0 <= a < t.len() && t[a] == y;
                                assert(t.push(x)[a] == y);
                            }
                        }
                    }
                    match fresh.get(&files[k]) {
                        Some(d) => {
                            e.so_dependencies.insert(copy_string(&files[k]), copy_strings(d));
                            proof {
                                assert(e.so_dependencies.view() =~= refreshed(orig, fv.take(k + 1), fresh.view()));
                            }
                        },
                        None => {
                            proof {
                                assert(e.so_dependencies.view() =~= refreshed(orig, fv.take(k + 1), fresh.view()));
                            }
                        },
                    }
                    k = k + 1;
                }
                proof {
                    assert(fv.take(files@.len() as int) =~= fv);
                }
                self.data.replace_value(i, e);
                proof {
                    assert(orig_e == start[pkg@]);
                    assert(self@ =~= start.insert(pkg@, entry_refreshed(start[pkg@], fv, fresh.view())));
                }
            },
            None => {},
        }
    }

    /// The decisions of one step of an upgrade: records `entry` for the
    /// upgraded package `pkg`, records in `changed` the shared objects of
    /// its new and old versions (the old one as `old_cache` gives it), and
    /// returns, for each package, its files that link a changed object.
    pub fn upgrade_step(
        &mut self,
        old_cache: &Cache,
        changed: &mut StringHashMap<String>,
        pkg: String,
        entry: CacheEntry,
    ) -> (plan: AssocList<Vec<String>>)
        ensures
            final(self)@ == old(self)@.insert(pkg@, entry.deep_view()),
            changes_recorded(old(changed)@, final(changed)@, old_cache@, pkg@, entry.deep_view().so_files),
            is_rescan_plan(final(self)@, final(changed)@, plan.view()),
            forall|f: Seq<char>| #[trigger] entry.deep_view().so_files.contains(f) ==> final(changed)@.contains_key(f)
                && final(changed)@[f]@ == pkg@,
    {
        let so_files = copy_strings(&entry.so_files);
        let name = copy_string(&pkg);
        self.insert_entry(pkg, entry);
        accumulate_changed_so_files(changed, old_cache, &name, &so_files);
        execs_to_scan(self, changed)
    }
}

} // verus!
