use vstd::prelude::*;

use crate::cache::{EntryView, changes_recorded, has_stale_files, is_foreign_entry, is_rescan_plan, links_changed, refreshed, without};
use crate::libalpm::{PackageView, desc_fold, desc_step, files_listed, index_by_name, is_foreign, lemma_backup_index_at, package_of, parse_desc, values_of};
use crate::text::{lex_le, lines, sorted, trim, trim_by, trim_class, trim_end_by, trim_start_by};

verus! {

// ---------------------------------------------------------------------------
// Trimming
// ---------------------------------------------------------------------------

proof fn lemma_trim_start_front(s: Seq<char>, percent: bool)
    ensures
        trim_start_by(s, percent).len() == 0 || !trim_class(percent, trim_start_by(s, percent)[0]),
        trim_start_by(s, percent).len() <= s.len(),
        trim_start_by(s, percent) == s.skip(s.len() - trim_start_by(s, percent).len()),
    decreases s.len(),
{
    if s.len() > 0 && trim_class(percent, s[0]) {
        lemma_trim_start_front(s.drop_first(), percent);
        let t = trim_start_by(s.drop_first(), percent);
        assert(s.drop_first().skip(s.drop_first().len() - t.len()) =~= s.skip(s.len() - t.len()));
    } else {
        assert(s.skip(0) =~= s);
    }
}

proof fn lemma_trim_end_back(s: Seq<char>, percent: bool)
    ensures
        trim_end_by(s, percent).len() == 0 || !trim_class(percent, trim_end_by(s, percent).last()),
        trim_end_by(s, percent) == s.take(trim_end_by(s, percent).len() as int),
        trim_end_by(s, percent).len() <= s.len(),
    decreases s.len(),
{
    if s.len() > 0 && trim_class(percent, s.last()) {
        lemma_trim_end_back(s.drop_last(), percent);
        let t = trim_end_by(s.drop_last(), percent);
        assert(s.drop_last().take(t.len() as int) =~= s.take(t.len() as int));
    } else {
        assert(s.take(s.len() as int) =~= s);
    }
}

proof fn lemma_trim_start_fixed(s: Seq<char>, percent: bool)
    requires
        s.len() == 0 || !trim_class(percent, s[0]),
    ensures
        trim_start_by(s, percent) == s,
{
}

proof fn lemma_trim_end_fixed(s: Seq<char>, percent: bool)
    requires
        s.len() == 0 || !trim_class(percent, s.last()),
    ensures
        trim_end_by(s, percent) == s,
{
}

/// Trimming a trimmed text changes nothing.
pub proof fn lemma_trim_idempotent(s: Seq<char>, percent: bool)
    ensures
        trim_by(trim_by(s, percent), percent) == trim_by(s, percent),
{
    let u = trim_start_by(s, percent);
    lemma_trim_start_front(s, percent);
    let t = trim_end_by(u, percent);
    lemma_trim_end_back(u, percent);
    if t.len() > 0 {
        assert(t[0] == u[0]);
    }
    lemma_trim_start_fixed(t, percent);
    lemma_trim_end_fixed(t, percent);
}

// ---------------------------------------------------------------------------
// Desc files
// ---------------------------------------------------------------------------

/// Every recorded value is a non-empty, trimmed line.
pub open spec fn values_are_trimmed_lines(m: Map<Seq<char>, Seq<Seq<char>>>) -> bool {
    forall|k: Seq<char>, i: int|
        #![trigger m[k][i]]
        m.contains_key(k) && 0 <= i < m[k].len() ==> m[k][i].len() > 0 && trim(m[k][i]) == m[k][i]
}

proof fn lemma_desc_fold_values(ls: Seq<Seq<char>>)
    ensures
        values_are_trimmed_lines(desc_fold(ls).0),
    decreases ls.len(),
{
    if ls.len() > 0 {
        lemma_desc_fold_values(ls.drop_last());
        let st = desc_fold(ls.drop_last());
        let line = trim(ls.last());
        lemma_trim_idempotent(ls.last(), false);
        let next = desc_step(st, ls.last());
        assert forall|k: Seq<char>, i: int|
            #![trigger next.0[k][i]]
            next.0.contains_key(k) && 0 <= i < next.0[k].len() implies next.0[k][i].len() > 0 && trim(
                next.0[k][i],
            ) == next.0[k][i] by {
            if st.1 is Some && k == st.1.unwrap() && next.0 != st.0 {
                let vals = values_of(st.0, k);
                if i < vals.len() {
                    assert(next.0[k][i] == vals[i]);
                    assert(st.0[k][i] == vals[i]);
                }
            } else if next.0 != st.0 {
                assert(next.0[k] == st.0[k]);
            }
        }
    }
}

/// Law: every value that a `desc` file gives is a non-empty line without
/// white space at either end.
pub proof fn law_desc_values_are_trimmed_lines(content: Seq<char>)
    ensures
        values_are_trimmed_lines(parse_desc(content)),
{
    lemma_desc_fold_values(crate::text::lines(content));
}

// ---------------------------------------------------------------------------
// The local database
// ---------------------------------------------------------------------------

/// Law: every package read into the database can be found by its name, and
/// what is found under a name is a package of that name.
pub proof fn law_packages_found_by_name(ps: Seq<PackageView>)
    ensures
        forall|i: int| 0 <= i < ps.len() ==> index_by_name(ps).contains_key(#[trigger] ps[i].name),
        forall|n: Seq<char>| #[trigger] index_by_name(ps).contains_key(n) ==> index_by_name(ps)[n].name == n,
    decreases ps.len(),
{
    if ps.len() > 0 {
        law_packages_found_by_name(ps.drop_last());
        assert forall|i: int| 0 <= i < ps.len() implies index_by_name(ps).contains_key(#[trigger] ps[i].name) by {
            if i < ps.len() - 1 {
                assert(ps.drop_last()[i] == ps[i]);
            }
        }
        assert forall|n: Seq<char>| #[trigger] index_by_name(ps).contains_key(n) implies index_by_name(ps)[n].name == n by {
            if n != ps.last().name {
                assert(index_by_name(ps.drop_last()).contains_key(n));
            }
        }
    }
}

/// Law: of packages with one name, the one read last is the one found.
pub proof fn law_last_package_wins(ps: Seq<PackageView>, i: int)
    requires
        0 <= i < ps.len(),
        forall|j: int| i < j < ps.len() ==> (#[trigger] ps[j]).name != ps[i].name,
    ensures
        index_by_name(ps)[ps[i].name] == ps[i],
    decreases ps.len(),
{
    if i < ps.len() - 1 {
        law_last_package_wins(ps.drop_last(), i);
        assert(ps.drop_last()[i] == ps[i]);
    }
}

// ---------------------------------------------------------------------------
// The cache
// ---------------------------------------------------------------------------

/// Law: forgetting packages removes exactly them; what is known of any
/// other package stays as it was.
pub proof fn law_remove_packages(m: Map<Seq<char>, EntryView>, names: Seq<Seq<char>>, k: Seq<char>)
    ensures
        names.contains(k) ==> !without(m, names).contains_key(k),
        !names.contains(k) ==> (without(m, names).contains_key(k) == m.contains_key(k)),
        !names.contains(k) && m.contains_key(k) ==> without(m, names)[k] == m[k],
{
}

/// Law: installing a package that the cache did not know and then removing
/// it leaves the cache as it was.
pub proof fn law_install_then_remove(m: Map<Seq<char>, EntryView>, name: Seq<char>, e: EntryView)
    requires
        !m.contains_key(name),
    ensures
        without(m.insert(name, e), seq![name]) == m,
{
    assert(seq![name].to_set() =~= Set::<Seq<char>>::empty().insert(name)) by {
        assert forall|y: Seq<char>| #[trigger] seq![name].to_set().contains(y) <==> y == name by {
            if y == name {
                assert(seq![name][0] == y);
            }
        }
    }
    assert(without(m.insert(name, e), seq![name]) =~= m);
}

/// Law: refreshing the links of some files leaves every other file of the
/// package as it was.
pub proof fn law_refresh_keeps_other_files(
    m: Map<Seq<char>, Seq<Seq<char>>>,
    files: Seq<Seq<char>>,
    fresh: Map<Seq<char>, Seq<Seq<char>>>,
    x: Seq<char>,
)
    requires
        !files.contains(x),
    ensures
        refreshed(m, files, fresh).contains_key(x) == m.contains_key(x),
        m.contains_key(x) ==> refreshed(m, files, fresh)[x] == m[x],
{
}

/// Law: refreshing twice with the same links is refreshing once.
pub proof fn law_refresh_idempotent(
    m: Map<Seq<char>, Seq<Seq<char>>>,
    files: Seq<Seq<char>>,
    fresh: Map<Seq<char>, Seq<Seq<char>>>,
)
    ensures
        refreshed(refreshed(m, files, fresh), files, fresh) == refreshed(m, files, fresh),
{
    assert(refreshed(refreshed(m, files, fresh), files, fresh) =~= refreshed(m, files, fresh));
}

/// Law: when no shared object is recorded as changed, no package needs a
/// rescan.
pub proof fn law_no_change_no_rescan(
    cache: Map<Seq<char>, EntryView>,
    plan: Map<Seq<char>, Seq<Seq<char>>>,
)
    requires
        is_rescan_plan(cache, Map::<Seq<char>, String>::empty(), plan),
    ensures
        plan.dom() == Set::<Seq<char>>::empty(),
{
    assert forall|p: Seq<char>| !plan.contains_key(p) by {
        if plan.contains_key(p) {
            assert(has_stale_files(cache[p], Map::<Seq<char>, String>::empty()));
        }
    }
    assert(plan.dom() =~= Set::<Seq<char>>::empty());
}

// ---------------------------------------------------------------------------
// Sorting
// ---------------------------------------------------------------------------

proof fn lemma_lex_antisymmetric(a: Seq<char>, b: Seq<char>)
    requires
        lex_le(a, b),
        lex_le(b, a),
    ensures
        a == b,
    decreases a.len(),
{
    if a.len() > 0 && b.len() > 0 {
        let u = a[0] as u32;
        vstd::utf8::char_u32_cast(a[0], u);
        vstd::utf8::char_u32_cast(b[0], u);
        assert(a[0] == b[0]);
        lemma_lex_antisymmetric(a.drop_first(), b.drop_first());
        assert(a =~= seq![a[0]] + a.drop_first());
        assert(b =~= seq![b[0]] + b.drop_first());
    } else {
        assert(a =~= b);
    }
}

/// Law: there is one ascending order of a collection of strings, so sorting
/// gives one result for all arrangements of the same strings (and leaves a
/// sorted list as it is).
pub proof fn law_sorted_order_is_unique(a: Seq<Seq<char>>, b: Seq<Seq<char>>)
    requires
        sorted(a),
        sorted(b),
        a.to_multiset() == b.to_multiset(),
    ensures
        a == b,
    decreases a.len(),
{
    vstd::seq_lib::to_multiset_len(a);
    vstd::seq_lib::to_multiset_len(b);
    if a.len() == 0 {
        assert(b.len() == 0);
        assert(a =~= b);
    } else {
        vstd::seq_lib::to_multiset_contains(a, a[0]);
        vstd::seq_lib::to_multiset_contains(b, a[0]);
        vstd::seq_lib::to_multiset_contains(b, b[0]);
        vstd::seq_lib::to_multiset_contains(a, b[0]);
        assert(a.contains(a[0]));
        assert(b.contains(b[0]));
        let j = choose|j: int| 0 <= j < b.len() && b[j] == a[0];
        let k = choose|k: int| 0 <= k < a.len() && a[k] == b[0];
        if j > 0 {
            assert(lex_le(b[0], b[j]));
        } else {
            lemma_lex_reflexive(b[0]);
        }
        if k > 0 {
            assert(lex_le(a[0], a[k]));
        } else {
            lemma_lex_reflexive(a[0]);
        }
        lemma_lex_antisymmetric(a[0], b[0]);
        vstd::seq_lib::to_multiset_remove(a, 0);
        vstd::seq_lib::to_multiset_remove(b, 0);
        assert(a.remove(0) =~= a.drop_first());
        assert(b.remove(0) =~= b.drop_first());
        assert(sorted(a.drop_first())) by {
            assert forall|x: int, y: int| 0 <= x < y < a.drop_first().len() implies lex_le(
                #[trigger] a.drop_first()[x],
                #[trigger] a.drop_first()[y],
            ) by {
                assert(lex_le(a[x + 1], a[y + 1]));
            }
        }
        assert(sorted(b.drop_first())) by {
            assert forall|x: int, y: int| 0 <= x < y < b.drop_first().len() implies lex_le(
                #[trigger] b.drop_first()[x],
                #[trigger] b.drop_first()[y],
            ) by {
                assert(lex_le(b[x + 1], b[y + 1]));
            }
        }
        law_sorted_order_is_unique(a.drop_first(), b.drop_first());
        assert(a =~= seq![a[0]] + a.drop_first());
        assert(b =~= seq![b[0]] + b.drop_first());
    }
}

proof fn lemma_lex_reflexive(a: Seq<char>)
    ensures
        lex_le(a, a),
    decreases a.len(),
{
    if a.len() > 0 {
        lemma_lex_reflexive(a.drop_first());
    }
}

// ---------------------------------------------------------------------------
// What each operation is for
// ---------------------------------------------------------------------------

/// Law: after an upgrade of `pkg`, every shared object that its new version
/// ships, and every one that its old version shipped, is recorded as changed
/// by `pkg`, whether or not both versions ship it; no other entry changes.
pub proof fn law_upgrade_records_every_shipped_object(
    before: Map<Seq<char>, String>,
    after: Map<Seq<char>, String>,
    old_cache: Map<Seq<char>, EntryView>,
    pkg: Seq<char>,
    new_so_files: Seq<Seq<char>>,
)
    requires
        changes_recorded(before, after, old_cache, pkg, new_so_files),
    ensures
        forall|f: Seq<char>| #[trigger] new_so_files.contains(f) ==> after.contains_key(f) && after[f]@ == pkg,
        old_cache.contains_key(pkg) ==> forall|f: Seq<char>|
            #[trigger] old_cache[pkg].so_files.contains(f) ==> after.contains_key(f) && after[f]@ == pkg,
        forall|f: Seq<char>|
            !new_so_files.contains(f) && !(old_cache.contains_key(pkg) && old_cache[pkg].so_files.contains(f))
                ==> (#[trigger] after.contains_key(f) == before.contains_key(f))
                && (before.contains_key(f) ==> after[f] == before[f]),
{
}

/// Law: the paths that a `files` file lists are its lines from the second
/// one up to the first `%BACKUP%` line, or up to its end when there is no
/// such line, each with `'/'` in front.
pub proof fn law_files_listed_up_to_backup(content: Seq<char>, k: int)
    requires
        0 <= k <= lines(content).len(),
        forall|j: int| 0 <= j < k ==> lines(content)[j] != "%BACKUP%"@,
        k == lines(content).len() || lines(content)[k] == "%BACKUP%"@,
    ensures
        files_listed(content).len() == if k >= 1 { k - 1 } else { 0 },
        forall|i: int| 0 <= i < k - 1 ==> #[trigger] files_listed(content)[i] == seq!['/'] + lines(content)[i + 1],
{
    lemma_backup_index_at(lines(content), k);
}

/// Law: with no `%BACKUP%` line, every line after the first is listed.
pub proof fn law_files_listed_without_backup(content: Seq<char>)
    requires
        lines(content).len() >= 1,
        forall|j: int| 0 <= j < lines(content).len() ==> lines(content)[j] != "%BACKUP%"@,
    ensures
        files_listed(content).len() == lines(content).len() - 1,
        forall|i: int| 0 <= i < lines(content).len() - 1 ==> #[trigger] files_listed(content)[i] == seq!['/']
            + lines(content)[i + 1],
{
    law_files_listed_up_to_backup(content, lines(content).len() as int);
}

/// Law: the dependencies of a package are exactly the values of the
/// `DEPENDS` field, none when there is no such field.
pub proof fn law_depends_are_the_depends_field(m: Map<Seq<char>, Seq<Seq<char>>>)
    ensures
        m.contains_key("DEPENDS"@) ==> package_of(m).depends == m["DEPENDS"@],
        !m.contains_key("DEPENDS"@) ==> package_of(m).depends == Seq::<Seq<char>>::empty(),
{
}

/// Law: no field but `DEPENDS` changes the dependencies of a package.
pub proof fn law_depends_ignore_other_fields(
    m: Map<Seq<char>, Seq<Seq<char>>>,
    key: Seq<char>,
    values: Seq<Seq<char>>,
)
    requires
        key != "DEPENDS"@,
    ensures
        package_of(m.insert(key, values)).depends == package_of(m).depends,
{
}

/// Law: the name, version and repository of a package are the first values
/// of the `NAME`, `VERSION` and `INSTALLED_DB` fields, each `"unknown"`
/// when its field is missing or has no value.
pub proof fn law_package_fields_are_first_values(m: Map<Seq<char>, Seq<Seq<char>>>)
    ensures
        m.contains_key("NAME"@) && m["NAME"@].len() > 0 ==> package_of(m).name == m["NAME"@][0],
        !(m.contains_key("NAME"@) && m["NAME"@].len() > 0) ==> package_of(m).name == "unknown"@,
        m.contains_key("VERSION"@) && m["VERSION"@].len() > 0 ==> package_of(m).version == m["VERSION"@][0],
        !(m.contains_key("VERSION"@) && m["VERSION"@].len() > 0) ==> package_of(m).version == "unknown"@,
        m.contains_key("INSTALLED_DB"@) && m["INSTALLED_DB"@].len() > 0 ==> package_of(m).db
            == m["INSTALLED_DB"@][0],
        !(m.contains_key("INSTALLED_DB"@) && m["INSTALLED_DB"@].len() > 0) ==> package_of(m).db == "unknown"@,
{
}

/// Law: a package counts as foreign (from the AUR) exactly when its
/// repository is `"unknown"`, in the database and in the cache.
pub proof fn law_foreign_means_unknown_repository(p: PackageView, e: EntryView)
    ensures
        is_foreign(p) <==> p.db == "unknown"@,
        is_foreign_entry(e) <==> e.db == "unknown"@,
{
}

/// Law: a rescan plan holds each file of each package of the cache that
/// links a changed shared object, whatever the package's repository, and
/// only such files.
pub proof fn law_rescan_plan_is_every_linking_file(
    cache: Map<Seq<char>, EntryView>,
    changed: Map<Seq<char>, String>,
    plan: Map<Seq<char>, Seq<Seq<char>>>,
)
    requires
        is_rescan_plan(cache, changed, plan),
    ensures
        forall|p: Seq<char>, x: Seq<char>, i: int|
            cache.contains_key(p) && #[trigger] cache[p].so_dependencies.contains_key(x) && 0 <= i
                < cache[p].so_dependencies[x].len() && #[trigger] changed.contains_key(cache[p].so_dependencies[x][i])
                ==> plan.contains_key(p) && plan[p].contains(x),
        forall|p: Seq<char>, x: Seq<char>|
            #[trigger] plan.contains_key(p) && #[trigger] plan[p].contains(x) ==> cache.contains_key(p)
                && cache[p].so_dependencies.contains_key(x) && exists|i: int|
                0 <= i < cache[p].so_dependencies[x].len() && changed.contains_key(
                    #[trigger] cache[p].so_dependencies[x][i],
                ),
{
    assert forall|p: Seq<char>, x: Seq<char>, i: int|
        cache.contains_key(p) && #[trigger] cache[p].so_dependencies.contains_key(x) && 0 <= i
            < cache[p].so_dependencies[x].len() && #[trigger] changed.contains_key(cache[p].so_dependencies[x][i])
        implies plan.contains_key(p) && plan[p].contains(x) by {
        assert(links_changed(cache[p].so_dependencies[x], changed));
        assert(has_stale_files(cache[p], changed));
    }
}

} // verus!
