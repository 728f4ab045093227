use vstd::prelude::*;

use crate::libalpm::{entry_path, package_entry_path};
use crate::text::{
    chars_of, contains_string, copy_string, find, find_in, join, join_seq, lines, opt_string_view, ranges_match, split_lines,
    string_of, trim, trim_bounds,
};

verus! {

// ---------------------------------------------------------------------------
// Asking the AUR helper about a package
// ---------------------------------------------------------------------------

/// `p` is a prefix of `s`.
pub open spec fn has_prefix(s: Seq<char>, p: Seq<char>) -> bool {
    p.len() <= s.len() && s.take(p.len() as int) == p
}

/// The text after the first `':'` of `line`, trimmed.
pub open spec fn value_after_colon(line: Seq<char>) -> Seq<char> {
    match find(line, ":"@) {
        Some(i) => trim(line.skip(i + 1)),
        None => Seq::empty(),
    }
}

/// A line of `-Qi` output that gives the name or the version has a colon.
pub open spec fn query_line_ok(line: Seq<char>) -> bool {
    (has_prefix(line, "Name"@) || has_prefix(line, "Version"@)) ==> find(line, ":"@) is Some
}

/// Every line of the output that gives the name or the version has a colon.
pub open spec fn query_output_ok(text: Seq<char>) -> bool {
    forall|i: int| 0 <= i < lines(text).len() ==> query_line_ok(#[trigger] lines(text)[i])
}

/// Reading one line of `-Qi` output: the name and the version so far.
pub open spec fn query_step(st: (Option<Seq<char>>, Option<Seq<char>>), line: Seq<char>) -> (
    Option<Seq<char>>,
    Option<Seq<char>>,
) {
    if has_prefix(line, "Name"@) {
        (Some(value_after_colon(line)), st.1)
    } else if has_prefix(line, "Version"@) {
        (st.0, Some(value_after_colon(line)))
    } else {
        st
    }
}

pub open spec fn query_fold(ls: Seq<Seq<char>>) -> (Option<Seq<char>>, Option<Seq<char>>)
    decreases ls.len(),
{
    if ls.len() == 0 {
        (None, None)
    } else {
        query_step(query_fold(ls.drop_last()), ls.last())
    }
}

/// The name and the version that `-Qi` output gives (the last line that
/// gives each counts).
pub open spec fn query_result(text: Seq<char>) -> (Option<Seq<char>>, Option<Seq<char>>) {
    query_fold(lines(text))
}

/// Whether `s[lo..hi]` starts with `p`.
fn starts_with_at(s: &Vec<char>, lo: usize, hi: usize, p: &Vec<char>) -> (out: bool)
    requires
        lo <= hi <= s@.len(),
    ensures
        out == has_prefix(s@.subrange(lo as int, hi as int), p@),
{
    if hi - lo < p.len() {
        return false;
    }
    let mut j: usize = 0;
    while j < p.len()
        invariant
            lo <= hi <= s@.len(),
            p@.len() <= hi - lo,
            j <= p@.len(),
            forall|a: int| 0 <= a < j ==> s@[lo + a] == p@[a],
        decreases p@.len() - j,
    {
        if s[lo + j] != p[j] {
            proof {
                assert(s@.subrange(lo as int, hi as int).take(p@.len() as int)[j as int] != p@[j as int]);
            }
            return false;
        }
        j = j + 1;
    }
    proof {
        assert(s@.subrange(lo as int, hi as int).take(p@.len() as int) =~= p@);
    }
    true
}

/// The trimmed text after the first colon of `s[lo..hi]`, which has one.
fn value_after_colon_exec(s: &Vec<char>, lo: usize, hi: usize, colon: &Vec<char>) -> (out: String)
    requires
        lo <= hi <= s@.len(),
        colon@ == ":"@,
        colon@.len() == 1,
    ensures
        out@ == value_after_colon(s@.subrange(lo as int, hi as int)),
{
    let ghost line = s@.subrange(lo as int, hi as int);
    match find_in(s, lo, hi, colon) {
        Some(c) => {
            proof {
                assert(line.skip(c - lo + 1) =~= s@.subrange(c + 1, hi as int));
            }
            let (a, b) = trim_bounds(s, c + 1, hi, false);
            string_of(s, a, b)
        },
        None => String::new(),
    }
}

/// Whether every line of the output of `-Qi` that starts with `Name` or
/// `Version` holds a colon.
pub fn query_output_is_well_formed(output: &str) -> (out: bool)
    ensures
        out == query_output_ok(output@),
{
    let cs = chars_of(output);
    let ranges = split_lines(&cs);
    let name_key = chars_of("Name");
    let version_key = chars_of("Version");
    let colon = chars_of(":");
    proof {
        reveal_strlit(":");
    }
    let ghost ls = lines(cs@);
    let mut i: usize = 0;
    while i < ranges.len()
        invariant
            cs@ == output@,
            ls == lines(cs@),
            ranges_match(cs@, ranges@, ls),
            name_key@ == "Name"@,
            version_key@ == "Version"@,
            colon@ == ":"@,
            colon@.len() == 1,
            i <= ranges@.len(),
            forall|j: int| 0 <= j < i ==> query_line_ok(#[trigger] ls[j]),
        decreases ranges@.len() - i,
    {
        let (lo, hi) = ranges[i];
        proof {
            assert(ranges@[i as int] == (lo, hi));
        }
        if starts_with_at(&cs, lo, hi, &name_key) || starts_with_at(&cs, lo, hi, &version_key) {
            if find_in(&cs, lo, hi, &colon).is_none() {
                return false;
            }
        }
        i = i + 1;
    }
    true
}

/// The name and the version that the output of `-Qi` gives.  Each line
/// that starts with `Name` or `Version` must hold a colon.
pub fn parse_package_query(output: &str) -> (out: (Option<String>, Option<String>))
    requires
        query_output_ok(output@),
    ensures
        (opt_string_view(out.0), opt_string_view(out.1)) == query_result(output@),
{
    let cs = chars_of(output);
    let ranges = split_lines(&cs);
    let name_key = chars_of("Name");
    let version_key = chars_of("Version");
    let colon = chars_of(":");
    proof {
        reveal_strlit(":");
    }
    let ghost ls = lines(cs@);
    let mut name: Option<String> = None;
    let mut version: Option<String> = None;
    let mut i: usize = 0;
    proof {
        assert(ls.take(0) =~= Seq::<Seq<char>>::empty());
    }
    while i < ranges.len()
        invariant
            cs@ == output@,
            ls == lines(cs@),
            ranges_match(cs@, ranges@, ls),
            name_key@ == "Name"@,
            version_key@ == "Version"@,
            colon@ == ":"@,
            colon@.len() == 1,
            i <= ranges@.len(),
            query_output_ok(output@),
            query_fold(ls.take(i as int)) == (opt_string_view(name), opt_string_view(version)),
        decreases ranges@.len() - i,
    {
        let (lo, hi) = ranges[i];
        proof {
            assert(ranges@[i as int] == (lo, hi));
            assert(ls.take(i + 1).drop_last() =~= ls.take(i as int));
            assert(ls.take(i + 1).last() == ls[i as int]);
        }
        if starts_with_at(&cs, lo, hi, &name_key) {
            name = Some(value_after_colon_exec(&cs, lo, hi, &colon));
        } else if starts_with_at(&cs, lo, hi, &version_key) {
            version = Some(value_after_colon_exec(&cs, lo, hi, &colon));
        }
        i = i + 1;
    }
    proof {
        assert(ls.take(ranges@.len() as int) =~= ls);
    }
    (name, version)
}

/// The path of the `desc` file of the package that the output of `-Qi`
/// describes; the output must give its name and its version.
pub fn desc_path_from_query(output: &str) -> (out: String)
    requires
        query_output_ok(output@),
        query_result(output@).0 is Some,
        query_result(output@).1 is Some,
    ensures
        out@ == entry_path(query_result(output@).0.unwrap(), query_result(output@).1.unwrap(), "desc"@),
{
    let (name, version) = parse_package_query(output);
    match (name, version) {
        (Some(n), Some(v)) => package_entry_path(&n, &v, "desc"),
        _ => {
            proof {
                assert(false);
            }
            String::new()
        },
    }
}

// ---------------------------------------------------------------------------
// Rebuilding packages
// ---------------------------------------------------------------------------

/// The command that rebuilds `pkgs` with the AUR helper `helper`.
pub open spec fn helper_command_spec(helper: Seq<char>, pkgs: Seq<Seq<char>>) -> Seq<char> {
    helper + " -S --aur --mflags \"--skippgpcheck --skipchecksums --nocheck\" --sudoloop --noconfirm "@
        + join_seq(pkgs, " "@)
}

/// The command that rebuilds `pkgs` with the AUR helper `helper`, without
/// questions and without checks of sources.
pub fn helper_command(helper: &str, pkgs: &Vec<String>) -> (out: String)
    ensures
        out@ == helper_command_spec(helper@, pkgs.deep_view()),
{
    let mut out = String::from_str(helper);
    out.append(" -S --aur --mflags \"--skippgpcheck --skipchecksums --nocheck\" --sudoloop --noconfirm ");
    let joined = join(pkgs, " ");
    out.append(joined.as_str());
    out
}

/// The command that shows which packages are about to be rebuilt.
pub open spec fn echo_command_spec(pkgs: Seq<Seq<char>>) -> Seq<char> {
    "echo \"Rebuilding packages:\n  "@ + join_seq(pkgs, "\n  "@) + "\n\""@
}

/// The command that shows which packages are about to be rebuilt.
pub fn echo_command(pkgs: &Vec<String>) -> (out: String)
    ensures
        out@ == echo_command_spec(pkgs.deep_view()),
{
    let mut out = String::from_str("echo \"Rebuilding packages:\n  ");
    let joined = join(pkgs, "\n  ");
    out.append(joined.as_str());
    out.append("\n\"");
    out
}

/// The shell command run in the terminal: show, rebuild, then wait for a key.
pub open spec fn full_command_spec(helper: Seq<char>, pkgs: Seq<Seq<char>>) -> Seq<char> {
    echo_command_spec(pkgs) + " && "@ + helper_command_spec(helper, pkgs)
        + "; read -p \"Press enter to exit...\""@
}

/// The shell command run in the terminal: show, rebuild, then wait for a key.
pub fn full_command(helper: &str, pkgs: &Vec<String>) -> (out: String)
    ensures
        out@ == full_command_spec(helper@, pkgs.deep_view()),
{
    let mut out = echo_command(pkgs);
    out.append(" && ");
    let h = helper_command(helper, pkgs);
    out.append(h.as_str());
    out.append("; read -p \"Press enter to exit...\"");
    out
}

/// The program and arguments that open a terminal running `full`; as root,
/// they first switch to the user `user`.
pub open spec fn terminal_command_spec(is_root: bool, user: Seq<char>, full: Seq<char>) -> Seq<Seq<char>> {
    (if is_root {
        seq!["sudo"@, "-u"@, user, "--"@]
    } else {
        Seq::empty()
    }) + seq![
        "alacritty"@,
        "-o"@,
        "window.opacity=1.0"@,
        "-T"@,
        "Rebuilding AUR packages"@,
        "-e"@,
        "bash"@,
        "-c"@,
        full,
    ]
}

/// The program and arguments that open a terminal running `full`; as root,
/// they first switch to the user `user`.
pub fn terminal_command(is_root: bool, user: &String, full: &String) -> (out: Vec<String>)
    ensures
        out.deep_view() == terminal_command_spec(is_root, user@, full@),
{
    let mut out: Vec<String> = Vec::new();
    if is_root {
        out.push(String::from_str("sudo"));
        out.push(String::from_str("-u"));
        out.push(copy_string(user));
        out.push(String::from_str("--"));
    }
    out.push(String::from_str("alacritty"));
    out.push(String::from_str("-o"));
    out.push(String::from_str("window.opacity=1.0"));
    out.push(String::from_str("-T"));
    out.push(String::from_str("Rebuilding AUR packages"));
    out.push(String::from_str("-e"));
    out.push(String::from_str("bash"));
    out.push(String::from_str("-c"));
    out.push(copy_string(full));
    proof {
        assert(out.deep_view() =~= terminal_command_spec(is_root, user@, full@));
    }
    out
}

/// The command that a user runs to rebuild `pkgs` by hand.
pub open spec fn manual_command_spec(helper: Seq<char>, pkgs: Seq<Seq<char>>) -> Seq<char> {
    helper + " -S --aur "@ + join_seq(pkgs, " "@)
}

/// The command that a user runs to rebuild `pkgs` by hand.
pub fn manual_command(helper: &str, pkgs: &Vec<String>) -> (out: String)
    ensures
        out@ == manual_command_spec(helper@, pkgs.deep_view()),
{
    let mut out = String::from_str(helper);
    out.append(" -S --aur ");
    let joined = join(pkgs, " ");
    out.append(joined.as_str());
    out
}

/// Records `pkg` as rebuilt when it is not recorded yet and was installed
/// after the rebuild started; says whether it recorded it.
pub fn record_if_rebuilt(finished: &mut Vec<String>, pkg: &String, started: i64, install_date: i64) -> (out: bool)
    ensures
        out == (!old(finished).deep_view().contains(pkg@) && started < install_date),
        out ==> final(finished).deep_view() == old(finished).deep_view().push(pkg@),
        !out ==> final(finished).deep_view() == old(finished).deep_view(),
{
    if !contains_string(finished, pkg) && started < install_date {
        let ghost prev = finished.deep_view();
        finished.push(copy_string(pkg));
        proof {
            assert(finished.deep_view() =~= prev.push(pkg@));
        }
        true
    } else {
        false
    }
}

/// The packages of `pkgs` that are not recorded as rebuilt, in order.
pub fn pending_packages(pkgs: &Vec<String>, finished: &Vec<String>) -> (out: Vec<String>)
    ensures
        out.deep_view() == pkgs.deep_view().filter(|p: Seq<char>| !finished.deep_view().contains(p)),
{
    let ghost pred = |p: Seq<char>| !finished.deep_view().contains(p);
    let mut out: Vec<String> = Vec::new();
    let mut i: usize = 0;
    while i < pkgs.len()
        invariant
            i <= pkgs@.len(),
            pred == (|p: Seq<char>| !finished.deep_view().contains(p)),
            out.deep_view() == pkgs.deep_view().take(i as int).filter(pred),
        decreases pkgs@.len() - i,
    {
        let ghost prev = out.deep_view();
        proof {
            assert(pkgs.deep_view().take(i + 1) =~= pkgs.deep_view().take(i as int).push(pkgs@[i as int]@));
            pkgs.deep_view().take(i as int).lemma_filter_push(pkgs@[i as int]@, pred);
        }
        if !contains_string(finished, &pkgs[i]) {
            out.push(copy_string(&pkgs[i]));
            proof {
                assert(out.deep_view() =~= prev.push(pkgs@[i as int]@));
            }
        }
        i = i + 1;
    }
    proof {
        assert(pkgs.deep_view().take(pkgs@.len() as int) =~= pkgs.deep_view());
    }
    out
}

} // verus!
