use vstd::prelude::*;

verus! {

// ---------------------------------------------------------------------------
// Characters and strings
// ---------------------------------------------------------------------------

/// The characters of `s`, in order.
pub fn chars_of(s: &str) -> (out: Vec<char>)
    ensures
        out@ == s@,
{
    let mut out: Vec<char> = Vec::new();
    for c in it: s.chars()
        invariant
            out@ == it.seq().take(it.index() as int),
            it.seq() == s@,
    {
        out.push(c);
    }
    out
}

/// Calls `String::push`; the contract claims that the characters of `s`
/// gain `c` at their end and nothing else changes.
#[verifier::external_body]
fn push_char(s: &mut String, c: char)
    ensures
        final(s)@ == old(s)@.push(c),
{
    s.push(c);
}

/// The string made of the characters `s[lo..hi]`.
pub fn string_of(s: &Vec<char>, lo: usize, hi: usize) -> (out: String)
    requires
        lo <= hi <= s@.len(),
    ensures
        out@ == s@.subrange(lo as int, hi as int),
{
    let mut out = String::new();
    let mut i = lo;
    while i < hi
        invariant
            lo <= i <= hi <= s@.len(),
            out@ == s@.subrange(lo as int, i as int),
        decreases hi - i,
    {
        push_char(&mut out, s[i]);
        proof {
            assert(s@.subrange(lo as int, i + 1) =~= s@.subrange(lo as int, i as int).push(s@[i as int]));
        }
        i = i + 1;
    }
    out
}

/// The characters of an optional string.
pub open spec fn opt_string_view(o: Option<String>) -> Option<Seq<char>> {
    match o {
        Some(s) => Some(s@),
        None => None,
    }
}

/// A copy of `s` (same characters).
pub fn copy_string(s: &String) -> (out: String)
    ensures
        out@ == s@,
{
    s.clone()
}

/// A copy of a list of strings (same strings, same order).
pub fn copy_strings(v: &Vec<String>) -> (out: Vec<String>)
    ensures
        out.deep_view() == v.deep_view(),
{
    let mut out: Vec<String> = Vec::new();
    let mut i: usize = 0;
    while i < v.len()
        invariant
            i <= v@.len(),
            out.deep_view() == v.deep_view().take(i as int),
        decreases v@.len() - i,
    {
        let c = v[i].clone();
        proof {
            assert(c@ == v@[i as int]@);
        }
        let ghost prev = out.deep_view();
        out.push(c);
        proof {
            assert(out.deep_view() =~= prev.push(c@));
            assert(out.deep_view() =~= v.deep_view().take(i + 1));
        }
        i = i + 1;
    }
    proof {
        assert(v.deep_view().take(v@.len() as int) =~= v.deep_view());
    }
    out
}

/// Whether the list `v` holds a string equal to `s`.
pub fn contains_string(v: &Vec<String>, s: &String) -> (out: bool)
    ensures
        out == v.deep_view().contains(s@),
{
    let mut i: usize = 0;
    while i < v.len()
        invariant
            i <= v@.len(),
            forall|j: int| 0 <= j < i ==> v@[j]@ != s@,
        decreases v@.len() - i,
    {
        if v[i] == *s {
            proof {
                assert(v.deep_view()[i as int] == s@);
            }
            return true;
        }
        i = i + 1;
    }
    proof {
        if v.deep_view().contains(s@) {
            let j = choose|j: int| 0 <= j < v.deep_view().len() && v.deep_view()[j] == s@;
            assert(v@[j]@ == s@);
        }
    }
    false
}

// ---------------------------------------------------------------------------
// White space and trimming
// ---------------------------------------------------------------------------

/// Unicode `White_Space`, the set that `char::is_whitespace` tests.
pub open spec fn is_ws(c: char) -> bool {
    let n = c as u32;
    ||| 0x09 <= n <= 0x0D
    ||| n == 0x20
    ||| n == 0x85
    ||| n == 0xA0
    ||| n == 0x1680
    ||| 0x2000 <= n <= 0x200A
    ||| n == 0x2028
    ||| n == 0x2029
    ||| n == 0x202F
    ||| n == 0x205F
    ||| n == 0x3000
}

/// Whether `c` is white space.
pub fn is_whitespace(c: char) -> (out: bool)
    ensures
        out == is_ws(c),
{
    let n = c as u32;
    (0x09 <= n && n <= 0x0D) || n == 0x20 || n == 0x85 || n == 0xA0 || n == 0x1680 || (0x2000
        <= n && n <= 0x200A) || n == 0x2028 || n == 0x2029 || n == 0x202F || n == 0x205F || n
        == 0x3000
}

/// The character class that a trim removes: white space, or `'%'`.
pub open spec fn trim_class(percent: bool, c: char) -> bool {
    if percent {
        c == '%'
    } else {
        is_ws(c)
    }
}

/// `s` without its leading characters of the class.
pub open spec fn trim_start_by(s: Seq<char>, percent: bool) -> Seq<char>
    decreases s.len(),
{
    if s.len() > 0 && trim_class(percent, s[0]) {
        trim_start_by(s.drop_first(), percent)
    } else {
        s
    }
}

/// `s` without its trailing characters of the class.
pub open spec fn trim_end_by(s: Seq<char>, percent: bool) -> Seq<char>
    decreases s.len(),
{
    if s.len() > 0 && trim_class(percent, s.last()) {
        trim_end_by(s.drop_last(), percent)
    } else {
        s
    }
}

/// `s` without leading and trailing characters of the class.
pub open spec fn trim_by(s: Seq<char>, percent: bool) -> Seq<char> {
    trim_end_by(trim_start_by(s, percent), percent)
}

/// `str::trim`: `s` without leading and trailing white space.
pub open spec fn trim(s: Seq<char>) -> Seq<char> {
    trim_by(s, false)
}

fn in_trim_class(percent: bool, c: char) -> (out: bool)
    ensures
        out == trim_class(percent, c),
{
    if percent {
        c == '%'
    } else {
        is_whitespace(c)
    }
}

/// The bounds of `s[lo..hi]` once trimmed of the class.
pub fn trim_bounds(s: &Vec<char>, lo: usize, hi: usize, percent: bool) -> (out: (usize, usize))
    requires
        lo <= hi <= s@.len(),
    ensures
        lo <= out.0 <= out.1 <= hi,
        s@.subrange(out.0 as int, out.1 as int) == trim_by(s@.subrange(lo as int, hi as int), percent),
{
    let ghost whole = s@.subrange(lo as int, hi as int);
    let mut a = lo;
    while a < hi && in_trim_class(percent, s[a])
        invariant
            lo <= a <= hi <= s@.len(),
            whole == s@.subrange(lo as int, hi as int),
            trim_start_by(whole, percent) == trim_start_by(s@.subrange(a as int, hi as int), percent),
        decreases hi - a,
    {
        proof {
            assert(s@.subrange(a as int, hi as int).drop_first() =~= s@.subrange(a + 1, hi as int));
        }
        a = a + 1;
    }
    let ghost started = s@.subrange(a as int, hi as int);
    assert(trim_start_by(whole, percent) == started);
    let mut b = hi;
    while b > a && in_trim_class(percent, s[b - 1])
        invariant
            lo <= a <= b <= hi <= s@.len(),
            started == s@.subrange(a as int, hi as int),
            trim_end_by(started, percent) == trim_end_by(s@.subrange(a as int, b as int), percent),
        decreases b - a,
    {
        proof {
            assert(s@.subrange(a as int, b as int).drop_last() =~= s@.subrange(a as int, b - 1));
        }
        b = b - 1;
    }
    (a, b)
}

// ---------------------------------------------------------------------------
// Lines
// ---------------------------------------------------------------------------

/// The position of the first `'\n'` in `s`, or its length if there is none.
pub open spec fn first_nl(s: Seq<char>) -> int
    decreases s.len(),
{
    if s.len() == 0 {
        0
    } else if s[0] == '\n' {
        0
    } else {
        1 + first_nl(s.drop_first())
    }
}

pub proof fn lemma_first_nl_bounds(s: Seq<char>)
    ensures
        0 <= first_nl(s) <= s.len(),
    decreases s.len(),
{
    if s.len() > 0 && s[0] != '\n' {
        lemma_first_nl_bounds(s.drop_first());
    }
}

proof fn lemma_first_nl_at(s: Seq<char>, k: int)
    requires
        0 <= k <= s.len(),
        forall|j: int| 0 <= j < k ==> s[j] != '\n',
        k == s.len() || s[k] == '\n',
    ensures
        first_nl(s) == k,
    decreases k,
{
    if k > 0 {
        lemma_first_nl_at(s.drop_first(), k - 1);
    }
}

/// A line without the `'\r'` of a `"\r\n"` ending.
pub open spec fn strip_cr(l: Seq<char>) -> Seq<char> {
    if l.len() > 0 && l.last() == '\r' {
        l.drop_last()
    } else {
        l
    }
}

/// `str::lines`: the lines of `s`, split at `'\n'`, each without its line
/// ending (`"\n"` or `"\r\n"`); a final line ending adds no empty line.
pub open spec fn lines(s: Seq<char>) -> Seq<Seq<char>>
    decreases s.len(),
{
    if s.len() == 0 {
        Seq::empty()
    } else {
        let k = first_nl(s);
        proof {
            lemma_first_nl_bounds(s);
        }
        if k < s.len() {
            seq![strip_cr(s.take(k))] + lines(s.skip(k + 1))
        } else {
            seq![s]
        }
    }
}

/// Each range `r[i]` lies in `s` and bounds the text `ls[i]`.
pub open spec fn ranges_match(s: Seq<char>, r: Seq<(usize, usize)>, ls: Seq<Seq<char>>) -> bool {
    &&& r.len() == ls.len()
    &&& forall|i: int|
        0 <= i < r.len() ==> {
            &&& (#[trigger] r[i]).0 <= r[i].1
            &&& r[i].1 <= s.len()
            &&& s.subrange(r[i].0 as int, r[i].1 as int) == ls[i]
        }
}

/// The bounds of the lines of `s`, as `str::lines` gives them.
pub fn split_lines(s: &Vec<char>) -> (out: Vec<(usize, usize)>)
    ensures
        ranges_match(s@, out@, lines(s@)),
{
    let n = s.len();
    let mut out: Vec<(usize, usize)> = Vec::new();
    let ghost mut done: Seq<Seq<char>> = Seq::empty();
    let mut start: usize = 0;
    proof {
        assert(s@.skip(0) =~= s@);
        assert(lines(s@) =~= done + lines(s@.skip(0)));
    }
    while start < n
        invariant
            n == s@.len(),
            start <= n,
            lines(s@) == done + lines(s@.skip(start as int)),
            ranges_match(s@, out@, done),
        decreases n - start,
    {
        let mut p = start;
        while p < n && s[p] != '\n'
            invariant
                n == s@.len(),
                start <= p <= n,
                forall|j: int| start <= j < p ==> s@[j] != '\n',
            decreases n - p,
        {
            p = p + 1;
        }
        let ghost t = s@.skip(start as int);
        let ghost old_done = done;
        let ghost old_out = out@;
        proof {
            lemma_first_nl_at(t, p - start);
        }
        let mut next = n;
        let mut end = n;
        if p < n {
            end = if p > start && s[p - 1] == '\r' {
                p - 1
            } else {
                p
            };
            next = p + 1;
            proof {
                assert(t.take(p - start) =~= s@.subrange(start as int, p as int));
                assert(strip_cr(t.take(p - start)) =~= s@.subrange(start as int, end as int));
                assert(t.skip(p - start + 1) =~= s@.skip(p + 1));
                assert(lines(t) == seq![strip_cr(t.take(p - start))] + lines(t.skip(p - start + 1)));
            }
        } else {
            proof {
                assert(t =~= s@.subrange(start as int, n as int));
                assert(lines(t) == seq![t]);
                assert(s@.skip(n as int) =~= Seq::<char>::empty());
            }
        }
        proof {
            done = done.push(s@.subrange(start as int, end as int));
            assert(lines(s@) =~= done + lines(s@.skip(next as int)));
        }
        out.push((start, end));
        proof {
            assert forall|i: int| 0 <= i < out@.len() implies {
                &&& (#[trigger] out@[i]).0 <= out@[i].1
                &&& out@[i].1 <= s@.len()
                &&& s@.subrange(out@[i].0 as int, out@[i].1 as int) == done[i]
            } by {
                if i < out@.len() - 1 {
                    assert(out@[i] == old_out[i]);
                    assert(done[i] == old_done[i]);
                }
            }
        }
        start = next;
    }
    proof {
        assert(s@.skip(n as int) =~= Seq::<char>::empty());
        assert(lines(s@) =~= done);
    }
    out
}

// ---------------------------------------------------------------------------
// Text searches
// ---------------------------------------------------------------------------

/// `pat` occurs in `s` at position `i`.
pub open spec fn occurs_at(s: Seq<char>, pat: Seq<char>, i: int) -> bool {
    0 <= i && i + pat.len() <= s.len() && s.subrange(i, i + pat.len()) == pat
}

/// The first position at or after `from` at which `pat` occurs in `s`.
pub open spec fn find_from(s: Seq<char>, pat: Seq<char>, from: int) -> Option<int>
    decreases s.len() + 1 - from,
{
    if from < 0 || from > s.len() || from + pat.len() > s.len() {
        None
    } else if occurs_at(s, pat, from) {
        Some(from)
    } else {
        find_from(s, pat, from + 1)
    }
}

/// The first position at which `pat` occurs in `s`.
pub open spec fn find(s: Seq<char>, pat: Seq<char>) -> Option<int> {
    find_from(s, pat, 0)
}

/// The part of `s` before the first `pat` (`s.split(pat).next()`).
pub open spec fn before_first(s: Seq<char>, pat: Seq<char>) -> Seq<char> {
    match find(s, pat) {
        Some(i) => s.take(i),
        None => s,
    }
}

proof fn lemma_find_from_none(s: Seq<char>, pat: Seq<char>, from: int)
    requires
        0 <= from,
        forall|i: int| from <= i ==> !occurs_at(s, pat, i),
    ensures
        find_from(s, pat, from) is None,
    decreases s.len() + 1 - from,
{
    if from <= s.len() && from + pat.len() <= s.len() {
        lemma_find_from_none(s, pat, from + 1);
    }
}

proof fn lemma_find_from_at(s: Seq<char>, pat: Seq<char>, from: int, k: int)
    requires
        0 <= from <= k,
        occurs_at(s, pat, k),
        forall|i: int| from <= i < k ==> !occurs_at(s, pat, i),
    ensures
        find_from(s, pat, from) == Some(k),
    decreases k - from,
{
    if from < k {
        lemma_find_from_at(s, pat, from + 1, k);
    }
}

pub proof fn lemma_find_from_some(s: Seq<char>, pat: Seq<char>, from: int)
    requires
        find_from(s, pat, from) is Some,
    ensures
        occurs_at(s, pat, find_from(s, pat, from).unwrap()),
        from <= find_from(s, pat, from).unwrap(),
    decreases s.len() + 1 - from,
{
    if !occurs_at(s, pat, from) {
        lemma_find_from_some(s, pat, from + 1);
    }
}

/// Whether `pat` occurs in `s[lo..hi]` at position `i`.
fn occurs_at_exec(s: &Vec<char>, lo: usize, hi: usize, pat: &Vec<char>, i: usize) -> (out: bool)
    requires
        lo <= i <= hi <= s@.len(),
    ensures
        out == occurs_at(s@.subrange(lo as int, hi as int), pat@, i - lo),
{
    if hi - i < pat.len() {
        return false;
    }
    let mut j: usize = 0;
    while j < pat.len()
        invariant
            lo <= i <= hi <= s@.len(),
            pat@.len() <= hi - i,
            j <= pat@.len(),
            forall|a: int| 0 <= a < j ==> s@[i + a] == pat@[a],
        decreases pat@.len() - j,
    {
        if s[i + j] != pat[j] {
            proof {
                assert(s@.subrange(lo as int, hi as int).subrange(i - lo, i - lo + pat@.len())[j as int] != pat@[j as int]);
            }
            return false;
        }
        j = j + 1;
    }
    proof {
        assert(s@.subrange(lo as int, hi as int).subrange(i - lo, i - lo + pat@.len()) =~= pat@);
    }
    true
}

/// The first position (counted from `lo`) at which `pat` occurs in `s[lo..hi]`.
pub fn find_in(s: &Vec<char>, lo: usize, hi: usize, pat: &Vec<char>) -> (out: Option<usize>)
    requires
        lo <= hi <= s@.len(),
        pat@.len() > 0,
    ensures
        match find(s@.subrange(lo as int, hi as int), pat@) {
            Some(k) => out == Some((lo + k) as usize) && occurs_at(s@.subrange(lo as int, hi as int), pat@, k)
                && lo + k + pat@.len() <= hi,
            None => out is None,
        },
{
    let ghost t = s@.subrange(lo as int, hi as int);
    let mut i = lo;
    while i < hi
        invariant
            lo <= i <= hi <= s@.len(),
            t == s@.subrange(lo as int, hi as int),
            forall|a: int| 0 <= a < i - lo ==> !occurs_at(t, pat@, a),
        decreases hi - i,
    {
        if occurs_at_exec(s, lo, hi, pat, i) {
            proof {
                lemma_find_from_at(t, pat@, 0, i - lo);
            }
            return Some(i);
        }
        i = i + 1;
    }
    proof {
        assert forall|a: int| 0 <= a implies !occurs_at(t, pat@, a) by {
            if a >= hi - lo {
                assert(a + pat@.len() > t.len());
            }
        }
        lemma_find_from_none(t, pat@, 0);
    }
    None
}

// ---------------------------------------------------------------------------
// Decimal numbers
// ---------------------------------------------------------------------------

pub open spec fn is_digit(c: char) -> bool {
    '0' as u32 <= c as u32 <= '9' as u32
}

pub open spec fn all_digits(s: Seq<char>) -> bool {
    forall|i: int| 0 <= i < s.len() ==> is_digit(#[trigger] s[i])
}

/// The number that the decimal digits `s` write.
pub open spec fn digits_value(s: Seq<char>) -> nat
    decreases s.len(),
{
    if s.len() == 0 {
        0
    } else {
        digits_value(s.drop_last()) * 10 + ((s.last() as u32 - '0' as u32) as nat)
    }
}

/// What `str::parse` gives for a signed integer type, before its range is
/// checked: an optional `'+'` or `'-'`, then one or more ASCII digits.
pub open spec fn signed_value(s: Seq<char>) -> Option<int> {
    if s.len() > 0 && (s[0] == '-' || s[0] == '+') {
        let d = s.drop_first();
        if d.len() > 0 && all_digits(d) {
            Some(
                if s[0] == '-' {
                    -(digits_value(d) as int)
                } else {
                    digits_value(d) as int
                },
            )
        } else {
            None
        }
    } else if s.len() > 0 && all_digits(s) {
        Some(digits_value(s) as int)
    } else {
        None
    }
}

/// What `str::parse` gives for an unsigned integer type, before its range is
/// checked: an optional `'+'`, then one or more ASCII digits.
pub open spec fn unsigned_value(s: Seq<char>) -> Option<int> {
    if s.len() > 0 && s[0] == '+' {
        let d = s.drop_first();
        if d.len() > 0 && all_digits(d) {
            Some(digits_value(d) as int)
        } else {
            None
        }
    } else if s.len() > 0 && all_digits(s) {
        Some(digits_value(s) as int)
    } else {
        None
    }
}

/// `s.parse::<i64>().ok()`.
pub open spec fn parse_i64_spec(s: Seq<char>) -> Option<i64> {
    match signed_value(s) {
        Some(v) => if i64::MIN <= v <= i64::MAX {
            Some(v as i64)
        } else {
            None
        },
        None => None,
    }
}

/// `s.parse::<usize>().ok()`.
pub open spec fn parse_usize_spec(s: Seq<char>) -> Option<usize> {
    match unsigned_value(s) {
        Some(v) => if v <= usize::MAX {
            Some(v as usize)
        } else {
            None
        },
        None => None,
    }
}

proof fn lemma_digits_value_grows(s: Seq<char>, i: int)
    requires
        0 <= i <= s.len(),
    ensures
        digits_value(s.take(i)) <= digits_value(s),
    decreases s.len() - i,
{
    if i < s.len() {
        lemma_digits_value_grows(s, i + 1);
        assert(s.take(i + 1).drop_last() =~= s.take(i));
        let x = digits_value(s.take(i));
        assert(x <= x * 10) by (nonlinear_arith);
    } else {
        assert(s.take(i) =~= s);
    }
}

/// The value of the digits `s[lo..hi]`, when they are one or more ASCII
/// digits whose value is at most `limit`.
fn parse_digits(s: &Vec<char>, lo: usize, hi: usize, limit: u64) -> (out: Option<u64>)
    requires
        lo <= hi <= s@.len(),
    ensures
        match out {
            Some(v) => lo < hi && all_digits(s@.subrange(lo as int, hi as int)) && v
                == digits_value(s@.subrange(lo as int, hi as int)) && v <= limit,
            None => !(lo < hi && all_digits(s@.subrange(lo as int, hi as int)) && digits_value(
                s@.subrange(lo as int, hi as int),
            ) <= limit),
        },
{
    let ghost d = s@.subrange(lo as int, hi as int);
    if lo == hi {
        return None;
    }
    let mut acc: u64 = 0;
    let mut i = lo;
    while i < hi
        invariant
            lo <= i <= hi <= s@.len(),
            d == s@.subrange(lo as int, hi as int),
            all_digits(d.take(i - lo)),
            acc == digits_value(d.take(i - lo)),
            acc <= limit,
        decreases hi - i,
    {
        let c = s[i];
        let cv = c as u32;
        if cv < '0' as u32 || cv > '9' as u32 {
            proof {
                assert(d[i - lo] == c);
            }
            return None;
        }
        let digit = (cv - '0' as u32) as u64;
        proof {
            assert(d.take(i - lo + 1).drop_last() =~= d.take(i - lo));
            assert(d.take(i - lo + 1).last() == c);
        }
        if digit > limit || acc > (limit - digit) / 10 {
            proof {
                assert(acc * 10 + digit > limit) by (nonlinear_arith)
                    requires
                        digit > limit || acc > (limit - digit) / 10,
                ;
                lemma_digits_value_grows(d, i - lo + 1);
            }
            return None;
        }
        proof {
            assert(acc * 10 + digit <= limit) by (nonlinear_arith)
                requires
                    acc <= (limit - digit) / 10,
                    digit <= limit,
            ;
        }
        acc = acc * 10 + digit;
        i = i + 1;
        proof {
            assert forall|j: int| 0 <= j < i - lo implies is_digit(#[trigger] d.take(i - lo)[j]) by {
                if j < i - lo - 1 {
                    assert(d.take(i - lo)[j] == d.take(i - lo - 1)[j]);
                }
            }
        }
    }
    proof {
        assert(d.take(hi - lo) =~= d);
    }
    Some(acc)
}

/// `s[lo..hi].parse::<i64>().ok()`.
pub fn parse_i64(s: &Vec<char>, lo: usize, hi: usize) -> (out: Option<i64>)
    requires
        lo <= hi <= s@.len(),
    ensures
        out == parse_i64_spec(s@.subrange(lo as int, hi as int)),
{
    let ghost t = s@.subrange(lo as int, hi as int);
    if lo < hi && (s[lo] == '-' || s[lo] == '+') {
        let negative = s[lo] == '-';
        proof {
            assert(t.drop_first() =~= s@.subrange(lo + 1, hi as int));
        }
        let limit: u64 = if negative {
            9223372036854775808u64
        } else {
            9223372036854775807u64
        };
        match parse_digits(s, lo + 1, hi, limit) {
            Some(v) => {
                if negative {
                    Some((0i128 - v as i128) as i64)
                } else {
                    Some(v as i64)
                }
            },
            None => None,
        }
    } else {
        match parse_digits(s, lo, hi, 9223372036854775807u64) {
            Some(v) => Some(v as i64),
            None => None,
        }
    }
}

/// `s[lo..hi].parse::<usize>().ok()`.
pub fn parse_usize(s: &Vec<char>, lo: usize, hi: usize) -> (out: Option<usize>)
    requires
        lo <= hi <= s@.len(),
    ensures
        out == parse_usize_spec(s@.subrange(lo as int, hi as int)),
{
    let ghost t = s@.subrange(lo as int, hi as int);
    let limit = usize::MAX as u64;
    if lo < hi && s[lo] == '+' {
        proof {
            assert(t.drop_first() =~= s@.subrange(lo + 1, hi as int));
        }
        match parse_digits(s, lo + 1, hi, limit) {
            Some(v) => Some(v as usize),
            None => None,
        }
    } else {
        match parse_digits(s, lo, hi, limit) {
            Some(v) => Some(v as usize),
            None => None,
        }
    }
}

// ---------------------------------------------------------------------------
// Joining
// ---------------------------------------------------------------------------

/// The strings `list` with `sep` between each two (`[String]::join`).
pub open spec fn join_seq(list: Seq<Seq<char>>, sep: Seq<char>) -> Seq<char>
    decreases list.len(),
{
    if list.len() == 0 {
        Seq::empty()
    } else if list.len() == 1 {
        list[0]
    } else {
        join_seq(list.drop_last(), sep) + sep + list.last()
    }
}

/// The strings `list` with `sep` between each two.
pub fn join(list: &Vec<String>, sep: &str) -> (out: String)
    ensures
        out@ == join_seq(list.deep_view(), sep@),
{
    let mut out = String::new();
    let ghost lv = list.deep_view();
    let mut i: usize = 0;
    proof {
        assert(lv.take(0) =~= Seq::<Seq<char>>::empty());
    }
    while i < list.len()
        invariant
            i <= list@.len(),
            lv == list.deep_view(),
            out@ == join_seq(lv.take(i as int), sep@),
        decreases list@.len() - i,
    {
        proof {
            assert(lv.take(i + 1).drop_last() =~= lv.take(i as int));
            assert(lv.take(i + 1).last() == list@[i as int]@);
        }
        if i > 0 {
            out.append(sep);
        } else {
            proof {
                assert(lv.take(1) =~= seq![list@[0]@]);
            }
        }
        out.append(list[i].as_str());
        proof {
            if i == 0 {
                assert(out@ =~= lv.take(1)[0]);
            }
        }
        i = i + 1;
    }
    proof {
        assert(lv.take(list@.len() as int) =~= lv);
    }
    out
}

// ---------------------------------------------------------------------------
// Order of strings
// ---------------------------------------------------------------------------

/// The order of `String`: lexicographic by character (the order of their
/// UTF-8 bytes); `a` comes no later than `b`.
pub open spec fn lex_le(a: Seq<char>, b: Seq<char>) -> bool
    decreases a.len(),
{
    if a.len() == 0 {
        true
    } else if b.len() == 0 {
        false
    } else if (a[0] as u32) != (b[0] as u32) {
        (a[0] as u32) < (b[0] as u32)
    } else {
        lex_le(a.drop_first(), b.drop_first())
    }
}

/// The strings `s` are in ascending order.
pub open spec fn sorted(s: Seq<Seq<char>>) -> bool {
    forall|i: int, j: int| 0 <= i < j < s.len() ==> lex_le(#[trigger] s[i], #[trigger] s[j])
}

pub proof fn lemma_lex_total(a: Seq<char>, b: Seq<char>)
    ensures
        lex_le(a, b) || lex_le(b, a),
    decreases a.len(),
{
    if a.len() > 0 && b.len() > 0 && (a[0] as u32) == (b[0] as u32) {
        lemma_lex_total(a.drop_first(), b.drop_first());
    }
}

pub proof fn lemma_lex_trans(a: Seq<char>, b: Seq<char>, c: Seq<char>)
    requires
        lex_le(a, b),
        lex_le(b, c),
    ensures
        lex_le(a, c),
    decreases a.len(),
{
    if a.len() > 0 && b.len() > 0 && c.len() > 0 && (a[0] as u32) == (b[0] as u32) && (b[0] as u32) == (c[0] as u32) {
        lemma_lex_trans(a.drop_first(), b.drop_first(), c.drop_first());
    }
}

/// Whether `a` comes no later than `b`.
pub fn string_le(a: &String, b: &String) -> (out: bool)
    ensures
        out == lex_le(a@, b@),
{
    let x = chars_of(a.as_str());
    let y = chars_of(b.as_str());
    let mut i: usize = 0;
    proof {
        assert(x@.skip(0) =~= x@);
        assert(y@.skip(0) =~= y@);
    }
    while i < x.len() && i < y.len() && (x[i] as u32) == (y[i] as u32)
        invariant
            i <= x@.len(),
            i <= y@.len(),
            x@ == a@,
            y@ == b@,
            lex_le(a@, b@) == lex_le(x@.skip(i as int), y@.skip(i as int)),
        decreases x@.len() - i,
    {
        proof {
            assert(x@.skip(i as int).drop_first() =~= x@.skip(i + 1));
            assert(y@.skip(i as int).drop_first() =~= y@.skip(i + 1));
        }
        i = i + 1;
    }
    if i == x.len() {
        true
    } else if i == y.len() {
        false
    } else {
        proof {
            assert(x@.skip(i as int)[0] == x@[i as int]);
            assert(y@.skip(i as int)[0] == y@[i as int]);
        }
        (x[i] as u32) < (y[i] as u32)
    }
}

/// The strings `v` in ascending order (a stable sort).
pub fn sort_strings(v: Vec<String>) -> (out: Vec<String>)
    ensures
        sorted(out.deep_view()),
        out.deep_view().to_multiset() == v.deep_view().to_multiset(),
{
    let mut out: Vec<String> = Vec::new();
    let mut i: usize = 0;
    proof {
        assert(v.deep_view().take(0) =~= Seq::<Seq<char>>::empty());
        assert(out.deep_view() =~= Seq::<Seq<char>>::empty());
    }
    while i < v.len()
        invariant
            i <= v@.len(),
            sorted(out.deep_view()),
            out.deep_view().to_multiset() == v.deep_view().take(i as int).to_multiset(),
        decreases v@.len() - i,
    {
        let x = &v[i];
        let mut p: usize = 0;
        while p < out.len() && string_le(&out[p], x)
            invariant
                p <= out@.len(),
                forall|q: int| 0 <= q < p ==> lex_le(#[trigger] out.deep_view()[q], x@),
            decreases out@.len() - p,
        {
            p = p + 1;
        }
        let ghost before = out.deep_view();
        proof {
            if p < out@.len() {
                lemma_lex_total(before[p as int], x@);
            }
        }
        out.insert(p, copy_string(x));
        proof {
            assert(out.deep_view() =~= before.insert(p as int, x@));
            assert forall|a: int, b: int| 0 <= a < b < out.deep_view().len() implies lex_le(
                #[trigger] out.deep_view()[a],
                #[trigger] out.deep_view()[b],
            ) by {
                let o = out.deep_view();
                if b < p {
                } else if b == p {
                } else if a == p {
                    // x, then an element at or after the first one above x
                    assert(o[b] == before[b - 1]);
                    if b - 1 > p {
                        assert(lex_le(before[p as int], before[b - 1]));
                        lemma_lex_trans(x@, before[p as int], before[b - 1]);
                    }
                } else if a < p {
                    assert(o[a] == before[a]);
                    assert(o[b] == before[b - 1]);
                } else {
                    assert(o[a] == before[a - 1]);
                    assert(o[b] == before[b - 1]);
                }
            }
            assert(v.deep_view().take(i + 1) =~= v.deep_view().take(i as int).push(x@));
            vstd::seq_lib::to_multiset_insert(before, p as int, x@);
            vstd::seq_lib::to_multiset_build(v.deep_view().take(i as int), x@);
            assert(before.insert(p as int, x@).to_multiset() == before.to_multiset().insert(x@));
            assert(v.deep_view().take(i as int).push(x@).to_multiset()
                == v.deep_view().take(i as int).to_multiset().insert(x@));
        }
        i = i + 1;
    }
    proof {
        assert(v.deep_view().take(v@.len() as int) =~= v.deep_view());
    }
    out
}

} // verus!
