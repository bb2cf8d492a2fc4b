//! Verified string helpers: lexicographic comparison by code point,
//! equality, file-name and extension handling, and decimal rendering of
//! machine integers.

use vstd::prelude::*;

verus! {

/// Lexicographic "less or equal" on the suffixes of `a` and `b` that
/// start at index `i`, ordering characters by code point.
pub open spec fn lex_le_from(a: Seq<char>, b: Seq<char>, i: int) -> bool
    recommends
        0 <= i,
    decreases a.len() - i,
{
    if i >= a.len() {
        true
    } else if i >= b.len() {
        false
    } else if a[i] != b[i] {
        (a[i] as u32) < (b[i] as u32)
    } else {
        lex_le_from(a, b, i + 1)
    }
}

/// Lexicographic "less or equal" on whole character sequences.
pub open spec fn lex_le(a: Seq<char>, b: Seq<char>) -> bool {
    lex_le_from(a, b, 0)
}

/// Distinct characters have distinct code points.
pub proof fn lemma_char_cast_distinct(a: char, b: char)
    requires
        a != b,
    ensures
        (a as u32) != (b as u32),
{
    vstd::utf8::char_u32_cast(a, a as u32);
    vstd::utf8::char_u32_cast(b, b as u32);
}

/// Two suffixes are always comparable.
pub proof fn lemma_lex_le_connected(a: Seq<char>, b: Seq<char>, i: int)
    requires
        0 <= i,
    ensures
        lex_le_from(a, b, i) || lex_le_from(b, a, i),
    decreases a.len() - i,
{
    if i < a.len() && i < b.len() {
        if a[i] == b[i] {
            lemma_lex_le_connected(a, b, i + 1);
        } else {
            lemma_char_cast_distinct(a[i], b[i]);
        }
    }
}

/// Suffixes that are "less or equal" both ways are the same suffix.
pub proof fn lemma_lex_le_antisym(a: Seq<char>, b: Seq<char>, i: int)
    requires
        0 <= i <= a.len(),
        i <= b.len(),
        lex_le_from(a, b, i),
        lex_le_from(b, a, i),
    ensures
        a.len() == b.len(),
        forall|j: int| i <= j < a.len() ==> a[j] == b[j],
    decreases a.len() - i,
{
    if i < a.len() && i < b.len() {
        if a[i] == b[i] {
            lemma_lex_le_antisym(a, b, i + 1);
        } else {
            lemma_char_cast_distinct(a[i], b[i]);
        }
    }
}

/// Lexicographic order on suffixes is transitive.
pub proof fn lemma_lex_le_trans(a: Seq<char>, b: Seq<char>, c: Seq<char>, i: int)
    requires
        0 <= i,
        lex_le_from(a, b, i),
        lex_le_from(b, c, i),
    ensures
        lex_le_from(a, c, i),
    decreases a.len() - i,
{
    if i < a.len() && i < b.len() && i < c.len() {
        if a[i] == b[i] && b[i] == c[i] {
            lemma_lex_le_trans(a, b, c, i + 1);
        } else {
            if a[i] != b[i] {
                lemma_char_cast_distinct(a[i], b[i]);
            }
            if b[i] != c[i] {
                lemma_char_cast_distinct(b[i], c[i]);
            }
            if a[i] != c[i] {
                lemma_char_cast_distinct(a[i], c[i]);
            }
        }
    }
}

fn lex_le_at(a: &str, b: &str, i: usize) -> (r: bool)
    requires
        i <= a@.len(),
        i <= b@.len(),
    ensures
        r == lex_le_from(a@, b@, i as int),
    decreases a@.len() - i,
{
    let alen = a.unicode_len();
    let blen = b.unicode_len();
    if i >= alen {
        true
    } else if i >= blen {
        false
    } else {
        let ca = a.get_char(i);
        let cb = b.get_char(i);
        if ca != cb {
            (ca as u32) < (cb as u32)
        } else {
            lex_le_at(a, b, i + 1)
        }
    }
}

/// Decides the lexicographic order [`lex_le`] on two strings.
pub fn lex_le_str(a: &str, b: &str) -> (r: bool)
    ensures
        r == lex_le(a@, b@),
{
    lex_le_at(a, b, 0)
}

/// Decides equality of two strings, as equality of their characters.
pub fn str_eq(a: &str, b: &str) -> (r: bool)
    ensures
        r == (a@ == b@),
{
    let alen = a.unicode_len();
    let blen = b.unicode_len();
    if alen != blen {
        return false;
    }
    let mut i: usize = 0;
    while i < alen
        invariant
            alen == a@.len(),
            blen == b@.len(),
            alen == blen,
            i <= alen,
            forall|j: int| 0 <= j < i ==> a@[j] == b@[j],
        decreases alen - i,
    {
        if a.get_char(i) != b.get_char(i) {
            return false;
        }
        i = i + 1;
    }
    proof {
        assert(a@ =~= b@);
    }
    true
}

/// The first index at or after `i` where `s` holds `c`, or the length of
/// `s` when no such index exists.
pub open spec fn find_from(s: Seq<char>, c: char, i: int) -> int
    recommends
        0 <= i <= s.len(),
    decreases s.len() - i,
{
    if i >= s.len() {
        s.len() as int
    } else if s[i] == c {
        i
    } else {
        find_from(s, c, i + 1)
    }
}

pub proof fn lemma_find_from_bounds(s: Seq<char>, c: char, i: int)
    requires
        0 <= i <= s.len(),
    ensures
        i <= find_from(s, c, i) <= s.len(),
        find_from(s, c, i) < s.len() ==> s[find_from(s, c, i)] == c,
        forall|j: int| i <= j < find_from(s, c, i) ==> s[j] != c,
    decreases s.len() - i,
{
    if i < s.len() && s[i] != c {
        lemma_find_from_bounds(s, c, i + 1);
    }
}

/// The first index where `s` holds `c`, or the length of `s`.
pub fn find_char(s: &str, c: char) -> (r: usize)
    ensures
        r as int == find_from(s@, c, 0),
{
    let len = s.unicode_len();
    let mut i: usize = 0;
    while i < len
        invariant
            len == s@.len(),
            i <= len,
            find_from(s@, c, 0) == find_from(s@, c, i as int),
        decreases len - i,
    {
        if s.get_char(i) == c {
            return i;
        }
        i = i + 1;
    }
    i
}

/// The last index where `s` holds `c`, or `-1` when `s` does not hold it.
pub open spec fn find_last(s: Seq<char>, c: char, below: int) -> int
    recommends
        below <= s.len(),
    decreases below,
{
    if below <= 0 {
        -1
    } else if s[below - 1] == c {
        below - 1
    } else {
        find_last(s, c, below - 1)
    }
}

pub proof fn lemma_find_last_bounds(s: Seq<char>, c: char, below: int)
    requires
        0 <= below <= s.len(),
    ensures
        -1 <= find_last(s, c, below) < below,
        find_last(s, c, below) >= 0 ==> s[find_last(s, c, below)] == c,
        forall|j: int| find_last(s, c, below) < j < below ==> s[j] != c,
    decreases below,
{
    if below > 0 && s[below - 1] != c {
        lemma_find_last_bounds(s, c, below - 1);
    }
}

/// The last index where `s` holds `c`, reported as `(found, index)`.
pub fn find_last_char(s: &str, c: char) -> (r: (bool, usize))
    ensures
        r.0 == (find_last(s@, c, s@.len() as int) >= 0),
        r.0 ==> r.1 as int == find_last(s@, c, s@.len() as int),
        !r.0 ==> r.1 == 0,
{
    let len = s.unicode_len();
    let mut i: usize = len;
    while i > 0
        invariant
            len == s@.len(),
            i <= len,
            find_last(s@, c, len as int) == find_last(s@, c, i as int),
        decreases i,
    {
        if s.get_char(i - 1) == c {
            return (true, i - 1);
        }
        i = i - 1;
    }
    (false, 0)
}

/// A scan that sees anything but `c` from `k` up to `below`, with `c`
/// just before `k` (or nothing before it), last finds `c` at `k - 1`.
pub proof fn lemma_find_last_is(s: Seq<char>, c: char, below: int, k: int)
    requires
        0 <= k <= below <= s.len(),
        forall|j: int| k <= j < below ==> s[j] != c,
        k > 0 ==> s[k - 1] == c,
    ensures
        find_last(s, c, below) == k - 1,
    decreases below - k,
{
    if k < below {
        lemma_find_last_is(s, c, below - 1, k);
    }
}

/// The path with its trailing separators and trailing `.` components
/// removed: the prefix that actually names the final component.
pub open spec fn strip_trailing(path: Seq<char>) -> Seq<char>
    decreases path.len(),
{
    if path.len() == 0 {
        path
    } else if path.last() == '/' {
        strip_trailing(path.drop_last())
    } else if path.last() == '.' && (path.len() == 1 || path[path.len() - 2] == '/') {
        strip_trailing(path.drop_last())
    } else {
        path
    }
}

/// The file-name component of a path, read as the standard path type
/// reads it: trailing separators and trailing `.` components are
/// ignored, and a path that is empty, all separators, or terminates in
/// `..` has no file name.
pub open spec fn spec_file_name(path: Seq<char>) -> Option<Seq<char>> {
    let t = strip_trailing(path);
    if t.len() == 0 {
        Option::None
    } else {
        let k = find_last(t, '/', t.len() as int);
        let seg = t.skip(k + 1);
        if seg == seq!['.', '.'] {
            Option::None
        } else {
            Option::Some(seg)
        }
    }
}

/// The file-name component of a path.
pub fn file_name_of<'a>(path: &'a str) -> (r: Option<&'a str>)
    ensures
        match r {
            Option::Some(name) => spec_file_name(path@) == Option::Some(name@),
            Option::None => spec_file_name(path@) is None,
        },
{
    let len = path.unicode_len();
    let mut end: usize = len;
    proof {
        assert(path@.take(len as int) =~= path@);
    }
    while end > 0
        invariant
            end <= len,
            len == path@.len(),
            strip_trailing(path@) == strip_trailing(path@.take(end as int)),
        ensures
            end <= len,
            strip_trailing(path@) == strip_trailing(path@.take(end as int)),
            strip_trailing(path@.take(end as int)) == path@.take(end as int),
        decreases end,
    {
        let c = path.get_char(end - 1);
        if !(c == '/' || (c == '.' && (end == 1 || path.get_char(end - 2) == '/'))) {
            proof {
                let t = path@.take(end as int);
                assert(t.last() == c);
                assert(end >= 2 ==> t[t.len() - 2] == path@[end - 2]);
                assert(strip_trailing(t) == t);
            }
            break;
        }
        proof {
            let t = path@.take(end as int);
            assert(t.drop_last() =~= path@.take(end - 1));
        }
        end = end - 1;
    }
    proof {
        let t = path@.take(end as int);
        assert(end == 0 ==> t =~= Seq::<char>::empty());
        assert(strip_trailing(path@) == t);
    }
    if end == 0 {
        return None;
    }
    let mut k: usize = end;
    while k > 0 && path.get_char(k - 1) != '/'
        invariant
            k <= end,
            end <= len,
            len == path@.len(),
            forall|j: int| k <= j < end ==> path@[j] != '/',
        decreases k,
    {
        k = k - 1;
    }
    proof {
        let t = path@.take(end as int);
        assert forall|j: int| k <= j < end implies t[j] != '/' by {
            assert(t[j] == path@[j]);
        }
        if k > 0 {
            assert(t[k - 1] == '/');
        }
        lemma_find_last_is(t, '/', end as int, k as int);
        assert(t.skip(k as int) =~= path@.subrange(k as int, end as int));
    }
    let seg = path.substring_char(k, end);
    if str_eq(seg, "..") {
        proof {
            reveal_strlit("..");
            assert(seg@ =~= seq!['.', '.']);
        }
        None
    } else {
        proof {
            reveal_strlit("..");
            if seg@ != ".."@ {
                assert(seg@ != seq!['.', '.']) by {
                    assert("..".view() =~= seq!['.', '.']);
                }
            }
        }
        Some(seg)
    }
}

/// The stem of a file name: the part before the final dot, unless the
/// name has no dot past its first character.
pub open spec fn spec_stem(name: Seq<char>) -> Seq<char> {
    let d = find_last(name, '.', name.len() as int);
    if d >= 1 {
        name.take(d)
    } else {
        name
    }
}

/// The stem of a file name.
pub fn stem_of<'a>(name: &'a str) -> (r: &'a str)
    ensures
        r@ == spec_stem(name@),
{
    proof {
        lemma_find_last_bounds(name@, '.', name@.len() as int);
    }
    let (found, d) = find_last_char(name, '.');
    if found && d >= 1 {
        name.substring_char(0, d)
    } else {
        name
    }
}

/// The version label encoded in a file stem: the characters before the
/// first underscore (the whole stem when it has none).
pub open spec fn spec_version_of(stem: Seq<char>) -> Seq<char> {
    stem.take(find_from(stem, '_', 0))
}

/// The run identifier encoded in a file stem: the characters after the
/// first underscore (empty when the stem has none).
pub open spec fn spec_run_of(stem: Seq<char>) -> Seq<char> {
    let k = find_from(stem, '_', 0);
    if k < stem.len() {
        stem.skip(k + 1)
    } else {
        Seq::empty()
    }
}

/// Splits a file stem into its version label and its run identifier.
pub fn split_version_run(stem: &str) -> (r: (String, String))
    ensures
        r.0@ == spec_version_of(stem@),
        r.1@ == spec_run_of(stem@),
{
    proof {
        lemma_find_from_bounds(stem@, '_', 0);
    }
    let len = stem.unicode_len();
    let k = find_char(stem, '_');
    let version = String::from_str(stem.substring_char(0, k));
    let run = if k < len {
        String::from_str(stem.substring_char(k + 1, len))
    } else {
        String::new()
    };
    (version, run)
}

/// True when the path names a measurement file: it has a file name with
/// an extension, and the extension ends with `json`.
pub open spec fn spec_is_results_file(path: Seq<char>) -> bool {
    match spec_file_name(path) {
        Option::None => false,
        Option::Some(name) => {
            let d = find_last(name, '.', name.len() as int);
            &&& d >= 1
            &&& {
                let ext = name.skip(d + 1);
                ext.len() >= 4 && ext.skip(ext.len() - 4) == "json"@
            }
        },
    }
}

/// Decides whether the path names a measurement file.
pub fn is_results_file(path: &str) -> (r: bool)
    ensures
        r == spec_is_results_file(path@),
{
    let name = match file_name_of(path) {
        Option::None => {
            return false;
        },
        Option::Some(name) => name,
    };
    proof {
        lemma_find_last_bounds(name@, '.', name@.len() as int);
    }
    let len = name.unicode_len();
    let (found, d) = find_last_char(name, '.');
    if !found || d == 0 {
        return false;
    }
    let ext = name.substring_char(d + 1, len);
    let elen = ext.unicode_len();
    if elen < 4 {
        return false;
    }
    let tail = ext.substring_char(elen - 4, elen);
    str_eq(tail, "json")
}

/// The decimal digit character for a value below ten.
pub open spec fn digit_char(d: int) -> char {
    if d == 0 {
        '0'
    } else if d == 1 {
        '1'
    } else if d == 2 {
        '2'
    } else if d == 3 {
        '3'
    } else if d == 4 {
        '4'
    } else if d == 5 {
        '5'
    } else if d == 6 {
        '6'
    } else if d == 7 {
        '7'
    } else if d == 8 {
        '8'
    } else {
        '9'
    }
}

/// The decimal rendering of a natural number, most significant digit
/// first and without leading zeros.
pub open spec fn dec_chars(n: nat) -> Seq<char>
    decreases n,
{
    if n < 10 {
        seq![digit_char(n as int)]
    } else {
        dec_chars(n / 10) + seq![digit_char((n % 10) as int)]
    }
}

fn digit_str(d: u64) -> (r: &'static str)
    requires
        d < 10,
    ensures
        r@ =~= seq![digit_char(d as int)],
{
    proof {
        reveal_strlit("0");
        reveal_strlit("1");
        reveal_strlit("2");
        reveal_strlit("3");
        reveal_strlit("4");
        reveal_strlit("5");
        reveal_strlit("6");
        reveal_strlit("7");
        reveal_strlit("8");
        reveal_strlit("9");
    }
    if d == 0 {
        "0"
    } else if d == 1 {
        "1"
    } else if d == 2 {
        "2"
    } else if d == 3 {
        "3"
    } else if d == 4 {
        "4"
    } else if d == 5 {
        "5"
    } else if d == 6 {
        "6"
    } else if d == 7 {
        "7"
    } else if d == 8 {
        "8"
    } else {
        "9"
    }
}

/// Renders a machine integer in decimal.
pub fn dec_str_u64(n: u64) -> (r: String)
    ensures
        r@ == dec_chars(n as nat),
    decreases n,
{
    if n < 10 {
        String::from_str(digit_str(n))
    } else {
        let mut s = dec_str_u64(n / 10);
        s.append(digit_str(n % 10));
        s
    }
}

} // verus!
