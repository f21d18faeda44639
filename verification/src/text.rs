//! Character-level text utilities shared by the parsers.
//!
//! Text is handled as `Vec<char>`; every operation is specified over the
//! `Seq<char>` view of its arguments.
use vstd::prelude::*;

verus! {

// ─── Conversions ─────────────────────────────────────────────────────────────

/// The characters of `s`, in order.
pub fn chars_of(s: &str) -> (v: Vec<char>)
    ensures
        v@ == s@,
{
    let mut v: Vec<char> = Vec::new();
    for c in it: s.chars()
        invariant
            v@ == it.seq().take(it.index() as int),
    {
        v.push(c);
    }
    v
}

/// Trusted: `String::push` appends one character.
#[verifier::external_body]
pub(crate) fn push_char(s: &mut String, c: char)
    ensures
        final(s)@ == old(s)@.push(c),
{
    s.push(c);
}

/// A `String` holding the characters `v[lo..hi]`.
pub fn string_of_range(v: &Vec<char>, lo: usize, hi: usize) -> (s: String)
    requires
        lo <= hi <= v.len(),
    ensures
        s@ == v@.subrange(lo as int, hi as int),
{
    let mut s = String::new();
    let mut i = lo;
    while i < hi
        invariant
            lo <= i <= hi <= v.len(),
            s@ == v@.subrange(lo as int, i as int),
        decreases hi - i,
    {
        push_char(&mut s, v[i]);
        assert(v@.subrange(lo as int, i + 1) == v@.subrange(lo as int, i as int).push(v@[i as int]));
        i += 1;
    }
    s
}

/// A `String` holding the characters of `v`.
pub fn string_of(v: &Vec<char>) -> (s: String)
    ensures
        s@ == v@,
{
    let s = string_of_range(v, 0, v.len());
    assert(v@.subrange(0, v.len() as int) == v@);
    s
}

/// A copy of `v[lo..hi]`.
pub fn copy_range(v: &Vec<char>, lo: usize, hi: usize) -> (r: Vec<char>)
    requires
        lo <= hi <= v.len(),
    ensures
        r@ == v@.subrange(lo as int, hi as int),
{
    let mut r: Vec<char> = Vec::new();
    let mut i = lo;
    while i < hi
        invariant
            lo <= i <= hi <= v.len(),
            r@ == v@.subrange(lo as int, i as int),
        decreases hi - i,
    {
        r.push(v[i]);
        assert(v@.subrange(lo as int, i + 1) == v@.subrange(lo as int, i as int).push(v@[i as int]));
        i += 1;
    }
    r
}

// ─── Whitespace and trimming ─────────────────────────────────────────────────

/// The Unicode `White_Space` property, which is what `char::is_whitespace` tests.
pub open spec fn is_white_space(c: char) -> bool {
    let u = c as u32;
    ||| 0x9 <= u && u <= 0xd
    ||| u == 0x20
    ||| u == 0x85
    ||| u == 0xa0
    ||| u == 0x1680
    ||| 0x2000 <= u && u <= 0x200a
    ||| u == 0x2028
    ||| u == 0x2029
    ||| u == 0x202f
    ||| u == 0x205f
    ||| u == 0x3000
}

pub fn is_white_space_char(c: char) -> (b: bool)
    ensures
        b == is_white_space(c),
{
    let u = c as u32;
    (0x9 <= u && u <= 0xd) || u == 0x20 || u == 0x85 || u == 0xa0 || u == 0x1680 || (0x2000 <= u
        && u <= 0x200a) || u == 0x2028 || u == 0x2029 || u == 0x202f || u == 0x205f || u == 0x3000
}

/// `s` without its leading white space.
pub open spec fn trim_start(s: Seq<char>) -> Seq<char>
    decreases s.len(),
{
    if s.len() > 0 && is_white_space(s[0]) {
        trim_start(s.drop_first())
    } else {
        s
    }
}

/// `s` without its trailing white space.
pub open spec fn trim_end(s: Seq<char>) -> Seq<char>
    decreases s.len(),
{
    if s.len() > 0 && is_white_space(s.last()) {
        trim_end(s.drop_last())
    } else {
        s
    }
}

/// `s` without leading and trailing white space, as `str::trim` gives it.
pub open spec fn trim(s: Seq<char>) -> Seq<char> {
    trim_end(trim_start(s))
}

/// The bounds of the trimmed part of `s[lo..hi]`.
pub fn trim_bounds(s: &Vec<char>, lo: usize, hi: usize) -> (r: (usize, usize))
    requires
        lo <= hi <= s.len(),
    ensures
        lo <= r.0 <= r.1 <= hi,
        s@.subrange(r.0 as int, r.1 as int) == trim(s@.subrange(lo as int, hi as int)),
{
    let mut a = lo;
    while a < hi && is_white_space_char(s[a])
        invariant
            lo <= a <= hi <= s.len(),
            trim_start(s@.subrange(lo as int, hi as int)) == trim_start(
                s@.subrange(a as int, hi as int),
            ),
        decreases hi - a,
    {
        assert(s@.subrange(a as int, hi as int).drop_first() == s@.subrange(a + 1, hi as int));
        a += 1;
    }
    let mut b = hi;
    while b > a && is_white_space_char(s[b - 1])
        invariant
            lo <= a <= b <= hi <= s.len(),
            trim_start(s@.subrange(lo as int, hi as int)) == s@.subrange(a as int, hi as int),
            trim_end(s@.subrange(a as int, hi as int)) == trim_end(
                s@.subrange(a as int, b as int),
            ),
        decreases b - a,
    {
        assert(s@.subrange(a as int, b as int).drop_last() == s@.subrange(a as int, b - 1));
        b -= 1;
    }
    (a, b)
}

/// A copy of `s` without leading and trailing white space.
pub fn trim_chars(s: &Vec<char>) -> (r: Vec<char>)
    ensures
        r@ == trim(s@),
{
    let (a, b) = trim_bounds(s, 0, s.len());
    assert(s@.subrange(0, s.len() as int) == s@);
    copy_range(s, a, b)
}

// ─── Searching ───────────────────────────────────────────────────────────────

/// Index of the first `c` in `s`, or -1.
pub open spec fn index_of(s: Seq<char>, c: char) -> int
    decreases s.len(),
{
    if s.len() == 0 {
        -1
    } else if s[0] == c {
        0
    } else {
        let r = index_of(s.drop_first(), c);
        if r < 0 {
            -1
        } else {
            r + 1
        }
    }
}

/// Index of the last `c` in `s`, or -1.
pub open spec fn last_index_of(s: Seq<char>, c: char) -> int
    decreases s.len(),
{
    if s.len() == 0 {
        -1
    } else if s.last() == c {
        s.len() - 1
    } else {
        last_index_of(s.drop_last(), c)
    }
}

/// `index_of` finds the first occurrence.
pub proof fn lemma_index_of(s: Seq<char>, c: char, k: int)
    requires
        0 <= k <= s.len(),
        forall|j: int| 0 <= j < k ==> s[j] != c,
        k < s.len() ==> s[k] == c,
    ensures
        index_of(s, c) == (if k < s.len() {
            k
        } else {
            -1
        }),
    decreases s.len(),
{
    if s.len() > 0 && s[0] != c {
        lemma_index_of(s.drop_first(), c, k - 1);
    }
}

proof fn lemma_last_index_of(s: Seq<char>, c: char, k: int)
    requires
        -1 <= k < s.len(),
        forall|j: int| k < j < s.len() ==> s[j] != c,
        k >= 0 ==> s[k] == c,
    ensures
        last_index_of(s, c) == k,
    decreases s.len(),
{
    if s.len() > 0 && s.last() != c {
        lemma_last_index_of(s.drop_last(), c, k);
    }
}

/// Index of the first `c` in `s[lo..hi]`, relative to `lo`, or -1 as `None`.
pub fn find_char(s: &Vec<char>, lo: usize, hi: usize, c: char) -> (r: Option<usize>)
    requires
        lo <= hi <= s.len(),
    ensures
        index_of(s@.subrange(lo as int, hi as int), c) == (match r {
            Some(k) => k as int,
            None => -1,
        }),
        r matches Some(k) ==> lo + k < hi,
{
    let mut i = lo;
    while i < hi
        invariant
            lo <= i <= hi <= s.len(),
            forall|j: int| lo <= j < i ==> s@[j] != c,
        decreases hi - i,
    {
        if s[i] == c {
            proof {
                lemma_index_of(s@.subrange(lo as int, hi as int), c, i - lo);
            }
            return Some(i - lo);
        }
        i += 1;
    }
    proof {
        lemma_index_of(s@.subrange(lo as int, hi as int), c, hi - lo);
    }
    None
}

/// Index of the last `c` in `s`.
pub fn rfind_char(s: &Vec<char>, c: char) -> (r: Option<usize>)
    ensures
        last_index_of(s@, c) == (match r {
            Some(k) => k as int,
            None => -1,
        }),
        r matches Some(k) ==> k < s.len(),
{
    let mut i = s.len();
    while i > 0
        invariant
            i <= s.len(),
            forall|j: int| i <= j < s.len() ==> s@[j] != c,
        decreases i,
    {
        if s[i - 1] == c {
            proof {
                lemma_last_index_of(s@, c, i - 1);
            }
            return Some(i - 1);
        }
        i -= 1;
    }
    proof {
        lemma_last_index_of(s@, c, -1);
    }
    None
}

/// `pat` occurs in `s` at position `i`.
pub open spec fn occurs_at(s: Seq<char>, pat: Seq<char>, i: int) -> bool {
    0 <= i && i + pat.len() <= s.len() && s.subrange(i, i + pat.len()) == pat
}

/// `pat` is a substring of `s`, as `str::contains` tests.
pub open spec fn contains(s: Seq<char>, pat: Seq<char>) -> bool {
    exists|i: int| occurs_at(s, pat, i)
}

/// `s` begins with `pat`.
pub open spec fn starts_with(s: Seq<char>, pat: Seq<char>) -> bool {
    occurs_at(s, pat, 0)
}

/// `s` ends with `pat`.
pub open spec fn ends_with(s: Seq<char>, pat: Seq<char>) -> bool {
    pat.len() <= s.len() && occurs_at(s, pat, s.len() - pat.len())
}

/// Whether `pat` occurs in `s` at position `i`.
pub fn matches_at(s: &Vec<char>, pat: &Vec<char>, i: usize) -> (b: bool)
    ensures
        b == occurs_at(s@, pat@, i as int),
{
    if i > s.len() || pat.len() > s.len() - i {
        return false;
    }
    let mut k: usize = 0;
    while k < pat.len()
        invariant
            i + pat.len() <= s.len(),
            k <= pat.len(),
            forall|j: int| 0 <= j < k ==> s@[i + j] == pat@[j],
        decreases pat.len() - k,
    {
        if s[i + k] != pat[k] {
            assert(s@.subrange(i as int, i + pat.len())[k as int] != pat@[k as int]);
            return false;
        }
        k += 1;
    }
    assert(s@.subrange(i as int, i + pat.len()) == pat@);
    true
}

/// Whether `pat` is a substring of `s`.
pub fn contains_chars(s: &Vec<char>, pat: &Vec<char>) -> (b: bool)
    ensures
        b == contains(s@, pat@),
{
    if pat.len() > s.len() {
        return false;
    }
    let last = s.len() - pat.len();
    let mut i: usize = 0;
    while i < last
        invariant
            last == s.len() - pat.len(),
            i <= last,
            forall|j: int| 0 <= j < i ==> !occurs_at(s@, pat@, j),
        decreases last - i,
    {
        if matches_at(s, pat, i) {
            return true;
        }
        i += 1;
    }
    if matches_at(s, pat, last) {
        return true;
    }
    assert forall|j: int| !occurs_at(s@, pat@, j) by {
        if 0 <= j < last {
        }
    }
    false
}

/// Whether `s` begins with `pat`.
pub fn starts_with_chars(s: &Vec<char>, pat: &Vec<char>) -> (b: bool)
    ensures
        b == starts_with(s@, pat@),
{
    matches_at(s, pat, 0)
}

/// Whether `s` ends with `pat`.
pub fn ends_with_chars(s: &Vec<char>, pat: &Vec<char>) -> (b: bool)
    ensures
        b == ends_with(s@, pat@),
{
    if pat.len() > s.len() {
        return false;
    }
    matches_at(s, pat, s.len() - pat.len())
}

// ─── Case ────────────────────────────────────────────────────────────────────

/// Name for what `str::to_lowercase` returns: the Unicode lowercase mapping
/// of every character, some of which map to more than one character.
pub uninterp spec fn unicode_lowercase(s: Seq<char>) -> Seq<char>;

/// Trusted: `str::to_lowercase` returns the Unicode lowercase form of `s`,
/// a function of `s` alone, which this crate calls `unicode_lowercase`; the
/// empty string stays empty, and ASCII text is mapped character by
/// character to ASCII lower case.
#[verifier::external_body]
pub(crate) fn to_lowercase(s: &str) -> (r: String)
    ensures
        r@ == unicode_lowercase(s@),
        s@.len() == 0 ==> r@.len() == 0,
        (forall|i: int| 0 <= i < s@.len() ==> (#[trigger] s@[i] as u32) < 128) ==> r@ == s@.map_values(
            |c: char| ascii_lower(c),
        ),
{
    s.to_lowercase()
}

/// ASCII letters mapped to lower case; every other character kept.
pub open spec fn ascii_lower(c: char) -> char {
    if 'A' <= c && c <= 'Z' {
        ((c as u8) + 32) as char
    } else {
        c
    }
}

pub fn ascii_lower_char(c: char) -> (r: char)
    ensures
        r == ascii_lower(c),
{
    if 'A' <= c && c <= 'Z' {
        ((c as u8) + 32) as char
    } else {
        c
    }
}

/// `a` and `b` are equal when ASCII letters are compared without case,
/// as `eq_ignore_ascii_case` tests.
pub open spec fn eq_ignore_ascii_case(a: Seq<char>, b: Seq<char>) -> bool {
    a.len() == b.len() && forall|j: int| 0 <= j < a.len() ==> ascii_lower(a[j]) == ascii_lower(b[j])
}

/// `pat` occurs in `s` at `i`, ignoring ASCII case.
pub open spec fn occurs_at_ignore_case(s: Seq<char>, pat: Seq<char>, i: int) -> bool {
    0 <= i && i + pat.len() <= s.len() && eq_ignore_ascii_case(s.subrange(i, i + pat.len()), pat)
}

pub fn matches_at_ignore_case(s: &Vec<char>, pat: &Vec<char>, i: usize) -> (b: bool)
    ensures
        b == occurs_at_ignore_case(s@, pat@, i as int),
{
    if i > s.len() || pat.len() > s.len() - i {
        return false;
    }
    let mut k: usize = 0;
    while k < pat.len()
        invariant
            i + pat.len() <= s.len(),
            k <= pat.len(),
            forall|j: int| 0 <= j < k ==> ascii_lower(s@[i + j]) == ascii_lower(pat@[j]),
        decreases pat.len() - k,
    {
        if ascii_lower_char(s[i + k]) != ascii_lower_char(pat[k]) {
            assert(s@.subrange(i as int, i + pat.len())[k as int] == s@[i + k]);
            return false;
        }
        k += 1;
    }
    true
}

// ─── Lines ───────────────────────────────────────────────────────────────────

/// The pieces of `s` between line feeds.
pub open spec fn split_lines(s: Seq<char>) -> Seq<Seq<char>>
    decreases s.len(),
{
    let k = index_of(s, '\n');
    if k < 0 || k >= s.len() {
        seq![s]
    } else {
        seq![s.take(k)] + split_lines(s.skip(k + 1))
    }
}

proof fn lemma_index_of_spec(s: Seq<char>, c: char)
    ensures
        index_of(s, c) >= 0 ==> index_of(s, c) < s.len() && s[index_of(s, c)] == c && forall|j: int|
            0 <= j < index_of(s, c) ==> s[j] != c,
        index_of(s, c) < 0 ==> index_of(s, c) == -1 && forall|j: int| 0 <= j < s.len() ==> s[j] != c,
    decreases s.len(),
{
    if s.len() > 0 && s[0] != c {
        lemma_index_of_spec(s.drop_first(), c);
        assert forall|j: int| 1 <= j < s.len() implies s[j] == s.drop_first()[j - 1] by {}
    }
}

/// Splitting text that follows complete lines: the lines of `a + b`, where
/// `a` ends with a line feed, are those of `a` (less the empty piece after
/// its last line feed) followed by those of `b`.
pub proof fn lemma_split_lines_append(a: Seq<char>, b: Seq<char>)
    requires
        a.len() > 0,
        a.last() == '\n',
    ensures
        split_lines(a + b) == split_lines(a).drop_last() + split_lines(b),
        split_lines(a).len() > 0,
        split_lines(a).last().len() == 0,
    decreases a.len(),
{
    lemma_index_of_spec(a, '\n');
    let k = index_of(a, '\n');
    if k < 0 {
        assert(a[a.len() - 1] == '\n');
    }
    assert(0 <= k < a.len());
    lemma_index_of(a + b, '\n', k);
    assert((a + b).take(k) == a.take(k));
    assert((a + b).skip(k + 1) == a.skip(k + 1) + b);
    let rest = a.skip(k + 1);
    if rest.len() == 0 {
        assert(rest + b == b);
        assert(index_of(rest, '\n') == -1);
        assert(split_lines(rest) == seq![rest]);
        assert(split_lines(a) == seq![a.take(k)] + seq![rest]);
        assert(split_lines(a).drop_last() == seq![a.take(k)]);
    } else {
        assert(rest.last() == a.last());
        lemma_split_lines_append(rest, b);
        assert(split_lines(a) == seq![a.take(k)] + split_lines(rest));
        assert(split_lines(rest).len() > 0) by {
            reveal_with_fuel(split_lines, 1);
        }
        assert((seq![a.take(k)] + split_lines(rest)).drop_last() == seq![a.take(k)] + split_lines(
            rest,
        ).drop_last());
        assert(seq![a.take(k)] + (split_lines(rest).drop_last() + split_lines(b)) == (seq![a.take(k)]
            + split_lines(rest).drop_last()) + split_lines(b));
    }
}

/// Every line of `s`, trimmed.
pub open spec fn trimmed_lines(s: Seq<char>) -> Seq<Seq<char>> {
    split_lines(s).map_values(|l: Seq<char>| trim(l))
}

/// The trimmed lines of `s`.
pub fn lines_trimmed(s: &Vec<char>) -> (r: Vec<Vec<char>>)
    ensures
        r@.map_values(|l: Vec<char>| l@) == trimmed_lines(s@),
{
    let mut r: Vec<Vec<char>> = Vec::new();
    let mut st: usize = 0;
    let mut i: usize = 0;
    let ghost mut done: Seq<Seq<char>> = Seq::empty();
    assert(s@.skip(0) == s@);
    while i < s.len()
        invariant
            st <= i <= s.len(),
            forall|j: int| st <= j < i ==> s@[j] != '\n',
            r@.map_values(|l: Vec<char>| l@) == done.map_values(|l: Seq<char>| trim(l)),
            done + split_lines(s@.skip(st as int)) == split_lines(s@),
        decreases s.len() - i,
    {
        if s[i] == '\n' {
            let ghost rest = s@.skip(st as int);
            proof {
                lemma_index_of(rest, '\n', i - st);
                assert(rest.take(i - st) == s@.subrange(st as int, i as int));
                assert(rest.skip(i - st + 1) == s@.skip(i + 1));
                assert(done + split_lines(rest) == (done + seq![s@.subrange(st as int, i as int)])
                    + split_lines(s@.skip(i + 1)));
            }
            let (a, b) = trim_bounds(s, st, i);
            let line = copy_range(s, a, b);
            let ghost prev_r = r@;
            let ghost prev_done = done;
            r.push(line);
            proof {
                done = done.push(s@.subrange(st as int, i as int));
                assert(r@.map_values(|l: Vec<char>| l@) =~= prev_r.map_values(|l: Vec<char>| l@).push(line@));
                assert(done.map_values(|l: Seq<char>| trim(l)) =~= prev_done.map_values(|l: Seq<char>| trim(l)).push(trim(s@.subrange(st as int, i as int))));
            }
            assert(r@.map_values(|l: Vec<char>| l@) == done.map_values(|l: Seq<char>| trim(l)));
            st = i + 1;
        }
        i += 1;
    }
    let ghost rest = s@.skip(st as int);
    proof {
        lemma_index_of(rest, '\n', rest.len() as int);
        assert(rest == s@.subrange(st as int, s.len() as int));
    }
    let (a, b) = trim_bounds(s, st, s.len());
    let line = copy_range(s, a, b);
    let ghost prev_r = r@;
    let ghost prev_done = done;
    r.push(line);
    proof {
        done = done.push(s@.subrange(st as int, s.len() as int));
        assert(r@.map_values(|l: Vec<char>| l@) =~= prev_r.map_values(|l: Vec<char>| l@).push(line@));
        assert(done.map_values(|l: Seq<char>| trim(l)) =~= prev_done.map_values(|l: Seq<char>| trim(l)).push(trim(s@.subrange(st as int, s.len() as int))));
        assert(done == split_lines(s@));
    }
    assert(r@.map_values(|l: Vec<char>| l@) == done.map_values(|l: Seq<char>| trim(l)));
    r
}

} // verus!

verus! {

// ─── First match in a sequence ───────────────────────────────────────────────

/// Index of the first element of `s` that satisfies `p`, or -1.
pub open spec fn first_index<A>(s: Seq<A>, p: spec_fn(A) -> bool) -> int
    decreases s.len(),
{
    if s.len() == 0 {
        -1
    } else if p(s[0]) {
        0
    } else {
        let r = first_index(s.drop_first(), p);
        if r < 0 {
            -1
        } else {
            r + 1
        }
    }
}

pub proof fn lemma_first_index<A>(s: Seq<A>, p: spec_fn(A) -> bool, k: int)
    requires
        0 <= k <= s.len(),
        forall|j: int| 0 <= j < k ==> !p(#[trigger] s[j]),
        k < s.len() ==> p(s[k]),
    ensures
        first_index(s, p) == (if k < s.len() {
            k
        } else {
            -1
        }),
    decreases s.len(),
{
    if s.len() > 0 && !p(s[0]) {
        assert forall|j: int| 0 <= j < k - 1 implies !p(#[trigger] s.drop_first()[j]) by {
            assert(s.drop_first()[j] == s[j + 1]);
        }
        lemma_first_index(s.drop_first(), p, k - 1);
    }
}

} // verus!

verus! {

/// Whether two strings hold the same characters.
pub fn same_text(a: &str, b: &str) -> (r: bool)
    ensures
        r == (a@ == b@),
{
    let x = chars_of(a);
    let y = chars_of(b);
    if x.len() != y.len() {
        return false;
    }
    let mut i: usize = 0;
    while i < x.len()
        invariant
            x.len() == y.len(),
            x@ == a@,
            y@ == b@,
            i <= x.len(),
            forall|j: int| 0 <= j < i ==> x@[j] == y@[j],
        decreases x.len() - i,
    {
        if x[i] != y[i] {
            assert(x@[i as int] != y@[i as int]);
            return false;
        }
        i += 1;
    }
    assert(x@ == y@);
    true
}

/// Whether the Unicode lowercase form of `s` contains `pat`.
pub fn lowercase_contains(s: &str, pat: &Vec<char>) -> (r: bool)
    ensures
        r == contains(unicode_lowercase(s@), pat@),
{
    let low = to_lowercase(s);
    let cs = chars_of(low.as_str());
    contains_chars(&cs, pat)
}

} // verus!
