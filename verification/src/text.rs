//! Text helpers over `str` and `String`, each specified over the
//! character sequence (`@`) or the UTF-8 bytes of its arguments.

use vstd::prelude::*;
use vstd::string::{StrSliceExecFns, StringExecFns};

verus! {

/// Unicode `White_Space`, the set that `char::is_whitespace` documents.
pub open spec fn is_ws(c: char) -> bool {
    let u = c as u32;
    ||| 0x9 <= u <= 0xd
    ||| u == 0x20
    ||| u == 0x85
    ||| u == 0xa0
    ||| u == 0x1680
    ||| 0x2000 <= u <= 0x200a
    ||| u == 0x2028
    ||| u == 0x2029
    ||| u == 0x202f
    ||| u == 0x205f
    ||| u == 0x3000
}

/// `s` without its leading white space (what `str::trim_start` gives).
pub open spec fn trim_start_spec(s: Seq<char>) -> Seq<char>
    decreases s.len(),
{
    if s.len() > 0 && is_ws(s[0]) {
        trim_start_spec(s.drop_first())
    } else {
        s
    }
}

/// `s` without its trailing white space (what `str::trim_end` gives).
pub open spec fn trim_end_spec(s: Seq<char>) -> Seq<char>
    decreases s.len(),
{
    if s.len() > 0 && is_ws(s.last()) {
        trim_end_spec(s.drop_last())
    } else {
        s
    }
}

/// `s` without white space at either end (what `str::trim` gives).
pub open spec fn trim_spec(s: Seq<char>) -> Seq<char> {
    trim_end_spec(trim_start_spec(s))
}

/// `s` without the `'/'` characters at its end.
pub open spec fn trim_end_slashes_spec(s: Seq<char>) -> Seq<char>
    decreases s.len(),
{
    if s.len() > 0 && s.last() == '/' {
        trim_end_slashes_spec(s.drop_last())
    } else {
        s
    }
}

/// Whether `p` is a prefix of `s`.
pub open spec fn has_prefix(s: Seq<char>, p: Seq<char>) -> bool {
    p.len() <= s.len() && s.take(p.len() as int) == p
}

/// Whether `needle` occurs in `s` starting at character `i`.
pub open spec fn occurs_at(s: Seq<char>, needle: Seq<char>, i: int) -> bool {
    0 <= i && i + needle.len() <= s.len() && s.subrange(i, i + needle.len()) == needle
}

/// Whether `needle` occurs anywhere in `s`.
pub open spec fn occurs_in(s: Seq<char>, needle: Seq<char>) -> bool {
    exists|i: int| occurs_at(s, needle, i)
}

/// `trim_start_spec` drops exactly the white space before the first other
/// character; the returned index is where what is kept begins.
pub proof fn lemma_trim_start_bound(s: Seq<char>) -> (i: int)
    ensures
        0 <= i <= s.len(),
        trim_start_spec(s) == s.skip(i),
        forall|k: int| 0 <= k < i ==> is_ws(#[trigger] s[k]),
        i < s.len() ==> !is_ws(s[i]),
    decreases s.len(),
{
    if s.len() > 0 && is_ws(s[0]) {
        let i2 = lemma_trim_start_bound(s.drop_first());
        assert(s.drop_first().skip(i2) =~= s.skip(i2 + 1));
        assert forall|k: int| 0 <= k < i2 + 1 implies is_ws(#[trigger] s[k]) by {
            if k > 0 {
                assert(s[k] == s.drop_first()[k - 1]);
            }
        }
        assert(i2 + 1 < s.len() ==> s[i2 + 1] == s.drop_first()[i2]);
        i2 + 1
    } else {
        assert(s.skip(0) =~= s);
        0
    }
}

/// `trim_end_spec` drops exactly the white space after the last other
/// character; the returned index is where what is kept ends.
pub proof fn lemma_trim_end_bound(s: Seq<char>) -> (j: int)
    ensures
        0 <= j <= s.len(),
        trim_end_spec(s) == s.take(j),
        forall|k: int| j <= k < s.len() ==> is_ws(#[trigger] s[k]),
        j > 0 ==> !is_ws(s[j - 1]),
    decreases s.len(),
{
    if s.len() > 0 && is_ws(s.last()) {
        let j2 = lemma_trim_end_bound(s.drop_last());
        assert(s.drop_last().take(j2) =~= s.take(j2));
        assert forall|k: int| j2 <= k < s.len() implies is_ws(#[trigger] s[k]) by {
            if k < s.len() - 1 {
                assert(s[k] == s.drop_last()[k]);
            }
        }
        assert(j2 > 0 ==> s[j2 - 1] == s.drop_last()[j2 - 1]);
        j2
    } else {
        assert(s.take(s.len() as int) =~= s);
        s.len() as int
    }
}

/// Trimming keeps every character from the first to the last one that is
/// not white space, and drops only the white space around them: the result
/// is a stretch `s[i..j]` of `s` with nothing but white space before `i` and
/// from `j` on, and (when not empty) it starts and ends with a character
/// that is not white space.
pub proof fn law_trim_keeps_inner(s: Seq<char>)
    ensures
        exists|i: int, j: int|
            #![trigger s.subrange(i, j)]
            0 <= i <= j <= s.len() && trim_spec(s) == s.subrange(i, j) && (forall|k: int|
                0 <= k < i ==> is_ws(#[trigger] s[k])) && (forall|k: int|
                j <= k < s.len() ==> is_ws(#[trigger] s[k])) && (i < j ==> !is_ws(s[i]) && !is_ws(s[j - 1])),
{
    let (i, j) = trim_bounds(s);
    assert(trim_spec(s) == s.subrange(i, j));
}

/// The stretch of `s` that trimming keeps, as in `law_trim_keeps_inner`.
pub proof fn trim_bounds(s: Seq<char>) -> (ij: (int, int))
    ensures
        0 <= ij.0 <= ij.1 <= s.len(),
        trim_spec(s) == s.subrange(ij.0, ij.1),
        forall|k: int| 0 <= k < ij.0 ==> is_ws(#[trigger] s[k]),
        forall|k: int| ij.1 <= k < s.len() ==> is_ws(#[trigger] s[k]),
        ij.0 < ij.1 ==> !is_ws(s[ij.0]) && !is_ws(s[ij.1 - 1]),
{
    let i = lemma_trim_start_bound(s);
    let t = s.skip(i);
    let j = lemma_trim_end_bound(t);
    assert(t.take(j) =~= s.subrange(i, i + j));
    assert forall|k: int| i + j <= k < s.len() implies is_ws(#[trigger] s[k]) by {
        assert(s[k] == t[k - i]);
    }
    if j > 0 {
        assert(s[i + j - 1] == t[j - 1]);
    }
    (i, i + j)
}

/// Whether `c` is Unicode white space.
pub fn is_whitespace(c: char) -> (r: bool)
    ensures
        r == is_ws(c),
{
    let u = c as u32;
    (0x9 <= u && u <= 0xd) || u == 0x20 || u == 0x85 || u == 0xa0 || u == 0x1680 || (0x2000 <= u
        && u <= 0x200a) || u == 0x2028 || u == 0x2029 || u == 0x202f || u == 0x205f || u == 0x3000
}

/// The characters of `s`, in order.
pub fn chars_of(s: &str) -> (v: Vec<char>)
    ensures
        v@ == s@,
{
    broadcast use vstd::string::group_string_axioms;

    let mut v: Vec<char> = Vec::new();
    for c in it: s.chars()
        invariant
            it.seq() == s@,
            v@ == it.seq().take(it.index()),
    {
        v.push(c);
    }
    v
}

/// Characters `from..to` of `s`, as an owned `String`.
pub fn substring(s: &str, from: usize, to: usize) -> (r: String)
    requires
        from <= to <= s@.len(),
    ensures
        r@ == s@.subrange(from as int, to as int),
{
    s.substring_char(from, to).to_owned()
}

/// `s` with the white space at its start removed.
pub fn trim_start(s: &str) -> (r: &str)
    ensures
        r@ == trim_start_spec(s@),
{
    let v = chars_of(s);
    let n = v.len();
    let mut i: usize = 0;
    assert(s@.subrange(0, n as int) == s@);
    while i < n && is_whitespace(v[i])
        invariant
            i <= n,
            n == s@.len(),
            v@ == s@,
            trim_start_spec(s@) == trim_start_spec(s@.subrange(i as int, n as int)),
        decreases n - i,
    {
        assert(s@.subrange(i as int, n as int).drop_first() == s@.subrange(i + 1, n as int));
        i = i + 1;
    }
    assert(s@.subrange(n as int, n as int).len() == 0);
    s.substring_char(i, n)
}

/// `s` with the white space at its end removed.
pub fn trim_end(s: &str) -> (r: &str)
    ensures
        r@ == trim_end_spec(s@),
{
    let v = chars_of(s);
    let n = v.len();
    let mut j: usize = n;
    assert(s@.subrange(0, n as int) == s@);
    while j > 0 && is_whitespace(v[j - 1])
        invariant
            j <= n,
            n == s@.len(),
            v@ == s@,
            trim_end_spec(s@) == trim_end_spec(s@.subrange(0, j as int)),
        decreases j,
    {
        assert(s@.subrange(0, j as int).drop_last() == s@.subrange(0, j - 1));
        j = j - 1;
    }
    assert(s@.subrange(0, n as int) == s@);
    s.substring_char(0, j)
}

/// `s` with the white space at both ends removed.
pub fn trim(s: &str) -> (r: &str)
    ensures
        r@ == trim_spec(s@),
{
    trim_end(trim_start(s))
}

/// `s` with the `'/'` characters at its end removed.
pub fn trim_end_slashes(s: &str) -> (r: &str)
    ensures
        r@ == trim_end_slashes_spec(s@),
{
    let v = chars_of(s);
    let n = v.len();
    let mut j: usize = n;
    assert(s@.subrange(0, n as int) == s@);
    while j > 0 && v[j - 1] == '/'
        invariant
            j <= n,
            n == s@.len(),
            v@ == s@,
            trim_end_slashes_spec(s@) == trim_end_slashes_spec(s@.subrange(0, j as int)),
        decreases j,
    {
        assert(s@.subrange(0, j as int).drop_last() == s@.subrange(0, j - 1));
        j = j - 1;
    }
    assert(s@.subrange(0, n as int) == s@);
    s.substring_char(0, j)
}

/// Whether `needle` occurs in `v` starting at character `i`.
fn chars_match_at(v: &Vec<char>, needle: &Vec<char>, i: usize) -> (r: bool)
    requires
        i <= v@.len(),
    ensures
        r == occurs_at(v@, needle@, i as int),
{
    if needle.len() > v.len() - i {
        return false;
    }
    let mut k: usize = 0;
    while k < needle.len()
        invariant
            i + needle@.len() <= v.len(),
            k <= needle@.len(),
            forall|m: int| 0 <= m < k ==> v@[i + m] == needle@[m],
        decreases needle@.len() - k,
    {
        if v[i + k] != needle[k] {
            assert(v@.subrange(i as int, i + needle@.len())[k as int] != needle@[k as int]);
            return false;
        }
        k = k + 1;
    }
    assert(v@.subrange(i as int, i + needle@.len()) == needle@);
    true
}

/// Whether `s` starts with `prefix`.
pub fn starts_with(s: &str, prefix: &str) -> (r: bool)
    ensures
        r == has_prefix(s@, prefix@),
{
    let v = chars_of(s);
    let p = chars_of(prefix);
    let r = chars_match_at(&v, &p, 0);
    assert(s@.subrange(0, prefix@.len() as int) == s@.take(prefix@.len() as int));
    r
}

/// The first index `>= i` at which `needle` occurs in `s`, if any.
pub open spec fn first_occurrence_from(s: Seq<char>, needle: Seq<char>, i: int) -> Option<int>
    decreases s.len() + 1 - i,
{
    if i < 0 || i + needle.len() > s.len() {
        None
    } else if occurs_at(s, needle, i) {
        Some(i)
    } else {
        first_occurrence_from(s, needle, i + 1)
    }
}

/// The first index at which `needle` occurs in `s`, if any.
pub open spec fn first_occurrence(s: Seq<char>, needle: Seq<char>) -> Option<int> {
    first_occurrence_from(s, needle, 0)
}

/// `first_occurrence_from` finds the least occurrence at or after `i`,
/// and finds none exactly when there is none.
pub proof fn lemma_first_occurrence_from(s: Seq<char>, needle: Seq<char>, i: int)
    requires
        0 <= i,
    ensures
        first_occurrence_from(s, needle, i) matches Some(k) ==> i <= k && occurs_at(s, needle, k)
            && forall|j: int| i <= j < k ==> !occurs_at(s, needle, j),
        first_occurrence_from(s, needle, i) is None ==> forall|j: int|
            i <= j ==> !occurs_at(s, needle, j),
    decreases s.len() + 1 - i,
{
    if i + needle.len() > s.len() {
    } else if occurs_at(s, needle, i) {
    } else {
        lemma_first_occurrence_from(s, needle, i + 1);
    }
}

/// `first_occurrence` finds the least occurrence, and none exactly when
/// `needle` does not occur.
pub proof fn lemma_first_occurrence(s: Seq<char>, needle: Seq<char>)
    ensures
        first_occurrence(s, needle) matches Some(k) ==> occurs_at(s, needle, k) && forall|j: int|
            0 <= j < k ==> !occurs_at(s, needle, j),
        first_occurrence(s, needle) is None <==> !occurs_in(s, needle),
{
    lemma_first_occurrence_from(s, needle, 0);
    match first_occurrence(s, needle) {
        Some(k) => {
            assert(occurs_at(s, needle, k));
        },
        None => {},
    }
}

/// The first character index at which `needle` occurs in `s`, if any.
pub fn find(s: &str, needle: &str) -> (r: Option<usize>)
    ensures
        r is None <==> first_occurrence(s@, needle@) is None,
        r matches Some(i) ==> first_occurrence(s@, needle@) == Some(i as int),
{
    let v = chars_of(s);
    let p = chars_of(needle);
    if p.len() > v.len() {
        return None;
    }
    if p.len() == 0 {
        assert(s@.subrange(0, 0) == needle@);
        return Some(0);
    }
    let last = v.len() - p.len();
    let mut i: usize = 0;
    while i <= last
        invariant
            last == v@.len() - p@.len(),
            last < v.len(),
            v@ == s@,
            p@ == needle@,
            i <= last + 1,
            first_occurrence(s@, needle@) == first_occurrence_from(s@, needle@, i as int),
        decreases last + 1 - i,
    {
        if chars_match_at(&v, &p, i) {
            return Some(i);
        }
        i = i + 1;
    }
    None
}

/// Whether `needle` occurs in `s`.
pub fn contains(s: &str, needle: &str) -> (r: bool)
    ensures
        r == occurs_in(s@, needle@),
{
    proof {
        lemma_first_occurrence(s@, needle@);
    }
    find(s, needle).is_some()
}

/// Whether `a` and `b` hold the same characters.
pub fn str_eq(a: &str, b: &str) -> (r: bool)
    ensures
        r == (a@ == b@),
{
    let va = chars_of(a);
    let vb = chars_of(b);
    if va.len() != vb.len() {
        return false;
    }
    let r = chars_match_at(&va, &vb, 0);
    assert(a@.subrange(0, b@.len() as int) == a@);
    r
}

/// Byte-wise lexicographic order, the order of `str`'s `Ord`.
pub open spec fn bytes_lt(a: Seq<u8>, b: Seq<u8>) -> bool
    decreases a.len(),
{
    if b.len() == 0 {
        false
    } else if a.len() == 0 {
        true
    } else if a[0] != b[0] {
        a[0] < b[0]
    } else {
        bytes_lt(a.drop_first(), b.drop_first())
    }
}

/// The order on text by its UTF-8 bytes.
#[verifier::opaque]
pub open spec fn text_lt(a: Seq<char>, b: Seq<char>) -> bool {
    bytes_lt(vstd::utf8::encode_utf8(a), vstd::utf8::encode_utf8(b))
}

/// `bytes_lt` is asymmetric.
pub proof fn lemma_bytes_lt_asymmetric(a: Seq<u8>, b: Seq<u8>)
    requires
        bytes_lt(a, b),
    ensures
        !bytes_lt(b, a),
    decreases a.len(),
{
    if a.len() > 0 && b.len() > 0 && a[0] == b[0] {
        lemma_bytes_lt_asymmetric(a.drop_first(), b.drop_first());
    }
}

/// `bytes_lt` is transitive.
pub proof fn lemma_bytes_lt_transitive(a: Seq<u8>, b: Seq<u8>, c: Seq<u8>)
    requires
        bytes_lt(a, b),
        bytes_lt(b, c),
    ensures
        bytes_lt(a, c),
    decreases a.len(),
{
    if a.len() > 0 && b.len() > 0 && c.len() > 0 && a[0] == b[0] && b[0] == c[0] {
        lemma_bytes_lt_transitive(a.drop_first(), b.drop_first(), c.drop_first());
    }
}

/// `bytes_lt` orders any two different sequences.
pub proof fn lemma_bytes_lt_total(a: Seq<u8>, b: Seq<u8>)
    requires
        a != b,
    ensures
        bytes_lt(a, b) || bytes_lt(b, a),
    decreases a.len(),
{
    if a.len() > 0 && b.len() > 0 && a[0] == b[0] {
        if a.drop_first() == b.drop_first() {
            assert(a == seq![a[0]] + a.drop_first());
            assert(b == seq![b[0]] + b.drop_first());
        }
        lemma_bytes_lt_total(a.drop_first(), b.drop_first());
    } else if a.len() == 0 && b.len() == 0 {
        assert(a == b);
    }
}

/// `text_lt` orders any two different texts, one way only.
pub proof fn lemma_text_lt_total(a: Seq<char>, b: Seq<char>)
    requires
        a != b,
    ensures
        text_lt(a, b) || text_lt(b, a),
        !(text_lt(a, b) && text_lt(b, a)),
{
    broadcast use vstd::utf8::encode_utf8_decode_utf8;

    reveal(text_lt);
    let ea = vstd::utf8::encode_utf8(a);
    let eb = vstd::utf8::encode_utf8(b);
    assert(vstd::utf8::decode_utf8(ea) == a);
    assert(vstd::utf8::decode_utf8(eb) == b);
    lemma_bytes_lt_total(ea, eb);
    if bytes_lt(ea, eb) {
        lemma_bytes_lt_asymmetric(ea, eb);
    }
}

/// Whether `a` comes before `b` in byte-wise lexicographic order.
pub fn bytes_less(a: &[u8], b: &[u8]) -> (r: bool)
    ensures
        r == bytes_lt(a@, b@),
{
    let mut i: usize = 0;
    assert(a@.skip(0) == a@);
    assert(b@.skip(0) == b@);
    while i < a.len() && i < b.len() && a[i] == b[i]
        invariant
            i <= a@.len(),
            i <= b@.len(),
            bytes_lt(a@, b@) == bytes_lt(a@.skip(i as int), b@.skip(i as int)),
        decreases a@.len() - i,
    {
        assert(a@.skip(i as int).drop_first() == a@.skip(i + 1));
        assert(b@.skip(i as int).drop_first() == b@.skip(i + 1));
        i = i + 1;
    }
    if i == b.len() {
        false
    } else if i == a.len() {
        true
    } else {
        a[i] < b[i]
    }
}

/// Whether `a` comes before `b` in the order of `str`'s `Ord`.
pub fn text_less(a: &str, b: &str) -> (r: bool)
    ensures
        r == text_lt(a@, b@),
{
    reveal(text_lt);
    bytes_less(a.as_bytes(), b.as_bytes())
}

/// `text_lt` is transitive.
pub proof fn lemma_text_lt_transitive(a: Seq<char>, b: Seq<char>, c: Seq<char>)
    requires
        text_lt(a, b),
        text_lt(b, c),
    ensures
        text_lt(a, c),
{
    reveal(text_lt);
    lemma_bytes_lt_transitive(
        vstd::utf8::encode_utf8(a),
        vstd::utf8::encode_utf8(b),
        vstd::utf8::encode_utf8(c),
    );
}

/// The decimal digit `d`, as text.
pub open spec fn digit_text(d: int) -> Seq<char> {
    if d == 0 {
        "0"@
    } else if d == 1 {
        "1"@
    } else if d == 2 {
        "2"@
    } else if d == 3 {
        "3"@
    } else if d == 4 {
        "4"@
    } else if d == 5 {
        "5"@
    } else if d == 6 {
        "6"@
    } else if d == 7 {
        "7"@
    } else if d == 8 {
        "8"@
    } else {
        "9"@
    }
}

/// The decimal digits of `m`, without leading zeros.
pub open spec fn digits_spec(m: nat) -> Seq<char>
    decreases m,
{
    if m < 10 {
        digit_text(m as int)
    } else {
        digits_spec(m / 10) + digit_text((m % 10) as int)
    }
}

/// `n` in decimal, with a `-` when negative (what `{}` prints).
pub open spec fn decimal_spec(n: int) -> Seq<char> {
    if n < 0 {
        "-"@ + digits_spec((-n) as nat)
    } else {
        digits_spec(n as nat)
    }
}

/// The text of digit `d`.
fn digit_str(d: u64) -> (r: &'static str)
    requires
        d < 10,
    ensures
        r@ == digit_text(d as int),
{
    if d == 0 {
        "0"
    } else if d == 1 {
        "1"
    } else if d == 2 {
        "2"
    } else if d == 3 {
        "3"
    } else if d == 4 {
        "4"
    } else if d == 5 {
        "5"
    } else if d == 6 {
        "6"
    } else if d == 7 {
        "7"
    } else if d == 8 {
        "8"
    } else {
        "9"
    }
}

/// Appends the decimal digits of `m` to `s`.
fn append_digits(s: &mut String, m: u64)
    ensures
        final(s)@ == old(s)@ + digits_spec(m as nat),
    decreases m,
{
    if m >= 10 {
        append_digits(s, m / 10);
    }
    s.append(digit_str(m % 10));
}

/// `n` in decimal.
pub fn decimal(n: i64) -> (r: String)
    ensures
        r@ == decimal_spec(n as int),
{
    let mut r = String::new();
    if n < 0 {
        r.append("-");
        let m: u64 = (-(n as i128)) as u64;
        append_digits(&mut r, m);
    } else {
        append_digits(&mut r, n as u64);
    }
    r
}

} // verus!
