//! Character-level text helpers shared by the rest of the library.
//!
//! Strings are modelled by their `Seq<char>` view; byte lengths are the
//! UTF-8 encoded lengths of those characters.
use vstd::prelude::*;

verus! {

/// `p` occurs in `s` starting at index `i`.
pub open spec fn occurs_at<T>(s: Seq<T>, p: Seq<T>, i: int) -> bool {
    0 <= i && i + p.len() <= s.len() && s.subrange(i, i + p.len()) == p
}

pub open spec fn has_prefix<T>(s: Seq<T>, p: Seq<T>) -> bool {
    occurs_at(s, p, 0)
}

pub open spec fn has_suffix<T>(s: Seq<T>, p: Seq<T>) -> bool {
    p.len() <= s.len() && occurs_at(s, p, s.len() - p.len())
}

pub open spec fn contains_seq<T>(s: Seq<T>, p: Seq<T>) -> bool {
    exists|i: int| #[trigger] occurs_at(s, p, i)
}

/// The first occurrence of `p` in `s` at or after `start`, if any.
#[verifier::opaque]
pub open spec fn first_occurrence_from<T>(s: Seq<T>, p: Seq<T>, start: int) -> Option<int> {
    if exists|i: int| start <= i && #[trigger] occurs_at(s, p, i) {
        Some(choose|i: int| start <= i && occurs_at(s, p, i) && forall|j: int| start <= j < i ==> !#[trigger] occurs_at(s, p, j))
    } else {
        None
    }
}

/// Characters of a string slice, in order.
pub fn chars_of(s: &str) -> (v: Vec<char>)
    ensures
        v@ == s@,
{
    let mut v: Vec<char> = Vec::new();
    for c in it: s.chars()
        invariant
            it.seq() == s@,
            v@ == it.seq().take(it.index() as int),
    {
        v.push(c);
    }
    v
}

/// Appends one character to a `String` (`String::push`).
#[verifier::external_body]
pub(crate) fn push_char(s: &mut String, c: char)
    ensures
        final(s)@ == old(s)@.push(c),
{
    s.push(c);
}

/// Builds a `String` holding exactly the given characters.
pub fn string_of(chars: &[char]) -> (res: String)
    ensures
        res@ == chars@,
{
    let mut res = String::new();
    let mut i: usize = 0;
    while i < chars.len()
        invariant
            i <= chars.len(),
            res@ == chars@.take(i as int),
        decreases chars.len() - i,
    {
        push_char(&mut res, chars[i]);
        assert(chars@.take(i + 1) == chars@.take(i as int).push(chars@[i as int]));
        i = i + 1;
    }
    assert(chars@.take(chars@.len() as int) == chars@);
    res
}

/// Appends the characters of `other` to `s`.
pub fn push_chars(s: &mut String, other: &[char])
    ensures
        final(s)@ == old(s)@ + other@,
{
    let mut i: usize = 0;
    while i < other.len()
        invariant
            i <= other.len(),
            s@ == old(s)@ + other@.take(i as int),
        decreases other.len() - i,
    {
        push_char(s, other[i]);
        assert(other@.take(i + 1) == other@.take(i as int).push(other@[i as int]));
        i = i + 1;
    }
    assert(other@.take(other@.len() as int) == other@);
}

/// Appends a string slice to `s`.
pub fn push_str(s: &mut String, other: &str)
    ensures
        final(s)@ == old(s)@ + other@,
{
    let v = chars_of(other);
    push_chars(s, v.as_slice());
}

/// Equality of two string slices by their characters.
pub fn str_eq(a: &str, b: &str) -> (res: bool)
    ensures
        res == (a@ == b@),
{
    let x = chars_of(a);
    let y = chars_of(b);
    chars_eq(x.as_slice(), y.as_slice())
}

pub fn chars_eq(x: &[char], y: &[char]) -> (res: bool)
    ensures
        res == (x@ == y@),
{
    if x.len() != y.len() {
        return false;
    }
    let mut i: usize = 0;
    while i < x.len()
        invariant
            i <= x.len(),
            x.len() == y.len(),
            forall|j: int| 0 <= j < i ==> x@[j] == y@[j],
        decreases x.len() - i,
    {
        if x[i] != y[i] {
            return false;
        }
        i = i + 1;
    }
    assert(x@ =~= y@);
    true
}

/// Whether `p` occurs in `s` at character index `i`.
pub fn chars_occur_at(s: &[char], p: &[char], i: usize) -> (res: bool)
    ensures
        res == occurs_at(s@, p@, i as int),
{
    if i > s.len() || p.len() > s.len() - i {
        return false;
    }
    let mut k: usize = 0;
    while k < p.len()
        invariant
            k <= p.len(),
            i + p.len() <= s.len(),
            forall|j: int| 0 <= j < k ==> s@[i + j] == p@[j],
        decreases p.len() - k,
    {
        if s[i + k] != p[k] {
            assert(s@.subrange(i as int, i + p.len())[k as int] != p@[k as int]);
            return false;
        }
        k = k + 1;
    }
    assert(s@.subrange(i as int, i + p.len()) =~= p@);
    true
}

/// Whether `p` occurs in the byte sequence `s` at index `i`.
pub fn bytes_occur_at(s: &[u8], p: &[u8], i: usize) -> (res: bool)
    ensures
        res == occurs_at(s@, p@, i as int),
{
    if i > s.len() || p.len() > s.len() - i {
        return false;
    }
    let mut k: usize = 0;
    while k < p.len()
        invariant
            k <= p.len(),
            i + p.len() <= s.len(),
            forall|j: int| 0 <= j < k ==> s@[i + j] == p@[j],
        decreases p.len() - k,
    {
        if s[i + k] != p[k] {
            assert(s@.subrange(i as int, i + p.len())[k as int] != p@[k as int]);
            return false;
        }
        k = k + 1;
    }
    assert(s@.subrange(i as int, i + p.len()) =~= p@);
    true
}

pub proof fn lemma_first_occurrence_is<T>(s: Seq<T>, p: Seq<T>, start: int, i: int)
    requires
        start <= i,
        occurs_at(s, p, i),
        forall|j: int| start <= j < i ==> !#[trigger] occurs_at(s, p, j),
    ensures
        first_occurrence_from(s, p, start) == Some(i),
{
    reveal(first_occurrence_from);
    let w = choose|w: int| start <= w && occurs_at(s, p, w) && forall|j: int| start <= j < w ==> !#[trigger] occurs_at(s, p, j);
    assert(start <= i && occurs_at(s, p, i));
    if w < i {
        assert(!occurs_at(s, p, w));
    } else if w > i {
        assert(!occurs_at(s, p, i));
    }
}

pub proof fn lemma_first_occurrence_none<T>(s: Seq<T>, p: Seq<T>, start: int)
    requires
        forall|j: int| start <= j ==> !#[trigger] occurs_at(s, p, j),
    ensures
        first_occurrence_from(s, p, start) is None,
{
    reveal(first_occurrence_from);
}

/// First index at or after `start` where `p` occurs in `s`.
pub fn find_chars(s: &[char], p: &[char], start: usize) -> (res: Option<usize>)
    ensures
        res == (match first_occurrence_from(s@, p@, start as int) {
            Some(i) => Some(i as usize),
            None => None::<usize>,
        }),
        res matches Some(i) ==> start <= i && occurs_at(s@, p@, i as int) && first_occurrence_from(s@, p@, start as int) == Some(i as int),
        res is None ==> first_occurrence_from(s@, p@, start as int) is None,
{
    if start > s.len() {
        proof {
            assert forall|j: int| start <= j implies !#[trigger] occurs_at(s@, p@, j) by {}
            lemma_first_occurrence_none(s@, p@, start as int);
        }
        return None;
    }
    let mut i = start;
    while i < s.len()
        invariant
            start <= i,
            i <= s.len(),
            forall|j: int| start <= j < i ==> !#[trigger] occurs_at(s@, p@, j),
        decreases s.len() - i,
    {
        if chars_occur_at(s, p, i) {
            proof { lemma_first_occurrence_is(s@, p@, start as int, i as int); }
            return Some(i);
        }
        i = i + 1;
    }
    if chars_occur_at(s, p, i) {
        proof { lemma_first_occurrence_is(s@, p@, start as int, i as int); }
        return Some(i);
    }
    proof {
        assert forall|j: int| start <= j implies !#[trigger] occurs_at(s@, p@, j) by {
            if j >= i { }
        }
        lemma_first_occurrence_none(s@, p@, start as int);
    }
    None
}

/// First index at or after `start` where `p` occurs in the byte sequence `s`.
pub fn find_bytes(s: &[u8], p: &[u8], start: usize) -> (res: Option<usize>)
    ensures
        res == (match first_occurrence_from(s@, p@, start as int) {
            Some(i) => Some(i as usize),
            None => None::<usize>,
        }),
        res matches Some(i) ==> start <= i && occurs_at(s@, p@, i as int) && first_occurrence_from(s@, p@, start as int) == Some(i as int),
        res is None ==> first_occurrence_from(s@, p@, start as int) is None,
{
    if start > s.len() {
        proof {
            assert forall|j: int| start <= j implies !#[trigger] occurs_at(s@, p@, j) by {}
            lemma_first_occurrence_none(s@, p@, start as int);
        }
        return None;
    }
    let mut i = start;
    while i < s.len()
        invariant
            start <= i,
            i <= s.len(),
            forall|j: int| start <= j < i ==> !#[trigger] occurs_at(s@, p@, j),
        decreases s.len() - i,
    {
        if bytes_occur_at(s, p, i) {
            proof { lemma_first_occurrence_is(s@, p@, start as int, i as int); }
            return Some(i);
        }
        i = i + 1;
    }
    if bytes_occur_at(s, p, i) {
        proof { lemma_first_occurrence_is(s@, p@, start as int, i as int); }
        return Some(i);
    }
    proof {
        assert forall|j: int| start <= j implies !#[trigger] occurs_at(s@, p@, j) by {
            if j >= i { }
        }
        lemma_first_occurrence_none(s@, p@, start as int);
    }
    None
}


/// Index of the first element of `s` equal to `x`.
pub open spec fn first_index<T>(s: Seq<T>, x: T) -> Option<int> {
    if exists|i: int| 0 <= i < s.len() && s[i] == x {
        Some(choose|i: int| 0 <= i < s.len() && s[i] == x && forall|j: int| 0 <= j < i ==> s[j] != x)
    } else {
        None
    }
}

/// The part of `s` before the first `x` (all of `s` when there is none).
pub open spec fn before_first<T>(s: Seq<T>, x: T) -> Seq<T> {
    match first_index(s, x) {
        Some(i) => s.take(i),
        None => s,
    }
}

pub proof fn lemma_first_index_is(s: Seq<u8>, x: u8, i: int)
    requires
        0 <= i < s.len(),
        s[i] == x,
        forall|j: int| 0 <= j < i ==> s[j] != x,
    ensures
        first_index(s, x) == Some(i),
{
    let w = choose|w: int| 0 <= w < s.len() && s[w] == x && forall|j: int| 0 <= j < w ==> s[j] != x;
    if w < i {
        assert(s[w] != x);
    } else if w > i {
        assert(s[i] != x);
    }
}

pub proof fn lemma_first_index_char_is(s: Seq<char>, x: char, i: int)
    requires
        0 <= i < s.len(),
        s[i] == x,
        forall|j: int| 0 <= j < i ==> s[j] != x,
    ensures
        first_index(s, x) == Some(i),
{
    let w = choose|w: int| 0 <= w < s.len() && s[w] == x && forall|j: int| 0 <= j < w ==> s[j] != x;
    if w < i {
        assert(s[w] != x);
    } else if w > i {
        assert(s[i] != x);
    }
}

/// Position of the first byte `x` in `s`.
pub fn first_index_byte(s: &[u8], x: u8) -> (res: Option<usize>)
    ensures
        res == (match first_index(s@, x) {
            Some(i) => Some(i as usize),
            None => None::<usize>,
        }),
        res matches Some(i) ==> i < s@.len() && s@[i as int] == x && forall|j: int| 0 <= j < i ==> s@[j] != x,
        res is None ==> forall|j: int| 0 <= j < s@.len() ==> s@[j] != x,
{
    let mut i: usize = 0;
    while i < s.len()
        invariant
            i <= s.len(),
            forall|j: int| 0 <= j < i ==> s@[j] != x,
        decreases s.len() - i,
    {
        if s[i] == x {
            proof { lemma_first_index_is(s@, x, i as int); }
            return Some(i);
        }
        i = i + 1;
    }
    None
}

/// Position of the first character `x` in `s`.
pub fn first_index_char(s: &[char], x: char) -> (res: Option<usize>)
    ensures
        res == (match first_index(s@, x) {
            Some(i) => Some(i as usize),
            None => None::<usize>,
        }),
        res matches Some(i) ==> i < s@.len() && s@[i as int] == x && forall|j: int| 0 <= j < i ==> s@[j] != x,
        res is None ==> forall|j: int| 0 <= j < s@.len() ==> s@[j] != x,
{
    let mut i: usize = 0;
    while i < s.len()
        invariant
            i <= s.len(),
            forall|j: int| 0 <= j < i ==> s@[j] != x,
        decreases s.len() - i,
    {
        if s[i] == x {
            proof { lemma_first_index_char_is(s@, x, i as int); }
            return Some(i);
        }
        i = i + 1;
    }
    None
}


/// The pieces of `s` between occurrences of `sep`, like `str::split` with a
/// one-character pattern: there is always at least one (possibly empty) piece.
pub open spec fn split_seq<T>(s: Seq<T>, sep: T) -> Seq<Seq<T>>
    decreases s.len(),
{
    if s.len() == 0 {
        seq![Seq::<T>::empty()]
    } else {
        let rest = split_seq(s.drop_last(), sep);
        if s.last() == sep {
            rest.push(Seq::<T>::empty())
        } else {
            rest.update(rest.len() - 1, rest.last().push(s.last()))
        }
    }
}

pub proof fn lemma_split_seq_nonempty<T>(s: Seq<T>, sep: T)
    ensures
        split_seq(s, sep).len() >= 1,
    decreases s.len(),
{
    if s.len() > 0 {
        lemma_split_seq_nonempty(s.drop_last(), sep);
    }
}

/// Extending a prefix by one element extends the last piece or starts a new one.
pub proof fn lemma_split_seq_step<T>(s: Seq<T>, sep: T, i: int)
    requires
        0 <= i < s.len(),
    ensures
        s.take(i + 1).drop_last() == s.take(i),
        s.take(i + 1).last() == s[i],
{
    assert(s.take(i + 1).drop_last() =~= s.take(i));
}

/// `s` with every trailing `c` removed (`str::trim_end_matches` with a char).
pub open spec fn trim_end_char(s: Seq<char>, c: char) -> Seq<char>
    decreases s.len(),
{
    if s.len() > 0 && s.last() == c {
        trim_end_char(s.drop_last(), c)
    } else {
        s
    }
}

pub fn trim_end_char_exec(s: &[char], c: char) -> (res: usize)
    ensures
        res <= s.len(),
        s@.take(res as int) == trim_end_char(s@, c),
{
    let mut n = s.len();
    assert(s@.take(n as int) =~= s@);
    while n > 0 && s[n - 1] == c
        invariant
            n <= s.len(),
            trim_end_char(s@.take(n as int), c) == trim_end_char(s@, c),
        decreases n,
    {
        assert(s@.take(n as int).drop_last() =~= s@.take(n - 1));
        n = n - 1;
    }
    n
}

/// Unicode `White_Space` characters (what `char::is_whitespace` accepts).
pub open spec fn is_unicode_whitespace(c: char) -> bool {
    ('\u{9}' <= c <= '\u{d}') || c == ' ' || c == '\u{85}' || c == '\u{a0}' || c == '\u{1680}'
        || ('\u{2000}' <= c <= '\u{200a}') || c == '\u{2028}' || c == '\u{2029}' || c
        == '\u{202f}' || c == '\u{205f}' || c == '\u{3000}'
}

pub fn is_whitespace_exec(c: char) -> (res: bool)
    ensures
        res == is_unicode_whitespace(c),
{
    ('\u{9}' <= c && c <= '\u{d}') || c == ' ' || c == '\u{85}' || c == '\u{a0}' || c == '\u{1680}'
        || ('\u{2000}' <= c && c <= '\u{200a}') || c == '\u{2028}' || c == '\u{2029}' || c
        == '\u{202f}' || c == '\u{205f}' || c == '\u{3000}'
}


/// `s` without leading Unicode white space.
pub open spec fn trim_start(s: Seq<char>) -> Seq<char>
    decreases s.len(),
{
    if s.len() > 0 && is_unicode_whitespace(s[0]) {
        trim_start(s.drop_first())
    } else {
        s
    }
}

/// `s` without trailing Unicode white space.
pub open spec fn trim_end(s: Seq<char>) -> Seq<char>
    decreases s.len(),
{
    if s.len() > 0 && is_unicode_whitespace(s.last()) {
        trim_end(s.drop_last())
    } else {
        s
    }
}

/// `str::trim`: both ends without Unicode white space.
pub open spec fn trim(s: Seq<char>) -> Seq<char> {
    trim_end(trim_start(s))
}

/// `str::trim` on a character slice, as the bounds of the kept range.
pub fn trim_bounds(s: &[char]) -> (res: (usize, usize))
    ensures
        res.0 <= res.1 <= s@.len(),
        s@.subrange(res.0 as int, res.1 as int) == trim(s@),
{
    let mut a: usize = 0;
    assert(s@.subrange(0, s@.len() as int) =~= s@);
    while a < s.len() && is_whitespace_exec(s[a])
        invariant
            a <= s.len(),
            trim_start(s@.subrange(a as int, s@.len() as int)) == trim_start(s@),
        decreases s.len() - a,
    {
        assert(s@.subrange(a as int, s@.len() as int).drop_first() =~= s@.subrange(a + 1, s@.len() as int));
        a = a + 1;
    }
    let mut b: usize = s.len();
    assert(trim_start(s@) == s@.subrange(a as int, s@.len() as int));
    while b > a && is_whitespace_exec(s[b - 1])
        invariant
            a <= b <= s.len(),
            trim_end(s@.subrange(a as int, b as int)) == trim(s@),
        decreases b,
    {
        assert(s@.subrange(a as int, b as int).drop_last() =~= s@.subrange(a as int, b - 1));
        b = b - 1;
    }
    (a, b)
}

/// `str::trim`, producing a new character vector.
pub fn trim_chars(s: &[char]) -> (res: Vec<char>)
    ensures
        res@ == trim(s@),
{
    let (a, b) = trim_bounds(s);
    let mut out: Vec<char> = Vec::new();
    let mut i = a;
    while i < b
        invariant
            a <= i <= b <= s@.len(),
            out@ == s@.subrange(a as int, i as int),
        decreases b - i,
    {
        out.push(s[i]);
        assert(s@.subrange(a as int, i + 1) =~= s@.subrange(a as int, i as int).push(s@[i as int]));
        i = i + 1;
    }
    out
}

pub open spec fn ascii_lower_char(c: char) -> char {
    if 'A' <= c <= 'Z' {
        (((c as u32) + 32) as u8) as char
    } else {
        c
    }
}

/// `str::to_ascii_lowercase`.
pub open spec fn ascii_lower(s: Seq<char>) -> Seq<char> {
    s.map_values(|c: char| ascii_lower_char(c))
}

pub fn ascii_lower_exec(s: &[char]) -> (res: Vec<char>)
    ensures
        res@ == ascii_lower(s@),
{
    let mut out: Vec<char> = Vec::new();
    let mut i: usize = 0;
    while i < s.len()
        invariant
            i <= s.len(),
            out@ == ascii_lower(s@.take(i as int)),
        decreases s.len() - i,
    {
        let c = s[i];
        let d = if 'A' <= c && c <= 'Z' { (((c as u32) + 32) as u8) as char } else { c };
        out.push(d);
        assert(ascii_lower(s@.take(i + 1)) =~= ascii_lower(s@.take(i as int)).push(ascii_lower_char(s@[i as int])));
        i = i + 1;
    }
    assert(s@.take(s@.len() as int) =~= s@);
    out
}

pub open spec fn decimal_digit_value(c: char) -> int {
    (c as u32) - ('0' as u32)
}

/// The value of a string of decimal digits.
pub open spec fn decimal_value(s: Seq<char>) -> int
    decreases s.len(),
{
    if s.len() == 0 {
        0
    } else {
        decimal_value(s.drop_last()) * 10 + decimal_digit_value(s.last())
    }
}

pub open spec fn all_decimal(s: Seq<char>) -> bool {
    forall|i: int| 0 <= i < s.len() ==> '0' <= #[trigger] s[i] <= '9'
}

/// `str::parse::<usize>`: an optional `+`, then one or more decimal digits
/// whose value fits in `usize`.
pub open spec fn parse_usize_spec(s: Seq<char>) -> Option<usize> {
    let digits = if s.len() > 0 && s[0] == '+' { s.drop_first() } else { s };
    if digits.len() > 0 && all_decimal(digits) && decimal_value(digits) <= usize::MAX {
        Some(decimal_value(digits) as usize)
    } else {
        None
    }
}

pub proof fn lemma_decimal_value_nonneg(s: Seq<char>)
    requires
        all_decimal(s),
    ensures
        decimal_value(s) >= 0,
    decreases s.len(),
{
    if s.len() > 0 {
        lemma_decimal_value_nonneg(s.drop_last());
    }
}

pub proof fn lemma_decimal_prefix_le(s: Seq<char>, k: int)
    requires
        all_decimal(s),
        0 <= k <= s.len(),
    ensures
        decimal_value(s.take(k)) <= decimal_value(s),
    decreases s.len(),
{
    if k < s.len() {
        let t = s.drop_last();
        assert(t.take(k) =~= s.take(k));
        lemma_decimal_prefix_le(t, k);
        lemma_decimal_value_nonneg(t);
    } else {
        assert(s.take(k) =~= s);
    }
}

pub fn parse_usize(s: &[char]) -> (res: Option<usize>)
    ensures
        res == parse_usize_spec(s@),
{
    let start: usize = if s.len() > 0 && s[0] == '+' { 1 } else { 0 };
    let ghost digits = s@.skip(start as int);
    assert(digits == if s@.len() > 0 && s@[0] == '+' { s@.drop_first() } else { s@ });
    if start >= s.len() {
        return None;
    }
    let mut value: usize = 0;
    let mut i = start;
    while i < s.len()
        invariant
            start <= i <= s.len(),
            digits == s@.skip(start as int),
            digits == (if s@.len() > 0 && s@[0] == '+' { s@.drop_first() } else { s@ }),
            all_decimal(s@.subrange(start as int, i as int)),
            value == decimal_value(s@.subrange(start as int, i as int)),
        decreases s.len() - i,
    {
        let c = s[i];
        assert(s@.subrange(start as int, i + 1).drop_last() =~= s@.subrange(start as int, i as int));
        if !('0' <= c && c <= '9') {
            proof {
                assert(!all_decimal(digits)) by {
                    assert(digits[i - start] == c);
                }
            }
            return None;
        }
        let d = (c as u32 - '0' as u32) as usize;
        proof { lemma_decimal_value_nonneg(s@.subrange(start as int, i as int)); }
        if value > (usize::MAX - d) / 10 {
            proof {
                let whole = s@.subrange(start as int, s@.len() as int);
                assert(whole =~= digits);
                assert(decimal_value(s@.subrange(start as int, i + 1)) > usize::MAX);
                if all_decimal(whole) {
                    assert(whole.take(i + 1 - start) =~= s@.subrange(start as int, i + 1));
                    lemma_decimal_prefix_le(whole, i + 1 - start);
                }
            }
            return None;
        }
        value = value * 10 + d;
        i = i + 1;
    }
    assert(s@.subrange(start as int, s@.len() as int) =~= digits);
    Some(value)
}


/// `str::parse::<u64>`: an optional `+`, then one or more decimal digits
/// whose value fits in `u64`.
pub open spec fn parse_u64_spec(s: Seq<char>) -> Option<u64> {
    let digits = if s.len() > 0 && s[0] == '+' { s.drop_first() } else { s };
    if digits.len() > 0 && all_decimal(digits) && decimal_value(digits) <= u64::MAX {
        Some(decimal_value(digits) as u64)
    } else {
        None
    }
}

pub fn parse_u64(s: &[char]) -> (res: Option<u64>)
    ensures
        res == parse_u64_spec(s@),
{
    let start: usize = if s.len() > 0 && s[0] == '+' { 1 } else { 0 };
    let ghost digits = s@.skip(start as int);
    assert(digits == if s@.len() > 0 && s@[0] == '+' { s@.drop_first() } else { s@ });
    if start >= s.len() {
        return None;
    }
    let mut value: u64 = 0;
    let mut i = start;
    while i < s.len()
        invariant
            start <= i <= s.len(),
            digits == s@.skip(start as int),
            digits == (if s@.len() > 0 && s@[0] == '+' { s@.drop_first() } else { s@ }),
            all_decimal(s@.subrange(start as int, i as int)),
            value == decimal_value(s@.subrange(start as int, i as int)),
        decreases s.len() - i,
    {
        let c = s[i];
        assert(s@.subrange(start as int, i + 1).drop_last() =~= s@.subrange(start as int, i as int));
        if !('0' <= c && c <= '9') {
            proof {
                assert(!all_decimal(digits)) by {
                    assert(digits[i - start] == c);
                }
            }
            return None;
        }
        let d = (c as u32 - '0' as u32) as u64;
        proof { lemma_decimal_value_nonneg(s@.subrange(start as int, i as int)); }
        if value > (u64::MAX - d) / 10 {
            proof {
                let whole = s@.subrange(start as int, s@.len() as int);
                assert(whole =~= digits);
                assert(decimal_value(s@.subrange(start as int, i + 1)) > u64::MAX);
                if all_decimal(whole) {
                    assert(whole.take(i + 1 - start) =~= s@.subrange(start as int, i + 1));
                    lemma_decimal_prefix_le(whole, i + 1 - start);
                }
            }
            return None;
        }
        value = value * 10 + d;
        i = i + 1;
    }
    assert(s@.subrange(start as int, s@.len() as int) =~= digits);
    Some(value)
}


pub open spec fn is_hex_digit_char(c: char) -> bool {
    ('0' <= c <= '9') || ('a' <= c <= 'f') || ('A' <= c <= 'F')
}

pub open spec fn hex_digit_value(c: char) -> int {
    if '0' <= c <= '9' {
        (c as u32) - ('0' as u32)
    } else if 'a' <= c <= 'f' {
        (c as u32) - ('a' as u32) + 10
    } else {
        (c as u32) - ('A' as u32) + 10
    }
}

/// The value of a string of hexadecimal digits.
pub open spec fn hex_value(s: Seq<char>) -> int
    decreases s.len(),
{
    if s.len() == 0 {
        0
    } else {
        hex_value(s.drop_last()) * 16 + hex_digit_value(s.last())
    }
}

pub open spec fn all_hex(s: Seq<char>) -> bool {
    forall|i: int| 0 <= i < s.len() ==> is_hex_digit_char(#[trigger] s[i])
}

/// `usize::from_str_radix(s, 16)`: an optional `+`, then one or more hex
/// digits of either case whose value fits in `usize`.
pub open spec fn parse_hex_usize_spec(s: Seq<char>) -> Option<usize> {
    let digits = if s.len() > 0 && s[0] == '+' { s.drop_first() } else { s };
    if digits.len() > 0 && all_hex(digits) && hex_value(digits) <= usize::MAX {
        Some(hex_value(digits) as usize)
    } else {
        None
    }
}

pub proof fn lemma_hex_value_nonneg(s: Seq<char>)
    requires
        all_hex(s),
    ensures
        hex_value(s) >= 0,
    decreases s.len(),
{
    if s.len() > 0 {
        lemma_hex_value_nonneg(s.drop_last());
    }
}

pub proof fn lemma_hex_prefix_le(s: Seq<char>, k: int)
    requires
        all_hex(s),
        0 <= k <= s.len(),
    ensures
        hex_value(s.take(k)) <= hex_value(s),
    decreases s.len(),
{
    if k < s.len() {
        let t = s.drop_last();
        assert(t.take(k) =~= s.take(k));
        lemma_hex_prefix_le(t, k);
        lemma_hex_value_nonneg(t);
    } else {
        assert(s.take(k) =~= s);
    }
}

pub fn parse_hex_usize(s: &[char]) -> (res: Option<usize>)
    ensures
        res == parse_hex_usize_spec(s@),
{
    let start: usize = if s.len() > 0 && s[0] == '+' { 1 } else { 0 };
    let ghost digits = s@.skip(start as int);
    assert(digits == if s@.len() > 0 && s@[0] == '+' { s@.drop_first() } else { s@ });
    if start >= s.len() {
        return None;
    }
    let mut value: usize = 0;
    let mut i = start;
    while i < s.len()
        invariant
            start <= i <= s.len(),
            digits == s@.skip(start as int),
            digits == (if s@.len() > 0 && s@[0] == '+' { s@.drop_first() } else { s@ }),
            all_hex(s@.subrange(start as int, i as int)),
            value == hex_value(s@.subrange(start as int, i as int)),
        decreases s.len() - i,
    {
        let c = s[i];
        assert(s@.subrange(start as int, i + 1).drop_last() =~= s@.subrange(start as int, i as int));
        let d: usize = if '0' <= c && c <= '9' {
            (c as u32 - '0' as u32) as usize
        } else if 'a' <= c && c <= 'f' {
            (c as u32 - 'a' as u32 + 10) as usize
        } else if 'A' <= c && c <= 'F' {
            (c as u32 - 'A' as u32 + 10) as usize
        } else {
            proof {
                assert(!all_hex(digits)) by {
                    assert(digits[i - start] == c);
                }
            }
            return None;
        };
        proof { lemma_hex_value_nonneg(s@.subrange(start as int, i as int)); }
        if value > (usize::MAX - d) / 16 {
            proof {
                let whole = s@.subrange(start as int, s@.len() as int);
                assert(whole =~= digits);
                assert(hex_value(s@.subrange(start as int, i + 1)) > usize::MAX);
                if all_hex(whole) {
                    assert(whole.take(i + 1 - start) =~= s@.subrange(start as int, i + 1));
                    lemma_hex_prefix_le(whole, i + 1 - start);
                }
            }
            return None;
        }
        value = value * 16 + d;
        i = i + 1;
    }
    assert(s@.subrange(start as int, s@.len() as int) =~= digits);
    Some(value)
}

/// Decodes UTF-8 bytes with `std::str::from_utf8`.
///
/// Trusted: `from_utf8` accepts exactly the valid UTF-8 byte sequences
/// (vstd's `valid_utf8`) and yields the characters they encode.
#[verifier::external_body]
pub(crate) fn utf8_decode(bytes: &[u8]) -> (res: Option<Vec<char>>)
    ensures
        match res {
            Some(chars) => vstd::utf8::valid_utf8(bytes@) && chars@ == vstd::utf8::decode_utf8(bytes@),
            None => !vstd::utf8::valid_utf8(bytes@),
        },
{
    std::str::from_utf8(bytes).ok().map(|text| text.chars().collect())
}

/// Whether some `sep`-separated piece of `s`, trimmed, equals `target`
/// (as in `value.split(',').any(|part| part.trim() == target)`).
pub open spec fn some_piece_trims_to(s: Seq<char>, sep: char, target: Seq<char>) -> bool {
    exists|i: int| 0 <= i < split_seq(s, sep).len() && #[trigger] trim(split_seq(s, sep)[i]) == target
}

pub fn some_piece_trims_to_exec(s: &[char], sep: char, target: &[char]) -> (res: bool)
    ensures
        res == some_piece_trims_to(s@, sep, target@),
{
    let ghost sv = s@;
    let mut start: usize = 0;
    let mut found = false;
    let mut i: usize = 0;
    assert(sv.take(0) =~= Seq::<char>::empty());
    while i < s.len()
        invariant
            i <= s.len(),
            start <= i,
            sv == s@,
            split_seq(sv.take(i as int), sep).len() >= 1,
            split_seq(sv.take(i as int), sep).last() == sv.subrange(start as int, i as int),
            found == exists|j: int| 0 <= j < split_seq(sv.take(i as int), sep).len() - 1
                && #[trigger] trim(split_seq(sv.take(i as int), sep)[j]) == target@,
        decreases s.len() - i,
    {
        let ghost before = split_seq(sv.take(i as int), sep);
        proof { lemma_split_seq_step(sv, sep, i as int); }
        if s[i] == sep {
            let piece = trim_chars(&s[start..i]);
            let hit = chars_eq(piece.as_slice(), target);
            let ghost after = split_seq(sv.take(i + 1), sep);
            assert(after == before.push(Seq::<char>::empty()));
            proof {
                assert forall|j: int| 0 <= j < after.len() - 1 implies after[j] == before[j] by {}
                if found {
                    let w = choose|j: int| 0 <= j < before.len() - 1 && #[trigger] trim(before[j]) == target@;
                    assert(after[w] == before[w]);
                }
                if hit {
                    assert(after[before.len() - 1] == before.last());
                }
                if !found && !hit {
                    assert forall|j: int| 0 <= j < after.len() - 1 implies #[trigger] trim(after[j]) != target@ by {
                        assert(after[j] == before[j]);
                    }
                }
            }
            found = found || hit;
            start = i + 1;
            assert(sv.subrange(start as int, i + 1) =~= Seq::<char>::empty());
        } else {
            let ghost after = split_seq(sv.take(i + 1), sep);
            assert(after == before.update(before.len() - 1, before.last().push(sv[i as int])));
            assert(sv.subrange(start as int, i + 1) =~= sv.subrange(start as int, i as int).push(sv[i as int]));
            proof {
                assert forall|j: int| 0 <= j < after.len() - 1 implies after[j] == before[j] by {}
                if found {
                    let w = choose|j: int| 0 <= j < before.len() - 1 && #[trigger] trim(before[j]) == target@;
                    assert(after[w] == before[w]);
                }
                if !found {
                    assert forall|j: int| 0 <= j < after.len() - 1 implies #[trigger] trim(after[j]) != target@ by {
                        assert(after[j] == before[j]);
                    }
                }
            }
        }
        i = i + 1;
    }
    let last_piece = trim_chars(&s[start..s.len()]);
    let last_hit = chars_eq(last_piece.as_slice(), target);
    proof {
        assert(sv.take(s.len() as int) =~= sv);
        let parts = split_seq(sv, sep);
        if found {
            let w = choose|j: int| 0 <= j < parts.len() - 1 && #[trigger] trim(parts[j]) == target@;
            assert(0 <= w < parts.len());
        }
        if last_hit {
            assert(trim(parts[parts.len() - 1]) == target@);
        }
        if !found && !last_hit {
            assert forall|j: int| 0 <= j < parts.len() implies #[trigger] trim(parts[j]) != target@ by {
                if j < parts.len() - 1 {
                } else {
                }
            }
        }
    }
    found || last_hit
}


proof fn lemma_min_occurrence<T>(s: Seq<T>, p: Seq<T>, start: int, w: int)
    requires
        start <= w,
        occurs_at(s, p, w),
    ensures
        exists|i: int| start <= i && occurs_at(s, p, i) && forall|j: int| start <= j < i ==> !#[trigger] occurs_at(s, p, j),
    decreases w - start,
{
    if exists|j: int| start <= j < w && #[trigger] occurs_at(s, p, j) {
        let j = choose|j: int| start <= j < w && #[trigger] occurs_at(s, p, j);
        lemma_min_occurrence(s, p, start, j);
    } else {
        assert(start <= w && occurs_at(s, p, w) && forall|j: int| start <= j < w ==> !#[trigger] occurs_at(s, p, j));
    }
}

pub proof fn lemma_first_occurrence_from<T>(s: Seq<T>, p: Seq<T>, start: int)
    ensures
        match first_occurrence_from(s, p, start) {
            Some(i) => start <= i && occurs_at(s, p, i) && forall|j: int| start <= j < i ==> !#[trigger] occurs_at(s, p, j),
            None => forall|j: int| start <= j ==> !#[trigger] occurs_at(s, p, j),
        },
{
    reveal(first_occurrence_from);
    if exists|i: int| start <= i && #[trigger] occurs_at(s, p, i) {
        let w = choose|i: int| start <= i && #[trigger] occurs_at(s, p, i);
        lemma_min_occurrence(s, p, start, w);
    }
}


proof fn lemma_min_index<T>(s: Seq<T>, x: T, w: int)
    requires
        0 <= w < s.len(),
        s[w] == x,
    ensures
        exists|i: int| 0 <= i < s.len() && s[i] == x && forall|j: int| 0 <= j < i ==> s[j] != x,
    decreases w,
{
    if exists|j: int| 0 <= j < w && s[j] == x {
        let j = choose|j: int| 0 <= j < w && s[j] == x;
        lemma_min_index(s, x, j);
    }
}

pub proof fn lemma_first_index<T>(s: Seq<T>, x: T)
    ensures
        match first_index(s, x) {
            Some(i) => 0 <= i < s.len() && s[i] == x && forall|j: int| 0 <= j < i ==> s[j] != x,
            None => forall|j: int| 0 <= j < s.len() ==> s[j] != x,
        },
{
    if exists|i: int| 0 <= i < s.len() && s[i] == x {
        let w = choose|i: int| 0 <= i < s.len() && s[i] == x;
        lemma_min_index(s, x, w);
    }
}


pub proof fn lemma_occurs_shift<T>(s: Seq<T>, p: Seq<T>, c: int, j: int)
    requires
        0 <= c <= s.len(),
        0 <= j,
    ensures
        occurs_at(s.skip(c), p, j) == occurs_at(s, p, c + j),
{
    if j + p.len() <= s.len() - c {
        assert(s.skip(c).subrange(j, j + p.len()) =~= s.subrange(c + j, c + j + p.len()));
    }
}

/// Searching a suffix is searching the whole from the suffix's start.
pub proof fn lemma_occurrence_shift<T>(s: Seq<T>, p: Seq<T>, c: int)
    requires
        0 <= c <= s.len(),
    ensures
        first_occurrence_from(s.skip(c), p, 0) == (match first_occurrence_from(s, p, c) {
            Some(i) => Some(i - c),
            None => None::<int>,
        }),
{
    let t = s.skip(c);
    lemma_first_occurrence_from(t, p, 0);
    lemma_first_occurrence_from(s, p, c);
    match first_occurrence_from(s, p, c) {
        Some(i) => {
            lemma_occurs_shift(s, p, c, i - c);
            match first_occurrence_from(t, p, 0) {
                Some(w) => {
                    lemma_occurs_shift(s, p, c, w);
                    if w < i - c {
                        assert(!occurs_at(s, p, c + w));
                    }
                    if w > i - c {
                        assert(!occurs_at(t, p, i - c));
                    }
                },
                None => {
                    assert(!occurs_at(t, p, i - c));
                },
            }
        },
        None => {
            match first_occurrence_from(t, p, 0) {
                Some(w) => {
                    lemma_occurs_shift(s, p, c, w);
                    assert(!occurs_at(s, p, c + w));
                },
                None => {},
            }
        },
    }
}


/// Decimal text of a natural number, without leading zeros.
pub open spec fn decimal_text(n: nat) -> Seq<char>
    decreases n,
{
    if n < 10 {
        seq![((n + 48) as u8) as char]
    } else {
        decimal_text(n / 10).push((((n % 10) + 48) as u8) as char)
    }
}

/// Decimal text of a `u64` (what `format!("{}", n)` writes).
pub fn u64_text(n: u64) -> (res: Vec<char>)
    ensures
        res@ == decimal_text(n as nat),
    decreases n,
{
    if n < 10 {
        let mut v: Vec<char> = Vec::new();
        v.push(((n as u8) + 48) as char);
        v
    } else {
        let mut v = u64_text(n / 10);
        let d = (n % 10) as u8;
        v.push((d + 48) as char);
        v
    }
}

/// Decimal text of a `u128`.
pub fn u128_text(n: u128) -> (res: Vec<char>)
    ensures
        res@ == decimal_text(n as nat),
    decreases n,
{
    if n < 10 {
        let mut v: Vec<char> = Vec::new();
        v.push(((n as u8) + 48) as char);
        v
    } else {
        let mut v = u128_text(n / 10);
        let d = (n % 10) as u8;
        v.push((d + 48) as char);
        v
    }
}

/// Sub-sequence helper: the first `n` characters of `s` (or all of them).
pub fn take_chars(s: &[char], n: usize) -> (res: Vec<char>)
    ensures
        res@ == s@.take(if n <= s@.len() { n as int } else { s@.len() as int }),
{
    let end = if n <= s.len() { n } else { s.len() };
    let mut out: Vec<char> = Vec::new();
    let mut i: usize = 0;
    while i < end
        invariant
            i <= end <= s@.len(),
            out@ == s@.take(i as int),
        decreases end - i,
    {
        out.push(s[i]);
        assert(s@.take(i + 1) =~= s@.take(i as int).push(s@[i as int]));
        i = i + 1;
    }
    out
}


/// The pieces of `s` between occurrences of `sep` (`str::split` with a
/// character).
pub fn split_char(s: &[char], sep: char) -> (res: Vec<Vec<char>>)
    ensures
        res@.len() == split_seq(s@, sep).len(),
        forall|i: int| 0 <= i < res@.len() ==> #[trigger] res@[i]@ == split_seq(s@, sep)[i],
{
    let ghost sv = s@;
    let mut out: Vec<Vec<char>> = Vec::new();
    let mut start: usize = 0;
    let mut i: usize = 0;
    assert(sv.take(0) =~= Seq::<char>::empty());
    while i < s.len()
        invariant
            i <= s.len(),
            start <= i,
            sv == s@,
            split_seq(sv.take(i as int), sep).len() >= 1,
            split_seq(sv.take(i as int), sep).last() == sv.subrange(start as int, i as int),
            out@.len() == split_seq(sv.take(i as int), sep).len() - 1,
            forall|j: int| 0 <= j < out@.len() ==> #[trigger] out@[j]@ == split_seq(sv.take(i as int), sep)[j],
        decreases s.len() - i,
    {
        let ghost before = split_seq(sv.take(i as int), sep);
        proof { lemma_split_seq_step(sv, sep, i as int); }
        if s[i] == sep {
            let piece = copy_chars(&s[start..i]);
            let ghost after = split_seq(sv.take(i + 1), sep);
            assert(after == before.push(Seq::<char>::empty()));
            out.push(piece);
            start = i + 1;
            assert(sv.subrange(start as int, i + 1) =~= Seq::<char>::empty());
        } else {
            let ghost after = split_seq(sv.take(i + 1), sep);
            assert(after == before.update(before.len() - 1, before.last().push(sv[i as int])));
            assert(sv.subrange(start as int, i + 1) =~= sv.subrange(start as int, i as int).push(sv[i as int]));
        }
        i = i + 1;
    }
    let last_piece = copy_chars(&s[start..s.len()]);
    out.push(last_piece);
    assert(sv.take(s.len() as int) =~= sv);
    out
}

/// A copy of a character slice.
pub fn copy_chars(s: &[char]) -> (res: Vec<char>)
    ensures
        res@ == s@,
{
    let mut out: Vec<char> = Vec::new();
    let mut i: usize = 0;
    while i < s.len()
        invariant
            i <= s@.len(),
            out@ == s@.take(i as int),
        decreases s.len() - i,
    {
        out.push(s[i]);
        assert(s@.take(i + 1) =~= s@.take(i as int).push(s@[i as int]));
        i = i + 1;
    }
    assert(s@.take(s@.len() as int) =~= s@);
    out
}


/// The first index at or after `i` that is not whitespace (or the end).
pub open spec fn skip_ws(s: Seq<char>, i: int) -> int
    decreases s.len() - i,
{
    if 0 <= i < s.len() && is_unicode_whitespace(s[i]) {
        skip_ws(s, i + 1)
    } else {
        i
    }
}

/// The first index at or after `i` that is whitespace (or the end).
pub open spec fn skip_word(s: Seq<char>, i: int) -> int
    decreases s.len() - i,
{
    if 0 <= i < s.len() && !is_unicode_whitespace(s[i]) {
        skip_word(s, i + 1)
    } else {
        i
    }
}

/// The `n`-th whitespace-separated token of `s` from index `i`
/// (`split_whitespace().nth(n)`).
pub open spec fn ws_token(s: Seq<char>, i: int, n: nat) -> Option<Seq<char>>
    decreases n,
{
    let a = skip_ws(s, i);
    if a >= s.len() {
        None
    } else if n == 0 {
        Some(s.subrange(a, skip_word(s, a)))
    } else {
        ws_token(s, skip_word(s, a), (n - 1) as nat)
    }
}

proof fn lemma_skip_bounds(s: Seq<char>, i: int)
    requires
        0 <= i <= s.len(),
    ensures
        i <= skip_ws(s, i) <= s.len(),
        i <= skip_word(s, i) <= s.len(),
    decreases s.len() - i,
{
    if i < s.len() {
        lemma_skip_bounds(s, i + 1);
    }
}

/// `split_whitespace().nth(n)`.
pub fn ws_token_exec(s: &[char], n: usize) -> (res: Option<Vec<char>>)
    ensures
        match res {
            Some(t) => ws_token(s@, 0, n as nat) == Some(t@),
            None => ws_token(s@, 0, n as nat) is None,
        },
{
    let mut i: usize = 0;
    let mut k: usize = 0;
    loop
        invariant
            i <= s@.len(),
            k <= n,
            ws_token(s@, 0, n as nat) == ws_token(s@, i as int, (n - k) as nat),
        decreases s@.len() - i,
    {
        let start = i;
        while i < s.len() && is_whitespace_exec(s[i])
            invariant
                start <= i <= s@.len(),
                skip_ws(s@, start as int) == skip_ws(s@, i as int),
            decreases s@.len() - i,
        {
            i = i + 1;
        }
        if i >= s.len() {
            return None;
        }
        let a = i;
        while i < s.len() && !is_whitespace_exec(s[i])
            invariant
                a <= i <= s@.len(),
                skip_word(s@, a as int) == skip_word(s@, i as int),
            decreases s@.len() - i,
        {
            i = i + 1;
        }
        if k == n {
            return Some(copy_chars(&s[a..i]));
        }
        k = k + 1;
    }
}


/// Whether two byte strings are equal.
pub fn bytes_eq(a: &[u8], b: &[u8]) -> (res: bool)
    ensures
        res == (a@ == b@),
{
    if a.len() != b.len() {
        return false;
    }
    let r = bytes_occur_at(a, b, 0);
    proof {
        if r {
            assert(a@.subrange(0, b@.len() as int) =~= a@);
        } else {
            assert(a@.subrange(0, b@.len() as int) =~= a@);
        }
    }
    r
}


/// `s` split at the first `c`, without it (`str::split_once`).
pub open spec fn split_once(s: Seq<char>, c: char) -> Option<(Seq<char>, Seq<char>)> {
    match first_index(s, c) {
        Some(i) => Some((s.take(i), s.skip(i + 1))),
        None => None,
    }
}

pub fn split_once_exec(s: &[char], c: char) -> (res: Option<(Vec<char>, Vec<char>)>)
    ensures
        match res {
            Some((a, b)) => split_once(s@, c) == Some((a@, b@)),
            None => split_once(s@, c) is None,
        },
{
    let len = s.len();
    match first_index_char(s, c) {
        None => None,
        Some(i) => {
            let a = copy_chars(&s[0..i]);
            let b = copy_chars(&s[i + 1..len]);
            assert(a@ =~= s@.take(i as int));
            assert(b@ =~= s@.skip(i + 1));
            Some((a, b))
        },
    }
}

} // verus!
