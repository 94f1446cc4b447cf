//! Character-level text operations and what they mean.
//!
//! A text is a sequence of characters. Every function here works on a slice of
//! characters and is described by a spec function on `Seq<char>`; the other
//! modules state their contracts with these spec functions.

use vstd::prelude::*;
use vstd::slice::slice_subrange;

verus! {

/// `String::push` appends the character to the end of the string.
pub assume_specification[ String::push ](s: &mut String, c: char)
    ensures
        final(s)@ == old(s)@.push(c),
;

/// The characters of `s`, in order.
pub fn chars_of(s: &str) -> (r: Vec<char>)
    ensures
        r@ == s@,
{
    let mut v: Vec<char> = Vec::new();
    for c in it: s.chars()
        invariant
            it.seq() == s@,
            v@ == s@.take(it.index() as int),
    {
        v.push(c);
        assert(s@.take(it.index() as int + 1) =~= s@.take(it.index() as int).push(c));
    }
    assert(s@.take(s@.len() as int) =~= s@);
    v
}

/// Appends the characters of `s` to `out`.
pub fn push_chars(out: &mut String, s: &[char])
    ensures
        final(out)@ == old(out)@ + s@,
{
    let mut i: usize = 0;
    assert(old(out)@ + s@.take(0) =~= old(out)@);
    while i < s.len()
        invariant
            i <= s@.len(),
            out@ == old(out)@ + s@.take(i as int),
        decreases s@.len() - i,
    {
        out.push(s[i]);
        assert(s@.take(i + 1) =~= s@.take(i as int).push(s@[i as int]));
        assert(out@ =~= old(out)@ + s@.take(i + 1));
        i += 1;
    }
    assert(s@.take(s@.len() as int) =~= s@);
}

/// The string that holds the characters of `s`.
pub fn string_of(s: &[char]) -> (r: String)
    ensures
        r@ == s@,
{
    let mut out = String::new();
    push_chars(&mut out, s);
    assert(Seq::<char>::empty() + s@ =~= s@);
    out
}


// ---------------------------------------------------------------------------
// Comparison
// ---------------------------------------------------------------------------

/// Whether two texts are the same.
pub fn same(a: &[char], b: &[char]) -> (r: bool)
    ensures
        r == (a@ == b@),
{
    if a.len() != b.len() {
        return false;
    }
    let mut i: usize = 0;
    while i < a.len()
        invariant
            i <= a@.len(),
            a@.len() == b@.len(),
            forall|j: int| 0 <= j < i ==> a@[j] == b@[j],
        decreases a@.len() - i,
    {
        if a[i] != b[i] {
            return false;
        }
        i += 1;
    }
    assert(a@ =~= b@);
    true
}

/// Whether two strings hold the same text.
pub fn same_str(a: &str, b: &str) -> (r: bool)
    ensures
        r == (a@ == b@),
{
    let x = chars_of(a);
    let y = chars_of(b);
    same(x.as_slice(), y.as_slice())
}

/// Whether `s` is the text of the string `lit`.
pub fn is_text(s: &[char], lit: &str) -> (r: bool)
    ensures
        r == (s@ == lit@),
{
    let l = chars_of(lit);
    same(s, l.as_slice())
}

/// The ASCII lower-case form of a character; every other character is its own.
pub open spec fn lower(c: char) -> char {
    if 'A' <= c <= 'Z' {
        ((c as u32) + 32) as char
    } else {
        c
    }
}

/// A text with its ASCII letters in lower case.
pub open spec fn lower_text(s: Seq<char>) -> Seq<char> {
    s.map_values(|c: char| lower(c))
}

/// `lower`, computed.
pub fn lower_char(c: char) -> (r: char)
    ensures
        r == lower(c),
{
    if 'A' <= c && c <= 'Z' {
        ((c as u8) + 32) as char
    } else {
        c
    }
}

/// `lower_text`, computed.
pub fn lowered(s: &[char]) -> (r: Vec<char>)
    ensures
        r@ == lower_text(s@),
{
    let mut out: Vec<char> = Vec::new();
    let mut i: usize = 0;
    while i < s.len()
        invariant
            i <= s@.len(),
            out@.len() == i,
            forall|j: int| 0 <= j < i ==> out@[j] == lower(s@[j]),
        decreases s@.len() - i,
    {
        out.push(lower_char(s[i]));
        i += 1;
    }
    assert(out@ =~= lower_text(s@));
    out
}

/// Whether two texts differ at most in the case of ASCII letters.
pub fn same_ignoring_case(a: &[char], b: &[char]) -> (r: bool)
    ensures
        r == (lower_text(a@) == lower_text(b@)),
{
    if a.len() != b.len() {
        assert(lower_text(a@).len() != lower_text(b@).len());
        return false;
    }
    let mut i: usize = 0;
    while i < a.len()
        invariant
            i <= a@.len(),
            a@.len() == b@.len(),
            forall|j: int| 0 <= j < i ==> lower(a@[j]) == lower(b@[j]),
        decreases a@.len() - i,
    {
        if lower_char(a[i]) != lower_char(b[i]) {
            assert(lower_text(a@)[i as int] != lower_text(b@)[i as int]);
            return false;
        }
        i += 1;
    }
    assert(lower_text(a@) =~= lower_text(b@));
    true
}

// ---------------------------------------------------------------------------
// White space
// ---------------------------------------------------------------------------

/// The characters with the Unicode property `White_Space`.
pub open spec fn is_space(c: char) -> bool {
    let n = c as u32;
    ||| 0x9 <= n <= 0xD
    ||| n == 0x20
    ||| n == 0x85
    ||| n == 0xA0
    ||| n == 0x1680
    ||| 0x2000 <= n <= 0x200A
    ||| n == 0x2028
    ||| n == 0x2029
    ||| n == 0x202F
    ||| n == 0x205F
    ||| n == 0x3000
}

/// `is_space`, computed.
pub fn is_space_char(c: char) -> (r: bool)
    ensures
        r == is_space(c),
{
    let n: u32 = c as u32;
    (0x9 <= n && n <= 0xD) || n == 0x20 || n == 0x85 || n == 0xA0 || n == 0x1680 || (0x2000 <= n
        && n <= 0x200A) || n == 0x2028 || n == 0x2029 || n == 0x202F || n == 0x205F || n == 0x3000
}

/// A text without the white space at its start.
pub open spec fn trim_start(s: Seq<char>) -> Seq<char>
    decreases s.len(),
{
    if s.len() > 0 && is_space(s[0]) {
        trim_start(s.drop_first())
    } else {
        s
    }
}

/// A text without the white space at its end.
pub open spec fn trim_end(s: Seq<char>) -> Seq<char>
    decreases s.len(),
{
    if s.len() > 0 && is_space(s.last()) {
        trim_end(s.drop_last())
    } else {
        s
    }
}

/// A text without the white space at its two ends.
pub open spec fn trim(s: Seq<char>) -> Seq<char> {
    trim_end(trim_start(s))
}

/// Whether a text holds nothing but white space.
pub open spec fn is_blank(s: Seq<char>) -> bool {
    trim(s).len() == 0
}

/// A trimmed text has no white space at its ends, and a text without any there is trimmed.
pub proof fn lemma_trim(s: Seq<char>)
    ensures
        trim(s).len() > 0 ==> !is_space(trim(s)[0]) && !is_space(trim(s).last()),
        s.len() == 0 || (!is_space(s[0]) && !is_space(s.last())) ==> trim(s) == s,
{
    lemma_trim_start(s);
    lemma_trim_end(trim_start(s));
}

proof fn lemma_trim_start(s: Seq<char>)
    ensures
        trim_start(s).len() > 0 ==> !is_space(trim_start(s)[0]),
    decreases s.len(),
{
    if s.len() > 0 && is_space(s[0]) {
        lemma_trim_start(s.drop_first());
    }
}

proof fn lemma_trim_end(s: Seq<char>)
    ensures
        trim_end(s).len() > 0 ==> !is_space(trim_end(s).last()) && trim_end(s)[0] == s[0],
    decreases s.len(),
{
    if s.len() > 0 && is_space(s.last()) {
        lemma_trim_end(s.drop_last());
    }
}

/// `trim_start`, computed.
pub fn trimmed_start(s: &[char]) -> (r: &[char])
    ensures
        r@ == trim_start(s@),
{
    let mut i: usize = 0;
    assert(s@.skip(0) =~= s@);
    while i < s.len() && is_space_char(s[i])
        invariant
            i <= s@.len(),
            trim_start(s@) == trim_start(s@.skip(i as int)),
        decreases s@.len() - i,
    {
        assert(s@.skip(i as int).drop_first() =~= s@.skip(i + 1));
        i += 1;
    }
    assert(s@.subrange(i as int, s@.len() as int) =~= s@.skip(i as int));
    slice_subrange(s, i, s.len())
}

/// `trim_end`, computed.
pub fn trimmed_end(s: &[char]) -> (r: &[char])
    ensures
        r@ == trim_end(s@),
{
    let mut n: usize = s.len();
    assert(s@.take(n as int) =~= s@);
    while n > 0 && is_space_char(s[n - 1])
        invariant
            n <= s@.len(),
            trim_end(s@) == trim_end(s@.take(n as int)),
        decreases n,
    {
        assert(s@.take(n as int).drop_last() =~= s@.take(n - 1));
        n -= 1;
    }
    assert(s@.subrange(0, n as int) =~= s@.take(n as int));
    slice_subrange(s, 0, n)
}

/// `trim`, computed.
pub fn trimmed(s: &[char]) -> (r: &[char])
    ensures
        r@ == trim(s@),
{
    trimmed_end(trimmed_start(s))
}

/// The text of `s` without the white space at its two ends.
pub fn trimmed_string(s: &str) -> (r: String)
    ensures
        r@ == trim(s@),
{
    let v = chars_of(s);
    string_of(trimmed(v.as_slice()))
}

/// Whether the string holds nothing but white space.
pub fn blank(s: &str) -> (r: bool)
    ensures
        r == is_blank(s@),
{
    let v = chars_of(s);
    trimmed(v.as_slice()).len() == 0
}

/// A text without the characters `c` at its end.
pub open spec fn trim_end_char(s: Seq<char>, c: char) -> Seq<char>
    decreases s.len(),
{
    if s.len() > 0 && s.last() == c {
        trim_end_char(s.drop_last(), c)
    } else {
        s
    }
}

pub proof fn lemma_trim_end_char_is_prefix(s: Seq<char>, c: char)
    ensures
        trim_end_char(s, c).len() <= s.len(),
        trim_end_char(s, c) == s.take(trim_end_char(s, c).len() as int),
        trim_end_char(s, c).len() > 0 ==> trim_end_char(s, c).last() != c,
    decreases s.len(),
{
    if s.len() > 0 && s.last() == c {
        lemma_trim_end_char_is_prefix(s.drop_last(), c);
        let n = trim_end_char(s, c).len() as int;
        assert(s.drop_last().take(n) =~= s.take(n));
    } else {
        assert(s.take(s.len() as int) =~= s);
    }
}

/// What `trim_end_char` takes away is all of it, and is nothing but that character.
pub proof fn lemma_trim_end_char_is(s: Seq<char>, c: char, n: int)
    requires
        0 <= n <= s.len(),
        n > 0 ==> s[n - 1] != c,
        forall|i: int| n <= i < s.len() ==> #[trigger] s[i] == c,
    ensures
        trim_end_char(s, c) == s.take(n),
    decreases s.len(),
{
    if n < s.len() {
        assert(s[s.len() - 1] == c);
        lemma_trim_end_char_is(s.drop_last(), c, n);
        assert(s.drop_last().take(n) =~= s.take(n));
    } else {
        assert(s.take(n) =~= s);
    }
}

/// `trim_end_char`, computed.
pub fn trimmed_end_char(s: &[char], c: char) -> (r: &[char])
    ensures
        r@ == trim_end_char(s@, c),
{
    let mut n: usize = s.len();
    assert(s@.take(n as int) =~= s@);
    while n > 0 && s[n - 1] == c
        invariant
            n <= s@.len(),
            trim_end_char(s@, c) == trim_end_char(s@.take(n as int), c),
        decreases n,
    {
        assert(s@.take(n as int).drop_last() =~= s@.take(n - 1));
        n -= 1;
    }
    assert(s@.subrange(0, n as int) =~= s@.take(n as int));
    slice_subrange(s, 0, n)
}

/// The number of characters before the first white space; all of them where
/// there is none.
pub open spec fn word_len(s: Seq<char>) -> int
    decreases s.len(),
{
    if s.len() == 0 || is_space(s[0]) {
        0
    } else {
        1 + word_len(s.drop_first())
    }
}

pub proof fn lemma_word_len(s: Seq<char>, k: int)
    requires
        0 <= k <= s.len(),
        forall|j: int| 0 <= j < k ==> !is_space(#[trigger] s[j]),
        k < s.len() ==> is_space(s[k]),
    ensures
        word_len(s) == k,
    decreases s.len(),
{
    if k > 0 {
        lemma_word_len(s.drop_first(), k - 1);
    }
}

/// `word_len`, computed.
pub fn first_word_len(s: &[char]) -> (r: usize)
    ensures
        r == word_len(s@),
        r <= s@.len(),
        forall|j: int| 0 <= j < r ==> !is_space(#[trigger] s@[j]),
        r < s@.len() ==> is_space(s@[r as int]),
{
    let mut i: usize = 0;
    while i < s.len() && !is_space_char(s[i])
        invariant
            i <= s@.len(),
            forall|j: int| 0 <= j < i ==> !is_space(#[trigger] s@[j]),
        decreases s@.len() - i,
    {
        i += 1;
    }
    proof {
        lemma_word_len(s@, i as int);
    }
    i
}

// ---------------------------------------------------------------------------
// Search
// ---------------------------------------------------------------------------

/// The index of the first `c` in `s`; the length of `s` where there is none.
pub open spec fn index_of(s: Seq<char>, c: char) -> int
    decreases s.len(),
{
    if s.len() == 0 || s[0] == c {
        0
    } else {
        1 + index_of(s.drop_first(), c)
    }
}

/// The index after the last `c` in `s`; 0 where there is none.
pub open spec fn after_last(s: Seq<char>, c: char) -> int
    decreases s.len(),
{
    if s.len() == 0 || s.last() == c {
        s.len() as int
    } else {
        after_last(s.drop_last(), c)
    }
}

pub proof fn lemma_index_of(s: Seq<char>, c: char)
    ensures
        0 <= index_of(s, c) <= s.len(),
        forall|j: int| 0 <= j < index_of(s, c) ==> #[trigger] s[j] != c,
        index_of(s, c) < s.len() ==> s[index_of(s, c)] == c,
    decreases s.len(),
{
    if s.len() > 0 && s[0] != c {
        lemma_index_of(s.drop_first(), c);
        assert forall|j: int| 0 <= j < index_of(s, c) implies #[trigger] s[j] != c by {
            if j > 0 {
                assert(s.drop_first()[j - 1] == s[j]);
            }
        }
    }
}

pub proof fn lemma_index_of_is(s: Seq<char>, c: char, k: int)
    requires
        0 <= k <= s.len(),
        forall|j: int| 0 <= j < k ==> #[trigger] s[j] != c,
        k < s.len() ==> s[k] == c,
    ensures
        index_of(s, c) == k,
    decreases s.len(),
{
    if k > 0 {
        lemma_index_of_is(s.drop_first(), c, k - 1);
    }
}

pub proof fn lemma_after_last_is(s: Seq<char>, c: char, k: int)
    requires
        0 <= k <= s.len(),
        forall|j: int| k <= j < s.len() ==> #[trigger] s[j] != c,
        k > 0 ==> s[k - 1] == c,
    ensures
        after_last(s, c) == k,
    decreases s.len(),
{
    if k < s.len() {
        assert(s.last() != c);
        lemma_after_last_is(s.drop_last(), c, k);
    }
}

/// `index_of`, computed.
pub fn find_char(s: &[char], c: char) -> (r: usize)
    ensures
        r == index_of(s@, c),
        r <= s@.len(),
        forall|j: int| 0 <= j < r ==> #[trigger] s@[j] != c,
        r < s@.len() ==> s@[r as int] == c,
{
    let mut i: usize = 0;
    while i < s.len() && s[i] != c
        invariant
            i <= s@.len(),
            forall|j: int| 0 <= j < i ==> #[trigger] s@[j] != c,
        decreases s@.len() - i,
    {
        i += 1;
    }
    proof {
        lemma_index_of_is(s@, c, i as int);
    }
    i
}

/// `after_last`, computed.
pub fn find_after_last(s: &[char], c: char) -> (r: usize)
    ensures
        r == after_last(s@, c),
        r <= s@.len(),
        forall|j: int| r <= j < s@.len() ==> #[trigger] s@[j] != c,
        r > 0 ==> s@[r - 1] == c,
{
    let mut n: usize = s.len();
    while n > 0 && s[n - 1] != c
        invariant
            n <= s@.len(),
            forall|j: int| n <= j < s@.len() ==> #[trigger] s@[j] != c,
        decreases n,
    {
        n -= 1;
    }
    proof {
        lemma_after_last_is(s@, c, n as int);
    }
    n
}

/// Whether `p` stands in `s` at index `i`.
pub open spec fn occurs_at<T>(s: Seq<T>, p: Seq<T>, i: int) -> bool {
    0 <= i && i + p.len() <= s.len() && s.subrange(i, i + p.len()) == p
}

/// Whether `p` stands in `s` somewhere.
pub open spec fn occurs<T>(s: Seq<T>, p: Seq<T>) -> bool {
    exists|i: int| occurs_at(s, p, i)
}

/// Whether `k` is where `p` first stands in `s`.
pub open spec fn first_at<T>(s: Seq<T>, p: Seq<T>, k: int) -> bool {
    occurs_at(s, p, k) && forall|j: int| 0 <= j < k ==> !#[trigger] occurs_at(s, p, j)
}

/// Where `p` first stands in `s`; the length of `s` where it does not.
pub open spec fn find<T>(s: Seq<T>, p: Seq<T>) -> int {
    if occurs(s, p) {
        choose|k: int| first_at(s, p, k)
    } else {
        s.len() as int
    }
}

proof fn lemma_first_from<T>(s: Seq<T>, p: Seq<T>, from: int)
    requires
        exists|i: int| from <= i && occurs_at(s, p, i),
        0 <= from,
        forall|j: int| 0 <= j < from ==> !#[trigger] occurs_at(s, p, j),
    ensures
        exists|k: int| first_at(s, p, k),
    decreases s.len() - from,
{
    if occurs_at(s, p, from) {
        assert(first_at(s, p, from));
    } else {
        let i = choose|i: int| from <= i && occurs_at(s, p, i);
        assert(from + 1 <= i && occurs_at(s, p, i));
        lemma_first_from(s, p, from + 1);
    }
}

/// `find` gives the first place, wherever there is one.
pub proof fn lemma_find<T>(s: Seq<T>, p: Seq<T>)
    ensures
        occurs(s, p) ==> first_at(s, p, find(s, p)),
        !occurs(s, p) ==> find(s, p) == s.len(),
        0 <= find(s, p) <= s.len(),
{
    if occurs(s, p) {
        let i = choose|i: int| occurs_at(s, p, i);
        assert(0 <= i && occurs_at(s, p, i));
        lemma_first_from(s, p, 0);
    }
}

pub proof fn lemma_find_is<T>(s: Seq<T>, p: Seq<T>, k: int)
    requires
        first_at(s, p, k),
    ensures
        occurs(s, p),
        find(s, p) == k,
{
    lemma_find(s, p);
    let f = find(s, p);
    if f < k {
        assert(!occurs_at(s, p, f));
    }
    if k < f {
        assert(!occurs_at(s, p, k));
    }
}

/// Whether `p` stands in `s` at `i`, which lies in `s`.
fn stands_at(s: &[char], p: &[char], i: usize) -> (r: bool)
    requires
        i <= s@.len(),
    ensures
        r == occurs_at(s@, p@, i as int),
{
    if p.len() > s.len() - i {
        return false;
    }
    same(slice_subrange(s, i, i + p.len()), p)
}

/// Where `p` first stands in `s`, if it does.
pub fn find_text(s: &[char], p: &[char]) -> (r: Option<usize>)
    ensures
        match r {
            Some(k) => occurs(s@, p@) && k == find(s@, p@) && first_at(s@, p@, k as int) && k
                + p@.len() <= s@.len(),
            None => !occurs(s@, p@) && find(s@, p@) == s@.len(),
        },
{
    let mut i: usize = 0;
    while i < s.len()
        invariant
            i <= s@.len(),
            forall|j: int| 0 <= j < i ==> !#[trigger] occurs_at(s@, p@, j),
        decreases s@.len() - i,
    {
        if stands_at(s, p, i) {
            proof {
                lemma_find_is(s@, p@, i as int);
            }
            return Some(i);
        }
        i += 1;
    }
    if stands_at(s, p, i) {
        proof {
            lemma_find_is(s@, p@, i as int);
        }
        return Some(i);
    }
    assert(!occurs(s@, p@)) by {
        if occurs(s@, p@) {
            let k = choose|k: int| occurs_at(s@, p@, k);
            assert(!occurs_at(s@, p@, k));
        }
    }
    None
}

/// Where the text of `lit` first stands in `s`, if it does.
pub fn find_lit(s: &[char], lit: &str) -> (r: Option<usize>)
    ensures
        match r {
            Some(k) => occurs(s@, lit@) && k == find(s@, lit@) && first_at(s@, lit@, k as int) && k
                + lit@.len() <= s@.len(),
            None => !occurs(s@, lit@) && find(s@, lit@) == s@.len(),
        },
{
    let p = chars_of(lit);
    find_text(s, p.as_slice())
}

/// Whether `s` starts with `p`.
pub open spec fn starts_with(s: Seq<char>, p: Seq<char>) -> bool {
    occurs_at(s, p, 0)
}

/// Whether `s` starts with the text of `lit`.
pub fn starts_with_lit(s: &[char], lit: &str) -> (r: bool)
    ensures
        r == starts_with(s@, lit@),
{
    let p = chars_of(lit);
    stands_at(s, p.as_slice(), 0)
}

// ---------------------------------------------------------------------------
// Counting
// ---------------------------------------------------------------------------

/// How often `c` stands among the first `n` characters of a text.
pub open spec fn count_in(s: Seq<char>, c: char, n: int) -> int
    decreases n,
{
    if n <= 0 {
        0
    } else if s[n - 1] == c {
        count_in(s, c, n - 1) + 1
    } else {
        count_in(s, c, n - 1)
    }
}

/// How often `c` stands in a text.
pub open spec fn count(s: Seq<char>, c: char) -> int {
    count_in(s, c, s.len() as int)
}

proof fn lemma_count_prefix(s: Seq<char>, t: Seq<char>, c: char, n: int)
    requires
        0 <= n <= s.len(),
        n <= t.len(),
        forall|i: int| 0 <= i < n ==> s[i] == t[i],
    ensures
        count_in(s, c, n) == count_in(t, c, n),
    decreases n,
{
    if n > 0 {
        lemma_count_prefix(s, t, c, n - 1);
    }
}

proof fn lemma_count_behind(a: Seq<char>, b: Seq<char>, c: char, n: int)
    requires
        0 <= n <= b.len(),
    ensures
        count_in(a + b, c, a.len() + n) == count(a, c) + count_in(b, c, n),
    decreases n,
{
    if n > 0 {
        lemma_count_behind(a, b, c, n - 1);
        assert((a + b)[a.len() + n - 1] == b[n - 1]);
    } else {
        lemma_count_prefix(a + b, a, c, a.len() as int);
    }
}

/// A character stands in two texts together as often as in each of them.
pub proof fn lemma_count_concat(a: Seq<char>, b: Seq<char>, c: char)
    ensures
        count(a + b, c) == count(a, c) + count(b, c),
{
    lemma_count_behind(a, b, c, b.len() as int);
}

proof fn lemma_count_in_none(s: Seq<char>, c: char, n: int)
    requires
        0 <= n <= s.len(),
        forall|i: int| 0 <= i < n ==> #[trigger] s[i] != c,
    ensures
        count_in(s, c, n) == 0,
    decreases n,
{
    if n > 0 {
        lemma_count_in_none(s, c, n - 1);
    }
}

/// What does not stand in a text stands there zero times.
pub proof fn lemma_count_none(s: Seq<char>, c: char)
    requires
        forall|i: int| 0 <= i < s.len() ==> #[trigger] s[i] != c,
    ensures
        count(s, c) == 0,
{
    lemma_count_in_none(s, c, s.len() as int);
}

// ---------------------------------------------------------------------------
// Parts
// ---------------------------------------------------------------------------

/// The first `n` characters.
pub fn head(s: &[char], n: usize) -> (r: &[char])
    requires
        n <= s@.len(),
    ensures
        r@ == s@.take(n as int),
{
    assert(s@.subrange(0, n as int) =~= s@.take(n as int));
    slice_subrange(s, 0, n)
}

/// What follows the first `n` characters.
pub fn tail(s: &[char], n: usize) -> (r: &[char])
    requires
        n <= s@.len(),
    ensures
        r@ == s@.skip(n as int),
{
    assert(s@.subrange(n as int, s@.len() as int) =~= s@.skip(n as int));
    slice_subrange(s, n, s.len())
}

/// The parts of `s` between the characters `c`: one more than there are `c` in it.
pub open spec fn split(s: Seq<char>, c: char) -> Seq<Seq<char>>
    decreases s.len(),
{
    let i = index_of(s, c);
    if 0 <= i < s.len() {
        seq![s.take(i)] + split(s.skip(i + 1), c)
    } else {
        seq![s]
    }
}

/// The texts of a list of slices.
pub open spec fn texts(v: Seq<&[char]>) -> Seq<Seq<char>> {
    v.map_values(|x: &[char]| x@)
}

/// `split`, computed.
pub fn split_on(s: &[char], c: char) -> (r: Vec<&[char]>)
    ensures
        texts(r@) == split(s@, c),
{
    let mut out: Vec<&[char]> = Vec::new();
    let mut rest: &[char] = s;
    assert(texts(out@) + split(s@, c) =~= split(s@, c));
    loop
        invariant
            texts(out@) + split(rest@, c) == split(s@, c),
        decreases rest@.len(),
    {
        let i = find_char(rest, c);
        let ghost done = texts(out@);
        if i >= rest.len() {
            out.push(rest);
            assert(texts(out@) =~= done + seq![rest@]);
            return out;
        }
        let part = head(rest, i);
        let next = tail(rest, i + 1);
        out.push(part);
        assert(texts(out@) =~= done.push(part@));
        assert(done + (seq![part@] + split(next@, c)) =~= done.push(part@) + split(next@, c));
        rest = next;
    }
}

/// A line without the carriage return that may end it.
pub open spec fn without_cr(s: Seq<char>) -> Seq<char> {
    if s.len() > 0 && s.last() == '\r' {
        s.drop_last()
    } else {
        s
    }
}

/// The lines of a text. A line ends with a line feed or with a carriage return and
/// a line feed, which are not part of it; the last line may lack its ending.
pub open spec fn lines(s: Seq<char>) -> Seq<Seq<char>>
    decreases s.len(),
{
    let i = index_of(s, '\n');
    if 0 <= i < s.len() {
        seq![without_cr(s.take(i))] + lines(s.skip(i + 1))
    } else if s.len() > 0 {
        seq![s]
    } else {
        seq![]
    }
}

/// `lines`, computed.
pub fn lines_of(s: &[char]) -> (r: Vec<&[char]>)
    ensures
        texts(r@) == lines(s@),
{
    let mut out: Vec<&[char]> = Vec::new();
    let mut rest: &[char] = s;
    assert(texts(out@) + lines(s@) =~= lines(s@));
    loop
        invariant
            texts(out@) + lines(rest@) == lines(s@),
        decreases rest@.len(),
    {
        let i = find_char(rest, '\n');
        let ghost done = texts(out@);
        if i >= rest.len() {
            if rest.len() > 0 {
                out.push(rest);
                assert(texts(out@) =~= done + seq![rest@]);
            } else {
                assert(texts(out@) =~= done + Seq::<Seq<char>>::empty());
            }
            return out;
        }
        let line = head(rest, i);
        let part = if line.len() > 0 && line[line.len() - 1] == '\r' {
            assert(line@.take(line@.len() - 1) =~= line@.drop_last());
            head(line, line.len() - 1)
        } else {
            line
        };
        let next = tail(rest, i + 1);
        out.push(part);
        assert(texts(out@) =~= done.push(part@));
        assert(done + (seq![part@] + lines(next@)) =~= done.push(part@) + lines(next@));
        rest = next;
    }
}

// ---------------------------------------------------------------------------
// What can be relied on
// ---------------------------------------------------------------------------

/// Whether a text is nothing but white space.
pub open spec fn all_space(s: Seq<char>) -> bool {
    forall|i: int| 0 <= i < s.len() ==> is_space(#[trigger] s[i])
}

/// Whether a text has no white space at its ends.
pub open spec fn is_trimmed(s: Seq<char>) -> bool {
    s.len() > 0 ==> !is_space(s[0]) && !is_space(s.last())
}

/// The first word of a text ends where the first white space stands.
pub proof fn lemma_word(word: Seq<char>, rest: Seq<char>)
    requires
        forall|i: int| 0 <= i < word.len() ==> !is_space(#[trigger] word[i]),
        rest.len() > 0 ==> is_space(rest[0]),
    ensures
        word_len(word + rest) == word.len(),
    decreases word.len(),
{
    let s = word + rest;
    if word.len() > 0 {
        assert(s[0] == word[0]);
        assert(s.drop_first() =~= word.drop_first() + rest);
        lemma_word(word.drop_first(), rest);
    } else {
        assert(s =~= rest);
    }
}

/// Trimming takes the white space away at both ends of a text and nothing else; a text of
/// nothing but white space is blank.
pub proof fn law_trim(before: Seq<char>, core: Seq<char>, after: Seq<char>)
    requires
        all_space(before),
        all_space(after),
        is_trimmed(core),
    ensures
        trim(before + core + after) == core,
        is_blank(before + core + after) <==> core.len() == 0,
    decreases before.len(),
{
    let s = before + core + after;
    if before.len() > 0 {
        assert(s[0] == before[0]);
        assert(s.drop_first() =~= before.drop_first() + core + after);
        assert forall|i: int| 0 <= i < before.drop_first().len() implies is_space(
            #[trigger] before.drop_first()[i],
        ) by {
            assert(before.drop_first()[i] == before[i + 1]);
        }
        law_trim(before.drop_first(), core, after);
    } else {
        assert(s =~= core + after);
        lemma_trim_end_is(core, after);
        if core.len() > 0 {
            assert(s[0] == core[0]);
        } else {
            assert(s =~= after);
            lemma_all_space(after);
        }
    }
}

proof fn lemma_all_space(s: Seq<char>)
    requires
        forall|i: int| 0 <= i < s.len() ==> is_space(#[trigger] s[i]),
    ensures
        trim_start(s) == Seq::<char>::empty(),
        trim_end(Seq::<char>::empty()) == Seq::<char>::empty(),
    decreases s.len(),
{
    if s.len() > 0 {
        assert(is_space(s[0]));
        assert forall|i: int| 0 <= i < s.drop_first().len() implies is_space(
            #[trigger] s.drop_first()[i],
        ) by {
            assert(s.drop_first()[i] == s[i + 1]);
        }
        lemma_all_space(s.drop_first());
    } else {
        assert(s =~= Seq::<char>::empty());
    }
}

proof fn lemma_trim_end_is(core: Seq<char>, after: Seq<char>)
    requires
        forall|i: int| 0 <= i < after.len() ==> is_space(#[trigger] after[i]),
        core.len() > 0 ==> !is_space(core.last()),
    ensures
        trim_end(core + after) == core,
    decreases after.len(),
{
    if after.len() > 0 {
        let s = core + after;
        assert(s.last() == after[after.len() - 1]);
        assert(s.drop_last() =~= core + after.drop_last());
        lemma_trim_end_is(core, after.drop_last());
    } else {
        assert(core + after =~= core);
    }
}

/// White space is what Unicode calls so; what people type between words is among it, and
/// nothing that shows is.
pub proof fn law_space(c: char)
    ensures
        is_space(' ') && is_space('\t') && is_space('\n') && is_space('\r'),
        is_space('\u{3000}') && is_space('\u{a0}'),
        '!' <= c <= '~' ==> !is_space(c),
{
}

/// Lower case changes the letters from `A` to `Z` and nothing else, and does so once.
pub proof fn law_lower(c: char)
    ensures
        'A' <= c <= 'Z' ==> lower(c) as u32 == c as u32 + 32,
        !('A' <= c <= 'Z') ==> lower(c) == c,
        lower(lower(c)) == lower(c),
{
}

/// Parts with a character between them.
pub open spec fn joined(parts: Seq<Seq<char>>, c: char) -> Seq<char>
    decreases parts.len(),
{
    if parts.len() == 0 {
        seq![]
    } else if parts.len() == 1 {
        parts[0]
    } else {
        parts[0] + seq![c] + joined(parts.skip(1), c)
    }
}

/// Splitting a text loses nothing and leaves nothing to split: with the character between
/// them the parts make up the text, and none of them holds the character.
pub proof fn law_split(s: Seq<char>, c: char)
    ensures
        split(s, c).len() > 0,
        joined(split(s, c), c) == s,
        forall|i: int, j: int|
            0 <= i < split(s, c).len() && 0 <= j < split(s, c)[i].len() ==> #[trigger] split(
                s,
                c,
            )[i][j] != c,
    decreases s.len(),
{
    lemma_index_of(s, c);
    let k = index_of(s, c);
    let parts = split(s, c);
    if k < s.len() {
        let rest = split(s.skip(k + 1), c);
        law_split(s.skip(k + 1), c);
        assert(parts =~= seq![s.take(k)] + rest);
        assert(parts.skip(1) =~= rest);
        assert(s =~= s.take(k) + seq![c] + s.skip(k + 1));
        assert forall|i: int, j: int| 0 <= i < parts.len() && 0 <= j < parts[i].len() implies
            #[trigger] parts[i][j] != c by {
            if i == 0 {
                assert(parts[0][j] == s[j]);
            } else {
                assert(parts[i] == rest[i - 1]);
                assert(rest[i - 1][j] != c);
            }
        }
    }
}

/// The lines of a text: each ends with a line feed, and a carriage return before that belongs
/// to the end too; the last one need not have an end.
pub proof fn law_lines(line: Seq<char>, rest: Seq<char>)
    requires
        forall|i: int| 0 <= i < line.len() ==> #[trigger] line[i] != '\n',
    ensures
        lines(Seq::<char>::empty()) == Seq::<Seq<char>>::empty(),
        line.len() > 0 ==> lines(line) == seq![line],
        line.len() > 0 && line.last() == '\r' || lines(line + seq!['\n'] + rest) == seq![line]
            + lines(rest),
        lines(line + seq!['\r', '\n'] + rest) == seq![line] + lines(rest),
{
    lemma_index_of_is(line, '\n', line.len() as int);
    let a = line + seq!['\n'] + rest;
    let n = line.len() as int;
    assert forall|i: int| 0 <= i < n implies #[trigger] a[i] != '\n' by {
        assert(a[i] == line[i]);
    }
    lemma_index_of_is(a, '\n', n);
    assert(a.take(n) =~= line);
    assert(a.skip(n + 1) =~= rest);
    let b = line + seq!['\r', '\n'] + rest;
    assert forall|i: int| 0 <= i < n + 1 implies #[trigger] b[i] != '\n' by {
        if i < n {
            assert(b[i] == line[i]);
        }
    }
    lemma_index_of_is(b, '\n', n + 1);
    assert(b.take(n + 1) =~= line.push('\r'));
    assert(b.take(n + 1).drop_last() =~= line);
    assert(b.skip(n + 2) =~= rest);
}

/// A text stands in another exactly where that one is made up of something before it, it, and
/// something after it; the first place is found.
pub proof fn law_find(before: Seq<char>, p: Seq<char>, after: Seq<char>)
    ensures
        occurs(before + p + after, p),
        find(before + p + after, p) <= before.len(),
        starts_with(p + after, p),
{
    let t = before + p + after;
    let n = before.len() as int;
    assert(t.subrange(n, n + p.len()) =~= p);
    assert(occurs_at(t, p, n));
    lemma_find(t, p);
    if find(t, p) > n {
        assert(!occurs_at(t, p, n));
    }
    assert((p + after).subrange(0, p.len() as int) =~= p);
}

/// What is found in a text parts it: something before it, it, and something after it.
pub proof fn law_found(s: Seq<char>, p: Seq<char>)
    ensures
        occurs(s, p) ==> s == s.take(find(s, p)) + p + s.skip(find(s, p) + p.len()),
        starts_with(s, p) ==> s == p + s.skip(p.len() as int),
{
    lemma_find(s, p);
    if occurs(s, p) {
        let k = find(s, p);
        assert(s =~= s.take(k) + s.subrange(k, k + p.len()) + s.skip(k + p.len()));
    }
    if starts_with(s, p) {
        assert(s =~= s.subrange(0, p.len() as int) + s.skip(p.len() as int));
    }
}

/// Parts that do not hold the character are what splitting gives back.
pub proof fn law_split_joined(parts: Seq<Seq<char>>, c: char)
    requires
        parts.len() > 0,
        forall|i: int, j: int|
            0 <= i < parts.len() && 0 <= j < parts[i].len() ==> #[trigger] parts[i][j] != c,
    ensures
        split(joined(parts, c), c) == parts,
    decreases parts.len(),
{
    let s = joined(parts, c);
    let first = parts[0];
    let n = first.len() as int;
    if parts.len() == 1 {
        assert forall|j: int| 0 <= j < n implies #[trigger] s[j] != c by {
            assert(parts[0][j] != c);
        }
        lemma_index_of_is(s, c, n);
        assert(parts =~= seq![s]);
    } else {
        let rest = parts.skip(1);
        assert forall|i: int, j: int| 0 <= i < rest.len() && 0 <= j < rest[i].len() implies
            #[trigger] rest[i][j] != c by {
            assert(parts[i + 1][j] != c);
        }
        law_split_joined(rest, c);
        assert forall|j: int| 0 <= j < n implies #[trigger] s[j] != c by {
            assert(s[j] == parts[0][j]);
        }
        assert(s[n] == c);
        lemma_index_of_is(s, c, n);
        assert(s.take(n) =~= first);
        assert(s.skip(n + 1) =~= joined(rest, c));
        assert(parts =~= seq![first] + rest);
    }
}

/// What does not stand in a text, nor begins at its end, is found behind that text.
pub proof fn law_find_behind<T>(head: Seq<T>, p: Seq<T>, rest: Seq<T>)
    requires
        p.len() > 0,
        !occurs(head + p.drop_last(), p),
    ensures
        occurs(head + p + rest, p),
        find(head + p + rest, p) == head.len(),
{
    let near = head + p.drop_last();
    let s = head + p + rest;
    let n = head.len() as int;
    assert(s.subrange(n, n + p.len()) =~= p);
    assert forall|j: int| 0 <= j < n implies !#[trigger] occurs_at(s, p, j) by {
        if occurs_at(s, p, j) {
            let w = s.subrange(j, j + p.len());
            assert forall|i: int| 0 <= i < p.len() implies near[j + i] == w[i] by {
                assert(w[i] == s[j + i]);
            }
            assert(near.subrange(j, j + p.len()) =~= w);
            assert(occurs_at(near, p, j));
        }
    }
    lemma_find_is(s, p, n);
}

}
