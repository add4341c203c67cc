//! Text helpers. A string is viewed as its sequence of characters; every index
//! is a character index.

use vstd::prelude::*;
use vstd::string::StringExecFns;

verus! {

/// `String::push` appends one character to the string.
pub assume_specification[ String::push ](s: &mut String, c: char)
    ensures
        final(s)@ == old(s)@.push(c),
;

/// What `String::from_utf8_lossy` makes of bytes.
pub uninterp spec fn lossy_text(b: Seq<u8>) -> Seq<char>;

/// `String::from_utf8_lossy`: the text of the bytes, which is their decoding
/// where they are valid UTF-8. What stands for ill-formed bytes is not stated.
#[verifier::external_body]
pub(crate) fn lossy(b: &[u8]) -> (r: String)
    ensures
        r@ == lossy_text(b@),
        vstd::utf8::valid_utf8(b@) ==> r@ == vstd::utf8::decode_utf8(b@),
{
    String::from_utf8_lossy(b).into_owned()
}

/// The text of bytes: their decoding where they are valid UTF-8.
pub open spec fn decoded(b: Seq<u8>) -> Seq<char> {
    if vstd::utf8::valid_utf8(b) {
        vstd::utf8::decode_utf8(b)
    } else {
        lossy_text(b)
    }
}

/// The Unicode `White_Space` property.
pub open spec fn space(c: char) -> bool {
    let u = c as u32;
    ||| 0x09 <= u <= 0x0d
    ||| u == 0x20
    ||| u == 0x85
    ||| u == 0xa0
    ||| u == 0x1680
    ||| 0x2000 <= u <= 0x200a
    ||| u == 0x2028
    ||| u == 0x2029
    ||| u == 0x202f
    ||| u == 0x205f
    ||| u == 0x3000
}

pub fn is_space(c: char) -> (r: bool)
    ensures
        r == space(c),
{
    let u: u32 = c as u32;
    (0x09 <= u && u <= 0x0d) || u == 0x20 || u == 0x85 || u == 0xa0 || u == 0x1680 || (0x2000 <= u && u <= 0x200a)
        || u == 0x2028 || u == 0x2029 || u == 0x202f || u == 0x205f || u == 0x3000
}

/// The characters of a string.
pub fn chars_of(s: &str) -> (r: Vec<char>)
    ensures
        r@ == s@,
{
    let mut out: Vec<char> = Vec::new();
    for c in it: s.chars()
        invariant
            it.seq() == s@,
            out@ == s@.take(it.index() as int),
    {
        out.push(c);
        assert(s@.take(it.index() as int + 1) =~= s@.take(it.index() as int).push(c));
    }
    assert(s@.take(s@.len() as int) =~= s@);
    out
}

/// The string made of the characters `c[from..to]`.
pub fn string_of(c: &[char], from: usize, to: usize) -> (r: String)
    requires
        from <= to <= c@.len(),
    ensures
        r@ == c@.subrange(from as int, to as int),
{
    let mut out = String::new();
    let mut i: usize = from;
    while i < to
        invariant
            from <= i <= to <= c@.len(),
            out@ == c@.subrange(from as int, i as int),
        decreases to - i,
    {
        out.push(c[i]);
        i += 1;
        assert(c@.subrange(from as int, i as int) =~= c@.subrange(from as int, i - 1).push(c@[i - 1]));
    }
    out
}

/// The characters `s[from..to]` of a string.
pub fn part(s: &str, from: usize, to: usize) -> (r: String)
    requires
        from <= to <= s@.len(),
    ensures
        r@ == s@.subrange(from as int, to as int),
{
    let c = chars_of(s);
    string_of(c.as_slice(), from, to)
}

pub fn count(s: &str) -> (r: usize)
    ensures
        r == s@.len(),
{
    let c = chars_of(s);
    c.len()
}

/// Number of bytes that the UTF-8 encoding of a string has.
pub open spec fn byte_count(s: Seq<char>) -> nat {
    vstd::utf8::encode_utf8(s).len()
}

pub fn byte_len(s: &str) -> (r: usize)
    ensures
        r == byte_count(s@),
{
    s.as_bytes().len()
}

/// Equality of two strings.
pub fn same(a: &str, b: &str) -> (r: bool)
    ensures
        r == (a@ == b@),
{
    let x = chars_of(a);
    let y = chars_of(b);
    if x.len() != y.len() {
        return false;
    }
    let mut i: usize = 0;
    while i < x.len()
        invariant
            x@ == a@,
            y@ == b@,
            x@.len() == y@.len(),
            i <= x@.len(),
            forall|k: int| 0 <= k < i ==> x@[k] == y@[k],
        decreases x@.len() - i,
    {
        if x[i] != y[i] {
            return false;
        }
        i += 1;
    }
    assert(a@ =~= b@);
    true
}

/// Index of the first character of `s` at or after `from` that equals `c`.
pub open spec fn index_from(s: Seq<char>, c: char, from: int) -> Option<int>
    decreases s.len() - from,
{
    if from < 0 || from >= s.len() {
        None
    } else if s[from] == c {
        Some(from)
    } else {
        index_from(s, c, from + 1)
    }
}

pub proof fn index_from_bounds(s: Seq<char>, c: char, from: int)
    requires
        0 <= from,
    ensures
        index_from(s, c, from) matches Some(i) ==> from <= i < s.len() && s[i] == c,
        index_from(s, c, from) matches Some(i) ==> forall|k: int| from <= k < i ==> s[k] != c,
        index_from(s, c, from) is None ==> forall|k: int| from <= k < s.len() ==> s[k] != c,
    decreases s.len() - from,
{
    if from < s.len() && s[from] != c {
        index_from_bounds(s, c, from + 1);
    }
}

pub fn find_from(s: &[char], c: char, from: usize) -> (r: Option<usize>)
    ensures
        r matches Some(i) ==> index_from(s@, c, from as int) == Some(i as int) && from <= i < s@.len() && s@[i as int] == c,
        r is None ==> index_from(s@, c, from as int) is None,
{
    let mut i: usize = from;
    while i < s.len()
        invariant
            from <= i,
            index_from(s@, c, from as int) == index_from(s@, c, i as int),
        decreases s@.len() - i,
    {
        if s[i] == c {
            return Some(i);
        }
        i += 1;
    }
    None
}

/// `pat` stands in `s` at index `at`.
pub open spec fn at(s: Seq<char>, pat: Seq<char>, at: int) -> bool {
    0 <= at && at + pat.len() <= s.len() && s.subrange(at, at + pat.len()) == pat
}

pub fn stands_at(s: &[char], pat: &[char], i: usize) -> (r: bool)
    ensures
        r == at(s@, pat@, i as int),
{
    if i > s.len() || pat.len() > s.len() - i {
        return false;
    }
    let mut k: usize = 0;
    while k < pat.len()
        invariant
            i + pat@.len() <= s.len(),
            s@.len() == s.len(),
            k <= pat@.len(),
            forall|j: int| 0 <= j < k ==> s@[i + j] == pat@[j],
        decreases pat@.len() - k,
    {
        if s[i + k] != pat[k] {
            assert(s@.subrange(i as int, i + pat@.len())[k as int] != pat@[k as int]);
            return false;
        }
        k += 1;
    }
    assert(s@.subrange(i as int, i + pat@.len()) =~= pat@);
    true
}

/// The first occurrence is the one before which there is none.
pub proof fn index_from_is(s: Seq<char>, c: char, from: int, i: int)
    requires
        0 <= from <= i < s.len(),
        s[i] == c,
        forall|k: int| from <= k < i ==> s[k] != c,
    ensures
        index_from(s, c, from) == Some(i),
    decreases i - from,
{
    if from < i {
        index_from_is(s, c, from + 1, i);
    }
}

/// Index of the first occurrence of `pat` at or after `from`.
pub open spec fn sub_from(s: Seq<char>, pat: Seq<char>, from: int) -> Option<int>
    decreases s.len() + 1 - from,
{
    if from < 0 || from > s.len() {
        None
    } else if at(s, pat, from) {
        Some(from)
    } else {
        sub_from(s, pat, from + 1)
    }
}

pub proof fn sub_from_bounds(s: Seq<char>, pat: Seq<char>, from: int)
    ensures
        sub_from(s, pat, from) matches Some(i) ==> 0 <= from <= i && at(s, pat, i),
    decreases s.len() + 1 - from,
{
    if 0 <= from <= s.len() && !at(s, pat, from) {
        sub_from_bounds(s, pat, from + 1);
    }
}

pub fn find_sub(s: &[char], pat: &[char], from: usize) -> (r: Option<usize>)
    ensures
        r matches Some(i) ==> sub_from(s@, pat@, from as int) == Some(i as int) && from <= i && i + pat@.len() <= s@.len(),
        r is None ==> sub_from(s@, pat@, from as int) is None,
{
    let mut i: usize = from;
    while i < s.len()
        invariant
            from <= i,
            i <= s@.len() || i == from,
            sub_from(s@, pat@, from as int) == sub_from(s@, pat@, i as int),
        decreases s@.len() - i,
    {
        if stands_at(s, pat, i) {
            return Some(i);
        }
        i += 1;
    }
    if i == s.len() && stands_at(s, pat, i) {
        return Some(i);
    }
    assert(sub_from(s@, pat@, (s@.len() + 1) as int) is None);
    None
}

/// `s` contains `pat`.
pub open spec fn includes(s: Seq<char>, pat: Seq<char>) -> bool {
    sub_from(s, pat, 0) is Some
}

pub fn contains(s: &str, pat: &str) -> (r: bool)
    ensures
        r == includes(s@, pat@),
{
    let c = chars_of(s);
    let p = chars_of(pat);
    find_sub(c.as_slice(), p.as_slice(), 0).is_some()
}

pub open spec fn prefixed(s: Seq<char>, pat: Seq<char>) -> bool {
    at(s, pat, 0)
}

pub open spec fn suffixed(s: Seq<char>, pat: Seq<char>) -> bool {
    at(s, pat, s.len() - pat.len())
}

pub fn starts_with(s: &str, pat: &str) -> (r: bool)
    ensures
        r == prefixed(s@, pat@),
{
    let c = chars_of(s);
    let p = chars_of(pat);
    stands_at(c.as_slice(), p.as_slice(), 0)
}

pub fn ends_with(s: &str, pat: &str) -> (r: bool)
    ensures
        r == suffixed(s@, pat@),
{
    let c = chars_of(s);
    let p = chars_of(pat);
    if p.len() > c.len() {
        return false;
    }
    stands_at(c.as_slice(), p.as_slice(), c.len() - p.len())
}

/// What follows the prefix `pat`, when `s` has it.
pub open spec fn after(s: Seq<char>, pat: Seq<char>) -> Option<Seq<char>> {
    if prefixed(s, pat) {
        Some(s.skip(pat.len() as int))
    } else {
        None
    }
}

pub fn strip_prefix(s: &str, pat: &str) -> (r: Option<String>)
    ensures
        r.deep_view() == after(s@, pat@),
{
    let c = chars_of(s);
    let p = chars_of(pat);
    if stands_at(c.as_slice(), p.as_slice(), 0) {
        let r = string_of(c.as_slice(), p.len(), c.len());
        assert(r@ =~= s@.skip(pat@.len() as int));
        Some(r)
    } else {
        None
    }
}

/// What precedes the suffix `pat`, when `s` has it.
pub open spec fn before(s: Seq<char>, pat: Seq<char>) -> Option<Seq<char>> {
    if suffixed(s, pat) {
        Some(s.take(s.len() - pat.len()))
    } else {
        None
    }
}

pub fn strip_suffix(s: &str, pat: &str) -> (r: Option<String>)
    ensures
        r.deep_view() == before(s@, pat@),
{
    let c = chars_of(s);
    let p = chars_of(pat);
    if p.len() <= c.len() && stands_at(c.as_slice(), p.as_slice(), c.len() - p.len()) {
        let r = string_of(c.as_slice(), 0, c.len() - p.len());
        assert(r@ =~= s@.take(s@.len() - pat@.len()));
        Some(r)
    } else {
        None
    }
}

/// Length of the run of white space that starts `s` at `from`.
pub open spec fn first_word(s: Seq<char>, from: int) -> int
    decreases s.len() - from,
{
    if 0 <= from < s.len() && space(s[from]) {
        first_word(s, from + 1)
    } else {
        from
    }
}

/// End of the run of other characters that starts at `from`.
pub open spec fn word_end(s: Seq<char>, from: int) -> int
    decreases s.len() - from,
{
    if 0 <= from < s.len() && !space(s[from]) {
        word_end(s, from + 1)
    } else {
        from
    }
}

/// End of `s` once its trailing white space is dropped.
pub open spec fn last_word(s: Seq<char>, to: int) -> int
    decreases to,
{
    if 0 < to <= s.len() && space(s[to - 1]) {
        last_word(s, to - 1)
    } else {
        to
    }
}

pub proof fn word_bounds(s: Seq<char>, i: int)
    requires
        0 <= i <= s.len(),
    ensures
        i <= first_word(s, i) <= s.len(),
        i <= word_end(s, i) <= s.len(),
        0 <= last_word(s, i) <= i,
        first_word(s, i) < s.len() ==> !space(s[first_word(s, i)]),
        i < s.len() && !space(s[i]) ==> i < word_end(s, i),
    decreases s.len() - i,
{
    if i < s.len() {
        word_bounds(s, i + 1);
    }
    last_word_bounds(s, i);
}

pub proof fn last_word_bounds(s: Seq<char>, i: int)
    requires
        0 <= i <= s.len(),
    ensures
        0 <= last_word(s, i) <= i,
        last_word(s, i) > 0 ==> !space(s[last_word(s, i) - 1]),
        forall|k: int| last_word(s, i) <= k < i ==> space(s[k]),
    decreases i,
{
    if i > 0 && space(s[i - 1]) {
        last_word_bounds(s, i - 1);
    }
}

/// `s` without its leading and trailing white space.
pub open spec fn trimmed(s: Seq<char>) -> Seq<char> {
    let a = first_word(s, 0);
    let b = last_word(s, s.len() as int);
    if a <= b {
        s.subrange(a, b)
    } else {
        Seq::empty()
    }
}

pub fn skip_space(s: &[char], from: usize) -> (r: usize)
    requires
        from <= s@.len(),
    ensures
        r == first_word(s@, from as int),
        from <= r <= s@.len(),
{
    let mut i: usize = from;
    while i < s.len() && is_space(s[i])
        invariant
            from <= i <= s@.len(),
            first_word(s@, from as int) == first_word(s@, i as int),
        decreases s@.len() - i,
    {
        i += 1;
    }
    i
}

pub fn skip_word(s: &[char], from: usize) -> (r: usize)
    requires
        from <= s@.len(),
    ensures
        r == word_end(s@, from as int),
        from <= r <= s@.len(),
{
    let mut i: usize = from;
    while i < s.len() && !is_space(s[i])
        invariant
            from <= i <= s@.len(),
            word_end(s@, from as int) == word_end(s@, i as int),
        decreases s@.len() - i,
    {
        i += 1;
    }
    i
}

pub fn trim(s: &str) -> (r: String)
    ensures
        r@ == trimmed(s@),
{
    let c = chars_of(s);
    let a = skip_space(c.as_slice(), 0);
    let mut b: usize = c.len();
    while b > 0 && is_space(c[b - 1])
        invariant
            c@ == s@,
            b <= c@.len(),
            last_word(s@, s@.len() as int) == last_word(s@, b as int),
        decreases b,
    {
        b -= 1;
    }
    if a <= b {
        string_of(c.as_slice(), a, b)
    } else {
        String::new()
    }
}

/// The maximal runs of non-space characters of `s` from `from` on.
pub open spec fn words_from(s: Seq<char>, from: int) -> Seq<Seq<char>>
    decreases s.len() - from,
    via words_from_decreases
{
    let a = first_word(s, from);
    let b = word_end(s, a);
    if from < 0 || from > s.len() || a >= s.len() {
        Seq::empty()
    } else {
        seq![s.subrange(a, b)] + words_from(s, b)
    }
}

#[via_fn]
proof fn words_from_decreases(s: Seq<char>, from: int) {
    if 0 <= from <= s.len() {
        word_bounds(s, from);
        word_bounds(s, first_word(s, from));
    }
}

pub open spec fn words(s: Seq<char>) -> Seq<Seq<char>> {
    words_from(s, 0)
}

pub proof fn deep_push(v: Seq<Seq<char>>, x: Seq<char>, rest: Seq<Seq<char>>)
    ensures
        v + (seq![x] + rest) == v.push(x) + rest,
{
    assert(v + (seq![x] + rest) =~= v.push(x) + rest);
}

pub fn split_words(s: &str) -> (r: Vec<String>)
    ensures
        r.deep_view() == words(s@),
{
    let c = chars_of(s);
    let mut out: Vec<String> = Vec::new();
    let mut i: usize = 0;
    assert(out.deep_view() + words_from(s@, 0) =~= words(s@));
    loop
        invariant_except_break
            out.deep_view() + words_from(s@, i as int) == words(s@),
        invariant
            c@ == s@,
            i <= c@.len(),
        ensures
            out.deep_view() == words(s@),
        decreases c@.len() - i,
    {
        let a = skip_space(c.as_slice(), i);
        if a == c.len() {
            assert(words_from(s@, i as int) =~= Seq::empty());
            assert(out.deep_view() =~= words(s@));
            break;
        }
        let b = skip_word(c.as_slice(), a);
        let ghost pre = out.deep_view();
        out.push(string_of(c.as_slice(), a, b));
        proof {
            word_bounds(s@, i as int);
            word_bounds(s@, a as int);
            assert(out.deep_view() =~= pre.push(s@.subrange(a as int, b as int)));
            deep_push(pre, s@.subrange(a as int, b as int), words_from(s@, b as int));
        }
        i = b;
    }
    out
}

/// The pieces of `s` from `from` on between occurrences of `c`: one more than
/// there are occurrences.
pub open spec fn split_from(s: Seq<char>, c: char, from: int) -> Seq<Seq<char>>
    decreases s.len() - from,
    via split_from_decreases
{
    match index_from(s, c, from) {
        Some(i) => if 0 <= from <= i < s.len() {
            seq![s.subrange(from, i)] + split_from(s, c, i + 1)
        } else {
            Seq::empty()
        },
        None => seq![s.skip(from)],
    }
}

#[via_fn]
proof fn split_from_decreases(s: Seq<char>, c: char, from: int) {
}

pub open spec fn split(s: Seq<char>, c: char) -> Seq<Seq<char>> {
    split_from(s, c, 0)
}

pub fn split_on(s: &str, c: char) -> (r: Vec<String>)
    ensures
        r.deep_view() == split(s@, c),
{
    let cs = chars_of(s);
    let mut out: Vec<String> = Vec::new();
    let mut from: usize = 0;
    assert(out.deep_view() + split_from(s@, c, 0) =~= split(s@, c));
    loop
        invariant_except_break
            out.deep_view() + split_from(s@, c, from as int) == split(s@, c),
        invariant
            cs@ == s@,
            from <= cs@.len(),
        ensures
            out.deep_view() == split(s@, c),
        decreases cs@.len() - from,
    {
        let ghost pre = out.deep_view();
        match find_from(cs.as_slice(), c, from) {
            Some(i) => {
                out.push(string_of(cs.as_slice(), from, i));
                proof {
                    let x = s@.subrange(from as int, i as int);
                    assert(out.deep_view() =~= pre.push(x));
                    deep_push(pre, x, split_from(s@, c, i + 1));
                }
                from = i + 1;
            },
            None => {
                out.push(string_of(cs.as_slice(), from, cs.len()));
                proof {
                    let x = s@.skip(from as int);
                    assert(x =~= s@.subrange(from as int, s@.len() as int));
                    assert(out.deep_view() =~= pre.push(x));
                    assert(pre + seq![x] =~= pre.push(x));
                }
                break;
            },
        }
    }
    out
}

/// The part of `s` before the first `c`, or all of it.
pub open spec fn head_of(s: Seq<char>, c: char) -> Seq<char> {
    match index_from(s, c, 0) {
        Some(i) => s.take(i),
        None => s,
    }
}

pub fn head(s: &str, c: char) -> (r: String)
    ensures
        r@ == head_of(s@, c),
{
    let cs = chars_of(s);
    match find_from(cs.as_slice(), c, 0) {
        Some(i) => {
            let r = string_of(cs.as_slice(), 0, i);
            assert(r@ =~= s@.take(i as int));
            r
        },
        None => {
            let r = string_of(cs.as_slice(), 0, cs.len());
            assert(r@ =~= s@);
            r
        },
    }
}

/// A line without the carriage return that ends it.
pub open spec fn without_cr(s: Seq<char>) -> Seq<char> {
    if s.len() > 0 && s.last() == '\r' {
        s.drop_last()
    } else {
        s
    }
}

/// The lines of `s` from `from` on; the last one need not end in a line feed.
pub open spec fn lines_from(s: Seq<char>, from: int) -> Seq<Seq<char>>
    decreases s.len() - from,
    via lines_from_decreases
{
    if from < 0 || from >= s.len() {
        Seq::empty()
    } else {
        match index_from(s, '\n', from) {
            Some(i) => if from <= i < s.len() {
                seq![without_cr(s.subrange(from, i))] + lines_from(s, i + 1)
            } else {
                Seq::empty()
            },
            None => seq![s.skip(from)],
        }
    }
}

#[via_fn]
proof fn lines_from_decreases(s: Seq<char>, from: int) {
}

pub open spec fn lines(s: Seq<char>) -> Seq<Seq<char>> {
    lines_from(s, 0)
}

pub fn split_lines(s: &str) -> (r: Vec<String>)
    ensures
        r.deep_view() == lines(s@),
{
    let cs = chars_of(s);
    let mut out: Vec<String> = Vec::new();
    let mut from: usize = 0;
    assert(out.deep_view() + lines_from(s@, 0) =~= lines(s@));
    while from < cs.len()
        invariant
            cs@ == s@,
            from <= cs@.len(),
            out.deep_view() + lines_from(s@, from as int) == lines(s@),
        decreases cs@.len() - from,
    {
        let ghost pre = out.deep_view();
        match find_from(cs.as_slice(), '\n', from) {
            Some(i) => {
                let end = if i > from && cs[i - 1] == '\r' { i - 1 } else { i };
                out.push(string_of(cs.as_slice(), from, end));
                proof {
                    let x = without_cr(s@.subrange(from as int, i as int));
                    assert(x =~= s@.subrange(from as int, end as int));
                    assert(out.deep_view() =~= pre.push(x));
                    deep_push(pre, x, lines_from(s@, i + 1));
                }
                from = i + 1;
            },
            None => {
                out.push(string_of(cs.as_slice(), from, cs.len()));
                proof {
                    let x = s@.skip(from as int);
                    assert(x =~= s@.subrange(from as int, s@.len() as int));
                    assert(out.deep_view() =~= pre.push(x));
                    assert(pre + seq![x] =~= pre.push(x));
                    assert(lines_from(s@, s@.len() as int) =~= Seq::empty());
                    assert(out.deep_view() + Seq::<Seq<char>>::empty() =~= out.deep_view());
                }
                from = cs.len();
            },
        }
    }
    assert(out.deep_view() + Seq::<Seq<char>>::empty() =~= out.deep_view());
    out
}

/// The first `n` parts joined by `sep`.
pub open spec fn joined(parts: Seq<Seq<char>>, sep: Seq<char>, n: nat) -> Seq<char>
    decreases n,
{
    if n == 0 || n > parts.len() {
        Seq::empty()
    } else if n == 1 {
        parts[0]
    } else {
        joined(parts, sep, (n - 1) as nat) + sep + parts[n - 1]
    }
}

pub fn join(parts: &Vec<String>, sep: &str) -> (r: String)
    ensures
        r@ == joined(parts.deep_view(), sep@, parts@.len()),
{
    let mut out = String::new();
    let mut i: usize = 0;
    while i < parts.len()
        invariant
            i <= parts@.len(),
            out@ == joined(parts.deep_view(), sep@, i as nat),
        decreases parts@.len() - i,
    {
        if i > 0 {
            out.append(sep);
        }
        out.append(parts[i].as_str());
        i += 1;
        assert(out@ =~= joined(parts.deep_view(), sep@, i as nat));
    }
    out
}

/// `s` without the characters `c` that end it.
pub open spec fn trimmed_end(s: Seq<char>, c: char) -> Seq<char>
    decreases s.len(),
{
    if s.len() > 0 && s.last() == c {
        trimmed_end(s.drop_last(), c)
    } else {
        s
    }
}

pub fn trim_end_of(s: &str, c: char) -> (r: String)
    ensures
        r@ == trimmed_end(s@, c),
{
    let cs = chars_of(s);
    let mut n: usize = cs.len();
    assert(s@.take(n as int) =~= s@);
    while n > 0 && cs[n - 1] == c
        invariant
            cs@ == s@,
            n <= cs@.len(),
            trimmed_end(s@, c) == trimmed_end(s@.take(n as int), c),
        decreases n,
    {
        n -= 1;
        assert(s@.take(n + 1).drop_last() =~= s@.take(n as int));
    }
    let r = string_of(cs.as_slice(), 0, n);
    assert(r@ =~= s@.take(n as int));
    r
}

/// `s` without the characters `c` that start it.
pub open spec fn trimmed_start(s: Seq<char>, c: char) -> Seq<char>
    decreases s.len(),
{
    if s.len() > 0 && s[0] == c {
        trimmed_start(s.skip(1), c)
    } else {
        s
    }
}

pub fn trim_start_of(s: &str, c: char) -> (r: String)
    ensures
        r@ == trimmed_start(s@, c),
{
    let cs = chars_of(s);
    let mut n: usize = 0;
    assert(s@.skip(n as int) =~= s@);
    while n < cs.len() && cs[n] == c
        invariant
            cs@ == s@,
            n <= cs@.len(),
            trimmed_start(s@, c) == trimmed_start(s@.skip(n as int), c),
        decreases cs@.len() - n,
    {
        assert(s@.skip(n as int).skip(1) =~= s@.skip(n + 1));
        n += 1;
    }
    let r = string_of(cs.as_slice(), n, cs.len());
    assert(r@ =~= s@.skip(n as int));
    r
}

/// ASCII lower case of a character.
pub open spec fn lower(c: char) -> char {
    if 'A' <= c <= 'Z' {
        ((c as u8 + 32) as u8) as char
    } else {
        c
    }
}

pub open spec fn lowered(s: Seq<char>) -> Seq<char> {
    Seq::new(s.len(), |i: int| lower(s[i]))
}

pub fn lower_char(c: char) -> (r: char)
    ensures
        r == lower(c),
{
    if 'A' <= c && c <= 'Z' {
        let b: u8 = c as u8;
        (b + 32) as char
    } else {
        c
    }
}

pub fn to_lower(s: &str) -> (r: String)
    ensures
        r@ == lowered(s@),
{
    let cs = chars_of(s);
    let mut out = String::new();
    let mut i: usize = 0;
    while i < cs.len()
        invariant
            cs@ == s@,
            i <= cs@.len(),
            out@ == lowered(s@).take(i as int),
        decreases cs@.len() - i,
    {
        out.push(lower_char(cs[i]));
        i += 1;
        assert(lowered(s@).take(i as int) =~= lowered(s@).take(i - 1).push(lower(s@[i - 1])));
    }
    assert(lowered(s@).take(i as int) =~= lowered(s@));
    out
}

/// Equality up to ASCII case.
pub fn same_ignoring_case(a: &str, b: &str) -> (r: bool)
    ensures
        r == (lowered(a@) == lowered(b@)),
{
    let x = to_lower(a);
    let y = to_lower(b);
    same(x.as_str(), y.as_str())
}

/// `s` followed by the blanks that bring it to `width` characters.
pub open spec fn padded(s: Seq<char>, width: nat) -> Seq<char> {
    if s.len() < width {
        s + Seq::new((width - s.len()) as nat, |i: int| ' ')
    } else {
        s
    }
}

pub fn pad(s: &str, width: usize) -> (r: String)
    ensures
        r@ == padded(s@, width as nat),
{
    let n = count(s);
    let mut out = String::new();
    out.append(s);
    let mut i: usize = n;
    assert(out@ =~= s@ + Seq::new(0, |i: int| ' '));
    while i < width
        invariant
            n == s@.len(),
            n <= i,
            n <= width ==> i <= width,
            n > width ==> i == n,
            out@ == s@ + Seq::new((i - n) as nat, |i: int| ' '),
        decreases width - i,
    {
        out.push(' ');
        i += 1;
        assert(out@ =~= s@ + Seq::new((i - n) as nat, |i: int| ' '));
    }
    assert(out@ =~= padded(s@, width as nat));
    out
}

/// Index of the last occurrence of `pat` at or before `to`.
pub open spec fn last_sub(s: Seq<char>, pat: Seq<char>, to: int) -> Option<int>
    decreases to + 1,
{
    if to < 0 {
        None
    } else if at(s, pat, to) {
        Some(to)
    } else {
        last_sub(s, pat, to - 1)
    }
}

/// The part of `s` behind the last `pat`, or all of it.
pub open spec fn tail_of(s: Seq<char>, pat: Seq<char>) -> Seq<char> {
    match last_sub(s, pat, s.len() as int) {
        Some(i) => s.skip(i + pat.len()),
        None => s,
    }
}

/// The last occurrence is the one behind which there is none.
pub proof fn last_sub_is(s: Seq<char>, pat: Seq<char>, i: int, to: int)
    requires
        0 <= i <= to,
        at(s, pat, i),
        forall|k: int| i < k <= to ==> !#[trigger] at(s, pat, k),
    ensures
        last_sub(s, pat, to) == Some(i),
    decreases to - i,
{
    if i < to {
        last_sub_is(s, pat, i, to - 1);
    }
}

proof fn last_sub_bounds(s: Seq<char>, pat: Seq<char>, to: int)
    ensures
        last_sub(s, pat, to) matches Some(i) ==> i <= to && at(s, pat, i),
    decreases to + 1,
{
    if to >= 0 && !at(s, pat, to) {
        last_sub_bounds(s, pat, to - 1);
    }
}

pub proof fn tail_fits(s: Seq<char>, pat: Seq<char>)
    ensures
        tail_of(s, pat).len() <= s.len(),
{
    last_sub_bounds(s, pat, s.len() as int);
}

pub fn tail(s: &str, pat: &str) -> (r: String)
    ensures
        r@ == tail_of(s@, pat@),
{
    let c = chars_of(s);
    let p = chars_of(pat);
    let n = c.len();
    let mut i: usize = n;
    loop
        invariant
            n == c@.len(),
            c@ == s@,
            p@ == pat@,
            i <= c@.len(),
            last_sub(s@, pat@, s@.len() as int) == last_sub(s@, pat@, i as int),
        decreases i,
    {
        if stands_at(c.as_slice(), p.as_slice(), i) {
            let r = string_of(c.as_slice(), i + p.len(), n);
            assert(r@ =~= s@.skip(i + pat@.len()));
            return r;
        }
        if i == 0 {
            let r = string_of(c.as_slice(), 0, c.len());
            assert(last_sub(s@, pat@, -1) is None);
            assert(r@ =~= s@);
            return r;
        }
        i -= 1;
    }
}

/// `s` with its words separated by single blanks.
pub open spec fn normal(s: Seq<char>) -> Seq<char> {
    joined(words(s), " "@, words(s).len())
}

pub fn normalize(s: &str) -> (r: String)
    ensures
        r@ == normal(s@),
{
    let w = split_words(s);
    join(&w, " ")
}

/// A string is one of a list.
pub fn is_one_of(s: &str, list: &Vec<String>) -> (r: bool)
    ensures
        r == list.deep_view().contains(s@),
{
    let ghost l = list.deep_view();
    let mut i: usize = 0;
    while i < list.len()
        invariant
            l == list.deep_view(),
            i <= list@.len(),
            forall|k: int| 0 <= k < i ==> l[k] != s@,
        decreases list@.len() - i,
    {
        if same(list[i].as_str(), s) {
            assert(l[i as int] == s@);
            return true;
        }
        i += 1;
    }
    false
}

/// Appends a string to a list.
pub fn push_text(out: &mut Vec<String>, s: String)
    ensures
        final(out).deep_view() == old(out).deep_view().push(s@),
{
    let ghost before = out.deep_view();
    let ghost x = s@;
    out.push(s);
    assert(out.deep_view() =~= before.push(x));
}

pub fn empty_text() -> (r: String)
    ensures
        r@ == Seq::<char>::empty(),
{
    let r = String::new();
    assert(r@ =~= Seq::empty());
    r
}

/// One string behind another.
pub fn concat(a: &str, b: &str) -> (r: String)
    ensures
        r@ == a@ + b@,
{
    let mut r = a.to_owned();
    r.append(b);
    r
}

} // verus!
