//! The signature file that carries names from one build of the game to the
//! next: what is written is what is read back.

use vstd::prelude::*;
use vstd::string::StringExecFns;

use crate::num;
use crate::sigs;
use crate::sigs::{Cap, Extra, ExtraV, FaultV, Kind, LineV, ParseErrorV, PatternV, Sig, SigV};
use crate::text;

verus! {

// ---------------------------------------------------------------------------
// Words of a line.

/// A nonempty text without white space.
#[verifier::opaque]
pub open spec fn is_word(s: Seq<char>) -> bool {
    s.len() > 0 && forall|i: int| 0 <= i < s.len() ==> !text::space(#[trigger] s[i])
}

/// A text of white space alone.
#[verifier::opaque]
pub open spec fn is_gap(s: Seq<char>) -> bool {
    forall|i: int| 0 <= i < s.len() ==> text::space(#[trigger] s[i])
}

/// A text without a character.
#[verifier::opaque]
pub open spec fn lacks(s: Seq<char>, c: char) -> bool {
    forall|i: int| 0 <= i < s.len() ==> #[trigger] s[i] != c
}

proof fn first_word_shift(p: Seq<char>, s: Seq<char>, k: int)
    requires
        0 <= k <= s.len(),
    ensures
        text::first_word(p + s, p.len() + k) == p.len() + text::first_word(s, k),
    decreases s.len() - k,
{
    if k < s.len() {
        assert((p + s)[p.len() + k] == s[k]);
        if text::space(s[k]) {
            first_word_shift(p, s, k + 1);
        }
    }
}

proof fn word_end_shift(p: Seq<char>, s: Seq<char>, k: int)
    requires
        0 <= k <= s.len(),
    ensures
        text::word_end(p + s, p.len() + k) == p.len() + text::word_end(s, k),
    decreases s.len() - k,
{
    if k < s.len() {
        assert((p + s)[p.len() + k] == s[k]);
        if !text::space(s[k]) {
            word_end_shift(p, s, k + 1);
        }
    }
}

proof fn words_shift(p: Seq<char>, s: Seq<char>, k: int)
    requires
        0 <= k <= s.len(),
    ensures
        text::words_from(p + s, p.len() + k) == text::words_from(s, k),
    decreases s.len() - k,
{
    first_word_shift(p, s, k);
    text::word_bounds(s, k);
    let a = text::first_word(s, k);
    if a < s.len() {
        word_end_shift(p, s, a);
        text::word_bounds(s, a);
        let b = text::word_end(s, a);
        words_shift(p, s, b);
        assert((p + s).subrange(p.len() + a, p.len() + b) =~= s.subrange(a, b));
    }
}

proof fn word_ends(s: Seq<char>, i: int, e: int)
    requires
        0 <= i <= e <= s.len(),
        forall|k: int| i <= k < e ==> !text::space(#[trigger] s[k]),
        e < s.len() ==> text::space(s[e]),
    ensures
        text::word_end(s, i) == e,
    decreases e - i,
{
    if i < e {
        word_ends(s, i + 1, e);
    }
}

proof fn gap_ends(s: Seq<char>, i: int, e: int)
    requires
        0 <= i <= e <= s.len(),
        forall|k: int| i <= k < e ==> text::space(#[trigger] s[k]),
    ensures
        text::first_word(s, i) == text::first_word(s, e),
        text::words_from(s, i) == text::words_from(s, e),
    decreases e - i,
{
    if i < e {
        gap_ends(s, i + 1, e);
        assert(text::first_word(s, i) == text::first_word(s, i + 1));
    }
}

/// A word starts and ends with other characters than white space.
proof fn word_edges(w: Seq<char>)
    requires
        is_word(w),
    ensures
        w.len() > 0,
        !text::space(w[0]),
        !text::space(w.last()),
{
    reveal(is_word);
}

proof fn blank_is_gap()
    ensures
        is_gap(" "@),
        " "@.len() == 1,
        lacks(" "@, '#'),
        lacks(" "@, ';'),
        lacks(" "@, '\n'),
{
    reveal(is_gap);
    reveal(lacks);
    reveal_strlit(" ");
}

/// A text that is one word.
proof fn one_word(w: Seq<char>)
    requires
        is_word(w),
    ensures
        text::words(w) == seq![w],
{
    reveal(is_word);
    word_ends(w, 0, w.len() as int);
    assert(text::first_word(w, 0) == 0);
    assert(w.subrange(0, w.len() as int) =~= w);
    assert(text::words_from(w, w.len() as int) =~= Seq::empty());
    assert(text::words(w) =~= seq![w]);
}

/// A word before a gap is the first word of a text.
proof fn word_first(w: Seq<char>, gap: Seq<char>, rest: Seq<char>)
    requires
        is_word(w),
        is_gap(gap),
        gap.len() > 0,
    ensures
        text::words(w + gap + rest) == seq![w] + text::words(rest),
{
    reveal(is_word);
    reveal(is_gap);
    let s = w + gap + rest;
    let n = w.len() as int;
    let m = n + gap.len();
    assert(s[n] == gap[0]);
    assert forall|k: int| 0 <= k < n implies !text::space(#[trigger] s[k]) by {
        assert(s[k] == w[k]);
    }
    word_ends(s, 0, n);
    assert(text::first_word(s, 0) == 0);
    assert(s.subrange(0, n) =~= w);
    assert forall|k: int| n <= k < m implies text::space(#[trigger] s[k]) by {
        assert(s[k] == gap[k - n]);
    }
    gap_ends(s, n, m);
    words_shift(w + gap, rest, 0);
}

/// A text that starts and ends with other characters has no white space to
/// trim.
proof fn nothing_to_trim(s: Seq<char>)
    requires
        s.len() > 0,
        !text::space(s[0]),
        !text::space(s.last()),
    ensures
        text::trimmed(s) == s,
{
    assert(text::first_word(s, 0) == 0);
    assert(text::last_word(s, s.len() as int) == s.len());
    assert(s.subrange(0, s.len() as int) =~= s);
}

/// A text without a character is its own head.
proof fn whole_head(s: Seq<char>, c: char)
    requires
        lacks(s, c),
    ensures
        text::head_of(s, c) == s,
{
    reveal(lacks);
    text::index_from_bounds(s, c, 0);
}

proof fn padding_is_gap(s: Seq<char>, width: nat) -> (gap: Seq<char>)
    ensures
        is_gap(gap),
        text::padded(s, width) == s + gap,
        lacks(gap, '#'),
        lacks(gap, ';'),
        lacks(gap, '\n'),
{
    reveal(is_gap);
    reveal(lacks);
    if s.len() < width {
        Seq::new((width - s.len()) as nat, |i: int| ' ')
    } else {
        assert(s + Seq::<char>::empty() =~= s);
        Seq::empty()
    }
}

// ---------------------------------------------------------------------------
// Numbers.

/// Text of digits: no sign, no white space and no comment.
proof fn digits_plain(n: int, radix: int)
    requires
        0 <= n,
        2 <= radix <= 16,
    ensures
        is_word(num::digits(n, radix)),
        forall|i: int|
            0 <= i < num::digits(n, radix).len() ==> {
                let c = #[trigger] num::digits(n, radix)[i];
                c != '#' && c != ';' && c != '\n' && c != '+' && c != '-' && c != 'x' && c != 'X'
            },
{
    reveal(is_word);
    num::digits_value(n, radix);
    let d = num::digits(n, radix);
    assert forall|i: int| 0 <= i < d.len() implies ({
        let c = #[trigger] d[i];
        !text::space(c) && c != '#' && c != ';' && c != '\n' && c != '+' && c != '-' && c != 'x' && c != 'X'
    }) by {
        assert(num::digit(d[i], radix) is Some);
    }
}

/// A hexadecimal number is read back.
proof fn hex_read(n: int)
    requires
        0 <= n <= i64::MAX,
    ensures
        num::number(num::hex(n)) == Some(n),
        is_word(num::hex(n)),
        lacks(num::hex(n), '#'),
        lacks(num::hex(n), ';'),
        lacks(num::hex(n), '+'),
        lacks(num::hex(n), '-'),
        num::hex(n)[0] == '0',
        num::hex(n).len() >= 3,
{
    reveal(is_word);
    reveal(lacks);
    let d = num::digits(n, 16);
    let h = num::hex(n);
    num::digits_value(n, 16);
    digits_plain(n, 16);
    reveal_strlit("0x");
    assert(h.len() == 2 + d.len());
    assert(h.skip(2) =~= d);
    assert(h.subrange(0, 2) =~= "0x"@);
    assert(text::after(h, "0x"@) == Some(d));
    assert(d[0] != '-' && d[0] != '+');
    assert forall|i: int| 0 <= i < h.len() implies ({
        let c = #[trigger] h[i];
        !text::space(c) && c != '#' && c != ';' && c != '+' && c != '-'
    }) by {
        if i >= 2 {
            assert(h[i] == d[i - 2]);
        }
    }
}

// ---------------------------------------------------------------------------
// Words separated by blanks.

/// A word that holds no comment.
pub open spec fn is_plain(s: Seq<char>) -> bool {
    is_word(s) && lacks(s, '#') && lacks(s, ';')
}

pub open spec fn all_plain(t: Seq<Seq<char>>) -> bool {
    forall|i: int| 0 <= i < t.len() ==> is_plain(#[trigger] t[i])
}

proof fn joined_front(t: Seq<Seq<char>>, sep: Seq<char>, n: nat)
    requires
        2 <= n <= t.len(),
    ensures
        text::joined(t, sep, n) == t[0] + sep + text::joined(t.skip(1), sep, (n - 1) as nat),
    decreases n,
{
    let u = t.skip(1);
    if n == 2 {
        assert(text::joined(t, sep, 1) == t[0]);
        assert(text::joined(u, sep, 1) == u[0]);
    } else {
        joined_front(t, sep, (n - 1) as nat);
        assert(u[n - 2] == t[n - 1]);
        let a = text::joined(u, sep, (n - 2) as nat);
        assert(t[0] + sep + a + sep + t[n - 1] =~= t[0] + sep + (a + sep + t[n - 1]));
    }
}

/// Joined words are what the words of the joined text are.
proof fn joined_words(t: Seq<Seq<char>>)
    requires
        t.len() > 0,
        all_plain(t),
    ensures
        text::words(text::joined(t, " "@, t.len())) == t,
    decreases t.len(),
{
    blank_is_gap();
    reveal_strlit(" ");
    if t.len() == 1 {
        one_word(t[0]);
        assert(t =~= seq![t[0]]);
    } else {
        joined_front(t, " "@, t.len());
        let u = t.skip(1);
        assert forall|i: int| 0 <= i < u.len() implies is_plain(#[trigger] u[i]) by {
            assert(u[i] == t[i + 1]);
        }
        joined_words(u);
        word_first(t[0], " "@, text::joined(u, " "@, u.len()));
        assert(t =~= seq![t[0]] + u);
    }
}

/// A joined text starts and ends as its first and last part do, and holds no
/// comment.
proof fn joined_plain(t: Seq<Seq<char>>, n: nat)
    requires
        0 < n <= t.len(),
        all_plain(t),
    ensures
        ({
            let s = text::joined(t, " "@, n);
            &&& s.len() > 0
            &&& s[0] == t[0][0]
            &&& !text::space(s[0])
            &&& !text::space(s.last())
            &&& lacks(s, '#')
            &&& lacks(s, ';')
            &&& lacks(s, '\n')
        }),
    decreases n,
{
    reveal(is_word);
    reveal(lacks);
    reveal_strlit(" ");
    assert(is_plain(t[n - 1]));
    let last = t[n - 1];
    assert forall|i: int| 0 <= i < last.len() implies #[trigger] last[i] != '\n' by {
        assert(!text::space(last[i]));
    }
    if n > 1 {
        joined_plain(t, (n - 1) as nat);
        let a = text::joined(t, " "@, (n - 1) as nat);
        let s = text::joined(t, " "@, n);
        assert(s == a + " "@ + last);
        assert(s.last() == last.last());
        assert forall|i: int| 0 <= i < s.len() implies ({
            let c = #[trigger] s[i];
            c != '#' && c != ';' && c != '\n'
        }) by {
            if i < a.len() {
                assert(s[i] == a[i]);
            } else if i == a.len() {
                assert(s[i] == ' ');
            } else {
                assert(s[i] == last[i - a.len() - 1]);
            }
        }
    }
}

proof fn joined_prefix(t: Seq<Seq<char>>, u: Seq<Seq<char>>, n: nat)
    requires
        n <= t.len(),
        n <= u.len(),
        forall|i: int| 0 <= i < n ==> t[i] == u[i],
    ensures
        text::joined(t, " "@, n) == text::joined(u, " "@, n),
    decreases n,
{
    if n > 1 {
        joined_prefix(t, u, (n - 1) as nat);
    }
}

// ---------------------------------------------------------------------------
// Tokens of a pattern.

proof fn byte_token_read(v: u8)
    ensures
        is_plain(sigs::byte_text(Some(v))),
        forall|p: PatternV| #[trigger]
            sigs::with_token(p, sigs::byte_text(Some(v))) == Ok::<PatternV, FaultV>(
                PatternV { bytes: p.bytes.push(Some(v)), ..p },
            ),
{
    reveal(is_word);
    reveal(lacks);
    let t = sigs::byte_text(Some(v));
    let hi = v as int / 16;
    let lo = v as int % 16;
    reveal_strlit("[rel32]");
    reveal_strlit("[rip]");
    reveal_strlit("[u32]");
    reveal_strlit("[4]");
    reveal_strlit("[i32]");
    reveal_strlit("[u16]");
    reveal_strlit("[2]");
    reveal_strlit("[u8]");
    reveal_strlit("[1]");
    reveal_strlit("[i8]");
    reveal_strlit("?");
    reveal_strlit("??");
    reveal_strlit("+");
    reveal_strlit("-");
    assert(0 <= hi < 16 && 0 <= lo < 16);
    assert(num::digit(t[0], 16) == Some(hi));
    assert(num::digit(t[1], 16) == Some(lo));
    assert(text::lowered(t).len() == 2);
    assert(sigs::Cap::named(text::lowered(t)) is None);
    assert(t.len() == 2);
    assert(t[0] != '?' && t[0] != '+' && t[0] != '-');
    assert("??"@[0] == '?');
    if text::prefixed(t, "+"@) {
        assert(t.subrange(0, 1)[0] == '+');
    }
    if text::prefixed(t, "-"@) {
        assert(t.subrange(0, 1)[0] == '-');
    }
    vstd::utf8::is_ascii_chars_encode_utf8(t);
    assert(num::value(t, 16, 0) == Some(0int));
    assert(num::value(t, 16, 1) == Some(hi));
    assert(num::value(t, 16, 2) == Some(hi * 16 + lo));
    assert(num::unsigned(t, 16, 255) == Some(v as int));
}

proof fn wild_token_read()
    ensures
        is_plain("??"@),
        forall|p: PatternV| #[trigger]
            sigs::with_token(p, "??"@) == Ok::<PatternV, FaultV>(PatternV { bytes: p.bytes.push(None), ..p }),
{
    reveal(is_word);
    reveal(lacks);
    reveal_strlit("[rel32]");
    reveal_strlit("[rip]");
    reveal_strlit("[u32]");
    reveal_strlit("[4]");
    reveal_strlit("[i32]");
    reveal_strlit("[u16]");
    reveal_strlit("[2]");
    reveal_strlit("[u8]");
    reveal_strlit("[1]");
    reveal_strlit("[i8]");
    reveal_strlit("??");
    assert(text::lowered("??"@).len() == 2);
}

proof fn capture_token_read(c: Cap)
    ensures
        is_plain(c.text()),
        Cap::named(text::lowered(c.text())) == Some(c),
{
    reveal(is_word);
    reveal(lacks);
    reveal_strlit("[rel32]");
    reveal_strlit("[rip]");
    reveal_strlit("[u32]");
    reveal_strlit("[4]");
    reveal_strlit("[i32]");
    reveal_strlit("[u16]");
    reveal_strlit("[2]");
    reveal_strlit("[u8]");
    reveal_strlit("[1]");
    reveal_strlit("[i8]");
    let t = c.text();
    assert(text::lowered(t) =~= t);
    match c {
        Cap::Rel32 => {},
        Cap::U32 => {
            assert(t[1] == 'u');
        },
        Cap::I32 => {
            assert(t[1] == 'i');
        },
        Cap::U16 => {
            assert(t[1] == 'u' && t[2] == '1');
        },
        Cap::U8 => {
            assert(t[1] == 'u');
        },
        Cap::I8 => {
            assert(t[1] == 'i');
        },
    }
}

/// A capture lies inside a pattern, on bytes that the pattern leaves open.
pub open spec fn captures_well(bytes: Seq<Option<u8>>, capture: Option<(usize, Cap)>) -> bool {
    match capture {
        Some((p, c)) => p + c.width() <= bytes.len() && forall|k: int|
            p <= k < p + c.width() ==> #[trigger] bytes[k] is None,
        None => true,
    }
}

/// The capture, once the pattern is read up to byte `i`.
pub open spec fn capture_by(capture: Option<(usize, Cap)>, i: int) -> Option<(usize, Cap)> {
    match capture {
        Some((p, c)) => if p < i {
            capture
        } else {
            None
        },
        None => None,
    }
}

/// Byte `i` is not inside a capture that starts before it.
spec fn at_token(capture: Option<(usize, Cap)>, i: int) -> bool {
    match capture {
        Some((p, c)) => i <= p || p + c.width() <= i,
        None => true,
    }
}

proof fn tokens_plain(bytes: Seq<Option<u8>>, capture: Option<(usize, Cap)>, i: int)
    ensures
        all_plain(sigs::pattern_tokens(bytes, capture, i)),
        0 <= i < bytes.len() ==> sigs::pattern_tokens(bytes, capture, i).len() > 0,
    decreases bytes.len() - i,
{
    if 0 <= i < bytes.len() {
        if capture is Some && capture.unwrap().0 == i {
            let c = capture.unwrap().1;
            capture_token_read(c);
            tokens_plain(bytes, capture, crate::pe::min(i + c.width(), bytes.len() as int));
        } else {
            match bytes[i] {
                Some(v) => byte_token_read(v),
                None => wild_token_read(),
            }
            tokens_plain(bytes, capture, i + 1);
        }
    }
}

/// The words from `k` on are the tokens of a pattern from byte `i` on: they
/// complete the pattern.
#[verifier::rlimit(40)]
proof fn tokens_read(words: Seq<Seq<char>>, k: int, bytes: Seq<Option<u8>>, capture: Option<(usize, Cap)>, i: int)
    requires
        2 <= k,
        0 <= i <= bytes.len() <= usize::MAX,
        captures_well(bytes, capture),
        at_token(capture, i),
        ({
            let t = sigs::pattern_tokens(bytes, capture, i);
            k + t.len() <= words.len() && forall|j: int| 0 <= j < t.len() ==> words[k + j] == #[trigger] t[j]
        }),
        sigs::pattern_of(words, k) == Ok::<PatternV, FaultV>(
            PatternV { bytes: bytes.take(i), capture: capture_by(capture, i), adjust: 0 },
        ),
    ensures
        sigs::pattern_of(words, k + sigs::pattern_tokens(bytes, capture, i).len()) == Ok::<PatternV, FaultV>(
            PatternV { bytes, capture, adjust: 0 },
        ),
    decreases bytes.len() - i,
{
    let t = sigs::pattern_tokens(bytes, capture, i);
    if i == bytes.len() {
        assert(bytes.take(i) =~= bytes);
    } else {
        assert(words[k + 0] == t[0]);
        let p = PatternV { bytes: bytes.take(i), capture: capture_by(capture, i), adjust: 0 };
        let (next, rest) = if capture is Some && capture.unwrap().0 == i {
            let c = capture.unwrap().1;
            let next = crate::pe::min(i + c.width(), bytes.len() as int);
            capture_token_read(c);
            assert(p.capture is None);
            assert(bytes.take(i) + sigs::wildcards(c.width()) =~= bytes.take(next));
            (next, sigs::pattern_tokens(bytes, capture, next))
        } else {
            match bytes[i] {
                Some(v) => byte_token_read(v),
                None => wild_token_read(),
            }
            assert(bytes.take(i).push(bytes[i]) =~= bytes.take(i + 1));
            (i + 1, sigs::pattern_tokens(bytes, capture, i + 1))
        };
        assert(t =~= seq![t[0]] + rest);
        assert(sigs::pattern_of(words, k + 1) == Ok::<PatternV, FaultV>(
            PatternV { bytes: bytes.take(next), capture: capture_by(capture, next), adjust: 0 },
        ));
        assert forall|j: int| 0 <= j < rest.len() implies words[k + 1 + j] == #[trigger] rest[j] by {
            assert(t[j + 1] == rest[j]);
            assert(words[k + (j + 1)] == t[j + 1]);
        }
        tokens_read(words, k + 1, bytes, capture, next);
    }
}

proof fn signed_token_read(a: i64)
    requires
        a > i64::MIN,
    ensures
        is_plain(sigs::delta_text(a)),
        sigs::unsign(sigs::delta_text(a)) == Some(num::hex(if a >= 0 {
            a as int
        } else {
            -a
        })),
        text::prefixed(sigs::delta_text(a), "-"@) == (a < 0),
        sigs::unsigned_part(sigs::delta_text(a)) == num::hex(if a >= 0 {
            a as int
        } else {
            -a
        }),
        forall|p: PatternV| #[trigger]
            sigs::with_token(p, sigs::delta_text(a)) == Ok::<PatternV, FaultV>(PatternV { adjust: a, ..p }),
{
    reveal(is_word);
    reveal(lacks);
    let m = if a >= 0 {
        a as int
    } else {
        -a
    };
    hex_read(m);
    let h = num::hex(m);
    let t = sigs::delta_text(a);
    reveal_strlit("+");
    reveal_strlit("-");
    reveal_strlit("[rel32]");
    reveal_strlit("[rip]");
    reveal_strlit("[u32]");
    reveal_strlit("[4]");
    reveal_strlit("[i32]");
    reveal_strlit("[u16]");
    reveal_strlit("[2]");
    reveal_strlit("[u8]");
    reveal_strlit("[1]");
    reveal_strlit("[i8]");
    reveal_strlit("?");
    reveal_strlit("??");
    assert(t.skip(1) =~= h);
    assert(t.len() == h.len() + 1);
    assert(t[0] == if a >= 0 {
        '+'
    } else {
        '-'
    });
    assert forall|i: int| 0 <= i < t.len() implies ({
        let c = #[trigger] t[i];
        !text::space(c) && c != '#' && c != ';'
    }) by {
        if i > 0 {
            assert(t[i] == h[i - 1]);
        }
    }
    let l = text::lowered(t);
    assert(l[0] == t[0]);
    assert(Cap::named(l) is None);
    assert(t.subrange(0, 1) =~= seq![t[0]]);
    assert("+"@ =~= seq!['+']);
    assert("-"@ =~= seq!['-']);
    if text::prefixed(t, "+"@) {
        assert(t.subrange(0, 1)[0] == '+');
    }
    if text::prefixed(t, "-"@) {
        assert(t.subrange(0, 1)[0] == '-');
    }
    assert(text::prefixed(t, "-"@) == (a < 0));
    assert(text::prefixed(t, "+"@) == (a >= 0));
    assert(sigs::unsigned_part(h) == h);
    assert(sigs::unsigned_part(t) == sigs::unsigned_part(t.skip(1)));
}

// ---------------------------------------------------------------------------
// Signatures.

proof fn regroup(head: Seq<char>, n: Seq<char>, g: Seq<char>, b: Seq<char>, tail: Seq<char>)
    ensures
        head + (n + g) + b + tail == head + (n + (g + b) + tail),
{
    assert(head + (n + g) + b + tail =~= head + (n + (g + b) + tail));
}

proof fn regroup_end(head: Seq<char>, a: Seq<char>, b: Seq<char>)
    ensures
        head + (a + b) == head + a + b,
{
    assert(head + (a + b) =~= head + a + b);
}

proof fn gap_grows(g: Seq<char>)
    requires
        is_gap(g),
        lacks(g, '#'),
        lacks(g, ';'),
        lacks(g, '\n'),
    ensures
        is_gap(g + " "@),
        (g + " "@).len() > 0,
        lacks(g + " "@, '#'),
        lacks(g + " "@, ';'),
        lacks(g + " "@, '\n'),
{
    reveal(is_word);
    reveal(is_gap);
    reveal(lacks);
    reveal_strlit(" ");
    let gap = g + " "@;
    assert forall|i: int| 0 <= i < gap.len() implies ({
        let c = #[trigger] gap[i];
        text::space(c) && c != '#' && c != ';' && c != '\n'
    }) by {
        if i < g.len() {
            assert(gap[i] == g[i]);
        } else {
            assert(gap[i] == ' ');
        }
    }
}

impl SigV {
    /// What a line can carry: a name that is one word without a comment, a
    /// pattern with a fixed byte, a capture on open bytes of the pattern, and
    /// an adjustment whose magnitude is a 64-bit number.
    pub open spec fn writable(self) -> bool {
        &&& is_plain(self.name)
        &&& self.bytes.len() <= usize::MAX
        &&& sigs::has_fixed(self.bytes)
        &&& captures_well(self.bytes, self.capture)
        &&& self.adjust > i64::MIN
    }

    /// The words behind kind and name.
    spec fn tail_words(self) -> Seq<Seq<char>> {
        let t = sigs::pattern_tokens(self.bytes, self.capture, 0);
        if self.adjust == 0 {
            t
        } else {
            t.push(sigs::delta_text(self.adjust))
        }
    }

    proof fn tail_is_plain(self)
        requires
            self.writable(),
        ensures
            self.tail_words().len() > 0,
            all_plain(self.tail_words()),
            ({
                let t = sigs::pattern_tokens(self.bytes, self.capture, 0);
                text::joined(self.tail_words(), " "@, self.tail_words().len()) == text::joined(t, " "@, t.len())
                    + sigs::adjust_text(self.adjust)
            }),
    {
        let t = sigs::pattern_tokens(self.bytes, self.capture, 0);
        let w = self.tail_words();
        let j = choose|j: int| 0 <= j < self.bytes.len() && (#[trigger] self.bytes[j]) is Some;
        tokens_plain(self.bytes, self.capture, 0);
        let s = text::joined(t, " "@, t.len());
        if self.adjust == 0 {
            assert(s + Seq::<char>::empty() =~= s);
        } else {
            signed_token_read(self.adjust);
            joined_prefix(t, w, t.len());
            reveal_strlit(" ");
            reveal_strlit(" +");
            reveal_strlit(" -");
            reveal_strlit("+");
            reveal_strlit("-");
            let d = sigs::delta_text(self.adjust);
            assert(" "@ + d =~= sigs::adjust_text(self.adjust));
            assert(s + " "@ + d =~= s + (" "@ + d));
        }
    }

    #[verifier::rlimit(40)]
    proof fn line_words(self)
        requires
            self.writable(),
        ensures
            text::words(self.line()) == seq![self.kind.text(), self.name] + self.tail_words(),
            self.line().len() > 0,
            !text::space(self.line()[0]),
            self.line()[0] != '[',
            !text::space(self.line().last()),
            lacks(self.line(), '#'),
            lacks(self.line(), ';'),
            lacks(self.line(), '\n'),
    {
        self.tail_is_plain();
        let w = self.tail_words();
        let tail = text::joined(w, " "@, w.len());
        joined_words(w);
        joined_plain(w, w.len());
        let k = self.kind.text();
        kind_is_plain(self.kind);
        word_edges(k);
        let g1 = padding_is_gap(k, 6);
        let g2 = padding_is_gap(self.name, 48);
        let b = " "@;
        gap_grows(g1);
        gap_grows(g2);
        let rest = self.name + (g2 + b) + tail;
        let line = self.line();
        assert(line == k + (g1 + b) + rest) by {
            let t = sigs::pattern_tokens(self.bytes, self.capture, 0);
            let head = k + g1 + b;
            regroup_end(head + (self.name + g2) + b, text::joined(t, " "@, t.len()), sigs::adjust_text(self.adjust));
            regroup(head, self.name, g2, b, tail);
            regroup_end(k, g1, b);
        }
        word_first(k, g1 + b, rest);
        word_first(self.name, g2 + b, tail);
        assert(seq![k] + (seq![self.name] + w) =~= seq![k, self.name] + w);
        assert(line[0] == k[0]);
        assert(line.last() == tail.last());
        assert forall|i: int| 0 <= i < line.len() implies ({
            let c = #[trigger] line[i];
            c != '#' && c != ';' && c != '\n'
        }) by {
            pieces(k, g1 + b, self.name, g2 + b, tail, i);
        }
        reveal(lacks);
    }

    /// A signature that is written is read back.
    pub proof fn line_is_read(self)
        requires
            self.writable(),
        ensures
            sigs::line_of(self.line(), self.module) == LineV::Sig(self),
            sigs::extra_line(self.line()) is None,
    {
        let line = self.line();
        self.line_words();
        whole_head(line, '#');
        whole_head(line, ';');
        nothing_to_trim(line);
        reveal_strlit("[");
        if text::prefixed(line, "["@) {
            assert(line.subrange(0, 1)[0] == '[');
        }
        let w = text::words(line);
        let k = self.kind.text();
        kind_is_plain(self.kind);
        assert(w[0] == k);
        assert(w[1] == self.name);
        let t = sigs::pattern_tokens(self.bytes, self.capture, 0);
        assert(self.bytes.take(0) =~= Seq::empty());
        assert forall|j: int| 0 <= j < t.len() implies w[2 + j] == #[trigger] t[j] by {
            assert(self.tail_words()[j] == t[j]);
        }
        tokens_read(w, 2, self.bytes, self.capture, 0);
        if self.adjust != 0 {
            signed_token_read(self.adjust);
            assert(w[2 + t.len() as int] == sigs::delta_text(self.adjust));
            assert(w.len() == 2 + t.len() + 1);
        } else {
            assert(w.len() == 2 + t.len());
        }
    }
}

/// Every piece of a line that holds no comment and no line feed.
proof fn pieces(k: Seq<char>, g1: Seq<char>, n: Seq<char>, g2: Seq<char>, t: Seq<char>, i: int)
    requires
        is_plain(k),
        is_plain(n),
        lacks(g1, '#') && lacks(g1, ';') && lacks(g1, '\n'),
        lacks(g2, '#') && lacks(g2, ';') && lacks(g2, '\n'),
        lacks(t, '#') && lacks(t, ';') && lacks(t, '\n'),
        0 <= i < (k + g1 + (n + g2 + t)).len(),
    ensures
        ({
            let c = (k + g1 + (n + g2 + t))[i];
            c != '#' && c != ';' && c != '\n'
        }),
{
    reveal(is_word);
    reveal(lacks);
    let s = k + g1 + (n + g2 + t);
    let a = k.len() as int;
    let b = a + g1.len();
    let c = b + n.len();
    let d = c + g2.len();
    if i < a {
        assert(s[i] == k[i]);
        assert(!text::space(k[i]));
    } else if i < b {
        assert(s[i] == g1[i - a]);
    } else if i < c {
        assert(s[i] == n[i - b]);
        assert(!text::space(n[i - b]));
    } else if i < d {
        assert(s[i] == g2[i - c]);
    } else {
        assert(s[i] == t[i - d]);
    }
}

proof fn kind_is_plain(k: Kind)
    ensures
        is_plain(k.text()),
        k.text()[0] != '[',
        Kind::named(k.text()) == Some(k),
        !sigs::is_extra_kind(k.text()),
{
    reveal(is_word);
    reveal(lacks);
    reveal_strlit("func");
    reveal_strlit("fn");
    reveal_strlit("function");
    reveal_strlit("field");
    reveal_strlit("member");
    reveal_strlit("global");
    reveal_strlit("data");
    reveal_strlit("vslot");
    reveal_strlit("rel");
    reveal_strlit("relsub");
    match k {
        Kind::Func => {
            assert(k.text()[0] == 'f');
        },
        Kind::Field => {
            assert(k.text()[0] == 'f' && k.text()[1] == 'i');
        },
        Kind::Global => {
            assert(k.text()[0] == 'g');
        },
    }
}

// ---------------------------------------------------------------------------
// Fallback records.

proof fn lacks_both(a: Seq<char>, b: Seq<char>, c: char)
    requires
        lacks(a, c),
        lacks(b, c),
    ensures
        lacks(a + b, c),
{
    reveal(lacks);
    assert forall|i: int| 0 <= i < (a + b).len() implies #[trigger] (a + b)[i] != c by {
        if i < a.len() {
            assert((a + b)[i] == a[i]);
        } else {
            assert((a + b)[i] == b[i - a.len()]);
        }
    }
}

proof fn word_lacks_feed(w: Seq<char>)
    requires
        is_word(w),
    ensures
        lacks(w, '\n'),
{
    reveal(is_word);
    reveal(is_gap);
    reveal(lacks);
    assert forall|i: int| 0 <= i < w.len() implies #[trigger] w[i] != '\n' by {
        assert(!text::space(w[i]));
    }
}

/// A line of a word, a gap and a rest that is no white space.
pub open spec fn is_record(line: Seq<char>, kind: Seq<char>, gap: Seq<char>, rest: Seq<char>) -> bool {
    &&& line == kind + gap + rest
    &&& is_plain(kind)
    &&& is_gap(gap)
    &&& gap.len() > 0
    &&& lacks(gap, '#') && lacks(gap, ';') && lacks(gap, '\n')
    &&& rest.len() > 0
    &&& lacks(rest, '#') && lacks(rest, ';') && lacks(rest, '\n')
    &&& !text::space(rest[0])
    &&& !text::space(rest.last())
}

proof fn record_words(line: Seq<char>, kind: Seq<char>, gap: Seq<char>, rest: Seq<char>)
    requires
        is_record(line, kind, gap, rest),
    ensures
        sigs::uncommented(line) == line,
        text::words(line) == seq![kind] + text::words(rest),
        line.len() > 0,
        line[0] == kind[0],
        lacks(line, '\n'),
        line.last() != '\r',
{
    word_edges(kind);
    lacks_both(kind, gap, '#');
    lacks_both(kind + gap, rest, '#');
    word_lacks_feed(kind);
    lacks_both(kind, gap, '\n');
    lacks_both(kind + gap, rest, '\n');
    lacks_both(kind, gap, ';');
    lacks_both(kind + gap, rest, ';');
    whole_head(line, '#');
    whole_head(line, ';');
    assert(line[0] == kind[0]);
    assert(line.last() == rest.last());
    assert(!text::space(kind[0]));
    nothing_to_trim(line);
    word_first(kind, gap, rest);
}

/// A record whose kind is read elsewhere is no signature.
proof fn record_is_skipped(line: Seq<char>, kind: Seq<char>, gap: Seq<char>, rest: Seq<char>, module: Seq<char>)
    requires
        is_record(line, kind, gap, rest),
        sigs::is_extra_kind(kind),
        kind[0] != '[',
    ensures
        sigs::line_of(line, module) == LineV::Skip,
{
    record_words(line, kind, gap, rest);
    assert(text::words(rest).len() > 0) by {
        assert(text::first_word(rest, 0) == 0);
    }
    reveal_strlit("[");
    if text::prefixed(line, "["@) {
        assert(line.subrange(0, 1)[0] == '[');
    }
}

proof fn dec_read(n: int)
    requires
        0 <= n <= usize::MAX,
    ensures
        num::unsigned(num::dec(n), 10, usize::MAX as int) == Some(n),
        is_plain(num::dec(n)),
{
    reveal(is_word);
    reveal(lacks);
    num::digits_value(n, 10);
    digits_plain(n, 10);
    let d = num::digits(n, 10);
    assert(d[0] != '+');
    assert forall|i: int| 0 <= i < d.len() implies #[trigger] d[i] != '#' by {
    }
}

/// Three words behind each other.
proof fn three_words(a: Seq<char>, g: Seq<char>, b: Seq<char>, c: Seq<char>) -> (s: Seq<char>)
    requires
        is_plain(a),
        is_plain(b),
        is_plain(c),
        is_gap(g),
        g.len() > 0,
        lacks(g, '#') && lacks(g, ';') && lacks(g, '\n'),
    ensures
        s == a + g + (b + " "@ + c),
        text::words(s) == seq![a, b, c],
        s.len() > 0,
        s[0] == a[0],
        s.last() == c.last(),
        lacks(s, '#') && lacks(s, ';') && lacks(s, '\n'),
{
    blank_is_gap();
    word_edges(a);
    word_edges(c);
    reveal_strlit(" ");
    let t = b + " "@ + c;
    let s = a + g + t;
    one_word(c);
    word_first(b, " "@, c);
    word_first(a, g, t);
    assert(text::words(s) =~= seq![a, b, c]);
    word_lacks_feed(a);
    word_lacks_feed(b);
    word_lacks_feed(c);
    lacks_both(b, " "@, '#');
    lacks_both(b, " "@, '\n');
    lacks_both(b + " "@, c, '#');
    lacks_both(b + " "@, c, '\n');
    lacks_both(a, g, '#');
    lacks_both(a, g, '\n');
    lacks_both(a + g, t, '#');
    lacks_both(a + g, t, '\n');
    lacks_both(b, " "@, ';');
    lacks_both(b + " "@, c, ';');
    lacks_both(a, g, ';');
    lacks_both(a + g, t, ';');
    s
}

proof fn plus_token(n: int)
    requires
        0 <= n <= i64::MAX,
    ensures
        is_plain("+"@ + num::hex(n)),
        num::number(text::trimmed_start("+"@ + num::hex(n), '+')) == Some(n),
{
    reveal(is_word);
    reveal(lacks);
    hex_read(n);
    let h = num::hex(n);
    let t = "+"@ + h;
    reveal_strlit("+");
    assert(t.skip(1) =~= h);
    assert(text::trimmed_start(h, '+') == h);
    assert(text::trimmed_start(t, '+') == text::trimmed_start(t.skip(1), '+'));
    assert forall|i: int| 0 <= i < t.len() implies ({
        let c = #[trigger] t[i];
        !text::space(c) && c != '#'
    }) by {
        if i > 0 {
            assert(t[i] == h[i - 1]);
        }
    }
}

impl ExtraV {
    /// What a line can carry: names that are words without a comment, and a
    /// distance whose magnitude is a 64-bit number.
    pub open spec fn writable(self) -> bool {
        match self {
            ExtraV::VSlot { name, class, .. } => is_plain(name) && is_plain(class),
            ExtraV::Rel { name, anchor, delta } => is_plain(name) && is_plain(anchor) && delta > i64::MIN,
            ExtraV::RelSub { name, anchor, minus } => is_plain(name) && is_plain(anchor) && is_plain(minus),
        }
    }

    /// The line says this record alone.
    pub open spec fn is_read(self, module: Seq<char>) -> bool {
        &&& sigs::extra_line(self.line()) == Some(self)
        &&& sigs::line_of(self.line(), module) == LineV::Skip
        &&& self.line().len() > 0
        &&& lacks(self.line(), '\n')
        &&& self.line().last() != '\r'
    }

    /// A fallback record that is written is read back, and no signature is
    /// read from it.
    pub proof fn line_is_read(self, module: Seq<char>)
        requires
            self.writable(),
        ensures
            self.is_read(module),
    {
        match self {
            ExtraV::VSlot { name, class, vt_off, index } => {
                slot_is_read(name, class, vt_off, index, module);
            },
            ExtraV::Rel { name, anchor, delta } => {
                rel_is_read(name, anchor, delta, module);
            },
            ExtraV::RelSub { name, anchor, minus } => {
                relsub_is_read(name, anchor, minus, module);
            },
        }
    }
}

proof fn slot_shape(name: Seq<char>, g: Seq<char>, class: Seq<char>, h: Seq<char>, idx: Seq<char>)
    ensures
        "vslot  "@ + (name + g) + " "@ + class + " +"@ + h + " "@ + idx == "vslot"@ + "  "@ + (name + (g + " "@) + (class
            + " "@ + (("+"@ + h) + " "@ + idx))),
{
    reveal_strlit(" ");
    reveal_strlit("vslot");
    reveal_strlit("vslot  ");
    reveal_strlit("  ");
    reveal_strlit("+");
    reveal_strlit(" +");
    let b = " "@;
    assert("vslot  "@ =~= "vslot"@ + "  "@);
    assert(" +"@ =~= b + "+"@);
    let head = "vslot"@ + "  "@;
    let first = head + (name + g) + b + class;
    regroup_end(first, b, "+"@);
    regroup_end(first + b, "+"@, h);
    let off = "+"@ + h;
    assert(first + b + off + b + idx =~= head + (name + g) + b + (class + b + (off + b + idx)));
    regroup(head, name, g, b, class + b + (off + b + idx));
}

proof fn record_shape(head: Seq<char>, name: Seq<char>, g: Seq<char>, x: Seq<char>, y: Seq<char>)
    ensures
        head + (name + g) + " "@ + x + " "@ + y == head + (name + (g + " "@) + (x + " "@ + y)),
{
    let b = " "@;
    regroup_end(head + (name + g) + b, x + b, y);
    regroup_end(head + (name + g) + b, x, b);
    regroup(head, name, g, b, x + b + y);
}

proof fn kinds_are_plain()
    ensures
        is_plain("vslot"@) && is_plain("rel"@) && is_plain("relsub"@),
        "vslot"@[0] != '[' && "rel"@[0] != '[' && "relsub"@[0] != '[',
        "rel"@.len() == 3 && "relsub"@.len() == 6 && "vslot"@.len() == 5,
{
    reveal(is_word);
    reveal(lacks);
    reveal_strlit("vslot");
    reveal_strlit("rel");
    reveal_strlit("relsub");
}

proof fn wide_gaps()
    ensures
        is_gap("  "@) && is_gap("    "@),
        "  "@.len() == 2 && "    "@.len() == 4,
        lacks("  "@, '#') && lacks("  "@, ';') && lacks("  "@, '\n'),
        lacks("    "@, '#') && lacks("    "@, ';') && lacks("    "@, '\n'),
        "vslot  "@ == "vslot"@ + "  "@,
        "rel    "@ == "rel"@ + "    "@,
        "relsub "@ == "relsub"@ + " "@,
{
    reveal(is_gap);
    reveal(lacks);
    reveal_strlit(" ");
    reveal_strlit("  ");
    reveal_strlit("    ");
    reveal_strlit("vslot");
    reveal_strlit("rel");
    reveal_strlit("relsub");
    reveal_strlit("vslot  ");
    reveal_strlit("rel    ");
    reveal_strlit("relsub ");
    assert("vslot  "@ =~= "vslot"@ + "  "@);
    assert("rel    "@ =~= "rel"@ + "    "@);
    assert("relsub "@ =~= "relsub"@ + " "@);
}

#[verifier::rlimit(40)]
proof fn slot_is_read(name: Seq<char>, class: Seq<char>, vt_off: u32, index: usize, module: Seq<char>)
    requires
        is_plain(name),
        is_plain(class),
    ensures
        (ExtraV::VSlot { name, class, vt_off, index }).is_read(module),
{
    let e = ExtraV::VSlot { name, class, vt_off, index };
    let line = e.line();
    let kind = "vslot"@;
    let b = " "@;
    kinds_are_plain();
    wide_gaps();
    blank_is_gap();
    let g = padding_is_gap(name, 48);
    let off = "+"@ + num::hex(vt_off as int);
    let idx = num::dec(index as int);
    plus_token(vt_off as int);
    dec_read(index as int);
    let tail = three_words(class, b, off, idx);
    let gap = g + b;
    gap_grows(g);
    let rest = name + gap + tail;
    slot_shape(name, g, class, num::hex(vt_off as int), idx);
    word_edges(name);
    word_edges(idx);
    word_edges(class);
    assert(is_record(line, kind, "  "@, rest)) by {
        lacks_both(name, gap, '#');
        word_lacks_feed(name);
        lacks_both(name, gap, '\n');
        lacks_both(name + gap, tail, '#');
        lacks_both(name + gap, tail, '\n');
        lacks_both(name, gap, ';');
        lacks_both(name + gap, tail, ';');
        assert(rest[0] == name[0]);
        assert(rest.last() == tail.last());
    }
    word_first(name, gap, tail);
    record_words(line, kind, "  "@, rest);
    assert(seq![kind] + (seq![name] + seq![class, off, idx]) =~= seq![kind, name, class, off, idx]);
    record_is_skipped(line, kind, "  "@, rest, module);
}

#[verifier::rlimit(40)]
proof fn rel_is_read(name: Seq<char>, anchor: Seq<char>, delta: i64, module: Seq<char>)
    requires
        is_plain(name),
        is_plain(anchor),
        delta > i64::MIN,
    ensures
        (ExtraV::Rel { name, anchor, delta }).is_read(module),
{
    let e = ExtraV::Rel { name, anchor, delta };
    let line = e.line();
    let kind = "rel"@;
    kinds_are_plain();
    wide_gaps();
    let g = padding_is_gap(name, 48);
    let d = sigs::delta_text(delta);
    signed_token_read(delta);
    hex_read(if delta >= 0 {
        delta as int
    } else {
        -delta
    });
    gap_grows(g);
    let rest = three_words(name, g + " "@, anchor, d);
    record_shape(kind + "    "@, name, g, anchor, d);
    word_edges(name);
    word_edges(d);
    assert(is_record(line, kind, "    "@, rest));
    record_words(line, kind, "    "@, rest);
    assert(seq![kind] + seq![name, anchor, d] =~= seq![kind, name, anchor, d]);
    record_is_skipped(line, kind, "    "@, rest, module);
}

#[verifier::rlimit(40)]
proof fn relsub_is_read(name: Seq<char>, anchor: Seq<char>, minus: Seq<char>, module: Seq<char>)
    requires
        is_plain(name),
        is_plain(anchor),
        is_plain(minus),
    ensures
        (ExtraV::RelSub { name, anchor, minus }).is_read(module),
{
    let e = ExtraV::RelSub { name, anchor, minus };
    let line = e.line();
    let kind = "relsub"@;
    kinds_are_plain();
    wide_gaps();
    blank_is_gap();
    let g = padding_is_gap(name, 48);
    gap_grows(g);
    let rest = three_words(name, g + " "@, anchor, minus);
    record_shape(kind + " "@, name, g, anchor, minus);
    word_edges(name);
    word_edges(minus);
    assert(is_record(line, kind, " "@, rest));
    record_words(line, kind, " "@, rest);
    assert(seq![kind] + seq![name, anchor, minus] =~= seq![kind, name, anchor, minus]);
    record_is_skipped(line, kind, " "@, rest, module);
}

// ---------------------------------------------------------------------------
// Whole files.

/// The line above the signatures of a module.
pub open spec fn header(module: Seq<char>) -> Seq<char> {
    "["@ + module + "]"@
}

/// Signature `n` starts a run of signatures of its module.
pub open spec fn starts_run(sigs: Seq<SigV>, n: int) -> bool {
    n == 0 || sigs[n - 1].module != sigs[n].module
}

/// The lines of the first `n` signatures, each run of a module under its
/// header.
pub open spec fn sig_lines(sigs: Seq<SigV>, n: int) -> Seq<Seq<char>>
    decreases n,
{
    if n <= 0 {
        Seq::empty()
    } else {
        let s = sigs[n - 1];
        let before = sig_lines(sigs, n - 1);
        if starts_run(sigs, n - 1) {
            before.push(header(s.module)).push(s.line())
        } else {
            before.push(s.line())
        }
    }
}

/// The lines of fallback records.
pub open spec fn extra_lines(extras: Seq<ExtraV>) -> Seq<Seq<char>> {
    Seq::new(extras.len(), |i: int| extras[i].line())
}

/// The lines from `i` on, each ended by a line feed.
pub open spec fn lines_text(lines: Seq<Seq<char>>, i: int) -> Seq<char>
    decreases lines.len() - i,
{
    if i < 0 || i >= lines.len() {
        Seq::empty()
    } else {
        lines[i] + "\n"@ + lines_text(lines, i + 1)
    }
}

/// The lines of a signature file.
pub open spec fn file_lines(sigs: Seq<SigV>, extras: Seq<ExtraV>) -> Seq<Seq<char>> {
    sig_lines(sigs, sigs.len() as int) + extra_lines(extras)
}

/// The text of a signature file.
pub open spec fn file_text(sigs: Seq<SigV>, extras: Seq<ExtraV>) -> Seq<char> {
    lines_text(file_lines(sigs, extras), 0)
}

fn write_lines(lines: &Vec<String>) -> (r: String)
    ensures
        r@ == lines_text(lines.deep_view(), 0),
{
    let ghost v = lines.deep_view();
    let ghost all = lines_text(v, 0);
    let mut out = text::empty_text();
    let mut i: usize = 0;
    assert(out@ + all =~= all);
    while i < lines.len()
        invariant
            v == lines.deep_view(),
            all == lines_text(v, 0),
            i <= lines@.len(),
            out@ + lines_text(v, i as int) == all,
        decreases lines@.len() - i,
    {
        let ghost pre = out@;
        assert(lines@[i as int]@ == v[i as int]);
        out.append(lines[i].as_str());
        out.append("\n");
        proof {
            let rest = lines_text(v, i + 1);
            assert(pre + (v[i as int] + "\n"@ + rest) =~= pre + v[i as int] + "\n"@ + rest);
        }
        i += 1;
    }
    assert(out@ + Seq::<char>::empty() =~= out@);
    out
}

fn write_header(module: &str) -> (r: String)
    ensures
        r@ == header(module@),
{
    let mut out = "[".to_owned();
    out.append(module);
    out.append("]");
    out
}

/// The text of a signature file.
pub fn write_signatures(sigs: &Vec<Sig>, extras: &Vec<Extra>) -> (r: String)
    ensures
        r@ == file_text(sigs.deep_view(), extras.deep_view()),
{
    let ghost sv = sigs.deep_view();
    let ghost ev = extras.deep_view();
    let mut lines: Vec<String> = Vec::new();
    let mut i: usize = 0;
    assert(lines.deep_view() =~= Seq::empty());
    while i < sigs.len()
        invariant
            sv == sigs.deep_view(),
            i <= sigs@.len(),
            lines.deep_view() == sig_lines(sv, i as int),
        decreases sigs@.len() - i,
    {
        let s = &sigs[i];
        assert(s.deep_view() == sv[i as int]);
        let starts = if i == 0 {
            true
        } else {
            assert(sigs@[i - 1].deep_view() == sv[i - 1]);
            !text::same(sigs[i - 1].module.as_str(), s.module.as_str())
        };
        if starts {
            text::push_text(&mut lines, write_header(s.module.as_str()));
        }
        text::push_text(&mut lines, s.to_line());
        i += 1;
    }
    let ghost head = lines.deep_view();
    assert(head + extra_lines(ev).take(0) =~= head);
    i = 0;
    while i < extras.len()
        invariant
            ev == extras.deep_view(),
            i <= extras@.len(),
            lines.deep_view() == head + extra_lines(ev).take(i as int),
        decreases extras@.len() - i,
    {
        assert(extras@[i as int].deep_view() == ev[i as int]);
        let ghost before = lines.deep_view();
        text::push_text(&mut lines, extras[i].to_line());
        i += 1;
        assert(head + extra_lines(ev).take(i as int) =~= before.push(ev[i - 1].line()));
    }
    assert(extra_lines(ev).take(i as int) =~= extra_lines(ev));
    write_lines(&lines)
}

/// A text that is one line of a file.
pub open spec fn is_line(s: Seq<char>) -> bool {
    lacks(s, '\n') && (s.len() > 0 ==> s.last() != '\r')
}

proof fn index_shift(p: Seq<char>, s: Seq<char>, c: char, k: int)
    requires
        0 <= k <= s.len(),
    ensures
        text::index_from(p + s, c, p.len() + k) == match text::index_from(s, c, k) {
            Some(i) => Some(p.len() + i),
            None => None,
        },
    decreases s.len() - k,
{
    if k < s.len() {
        assert((p + s)[p.len() + k] == s[k]);
        if s[k] != c {
            index_shift(p, s, c, k + 1);
        }
    }
}

proof fn lines_shift(p: Seq<char>, s: Seq<char>, k: int)
    requires
        0 <= k <= s.len(),
    ensures
        text::lines_from(p + s, p.len() + k) == text::lines_from(s, k),
    decreases s.len() - k,
{
    if k < s.len() {
        index_shift(p, s, '\n', k);
        text::index_from_bounds(s, '\n', k);
        match text::index_from(s, '\n', k) {
            Some(i) => {
                lines_shift(p, s, i + 1);
                assert((p + s).subrange(p.len() + k, p.len() + i) =~= s.subrange(k, i));
            },
            None => {
                assert((p + s).skip(p.len() + k) =~= s.skip(k));
            },
        }
    }
}

/// The lines of a text made of lines are those lines.
proof fn lines_read(lines: Seq<Seq<char>>, i: int)
    requires
        0 <= i <= lines.len(),
        forall|k: int| 0 <= k < lines.len() ==> is_line(#[trigger] lines[k]),
    ensures
        text::lines(lines_text(lines, i)) == lines.skip(i),
    decreases lines.len() - i,
{
    reveal(lacks);
    let s = lines_text(lines, i);
    if i < lines.len() {
        lines_read(lines, i + 1);
        reveal_strlit("\n");
        let l = lines[i];
        let rest = lines_text(lines, i + 1);
        let n = l.len() as int;
        assert(s[n] == '\n');
        assert forall|k: int| 0 <= k < n implies s[k] != '\n' by {
            assert(s[k] == l[k]);
        }
        text::index_from_is(s, '\n', 0, n);
        assert(s.subrange(0, n) =~= l);
        lines_shift(l + "\n"@, rest, 0);
        assert(seq![l] + lines.skip(i + 1) =~= lines.skip(i));
    } else {
        assert(lines.skip(i) =~= Seq::empty());
    }
}

/// What a header can carry.
pub open spec fn module_writable(m: Seq<char>) -> bool {
    lacks(m, ' ') && lacks(m, '\n') && lacks(m, '#') && lacks(m, ';')
}

/// A header that is written is read back.
#[verifier::rlimit(40)]
pub proof fn header_is_read(m: Seq<char>, module: Seq<char>)
    requires
        module_writable(m),
    ensures
        sigs::line_of(header(m), module) == LineV::Module(m),
        sigs::extra_line(header(m)) is None,
        is_line(header(m)),
{
    reveal(lacks);
    let l = header(m);
    reveal_strlit("[");
    reveal_strlit("]");
    reveal_strlit(" ");
    reveal_strlit("vslot");
    reveal_strlit("rel");
    reveal_strlit("relsub");
    assert(l[0] == '[');
    assert(l.last() == ']');
    assert forall|i: int| 0 <= i < l.len() implies ({
        let c = #[trigger] l[i];
        c != '#' && c != ';' && c != '\n' && c != ' '
    }) by {
        if 0 < i < l.len() - 1 {
            assert(l[i] == m[i - 1]);
        }
    }
    whole_head(l, '#');
    whole_head(l, ';');
    nothing_to_trim(l);
    assert(l.subrange(0, 1) =~= "["@);
    assert(l.subrange(l.len() - 1, l.len() as int) =~= "]"@);
    assert(!text::includes(l, " "@)) by {
        text::sub_from_bounds(l, " "@, 0);
        if let Some(i) = text::sub_from(l, " "@, 0) {
            assert(l.subrange(i, i + 1)[0] == ' ');
            assert(l[i] == ' ');
        }
    }
    assert(l.subrange(1, l.len() - 1) =~= m);
    let w = text::words(l);
    assert(text::first_word(l, 0) == 0);
    text::word_bounds(l, 0);
    assert(w[0][0] == '[');
    assert("vslot"@[0] == 'v');
    assert("rel"@[0] == 'r');
    assert("relsub"@[0] == 'r');
}

/// What a signature file can carry.
pub open spec fn file_writable(sigs: Seq<SigV>, extras: Seq<ExtraV>) -> bool {
    &&& forall|i: int| 0 <= i < sigs.len() ==> (#[trigger] sigs[i]).writable() && module_writable(sigs[i].module)
    &&& forall|i: int| 0 <= i < extras.len() ==> (#[trigger] extras[i]).writable()
}

/// The module that applies behind the first `n` signatures.
spec fn module_at(sigs: Seq<SigV>, n: int) -> Seq<char> {
    if n <= 0 {
        sigs::DEFAULT_MODULE@
    } else {
        sigs[n - 1].module
    }
}

proof fn sig_line_is_line(s: SigV)
    requires
        s.writable(),
    ensures
        is_line(s.line()),
{
    s.line_words();
}

proof fn sigs_read(all: Seq<Seq<char>>, list: Seq<SigV>, n: int)
    requires
        0 <= n <= list.len(),
        forall|i: int| 0 <= i < list.len() ==> (#[trigger] list[i]).writable() && module_writable(list[i].module),
        sig_lines(list, n).len() <= all.len(),
        forall|i: int| 0 <= i < sig_lines(list, n).len() ==> #[trigger] all[i] == sig_lines(list, n)[i],
    ensures
        sigs::sigs_of(all, sig_lines(list, n).len() as int) == Ok::<(Seq<SigV>, Seq<char>), ParseErrorV>(
            (list.take(n), module_at(list, n)),
        ),
        sigs::extras_of(all, sig_lines(list, n).len() as int) == Seq::<ExtraV>::empty(),
        forall|i: int| 0 <= i < sig_lines(list, n).len() ==> is_line(#[trigger] sig_lines(list, n)[i]),
    decreases n,
{
    if n > 0 {
        let before = sig_lines(list, n - 1);
        let now = sig_lines(list, n);
        let s = list[n - 1];
        assert(s.writable());
        assert forall|i: int| 0 <= i < before.len() implies #[trigger] all[i] == before[i] by {
            assert(now[i] == before[i]);
        }
        sigs_read(all, list, n - 1);
        s.line_is_read();
        sig_line_is_line(s);
        let b = before.len() as int;
        if starts_run(list, n - 1) {
            header_is_read(s.module, module_at(list, n - 1));
            assert(now[b] == header(s.module));
            assert(now[b + 1] == s.line());
            assert(all[b] == now[b]);
            assert(all[b + 1] == now[b + 1]);
            assert(sigs::sigs_of(all, b + 1) == Ok::<(Seq<SigV>, Seq<char>), ParseErrorV>(
                (list.take(n - 1), s.module),
            ));
            assert(sigs::extras_of(all, b + 1) == Seq::<ExtraV>::empty());
        } else {
            assert(now[b] == s.line());
            assert(all[b] == now[b]);
        }
        assert(list.take(n - 1).push(s) =~= list.take(n));
        assert forall|i: int| 0 <= i < now.len() implies is_line(#[trigger] now[i]) by {
            if i < b {
                assert(now[i] == before[i]);
            }
        }
    } else {
        assert(list.take(n) =~= Seq::empty());
    }
}

proof fn extras_read(all: Seq<Seq<char>>, b: int, got: (Seq<SigV>, Seq<char>), list: Seq<ExtraV>, n: int)
    requires
        0 <= n <= list.len(),
        0 <= b,
        b + n <= all.len(),
        forall|i: int| 0 <= i < list.len() ==> (#[trigger] list[i]).writable(),
        forall|i: int| 0 <= i < n ==> #[trigger] all[b + i] == list[i].line(),
        sigs::sigs_of(all, b) == Ok::<(Seq<SigV>, Seq<char>), ParseErrorV>(got),
        sigs::extras_of(all, b) == Seq::<ExtraV>::empty(),
    ensures
        sigs::sigs_of(all, b + n) == Ok::<(Seq<SigV>, Seq<char>), ParseErrorV>(got),
        sigs::extras_of(all, b + n) == list.take(n),
    decreases n,
{
    if n > 0 {
        extras_read(all, b, got, list, n - 1);
        assert(list[n - 1].writable());
        list[n - 1].line_is_read(got.1);
        assert(all[b + (n - 1)] == list[n - 1].line());
        assert(list.take(n - 1).push(list[n - 1]) =~= list.take(n));
    } else {
        assert(list.take(n) =~= Seq::empty());
    }
}

/// Signatures and fallback records that are written to a file are read back
/// from it, all of them and nothing else, in their order.
pub proof fn file_is_read(sigs: Seq<SigV>, extras: Seq<ExtraV>)
    requires
        file_writable(sigs, extras),
    ensures
        sigs::parsed(file_text(sigs, extras)) == Ok::<Seq<SigV>, ParseErrorV>(sigs),
        sigs::extras_parsed(file_text(sigs, extras)) == extras,
{
    let a = sig_lines(sigs, sigs.len() as int);
    let e = extra_lines(extras);
    let all = a + e;
    let n = sigs.len() as int;
    assert forall|i: int| 0 <= i < a.len() implies #[trigger] all[i] == a[i] by {
    }
    sigs_read(all, sigs, n);
    assert forall|i: int| 0 <= i < extras.len() implies #[trigger] all[a.len() + i] == extras[i].line() by {
        assert(all[a.len() + i] == e[i]);
    }
    extras_read(all, a.len() as int, (sigs.take(n), module_at(sigs, n)), extras, extras.len() as int);
    assert(sigs.take(n) =~= sigs);
    assert(extras.take(extras.len() as int) =~= extras);
    assert forall|k: int| 0 <= k < all.len() implies is_line(#[trigger] all[k]) by {
        if k < a.len() {
            assert(all[k] == a[k]);
        } else {
            let x = extras[k - a.len()];
            assert(all[k] == e[k - a.len()]);
            assert(x.writable());
            x.line_is_read(sigs::DEFAULT_MODULE@);
        }
    }
    lines_read(all, 0);
    assert(all.skip(0) =~= all);
}

} // verus!
