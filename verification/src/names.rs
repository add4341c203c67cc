//! MSVC name demangling helpers.

use vstd::prelude::*;
use vstd::string::{StrSliceExecFns, StringExecFns};

use crate::text;

verus! {

/// Flag bits of a demangling that yields the qualified name alone.
pub const NAME_ONLY: u32 = 0x1000;

/// Flag bits of a full demangling in LLVM's style.
pub const LLVM: u32 = 0xe0_0400;

/// What `msvc_demangler::parse` makes of a symbol: the `Debug` texts of the
/// symbol's name and of its type.
pub uninterp spec fn parsed(sym: Seq<char>) -> Option<(Seq<char>, Seq<char>)>;

/// `msvc_demangler::parse`: the parts of the tree, each in its `Debug` form, or
/// nothing where the symbol is refused. They are a function of the symbol. The
/// symbols on which the parser counts past a machine integer are left out. It
/// recurses as deep as a symbol nests; how deep the machine's stack lets it go
/// is not stated.
#[verifier::external_body]
fn run_parser(sym: &str) -> (r: Option<(String, String)>)
    requires
        !overflowing(sym@),
    ensures
        r.deep_view() == parsed(sym@),
{
    let tree = msvc_demangler::parse(sym).ok()?;
    Some((format!("{:?}", tree.symbol), format!("{:?}", tree.symbol_type)))
}

/// What `msvc_demangler::demangle` makes of a symbol under flag bits.
pub uninterp spec fn demangled(sym: Seq<char>, flags: u32) -> Option<Seq<char>>;

/// `msvc_demangler::demangle`: the demangled text, or nothing where the symbol
/// is refused. The result is a function of the symbol and the flag bits. The
/// symbols on which it can panic are left out: its parser counts in machine
/// integers, and its writer asserts that an anonymous namespace is never the
/// name of a thing. It recurses as deep as a symbol nests; how deep the
/// machine's stack lets it go is not stated.
#[verifier::external_body]
fn run_demangler(sym: &str, flags: u32) -> (r: Option<String>)
    requires
        !hazardous(sym@, flags),
    ensures
        r.deep_view() == demangled(sym@, flags),
{
    let flags = msvc_demangler::DemangleFlags::from_bits_retain(flags);
    msvc_demangler::demangle(sym, flags).ok()
}

// ---------------------------------------------------------------------------
// Symbols that the demangler cannot take.

pub open spec fn is_digit(c: char) -> bool {
    '0' <= c <= '9'
}

pub open spec fn digit_of(c: char) -> int {
    c as u32 - '0' as u32
}

/// Reading the number of a guard from `i` on, `n` having been read, exceeds
/// what 32 bits hold: the number is multiplied before a digit that may be
/// missing.
pub open spec fn guard_overflows(s: Seq<char>, i: int, n: int) -> bool
    decreases s.len() - i,
{
    if n > i32::MAX {
        true
    } else if 0 <= i < s.len() && s[i] == '@' {
        false
    } else if 0 <= i < s.len() && is_digit(s[i]) {
        guard_overflows(s, i + 1, 10 * n + digit_of(s[i]))
    } else {
        10 * n > i32::MAX
    }
}

/// A thread-safe-static guard starts at `i`: at the start of the symbol, or of
/// one that stands among the scopes of another.
pub open spec fn guard_at(s: Seq<char>, i: int) -> bool {
    text::at(s, "$TSS"@, i) && ((i == 1 && s[0] == '?') || (i >= 3 && s[i - 1] == '?' && s[i - 2] == '?'))
}

pub open spec fn long_guard(s: Seq<char>, i: int) -> bool {
    guard_at(s, i) && guard_overflows(s, i + 4, 0)
}

/// The number that letters from `i` on write in base 16, modulo 2^32, `acc`
/// having been read, and where it ends.
pub open spec fn letters(s: Seq<char>, i: int, acc: int) -> Option<(int, int)>
    decreases s.len() - i,
{
    if i < 0 || i >= s.len() {
        None
    } else if s[i] == '@' {
        Some((acc, i + 1))
    } else if 'A' <= s[i] <= 'P' {
        letters(s, i + 1, (acc % 0x1000_0000) * 16 + (s[i] as u32 - 'A' as u32))
    } else {
        None
    }
}

/// The number that is encoded from `i` on, and where it ends.
pub open spec fn number(s: Seq<char>, i: int) -> Option<(int, int)> {
    let neg = 0 <= i < s.len() && s[i] == '?';
    let j = if neg {
        i + 1
    } else {
        i
    };
    if 0 <= j < s.len() && is_digit(s[j]) {
        let d = digit_of(s[j]) + 1;
        Some((if neg {
            -d
        } else {
            d
        }, j + 1))
    } else {
        match letters(s, j, 0) {
            Some((v, e)) => {
                let w = if v > i32::MAX {
                    v - 0x1_0000_0000
                } else {
                    v
                };
                Some((if neg && w > i32::MIN {
                    -w
                } else {
                    w
                }, e))
            },
            None => None,
        }
    }
}

/// Among `n` characters that are encoded from `i` on there is an escape with a
/// digit below the letters.
pub open spec fn low_text(s: Seq<char>, i: int, n: int) -> bool
    decreases n,
{
    if i < 0 || i >= s.len() || n <= 0 {
        false
    } else if s[i] != '?' {
        low_text(s, i + 1, n - 1)
    } else if i + 1 < s.len() && s[i + 1] == '$' {
        (i + 2 < s.len() && s[i + 2] < 'A') || (i + 3 < s.len() && s[i + 3] < 'A') || low_text(s, i + 4, n - 1)
    } else {
        low_text(s, i + 2, n - 1)
    }
}

/// The string literal whose length is encoded from `i` on, and of which at most
/// `cap` bytes are, has such an escape.
pub open spec fn low_literal(s: Seq<char>, i: int, cap: int) -> bool {
    match number(s, i) {
        Some((len, a)) => match number(s, a) {
            Some((_, b)) => low_text(
                s,
                b,
                if len < cap {
                    len
                } else {
                    cap
                },
            ),
            None => false,
        },
        None => false,
    }
}

/// Behind `i` stands an encoded string literal, of characters or of wide ones,
/// with an escape below the letters.
pub open spec fn low_string(s: Seq<char>, i: int) -> bool {
    0 <= i && i + 3 <= s.len() && (s[i] == '@' || is_digit(s[i])) && s[i + 1] == '_' && ((s[i + 2] == '0' && low_literal(
        s,
        i + 3,
        32,
    )) || (s[i + 2] == '1' && low_literal(s, i + 3, 64)))
}

/// The question mark at `i` is the sign of a constant, or of the index of a
/// template parameter.
pub open spec fn is_sign(s: Seq<char>, i: int) -> bool {
    2 <= i < s.len() && s[i - 2] == '$' && (s[i - 1] == '0' || s[i - 1] == 'D')
}

/// The letters that write a number, up to `j`, stand behind a question mark
/// that can start a type.
pub open spec fn behind_mark(s: Seq<char>, j: int) -> bool
    decreases j,
{
    0 < j <= s.len() && if s[j - 1] == '?' {
        !is_sign(s, j - 1)
    } else {
        'A' <= s[j - 1] <= 'P' && behind_mark(s, j - 1)
    }
}

/// The least 32-bit number is encoded from `j` on, as the type that is numbered
/// by its negation.
pub open spec fn least_number(s: Seq<char>, j: int) -> bool {
    text::at(s, "IAAAAAAA@"@, j) && behind_mark(s, j)
}

/// Symbols on which the parser can count past a machine integer: a guard number
/// above 32 bits, a string literal with an escape below the letters, or the
/// encoding of the least 32-bit number where it is negated.
pub open spec fn overflowing(s: Seq<char>) -> bool {
    ||| exists|i: int| long_guard(s, i)
    ||| exists|i: int| low_string(s, i)
    ||| exists|j: int| least_number(s, j)
}

/// A tree in which an anonymous namespace is the name of a thing.
pub open spec fn is_nameless(tree: Seq<char>) -> bool {
    text::includes(tree, "Symbol { name: AnonymousNamespace("@)
}

/// Trees that the demangler cannot write under flag bits. Of the type, the
/// qualified name alone has what a conversion operator converts to.
pub open spec fn is_unwritable(tree: (Seq<char>, Seq<char>), flags: u32) -> bool {
    is_nameless(tree.0) || ((flags != NAME_ONLY || text::prefixed(tree.0, "Symbol { name: Operator(Conversion)"@))
        && is_nameless(tree.1))
}

/// Symbols on which the demangler can panic: those on which its parser counts
/// past a machine integer, and those in which it finds an anonymous namespace
/// where a name is written.
pub open spec fn hazardous(sym: Seq<char>, flags: u32) -> bool {
    overflowing(sym) || (text::includes(sym, "?A"@) && match parsed(sym) {
        Some(tree) => is_unwritable(tree, flags),
        None => false,
    })
}

fn digit_at(c: &Vec<char>, i: usize) -> (r: bool)
    requires
        i < c@.len(),
    ensures
        r == is_digit(c@[i as int]),
{
    '0' <= c[i] && c[i] <= '9'
}

fn is_long_guard(c: &Vec<char>, i: usize) -> (r: bool)
    requires
        i < c@.len(),
    ensures
        r == long_guard(c@, i as int),
{
    let mark = text::chars_of("$TSS");
    proof {
        reveal_strlit("$TSS");
    }
    if !text::stands_at(c.as_slice(), mark.as_slice(), i) {
        return false;
    }
    if !((i == 1 && c[0] == '?') || (i >= 3 && c[i - 1] == '?' && c[i - 2] == '?')) {
        return false;
    }
    let len = c.len();
    let mut k: usize = i + 4;
    let mut n: u64 = 0;
    while n <= 0x7fff_ffff && k < len && digit_at(c, k)
        invariant
            len == c@.len(),
            k <= len,
            n <= 0x4_ffff_ffff,
            guard_overflows(c@, i + 4, 0) == guard_overflows(c@, k as int, n as int),
        decreases len - k,
    {
        n = 10 * n + (c[k] as u32 - '0' as u32) as u64;
        k += 1;
    }
    if n > 0x7fff_ffff {
        return true;
    }
    if k < len && c[k] == '@' {
        return false;
    }
    10 * n > 0x7fff_ffff
}

fn read_letters(c: &Vec<char>, i: usize) -> (r: Option<(u32, usize)>)
    requires
        i <= c@.len(),
    ensures
        match r {
            Some((v, e)) => letters(c@, i as int, 0) == Some((v as int, e as int)) && e <= c@.len(),
            None => letters(c@, i as int, 0) is None,
        },
{
    let len = c.len();
    let mut k: usize = i;
    let mut acc: u32 = 0;
    while k < len
        invariant
            len == c@.len(),
            k <= len,
            letters(c@, i as int, 0) == letters(c@, k as int, acc as int),
        decreases len - k,
    {
        let x = c[k];
        if x == '@' {
            return Some((acc, k + 1));
        }
        if !('A' <= x && x <= 'P') {
            return None;
        }
        acc = (acc % 0x1000_0000) * 16 + (x as u32 - 'A' as u32);
        k += 1;
    }
    None
}

fn read_number(c: &Vec<char>, i: usize) -> (r: Option<(i64, usize)>)
    requires
        i <= c@.len(),
    ensures
        match r {
            Some((v, e)) => number(c@, i as int) == Some((v as int, e as int)) && e <= c@.len(),
            None => number(c@, i as int) is None,
        },
{
    let neg = i < c.len() && c[i] == '?';
    let j: usize = if neg { i + 1 } else { i };
    if j < c.len() && digit_at(c, j) {
        let d: i64 = (c[j] as u32 - '0' as u32) as i64 + 1;
        return Some((if neg { -d } else { d }, j + 1));
    }
    match read_letters(c, j) {
        Some((v, e)) => {
            let w: i64 = if v > 0x7fff_ffff { v as i64 - 0x1_0000_0000 } else { v as i64 };
            Some((if neg && w > -0x8000_0000 { -w } else { w }, e))
        },
        None => None,
    }
}

fn is_low_literal(c: &Vec<char>, i: usize, cap: i64) -> (r: bool)
    requires
        i <= c@.len(),
    ensures
        r == low_literal(c@, i as int, cap as int),
{
    let (count, a) = match read_number(c, i) {
        Some(x) => x,
        None => {
            return false;
        },
    };
    let b = match read_number(c, a) {
        Some((_, b)) => b,
        None => {
            return false;
        },
    };
    let len = c.len();
    let mut n: i64 = if count < cap { count } else { cap };
    let mut k: usize = b;
    while k < len && n > 0
        invariant
            len == c@.len(),
            low_literal(c@, i as int, cap as int) == low_text(c@, k as int, n as int),
        decreases len - k,
    {
        if c[k] != '?' {
            k += 1;
        } else if len - k > 1 && c[k + 1] == '$' {
            if (len - k > 2 && c[k + 2] < 'A') || (len - k > 3 && c[k + 3] < 'A') {
                return true;
            }
            assert(k + 4 > len ==> !low_text(c@, k + 4, n - 1));
            k = if len - k >= 4 { k + 4 } else { len };
        } else {
            assert(k + 2 > len ==> !low_text(c@, k + 2, n - 1));
            k = if len - k >= 2 { k + 2 } else { len };
        }
        n -= 1;
    }
    false
}

fn is_low_string(c: &Vec<char>, i: usize) -> (r: bool)
    requires
        i < c@.len(),
    ensures
        r == low_string(c@, i as int),
{
    if c.len() - i < 3 || !(c[i] == '@' || digit_at(c, i)) || c[i + 1] != '_' {
        return false;
    }
    (c[i + 2] == '0' && is_low_literal(c, i + 3, 32)) || (c[i + 2] == '1' && is_low_literal(c, i + 3, 64))
}

fn is_behind_mark(c: &Vec<char>, j: usize) -> (r: bool)
    requires
        j <= c@.len(),
    ensures
        r == behind_mark(c@, j as int),
{
    let mut k: usize = j;
    while k > 0
        invariant
            k <= j <= c@.len(),
            behind_mark(c@, j as int) == behind_mark(c@, k as int),
        decreases k,
    {
        let x = c[k - 1];
        if x == '?' {
            return !(k >= 3 && c[k - 3] == '$' && (c[k - 2] == '0' || c[k - 2] == 'D'));
        }
        if !('A' <= x && x <= 'P') {
            return false;
        }
        k -= 1;
    }
    false
}

fn is_overflowing(s: &str) -> (r: bool)
    ensures
        r == overflowing(s@),
{
    let c = text::chars_of(s);
    let least = text::chars_of("IAAAAAAA@");
    let mut guard = false;
    let mut string = false;
    let mut number = false;
    let mut i: usize = 0;
    while i < c.len()
        invariant
            c@ == s@,
            least@ == "IAAAAAAA@"@,
            i <= c@.len(),
            guard == (exists|k: int| k < i && long_guard(s@, k)),
            string == (exists|k: int| k < i && low_string(s@, k)),
            number == (exists|k: int| k < i && least_number(s@, k)),
        decreases c@.len() - i,
    {
        let g = is_long_guard(&c, i);
        let l = is_low_string(&c, i);
        let n = text::stands_at(c.as_slice(), least.as_slice(), i) && is_behind_mark(&c, i);
        assert(g == long_guard(s@, i as int));
        assert(l == low_string(s@, i as int));
        assert(n == least_number(s@, i as int));
        guard = guard || g;
        string = string || l;
        number = number || n;
        i += 1;
    }
    proof {
        reveal_strlit("IAAAAAAA@");
        reveal_strlit("$TSS");
    }
    guard || string || number
}

/// Whether the demangler cannot write a tree, given the texts of its parts.
pub fn tree_is_unwritable(name: &str, kind: &str, flags: u32) -> (r: bool)
    ensures
        r == is_unwritable((name@, kind@), flags),
{
    let mark = "Symbol { name: AnonymousNamespace(";
    let conversion = text::chars_of("Symbol { name: Operator(Conversion)");
    let c = text::chars_of(name);
    let whole = flags != NAME_ONLY || text::stands_at(c.as_slice(), conversion.as_slice(), 0);
    text::contains(name, mark) || (whole && text::contains(kind, mark))
}

fn is_hazardous(s: &str, flags: u32) -> (r: bool)
    ensures
        r == hazardous(s@, flags),
{
    if is_overflowing(s) {
        return true;
    }
    if !text::contains(s, "?A") {
        return false;
    }
    match run_parser(s) {
        Some((name, kind)) => tree_is_unwritable(name.as_str(), kind.as_str(), flags),
        None => false,
    }
}

/// What the demangler makes of a symbol, nothing where it could panic.
pub open spec fn safely_demangled(sym: Seq<char>, flags: u32) -> Option<Seq<char>> {
    if hazardous(sym, flags) {
        None
    } else {
        demangled(sym, flags)
    }
}

fn demangle_with(sym: &str, flags: u32) -> (r: Option<String>)
    ensures
        r.deep_view() == safely_demangled(sym@, flags),
{
    if is_hazardous(sym, flags) {
        None
    } else {
        run_demangler(sym, flags)
    }
}

// ---------------------------------------------------------------------------
// Names.

/// A symbol is decorated when it starts with a question mark.
pub open spec fn decorated(sym: Seq<char>) -> bool {
    sym.len() > 0 && sym[0] == '?'
}

fn is_decorated(sym: &str) -> (r: bool)
    ensures
        r == decorated(sym@),
{
    let c = text::chars_of(sym);
    c.len() > 0 && c[0] == '?'
}

/// The full name of a symbol, given what the demangler made of it.
pub open spec fn full_name(sym: Seq<char>, result: Option<Seq<char>>) -> Seq<char> {
    match result {
        Some(s) => if decorated(sym) {
            s
        } else {
            sym
        },
        None => sym,
    }
}

pub fn full_name_of(sym: &str, result: Option<String>) -> (r: String)
    ensures
        r@ == full_name(sym@, result.deep_view()),
{
    if !is_decorated(sym) {
        return sym.to_owned();
    }
    match result {
        Some(s) => s,
        None => sym.to_owned(),
    }
}

/// The demangled form of an MSVC symbol.
pub open spec fn demangle_text(sym: Seq<char>) -> Seq<char> {
    full_name(sym, safely_demangled(sym, LLVM))
}

/// Demangle a full MSVC symbol (e.g. an export). Falls back to the raw name.
pub fn demangle(sym: &str) -> (r: String)
    ensures
        r@ == demangle_text(sym@),
{
    let result = if is_decorated(sym) { demangle_with(sym, LLVM) } else { None };
    full_name_of(sym, result)
}

/// `parts` in reverse order.
pub open spec fn reversed(parts: Seq<Seq<char>>) -> Seq<Seq<char>> {
    Seq::new(parts.len(), |i: int| parts[parts.len() - 1 - i])
}

/// A scope list `name@Scope@Scope@@...` as a qualified name, outermost first.
pub open spec fn scopes_of(body: Seq<char>) -> Seq<char> {
    let end = match text::sub_from(body, "@@"@, 0) {
        Some(i) => i,
        None => body.len() as int,
    };
    let parts = text::split(body.take(end), '@');
    text::joined(reversed(parts), "::"@, parts.len())
}

fn join_scopes(body: &str) -> (r: String)
    ensures
        r@ == scopes_of(body@),
{
    let c = text::chars_of(body);
    let mark = text::chars_of("@@");
    let end: usize = match text::find_sub(c.as_slice(), mark.as_slice(), 0) {
        Some(i) => i,
        None => c.len(),
    };
    let head = text::string_of(c.as_slice(), 0, end);
    assert(head@ =~= body@.take(end as int));
    let mut parts = text::split_on(head.as_str(), '@');
    let ghost all = parts.deep_view();
    let mut rev: Vec<String> = Vec::new();
    while parts.len() > 0
        invariant
            parts@.len() + rev@.len() == all.len(),
            forall|i: int| 0 <= i < parts@.len() ==> (#[trigger] parts@[i])@ == all[i],
            forall|i: int| 0 <= i < rev@.len() ==> (#[trigger] rev@[i])@ == all[all.len() - 1 - i],
        decreases parts@.len(),
    {
        let p = parts.pop();
        if let Some(p) = p {
            rev.push(p);
        }
    }
    assert(rev.deep_view() =~= reversed(all));
    text::join(&rev, "::")
}

/// The qualified function name of a symbol, given what the demangler made of it.
pub open spec fn short_name(sym: Seq<char>, result: Option<Seq<char>>) -> Seq<char> {
    if !decorated(sym) {
        sym
    } else {
        match result {
            Some(s) => s,
            None => scopes_of(sym.skip(1)),
        }
    }
}

pub fn short_name_of(sym: &str, result: Option<String>) -> (r: String)
    ensures
        r@ == short_name(sym@, result.deep_view()),
{
    if !is_decorated(sym) {
        return sym.to_owned();
    }
    match result {
        Some(s) => s,
        None => {
            let n = text::count(sym);
            let body = text::part(sym, 1, n);
            assert(body@ =~= sym@.skip(1));
            join_scopes(body.as_str())
        },
    }
}

/// The qualified function name of an MSVC symbol.
pub open spec fn short_text(sym: Seq<char>) -> Seq<char> {
    short_name(sym, safely_demangled(sym, NAME_ONLY))
}

/// Qualified function name without return type / calling convention / params,
/// e.g. `?init@CCNode@cocos2d@@UEAA_NXZ` -> `cocos2d::CCNode::init`.
pub fn short_function_name(sym: &str) -> (r: String)
    ensures
        r@ == short_text(sym@),
{
    let result = if is_decorated(sym) { demangle_with(sym, NAME_ONLY) } else { None };
    short_name_of(sym, result)
}

/// What follows the class or struct mark of a type descriptor name.
pub open spec fn descriptor_body(raw: Seq<char>) -> Option<Seq<char>> {
    match text::after(raw, ".?AV"@) {
        Some(rest) => Some(rest),
        None => text::after(raw, ".?AU"@),
    }
}

/// A mangled variable declaration of the type of a descriptor.
pub open spec fn variable_of(rest: Seq<char>) -> Seq<char> {
    "?x@@3V"@ + rest + "A"@
}

/// The type in a demangled declaration of a variable `x`.
pub open spec fn declared_type(decl: Seq<char>) -> Option<Seq<char>> {
    let s = text::trimmed(decl);
    let s = match text::after(s, "class "@) {
        Some(t) => t,
        None => match text::after(s, "struct "@) {
            Some(t) => t,
            None => s,
        },
    };
    match text::before(s, " x"@) {
        Some(t) => Some(text::trimmed(t)),
        None => None,
    }
}

pub fn declared_type_of(decl: &str) -> (r: Option<String>)
    ensures
        r.deep_view() == declared_type(decl@),
{
    let s = text::trim(decl);
    let s = match text::strip_prefix(s.as_str(), "class ") {
        Some(t) => t,
        None => match text::strip_prefix(s.as_str(), "struct ") {
            Some(t) => t,
            None => s,
        },
    };
    match text::strip_suffix(s.as_str(), " x") {
        Some(t) => Some(text::trim(t.as_str())),
        None => None,
    }
}

/// The type name of a descriptor, given what the demangler made of a variable
/// declared with it.
pub open spec fn class_name(raw: Seq<char>, result: Option<Seq<char>>) -> Seq<char> {
    match descriptor_body(raw) {
        None => raw,
        Some(rest) => match result {
            Some(decl) => match declared_type(decl) {
                Some(t) => t,
                None => scopes_of(rest),
            },
            None => scopes_of(rest),
        },
    }
}

fn strip_descriptor(raw: &str) -> (r: Option<String>)
    ensures
        r.deep_view() == descriptor_body(raw@),
{
    match text::strip_prefix(raw, ".?AV") {
        Some(rest) => Some(rest),
        None => text::strip_prefix(raw, ".?AU"),
    }
}

pub fn class_name_of(raw: &str, result: Option<String>) -> (r: String)
    ensures
        r@ == class_name(raw@, result.deep_view()),
{
    match strip_descriptor(raw) {
        None => raw.to_owned(),
        Some(rest) => {
            if let Some(decl) = result {
                if let Some(t) = declared_type_of(decl.as_str()) {
                    return t;
                }
            }
            join_scopes(rest.as_str())
        },
    }
}

/// The demangled form of a type descriptor name.
pub open spec fn type_text(raw: Seq<char>) -> Seq<char> {
    match descriptor_body(raw) {
        None => raw,
        Some(rest) => class_name(raw, safely_demangled(variable_of(rest), LLVM)),
    }
}

/// Demangle an RTTI type descriptor name like `.?AVCCNode@cocos2d@@`.
pub fn demangle_type(raw: &str) -> (r: String)
    ensures
        r@ == type_text(raw@),
{
    match strip_descriptor(raw) {
        None => raw.to_owned(),
        Some(rest) => {
            // Wrapped into a variable declaration, the full demangler deals
            // with templates and nested scopes.
            let mut fake = String::new();
            fake.append("?x@@3V");
            fake.append(rest.as_str());
            fake.append("A");
            assert(fake@ =~= variable_of(rest@));
            let result = demangle_with(fake.as_str(), LLVM);
            class_name_of(raw, result)
        },
    }
}

/// The last `::` at or after `i` outside template brackets, `depth` brackets
/// being open at `i`; `best` where there is none.
pub open spec fn last_split(s: Seq<char>, i: int, depth: int, best: Option<int>) -> Option<int>
    decreases s.len() - i,
{
    if i < 0 || i >= s.len() {
        best
    } else if s[i] == '<' {
        last_split(s, i + 1, depth + 1, best)
    } else if s[i] == '>' {
        last_split(s, i + 1, depth - 1, best)
    } else if s[i] == ':' && depth == 0 && i + 1 < s.len() && s[i + 1] == ':' {
        last_split(s, i + 2, depth, Some(i))
    } else {
        last_split(s, i + 1, depth, best)
    }
}

/// Scope and last component of a qualified name.
pub open spec fn member_parts(s: Seq<char>) -> Option<(Seq<char>, Seq<char>)> {
    match last_split(s, 0, 0, None) {
        Some(i) => Some((s.take(i), s.skip(i + 2))),
        None => None,
    }
}

/// The scope of a qualified name.
pub open spec fn scope_of(s: Seq<char>) -> Option<Seq<char>> {
    match member_parts(s) {
        Some(p) => Some(p.0),
        None => None,
    }
}

/// The last component of a qualified name.
pub open spec fn member_of(s: Seq<char>) -> Option<Seq<char>> {
    match member_parts(s) {
        Some(p) => Some(p.1),
        None => None,
    }
}

proof fn last_split_bounds(s: Seq<char>, i: int, depth: int, best: Option<int>)
    requires
        0 <= i,
        best matches Some(b) ==> at_colons(s, b),
    ensures
        last_split(s, i, depth, best) matches Some(b) ==> at_colons(s, b),
    decreases s.len() - i,
{
    if i < s.len() {
        if s[i] == '<' {
            last_split_bounds(s, i + 1, depth + 1, best);
        } else if s[i] == '>' {
            last_split_bounds(s, i + 1, depth - 1, best);
        } else if s[i] == ':' && depth == 0 && i + 1 < s.len() && s[i + 1] == ':' {
            last_split_bounds(s, i + 2, depth, Some(i));
        } else {
            last_split_bounds(s, i + 1, depth, best);
        }
    }
}

/// `::` stands at `i`.
pub open spec fn at_colons(s: Seq<char>, i: int) -> bool {
    0 <= i && i + 2 <= s.len() && s[i] == ':' && s[i + 1] == ':'
}

/// `cocos2d::CCNode::getZOrder` -> ("cocos2d::CCNode", "getZOrder").
/// The split is at the last `::` that is not inside template brackets.
pub fn split_member<'a>(qualified: &'a str) -> (r: Option<(&'a str, &'a str)>)
    ensures
        match r {
            Some((scope, member)) => member_parts(qualified@) == Some((scope@, member@)),
            None => member_parts(qualified@) is None,
        },
{
    let c = text::chars_of(qualified);
    let mut depth: i128 = 0;
    let mut split: Option<usize> = None;
    let mut i: usize = 0;
    let ghost mut best: Option<int> = None;
    while i < c.len()
        invariant
            c@ == qualified@,
            i <= c@.len(),
            -(i as int) <= depth <= i,
            match split {
                Some(b) => best == Some(b as int) && at_colons(qualified@, b as int),
                None => best is None,
            },
            last_split(qualified@, 0, 0, None) == last_split(qualified@, i as int, depth as int, best),
        decreases c@.len() - i,
    {
        if c[i] == '<' {
            depth += 1;
        } else if c[i] == '>' {
            depth -= 1;
        } else if c[i] == ':' && depth == 0 && i + 1 < c.len() && c[i + 1] == ':' {
            split = Some(i);
            proof {
                best = Some(i as int);
            }
            i += 1;
        }
        i += 1;
    }
    match split {
        Some(b) => {
            let scope = qualified.substring_char(0, b);
            let member = qualified.substring_char(b + 2, c.len());
            assert(scope@ =~= qualified@.take(b as int));
            assert(member@ =~= qualified@.skip(b + 2));
            Some((scope, member))
        },
        None => None,
    }
}

/// Last path component of a class name: `cocos2d::CCNode` -> `CCNode`.
pub open spec fn unqualified_text(name: Seq<char>) -> Seq<char> {
    match member_of(name) {
        Some(n) => n,
        None => name,
    }
}

pub fn unqualified<'a>(name: &'a str) -> (r: &'a str)
    ensures
        r@ == unqualified_text(name@),
{
    match split_member(name) {
        Some((_, n)) => n,
        None => name,
    }
}

/// The two parts of a qualified name, joined by `::`, are the name again.
pub proof fn split_rejoins(s: Seq<char>)
    ensures
        member_parts(s) matches Some(p) ==> p.0 + "::"@ + p.1 == s,
{
    reveal_strlit("::");
    last_split_bounds(s, 0, 0, None);
    if let Some(p) = member_parts(s) {
        assert(p.0 + "::"@ + p.1 =~= s);
    }
}

/// The scope of a name, if any.
pub fn scope_string(name: &str) -> (r: Option<String>)
    ensures
        r.deep_view() == scope_of(name@),
{
    match split_member(name) {
        Some((c, _)) => Some(c.to_owned()),
        None => None,
    }
}

/// The last component of a name, if it has a scope.
pub fn member_string(name: &str) -> (r: Option<String>)
    ensures
        r.deep_view() == member_of(name@),
{
    match split_member(name) {
        Some((_, m)) => Some(m.to_owned()),
        None => None,
    }
}

} // verus!
