//! Byte signatures: text format, scanning and resolving.
//!
//! Line format (one signature per line, `#` comments):
//!
//! ```text
//! func   PlayLayer::resetLevel      48 89 5C 24 ?? 57 48 83 EC 20 ...
//! func   PlayLayer::foo             E8 [rel32] 48 8B D8           ; call target
//! field  PlayLayer::m_isPaused      80 BB [u32] 00 74 ?? +0
//! global GameManager::instance      48 8B 0D [rel32] 48 85 C9
//! ```
//!
//! Two fallback record kinds exist for names without a unique pattern:
//!
//! ```text
//! vslot  PlayLayer::checkSnapshot   PlayLayer +0x0 170     ; vtable slot of a class
//! rel    PlayLayer::m_unk36cd       PlayLayer::m_unk36cc +0x1  ; offset from another field
//! ```
//!
//! A `[module.dll]` line switches the module the following records apply to
//! (default: GeometryDash.exe).
//!
//! `??` is a wildcard byte. At most one capture (`[rel32]`, `[u32]`, `[i32]`,
//! `[u16]`, `[u8]`, `[i8]`) may appear; without a capture the result is the
//! match address. A trailing `+N`/`-N` is added to the result (for `rel32`
//! it accounts for bytes between the displacement and the next instruction).

use vstd::prelude::*;
use vstd::string::StringExecFns;

use crate::model::Module;
use crate::num;
use crate::pe;
use crate::pe::PeV;
use crate::search;
use crate::table;
use crate::table::{Key, Ordered};
use crate::text;

verus! {

#[derive(Clone, Copy, Debug, PartialEq, Eq, Hash, PartialOrd, Ord, Structural)]
pub enum Kind {
    Func,
    Field,
    Global,
}

impl Kind {
    pub open spec fn text(self) -> Seq<char> {
        match self {
            Kind::Func => "func"@,
            Kind::Field => "field"@,
            Kind::Global => "global"@,
        }
    }

    pub fn label(self) -> (r: &'static str)
        ensures
            r@ == self.text(),
    {
        match self {
            Kind::Func => "func",
            Kind::Field => "field",
            Kind::Global => "global",
        }
    }

    /// The kind that a word names.
    pub open spec fn named(s: Seq<char>) -> Option<Kind> {
        if s == "func"@ || s == "fn"@ || s == "function"@ {
            Some(Kind::Func)
        } else if s == "field"@ || s == "member"@ {
            Some(Kind::Field)
        } else if s == "global"@ || s == "data"@ {
            Some(Kind::Global)
        } else {
            None
        }
    }

    pub fn parse(s: &str) -> (r: Option<Kind>)
        ensures
            r == Kind::named(s@),
    {
        if text::same(s, "func") || text::same(s, "fn") || text::same(s, "function") {
            Some(Kind::Func)
        } else if text::same(s, "field") || text::same(s, "member") {
            Some(Kind::Field)
        } else if text::same(s, "global") || text::same(s, "data") {
            Some(Kind::Global)
        } else {
            None
        }
    }

    /// Position in the order of kinds.
    pub open spec fn place(self) -> int {
        match self {
            Kind::Func => 0,
            Kind::Field => 1,
            Kind::Global => 2,
        }
    }

    fn index(self) -> (r: u8)
        ensures
            r == self.place(),
    {
        match self {
            Kind::Func => 0,
            Kind::Field => 1,
            Kind::Global => 2,
        }
    }
}

impl Ordered for Kind {
    open spec fn before(self, other: Self) -> bool {
        self.place() < other.place()
    }

    proof fn irreflexive(a: Self) {
    }

    proof fn transitive(a: Self, b: Self, c: Self) {
    }

    proof fn total(a: Self, b: Self) {
    }
}

impl Key for Kind {
    type O = Kind;

    open spec fn key(&self) -> Kind {
        *self
    }

    fn is_before(&self, other: &Self) -> (r: bool) {
        let r = self.index() < other.index();
        assert((*self).before(*other) == r);
        r
    }
}

#[derive(Clone, Copy, Debug, PartialEq, Eq, Structural)]
pub enum Cap {
    Rel32,
    U32,
    I32,
    U16,
    U8,
    I8,
}

impl Cap {
    /// Number of bytes captured.
    pub open spec fn width(self) -> nat {
        match self {
            Cap::Rel32 => 4,
            Cap::U32 => 4,
            Cap::I32 => 4,
            Cap::U16 => 2,
            Cap::U8 => 1,
            Cap::I8 => 1,
        }
    }

    pub fn len(self) -> (r: usize)
        ensures
            r == self.width(),
    {
        match self {
            Cap::Rel32 => 4,
            Cap::U32 => 4,
            Cap::I32 => 4,
            Cap::U16 => 2,
            Cap::U8 => 1,
            Cap::I8 => 1,
        }
    }

    pub open spec fn text(self) -> Seq<char> {
        match self {
            Cap::Rel32 => "[rel32]"@,
            Cap::U32 => "[u32]"@,
            Cap::I32 => "[i32]"@,
            Cap::U16 => "[u16]"@,
            Cap::U8 => "[u8]"@,
            Cap::I8 => "[i8]"@,
        }
    }

    pub fn token(self) -> (r: &'static str)
        ensures
            r@ == self.text(),
    {
        match self {
            Cap::Rel32 => "[rel32]",
            Cap::U32 => "[u32]",
            Cap::I32 => "[i32]",
            Cap::U16 => "[u16]",
            Cap::U8 => "[u8]",
            Cap::I8 => "[i8]",
        }
    }

    /// The capture that a token in lower case names.
    pub open spec fn named(s: Seq<char>) -> Option<Cap> {
        if s == "[rel32]"@ || s == "[rip]"@ {
            Some(Cap::Rel32)
        } else if s == "[u32]"@ || s == "[4]"@ {
            Some(Cap::U32)
        } else if s == "[i32]"@ {
            Some(Cap::I32)
        } else if s == "[u16]"@ || s == "[2]"@ {
            Some(Cap::U16)
        } else if s == "[u8]"@ || s == "[1]"@ {
            Some(Cap::U8)
        } else if s == "[i8]"@ {
            Some(Cap::I8)
        } else {
            None
        }
    }

    fn parse(s: &str) -> (r: Option<Cap>)
        ensures
            r == Cap::named(s@),
    {
        if text::same(s, "[rel32]") || text::same(s, "[rip]") {
            Some(Cap::Rel32)
        } else if text::same(s, "[u32]") || text::same(s, "[4]") {
            Some(Cap::U32)
        } else if text::same(s, "[i32]") {
            Some(Cap::I32)
        } else if text::same(s, "[u16]") || text::same(s, "[2]") {
            Some(Cap::U16)
        } else if text::same(s, "[u8]") || text::same(s, "[1]") {
            Some(Cap::U8)
        } else if text::same(s, "[i8]") {
            Some(Cap::I8)
        } else {
            None
        }
    }
}

#[derive(Debug)]
pub struct Sig {
    pub module: String,
    pub kind: Kind,
    pub name: String,
    pub bytes: Vec<Option<u8>>,
    pub capture: Option<(usize, Cap)>,
    pub adjust: i64,
}

/// Model of a signature.
pub ghost struct SigV {
    pub module: Seq<char>,
    pub kind: Kind,
    pub name: Seq<char>,
    pub bytes: Seq<Option<u8>>,
    pub capture: Option<(usize, Cap)>,
    pub adjust: i64,
}

impl DeepView for Sig {
    type V = SigV;

    open spec fn deep_view(&self) -> SigV {
        SigV {
            module: self.module@,
            kind: self.kind,
            name: self.name@,
            bytes: self.bytes@,
            capture: self.capture,
            adjust: self.adjust,
        }
    }
}

impl Clone for Sig {
    fn clone(&self) -> (r: Self)
        ensures
            r.deep_view() == self.deep_view(),
    {
        Sig {
            module: self.module.clone(),
            kind: self.kind,
            name: self.name.clone(),
            bytes: table::copy_all(&self.bytes),
            capture: self.capture,
            adjust: self.adjust,
        }
    }
}

// ---------------------------------------------------------------------------
// Writing.

/// A hexadecimal digit, upper case.
pub open spec fn upper_digit(d: int) -> char {
    if d < 10 {
        (0x30 + d) as char
    } else {
        (0x41 + d - 10) as char
    }
}

/// A pattern byte as a token.
pub open spec fn byte_text(b: Option<u8>) -> Seq<char> {
    match b {
        Some(v) => seq![upper_digit(v as int / 16), upper_digit(v as int % 16)],
        None => "??"@,
    }
}

fn digit_upper(d: u8) -> (r: char)
    requires
        d < 16,
    ensures
        r == upper_digit(d as int),
{
    if d < 10 {
        (0x30 + d) as char
    } else {
        (0x41 + (d - 10)) as char
    }
}

pub(crate) fn byte_token(b: Option<u8>) -> (r: String)
    ensures
        r@ == byte_text(b),
{
    match b {
        Some(v) => {
            let mut out = String::new();
            out.push(digit_upper(v / 16));
            out.push(digit_upper(v % 16));
            assert(out@ =~= byte_text(b));
            out
        },
        None => "??".to_owned(),
    }
}

/// The tokens of a pattern from byte `i` on; a capture is one token.
pub open spec fn pattern_tokens(bytes: Seq<Option<u8>>, capture: Option<(usize, Cap)>, i: int) -> Seq<Seq<char>>
    decreases bytes.len() - i,
{
    if i < 0 || i >= bytes.len() {
        Seq::empty()
    } else if capture is Some && capture.unwrap().0 == i {
        let c = capture.unwrap().1;
        seq![c.text()] + pattern_tokens(bytes, capture, pe::min(i + c.width(), bytes.len() as int))
    } else {
        seq![byte_text(bytes[i])] + pattern_tokens(bytes, capture, i + 1)
    }
}

/// A signed offset as it trails a pattern; nothing for 0.
pub open spec fn adjust_text(a: i64) -> Seq<char> {
    if a == 0 {
        Seq::empty()
    } else if a > 0 {
        " +"@ + num::hex(a as int)
    } else {
        " -"@ + num::hex(-a)
    }
}

impl SigV {
    /// The line that writes a signature.
    pub open spec fn line(self) -> Seq<char> {
        let t = pattern_tokens(self.bytes, self.capture, 0);
        text::padded(self.kind.text(), 6) + " "@ + text::padded(self.name, 48) + " "@ + text::joined(t, " "@, t.len())
            + adjust_text(self.adjust)
    }
}

/// The magnitude of a negative number.
fn magnitude(a: i64) -> (r: u64)
    requires
        a < 0,
    ensures
        r == -a,
{
    if a == i64::MIN {
        0x8000_0000_0000_0000
    } else {
        (-a) as u64
    }
}

impl Sig {
    fn tokens(&self) -> (r: Vec<String>)
        ensures
            r.deep_view() == pattern_tokens(self.bytes@, self.capture, 0),
    {
        let ghost all = pattern_tokens(self.bytes@, self.capture, 0);
        let mut out: Vec<String> = Vec::new();
        let mut i: usize = 0;
        assert(out.deep_view() + all =~= all);
        while i < self.bytes.len()
            invariant
                all == pattern_tokens(self.bytes@, self.capture, 0),
                out.deep_view() + pattern_tokens(self.bytes@, self.capture, i as int) == all,
            decreases self.bytes@.len() - i,
        {
            let ghost pre = out.deep_view();
            let mut step: usize = 1;
            let mut token: Option<Cap> = None;
            if let Some((p, c)) = self.capture {
                if p == i {
                    step = c.len();
                    token = Some(c);
                }
            }
            match token {
                Some(c) => {
                    text::push_text(&mut out, c.token().to_owned());
                },
                None => {
                    text::push_text(&mut out, byte_token(self.bytes[i]));
                },
            }
            let next: usize = if step < self.bytes.len() - i { i + step } else { self.bytes.len() };
            proof {
                let x = out.deep_view().last();
                let rest = pattern_tokens(self.bytes@, self.capture, next as int);
                assert(pre + (seq![x] + rest) =~= pre.push(x) + rest);
            }
            i = next;
        }
        assert(out.deep_view() + Seq::<Seq<char>>::empty() =~= out.deep_view());
        out
    }

    pub fn to_line(&self) -> (r: String)
        ensures
            r@ == self.deep_view().line(),
    {
        let tokens = self.tokens();
        let pattern = text::join(&tokens, " ");
        let mut out = text::pad(self.kind.label(), 6);
        out.append(" ");
        let name = text::pad(self.name.as_str(), 48);
        out.append(name.as_str());
        out.append(" ");
        out.append(pattern.as_str());
        if self.adjust > 0 {
            out.append(" +");
            let h = num::format_hex(self.adjust as u64);
            out.append(h.as_str());
        } else if self.adjust < 0 {
            out.append(" -");
            let h = num::format_hex(magnitude(self.adjust));
            out.append(h.as_str());
        }
        assert(out@ =~= self.deep_view().line());
        out
    }
}

// ---------------------------------------------------------------------------
// Reading.

pub const DEFAULT_MODULE: &'static str = "GeometryDash.exe";

/// What is wrong with a line.
#[derive(Debug)]
pub enum Fault {
    /// Kind or name is missing.
    Incomplete,
    UnknownKind(String),
    SecondCapture,
    BadOffset(String),
    BadByte(String),
    BadToken(String),
    NoFixedBytes,
}

/// Model of what is wrong with a line.
pub ghost enum FaultV {
    Incomplete,
    UnknownKind(Seq<char>),
    SecondCapture,
    BadOffset(Seq<char>),
    BadByte(Seq<char>),
    BadToken(Seq<char>),
    NoFixedBytes,
}

impl DeepView for Fault {
    type V = FaultV;

    open spec fn deep_view(&self) -> FaultV {
        match self {
            Fault::Incomplete => FaultV::Incomplete,
            Fault::UnknownKind(k) => FaultV::UnknownKind(k@),
            Fault::SecondCapture => FaultV::SecondCapture,
            Fault::BadOffset(t) => FaultV::BadOffset(t@),
            Fault::BadByte(t) => FaultV::BadByte(t@),
            Fault::BadToken(t) => FaultV::BadToken(t@),
            Fault::NoFixedBytes => FaultV::NoFixedBytes,
        }
    }
}

impl FaultV {
    pub open spec fn text(self) -> Seq<char> {
        match self {
            FaultV::Incomplete => "expected `<kind> <name> <pattern>`"@,
            FaultV::UnknownKind(k) => "unknown kind `"@ + k + "`"@,
            FaultV::SecondCapture => "only one capture allowed"@,
            FaultV::BadOffset(t) => "bad offset `"@ + t + "`"@,
            FaultV::BadByte(t) => "bad byte `"@ + t + "`"@,
            FaultV::BadToken(t) => "bad token `"@ + t + "`"@,
            FaultV::NoFixedBytes => "pattern has no fixed bytes"@,
        }
    }
}

/// A faulty line, counted from one.
#[derive(Debug)]
pub struct ParseError {
    pub line: usize,
    pub fault: Fault,
}

/// Model of a faulty line.
pub ghost struct ParseErrorV {
    pub line: int,
    pub fault: FaultV,
}

impl DeepView for ParseError {
    type V = ParseErrorV;

    open spec fn deep_view(&self) -> ParseErrorV {
        ParseErrorV { line: self.line as int, fault: self.fault.deep_view() }
    }
}

fn quoted(what: &str, t: &str) -> (r: String)
    ensures
        r@ == what@ + t@ + "`"@,
{
    let mut out = String::new();
    out.append(what);
    out.append(t);
    out.append("`");
    assert(out@ =~= what@ + t@ + "`"@);
    out
}

impl ParseError {
    pub fn message(&self) -> (r: String)
        ensures
            r@ == "line "@ + num::dec(self.line as int) + ": "@ + self.fault.deep_view().text(),
    {
        let what = match &self.fault {
            Fault::Incomplete => "expected `<kind> <name> <pattern>`".to_owned(),
            Fault::UnknownKind(k) => quoted("unknown kind `", k.as_str()),
            Fault::SecondCapture => "only one capture allowed".to_owned(),
            Fault::BadOffset(t) => quoted("bad offset `", t.as_str()),
            Fault::BadByte(t) => quoted("bad byte `", t.as_str()),
            Fault::BadToken(t) => quoted("bad token `", t.as_str()),
            Fault::NoFixedBytes => "pattern has no fixed bytes".to_owned(),
        };
        let mut out = String::new();
        out.append("line ");
        let n = num::format_dec(self.line as u64);
        out.append(n.as_str());
        out.append(": ");
        out.append(what.as_str());
        assert(out@ =~= "line "@ + num::dec(self.line as int) + ": "@ + self.fault.deep_view().text());
        out
    }
}

/// A pattern read so far.
pub ghost struct PatternV {
    pub bytes: Seq<Option<u8>>,
    pub capture: Option<(usize, Cap)>,
    pub adjust: i64,
}

pub open spec fn wildcards(n: nat) -> Seq<Option<u8>> {
    Seq::new(n, |i: int| None::<u8>)
}

/// What follows the sign of an offset token.
pub open spec fn unsign(tok: Seq<char>) -> Option<Seq<char>> {
    match text::after(tok, "+"@) {
        Some(n) => Some(n),
        None => text::after(tok, "-"@),
    }
}

/// A pattern with one more token.
pub open spec fn with_token(p: PatternV, tok: Seq<char>) -> Result<PatternV, FaultV> {
    match Cap::named(text::lowered(tok)) {
        Some(c) => if p.capture is Some {
            Err(FaultV::SecondCapture)
        } else {
            Ok(
                PatternV {
                    capture: Some((p.bytes.len() as usize, c)),
                    bytes: p.bytes + wildcards(c.width()),
                    ..p
                },
            )
        },
        None => if tok == "?"@ || tok == "??"@ {
            Ok(PatternV { bytes: p.bytes.push(None), ..p })
        } else {
            match unsign(tok) {
                Some(n) => match num::number(n) {
                    Some(v) => Ok(
                        PatternV {
                            adjust: if text::prefixed(tok, "-"@) {
                                0i64.wrapping_sub(v as i64)
                            } else {
                                v as i64
                            },
                            ..p
                        },
                    ),
                    None => Err(FaultV::BadOffset(tok)),
                },
                None => if text::byte_count(tok) == 2 {
                    match num::unsigned(tok, 16, 255) {
                        Some(v) => Ok(PatternV { bytes: p.bytes.push(Some(v as u8)), ..p }),
                        None => Err(FaultV::BadByte(tok)),
                    }
                } else {
                    Err(FaultV::BadToken(tok))
                },
            }
        },
    }
}

/// The pattern that the words of a line from the third to word `n` make up.
pub open spec fn pattern_of(words: Seq<Seq<char>>, n: int) -> Result<PatternV, FaultV>
    decreases n,
{
    if n <= 2 {
        Ok(PatternV { bytes: Seq::empty(), capture: None, adjust: 0 })
    } else {
        match pattern_of(words, n - 1) {
            Err(e) => Err(e),
            Ok(p) => with_token(p, words[n - 1]),
        }
    }
}

pub open spec fn has_fixed(bytes: Seq<Option<u8>>) -> bool {
    exists|i: int| 0 <= i < bytes.len() && (#[trigger] bytes[i]) is Some
}

/// What a line says.
pub ghost enum LineV {
    /// Nothing, or a record of another kind.
    Skip,
    Module(Seq<char>),
    Sig(SigV),
    Bad(FaultV),
}

/// A line without its comments.
pub open spec fn uncommented(line: Seq<char>) -> Seq<char> {
    text::trimmed(text::head_of(text::head_of(line, '#'), ';'))
}

/// A record of a kind that is read elsewhere.
pub open spec fn is_extra_kind(k: Seq<char>) -> bool {
    k == "vslot"@ || k == "rel"@ || k == "relsub"@
}

/// What the words of a record say.
pub open spec fn record(words: Seq<Seq<char>>, module: Seq<char>) -> LineV {
    if words.len() < 2 {
        LineV::Bad(FaultV::Incomplete)
    } else if is_extra_kind(words[0]) {
        LineV::Skip
    } else {
        match Kind::named(words[0]) {
            None => LineV::Bad(FaultV::UnknownKind(words[0])),
            Some(kind) => match pattern_of(words, words.len() as int) {
                Err(e) => LineV::Bad(e),
                Ok(p) => if has_fixed(p.bytes) {
                    LineV::Sig(
                        SigV { module, kind, name: words[1], bytes: p.bytes, capture: p.capture, adjust: p.adjust },
                    )
                } else {
                    LineV::Bad(FaultV::NoFixedBytes)
                },
            },
        }
    }
}

/// What a line says while records apply to `module`.
pub open spec fn line_of(line: Seq<char>, module: Seq<char>) -> LineV {
    let l = uncommented(line);
    if l.len() == 0 {
        LineV::Skip
    } else if text::prefixed(l, "["@) && text::suffixed(l, "]"@) && !text::includes(l, " "@) {
        LineV::Module(l.subrange(1, l.len() - 1))
    } else {
        record(text::words(l), module)
    }
}

/// The signatures of the first `n` lines, and the module that the next applies
/// to.
pub open spec fn sigs_of(lines: Seq<Seq<char>>, n: int) -> Result<(Seq<SigV>, Seq<char>), ParseErrorV>
    decreases n,
{
    if n <= 0 {
        Ok((Seq::empty(), DEFAULT_MODULE@))
    } else {
        match sigs_of(lines, n - 1) {
            Err(e) => Err(e),
            Ok((sigs, module)) => match line_of(lines[n - 1], module) {
                LineV::Skip => Ok((sigs, module)),
                LineV::Module(m) => Ok((sigs, m)),
                LineV::Sig(s) => Ok((sigs.push(s), module)),
                LineV::Bad(fault) => Err(ParseErrorV { line: n, fault }),
            },
        }
    }
}

/// The signatures of a text.
pub open spec fn parsed(src: Seq<char>) -> Result<Seq<SigV>, ParseErrorV> {
    let lines = text::lines(src);
    match sigs_of(lines, lines.len() as int) {
        Err(e) => Err(e),
        Ok((sigs, _)) => Ok(sigs),
    }
}

proof fn sigs_fail(lines: Seq<Seq<char>>, i: int, n: int)
    requires
        0 <= i <= n,
        sigs_of(lines, i) is Err,
    ensures
        sigs_of(lines, n) == sigs_of(lines, i),
    decreases n,
{
    if i < n {
        sigs_fail(lines, i, n - 1);
    }
}

proof fn pattern_fails(words: Seq<Seq<char>>, i: int, n: int)
    requires
        2 <= i <= n,
        pattern_of(words, i) is Err,
    ensures
        pattern_of(words, n) == pattern_of(words, i),
    decreases n,
{
    if i < n {
        pattern_fails(words, i, n - 1);
    }
}

struct Pattern {
    bytes: Vec<Option<u8>>,
    capture: Option<(usize, Cap)>,
    adjust: i64,
}

impl DeepView for Pattern {
    type V = PatternV;

    closed spec fn deep_view(&self) -> PatternV {
        PatternV { bytes: self.bytes@, capture: self.capture, adjust: self.adjust }
    }
}

fn push_wildcards(bytes: &mut Vec<Option<u8>>, n: usize)
    ensures
        final(bytes)@ == old(bytes)@ + wildcards(n as nat),
{
    let ghost before = bytes@;
    let mut i: usize = 0;
    assert(before + wildcards(0) =~= before);
    while i < n
        invariant
            before == old(bytes)@,
            i <= n,
            bytes@ == before + wildcards(i as nat),
        decreases n - i,
    {
        bytes.push(None);
        i += 1;
        assert(before + wildcards(i as nat) =~= (before + wildcards((i - 1) as nat)).push(None));
    }
}

impl Pattern {
    fn token(&mut self, tok: &str) -> (r: Result<(), Fault>)
        ensures
            match r {
                Ok(_) => with_token(old(self).deep_view(), tok@) == Ok::<PatternV, FaultV>(final(self).deep_view()),
                Err(e) => with_token(old(self).deep_view(), tok@) == Err::<PatternV, FaultV>(e.deep_view()),
            },
    {
        let lower = text::to_lower(tok);
        if let Some(c) = Cap::parse(lower.as_str()) {
            if self.capture.is_some() {
                return Err(Fault::SecondCapture);
            }
            self.capture = Some((self.bytes.len(), c));
            push_wildcards(&mut self.bytes, c.len());
            return Ok(());
        }
        if text::same(tok, "?") || text::same(tok, "??") {
            self.bytes.push(None);
            return Ok(());
        }
        let unsigned = match text::strip_prefix(tok, "+") {
            Some(n) => Some(n),
            None => text::strip_prefix(tok, "-"),
        };
        if let Some(n) = unsigned {
            return match num::parse_num(n.as_str()) {
                Some(v) => {
                    self.adjust = if text::starts_with(tok, "-") { 0i64.wrapping_sub(v) } else { v };
                    Ok(())
                },
                None => Err(Fault::BadOffset(tok.to_owned())),
            };
        }
        if text::byte_len(tok) == 2 {
            return match num::parse_unsigned(tok, 16, 255) {
                Some(v) => {
                    self.bytes.push(Some(v as u8));
                    Ok(())
                },
                None => Err(Fault::BadByte(tok.to_owned())),
            };
        }
        Err(Fault::BadToken(tok.to_owned()))
    }
}

fn read_pattern(words: &Vec<String>) -> (r: Result<Pattern, Fault>)
    ensures
        match r {
            Ok(p) => pattern_of(words.deep_view(), words@.len() as int) == Ok::<PatternV, FaultV>(p.deep_view()),
            Err(e) => pattern_of(words.deep_view(), words@.len() as int) == Err::<PatternV, FaultV>(e.deep_view()),
        },
{
    let ghost w = words.deep_view();
    let mut p = Pattern { bytes: Vec::new(), capture: None, adjust: 0 };
    let mut i: usize = 2;
    while i < words.len()
        invariant
            w == words.deep_view(),
            2 <= i,
            i <= words@.len() || i == 2,
            pattern_of(w, i as int) == Ok::<PatternV, FaultV>(p.deep_view()),
        decreases words@.len() - i,
    {
        match p.token(words[i].as_str()) {
            Ok(_) => {},
            Err(e) => {
                proof {
                    assert(pattern_of(w, i + 1) is Err);
                    pattern_fails(w, i + 1, w.len() as int);
                }
                return Err(e);
            },
        }
        i += 1;
    }
    Ok(p)
}

fn any_fixed(bytes: &Vec<Option<u8>>) -> (r: bool)
    ensures
        r == has_fixed(bytes@),
{
    let mut i: usize = 0;
    while i < bytes.len()
        invariant
            i <= bytes@.len(),
            forall|k: int| 0 <= k < i ==> (#[trigger] bytes@[k]) is None,
        decreases bytes@.len() - i,
    {
        if bytes[i].is_some() {
            assert(bytes@[i as int] is Some);
            return true;
        }
        i += 1;
    }
    false
}

enum Line {
    Skip,
    Module(String),
    Sig(Sig),
    Bad(Fault),
}

impl DeepView for Line {
    type V = LineV;

    closed spec fn deep_view(&self) -> LineV {
        match self {
            Line::Skip => LineV::Skip,
            Line::Module(m) => LineV::Module(m@),
            Line::Sig(s) => LineV::Sig(s.deep_view()),
            Line::Bad(f) => LineV::Bad(f.deep_view()),
        }
    }
}

fn read_record(words: &Vec<String>, module: &str) -> (r: Line)
    ensures
        r.deep_view() == record(words.deep_view(), module@),
{
    if words.len() < 2 {
        return Line::Bad(Fault::Incomplete);
    }
    let ghost w = words.deep_view();
    assert(words@[0]@ == w[0] && words@[1]@ == w[1]);
    let k = words[0].as_str();
    if text::same(k, "vslot") || text::same(k, "rel") || text::same(k, "relsub") {
        return Line::Skip;
    }
    let kind = match Kind::parse(k) {
        Some(kind) => kind,
        None => {
            return Line::Bad(Fault::UnknownKind(k.to_owned()));
        },
    };
    match read_pattern(words) {
        Err(e) => Line::Bad(e),
        Ok(p) => if any_fixed(&p.bytes) {
            Line::Sig(
                Sig {
                    module: module.to_owned(),
                    kind,
                    name: words[1].clone(),
                    bytes: p.bytes,
                    capture: p.capture,
                    adjust: p.adjust,
                },
            )
        } else {
            Line::Bad(Fault::NoFixedBytes)
        },
    }
}

fn read_line(line: &str, module: &str) -> (r: Line)
    ensures
        r.deep_view() == line_of(line@, module@),
{
    let l = text::head(line, '#');
    let l = text::head(l.as_str(), ';');
    let l = text::trim(l.as_str());
    let s = l.as_str();
    let n = text::count(s);
    if n == 0 {
        return Line::Skip;
    }
    if text::starts_with(s, "[") && text::ends_with(s, "]") && !text::contains(s, " ") {
        proof {
            reveal_strlit("[");
            reveal_strlit("]");
            assert(s@[0] == '[') by {
                assert(s@.subrange(0, 1)[0] == s@[0]);
            }
            assert(s@[n - 1] == ']') by {
                assert(s@.subrange(n - 1, n as int)[0] == s@[n - 1]);
            }
        }
        return Line::Module(text::part(s, 1, n - 1));
    }
    let words = text::split_words(s);
    read_record(&words, module)
}

pub fn parse(src: &str) -> (r: Result<Vec<Sig>, ParseError>)
    ensures
        match r {
            Ok(v) => parsed(src@) == Ok::<Seq<SigV>, ParseErrorV>(v.deep_view()),
            Err(e) => parsed(src@) == Err::<Seq<SigV>, ParseErrorV>(e.deep_view()),
        },
{
    let lines = text::split_lines(src);
    let ghost ls = lines.deep_view();
    let mut out: Vec<Sig> = Vec::new();
    let mut module = DEFAULT_MODULE.to_owned();
    let mut i: usize = 0;
    assert(out.deep_view() =~= Seq::empty());
    while i < lines.len()
        invariant
            ls == lines.deep_view(),
            ls == text::lines(src@),
            i <= lines@.len(),
            sigs_of(ls, i as int) == Ok::<(Seq<SigV>, Seq<char>), ParseErrorV>((out.deep_view(), module@)),
        decreases lines@.len() - i,
    {
        assert(lines@[i as int]@ == ls[i as int]);
        match read_line(lines[i].as_str(), module.as_str()) {
            Line::Skip => {},
            Line::Module(m) => {
                module = m;
            },
            Line::Sig(s) => {
                let ghost before = out.deep_view();
                let ghost x = s.deep_view();
                out.push(s);
                assert(out.deep_view() =~= before.push(x));
            },
            Line::Bad(fault) => {
                proof {
                    let e = ParseErrorV { line: i + 1, fault: fault.deep_view() };
                    assert(sigs_of(ls, i + 1) == Err::<(Seq<SigV>, Seq<char>), ParseErrorV>(e));
                    sigs_fail(ls, i + 1, ls.len() as int);
                }
                return Err(ParseError { line: i + 1, fault });
            },
        }
        i += 1;
    }
    Ok(out)
}

// ---------------------------------------------------------------------------
// Fallback records.

#[derive(Debug)]
pub enum Extra {
    VSlot { name: String, class: String, vt_off: u32, index: usize },
    Rel { name: String, anchor: String, delta: i64 },
    /// Offset of a struct member = (container.path.member) - (container.path).
    RelSub { name: String, anchor: String, minus: String },
}

/// Model of a fallback record.
pub ghost enum ExtraV {
    VSlot { name: Seq<char>, class: Seq<char>, vt_off: u32, index: usize },
    Rel { name: Seq<char>, anchor: Seq<char>, delta: i64 },
    RelSub { name: Seq<char>, anchor: Seq<char>, minus: Seq<char> },
}

impl DeepView for Extra {
    type V = ExtraV;

    open spec fn deep_view(&self) -> ExtraV {
        match self {
            Extra::VSlot { name, class, vt_off, index } => ExtraV::VSlot {
                name: name@,
                class: class@,
                vt_off: *vt_off,
                index: *index,
            },
            Extra::Rel { name, anchor, delta } => ExtraV::Rel { name: name@, anchor: anchor@, delta: *delta },
            Extra::RelSub { name, anchor, minus } => ExtraV::RelSub { name: name@, anchor: anchor@, minus: minus@ },
        }
    }
}

/// A signed distance with its sign.
pub open spec fn delta_text(d: i64) -> Seq<char> {
    if d >= 0 {
        "+"@ + num::hex(d as int)
    } else {
        "-"@ + num::hex(-d)
    }
}

impl ExtraV {
    /// The line that writes a record.
    pub open spec fn line(self) -> Seq<char> {
        match self {
            ExtraV::VSlot { name, class, vt_off, index } => "vslot  "@ + text::padded(name, 48) + " "@ + class + " +"@
                + num::hex(vt_off as int) + " "@ + num::dec(index as int),
            ExtraV::Rel { name, anchor, delta } => "rel    "@ + text::padded(name, 48) + " "@ + anchor + " "@
                + delta_text(delta),
            ExtraV::RelSub { name, anchor, minus } => "relsub "@ + text::padded(name, 48) + " "@ + anchor + " "@ + minus,
        }
    }
}

impl Extra {
    pub fn to_line(&self) -> (r: String)
        ensures
            r@ == self.deep_view().line(),
    {
        let mut out = String::new();
        match self {
            Extra::VSlot { name, class, vt_off, index } => {
                out.append("vslot  ");
                let n = text::pad(name.as_str(), 48);
                out.append(n.as_str());
                out.append(" ");
                out.append(class.as_str());
                out.append(" +");
                let h = num::format_hex(*vt_off as u64);
                out.append(h.as_str());
                out.append(" ");
                let d = num::format_dec(*index as u64);
                out.append(d.as_str());
            },
            Extra::Rel { name, anchor, delta } => {
                out.append("rel    ");
                let n = text::pad(name.as_str(), 48);
                out.append(n.as_str());
                out.append(" ");
                out.append(anchor.as_str());
                out.append(" ");
                if *delta >= 0 {
                    out.append("+");
                    let h = num::format_hex(*delta as u64);
                    out.append(h.as_str());
                } else {
                    out.append("-");
                    let h = num::format_hex(magnitude(*delta));
                    out.append(h.as_str());
                }
            },
            Extra::RelSub { name, anchor, minus } => {
                out.append("relsub ");
                let n = text::pad(name.as_str(), 48);
                out.append(n.as_str());
                out.append(" ");
                out.append(anchor.as_str());
                out.append(" ");
                out.append(minus.as_str());
            },
        }
        assert(out@ =~= self.deep_view().line());
        out
    }
}

/// `s` without the signs that start it.
pub open spec fn unsigned_part(s: Seq<char>) -> Seq<char>
    decreases s.len(),
{
    if s.len() > 0 && (s[0] == '+' || s[0] == '-') {
        unsigned_part(s.skip(1))
    } else {
        s
    }
}

fn skip_signs(s: &str) -> (r: String)
    ensures
        r@ == unsigned_part(s@),
{
    let c = text::chars_of(s);
    let mut i: usize = 0;
    assert(s@.skip(0) =~= s@);
    while i < c.len() && (c[i] == '+' || c[i] == '-')
        invariant
            c@ == s@,
            i <= c@.len(),
            unsigned_part(s@) == unsigned_part(s@.skip(i as int)),
        decreases c@.len() - i,
    {
        assert(s@.skip(i as int).skip(1) =~= s@.skip(i + 1));
        i += 1;
    }
    let r = text::string_of(c.as_slice(), i, c.len());
    assert(r@ =~= s@.skip(i as int));
    r
}

/// The record that the words of a line write.
pub open spec fn extra_of(w: Seq<Seq<char>>) -> Option<ExtraV> {
    if w.len() == 5 && w[0] == "vslot"@ {
        match (num::number(text::trimmed_start(w[3], '+')), num::unsigned(w[4], 10, usize::MAX as int)) {
            (Some(o), Some(i)) => Some(
                ExtraV::VSlot { name: w[1], class: w[2], vt_off: (o as i64) as u32, index: i as usize },
            ),
            _ => None,
        }
    } else if w.len() == 4 && w[0] == "relsub"@ {
        Some(ExtraV::RelSub { name: w[1], anchor: w[2], minus: w[3] })
    } else if w.len() == 4 && w[0] == "rel"@ {
        match num::number(unsigned_part(w[3])) {
            Some(v) => Some(
                ExtraV::Rel {
                    name: w[1],
                    anchor: w[2],
                    delta: if text::prefixed(w[3], "-"@) {
                        0i64.wrapping_sub(v as i64)
                    } else {
                        v as i64
                    },
                },
            ),
            None => None,
        }
    } else {
        None
    }
}

/// The record of a line, if it is one.
pub open spec fn extra_line(line: Seq<char>) -> Option<ExtraV> {
    extra_of(text::words(uncommented(line)))
}

/// The records of the first `n` lines.
pub open spec fn extras_of(lines: Seq<Seq<char>>, n: int) -> Seq<ExtraV>
    decreases n,
{
    if n <= 0 {
        Seq::empty()
    } else {
        match extra_line(lines[n - 1]) {
            Some(e) => extras_of(lines, n - 1).push(e),
            None => extras_of(lines, n - 1),
        }
    }
}

/// The fallback records of a text.
pub open spec fn extras_parsed(src: Seq<char>) -> Seq<ExtraV> {
    let lines = text::lines(src);
    extras_of(lines, lines.len() as int)
}

fn read_extra(w: &Vec<String>) -> (r: Option<Extra>)
    ensures
        r.deep_view() == extra_of(w.deep_view()),
{
    let ghost v = w.deep_view();
    assert(forall|i: int| 0 <= i < w@.len() ==> (#[trigger] w@[i])@ == v[i]);
    if w.len() == 5 && text::same(w[0].as_str(), "vslot") {
        let off = text::trim_start_of(w[3].as_str(), '+');
        return match (
            num::parse_num(off.as_str()),
            num::parse_unsigned(w[4].as_str(), 10, usize::MAX as u64),
        ) {
            (Some(o), Some(i)) => Some(
                Extra::VSlot { name: w[1].clone(), class: w[2].clone(), vt_off: o as u32, index: i as usize },
            ),
            _ => None,
        };
    }
    if w.len() == 4 && text::same(w[0].as_str(), "relsub") {
        return Some(Extra::RelSub { name: w[1].clone(), anchor: w[2].clone(), minus: w[3].clone() });
    }
    if w.len() == 4 && text::same(w[0].as_str(), "rel") {
        let n = skip_signs(w[3].as_str());
        return match num::parse_num(n.as_str()) {
            Some(d) => {
                let delta = if text::starts_with(w[3].as_str(), "-") { 0i64.wrapping_sub(d) } else { d };
                Some(Extra::Rel { name: w[1].clone(), anchor: w[2].clone(), delta })
            },
            None => None,
        };
    }
    None
}

pub fn parse_extra(src: &str) -> (r: Vec<Extra>)
    ensures
        r.deep_view() == extras_parsed(src@),
{
    let lines = text::split_lines(src);
    let ghost ls = lines.deep_view();
    let mut out: Vec<Extra> = Vec::new();
    let mut i: usize = 0;
    assert(out.deep_view() =~= Seq::empty());
    while i < lines.len()
        invariant
            ls == lines.deep_view(),
            i <= lines@.len(),
            out.deep_view() == extras_of(ls, i as int),
        decreases lines@.len() - i,
    {
        let l = text::head(lines[i].as_str(), '#');
        let l = text::head(l.as_str(), ';');
        let l = text::trim(l.as_str());
        let words = text::split_words(l.as_str());
        if let Some(e) = read_extra(&words) {
            let ghost before = out.deep_view();
            let ghost x = e.deep_view();
            out.push(e);
            assert(out.deep_view() =~= before.push(x));
        }
        i += 1;
    }
    out
}

// ---------------------------------------------------------------------------
// Scanning.

/// The longest run of fixed bytes among the first `n`: the best run so far and
/// the run that ends at `n`, each with start and length.
pub open spec fn runs(bytes: Seq<Option<u8>>, n: int) -> ((int, int), (int, int))
    decreases n,
{
    if n <= 0 {
        ((0, 0), (0, 0))
    } else {
        let (best, cur) = runs(bytes, n - 1);
        if bytes[n - 1] is Some {
            let start = if cur.1 == 0 {
                n - 1
            } else {
                cur.0
            };
            let run = (start, cur.1 + 1);
            if run.1 > best.1 {
                (run, run)
            } else {
                (best, run)
            }
        } else {
            (best, (cur.0, 0))
        }
    }
}

/// Longest run of fixed bytes: (start, len).
pub open spec fn anchor_of(bytes: Seq<Option<u8>>) -> (int, int) {
    runs(bytes, bytes.len() as int).0
}

/// `len` fixed bytes stand from `start` on.
pub open spec fn is_run(bytes: Seq<Option<u8>>, start: int, len: int) -> bool {
    0 <= start && 0 <= len && start + len <= bytes.len() && forall|i: int|
        start <= i < start + len ==> (#[trigger] bytes[i]) is Some
}

proof fn runs_are(bytes: Seq<Option<u8>>, n: int)
    requires
        0 <= n <= bytes.len(),
    ensures
        ({
            let (best, cur) = runs(bytes, n);
            &&& is_run(bytes, best.0, best.1)
            &&& best.0 + best.1 <= n
            &&& cur.1 > 0 ==> is_run(bytes, cur.0, cur.1) && cur.0 + cur.1 == n
            &&& 0 <= cur.1 <= best.1
            &&& cur.1 == 0 ==> n == 0 || bytes[n - 1] is None
            &&& cur.1 > 0 && cur.0 > 0 ==> bytes[cur.0 - 1] is None
            &&& 0 <= cur.0
        }),
    decreases n,
{
    if n > 0 {
        runs_are(bytes, n - 1);
    }
}

proof fn runs_bound(bytes: Seq<Option<u8>>, n: int, start: int, len: int)
    requires
        0 <= n <= bytes.len(),
        is_run(bytes, start, len),
        start + len <= n,
    ensures
        len <= runs(bytes, n).0.1,
        len == runs(bytes, n).0.1 && len > 0 ==> runs(bytes, n).0.0 <= start,
    decreases n,
{
    runs_are(bytes, n);
    if n > 0 {
        runs_are(bytes, n - 1);
        if start + len < n {
            runs_bound(bytes, n - 1, start, len);
        } else if len > 0 {
            let (best, cur) = runs(bytes, n);
            assert(bytes[n - 1] is Some);
            assert(cur.0 <= start) by {
                if cur.0 > start {
                    assert(bytes[cur.0 - 1] is Some);
                }
            }
            if len > 1 {
                runs_bound(bytes, n - 1, start, len - 1);
            }
        }
    }
}

/// The anchor of a pattern is its first longest run of fixed bytes.
pub proof fn anchor_is_longest(bytes: Seq<Option<u8>>, start: int, len: int)
    ensures
        is_run(bytes, anchor_of(bytes).0, anchor_of(bytes).1),
        is_run(bytes, start, len) ==> len <= anchor_of(bytes).1,
        is_run(bytes, start, len) && len == anchor_of(bytes).1 && len > 0 ==> anchor_of(bytes).0 <= start,
{
    runs_are(bytes, bytes.len() as int);
    if is_run(bytes, start, len) {
        runs_bound(bytes, bytes.len() as int, start, len);
    }
}

pub fn anchor(bytes: &Vec<Option<u8>>) -> (r: (usize, usize))
    ensures
        (r.0 as int, r.1 as int) == anchor_of(bytes@),
        r.0 + r.1 <= bytes@.len(),
{
    let mut best: (usize, usize) = (0, 0);
    let mut cur_start: usize = 0;
    let mut cur_len: usize = 0;
    let mut i: usize = 0;
    while i < bytes.len()
        invariant
            i <= bytes@.len(),
            cur_len <= i,
            runs(bytes@, i as int) == ((best.0 as int, best.1 as int), (cur_start as int, cur_len as int)),
        decreases bytes@.len() - i,
    {
        if bytes[i].is_some() {
            if cur_len == 0 {
                cur_start = i;
            }
            cur_len += 1;
            if cur_len > best.1 {
                best = (cur_start, cur_len);
            }
        } else {
            cur_len = 0;
        }
        i += 1;
    }
    proof {
        runs_are(bytes@, bytes@.len() as int);
    }
    best
}

/// A pattern matches at a position.
pub open spec fn fits(hay: Seq<u8>, pos: int, pat: Seq<Option<u8>>) -> bool {
    0 <= pos && pos + pat.len() <= hay.len() && forall|i: int|
        0 <= i < pat.len() && (#[trigger] pat[i]) is Some ==> hay[pos + i] == pat[i].unwrap()
}

pub fn matches_at(hay: &[u8], pos: usize, pat: &Vec<Option<u8>>) -> (r: bool)
    ensures
        r == fits(hay@, pos as int, pat@),
{
    if pos > hay.len() || pat.len() > hay.len() - pos {
        return false;
    }
    let mut i: usize = 0;
    while i < pat.len()
        invariant
            pos + pat@.len() <= hay.len(),
            hay.len() == hay@.len(),
            i <= pat@.len(),
            forall|k: int| 0 <= k < i && (#[trigger] pat@[k]) is Some ==> hay@[pos + k] == pat@[k].unwrap(),
        decreases pat@.len() - i,
    {
        if let Some(b) = pat[i] {
            if hay[pos + i] != b {
                assert(pat@[i as int] is Some);
                return false;
            }
        }
        i += 1;
    }
    true
}

/// The bytes of the anchor of a pattern.
pub open spec fn needle_of(pat: Seq<Option<u8>>) -> Seq<u8> {
    let (a, n) = anchor_of(pat);
    Seq::new(n as nat, |i: int| pat[a + i].unwrap())
}

/// The addresses before offset `n` of a section at `rva` at which a pattern
/// matches.
pub open spec fn hits_before(hay: Seq<u8>, rva: u32, pat: Seq<Option<u8>>, n: int) -> Seq<u32>
    decreases n,
{
    if n <= 0 {
        Seq::empty()
    } else if fits(hay, n - 1, pat) {
        hits_before(hay, rva, pat, n - 1).push(rva.wrapping_add((n - 1) as u32))
    } else {
        hits_before(hay, rva, pat, n - 1)
    }
}

/// The addresses in a section at `rva` at which a pattern matches.
pub open spec fn hits_in(hay: Seq<u8>, rva: u32, pat: Seq<Option<u8>>) -> Seq<u32> {
    hits_before(hay, rva, pat, hay.len() as int + 1)
}

/// The matches in the first `n` executable sections.
pub open spec fn matches_of(pe: PeV, pat: Seq<Option<u8>>, n: int) -> Seq<u32>
    decreases n,
{
    if n <= 0 {
        Seq::empty()
    } else {
        let sec = pe.exec_sections()[n - 1];
        matches_of(pe, pat, n - 1) + hits_in(pe.bytes(sec.rva, sec.vsize as int), sec.rva, pat)
    }
}

/// All matches of a pattern in the executable sections.
pub open spec fn all_matches(pe: PeV, pat: Seq<Option<u8>>) -> Seq<u32> {
    matches_of(pe, pat, pe.exec_sections().len() as int)
}

/// The matches of a pattern up to a limit, which counts as one at least.
pub open spec fn scanned(pe: PeV, pat: Seq<Option<u8>>, limit: int) -> Seq<u32> {
    let all = all_matches(pe, pat);
    let most = if limit < 1 {
        1
    } else {
        limit
    };
    if all.len() <= most {
        all
    } else {
        all.take(most)
    }
}

proof fn matches_of_prefix(pe: PeV, pat: Seq<Option<u8>>, i: int, n: int)
    requires
        0 <= i <= n,
    ensures
        matches_of(pe, pat, i).is_prefix_of(matches_of(pe, pat, n)),
    decreases n,
{
    if i < n {
        matches_of_prefix(pe, pat, i, n - 1);
    }
}

/// The addresses at which a pattern matches around the first `n` places of its
/// anchor in a section at `rva`.
spec fn matches_in(hay: Seq<u8>, rva: u32, pat: Seq<Option<u8>>, at: Seq<usize>, n: int) -> Seq<u32>
    decreases n,
{
    if n <= 0 {
        Seq::empty()
    } else {
        let s = matches_in(hay, rva, pat, at, n - 1);
        let start = at[n - 1] - anchor_of(pat).0;
        if start >= 0 && fits(hay, start, pat) {
            s.push(rva.wrapping_add(start as u32))
        } else {
            s
        }
    }
}

proof fn matches_in_prefix(hay: Seq<u8>, rva: u32, pat: Seq<Option<u8>>, at: Seq<usize>, i: int, n: int)
    requires
        0 <= i <= n,
    ensures
        matches_in(hay, rva, pat, at, i).is_prefix_of(matches_in(hay, rva, pat, at, n)),
    decreases n,
{
    if i < n {
        matches_in_prefix(hay, rva, pat, at, i, n - 1);
    }
}

proof fn matches_in_same(hay: Seq<u8>, rva: u32, pat: Seq<Option<u8>>, a: Seq<usize>, b: Seq<usize>, n: int)
    requires
        n <= a.len(),
        n <= b.len(),
        forall|i: int| 0 <= i < n ==> a[i] == b[i],
    ensures
        matches_in(hay, rva, pat, a, n) == matches_in(hay, rva, pat, b, n),
    decreases n,
{
    if n > 0 {
        matches_in_same(hay, rva, pat, a, b, n - 1);
    }
}

/// Where a pattern fits, its anchor stands.
proof fn anchor_stands(hay: Seq<u8>, start: int, pat: Seq<Option<u8>>)
    requires
        fits(hay, start, pat),
    ensures
        search::stands(hay, needle_of(pat), start + anchor_of(pat).0),
{
    let (a, n) = anchor_of(pat);
    anchor_is_longest(pat, 0, 0);
    let needle = needle_of(pat);
    let part = hay.subrange(start + a, start + a + n);
    assert forall|i: int| 0 <= i < n implies part[i] == needle[i] by {
        assert(pat[a + i] is Some);
        assert(hay[start + (a + i)] == pat[a + i].unwrap());
    }
    assert(part =~= needle);
}

/// The matches around the places of the anchor before `n` are all matches that
/// start before `n` less the anchor's offset.
proof fn anchors_lead(hay: Seq<u8>, rva: u32, pat: Seq<Option<u8>>, n: int)
    requires
        0 <= n <= usize::MAX + 1,
    ensures
        ({
            let at = search::places(hay, needle_of(pat), n);
            matches_in(hay, rva, pat, at, at.len() as int) == hits_before(hay, rva, pat, n - anchor_of(pat).0)
        }),
    decreases n,
{
    let a = anchor_of(pat).0;
    anchor_is_longest(pat, 0, 0);
    if n > 0 {
        anchors_lead(hay, rva, pat, n - 1);
        let before = search::places(hay, needle_of(pat), n - 1);
        let now = search::places(hay, needle_of(pat), n);
        let start = n - 1 - a;
        if search::stands(hay, needle_of(pat), n - 1) {
            matches_in_same(hay, rva, pat, before, now, before.len() as int);
        } else if start >= 0 && fits(hay, start, pat) {
            anchor_stands(hay, start, pat);
        }
    }
}

proof fn no_late_hits(hay: Seq<u8>, rva: u32, pat: Seq<Option<u8>>, i: int, n: int)
    requires
        i <= n,
        0 <= n,
        i >= 0 ==> i + pat.len() > hay.len(),
    ensures
        i >= 0 ==> hits_before(hay, rva, pat, n) == hits_before(hay, rva, pat, i),
    decreases n - i,
{
    if 0 <= i < n {
        no_late_hits(hay, rva, pat, i, n - 1);
    }
}

/// The matches around all places of the anchor are all matches.
proof fn anchors_find_all(hay: Seq<u8>, rva: u32, pat: Seq<Option<u8>>)
    requires
        hay.len() <= usize::MAX,
    ensures
        ({
            let at = search::occurrences(hay, needle_of(pat));
            matches_in(hay, rva, pat, at, at.len() as int) == hits_in(hay, rva, pat)
        }),
{
    let n = hay.len() as int + 1;
    let a = anchor_of(pat).0;
    anchor_is_longest(pat, 0, 0);
    anchors_lead(hay, rva, pat, n);
    if n - a >= 0 {
        no_late_hits(hay, rva, pat, n - a, n);
    } else {
        no_late_hits(hay, rva, pat, 0, n);
    }
}

fn needle(pat: &Vec<Option<u8>>, a: usize, n: usize) -> (r: Vec<u8>)
    requires
        (a as int, n as int) == anchor_of(pat@),
    ensures
        r@ == needle_of(pat@),
{
    proof {
        anchor_is_longest(pat@, 0, 0);
    }
    let mut out: Vec<u8> = Vec::new();
    let mut i: usize = 0;
    while i < n
        invariant
            is_run(pat@, a as int, n as int),
            pat@.len() == pat.len(),
            i <= n,
            out@ == Seq::new(i as nat, |k: int| pat@[a + k].unwrap()),
        decreases n - i,
    {
        assert(pat@[a + i] is Some);
        if let Some(b) = pat[a + i] {
            out.push(b);
        }
        i += 1;
        assert(out@ =~= Seq::new(i as nat, |k: int| pat@[a + k].unwrap()));
    }
    assert(out@ =~= needle_of(pat@));
    out
}

/// All match RVAs of a pattern in the module's executable sections (up to `limit`).
pub fn scan(m: &Module, pat: &Vec<Option<u8>>, limit: usize) -> (r: Vec<u32>)
    ensures
        r@ == scanned(m.deep_view().pe, pat@, limit as int),
{
    let ghost p = m.deep_view().pe;
    let (a, n) = anchor(pat);
    let nd = needle(pat, a, n);
    let sections = m.pe.exec_sections();
    let ghost total = p.exec_sections().len() as int;
    let ghost all = all_matches(p, pat@);
    let mut out: Vec<u32> = Vec::new();
    let mut i: usize = 0;
    assert(sections@.len() == sections.deep_view().len());
    while i < sections.len()
        invariant
            p == m.pe.deep_view(),
            sections.deep_view() == p.exec_sections(),
            total == sections@.len(),
            all == all_matches(p, pat@),
            total == p.exec_sections().len(),
            a == anchor_of(pat@).0,
            nd@ == needle_of(pat@),
            i <= sections@.len(),
            out@ == matches_of(p, pat@, i as int),
            out@.len() == 0 || out@.len() < limit,
        decreases sections@.len() - i,
    {
        let sec = sections[i];
        assert(sec.deep_view() == p.exec_sections()[i as int]);
        let hay = m.pe.bytes(sec.rva, sec.vsize as usize);
        let at = search::find_all(hay, nd.as_slice());
        proof {
            assert(hay.len() == hay@.len());
            anchors_find_all(hay@, sec.rva, pat@);
        }
        let ghost before = out@;
        let mut k: usize = 0;
        assert(before + Seq::<u32>::empty() =~= before);
        while k < at.len()
            invariant
                p == m.pe.deep_view(),
                all == all_matches(p, pat@),
                total == p.exec_sections().len(),
                a == anchor_of(pat@).0,
                i < total,
                before == matches_of(p, pat@, i as int),
                sec.deep_view() == p.exec_sections()[i as int],
                hay@ == p.bytes(sec.rva, sec.vsize as int),
                at@ == search::occurrences(hay@, needle_of(pat@)),
                matches_in(hay@, sec.rva, pat@, at@, at@.len() as int) == hits_in(hay@, sec.rva, pat@),
                k <= at@.len(),
                out@ == before + matches_in(hay@, sec.rva, pat@, at@, k as int),
                out@.len() == 0 || out@.len() < limit,
            decreases at@.len() - k,
        {
            let pos = at[k];
            if pos >= a {
                let start = pos - a;
                if matches_at(hay, start, pat) {
                    let ghost pre = matches_in(hay@, sec.rva, pat@, at@, k as int);
                    let hit = sec.rva.wrapping_add(start as u32);
                    out.push(hit);
                    assert(out@ =~= before + pre.push(hit));
                    if out.len() >= limit {
                        proof {
                            matches_in_prefix(hay@, sec.rva, pat@, at@, k + 1, at@.len() as int);
                            let whole = matches_in(hay@, sec.rva, pat@, at@, at@.len() as int);
                            assert(matches_of(p, pat@, i + 1) == before + whole);
                            matches_of_prefix(p, pat@, i + 1, total);
                            assert(out@.is_prefix_of(before + whole));
                            assert(out@ =~= all.take(out@.len() as int));
                        }
                        return out;
                    }
                }
            }
            k += 1;
        }
        i += 1;
    }
    out
}

/// The value of a signature that matches at `at`.
pub open spec fn resolved(pe: PeV, sig: SigV, at: u32) -> Option<i64> {
    match sig.capture {
        None => Some((at as i64).wrapping_add(sig.adjust)),
        Some((p, cap)) => {
            let r = at.wrapping_add(p as u32);
            let v: Option<i64> = match cap {
                Cap::Rel32 => match pe.i32(r as int) {
                    Some(d) => Some((r + 4 + d) as i64),
                    None => None,
                },
                Cap::U32 => match pe.u32(r as int) {
                    Some(d) => Some(d as i64),
                    None => None,
                },
                Cap::I32 => match pe.i32(r as int) {
                    Some(d) => Some(d as i64),
                    None => None,
                },
                Cap::U16 => match pe::word16(pe.image, r as int) {
                    Some(d) => Some(d as i64),
                    None => None,
                },
                Cap::U8 => match pe::byte(pe.image, r as int) {
                    Some(d) => Some(d as i64),
                    None => None,
                },
                Cap::I8 => match pe::byte(pe.image, r as int) {
                    Some(d) => Some((d as i8) as i64),
                    None => None,
                },
            };
            match v {
                Some(v) => Some(v.wrapping_add(sig.adjust)),
                None => None,
            }
        },
    }
}

pub fn resolve(m: &Module, sig: &Sig, at: u32) -> (r: Option<i64>)
    ensures
        r == resolved(m.deep_view().pe, sig.deep_view(), at),
{
    let (p, cap) = match sig.capture {
        None => {
            return Some((at as i64).wrapping_add(sig.adjust));
        },
        Some(c) => c,
    };
    let r = at.wrapping_add(p as u32);
    let v: Option<i64> = match cap {
        Cap::Rel32 => match m.pe.i32(r) {
            Some(d) => Some(r as i64 + 4 + d as i64),
            None => None,
        },
        Cap::U32 => match m.pe.u32(r) {
            Some(d) => Some(d as i64),
            None => None,
        },
        Cap::I32 => match m.pe.i32(r) {
            Some(d) => Some(d as i64),
            None => None,
        },
        Cap::U16 => match pe::read16(m.pe.image.as_slice(), r as u64) {
            Some(d) => Some(d as i64),
            None => None,
        },
        Cap::U8 => match m.pe.u8(r) {
            Some(d) => Some(d as i64),
            None => None,
        },
        Cap::I8 => match m.pe.u8(r) {
            Some(d) => Some((d as i8) as i64),
            None => None,
        },
    };
    match v {
        Some(v) => Some(v.wrapping_add(sig.adjust)),
        None => None,
    }
}

#[derive(Debug)]
pub struct SigResult {
    pub sig: Sig,
    pub value: Option<i64>,
    pub matches: usize,
}

/// Model of a signature's result.
pub ghost struct SigResultV {
    pub sig: SigV,
    pub value: Option<i64>,
    pub matches: usize,
}

impl DeepView for SigResult {
    type V = SigResultV;

    open spec fn deep_view(&self) -> SigResultV {
        SigResultV { sig: self.sig.deep_view(), value: self.value, matches: self.matches }
    }
}

/// A signature applied to an image: it has a value only where it matches once.
pub open spec fn applied(pe: PeV, sig: SigV) -> SigResultV {
    let hits = scanned(pe, sig.bytes, 2);
    SigResultV {
        sig,
        value: if hits.len() == 1 {
            resolved(pe, sig, hits[0])
        } else {
            None
        },
        matches: hits.len() as usize,
    }
}

pub fn apply(m: &Module, sigs: &Vec<Sig>) -> (r: Vec<SigResult>)
    ensures
        r.deep_view() == Seq::new(
            sigs@.len(),
            |i: int| applied(m.deep_view().pe, sigs.deep_view()[i]),
        ),
{
    let ghost p = m.deep_view().pe;
    let ghost s = sigs.deep_view();
    let ghost all = Seq::new(sigs@.len(), |i: int| applied(p, s[i]));
    let mut out: Vec<SigResult> = Vec::new();
    let mut i: usize = 0;
    assert(out.deep_view() =~= all.take(0));
    while i < sigs.len()
        invariant
            p == m.deep_view().pe,
            s == sigs.deep_view(),
            all == Seq::new(sigs@.len(), |i: int| applied(p, s[i])),
            i <= sigs@.len(),
            out.deep_view() == all.take(i as int),
        decreases sigs@.len() - i,
    {
        let ghost before = out.deep_view();
        let hits = scan(m, &sigs[i].bytes, 2);
        let value = if hits.len() == 1 { resolve(m, &sigs[i], hits[0]) } else { None };
        let r = SigResult { sig: sigs[i].clone(), value, matches: hits.len() };
        let ghost x = r.deep_view();
        assert(x == applied(p, s[i as int]));
        out.push(r);
        i += 1;
        assert(out.deep_view() =~= before.push(x));
        assert(all.take(i as int) =~= before.push(all[i - 1]));
    }
    assert(all.take(i as int) =~= all);
    out
}

// ---------------------------------------------------------------------------
// Laws.

proof fn hits_fit(hay: Seq<u8>, rva: u32, pat: Seq<Option<u8>>, n: int, i: int)
    requires
        0 <= i < hits_before(hay, rva, pat, n).len(),
    ensures
        exists|start: int| #[trigger]
            fits(hay, start, pat) && hits_before(hay, rva, pat, n)[i] == rva.wrapping_add(start as u32),
    decreases n,
{
    let s = hits_before(hay, rva, pat, n - 1);
    if i < s.len() {
        hits_fit(hay, rva, pat, n - 1, i);
    } else {
        assert(fits(hay, n - 1, pat));
    }
}

/// An address at which a pattern fits the bytes of an executable section.
pub open spec fn is_match(pe: PeV, pat: Seq<Option<u8>>, at: u32) -> bool {
    exists|k: int, start: int|
        0 <= k < pe.exec_sections().len() && #[trigger] fits(
            pe.bytes(pe.exec_sections()[k].rva, pe.exec_sections()[k].vsize as int),
            start,
            pat,
        ) && at == pe.exec_sections()[k].rva.wrapping_add(start as u32)
}

proof fn matches_of_fit(pe: PeV, pat: Seq<Option<u8>>, n: int, i: int)
    requires
        0 <= n <= pe.exec_sections().len(),
        0 <= i < matches_of(pe, pat, n).len(),
    ensures
        is_match(pe, pat, matches_of(pe, pat, n)[i]),
    decreases n,
{
    if n > 0 {
        let before = matches_of(pe, pat, n - 1);
        if i < before.len() {
            matches_of_fit(pe, pat, n - 1, i);
        } else {
            let sec = pe.exec_sections()[n - 1];
            let hay = pe.bytes(sec.rva, sec.vsize as int);
            hits_fit(hay, sec.rva, pat, hay.len() as int + 1, i - before.len());
        }
    }
}

/// Every match in the list of matches is one.
pub proof fn matches_are_real(pe: PeV, pat: Seq<Option<u8>>, i: int)
    requires
        0 <= i < all_matches(pe, pat).len(),
    ensures
        is_match(pe, pat, all_matches(pe, pat)[i]),
{
    matches_of_fit(pe, pat, pe.exec_sections().len() as int, i);
}

/// Every address that a scan finds is a match, and there are no more of them
/// than asked for.
pub proof fn scan_finds_matches(pe: PeV, pat: Seq<Option<u8>>, limit: int)
    requires
        1 <= limit,
    ensures
        scanned(pe, pat, limit).len() <= limit,
        forall|i: int| 0 <= i < scanned(pe, pat, limit).len() ==> is_match(pe, pat, #[trigger] scanned(pe, pat, limit)[i]),
{
    let n = pe.exec_sections().len() as int;
    let all = all_matches(pe, pat);
    assert forall|i: int| 0 <= i < scanned(pe, pat, limit).len() implies is_match(
        pe,
        pat,
        #[trigger] scanned(pe, pat, limit)[i],
    ) by {
        assert(scanned(pe, pat, limit)[i] == all[i]);
        matches_of_fit(pe, pat, n, i);
    }
}

/// A signature has a value only where its pattern is found once, and the value
/// is that of the match.
pub proof fn value_is_unique(pe: PeV, sig: SigV)
    ensures
        applied(pe, sig).value is Some ==> applied(pe, sig).matches == 1 && exists|at: u32| #[trigger]
            is_match(pe, sig.bytes, at) && applied(pe, sig).value == resolved(pe, sig, at) && all_matches(pe, sig.bytes)
                == seq![at],
{
    scan_finds_matches(pe, sig.bytes, 2);
    let hits = scanned(pe, sig.bytes, 2);
    if hits.len() == 1 {
        assert(is_match(pe, sig.bytes, hits[0]));
        assert(all_matches(pe, sig.bytes) =~= seq![hits[0]]);
    }
}

proof fn hit_is_listed(hay: Seq<u8>, rva: u32, pat: Seq<Option<u8>>, n: int, start: int)
    requires
        0 <= start < n,
        fits(hay, start, pat),
    ensures
        hits_before(hay, rva, pat, n).contains(rva.wrapping_add(start as u32)),
    decreases n,
{
    let found = rva.wrapping_add(start as u32);
    let now = hits_before(hay, rva, pat, n);
    if start == n - 1 {
        assert(now[now.len() - 1] == found);
    } else {
        hit_is_listed(hay, rva, pat, n - 1, start);
        let before = hits_before(hay, rva, pat, n - 1);
        let j = choose|j: int| 0 <= j < before.len() && before[j] == found;
        assert(now[j] == found);
    }
}

/// Every place where a pattern fits the bytes of an executable section is
/// found.
pub proof fn scan_finds_all(pe: PeV, pat: Seq<Option<u8>>, k: int, start: int)
    requires
        0 <= k < pe.exec_sections().len(),
        fits(pe.bytes(pe.exec_sections()[k].rva, pe.exec_sections()[k].vsize as int), start, pat),
    ensures
        all_matches(pe, pat).contains(pe.exec_sections()[k].rva.wrapping_add(start as u32)),
{
    let sec = pe.exec_sections()[k];
    let hay = pe.bytes(sec.rva, sec.vsize as int);
    let found = sec.rva.wrapping_add(start as u32);
    hit_is_listed(hay, sec.rva, pat, hay.len() as int + 1, start);
    let whole = hits_in(hay, sec.rva, pat);
    let j = choose|j: int| 0 <= j < whole.len() && whole[j] == found;
    let before = matches_of(pe, pat, k);
    let upto = matches_of(pe, pat, k + 1);
    assert(upto == before + whole);
    assert(upto[before.len() + j] == found);
    matches_of_prefix(pe, pat, k + 1, pe.exec_sections().len() as int);
    assert(all_matches(pe, pat)[before.len() + j] == found);
}

} // verus!
