//! Minimal PE32+ loader. The image is mapped by RVA so every other module can
//! read memory exactly as the Windows loader would lay it out.

use vstd::prelude::*;
use vstd::string::StringExecFns;

use crate::num;
use crate::table;
use crate::table::Table;
use crate::text;

verus! {

pub const SCN_MEM_EXECUTE: u32 = 0x2000_0000;

pub const SCN_MEM_WRITE: u32 = 0x8000_0000;

/// Why a file is not a PE32+ image this loader can map.
#[derive(Clone, Copy, Debug, PartialEq, Eq, Structural)]
pub enum PeError {
    /// A read at this file offset runs past the end of the file.
    OutOfBounds(u64),
    NotPe,
    BadSignature,
    /// An image for another machine.
    Machine(u16),
    NotPe32Plus,
    /// A part of the export directory lies outside the image.
    Exports(ExportPart),
    /// A part of the import directory lies outside the image.
    Imports(ImportPart),
}

#[derive(Clone, Copy, Debug, PartialEq, Eq, Structural)]
pub enum ExportPart {
    Base,
    Count,
    Names,
    Funcs,
    NameTable,
    Ordinals,
    NameRva,
    Ordinal,
    FuncRva,
}

#[derive(Clone, Copy, Debug, PartialEq, Eq, Structural)]
pub enum ImportPart {
    Descriptor,
    Name,
    Iat,
    Thunk,
}

impl ExportPart {
    pub open spec fn text(self) -> Seq<char> {
        match self {
            ExportPart::Base => "export base"@,
            ExportPart::Count => "export count"@,
            ExportPart::Names => "export names"@,
            ExportPart::Funcs => "export funcs"@,
            ExportPart::NameTable => "export name table"@,
            ExportPart::Ordinals => "export ordinals"@,
            ExportPart::NameRva => "name rva"@,
            ExportPart::Ordinal => "ordinal"@,
            ExportPart::FuncRva => "func rva"@,
        }
    }

    pub fn label(self) -> (r: &'static str)
        ensures
            r@ == self.text(),
    {
        match self {
            ExportPart::Base => "export base",
            ExportPart::Count => "export count",
            ExportPart::Names => "export names",
            ExportPart::Funcs => "export funcs",
            ExportPart::NameTable => "export name table",
            ExportPart::Ordinals => "export ordinals",
            ExportPart::NameRva => "name rva",
            ExportPart::Ordinal => "ordinal",
            ExportPart::FuncRva => "func rva",
        }
    }
}

impl ImportPart {
    pub open spec fn text(self) -> Seq<char> {
        match self {
            ImportPart::Descriptor => "import descriptor"@,
            ImportPart::Name => "import name"@,
            ImportPart::Iat => "import iat"@,
            ImportPart::Thunk => "thunk"@,
        }
    }

    pub fn label(self) -> (r: &'static str)
        ensures
            r@ == self.text(),
    {
        match self {
            ImportPart::Descriptor => "import descriptor",
            ImportPart::Name => "import name",
            ImportPart::Iat => "import iat",
            ImportPart::Thunk => "thunk",
        }
    }
}

impl PeError {
    /// The message of an error about the file at `path`.
    pub open spec fn text(self, path: Seq<char>) -> Seq<char> {
        match self {
            PeError::OutOfBounds(off) => "read out of bounds at "@ + num::hex(off as int),
            PeError::NotPe => path + " is not a PE file"@,
            PeError::BadSignature => "bad PE signature"@,
            PeError::Machine(m) => "only x64 images are supported (machine "@ + num::hex(m as int) + ")"@,
            PeError::NotPe32Plus => "not a PE32+ image"@,
            PeError::Exports(p) => "parsing exports: "@ + p.text(),
            PeError::Imports(p) => "parsing imports: "@ + p.text(),
        }
    }

    pub fn message(self, path: &str) -> (r: String)
        ensures
            r@ == self.text(path@),
    {
        let mut out = String::new();
        match self {
            PeError::OutOfBounds(off) => {
                out.append("read out of bounds at ");
                let h = num::format_hex(off);
                out.append(h.as_str());
            },
            PeError::NotPe => {
                out.append(path);
                out.append(" is not a PE file");
            },
            PeError::BadSignature => {
                out.append("bad PE signature");
            },
            PeError::Machine(m) => {
                out.append("only x64 images are supported (machine ");
                let h = num::format_hex(m as u64);
                out.append(h.as_str());
                out.append(")");
            },
            PeError::NotPe32Plus => {
                out.append("not a PE32+ image");
            },
            PeError::Exports(p) => {
                out.append("parsing exports: ");
                out.append(p.label());
            },
            PeError::Imports(p) => {
                out.append("parsing imports: ");
                out.append(p.label());
            },
        }
        assert(out@ =~= self.text(path@));
        out
    }
}

// ---------------------------------------------------------------------------
// Little-endian reads.

/// The byte at `at`.
pub open spec fn byte(s: Seq<u8>, at: int) -> Option<u8> {
    if 0 <= at < s.len() {
        Some(s[at])
    } else {
        None
    }
}

pub open spec fn le16(s: Seq<u8>, at: int) -> int {
    s[at] + 0x100 * s[at + 1]
}

pub open spec fn le32(s: Seq<u8>, at: int) -> int {
    le16(s, at) + 0x1_0000 * le16(s, at + 2)
}

pub open spec fn le64(s: Seq<u8>, at: int) -> int {
    le32(s, at) + 0x1_0000_0000 * le32(s, at + 4)
}

/// The 16-bit number at `at`.
pub open spec fn word16(s: Seq<u8>, at: int) -> Option<u16> {
    if 0 <= at && at + 2 <= s.len() {
        Some(le16(s, at) as u16)
    } else {
        None
    }
}

/// The 32-bit number at `at`.
pub open spec fn word32(s: Seq<u8>, at: int) -> Option<u32> {
    if 0 <= at && at + 4 <= s.len() {
        Some(le32(s, at) as u32)
    } else {
        None
    }
}

/// The 64-bit number at `at`.
pub open spec fn word64(s: Seq<u8>, at: int) -> Option<u64> {
    if 0 <= at && at + 8 <= s.len() {
        Some(le64(s, at) as u64)
    } else {
        None
    }
}

fn fits(d: &[u8], off: u64, n: u64) -> (r: bool)
    ensures
        r == (off + n <= d@.len()),
{
    let len = d.len() as u64;
    n <= len && off <= len - n
}

pub fn read16(d: &[u8], off: u64) -> (r: Option<u16>)
    ensures
        r == word16(d@, off as int),
{
    if fits(d, off, 2) {
        let i = off as usize;
        Some(d[i] as u16 + 0x100 * d[i + 1] as u16)
    } else {
        None
    }
}

pub fn read32(d: &[u8], off: u64) -> (r: Option<u32>)
    ensures
        r == word32(d@, off as int),
{
    if fits(d, off, 4) {
        let i = off as usize;
        let lo: u32 = d[i] as u32 + 0x100 * d[i + 1] as u32;
        let hi: u32 = d[i + 2] as u32 + 0x100 * d[i + 3] as u32;
        Some(lo + 0x1_0000 * hi)
    } else {
        None
    }
}

pub fn read64(d: &[u8], off: u64) -> (r: Option<u64>)
    ensures
        r == word64(d@, off as int),
{
    if fits(d, off, 8) {
        let i = off as usize;
        let a: u64 = d[i] as u64 + 0x100 * d[i + 1] as u64;
        let b: u64 = d[i + 2] as u64 + 0x100 * d[i + 3] as u64;
        let c: u64 = d[i + 4] as u64 + 0x100 * d[i + 5] as u64;
        let e: u64 = d[i + 6] as u64 + 0x100 * d[i + 7] as u64;
        let lo: u64 = a + 0x1_0000 * b;
        let hi: u64 = c + 0x1_0000 * e;
        Some(lo + 0x1_0000_0000 * hi)
    } else {
        None
    }
}

/// A read of a file: the value, or the offset at which it fails.
pub open spec fn read<T>(r: Option<T>, off: int) -> Result<T, PeError> {
    match r {
        Some(v) => Ok(v),
        None => Err(PeError::OutOfBounds(off as u64)),
    }
}

/// `n` bytes of a file from `off` on.
pub open spec fn run(d: Seq<u8>, off: int, n: int) -> Result<Seq<u8>, PeError> {
    if off + n <= d.len() {
        Ok(d.subrange(off, off + n))
    } else {
        Err(PeError::OutOfBounds(off as u64))
    }
}

pub fn rd(d: &[u8], off: u64, n: usize) -> (r: Result<Vec<u8>, PeError>)
    ensures
        match r {
            Ok(v) => run(d@, off as int, n as int) == Ok::<Seq<u8>, PeError>(v@),
            Err(e) => run(d@, off as int, n as int) == Err::<Seq<u8>, PeError>(e),
        },
{
    if !fits(d, off, n as u64) {
        return Err(PeError::OutOfBounds(off));
    }
    let len = d.len();
    let from = off as usize;
    let mut out: Vec<u8> = Vec::new();
    let mut i: usize = 0;
    while i < n
        invariant
            from + n <= d@.len(),
            from + n <= usize::MAX,
            i <= n,
            out@ == d@.subrange(from as int, from + i),
        decreases n - i,
    {
        out.push(d[from + i]);
        i += 1;
        assert(d@.subrange(from as int, from + i) =~= d@.subrange(from as int, from + i - 1).push(d@[from + i - 1]));
    }
    Ok(out)
}

pub fn u16_at(d: &[u8], off: u64) -> (r: Result<u16, PeError>)
    ensures
        r == read(word16(d@, off as int), off as int),
{
    match read16(d, off) {
        Some(v) => Ok(v),
        None => Err(PeError::OutOfBounds(off)),
    }
}

pub fn u32_at(d: &[u8], off: u64) -> (r: Result<u32, PeError>)
    ensures
        r == read(word32(d@, off as int), off as int),
{
    match read32(d, off) {
        Some(v) => Ok(v),
        None => Err(PeError::OutOfBounds(off)),
    }
}

pub fn u64_at(d: &[u8], off: u64) -> (r: Result<u64, PeError>)
    ensures
        r == read(word64(d@, off as int), off as int),
{
    match read64(d, off) {
        Some(v) => Ok(v),
        None => Err(PeError::OutOfBounds(off)),
    }
}

/// The first zero byte at or after `at`.
pub open spec fn nul_from(s: Seq<u8>, at: int) -> Option<int>
    decreases s.len() - at,
{
    if at < 0 || at >= s.len() {
        None
    } else if s[at] == 0 {
        Some(at)
    } else {
        nul_from(s, at + 1)
    }
}

/// The zero-terminated string at `at`.
pub open spec fn c_string(s: Seq<u8>, at: int) -> Option<Seq<char>> {
    match nul_from(s, at) {
        Some(n) => Some(text::decoded(s.subrange(at, n))),
        None => None,
    }
}

/// The zero-terminated string at `at`, empty where there is none.
pub open spec fn c_string_or_empty(s: Seq<u8>, at: int) -> Seq<char> {
    match c_string(s, at) {
        Some(t) => t,
        None => Seq::empty(),
    }
}

pub fn read_cstr(d: &[u8], at: u64) -> (r: Option<String>)
    ensures
        r.deep_view() == c_string(d@, at as int),
{
    let len = d.len() as u64;
    if at >= len {
        return None;
    }
    let from = at as usize;
    let mut n: usize = from;
    while n < d.len() && d[n] != 0
        invariant
            from <= n <= d@.len(),
            nul_from(d@, from as int) == nul_from(d@, n as int),
        decreases d@.len() - n,
    {
        n += 1;
    }
    if n == d.len() {
        return None;
    }
    let s = vstd::slice::slice_subrange(d, from, n);
    Some(text::lossy(s))
}

fn read_cstr_or_empty(d: &[u8], at: u64) -> (r: String)
    ensures
        r@ == c_string_or_empty(d@, at as int),
{
    match read_cstr(d, at) {
        Some(t) => t,
        None => {
            let t = String::new();
            assert(t@ =~= Seq::empty());
            t
        },
    }
}

// ---------------------------------------------------------------------------
// The parts of an image.

#[derive(Debug)]
pub struct Section {
    pub name: String,
    pub rva: u32,
    pub vsize: u32,
    pub characteristics: u32,
}

/// Model of a section.
pub ghost struct SectionV {
    pub name: Seq<char>,
    pub rva: u32,
    pub vsize: u32,
    pub characteristics: u32,
}

impl DeepView for Section {
    type V = SectionV;

    open spec fn deep_view(&self) -> SectionV {
        SectionV { name: self.name@, rva: self.rva, vsize: self.vsize, characteristics: self.characteristics }
    }
}

impl Clone for Section {
    fn clone(&self) -> (r: Self)
        ensures
            r.deep_view() == self.deep_view(),
    {
        Section { name: self.name.clone(), rva: self.rva, vsize: self.vsize, characteristics: self.characteristics }
    }
}

impl SectionV {
    /// The addresses of a section run from its start to the wrapped end.
    pub open spec fn contains(self, rva: u32) -> bool {
        self.rva <= rva && rva < self.rva.wrapping_add(self.vsize)
    }

    pub open spec fn is_exec(self) -> bool {
        self.characteristics & SCN_MEM_EXECUTE != 0
    }

    pub open spec fn is_write(self) -> bool {
        self.characteristics & SCN_MEM_WRITE != 0
    }

    /// Initialized, non-executable data.
    pub open spec fn is_data(self) -> bool {
        !self.is_exec() && self.name != ".reloc"@ && self.name != ".pdata"@ && self.name != ".rsrc"@
    }
}

impl Section {
    pub fn contains(&self, rva: u32) -> (r: bool)
        ensures
            r == self.deep_view().contains(rva),
    {
        rva >= self.rva && rva < self.rva.wrapping_add(self.vsize)
    }

    pub fn is_exec(&self) -> (r: bool)
        ensures
            r == self.deep_view().is_exec(),
    {
        self.characteristics & SCN_MEM_EXECUTE != 0
    }

    pub fn is_write(&self) -> (r: bool)
        ensures
            r == self.deep_view().is_write(),
    {
        self.characteristics & SCN_MEM_WRITE != 0
    }

    fn is_data(&self) -> (r: bool)
        ensures
            r == self.deep_view().is_data(),
    {
        let n = self.name.as_str();
        !self.is_exec() && !text::same(n, ".reloc") && !text::same(n, ".pdata") && !text::same(n, ".rsrc")
    }
}

#[derive(Debug)]
pub struct Export {
    pub name: Option<String>,
    pub ordinal: u32,
    pub rva: u32,
    pub forwarder: Option<String>,
}

/// Model of an export.
pub ghost struct ExportV {
    pub name: Option<Seq<char>>,
    pub ordinal: u32,
    pub rva: u32,
    pub forwarder: Option<Seq<char>>,
}

impl DeepView for Export {
    type V = ExportV;

    open spec fn deep_view(&self) -> ExportV {
        ExportV {
            name: self.name.deep_view(),
            ordinal: self.ordinal,
            rva: self.rva,
            forwarder: self.forwarder.deep_view(),
        }
    }
}

#[derive(Debug)]
pub struct Import {
    pub dll: String,
    pub name: Option<String>,
    pub ordinal: Option<u16>,
    /// RVA of the IAT slot the loader fills with the resolved address.
    pub iat_rva: u32,
}

/// Model of an import.
pub ghost struct ImportV {
    pub dll: Seq<char>,
    pub name: Option<Seq<char>>,
    pub ordinal: Option<u16>,
    pub iat_rva: u32,
}

impl DeepView for Import {
    type V = ImportV;

    open spec fn deep_view(&self) -> ImportV {
        ImportV { dll: self.dll@, name: self.name.deep_view(), ordinal: self.ordinal, iat_rva: self.iat_rva }
    }
}

#[derive(Debug, Clone, Copy)]
pub struct RuntimeFunction {
    pub begin: u32,
    pub end: u32,
    /// True when the unwind info chains to a parent entry (a split-off
    /// fragment of another function rather than a real entry point).
    pub chained: bool,
}

impl DeepView for RuntimeFunction {
    type V = RuntimeFunction;

    open spec fn deep_view(&self) -> RuntimeFunction {
        *self
    }
}

pub struct Pe {
    pub path: String,
    pub name: String,
    pub image_base: u64,
    pub image: Vec<u8>,
    pub sections: Vec<Section>,
    pub timestamp: u32,
    pub checksum: u32,
    pub entry: u32,
    pub size_of_image: u32,
    pub exports: Vec<Export>,
    pub imports: Vec<Import>,
    pub runtime_functions: Vec<RuntimeFunction>,
    /// IAT slot RVA -> index in `imports`.
    pub iat_by_rva: Table<u32, usize>,
}

/// Model of a loaded image.
pub ghost struct PeV {
    pub path: Seq<char>,
    pub name: Seq<char>,
    pub image_base: u64,
    pub image: Seq<u8>,
    pub sections: Seq<SectionV>,
    pub timestamp: u32,
    pub checksum: u32,
    pub entry: u32,
    pub size_of_image: u32,
    pub exports: Seq<ExportV>,
    pub imports: Seq<ImportV>,
    pub runtime_functions: Seq<RuntimeFunction>,
    pub iat_by_rva: Seq<(u32, usize)>,
}

impl DeepView for Pe {
    type V = PeV;

    open spec fn deep_view(&self) -> PeV {
        PeV {
            path: self.path@,
            name: self.name@,
            image_base: self.image_base,
            image: self.image@,
            sections: self.sections.deep_view(),
            timestamp: self.timestamp,
            checksum: self.checksum,
            entry: self.entry,
            size_of_image: self.size_of_image,
            exports: self.exports.deep_view(),
            imports: self.imports.deep_view(),
            runtime_functions: self.runtime_functions.deep_view(),
            iat_by_rva: self.iat_by_rva.deep_view(),
        }
    }
}

// ---------------------------------------------------------------------------
// Headers and sections.

/// The header fields a load needs.
#[derive(Clone, Copy)]
pub struct Header {
    pub nsections: u16,
    pub timestamp: u32,
    pub opt: u64,
    pub opt_size: u16,
    pub entry: u32,
    pub image_base: u64,
    pub size_of_image: u32,
    pub size_of_headers: u32,
    pub checksum: u32,
    pub ndirs: u32,
}

/// File offset of the COFF header of a file with both signatures.
pub open spec fn coff_of(file: Seq<u8>) -> Result<int, PeError> {
    if !(file.len() >= 2 && file[0] == 0x4d && file[1] == 0x5a) {
        Err(PeError::NotPe)
    } else {
        match read(word32(file, 0x3c), 0x3c) {
            Err(e) => Err(e),
            Ok(at) => if word32(file, at as int) == Some(0x4550u32) {
                Ok(at + 4)
            } else {
                Err(PeError::BadSignature)
            },
        }
    }
}

fn find_coff(file: &[u8]) -> (r: Result<u64, PeError>)
    ensures
        match r {
            Ok(c) => coff_of(file@) == Ok::<int, PeError>(c as int) && c <= u32::MAX + 4,
            Err(e) => coff_of(file@) == Err::<int, PeError>(e),
        },
{
    if !(file.len() >= 2 && file[0] == 0x4d && file[1] == 0x5a) {
        return Err(PeError::NotPe);
    }
    let at = u32_at(file, 0x3c)?;
    match read32(file, at as u64) {
        Some(v) => if v == 0x4550 {
            Ok(at as u64 + 4)
        } else {
            Err(PeError::BadSignature)
        },
        None => Err(PeError::BadSignature),
    }
}

/// The optional header at `opt`, behind a COFF header with these fields.
pub open spec fn optional_header(file: Seq<u8>, nsections: u16, timestamp: u32, opt_size: u16, opt: int) -> Result<
    Header,
    PeError,
> {
    match read(word16(file, opt), opt) {
        Err(e) => Err(e),
        Ok(magic) => if magic != 0x20b {
            Err(PeError::NotPe32Plus)
        } else {
            match read(word32(file, opt + 16), opt + 16) {
                Err(e) => Err(e),
                Ok(entry) => match read(word64(file, opt + 24), opt + 24) {
                    Err(e) => Err(e),
                    Ok(image_base) => match read(word32(file, opt + 56), opt + 56) {
                        Err(e) => Err(e),
                        Ok(size_of_image) => match read(word32(file, opt + 60), opt + 60) {
                            Err(e) => Err(e),
                            Ok(size_of_headers) => match read(word32(file, opt + 64), opt + 64) {
                                Err(e) => Err(e),
                                Ok(checksum) => match read(word32(file, opt + 108), opt + 108) {
                                    Err(e) => Err(e),
                                    Ok(ndirs) => Ok(
                                        Header {
                                            nsections,
                                            timestamp,
                                            opt: opt as u64,
                                            opt_size,
                                            entry,
                                            image_base,
                                            size_of_image,
                                            size_of_headers,
                                            checksum,
                                            ndirs,
                                        },
                                    ),
                                },
                            },
                        },
                    },
                },
            }
        },
    }
}

/// The headers of an x64 PE32+ file.
pub open spec fn header(file: Seq<u8>) -> Result<Header, PeError> {
    match coff_of(file) {
        Err(e) => Err(e),
        Ok(coff) => match read(word16(file, coff), coff) {
            Err(e) => Err(e),
            Ok(machine) => if machine != 0x8664 {
                Err(PeError::Machine(machine))
            } else {
                match read(word16(file, coff + 2), coff + 2) {
                    Err(e) => Err(e),
                    Ok(nsections) => match read(word32(file, coff + 4), coff + 4) {
                        Err(e) => Err(e),
                        Ok(timestamp) => match read(word16(file, coff + 16), coff + 16) {
                            Err(e) => Err(e),
                            Ok(opt_size) => optional_header(file, nsections, timestamp, opt_size, coff + 20),
                        },
                    },
                }
            },
        },
    }
}

fn read_optional(file: &[u8], nsections: u16, timestamp: u32, opt_size: u16, opt: u64) -> (r: Result<Header, PeError>)
    requires
        opt <= u32::MAX + 24,
    ensures
        r == optional_header(file@, nsections, timestamp, opt_size, opt as int),
        r matches Ok(h) ==> h.opt == opt,
{
    let magic = u16_at(file, opt)?;
    if magic != 0x20b {
        return Err(PeError::NotPe32Plus);
    }
    let entry = u32_at(file, opt + 16)?;
    let image_base = u64_at(file, opt + 24)?;
    let size_of_image = u32_at(file, opt + 56)?;
    let size_of_headers = u32_at(file, opt + 60)?;
    let checksum = u32_at(file, opt + 64)?;
    let ndirs = u32_at(file, opt + 108)?;
    Ok(
        Header {
            nsections,
            timestamp,
            opt,
            opt_size,
            entry,
            image_base,
            size_of_image,
            size_of_headers,
            checksum,
            ndirs,
        },
    )
}

pub fn read_header(file: &[u8]) -> (r: Result<Header, PeError>)
    ensures
        r == header(file@),
        r matches Ok(h) ==> h.opt <= u32::MAX + 24,
{
    let coff = find_coff(file)?;
    let machine = u16_at(file, coff)?;
    if machine != 0x8664 {
        return Err(PeError::Machine(machine));
    }
    let nsections = u16_at(file, coff + 2)?;
    let timestamp = u32_at(file, coff + 4)?;
    let opt_size = u16_at(file, coff + 16)?;
    read_optional(file, nsections, timestamp, opt_size, coff + 20)
}

/// `image` with `n` bytes of `file` from `off` on laid over it at `at`.
pub open spec fn overlay(image: Seq<u8>, at: int, file: Seq<u8>, off: int, n: int) -> Seq<u8> {
    Seq::new(
        image.len(),
        |i: int|
            if at <= i < at + n {
                file[off + i - at]
            } else {
                image[i]
            },
    )
}

fn lay_over(image: &mut Vec<u8>, at: usize, file: &[u8], off: usize, n: usize)
    requires
        at + n <= old(image)@.len(),
        off + n <= file@.len(),
    ensures
        final(image)@ == overlay(old(image)@, at as int, file@, off as int, n as int),
{
    let ghost was = image@;
    let ghost size = image.len();
    let mut i: usize = 0;
    while i < n
        invariant
            was == old(image)@,
            image@.len() == was.len(),
            at + n <= was.len() <= usize::MAX,
            off + n <= file.len(),
            file.len() == file@.len(),
            i <= n,
            forall|k: int| 0 <= k < was.len() ==> #[trigger] image@[k] == (if at <= k < at + i {
                file@[off + k - at]
            } else {
                was[k]
            }),
        decreases n - i,
    {
        let b = file[off + i];
        image.set(at + i, b);
        i += 1;
    }
    assert(image@ =~= overlay(was, at as int, file@, off as int, n as int));
}

pub open spec fn min(a: int, b: int) -> int {
    if a <= b {
        a
    } else {
        b
    }
}

/// The empty image with the headers mapped at its start.
pub open spec fn mapped_headers(file: Seq<u8>, h: Header) -> Seq<u8> {
    let blank = Seq::new(h.size_of_image as nat, |i: int| 0u8);
    overlay(blank, 0, file, 0, min(h.size_of_headers as int, min(file.len() as int, h.size_of_image as int)))
}

/// The section header at file offset `s`: the section, its raw size and raw offset.
pub open spec fn section_header(file: Seq<u8>, s: int) -> Result<(SectionV, u32, u32), PeError> {
    match run(file, s, 8) {
        Err(e) => Err(e),
        Ok(raw_name) => match read(word32(file, s + 8), s + 8) {
            Err(e) => Err(e),
            Ok(vsize) => match read(word32(file, s + 12), s + 12) {
                Err(e) => Err(e),
                Ok(rva) => match read(word32(file, s + 16), s + 16) {
                    Err(e) => Err(e),
                    Ok(raw_size) => match read(word32(file, s + 20), s + 20) {
                        Err(e) => Err(e),
                        Ok(raw_off) => match read(word32(file, s + 36), s + 36) {
                            Err(e) => Err(e),
                            Ok(characteristics) => Ok(
                                (
                                    SectionV {
                                        name: text::trimmed_end(text::decoded(raw_name), '\0'),
                                        rva,
                                        vsize: if vsize >= raw_size {
                                            vsize
                                        } else {
                                            raw_size
                                        },
                                        characteristics,
                                    },
                                    raw_size,
                                    raw_off,
                                ),
                            ),
                        },
                    },
                },
            },
        },
    }
}

fn read_section(file: &[u8], s: u64) -> (r: Result<(Section, u32, u32), PeError>)
    requires
        s <= 0x1_0100_0000,
    ensures
        match r {
            Ok(t) => section_header(file@, s as int) == Ok::<(SectionV, u32, u32), PeError>(t.deep_view()),
            Err(e) => section_header(file@, s as int) == Err::<(SectionV, u32, u32), PeError>(e),
        },
{
    let raw_name = rd(file, s, 8)?;
    let vsize = u32_at(file, s + 8)?;
    let rva = u32_at(file, s + 12)?;
    let raw_size = u32_at(file, s + 16)?;
    let raw_off = u32_at(file, s + 20)?;
    let characteristics = u32_at(file, s + 36)?;
    let padded = text::lossy(raw_name.as_slice());
    let name = text::trim_end_of(padded.as_str(), '\0');
    let vsize = if vsize >= raw_size { vsize } else { raw_size };
    Ok((Section { name, rva, vsize, characteristics }, raw_size, raw_off))
}

/// `image` with the raw data of a section laid over its addresses, as far as
/// the file and the image reach.
pub open spec fn mapped_section(image: Seq<u8>, file: Seq<u8>, rva: u32, raw_size: u32, raw_off: u32) -> Seq<u8> {
    if raw_off < file.len() && rva <= image.len() {
        overlay(
            image,
            rva as int,
            file,
            raw_off as int,
            min(raw_size as int, min(file.len() - raw_off, image.len() - rva)),
        )
    } else {
        image
    }
}

fn map_section(image: &mut Vec<u8>, file: &[u8], rva: u32, raw_size: u32, raw_off: u32)
    ensures
        final(image)@ == mapped_section(old(image)@, file@, rva, raw_size, raw_off),
{
    let at = rva as usize;
    let off = raw_off as usize;
    if off < file.len() && at <= image.len() {
        let mut n: usize = raw_size as usize;
        if n > file.len() - off {
            n = file.len() - off;
        }
        if n > image.len() - at {
            n = image.len() - at;
        }
        lay_over(image, at, file, off, n);
    }
}

/// The image and the sections after the first `n` section headers of the table
/// at `tab`.
pub open spec fn mapped_sections(file: Seq<u8>, tab: int, image: Seq<u8>, n: int) -> Result<
    (Seq<u8>, Seq<SectionV>),
    PeError,
>
    decreases n,
{
    if n <= 0 {
        Ok((image, Seq::empty()))
    } else {
        match mapped_sections(file, tab, image, n - 1) {
            Err(e) => Err(e),
            Ok((img, secs)) => match section_header(file, tab + (n - 1) * 40) {
                Err(e) => Err(e),
                Ok((sec, raw_size, raw_off)) => Ok(
                    (mapped_section(img, file, sec.rva, raw_size, raw_off), secs.push(sec)),
                ),
            },
        }
    }
}

proof fn sections_fail(file: Seq<u8>, tab: int, image: Seq<u8>, i: int, n: int)
    requires
        0 <= i <= n,
        mapped_sections(file, tab, image, i) is Err,
    ensures
        mapped_sections(file, tab, image, n) == mapped_sections(file, tab, image, i),
    decreases n,
{
    if i < n {
        sections_fail(file, tab, image, i, n - 1);
    }
}

fn map_sections(file: &[u8], h: &Header, image: &mut Vec<u8>) -> (r: Result<Vec<Section>, PeError>)
    requires
        h.opt <= u32::MAX + 24,
    ensures
        match r {
            Ok(secs) => mapped_sections(file@, h.opt + h.opt_size, old(image)@, h.nsections as int) == Ok::<
                (Seq<u8>, Seq<SectionV>),
                PeError,
            >((final(image)@, secs.deep_view())),
            Err(e) => mapped_sections(file@, h.opt + h.opt_size, old(image)@, h.nsections as int) == Err::<
                (Seq<u8>, Seq<SectionV>),
                PeError,
            >(e),
        },
{
    let tab = h.opt + h.opt_size as u64;
    let ghost start = image@;
    let mut sections: Vec<Section> = Vec::new();
    let mut i: u64 = 0;
    assert(sections.deep_view() =~= Seq::empty());
    while i < h.nsections as u64
        invariant
            h.opt <= u32::MAX + 24,
            tab == h.opt + h.opt_size,
            i <= h.nsections,
            mapped_sections(file@, tab as int, start, i as int) == Ok::<(Seq<u8>, Seq<SectionV>), PeError>(
                (image@, sections.deep_view()),
            ),
            start == old(image)@,
        decreases h.nsections - i,
    {
        let s = tab + i * 40;
        let ghost before = sections.deep_view();
        match read_section(file, s) {
            Err(e) => {
                proof {
                    assert(mapped_sections(file@, tab as int, start, i + 1) is Err);
                    sections_fail(file@, tab as int, start, i + 1, h.nsections as int);
                }
                return Err(e);
            },
            Ok((sec, raw_size, raw_off)) => {
                map_section(image, file, sec.rva, raw_size, raw_off);
                sections.push(sec);
                assert(sections.deep_view() =~= before.push(sec.deep_view()));
            },
        }
        i += 1;
    }
    Ok(sections)
}

/// Address and size of data directory `i`.
pub open spec fn directory(file: Seq<u8>, h: Header, i: int) -> Result<(u32, u32), PeError> {
    if i >= h.ndirs {
        Ok((0, 0))
    } else {
        match read(word32(file, h.opt + 112 + i * 8), h.opt + 112 + i * 8) {
            Err(e) => Err(e),
            Ok(rva) => match read(word32(file, h.opt + 116 + i * 8), h.opt + 116 + i * 8) {
                Err(e) => Err(e),
                Ok(size) => Ok((rva, size)),
            },
        }
    }
}

fn read_directory(file: &[u8], h: &Header, i: u64) -> (r: Result<(u32, u32), PeError>)
    requires
        h.opt <= u32::MAX + 24,
        i <= 16,
    ensures
        r == directory(file@, *h, i as int),
{
    if i >= h.ndirs as u64 {
        return Ok((0, 0));
    }
    let rva = u32_at(file, h.opt + 112 + i * 8)?;
    let size = u32_at(file, h.opt + 116 + i * 8)?;
    Ok((rva, size))
}

// ---------------------------------------------------------------------------
// Exports.

/// The names that the first `n` entries of the name table give, by index in
/// the function table.
pub open spec fn export_names(image: Seq<u8>, names: u32, ords: u32, n: int) -> Result<
    Seq<(u32, Seq<char>)>,
    PeError,
>
    decreases n,
{
    if n <= 0 {
        Ok(Seq::empty())
    } else {
        match export_names(image, names, ords, n - 1) {
            Err(e) => Err(e),
            Ok(t) => match word32(image, names + (n - 1) * 4) {
                None => Err(PeError::Exports(ExportPart::NameRva)),
                Some(name_rva) => match word16(image, ords + (n - 1) * 2) {
                    None => Err(PeError::Exports(ExportPart::Ordinal)),
                    Some(idx) => Ok(table::put(t, idx as u32, c_string_or_empty(image, name_rva as int))),
                },
            },
        }
    }
}

proof fn export_names_fail(image: Seq<u8>, names: u32, ords: u32, i: int, n: int)
    requires
        0 <= i <= n,
        export_names(image, names, ords, i) is Err,
    ensures
        export_names(image, names, ords, n) == export_names(image, names, ords, i),
    decreases n,
{
    if i < n {
        export_names_fail(image, names, ords, i, n - 1);
    }
}

fn read_export_names(image: &[u8], names: u32, ords: u32, n: u32) -> (r: Result<Table<u32, String>, PeError>)
    ensures
        match r {
            Ok(t) => export_names(image@, names, ords, n as int) == Ok::<Seq<(u32, Seq<char>)>, PeError>(
                t.deep_view(),
            ),
            Err(e) => export_names(image@, names, ords, n as int) == Err::<Seq<(u32, Seq<char>)>, PeError>(e),
        },
{
    let mut t: Table<u32, String> = Table::new();
    let mut i: u32 = 0;
    while i < n
        invariant
            i <= n,
            export_names(image@, names, ords, i as int) == Ok::<Seq<(u32, Seq<char>)>, PeError>(t.deep_view()),
        decreases n - i,
    {
        let name_rva = match read32(image, names as u64 + i as u64 * 4) {
            Some(v) => v,
            None => {
                proof {
                    assert(export_names(image@, names, ords, i + 1) is Err);
                    export_names_fail(image@, names, ords, i + 1, n as int);
                }
                return Err(PeError::Exports(ExportPart::NameRva));
            },
        };
        let idx = match read16(image, ords as u64 + i as u64 * 2) {
            Some(v) => v,
            None => {
                proof {
                    assert(export_names(image@, names, ords, i + 1) is Err);
                    export_names_fail(image@, names, ords, i + 1, n as int);
                }
                return Err(PeError::Exports(ExportPart::Ordinal));
            },
        };
        t.insert(idx as u32, read_cstr_or_empty(image, name_rva as u64));
        i += 1;
    }
    Ok(t)
}

/// Export directory: where it is and what its header says.
#[derive(Clone, Copy)]
pub struct ExportDir {
    pub rva: u32,
    pub size: u32,
    pub base: u32,
    pub nfuncs: u32,
    pub funcs: u32,
}

/// The export of function `i`, whose table entry is `f`.
pub open spec fn export_of(image: Seq<u8>, d: ExportDir, names: Seq<(u32, Seq<char>)>, i: int, f: u32) -> ExportV {
    ExportV {
        name: table::get(names, i as u32),
        ordinal: d.base.wrapping_add(i as u32),
        rva: f,
        forwarder: if d.rva <= f && f < d.rva + d.size {
            Some(c_string_or_empty(image, f as int))
        } else {
            None
        },
    }
}

/// The exports among the first `n` functions; unused entries are zero.
pub open spec fn export_list(image: Seq<u8>, d: ExportDir, names: Seq<(u32, Seq<char>)>, n: int) -> Result<
    Seq<ExportV>,
    PeError,
>
    decreases n,
{
    if n <= 0 {
        Ok(Seq::empty())
    } else {
        match export_list(image, d, names, n - 1) {
            Err(e) => Err(e),
            Ok(out) => match word32(image, d.funcs + (n - 1) * 4) {
                None => Err(PeError::Exports(ExportPart::FuncRva)),
                Some(f) => if f == 0 {
                    Ok(out)
                } else {
                    Ok(out.push(export_of(image, d, names, n - 1, f)))
                },
            },
        }
    }
}

proof fn export_list_fail(image: Seq<u8>, d: ExportDir, names: Seq<(u32, Seq<char>)>, i: int, n: int)
    requires
        0 <= i <= n,
        export_list(image, d, names, i) is Err,
    ensures
        export_list(image, d, names, n) == export_list(image, d, names, i),
    decreases n,
{
    if i < n {
        export_list_fail(image, d, names, i, n - 1);
    }
}

fn read_export_list(image: &[u8], d: &ExportDir, names: &Table<u32, String>) -> (r: Result<Vec<Export>, PeError>)
    ensures
        match r {
            Ok(v) => export_list(image@, *d, names.deep_view(), d.nfuncs as int) == Ok::<Seq<ExportV>, PeError>(
                v.deep_view(),
            ),
            Err(e) => export_list(image@, *d, names.deep_view(), d.nfuncs as int) == Err::<Seq<ExportV>, PeError>(e),
        },
{
    let mut out: Vec<Export> = Vec::new();
    let mut i: u32 = 0;
    assert(out.deep_view() =~= Seq::empty());
    while i < d.nfuncs
        invariant
            i <= d.nfuncs,
            export_list(image@, *d, names.deep_view(), i as int) == Ok::<Seq<ExportV>, PeError>(out.deep_view()),
        decreases d.nfuncs - i,
    {
        let ghost before = out.deep_view();
        let f = match read32(image, d.funcs as u64 + i as u64 * 4) {
            Some(v) => v,
            None => {
                proof {
                    assert(export_list(image@, *d, names.deep_view(), i + 1) is Err);
                    export_list_fail(image@, *d, names.deep_view(), i + 1, d.nfuncs as int);
                }
                return Err(PeError::Exports(ExportPart::FuncRva));
            },
        };
        if f != 0 {
            let forwarder = if f >= d.rva && (f as u64) < d.rva as u64 + d.size as u64 {
                Some(read_cstr_or_empty(image, f as u64))
            } else {
                None
            };
            let name = match names.get(&i) {
                Some(n) => Some(n.clone()),
                None => None,
            };
            let e = Export { name, ordinal: d.base.wrapping_add(i), rva: f, forwarder };
            assert(e.deep_view() == export_of(image@, *d, names.deep_view(), i as int, f));
            out.push(e);
            assert(out.deep_view() =~= before.push(e.deep_view()));
        }
        i += 1;
    }
    Ok(out)
}

/// The exports of the directory at `rva`.
pub open spec fn exports_at(image: Seq<u8>, rva: u32, size: u32) -> Result<Seq<ExportV>, PeError> {
    match (
        word32(image, rva + 16),
        word32(image, rva + 20),
        word32(image, rva + 24),
        word32(image, rva + 28),
        word32(image, rva + 32),
        word32(image, rva + 36),
    ) {
        (None, _, _, _, _, _) => Err(PeError::Exports(ExportPart::Base)),
        (_, None, _, _, _, _) => Err(PeError::Exports(ExportPart::Count)),
        (_, _, None, _, _, _) => Err(PeError::Exports(ExportPart::Names)),
        (_, _, _, None, _, _) => Err(PeError::Exports(ExportPart::Funcs)),
        (_, _, _, _, None, _) => Err(PeError::Exports(ExportPart::NameTable)),
        (_, _, _, _, _, None) => Err(PeError::Exports(ExportPart::Ordinals)),
        (Some(base), Some(nfuncs), Some(nnames), Some(funcs), Some(names), Some(ords)) => match export_names(
            image,
            names,
            ords,
            nnames as int,
        ) {
            Err(e) => Err(e),
            Ok(t) => export_list(image, (ExportDir { rva, size, base, nfuncs, funcs }), t, nfuncs as int),
        },
    }
}

// ---------------------------------------------------------------------------
// Imports.

/// The import that a nonzero thunk `entry` describes.
pub open spec fn import_of(image: Seq<u8>, dll: Seq<char>, entry: u64, slot: u32) -> ImportV {
    if entry & 0x8000_0000_0000_0000 != 0 {
        ImportV { dll, name: None, ordinal: Some(entry as u16), iat_rva: slot }
    } else {
        ImportV { dll, name: c_string(image, (entry as u32) + 2), ordinal: None, iat_rva: slot }
    }
}

/// The imports of one library from thunk `i` on: the thunks run up to a zero.
pub open spec fn thunks_from(image: Seq<u8>, dll: Seq<char>, lookup: u32, iat: u32, i: int) -> Option<Seq<ImportV>>
    decreases image.len() - lookup - i * 8,
{
    match word64(image, lookup + i * 8) {
        None => None,
        Some(entry) => if entry == 0 {
            Some(Seq::empty())
        } else {
            match thunks_from(image, dll, lookup, iat, i + 1) {
                None => None,
                Some(rest) => Some(
                    seq![import_of(image, dll, entry, iat.wrapping_add((i as u32).wrapping_mul(8)))] + rest,
                ),
            }
        },
    }
}

/// The library a descriptor at `d` names, its thunks and its IAT; nothing for
/// the descriptor that ends the list.
pub open spec fn descriptor(image: Seq<u8>, d: int) -> Result<Option<(Seq<char>, u32, u32)>, PeError> {
    match (word32(image, d), word32(image, d + 12), word32(image, d + 16)) {
        (None, _, _) => Err(PeError::Imports(ImportPart::Descriptor)),
        (_, None, _) => Err(PeError::Imports(ImportPart::Name)),
        (_, _, None) => Err(PeError::Imports(ImportPart::Iat)),
        (Some(ilt), Some(name_rva), Some(iat)) => if name_rva == 0 && iat == 0 {
            Ok(None)
        } else {
            Ok(
                Some(
                    (
                        c_string_or_empty(image, name_rva as int),
                        if ilt != 0 {
                            ilt
                        } else {
                            iat
                        },
                        iat,
                    ),
                ),
            )
        },
    }
}

/// The imports of the descriptors from `d` on.
pub open spec fn imports_from(image: Seq<u8>, d: int) -> Result<Seq<ImportV>, PeError>
    decreases image.len() - d,
{
    match descriptor(image, d) {
        Err(e) => Err(e),
        Ok(None) => Ok(Seq::empty()),
        Ok(Some((dll, lookup, iat))) => match thunks_from(image, dll, lookup, iat, 0) {
            None => Err(PeError::Imports(ImportPart::Thunk)),
            Some(list) => match imports_from(image, d + 20) {
                Err(e) => Err(e),
                Ok(rest) => Ok(list + rest),
            },
        },
    }
}

fn read_thunks(image: &[u8], dll: &str, lookup: u32, iat: u32, out: &mut Vec<Import>) -> (r: bool)
    ensures
        r == thunks_from(image@, dll@, lookup, iat, 0).is_some(),
        r ==> final(out).deep_view() == old(out).deep_view() + thunks_from(image@, dll@, lookup, iat, 0).unwrap(),
{
    let ghost all = thunks_from(image@, dll@, lookup, iat, 0);
    let ghost before = out.deep_view();
    let mut at: u64 = lookup as u64;
    let mut i: u32 = 0;
    let ghost mut k: int = 0;
    assert(out.deep_view() =~= before + Seq::<ImportV>::empty());
    loop
        invariant
            before == old(out).deep_view(),
            all == thunks_from(image@, dll@, lookup, iat, 0),
            at == lookup + k * 8,
            0 <= k,
            i == k as u32,
            k <= image@.len(),
            at <= image@.len() + u32::MAX,
            image@.len() == image.len(),
            match thunks_from(image@, dll@, lookup, iat, k) {
                None => all is None,
                Some(rest) => all is Some && out.deep_view() + rest == before + all.unwrap(),
            },
        decreases image@.len() + u32::MAX + 8 - at,
    {
        let entry = match read64(image, at) {
            None => {
                return false;
            },
            Some(e) => e,
        };
        if entry == 0 {
            assert(out.deep_view() + Seq::<ImportV>::empty() =~= out.deep_view());
            return true;
        }
        let slot = iat.wrapping_add(i.wrapping_mul(8));
        let ghost pre = out.deep_view();
        let imp = if entry & 0x8000_0000_0000_0000 != 0 {
            Import { dll: dll.to_owned(), name: None, ordinal: Some(entry as u16), iat_rva: slot }
        } else {
            let name = read_cstr(image, (entry as u32) as u64 + 2);
            Import { dll: dll.to_owned(), name, ordinal: None, iat_rva: slot }
        };
        out.push(imp);
        proof {
            let x = import_of(image@, dll@, entry, slot);
            assert(imp.deep_view() == x);
            assert(out.deep_view() =~= pre.push(x));
            if let Some(rest) = thunks_from(image@, dll@, lookup, iat, k + 1) {
                assert(pre + (seq![x] + rest) =~= pre.push(x) + rest);
            }
            k = k + 1;
        }
        at += 8;
        i = (at.wrapping_sub(lookup as u64) / 8) as u32;
    }
}

/// `d + n`, or the last address where that is past it.
fn ahead(d: u64, n: u64) -> (r: u64)
    ensures
        r == min(d + n, u64::MAX as int),
{
    if d <= u64::MAX - n {
        d + n
    } else {
        u64::MAX
    }
}

fn read_imports(image: &[u8], rva: u32) -> (r: Result<Vec<Import>, PeError>)
    ensures
        match r {
            Ok(v) => imports_from(image@, rva as int) == Ok::<Seq<ImportV>, PeError>(v.deep_view()),
            Err(e) => imports_from(image@, rva as int) == Err::<Seq<ImportV>, PeError>(e),
        },
{
    let ghost all = imports_from(image@, rva as int);
    let mut out: Vec<Import> = Vec::new();
    let mut d: u64 = rva as u64;
    assert(out.deep_view() =~= Seq::empty());
    proof {
        if let Ok(rest) = all {
            assert(out.deep_view() + rest =~= rest);
        }
    }
    loop
        invariant
            all == imports_from(image@, rva as int),
            d <= image@.len() + u32::MAX,
            image@.len() == image.len(),
            match imports_from(image@, d as int) {
                Err(e) => all == Err::<Seq<ImportV>, PeError>(e),
                Ok(rest) => all == Ok::<Seq<ImportV>, PeError>(out.deep_view() + rest),
            },
        decreases image@.len() + u32::MAX + 20 - d,
    {
        let ilt = match read32(image, d) {
            Some(v) => v,
            None => {
                return Err(PeError::Imports(ImportPart::Descriptor));
            },
        };
        let name_rva = match read32(image, ahead(d, 12)) {
            Some(v) => v,
            None => {
                return Err(PeError::Imports(ImportPart::Name));
            },
        };
        let iat = match read32(image, ahead(d, 16)) {
            Some(v) => v,
            None => {
                return Err(PeError::Imports(ImportPart::Iat));
            },
        };
        if name_rva == 0 && iat == 0 {
            assert(out.deep_view() + Seq::<ImportV>::empty() =~= out.deep_view());
            return Ok(out);
        }
        let dll = read_cstr_or_empty(image, name_rva as u64);
        let lookup = if ilt != 0 { ilt } else { iat };
        let ghost pre = out.deep_view();
        if !read_thunks(image, dll.as_str(), lookup, iat, &mut out) {
            return Err(PeError::Imports(ImportPart::Thunk));
        }
        proof {
            let list = thunks_from(image@, dll@, lookup, iat, 0).unwrap();
            if let Ok(rest) = imports_from(image@, d + 20) {
                assert(pre + (list + rest) =~= (pre + list) + rest);
            }
        }
        d += 20;
    }
}

// ---------------------------------------------------------------------------
// Function table.

/// Whether the unwind info at `unwind` chains to a parent entry.
pub open spec fn is_chained(image: Seq<u8>, unwind: u32) -> bool {
    match byte(image, (unwind & 0xffff_fffe) as int) {
        Some(b) => (b >> 3) & 4 != 0,
        None => false,
    }
}

/// The entries of a function table with `n` entries from entry `i` on, up to
/// the first that lies outside the image; unused entries start at zero.
pub open spec fn pdata_from(image: Seq<u8>, rva: u32, n: int, i: int) -> Seq<RuntimeFunction>
    decreases n - i,
{
    let e = rva + i * 12;
    if i < 0 || i >= n {
        Seq::empty()
    } else {
        match (word32(image, e), word32(image, e + 4), word32(image, e + 8)) {
            (Some(begin), Some(end), Some(unwind)) => if begin == 0 {
                pdata_from(image, rva, n, i + 1)
            } else {
                seq![RuntimeFunction { begin, end, chained: is_chained(image, unwind) }] + pdata_from(
                    image,
                    rva,
                    n,
                    i + 1,
                )
            },
            _ => Seq::empty(),
        }
    }
}

/// The first addresses of runtime functions.
pub open spec fn begins(s: Seq<RuntimeFunction>) -> Seq<u32> {
    Seq::new(s.len(), |i: int| s[i].begin)
}

/// The function table at `rva`, ordered by first address.
pub open spec fn pdata_at(image: Seq<u8>, rva: u32, size: u32) -> Seq<RuntimeFunction> {
    let list = pdata_from(image, rva, size as int / 12, 0);
    table::sorted_by(begins(list), list)
}

fn read_pdata(image: &[u8], rva: u32, size: u32) -> (r: Vec<RuntimeFunction>)
    ensures
        r.deep_view() == pdata_at(image@, rva, size),
{
    let n: u64 = (size / 12) as u64;
    let ghost all = pdata_from(image@, rva, n as int, 0);
    let mut list: Vec<RuntimeFunction> = Vec::new();
    let mut keys: Vec<u32> = Vec::new();
    let mut i: u64 = 0;
    assert(list@ + all =~= all);
    while i < n
        invariant_except_break
            list@ + pdata_from(image@, rva, n as int, i as int) == all,
        invariant
            n <= u32::MAX,
            i <= n,
            keys@ == begins(list@),
        ensures
            list@ == all,
        decreases n - i,
    {
        let e = rva as u64 + i * 12;
        match (read32(image, e), read32(image, e + 4), read32(image, e + 8)) {
            (Some(begin), Some(end), Some(unwind)) => {
                if begin != 0 {
                    let info = (unwind & 0xffff_fffe) as usize;
                    let chained = info < image.len() && (image[info] >> 3) & 4 != 0;
                    let f = RuntimeFunction { begin, end, chained };
                    let ghost pre = list@;
                    list.push(f);
                    keys.push(begin);
                    proof {
                        let rest = pdata_from(image@, rva, n as int, i + 1);
                        assert(pre + (seq![f] + rest) =~= pre.push(f) + rest);
                        assert(keys@ =~= begins(list@));
                    }
                }
            },
            _ => {
                assert(list@ + Seq::<RuntimeFunction>::empty() =~= list@);
                break;
            },
        }
        i += 1;
    }
    assert(list@ =~= all);
    assert(list.deep_view() =~= all);
    assert(table::key_models(keys@) =~= begins(all));
    table::stable_sort(keys, list)
}

// ---------------------------------------------------------------------------
// Loading.

/// The index of each import by its IAT slot, the last one where slots repeat.
pub open spec fn slots_of(imports: Seq<ImportV>, n: int) -> Seq<(u32, usize)>
    decreases n,
{
    if n <= 0 {
        Seq::empty()
    } else {
        table::put(slots_of(imports, n - 1), imports[n - 1].iat_rva, (n - 1) as usize)
    }
}

fn index_slots(imports: &Vec<Import>) -> (r: Table<u32, usize>)
    ensures
        r.deep_view() == slots_of(imports.deep_view(), imports@.len() as int),
{
    let mut t: Table<u32, usize> = Table::new();
    let mut i: usize = 0;
    while i < imports.len()
        invariant
            i <= imports@.len(),
            t.deep_view() == slots_of(imports.deep_view(), i as int),
        decreases imports@.len() - i,
    {
        t.insert(imports[i].iat_rva, i);
        i += 1;
    }
    t
}

/// The directories of an image: exports, imports and function table.
pub open spec fn directories(file: Seq<u8>, h: Header, image: Seq<u8>) -> Result<
    (Seq<ExportV>, Seq<ImportV>, Seq<RuntimeFunction>),
    PeError,
> {
    match directory(file, h, 0) {
        Err(e) => Err(e),
        Ok((exp_rva, exp_size)) => match (if exp_rva != 0 {
            exports_at(image, exp_rva, exp_size)
        } else {
            Ok(Seq::empty())
        }) {
            Err(e) => Err(e),
            Ok(exports) => match directory(file, h, 1) {
                Err(e) => Err(e),
                Ok((imp_rva, _)) => match (if imp_rva != 0 {
                    imports_from(image, imp_rva as int)
                } else {
                    Ok(Seq::empty())
                }) {
                    Err(e) => Err(e),
                    Ok(imports) => match directory(file, h, 3) {
                        Err(e) => Err(e),
                        Ok((pdata_rva, pdata_size)) => Ok(
                            (
                                exports,
                                imports,
                                if pdata_rva != 0 {
                                    pdata_at(image, pdata_rva, pdata_size)
                                } else {
                                    Seq::empty()
                                },
                            ),
                        ),
                    },
                },
            },
        },
    }
}

/// The image that the bytes of a file describe.
pub open spec fn loaded(file: Seq<u8>, path: Seq<char>, name: Seq<char>) -> Result<PeV, PeError> {
    match header(file) {
        Err(e) => Err(e),
        Ok(h) => match mapped_sections(file, h.opt + h.opt_size, mapped_headers(file, h), h.nsections as int) {
            Err(e) => Err(e),
            Ok((image, sections)) => match directories(file, h, image) {
                Err(e) => Err(e),
                Ok((exports, imports, runtime_functions)) => Ok(
                    PeV {
                        path,
                        name,
                        image_base: h.image_base,
                        image,
                        sections,
                        timestamp: h.timestamp,
                        checksum: h.checksum,
                        entry: h.entry,
                        size_of_image: h.size_of_image,
                        exports,
                        imports,
                        runtime_functions,
                        iat_by_rva: slots_of(imports, imports.len() as int),
                    },
                ),
            },
        },
    }
}

fn blank_image(n: u32) -> (r: Vec<u8>)
    ensures
        r@ == Seq::new(n as nat, |i: int| 0u8),
{
    let r = vec![0u8; n as usize];
    assert(r@ =~= Seq::new(n as nat, |i: int| 0u8));
    r
}

impl PeV {
    /// The 32-bit number at an address.
    pub open spec fn u32(self, rva: int) -> Option<u32> {
        word32(self.image, rva)
    }

    /// The 64-bit number at an address.
    pub open spec fn u64(self, rva: int) -> Option<u64> {
        word64(self.image, rva)
    }

    /// The signed 32-bit number at an address.
    pub open spec fn i32(self, rva: int) -> Option<i32> {
        match word32(self.image, rva) {
            Some(v) => Some(v as i32),
            None => None,
        }
    }

    /// Up to `len` bytes from an address on, as far as the image reaches.
    pub open spec fn bytes(self, rva: u32, len: int) -> Seq<u8> {
        let s = min(rva as int, self.image.len() as int);
        self.image.subrange(s, min(s + len, self.image.len() as int))
    }

    pub open spec fn va_to_rva(self, va: u64) -> Option<u32> {
        if self.image_base <= va && va - self.image_base < self.size_of_image {
            Some((va - self.image_base) as u32)
        } else {
            None
        }
    }

    pub open spec fn rva_to_va(self, rva: u32) -> u64 {
        self.image_base.wrapping_add(rva as u64)
    }

    /// The first section from `i` on that contains an address.
    pub open spec fn section_from(self, rva: u32, i: int) -> Option<SectionV>
        decreases self.sections.len() - i,
    {
        if i < 0 || i >= self.sections.len() {
            None
        } else if self.sections[i].contains(rva) {
            Some(self.sections[i])
        } else {
            self.section_from(rva, i + 1)
        }
    }

    pub open spec fn section_of(self, rva: u32) -> Option<SectionV> {
        self.section_from(rva, 0)
    }

    pub open spec fn is_exec(self, rva: u32) -> bool {
        match self.section_of(rva) {
            Some(s) => s.is_exec(),
            None => false,
        }
    }

    pub open spec fn exec_sections(self) -> Seq<SectionV> {
        self.sections.filter(|s: SectionV| s.is_exec())
    }

    pub open spec fn data_sections(self) -> Seq<SectionV> {
        self.sections.filter(|s: SectionV| s.is_data())
    }

    /// The import whose address a slot of the IAT holds.
    pub open spec fn import_at_iat(self, iat_rva: u32) -> Option<ImportV> {
        match table::get(self.iat_by_rva, iat_rva) {
            Some(i) => if i < self.imports.len() {
                Some(self.imports[i as int])
            } else {
                None
            },
            None => None,
        }
    }
}

impl Pe {
    /// Maps the bytes of the file at `path`, whose last component is `name`.
    pub fn load(path: &str, name: &str, file: &[u8]) -> (r: Result<Pe, PeError>)
        ensures
            match r {
                Ok(pe) => loaded(file@, path@, name@) == Ok::<PeV, PeError>(pe.deep_view()),
                Err(e) => loaded(file@, path@, name@) == Err::<PeV, PeError>(e),
            },
    {
        let h = read_header(file)?;
        let mut image = blank_image(h.size_of_image);
        let mut hdr: usize = h.size_of_headers as usize;
        if hdr > file.len() {
            hdr = file.len();
        }
        if hdr > image.len() {
            hdr = image.len();
        }
        lay_over(&mut image, 0, file, 0, hdr);
        let ghost mapped = image@;
        assert(mapped == mapped_headers(file@, h));
        let sections = map_sections(file, &h, &mut image)?;
        let none: Vec<Export> = Vec::new();
        assert(none.deep_view() =~= Seq::empty());
        let (exp_rva, exp_size) = read_directory(file, &h, 0)?;
        let exports = if exp_rva != 0 { Self::parse_exports(&image, exp_rva, exp_size)? } else { none };
        let none: Vec<Import> = Vec::new();
        assert(none.deep_view() =~= Seq::empty());
        let (imp_rva, _) = read_directory(file, &h, 1)?;
        let imports = if imp_rva != 0 { Self::parse_imports(&image, imp_rva)? } else { none };
        let none: Vec<RuntimeFunction> = Vec::new();
        assert(none.deep_view() =~= Seq::empty());
        let (pdata_rva, pdata_size) = read_directory(file, &h, 3)?;
        let runtime_functions = if pdata_rva != 0 { Self::parse_pdata(&image, pdata_rva, pdata_size) } else { none };
        let iat_by_rva = index_slots(&imports);
        Ok(
            Pe {
                path: path.to_owned(),
                name: name.to_owned(),
                image_base: h.image_base,
                image,
                sections,
                timestamp: h.timestamp,
                checksum: h.checksum,
                entry: h.entry,
                size_of_image: h.size_of_image,
                exports,
                imports,
                runtime_functions,
                iat_by_rva,
            },
        )
    }

    pub fn u8(&self, rva: u32) -> (r: Option<u8>)
        ensures
            r == byte(self.image@, rva as int),
    {
        let i = rva as usize;
        if i < self.image.len() {
            Some(self.image[i])
        } else {
            None
        }
    }

    pub fn u32(&self, rva: u32) -> (r: Option<u32>)
        ensures
            r == self.deep_view().u32(rva as int),
    {
        read32(self.image.as_slice(), rva as u64)
    }

    pub fn i32(&self, rva: u32) -> (r: Option<i32>)
        ensures
            r == self.deep_view().i32(rva as int),
    {
        match self.u32(rva) {
            Some(v) => Some(v as i32),
            None => None,
        }
    }

    pub fn u64(&self, rva: u32) -> (r: Option<u64>)
        ensures
            r == self.deep_view().u64(rva as int),
    {
        read64(self.image.as_slice(), rva as u64)
    }

    pub fn bytes(&self, rva: u32, len: usize) -> (r: &[u8])
        ensures
            r@ == self.deep_view().bytes(rva, len as int),
    {
        let n = self.image.len();
        let s: usize = if (rva as usize) < n { rva as usize } else { n };
        let e: usize = if len < n - s { s + len } else { n };
        vstd::slice::slice_subrange(self.image.as_slice(), s, e)
    }

    pub fn cstr(&self, rva: u32) -> (r: Option<String>)
        ensures
            r.deep_view() == c_string(self.image@, rva as int),
    {
        read_cstr(self.image.as_slice(), rva as u64)
    }

    pub fn va_to_rva(&self, va: u64) -> (r: Option<u32>)
        ensures
            r == self.deep_view().va_to_rva(va),
    {
        if va >= self.image_base && va - self.image_base < self.size_of_image as u64 {
            Some((va - self.image_base) as u32)
        } else {
            None
        }
    }

    pub fn rva_to_va(&self, rva: u32) -> (r: u64)
        ensures
            r == self.deep_view().rva_to_va(rva),
    {
        self.image_base.wrapping_add(rva as u64)
    }

    pub fn section_of(&self, rva: u32) -> (r: Option<&Section>)
        ensures
            r.deep_view() == self.deep_view().section_of(rva),
    {
        let mut i: usize = 0;
        while i < self.sections.len()
            invariant
                i <= self.sections@.len(),
                self.deep_view().section_of(rva) == self.deep_view().section_from(rva, i as int),
            decreases self.sections@.len() - i,
        {
            if self.sections[i].contains(rva) {
                return Some(&self.sections[i]);
            }
            i += 1;
        }
        None
    }

    pub fn is_exec(&self, rva: u32) -> (r: bool)
        ensures
            r == self.deep_view().is_exec(rva),
    {
        match self.section_of(rva) {
            Some(s) => s.is_exec(),
            None => false,
        }
    }

    /// The executable sections, in file order.
    pub fn exec_sections(&self) -> (r: Vec<&Section>)
        ensures
            r.deep_view() == self.deep_view().exec_sections(),
    {
        let ghost all = self.sections.deep_view();
        let ghost test = |s: SectionV| s.is_exec();
        let mut out: Vec<&Section> = Vec::new();
        let mut i: usize = 0;
        proof {
            reveal(Seq::filter);
            assert(out.deep_view() =~= all.take(0).filter(test));
        }
        while i < self.sections.len()
            invariant
                all == self.sections.deep_view(),
                test == (|s: SectionV| s.is_exec()),
                i <= self.sections@.len(),
                out.deep_view() == all.take(i as int).filter(test),
            decreases self.sections@.len() - i,
        {
            let ghost pre = out.deep_view();
            if self.sections[i].is_exec() {
                out.push(&self.sections[i]);
                assert(out.deep_view() =~= pre.push(all[i as int]));
            }
            i += 1;
            proof {
                reveal(Seq::filter);
                assert(all.take(i as int).drop_last() =~= all.take(i - 1));
            }
        }
        assert(all.take(i as int) =~= all);
        out
    }

    /// Initialized, non-executable sections (.rdata, .data, ...).
    pub fn data_sections(&self) -> (r: Vec<&Section>)
        ensures
            r.deep_view() == self.deep_view().data_sections(),
    {
        let ghost all = self.sections.deep_view();
        let ghost test = |s: SectionV| s.is_data();
        let mut out: Vec<&Section> = Vec::new();
        let mut i: usize = 0;
        proof {
            reveal(Seq::filter);
            assert(out.deep_view() =~= all.take(0).filter(test));
        }
        while i < self.sections.len()
            invariant
                all == self.sections.deep_view(),
                test == (|s: SectionV| s.is_data()),
                i <= self.sections@.len(),
                out.deep_view() == all.take(i as int).filter(test),
            decreases self.sections@.len() - i,
        {
            let ghost pre = out.deep_view();
            if self.sections[i].is_data() {
                out.push(&self.sections[i]);
                assert(out.deep_view() =~= pre.push(all[i as int]));
            }
            i += 1;
            proof {
                reveal(Seq::filter);
                assert(all.take(i as int).drop_last() =~= all.take(i - 1));
            }
        }
        assert(all.take(i as int) =~= all);
        out
    }

    /// The exports of the directory at `rva` of an image.
    pub fn parse_exports(image: &Vec<u8>, rva: u32, size: u32) -> (r: Result<Vec<Export>, PeError>)
        ensures
            match r {
                Ok(v) => exports_at(image@, rva, size) == Ok::<Seq<ExportV>, PeError>(v.deep_view()),
                Err(e) => exports_at(image@, rva, size) == Err::<Seq<ExportV>, PeError>(e),
            },
    {
        let d = image.as_slice();
        let at = rva as u64;
        let base = match read32(d, at + 16) {
            Some(v) => v,
            None => return Err(PeError::Exports(ExportPart::Base)),
        };
        let nfuncs = match read32(d, at + 20) {
            Some(v) => v,
            None => return Err(PeError::Exports(ExportPart::Count)),
        };
        let nnames = match read32(d, at + 24) {
            Some(v) => v,
            None => return Err(PeError::Exports(ExportPart::Names)),
        };
        let funcs = match read32(d, at + 28) {
            Some(v) => v,
            None => return Err(PeError::Exports(ExportPart::Funcs)),
        };
        let names = match read32(d, at + 32) {
            Some(v) => v,
            None => return Err(PeError::Exports(ExportPart::NameTable)),
        };
        let ords = match read32(d, at + 36) {
            Some(v) => v,
            None => return Err(PeError::Exports(ExportPart::Ordinals)),
        };
        let by_index = read_export_names(d, names, ords, nnames)?;
        let dir = ExportDir { rva, size, base, nfuncs, funcs };
        read_export_list(d, &dir, &by_index)
    }

    /// The imports of the directory at `rva` of an image.
    pub fn parse_imports(image: &Vec<u8>, rva: u32) -> (r: Result<Vec<Import>, PeError>)
        ensures
            match r {
                Ok(v) => imports_from(image@, rva as int) == Ok::<Seq<ImportV>, PeError>(v.deep_view()),
                Err(e) => imports_from(image@, rva as int) == Err::<Seq<ImportV>, PeError>(e),
            },
    {
        read_imports(image.as_slice(), rva)
    }

    /// The function table at `rva` of an image, ordered by first address.
    pub fn parse_pdata(image: &Vec<u8>, rva: u32, size: u32) -> (r: Vec<RuntimeFunction>)
        ensures
            r.deep_view() == pdata_at(image@, rva, size),
    {
        read_pdata(image.as_slice(), rva, size)
    }

    pub fn import_at_iat(&self, iat_rva: u32) -> (r: Option<&Import>)
        ensures
            r.deep_view() == self.deep_view().import_at_iat(iat_rva),
    {
        match self.iat_by_rva.get(&iat_rva) {
            Some(i) => if *i < self.imports.len() {
                Some(&self.imports[*i])
            } else {
                None
            },
            None => None,
        }
    }
}

/// Addresses inside the image are converted back and forth without loss, where
/// the image does not run past the end of the address space.
pub proof fn addresses_convert(pe: PeV, rva: u32, va: u64)
    requires
        pe.image_base + pe.size_of_image <= u64::MAX,
    ensures
        rva < pe.size_of_image ==> pe.va_to_rva(pe.rva_to_va(rva)) == Some(rva),
        pe.va_to_rva(va) matches Some(r) ==> r < pe.size_of_image && pe.rva_to_va(r) == va,
{
}

proof fn pdata_count(image: Seq<u8>, rva: u32, n: int, i: int)
    requires
        0 <= i <= n,
    ensures
        pdata_from(image, rva, n, i).len() <= n - i,
    decreases n - i,
{
    if i < n {
        pdata_count(image, rva, n, i + 1);
    }
}

/// The function table comes out in the order of first addresses.
pub proof fn functions_are_sorted(image: Seq<u8>, rva: u32, size: u32, a: int, b: int)
    requires
        0 <= a < b < pdata_at(image, rva, size).len(),
    ensures
        pdata_at(image, rva, size)[a].begin <= pdata_at(image, rva, size)[b].begin,
{
    let n = size as int / 12;
    let list = pdata_from(image, rva, n, 0);
    pdata_count(image, rva, n, 0);
    table::queued_rows(begins(list), list, 0);
    table::sorting_is_stable(begins(list), list, a, b);
}

proof fn slots_hold(imports: Seq<ImportV>, n: int, slot: u32)
    requires
        0 <= n <= imports.len(),
        imports.len() <= usize::MAX,
    ensures
        table::ordered(slots_of(imports, n)),
        table::get(slots_of(imports, n), slot) matches Some(i) ==> i < n && imports[i as int].iat_rva == slot,
        table::get(slots_of(imports, n), slot) is None ==> forall|k: int| 0 <= k < n ==> imports[k].iat_rva != slot,
    decreases n,
{
    if n > 0 {
        slots_hold(imports, n - 1, slot);
        table::get_after_put(slots_of(imports, n - 1), imports[n - 1].iat_rva, (n - 1) as usize, slot);
    }
}

/// A slot of the IAT has an import exactly where some import has that slot,
/// and the import found is one of those.
pub proof fn imports_are_found(pe: PeV, slot: u32)
    requires
        pe.imports.len() <= usize::MAX,
        pe.iat_by_rva == slots_of(pe.imports, pe.imports.len() as int),
    ensures
        match pe.import_at_iat(slot) {
            Some(imp) => imp.iat_rva == slot && pe.imports.contains(imp),
            None => forall|k: int| 0 <= k < pe.imports.len() ==> (#[trigger] pe.imports[k]).iat_rva != slot,
        },
{
    slots_hold(pe.imports, pe.imports.len() as int, slot);
}

proof fn sections_keep_size(file: Seq<u8>, tab: int, image: Seq<u8>, n: int)
    ensures
        mapped_sections(file, tab, image, n) matches Ok(r) ==> r.0.len() == image.len(),
    decreases n,
{
    if n > 0 {
        sections_keep_size(file, tab, image, n - 1);
    }
}

/// A loaded image is as large as its header says, so that every address in it
/// is a 32-bit number.
pub proof fn image_has_its_size(file: Seq<u8>, path: Seq<char>, name: Seq<char>)
    ensures
        loaded(file, path, name) matches Ok(pe) ==> pe.image.len() == pe.size_of_image && pe.image.len() <= u32::MAX
            && pe.iat_by_rva == slots_of(pe.imports, pe.imports.len() as int),
{
    if let Ok(h) = header(file) {
        sections_keep_size(file, h.opt + h.opt_size, mapped_headers(file, h), h.nsections as int);
    }
}

} // verus!
