//! What holds of an image that is mapped from a file: its headers, its
//! sections and its directories are what the bytes of the file say.

use vstd::prelude::*;

use crate::pe;
use crate::pe::{ExportDir, ExportV, Header, ImportV, PeError, PeV, RuntimeFunction, SectionV};
use crate::table;
use crate::text;

verus! {

/// Two bytes, the least first.
pub open spec fn two(s: Seq<u8>, at: int) -> int {
    s[at] + 0x100 * s[at + 1]
}

/// Four bytes, the least first.
pub open spec fn four(s: Seq<u8>, at: int) -> int {
    s[at] + 0x100 * s[at + 1] + 0x1_0000 * s[at + 2] + 0x100_0000 * s[at + 3]
}

/// Eight bytes, the least first.
pub open spec fn eight(s: Seq<u8>, at: int) -> int {
    four(s, at) + 0x1_0000_0000 * four(s, at + 4)
}

// ---------------------------------------------------------------------------
// Headers.

/// Where the optional header of a file starts: behind the signature that the
/// word at 0x3c leads to and the twenty bytes of the COFF header.
pub open spec fn optional_at(file: Seq<u8>) -> int {
    four(file, 0x3c) + 24
}

/// Where the section table starts.
pub open spec fn sections_at(file: Seq<u8>) -> int {
    optional_at(file) + two(file, optional_at(file) - 4)
}

/// How many sections there are.
pub open spec fn section_count(file: Seq<u8>) -> int {
    two(file, optional_at(file) - 18)
}

/// A file that loads is a 64-bit PE file for x64, and its image has the base,
/// the size, the entry and the stamps that its headers give.
pub proof fn headers_are_read(file: Seq<u8>, path: Seq<char>, name: Seq<char>)
    requires
        file.len() <= u64::MAX,
    ensures
        pe::loaded(file, path, name) matches Ok(p) ==> {
            let o = optional_at(file);
            &&& o + 112 <= file.len()
            &&& file[0] == 0x4d && file[1] == 0x5a
            &&& file[o - 24] == 0x50 && file[o - 23] == 0x45 && file[o - 22] == 0 && file[o - 21] == 0
            &&& two(file, o - 20) == 0x8664
            &&& two(file, o) == 0x20b
            &&& p.timestamp == four(file, o - 16)
            &&& p.entry == four(file, o + 16)
            &&& p.image_base == eight(file, o + 24)
            &&& p.size_of_image == four(file, o + 56)
            &&& p.checksum == four(file, o + 64)
            &&& p.image.len() == p.size_of_image
            &&& p.path == path && p.name == name
        },
{
    pe::image_has_its_size(file, path, name);
    header_is(file);
}

proof fn signature_is(file: Seq<u8>)
    ensures
        pe::coff_of(file) matches Ok(c) ==> {
            let o = optional_at(file);
            &&& c == o - 20
            &&& 0x40 <= file.len() && o - 20 <= file.len()
            &&& file[0] == 0x4d && file[1] == 0x5a
            &&& file[o - 24] == 0x50 && file[o - 23] == 0x45 && file[o - 22] == 0 && file[o - 21] == 0
        },
{
    if let Ok(c) = pe::coff_of(file) {
        let at = pe::word32(file, 0x3c).unwrap();
        assert(at == four(file, 0x3c));
        let b0 = file[at as int];
        let b1 = file[at + 1];
        let b2 = file[at + 2];
        let b3 = file[at + 3];
        assert(b0 + 0x100 * b1 + 0x1_0000 * (b2 + 0x100 * b3) == 0x4550);
        assert(b0 == 0x50 && b1 == 0x45 && b2 == 0 && b3 == 0);
    }
}

proof fn header_is(file: Seq<u8>)
    requires
        file.len() <= u64::MAX,
    ensures
        pe::header(file) matches Ok(h) ==> {
            let o = optional_at(file);
            &&& o + 112 <= file.len()
            &&& file[0] == 0x4d && file[1] == 0x5a
            &&& file[o - 24] == 0x50 && file[o - 23] == 0x45 && file[o - 22] == 0 && file[o - 21] == 0
            &&& two(file, o - 20) == 0x8664
            &&& two(file, o) == 0x20b
            &&& h.opt == o
            &&& h.nsections == section_count(file)
            &&& h.opt_size == two(file, o - 4)
            &&& h.timestamp == four(file, o - 16)
            &&& h.entry == four(file, o + 16)
            &&& h.image_base == eight(file, o + 24)
            &&& h.size_of_image == four(file, o + 56)
            &&& h.size_of_headers == four(file, o + 60)
            &&& h.checksum == four(file, o + 64)
            &&& h.ndirs == four(file, o + 108)
        },
{
    signature_is(file);
    if let Ok(h) = pe::header(file) {
        let o = optional_at(file);
        let c = pe::coff_of(file)->Ok_0;
        let n = pe::word16(file, c + 2).unwrap();
        let t = pe::word32(file, c + 4).unwrap();
        let z = pe::word16(file, c + 16).unwrap();
        assert(n == section_count(file) && t == four(file, o - 16) && z == two(file, o - 4));
        assert(pe::word16(file, c) == Some(0x8664u16));
        assert(h == pe::optional_header(file, n, t, z, o)->Ok_0);
        optional_is(file, n, t, z, o);
    }
}

proof fn optional_is(file: Seq<u8>, n: u16, t: u32, z: u16, o: int)
    requires
        0 <= o <= file.len() + 20,
        file.len() <= u64::MAX,
    ensures
        pe::optional_header(file, n, t, z, o) matches Ok(h) ==> {
            &&& o + 112 <= file.len()
            &&& two(file, o) == 0x20b
            &&& h.opt == o && h.nsections == n && h.timestamp == t && h.opt_size == z
            &&& h.entry == four(file, o + 16)
            &&& h.image_base == eight(file, o + 24)
            &&& h.size_of_image == four(file, o + 56)
            &&& h.size_of_headers == four(file, o + 60)
            &&& h.checksum == four(file, o + 64)
            &&& h.ndirs == four(file, o + 108)
        },
{
}

/// The refusals of a file: no DOS signature, no PE signature, another machine
/// or another kind of image.
pub proof fn foreign_files_are_refused(file: Seq<u8>, path: Seq<char>, name: Seq<char>)
    ensures
        file.len() < 2 || file[0] != 0x4d || file[1] != 0x5a ==> pe::loaded(file, path, name) == Err::<PeV, PeError>(
            PeError::NotPe,
        ),
        file.len() >= optional_at(file) + 112 && optional_at(file) >= 24 && file.len() >= 0x40 && file[0] == 0x4d && file[1] == 0x5a
            ==> {
            &&& four(file, optional_at(file) - 24) != 0x4550 ==> pe::loaded(file, path, name) == Err::<PeV, PeError>(
                PeError::BadSignature,
            )
            &&& four(file, optional_at(file) - 24) == 0x4550 && two(file, optional_at(file) - 20) != 0x8664 ==> pe::loaded(
                file,
                path,
                name,
            ) == Err::<PeV, PeError>(PeError::Machine(two(file, optional_at(file) - 20) as u16))
            &&& four(file, optional_at(file) - 24) == 0x4550 && two(file, optional_at(file) - 20) == 0x8664 && two(
                file,
                optional_at(file),
            ) != 0x20b ==> pe::loaded(file, path, name) == Err::<PeV, PeError>(PeError::NotPe32Plus)
        },
{
}

// ---------------------------------------------------------------------------
// Sections.

/// A section is what its header at `s` says: as large as it is in memory or in
/// the file, whichever is more.
pub open spec fn section_is_read(file: Seq<u8>, s: int, sec: SectionV) -> bool {
    &&& sec.rva == four(file, s + 12)
    &&& sec.vsize == if four(file, s + 8) >= four(file, s + 16) {
        four(file, s + 8)
    } else {
        four(file, s + 16)
    }
    &&& sec.characteristics == four(file, s + 36)
}

/// Offset `x` of the image lies in what the section with header `s` has in the
/// file.
pub open spec fn is_filled(file: Seq<u8>, s: int, x: int) -> bool {
    four(file, s + 12) <= x < four(file, s + 12) + four(file, s + 16) && four(file, s + 20) + (x - four(file, s + 12)) < file.len()
}

/// Of `n` sections, number `i` is the last that fills offset `x`.
pub open spec fn fills_last(file: Seq<u8>, tab: int, n: int, i: int, x: int) -> bool {
    0 <= i < n && is_filled(file, tab + 40 * i, x) && forall|j: int| i < j < n ==> !#[trigger] is_filled(file, tab + 40 * j, x)
}

/// None of `n` sections fills offset `x`.
pub open spec fn is_bare(file: Seq<u8>, tab: int, n: int, x: int) -> bool {
    forall|j: int| 0 <= j < n ==> !#[trigger] is_filled(file, tab + 40 * j, x)
}

proof fn sections_are(file: Seq<u8>, tab: int, image: Seq<u8>, n: int, i: int, x: int)
    requires
        0 <= tab,
        0 <= x < image.len(),
    ensures
        pe::mapped_sections(file, tab, image, n) matches Ok((img, secs)) ==> {
            &&& img.len() == image.len()
            &&& secs.len() == if n > 0 {
                n
            } else {
                0
            }
            &&& 0 <= i < n ==> tab + 40 * i + 40 <= file.len() && section_is_read(file, tab + 40 * i, secs[i])
            &&& fills_last(file, tab, n, i, x) ==> img[x] == file[four(file, tab + 40 * i + 20) + (x - four(
                file,
                tab + 40 * i + 12,
            ))]
            &&& is_bare(file, tab, n, x) ==> img[x] == image[x]
        },
    decreases n,
{
    if n > 0 {
        sections_are(file, tab, image, n - 1, i, x);
        if let Ok((img, secs)) = pe::mapped_sections(file, tab, image, n) {
            let s = tab + 40 * (n - 1);
            assert(tab + (n - 1) * 40 == s);
            let (b, before) = pe::mapped_sections(file, tab, image, n - 1)->Ok_0;
            let (sec, raw_size, raw_off) = pe::section_header(file, s)->Ok_0;
            assert(section_is_read(file, s, sec));
            assert(raw_size == four(file, s + 16) && raw_off == four(file, s + 20));
            assert(img == pe::mapped_section(b, file, sec.rva, raw_size, raw_off));
            if !is_filled(file, s, x) {
                assert(img[x] == b[x]);
            } else {
                assert(img[x] == file[raw_off + (x - sec.rva)]);
            }
        }
    }
}

/// The sections are those of the section table, in order.
pub proof fn sections_are_read(file: Seq<u8>, path: Seq<char>, name: Seq<char>, i: int)
    requires
        file.len() <= u64::MAX,
    ensures
        pe::loaded(file, path, name) matches Ok(p) ==> {
            &&& p.sections.len() == section_count(file)
            &&& 0 <= i < p.sections.len() && p.image.len() > 0 ==> section_is_read(file, sections_at(file) + 40 * i, p.sections[i])
        },
{
    header_is(file);
    if let Ok(p) = pe::loaded(file, path, name) {
        let h = pe::header(file)->Ok_0;
        let image = pe::mapped_headers(file, h);
        assert(h.opt + h.opt_size == sections_at(file));
        counted(file, h.opt + h.opt_size, image, h.nsections as int);
        if image.len() > 0 {
            sections_are(file, h.opt + h.opt_size, image, h.nsections as int, i, 0);
        }
    }
}

proof fn counted(file: Seq<u8>, tab: int, image: Seq<u8>, n: int)
    ensures
        pe::mapped_sections(file, tab, image, n) matches Ok((img, secs)) ==> img.len() == image.len() && (n >= 0 ==> secs.len()
            == n),
    decreases n,
{
    if n > 0 {
        counted(file, tab, image, n - 1);
    }
}

/// The image is laid out as the loader does it: a byte of a section is the byte
/// of the file that its header leads to, where no later section covers it; a
/// byte that no section fills is that of the headers, or zero.
pub proof fn sections_are_mapped(file: Seq<u8>, path: Seq<char>, name: Seq<char>, i: int, x: int)
    requires
        file.len() <= u64::MAX,
    ensures
        pe::loaded(file, path, name) matches Ok(p) ==> 0 <= x < p.image.len() ==> {
            let tab = sections_at(file);
            &&& fills_last(file, tab, section_count(file), i, x) ==> p.image[x] == file[four(file, tab + 40 * i + 20) + (x
                - four(file, tab + 40 * i + 12))]
            &&& is_bare(file, tab, section_count(file), x) ==> p.image[x] == if x < four(file, optional_at(file) + 60) && x < file.len() {
                file[x]
            } else {
                0u8
            }
        },
{
    header_is(file);
    if let Ok(p) = pe::loaded(file, path, name) {
        let h = pe::header(file)->Ok_0;
        let image = pe::mapped_headers(file, h);
        let tab = sections_at(file);
        let n = section_count(file);
        loaded_parts(file, path, name);
        if 0 <= x < p.image.len() {
            sections_are(file, tab, image, n, i, x);
            headers_are_mapped(file, h, x);
        }
    }
}

proof fn loaded_parts(file: Seq<u8>, path: Seq<char>, name: Seq<char>)
    requires
        file.len() <= u64::MAX,
    ensures
        pe::loaded(file, path, name) matches Ok(p) ==> pe::header(file) is Ok && pe::mapped_sections(
            file,
            sections_at(file),
            pe::mapped_headers(file, pe::header(file)->Ok_0),
            section_count(file),
        ) == Ok::<(Seq<u8>, Seq<SectionV>), PeError>((p.image, p.sections)) && p.image.len() == pe::mapped_headers(
            file,
            pe::header(file)->Ok_0,
        ).len(),
{
    header_is(file);
    if let Ok(p) = pe::loaded(file, path, name) {
        let h = pe::header(file)->Ok_0;
        counted(file, h.opt + h.opt_size, pe::mapped_headers(file, h), h.nsections as int);
    }
}

proof fn headers_are_mapped(file: Seq<u8>, h: Header, x: int)
    requires
        0 <= x < pe::mapped_headers(file, h).len(),
    ensures
        pe::mapped_headers(file, h)[x] == if x < h.size_of_headers && x < file.len() {
            file[x]
        } else {
            0u8
        },
{
}

/// A section holds an address from its start on, as far as it is large; the
/// first such section decides whether the address is code.
pub proof fn sections_hold_addresses(p: PeV, rva: u32, i: int)
    requires
        0 <= i < p.sections.len(),
        forall|k: int| 0 <= k < p.sections.len() ==> (#[trigger] p.sections[k]).rva + p.sections[k].vsize <= u32::MAX,
        p.sections[i].rva <= rva < p.sections[i].rva + p.sections[i].vsize,
        forall|k: int| 0 <= k < i ==> !((#[trigger] p.sections[k]).rva <= rva < p.sections[k].rva + p.sections[k].vsize),
    ensures
        p.section_of(rva) == Some(p.sections[i]),
        p.is_exec(rva) == (p.sections[i].characteristics & 0x2000_0000 != 0),
{
    first_section(p, rva, 0, i);
}

proof fn first_section(p: PeV, rva: u32, from: int, i: int)
    requires
        0 <= from <= i < p.sections.len(),
        p.sections[i].contains(rva),
        forall|k: int| from <= k < i ==> !(#[trigger] p.sections[k]).contains(rva),
    ensures
        p.section_from(rva, from) == Some(p.sections[i]),
    decreases i - from,
{
    if from < i {
        first_section(p, rva, from + 1, i);
    }
}

/// The sections that are searched for code are those marked executable, and
/// those searched for data the others, but for relocations, unwind tables and
/// resources.
pub proof fn sections_are_code_or_data(p: PeV, s: SectionV)
    ensures
        p.exec_sections().contains(s) <==> p.sections.contains(s) && s.characteristics & 0x2000_0000 != 0,
        p.data_sections().contains(s) <==> p.sections.contains(s) && s.characteristics & 0x2000_0000 == 0 && s.name != ".reloc"@
            && s.name != ".pdata"@ && s.name != ".rsrc"@,
{
    filtered(p.sections, |s: SectionV| s.is_exec(), s);
    filtered(p.sections, |s: SectionV| s.is_data(), s);
}

proof fn filtered<A>(s: Seq<A>, test: spec_fn(A) -> bool, x: A)
    ensures
        s.filter(test).contains(x) <==> s.contains(x) && test(x),
    decreases s.len(),
{
    reveal(Seq::filter);
    if s.len() > 0 {
        filtered(s.drop_last(), test, x);
        let f = s.drop_last().filter(test);
        let last = s.last();
        assert(s =~= s.drop_last().push(last));
        pushed(s.drop_last(), last, x);
        pushed(f, last, x);
    }
}

proof fn pushed<A>(s: Seq<A>, x: A, b: A)
    ensures
        s.push(x).contains(b) <==> s.contains(b) || x == b,
{
    if s.contains(b) {
        let k = choose|k: int| 0 <= k < s.len() && s[k] == b;
        assert(s.push(x)[k] == b);
    }
    if x == b {
        assert(s.push(x)[s.len() as int] == b);
    }
    if s.push(x).contains(b) {
        let k = choose|k: int| 0 <= k < s.push(x).len() && s.push(x)[k] == b;
        if k < s.len() {
            assert(s[k] == b);
        }
    }
}

// ---------------------------------------------------------------------------
// The function table.

/// Entry `i` of the function table at `rva`: three words, of which the first
/// two are where the function starts and ends.
pub open spec fn entry_is(image: Seq<u8>, rva: int, i: int, f: RuntimeFunction) -> bool {
    rva + 12 * i + 12 <= image.len() && f.begin == four(image, rva + 12 * i) && f.end == four(image, rva + 12 * i + 4) && f.begin
        != 0
}

/// Entry `i` of the function table is in use: it does not start at zero.
pub open spec fn is_used(image: Seq<u8>, rva: int, i: int) -> bool {
    four(image, rva + 12 * i) != 0
}

/// A function is one of the entries from `lo` to `hi`.
pub open spec fn is_among(image: Seq<u8>, rva: int, lo: int, hi: int, f: RuntimeFunction) -> bool {
    exists|j: int| lo <= j < hi && #[trigger] entry_is(image, rva, j, f)
}

/// An entry is one of the functions of a list.
pub open spec fn is_listed(image: Seq<u8>, rva: int, j: int, s: Seq<RuntimeFunction>) -> bool {
    exists|k: int| 0 <= k < s.len() && entry_is(image, rva, j, #[trigger] s[k])
}

proof fn pdata_is_read(image: Seq<u8>, rva: u32, n: int, i: int)
    requires
        0 <= i,
    ensures
        ({
            let s = pe::pdata_from(image, rva, n, i);
            &&& s.len() <= n - i || s.len() == 0
            &&& forall|k: int| 0 <= k < s.len() ==> is_among(image, rva as int, i, n, #[trigger] s[k])
            &&& rva + 12 * n <= image.len() ==> forall|j: int|
                i <= j < n && #[trigger] is_used(image, rva as int, j) ==> is_listed(image, rva as int, j, s)
        }),
    decreases n - i,
{
    if i < n {
        pdata_is_read(image, rva, n, i + 1);
        let r = rva as int;
        let s = pe::pdata_from(image, rva, n, i);
        let t = pe::pdata_from(image, rva, n, i + 1);
        let e = rva + i * 12;
        assert(e == rva + 12 * i);
        if pe::word32(image, e) is Some && pe::word32(image, e + 4) is Some && pe::word32(image, e + 8) is Some {
            let begin = pe::word32(image, e).unwrap();
            assert(begin == four(image, r + 12 * i));
            let skip: int = if begin == 0 {
                0
            } else {
                1
            };
            if begin != 0 {
                assert(entry_is(image, r, i, s[0]));
            }
            assert forall|k: int| 0 <= k < s.len() implies is_among(image, r, i, n, #[trigger] s[k]) by {
                if k >= skip {
                    assert(s[k] == t[k - skip]);
                    assert(is_among(image, r, i + 1, n, t[k - skip]));
                    let j = choose|j: int| i + 1 <= j < n && #[trigger] entry_is(image, r, j, t[k - skip]);
                    assert(entry_is(image, r, j, s[k]));
                }
            }
            if rva + 12 * n <= image.len() {
                assert forall|j: int| i <= j < n && #[trigger] is_used(image, r, j) implies is_listed(image, r, j, s) by {
                    if j > i {
                        assert(is_listed(image, r, j, t));
                        let k = choose|k: int| 0 <= k < t.len() && entry_is(image, r, j, #[trigger] t[k]);
                        assert(s[k + skip] == t[k]);
                    } else {
                        assert(begin != 0);
                    }
                }
            }
        } else {
            assert(s.len() == 0);
            assert(e + 12 > image.len());
            assert(rva + 12 * n > image.len());
        }
    }
}

/// The functions of the function table are its entries that are in use, each
/// with the start and the end that its words give, and all of them.
pub proof fn functions_are_read(image: Seq<u8>, rva: u32, size: u32, f: RuntimeFunction, i: int)
    requires
        image.len() <= u32::MAX,
    ensures
        pe::pdata_at(image, rva, size).contains(f) ==> is_among(image, rva as int, 0, size as int / 12, f),
        0 <= i < size as int / 12 && rva + size <= image.len() && is_used(image, rva as int, i) ==> is_listed(
            image,
            rva as int,
            i,
            pe::pdata_at(image, rva, size),
        ),
{
    let n = size as int / 12;
    let r = rva as int;
    let list = pe::pdata_from(image, rva, n, 0);
    pdata_is_read(image, rva, n, 0);
    let by = pe::begins(list);
    let same = |x: RuntimeFunction| x;
    let all = pe::pdata_at(image, rva, size);
    table::sorting_keeps_values(by, list, same);
    assert(list.map_values(same) =~= list);
    assert(all.map_values(same) =~= all);
    list.to_multiset_ensures();
    all.to_multiset_ensures();
    if all.contains(f) {
        assert(all.to_multiset().count(f) > 0);
        assert(list.contains(f));
        let k = choose|k: int| 0 <= k < list.len() && list[k] == f;
        assert(is_among(image, r, 0, n, list[k]));
    }
    if 0 <= i < n && rva + size <= image.len() && is_used(image, r, i) {
        assert(is_listed(image, r, i, list));
        let k = choose|k: int| 0 <= k < list.len() && entry_is(image, r, i, #[trigger] list[k]);
        let g = list[k];
        assert(list.contains(g));
        assert(list.to_multiset().count(g) > 0);
        assert(all.contains(g));
        let q = choose|q: int| 0 <= q < all.len() && all[q] == g;
        assert(entry_is(image, r, i, all[q]));
    }
}

// ---------------------------------------------------------------------------
// Exports and imports.

proof fn names_are(image: Seq<u8>, names: u32, ords: u32, n: int, i: int)
    requires
        0 <= i < n,
    ensures
        pe::export_names(image, names, ords, n) matches Ok(t) ==> {
            &&& table::ordered(t)
            &&& names + 4 * i + 4 <= image.len() && ords + 2 * i + 2 <= image.len()
            &&& (forall|j: int| i < j < n ==> #[trigger] two(image, ords + 2 * j) != two(image, ords + 2 * i)) ==> table::get(
                t,
                two(image, ords + 2 * i) as u32,
            ) == Some(pe::c_string_or_empty(image, four(image, names + 4 * i)))
        },
    decreases n,
{
    if let Ok(t) = pe::export_names(image, names, ords, n) {
        let s = pe::export_names(image, names, ords, n - 1)->Ok_0;
        if i < n - 1 {
            names_are(image, names, ords, n - 1, i);
        } else {
            names_ordered(image, names, ords, n - 1);
        }
        let name_rva = pe::word32(image, names + (n - 1) * 4).unwrap();
        let idx = pe::word16(image, ords + (n - 1) * 2).unwrap();
        assert(names + (n - 1) * 4 == names + 4 * (n - 1) && ords + (n - 1) * 2 == ords + 2 * (n - 1));
        let text = pe::c_string_or_empty(image, name_rva as int);
        table::put_ordered(s, idx as u32, text);
        table::get_after_put(s, idx as u32, text, two(image, ords + 2 * i) as u32);
        assert(idx == two(image, ords + 2 * (n - 1)));
        if i < n - 1 && forall|j: int| i < j < n ==> #[trigger] two(image, ords + 2 * j) != two(image, ords + 2 * i) {
            assert(two(image, ords + 2 * (n - 1)) != two(image, ords + 2 * i));
        }
    }
}

proof fn names_ordered(image: Seq<u8>, names: u32, ords: u32, n: int)
    ensures
        pe::export_names(image, names, ords, n) matches Ok(t) ==> table::ordered(t),
    decreases n,
{
    if n > 0 {
        names_ordered(image, names, ords, n - 1);
        if let Ok(s) = pe::export_names(image, names, ords, n - 1) {
            if let (Some(a), Some(i)) = (pe::word32(image, names + (n - 1) * 4), pe::word16(image, ords + (n - 1) * 2)) {
                table::put_ordered(s, i as u32, pe::c_string_or_empty(image, a as int));
            }
        }
    } else {
        assert(pe::export_names(image, names, ords, n)->Ok_0 =~= Seq::empty());
    }
}

proof fn exports_are(image: Seq<u8>, d: ExportDir, names: Seq<(u32, Seq<char>)>, n: int, i: int)
    requires
        0 <= i < n <= u32::MAX,
    ensures
        pe::export_list(image, d, names, n) matches Ok(out) ==> d.funcs + 4 * i + 4 <= image.len() && (four(image, d.funcs + 4 * i)
            != 0 ==> exists|k: int|
            0 <= k < out.len() && (#[trigger] out[k]).rva == four(image, d.funcs + 4 * i) && out[k].ordinal == d.base.wrapping_add(
                i as u32,
            ) && out[k].name == table::get(names, i as u32) && (out[k].forwarder is Some <==> d.rva <= out[k].rva < d.rva
                + d.size)),
    decreases n,
{
    if let Ok(out) = pe::export_list(image, d, names, n) {
        let s = pe::export_list(image, d, names, n - 1)->Ok_0;
        assert(d.funcs + (n - 1) * 4 == d.funcs + 4 * (n - 1));
        if i < n - 1 {
            exports_are(image, d, names, n - 1, i);
            if four(image, d.funcs + 4 * i) != 0 {
                let k = choose|k: int|
                    0 <= k < s.len() && (#[trigger] s[k]).rva == four(image, d.funcs + 4 * i) && s[k].ordinal
                        == d.base.wrapping_add(i as u32) && s[k].name == table::get(names, i as u32) && (s[k].forwarder is Some
                        <==> d.rva <= s[k].rva < d.rva + d.size);
                assert(out[k] == s[k]);
            }
        } else {
            let f = pe::word32(image, d.funcs + (n - 1) * 4).unwrap();
            if f != 0 {
                assert(out[s.len() as int].rva == f);
            }
        }
    }
}

/// Every function of the export directory is exported under its ordinal and at
/// its address, with the name that the name table gives its index; one whose
/// address lies in the directory is forwarded.
pub proof fn exports_are_read(image: Seq<u8>, rva: u32, size: u32, i: int, k: int)
    requires
        rva + 40 <= image.len(),
        0 <= i < four(image, rva + 20),
    ensures
        pe::exports_at(image, rva, size) matches Ok(out) ==> {
            let base = four(image, rva + 16);
            let funcs = four(image, rva + 28);
            let names = four(image, rva + 32);
            let ords = four(image, rva + 36);
            let count = four(image, rva + 24);
            &&& four(image, funcs + 4 * i) != 0 ==> exists|q: int|
                0 <= q < out.len() && (#[trigger] out[q]).rva == four(image, funcs + 4 * i) && (base + i <= u32::MAX
                    ==> out[q].ordinal == base + i) && (out[q].forwarder is Some <==> rva <= out[q].rva < rva + size) && (0 <= k
                    < count && two(image, ords + 2 * k) == i && (forall|j: int|
                    k < j < count ==> #[trigger] two(image, ords + 2 * j) != i) ==> out[q].name == Some(
                    pe::c_string_or_empty(image, four(image, names + 4 * k)),
                ))
        },
{
    if let Ok(out) = pe::exports_at(image, rva, size) {
        let base = pe::word32(image, rva + 16).unwrap();
        let nfuncs = pe::word32(image, rva + 20).unwrap();
        let count = pe::word32(image, rva + 24).unwrap();
        let funcs = pe::word32(image, rva + 28).unwrap();
        let names = pe::word32(image, rva + 32).unwrap();
        let ords = pe::word32(image, rva + 36).unwrap();
        let t = pe::export_names(image, names, ords, count as int)->Ok_0;
        let d = ExportDir { rva, size, base, nfuncs, funcs };
        exports_are(image, d, t, nfuncs as int, i);
        if 0 <= k < count {
            names_are(image, names, ords, count as int, k);
        }
        if four(image, funcs + 4 * i) != 0 {
            let q = choose|q: int|
                0 <= q < out.len() && (#[trigger] out[q]).rva == four(image, d.funcs + 4 * i) && out[q].ordinal
                    == d.base.wrapping_add(i as u32) && out[q].name == table::get(t, i as u32) && (out[q].forwarder is Some
                    <==> d.rva <= out[q].rva < d.rva + d.size);
            assert(out[q].rva == four(image, funcs + 4 * i));
        }
    }
}

proof fn thunks_are(image: Seq<u8>, dll: Seq<char>, lookup: u32, iat: u32, i: int, k: int)
    requires
        0 <= i,
    ensures
        pe::thunks_from(image, dll, lookup, iat, i) matches Some(list) ==> {
            &&& lookup + 8 * (i + list.len()) + 8 <= image.len() && eight(image, lookup + 8 * (i + list.len())) == 0
            &&& 0 <= k < list.len() ==> {
                let e = eight(image, lookup + 8 * (i + k));
                &&& lookup + 8 * (i + k) + 8 <= image.len() && e != 0
                &&& list[k] == pe::import_of(image, dll, e as u64, iat.wrapping_add(((i + k) as u32).wrapping_mul(8)))
            }
        },
    decreases image.len() - lookup - i * 8,
{
    assert(lookup + i * 8 == lookup + 8 * i);
    if let Some(entry) = pe::word64(image, lookup + i * 8) {
        assert(entry == eight(image, lookup + 8 * i));
        if entry != 0 {
            thunks_are(image, dll, lookup, iat, i + 1, k - 1);
            if let Some(rest) = pe::thunks_from(image, dll, lookup, iat, i + 1) {
                let list = pe::thunks_from(image, dll, lookup, iat, i).unwrap();
                if 0 < k < list.len() {
                    assert(list[k] == rest[k - 1]);
                    assert(i + 1 + (k - 1) == i + k);
                }
                assert(list.len() == rest.len() + 1);
            }
        }
    }
}

/// The imports of a library are its thunks up to the first that is zero: by
/// ordinal where the top bit is set, else by the name two bytes behind the
/// address; each has the slot of the import table with the same number.
pub proof fn imports_are_read(image: Seq<u8>, dll: Seq<char>, lookup: u32, iat: u32, k: int)
    ensures
        pe::thunks_from(image, dll, lookup, iat, 0) matches Some(list) ==> {
            &&& eight(image, lookup + 8 * list.len()) == 0
            &&& 0 <= k < list.len() && iat + 8 * k <= u32::MAX ==> {
                let e = eight(image, lookup + 8 * k);
                &&& e != 0 && list[k].dll == dll && list[k].iat_rva == iat + 8 * k
                &&& e >= 0x8000_0000_0000_0000 ==> list[k].name is None && list[k].ordinal == Some((e % 0x1_0000) as u16)
                &&& e < 0x8000_0000_0000_0000 ==> list[k].ordinal is None && list[k].name == pe::c_string(
                    image,
                    e % 0x1_0000_0000 + 2,
                )
            }
        },
{
    thunks_are(image, dll, lookup, iat, 0, k);
    if let Some(list) = pe::thunks_from(image, dll, lookup, iat, 0) {
        if 0 <= k < list.len() && iat + 8 * k <= u32::MAX {
            assert(0 + k == k);
            let e = eight(image, lookup + 8 * k) as u64;
            assert(e & 0x8000_0000_0000_0000u64 != 0 <==> e >= 0x8000_0000_0000_0000u64) by (bit_vector);
            assert((e as u16) as u64 == e % 0x1_0000u64) by (bit_vector);
            assert((e as u32) as u64 == e % 0x1_0000_0000u64) by (bit_vector);
            assert((k as u32).wrapping_mul(8) == 8 * k);
        }
    }
}

/// A string ends before its first zero byte.
pub proof fn strings_end_at_zero(s: Seq<u8>, at: int, n: int)
    requires
        0 <= at <= n < s.len(),
        s[n] == 0,
        forall|k: int| at <= k < n ==> #[trigger] s[k] != 0,
    ensures
        pe::c_string(s, at) == Some(text::decoded(s.subrange(at, n))),
    decreases n - at,
{
    nul_is(s, at, n);
}

proof fn nul_is(s: Seq<u8>, at: int, n: int)
    requires
        0 <= at <= n < s.len(),
        s[n] == 0,
        forall|k: int| at <= k < n ==> #[trigger] s[k] != 0,
    ensures
        pe::nul_from(s, at) == Some(n),
    decreases n - at,
{
    if at < n {
        nul_is(s, at + 1, n);
    }
}

/// The directories of an image are where the headers say: the exports in the
/// first, the imports in the second and the function table in the fourth; one
/// at address zero is not there.
pub proof fn directories_are_read(file: Seq<u8>, path: Seq<char>, name: Seq<char>)
    requires
        file.len() <= u64::MAX,
    ensures
        pe::loaded(file, path, name) matches Ok(p) ==> {
            let o = optional_at(file);
            let n = four(file, o + 108);
            &&& n > 0 && four(file, o + 112) != 0 ==> pe::exports_at(
                p.image,
                four(file, o + 112) as u32,
                four(file, o + 116) as u32,
            ) == Ok::<Seq<ExportV>, PeError>(p.exports)
            &&& n == 0 || four(file, o + 112) == 0 ==> p.exports.len() == 0
            &&& n > 1 && four(file, o + 120) != 0 ==> pe::imports_from(p.image, four(file, o + 120)) == Ok::<
                Seq<ImportV>,
                PeError,
            >(p.imports)
            &&& n <= 1 || four(file, o + 120) == 0 ==> p.imports.len() == 0
            &&& n > 3 && four(file, o + 136) != 0 ==> p.runtime_functions == pe::pdata_at(
                p.image,
                four(file, o + 136) as u32,
                four(file, o + 140) as u32,
            )
            &&& n <= 3 || four(file, o + 136) == 0 ==> p.runtime_functions.len() == 0
        },
{
    header_is(file);
    if let Ok(p) = pe::loaded(file, path, name) {
        let h = pe::header(file)->Ok_0;
        let o = optional_at(file);
        loaded_parts(file, path, name);
        directory_is(file, h, 0);
        directory_is(file, h, 1);
        directory_is(file, h, 3);
        assert(pe::directories(file, h, p.image) == Ok::<(Seq<ExportV>, Seq<ImportV>, Seq<RuntimeFunction>), PeError>(
            (p.exports, p.imports, p.runtime_functions),
        ));
    }
}

proof fn directory_is(file: Seq<u8>, h: Header, i: int)
    requires
        0 <= i,
    ensures
        i >= h.ndirs ==> pe::directory(file, h, i) == Ok::<(u32, u32), PeError>((0, 0)),
        i < h.ndirs ==> (pe::directory(file, h, i) matches Ok(d) ==> d.0 == four(file, h.opt + 112 + 8 * i) && d.1 == four(
            file,
            h.opt + 116 + 8 * i,
        )),
{
    assert(i * 8 == 8 * i);
}

/// The import directory is a list of descriptors, twenty bytes each, up to one
/// without a name and an import table: the name of the library stands behind
/// twelve bytes, and its thunks are listed at the first word, or in the import
/// table itself where that is zero.
pub proof fn import_descriptors_are_read(image: Seq<u8>, d: int)
    requires
        0 <= d,
        d + 20 <= image.len(),
    ensures
        four(image, d + 12) == 0 && four(image, d + 16) == 0 ==> pe::imports_from(image, d) == Ok::<Seq<ImportV>, PeError>(
            Seq::empty(),
        ),
        !(four(image, d + 12) == 0 && four(image, d + 16) == 0) ==> (pe::imports_from(image, d) matches Ok(all) ==> {
            let lookup = if four(image, d) != 0 {
                four(image, d)
            } else {
                four(image, d + 16)
            };
            let own = pe::thunks_from(
                image,
                pe::c_string_or_empty(image, four(image, d + 12)),
                lookup as u32,
                four(image, d + 16) as u32,
                0,
            );
            own is Some && (pe::imports_from(image, d + 20) matches Ok(rest) && all == own.unwrap() + rest)
        }),
{
}

} // verus!
