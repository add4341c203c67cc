//! What holds of signatures that are applied to an image: where their patterns
//! match, and what their captures read there.

use vstd::prelude::*;

use crate::num;
use crate::pe::PeV;
use crate::records::{dword, lies};
use crate::sigs;
use crate::sigs::{Cap, FaultV, Kind, PatternV, SigV};
use crate::text;
use crate::words;

verus! {

// ---------------------------------------------------------------------------
// Values.

/// The number that a capture reads from the bytes at `r`, and how many bytes
/// it needs there: unsigned or in two's complement, least byte first; a
/// relative address counts from behind its four bytes.
pub open spec fn captured(pe: PeV, cap: Cap, r: int) -> (int, int) {
    match cap {
        Cap::U32 => (
            4,
            pe.image[r] + 0x100 * pe.image[r + 1] + 0x1_0000 * pe.image[r + 2] + 0x100_0000 * pe.image[r + 3],
        ),
        Cap::I32 => (4, words::signed32(dword(pe, r))),
        Cap::Rel32 => (4, r + 4 + words::signed32(dword(pe, r))),
        Cap::U16 => (2, pe.image[r] + 0x100 * pe.image[r + 1]),
        Cap::U8 => (1, pe.image[r] as int),
        Cap::I8 => (1, words::signed8(pe.image[r])),
    }
}

/// The value of a signature with a capture is the number in the captured bytes
/// plus the adjustment; where they do not lie in the image there is none.
pub proof fn captures_read_their_bytes(pe: PeV, sig: SigV, at: u32, p: usize, cap: Cap)
    requires
        sig.capture == Some((p, cap)),
        at + p <= u32::MAX,
    ensures
        ({
            let r = at + p;
            let (n, v) = captured(pe, cap, r);
            &&& n == cap.width()
            &&& r + n <= pe.image.len() && i64::MIN <= v + sig.adjust <= i64::MAX ==> sigs::resolved(pe, sig, at) == Some(
                (v + sig.adjust) as i64,
            )
            &&& r + n > pe.image.len() ==> sigs::resolved(pe, sig, at) is None
        }),
{
    let r = (at + p) as u32;
    if r + 4 <= pe.image.len() {
        words::sign_of_32(dword(pe, r as int));
    }
    if r < pe.image.len() {
        words::sign_of_8(pe.image[r as int]);
    }
}

/// A signature without a capture stands for the address at which it matches,
/// plus the adjustment.
pub proof fn plain_signatures_are_their_address(pe: PeV, sig: SigV, at: u32)
    requires
        sig.capture is None,
        i64::MIN <= at + sig.adjust <= i64::MAX,
    ensures
        sigs::resolved(pe, sig, at) == Some((at + sig.adjust) as i64),
{
}

// ---------------------------------------------------------------------------
// Matches.

/// The image holds a pattern at an address: every byte that the pattern fixes.
pub open spec fn holds_pattern(pe: PeV, pat: Seq<Option<u8>>, at: int) -> bool {
    lies(pe, at, pat.len() as int) && forall|i: int|
        0 <= i < pat.len() ==> (#[trigger] pat[i]) is None || pat[i] == Some(pe.image[at + i])
}

/// The pattern lies inside executable section `k`.
pub open spec fn lies_in_code(pe: PeV, len: int, at: int, k: int) -> bool {
    0 <= k < pe.exec_sections().len() && pe.exec_sections()[k].rva <= at && at + len <= pe.exec_sections()[k].rva
        + pe.exec_sections()[k].vsize
}

/// The matches of a pattern are the addresses in executable sections at which
/// the image holds it, and no others.
pub proof fn matches_hold_the_pattern(pe: PeV, pat: Seq<Option<u8>>, at: u32)
    requires
        pe.image.len() <= u32::MAX,
        pat.len() > 0,
    ensures
        sigs::all_matches(pe, pat).contains(at) <==> holds_pattern(pe, pat, at as int) && exists|k: int| #[trigger]
            lies_in_code(pe, pat.len() as int, at as int, k),
{
    let all = sigs::all_matches(pe, pat);
    if all.contains(at) {
        let i = choose|i: int| 0 <= i < all.len() && all[i] == at;
        sigs::matches_are_real(pe, pat, i);
        let (k, start) = choose|k: int, start: int|
            0 <= k < pe.exec_sections().len() && #[trigger] sigs::fits(
                pe.bytes(pe.exec_sections()[k].rva, pe.exec_sections()[k].vsize as int),
                start,
                pat,
            ) && at == pe.exec_sections()[k].rva.wrapping_add(start as u32);
        let sec = pe.exec_sections()[k];
        let hay = pe.bytes(sec.rva, sec.vsize as int);
        assert(sec.rva < pe.image.len());
        assert(at == sec.rva + start);
        assert forall|j: int| 0 <= j < pat.len() implies (#[trigger] pat[j]) is None || pat[j] == Some(pe.image[at + j]) by {
            if pat[j] is Some {
                assert(hay[start + j] == pe.image[sec.rva + (start + j)]);
            }
        }
        assert(lies_in_code(pe, pat.len() as int, at as int, k));
    }
    if holds_pattern(pe, pat, at as int) && exists|k: int| #[trigger] lies_in_code(pe, pat.len() as int, at as int, k) {
        let k = choose|k: int| #[trigger] lies_in_code(pe, pat.len() as int, at as int, k);
        let sec = pe.exec_sections()[k];
        let hay = pe.bytes(sec.rva, sec.vsize as int);
        let start = at - sec.rva;
        assert(hay.len() >= start + pat.len());
        assert forall|j: int| 0 <= j < pat.len() && (#[trigger] pat[j]) is Some implies hay[start + j] == pat[j].unwrap() by {
            assert(hay[start + j] == pe.image[sec.rva + (start + j)]);
        }
        assert(sigs::fits(hay, start, pat));
        sigs::scan_finds_all(pe, pat, k, start);
    }
}

/// A signature has a value only where its pattern matches at one address, and
/// then it is the value there.
pub proof fn values_need_one_match(pe: PeV, sig: SigV, a: u32, b: u32)
    requires
        sigs::all_matches(pe, sig.bytes).contains(a),
        sigs::all_matches(pe, sig.bytes).contains(b),
    ensures
        a != b ==> sigs::applied(pe, sig).value is None && sigs::applied(pe, sig).matches == 2,
        sigs::applied(pe, sig).matches >= 1,
        sigs::applied(pe, sig).matches == 1 ==> sigs::applied(pe, sig).value == sigs::resolved(pe, sig, a),
        sigs::applied(pe, sig).sig == sig,
{
    let all = sigs::all_matches(pe, sig.bytes);
    let i = choose|i: int| 0 <= i < all.len() && all[i] == a;
    let j = choose|j: int| 0 <= j < all.len() && all[j] == b;
}

/// A pattern that matches nowhere gives nothing.
pub proof fn no_match_is_no_value(pe: PeV, sig: SigV)
    requires
        sigs::all_matches(pe, sig.bytes).len() == 0,
    ensures
        sigs::applied(pe, sig).value is None,
        sigs::applied(pe, sig).matches == 0,
{
}

} // verus!
