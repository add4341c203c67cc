//! Disassembly listings.

use vstd::prelude::*;
use vstd::string::StringExecFns;

use crate::insn;
use crate::num;
use crate::pe;
use crate::pe::{Pe, PeV};
use crate::sigs;
use crate::text;

verus! {

/// The instruction that `bytes` start with, at address `ip`, as iced-x86's
/// `IntelFormatter` writes it.
pub uninterp spec fn intel_text(bytes: Seq<u8>, ip: u64) -> Seq<char>;

/// `IntelFormatter::format` of iced-x86 with its default options, on the
/// instruction that the bytes start with: a function of the bytes and the
/// address.
#[verifier::external_body]
fn format_intel(bytes: &[u8], ip: u64) -> (r: String)
    ensures
        r@ == intel_text(bytes@, ip),
{
    let i = iced_x86::Decoder::with_ip(64, bytes, ip, iced_x86::DecoderOptions::NONE).decode();
    let mut out = String::new();
    iced_x86::Formatter::format(&mut iced_x86::IntelFormatter::new(), &i, &mut out);
    out
}

/// At most `n` instructions that `bytes` hold one behind the other from address
/// `ip` on: address, length and text of each. Invalid ones are listed too.
pub open spec fn instructions(bytes: Seq<u8>, ip: u64, n: nat) -> Seq<(u64, u32, Seq<char>)>
    decreases n,
{
    if n == 0 || bytes.len() == 0 {
        Seq::empty()
    } else {
        let len = insn::head_of(bytes, ip).len;
        seq![(ip, len, intel_text(bytes, ip))] + instructions(
            bytes.skip(pe::min(len as int, bytes.len() as int)),
            ip.wrapping_add(len as u64),
            (n - 1) as nat,
        )
    }
}

/// Address, length and text of at most `n` instructions.
pub fn disassemble(bytes: &[u8], ip: u64, n: usize) -> (r: Vec<(u64, u32, String)>)
    ensures
        r.deep_view() == instructions(bytes@, ip, n as nat),
{
    let ghost all = instructions(bytes@, ip, n as nat);
    let count = bytes.len();
    let mut out: Vec<(u64, u32, String)> = Vec::new();
    let mut pos: usize = 0;
    let mut at: u64 = ip;
    let mut left: usize = n;
    assert(bytes@.skip(0) =~= bytes@);
    assert(out.deep_view() + all =~= all);
    while left > 0 && pos < count
        invariant
            count == bytes@.len(),
            count == bytes.len(),
            pos <= count,
            out.deep_view() + instructions(bytes@.skip(pos as int), at, left as nat) == all,
        decreases left,
    {
        let ghost pre = out.deep_view();
        let rest = vstd::slice::slice_subrange(bytes, pos, count);
        assert(rest@ =~= bytes@.skip(pos as int));
        let ins = insn::decode(rest, at);
        let len = ins.head.len;
        let t = format_intel(rest, at);
        let ghost x = (at, len, t@);
        out.push((at, len, t));
        assert(out.deep_view() =~= pre.push(x));
        pos = pos + len as usize;
        at = at.wrapping_add(len as u64);
        left -= 1;
        proof {
            assert(rest@.skip(len as int) =~= bytes@.skip(pos as int));
            let more = instructions(bytes@.skip(pos as int), at, left as nat);
            assert(pre + (seq![x] + more) =~= pre.push(x) + more);
        }
    }
    assert(out.deep_view() + Seq::<(u64, u32, Seq<char>)>::empty() =~= out.deep_view());
    out
}

/// The bytes of an instruction, each in two hexadecimal digits.
pub open spec fn byte_words(b: Seq<u8>) -> Seq<Seq<char>> {
    Seq::new(b.len(), |i: int| sigs::byte_text(Some(b[i])))
}

/// A number in hexadecimal behind `0x`, in eight digits at least.
pub open spec fn wide_hex(v: int) -> Seq<char> {
    let d = num::digits(v, 16);
    "0x"@ + Seq::new(
        if d.len() < 8 {
            (8 - d.len()) as nat
        } else {
            0
        },
        |i: int| '0',
    ) + d
}

/// The line of an instruction: address in the image, bytes and text.
pub open spec fn line_of(pe: PeV, x: (u64, u32, Seq<char>)) -> Seq<char> {
    let at = x.0.wrapping_sub(pe.image_base);
    let w = byte_words(pe.bytes(at as u32, x.1 as int));
    "  "@ + wide_hex(at as int) + "  "@ + text::padded(text::joined(w, " "@, w.len()), 30) + " "@ + x.2
}

fn write_wide_hex(v: u64) -> (r: String)
    ensures
        r@ == wide_hex(v as int),
{
    let d = num::format_radix(v, 16);
    let have = text::count(d.as_str());
    let mut out = "0x".to_owned();
    let mut i: usize = have;
    assert(out@ =~= "0x"@ + Seq::new(0nat, |j: int| '0'));
    while i < 8
        invariant
            have <= i,
            i <= 8 || i == have,
            out@ == "0x"@ + Seq::new((i - have) as nat, |j: int| '0'),
        decreases 8 - i,
    {
        out.push('0');
        i += 1;
        assert(out@ =~= "0x"@ + Seq::new((i - have) as nat, |j: int| '0'));
    }
    out.append(d.as_str());
    out
}

fn write_line(p: &Pe, x: &(u64, u32, String)) -> (r: String)
    ensures
        r@ == line_of(p.deep_view(), x.deep_view()),
{
    let at = x.0.wrapping_sub(p.image_base);
    let raw = p.bytes(at as u32, x.1 as usize);
    let ghost all = byte_words(raw@);
    let mut words: Vec<String> = Vec::new();
    let mut i: usize = 0;
    assert(words.deep_view() =~= all.take(0));
    while i < raw.len()
        invariant
            raw.len() == raw@.len(),
            all == byte_words(raw@),
            i <= raw@.len(),
            words.deep_view() == all.take(i as int),
        decreases raw@.len() - i,
    {
        let ghost before = words.deep_view();
        text::push_text(&mut words, sigs::byte_token(Some(raw[i])));
        i += 1;
        assert(all.take(i as int) =~= before.push(all[i - 1]));
    }
    assert(all.take(i as int) =~= all);
    let mut out = "  ".to_owned();
    let h = write_wide_hex(at);
    out.append(h.as_str());
    out.append("  ");
    let joined = text::join(&words, " ");
    let bytes = text::pad(joined.as_str(), 30);
    out.append(bytes.as_str());
    out.append(" ");
    out.append(x.2.as_str());
    out
}

/// The listing of at most `n` instructions from an address on.
pub open spec fn listing(pe: PeV, rva: u32, n: nat) -> Seq<Seq<char>> {
    let list = instructions(pe.bytes(rva, n as int * 15), pe.rva_to_va(rva), n);
    Seq::new(list.len(), |i: int| line_of(pe, list[i]))
}

/// The lines of a disassembly listing of at most `n` instructions from an
/// address on.
pub fn disasm(p: &Pe, rva: u32, n: usize) -> (r: Vec<String>)
    ensures
        r.deep_view() == listing(p.deep_view(), rva, n as nat),
{
    let most: usize = if n > usize::MAX / 15 { usize::MAX } else { n * 15 };
    let bytes = p.bytes(rva, most);
    proof {
        assert(p.image.len() == p.image@.len());
        assert(n * 15 <= usize::MAX || most == usize::MAX);
        assert(bytes@ =~= p.deep_view().bytes(rva, n * 15));
    }
    let list = disassemble(bytes, p.rva_to_va(rva), n);
    let ghost l = list.deep_view();
    let ghost pv = p.deep_view();
    let ghost all = listing(pv, rva, n as nat);
    let mut out: Vec<String> = Vec::new();
    let mut i: usize = 0;
    assert(out.deep_view() =~= all.take(0));
    while i < list.len()
        invariant
            pv == p.deep_view(),
            l == list.deep_view(),
            all.len() == l.len(),
            forall|k: int| 0 <= k < l.len() ==> #[trigger] all[k] == line_of(pv, l[k]),
            i <= list@.len(),
            out.deep_view() == all.take(i as int),
        decreases list@.len() - i,
    {
        assert(list@[i as int].deep_view() == l[i as int]);
        let ghost before = out.deep_view();
        text::push_text(&mut out, write_line(p, &list[i]));
        i += 1;
        assert(all.take(i as int) =~= before.push(all[i - 1]));
    }
    assert(all.take(i as int) =~= all);
    out
}

} // verus!
