//! Library folders of a Steam install.

use vstd::prelude::*;

use crate::text;

verus! {

/// `s` without quotes at its start and end.
pub open spec fn unquoted(s: Seq<char>) -> Seq<char> {
    text::trimmed_end(text::trimmed_start(s, '"'), '"')
}

/// `s` from `i` on with each pair of backslashes as one.
pub open spec fn unescaped(s: Seq<char>, i: int) -> Seq<char>
    decreases s.len() - i,
{
    if i < 0 || i >= s.len() {
        Seq::empty()
    } else if s[i] == '\\' && i + 1 < s.len() && s[i + 1] == '\\' {
        seq!['\\'] + unescaped(s, i + 2)
    } else {
        seq![s[i]] + unescaped(s, i + 1)
    }
}

/// The folder that a line `"path" "..."` names.
pub open spec fn folder_of(line: Seq<char>) -> Option<Seq<char>> {
    match text::after(text::trimmed(line), "\"path\""@) {
        Some(rest) => Some(unescaped(unquoted(text::trimmed(rest)), 0)),
        None => None,
    }
}

/// The folders that the first `n` lines name.
pub open spec fn folders_in(lines: Seq<Seq<char>>, n: int) -> Seq<Seq<char>>
    decreases n,
{
    if n <= 0 {
        Seq::empty()
    } else {
        match folder_of(lines[n - 1]) {
            Some(f) => folders_in(lines, n - 1).push(f),
            None => folders_in(lines, n - 1),
        }
    }
}

fn unescape(s: &str) -> (r: String)
    ensures
        r@ == unescaped(s@, 0),
{
    let c = text::chars_of(s);
    let ghost all = unescaped(s@, 0);
    let mut out = text::empty_text();
    let mut i: usize = 0;
    assert(out@ + all =~= all);
    while i < c.len()
        invariant
            c@ == s@,
            all == unescaped(s@, 0),
            i <= c@.len(),
            out@ + unescaped(s@, i as int) == all,
        decreases c@.len() - i,
    {
        let ghost pre = out@;
        let x = c[i];
        out.push(x);
        let step: usize = if x == '\\' && c.len() - i > 1 && c[i + 1] == '\\' { 2 } else { 1 };
        proof {
            let rest = unescaped(s@, i + step);
            assert(pre + (seq![x] + rest) =~= pre.push(x) + rest);
        }
        i += step;
    }
    assert(out@ + Seq::<char>::empty() =~= out@);
    out
}

/// The library folders that `libraryfolders.vdf` lists.
pub fn library_folders(src: &str) -> (r: Vec<String>)
    ensures
        r.deep_view() == folders_in(text::lines(src@), text::lines(src@).len() as int),
{
    let lines = text::split_lines(src);
    let ghost ls = lines.deep_view();
    let mut out: Vec<String> = Vec::new();
    let mut i: usize = 0;
    assert(out.deep_view() =~= Seq::empty());
    while i < lines.len()
        invariant
            ls == lines.deep_view(),
            i <= lines@.len(),
            out.deep_view() == folders_in(ls, i as int),
        decreases lines@.len() - i,
    {
        assert(lines@[i as int]@ == ls[i as int]);
        let l = text::trim(lines[i].as_str());
        if let Some(rest) = text::strip_prefix(l.as_str(), "\"path\"") {
            let t = text::trim(rest.as_str());
            let t = text::trim_start_of(t.as_str(), '"');
            let t = text::trim_end_of(t.as_str(), '"');
            text::push_text(&mut out, unescape(t.as_str()));
        }
        i += 1;
    }
    out
}

} // verus!
