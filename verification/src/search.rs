//! Substring search in bytes.

use vstd::prelude::*;

verus! {

/// `needle` stands in `hay` at `at`.
pub open spec fn stands(hay: Seq<u8>, needle: Seq<u8>, at: int) -> bool {
    0 <= at && at + needle.len() <= hay.len() && hay.subrange(at, at + needle.len()) == needle
}

/// The places before `n` at which `needle` stands, in order.
pub open spec fn places(hay: Seq<u8>, needle: Seq<u8>, n: int) -> Seq<usize>
    decreases n,
{
    if n <= 0 {
        Seq::empty()
    } else if stands(hay, needle, n - 1) {
        places(hay, needle, n - 1).push((n - 1) as usize)
    } else {
        places(hay, needle, n - 1)
    }
}

/// All places at which `needle` stands, in order. The empty needle stands
/// everywhere, the end of the haystack included.
pub open spec fn occurrences(hay: Seq<u8>, needle: Seq<u8>) -> Seq<usize> {
    places(hay, needle, hay.len() as int + 1)
}

/// `memchr::memmem::find`: the first place at which the needle stands, nothing
/// where it stands nowhere.
#[verifier::external_body]
fn find_first(hay: &[u8], needle: &[u8]) -> (r: Option<usize>)
    ensures
        match r {
            Some(i) => stands(hay@, needle@, i as int) && forall|q: int|
                q < i ==> !#[trigger] stands(hay@, needle@, q),
            None => forall|q: int| !#[trigger] stands(hay@, needle@, q),
        },
{
    memchr::memmem::find(hay, needle)
}

proof fn stands_behind(hay: Seq<u8>, needle: Seq<u8>, at: int, q: int)
    requires
        0 <= at <= hay.len(),
        0 <= q,
    ensures
        stands(hay.subrange(at, hay.len() as int), needle, q) == stands(hay, needle, at + q),
{
    let rest = hay.subrange(at, hay.len() as int);
    if at + q + needle.len() <= hay.len() {
        assert(rest.subrange(q, q + needle.len()) =~= hay.subrange(at + q, at + q + needle.len()));
    }
}

proof fn places_skip(hay: Seq<u8>, needle: Seq<u8>, i: int, n: int)
    requires
        0 <= i <= n,
        forall|q: int| i <= q < n ==> !#[trigger] stands(hay, needle, q),
    ensures
        places(hay, needle, n) == places(hay, needle, i),
    decreases n - i,
{
    if i < n {
        assert(!stands(hay, needle, n - 1));
        places_skip(hay, needle, i, n - 1);
    }
}

/// All places at which the needle stands, overlapping ones too.
pub(crate) fn find_all(hay: &[u8], needle: &[u8]) -> (r: Vec<usize>)
    ensures
        r@ == occurrences(hay@, needle@),
{
    let n = hay.len();
    let mut out: Vec<usize> = Vec::new();
    let mut at: usize = 0;
    loop
        invariant
            n == hay@.len(),
            n == hay.len(),
            at <= n,
            out@ == places(hay@, needle@, at as int),
        decreases n - at,
    {
        let rest = vstd::slice::slice_subrange(hay, at, n);
        match find_first(rest, needle) {
            None => {
                proof {
                    assert forall|q: int| at <= q < n + 1 implies !#[trigger] stands(hay@, needle@, q) by {
                        stands_behind(hay@, needle@, at as int, q - at);
                    }
                    places_skip(hay@, needle@, at as int, n + 1);
                }
                return out;
            },
            Some(i) => {
                proof {
                    stands_behind(hay@, needle@, at as int, i as int);
                    assert forall|q: int| at <= q < at + i implies !#[trigger] stands(hay@, needle@, q) by {
                        stands_behind(hay@, needle@, at as int, q - at);
                    }
                    places_skip(hay@, needle@, at as int, at + i);
                }
                out.push(at + i);
                if i == n - at {
                    return out;
                }
                at = at + i + 1;
            },
        }
    }
}

/// The places reported before `n` are those at which the needle stands, and
/// each comes once.
pub proof fn places_are_all(hay: Seq<u8>, needle: Seq<u8>, n: int, q: int)
    requires
        n <= usize::MAX + 1,
    ensures
        places(hay, needle, n).contains(q as usize) && 0 <= q < n <==> 0 <= q < n && stands(hay, needle, q),
        forall|i: int, j: int|
            0 <= i < j < places(hay, needle, n).len() ==> places(hay, needle, n)[i] < places(hay, needle, n)[j],
        forall|i: int| 0 <= i < places(hay, needle, n).len() ==> (#[trigger] places(hay, needle, n)[i]) < n,
    decreases n,
{
    if n > 0 {
        places_are_all(hay, needle, n - 1, q);
        let before = places(hay, needle, n - 1);
        let now = places(hay, needle, n);
        if stands(hay, needle, n - 1) {
            assert(now.last() == (n - 1) as usize);
            assert(now[now.len() - 1] == (n - 1) as usize);
            if before.contains(q as usize) {
                let j = choose|j: int| 0 <= j < before.len() && before[j] == q as usize;
                assert(now[j] == q as usize);
            }
            if now.contains(q as usize) && q != n - 1 && 0 <= q < n {
                let j = choose|j: int| 0 <= j < now.len() && now[j] == q as usize;
                assert(j < before.len());
                assert(before[j] == q as usize);
            }
        }
    }
}

} // verus!
