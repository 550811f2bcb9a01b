//! Literal substring search: non-overlapping matches, left to right.
use vstd::prelude::*;
use vstd::string::*;
use crate::text::{byte_offset};

verus! {

/// `q` occurs in `t` at char index `i`.
pub open spec fn occurs_at(t: Seq<char>, q: Seq<char>, i: int) -> bool {
    0 <= i && i + q.len() <= t.len() && t.subrange(i, i + q.len()) == q
}

/// Char indices of the matches of `q` in `t` found by a scan from `i`: at
/// each match the scan resumes just after it, so matches do not overlap.
/// An empty query has no match.
pub open spec fn match_starts(t: Seq<char>, q: Seq<char>, i: int) -> Seq<int>
    decreases t.len() - i,
{
    if q.len() == 0 || i < 0 || i + q.len() > t.len() {
        seq![]
    } else if occurs_at(t, q, i) {
        seq![i] + match_starts(t, q, i + q.len())
    } else {
        match_starts(t, q, i + 1)
    }
}

/// Byte ranges of the char ranges of length `m` that start at `starts`.
pub open spec fn byte_ranges(t: Seq<char>, m: nat, starts: Seq<int>) -> Seq<(usize, usize)> {
    starts.map_values(|i: int| (byte_offset(t, i) as usize, byte_offset(t, i + m) as usize))
}

/// The byte ranges of the matches of `q` in `t`.
pub open spec fn match_ranges(t: Seq<char>, q: Seq<char>) -> Seq<(usize, usize)> {
    byte_ranges(t, q.len(), match_starts(t, q, 0))
}

/// Every match found from `i` occurs there, they come in order, and none
/// overlaps the next.
pub proof fn lemma_match_starts(t: Seq<char>, q: Seq<char>, i: int)
    requires
        0 <= i,
    ensures
        forall|k: int|
            0 <= k < match_starts(t, q, i).len() ==> i <= #[trigger] match_starts(t, q, i)[k]
                && occurs_at(t, q, match_starts(t, q, i)[k]),
        forall|k: int|
            0 <= k < match_starts(t, q, i).len() - 1 ==> #[trigger] match_starts(t, q, i)[k]
                + q.len() <= match_starts(t, q, i)[k + 1],
    decreases t.len() - i,
{
    if q.len() == 0 || i + q.len() > t.len() {
        assert(match_starts(t, q, i).len() == 0);
    } else if occurs_at(t, q, i) {
        lemma_match_starts(t, q, i + q.len());
        let rest = match_starts(t, q, i + q.len());
        let all = match_starts(t, q, i);
        assert(all == seq![i] + rest);
        assert forall|k: int| 0 <= k < all.len() implies i <= #[trigger] all[k] && occurs_at(
            t,
            q,
            all[k],
        ) by {
            if k > 0 {
                assert(all[k] == rest[k - 1]);
            }
        }
        assert forall|k: int| 0 <= k < all.len() - 1 implies #[trigger] all[k] + q.len() <= all[k
            + 1] by {
            assert(all[k + 1] == rest[k]);
            if k > 0 {
                assert(all[k] == rest[k - 1]);
            }
        }
    } else {
        lemma_match_starts(t, q, i + 1);
        assert(match_starts(t, q, i) == match_starts(t, q, i + 1));
    }
}

/// The characters of `s`, in order.
pub fn str_to_chars(s: &str) -> (v: Vec<char>)
    ensures
        v@ == s@,
{
    let n = s.unicode_len();
    let mut v: Vec<char> = Vec::new();
    let mut i: usize = 0;
    while i < n
        invariant
            i <= n,
            n == s@.len(),
            v@ == s@.take(i as int),
        decreases n - i,
    {
        v.push(s.get_char(i));
        proof {
            assert(s@.take(i + 1) =~= s@.take(i as int).push(s@[i as int]));
        }
        i = i + 1;
    }
    proof {
        assert(s@.take(n as int) =~= s@);
    }
    v
}

/// Whether `q` occurs in `t` at char index `i`.
pub fn occurs_at_exec(t: &Vec<char>, q: &Vec<char>, i: usize) -> (r: bool)
    ensures
        r == occurs_at(t@, q@, i as int),
{
    let n = t.len();
    let m = q.len();
    if i > n || m > n - i {
        return false;
    }
    let mut j: usize = 0;
    while j < m && t[i + j] == q[j]
        invariant
            j <= m,
            i + m <= n,
            n == t@.len(),
            m == q@.len(),
            t@.subrange(i as int, i + j) =~= q@.take(j as int),
        decreases m - j,
    {
        proof {
            assert(t@.subrange(i as int, i + j + 1) =~= t@.subrange(i as int, i + j).push(t@[i + j]));
            assert(q@.take(j + 1) =~= q@.take(j as int).push(q@[j as int]));
        }
        j = j + 1;
    }
    if j == m {
        proof {
            assert(q@.take(m as int) =~= q@);
        }
        true
    } else {
        proof {
            if t@.subrange(i as int, i + m) == q@ {
                assert(t@.subrange(i as int, i + m)[j as int] == t@[i + j]);
            }
        }
        false
    }
}

/// Byte ranges of all non-overlapping matches of `q` in `t`, left to right;
/// `offs` holds the byte offset of every char index of `t`.
pub fn scan_matches(t: &Vec<char>, q: &Vec<char>, offs: &Vec<usize>) -> (r: Vec<(usize, usize)>)
    requires
        offs@.len() == t@.len() + 1,
        forall|i: int| 0 <= i <= t@.len() ==> #[trigger] offs@[i] == byte_offset(t@, i),
    ensures
        r@ == match_ranges(t@, q@),
{
    let n = t.len();
    let m = q.len();
    let mut r: Vec<(usize, usize)> = Vec::new();
    if m == 0 {
        proof {
            assert(match_starts(t@, q@, 0) =~= Seq::<int>::empty());
            assert(r@ =~= match_ranges(t@, q@));
        }
        return r;
    }
    let mut i: usize = 0;
    proof {
        assert(r@ + byte_ranges(t@, m as nat, match_starts(t@, q@, 0)) =~= match_ranges(t@, q@));
    }
    while i <= n && m <= n - i
        invariant
            i <= n + 1,
            n == t@.len(),
            m == q@.len(),
            m > 0,
            offs@.len() == n + 1,
            forall|k: int| 0 <= k <= n ==> #[trigger] offs@[k] == byte_offset(t@, k),
            r@ + byte_ranges(t@, m as nat, match_starts(t@, q@, i as int)) == match_ranges(t@, q@),
        decreases n + 1 - i,
    {
        if occurs_at_exec(t, q, i) {
            let ghost before = r@;
            r.push((offs[i], offs[i + m]));
            proof {
                let rest = match_starts(t@, q@, i + m);
                assert(match_starts(t@, q@, i as int) == seq![i as int] + rest);
                assert(byte_ranges(t@, m as nat, seq![i as int] + rest) =~= seq![(byte_offset(t@, i as int) as usize, byte_offset(t@, i + m) as usize)] + byte_ranges(t@, m as nat, rest));
                assert(r@ + byte_ranges(t@, m as nat, rest) =~= before + byte_ranges(t@, m as nat, match_starts(t@, q@, i as int)));
            }
            i = i + m;
        } else {
            i = i + 1;
        }
    }
    proof {
        assert(match_starts(t@, q@, i as int) =~= Seq::<int>::empty());
        assert(r@ + Seq::<(usize, usize)>::empty() =~= r@);
    }
    r
}

/// The first char index at or after `p` where `q` occurs in `t`.
pub fn find_from(t: &Vec<char>, q: &Vec<char>, p: usize) -> (r: Option<usize>)
    requires
        q@.len() > 0,
    ensures
        r matches Some(k) ==> p <= k && occurs_at(t@, q@, k as int) && forall|d: int|
            p <= d < k ==> !occurs_at(t@, q@, d),
        r is None ==> forall|d: int| p <= d ==> !occurs_at(t@, q@, d),
{
    let n = t.len();
    let m = q.len();
    let mut i = p;
    while i <= n && m <= n - i
        invariant
            p <= i,
            n == t@.len(),
            m == q@.len(),
            m > 0,
            forall|d: int| p <= d < i ==> !occurs_at(t@, q@, d),
        decreases n + 1 - i,
    {
        if occurs_at_exec(t, q, i) {
            return Some(i);
        }
        i = i + 1;
    }
    None
}

/// Where no match occurs from `i` on, a scan from `i` finds none.
pub proof fn lemma_no_match(t: Seq<char>, q: Seq<char>, i: int)
    requires
        0 <= i,
        forall|d: int| i <= d ==> !occurs_at(t, q, d),
    ensures
        match_starts(t, q, i).len() == 0,
    decreases t.len() - i,
{
    if !(q.len() == 0 || i + q.len() > t.len()) {
        lemma_no_match(t, q, i + 1);
    }
}

/// Where a match occurs at or after `i`, a scan from `i` finds one.
pub proof fn lemma_some_match(t: Seq<char>, q: Seq<char>, i: int, p: int)
    requires
        0 <= i <= p,
        q.len() > 0,
        occurs_at(t, q, p),
    ensures
        match_starts(t, q, i).len() > 0,
    decreases p - i,
{
    if !occurs_at(t, q, i) {
        lemma_some_match(t, q, i + 1, p);
    }
}

} // verus!
