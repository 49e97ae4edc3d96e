//! Node identifiers and the ordered identifier lists that nodes keep.
//!
//! Identifiers are opaque 128-bit values. Fresh ones come from an injected
//! collision-resistant generator; a caller may also supply its own, so that
//! two independently constructed nodes can recognize a pre-existing
//! relationship, and so that tests can use deterministic identifiers.

use vstd::prelude::*;

verus! {

/// Relies on `uuid::Uuid::new_v4` and `uuid::Uuid::as_u128` to draw a fresh
/// random 128-bit identifier. Nothing is promised of the value: collisions
/// are improbable, not impossible, and every caller handles them.
#[verifier::external_body]
pub fn fresh_id() -> u128 {
    uuid::Uuid::new_v4().as_u128()
}

/// The first position of `x` in `s`; `s.len()` if `x` does not occur.
pub open spec fn first_index_of(s: Seq<u128>, x: u128) -> int
    decreases s.len(),
{
    if s.len() == 0 {
        0
    } else if s[0] == x {
        0
    } else {
        1 + first_index_of(s.drop_first(), x)
    }
}

/// `s` with the first occurrence of `x` removed; `s` itself if `x` does not
/// occur.
pub open spec fn remove_first(s: Seq<u128>, x: u128) -> Seq<u128> {
    if s.contains(x) {
        s.remove(first_index_of(s, x))
    } else {
        s
    }
}

/// No identifier occurs twice in `s`.
pub open spec fn distinct_ids(s: Seq<u128>) -> bool {
    forall|i: int, j: int| 0 <= i < s.len() && 0 <= j < s.len() && i != j ==> s[i] != s[j]
}

/// A scan that finds `x` at position `p`, having seen it nowhere earlier,
/// has found the first occurrence.
pub proof fn lemma_first_index_of(s: Seq<u128>, x: u128, p: int)
    requires
        0 <= p < s.len(),
        s[p] == x,
        forall|q: int| 0 <= q < p ==> s[q] != x,
    ensures
        s.contains(x),
        first_index_of(s, x) == p,
    decreases s.len(),
{
    assert(s.contains(x));
    if p == 0 {
    } else {
        let t = s.drop_first();
        assert(t[p - 1] == x);
        assert(forall|q: int| 0 <= q < p - 1 ==> t[q] == s[q + 1] && s[q + 1] != x);
        lemma_first_index_of(t, x, p - 1);
    }
}

/// `x` does not occur in `s`, so removing it changes nothing; and appending
/// `x` and then removing it restores `s`.
pub proof fn lemma_remove_first_of_push(s: Seq<u128>, x: u128)
    requires
        !s.contains(x),
    ensures
        remove_first(s, x) == s,
        remove_first(s.push(x), x) == s,
{
    let sp = s.push(x);
    assert(sp[s.len() as int] == x);
    assert(forall|q: int| 0 <= q < s.len() ==> sp[q] == s[q] && s[q] != x);
    lemma_first_index_of(sp, x, s.len() as int);
    assert(sp.remove(s.len() as int) =~= s);
}

/// Removing an identifier from a duplicate-free list keeps it duplicate
/// free, removes that identifier entirely, and keeps the others.
pub proof fn lemma_remove_first_props(s: Seq<u128>, x: u128)
    requires
        distinct_ids(s),
        s.contains(x),
    ensures
        distinct_ids(remove_first(s, x)),
        !remove_first(s, x).contains(x),
        forall|y: u128| #[trigger] remove_first(s, x).contains(y) ==> s.contains(y),
        remove_first(s, x).len() == s.len() - 1,
{
    let p = first_index_of(s, x);
    lemma_first_index_in_range(s, x);
    let m = s.remove(p);
    assert(forall|i: int| 0 <= i < p ==> #[trigger] m[i] == s[i]);
    assert(forall|i: int| p <= i < m.len() ==> #[trigger] m[i] == s[i + 1]);
    assert forall|i: int, j: int|
        0 <= i < m.len() && 0 <= j < m.len() && i != j implies m[i] != m[j] by {
        let ii = if i < p { i } else { i + 1 };
        let jj = if j < p { j } else { j + 1 };
        assert(m[i] == s[ii] && m[j] == s[jj] && ii != jj);
    }
    assert(s[p] == x);
    if m.contains(x) {
        let i = choose|i: int| 0 <= i < m.len() && m[i] == x;
        let ii = if i < p { i } else { i + 1 };
        assert(m[i] == s[ii] && ii != p);
        assert(false);
    }
    assert forall|y: u128| #[trigger] m.contains(y) implies s.contains(y) by {
        let i = choose|i: int| 0 <= i < m.len() && m[i] == y;
        let ii = if i < p { i } else { i + 1 };
        assert(s[ii] == y);
    }
}

/// When `x` occurs in `s`, its first position is a valid index holding `x`.
pub proof fn lemma_first_index_in_range(s: Seq<u128>, x: u128)
    requires
        s.contains(x),
    ensures
        0 <= first_index_of(s, x) < s.len(),
        s[first_index_of(s, x)] == x,
    decreases s.len(),
{
    if s.len() > 0 && s[0] != x {
        let t = s.drop_first();
        assert(t.contains(x)) by {
            let i = choose|i: int| 0 <= i < s.len() && s[i] == x;
            assert(t[i - 1] == x);
        }
        lemma_first_index_in_range(t, x);
        assert(s[first_index_of(s, x)] == t[first_index_of(t, x)]);
    }
}

/// Whether `x` occurs in `v`.
pub fn contains_id(v: &Vec<u128>, x: u128) -> (r: bool)
    ensures
        r == v@.contains(x),
{
    let n = v.len();
    let mut i: usize = 0;
    while i < n
        invariant
            i <= n,
            n == v@.len(),
            forall|q: int| 0 <= q < i ==> v@[q] != x,
        decreases n - i,
    {
        if v[i] == x {
            return true;
        }
        i += 1;
    }
    proof {
        if v@.contains(x) {
            let w = choose|q: int| 0 <= q < v@.len() && v@[q] == x;
            assert(false);
        }
    }
    false
}

/// Remove the first occurrence of `x` from `v`, reporting whether one was
/// found.
pub fn remove_id(v: &mut Vec<u128>, x: u128) -> (found: bool)
    ensures
        final(v)@ == remove_first(old(v)@, x),
        found == old(v)@.contains(x),
{
    let n = v.len();
    let mut i: usize = 0;
    while i < n
        invariant
            i <= n,
            n == v@.len(),
            v@ == old(v)@,
            forall|q: int| 0 <= q < i ==> v@[q] != x,
        decreases n - i,
    {
        if v[i] == x {
            proof {
                lemma_first_index_of(v@, x, i as int);
            }
            let _ = v.remove(i);
            return true;
        }
        i += 1;
    }
    proof {
        if v@.contains(x) {
            let w = choose|q: int| 0 <= q < v@.len() && v@[q] == x;
            assert(false);
        }
    }
    false
}

} // verus!
