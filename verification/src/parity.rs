//! The solvability invariant of the puzzle.
//!
//! Every move exchanges the empty cell with one tile: a transposition of the
//! cell list, which flips the parity of its inversion count; and the empty
//! cell changes row or column by exactly one, which flips the parity of its
//! coordinates. Their sum modulo 2 is therefore preserved by every move, so
//! a board whose invariant differs from the goal's can never be sorted,
//! however it is played.

use vstd::prelude::*;

use crate::board::{
    empty_of, is_permutation, legal_seq, lemma_apply_inverse, lemma_unique_empty, sorted_seq,
    spec_apply,
};
use crate::moves::{col_of, lemma_target_inverse, row_of, target_at, PossibleMoves};
use crate::search::{replay, replay_ok};

verus! {

/// How many cells of the slots `lo..hi` hold a value above `v`.
pub open spec fn count_above(s: Seq<u8>, lo: int, hi: int, v: u8) -> int
    decreases hi - lo,
{
    if lo >= hi {
        0
    } else {
        count_above(s, lo, hi - 1, v) + if s[hi - 1] > v {
            1int
        } else {
            0int
        }
    }
}

/// How many cells of the slots `lo..hi` hold a value below `v`.
pub open spec fn count_below(s: Seq<u8>, lo: int, hi: int, v: u8) -> int
    decreases hi - lo,
{
    if lo >= hi {
        0
    } else {
        count_below(s, lo, hi - 1, v) + if s[hi - 1] < v {
            1int
        } else {
            0int
        }
    }
}

/// The inversions among the first `k` slots: pairs whose earlier slot holds
/// the larger value.
pub open spec fn invs_upto(s: Seq<u8>, k: int) -> int
    decreases k,
{
    if k <= 0 {
        0
    } else {
        invs_upto(s, k - 1) + count_above(s, 0, k - 1, s[k - 1])
    }
}

/// The inversions of the whole cell list, the empty cell counted as the
/// value 0.
pub open spec fn invs(s: Seq<u8>) -> int {
    invs_upto(s, s.len() as int)
}

/// The solvability invariant: the inversion count plus the row and column
/// of the empty cell, modulo 2. No move changes it.
pub open spec fn parity_of(s: Seq<u8>) -> int {
    (invs(s) + row_of(empty_of(s)) + col_of(empty_of(s))) % 2
}

proof fn lemma_count_above_split(s: Seq<u8>, lo: int, mid: int, hi: int, v: u8)
    requires
        lo <= mid <= hi,
    ensures
        count_above(s, lo, hi, v) == count_above(s, lo, mid, v) + count_above(s, mid, hi, v),
    decreases hi - mid,
{
    if mid < hi {
        lemma_count_above_split(s, lo, mid, hi - 1, v);
    }
}

proof fn lemma_count_above_same(s1: Seq<u8>, s2: Seq<u8>, lo: int, hi: int, v: u8)
    requires
        forall|i: int| lo <= i < hi ==> s1[i] == s2[i],
    ensures
        count_above(s1, lo, hi, v) == count_above(s2, lo, hi, v),
    decreases hi - lo,
{
    if lo < hi {
        lemma_count_above_same(s1, s2, lo, hi - 1, v);
    }
}

proof fn lemma_count_complement(s: Seq<u8>, lo: int, hi: int, v: u8)
    requires
        lo <= hi,
        forall|i: int| lo <= i < hi ==> s[i] != v,
    ensures
        count_above(s, lo, hi, v) + count_below(s, lo, hi, v) == hi - lo,
    decreases hi - lo,
{
    if lo < hi {
        lemma_count_complement(s, lo, hi - 1, v);
    }
}

proof fn lemma_count_above_one(s: Seq<u8>, i: int, v: u8)
    ensures
        count_above(s, i, i + 1, v) == if s[i] > v {
            1int
        } else {
            0int
        },
{
    assert(count_above(s, i, i, v) == 0);
}

proof fn lemma_invs_upto_same(s1: Seq<u8>, s2: Seq<u8>, j: int)
    requires
        forall|i: int| 0 <= i < j ==> s1[i] == s2[i],
    ensures
        invs_upto(s1, j) == invs_upto(s2, j),
    decreases j,
{
    if j > 0 {
        lemma_invs_upto_same(s1, s2, j - 1);
        lemma_count_above_same(s1, s2, 0, j - 1, s1[j - 1]);
    }
}

/// Inversions of the first `j` slots, `a < j <= b`, after the cell of slot
/// `a` is replaced by the cell of slot `b`: the slots before `a` now count
/// against the new value, and each slot between compares against it instead
/// of the old one.
proof fn lemma_invs_mid(s: Seq<u8>, t: Seq<u8>, a: int, b: int, j: int)
    requires
        0 <= a < b < s.len(),
        s.len() == t.len(),
        t[a] == s[b],
        forall|i: int| 0 <= i < t.len() && i != a && i != b ==> t[i] == s[i],
        a + 1 <= j <= b,
    ensures
        invs_upto(t, j) - invs_upto(s, j) == (count_above(s, 0, a, s[b]) - count_above(
            s,
            0,
            a,
            s[a],
        )) + (count_below(s, a + 1, j, s[b]) - count_below(s, a + 1, j, s[a])),
    decreases j,
{
    if j == a + 1 {
        lemma_invs_upto_same(s, t, a);
        lemma_count_above_same(t, s, 0, a, t[a]);
    } else {
        lemma_invs_mid(s, t, a, b, j - 1);
        let v = s[j - 1];
        assert(t[j - 1] == v);
        lemma_count_above_split(t, 0, a, j - 1, v);
        lemma_count_above_split(t, a, a + 1, j - 1, v);
        lemma_count_above_split(s, 0, a, j - 1, v);
        lemma_count_above_split(s, a, a + 1, j - 1, v);
        lemma_count_above_same(t, s, 0, a, v);
        lemma_count_above_same(t, s, a + 1, j - 1, v);
        lemma_count_above_one(t, a, v);
        lemma_count_above_one(s, a, v);
    }
}

/// Inversions of the first `j` slots, `j > b`, after the cells of slots `a`
/// and `b` are exchanged: slots past `b` see the same pair of values on the
/// two slots, so the difference settles at its value just past `b`.
proof fn lemma_invs_tail(s: Seq<u8>, t: Seq<u8>, a: int, b: int, j: int)
    requires
        0 <= a < b < s.len(),
        s.len() == t.len(),
        t[a] == s[b],
        t[b] == s[a],
        forall|i: int| 0 <= i < t.len() && i != a && i != b ==> t[i] == s[i],
        b + 1 <= j <= s.len(),
    ensures
        invs_upto(t, j) - invs_upto(s, j) == invs_upto(t, b + 1) - invs_upto(s, b + 1),
    decreases j,
{
    if j > b + 1 {
        lemma_invs_tail(s, t, a, b, j - 1);
        let v = s[j - 1];
        assert(t[j - 1] == v);
        lemma_count_above_split(t, 0, a, j - 1, v);
        lemma_count_above_split(t, a, a + 1, j - 1, v);
        lemma_count_above_split(t, a + 1, b, j - 1, v);
        lemma_count_above_split(t, b, b + 1, j - 1, v);
        lemma_count_above_split(s, 0, a, j - 1, v);
        lemma_count_above_split(s, a, a + 1, j - 1, v);
        lemma_count_above_split(s, a + 1, b, j - 1, v);
        lemma_count_above_split(s, b, b + 1, j - 1, v);
        lemma_count_above_same(t, s, 0, a, v);
        lemma_count_above_same(t, s, a + 1, b, v);
        lemma_count_above_same(t, s, b + 1, j - 1, v);
        lemma_count_above_one(t, a, v);
        lemma_count_above_one(s, a, v);
        lemma_count_above_one(t, b, v);
        lemma_count_above_one(s, b, v);
    }
}

/// Exchanging the cells of two slots flips the parity of the inversion
/// count.
proof fn lemma_swap_flips_invs(s: Seq<u8>, a: int, b: int)
    requires
        s.no_duplicates(),
        0 <= a < b < s.len(),
    ensures
        (invs(s.update(a, s[b]).update(b, s[a])) + invs(s)) % 2 == 1,
{
    let t = s.update(a, s[b]).update(b, s[a]);
    let x = s[a];
    let y = s[b];
    assert(x != y);
    lemma_invs_mid(s, t, a, b, b);
    lemma_count_above_split(t, 0, a, b, x);
    lemma_count_above_split(t, a, a + 1, b, x);
    lemma_count_above_same(t, s, 0, a, x);
    lemma_count_above_same(t, s, a + 1, b, x);
    lemma_count_above_split(s, 0, a, b, y);
    lemma_count_above_split(s, a, a + 1, b, y);
    lemma_count_above_one(t, a, x);
    lemma_count_above_one(s, a, y);
    assert forall|i: int| a + 1 <= i < b implies s[i] != x && s[i] != y by {}
    lemma_count_complement(s, a + 1, b, x);
    lemma_count_complement(s, a + 1, b, y);
    let k = count_above(s, a + 1, b, x) - count_above(s, a + 1, b, y);
    assert(invs_upto(t, b + 1) - invs_upto(s, b + 1) == (if y > x {
        1int
    } else {
        -1int
    }) + 2 * k);
    lemma_invs_tail(s, t, a, b, s.len() as int);
    assert((invs(t) + invs(s)) % 2 == 1) by {
        assert(invs(t) + invs(s) == 2 * invs(s) + (if y > x {
            1int
        } else {
            -1int
        }) + 2 * k);
    }
}

proof fn lemma_count_above_none(s: Seq<u8>, lo: int, hi: int, v: u8)
    requires
        lo <= hi,
        forall|i: int| lo <= i < hi ==> s[i] <= v,
    ensures
        count_above(s, lo, hi, v) == 0,
    decreases hi - lo,
{
    if lo < hi {
        lemma_count_above_none(s, lo, hi - 1, v);
    }
}

proof fn lemma_count_above_all(s: Seq<u8>, lo: int, hi: int, v: u8)
    requires
        lo <= hi,
        forall|i: int| lo <= i < hi ==> s[i] > v,
    ensures
        count_above(s, lo, hi, v) == hi - lo,
    decreases hi - lo,
{
    if lo < hi {
        lemma_count_above_all(s, lo, hi - 1, v);
    }
}

/// Law: no legal move changes the solvability invariant. The move is a
/// transposition of the cell list, flipping the inversion parity, and it
/// moves the empty cell by one row or one column, flipping its coordinate
/// parity: the sum is unchanged.
pub proof fn lemma_apply_preserves_parity(s: Seq<u8>, m: PossibleMoves)
    requires
        is_permutation(s),
        legal_seq(s, m),
    ensures
        is_permutation(spec_apply(s, m)),
        parity_of(spec_apply(s, m)) == parity_of(s),
{
    lemma_unique_empty(s);
    let e = empty_of(s);
    let t0 = target_at(e, m);
    lemma_target_inverse(e, m);
    lemma_apply_inverse(s, m);
    let s2 = spec_apply(s, m);
    lemma_unique_empty(s2);
    assert(s2[t0] == 0);
    assert(empty_of(s2) == t0);
    let a = if e < t0 {
        e
    } else {
        t0
    };
    let b = if e < t0 {
        t0
    } else {
        e
    };
    assert(s2 =~= s.update(a, s[b]).update(b, s[a]));
    lemma_swap_flips_invs(s, a, b);
    assert((invs(s2) + invs(s)) % 2 == 1);
    let rc1 = row_of(e) + col_of(e);
    let rc2 = row_of(t0) + col_of(t0);
    assert(rc2 == rc1 + 1 || rc2 == rc1 - 1) by {
        match m {
            PossibleMoves::UP => {
                assert(t0 == e - 4);
                assert(row_of(t0) == row_of(e) - 1 && col_of(t0) == col_of(e));
            },
            PossibleMoves::DOWN => {
                assert(t0 == e + 4);
                assert(row_of(t0) == row_of(e) + 1 && col_of(t0) == col_of(e));
            },
            PossibleMoves::LEFT => {
                assert(t0 == e - 1);
                assert(row_of(t0) == row_of(e) && col_of(t0) == col_of(e) - 1);
            },
            PossibleMoves::RIGHT => {
                assert(t0 == e + 1);
                assert(row_of(t0) == row_of(e) && col_of(t0) == col_of(e) + 1);
            },
        }
    }
    assert((invs(s2) + rc2) % 2 == (invs(s) + rc1) % 2);
}

/// Law: replaying any sequence of legal moves keeps the solvability
/// invariant of the starting board.
pub proof fn lemma_replay_preserves_parity(s: Seq<u8>, path: Seq<PossibleMoves>)
    requires
        is_permutation(s),
        replay_ok(s, path),
    ensures
        is_permutation(replay(s, path)),
        parity_of(replay(s, path)) == parity_of(s),
    decreases path.len(),
{
    if path.len() > 0 {
        lemma_apply_preserves_parity(s, path[0]);
        lemma_replay_preserves_parity(spec_apply(s, path[0]), path.drop_first());
    }
}

proof fn lemma_sorted_invs(k: int)
    requires
        0 <= k <= 16,
    ensures
        invs_upto(sorted_seq(), k) == if k == 16 {
            15int
        } else {
            0int
        },
    decreases k,
{
    let s = sorted_seq();
    if k > 0 {
        lemma_sorted_invs(k - 1);
        if k - 1 < 15 {
            lemma_count_above_none(s, 0, k - 1, s[k - 1]);
        } else {
            lemma_count_above_all(s, 0, 15, s[15]);
        }
    }
}

/// The goal board has fifteen inversions (every tile stands before the
/// empty cell) and its empty cell on row 3, column 3: its invariant is 1.
pub proof fn lemma_sorted_parity()
    ensures
        parity_of(sorted_seq()) == 1,
{
    crate::board::lemma_sorted_is_permutation();
    lemma_sorted_invs(16);
}

/// Law: a board whose solvability invariant differs from the goal board's
/// can never be sorted, however it is played: no sequence of legal moves
/// replayed from it ends on the goal configuration.
pub proof fn lemma_wrong_parity_never_solves(s: Seq<u8>, path: Seq<PossibleMoves>)
    requires
        is_permutation(s),
        replay_ok(s, path),
        parity_of(s) != parity_of(sorted_seq()),
    ensures
        replay(s, path) != sorted_seq(),
{
    lemma_replay_preserves_parity(s, path);
}

} // verus!
