//! Breadth-first search over the board-state graph.
//!
//! The engine explores boards outward from an initial configuration, one
//! move per edge. Every discovered board is recorded once, keyed by a
//! base-16 packing of its cells into a `u64`, together with the board and
//! the move that first reached it; the record forms a tree rooted at the
//! initial board, and walking it backward from the goal yields the move
//! sequence of the solution.

use std::collections::HashMap;

use vstd::prelude::*;
use vstd::set_lib::lemma_len_subset;

use crate::board::{
    is_permutation, legal_seq, sorted_seq, spec_apply, Board,
};
use crate::moves::PossibleMoves;

verus! {

/// 16 raised to the given power.
pub open spec fn pow16(n: nat) -> nat
    decreases n,
{
    if n == 0 {
        1
    } else {
        16 * pow16((n - 1) as nat)
    }
}

/// The cells of a board packed into one integer, base 16: the cell of slot
/// 15 ends up in the lowest digit.
pub open spec fn encode_spec(s: Seq<u8>) -> int
    decreases s.len(),
{
    if s.len() == 0 {
        0
    } else {
        16 * encode_spec(s.drop_last()) + s.last()
    }
}

proof fn lemma_pow16_mono(a: nat, b: nat)
    requires
        a <= b,
    ensures
        pow16(a) <= pow16(b),
    decreases b,
{
    if a < b {
        lemma_pow16_mono(a, (b - 1) as nat);
        assert(pow16(b) == 16 * pow16((b - 1) as nat));
    }
}

proof fn lemma_pow16_16()
    ensures
        pow16(15) == 0x1000_0000_0000_0000,
        pow16(16) == 0x1_0000_0000_0000_0000,
{
    reveal_with_fuel(pow16, 17);
}

/// Packing 16-ary digits keeps the value below the 16th power of 16.
proof fn lemma_encode_bound(s: Seq<u8>)
    requires
        forall|i: int| 0 <= i < s.len() ==> s[i] < 16,
    ensures
        0 <= encode_spec(s) < pow16(s.len() as nat),
    decreases s.len(),
{
    if s.len() > 0 {
        lemma_encode_bound(s.drop_last());
        assert(pow16(s.len() as nat) == 16 * pow16((s.len() - 1) as nat));
        assert(s.last() < 16);
    }
}

/// The `u64` key of a board: its packed cells. The packing stays below the
/// 16th power of 16, so the cast loses nothing.
pub open spec fn key_of(s: Seq<u8>) -> u64 {
    encode_spec(s) as u64
}

proof fn lemma_encode_injective(s1: Seq<u8>, s2: Seq<u8>)
    requires
        s1.len() == s2.len(),
        forall|i: int| 0 <= i < s1.len() ==> s1[i] < 16,
        forall|i: int| 0 <= i < s2.len() ==> s2[i] < 16,
        encode_spec(s1) == encode_spec(s2),
    ensures
        s1 == s2,
    decreases s1.len(),
{
    if s1.len() == 0 {
        assert(s1 =~= s2);
    } else {
        assert(s1.last() == s2.last() && encode_spec(s1.drop_last()) == encode_spec(
            s2.drop_last(),
        )) by {
            lemma_encode_bound(s1.drop_last());
            lemma_encode_bound(s2.drop_last());
        }
        lemma_encode_injective(s1.drop_last(), s2.drop_last());
        assert forall|i: int| 0 <= i < s1.len() implies s1[i] == s2[i] by {
            if i < s1.len() - 1 {
                assert(s1.drop_last()[i] == s2.drop_last()[i]);
            }
        }
        assert(s1 =~= s2);
    }
}

/// Law: the key packing is injective on boards — two permutations share a
/// key only if they show the same cells. The search keys its record and its
/// frontier deduplication by this packing, so each distinct board is
/// recorded, and enqueued, at most once.
pub proof fn lemma_key_of_injective(s1: Seq<u8>, s2: Seq<u8>)
    requires
        is_permutation(s1),
        is_permutation(s2),
        key_of(s1) == key_of(s2),
    ensures
        s1 == s2,
{
    lemma_encode_bound(s1);
    lemma_encode_bound(s2);
    lemma_pow16_16();
    lemma_encode_injective(s1, s2);
}

/// Packs the cells of a board into a `u64` key, base 16. Boards showing the
/// same cells get the same key.
fn encode(b: &Board) -> (r: u64)
    requires
        b.inv(),
    ensures
        r == key_of(b@),
{
    let mut key: u64 = 0;
    let mut i: usize = 0;
    while i < 16
        invariant
            b.inv(),
            i <= 16,
            key == encode_spec(b@.take(i as int)),
        decreases 16 - i,
    {
        proof {
            lemma_encode_bound(b@.take(i as int));
            lemma_pow16_mono(i as nat, 15);
            lemma_pow16_16();
            assert(b@.take((i + 1) as int).drop_last() =~= b@.take(i as int));
            assert(b@.take((i + 1) as int).last() == b@[i as int]);
        }
        let c = b.get(i);
        key = 16 * key + (c as u64);
        i = i + 1;
    }
    proof {
        assert(b@.take(16) =~= b@);
    }
    key
}

/// How a discovered board was first reached: the move that produced it, the
/// key of its predecessor, and its distance from the initial board.
pub struct Previous {
    pub mv: PossibleMoves,
    pub prev_key: u64,
    pub num_of_moves: usize,
}

/// One record of the search: a discovered board, and how it was first
/// reached (`None` for the initial board).
struct Discovered {
    board: Board,
    prev: Option<Previous>,
}

/// Distance of a recorded board from the initial board.
spec fn depth_of(e: Discovered) -> int {
    match e.prev {
        Option::None => 0,
        Option::Some(p) => p.num_of_moves as int,
    }
}

/// One record is sound: its board is valid and keyed by its own encoding,
/// and its predecessor link names a recorded board one move away, one step
/// closer to the initial board.
spec fn rec_ok(m: Map<u64, Discovered>, init: Seq<u8>, k: u64) -> bool {
    let e = m[k];
    &&& e.board.inv()
    &&& key_of(e.board@) == k
    &&& match e.prev {
        Option::None => e.board@ == init,
        Option::Some(p) => {
            &&& m.dom().contains(p.prev_key)
            &&& 1 <= p.num_of_moves
            &&& depth_of(m[p.prev_key]) == p.num_of_moves - 1
            &&& legal_seq(m[p.prev_key].board@, p.mv)
            &&& spec_apply(m[p.prev_key].board@, p.mv) == e.board@
        },
    }
}

/// Every record of the search is sound.
spec fn wf_record(m: Map<u64, Discovered>, init: Seq<u8>) -> bool {
    forall|k: u64| #[trigger] m.dom().contains(k) ==> rec_ok(m, init, k)
}

/// Every board waiting in the frontier is valid and recorded under its key.
spec fn queue_ok(q: Seq<Board>, m: Map<u64, Discovered>) -> bool {
    forall|i: int|
        0 <= i < q.len() ==> ((#[trigger] q[i]).inv() && m.dom().contains(key_of(q[i]@))
            && m[key_of(q[i]@)].board@ == q[i]@)
}

/// No two boards of the frontier show the same cells: no board is ever
/// enqueued twice.
spec fn queue_distinct(q: Seq<Board>) -> bool {
    forall|i: int, j: int|
        0 <= i < j < q.len() ==> key_of((#[trigger] q[i])@) != key_of((#[trigger] q[j])@)
}

/// Every recorded board stands somewhere in the frontier sequence (the
/// frontier is never shrunk, only read past).
spec fn record_in_queue(q: Seq<Board>, m: Map<u64, Discovered>) -> bool {
    forall|k: u64| #[trigger] m.dom().contains(k) ==> exists|i: int|
        0 <= i < q.len() && key_of((#[trigger] q[i])@) == k
}

/// Every board before `head` has been expanded: each of its legal successors
/// is recorded, at most one move deeper.
spec fn expanded_ok(q: Seq<Board>, head: int, m: Map<u64, Discovered>) -> bool {
    forall|i: int, mv: PossibleMoves|
        #![trigger spec_apply(q[i]@, mv)]
        0 <= i < head && legal_seq(q[i]@, mv) ==> m.dom().contains(key_of(spec_apply(q[i]@, mv)))
            && depth_of(m[key_of(spec_apply(q[i]@, mv))]) <= depth_of(m[key_of(q[i]@)]) + 1
}

/// Recorded depths never decrease along the frontier: boards are enqueued in
/// breadth-first order.
spec fn depth_sorted(q: Seq<Board>, m: Map<u64, Discovered>) -> bool {
    forall|i: int, j: int|
        #![trigger key_of(q[i]@), key_of(q[j]@)]
        0 <= i <= j < q.len() ==> depth_of(m[key_of(q[i]@)]) <= depth_of(m[key_of(q[j]@)])
}

/// From `head` on, the frontier spans at most two breadth-first layers: no
/// waiting board lies more than one move deeper than the one due next.
spec fn depth_span(q: Seq<Board>, head: int, m: Map<u64, Discovered>) -> bool {
    forall|i: int|
        head <= i < q.len() ==> depth_of(m[key_of((#[trigger] q[i])@)]) <= depth_of(
            m[key_of(q[head]@)],
        ) + 1
}

/// The records reached by walking a predecessor chain are pairwise distinct,
/// so a chain of depth `d` needs `d + 1` records: no depth can reach the
/// number of records.
proof fn lemma_depth_bound(m: Map<u64, Discovered>, init: Seq<u8>, k: u64) -> (s: Set<u64>)
    requires
        wf_record(m, init),
        m.dom().contains(k),
    ensures
        s.subset_of(m.dom()),
        s.finite(),
        s.len() == depth_of(m[k]) + 1,
        forall|x: u64| #[trigger] s.contains(x) ==> depth_of(m[x]) <= depth_of(m[k]),
        s.contains(k),
    decreases depth_of(m[k]),
{
    assert(rec_ok(m, init, k));
    match m[k].prev {
        Option::None => {
            let s = set![k];
            assert(s =~= Set::empty().insert(k));
            s
        },
        Option::Some(p) => {
            let s0 = lemma_depth_bound(m, init, p.prev_key);
            assert(!s0.contains(k)) by {
                if s0.contains(k) {
                    assert(depth_of(m[k]) <= depth_of(m[p.prev_key]));
                }
            }
            s0.insert(k)
        },
    }
}

/// The configuration reached by replaying `path` from `s`.
pub open spec fn replay(s: Seq<u8>, path: Seq<PossibleMoves>) -> Seq<u8>
    decreases path.len(),
{
    if path.len() == 0 {
        s
    } else {
        replay(spec_apply(s, path[0]), path.drop_first())
    }
}

/// Whether every move of `path`, replayed from `s`, is legal when its turn
/// comes.
pub open spec fn replay_ok(s: Seq<u8>, path: Seq<PossibleMoves>) -> bool
    decreases path.len(),
{
    if path.len() == 0 {
        true
    } else {
        legal_seq(s, path[0]) && replay_ok(spec_apply(s, path[0]), path.drop_first())
    }
}

proof fn lemma_replay_prepend(s: Seq<u8>, m: PossibleMoves, path: Seq<PossibleMoves>)
    ensures
        replay(s, path.insert(0, m)) == replay(spec_apply(s, m), path),
        replay_ok(s, path.insert(0, m)) == (legal_seq(s, m) && replay_ok(
            spec_apply(s, m),
            path,
        )),
{
    let q = path.insert(0, m);
    assert(q[0] == m);
    assert(q.drop_first() =~= path);
}

/// When the frontier is exhausted, the record is closed under legal moves
/// and holds no sorted board, so no sequence of legal moves leads from any
/// recorded board to the goal.
proof fn lemma_exhausted_no_path(
    q: Seq<Board>,
    m: Map<u64, Discovered>,
    init: Seq<u8>,
    s: Seq<u8>,
    p: Seq<PossibleMoves>,
)
    requires
        wf_record(m, init),
        queue_ok(q, m),
        record_in_queue(q, m),
        expanded_ok(q, q.len() as int, m),
        forall|i: int| 0 <= i < q.len() ==> (#[trigger] q[i])@ != sorted_seq(),
        m.dom().contains(key_of(s)),
        m[key_of(s)].board@ == s,
        is_permutation(s),
        replay_ok(s, p),
    ensures
        replay(s, p) != sorted_seq(),
    decreases p.len(),
{
    let i = choose|i: int| 0 <= i < q.len() && key_of((q[i])@) == key_of(s);
    assert(q[i]@ == s);
    if p.len() == 0 {
    } else {
        let s2 = spec_apply(s, p[0]);
        assert(spec_apply(q[i]@, p[0]) == s2);
        crate::board::lemma_apply_inverse(s, p[0]);
        assert(rec_ok(m, init, key_of(s2)));
        lemma_key_of_injective(m[key_of(s2)].board@, s2);
        lemma_exhausted_no_path(q, m, init, s2, p.drop_first());
    }
}

/// While the board due next in the frontier is the goal, every recorded
/// board lies at least as many moves from the start as its recorded depth:
/// any legal path from a recorded board to the goal is at least as long as
/// the recorded depth gap. Expanded boards pass the question one move on;
/// waiting boards already lie at or past the goal's layer.
proof fn lemma_shortest_path(
    q: Seq<Board>,
    head: int,
    m: Map<u64, Discovered>,
    init: Seq<u8>,
    s: Seq<u8>,
    p: Seq<PossibleMoves>,
)
    requires
        wf_record(m, init),
        queue_ok(q, m),
        record_in_queue(q, m),
        expanded_ok(q, head, m),
        depth_sorted(q, m),
        0 <= head < q.len(),
        q[head]@ == sorted_seq(),
        m.dom().contains(key_of(s)),
        m[key_of(s)].board@ == s,
        is_permutation(s),
        replay_ok(s, p),
        replay(s, p) == sorted_seq(),
    ensures
        depth_of(m[key_of(sorted_seq())]) <= depth_of(m[key_of(s)]) + p.len(),
    decreases p.len(),
{
    if p.len() == 0 {
    } else {
        let i = choose|i: int| 0 <= i < q.len() && key_of((q[i])@) == key_of(s);
        assert(q[i]@ == s);
        if i < head {
            let s2 = spec_apply(s, p[0]);
            assert(spec_apply(q[i]@, p[0]) == s2);
            crate::board::lemma_apply_inverse(s, p[0]);
            assert(rec_ok(m, init, key_of(s2)));
            lemma_key_of_injective(m[key_of(s2)].board@, s2);
            lemma_shortest_path(q, head, m, init, s2, p.drop_first());
        } else {
            assert(depth_of(m[key_of(q[head]@)]) <= depth_of(m[key_of(q[i]@)]));
        }
    }
}

/// Walks the predecessor chain backward from the goal record and returns the
/// move sequence, in order, that leads from the initial board to the goal.
fn reconstruct(record: &HashMap<u64, Discovered>, goal_key: u64, Ghost(init): Ghost<Seq<u8>>) -> (r:
    Vec<PossibleMoves>)
    requires
        wf_record(record@, init),
        record@.dom().contains(goal_key),
        record@[goal_key].board@ == sorted_seq(),
    ensures
        replay_ok(init, r@),
        replay(init, r@) == sorted_seq(),
        r@.len() == depth_of(record@[goal_key]),
{
    let mut cur_key = goal_key;
    let mut path: Vec<PossibleMoves> = Vec::new();
    loop
        invariant
            wf_record(record@, init),
            record@.dom().contains(cur_key),
            replay_ok(record@[cur_key].board@, path@),
            replay(record@[cur_key].board@, path@) == sorted_seq(),
            path@.len() + depth_of(record@[cur_key]) == depth_of(record@[goal_key]),
        ensures
            replay_ok(init, path@),
            replay(init, path@) == sorted_seq(),
            path@.len() == depth_of(record@[goal_key]),
        decreases depth_of(record@[cur_key]),
    {
        proof {
            assert(rec_ok(record@, init, cur_key));
        }
        let e = record.get(&cur_key).unwrap();
        match &e.prev {
            Option::None => {
                break ;
            },
            Option::Some(p) => {
                proof {
                    assert(rec_ok(record@, init, p.prev_key));
                    lemma_replay_prepend(record@[p.prev_key].board@, p.mv, path@);
                }
                path.insert(0, p.mv);
                cur_key = p.prev_key;
            },
        }
    }
    path
}

/// Applies `mv` to `cur` if it is legal, and enqueues the resulting board
/// unless some board with the same cells was already discovered. Extends the
/// search record and frontier; everything already recorded or queued stays
/// as it was.
fn try_expand(
    cur: &Board,
    cur_key: u64,
    mv: PossibleMoves,
    record: &mut HashMap<u64, Discovered>,
    queue: &mut Vec<Board>,
    Ghost(init): Ghost<Seq<u8>>,
    Ghost(head): Ghost<int>,
)
    requires
        cur.inv(),
        key_of(cur@) == cur_key,
        old(record)@.dom().contains(cur_key),
        old(record)@[cur_key].board@ == cur@,
        wf_record(old(record)@, init),
        queue_ok(old(queue)@, old(record)@),
        queue_distinct(old(queue)@),
        record_in_queue(old(queue)@, old(record)@),
        depth_sorted(old(queue)@, old(record)@),
        depth_span(old(queue)@, head, old(record)@),
        0 <= head < old(queue)@.len(),
        old(queue)@[head]@ == cur@,
    ensures
        wf_record(final(record)@, init),
        queue_ok(final(queue)@, final(record)@),
        queue_distinct(final(queue)@),
        record_in_queue(final(queue)@, final(record)@),
        depth_sorted(final(queue)@, final(record)@),
        depth_span(final(queue)@, head, final(record)@),
        forall|k: u64| #[trigger] old(record)@.dom().contains(k) ==> final(record)@.dom().contains(
            k,
        ) && final(record)@[k] == old(record)@[k],
        old(queue)@.len() <= final(queue)@.len(),
        forall|i: int| 0 <= i < old(queue)@.len() ==> final(queue)@[i] == old(queue)@[i],
        legal_seq(cur@, mv) ==> final(record)@.dom().contains(key_of(spec_apply(cur@, mv)))
            && depth_of(final(record)@[key_of(spec_apply(cur@, mv))]) <= depth_of(
            final(record)@[cur_key],
        ) + 1,
        expanded_ok(old(queue)@, head, old(record)@) ==> expanded_ok(
            final(queue)@,
            head,
            final(record)@,
        ),
{
    if !cur.can_move(mv) {
        return ;
    }
    let nxt = cur.apply(mv);
    let nk = encode(&nxt);
    if record.contains_key(&nk) {
        proof {
            let sk = key_of(spec_apply(cur@, mv));
            assert(record@.dom().contains(sk));
            let i = choose|i: int| 0 <= i < queue@.len() && key_of((queue@[i])@) == sk;
            assert(key_of(queue@[head]@) == cur_key);
            if i <= head {
                assert(depth_of(record@[key_of(queue@[i]@)]) <= depth_of(
                    record@[key_of(queue@[head]@)],
                ));
            } else {
                assert(depth_of(record@[key_of(queue@[i]@)]) <= depth_of(
                    record@[key_of(queue@[head]@)],
                ) + 1);
            }
        }
        return ;
    }
    let e = record.get(&cur_key).unwrap();
    let d: usize = match &e.prev {
        Option::None => 0,
        Option::Some(p) => p.num_of_moves,
    };
    proof {
        assert(rec_ok(record@, init, cur_key));
        assert(d == depth_of(record@[cur_key]));
    }
    let n = record.len();
    proof {
        let s = lemma_depth_bound(record@, init, cur_key);
        lemma_len_subset(s, record@.dom());
        assert(d + 1 <= n);
    }
    let entry = Discovered {
        board: nxt.clone(),
        prev: Some(Previous { mv, prev_key: cur_key, num_of_moves: d + 1 }),
    };
    record.insert(nk, entry);
    queue.push(nxt);
    proof {
        assert forall|k: u64| record@.dom().contains(k) implies rec_ok(record@, init, k) by {
            if k != nk {
                assert(old(record)@.dom().contains(k));
                assert(rec_ok(old(record)@, init, k));
                match old(record)@[k].prev {
                    Option::None => {},
                    Option::Some(p) => {
                        assert(p.prev_key != nk);
                    },
                }
            }
        }
        assert forall|i: int| 0 <= i < queue@.len() implies ((#[trigger] queue@[i]).inv()
            && record@.dom().contains(key_of(queue@[i]@)) && record@[key_of(queue@[i]@)].board@
            == queue@[i]@) by {
            if i < queue@.len() - 1 {
                assert(old(queue)@[i].inv());
                assert(old(record)@.dom().contains(key_of(old(queue)@[i]@)));
            }
        }
        assert forall|i: int, j: int|
            0 <= i < j < queue@.len() implies key_of((queue@[i])@) != key_of((queue@[j])@) by {
            if j < queue@.len() - 1 {
                assert(key_of((old(queue)@[i])@) != key_of((old(queue)@[j])@));
            } else {
                assert(old(record)@.dom().contains(key_of((old(queue)@[i])@)));
            }
        }
        assert(record@[cur_key] == old(record)@[cur_key]);
        assert(key_of(queue@[head]@) == cur_key);
        assert forall|k: u64| record@.dom().contains(k) implies exists|i: int|
            0 <= i < queue@.len() && key_of((#[trigger] queue@[i])@) == k by {
            if k == nk {
                assert(key_of((queue@[queue@.len() - 1])@) == nk);
            } else {
                let i = choose|i: int| 0 <= i < old(queue)@.len() && key_of((old(queue)@[i])@)
                    == k;
                assert(key_of((queue@[i])@) == k);
            }
        }
        assert forall|i: int, j: int|
            #![trigger key_of(queue@[i]@), key_of(queue@[j]@)]
            0 <= i <= j < queue@.len() implies depth_of(record@[key_of(queue@[i]@)]) <= depth_of(
            record@[key_of(queue@[j]@)],
        ) by {
            let last = queue@.len() - 1;
            if j < last {
                assert(old(record)@.dom().contains(key_of(old(queue)@[i]@)));
                assert(old(record)@.dom().contains(key_of(old(queue)@[j]@)));
                assert(depth_of(old(record)@[key_of(old(queue)@[i]@)]) <= depth_of(
                    old(record)@[key_of(old(queue)@[j]@)],
                ));
            } else if i < last {
                assert(queue@[j]@ == nxt@);
                assert(depth_of(record@[nk]) == d + 1);
                assert(old(record)@.dom().contains(key_of(old(queue)@[i]@)));
                if i <= head {
                    assert(depth_of(old(record)@[key_of(old(queue)@[i]@)]) <= depth_of(
                        old(record)@[key_of(old(queue)@[head]@)],
                    ));
                } else {
                    assert(depth_of(old(record)@[key_of(old(queue)@[i]@)]) <= depth_of(
                        old(record)@[key_of(old(queue)@[head]@)],
                    ) + 1);
                }
            }
        }
        assert forall|i: int|
            head <= i < queue@.len() implies depth_of(record@[key_of((#[trigger] queue@[i])@)])
            <= depth_of(record@[key_of(queue@[head]@)]) + 1 by {
            let last = queue@.len() - 1;
            if i < last {
                assert(old(record)@.dom().contains(key_of(old(queue)@[i]@)));
                assert(depth_of(old(record)@[key_of((old(queue)@[i])@)]) <= depth_of(
                    old(record)@[key_of(old(queue)@[head]@)],
                ) + 1);
            } else {
                assert(depth_of(record@[nk]) == d + 1);
            }
        }
        if expanded_ok(old(queue)@, head, old(record)@) {
            assert forall|i: int, mv2: PossibleMoves|
                #![trigger spec_apply(queue@[i]@, mv2)]
                0 <= i < head && legal_seq(queue@[i]@, mv2) implies record@.dom().contains(
                key_of(spec_apply(queue@[i]@, mv2)),
            ) && depth_of(record@[key_of(spec_apply(queue@[i]@, mv2))]) <= depth_of(
                record@[key_of(queue@[i]@)],
            ) + 1 by {
                assert(queue@[i]@ == old(queue)@[i]@);
                assert(spec_apply(old(queue)@[i]@, mv2) == spec_apply(queue@[i]@, mv2));
                let sk = key_of(spec_apply(old(queue)@[i]@, mv2));
                assert(old(record)@.dom().contains(sk));
                assert(old(record)@.dom().contains(key_of(old(queue)@[i]@)));
            }
        }
    }
}

/// The outcome of a search: the shortest move sequence found, or the finding
/// that no move sequence sorts the board.
#[derive(Debug)]
pub enum SolveOutcome {
    Solved { moves: Vec<PossibleMoves> },
    Unsolvable,
}

/// Searches breadth-first from `init` for the goal board. On success the
/// returned moves, replayed in order from `init`, are each legal when their
/// turn comes and end on the goal configuration, and no shorter sequence of
/// legal moves reaches it: the answer is a shortest solution. An
/// already-solved board yields the empty sequence. `Unsolvable` is a valid
/// outcome, not an error, and it is definitive: it is returned only when no
/// sequence of legal moves, of any length, leads from `init` to the goal.
///
/// No board is enqueued twice: every frontier entry is recorded under its
/// key the moment it is pushed, a key is only inserted once and keys are
/// injective on boards (`lemma_key_of_injective`), and the frontier holds
/// pairwise distinct boards throughout (the `queue_distinct` invariant), so
/// the record never exceeds the number of distinct boards discovered.
///
/// A solution also certifies the solvability invariant: `Solved` is
/// returned only for a board with the goal board's parity, so a board of
/// the opposite parity is always reported `Unsolvable`.
#[verifier::rlimit(80)]
pub fn solve(init: &Board) -> (r: SolveOutcome)
    requires
        init.inv(),
    ensures
        match r {
            SolveOutcome::Solved { moves } => replay_ok(init@, moves@) && replay(init@, moves@)
                == sorted_seq() && (init@ == sorted_seq() ==> moves@.len() == 0)
                && crate::parity::parity_of(init@) == crate::parity::parity_of(sorted_seq())
                && (forall|p: Seq<PossibleMoves>|
                replay_ok(init@, p) && replay(init@, p) == sorted_seq() ==> moves@.len()
                    <= p.len()),
            SolveOutcome::Unsolvable => init@ != sorted_seq() && (forall|p: Seq<PossibleMoves>|
                replay_ok(init@, p) ==> replay(init@, p) != sorted_seq()),
        },
{
    let init_key = encode(init);
    let mut record: HashMap<u64, Discovered> = HashMap::new();
    record.insert(init_key, Discovered { board: init.clone(), prev: None });
    let mut queue: Vec<Board> = Vec::new();
    queue.push(init.clone());
    proof {
        assert forall|k: u64| record@.dom().contains(k) implies exists|i: int|
            0 <= i < queue@.len() && key_of((#[trigger] queue@[i])@) == k by {
            assert(key_of((queue@[0])@) == init_key);
        }
    }
    let mut head: usize = 0;
    while head < queue.len()
        invariant
            init.inv(),
            wf_record(record@, init@),
            queue_ok(queue@, record@),
            queue_distinct(queue@),
            record_in_queue(queue@, record@),
            expanded_ok(queue@, head as int, record@),
            depth_sorted(queue@, record@),
            depth_span(queue@, head as int, record@),
            forall|i: int| 0 <= i < head ==> (#[trigger] queue@[i])@ != sorted_seq(),
            record@.dom().contains(init_key),
            record@[init_key].prev is None,
            head <= queue.len(),
            1 <= queue.len(),
            queue@[0]@ == init@,
            init@ == sorted_seq() ==> head == 0,
        decreases usize::MAX - head,
    {
        let ghost h = head as int;
        let cur = queue[head].clone();
        proof {
            assert(queue@[h].inv());
        }
        let cur_key = encode(&cur);
        if cur.is_solved() {
            proof {
                if init@ == sorted_seq() {
                    assert(cur_key == init_key);
                    assert(depth_of(record@[cur_key]) == 0);
                }
            }
            let moves = reconstruct(&record, cur_key, Ghost(init@));
            proof {
                crate::parity::lemma_replay_preserves_parity(init@, moves@);
                assert(key_of(init@) == init_key);
                assert(key_of(sorted_seq()) == cur_key);
                assert(depth_of(record@[init_key]) == 0);
                assert forall|p: Seq<PossibleMoves>|
                    replay_ok(init@, p) && replay(init@, p)
                        == sorted_seq() implies moves@.len() <= p.len() by {
                    lemma_shortest_path(queue@, h, record@, init@, init@, p);
                }
            }
            return SolveOutcome::Solved { moves };
        }
        head = head + 1;
        try_expand(&cur, cur_key, PossibleMoves::UP, &mut record, &mut queue, Ghost(init@), Ghost(h));
        try_expand(&cur, cur_key, PossibleMoves::DOWN, &mut record, &mut queue, Ghost(init@), Ghost(h));
        try_expand(&cur, cur_key, PossibleMoves::LEFT, &mut record, &mut queue, Ghost(init@), Ghost(h));
        try_expand(&cur, cur_key, PossibleMoves::RIGHT, &mut record, &mut queue, Ghost(init@), Ghost(h));
        proof {
            assert(queue@[h]@ == cur@);
            assert(key_of(queue@[h]@) == cur_key);
            assert forall|i: int, mv2: PossibleMoves|
                #![trigger spec_apply(queue@[i]@, mv2)]
                0 <= i < head && legal_seq(queue@[i]@, mv2) implies record@.dom().contains(
                key_of(spec_apply(queue@[i]@, mv2)),
            ) && depth_of(record@[key_of(spec_apply(queue@[i]@, mv2))]) <= depth_of(
                record@[key_of(queue@[i]@)],
            ) + 1 by {
                if i == h {
                    // each direction is covered by its own expansion call
                    match mv2 {
                        PossibleMoves::UP => {},
                        PossibleMoves::DOWN => {},
                        PossibleMoves::LEFT => {},
                        PossibleMoves::RIGHT => {},
                    }
                }
            }
            assert forall|i: int|
                head <= i < queue@.len() implies depth_of(
                record@[key_of((#[trigger] queue@[i])@)],
            ) <= depth_of(record@[key_of(queue@[head as int]@)]) + 1 by {
                assert(depth_of(record@[key_of(queue@[i]@)]) <= depth_of(
                    record@[key_of(queue@[h]@)],
                ) + 1);
                assert(depth_of(record@[key_of(queue@[h]@)]) <= depth_of(
                    record@[key_of(queue@[head as int]@)],
                ));
            }
        }
    }
    proof {
        assert forall|p: Seq<PossibleMoves>|
            replay_ok(init@, p) implies replay(init@, p) != sorted_seq() by {
            lemma_exhausted_no_path(queue@, record@, init@, init@, p);
        }
    }
    SolveOutcome::Unsolvable
}

} // verus!
