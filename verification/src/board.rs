//! The board: one configuration of the 4x4 sliding-tile grid.
//!
//! A board holds the 16 cell values in row-major order. The values are a
//! permutation of {0, ..., 15}; the value 0 marks the empty cell. A move
//! never mutates a board: applying a direction returns a new value.

use vstd::prelude::*;
use vstd::seq_lib::*;
use vstd::set_lib::*;
use vstd::string::StringExecFns;

use crate::moves::{col_of, inverse_move, legal_at, lemma_target_inverse, target_at, PossibleMoves};

verus! {

/// The fields 0 through 15 in order: what a fresh deck of tiles holds
/// before it is shuffled.
pub open spec fn ordered_fields() -> Seq<u8> {
    Seq::new(16, |i: int| i as u8)
}

/// A list holding the same values as the fields 0 through 15, in any order,
/// is a permutation of {0, ..., 15}.
pub proof fn lemma_multiset_permutation(s: Seq<u8>)
    requires
        s.to_multiset() == ordered_fields().to_multiset(),
    ensures
        is_permutation(s),
{
    let base = ordered_fields();
    s.to_multiset_ensures();
    base.to_multiset_ensures();
    assert(s.len() == 16);
    assert forall|i: int| 0 <= i < 16 implies s[i] < 16 by {
        assert(s.contains(s[i]));
        assert(base.to_multiset().count(s[i]) > 0);
        assert(base.contains(s[i]));
        let j = choose|j: int| 0 <= j < 16 && base[j] == s[i];
        assert(base[j] == j as u8);
    }
    assert(base.no_duplicates()) by {
        assert forall|i: int, j: int|
            0 <= i < 16 && 0 <= j < 16 && i != j implies base[i] != base[j] by {}
    }
    base.lemma_multiset_has_no_duplicates();
    assert forall|x: u8| s.to_multiset().contains(x) implies s.to_multiset().count(x) == 1 by {
        assert(base.to_multiset().contains(x));
    }
    s.lemma_multiset_has_no_duplicates_conv();
}

/// Why a field list was rejected.
#[derive(Clone, Copy, Debug, PartialEq, Eq, Structural)]
pub enum ValidationError {
    /// The list does not hold exactly 16 values.
    WrongCount,
    /// Some value is not in 0..=15.
    OutOfRange,
    /// Some value appears more than once.
    Duplicate,
}

/// A sequence of cell values forms a board exactly when it is a permutation
/// of {0, ..., 15}: 16 values, each below 16, none repeated.
pub open spec fn is_permutation(s: Seq<u8>) -> bool {
    &&& s.len() == 16
    &&& forall|i: int| 0 <= i < 16 ==> s[i] < 16
    &&& s.no_duplicates()
}

/// The slot holding the empty cell (value 0).
pub open spec fn empty_of(s: Seq<u8>) -> int {
    choose|i: int| 0 <= i < s.len() && s[i] == 0
}

/// The goal configuration: slot `i` holds `i + 1`, and the last slot is
/// empty.
pub open spec fn sorted_seq() -> Seq<u8> {
    Seq::new(16, |i: int| if i == 15 { 0u8 } else { (i + 1) as u8 })
}

/// Whether the empty cell of `s` can travel in direction `m`.
pub open spec fn legal_seq(s: Seq<u8>, m: PossibleMoves) -> bool {
    legal_at(empty_of(s), m)
}

/// The configuration after the empty cell of `s` travels in direction `m`:
/// the empty cell and the tile on the slot it moves to exchange places.
pub open spec fn spec_apply(s: Seq<u8>, m: PossibleMoves) -> Seq<u8> {
    let e = empty_of(s);
    let t = target_at(e, m);
    s.update(e, s[t]).update(t, 0u8)
}

/// A 16-slot repetition-free list of values below 16 must hold a 0
/// somewhere: fifteen nonzero values cannot fill sixteen distinct slots.
pub proof fn lemma_permutation_has_empty(s: Seq<u8>)
    requires
        s.len() == 16,
        forall|i: int| 0 <= i < 16 ==> s[i] < 16,
        s.no_duplicates(),
    ensures
        exists|i: int| 0 <= i < s.len() && s[i] == 0,
{
    broadcast use seq_to_set_is_finite;

    let si = s.map_values(|v: u8| v as int);
    assert(si.no_duplicates()) by {
        assert forall|i: int, j: int|
            0 <= i < 16 && 0 <= j < 16 && i != j implies si[i] != si[j] by {
            assert(s[i] != s[j]);
        }
    }
    si.unique_seq_to_set();
    if !(exists|i: int| 0 <= i < s.len() && s[i] == 0) {
        assert(si.to_set().subset_of(set_int_range(1, 16))) by {
            assert forall|x: int| si.to_set().contains(x) implies set_int_range(
                1,
                16,
            ).contains(x) by {
                let i = choose|i: int| 0 <= i < si.len() && si[i] == x;
                assert(s[i] < 16);
                assert(s[i] != 0);
            }
        }
        lemma_int_range(1, 16);
        lemma_len_subset(si.to_set(), set_int_range(1, 16));
        assert(false);
    }
}

/// Law: a permutation holds the empty cell in exactly one slot, and
/// `empty_of` names it.
pub proof fn lemma_unique_empty(s: Seq<u8>)
    requires
        is_permutation(s),
    ensures
        0 <= empty_of(s) < 16,
        s[empty_of(s)] == 0,
        forall|i: int| 0 <= i < 16 && s[i] == 0 ==> i == empty_of(s),
{
    lemma_permutation_has_empty(s);
    let e = empty_of(s);
    assert(0 <= e < s.len() && s[e] == 0);
    assert forall|i: int| 0 <= i < 16 && s[i] == 0 implies i == e by {
        if i != e {
            assert(s[i] != s[e]);
        }
    }
}

/// Exchanging two distinct slots of a permutation yields a permutation.
pub proof fn lemma_swap_permutation(s: Seq<u8>, a: int, b: int)
    requires
        is_permutation(s),
        0 <= a < 16,
        0 <= b < 16,
        a != b,
    ensures
        is_permutation(s.update(a, s[b]).update(b, s[a])),
{
    let t = s.update(a, s[b]).update(b, s[a]);
    assert forall|i: int, j: int|
        0 <= i < 16 && 0 <= j < 16 && i != j implies t[i] != t[j] by {
        assert(t[i] == if i == b { s[a] } else if i == a { s[b] } else { s[i] });
        assert(t[j] == if j == b { s[a] } else if j == a { s[b] } else { s[j] });
    }
}

/// Law: applying a legal move and then its inverse returns the original
/// board configuration.
pub proof fn lemma_apply_inverse(s: Seq<u8>, m: PossibleMoves)
    requires
        is_permutation(s),
        legal_seq(s, m),
    ensures
        is_permutation(spec_apply(s, m)),
        legal_seq(spec_apply(s, m), inverse_move(m)),
        spec_apply(spec_apply(s, m), inverse_move(m)) == s,
{
    lemma_unique_empty(s);
    let e = empty_of(s);
    let t = target_at(e, m);
    lemma_target_inverse(e, m);
    lemma_swap_permutation(s, e, t);
    let s2 = spec_apply(s, m);
    assert(s2 =~= s.update(e, s[t]).update(t, s[e]));
    lemma_unique_empty(s2);
    assert(s2[t] == 0);
    assert(empty_of(s2) == t);
    let s3 = spec_apply(s2, inverse_move(m));
    assert(s3 =~= s);
}

/// One configuration of the 4x4 grid. The cells are a permutation of
/// {0, ..., 15} in row-major order; the slot of the empty cell is cached
/// for O(1) move-legality checks.
#[derive(Debug)]
pub struct Board {
    cells: Vec<u8>,
    empty_index: usize,
}

impl View for Board {
    type V = Seq<u8>;

    closed spec fn view(&self) -> Seq<u8> {
        self.cells@
    }
}

impl PartialEq for Board {
    fn eq(&self, other: &Board) -> (r: bool) {
        let r = self.cells == other.cells;
        proof {
            if self.cells@ =~= other.cells@ {
                assert(self.cells@ == other.cells@);
            }
        }
        r
    }
}

impl vstd::std_specs::cmp::PartialEqSpecImpl for Board {
    open spec fn obeys_eq_spec() -> bool {
        true
    }

    open spec fn eq_spec(&self, other: &Board) -> bool {
        self@ == other@
    }
}

/// Copies a list of cell values.
fn copy_cells(v: &Vec<u8>) -> (r: Vec<u8>)
    ensures
        r@ == v@,
{
    let mut r: Vec<u8> = Vec::new();
    let mut i: usize = 0;
    while i < v.len()
        invariant
            i <= v@.len(),
            r@.len() == i,
            forall|j: int| 0 <= j < i ==> r@[j] == v@[j],
        decreases v@.len() - i,
    {
        r.push(v[i]);
        i = i + 1;
    }
    proof {
        assert(r@ =~= v@);
    }
    r
}

impl Clone for Board {
    /// The copy shows the same cells and is valid whenever the original is.
    fn clone(&self) -> (r: Self)
        ensures
            r@ == self@,
            self.inv() ==> r.inv(),
    {
        Board { cells: copy_cells(&self.cells), empty_index: self.empty_index }
    }
}

impl Board {
    /// The cached empty slot points at the empty cell.
    pub closed spec fn empty_cached(&self) -> bool {
        self.empty_index < 16 && self.cells@[self.empty_index as int] == 0
    }

    /// A valid board: the cells form a permutation of {0, ..., 15} and the
    /// cached empty slot agrees with them.
    pub open spec fn inv(&self) -> bool {
        &&& is_permutation(self@)
        &&& self.empty_cached()
    }

    proof fn lemma_empty_agrees(&self)
        requires
            self.inv(),
        ensures
            empty_of(self@) == self.empty_index,
    {
        lemma_unique_empty(self@);
    }

    /// Builds a board holding `values[i]` in slot `i`. The list is accepted
    /// exactly when it is a permutation of {0, ..., 15}; otherwise the error
    /// names the first failed check: not 16 values, a value above 15, or a
    /// repeated value.
    pub fn from_field_list(values: &Vec<u8>) -> (r: Result<Board, ValidationError>)
        ensures
            r is Ok <==> is_permutation(values@),
            match r {
                Ok(b) => b.inv() && b@ == values@,
                Err(ValidationError::WrongCount) => values@.len() != 16,
                Err(ValidationError::OutOfRange) => values@.len() == 16 && exists|i: int|
                    0 <= i < 16 && values@[i] >= 16,
                Err(ValidationError::Duplicate) => values@.len() == 16 && (forall|i: int|
                    0 <= i < 16 ==> values@[i] < 16) && !values@.no_duplicates(),
            },
    {
        if values.len() != 16 {
            return Err(ValidationError::WrongCount);
        }
        let mut i: usize = 0;
        while i < 16
            invariant
                values@.len() == 16,
                i <= 16,
                forall|j: int| 0 <= j < i ==> values@[j] < 16,
            decreases 16 - i,
        {
            if values[i] >= 16 {
                return Err(ValidationError::OutOfRange);
            }
            i = i + 1;
        }
        let mut seen: Vec<bool> = vec![false; 16];
        let mut i: usize = 0;
        while i < 16
            invariant
                values@.len() == 16,
                i <= 16,
                seen@.len() == 16,
                forall|j: int| 0 <= j < 16 ==> values@[j] < 16,
                forall|v: int|
                    0 <= v < 16 ==> (#[trigger] seen@[v] <==> exists|j: int|
                        0 <= j < i && values@[j] == v),
                values@.take(i as int).no_duplicates(),
            decreases 16 - i,
        {
            let v = values[i] as usize;
            if seen[v] {
                proof {
                    let j = choose|j: int| 0 <= j < i && values@[j] == v;
                    assert(values@[j] == values@[i as int]);
                    assert(!values@.no_duplicates());
                }
                return Err(ValidationError::Duplicate);
            }
            seen.set(v, true);
            proof {
                let p = values@.take((i + 1) as int);
                assert forall|k: int, l: int|
                    0 <= k < p.len() && 0 <= l < p.len() && k != l implies p[k] != p[l] by {
                    assert(p[k] == values@[k]);
                    assert(p[l] == values@[l]);
                    if k < i && l < i {
                        assert(values@.take(i as int)[k] == values@[k]);
                        assert(values@.take(i as int)[l] == values@[l]);
                    } else if l == i {
                        assert(values@[k] != values@[i as int]);
                    } else {
                        assert(values@[l] != values@[i as int]);
                    }
                }
            }
            i = i + 1;
        }
        proof {
            assert(values@.take(16) =~= values@);
            lemma_permutation_has_empty(values@);
        }
        let mut empty: usize = 0;
        while values[empty] != 0
            invariant
                values@.len() == 16,
                empty < 16,
                forall|j: int| 0 <= j < empty ==> values@[j] != 0,
                exists|j: int| 0 <= j < 16 && values@[j] == 0,
            decreases 16 - empty,
        {
            empty = empty + 1;
            proof {
                if empty == 16 {
                    let j = choose|j: int| 0 <= j < 16 && values@[j] == 0;
                    assert(values@[j] != 0);
                }
            }
        }
        let cells = copy_cells(values);
        Ok(Board { cells, empty_index: empty })
    }

    /// The canonical goal board.
    pub fn sorted() -> (r: Board)
        ensures
            r.inv(),
            r@ == sorted_seq(),
    {
        let mut cells: Vec<u8> = Vec::new();
        let mut i: usize = 0;
        while i < 16
            invariant
                i <= 16,
                cells@.len() == i,
                forall|j: int| 0 <= j < i ==> cells@[j] == sorted_seq()[j],
            decreases 16 - i,
        {
            if i == 15 {
                cells.push(0);
            } else {
                cells.push((i + 1) as u8);
            }
            i = i + 1;
        }
        proof {
            assert(cells@ =~= sorted_seq());
            lemma_sorted_is_permutation();
        }
        Board { cells, empty_index: 15 }
    }

    /// The value in `slot`.
    pub fn get(&self, slot: usize) -> (r: u8)
        requires
            self.inv(),
            slot < 16,
        ensures
            r == self@[slot as int],
    {
        self.cells[slot]
    }

    /// The slot of the empty cell.
    pub fn empty_slot(&self) -> (r: usize)
        requires
            self.inv(),
        ensures
            r == empty_of(self@),
            r < 16,
    {
        proof {
            self.lemma_empty_agrees();
        }
        self.empty_index
    }

    /// Whether this board is the goal board.
    pub fn is_solved(&self) -> (r: bool)
        requires
            self.inv(),
        ensures
            r == (self@ == sorted_seq()),
    {
        let mut i: usize = 0;
        let mut ok = true;
        while i < 16
            invariant
                i <= 16,
                self.inv(),
                ok <==> forall|j: int| 0 <= j < i ==> self@[j] == sorted_seq()[j],
            decreases 16 - i,
        {
            let expected: u8 = if i == 15 {
                0
            } else {
                (i + 1) as u8
            };
            if self.get(i) != expected {
                ok = false;
            }
            i = i + 1;
        }
        proof {
            if ok {
                assert(self@ =~= sorted_seq());
            }
        }
        ok
    }

    /// Whether the empty cell can travel in direction `m`.
    pub fn can_move(&self, m: PossibleMoves) -> (r: bool)
        requires
            self.inv(),
        ensures
            r == legal_seq(self@, m),
    {
        proof {
            self.lemma_empty_agrees();
        }
        let e = self.empty_index;
        match m {
            PossibleMoves::UP => e / 4 > 0,
            PossibleMoves::DOWN => e / 4 < 3,
            PossibleMoves::LEFT => e % 4 > 0,
            PossibleMoves::RIGHT => e % 4 < 3,
        }
    }

    /// The legal directions, in the canonical order UP, DOWN, LEFT, RIGHT.
    pub fn legal_moves(&self) -> (r: Vec<PossibleMoves>)
        requires
            self.inv(),
        ensures
            r@ == legal_moves_seq(self@),
    {
        let mut r: Vec<PossibleMoves> = Vec::new();
        if self.can_move(PossibleMoves::UP) {
            r.push(PossibleMoves::UP);
        }
        if self.can_move(PossibleMoves::DOWN) {
            r.push(PossibleMoves::DOWN);
        }
        if self.can_move(PossibleMoves::LEFT) {
            r.push(PossibleMoves::LEFT);
        }
        if self.can_move(PossibleMoves::RIGHT) {
            r.push(PossibleMoves::RIGHT);
        }
        proof {
            assert(r@ =~= legal_moves_seq(self@));
        }
        r
    }

    /// A uniformly shuffled board, for demos and seeds of test games.
    pub fn random() -> (r: Board)
        ensures
            r.inv(),
    {
        let mut fields: Vec<u8> = Vec::new();
        let mut i: usize = 0;
        while i < 16
            invariant
                i <= 16,
                fields@.len() == i,
                forall|j: int| 0 <= j < i ==> fields@[j] == j as u8,
            decreases 16 - i,
        {
            fields.push(i as u8);
            i = i + 1;
        }
        proof {
            assert(fields@ =~= ordered_fields());
        }
        shuffle_in_place(&mut fields);
        proof {
            lemma_multiset_permutation(fields@);
        }
        match Board::from_field_list(&fields) {
            Ok(b) => b,
            Err(_) => {
                proof {
                    assert(false);
                }
                Board::sorted()
            },
        }
    }

    /// A printable grid: four rows of cell values, then a line naming the
    /// slot of the empty cell.
    pub fn render(&self) -> (r: String)
        requires
            self.inv(),
        ensures
            r@ == render_spec(self@),
    {
        let mut out = String::new();
        let mut i: usize = 0;
        while i < 16
            invariant
                self.inv(),
                i <= 16,
                out@ == grid_prefix(self@, i as int),
            decreases 16 - i,
        {
            let v = self.get(i);
            out.append(cell_str(v));
            if i % 4 == 3 {
                out.append("\n");
            } else {
                out.append(" ");
            }
            proof {
                reveal_strlit("\n");
                reveal_strlit(" ");
                assert(out@ =~= grid_prefix(self@, (i + 1) as int));
            }
            i = i + 1;
        }
        out.append("empty slot: ");
        let e = self.empty_slot();
        out.append(cell_str(e as u8));
        out.append("\n");
        proof {
            assert(out@ =~= render_spec(self@));
        }
        out
    }

    /// The board after the empty cell travels in direction `m`. The receiver
    /// is unchanged; the result is a new board with the empty cell and the
    /// tile it moves onto exchanged.
    pub fn apply(&self, m: PossibleMoves) -> (r: Board)
        requires
            self.inv(),
            legal_seq(self@, m),
        ensures
            r.inv(),
            r@ == spec_apply(self@, m),
    {
        proof {
            self.lemma_empty_agrees();
            lemma_unique_empty(self@);
            lemma_target_inverse(self.empty_index as int, m);
        }
        let e = self.empty_index;
        let t: usize = match m {
            PossibleMoves::UP => e - 4,
            PossibleMoves::DOWN => e + 4,
            PossibleMoves::LEFT => e - 1,
            PossibleMoves::RIGHT => e + 1,
        };
        let mut cells = copy_cells(&self.cells);
        let tile = cells[t];
        cells.set(e, tile);
        cells.set(t, 0);
        proof {
            lemma_swap_permutation(self@, e as int, t as int);
            assert(cells@ =~= self@.update(e as int, self@[t as int]).update(t as int, self@[e as int]));
            assert(cells@ =~= spec_apply(self@, m));
        }
        Board { cells, empty_index: t }
    }
}

/// The legal directions of a configuration, in the canonical order UP,
/// DOWN, LEFT, RIGHT.
pub open spec fn legal_moves_seq(s: Seq<u8>) -> Seq<PossibleMoves> {
    (if legal_seq(s, PossibleMoves::UP) {
        seq![PossibleMoves::UP]
    } else {
        Seq::<PossibleMoves>::empty()
    }) + (if legal_seq(s, PossibleMoves::DOWN) {
        seq![PossibleMoves::DOWN]
    } else {
        Seq::<PossibleMoves>::empty()
    }) + (if legal_seq(s, PossibleMoves::LEFT) {
        seq![PossibleMoves::LEFT]
    } else {
        Seq::<PossibleMoves>::empty()
    }) + (if legal_seq(s, PossibleMoves::RIGHT) {
        seq![PossibleMoves::RIGHT]
    } else {
        Seq::<PossibleMoves>::empty()
    })
}

/// Law: a direction is listed among the legal moves exactly when the empty
/// cell can travel that way.
pub proof fn lemma_legal_moves_complete(s: Seq<u8>, m: PossibleMoves)
    ensures
        legal_moves_seq(s).contains(m) <==> legal_seq(s, m),
{
    let r = legal_moves_seq(s);
    if legal_seq(s, m) {
        let up: int = if legal_seq(s, PossibleMoves::UP) { 1 } else { 0 };
        let down: int = if legal_seq(s, PossibleMoves::DOWN) { 1 } else { 0 };
        let left: int = if legal_seq(s, PossibleMoves::LEFT) { 1 } else { 0 };
        match m {
            PossibleMoves::UP => {
                assert(r[0] == PossibleMoves::UP);
            },
            PossibleMoves::DOWN => {
                assert(r[up] == PossibleMoves::DOWN);
            },
            PossibleMoves::LEFT => {
                assert(r[up + down] == PossibleMoves::LEFT);
            },
            PossibleMoves::RIGHT => {
                assert(r[up + down + left] == PossibleMoves::RIGHT);
            },
        }
    } else {
        if r.contains(m) {
            let i = choose|i: int| 0 <= i < r.len() && r[i] == m;
            assert(r[i] != m);
        }
    }
}

/// Relies on rand's `SliceRandom::shuffle`: it reorders the elements of the
/// slice in place, neither adding nor removing any.
#[verifier::external_body]
fn shuffle_in_place(v: &mut Vec<u8>)
    ensures
        final(v)@.to_multiset() == old(v)@.to_multiset(),
{
    let mut rng = rand::thread_rng();
    rand::seq::SliceRandom::shuffle(v.as_mut_slice(), &mut rng);
}

/// The decimal text of a cell value.
pub open spec fn cell_text(v: int) -> Seq<char> {
    if v == 0 {
        seq!['0']
    } else if v == 1 {
        seq!['1']
    } else if v == 2 {
        seq!['2']
    } else if v == 3 {
        seq!['3']
    } else if v == 4 {
        seq!['4']
    } else if v == 5 {
        seq!['5']
    } else if v == 6 {
        seq!['6']
    } else if v == 7 {
        seq!['7']
    } else if v == 8 {
        seq!['8']
    } else if v == 9 {
        seq!['9']
    } else if v == 10 {
        seq!['1', '0']
    } else if v == 11 {
        seq!['1', '1']
    } else if v == 12 {
        seq!['1', '2']
    } else if v == 13 {
        seq!['1', '3']
    } else if v == 14 {
        seq!['1', '4']
    } else if v == 15 {
        seq!['1', '5']
    } else {
        Seq::<char>::empty()
    }
}

/// One rendered cell and its separator: a blank inside a row, a line break
/// after the last column.
pub open spec fn cell_chunk(s: Seq<u8>, i: int) -> Seq<char> {
    cell_text(s[i] as int) + (if col_of(i) == 3 {
        seq!['\n']
    } else {
        seq![' ']
    })
}

/// The first `k` cells of the grid rendered in row-major order.
pub open spec fn grid_prefix(s: Seq<u8>, k: int) -> Seq<char>
    decreases k,
{
    if k <= 0 {
        Seq::<char>::empty()
    } else {
        grid_prefix(s, k - 1) + cell_chunk(s, k - 1)
    }
}

/// The rendered board: four rows of cells, then a line naming the slot of
/// the empty cell.
pub open spec fn render_spec(s: Seq<u8>) -> Seq<char> {
    grid_prefix(s, 16) + "empty slot: "@ + cell_text(empty_of(s)) + "\n"@
}

/// The decimal text of one cell value.
fn cell_str(v: u8) -> (r: &'static str)
    requires
        v < 16,
    ensures
        r@ == cell_text(v as int),
{
    let r: &'static str = match v {
        0 => "0",
        1 => "1",
        2 => "2",
        3 => "3",
        4 => "4",
        5 => "5",
        6 => "6",
        7 => "7",
        8 => "8",
        9 => "9",
        10 => "10",
        11 => "11",
        12 => "12",
        13 => "13",
        14 => "14",
        _ => "15",
    };
    proof {
        reveal_strlit("0");
        reveal_strlit("1");
        reveal_strlit("2");
        reveal_strlit("3");
        reveal_strlit("4");
        reveal_strlit("5");
        reveal_strlit("6");
        reveal_strlit("7");
        reveal_strlit("8");
        reveal_strlit("9");
        reveal_strlit("10");
        reveal_strlit("11");
        reveal_strlit("12");
        reveal_strlit("13");
        reveal_strlit("14");
        reveal_strlit("15");
        assert(r@ =~= cell_text(v as int));
    }
    r
}

/// The goal configuration is itself a permutation, with the empty cell on
/// the last slot.
pub proof fn lemma_sorted_is_permutation()
    ensures
        is_permutation(sorted_seq()),
        empty_of(sorted_seq()) == 15,
{
    let s = sorted_seq();
    assert forall|i: int, j: int|
        0 <= i < 16 && 0 <= j < 16 && i != j implies s[i] != s[j] by {}
    lemma_unique_empty(s);
    assert(s[15] == 0);
}

} // verus!
