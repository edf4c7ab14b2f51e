use vstd::prelude::*;

verus! {

use crate::cell::Cell;
use crate::cell::digit_mask;
use crate::cell::first_digit;
use crate::cell::lemma_count_zero;
use crate::cell::lemma_digit_mask_has;
use crate::cell::lemma_remove_count;
use crate::cell::lemma_solved_mask;
use crate::cell::lemma_submask_absent;
use crate::cell::lemma_submask_count;
use crate::cell::lemma_submask_refl;
use crate::cell::lemma_submask_trans;
use crate::cell::mask_count;
use crate::cell::mask_has;
use crate::cell::mask_wf;
use crate::cell::submask;
use crate::geometry::group_cell;
use crate::geometry::in_grid;
use crate::geometry::is_peer;
use crate::geometry::lemma_cell_in_row_group;
use crate::geometry::lemma_group_cell_in_grid;
use crate::geometry::lemma_group_cell_peer;
use crate::geometry::lemma_peer_group;
use crate::geometry::lemma_unit_group;
use crate::geometry::unit_group;
use crate::geometry::get_peers;
use crate::geometry::get_units;

/// All 81 cell masks carry only the nine digit bits.
pub open spec fn grid_wf(g: Seq<u16>) -> bool {
    g.len() == 81 && forall|i: int| 0 <= i < 81 ==> mask_wf(#[trigger] g[i])
}

/// No cell has run out of candidates.
pub open spec fn all_nonzero(g: Seq<u16>) -> bool {
    forall|i: int| 0 <= i < 81 ==> #[trigger] g[i] != 0
}

/// Every cell of `a` admits at most what the same cell of `b` admits.
pub open spec fn grid_sub(a: Seq<u16>, b: Seq<u16>) -> bool {
    a.len() == 81 && b.len() == 81 && forall|i: int|
        0 <= i < 81 ==> submask(#[trigger] a[i], b[i])
}

/// A solved cell's digit has been eliminated from all of its peers.
pub open spec fn cell_ok(g: Seq<u16>, i: int) -> bool {
    mask_count(g[i]) == 1 ==> forall|j: int|
        is_peer(i, j) ==> !mask_has(#[trigger] g[j], first_digit(g[i]))
}

/// Constraint closure: `cell_ok` at every cell.
pub open spec fn closed(g: Seq<u16>) -> bool {
    forall|i: int| 0 <= i < 81 ==> cell_ok(g, i)
}

/// A completely solved, rule-abiding grid: every cell holds exactly one digit
/// and peers never share one.
pub open spec fn is_solution(g: Seq<u16>) -> bool {
    grid_wf(g) && (forall|i: int| 0 <= i < 81 ==> mask_count(#[trigger] g[i]) == 1) && (forall|
        i: int,
        j: int,
    | is_peer(i, j) ==> first_digit(g[i]) != first_digit(g[j]))
}

/// Grid `g` still admits the solution `sol`: each cell's solved digit is a candidate.
pub open spec fn admits(g: Seq<u16>, sol: Seq<u16>) -> bool {
    forall|i: int| 0 <= i < 81 ==> mask_has(#[trigger] g[i], first_digit(sol[i]))
}

/// What every successful propagation step guarantees, going from state `b` to
/// state `a`: candidates only shrink, solved cells are frozen, no cell is
/// emptied, and constraint closure is preserved.
pub open spec fn step_ok(a: Seq<u16>, b: Seq<u16>) -> bool {
    grid_sub(a, b) && (forall|k: int| 0 <= k < 81 && mask_count(#[trigger] b[k]) == 1 ==> a[k]
        == b[k]) && (forall|k: int| 0 <= k < 81 && #[trigger] b[k] != 0 ==> a[k] != 0) && (forall|
        k: int,
    | 0 <= k < 81 && cell_ok(b, k) ==> cell_ok(a, k))
}

/// Total number of candidates left across the whole grid: the potential
/// function that propagation strictly shrinks.
pub open spec fn total(g: Seq<u16>) -> int
    decreases g.len(),
{
    if g.len() == 0 {
        0
    } else {
        total(g.drop_last()) + mask_count(g.last())
    }
}

pub proof fn lemma_total_nonneg(g: Seq<u16>)
    ensures
        total(g) >= 0,
    decreases g.len(),
{
    if g.len() > 0 {
        lemma_total_nonneg(g.drop_last());
    }
}

pub proof fn lemma_total_le(a: Seq<u16>, b: Seq<u16>)
    requires
        a.len() == b.len(),
        forall|i: int| 0 <= i < a.len() ==> mask_count(#[trigger] a[i]) <= mask_count(b[i]),
    ensures
        total(a) <= total(b),
    decreases a.len(),
{
    if a.len() > 0 {
        lemma_total_le(a.drop_last(), b.drop_last());
    }
}

pub proof fn lemma_total_lt(a: Seq<u16>, b: Seq<u16>, j: int)
    requires
        a.len() == b.len(),
        forall|i: int| 0 <= i < a.len() ==> mask_count(#[trigger] a[i]) <= mask_count(b[i]),
        0 <= j < a.len(),
        mask_count(a[j]) < mask_count(b[j]),
    ensures
        total(a) < total(b),
    decreases a.len(),
{
    if j == a.len() - 1 {
        lemma_total_le(a.drop_last(), b.drop_last());
    } else {
        lemma_total_lt(a.drop_last(), b.drop_last(), j);
    }
}

pub proof fn lemma_total_update(g: Seq<u16>, i: int, m: u16)
    requires
        0 <= i < g.len(),
    ensures
        total(g.update(i, m)) == total(g) - mask_count(g[i]) + mask_count(m),
    decreases g.len(),
{
    let g2 = g.update(i, m);
    if i == g.len() - 1 {
        assert(g2.drop_last() =~= g.drop_last());
        assert(g2.last() == m);
    } else {
        assert(g2.drop_last() =~= g.drop_last().update(i, m));
        lemma_total_update(g.drop_last(), i, m);
    }
}

/// A grid whose cells all hold `c` candidates totals `c` per cell.
pub proof fn lemma_total_uniform(g: Seq<u16>, c: int)
    requires
        forall|i: int| 0 <= i < g.len() ==> mask_count(#[trigger] g[i]) == c,
    ensures
        total(g) == c * g.len(),
    decreases g.len(),
{
    if g.len() == 0 {
    } else {
        lemma_total_uniform(g.drop_last(), c);
        assert(c * g.len() == c * (g.len() - 1) + c) by (nonlinear_arith);
    }
}

pub proof fn lemma_step_refl(g: Seq<u16>)
    requires
        g.len() == 81,
    ensures
        step_ok(g, g),
{
    assert forall|i: int| 0 <= i < 81 implies submask(#[trigger] g[i], g[i]) by {
        lemma_submask_refl(g[i]);
    }
}

pub proof fn lemma_step_trans(a: Seq<u16>, b: Seq<u16>, c: Seq<u16>)
    requires
        step_ok(b, c),
        step_ok(a, b),
    ensures
        step_ok(a, c),
{
    assert forall|i: int| 0 <= i < 81 implies submask(#[trigger] a[i], c[i]) by {
        lemma_submask_trans(a[i], b[i], c[i]);
    }
}

pub proof fn lemma_grid_sub_trans(a: Seq<u16>, b: Seq<u16>, c: Seq<u16>)
    requires
        grid_sub(a, b),
        grid_sub(b, c),
    ensures
        grid_sub(a, c),
{
    assert forall|i: int| 0 <= i < 81 implies submask(#[trigger] a[i], c[i]) by {
        lemma_submask_trans(a[i], b[i], c[i]);
    }
}

pub proof fn lemma_grid_sub_total(a: Seq<u16>, b: Seq<u16>)
    requires
        grid_sub(a, b),
    ensures
        total(a) <= total(b),
{
    assert forall|i: int| 0 <= i < 81 implies mask_count(#[trigger] a[i]) <= mask_count(b[i]) by {
        lemma_submask_count(a[i], b[i]);
    }
    lemma_total_le(a, b);
}

/// A full solution keeps exactly one candidate per cell: 81 in all, down from
/// the 729 of the fully open grid.
pub proof fn lemma_solution_total(g: Seq<u16>)
    requires
        is_solution(g),
    ensures
        total(g) == 81,
{
    lemma_total_uniform(g, 1);
}

/// A closed grid with no empty and no undecided cells obeys all the rules.
pub proof fn lemma_propagated_solution(g: Seq<u16>)
    requires
        grid_wf(g),
        all_nonzero(g),
        closed(g),
        forall|i: int| 0 <= i < 81 ==> mask_count(#[trigger] g[i]) <= 1,
    ensures
        is_solution(g),
{
    assert forall|i: int| 0 <= i < 81 implies mask_count(#[trigger] g[i]) == 1 by {
        lemma_count_zero(g[i]);
    }
    assert forall|i: int, j: int| is_peer(i, j) implies first_digit(g[i]) != first_digit(g[j]) by {
        assert(cell_ok(g, i));
        assert(!mask_has(g[j], first_digit(g[i])));
        lemma_solved_mask(g[j]);
    }
}

/// How many of the first `k` cells of group `u` still admit digit `d`.
pub open spec fn group_admit_prefix(g: Seq<u16>, u: int, d: u32, k: int) -> int
    decreases k,
{
    if k <= 0 {
        0
    } else {
        group_admit_prefix(g, u, d, k - 1) + if mask_has(g[group_cell(u, k - 1)], d) {
            1int
        } else {
            0int
        }
    }
}

/// How many of the nine cells of group `u` still admit digit `d`.
pub open spec fn group_admits(g: Seq<u16>, u: int, d: u32) -> int {
    group_admit_prefix(g, u, d, 9)
}

/// Going from state `b` to state `a`, no digit lost its last place in any group.
pub open spec fn units_live(a: Seq<u16>, b: Seq<u16>) -> bool {
    forall|u: int, d: u32|
        0 <= u < 27 && 1 <= d <= 9 && #[trigger] group_admits(b, u, d) >= 1 ==> group_admits(
            a,
            u,
            d,
        ) >= 1
}

proof fn lemma_group_admits_exists_aux(g: Seq<u16>, u: int, d: u32, k: int)
    ensures
        group_admit_prefix(g, u, d, k) >= 0,
        group_admit_prefix(g, u, d, k) >= 1 <==> exists|k2: int|
            0 <= k2 < k && mask_has(g[#[trigger] group_cell(u, k2)], d),
    decreases k,
{
    if k > 0 {
        lemma_group_admits_exists_aux(g, u, d, k - 1);
        if group_admit_prefix(g, u, d, k) >= 1 && !mask_has(g[group_cell(u, k - 1)], d) {
            let k2 = choose|k2: int| 0 <= k2 < k - 1 && mask_has(g[#[trigger] group_cell(u, k2)], d);
            assert(mask_has(g[group_cell(u, k2)], d));
        }
    }
}

/// A group admits a digit somewhere exactly when its count is positive.
pub proof fn lemma_group_admits_exists(g: Seq<u16>, u: int, d: u32)
    ensures
        group_admits(g, u, d) >= 1 <==> exists|k2: int|
            0 <= k2 < 9 && mask_has(g[#[trigger] group_cell(u, k2)], d),
{
    lemma_group_admits_exists_aux(g, u, d, 9);
}

proof fn lemma_group_admits_eq_aux(g1: Seq<u16>, u1: int, g2: Seq<u16>, u2: int, d: u32, k: int)
    requires
        forall|k2: int|
            0 <= k2 < 9 ==> mask_has(g1[#[trigger] group_cell(u1, k2)], d) == mask_has(
                g2[group_cell(u2, k2)],
                d,
            ),
        k <= 9,
    ensures
        group_admit_prefix(g1, u1, d, k) == group_admit_prefix(g2, u2, d, k),
    decreases k,
{
    if k > 0 {
        lemma_group_admits_eq_aux(g1, u1, g2, u2, d, k - 1);
    }
}

/// Groups that list the same admissions for a digit count it the same.
pub proof fn lemma_group_admits_eq(g1: Seq<u16>, u1: int, g2: Seq<u16>, u2: int, d: u32)
    requires
        forall|k2: int|
            0 <= k2 < 9 ==> mask_has(g1[#[trigger] group_cell(u1, k2)], d) == mask_has(
                g2[group_cell(u2, k2)],
                d,
            ),
    ensures
        group_admits(g1, u1, d) == group_admits(g2, u2, d),
{
    lemma_group_admits_eq_aux(g1, u1, g2, u2, d, 9);
}

/// The groups a cell belongs to are exactly the ones behind its three units.
pub proof fn lemma_groups_of_cell(u: int, k: int, i: int)
    requires
        0 <= u < 27,
        0 <= k < 9,
        group_cell(u, k) == i,
    ensures
        in_grid(i),
        u == unit_group(i, 0) || u == unit_group(i, 1) || u == unit_group(i, 2),
{
    lemma_group_cell_in_grid(u, k);
    if u < 9 {
        crate::geometry::lemma_rc(u, k);
    } else if u < 18 {
        crate::geometry::lemma_rc(k, u - 9);
    } else {
        crate::geometry::lemma_box_cell(u - 18, k);
    }
}

/// The nine indices `start .. start + 9` of `nbr` list the cells of group `u`.
pub open spec fn is_group_block(nbr: Seq<usize>, start: int, u: int) -> bool {
    0 <= u < 27 && start + 9 <= nbr.len() && forall|k: int|
        0 <= k < 9 ==> #[trigger] nbr[start + k] == group_cell(u, k) as usize
}

/// Union of the digit bits that a solution places on the first `n` cells of group `u`.
pub open spec fn digits_union(sol: Seq<u16>, u: int, n: int) -> u16
    decreases n,
{
    if n <= 0 {
        0u16
    } else {
        digits_union(sol, u, n - 1) | digit_mask(first_digit(sol[group_cell(u, n - 1)]))
    }
}

proof fn lemma_group_digit_aux(sol: Seq<u16>, u: int, n: int)
    requires
        is_solution(sol),
        0 <= u < 27,
        0 <= n <= 9,
    ensures
        mask_wf(digits_union(sol, u, n)),
        mask_count(digits_union(sol, u, n)) == n,
        forall|w: u32|
            mask_has(digits_union(sol, u, n), w) <==> exists|k: int|
                0 <= k < n && first_digit(sol[#[trigger] group_cell(u, k)]) == w,
    decreases n,
{
    if n == 0 {
        crate::cell::lemma_zero_mask();
    } else {
        lemma_group_digit_aux(sol, u, n - 1);
        let prev = digits_union(sol, u, n - 1);
        lemma_group_cell_in_grid(u, n - 1);
        let i = group_cell(u, n - 1);
        let f = first_digit(sol[i]);
        lemma_solved_mask(sol[i]);
        lemma_digit_mask_has(f, f);
        if mask_has(prev, f) {
            let k = choose|k: int| 0 <= k < n - 1 && first_digit(sol[#[trigger] group_cell(u, k)]) == f;
            lemma_group_cell_peer(u, k, n - 1);
            assert(false);
        }
        crate::cell::lemma_count_disjoint_union(prev, digit_mask(f));
        crate::cell::lemma_mask_or(prev, digit_mask(f));
        assert forall|w: u32|
            mask_has(digits_union(sol, u, n), w) <==> exists|k: int|
                0 <= k < n && first_digit(sol[#[trigger] group_cell(u, k)]) == w by {
            lemma_digit_mask_has(f, w);
            if mask_has(digits_union(sol, u, n), w) {
                if mask_has(prev, w) {
                    let k = choose|k: int|
                        0 <= k < n - 1 && first_digit(sol[#[trigger] group_cell(u, k)]) == w;
                    assert(first_digit(sol[group_cell(u, k)]) == w);
                } else {
                    assert(first_digit(sol[group_cell(u, n - 1)]) == w);
                }
            }
        }
    }
}

/// In any full solution, every digit appears somewhere in every group.
pub proof fn lemma_group_digit(sol: Seq<u16>, u: int, d: u32)
    requires
        is_solution(sol),
        0 <= u < 27,
        1 <= d <= 9,
    ensures
        exists|k: int| 0 <= k < 9 && first_digit(sol[#[trigger] group_cell(u, k)]) == d,
{
    lemma_group_digit_aux(sol, u, 9);
    let m = digits_union(sol, u, 9);
    crate::cell::lemma_count_nine(m);
    crate::cell::lemma_full_mask();
    assert(mask_has(m, d));
}

/// The whitespace that `parse` strips: the characters with the Unicode
/// white-space property.
pub open spec fn is_space(c: char) -> bool {
    c as u32 == 0x20 || (0x09 <= c as u32 && c as u32 <= 0x0D) || c as u32 == 0x85 || c as u32
        == 0xA0 || c as u32 == 0x1680 || (0x2000 <= c as u32 && c as u32 <= 0x200A) || c as u32
        == 0x2028 || c as u32 == 0x2029 || c as u32 == 0x202F || c as u32 == 0x205F || c as u32
        == 0x3000
}

/// The characters of `s` that are not whitespace, in order.
pub open spec fn significant(s: Seq<char>) -> Seq<char>
    decreases s.len(),
{
    if s.len() == 0 {
        Seq::empty()
    } else if is_space(s.last()) {
        significant(s.drop_last())
    } else {
        significant(s.drop_last()).push(s.last())
    }
}

/// The digit a puzzle character pre-fills, or 0 when it leaves the cell open.
pub open spec fn clue_digit(c: char) -> u32 {
    if 49 <= c as u32 && c as u32 <= 57 {
        (c as u32 - 48) as u32
    } else {
        0
    }
}

/// Every pre-filled cell of the puzzle ended up solved to its clue digit.
pub open spec fn clues_solved(g: Seq<u16>, sig: Seq<char>) -> bool {
    forall|i: int|
        0 <= i < 81 && clue_digit(#[trigger] sig[i]) >= 1 ==> g[i] == digit_mask(
            clue_digit(sig[i]),
        )
}

/// The solution agrees with every clue of the puzzle text.
pub open spec fn matches_clues(sol: Seq<u16>, sig: Seq<char>) -> bool {
    forall|i: int|
        0 <= i < 81 && clue_digit(#[trigger] sig[i]) >= 1 ==> first_digit(sol[i]) == clue_digit(
            sig[i],
        )
}

/// How a solved or open cell prints.
pub open spec fn digit_char(v: u32) -> char {
    if v == 1 {
        '1'
    } else if v == 2 {
        '2'
    } else if v == 3 {
        '3'
    } else if v == 4 {
        '4'
    } else if v == 5 {
        '5'
    } else if v == 6 {
        '6'
    } else if v == 7 {
        '7'
    } else if v == 8 {
        '8'
    } else if v == 9 {
        '9'
    } else {
        '.'
    }
}

pub open spec fn render_char(m: u16) -> char {
    if mask_count(m) == 1 {
        digit_char(first_digit(m))
    } else {
        '.'
    }
}

/// Nine lines of nine characters: digits for solved cells, dots for open ones.
pub open spec fn spec_render(g: Seq<u16>) -> Seq<char> {
    Seq::new(
        90,
        |p: int|
            if p % 10 == 9 {
                '\n'
            } else {
                render_char(g[(p / 10) * 9 + p % 10])
            },
    )
}

fn is_space_char(c: char) -> (r: bool)
    ensures
        r == is_space(c),
{
    let u = c as u32;
    u == 0x20 || (0x09 <= u && u <= 0x0D) || u == 0x85 || u == 0xA0 || u == 0x1680 || (0x2000 <= u
        && u <= 0x200A) || u == 0x2028 || u == 0x2029 || u == 0x202F || u == 0x205F || u == 0x3000
}

/// Relies on String::push: appends exactly the one character to the string.
#[verifier::external_body]
fn push_char(s: &mut String, c: char)
    ensures
        final(s)@ == old(s)@.push(c),
{
    s.push(c);
}

/// A digit's printed character is no whitespace, and reads back as that digit.
proof fn lemma_digit_char_clue(v: u32)
    requires
        1 <= v <= 9,
    ensures
        !is_space(digit_char(v)),
        clue_digit(digit_char(v)) == v,
{
}

/// In the rendering of a fully solved grid, the significant characters of the
/// first `p` positions are exactly the digits of the first cells, in order.
proof fn lemma_sig_render(g: Seq<u16>, p: int)
    requires
        grid_wf(g),
        forall|i: int| 0 <= i < 81 ==> mask_count(#[trigger] g[i]) == 1,
        0 <= p <= 90,
    ensures
        significant(spec_render(g).take(p)).len() == p - p / 10,
        forall|q: int|
            0 <= q < p - p / 10 ==> significant(spec_render(g).take(p))[q] == render_char(g[q]),
    decreases p,
{
    if p == 0 {
        assert(spec_render(g).take(0) =~= Seq::<char>::empty());
    } else {
        lemma_sig_render(g, p - 1);
        let s = spec_render(g);
        let t = s.take(p);
        assert(t.drop_last() =~= s.take(p - 1));
        assert(t.last() == s[p - 1]);
        vstd::arithmetic::div_mod::lemma_fundamental_div_mod(p - 1, 10);
        let tq = (p - 1) / 10;
        let rr = (p - 1) % 10;
        if rr == 9 {
            vstd::arithmetic::div_mod::lemma_fundamental_div_mod_converse(p, 10, tq + 1, 0);
        } else {
            let ci = tq * 9 + rr;
            assert(0 <= ci < 81);
            lemma_solved_mask(g[ci]);
            lemma_digit_char_clue(first_digit(g[ci]));
            vstd::arithmetic::div_mod::lemma_fundamental_div_mod_converse(p, 10, tq, rr + 1);
            assert(ci == (p - 1) - tq);
        }
    }
}

/// The grid: 81 cells of candidate masks, row-major.
pub struct Sudoku {
    cells: Vec<Cell>,
}

impl Sudoku {
    /// The grid state as a sequence of 81 candidate masks.
    pub closed spec fn grid(self) -> Seq<u16> {
        self.cells@.map_values(|c: Cell| c.possible)
    }

    pub open spec fn wf(self) -> bool {
        grid_wf(self.grid())
    }

    /// The grid is in the state constraint propagation maintains: nothing has
    /// run dry and every solved digit is gone from its peers.
    pub open spec fn propagated(self) -> bool {
        self.wf() && all_nonzero(self.grid()) && closed(self.grid())
    }

    /// The fully open grid: every digit possible in every cell.
    pub fn new_open() -> (r: Sudoku)
        ensures
            r.wf(),
            r.grid().len() == 81,
            forall|i: int| 0 <= i < 81 ==> #[trigger] r.grid()[i] == 511u16,
            all_nonzero(r.grid()),
            closed(r.grid()),
            total(r.grid()) == 729,
    {
        let mut cells: Vec<Cell> = Vec::new();
        let mut k: usize = 0;
        while k < 81
            invariant
                k <= 81,
                cells@.len() == k,
                forall|i: int| 0 <= i < k ==> #[trigger] cells@[i].possible == 511u16,
            decreases 81 - k,
        {
            cells.push(Cell::open());
            k += 1;
        }
        let r = Sudoku { cells };
        proof {
            assert forall|i: int| 0 <= i < 81 implies #[trigger] r.grid()[i] == 511u16 by {
                assert(r.grid()[i] == cells@[i].possible);
            }
            assert forall|i: int| 0 <= i < 81 implies mask_count(#[trigger] r.grid()[i]) == 9 by {
                crate::cell::lemma_full_mask();
            }
            lemma_total_uniform(r.grid(), 9);
        }
        r
    }

    /// An independent copy of the grid: search branches never share cell state.
    pub fn duplicate(&self) -> (r: Sudoku)
        ensures
            r.grid() == self.grid(),
    {
        let mut cells: Vec<Cell> = Vec::new();
        let mut k: usize = 0;
        let n = self.cells.len();
        while k < n
            invariant
                k <= n,
                n == self.cells@.len(),
                cells@.len() == k,
                forall|i: int| 0 <= i < k ==> #[trigger] cells@[i] == self.cells@[i],
            decreases n - k,
        {
            let c = self.cells[k];
            cells.push(c);
            k += 1;
        }
        let r = Sudoku { cells };
        proof {
            assert(r.grid() =~= self.grid());
        }
        r
    }

    /// Grids are equal exactly when all their cell masks are.
    pub fn eq_grid(&self, other: &Sudoku) -> (r: bool)
        ensures
            r == (self.grid() =~= other.grid()),
    {
        if self.cells.len() != other.cells.len() {
            return false;
        }
        let n = self.cells.len();
        let mut k: usize = 0;
        while k < n
            invariant
                k <= n,
                n == self.cells@.len(),
                n == other.cells@.len(),
                forall|i: int| 0 <= i < k ==> self.grid()[i] == other.grid()[i],
            decreases n - k,
        {
            if self.cells[k].possible != other.cells[k].possible {
                assert(self.grid()[k as int] != other.grid()[k as int]);
                return false;
            }
            k += 1;
        }
        true
    }

    /// Commits `value` to cell `i` by eliminating every other digit there.
    /// Returns false as soon as a contradiction shows up.
    pub fn fill(&mut self, i: usize, value: u32) -> (r: bool)
        requires
            old(self).wf(),
            i < 81,
            1 <= value <= 9,
        ensures
            final(self).wf(),
            grid_sub(final(self).grid(), old(self).grid()),
            total(final(self).grid()) <= total(old(self).grid()),
            r ==> step_ok(final(self).grid(), old(self).grid()),
            r ==> units_live(final(self).grid(), old(self).grid()),
            r ==> submask(final(self).grid()[i as int], digit_mask(value)),
            r && old(self).grid()[i as int] != 0 ==> final(self).grid()[i as int] == digit_mask(
                value,
            ) && mask_count(final(self).grid()[i as int]) == 1 && first_digit(
                final(self).grid()[i as int],
            ) == value,
            forall|sol: Seq<u16>|
                is_solution(sol) && admits(old(self).grid(), sol) && first_digit(sol[i as int])
                    == value ==> r && admits(final(self).grid(), sol),
        decreases total(old(self).grid()), 1int,
    {
        let ghost g0 = self.grid();
        proof {
            lemma_step_refl(g0);
        }
        let mut n: u32 = 1;
        while n <= 9
            invariant
                self.wf(),
                i < 81,
                1 <= value <= 9,
                1 <= n <= 10,
                g0 == old(self).grid(),
                grid_wf(g0),
                step_ok(self.grid(), g0),
                units_live(self.grid(), g0),
                forall|w: u32| 1 <= w < n && w != value ==> !mask_has(self.grid()[i as int], w),
                forall|sol: Seq<u16>|
                    is_solution(sol) && admits(g0, sol) && first_digit(sol[i as int]) == value
                        ==> admits(self.grid(), sol),
            decreases 10 - n,
        {
            if n != value {
                let ghost gpre = self.grid();
                proof {
                    lemma_grid_sub_total(gpre, g0);
                    lemma_total_nonneg(gpre);
                }
                let ok = self.eliminate(i, n);
                if !ok {
                    proof {
                        lemma_grid_sub_trans(self.grid(), gpre, g0);
                        lemma_grid_sub_total(self.grid(), gpre);
                        lemma_grid_sub_total(gpre, g0);
                        assert forall|sol: Seq<u16>|
                            is_solution(sol) && admits(g0, sol) && first_digit(sol[i as int])
                                == value implies false by {
                            assert(admits(gpre, sol));
                        }
                    }
                    return false;
                }
                proof {
                    lemma_step_trans(self.grid(), gpre, g0);
                    lemma_grid_sub_total(self.grid(), gpre);
                    assert forall|uu: int, d: u32|
                        0 <= uu < 27 && 1 <= d <= 9 && #[trigger] group_admits(g0, uu, d)
                            >= 1 implies group_admits(self.grid(), uu, d) >= 1 by {
                        assert(group_admits(gpre, uu, d) >= 1);
                    }
                    assert forall|w: u32|
                        1 <= w < n + 1 && w != value implies !mask_has(
                        self.grid()[i as int],
                        w,
                    ) by {
                        if w < n {
                            lemma_submask_absent(self.grid()[i as int], gpre[i as int], w);
                        }
                    }
                    assert forall|sol: Seq<u16>|
                        is_solution(sol) && admits(g0, sol) && first_digit(sol[i as int])
                            == value implies admits(self.grid(), sol) by {
                        assert(admits(gpre, sol));
                        assert(first_digit(sol[i as int]) != n);
                    }
                }
            }
            n += 1;
        }
        proof {
            lemma_grid_sub_total(self.grid(), g0);
            crate::cell::lemma_only_digit(self.grid()[i as int], value);
            if g0[i as int] != 0 {
                assert(self.grid()[i as int] != 0);
                lemma_digit_mask_has(value, value);
            }
        }
        true
    }

    /// Removes candidate `value` from cell `i` and propagates: a newly solved
    /// cell clears its digit from all peers, and each of the cell's units is
    /// checked for a digit with only one place left (hidden single).
    /// Returns false as soon as a contradiction shows up.
    pub fn eliminate(&mut self, i: usize, value: u32) -> (r: bool)
        requires
            old(self).wf(),
            i < 81,
            1 <= value <= 9,
        ensures
            final(self).wf(),
            grid_sub(final(self).grid(), old(self).grid()),
            total(final(self).grid()) <= total(old(self).grid()),
            !mask_has(final(self).grid()[i as int], value),
            mask_has(old(self).grid()[i as int], value) ==> total(final(self).grid()) < total(
                old(self).grid(),
            ),
            !mask_has(old(self).grid()[i as int], value) ==> r && final(self).grid() == old(
                self,
            ).grid(),
            r ==> step_ok(final(self).grid(), old(self).grid()),
            r ==> units_live(final(self).grid(), old(self).grid()),
            r && mask_has(old(self).grid()[i as int], value) ==> forall|t: int|
                0 <= t < 3 ==> group_admits(final(self).grid(), unit_group(i as int, t), value)
                    >= 1,
            forall|sol: Seq<u16>|
                is_solution(sol) && admits(old(self).grid(), sol) && first_digit(sol[i as int])
                    != value ==> r && admits(final(self).grid(), sol),
        decreases total(old(self).grid()), 0int,
    {
        let ghost g0 = self.grid();
        proof {
            assert(self.cells@.len() == 81);
        }
        if !self.cells[i].contains(value) {
            proof {
                lemma_step_refl(g0);
            }
            return true;
        }

        let mut c = self.cells[i];
        c.remove(value);
        self.cells[i] = c;
        let ghost g1 = self.grid();
        proof {
            assert(g1 =~= g0.update(i as int, c.possible));
            lemma_remove_count(g0[i as int], value);
            lemma_total_update(g0, i as int, c.possible);
            assert forall|k: int| 0 <= k < 81 implies submask(#[trigger] g1[k], g0[k]) by {
                if k != i {
                    lemma_submask_refl(g0[k]);
                }
            }
            assert forall|sol: Seq<u16>|
                is_solution(sol) && admits(g0, sol) && first_digit(sol[i as int])
                    != value implies admits(g1, sol) by {
                assert(mask_has(g1[i as int], first_digit(sol[i as int])));
            }
        }
        if self.cells[i].count() == 0 {
            proof {
                lemma_count_zero(g1[i as int]);
                crate::cell::lemma_zero_mask();
                assert forall|sol: Seq<u16>|
                    is_solution(sol) && admits(g0, sol) && first_digit(sol[i as int])
                        != value implies false by {
                    assert(mask_has(g1[i as int], first_digit(sol[i as int])));
                }
            }
            return false;
        }

        let solved = self.cells[i].is_solved();
        if let Some(d) = solved {
            proof {
                lemma_solved_mask(g1[i as int]);
                lemma_count_zero(g1[i as int]);
                lemma_step_refl(g1);
            }
            let peers = get_peers(i);
            let np = peers.len();
            let mut k: usize = 0;
            while k < np
                invariant
                    self.wf(),
                    i < 81,
                    1 <= value <= 9,
                    k <= np,
                    np == peers@.len(),
                    g0 == old(self).grid(),
                    grid_wf(g0),
                    grid_wf(g1),
                    g1.len() == 81,
                    grid_sub(g1, g0),
                    g0.len() == 81,
                    total(g1) < total(g0),
                    forall|kk: int| 0 <= kk < 81 && kk != i ==> #[trigger] g1[kk] == g0[kk],
                    g1[i as int] != 0,
                    g1[i as int] == g0[i as int] & !digit_mask(value),
                    mask_count(g1[i as int]) == mask_count(g0[i as int]) - 1,
                    mask_count(g1[i as int]) == 1,
                    d == first_digit(g1[i as int]),
                    1 <= d <= 9,
                    !mask_has(g1[i as int], value),
                    mask_has(g0[i as int], value),
                    step_ok(self.grid(), g1),
                    units_live(self.grid(), g1),
                    self.grid()[i as int] == g1[i as int],
                    forall|k2: int|
                        0 <= k2 < peers@.len() ==> is_peer(i as int, #[trigger] peers@[k2] as int),
                    forall|j: int| is_peer(i as int, j) ==> peers@.contains(j as usize),
                    forall|k2: int|
                        0 <= k2 < k ==> !mask_has(
                            self.grid()[#[trigger] peers@[k2] as int],
                            d,
                        ),
                    forall|sol: Seq<u16>|
                        is_solution(sol) && admits(g0, sol) && first_digit(sol[i as int]) != value
                            ==> admits(self.grid(), sol),
                decreases np - k,
            {
                let pj = peers[k];
                let ghost gpre = self.grid();
                proof {
                    assert(is_peer(i as int, pj as int));
                    lemma_grid_sub_total(gpre, g1);
                    lemma_total_nonneg(gpre);
                    lemma_solved_mask(g1[i as int]);
                    assert forall|sol: Seq<u16>|
                        is_solution(sol) && admits(g0, sol) && first_digit(sol[i as int])
                            != value implies admits(gpre, sol) && first_digit(sol[pj as int])
                        != d by {
                        assert(admits(gpre, sol));
                        assert(mask_has(gpre[i as int], first_digit(sol[i as int])));
                        assert(first_digit(sol[i as int]) == d);
                    }
                }
                let ok = self.eliminate(pj, d);
                if !ok {
                    proof {
                        lemma_grid_sub_trans(self.grid(), gpre, g1);
                        lemma_grid_sub_trans(self.grid(), g1, g0);
                        lemma_grid_sub_total(self.grid(), gpre);
                        lemma_submask_absent(self.grid()[i as int], g1[i as int], value);
                        assert forall|sol: Seq<u16>|
                            is_solution(sol) && admits(g0, sol) && first_digit(sol[i as int])
                                != value implies false by {
                            assert(admits(gpre, sol) && first_digit(sol[pj as int]) != d);
                        }
                    }
                    return false;
                }
                proof {
                    lemma_step_trans(self.grid(), gpre, g1);
                    assert forall|uu: int, dd: u32|
                        0 <= uu < 27 && 1 <= dd <= 9 && #[trigger] group_admits(g1, uu, dd)
                            >= 1 implies group_admits(self.grid(), uu, dd) >= 1 by {
                        assert(group_admits(gpre, uu, dd) >= 1);
                    }
                    assert forall|k2: int|
                        0 <= k2 < k + 1 implies !mask_has(
                        self.grid()[#[trigger] peers@[k2] as int],
                        d,
                    ) by {
                        if k2 < k {
                            lemma_submask_absent(
                                self.grid()[peers@[k2] as int],
                                gpre[peers@[k2] as int],
                                d,
                            );
                        }
                    }
                    assert forall|sol: Seq<u16>|
                        is_solution(sol) && admits(g0, sol) && first_digit(sol[i as int])
                            != value implies admits(self.grid(), sol) by {
                        assert(admits(gpre, sol) && first_digit(sol[pj as int]) != d);
                    }
                }
                k += 1;
            }
            proof {
                assert forall|j: int|
                    is_peer(i as int, j) implies !mask_has(self.grid()[j], d) by {
                    assert(peers@.contains(j as usize));
                    let k2 = choose|k2: int| 0 <= k2 < peers@.len() && peers@[k2] == j as usize;
                    assert(!mask_has(self.grid()[peers@[k2] as int], d));
                }
                assert(cell_ok(self.grid(), i as int));
            }
        }

        let ghost g2 = self.grid();
        proof {
            lemma_count_zero(g1[i as int]);
            if solved is None {
                lemma_step_refl(g1);
                assert(mask_count(g1[i as int]) != 1);
            }
            assert(step_ok(g2, g1));
            assert(cell_ok(g2, i as int));
            lemma_grid_sub_total(g2, g1);
            lemma_step_refl(g2);
        }

        let units = get_units(i);
        proof {
            lemma_unit_group(i as int, 0);
            lemma_unit_group(i as int, 1);
            lemma_unit_group(i as int, 2);
            assert(is_group_block(units@, 0, unit_group(i as int, 0)));
            assert(is_group_block(units@, 9, unit_group(i as int, 1)));
            assert(is_group_block(units@, 18, unit_group(i as int, 2)));
        }
        let mut t: usize = 0;
        while t < 3
            invariant
                self.wf(),
                i < 81,
                1 <= value <= 9,
                t <= 3,
                g0 == old(self).grid(),
                grid_wf(g0),
                grid_wf(g1),
                g1.len() == 81,
                g2.len() == 81,
                grid_sub(g1, g0),
                g0.len() == 81,
                total(g1) < total(g0),
                forall|kk: int| 0 <= kk < 81 && kk != i ==> #[trigger] g1[kk] == g0[kk],
                g1[i as int] != 0,
                g1[i as int] == g0[i as int] & !digit_mask(value),
                mask_count(g1[i as int]) == mask_count(g0[i as int]) - 1,
                mask_has(g0[i as int], value),
                grid_sub(g2, g1),
                step_ok(g2, g1),
                units_live(g2, g1),
                cell_ok(g2, i as int),
                !mask_has(g1[i as int], value),
                units@.len() == 27,
                is_group_block(units@, 0, unit_group(i as int, 0)),
                is_group_block(units@, 9, unit_group(i as int, 1)),
                is_group_block(units@, 18, unit_group(i as int, 2)),
                step_ok(self.grid(), g2),
                units_live(self.grid(), g2),
                forall|t2: int|
                    0 <= t2 < t ==> group_admits(
                        self.grid(),
                        #[trigger] unit_group(i as int, t2),
                        value,
                    ) >= 1,
                forall|t2: int| 0 <= t2 < 3 ==> 0 <= #[trigger] unit_group(i as int, t2) < 27,
                forall|sol: Seq<u16>|
                    is_solution(sol) && admits(g0, sol) && first_digit(sol[i as int]) != value
                        ==> admits(self.grid(), sol),
            decreases 3 - t,
        {
            let ghost gpre = self.grid();
            proof {
                lemma_grid_sub_total(gpre, g2);
                lemma_grid_sub_total(g2, g1);
                lemma_total_nonneg(gpre);
            }
            let ok = self.handle_neighbors(&units, t * 9, value);
            if !ok {
                proof {
                    lemma_grid_sub_trans(self.grid(), gpre, g2);
                    lemma_grid_sub_trans(self.grid(), g2, g1);
                    lemma_grid_sub_trans(self.grid(), g1, g0);
                    lemma_grid_sub_total(self.grid(), gpre);
                    lemma_submask_absent(self.grid()[i as int], g1[i as int], value);
                    assert forall|sol: Seq<u16>|
                        is_solution(sol) && admits(g0, sol) && first_digit(sol[i as int])
                            != value implies false by {
                        assert(admits(gpre, sol));
                    }
                }
                return false;
            }
            proof {
                lemma_step_trans(self.grid(), gpre, g2);
                assert forall|uu: int, dd: u32|
                    0 <= uu < 27 && 1 <= dd <= 9 && #[trigger] group_admits(g2, uu, dd)
                        >= 1 implies group_admits(self.grid(), uu, dd) >= 1 by {
                    assert(group_admits(gpre, uu, dd) >= 1);
                }
                assert forall|t2: int|
                    0 <= t2 < t + 1 implies group_admits(
                    self.grid(),
                    unit_group(i as int, t2),
                    value,
                ) >= 1 by {
                    if t2 < t {
                        assert(group_admits(gpre, unit_group(i as int, t2), value) >= 1);
                    } else {
                        assert(is_group_block(
                            units@,
                            t as int * 9,
                            unit_group(i as int, t as int),
                        ));
                    }
                }
                assert forall|sol: Seq<u16>|
                    is_solution(sol) && admits(g0, sol) && first_digit(sol[i as int])
                        != value implies admits(self.grid(), sol) by {
                    assert(admits(gpre, sol));
                }
            }
            t += 1;
        }

        proof {
            let gf = self.grid();
            lemma_grid_sub_trans(gf, g2, g1);
            lemma_grid_sub_trans(gf, g1, g0);
            lemma_grid_sub_total(gf, g2);
            lemma_grid_sub_total(g2, g1);
            lemma_submask_absent(gf[i as int], g1[i as int], value);
            // assemble step_ok(gf, g0)
            assert forall|kk: int|
                0 <= kk < 81 && mask_count(#[trigger] g0[kk]) == 1 implies gf[kk] == g0[kk] by {
                if kk == i {
                    lemma_count_zero(g1[i as int]);
                } else {
                    assert(g1[kk] == g0[kk]);
                }
            }
            assert forall|kk: int| 0 <= kk < 81 && #[trigger] g0[kk] != 0 implies gf[kk] != 0 by {
                if kk != i {
                    assert(g1[kk] == g0[kk]);
                } else {
                    assert(g1[i as int] != 0);
                }
            }
            assert forall|uu: int, dd: u32|
                0 <= uu < 27 && 1 <= dd <= 9 && #[trigger] group_admits(g0, uu, dd)
                    >= 1 implies group_admits(gf, uu, dd) >= 1 by {
                if dd == value && exists|k2: int|
                    0 <= k2 < 9 && #[trigger] group_cell(uu, k2) == i as int {
                    let k2 = choose|k2: int|
                        0 <= k2 < 9 && #[trigger] group_cell(uu, k2) == i as int;
                    lemma_groups_of_cell(uu, k2, i as int);
                } else {
                    lemma_remove_count(g0[i as int], value);
                    assert forall|k2: int|
                        0 <= k2 < 9 implies mask_has(g1[#[trigger] group_cell(uu, k2)], dd)
                        == mask_has(g0[group_cell(uu, k2)], dd) by {
                        lemma_group_cell_in_grid(uu, k2);
                        if group_cell(uu, k2) == i as int {
                            assert(dd != value);
                        }
                    }
                    lemma_group_admits_eq(g1, uu, g0, uu, dd);
                    assert(group_admits(g2, uu, dd) >= 1);
                }
            }
            assert forall|kk: int| 0 <= kk < 81 && cell_ok(g0, kk) implies cell_ok(gf, kk) by {
                if kk != i {
                    assert(g1[kk] == g0[kk]);
                    if mask_count(g1[kk]) == 1 {
                        lemma_solved_mask(g0[kk]);
                        assert forall|j: int|
                            is_peer(kk, j) implies !mask_has(
                            #[trigger] g1[j],
                            first_digit(g1[kk]),
                        ) by {
                            assert(!mask_has(g0[j], first_digit(g0[kk])));
                            lemma_submask_absent(g1[j], g0[j], first_digit(g0[kk]));
                        }
                        assert(cell_ok(g1, kk));
                    } else {
                        assert(cell_ok(g1, kk));
                    }
                    assert(cell_ok(g2, kk));
                } else {
                    assert(cell_ok(g2, kk));
                }
            }
        }
        true
    }

    /// Scans one unit of cell `i` for the places digit `value` can still go:
    /// none left is a contradiction; exactly one left forces that cell to take
    /// `value` (the hidden-single rule).
    pub fn handle_neighbors(&mut self, nbr: &Vec<usize>, start: usize, value: u32) -> (r: bool)
        requires
            old(self).wf(),
            1 <= value <= 9,
            start <= 18,
            start + 9 <= nbr@.len(),
            exists|u: int| is_group_block(nbr@, start as int, u),
        ensures
            final(self).wf(),
            grid_sub(final(self).grid(), old(self).grid()),
            total(final(self).grid()) <= total(old(self).grid()),
            r ==> step_ok(final(self).grid(), old(self).grid()),
            r ==> units_live(final(self).grid(), old(self).grid()),
            forall|u: int|
                is_group_block(nbr@, start as int, u) && group_admits(
                    old(self).grid(),
                    u,
                    value,
                ) == 0 ==> !r && final(self).grid() == old(self).grid(),
            forall|u: int|
                is_group_block(nbr@, start as int, u) && group_admits(
                    old(self).grid(),
                    u,
                    value,
                ) >= 2 ==> r && final(self).grid() == old(self).grid(),
            forall|u: int, k: int|
                is_group_block(nbr@, start as int, u) && 0 <= k < 9 && mask_has(
                    old(self).grid()[#[trigger] group_cell(u, k)],
                    value,
                ) && group_admits(old(self).grid(), u, value) == 1 && r
                    ==> final(self).grid()[group_cell(u, k)] == digit_mask(value),
            forall|u: int|
                is_group_block(nbr@, start as int, u) && r ==> group_admits(
                    final(self).grid(),
                    u,
                    value,
                ) >= 1,
            forall|sol: Seq<u16>|
                is_solution(sol) && admits(old(self).grid(), sol) ==> r && admits(
                    final(self).grid(),
                    sol,
                ),
        decreases total(old(self).grid()), 2int,
    {
        let ghost g0 = self.grid();
        let ghost u = choose|u: int| is_group_block(nbr@, start as int, u);
        proof {
            assert(self.cells@.len() == 81);
            assert forall|u2: int|
                is_group_block(nbr@, start as int, u2) implies group_admits(g0, u2, value)
                == group_admits(g0, u, value) by {
                assert forall|k2: int|
                    0 <= k2 < 9 implies mask_has(g0[#[trigger] group_cell(u2, k2)], value)
                    == mask_has(g0[group_cell(u, k2)], value) by {
                    assert(nbr@[start + k2] == group_cell(u2, k2) as usize);
                    assert(nbr@[start + k2] == group_cell(u, k2) as usize);
                }
                lemma_group_admits_eq(g0, u2, g0, u, value);
            }
        }
        let mut count: usize = 0;
        let mut found: usize = 0;
        let mut k: usize = 0;
        while k < 9
            invariant
                self.wf(),
                1 <= value <= 9,
                start <= 18,
                start + 9 <= nbr@.len(),
                is_group_block(nbr@, start as int, u),
                self.grid() == g0,
                g0.len() == 81,
                k <= 9,
                count <= k,
                count as int == group_admit_prefix(g0, u, value, k as int),
                count == 1 ==> found < 81 && mask_has(g0[found as int], value) && (exists|kf: int|
                    0 <= kf < k && group_cell(u, kf) == found as int) && (forall|k2: int|
                    0 <= k2 < k && #[trigger] group_cell(u, k2) != found as int ==> !mask_has(
                        g0[group_cell(u, k2)],
                        value,
                    )),
            decreases 9 - k,
        {
            let j = nbr[start + k];
            proof {
                lemma_group_cell_in_grid(u, k as int);
                assert(j == group_cell(u, k as int));
                assert(g0[j as int] == self.cells@[j as int].possible);
                lemma_group_admits_exists_aux(g0, u, value, k as int);
                assert(group_admit_prefix(g0, u, value, k as int + 1) == group_admit_prefix(
                    g0,
                    u,
                    value,
                    k as int,
                ) + if mask_has(g0[group_cell(u, k as int)], value) {
                    1int
                } else {
                    0int
                });
            }
            if self.cells[j].contains(value) {
                count += 1;
                found = j;
            }
            k += 1;
        }

        if count == 0 {
            proof {
                lemma_step_refl(g0);
                lemma_group_admits_exists(g0, u, value);
                assert forall|sol: Seq<u16>|
                    is_solution(sol) && admits(g0, sol) implies false by {
                    lemma_group_digit(sol, u, value);
                    let kd = choose|kd: int|
                        0 <= kd < 9 && first_digit(sol[#[trigger] group_cell(u, kd)]) == value;
                    lemma_group_cell_in_grid(u, kd);
                    assert(mask_has(g0[group_cell(u, kd)], value));
                }
            }
            return false;
        }

        if count == 1 {
            proof {
                assert(group_admits(g0, u, value) == 1);
                assert forall|sol: Seq<u16>|
                    is_solution(sol) && admits(g0, sol) implies first_digit(sol[found as int])
                    == value by {
                    lemma_group_digit(sol, u, value);
                    let kd = choose|kd: int|
                        0 <= kd < 9 && first_digit(sol[#[trigger] group_cell(u, kd)]) == value;
                    lemma_group_cell_in_grid(u, kd);
                    assert(mask_has(g0[group_cell(u, kd)], value));
                    assert(group_cell(u, kd) == found as int);
                }
                lemma_total_nonneg(g0);
                crate::cell::lemma_zero_mask();
                assert(g0[found as int] != 0);
            }
            let ok = self.fill(found, value);
            if !ok {
                return false;
            }
            proof {
                lemma_digit_mask_has(value, value);
                assert(self.grid()[found as int] == digit_mask(value));
                let kf = choose|kf: int| 0 <= kf < 9 && group_cell(u, kf) == found as int;
                assert forall|u2: int, k2: int|
                    is_group_block(nbr@, start as int, u2) && 0 <= k2 < 9 && mask_has(
                        g0[#[trigger] group_cell(u2, k2)],
                        value,
                    ) implies self.grid()[group_cell(u2, k2)] == digit_mask(value) by {
                    assert(nbr@[start + k2] == group_cell(u2, k2) as usize);
                    assert(nbr@[start + k2] == group_cell(u, k2) as usize);
                    assert(group_cell(u, k2) == found as int);
                }
                assert forall|u2: int|
                    is_group_block(nbr@, start as int, u2) implies group_admits(
                    self.grid(),
                    u2,
                    value,
                ) >= 1 by {
                    assert(nbr@[start + kf] == group_cell(u2, kf) as usize);
                    assert(nbr@[start + kf] == group_cell(u, kf) as usize);
                    assert(mask_has(self.grid()[group_cell(u2, kf)], value));
                    lemma_group_admits_exists(self.grid(), u2, value);
                }
            }
            return true;
        }

        proof {
            lemma_step_refl(g0);
            assert(group_admits(g0, u, value) >= 2);
            lemma_group_admits_exists_aux(g0, u, value, 9);
            assert forall|u2: int|
                is_group_block(nbr@, start as int, u2) implies group_admits(g0, u2, value)
                >= 1 by {
                assert(group_admits(g0, u2, value) == group_admits(g0, u, value));
            }
        }
        true
    }

    /// Builds a grid from puzzle text: whitespace is stripped, the first 81
    /// remaining characters are read in row-major order, and every digit 1
    /// through 9 is committed with `fill`, propagating at once. Any other
    /// character leaves its cell open. A clue that contradicts the earlier
    /// ones leaves a contradicted grid (a cell with no candidates), which
    /// `is_valid` rejects. With fewer than 81 significant characters no clue
    /// is read at all and the grid comes back fully open.
    pub fn parse(input: &str) -> (r: Sudoku)
        ensures
            r.wf(),
            significant(input@).len() >= 81 ==> (all_nonzero(r.grid()) ==> closed(r.grid())
                && clues_solved(r.grid(), significant(input@))),
            significant(input@).len() >= 81 ==> (forall|sol: Seq<u16>|
                is_solution(sol) && matches_clues(sol, significant(input@)) ==> all_nonzero(
                    r.grid(),
                ) && admits(r.grid(), sol)),
            significant(input@).len() < 81 ==> forall|i: int|
                0 <= i < 81 ==> #[trigger] r.grid()[i] == 511u16,
            significant(input@).len() >= 81 && (forall|i: int|
                0 <= i < 81 ==> clue_digit(#[trigger] significant(input@)[i]) == 0) ==> forall|
                i: int,
            | 0 <= i < 81 ==> #[trigger] r.grid()[i] == 511u16,
    {
        let n = input.unicode_len();
        let mut sig: Vec<char> = Vec::new();
        let mut k: usize = 0;
        while k < n
            invariant
                n == input@.len(),
                k <= n,
                sig@ == significant(input@.take(k as int)),
            decreases n - k,
        {
            let c = input.get_char(k);
            proof {
                assert(input@.take(k as int + 1).drop_last() =~= input@.take(k as int));
                assert(input@.take(k as int + 1).last() == input@[k as int]);
            }
            if !is_space_char(c) {
                sig.push(c);
            }
            k += 1;
        }
        proof {
            assert(input@.take(n as int) =~= input@);
        }

        let mut grid = Sudoku::new_open();
        let ghost ginit = grid.grid();
        if sig.len() < 81 {
            return grid;
        }
        proof {
            assert forall|sol: Seq<u16>|
                is_solution(sol) && matches_clues(sol, sig@) implies admits(grid.grid(), sol) by {
                assert forall|i: int|
                    0 <= i < 81 implies mask_has(#[trigger] grid.grid()[i], first_digit(sol[i])) by {
                    lemma_solved_mask(sol[i]);
                    crate::cell::lemma_full_mask();
                }
            }
        }
        let mut ok = true;
        let mut i: usize = 0;
        while i < 81
            invariant
                grid.wf(),
                i <= 81,
                sig@.len() >= 81,
                forall|i2: int| 0 <= i2 < 81 ==> #[trigger] ginit[i2] == 511u16,
                (forall|i2: int| 0 <= i2 < 81 ==> clue_digit(#[trigger] sig@[i2]) == 0)
                    ==> grid.grid() == ginit,
                ok ==> all_nonzero(grid.grid()) && closed(grid.grid()),
                ok ==> forall|i2: int|
                    0 <= i2 < i && clue_digit(#[trigger] sig@[i2]) >= 1 ==> grid.grid()[i2]
                        == digit_mask(clue_digit(sig@[i2])),
                !ok ==> exists|k0: int| 0 <= k0 < 81 && #[trigger] grid.grid()[k0] == 0,
                forall|sol: Seq<u16>|
                    is_solution(sol) && matches_clues(sol, sig@) ==> ok && admits(
                        grid.grid(),
                        sol,
                    ),
            decreases 81 - i,
        {
            let c = sig[i];
            let u = c as u32;
            if 49 <= u && u <= 57 {
                let v = u - 48;
                proof {
                    assert(clue_digit(sig@[i as int]) == v);
                    assert(!(forall|i2: int|
                        0 <= i2 < 81 ==> clue_digit(#[trigger] sig@[i2]) == 0));
                }
                let ghost gpre = grid.grid();
                let ghost okpre = ok;
                let fok = grid.fill(i, v);
                proof {
                    if !okpre {
                        let k0 = choose|k0: int| 0 <= k0 < 81 && #[trigger] gpre[k0] == 0;
                        crate::cell::lemma_submask_zero(grid.grid()[k0]);
                        assert(grid.grid()[k0] == 0);
                    }
                    assert forall|sol: Seq<u16>|
                        is_solution(sol) && matches_clues(sol, sig@) implies okpre && admits(
                        gpre,
                        sol,
                    ) && first_digit(sol[i as int]) == v by {}
                }
                if !fok {
                    let ghost gmid = grid.grid();
                    let ghost cmid = grid.cells@;
                    proof {
                        assert(grid.cells@.len() == 81);
                    }
                    grid.cells[i] = Cell { possible: 0u16 };
                    ok = false;
                    proof {
                        assert(grid.grid()[i as int] == grid.cells@[i as int].possible);
                        assert forall|kk: int|
                            0 <= kk < 81 && kk != i implies #[trigger] grid.grid()[kk]
                            == gmid[kk] by {
                            assert(grid.cells@[kk] == cmid[kk]);
                        }
                        assert(grid.grid()[i as int] == 0);
                        assert forall|kk: int|
                            0 <= kk < 81 implies mask_wf(#[trigger] grid.grid()[kk]) by {
                            crate::cell::lemma_zero_mask();
                        }
                        assert forall|sol: Seq<u16>|
                            is_solution(sol) && matches_clues(sol, sig@) implies false by {
                            assert(admits(gpre, sol) && first_digit(sol[i as int]) == v);
                        }
                    }
                } else {
                    proof {
                        if okpre {
                            assert forall|kk: int|
                                0 <= kk < 81 implies #[trigger] grid.grid()[kk] != 0 by {
                                assert(gpre[kk] != 0);
                            }
                            assert forall|kk: int|
                                0 <= kk < 81 implies cell_ok(grid.grid(), kk) by {
                                assert(cell_ok(gpre, kk));
                            }
                            lemma_digit_mask_has(v, v);
                            assert forall|i2: int|
                                0 <= i2 < i + 1 && clue_digit(#[trigger] sig@[i2])
                                    >= 1 implies grid.grid()[i2] == digit_mask(
                                clue_digit(sig@[i2]),
                            ) by {
                                if i2 < i {
                                    lemma_digit_mask_has(clue_digit(sig@[i2]), 1);
                                    assert(mask_count(gpre[i2]) == 1);
                                } else {
                                    assert(gpre[i as int] != 0);
                                }
                            }
                        }
                    }
                }
            }
            i += 1;
        }
        grid
    }

    /// Nine lines of nine characters: solved cells print their digit, open
    /// cells a dot.
    pub fn render(&self) -> (r: String)
        requires
            self.wf(),
        ensures
            r@ == spec_render(self.grid()),
    {
        let ghost g = self.grid();
        let mut out = String::new();
        let mut row: usize = 0;
        while row < 9
            invariant
                self.wf(),
                g == self.grid(),
                row <= 9,
                out@.len() == row * 10,
                forall|p: int| 0 <= p < out@.len() ==> out@[p] == spec_render(g)[p],
            decreases 9 - row,
        {
            let mut col: usize = 0;
            while col < 9
                invariant
                    self.wf(),
                    g == self.grid(),
                    row < 9,
                    col <= 9,
                    out@.len() == row * 10 + col,
                    forall|p: int| 0 <= p < out@.len() ==> out@[p] == spec_render(g)[p],
                decreases 9 - col,
            {
                let idx = row * 9 + col;
                let solved = self.cells[idx].is_solved();
                let ch = match solved {
                    Some(v) => {
                        if v == 1 {
                            '1'
                        } else if v == 2 {
                            '2'
                        } else if v == 3 {
                            '3'
                        } else if v == 4 {
                            '4'
                        } else if v == 5 {
                            '5'
                        } else if v == 6 {
                            '6'
                        } else if v == 7 {
                            '7'
                        } else if v == 8 {
                            '8'
                        } else {
                            '9'
                        }
                    },
                    None => '.',
                };
                proof {
                    let p = row as int * 10 + col as int;
                    vstd::arithmetic::div_mod::lemma_fundamental_div_mod_converse(
                        p,
                        10,
                        row as int,
                        col as int,
                    );
                    assert(g[idx as int] == self.cells@[idx as int].possible);
                    if mask_count(g[idx as int]) == 1 {
                        lemma_solved_mask(g[idx as int]);
                    }
                    assert(ch == render_char(g[idx as int]));
                }
                push_char(&mut out, ch);
                col += 1;
            }
            push_char(&mut out, '\n');
            proof {
                let p = row as int * 10 + 9;
                vstd::arithmetic::div_mod::lemma_fundamental_div_mod_converse(p, 10, row as int, 9);
            }
            row += 1;
        }
        proof {
            assert(out@ =~= spec_render(g));
        }
        out
    }

    /// Rendering a solved grid and parsing the text back yields the same grid.
    pub fn round_trip(&self) -> (r: Sudoku)
        requires
            self.wf(),
            is_solution(self.grid()),
        ensures
            r.grid() == self.grid(),
            is_solution(r.grid()),
    {
        let text = self.render();
        let r = Sudoku::parse(text.as_str());
        proof {
            let g = self.grid();
            lemma_sig_render(g, 90);
            assert(spec_render(g).take(90) =~= spec_render(g));
            let sig = significant(text@);
            assert(sig.len() == 81);
            assert forall|i: int|
                0 <= i < 81 implies clue_digit(#[trigger] sig[i]) == first_digit(g[i])
                && clue_digit(sig[i]) >= 1 by {
                assert(sig[i] == render_char(g[i]));
                lemma_solved_mask(g[i]);
                lemma_digit_char_clue(first_digit(g[i]));
            }
            assert(matches_clues(g, sig));
            assert(all_nonzero(r.grid()) && admits(r.grid(), g));
            assert(clues_solved(r.grid(), sig));
            assert forall|i: int| 0 <= i < 81 implies r.grid()[i] == g[i] by {
                lemma_solved_mask(g[i]);
                assert(r.grid()[i] == digit_mask(clue_digit(sig[i])));
            }
            assert(r.grid() =~= g);
        }
        r
    }

    /// Does one group hold nine solved, pairwise distinct digits?
    fn check_group(&self, u: usize) -> (r: bool)
        requires
            self.wf(),
            u < 27,
        ensures
            r == ((forall|k: int|
                0 <= k < 9 ==> mask_count(self.grid()[#[trigger] group_cell(u as int, k)]) == 1)
                && (forall|k1: int, k2: int|
                0 <= k1 < k2 < 9 ==> first_digit(self.grid()[group_cell(u as int, k1)])
                    != first_digit(self.grid()[group_cell(u as int, k2)]))),
    {
        let ghost g = self.grid();
        proof {
            crate::cell::lemma_zero_mask();
        }
        let mut seen: u16 = 0;
        let mut k: usize = 0;
        while k < 9
            invariant
                self.wf(),
                g == self.grid(),
                u < 27,
                k <= 9,
                mask_wf(seen),
                forall|k2: int|
                    0 <= k2 < k ==> mask_count(g[#[trigger] group_cell(u as int, k2)]) == 1,
                forall|k1: int, k2: int|
                    0 <= k1 < k2 < k ==> first_digit(g[group_cell(u as int, k1)]) != first_digit(
                        g[group_cell(u as int, k2)],
                    ),
                forall|w: u32|
                    mask_has(seen, w) <==> exists|k2: int|
                        0 <= k2 < k && first_digit(g[#[trigger] group_cell(u as int, k2)]) == w,
            decreases 9 - k,
        {
            let j = crate::geometry::group_member(u, k);
            match self.cells[j].is_solved() {
                None => {
                    proof {
                        assert(mask_count(g[group_cell(u as int, k as int)]) != 1);
                    }
                    return false;
                },
                Some(v) => {
                    proof {
                        lemma_solved_mask(g[j as int]);
                        lemma_digit_mask_has(v, v);
                    }
                    if seen & (1u16 << ((v - 1) as u16)) != 0 {
                        proof {
                            assert(mask_has(seen, v));
                            let kd = choose|k2: int|
                                0 <= k2 < k && first_digit(
                                    g[#[trigger] group_cell(u as int, k2)],
                                ) == v;
                            assert(first_digit(g[group_cell(u as int, kd)]) == first_digit(
                                g[group_cell(u as int, k as int)],
                            ));
                        }
                        return false;
                    }
                    let ghost oldseen = seen;
                    seen = seen | (1u16 << ((v - 1) as u16));
                    proof {
                        crate::cell::lemma_mask_or(oldseen, digit_mask(v));
                        assert(!mask_has(oldseen, v));
                        assert forall|k1: int, k2: int|
                            0 <= k1 < k2 < k + 1 implies first_digit(
                            g[group_cell(u as int, k1)],
                        ) != first_digit(g[group_cell(u as int, k2)]) by {
                            if k2 == k {
                                let w = first_digit(g[group_cell(u as int, k1)]);
                                assert(mask_has(oldseen, w));
                                assert(first_digit(g[group_cell(u as int, k as int)]) == v);
                            }
                        }
                        assert forall|w: u32|
                            mask_has(seen, w) <==> exists|k2: int|
                                0 <= k2 < k + 1 && first_digit(
                                    g[#[trigger] group_cell(u as int, k2)],
                                ) == w by {
                            lemma_digit_mask_has(v, w);
                            if mask_has(seen, w) && !mask_has(oldseen, w) {
                                assert(first_digit(g[group_cell(u as int, k as int)]) == w);
                            }
                        }
                    }
                },
            }
            k += 1;
        }
        true
    }

    /// Is the grid a complete, rule-abiding solution? Every row, column and
    /// box must hold nine solved, pairwise distinct digits.
    pub fn is_valid(&self) -> (r: bool)
        requires
            self.wf(),
        ensures
            r == is_solution(self.grid()),
    {
        let ghost g = self.grid();
        let mut u: usize = 0;
        while u < 27
            invariant
                self.wf(),
                g == self.grid(),
                u <= 27,
                forall|u2: int, k: int|
                    0 <= u2 < u && 0 <= k < 9 ==> mask_count(
                        g[#[trigger] group_cell(u2, k)],
                    ) == 1,
                forall|u2: int, k1: int, k2: int|
                    0 <= u2 < u && 0 <= k1 < k2 < 9 ==> first_digit(g[#[trigger] group_cell(
                        u2,
                        k1,
                    )]) != first_digit(g[#[trigger] group_cell(u2, k2)]),
            decreases 27 - u,
        {
            if !self.check_group(u) {
                proof {
                    if forall|k: int|
                        0 <= k < 9 ==> mask_count(g[#[trigger] group_cell(u as int, k)]) == 1 {
                        let (k1, k2) = choose|k1: int, k2: int|
                            0 <= k1 < k2 < 9 && first_digit(
                                g[#[trigger] group_cell(u as int, k1)],
                            ) == first_digit(g[#[trigger] group_cell(u as int, k2)]);
                        lemma_group_cell_peer(u as int, k1, k2);
                        assert(!is_solution(g));
                    } else {
                        let k = choose|k: int|
                            0 <= k < 9 && mask_count(g[#[trigger] group_cell(u as int, k)]) != 1;
                        lemma_group_cell_in_grid(u as int, k);
                        assert(!is_solution(g));
                    }
                }
                return false;
            }
            u += 1;
        }
        proof {
            assert forall|i: int| 0 <= i < 81 implies mask_count(#[trigger] g[i]) == 1 by {
                lemma_cell_in_row_group(i);
                assert(mask_count(g[group_cell(crate::geometry::row_of(i), crate::geometry::col_of(
                    i,
                ))]) == 1);
            }
            assert forall|i: int, j: int|
                is_peer(i, j) implies first_digit(g[i]) != first_digit(g[j]) by {
                lemma_peer_group(i, j);
                let (uu, k1, k2) = choose|uu: int, k1: int, k2: int|
                    0 <= uu < 27 && 0 <= k1 < 9 && 0 <= k2 < 9 && k1 != k2 && group_cell(uu, k1)
                        == i && group_cell(uu, k2) == j;
                if k1 < k2 {
                    assert(first_digit(g[group_cell(uu, k1)]) != first_digit(
                        g[group_cell(uu, k2)],
                    ));
                } else {
                    assert(first_digit(g[group_cell(uu, k2)]) != first_digit(
                        g[group_cell(uu, k1)],
                    ));
                }
            }
        }
        true
    }

    /// Depth-first search: pick the unsolved cell with the fewest candidates,
    /// try each of its digits in ascending order, and propagate each trial with
    /// `fill`. The first branch that completes wins; `None` means no completion
    /// exists down this grid.
    pub fn solve(&self) -> (r: Option<Sudoku>)
        requires
            self.wf(),
        ensures
            r matches Some(s) ==> s.wf() && grid_sub(s.grid(), self.grid()) && (forall|k: int|
                0 <= k < 81 ==> mask_count(#[trigger] s.grid()[k]) <= 1),
            self.propagated() ==> (r matches Some(s) ==> is_solution(s.grid())),
            self.propagated() && (forall|k: int|
                0 <= k < 81 ==> mask_count(#[trigger] self.grid()[k]) == 1) ==> (r matches Some(s)
                && s.grid() == self.grid()),
            (exists|sol: Seq<u16>| is_solution(sol) && admits(self.grid(), sol)) ==> r is Some,
        decreases total(self.grid()),
    {
        let ghost g = self.grid();
        let mut best_i: usize = 81;
        let mut best_c: usize = 10;
        let mut idx: usize = 0;
        while idx < 81
            invariant
                self.wf(),
                g == self.grid(),
                idx <= 81,
                best_i <= 81,
                best_i == 81 ==> best_c == 10,
                best_i == 81 ==> forall|k: int| 0 <= k < idx ==> mask_count(#[trigger] g[k]) <= 1,
                best_i < 81 ==> 2 <= best_c <= 9 && mask_count(g[best_i as int]) == best_c,
            decreases 81 - idx,
        {
            let c = self.cells[idx].count();
            proof {
                assert(g[idx as int] == self.cells@[idx as int].possible);
                assert(mask_count(g[idx as int]) <= 9);
            }
            if c > 1 && c < best_c {
                best_i = idx;
                best_c = c;
            }
            idx += 1;
        }

        if best_i == 81 {
            let out = self.duplicate();
            proof {
                lemma_step_refl(g);
                if self.propagated() {
                    lemma_propagated_solution(g);
                }
            }
            return Some(out);
        }

        let cands = self.cells[best_i].possible_values();
        let nc = cands.len();
        proof {
            assert(g[best_i as int] == self.cells@[best_i as int].possible);
            assert forall|sol: Seq<u16>|
                is_solution(sol) && admits(g, sol) implies exists|k2: int|
                0 <= k2 < nc && cands@[k2] == first_digit(sol[best_i as int]) by {
                let fd = first_digit(sol[best_i as int]);
                assert(mask_has(g[best_i as int], fd));
                assert(cands@.contains(fd));
                let k2 = choose|k2: int| 0 <= k2 < cands@.len() && cands@[k2] == fd;
                assert(0 <= k2 < nc && cands@[k2] == fd);
            }
        }
        let mut k: usize = 0;
        while k < nc
            invariant
                self.wf(),
                g == self.grid(),
                best_i < 81,
                2 <= best_c <= 9,
                mask_count(g[best_i as int]) == best_c,
                nc == cands@.len(),
                k <= nc,
                forall|k2: int| 0 <= k2 < nc ==> mask_has(g[best_i as int], #[trigger] cands@[k2]),
                forall|sol: Seq<u16>|
                    is_solution(sol) && admits(g, sol) ==> exists|k2: int|
                        k <= k2 < nc && cands@[k2] == first_digit(sol[best_i as int]),
            decreases nc - k,
        {
            let v = cands[k];
            let mut next = self.duplicate();
            proof {
                lemma_count_zero(g[best_i as int]);
                lemma_total_nonneg(g);
            }
            let ok = next.fill(best_i, v);
            if ok {
                proof {
                    lemma_digit_mask_has(v, v);
                    assert forall|kk: int|
                        0 <= kk < 81 implies mask_count(#[trigger] next.grid()[kk]) <= mask_count(
                        g[kk],
                    ) by {
                        lemma_submask_count(next.grid()[kk], g[kk]);
                    }
                    lemma_total_lt(next.grid(), g, best_i as int);
                    lemma_total_nonneg(next.grid());
                    if self.propagated() {
                        assert(next.propagated());
                    }
                }
                let sub = next.solve();
                match sub {
                    Some(s) => {
                        proof {
                            lemma_grid_sub_trans(s.grid(), next.grid(), g);
                        }
                        return Some(s);
                    },
                    None => {
                        proof {
                            assert forall|sol: Seq<u16>|
                                is_solution(sol) && admits(g, sol) implies exists|k2: int|
                                k + 1 <= k2 < nc && cands@[k2] == first_digit(
                                    sol[best_i as int],
                                ) by {
                                let fd = first_digit(sol[best_i as int]);
                                let k2 = choose|k2: int|
                                    k <= k2 < nc && cands@[k2] == fd;
                                if k2 == k {
                                    assert(admits(next.grid(), sol));
                                    assert(false);
                                }
                            }
                        }
                    },
                }
            } else {
                proof {
                    assert forall|sol: Seq<u16>|
                        is_solution(sol) && admits(g, sol) implies exists|k2: int|
                        k + 1 <= k2 < nc && cands@[k2] == first_digit(sol[best_i as int]) by {
                        let fd = first_digit(sol[best_i as int]);
                        let k2 = choose|k2: int| k <= k2 < nc && cands@[k2] == fd;
                        if k2 == k {
                            assert(false);
                        }
                    }
                }
            }
            k += 1;
        }
        proof {
            assert forall|sol: Seq<u16>| is_solution(sol) && admits(g, sol) implies false by {
                let k2 = choose|k2: int|
                    k <= k2 < nc && cands@[k2] == first_digit(sol[best_i as int]);
            }
        }
        None
    }
}

impl Default for Sudoku {
    /// The fully open grid.
    fn default() -> (r: Sudoku)
        ensures
            r.wf(),
            forall|i: int| 0 <= i < 81 ==> #[trigger] r.grid()[i] == 511u16,
    {
        Sudoku::new_open()
    }
}

} // verus!
