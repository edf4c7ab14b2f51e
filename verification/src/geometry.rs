use vstd::prelude::*;

verus! {

use vstd::arithmetic::div_mod::lemma_fundamental_div_mod;
use vstd::arithmetic::div_mod::lemma_fundamental_div_mod_converse;

/// Row of cell `i` under the row-major layout `row * 9 + col`.
pub open spec fn row_of(i: int) -> int {
    i / 9
}

/// Column of cell `i`.
pub open spec fn col_of(i: int) -> int {
    i % 9
}

/// The 3x3 box of cell `i`, numbered 0 through 8 in row-major order of boxes.
pub open spec fn box_of(i: int) -> int {
    (row_of(i) / 3) * 3 + col_of(i) / 3
}

pub open spec fn in_grid(i: int) -> bool {
    0 <= i < 81
}

/// Two distinct cells that share a row, a column, or a box constrain each other.
pub open spec fn is_peer(i: int, j: int) -> bool {
    in_grid(i) && in_grid(j) && i != j && (row_of(i) == row_of(j) || col_of(i) == col_of(j)
        || box_of(i) == box_of(j))
}

/// Cell `k` (0 through 8) of group `u` (0 through 26): the nine rows come first,
/// then the nine columns, then the nine boxes.
pub open spec fn group_cell(u: int, k: int) -> int {
    if u < 9 {
        u * 9 + k
    } else if u < 18 {
        k * 9 + (u - 9)
    } else {
        ((u - 18) / 3 * 3 + k / 3) * 9 + ((u - 18) % 3 * 3 + k % 3)
    }
}

/// The group (in `group_cell` numbering) behind each of a cell's three units,
/// in the order the unit table lists them: column, row, box.
pub open spec fn unit_group(i: int, t: int) -> int {
    if t == 0 {
        9 + col_of(i)
    } else if t == 1 {
        row_of(i)
    } else {
        18 + box_of(i)
    }
}

pub proof fn lemma_cell_decomp(i: int)
    requires
        in_grid(i),
    ensures
        i == row_of(i) * 9 + col_of(i),
        0 <= row_of(i) < 9,
        0 <= col_of(i) < 9,
        0 <= box_of(i) < 9,
        0 <= row_of(i) % 3 < 3,
        0 <= col_of(i) % 3 < 3,
        row_of(i) == (row_of(i) / 3) * 3 + row_of(i) % 3,
        col_of(i) == (col_of(i) / 3) * 3 + col_of(i) % 3,
        0 <= row_of(i) / 3 < 3,
        0 <= col_of(i) / 3 < 3,
        box_of(i) / 3 == row_of(i) / 3,
        box_of(i) % 3 == col_of(i) / 3,
{
    lemma_fundamental_div_mod(i, 9);
    lemma_fundamental_div_mod(row_of(i), 3);
    lemma_fundamental_div_mod(col_of(i), 3);
    lemma_fundamental_div_mod_converse(box_of(i), 3, row_of(i) / 3, col_of(i) / 3);
}

pub proof fn lemma_rc(r: int, c: int)
    requires
        0 <= r < 9,
        0 <= c < 9,
    ensures
        in_grid(r * 9 + c),
        row_of(r * 9 + c) == r,
        col_of(r * 9 + c) == c,
        box_of(r * 9 + c) == (r / 3) * 3 + c / 3,
{
    lemma_fundamental_div_mod_converse(r * 9 + c, 9, r, c);
}

/// The cell of box `b` at in-box offset `k` (row-major inside the box).
pub proof fn lemma_box_cell(b: int, k: int)
    requires
        0 <= b < 9,
        0 <= k < 9,
    ensures
        in_grid(group_cell(18 + b, k)),
        row_of(group_cell(18 + b, k)) == (b / 3) * 3 + k / 3,
        col_of(group_cell(18 + b, k)) == (b % 3) * 3 + k % 3,
        box_of(group_cell(18 + b, k)) == b,
{
    lemma_fundamental_div_mod(b, 3);
    lemma_fundamental_div_mod(k, 3);
    let r = (b / 3) * 3 + k / 3;
    let c = (b % 3) * 3 + k % 3;
    lemma_rc(r, c);
    lemma_fundamental_div_mod_converse(r, 3, b / 3, k / 3);
    lemma_fundamental_div_mod_converse(c, 3, b % 3, k % 3);
}

pub proof fn lemma_group_cell_in_grid(u: int, k: int)
    requires
        0 <= u < 27,
        0 <= k < 9,
    ensures
        in_grid(group_cell(u, k)),
{
    if u < 9 {
        lemma_rc(u, k);
    } else if u < 18 {
        lemma_rc(k, u - 9);
    } else {
        lemma_box_cell(u - 18, k);
    }
}

/// Distinct members of one group are peers of each other.
pub proof fn lemma_group_cell_peer(u: int, k1: int, k2: int)
    requires
        0 <= u < 27,
        0 <= k1 < 9,
        0 <= k2 < 9,
        k1 != k2,
    ensures
        group_cell(u, k1) != group_cell(u, k2),
        is_peer(group_cell(u, k1), group_cell(u, k2)),
{
    if u < 9 {
        lemma_rc(u, k1);
        lemma_rc(u, k2);
    } else if u < 18 {
        lemma_rc(k1, u - 9);
        lemma_rc(k2, u - 9);
    } else {
        lemma_box_cell(u - 18, k1);
        lemma_box_cell(u - 18, k2);
        let i = group_cell(u, k1);
        let j = group_cell(u, k2);
        if i == j {
            lemma_fundamental_div_mod(k1, 3);
            lemma_fundamental_div_mod(k2, 3);
            assert(false);
        }
    }
}

/// Each cell is member `col_of(i)` of its row group.
pub proof fn lemma_cell_in_row_group(i: int)
    requires
        in_grid(i),
    ensures
        0 <= row_of(i) < 9,
        0 <= col_of(i) < 9,
        group_cell(row_of(i), col_of(i)) == i,
{
    lemma_cell_decomp(i);
}

/// Any two peers sit together in some group, at distinct member positions.
pub proof fn lemma_peer_group(i: int, j: int)
    requires
        is_peer(i, j),
    ensures
        exists|u: int, k1: int, k2: int|
            0 <= u < 27 && 0 <= k1 < 9 && 0 <= k2 < 9 && k1 != k2 && group_cell(u, k1) == i
                && group_cell(u, k2) == j,
{
    lemma_cell_decomp(i);
    lemma_cell_decomp(j);
    if row_of(i) == row_of(j) {
        let u = row_of(i);
        assert(col_of(i) != col_of(j));
        assert(group_cell(u, col_of(i)) == i && group_cell(u, col_of(j)) == j);
    } else if col_of(i) == col_of(j) {
        let u = 9 + col_of(i);
        assert(group_cell(u, row_of(i)) == i && group_cell(u, row_of(j)) == j);
        assert(row_of(i) != row_of(j));
    } else {
        let b = box_of(i);
        let u = 18 + b;
        let k1 = (row_of(i) % 3) * 3 + col_of(i) % 3;
        let k2 = (row_of(j) % 3) * 3 + col_of(j) % 3;
        assert(0 <= k1 < 9 && 0 <= k2 < 9);
        lemma_fundamental_div_mod_converse(k1, 3, row_of(i) % 3, col_of(i) % 3);
        lemma_fundamental_div_mod_converse(k2, 3, row_of(j) % 3, col_of(j) % 3);
        assert(group_cell(u, k1) == i);
        assert(group_cell(u, k2) == j);
        assert(k1 != k2);
    }
}

/// Cell `i` is a member of the group behind each of its three units.
pub open spec fn unit_member(i: int, t: int) -> int {
    if t == 0 {
        row_of(i)
    } else if t == 1 {
        col_of(i)
    } else {
        (row_of(i) % 3) * 3 + col_of(i) % 3
    }
}

pub proof fn lemma_unit_group(i: int, t: int)
    requires
        in_grid(i),
        0 <= t < 3,
    ensures
        0 <= unit_group(i, t) < 27,
        0 <= unit_member(i, t) < 9,
        group_cell(unit_group(i, t), unit_member(i, t)) == i,
{
    lemma_cell_decomp(i);
    if t == 2 {
        let k = unit_member(i, t);
        lemma_fundamental_div_mod_converse(k, 3, row_of(i) % 3, col_of(i) % 3);
    }
}

/// The exec counterpart of `group_cell`.
pub fn group_member(u: usize, k: usize) -> (r: usize)
    requires
        u < 27,
        k < 9,
    ensures
        r == group_cell(u as int, k as int),
        r < 81,
{
    proof {
        lemma_group_cell_in_grid(u as int, k as int);
    }
    if u < 9 {
        u * 9 + k
    } else if u < 18 {
        k * 9 + (u - 9)
    } else {
        let b = u - 18;
        (b / 3 * 3 + k / 3) * 9 + (b % 3 * 3 + k % 3)
    }
}

/// How many of the cells 0 through `n - 1` are peers of cell `i`.
pub open spec fn peer_count(i: int, n: int) -> int
    decreases n,
{
    if n <= 0 {
        0
    } else {
        peer_count(i, n - 1) + if is_peer(i, n - 1) {
            1int
        } else {
            0int
        }
    }
}

/// What being a peer means for the cell at row `r`, column `c`.
proof fn lemma_peer_row(i: int, r: int, c: int)
    requires
        in_grid(i),
        0 <= r < 9,
        0 <= c < 9,
    ensures
        is_peer(i, r * 9 + c) == (!(r == row_of(i) && c == col_of(i)) && (r == row_of(i) || c
            == col_of(i) || (r / 3 == row_of(i) / 3 && c / 3 == col_of(i) / 3))),
{
    lemma_cell_decomp(i);
    lemma_rc(r, c);
    lemma_fundamental_div_mod(r, 3);
    lemma_fundamental_div_mod(c, 3);
    if box_of(r * 9 + c) == box_of(i) {
        lemma_fundamental_div_mod_converse(box_of(i), 3, r / 3, c / 3);
    }
    if r / 3 == row_of(i) / 3 && c / 3 == col_of(i) / 3 {
        assert(box_of(r * 9 + c) == box_of(i));
    }
}

/// How many peers one row of the grid holds: 8 in the cell's own row, 3 in the
/// other two rows of its box band, 1 (the column cell) in every other row.
#[verifier::rlimit(50)]
proof fn lemma_peer_count_block(i: int, r: int)
    requires
        in_grid(i),
        0 <= r < 9,
    ensures
        peer_count(i, r * 9 + 9) == peer_count(i, r * 9) + if r == row_of(i) {
            8int
        } else if r / 3 == row_of(i) / 3 {
            3int
        } else {
            1int
        },
{
    lemma_cell_decomp(i);
    lemma_peer_row(i, r, 0);
    lemma_peer_row(i, r, 1);
    lemma_peer_row(i, r, 2);
    lemma_peer_row(i, r, 3);
    lemma_peer_row(i, r, 4);
    lemma_peer_row(i, r, 5);
    lemma_peer_row(i, r, 6);
    lemma_peer_row(i, r, 7);
    lemma_peer_row(i, r, 8);
    assert(peer_count(i, r * 9 + 1) == peer_count(i, r * 9 + 0) + if is_peer(i, r * 9 + 0) {
        1int
    } else {
        0int
    });
    assert(peer_count(i, r * 9 + 2) == peer_count(i, r * 9 + 1) + if is_peer(i, r * 9 + 1) {
        1int
    } else {
        0int
    });
    assert(peer_count(i, r * 9 + 3) == peer_count(i, r * 9 + 2) + if is_peer(i, r * 9 + 2) {
        1int
    } else {
        0int
    });
    assert(peer_count(i, r * 9 + 4) == peer_count(i, r * 9 + 3) + if is_peer(i, r * 9 + 3) {
        1int
    } else {
        0int
    });
    assert(peer_count(i, r * 9 + 5) == peer_count(i, r * 9 + 4) + if is_peer(i, r * 9 + 4) {
        1int
    } else {
        0int
    });
    assert(peer_count(i, r * 9 + 6) == peer_count(i, r * 9 + 5) + if is_peer(i, r * 9 + 5) {
        1int
    } else {
        0int
    });
    assert(peer_count(i, r * 9 + 7) == peer_count(i, r * 9 + 6) + if is_peer(i, r * 9 + 6) {
        1int
    } else {
        0int
    });
    assert(peer_count(i, r * 9 + 8) == peer_count(i, r * 9 + 7) + if is_peer(i, r * 9 + 7) {
        1int
    } else {
        0int
    });
    assert(peer_count(i, r * 9 + 9) == peer_count(i, r * 9 + 8) + if is_peer(i, r * 9 + 8) {
        1int
    } else {
        0int
    });
    let col = col_of(i);
    assert(col == 0 || col == 1 || col == 2 || col == 3 || col == 4 || col == 5 || col == 6 || col
        == 7 || col == 8);
}

/// Every cell has exactly 20 peers.
#[verifier::rlimit(50)]
pub proof fn lemma_peer_count_total(i: int)
    requires
        in_grid(i),
    ensures
        peer_count(i, 81) == 20,
{
    lemma_cell_decomp(i);
    lemma_peer_count_block(i, 0);
    lemma_peer_count_block(i, 1);
    lemma_peer_count_block(i, 2);
    lemma_peer_count_block(i, 3);
    lemma_peer_count_block(i, 4);
    lemma_peer_count_block(i, 5);
    lemma_peer_count_block(i, 6);
    lemma_peer_count_block(i, 7);
    lemma_peer_count_block(i, 8);
    let row = row_of(i);
    assert(row == 0 || row == 1 || row == 2 || row == 3 || row == 4 || row == 5 || row == 6 || row
        == 7 || row == 8);
    assert(peer_count(i, 0) == 0);
}

/// The peers of cell `idx`: every other cell of its row, column, or box.
pub fn get_peers(idx: usize) -> (r: Vec<usize>)
    requires
        idx < 81,
    ensures
        r@.len() == 20,
        forall|k1: int, k2: int| 0 <= k1 < k2 < r@.len() ==> r@[k1] != r@[k2],
        forall|k: int| 0 <= k < r@.len() ==> is_peer(idx as int, #[trigger] r@[k] as int),
        forall|j: int| is_peer(idx as int, j) ==> r@.contains(j as usize),
{
    let row = idx / 9;
    let col = idx % 9;
    let bx = row / 3 * 3 + col / 3;
    proof {
        lemma_cell_decomp(idx as int);
    }
    let mut peers: Vec<usize> = Vec::new();
    let mut j: usize = 0;
    while j < 81
        invariant
            idx < 81,
            j <= 81,
            row == row_of(idx as int),
            col == col_of(idx as int),
            bx == box_of(idx as int),
            peers@.len() == peer_count(idx as int, j as int),
            forall|k: int| 0 <= k < peers@.len() ==> #[trigger] peers@[k] < j,
            forall|k1: int, k2: int| 0 <= k1 < k2 < peers@.len() ==> peers@[k1] < peers@[k2],
            forall|k: int| 0 <= k < peers@.len() ==> is_peer(idx as int, #[trigger] peers@[k] as int),
            forall|j2: int| 0 <= j2 < j && is_peer(idx as int, j2) ==> peers@.contains(j2 as usize),
        decreases 81 - j,
    {
        proof {
            lemma_cell_decomp(j as int);
            assert(peer_count(idx as int, j as int + 1) == peer_count(idx as int, j as int)
                + if is_peer(idx as int, j as int) {
                1int
            } else {
                0int
            });
        }
        let jr = j / 9;
        let jc = j % 9;
        let jb = jr / 3 * 3 + jc / 3;
        if j != idx && (jr == row || jc == col || jb == bx) {
            let ghost prev = peers@;
            peers.push(j);
            proof {
                assert forall|j2: int|
                    0 <= j2 < j + 1 && is_peer(idx as int, j2) implies peers@.contains(
                    j2 as usize,
                ) by {
                    if j2 < j {
                        let k = choose|k: int| 0 <= k < prev.len() && prev[k] == j2 as usize;
                        assert(peers@[k] == j2 as usize);
                    } else {
                        assert(peers@[peers@.len() - 1] == j as usize);
                    }
                }
            }
        }
        j += 1;
    }
    proof {
        lemma_peer_count_total(idx as int);
    }
    peers
}

/// The 27 unit members of cell `idx`, in three blocks of nine: its column,
/// its row, and its box.
pub fn get_units(idx: usize) -> (r: Vec<usize>)
    requires
        idx < 81,
    ensures
        r@.len() == 27,
        forall|t: int, k: int|
            0 <= t < 3 && 0 <= k < 9 ==> r@[t * 9 + k] == group_cell(
                unit_group(idx as int, t),
                k,
            ) as usize,
        forall|k: int| 0 <= k < 27 ==> #[trigger] r@[k] < 81,
{
    let ghost i = idx as int;
    proof {
        lemma_cell_decomp(i);
    }
    let row = idx / 9;
    let col = idx % 9;
    let mut units: Vec<usize> = Vec::new();

    let mut k: usize = 0;
    while k < 9
        invariant
            idx < 81,
            k <= 9,
            row == row_of(i),
            col == col_of(i),
            i == idx,
            units@.len() == k,
            forall|k2: int|
                0 <= k2 < k ==> units@[k2] == group_cell(unit_group(i, 0), k2) as usize
                    && #[trigger] units@[k2] < 81,
        decreases 9 - k,
    {
        proof {
            lemma_rc(k as int, col as int);
        }
        units.push(k * 9 + col);
        k += 1;
    }

    let mut k: usize = 0;
    while k < 9
        invariant
            idx < 81,
            k <= 9,
            row == row_of(i),
            col == col_of(i),
            i == idx,
            units@.len() == 9 + k,
            forall|k2: int|
                0 <= k2 < 9 ==> units@[k2] == group_cell(unit_group(i, 0), k2) as usize
                    && #[trigger] units@[k2] < 81,
            forall|k2: int|
                0 <= k2 < k ==> units@[9 + k2] == group_cell(unit_group(i, 1), k2) as usize
                    && #[trigger] units@[9 + k2] < 81,
        decreases 9 - k,
    {
        proof {
            lemma_rc(row as int, k as int);
        }
        units.push(row * 9 + k);
        k += 1;
    }

    let box_r = row / 3 * 3;
    let box_c = col / 3 * 3;
    let mut k: usize = 0;
    while k < 9
        invariant
            idx < 81,
            k <= 9,
            row == row_of(i),
            col == col_of(i),
            i == idx,
            box_r == (row_of(i) / 3) * 3,
            box_c == (col_of(i) / 3) * 3,
            units@.len() == 18 + k,
            forall|k2: int|
                0 <= k2 < 9 ==> units@[k2] == group_cell(unit_group(i, 0), k2) as usize
                    && #[trigger] units@[k2] < 81,
            forall|k2: int|
                0 <= k2 < 9 ==> units@[9 + k2] == group_cell(unit_group(i, 1), k2) as usize
                    && #[trigger] units@[9 + k2] < 81,
            forall|k2: int|
                0 <= k2 < k ==> units@[18 + k2] == group_cell(unit_group(i, 2), k2) as usize
                    && #[trigger] units@[18 + k2] < 81,
        decreases 9 - k,
    {
        proof {
            lemma_box_cell(box_of(i), k as int);
            lemma_fundamental_div_mod_converse(k as int, 3, k as int / 3, k as int % 3);
        }
        let dr = k / 3;
        let dc = k % 3;
        proof {
            lemma_rc((box_r + dr) as int, (box_c + dc) as int);
            assert(box_of(i) / 3 == row_of(i) / 3 && box_of(i) % 3 == col_of(i) / 3);
        }
        units.push((box_r + dr) * 9 + (box_c + dc));
        k += 1;
    }
    proof {
        assert forall|k: int| 0 <= k < 27 implies units@[k] < 81 by {
            if k < 9 {
                assert(units@[0 + k] < 81);
            } else if k < 18 {
                assert(units@[9 + (k - 9)] < 81);
            } else {
                assert(units@[18 + (k - 18)] < 81);
            }
        }
    }
    units
}

} // verus!
