use vstd::prelude::*;

verus! {

/// The bit that stands for digit `v` (1 through 9) in a candidate mask.
pub open spec fn digit_mask(v: u32) -> u16 {
    1u16 << ((v - 1) as u16)
}

/// Digit `v` is still a candidate in mask `m`.
pub open spec fn mask_has(m: u16, v: u32) -> bool {
    1 <= v <= 9 && m & digit_mask(v) != 0
}

/// A mask is well formed when only the nine digit bits can be set.
pub open spec fn mask_wf(m: u16) -> bool {
    m < 512
}

/// Number of digits still possible in mask `m` (population count of the nine digit bits).
pub open spec fn mask_count(m: u16) -> int {
    (if m & 1u16 != 0 { 1int } else { 0int }) + (if m & 2u16 != 0 { 1int } else { 0int })
        + (if m & 4u16 != 0 { 1int } else { 0int }) + (if m & 8u16 != 0 { 1int } else { 0int })
        + (if m & 16u16 != 0 { 1int } else { 0int }) + (if m & 32u16 != 0 { 1int } else { 0int })
        + (if m & 64u16 != 0 { 1int } else { 0int }) + (if m & 128u16 != 0 { 1int } else { 0int })
        + (if m & 256u16 != 0 { 1int } else { 0int })
}

/// The smallest digit still possible in `m`, or 0 when no digit is.
pub open spec fn first_digit(m: u16) -> u32 {
    if m & 1u16 != 0 {
        1
    } else if m & 2u16 != 0 {
        2
    } else if m & 4u16 != 0 {
        3
    } else if m & 8u16 != 0 {
        4
    } else if m & 16u16 != 0 {
        5
    } else if m & 32u16 != 0 {
        6
    } else if m & 64u16 != 0 {
        7
    } else if m & 128u16 != 0 {
        8
    } else if m & 256u16 != 0 {
        9
    } else {
        0
    }
}

/// What `Cell::is_solved` reports of a mask: the digit when exactly one remains.
pub open spec fn spec_solved(m: u16) -> Option<u32> {
    if mask_count(m) == 1 {
        Some(first_digit(m))
    } else {
        None
    }
}

/// Mask `a` admits no digit that `b` does not: the candidates of `a` are among those of `b`.
pub open spec fn submask(a: u16, b: u16) -> bool {
    a & !b == 0
}

pub proof fn lemma_count_zero(m: u16)
    requires
        mask_wf(m),
    ensures
        mask_count(m) == 0 <==> m == 0,
{
    assert(m < 512 && m & 1u16 == 0 && m & 2u16 == 0 && m & 4u16 == 0 && m & 8u16 == 0 && m & 16u16
        == 0 && m & 32u16 == 0 && m & 64u16 == 0 && m & 128u16 == 0 && m & 256u16 == 0 ==> m == 0)
        by (bit_vector);
    assert(m == 0 ==> m & 1u16 == 0 && m & 2u16 == 0 && m & 4u16 == 0 && m & 8u16 == 0 && m & 16u16
        == 0 && m & 32u16 == 0 && m & 64u16 == 0 && m & 128u16 == 0 && m & 256u16 == 0)
        by (bit_vector);
}

pub proof fn lemma_submask_count(a: u16, b: u16)
    requires
        submask(a, b),
    ensures
        mask_count(a) <= mask_count(b),
{
    assert(a & !b == 0 ==> (a & 1u16 == 0 || b & 1u16 != 0) && (a & 2u16 == 0 || b & 2u16 != 0)
        && (a & 4u16 == 0 || b & 4u16 != 0) && (a & 8u16 == 0 || b & 8u16 != 0) && (a & 16u16 == 0
        || b & 16u16 != 0) && (a & 32u16 == 0 || b & 32u16 != 0) && (a & 64u16 == 0 || b & 64u16
        != 0) && (a & 128u16 == 0 || b & 128u16 != 0) && (a & 256u16 == 0 || b & 256u16 != 0))
        by (bit_vector);
}

/// Candidate counts of disjoint masks add up over their union.
pub proof fn lemma_count_disjoint_union(x: u16, y: u16)
    requires
        x & y == 0,
    ensures
        mask_count(x | y) == mask_count(x) + mask_count(y),
{
    let u = x | y;
    assert(x & y == 0 && u == x | y ==> (u & 1u16 == 0 || x & 1u16 == 0 || y & 1u16 == 0) && (u
        & 2u16 == 0 || x & 2u16 == 0 || y & 2u16 == 0) && (u & 4u16 == 0 || x & 4u16 == 0 || y
        & 4u16 == 0) && (u & 8u16 == 0 || x & 8u16 == 0 || y & 8u16 == 0) && (u & 16u16 == 0 || x
        & 16u16 == 0 || y & 16u16 == 0) && (u & 32u16 == 0 || x & 32u16 == 0 || y & 32u16 == 0)
        && (u & 64u16 == 0 || x & 64u16 == 0 || y & 64u16 == 0) && (u & 128u16 == 0 || x & 128u16
        == 0 || y & 128u16 == 0) && (u & 256u16 == 0 || x & 256u16 == 0 || y & 256u16 == 0))
        by (bit_vector);
    assert(u == x | y ==> (u & 1u16 != 0 || x & 1u16 == 0 && y & 1u16 == 0) && (u & 2u16 != 0 || x
        & 2u16 == 0 && y & 2u16 == 0) && (u & 4u16 != 0 || x & 4u16 == 0 && y & 4u16 == 0) && (u
        & 8u16 != 0 || x & 8u16 == 0 && y & 8u16 == 0) && (u & 16u16 != 0 || x & 16u16 == 0 && y
        & 16u16 == 0) && (u & 32u16 != 0 || x & 32u16 == 0 && y & 32u16 == 0) && (u & 64u16 != 0
        || x & 64u16 == 0 && y & 64u16 == 0) && (u & 128u16 != 0 || x & 128u16 == 0 && y & 128u16
        == 0) && (u & 256u16 != 0 || x & 256u16 == 0 && y & 256u16 == 0)) by (bit_vector);
    assert(u == x | y ==> (u & 1u16 == 0 || x & 1u16 != 0 || y & 1u16 != 0) && (u & 2u16 == 0 || x
        & 2u16 != 0 || y & 2u16 != 0) && (u & 4u16 == 0 || x & 4u16 != 0 || y & 4u16 != 0) && (u
        & 8u16 == 0 || x & 8u16 != 0 || y & 8u16 != 0) && (u & 16u16 == 0 || x & 16u16 != 0 || y
        & 16u16 != 0) && (u & 32u16 == 0 || x & 32u16 != 0 || y & 32u16 != 0) && (u & 64u16 == 0
        || x & 64u16 != 0 || y & 64u16 != 0) && (u & 128u16 == 0 || x & 128u16 != 0 || y & 128u16
        != 0) && (u & 256u16 == 0 || x & 256u16 != 0 || y & 256u16 != 0)) by (bit_vector);
}

/// The concrete value of each digit's mask bit.
pub proof fn lemma_digit_mask_values()
    ensures
        digit_mask(1) == 1u16,
        digit_mask(2) == 2u16,
        digit_mask(3) == 4u16,
        digit_mask(4) == 8u16,
        digit_mask(5) == 16u16,
        digit_mask(6) == 32u16,
        digit_mask(7) == 64u16,
        digit_mask(8) == 128u16,
        digit_mask(9) == 256u16,
{
    assert(1u16 << 0u16 == 1u16 && 1u16 << 1u16 == 2u16 && 1u16 << 2u16 == 4u16 && 1u16 << 3u16
        == 8u16 && 1u16 << 4u16 == 16u16 && 1u16 << 5u16 == 32u16 && 1u16 << 6u16 == 64u16 && 1u16
        << 7u16 == 128u16 && 1u16 << 8u16 == 256u16) by (bit_vector);
}

pub proof fn lemma_digit_mask_has(v: u32, w: u32)
    requires
        1 <= v <= 9,
    ensures
        mask_has(digit_mask(v), w) <==> w == v,
        mask_count(digit_mask(v)) == 1,
        mask_wf(digit_mask(v)),
        first_digit(digit_mask(v)) == v,
{
    lemma_digit_mask_values();
    let b = (v - 1) as u16;
    if 1 <= w <= 9 {
        let c = (w - 1) as u16;
        assert(b < 9 && c < 9 ==> ((1u16 << b) & (1u16 << c) != 0 <==> b == c)) by (bit_vector);
    }
    assert(b < 9 ==> (1u16 << b) & (1u16 << b) != 0) by (bit_vector);
    assert(b < 9 ==> ((1u16 << b) & 1u16 != 0 <==> b == 0) && ((1u16 << b) & 2u16 != 0 <==> b == 1)
        && ((1u16 << b) & 4u16 != 0 <==> b == 2) && ((1u16 << b) & 8u16 != 0 <==> b == 3) && ((1u16
        << b) & 16u16 != 0 <==> b == 4) && ((1u16 << b) & 32u16 != 0 <==> b == 5) && ((1u16 << b)
        & 64u16 != 0 <==> b == 6) && ((1u16 << b) & 128u16 != 0 <==> b == 7) && ((1u16 << b)
        & 256u16 != 0 <==> b == 8)) by (bit_vector);
}

pub proof fn lemma_remove_count(m: u16, v: u32)
    requires
        1 <= v <= 9,
        mask_has(m, v),
    ensures
        mask_count(m & !digit_mask(v)) == mask_count(m) - 1,
        submask(m & !digit_mask(v), m),
        !mask_has(m & !digit_mask(v), v),
        forall|w: u32| w != v ==> mask_has(m & !digit_mask(v), w) == mask_has(m, w),
        mask_wf(m) ==> mask_wf(m & !digit_mask(v)),
{
    let b = (v - 1) as u16;
    let m2 = m & !(1u16 << b);
    assert(m & (1u16 << b) != 0 ==> m2 == m & !(1u16 << b) ==> m2 & (1u16 << b) == 0 && m2 & !m
        == 0 && m2 | (1u16 << b) == m && m2 & (1u16 << b) == 0 && (m >= 512 || m2 < 512))
        by (bit_vector);
    lemma_digit_mask_has(v, v);
    lemma_count_disjoint_union(m2, digit_mask(v));
    assert forall|w: u32| w != v implies mask_has(m2, w) == mask_has(m, w) by {
        if 1 <= w <= 9 {
            let c = (w - 1) as u16;
            assert(b < 9 && c < 9 && b != c && m2 == m & !(1u16 << b) ==> (m2 & (1u16 << c)) == (m
                & (1u16 << c))) by (bit_vector);
        }
    }
}

pub proof fn lemma_submask_absent(a: u16, b: u16, v: u32)
    requires
        submask(a, b),
        !mask_has(b, v),
        1 <= v <= 9,
    ensures
        !mask_has(a, v),
{
    let c = (v - 1) as u16;
    assert(a & !b == 0 && b & (1u16 << c) == 0 ==> a & (1u16 << c) == 0) by (bit_vector);
}

pub proof fn lemma_submask_trans(a: u16, b: u16, c: u16)
    requires
        submask(a, b),
        submask(b, c),
    ensures
        submask(a, c),
{
    assert(a & !b == 0 && b & !c == 0 ==> a & !c == 0) by (bit_vector);
}

pub proof fn lemma_submask_refl(a: u16)
    ensures
        submask(a, a),
{
    assert(a & !a == 0) by (bit_vector);
}

pub proof fn lemma_solved_mask(m: u16)
    requires
        mask_wf(m),
        mask_count(m) == 1,
    ensures
        1 <= first_digit(m) <= 9,
        m == digit_mask(first_digit(m)),
        mask_has(m, first_digit(m)),
        forall|w: u32| mask_has(m, w) ==> w == first_digit(m),
{
    lemma_count_zero(m);
    let fd = first_digit(m);
    assert(mask_has(m, fd)) by {
        lemma_digit_mask_values();
    }
    lemma_remove_count(m, fd);
    let m2 = m & !digit_mask(fd);
    lemma_count_zero(m2);
    let b = (fd - 1) as u16;
    assert(m & !(1u16 << b) == 0 && m & (1u16 << b) != 0 ==> m == 1u16 << b) by (bit_vector);
    assert forall|w: u32| mask_has(m, w) implies w == fd by {
        lemma_digit_mask_has(fd, w);
    }
}

pub proof fn lemma_mask_or(a: u16, b: u16)
    ensures
        forall|w: u32| mask_has(a | b, w) <==> mask_has(a, w) || mask_has(b, w),
        mask_wf(a) && mask_wf(b) ==> mask_wf(a | b),
{
    assert(a < 512 && b < 512 ==> (a | b) < 512) by (bit_vector);
    assert forall|w: u32| mask_has(a | b, w) <==> (mask_has(a, w) || mask_has(b, w)) by {
        if 1 <= w <= 9 {
            let c = (w - 1) as u16;
            assert((a | b) & (1u16 << c) != 0 <==> a & (1u16 << c) != 0 || b & (1u16 << c) != 0)
                by (bit_vector);
        }
    }
}

pub proof fn lemma_zero_mask()
    ensures
        mask_count(0u16) == 0,
        forall|w: u32| !mask_has(0u16, w),
        mask_wf(0u16),
{
    assert(0u16 & 1u16 == 0 && 0u16 & 2u16 == 0 && 0u16 & 4u16 == 0 && 0u16 & 8u16 == 0 && 0u16
        & 16u16 == 0 && 0u16 & 32u16 == 0 && 0u16 & 64u16 == 0 && 0u16 & 128u16 == 0 && 0u16
        & 256u16 == 0) by (bit_vector);
    assert forall|w: u32| !mask_has(0u16, w) by {
        if 1 <= w <= 9 {
            let c = (w - 1) as u16;
            assert(0u16 & (1u16 << c) == 0) by (bit_vector);
        }
    }
}

/// A well-formed mask holding all nine candidates is the open mask.
pub proof fn lemma_count_nine(m: u16)
    requires
        mask_wf(m),
        mask_count(m) == 9,
    ensures
        m == 511u16,
{
    assert(m < 512 && m & 1u16 != 0 && m & 2u16 != 0 && m & 4u16 != 0 && m & 8u16 != 0 && m & 16u16
        != 0 && m & 32u16 != 0 && m & 64u16 != 0 && m & 128u16 != 0 && m & 256u16 != 0 ==> m
        == 511u16) by (bit_vector);
}

/// A mask that admits no digit but possibly `v` is the single bit of `v`, or empty.
pub proof fn lemma_only_digit(m: u16, v: u32)
    requires
        mask_wf(m),
        1 <= v <= 9,
        forall|w: u32| 1 <= w <= 9 && w != v ==> !mask_has(m, w),
    ensures
        submask(m, digit_mask(v)),
        m != 0 ==> m == digit_mask(v),
{
    lemma_digit_mask_values();
    let b = (v - 1) as u16;
    assert(v != 1 ==> !mask_has(m, 1));
    assert(v != 2 ==> !mask_has(m, 2));
    assert(v != 3 ==> !mask_has(m, 3));
    assert(v != 4 ==> !mask_has(m, 4));
    assert(v != 5 ==> !mask_has(m, 5));
    assert(v != 6 ==> !mask_has(m, 6));
    assert(v != 7 ==> !mask_has(m, 7));
    assert(v != 8 ==> !mask_has(m, 8));
    assert(v != 9 ==> !mask_has(m, 9));
    assert(m < 512 && b < 9 && (b != 0 ==> m & 1u16 == 0) && (b != 1 ==> m & 2u16 == 0) && (b != 2
        ==> m & 4u16 == 0) && (b != 3 ==> m & 8u16 == 0) && (b != 4 ==> m & 16u16 == 0) && (b != 5
        ==> m & 32u16 == 0) && (b != 6 ==> m & 64u16 == 0) && (b != 7 ==> m & 128u16 == 0) && (b
        != 8 ==> m & 256u16 == 0) ==> m & !(1u16 << b) == 0 && (m == 0 || m == 1u16 << b))
        by (bit_vector);
}

/// Only the empty mask narrows the empty mask.
pub proof fn lemma_submask_zero(a: u16)
    requires
        submask(a, 0u16),
    ensures
        a == 0,
{
    assert(a & !0u16 == 0 ==> a == 0) by (bit_vector);
}

/// The open mask admits all nine digits.
pub proof fn lemma_full_mask()
    ensures
        mask_count(511u16) == 9,
        mask_wf(511u16),
        forall|v: u32| 1 <= v <= 9 ==> mask_has(511u16, v),
{
    assert(511u16 & 1u16 != 0 && 511u16 & 2u16 != 0 && 511u16 & 4u16 != 0 && 511u16 & 8u16 != 0
        && 511u16 & 16u16 != 0 && 511u16 & 32u16 != 0 && 511u16 & 64u16 != 0 && 511u16 & 128u16
        != 0 && 511u16 & 256u16 != 0) by (bit_vector);
    assert forall|v: u32| 1 <= v <= 9 implies mask_has(511u16, v) by {
        let b = (v - 1) as u16;
        assert(b < 9 ==> 511u16 & (1u16 << b) != 0) by (bit_vector);
    }
}

/// One cell of the grid: a nine-bit candidate mask over the digits 1 through 9.
#[derive(Clone, Copy, Debug, PartialEq, Eq, Structural)]
pub struct Cell {
    pub possible: u16,
}

impl Default for Cell {
    /// The fully open cell.
    fn default() -> (r: Cell)
        ensures
            r.possible == 511u16,
    {
        Cell::open()
    }
}

impl Cell {
    /// The fully open cell, where every digit 1 through 9 is still a candidate.
    pub fn open() -> (r: Cell)
        ensures
            r.possible == 511u16,
            mask_count(r.possible) == 9,
            mask_wf(r.possible),
    {
        proof {
            assert(511u16 & 1u16 != 0 && 511u16 & 2u16 != 0 && 511u16 & 4u16 != 0 && 511u16 & 8u16
                != 0 && 511u16 & 16u16 != 0 && 511u16 & 32u16 != 0 && 511u16 & 64u16 != 0 && 511u16
                & 128u16 != 0 && 511u16 & 256u16 != 0) by (bit_vector);
        }
        Cell { possible: 0b111_111_111u16 }
    }

    /// Clears the bit for `value`; reports whether the mask is still non-zero
    /// (true: still viable, false: contradiction).
    pub fn remove(&mut self, value: u32) -> (r: bool)
        requires
            1 <= value <= 9,
        ensures
            final(self).possible == old(self).possible & !digit_mask(value),
            r == (final(self).possible != 0u16),
            submask(final(self).possible, old(self).possible),
            !mask_has(final(self).possible, value),
            mask_wf(old(self).possible) ==> mask_wf(final(self).possible),
    {
        proof {
            let m = self.possible;
            let b = (value - 1) as u16;
            assert((m & !(1u16 << b)) & !m == 0 && (m & !(1u16 << b)) & (1u16 << b) == 0 && (m
                >= 512 || (m & !(1u16 << b)) < 512)) by (bit_vector);
        }
        self.possible = self.possible & !(1u16 << ((value - 1) as u16));
        self.possible != 0
    }

    /// The single remaining digit when exactly one candidate is left, else `None`.
    pub fn is_solved(&self) -> (r: Option<u32>)
        ensures
            r == spec_solved(self.possible),
    {
        if self.count() == 1 {
            let m = self.possible;
            if m & 1 != 0 {
                Some(1)
            } else if m & 2 != 0 {
                Some(2)
            } else if m & 4 != 0 {
                Some(3)
            } else if m & 8 != 0 {
                Some(4)
            } else if m & 16 != 0 {
                Some(5)
            } else if m & 32 != 0 {
                Some(6)
            } else if m & 64 != 0 {
                Some(7)
            } else if m & 128 != 0 {
                Some(8)
            } else if m & 256 != 0 {
                Some(9)
            } else {
                None
            }
        } else {
            None
        }
    }

    /// How many digits are still candidates.
    pub fn count(&self) -> (r: usize)
        ensures
            r == mask_count(self.possible),
    {
        let m = self.possible;
        let mut n: usize = 0;
        if m & 1 != 0 {
            n += 1;
        }
        if m & 2 != 0 {
            n += 1;
        }
        if m & 4 != 0 {
            n += 1;
        }
        if m & 8 != 0 {
            n += 1;
        }
        if m & 16 != 0 {
            n += 1;
        }
        if m & 32 != 0 {
            n += 1;
        }
        if m & 64 != 0 {
            n += 1;
        }
        if m & 128 != 0 {
            n += 1;
        }
        if m & 256 != 0 {
            n += 1;
        }
        n
    }

    /// Bit test for one digit.
    pub fn contains(&self, value: u32) -> (r: bool)
        requires
            1 <= value <= 9,
        ensures
            r == mask_has(self.possible, value),
    {
        self.possible & (1u16 << ((value - 1) as u16)) != 0
    }

    /// The digits still possible, in ascending order.
    pub fn possible_values(&self) -> (r: Vec<u32>)
        ensures
            forall|k: int| 0 <= k < r@.len() ==> mask_has(self.possible, #[trigger] r@[k]),
            forall|v: u32| mask_has(self.possible, v) ==> r@.contains(v),
            forall|k1: int, k2: int| 0 <= k1 < k2 < r@.len() ==> r@[k1] < r@[k2],
    {
        let mut r: Vec<u32> = Vec::new();
        let mut v: u32 = 1;
        while v <= 9
            invariant
                1 <= v <= 10,
                forall|k: int| 0 <= k < r@.len() ==> mask_has(self.possible, #[trigger] r@[k]),
                forall|k: int| 0 <= k < r@.len() ==> #[trigger] r@[k] < v,
                forall|k1: int, k2: int| 0 <= k1 < k2 < r@.len() ==> r@[k1] < r@[k2],
                forall|w: u32| w < v && mask_has(self.possible, w) ==> r@.contains(w),
            decreases 10 - v,
        {
            if self.contains(v) {
                let ghost prev = r@;
                r.push(v);
                proof {
                    assert forall|w: u32|
                        w < v + 1 && mask_has(self.possible, w) implies r@.contains(w) by {
                        if w < v {
                            let k = choose|k: int| 0 <= k < prev.len() && prev[k] == w;
                            assert(r@[k] == w);
                        } else {
                            assert(r@[r@.len() - 1] == v);
                        }
                    }
                    assert forall|k1: int, k2: int|
                        0 <= k1 < k2 < r@.len() implies r@[k1] < r@[k2] by {
                        if k2 == r@.len() - 1 {
                            assert(r@[k1] == prev[k1]);
                        } else {
                            assert(r@[k1] == prev[k1] && r@[k2] == prev[k2]);
                        }
                    }
                }
            }
            v += 1;
        }
        r
    }
}

} // verus!
