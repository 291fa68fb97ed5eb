//! Quadtree addressing: level geometry and the dense identity of a tile.

use vstd::prelude::*;

verus! {

/// The deepest level whose identities all fit in 64 bits.
pub const MAX_LEVEL: u64 = 31;

/// Number of tiles along one side of the grid at `level`: two to the power `level`.
pub open spec fn side(level: nat) -> nat
    decreases level,
{
    if level == 0 {
        1
    } else {
        2 * side((level - 1) as nat)
    }
}

/// Number of tiles in the full grid at `level`: four to the power `level`.
pub open spec fn pow4(level: nat) -> nat
    decreases level,
{
    if level == 0 {
        1
    } else {
        4 * pow4((level - 1) as nat)
    }
}

/// First identity of `level`: the number of positions on all coarser levels.
pub open spec fn level_start(level: nat) -> nat {
    ((pow4(level) - 1) / 3) as nat
}

/// Whether `(x, y)` lies inside the square grid of `level`.
pub open spec fn in_grid(level: nat, x: nat, y: nat) -> bool {
    x < side(level) && y < side(level)
}

/// The dense identity of the tile `(x, y)` at `level`.
pub open spec fn identity_of(level: nat, x: nat, y: nat) -> nat {
    level_start(level) + y * side(level) + x
}

pub proof fn lemma_pow4_is_square(level: nat)
    ensures
        pow4(level) == side(level) * side(level),
        pow4(level) % 3 == 1,
        side(level) >= 1,
    decreases level,
{
    if level > 0 {
        lemma_pow4_is_square((level - 1) as nat);
        let s = side((level - 1) as nat);
        assert((2 * s) * (2 * s) == 4 * (s * s)) by (nonlinear_arith);
        assert(side(level) == 2 * s);
        assert(pow4(level) == 4 * (s * s));
    } else {
        assert(side(0) == 1);
        assert(pow4(0) == 1);
        assert(1 * 1 == 1);
    }
}

/// Each level begins where the coarser one ends.
pub proof fn lemma_level_start_step(level: nat)
    ensures
        level_start(level + 1) == level_start(level) + pow4(level),
{
    lemma_pow4_is_square(level);
    lemma_pow4_is_square(level + 1);
}

pub proof fn lemma_level_start_monotone(a: nat, b: nat)
    requires
        a <= b,
    ensures
        level_start(a) <= level_start(b),
    decreases b - a,
{
    if a < b {
        lemma_level_start_monotone(a, (b - 1) as nat);
        lemma_level_start_step((b - 1) as nat);
    }
}

/// The identities of a level fill exactly the range from its start to the
/// start of the next finer level.
pub proof fn lemma_identity_range(level: nat, x: nat, y: nat)
    requires
        in_grid(level, x, y),
    ensures
        level_start(level) <= identity_of(level, x, y) < level_start(level + 1),
{
    lemma_pow4_is_square(level);
    lemma_level_start_step(level);
    let s = side(level);
    assert(y * s + x < s * s) by (nonlinear_arith)
        requires
            x < s,
            y < s,
    ;
}

/// No two distinct positions of the pyramid share an identity.
pub proof fn lemma_identity_injective(l1: nat, x1: nat, y1: nat, l2: nat, x2: nat, y2: nat)
    requires
        in_grid(l1, x1, y1),
        in_grid(l2, x2, y2),
        identity_of(l1, x1, y1) == identity_of(l2, x2, y2),
    ensures
        l1 == l2,
        x1 == x2,
        y1 == y2,
{
    lemma_identity_range(l1, x1, y1);
    lemma_identity_range(l2, x2, y2);
    if l1 < l2 {
        lemma_level_start_monotone(l1 + 1, l2);
    }
    if l2 < l1 {
        lemma_level_start_monotone(l2 + 1, l1);
    }
    let s = side(l1);
    assert(x1 == x2 && y1 == y2) by (nonlinear_arith)
        requires
            x1 < s,
            x2 < s,
            y1 * s + x1 == y2 * s + x2,
    ;
}

pub proof fn lemma_side_bound(level: nat)
    requires
        level <= 32,
    ensures
        side(level) <= 0x1_0000_0000,
        pow4(level) <= 0x1_0000_0000_0000_0000,
    decreases level,
{
    if level > 0 {
        lemma_side_bound((level - 1) as nat);
        lemma_pow4_is_square(level);
        lemma_pow4_is_square((level - 1) as nat);
        if level == 32 {
            lemma_side_exact(31);
        } else {
            lemma_side_strict((level - 1) as nat);
        }
        let s = side(level);
        assert(s * s <= 0x1_0000_0000_0000_0000) by (nonlinear_arith)
            requires
                s <= 0x1_0000_0000,
        ;
    }
}

proof fn lemma_side_exact(level: nat)
    requires
        level == 31,
    ensures
        side(level) == 0x8000_0000,
{
    reveal_with_fuel(side, 32);
}

proof fn lemma_side_strict(level: nat)
    requires
        level < 31,
    ensures
        side(level) <= 0x4000_0000,
    decreases 31 - level,
{
    lemma_side_exact(31);
    lemma_side_grows(level, 30);
    reveal_with_fuel(side, 2);
}

pub proof fn lemma_side_grows(a: nat, b: nat)
    requires
        a <= b,
    ensures
        side(a) <= side(b),
    decreases b - a,
{
    if a < b {
        lemma_side_grows(a, (b - 1) as nat);
    }
}

/// Side length of the grid at `level`.
pub fn grid_side(level: u64) -> (s: u64)
    requires
        level <= MAX_LEVEL,
    ensures
        s == side(level as nat),
        1 <= s <= 0x8000_0000,
{
    let mut s: u64 = 1;
    let mut i: u64 = 0;
    proof {
        lemma_side_exact(31);
    }
    while i < level
        invariant
            i <= level <= MAX_LEVEL,
            s == side(i as nat),
            side(31) == 0x8000_0000,
        decreases level - i,
    {
        proof {
            lemma_side_grows((i + 1) as nat, 31);
        }
        s = s * 2;
        i = i + 1;
    }
    proof {
        lemma_side_grows(level as nat, 31);
        lemma_pow4_is_square(level as nat);
    }
    s
}

/// Whether `(x, y)` is a position of the grid at `level`.
pub fn contains(level: u64, x: u64, y: u64) -> (b: bool)
    requires
        level <= MAX_LEVEL,
    ensures
        b == in_grid(level as nat, x as nat, y as nat),
{
    let s = grid_side(level);
    x < s && y < s
}

/// The identity of the tile `(x, y)` at `level`.
pub fn identity(level: u64, x: u64, y: u64) -> (id: u64)
    requires
        level <= MAX_LEVEL,
        in_grid(level as nat, x as nat, y as nat),
    ensures
        id == identity_of(level as nat, x as nat, y as nat),
        level_start(level as nat) <= id < level_start(level as nat + 1),
{
    let s = grid_side(level);
    proof {
        lemma_pow4_is_square(level as nat);
        lemma_identity_range(level as nat, x as nat, y as nat);
        lemma_level_start_step(level as nat);
        assert(s * s <= 0x4000_0000_0000_0000) by (nonlinear_arith)
            requires
                s <= 0x8000_0000,
        ;
        assert(y * s + x < s * s) by (nonlinear_arith)
            requires
                x < s,
                y < s,
        ;
        assert(y * s <= y * s + x);
    }
    let cells: u64 = s * s;
    let start: u64 = (cells - 1) / 3;
    start + y * s + x
}

/// A child of a grid position is a position of the next finer grid.
pub proof fn lemma_child_in_grid(level: nat, x: nat, y: nat, dx: nat, dy: nat)
    requires
        in_grid(level, x, y),
        dx <= 1,
        dy <= 1,
    ensures
        in_grid(level + 1, 2 * x + dx, 2 * y + dy),
{
}

} // verus!
