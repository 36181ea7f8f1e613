use vstd::prelude::*;

verus! {

/// Offset of a quadrant in the recursive construction: top-left 0, top-right 2,
/// bottom-left 3, bottom-right 1.
pub open spec fn corner(right: bool, bottom: bool) -> nat {
    if !bottom {
        if !right { 0 } else { 2 }
    } else {
        if !right { 3 } else { 1 }
    }
}

/// Side of the threshold matrix of order `n`.
pub open spec fn side(n: nat) -> nat
    decreases n,
{
    if n == 0 { 2 } else { 2 * side((n - 1) as nat) }
}

/// Position within its quadrant of a coordinate below `2 * h`.
pub open spec fn local(c: nat, h: nat) -> nat {
    if c >= h { (c - h) as nat } else { c }
}

/// Value of the order-`n` Bayer matrix at column `x`, row `y`, for `x` and `y`
/// below `side(n)`: the order-`n - 1` matrix tiled into four quadrants, each
/// entry times four plus the quadrant's offset.
pub open spec fn bayer_at(n: nat, x: nat, y: nat) -> nat
    decreases n,
{
    if n == 0 {
        corner(x == 1, y == 1)
    } else {
        4 * bayer_at((n - 1) as nat, local(x, side((n - 1) as nat)), local(y, side((n - 1) as nat)))
            + corner(x >= side((n - 1) as nat), y >= side((n - 1) as nat))
    }
}

/// The order-`n` matrix, row-major.
pub open spec fn bayer_seq(n: nat) -> Seq<nat> {
    Seq::new(side(n) * side(n), |i: int| bayer_at(n, (i % side(n) as int) as nat, (i / side(n) as int) as nat))
}

proof fn lemma_unfold(n: nat, x: nat, y: nat)
    requires n > 0,
    ensures
        side(n) == 2 * side((n - 1) as nat),
        bayer_at(n, x, y) == 4 * bayer_at((n - 1) as nat, local(x, side((n - 1) as nat)), local(y, side((n - 1) as nat)))
            + corner(x >= side((n - 1) as nat), y >= side((n - 1) as nat)),
        corner(x >= side((n - 1) as nat), y >= side((n - 1) as nat)) <= 3,
{
    reveal_with_fuel(bayer_at, 2);
    assert(side(n) == 2 * side((n - 1) as nat));
    let h = side((n - 1) as nat);
    assert(bayer_at(n, x, y) == 4 * bayer_at((n - 1) as nat, local(x, h), local(y, h)) + corner(x >= h, y >= h));
}

pub(crate) proof fn lemma_seq_at(n: nat, i: int)
    requires 0 <= i < side(n) * side(n),
    ensures bayer_seq(n)[i] == bayer_at(n, (i % side(n) as int) as nat, (i / side(n) as int) as nat),
{
    assert(bayer_seq(n).len() == side(n) * side(n));
}

proof fn lemma_side_small(n: nat)
    requires n <= 3,
    ensures
        n == 0 ==> side(n) == 2,
        n == 1 ==> side(n) == 4,
        n == 2 ==> side(n) == 8,
        n == 3 ==> side(n) == 16,
{
    reveal_with_fuel(side, 4);
}

proof fn lemma_side_pos(n: nat)
    ensures side(n) >= 2,
    decreases n,
{
    if n > 0 {
        lemma_side_pos((n - 1) as nat);
    }
}

/// Every entry of the order-`n` matrix is below `side(n)^2`.
pub proof fn lemma_bayer_bound(n: nat, x: nat, y: nat)
    ensures bayer_at(n, x, y) < side(n) * side(n),
    decreases n,
{
    if n > 0 {
        let h = side((n - 1) as nat);
        lemma_side_pos((n - 1) as nat);
        lemma_bayer_bound((n - 1) as nat, local(x, h), local(y, h));
        let p = bayer_at((n - 1) as nat, local(x, h), local(y, h));
        lemma_unfold(n, x, y);
        assert(4 * p + 3 < (2 * h) * (2 * h)) by (nonlinear_arith)
            requires p < h * h;
    } else {
        assert(side(n) == 2);
    }
}

/// The order-1 matrix holds each of 0 to 15 exactly once, and its top-left
/// quadrant is the order-0 matrix times four.
pub proof fn lemma_order_one()
    ensures
        bayer_seq(0) == seq![0nat, 2, 3, 1],
        bayer_seq(1).len() == 16,
        forall|i: int| 0 <= i < 16 ==> #[trigger] bayer_seq(1)[i] < 16,
        forall|i: int, j: int| 0 <= i < 16 && 0 <= j < 16 && i != j ==> bayer_seq(1)[i] != bayer_seq(1)[j],
        forall|v: nat| v < 16 ==> #[trigger] bayer_seq(1).contains(v),
        forall|x: nat, y: nat| x < 2 && y < 2 ==> #[trigger] bayer_at(1, x, y) == 4 * bayer_at(0, x, y),
{
    lemma_side_small(0);
    lemma_side_small(1);
    reveal_with_fuel(bayer_at, 2);
    assert(bayer_seq(0) =~= seq![0nat, 2, 3, 1]) by {
        lemma_seq_at(0, 0);
        lemma_seq_at(0, 1);
        lemma_seq_at(0, 2);
        lemma_seq_at(0, 3);
    }
    assert(bayer_seq(1)[0] == 0) by { lemma_seq_at(1, 0); }
    assert(bayer_seq(1)[1] == 8) by { lemma_seq_at(1, 1); }
    assert(bayer_seq(1)[2] == 2) by { lemma_seq_at(1, 2); }
    assert(bayer_seq(1)[3] == 10) by { lemma_seq_at(1, 3); }
    assert(bayer_seq(1)[4] == 12) by { lemma_seq_at(1, 4); }
    assert(bayer_seq(1)[5] == 4) by { lemma_seq_at(1, 5); }
    assert(bayer_seq(1)[6] == 14) by { lemma_seq_at(1, 6); }
    assert(bayer_seq(1)[7] == 6) by { lemma_seq_at(1, 7); }
    assert(bayer_seq(1)[8] == 3) by { lemma_seq_at(1, 8); }
    assert(bayer_seq(1)[9] == 11) by { lemma_seq_at(1, 9); }
    assert(bayer_seq(1)[10] == 1) by { lemma_seq_at(1, 10); }
    assert(bayer_seq(1)[11] == 9) by { lemma_seq_at(1, 11); }
    assert(bayer_seq(1)[12] == 15) by { lemma_seq_at(1, 12); }
    assert(bayer_seq(1)[13] == 7) by { lemma_seq_at(1, 13); }
    assert(bayer_seq(1)[14] == 13) by { lemma_seq_at(1, 14); }
    assert(bayer_seq(1)[15] == 5) by { lemma_seq_at(1, 15); }
    let s = seq![0nat, 8, 2, 10, 12, 4, 14, 6, 3, 11, 1, 9, 15, 7, 13, 5];
    assert(bayer_seq(1) =~= s);
    assert forall|v: nat| v < 16 implies #[trigger] bayer_seq(1).contains(v) by {
        if v == 0 { assert(bayer_seq(1)[0] == v); }
        if v == 8 { assert(bayer_seq(1)[1] == v); }
        if v == 2 { assert(bayer_seq(1)[2] == v); }
        if v == 10 { assert(bayer_seq(1)[3] == v); }
        if v == 12 { assert(bayer_seq(1)[4] == v); }
        if v == 4 { assert(bayer_seq(1)[5] == v); }
        if v == 14 { assert(bayer_seq(1)[6] == v); }
        if v == 6 { assert(bayer_seq(1)[7] == v); }
        if v == 3 { assert(bayer_seq(1)[8] == v); }
        if v == 11 { assert(bayer_seq(1)[9] == v); }
        if v == 1 { assert(bayer_seq(1)[10] == v); }
        if v == 9 { assert(bayer_seq(1)[11] == v); }
        if v == 15 { assert(bayer_seq(1)[12] == v); }
        if v == 7 { assert(bayer_seq(1)[13] == v); }
        if v == 13 { assert(bayer_seq(1)[14] == v); }
        if v == 5 { assert(bayer_seq(1)[15] == v); }
    }
}

fn side_of(n: u64) -> (r: usize)
    requires n <= 3,
    ensures r == side(n as nat),
{
    proof { lemma_side_small(n as nat); }
    if n == 0 { 2 } else if n == 1 { 4 } else if n == 2 { 8 } else { 16 }
}

/// Builds the order-`n` threshold matrix, of side `2^(n+1)`, row-major.
pub fn bayer_matrix(n: u64) -> (r: Vec<u64>)
    requires n <= 3,
    ensures
        r@.len() == bayer_seq(n as nat).len(),
        forall|i: int| 0 <= i < r@.len() ==> r@[i] as nat == #[trigger] bayer_seq(n as nat)[i],
        n == 0 ==> r@ == seq![0u64, 2, 3, 1],
    decreases n,
{
    if n == 0 {
        let r: Vec<u64> = vec![0, 2, 3, 1];
        proof {
            reveal_with_fuel(side, 2);
            assert(r@ == seq![0u64, 2, 3, 1]);
            assert forall|i: int| 0 <= i < r@.len() implies r@[i] as nat == #[trigger] bayer_seq(0)[i] by {
                assert(side(0) == 2);
                lemma_seq_at(0, i);
                assert(i == 0 || i == 1 || i == 2 || i == 3);
            }
        }
        return r;
    }
    let prev = bayer_matrix(n - 1);
    let h = side_of(n - 1);
    let m = side_of(n);
    proof { lemma_side_small(n as nat); lemma_side_small((n - 1) as nat); }
    let ghost nn = n as nat;
    proof {
        assert(m * m <= 256 && h * h <= 64) by (nonlinear_arith)
            requires m <= 16, h <= 8;
    }
    let mut out: Vec<u64> = Vec::new();
    let mut i: usize = 0;
    while i < m * m
        invariant
            1 <= n <= 3,
            nn == n as nat,
            h == side((n - 1) as nat),
            m == side(n as nat),
            m == 2 * h,
            2 <= h <= 8,
            m <= 16,
            m * m <= 256,
            h * h <= 64,
            i <= m * m,
            prev@.len() == h * h,
            forall|j: int| 0 <= j < prev@.len() ==> prev@[j] as nat == #[trigger] bayer_seq((n - 1) as nat)[j],
            out@.len() == i,
            forall|j: int| 0 <= j < i ==> out@[j] as nat == #[trigger] bayer_seq(nn)[j],
        decreases m * m - i,
    {
        let x = i % m;
        let y = i / m;
        proof {
            assert(y < m) by (nonlinear_arith)
                requires i < m * m, y == i / m, m > 0;
        }
        let c: u64 = if y < h {
            if x < h { 0 } else { 2 }
        } else {
            if x < h { 3 } else { 1 }
        };
        let xl = if x >= h { x - h } else { x };
        let yl = if y >= h { y - h } else { y };
        proof {
            assert(yl * h + xl < h * h) by (nonlinear_arith)
                requires yl < h, xl < h;
            assert(yl * h <= 64) by (nonlinear_arith)
                requires yl < h, h <= 8;
        }
        let idx = yl * h + xl;
        proof {
            vstd::arithmetic::div_mod::lemma_fundamental_div_mod_converse(idx as int, h as int, yl as int, xl as int);
            lemma_bayer_bound((n - 1) as nat, xl as nat, yl as nat);
            assert(prev@[idx as int] as nat == bayer_seq((n - 1) as nat)[idx as int]);
            lemma_seq_at((n - 1) as nat, idx as int);
            assert(bayer_seq((n - 1) as nat)[idx as int] == bayer_at((n - 1) as nat, xl as nat, yl as nat));
            assert(prev@[idx as int] < 64);
        }
        let v = 4 * prev[idx] + c;
        out.push(v);
        proof {
            lemma_seq_at(nn, i as int);
            lemma_unfold(nn, x as nat, y as nat);
            assert(bayer_seq(nn)[i as int] == bayer_at(nn, x as nat, y as nat));
        }
        i = i + 1;
    }
    out
}

} // verus!
