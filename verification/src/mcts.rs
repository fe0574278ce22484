//! Monte-Carlo tree search with UCT selection. The tree is an arena of
//! nodes owned by one search call: each node keeps its board, a visit count
//! `n`, a cumulative value `w` (each recorded outcome adds `-1`, `0` or
//! `+1`, seen from the node's own side), and its children, one per open
//! column, created on expansion. The UCT score `w/n + sqrt(2*ln(N)/n)` is
//! computed in fixed-point integer arithmetic with 12 fractional bits.

use crate::board::{
    board_full, board_next, board_wf, col_open, lemma_board_next, piece_count, union_of, Board,
};
use crate::count::lemma_pcount_le;
use crate::lines::board_win;
use crate::rng::{get_random, random_below};
use vstd::prelude::*;

verus! {

/// The ceiling kept on every visit count, far below any overflow.
pub open spec fn visit_cap() -> u64 {
    0x8_0000_0000
}

/// The per-child statistics a finished search reports: the action, the
/// child's visits `na` and cumulative value `w`, and the root's visits `n`.
/// The child's visit share is `na / n` and its mean value `w / na`.
pub struct Score {
    pub action: u8,
    pub na: u64,
    pub w: i64,
    pub n: u64,
}

/// A search tree: an arena, the root at index 0, one entry per node in each
/// column. A child is an `(action, index)` pair.
pub struct Node {
    boards: Vec<Board>,
    ns: Vec<u64>,
    ws: Vec<i64>,
    kids: Vec<Vec<(u8, usize)>>,
}

/// The board a tree node holds.
pub closed spec fn node_board(t: Node, i: int) -> Board {
    t.boards@[i]
}

/// A tree node's visit count.
pub closed spec fn node_n(t: Node, i: int) -> u64 {
    t.ns@[i]
}

/// A tree node's cumulative value.
pub closed spec fn node_w(t: Node, i: int) -> i64 {
    t.ws@[i]
}

/// How many nodes the arena holds.
pub closed spec fn node_count(t: Node) -> int {
    t.boards@.len() as int
}

/// How many children a node has.
pub closed spec fn kid_count(t: Node, i: int) -> int {
    t.kids@[i]@.len() as int
}

/// A node's child list.
pub closed spec fn node_kids(t: Node, i: int) -> Seq<(u8, usize)> {
    t.kids@[i]@
}

/// The arena is consistent: the columns line up, every board is well formed,
/// every node has been visited at least once, `|w| <= n`, and each child
/// entry points into the arena at the board its action produces, children
/// listed in ascending action order at pairwise distinct indices.
pub closed spec fn tree_wf(t: Node) -> bool {
    &&& t.boards@.len() >= 1
    &&& t.ns@.len() == t.boards@.len()
    &&& t.ws@.len() == t.boards@.len()
    &&& t.kids@.len() == t.boards@.len()
    &&& forall|i: int| 0 <= i < t.boards@.len() ==> board_wf(#[trigger] t.boards@[i])
    &&& forall|i: int| 0 <= i < t.ns@.len() ==> 1 <= #[trigger] t.ns@[i]
    &&& forall|i: int|
        0 <= i < t.ns@.len() ==> -(#[trigger] t.ns@[i] as int) < t.ws@[i] < t.ns@[i] as int
    &&& forall|i: int, j: int|
        0 <= i < t.kids@.len() && 0 <= j < t.kids@[i]@.len() ==> {
            let (a, k) = #[trigger] t.kids@[i]@[j];
            &&& a < 16
            &&& col_open(union_of(t.boards@[i]), a as u64)
            &&& k < t.boards@.len()
            &&& t.boards@[k as int] == board_next(t.boards@[i], a as u64)
            &&& piece_count(t.boards@[k as int]) == piece_count(t.boards@[i]) + 1
        }
    &&& forall|i: int, j1: int, j2: int|
        0 <= i < t.kids@.len() && 0 <= j1 < j2 < t.kids@[i]@.len() ==> #[trigger] t.kids@[i]@[j1].0
            < #[trigger] t.kids@[i]@[j2].0 && t.kids@[i]@[j1].1 != t.kids@[i]@[j2].1
    &&& forall|i: int|
        0 <= i < t.kids@.len() && (#[trigger] t.kids@[i])@.len() > 0 ==> kids_complete(t, i)
}

/// An expanded node's children cover every open column of its board.
pub closed spec fn kids_complete(t: Node, i: int) -> bool {
    forall|c: u8|
        c < 16 && #[trigger] col_open(union_of(t.boards@[i]), c as u64) ==> exists|j: int|
            0 <= j < t.kids@[i]@.len() && (#[trigger] t.kids@[i]@[j]).0 == c
}

/// Completeness carries over to a tree that keeps a node's board and
/// children.
proof fn lemma_kids_complete_carry(t1: Node, t2: Node, i: int)
    requires
        0 <= i < t1.kids@.len(),
        0 <= i < t1.boards@.len(),
        0 <= i < t2.kids@.len(),
        0 <= i < t2.boards@.len(),
        t2.boards@[i] == t1.boards@[i],
        t2.kids@[i]@ == t1.kids@[i]@,
        kids_complete(t1, i),
    ensures
        kids_complete(t2, i),
{
    assert forall|c: u8|
        c < 16 && #[trigger] col_open(union_of(t2.boards@[i]), c as u64) implies exists|j: int|
        0 <= j < t2.kids@[i]@.len() && (#[trigger] t2.kids@[i]@[j]).0 == c by {
        assert(col_open(union_of(t1.boards@[i]), c as u64));
        let j = choose|j: int|
            0 <= j < t1.kids@[i]@.len() && (#[trigger] t1.kids@[i]@[j]).0 == c;
        assert(t2.kids@[i]@[j].0 == c);
    }
}

/// Every visit count stays at or below `lim`.
pub closed spec fn visits_bounded(t: Node, lim: u64) -> bool {
    forall|i: int| 0 <= i < t.ns@.len() ==> #[trigger] t.ns@[i] <= lim
}

/// A visit bound weakens upward: callers raise the bound a fresh tree gives
/// (`Node::new` ensures `visits_bounded(t, 1)`) to the bound `search` asks.
pub proof fn lemma_visits_bounded_mono(t: Node, a: u64, b: u64)
    requires
        visits_bounded(t, a),
        a <= b,
    ensures
        visits_bounded(t, b),
{
}

/// The sum of the visit counts of a node's first `k` children.
pub closed spec fn kid_n_sum(t: Node, i: int, k: int) -> int
    decreases k,
{
    if k <= 0 {
        0
    } else {
        kid_n_sum(t, i, k - 1) + t.ns@[t.kids@[i]@[k - 1].1 as int]
    }
}

/// The sum of the `na` fields of a score list.
pub open spec fn na_sum(s: Seq<Score>) -> int
    decreases s.len(),
{
    if s.len() == 0 {
        0
    } else {
        na_sum(s.drop_last()) + s.last().na
    }
}

/// When one child's visit count rises by one and its siblings keep theirs,
/// the children's sum rises by one.
proof fn lemma_kid_sum_bump(t1: Node, t2: Node, i: int, k: int, c: int)
    requires
        0 <= i < t1.kids@.len(),
        i < t2.kids@.len(),
        t2.kids@[i]@ == t1.kids@[i]@,
        0 <= k <= t1.kids@[i]@.len(),
        forall|j: int| 0 <= j < t1.kids@[i]@.len() ==> (#[trigger] t1.kids@[i]@[j].1 as int)
            < t1.ns@.len(),
        t1.ns@.len() <= t2.ns@.len(),
        forall|j1: int, j2: int|
            0 <= j1 < j2 < t1.kids@[i]@.len() ==> #[trigger] t1.kids@[i]@[j1].1 != #[trigger] t1.kids@[i]@[j2].1,
        exists|j: int| 0 <= j < k && (#[trigger] t1.kids@[i]@[j].1 as int) == c,
        forall|j: int|
            0 <= j < t1.kids@[i]@.len() && (#[trigger] t1.kids@[i]@[j].1 as int) != c
                ==> t2.ns@[t1.kids@[i]@[j].1 as int] == t1.ns@[t1.kids@[i]@[j].1 as int],
        0 <= c < t1.ns@.len(),
        t2.ns@[c] == t1.ns@[c] + 1,
    ensures
        kid_n_sum(t2, i, k) == kid_n_sum(t1, i, k) + 1,
    decreases k,
{
    let jc = choose|j: int| 0 <= j < k && (#[trigger] t1.kids@[i]@[j].1 as int) == c;
    if jc == k - 1 {
        assert forall|j: int| 0 <= j < k - 1 implies (#[trigger] t1.kids@[i]@[j].1 as int)
            != c by {
            assert(t1.kids@[i]@[j].1 != t1.kids@[i]@[jc].1);
        }
        lemma_kid_sum_same(t1, t2, i, k - 1, c);
    } else {
        lemma_kid_sum_bump(t1, t2, i, k - 1, c);
        assert(t1.kids@[i]@[k - 1].1 != t1.kids@[i]@[jc].1);
    }
}

/// When no child among the first `k` is the changed one, their sum is kept.
proof fn lemma_kid_sum_same(t1: Node, t2: Node, i: int, k: int, c: int)
    requires
        0 <= i < t1.kids@.len(),
        i < t2.kids@.len(),
        t2.kids@[i]@ == t1.kids@[i]@,
        0 <= k <= t1.kids@[i]@.len(),
        forall|j: int| 0 <= j < t1.kids@[i]@.len() ==> (#[trigger] t1.kids@[i]@[j].1 as int)
            < t1.ns@.len(),
        t1.ns@.len() <= t2.ns@.len(),
        forall|j: int| 0 <= j < k ==> (#[trigger] t1.kids@[i]@[j].1 as int) != c,
        forall|j: int|
            0 <= j < t1.kids@[i]@.len() && (#[trigger] t1.kids@[i]@[j].1 as int) != c
                ==> t2.ns@[t1.kids@[i]@[j].1 as int] == t1.ns@[t1.kids@[i]@[j].1 as int],
    ensures
        kid_n_sum(t2, i, k) == kid_n_sum(t1, i, k),
    decreases k,
{
    if k > 0 {
        lemma_kid_sum_same(t1, t2, i, k - 1, c);
    }
}

/// The integer square root: the unique `r` with `r*r <= v < (r+1)*(r+1)`.
pub open spec fn isqrt_spec(v: nat) -> nat {
    choose|r: nat| #![trigger r * r] r * r <= v && v < (r + 1) * (r + 1)
}

/// Two integer square roots of the same value agree.
proof fn lemma_isqrt_unique(v: nat, a: nat, b: nat)
    by (nonlinear_arith)
    requires
        a * a <= v,
        v < (a + 1) * (a + 1),
        b * b <= v,
        v < (b + 1) * (b + 1),
    ensures
        a == b,
{
}

/// The integer square root, by binary search.
fn isqrt(v: u64) -> (r: u64)
    requires
        v < 0x100_0000_0000,
    ensures
        r * r <= v,
        v < (r + 1) * (r + 1),
        r <= 0x10_0000,
        r == isqrt_spec(v as nat),
{
    let mut lo: u64 = 0;
    let mut hi: u64 = 0x10_0000;
    while lo < hi
        invariant
            lo <= hi <= 0x10_0000,
            lo * lo <= v,
            v < (hi + 1) * (hi + 1),
        decreases hi - lo,
    {
        let mid = (lo + hi + 1) / 2;
        proof {
            assert((mid as int) * (mid as int) <= 0x100_0000_0000_0000) by (nonlinear_arith)
                requires
                    mid <= 0x10_0000;
        }
        if mid * mid <= v {
            lo = mid;
        } else {
            hi = mid - 1;
        }
    }
    proof {
        assert(exists|r: nat| #![trigger r * r] r * r <= v as nat && (v as nat) < (r + 1) * (r
            + 1)) by {
            assert((lo as nat) * (lo as nat) <= v as nat && (v as nat) < ((lo as nat) + 1) * ((
            lo as nat) + 1));
        }
        lemma_isqrt_unique(v as nat, lo as nat, isqrt_spec(v as nat));
    }
    lo
}

pub open spec fn pw2(k: nat) -> nat
    decreases k,
{
    if k == 0 {
        1
    } else {
        2 * pw2((k - 1) as nat)
    }
}

proof fn lemma_pw2_adds(a: nat, b: nat)
    ensures
        pw2(a + b) == pw2(a) * pw2(b),
    decreases a,
{
    if a == 0 {
        assert(pw2(0) == 1);
        assert(pw2(0 + b) == 1 * pw2(b));
    } else {
        lemma_pw2_adds((a - 1) as nat, b);
        assert(a + b >= 1);
        assert(pw2(a + b) == 2 * pw2((a + b - 1) as nat));
        assert((a + b - 1) as nat == (a - 1) as nat + b);
        assert(2 * (pw2((a - 1) as nat) * pw2(b)) == (2 * pw2((a - 1) as nat)) * pw2(b))
            by (nonlinear_arith);
        assert(pw2(a) == 2 * pw2((a - 1) as nat));
    }
}

/// The small powers of two the normalization steps multiply by.
proof fn lemma_pw2_vals()
    ensures
        pw2(0) == 1,
        pw2(1) == 2,
        pw2(2) == 4,
        pw2(4) == 0x10,
        pw2(8) == 0x100,
        pw2(16) == 0x1_0000,
        pw2(32) == 0x1_0000_0000,
{
    reveal_with_fuel(pw2, 33);
}

/// The floor binary logarithm.
pub open spec fn l2_int(x: nat) -> nat
    decreases x,
{
    if x < 2 {
        0
    } else {
        1 + l2_int(x / 2)
    }
}

/// `p` is the floor binary logarithm of any `x` in `[2^p, 2^(p+1))`.
proof fn lemma_l2_int_char(x: nat, p: nat)
    requires
        pw2(p) <= x,
        x < 2 * pw2(p),
    ensures
        l2_int(x) == p,
    decreases p,
{
    if p == 0 {
        lemma_pw2_vals();
    } else {
        assert(pw2(p) == 2 * pw2((p - 1) as nat));
        assert(x >= 2);
        lemma_l2_int_char(x / 2, (p - 1) as nat);
    }
}

proof fn lemma_pw2_le(k1: nat, k2: nat)
    requires
        k1 <= k2,
    ensures
        pw2(k1) <= pw2(k2),
    decreases k2,
{
    if k1 < k2 {
        lemma_pw2_le(k1, (k2 - 1) as nat);
    }
}

/// The normalized mantissa of `x`: `x * 2^32 / 2^floor(log2 x)`, a value
/// in `[2^32, 2^33)`.
pub open spec fn mant_spec(x: nat) -> nat {
    (x * 0x1_0000_0000) / pw2(l2_int(x))
}

/// The mantissa after `k` square-and-renormalize steps from `m`.
pub open spec fn mant_step(m: nat, k: nat) -> nat
    decreases k,
{
    if k == 0 {
        m
    } else {
        let s = (mant_step(m, (k - 1) as nat) * mant_step(m, (k - 1) as nat)) / 0x1_0000_0000;
        if s >= 0x2_0000_0000 {
            s / 2
        } else {
            s
        }
    }
}

/// The `k` fraction bits those steps produce, most significant first.
pub open spec fn frac_step(m: nat, k: nat) -> nat
    decreases k,
{
    if k == 0 {
        0
    } else {
        let s = (mant_step(m, (k - 1) as nat) * mant_step(m, (k - 1) as nat)) / 0x1_0000_0000;
        if s >= 0x2_0000_0000 {
            2 * frac_step(m, (k - 1) as nat) + 1
        } else {
            2 * frac_step(m, (k - 1) as nat)
        }
    }
}

/// What `log2_fixed` computes: the floor binary logarithm in the upper
/// bits and twelve fraction bits from repeated squaring of the mantissa.
pub open spec fn log2_fixed_spec(x: nat) -> nat {
    4096 * l2_int(x) + frac_step(mant_spec(x), 12)
}

/// The normalized mantissa `x * 2^32 / d` lies in `[2^32, 2^33)` when
/// `d <= x < 2d`.
proof fn lemma_mant_bounds(x: int, d: int, q: int)
    by (nonlinear_arith)
    requires
        q == (x * 0x1_0000_0000) / d,
        d <= x,
        x < 2 * d,
        0 < d,
    ensures
        0x1_0000_0000 <= q < 0x2_0000_0000,
{
}

/// `floor(4096 * log2(x))`: the binary logarithm in fixed point, for the
/// exploration term. The integer part comes from a six-step reduction, the
/// fractional part from repeated squaring of the normalized mantissa.
#[verifier::rlimit(100)]
fn log2_fixed(x: u64) -> (r: u64)
    requires
        1 <= x <= 0x10_0000_0000,
    ensures
        r < 0x4_1000,
        r == log2_fixed_spec(x as nat),
{
    let mut m: u64 = x;
    let mut p: u64 = 0;
    let mut d: u64 = 1;
    proof {
        vstd::arithmetic::div_mod::lemma_div_denominator(x as int, 1, 1);
        lemma_pw2_vals();
    }
    if m >= 0x1_0000_0000 {
        m = m / 0x1_0000_0000;
        p = p + 32;
        proof {
            vstd::arithmetic::div_mod::lemma_div_denominator(x as int, d as int, 0x1_0000_0000);
            lemma_pw2_adds((p - 32) as nat, 32);
            lemma_pw2_vals();
        }
        d = d * 0x1_0000_0000;
    }
    if m >= 0x1_0000 {
        m = m / 0x1_0000;
        p = p + 16;
        proof {
            vstd::arithmetic::div_mod::lemma_div_denominator(x as int, d as int, 0x1_0000);
            lemma_pw2_adds((p - 16) as nat, 16);
            lemma_pw2_vals();
        }
        d = d * 0x1_0000;
    }
    if m >= 0x100 {
        m = m / 0x100;
        p = p + 8;
        proof {
            vstd::arithmetic::div_mod::lemma_div_denominator(x as int, d as int, 0x100);
            lemma_pw2_adds((p - 8) as nat, 8);
            lemma_pw2_vals();
        }
        d = d * 0x100;
    }
    if m >= 0x10 {
        m = m / 0x10;
        p = p + 4;
        proof {
            vstd::arithmetic::div_mod::lemma_div_denominator(x as int, d as int, 0x10);
            lemma_pw2_adds((p - 4) as nat, 4);
            lemma_pw2_vals();
        }
        d = d * 0x10;
    }
    if m >= 4 {
        m = m / 4;
        p = p + 2;
        proof {
            vstd::arithmetic::div_mod::lemma_div_denominator(x as int, d as int, 4);
            lemma_pw2_adds((p - 2) as nat, 2);
            lemma_pw2_vals();
        }
        d = d * 4;
    }
    if m >= 2 {
        m = m / 2;
        p = p + 1;
        proof {
            vstd::arithmetic::div_mod::lemma_div_denominator(x as int, d as int, 2);
            lemma_pw2_adds((p - 1) as nat, 1);
            lemma_pw2_vals();
        }
        d = d * 2;
    }
    proof {
        assert(m == x as int / d as int);
        assert(1 <= m < 2);
        vstd::arithmetic::div_mod::lemma_fundamental_div_mod(x as int, d as int);
        assert(d <= x && x < 2 * d);
        assert(d == pw2(p as nat));
        lemma_l2_int_char(x as nat, p as nat);
    }
    let mant128: u128 = ((x as u128) * 0x1_0000_0000) / (d as u128);
    proof {
        lemma_mant_bounds(x as int, d as int, mant128 as int);
        assert(mant128 as nat == mant_spec(x as nat));
    }
    let mant0 = mant128 as u64;
    let mut mant: u64 = mant0;
    let mut frac: u64 = 0;
    let mut k: usize = 0;
    while k < 12
        invariant
            0x1_0000_0000 <= mant < 0x2_0000_0000,
            frac < pw2(k as nat),
            k <= 12,
            mant == mant_step(mant0 as nat, k as nat),
            frac == frac_step(mant0 as nat, k as nat),
        decreases 12 - k,
    {
        proof {
            assert((mant as int) * (mant as int) >= 0x1_0000_0000 * 0x1_0000_0000 && (mant as int)
                * (mant as int) < 0x4_0000_0000 * 0x1_0000_0000) by (nonlinear_arith)
                requires
                    0x1_0000_0000 <= (mant as int) < 0x2_0000_0000;
            lemma_pw2_le((k + 1) as nat, 12);
            assert(pw2(12) == 4096) by {
                reveal_with_fuel(pw2, 13);
            }
        }
        let sq: u128 = ((mant as u128) * (mant as u128)) / 0x1_0000_0000;
        proof {
            assert(0x1_0000_0000u128 <= sq < 0x4_0000_0000u128);
        }
        let ghost mant_pre = mant as nat;
        if sq >= 0x2_0000_0000 {
            mant = (sq / 2) as u64;
            frac = frac * 2 + 1;
        } else {
            mant = sq as u64;
            frac = frac * 2;
        }
        k = k + 1;
        proof {
            assert(sq as nat == (mant_pre * mant_pre) / 0x1_0000_0000);
            assert(mant == mant_step(mant0 as nat, k as nat));
            assert(frac == frac_step(mant0 as nat, k as nat));
        }
    }
    proof {
        assert(pw2(12) == 4096) by {
            reveal_with_fuel(pw2, 13);
        }
        assert(mant0 as nat == mant_spec(x as nat));
        assert(p * 4096 + frac == log2_fixed_spec(x as nat));
    }
    p * 4096 + frac
}

/// The UCT selection score `w/n + sqrt(2*ln(N)/n)` of a child with visits
/// `n` and value `w` under a parent with visits `big_n`, in fixed point
/// with 12 fractional bits: the exploitation ratio truncated toward zero
/// plus the fixed-point square root of the exploration term.
pub open spec fn uct_spec(w: int, n: nat, big_n: nat) -> int
    recommends
        1 <= n,
        1 <= big_n,
{
    let mag = if w >= 0 {
        w
    } else {
        -w
    };
    let exploit = if w >= 0 {
        (mag * 4096) / (n as int)
    } else {
        -((mag * 4096) / (n as int))
    };
    let ln_s = ((log2_fixed_spec(big_n) * 2841) as int) / 4096;
    let arg = (2 * ln_s * 4096) / (n as int);
    exploit + isqrt_spec(arg as nat)
}

/// The UCT score of the `j`-th child of node `i`.
pub closed spec fn kid_uct(t: Node, i: int, j: int) -> int {
    let k = t.kids@[i]@[j].1 as int;
    uct_spec(t.ws@[k] as int, t.ns@[k] as nat, t.ns@[i] as nat)
}

/// Computes `uct_spec` of its arguments.
fn get_uct(w: i64, n: u64, big_n: u64) -> (r: i64)
    requires
        1 <= n <= 0x8_0000_0001,
        1 <= big_n <= 0x8_0000_0001,
        -(n as int) <= w as int <= n as int,
    ensures
        r as int == uct_spec(w as int, n as nat, big_n as nat),
        -4096 <= r,
{
    let mag: u64 = if w >= 0 {
        w as u64
    } else {
        (-w) as u64
    };
    proof {
        assert((mag as int) * 4096 <= 0x1_0000_0000_0000) by (nonlinear_arith)
            requires
                mag <= 0x10_0000_0000;
        assert(((mag as int) * 4096) / (n as int) <= (mag as int) * 4096) by (nonlinear_arith)
            requires
                1 <= (n as int),
                0 <= (mag as int) * 4096;
    }
    let e: u64 = mag * 4096 / n;
    proof {
        assert((e as int) <= 4096) by (nonlinear_arith)
            requires
                e as int == ((mag as int) * 4096) / (n as int),
                mag <= n,
                1 <= n;
    }
    let exploit: i64 = if w >= 0 {
        e as i64
    } else {
        -(e as i64)
    };
    let l2 = log2_fixed(big_n);
    let ln_s = l2 * 2841 / 4096;
    proof {
        assert(((2 * (ln_s as int)) * 4096) / (n as int) <= (2 * (ln_s as int)) * 4096)
            by (nonlinear_arith)
            requires
                1 <= (n as int),
                0 <= ln_s;
    }
    let arg = 2 * ln_s * 4096 / n;
    let explore = isqrt(arg);
    proof {
        assert(exploit as int + explore as int == uct_spec(w as int, n as nat, big_n as nat));
    }
    exploit + (explore as i64)
}

/// One uniformly random playout to the end of the game: `+1` when the side
/// to move at the start is the one who completes a line, `-1` when its
/// opponent does, `0` when the cube fills up.
fn playout(board: &Board) -> (v: i8)
    requires
        board_wf(*board),
        !board_win(*board),
        !board_full(*board),
    ensures
        -1 <= v <= 1,
{
    let mut b: Board = *board;
    let mut coef: i8 = 1;
    loop
        invariant
            board_wf(b),
            !board_full(b),
            -1 <= coef <= 1,
        decreases 64 - piece_count(b),
    {
        let action = get_random(&b);
        proof {
            lemma_board_next(b, action as u64);
            lemma_pcount_le(union_of(board_next(b, action as u64)), 64);
        }
        b = b.next(action);
        if b.is_win() {
            return coef;
        } else if b.is_draw() {
            return 0;
        }
        coef = -coef;
    }
}

/// A sum over children that all have one visit is their number.
proof fn lemma_kid_sum_ones(t: Node, i: int, k: int)
    requires
        0 <= i < t.kids@.len(),
        0 <= k <= t.kids@[i]@.len(),
        forall|j: int|
            0 <= j < t.kids@[i]@.len() ==> (#[trigger] t.kids@[i]@[j].1 as int) < t.ns@.len()
                && t.ns@[t.kids@[i]@[j].1 as int] == 1,
    ensures
        kid_n_sum(t, i, k) == k,
    decreases k,
{
    if k > 0 {
        lemma_kid_sum_ones(t, i, k - 1);
    }
}

impl Node {
    /// A fresh single-node tree around the given position: one visit, no
    /// value, no children yet.
    pub fn new(board: Board) -> (t: Node)
        requires
            board_wf(board),
        ensures
            tree_wf(t),
            node_count(t) == 1,
            node_board(t, 0) == board,
            node_n(t, 0) == 1,
            node_w(t, 0) == 0,
            kid_count(t, 0) == 0,
            visits_bounded(t, 1),
    {
        let mut boards = Vec::new();
        boards.push(board);
        let mut ns = Vec::new();
        ns.push(1u64);
        let mut ws = Vec::new();
        ws.push(0i64);
        let mut kids = Vec::new();
        kids.push(Vec::new());
        Node { boards, ns, ws, kids }
    }
}

/// Create one child per open column of the node's board, each wrapping the
/// resulting position with fresh statistics.
fn expand(t: &mut Node, idx: usize)
    requires
        tree_wf(*old(t)),
        (idx as int) < node_count(*old(t)),
        kid_count(*old(t), idx as int) == 0,
        !board_win(node_board(*old(t), idx as int)),
        !board_full(node_board(*old(t), idx as int)),
    ensures
        tree_wf(*final(t)),
        node_count(*old(t)) <= node_count(*final(t)),
        forall|i: int|
            0 <= i < node_count(*old(t)) ==> #[trigger] node_board(*final(t), i) == node_board(
                *old(t),
                i,
            ),
        forall|i: int|
            0 <= i < node_count(*old(t)) ==> #[trigger] node_n(*final(t), i) == node_n(*old(t), i),
        forall|i: int|
            0 <= i < node_count(*old(t)) ==> #[trigger] node_w(*final(t), i) == node_w(*old(t), i),
        forall|i: int|
            0 <= i < node_count(*old(t)) && i != idx ==> #[trigger] node_kids(*final(t), i)
                == node_kids(*old(t), i),
        forall|i: int|
            node_count(*old(t)) <= i < node_count(*final(t)) ==> #[trigger] node_n(*final(t), i)
                == 1,
        forall|i: int|
            node_count(*old(t)) <= i < node_count(*final(t)) ==> #[trigger] node_w(*final(t), i)
                == 0,
        kid_count(*final(t), idx as int) > 0,
        kid_n_sum(*final(t), idx as int, kid_count(*final(t), idx as int)) == kid_count(
            *final(t),
            idx as int,
        ),
        forall|c: u8|
            c < 16 && #[trigger] col_open(union_of(node_board(*old(t), idx as int)), c as u64)
                ==> exists|j: int|
                0 <= j < kid_count(*final(t), idx as int) && (#[trigger] node_kids(
                    *final(t),
                    idx as int,
                )[j]).0 == c,
{
    let board = t.boards[idx];
    let acts = board.valid_actions();
    proof {
        crate::board::lemma_not_full_has_open(board);
        let c0 = choose|c: u64| c < 16 && #[trigger] col_open(union_of(board), c);
        assert(acts@.contains(c0 as u8));
    }
    let mut newkids: Vec<(u8, usize)> = Vec::new();
    let mut j: usize = 0;
    while j < acts.len()
        invariant
            tree_wf(*old(t)),
            (idx as int) < node_count(*old(t)),
            kid_count(*old(t), idx as int) == 0,
            board == node_board(*old(t), idx as int),
            board_wf(board),
            crate::board::action_list_ok(board, acts@),
            j <= acts.len(),
            newkids@.len() == j,
            t.boards@.len() == old(t).boards@.len() + j,
            t.ns@.len() == t.boards@.len(),
            t.ws@.len() == t.boards@.len(),
            t.kids@.len() == t.boards@.len(),
            forall|i: int|
                0 <= i < node_count(*old(t)) ==> #[trigger] t.boards@[i] == old(t).boards@[i],
            forall|i: int| 0 <= i < node_count(*old(t)) ==> #[trigger] t.ns@[i] == old(t).ns@[i],
            forall|i: int| 0 <= i < node_count(*old(t)) ==> #[trigger] t.ws@[i] == old(t).ws@[i],
            forall|i: int|
                0 <= i < node_count(*old(t)) ==> (#[trigger] t.kids@[i])@ == old(t).kids@[i]@,
            forall|i: int|
                node_count(*old(t)) <= i < t.boards@.len() ==> #[trigger] t.ns@[i] == 1,
            forall|i: int|
                node_count(*old(t)) <= i < t.boards@.len() ==> #[trigger] t.ws@[i] == 0,
            forall|i: int|
                node_count(*old(t)) <= i < t.boards@.len() ==> (#[trigger] t.kids@[i])@.len()
                    == 0,
            forall|i: int|
                node_count(*old(t)) <= i < t.boards@.len() ==> board_wf(#[trigger] t.boards@[i]),
            forall|k: int|
                0 <= k < j ==> (#[trigger] newkids@[k]).0 == acts@[k] && newkids@[k].1 == old(
                    t,
                ).boards@.len() + k,
            forall|k: int|
                0 <= k < j ==> t.boards@[#[trigger] newkids@[k].1 as int] == board_next(
                    board,
                    newkids@[k].0 as u64,
                ) && piece_count(t.boards@[newkids@[k].1 as int]) == piece_count(board) + 1,
        decreases acts.len() - j,
    {
        let a = acts[j];
        let nb = board.next(a);
        proof {
            lemma_board_next(board, a as u64);
        }
        let ni = t.boards.len();
        t.boards.push(nb);
        t.ns.push(1u64);
        t.ws.push(0i64);
        t.kids.push(Vec::new());
        newkids.push((a, ni));
        j = j + 1;
    }
    let ghost pre = *t;
    t.kids.set(idx, newkids);
    proof {
        assert(t.kids@ == pre.kids@.update(idx as int, newkids));
        assert(t.kids@[idx as int] == newkids);
        assert forall|i: int| 0 <= i < t.kids@.len() && i != idx implies (#[trigger] t.kids@[i])@
            == pre.kids@[i]@ by {
            assert(t.kids@[i] == pre.kids@[i]);
        }
        assert forall|i: int, j1: int, j2: int|
            0 <= i < t.kids@.len() && 0 <= j1 < j2 < t.kids@[i]@.len() implies #[trigger] t.kids@[i]@[j1].0
            < #[trigger] t.kids@[i]@[j2].0 && t.kids@[i]@[j1].1 != t.kids@[i]@[j2].1 by {
            if i == idx {
                assert(t.kids@[i]@ == newkids@);
                assert(newkids@[j1].0 == acts@[j1] && newkids@[j1].1 == old(t).boards@.len() + j1);
                assert(newkids@[j2].0 == acts@[j2] && newkids@[j2].1 == old(t).boards@.len() + j2);
            } else {
                assert(t.kids@[i]@ == pre.kids@[i]@);
                if i < node_count(*old(t)) {
                    assert(pre.kids@[i]@ == old(t).kids@[i]@);
                } else {
                    assert(pre.kids@[i]@.len() == 0);
                }
            }
        }
        assert forall|i: int, j: int|
            0 <= i < t.kids@.len() && 0 <= j < t.kids@[i]@.len() implies {
            let (a, k) = #[trigger] t.kids@[i]@[j];
            &&& a < 16
            &&& col_open(union_of(t.boards@[i]), a as u64)
            &&& k < t.boards@.len()
            &&& t.boards@[k as int] == board_next(t.boards@[i], a as u64)
            &&& piece_count(t.boards@[k as int]) == piece_count(t.boards@[i]) + 1
        } by {
            if i == idx {
                assert(t.kids@[i]@ == newkids@);
                assert(newkids@[j].0 == acts@[j] && newkids@[j].1 == old(t).boards@.len() + j);
                assert(t.boards@[newkids@[j].1 as int] == board_next(board, newkids@[j].0 as u64));
            } else {
                assert(t.kids@[i]@ == pre.kids@[i]@);
                if i < node_count(*old(t)) {
                    assert(pre.kids@[i]@ == old(t).kids@[i]@);
                    assert(t.boards@[i] == old(t).boards@[i]);
                } else {
                    assert(pre.kids@[i]@.len() == 0);
                }
            }
        }
        assert(kids_complete(*t, idx as int)) by {
            assert forall|c: u8|
                c < 16 && #[trigger] col_open(union_of(t.boards@[idx as int]), c as u64) implies exists|
                jx: int,
            |
                0 <= jx < t.kids@[idx as int]@.len() && (#[trigger] t.kids@[idx as int]@[jx]).0
                    == c by {
                assert(col_open(union_of(board), c as u64));
                assert(acts@.contains(c));
                let k = choose|k: int| 0 <= k < acts@.len() && acts@[k] == c;
                assert(t.kids@[idx as int]@[k].0 == c);
            }
        }
        assert forall|i: int|
            0 <= i < t.kids@.len() && (#[trigger] t.kids@[i])@.len() > 0 implies kids_complete(
            *t,
            i,
        ) by {
            if i != idx {
                assert(t.kids@[i]@ == pre.kids@[i]@);
                if i < node_count(*old(t)) {
                    assert(pre.kids@[i]@ == old(t).kids@[i]@);
                    assert(t.boards@[i] == old(t).boards@[i]);
                    lemma_kids_complete_carry(*old(t), *t, i);
                } else {
                    assert(pre.kids@[i]@.len() == 0);
                }
            }
        }
        assert(tree_wf(*t));
        assert forall|j2: int| 0 <= j2 < t.kids@[idx as int]@.len() implies t.ns@[(
        #[trigger] t.kids@[idx as int]@[j2]).1 as int] == 1 by {
            assert(newkids@[j2].1 == old(t).boards@.len() + j2);
        }
        lemma_kid_sum_ones(*t, idx as int, kid_count(*t, idx as int));
        assert forall|c: u8|
            c < 16 && #[trigger] col_open(union_of(node_board(*old(t), idx as int)), c as u64) implies exists|
            j3: int,
        |
            0 <= j3 < kid_count(*t, idx as int) && (#[trigger] node_kids(*t, idx as int)[j3]).0
                == c by {
            assert(acts@.contains(c));
            let k = choose|k: int| 0 <= k < acts@.len() && acts@[k] == c;
            assert((node_kids(*t, idx as int)[k]).0 == c);
        }
    }
}

/// Pick the child with the greatest UCT score, the earliest among ties.
fn select_kid(t: &Node, idx: usize) -> (kpos: usize)
    requires
        tree_wf(*t),
        (idx as int) < node_count(*t),
        kid_count(*t, idx as int) > 0,
        visits_bounded(*t, visit_cap()),
    ensures
        (kpos as int) < kid_count(*t, idx as int),
        forall|j: int|
            0 <= j < kid_count(*t, idx as int) ==> #[trigger] kid_uct(*t, idx as int, j)
                <= kid_uct(*t, idx as int, kpos as int),
        forall|j: int|
            0 <= j < kpos ==> #[trigger] kid_uct(*t, idx as int, j) < kid_uct(
                *t,
                idx as int,
                kpos as int,
            ),
{
    let parent_n = t.ns[idx];
    let count = t.kids[idx].len();
    let mut best: usize = 0;
    let mut best_score: i64 = -8192;
    let mut j: usize = 0;
    while j < count
        invariant
            tree_wf(*t),
            (idx as int) < node_count(*t),
            visits_bounded(*t, visit_cap()),
            parent_n == node_n(*t, idx as int),
            count == kid_count(*t, idx as int),
            count > 0,
            j <= count,
            best < count,
            j == 0 ==> best == 0 && best_score == -8192,
            j > 0 ==> best < j && -4096 <= best_score && best_score as int == kid_uct(
                *t,
                idx as int,
                best as int,
            ),
            forall|k: int| 0 <= k < j ==> #[trigger] kid_uct(*t, idx as int, k) <= best_score
                as int,
            forall|k: int| 0 <= k < best ==> #[trigger] kid_uct(*t, idx as int, k) < best_score
                as int,
        decreases count - j,
    {
        let (_a, kid) = t.kids[idx][j];
        let ucb = get_uct(t.ws[kid], t.ns[kid], parent_n);
        proof {
            assert(ucb as int == kid_uct(*t, idx as int, j as int));
        }
        if ucb > best_score {
            best_score = ucb;
            best = j;
        }
        j = j + 1;
    }
    best
}

/// One simulation pass below node `idx`: descend by UCT until a terminal or
/// unexpanded node, evaluate it (a win for the mover into that node `+1`, a
/// full cube `0`, anything else a random rollout), and add the outcome into
/// every node on the way back, flipping its sign each ply. Touches, besides
/// `idx`, only nodes deeper than `idx`; below an internal node exactly one
/// child takes the visit.
#[verifier::rlimit(100)]
#[verifier::spinoff_prover]
fn evaluate(t: &mut Node, idx: usize, expand_n: usize) -> (v: i8)
    requires
        tree_wf(*old(t)),
        (idx as int) < node_count(*old(t)),
        visits_bounded(*old(t), visit_cap()),
    ensures
        tree_wf(*final(t)),
        node_count(*old(t)) <= node_count(*final(t)),
        -1 <= v <= 1,
        board_win(node_board(*old(t), idx as int)) ==> v == 1,
        !board_win(node_board(*old(t), idx as int)) && board_full(node_board(*old(t), idx as int))
            ==> v == 0,
        board_win(node_board(*old(t), idx as int)) || board_full(node_board(*old(t), idx as int))
            ==> node_count(*final(t)) == node_count(*old(t)),
        forall|i: int|
            (board_win(node_board(*old(t), idx as int)) || board_full(
                node_board(*old(t), idx as int),
            )) && 0 <= i < node_count(*old(t)) && i != idx ==> #[trigger] node_n(*final(t), i)
                == node_n(*old(t), i) && node_w(*final(t), i) == node_w(*old(t), i),
        forall|i: int|
            (board_win(node_board(*old(t), idx as int)) || board_full(
                node_board(*old(t), idx as int),
            )) && 0 <= i < node_count(*old(t)) ==> #[trigger] node_kids(*final(t), i) == node_kids(
                *old(t),
                i,
            ),
        !board_win(node_board(*old(t), idx as int)) && !board_full(node_board(*old(t), idx as int))
            && kid_count(*old(t), idx as int) == 0 ==> (kid_count(*final(t), idx as int) > 0
            <==> node_n(*old(t), idx as int) + 1 == expand_n as u64),
        !board_win(node_board(*old(t), idx as int)) && !board_full(node_board(*old(t), idx as int))
            && kid_count(*old(t), idx as int) > 0 ==> kid_n_sum(
            *final(t),
            idx as int,
            kid_count(*old(t), idx as int),
        ) == kid_n_sum(*old(t), idx as int, kid_count(*old(t), idx as int)) + 1,
        forall|i: int|
            0 <= i < node_count(*old(t)) ==> #[trigger] node_board(*final(t), i) == node_board(
                *old(t),
                i,
            ),
        forall|i: int|
            0 <= i < node_count(*old(t)) && kid_count(*old(t), i) > 0 ==> #[trigger] node_kids(
                *final(t),
                i,
            ) == node_kids(*old(t), i),
        forall|i: int|
            0 <= i < node_count(*old(t)) ==> node_n(*old(t), i) <= #[trigger] node_n(*final(t), i)
                <= node_n(*old(t), i) + 1,
        forall|i: int|
            node_count(*old(t)) <= i < node_count(*final(t)) ==> #[trigger] node_n(*final(t), i)
                == 1,
        node_n(*final(t), idx as int) == node_n(*old(t), idx as int) + 1,
        node_w(*final(t), idx as int) == node_w(*old(t), idx as int) + v,
        forall|i: int|
            0 <= i < node_count(*old(t)) && i != idx && piece_count(node_board(*old(t), i))
                <= piece_count(node_board(*old(t), idx as int)) ==> #[trigger] node_n(
                *final(t),
                i,
            ) == node_n(*old(t), i) && node_w(*final(t), i) == node_w(*old(t), i) && node_kids(
                *final(t),
                i,
            ) == node_kids(*old(t), i),
    decreases 64 - piece_count(old(t).boards@[idx as int]),
{
    proof {
        lemma_pcount_le(union_of(old(t).boards@[idx as int]), 64);
    }
    let board = t.boards[idx];
    let n0 = t.ns[idx];
    let w0 = t.ws[idx];
    if board.is_win() {
        t.ns.set(idx, n0 + 1);
        t.ws.set(idx, w0 + 1);
        proof {
            assert forall|i: int|
                0 <= i < t.kids@.len() && (#[trigger] t.kids@[i])@.len() > 0 implies kids_complete(
                *t,
                i,
            ) by {
                lemma_kids_complete_carry(*old(t), *t, i);
            }
            assert(tree_wf(*t));
        }
        return 1;
    }
    if board.is_draw() {
        t.ns.set(idx, n0 + 1);
        proof {
            assert forall|i: int|
                0 <= i < t.kids@.len() && (#[trigger] t.kids@[i])@.len() > 0 implies kids_complete(
                *t,
                i,
            ) by {
                lemma_kids_complete_carry(*old(t), *t, i);
            }
            assert(tree_wf(*t));
        }
        return 0;
    }
    let kc = t.kids[idx].len();
    if kc == 0 {
        let v = playout(&board);
        t.ns.set(idx, n0 + 1);
        t.ws.set(idx, w0 + (v as i64));
        proof {
            assert forall|i: int|
                0 <= i < t.kids@.len() && (#[trigger] t.kids@[i])@.len() > 0 implies kids_complete(
                *t,
                i,
            ) by {
                lemma_kids_complete_carry(*old(t), *t, i);
            }
            assert(tree_wf(*t));
        }
        if t.ns[idx] == expand_n as u64 {
            expand(t, idx);
        }
        return v;
    }
    let kpos = select_kid(t, idx);
    let (_a, kid) = t.kids[idx][kpos];
    proof {
        assert(piece_count(t.boards@[kid as int]) == piece_count(t.boards@[idx as int]) + 1);
        assert(node_board(*t, kid as int) == t.boards@[kid as int]);
        assert(node_board(*t, idx as int) == t.boards@[idx as int]);
        assert(piece_count(node_board(*t, kid as int)) == piece_count(node_board(*t, idx as int))
            + 1);
        assert((idx as int) != (kid as int));
        lemma_pcount_le(union_of(t.boards@[kid as int]), 64);
    }
    let sub = evaluate(t, kid, expand_n);
    let ghost t2 = *t;
    proof {
        assert(node_n(t2, kid as int) == node_n(*old(t), kid as int) + 1);
        assert(tree_wf(t2));
        assert(node_n(t2, idx as int) == node_n(*old(t), idx as int));
    }
    let v = -sub;
    let n1 = t.ns[idx];
    let w1 = t.ws[idx];
    proof {
        assert(node_n(t2, idx as int) == node_n(*old(t), idx as int) && node_w(t2, idx as int)
            == node_w(*old(t), idx as int) && node_kids(t2, idx as int) == node_kids(
            *old(t),
            idx as int,
        )) by {
            assert(piece_count(node_board(*old(t), idx as int)) <= piece_count(
                node_board(*old(t), kid as int),
            ));
        }
        assert(n1 == n0 && w1 == w0);
    }
    t.ns.set(idx, n1 + 1);
    t.ws.set(idx, w1 + (v as i64));
    proof {
        assert(tree_wf(t2));
        assert forall|i: int|
            0 <= i < t.kids@.len() && (#[trigger] t.kids@[i])@.len() > 0 implies kids_complete(
            *t,
            i,
        ) by {
            lemma_kids_complete_carry(t2, *t, i);
        }
        assert(tree_wf(*t));
        assert forall|i: int| 0 <= i < node_count(*old(t)) implies #[trigger] node_board(*t, i)
            == node_board(*old(t), i) by {
            assert(node_board(t2, i) == node_board(*old(t), i));
            assert(node_board(*t, i) == t2.boards@[i]);
        }
        assert forall|i: int|
            0 <= i < node_count(*old(t)) && kid_count(*old(t), i) > 0 implies #[trigger] node_kids(
            *t,
            i,
        ) == node_kids(*old(t), i) by {
            assert(node_kids(t2, i) == node_kids(*old(t), i));
            assert(node_kids(*t, i) == t2.kids@[i]@);
        }
        assert forall|i: int|
            0 <= i < node_count(*old(t)) implies node_n(*old(t), i) <= #[trigger] node_n(*t, i)
            <= node_n(*old(t), i) + 1 by {
            assert(node_n(*old(t), i) <= node_n(t2, i) <= node_n(*old(t), i) + 1);
            if i != idx {
                assert(node_n(*t, i) == t2.ns@[i]);
            }
        }
        assert forall|i: int|
            node_count(*old(t)) <= i < node_count(*t) implies #[trigger] node_n(*t, i) == 1 by {
            assert(node_n(t2, i) == 1);
            assert(node_n(*t, i) == t2.ns@[i]);
        }
        assert forall|i: int|
            0 <= i < node_count(*old(t)) && i != idx && piece_count(node_board(*old(t), i))
                <= piece_count(node_board(*old(t), idx as int)) implies #[trigger] node_n(
            *t,
            i,
        ) == node_n(*old(t), i) && node_w(*t, i) == node_w(*old(t), i) && node_kids(*t, i)
            == node_kids(*old(t), i) by {
            assert(piece_count(node_board(*old(t), i)) < piece_count(
                node_board(*old(t), kid as int),
            ));
            assert(i != kid as int);
            assert(0 <= i < node_count(*old(t)));
            assert(node_n(t2, i) == node_n(*old(t), i));
            assert(node_w(t2, i) == node_w(*old(t), i));
            assert(node_kids(t2, i) == node_kids(*old(t), i));
            assert(node_n(*t, i) == t2.ns@[i] && node_w(*t, i) == t2.ws@[i] && node_kids(*t, i)
                == t2.kids@[i]@);
        }
        // exactly one child of `idx` took the visit
        let kcount = kid_count(*old(t), idx as int);
        assert(kid_n_sum(*t, idx as int, kcount) == kid_n_sum(*old(t), idx as int, kcount) + 1) by {
            assert(node_kids(t2, idx as int) == node_kids(*old(t), idx as int));
            assert forall|j: int|
                0 <= j < kcount implies (#[trigger] node_kids(*old(t), idx as int)[j].1 as int)
                < old(t).ns@.len() by {}
            assert forall|j: int|
                0 <= j < kcount && (#[trigger] node_kids(*old(t), idx as int)[j].1 as int)
                    != kid implies t2.ns@[node_kids(*old(t), idx as int)[j].1 as int] == old(
                t,
            ).ns@[node_kids(*old(t), idx as int)[j].1 as int] by {
                let e = node_kids(*old(t), idx as int)[j].1 as int;
                assert(piece_count(node_board(*old(t), e)) == piece_count(
                    node_board(*old(t), idx as int),
                ) + 1);
                assert(piece_count(node_board(*old(t), e)) <= piece_count(
                    node_board(*old(t), kid as int),
                ));
                assert(node_n(t2, e) == node_n(*old(t), e));
            }
            assert(exists|j: int|
                0 <= j < kcount && (#[trigger] node_kids(*old(t), idx as int)[j].1 as int)
                    == kid) by {
                assert(node_kids(*old(t), idx as int)[kpos as int].1 == kid);
            }
            lemma_kid_sum_bump(*old(t), t2, idx as int, kcount, kid as int);
            assert forall|j: int|
                0 <= j < kcount implies (#[trigger] node_kids(t2, idx as int)[j].1 as int)
                != idx by {
                assert(piece_count(node_board(*old(t), node_kids(*old(t), idx as int)[j].1 as int))
                    == piece_count(node_board(*old(t), idx as int)) + 1);
            }
            assert forall|j: int|
                0 <= j < kcount && (#[trigger] node_kids(t2, idx as int)[j].1 as int)
                    != idx implies t.ns@[node_kids(t2, idx as int)[j].1 as int] == t2.ns@[node_kids(
                t2,
                idx as int,
            )[j].1 as int] by {}
            lemma_kid_sum_same(t2, *t, idx as int, kcount, idx as int);
        }
    }
    return v;
}

impl Node {
    /// Run a Monte-Carlo tree search below this tree's root: expand the root
    /// if it has no children yet, run `search_n` simulation passes, and
    /// report one `Score` per child, in child order. Every pass adds one
    /// visit to the root and one to exactly one of its children, so on a
    /// fresh root the reported child visits sum to the child count plus the
    /// passes run. The two `0xffff_ffff` caps leave the counters room: a
    /// tree entering below that bound stays below twice it, well under the
    /// `visit_cap()` every pass tolerates.
    pub fn search(&mut self, expand_n: usize, search_n: usize) -> (scores: Vec<Score>)
        requires
            tree_wf(*old(self)),
            !board_win(node_board(*old(self), 0)),
            !board_full(node_board(*old(self), 0)),
            visits_bounded(*old(self), 0xffff_ffff),
            search_n <= 0xffff_ffff,
        ensures
            tree_wf(*final(self)),
            node_board(*final(self), 0) == node_board(*old(self), 0),
            node_n(*final(self), 0) == node_n(*old(self), 0) + search_n,
            scores@.len() == kid_count(*final(self), 0),
            scores@.len() > 0,
            forall|j: int| 0 <= j < scores@.len() ==> (#[trigger] scores@[j]).n == node_n(
                *final(self),
                0,
            ),
            forall|j: int|
                0 <= j < scores@.len() ==> (#[trigger] scores@[j]).action < 16 && col_open(
                    union_of(node_board(*old(self), 0)),
                    scores@[j].action as u64,
                ) && 1 <= scores@[j].na,
            forall|j1: int, j2: int|
                0 <= j1 < j2 < scores@.len() ==> (#[trigger] scores@[j1]).action
                    < (#[trigger] scores@[j2]).action,
            forall|j: int|
                0 <= j < scores@.len() ==> (#[trigger] scores@[j]).action == node_kids(
                    *final(self),
                    0,
                )[j].0 && scores@[j].na == node_n(
                    *final(self),
                    node_kids(*final(self), 0)[j].1 as int,
                ) && scores@[j].w == node_w(*final(self), node_kids(*final(self), 0)[j].1 as int),
            na_sum(scores@) == kid_n_sum(*final(self), 0, kid_count(*final(self), 0)),
            kid_count(*old(self), 0) == 0 ==> na_sum(scores@) == scores@.len() + search_n,
            kid_count(*old(self), 0) == 0 ==> (forall|c: u8|
                c < 16 && #[trigger] col_open(union_of(node_board(*old(self), 0)), c as u64)
                    ==> exists|j: int|
                    0 <= j < scores@.len() && (#[trigger] scores@[j]).action == c),
    {
        if self.kids[0].len() == 0 {
            expand(self, 0);
        }
        proof {
            assert forall|i: int| 0 <= i < self.ns@.len() implies #[trigger] self.ns@[i]
                <= 0xffff_ffff by {
                assert(self.ns@[i] == node_n(*self, i));
                if i < node_count(*old(self)) {
                    assert(node_n(*self, i) == node_n(*old(self), i));
                    assert(old(self).ns@[i] <= 0xffff_ffff);
                } else {
                    assert(node_n(*self, i) == 1);
                }
            }
        }
        let ghost te = *self;
        let ghost base_sum = kid_n_sum(te, 0, kid_count(te, 0));
        let mut s: usize = 0;
        while s < search_n
            invariant
                tree_wf(*self),
                s <= search_n,
                search_n <= 0xffff_ffff,
                node_count(te) <= node_count(*self),
                node_board(*self, 0) == node_board(te, 0),
                node_board(te, 0) == node_board(*old(self), 0),
                !board_win(node_board(*self, 0)),
                !board_full(node_board(*self, 0)),
                node_kids(*self, 0) == node_kids(te, 0),
                kid_count(*self, 0) > 0,
                node_n(*self, 0) == node_n(te, 0) + s,
                kid_n_sum(*self, 0, kid_count(*self, 0)) == base_sum + s,
                visits_bounded(*self, (0xffff_ffff + s) as u64),
            decreases search_n - s,
        {
            proof {
                assert(visits_bounded(*self, visit_cap()));
            }
            let ghost prev = *self;
            let _ = evaluate(self, 0, expand_n);
            s = s + 1;
            proof {
                assert(node_board(*self, 0) == node_board(prev, 0));
                assert(node_kids(*self, 0) == node_kids(prev, 0));
                assert(node_n(*self, 0) == node_n(prev, 0) + 1);
                assert(kid_n_sum(*self, 0, kid_count(prev, 0)) == kid_n_sum(prev, 0, kid_count(prev, 0))
                    + 1);
            }
            proof {
                assert forall|i: int| 0 <= i < self.ns@.len() implies #[trigger] self.ns@[i] <= (
                0xffff_ffff + s) as u64 by {
                    assert(self.ns@[i] == node_n(*self, i));
                    if i < node_count(prev) {
                        assert(node_n(*self, i) <= node_n(prev, i) + 1);
                        assert(prev.ns@[i] == node_n(prev, i));
                        assert(prev.ns@[i] <= (0xffff_ffff + (s - 1)) as u64);
                    } else {
                        assert(node_n(*self, i) == 1);
                    }
                }
            }
        }
        let rootn = self.ns[0];
        let kcount = self.kids[0].len();
        let mut scores: Vec<Score> = Vec::new();
        let mut j: usize = 0;
        while j < kcount
            invariant
                tree_wf(*self),
                kcount == kid_count(*self, 0),
                rootn == node_n(*self, 0),
                j <= kcount,
                scores@.len() == j,
                na_sum(scores@) == kid_n_sum(*self, 0, j as int),
                forall|k: int| 0 <= k < j ==> (#[trigger] scores@[k]).n == rootn,
                forall|k: int|
                    0 <= k < j ==> (#[trigger] scores@[k]).action == node_kids(*self, 0)[k].0
                        && 1 <= scores@[k].na,
                forall|k: int|
                    0 <= k < j ==> (#[trigger] scores@[k]).na == node_n(
                        *self,
                        node_kids(*self, 0)[k].1 as int,
                    ) && scores@[k].w == node_w(*self, node_kids(*self, 0)[k].1 as int),
            decreases kcount - j,
        {
            let (a, kid) = self.kids[0][j];
            let ghost prev = scores@;
            scores.push(Score { action: a, na: self.ns[kid], w: self.ws[kid], n: rootn });
            proof {
                assert(scores@.drop_last() =~= prev);
            }
            j = j + 1;
        }
        proof {
            assert forall|j1: int, j2: int|
                0 <= j1 < j2 < scores@.len() implies (#[trigger] scores@[j1]).action
                < (#[trigger] scores@[j2]).action by {
                assert(node_kids(*self, 0)[j1].0 < node_kids(*self, 0)[j2].0);
            }
            if kid_count(*old(self), 0) == 0 {
                assert forall|c: u8|
                    c < 16 && #[trigger] col_open(union_of(node_board(*old(self), 0)), c as u64) implies exists|
                    jj: int,
                |
                    0 <= jj < scores@.len() && (#[trigger] scores@[jj]).action == c by {
                    let jj = choose|jj: int|
                        0 <= jj < kid_count(te, 0) && (#[trigger] node_kids(te, 0)[jj]).0 == c;
                    assert(node_kids(*self, 0)[jj].0 == c);
                    assert(scores@[jj].action == c);
                }
            }
        }
        scores
    }
}


/// The greatest visit count among the scores.
pub open spec fn na_max(s: Seq<Score>) -> int
    decreases s.len(),
{
    if s.len() == 0 {
        0
    } else {
        let rest = na_max(s.drop_last());
        if s.last().na > rest {
            s.last().na as int
        } else {
            rest
        }
    }
}

proof fn lemma_na_max_ge(s: Seq<Score>, j: int)
    requires
        0 <= j < s.len(),
    ensures
        s[j].na as int <= na_max(s),
    decreases s.len(),
{
    if j < s.len() - 1 {
        lemma_na_max_ge(s.drop_last(), j);
        assert(s.drop_last()[j] == s[j]);
    }
}

/// `r` holds exactly the actions of the scores whose visit count is
/// greatest: every element comes from a maximal entry, and every maximal
/// entry's action is present.
pub open spec fn best_set(scores: Seq<Score>, r: Seq<u8>) -> bool {
    &&& r.len() > 0
    &&& forall|k: int|
        0 <= k < r.len() ==> exists|j: int|
            0 <= j < scores.len() && #[trigger] r[k] == scores[j].action && scores[j].na as int
                == na_max(scores)
    &&& forall|j: int|
        0 <= j < scores.len() && (#[trigger] scores[j]).na as int == na_max(scores)
            ==> r.contains(scores[j].action)
}

/// A candidate list with one maximal witness per entry, and an action for
/// every maximal entry, is the tie-break set.
proof fn lemma_best_set_from_witnesses(scores: Seq<Score>, r: Seq<u8>, wit: Seq<int>, max_na: u64)
    requires
        scores.len() > 0,
        r.len() > 0,
        max_na as int == na_max(scores),
        wit.len() == r.len(),
        forall|k: int|
            0 <= k < r.len() ==> 0 <= #[trigger] wit[k] < scores.len() && scores[wit[k]].action
                == r[k] && scores[wit[k]].na == max_na,
        forall|jj: int|
            0 <= jj < scores.len() && (#[trigger] scores[jj]).na == max_na ==> r.contains(
                scores[jj].action,
            ),
    ensures
        best_set(scores, r),
{
    assert forall|k: int| 0 <= k < r.len() implies exists|j: int|
        0 <= j < scores.len() && #[trigger] r[k] == scores[j].action && scores[j].na as int
            == na_max(scores) by {
        let jw = wit[k];
        assert(0 <= jw < scores.len() && r[k] == scores[jw].action && scores[jw].na as int
            == na_max(scores));
    }
    assert forall|jx: int|
        0 <= jx < scores.len() && (#[trigger] scores[jx]).na as int == na_max(scores) implies r.contains(
        scores[jx].action,
    ) by {
        assert(scores[jx].na == max_na);
    }
}

/// The tie-break candidates of a score list: the actions of exactly those
/// entries whose visit count is greatest.
pub fn best_visit_actions(scores: &Vec<Score>) -> (r: Vec<u8>)
    requires
        scores@.len() > 0,
    ensures
        best_set(scores@, r@),
{
    let mut max_actions: Vec<u8> = Vec::new();
    let ghost mut wit: Seq<int> = Seq::empty();
    let mut max_na: u64 = 0;
    let mut j: usize = 0;
    while j < scores.len()
        invariant
            j <= scores@.len(),
            scores@.len() > 0,
            max_na as int == na_max(scores@.take(j as int)),
            j > 0 ==> max_actions@.len() > 0,
            wit.len() == max_actions@.len(),
            forall|k: int|
                0 <= k < max_actions@.len() ==> 0 <= #[trigger] wit[k] < j && scores@[wit[k]].action
                    == max_actions@[k] && scores@[wit[k]].na == max_na,
            forall|jj: int|
                0 <= jj < j && (#[trigger] scores@[jj]).na == max_na ==> max_actions@.contains(
                    scores@[jj].action,
                ),
        decreases scores@.len() - j,
    {
        let sc_na = scores[j].na;
        let sc_action = scores[j].action;
        proof {
            assert(1 <= scores@.len());
            assert(scores@.take(j as int + 1).drop_last() =~= scores@.take(j as int));
            assert(scores@.take(j as int + 1).last() == scores@[j as int]);
        }
        let ghost prev = max_actions@;
        let ghost prev_wit = wit;
        let ghost prev_na = max_na;
        if sc_na > max_na {
            max_na = sc_na;
            max_actions = Vec::new();
            max_actions.push(sc_action);
            proof {
                wit = seq![j as int];
                assert(max_actions@[0] == scores@[j as int].action);
                assert forall|jj: int| 0 <= jj < j implies (#[trigger] scores@[jj]).na
                    != max_na by {
                    lemma_na_max_ge(scores@.take(j as int), jj);
                    assert(scores@.take(j as int)[jj] == scores@[jj]);
                }
                assert(max_actions@.contains(scores@[j as int].action));
            }
        } else if sc_na == max_na {
            max_actions.push(sc_action);
            proof {
                wit = prev_wit.push(j as int);
                assert(max_actions@[max_actions@.len() - 1] == scores@[j as int].action);
                assert forall|k: int|
                    0 <= k < max_actions@.len() implies 0 <= #[trigger] wit[k] < j + 1
                        && scores@[wit[k]].action == max_actions@[k] && scores@[wit[k]].na
                        == max_na by {
                    if k < prev.len() {
                        assert(wit[k] == prev_wit[k]);
                        assert(max_actions@[k] == prev[k]);
                    } else {
                        assert(wit[k] == j as int);
                    }
                }
                assert forall|jj: int|
                    0 <= jj < j && (#[trigger] scores@[jj]).na == max_na implies max_actions@.contains(
                    scores@[jj].action,
                ) by {
                    assert(prev.contains(scores@[jj].action));
                    let k = choose|k: int| 0 <= k < prev.len() && prev[k] == scores@[jj].action;
                    assert(max_actions@[k] == scores@[jj].action);
                }
                assert(max_actions@.contains(scores@[j as int].action));
            }
        }
        j = j + 1;
    }
    proof {
        assert(scores@.take(scores@.len() as int) =~= scores@);
        lemma_best_set_from_witnesses(scores@, max_actions@, wit, max_na);
    }
    max_actions
}

/// Choose a column by Monte-Carlo tree search: run `n` simulation passes
/// with expansion threshold `ex_n`, then pick uniformly at random among the
/// children with the greatest visit count.
pub fn mcts_action(board: &Board, n: usize, ex_n: usize) -> (r: u8)
    requires
        board_wf(*board),
        !board_win(*board),
        !board_full(*board),
        n <= 0xffff_ffff,
    ensures
        r < 16,
        col_open(union_of(*board), r as u64),
{
    let mut node = Node::new(*board);
    let scores = node.search(ex_n, n);
    let max_actions = best_visit_actions(&scores);
    let pick = random_below(max_actions.len());
    let r = max_actions[pick];
    proof {
        assert(best_set(scores@, max_actions@));
        let j = choose|j: int|
            0 <= j < scores@.len() && max_actions@[pick as int] == scores@[j].action && scores@[j].na
                as int == na_max(scores@);
        assert(scores@[j].action < 16 && col_open(union_of(*board), scores@[j].action as u64));
    }
    r
}

} // verus!
