use vstd::prelude::*;

verus! {

/// Side length of a chunk, in pixels.
pub const CHUNK_SIZE: u16 = 128;

/// Number of pixels in a chunk.
pub const CHUNK_AREA: usize = 16384;

/// Folds the integers onto the naturals: `0, -1, 1, -2, 2, ...` become `0, 1, 2, 3, 4, ...`.
pub open spec fn int_to_nat(i: int) -> nat {
    if i >= 0 {
        (2 * i) as nat
    } else {
        (-2 * i - 1) as nat
    }
}

/// The inverse of `int_to_nat`.
pub open spec fn nat_to_int(n: nat) -> int {
    if n % 2 == 0 {
        (n / 2) as int
    } else {
        -((n / 2) + 1)
    }
}

/// The `w`-th triangular number, `0 + 1 + ... + w`.
pub open spec fn tri(w: nat) -> nat {
    (w * (w + 1) / 2) as nat
}

/// The largest `w` whose triangular number is at most `n`.
pub open spec fn tri_root(n: nat) -> nat
    decreases n,
{
    if n == 0 {
        0
    } else {
        let w = tri_root((n - 1) as nat);
        if tri(w + 1) <= n {
            w + 1
        } else {
            w
        }
    }
}

/// The chunk position whose pairing is `n`: the inverse of `pair_index`.
pub open spec fn unpair(n: nat) -> (int, int) {
    let w = tri_root(n);
    let b = (n - tri(w)) as nat;
    let a = (w - b) as nat;
    (nat_to_int(a), nat_to_int(b))
}

/// Cantor's pairing of two naturals.
pub open spec fn cantor(a: nat, b: nat) -> nat {
    tri(a + b) + b
}

/// Whether a chunk coordinate can be folded by `chunk_index` without overflow.
pub open spec fn coord_ok(i: int) -> bool {
    -0x3fff_ffff <= i <= 0x3fff_ffff
}

/// The number that `chunk_index` computes for a chunk position, before it is
/// cut to 32 bits.
pub open spec fn pair_index(x: int, y: int) -> nat {
    cantor(int_to_nat(x), int_to_nat(y))
}

/// The index of a chunk position: the pairing, cut to 32 bits.
pub open spec fn index_of(x: int, y: int) -> u32 {
    (pair_index(x, y) % 0x1_0000_0000) as u32
}

/// Whether a chunk position has an index of its own: its pairing fits in 32 bits.
pub open spec fn index_exact(x: int, y: int) -> bool {
    coord_ok(x) && coord_ok(y) && pair_index(x, y) <= u32::MAX
}

/// The chunk holding a pixel coordinate (floor division by the chunk size),
/// clamped to the range of `i32`.
pub open spec fn pixel_to_chunk(v: int) -> i32 {
    let q = v / (CHUNK_SIZE as int);
    if q < i32::MIN {
        i32::MIN
    } else if q > i32::MAX {
        i32::MAX
    } else {
        q as i32
    }
}

/// The simulation phase (0 to 3) in which a chunk is updated.
pub open spec fn update_order(x: int, y: int) -> u8 {
    ((((-y) % 2) * 2) + (x % 2)) as u8
}

pub proof fn lemma_tri_step(w: nat)
    ensures
        tri(w + 1) == tri(w) + w + 1,
{
    assert((w + 1) * (w + 2) == w * (w + 1) + 2 * (w + 1)) by (nonlinear_arith);
    lemma_consecutive_product_even(w);
}

pub proof fn lemma_consecutive_product_even(w: nat)
    ensures
        (w * (w + 1)) % 2 == 0,
{
    let k = w / 2;
    if w % 2 == 0 {
        assert(w * (w + 1) == 2 * (k * (w + 1))) by (nonlinear_arith)
            requires
                w == 2 * k,
        ;
    } else {
        assert(w * (w + 1) == 2 * (w * (k + 1))) by (nonlinear_arith)
            requires
                w == 2 * k + 1,
        ;
    }
}

pub proof fn lemma_tri_monotone(a: nat, b: nat)
    requires
        a <= b,
    ensures
        tri(a) <= tri(b),
    decreases b - a,
{
    if a < b {
        lemma_tri_step((b - 1) as nat);
        lemma_tri_monotone(a, (b - 1) as nat);
    }
}

/// The triangular number of `w` is the only one at most `n` whose successor exceeds `n`.
pub proof fn lemma_tri_root_unique(w1: nat, w2: nat, n: nat)
    requires
        tri(w1) <= n < tri(w1 + 1),
        tri(w2) <= n < tri(w2 + 1),
    ensures
        w1 == w2,
{
    if w1 < w2 {
        lemma_tri_monotone(w1 + 1, w2);
    } else if w2 < w1 {
        lemma_tri_monotone(w2 + 1, w1);
    }
}

pub proof fn lemma_tri_root_bounds(n: nat)
    ensures
        tri(tri_root(n)) <= n < tri(tri_root(n) + 1),
    decreases n,
{
    if n > 0 {
        lemma_tri_root_bounds((n - 1) as nat);
        let w = tri_root((n - 1) as nat);
        lemma_tri_step(w);
        lemma_tri_step(w + 1);
    } else {
        lemma_tri_step(0);
    }
}

/// `tri_root(n)` is the only `w` with `tri(w) <= n < tri(w + 1)`.
pub proof fn lemma_tri_root_is(w: nat, n: nat)
    requires
        tri(w) <= n < tri(w + 1),
    ensures
        tri_root(n) == w,
{
    lemma_tri_root_bounds(n);
    lemma_tri_root_unique(w, tri_root(n), n);
}

pub proof fn lemma_int_nat_roundtrip(i: int)
    ensures
        nat_to_int(int_to_nat(i)) == i,
{
}

pub proof fn lemma_nat_int_roundtrip(n: nat)
    ensures
        int_to_nat(nat_to_int(n)) == n,
{
}

/// Cantor's pairing is one-to-one.
pub proof fn lemma_cantor_injective(a1: nat, b1: nat, a2: nat, b2: nat)
    requires
        cantor(a1, b1) == cantor(a2, b2),
    ensures
        a1 == a2,
        b1 == b2,
{
    let n = cantor(a1, b1);
    lemma_tri_step(a1 + b1);
    lemma_tri_step(a2 + b2);
    lemma_tri_root_unique(a1 + b1, a2 + b2, n);
}

/// Two chunk positions with the same pairing are the same position.
pub proof fn lemma_pair_index_injective(x1: int, y1: int, x2: int, y2: int)
    requires
        pair_index(x1, y1) == pair_index(x2, y2),
    ensures
        x1 == x2,
        y1 == y2,
{
    lemma_cantor_injective(int_to_nat(x1), int_to_nat(y1), int_to_nat(x2), int_to_nat(y2));
    lemma_int_nat_roundtrip(x1);
    lemma_int_nat_roundtrip(x2);
    lemma_int_nat_roundtrip(y1);
    lemma_int_nat_roundtrip(y2);
}

/// Distinct chunk positions whose pairings fit in 32 bits get distinct indices.
pub proof fn lemma_index_injective(x1: int, y1: int, x2: int, y2: int)
    requires
        index_exact(x1, y1),
        index_exact(x2, y2),
        index_of(x1, y1) == index_of(x2, y2),
    ensures
        x1 == x2,
        y1 == y2,
{
    lemma_pair_index_injective(x1, y1, x2, y2);
}

/// No two neighboring chunks (sharing an edge or a corner) are simulated in
/// the same phase.
pub proof fn lemma_update_order_neighbors(x: int, y: int, dx: int, dy: int)
    requires
        -1 <= dx <= 1,
        -1 <= dy <= 1,
        dx != 0 || dy != 0,
    ensures
        update_order(x + dx, y + dy) != update_order(x, y),
        update_order(x, y) < 4,
{
}

/// Unpairing the pairing of a position gives the position back.
pub proof fn lemma_unpair_pair_index(x: int, y: int)
    ensures
        unpair(pair_index(x, y)) == (x, y),
{
    let a = int_to_nat(x);
    let b = int_to_nat(y);
    lemma_tri_step(a + b);
    lemma_tri_root_is(a + b, cantor(a, b));
    lemma_int_nat_roundtrip(x);
    lemma_int_nat_roundtrip(y);
}

/// Pairing the unpairing of `n` gives `n` back.
pub proof fn lemma_pair_index_unpair(n: nat)
    ensures
        pair_index(unpair(n).0, unpair(n).1) == n,
{
    let w = tri_root(n);
    lemma_tri_root_bounds(n);
    lemma_tri_step(w);
    let b = (n - tri(w)) as nat;
    let a = (w - b) as nat;
    lemma_nat_int_roundtrip(a);
    lemma_nat_int_roundtrip(b);
}

} // verus!
