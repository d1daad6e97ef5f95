//! The bit-encoded board.
//!
//! Each side owns one 64-bit mask over a column-major layout of 7 columns
//! of 7 rows each; the seventh row of every column is a guard row that is
//! never occupied, so that shift-based win checks cannot wrap from one
//! column into the next. A running 32-bit position hash is kept as the
//! exclusive-or of one precomputed table entry per stone on the board; the
//! table is built so that mirror-image squares share their entry, which
//! makes mirror-image positions hash identically.

use vstd::prelude::*;

verus! {

use rand::RngCore;
use rand::SeedableRng;
use rand_chacha::ChaChaRng;
use vstd::array::spec_array_update;

pub const COLS: u8 = 7;

pub const ROWS: u8 = 6;

/// All 42 playable squares set; the guard row of each column is clear.
pub const FULL_BOARD: u64 = 0b0111111011111101111110111111011111101111110111111;

/// Guard-row squares and the bits beyond square 48.
pub const UNPLAYABLE: u64 = !FULL_BOARD;

/// The bit index of column `c`, row `r` in the column-major layout.
pub open spec fn square(c: u64, r: u64) -> u64 {
    (7 * c + r) as u64
}

/// Whether bit `i` of mask `m` is set.
pub open spec fn bit(m: u64, i: u64) -> bool {
    (m >> i) & 1 == 1
}

proof fn lemma_bit_or(x: u64, y: u64, i: u64)
    by (bit_vector)
    requires
        i < 64,
    ensures
        bit(x | y, i) == (bit(x, i) || bit(y, i)),
{
}

proof fn lemma_bit_flip(x: u64, s: u64, i: u64)
    by (bit_vector)
    requires
        s < 64,
        i < 64,
    ensures
        bit(x ^ (1u64 << s), i) == (if i == s {
            !bit(x, i)
        } else {
            bit(x, i)
        }),
{
}

proof fn lemma_xor_cancel_u64(x: u64, m: u64)
    by (bit_vector)
    ensures
        (x ^ m) ^ m == x,
{
}

proof fn lemma_xor_cancel_u32(x: u32, m: u32)
    by (bit_vector)
    ensures
        (x ^ m) ^ m == x,
{
}

/// A nonzero mask has a set bit.
proof fn lemma_nonzero_has_bit(x: u64)
    requires
        x != 0,
    ensures
        exists|i: u64| i < 64 && bit(x, i),
    decreases x,
{
    if x & 1 == 1 {
        assert(x & 1 == 1 ==> bit(x, 0)) by (bit_vector);
        assert(0u64 < 64 && bit(x, 0));
    } else {
        assert(x != 0 && x & 1 != 1 ==> x >> 1 != 0 && x >> 1 < x) by (bit_vector);
        lemma_nonzero_has_bit(x >> 1);
        let i = choose|i: u64| i < 64 && bit(x >> 1, i);
        assert(bit(x >> 1, i) && i < 64 ==> i < 63 && bit(x, (i + 1) as u64)) by (bit_vector);
        assert(((i + 1) as u64) < 64 && bit(x, (i + 1) as u64));
    }
}

/// The square mirrored left-right: column `c` becomes `6 - c`, the row stays.
pub open spec fn mirror_square(q: int) -> int {
    42 - 7 * (q / 7) + q % 7
}

/// Mirror-image squares hold the same hash contribution, on both sides.
pub open spec fn mirror_table(zt: [[u32; 49]; 2]) -> bool {
    forall|s: int, q: int| 0 <= s < 2 && 0 <= q < 49 ==> #[trigger] zt[s][q] == zt[s][mirror_square(q)]
}

/// The deterministic generator of rand_chacha, opaque to the verifier.
#[verifier::external_type_specification]
#[verifier::external_body]
pub struct ExChaCha20Rng(rand_chacha::ChaCha20Rng);

/// Word `i` of the ChaCha word stream for `seed`. ChaCha is a fixed
/// cipher, so the word is a function of the seed and the position alone:
/// that is what makes the contribution table identical across runs and
/// across engine instances.
pub uninterp spec fn chacha_word(seed: Seq<u8>, i: int) -> u32;

/// A ChaCha generator together with the verifier's view of it: the seed
/// it was built from and how many words it has handed out. The fields are
/// private, so the view only ever moves through the trusted operations.
pub struct SeededRng {
    inner: ChaChaRng,
    seed: Ghost<Seq<u8>>,
    drawn: Ghost<int>,
}

impl SeededRng {
    /// The seed this generator was built from.
    pub closed spec fn spec_seed(&self) -> Seq<u8> {
        self.seed@
    }

    /// How many words the generator has handed out so far.
    pub closed spec fn spec_drawn(&self) -> int {
        self.drawn@
    }
}

/// Relies on rand_chacha::ChaChaRng::from_seed (via rand::SeedableRng):
/// builds the generator positioned at the start of the word stream that
/// the seed alone determines.
#[verifier::external_body]
fn chacha_from_seed(seed: [u8; 32]) -> ChaChaRng {
    ChaChaRng::from_seed(seed)
}

/// A fresh generator for `seed`, with its view at position zero — where
/// from_seed leaves the real generator.
fn rng_from_seed(seed: [u8; 32]) -> (rng: SeededRng)
    ensures
        rng.spec_seed() == seed@,
        rng.spec_drawn() == 0,
{
    SeededRng { inner: chacha_from_seed(seed), seed: Ghost(seed@), drawn: Ghost(0int) }
}

/// Relies on rand::RngCore::next_u32 on ChaChaRng: hands out the next
/// word of the stream and advances by one word. ChaCha's word is a fixed
/// function of the seed and the position, here named `chacha_word`; the
/// claim is faithful because a `SeededRng` is only ever built at position
/// zero by `rng_from_seed` and only ever advanced here.
#[verifier::external_body]
fn rng_next_u32(rng: &mut SeededRng) -> (word: u32)
    ensures
        word == chacha_word(old(rng).spec_seed(), old(rng).spec_drawn()),
        final(rng).spec_seed() == old(rng).spec_seed(),
        final(rng).spec_drawn() == old(rng).spec_drawn() + 1,
{
    rng.inner.next_u32()
}

/// Fills one side's 49 hash contributions: columns 0..=3 take the next
/// 28 fresh generator words; columns 4..=6 copy their mirror column.
fn fill_side(rng: &mut SeededRng) -> (side: [u32; 49])
    ensures
        final(rng).spec_seed() == old(rng).spec_seed(),
        final(rng).spec_drawn() == old(rng).spec_drawn() + 28,
        forall|q: int|
            0 <= q < 28 ==> #[trigger] side[q] == chacha_word(
                old(rng).spec_seed(),
                old(rng).spec_drawn() + q,
            ),
        forall|q: int| 28 <= q < 35 ==> #[trigger] side[q] == side[q - 14],
        forall|q: int| 35 <= q < 42 ==> #[trigger] side[q] == side[q - 28],
        forall|q: int| 42 <= q < 49 ==> #[trigger] side[q] == side[q - 42],
{
    let mut side: [u32; 49] = [0u32; 49];
    let mut sq: usize = 0;
    while sq < 49
        invariant
            sq <= 49,
            rng.spec_seed() == old(rng).spec_seed(),
            rng.spec_drawn() == old(rng).spec_drawn() + (if sq < 28 {
                sq as int
            } else {
                28
            }),
            forall|q: int|
                0 <= q < sq && q < 28 ==> #[trigger] side[q] == chacha_word(
                    old(rng).spec_seed(),
                    old(rng).spec_drawn() + q,
                ),
            forall|q: int| 28 <= q < sq && q < 35 ==> #[trigger] side[q] == side[q - 14],
            forall|q: int| 35 <= q < sq && q < 42 ==> #[trigger] side[q] == side[q - 28],
            forall|q: int| 42 <= q < sq ==> #[trigger] side[q] == side[q - 42],
        decreases 49 - sq,
    {
        if sq >= 42 {
            side[sq] = side[sq - 42];
        } else if sq >= 35 {
            side[sq] = side[sq - 28];
        } else if sq >= 28 {
            side[sq] = side[sq - 14];
        } else {
            side[sq] = rng_next_u32(rng);
        }
        sq = sq + 1;
    }
    side
}

/// The seed the contribution table is generated from: all zero bytes.
pub open spec fn zobrist_seed() -> Seq<u8> {
    Seq::new(32, |i: int| 0u8)
}

/// The fixed value of the table at side `s`, square `q`: a fresh stream
/// word for columns 0..=3, the mirror column's word for columns 4..=6.
/// Side 0 uses words 0..28 of the stream, side 1 words 28..56.
#[verifier::opaque]
pub open spec fn spec_zobrist_entry(s: int, q: int) -> u32 {
    if 0 <= q < 28 {
        chacha_word(zobrist_seed(), 28 * s + q)
    } else {
        chacha_word(zobrist_seed(), 28 * s + mirror_square(q))
    }
}

/// The whole table holds exactly the fixed per-square values.
pub open spec fn zobrist_matches(zt: [[u32; 49]; 2]) -> bool {
    forall|s: int, q: int|
        0 <= s < 2 && 0 <= q < 49 ==> #[trigger] zt[s][q] == spec_zobrist_entry(s, q)
}

/// The copy relations pin every square of one side to the fixed values.
proof fn lemma_copies_pin_entries(side: [u32; 49], s: int, base: int)
    requires
        0 <= s < 2,
        base == 28 * s,
        forall|q: int| 0 <= q < 28 ==> #[trigger] side[q] == chacha_word(zobrist_seed(), base + q),
        forall|q: int| 28 <= q < 35 ==> #[trigger] side[q] == side[q - 14],
        forall|q: int| 35 <= q < 42 ==> #[trigger] side[q] == side[q - 28],
        forall|q: int| 42 <= q < 49 ==> #[trigger] side[q] == side[q - 42],
    ensures
        forall|q: int| 0 <= q < 49 ==> #[trigger] side[q] == spec_zobrist_entry(s, q),
{
    reveal(spec_zobrist_entry);
    assert forall|q: int| 0 <= q < 49 implies #[trigger] side[q] == spec_zobrist_entry(s, q) by {
        let c = q / 7;
        let r = q % 7;
        assert(q == 7 * c + r && 0 <= r < 7 && 0 <= c < 7) by (nonlinear_arith)
            requires
                0 <= q < 49,
                c == q / 7,
                r == q % 7,
        ;
        if c <= 3 {
            assert(side[q] == chacha_word(zobrist_seed(), base + q));
        } else {
            assert(mirror_square(q) == 42 - 7 * c + r);
            if c == 4 {
                assert(side[q] == side[q - 14] && mirror_square(q) == q - 14);
            } else if c == 5 {
                assert(side[q] == side[q - 28] && mirror_square(q) == q - 28);
            } else {
                assert(side[q] == side[q - 42] && mirror_square(q) == q - 42);
            }
            assert(side[q] == chacha_word(zobrist_seed(), base + mirror_square(q)));
        }
    }
}

/// Turns the copy relations that `fill_side` establishes into the
/// mirror-square form.
proof fn lemma_copies_give_mirror(side: [u32; 49])
    requires
        forall|q: int| 28 <= q < 35 ==> #[trigger] side[q] == side[q - 14],
        forall|q: int| 35 <= q < 42 ==> #[trigger] side[q] == side[q - 28],
        forall|q: int| 42 <= q < 49 ==> #[trigger] side[q] == side[q - 42],
    ensures
        forall|q: int| 0 <= q < 49 ==> #[trigger] side[q] == side[mirror_square(q)],
{
    assert forall|q: int| 0 <= q < 49 implies #[trigger] side[q] == side[mirror_square(q)] by {
        let c = q / 7;
        let r = q % 7;
        assert(q == 7 * c + r && 0 <= r < 7 && 0 <= c < 7) by (nonlinear_arith)
            requires
                0 <= q < 49,
                c == q / 7,
                r == q % 7,
        ;
        let m = mirror_square(q);
        assert(m == 42 - 7 * c + r);
        if c == 0 {
            assert(side[m] == side[m - 42]);
        } else if c == 1 {
            assert(side[m] == side[m - 28]);
        } else if c == 2 {
            assert(side[m] == side[m - 14]);
        } else if c == 3 {
            assert(m == q);
        } else if c == 4 {
            assert(side[q] == side[q - 14]);
        } else if c == 5 {
            assert(side[q] == side[q - 28]);
        } else {
            assert(side[q] == side[q - 42]);
        }
    }
}

/// Builds the two-sided table of per-square hash contributions from the
/// fixed all-zero seed: every entry is pinned to the seed's word stream,
/// so every run and every engine instance builds the identical table, and
/// mirror-image squares share their entry.
fn init_zobrist_table() -> (zt: [[u32; 49]; 2])
    ensures
        mirror_table(zt),
        zobrist_matches(zt),
{
    let seed: [u8; 32] = [0u8; 32];
    let mut rng = rng_from_seed(seed);
    let side0 = fill_side(&mut rng);
    let side1 = fill_side(&mut rng);
    proof {
        lemma_copies_give_mirror(side0);
        lemma_copies_give_mirror(side1);
        assert(seed@ =~= zobrist_seed());
        assert forall|q: int| 0 <= q < 28 implies #[trigger] side0[q] == chacha_word(
            zobrist_seed(),
            0 + q,
        ) by {
            assert(side0[q] == chacha_word(seed@, 0 + q));
        }
        assert forall|q: int| 0 <= q < 28 implies #[trigger] side1[q] == chacha_word(
            zobrist_seed(),
            28 + q,
        ) by {
            assert(side1[q] == chacha_word(seed@, 28 + q));
        }
        lemma_copies_pin_entries(side0, 0, 0);
        lemma_copies_pin_entries(side1, 1, 28);
    }
    [side0, side1]
}

proof fn lemma_xor_zero_u32(x: u32)
    by (bit_vector)
    ensures
        x ^ 0 == x,
        0 ^ x == x,
{
}

proof fn lemma_xor_assoc_u32(x: u32, y: u32, z: u32)
    by (bit_vector)
    ensures
        x ^ (y ^ z) == (x ^ y) ^ z,
{
}

/// Two squares in range coincide only at the same column and row.
proof fn lemma_square_injective(c1: u64, r1: u64, c2: u64, r2: u64)
    requires
        c1 < 7,
        r1 < 7,
        c2 < 7,
        r2 < 7,
        square(c1, r1) == square(c2, r2),
    ensures
        c1 == c2 && r1 == r2,
{
    assert(7 * c1 + r1 == 7 * c2 + r2);
    if c1 < c2 {
        assert(7 * c1 + r1 < 7 * (c1 + 1) <= 7 * c2 + r2);
    }
    if c2 < c1 {
        assert(7 * c2 + r2 < 7 * (c2 + 1) <= 7 * c1 + r1);
    }
}

/// The hash contribution of slot `i` of 98 (sides-major): the table entry
/// for an occupied square, zero for an empty one.
pub open spec fn slot_contrib(b0: u64, b1: u64, zt: [[u32; 49]; 2], i: int) -> u32 {
    let s = i / 49;
    let q = i % 49;
    let m = if s == 0 {
        b0
    } else {
        b1
    };
    if bit(m, q as u64) {
        zt[s][q]
    } else {
        0u32
    }
}

/// The exclusive-or of the first `n` slot contributions.
pub open spec fn hash_fold(b0: u64, b1: u64, zt: [[u32; 49]; 2], n: int) -> u32
    decreases n,
{
    if n <= 0 {
        0u32
    } else {
        hash_fold(b0, b1, zt, n - 1) ^ slot_contrib(b0, b1, zt, n - 1)
    }
}

/// The position hash of a pair of masks: the exclusive-or of the table
/// entries of every occupied (side, square) pair.
pub open spec fn spec_hash(b0: u64, b1: u64, zt: [[u32; 49]; 2]) -> u32 {
    hash_fold(b0, b1, zt, 98)
}

proof fn lemma_hash_fold_empty(zt: [[u32; 49]; 2], n: int)
    ensures
        hash_fold(0, 0, zt, n) == 0,
    decreases n,
{
    if n > 0 {
        lemma_hash_fold_empty(zt, n - 1);
        assert(forall|q: u64| !bit(0u64, q)) by (bit_vector);
        lemma_xor_zero_u32(0);
    }
}

/// If the two boards differ only in slot `k`, their hashes differ exactly
/// by the exclusive-or of the old and new contribution of that slot.
proof fn lemma_hash_fold_flip(b0: u64, b1: u64, c0: u64, c1: u64, zt: [[u32; 49]; 2], k: int, n: int)
    requires
        0 <= k < 98,
        forall|i: int|
            0 <= i < 98 && i != k ==> #[trigger] slot_contrib(c0, c1, zt, i) == slot_contrib(
                b0,
                b1,
                zt,
                i,
            ),
    ensures
        n <= k ==> hash_fold(c0, c1, zt, n) == hash_fold(b0, b1, zt, n),
        k < n <= 98 ==> hash_fold(c0, c1, zt, n) == hash_fold(b0, b1, zt, n) ^ (slot_contrib(
            b0,
            b1,
            zt,
            k,
        ) ^ slot_contrib(c0, c1, zt, k)),
    decreases n,
{
    if n <= 0 {
    } else {
        lemma_hash_fold_flip(b0, b1, c0, c1, zt, k, n - 1);
        let f = hash_fold(b0, b1, zt, n - 1);
        let d = slot_contrib(b0, b1, zt, k) ^ slot_contrib(c0, c1, zt, k);
        if n - 1 == k {
            // new contribution of slot k equals the old one xor d
            assert(slot_contrib(c0, c1, zt, k) == slot_contrib(b0, b1, zt, k) ^ d) by {
                lemma_xor_cancel_u32(slot_contrib(c0, c1, zt, k), slot_contrib(b0, b1, zt, k));
                assert(forall|x: u32, y: u32| x ^ y == y ^ x) by (bit_vector);
            }
            lemma_xor_assoc_u32(f, slot_contrib(b0, b1, zt, k), d);
        } else if n - 1 > k {
            lemma_xor_assoc_u32(hash_fold(b0, b1, zt, n - 1), d, slot_contrib(b0, b1, zt, n - 1));
            lemma_xor_assoc_u32(hash_fold(b0, b1, zt, n - 1), slot_contrib(b0, b1, zt, n - 1), d);
            assert(forall|x: u32, y: u32| x ^ y == y ^ x) by (bit_vector);
        }
    }
}

/// The other side's indicator.
pub open spec fn spec_flip(a: usize) -> usize {
    if a == 0 {
        1
    } else {
        0
    }
}

/// The state after the side to move drops a stone on column `col`:
/// the stone's bit enters the mover's mask, its table entry enters the
/// hash, and the column grows by one. The side indicator is untouched.
pub open spec fn spec_put(b: Board, col: u8) -> Board {
    let fill = b.col_height[col as int];
    let sq = square(col as u64, fill as u64);
    Board {
        board: spec_array_update(
            b.board,
            b.active as int,
            b.board[b.active as int] ^ (1u64 << sq),
        ),
        hash: b.hash ^ b.zobrist_table[b.active as int][sq as int],
        col_height: spec_array_update(b.col_height, col as int, (fill + 1) as u8),
        ..b
    }
}

/// The state after the side to move takes the top stone off column `col`:
/// the exact inverse of `spec_put`, since exclusive-or is self-inverse.
pub open spec fn spec_remove(b: Board, col: u8) -> Board {
    let fill = b.col_height[col as int];
    let sq = square(col as u64, (fill - 1) as u64);
    Board {
        board: spec_array_update(
            b.board,
            b.active as int,
            b.board[b.active as int] ^ (1u64 << sq),
        ),
        hash: b.hash ^ b.zobrist_table[b.active as int][sq as int],
        col_height: spec_array_update(b.col_height, col as int, (fill - 1) as u8),
        ..b
    }
}

/// A full move: drop a stone, then hand the turn to the other side.
pub open spec fn spec_apply(b: Board, col: u8) -> Board {
    let p = spec_put(b, col);
    Board { active: spec_flip(b.active), ..p }
}

/// The inverse of a full move: take the turn back, then lift the stone.
pub open spec fn spec_retract(b: Board, col: u8) -> Board {
    spec_remove(Board { active: spec_flip(b.active), ..b }, col)
}

/// Flipping one square's bit on side `a` changes the hash by exactly that
/// square's table entry.
proof fn lemma_hash_flip(b0: u64, b1: u64, c0: u64, c1: u64, zt: [[u32; 49]; 2], a: int, sq: u64)
    requires
        0 <= a < 2,
        sq < 49,
        a == 0 ==> c0 == b0 ^ (1u64 << sq) && c1 == b1,
        a == 1 ==> c1 == b1 ^ (1u64 << sq) && c0 == b0,
    ensures
        spec_hash(c0, c1, zt) == spec_hash(b0, b1, zt) ^ zt[a][sq as int],
{
    let k = 49 * a + sq as int;
    let m = if a == 0 {
        b0
    } else {
        b1
    };
    assert forall|i: int| 0 <= i < 98 && i != k implies #[trigger] slot_contrib(c0, c1, zt, i)
        == slot_contrib(b0, b1, zt, i) by {
        let s = i / 49;
        let q = i % 49;
        assert(i == 49 * s + q && 0 <= q < 49 && 0 <= s < 2) by (nonlinear_arith)
            requires
                0 <= i < 98,
                s == i / 49,
                q == i % 49,
        ;
        if s == a {
            assert(q != sq as int);
            lemma_bit_flip(m, sq, q as u64);
        }
    }
    assert(k / 49 == a && k % 49 == sq as int) by (nonlinear_arith)
        requires
            0 <= a < 2,
            0 <= sq < 49,
            k == 49 * a + sq as int,
    ;
    lemma_bit_flip(m, sq, sq);
    lemma_hash_fold_flip(b0, b1, c0, c1, zt, k, 98);
    let v = zt[a][sq as int];
    if bit(m, sq) {
        assert(slot_contrib(b0, b1, zt, k) == v && slot_contrib(c0, c1, zt, k) == 0);
    } else {
        assert(slot_contrib(b0, b1, zt, k) == 0 && slot_contrib(c0, c1, zt, k) == v);
    }
    lemma_xor_zero_u32(v);
}

/// The game state: one mask per side, the side to move, the running hash,
/// the per-square hash contributions and the per-column stone counts.
#[derive(Clone)]
pub struct Board {
    pub board: [u64; 2],
    pub active: usize,
    pub hash: u32,
    pub zobrist_table: [[u32; 49]; 2],
    pub col_height: [u8; 7],
}

impl Board {
    /// The union of both sides' masks.
    pub open spec fn spec_occupancy(&self) -> u64 {
        self.board[0] | self.board[1]
    }

    /// Column `c` holds exactly its lowest `col_height[c]` squares.
    pub open spec fn fill_matches(&self) -> bool {
        forall|c: u64, r: u64|
            c < 7 && r < 7 ==> (#[trigger] bit(self.spec_occupancy(), square(c, r)) <==> r
                < self.col_height[c as int])
    }

    /// The data-model invariant: the side indicator is binary, the two
    /// masks are disjoint and stay on playable squares, every column is
    /// filled from the bottom up to its recorded height, the hash is the
    /// exclusive-or of the contributions of the stones on the board, and
    /// the contribution table is mirror-symmetric.
    pub open spec fn wf(&self) -> bool {
        &&& self.active < 2
        &&& forall|c: int| 0 <= c < 7 ==> #[trigger] self.col_height[c] <= 6
        &&& self.board[0] & self.board[1] == 0
        &&& self.board[0] & UNPLAYABLE == 0
        &&& self.board[1] & UNPLAYABLE == 0
        &&& self.fill_matches()
        &&& self.hash == spec_hash(self.board[0], self.board[1], self.zobrist_table)
        &&& mirror_table(self.zobrist_table)
        &&& zobrist_matches(self.zobrist_table)
    }

    pub fn new() -> (board: Board)
        ensures
            board.wf(),
            board.board[0] == 0,
            board.board[1] == 0,
            board.active == 0,
            board.hash == 0,
            forall|c: int| 0 <= c < 7 ==> #[trigger] board.col_height[c] == 0,
            zobrist_matches(board.zobrist_table),
    {
        let board = Board {
            board: [0u64; 2],
            active: 0,
            hash: 0,
            zobrist_table: init_zobrist_table(),
            col_height: [0u8; 7],
        };
        proof {
            assert(0u64 | 0u64 == 0 && 0u64 & 0u64 == 0 && 0u64 & UNPLAYABLE == 0) by (bit_vector);
            assert(forall|q: u64| !bit(0u64, q)) by (bit_vector);
            lemma_hash_fold_empty(board.zobrist_table, 98);
        }
        board
    }

    pub fn occupancy(&self) -> (occ: u64)
        ensures
            occ == self.spec_occupancy(),
    {
        self.board[0] | self.board[1]
    }

    /// The number of stones in column `col`, read off the masks: the first
    /// empty row from the bottom. Under the invariant this equals the
    /// recorded column height.
    fn column_fill(&self, col: u8) -> (fill: u8)
        requires
            self.wf(),
            col < 7,
        ensures
            fill == self.col_height[col as int],
    {
        let occ: u64 = self.board[0] | self.board[1];
        let mut fill: u8 = 0;
        while fill < 6
            invariant
                self.wf(),
                col < 7,
                fill <= 6,
                occ == self.spec_occupancy(),
                fill <= self.col_height[col as int],
            decreases 6 - fill,
        {
            let sq: u64 = 7 * (col as u64) + (fill as u64);
            proof {
                assert(sq == square(col as u64, fill as u64));
                assert((occ >> sq) & 1 == 0 || (occ >> sq) & 1 == 1) by (bit_vector);
            }
            if (occ >> sq) & 1 == 0 {
                proof {
                    assert(!bit(occ, square(col as u64, fill as u64)));
                }
                return fill;
            }
            proof {
                assert(bit(occ, square(col as u64, fill as u64)));
            }
            fill = fill + 1;
        }
        fill
    }

    /// Drops the side-to-move's stone on column `col` without handing the
    /// turn over; reports 0 and leaves the state untouched when the column
    /// is full.
    pub fn put(&mut self, col: u8) -> (placed: u8)
        requires
            old(self).wf(),
            col < 7,
        ensures
            final(self).wf(),
            old(self).col_height[col as int] == 6 ==> placed == 0 && *final(self) == *old(self),
            old(self).col_height[col as int] < 6 ==> placed == 1 && *final(self) == spec_put(
                *old(self),
                col,
            ),
    {
        let fill = self.column_fill(col);
        if fill == ROWS {
            return 0;
        }
        let sq: u64 = 7 * (col as u64) + (fill as u64);
        self.hash = self.hash ^ self.zobrist_table[self.active][sq as usize];
        let target_mask: u64 = 1u64 << sq;
        self.board[self.active] = self.board[self.active] ^ target_mask;
        self.col_height[col as usize] = fill + 1;
        proof {
            let b = *old(self);
            assert(sq == square(col as u64, b.col_height[col as int] as u64));
            lemma_put_wf(b, col);
            assert(self.board =~= spec_put(b, col).board);
            assert(self.col_height =~= spec_put(b, col).col_height);
            assert(*self == spec_put(b, col));
        }
        1
    }

    /// Lifts the side-to-move's top stone off column `col`: the exact
    /// inverse of a `put` on that column. The caller only retracts stones
    /// it placed, so the top stone belongs to the side to move.
    pub fn remove(&mut self, col: u8)
        requires
            old(self).wf(),
            col < 7,
            old(self).col_height[col as int] >= 1,
            bit(
                old(self).board[old(self).active as int],
                square(col as u64, (old(self).col_height[col as int] - 1) as u64),
            ),
        ensures
            final(self).wf(),
            *final(self) == spec_remove(*old(self), col),
    {
        let fill = self.column_fill(col);
        let sq: u64 = 7 * (col as u64) + (fill as u64) - 1;
        self.hash = self.hash ^ self.zobrist_table[self.active][sq as usize];
        let target_mask: u64 = 1u64 << sq;
        self.board[self.active] = self.board[self.active] ^ target_mask;
        self.col_height[col as usize] = fill - 1;
        proof {
            let b = *old(self);
            assert(sq == square(col as u64, (b.col_height[col as int] - 1) as u64));
            lemma_remove_wf(b, col);
            assert(self.board =~= spec_remove(b, col).board);
            assert(self.col_height =~= spec_remove(b, col).col_height);
            assert(*self == spec_remove(b, col));
        }
    }

    /// Plays a full move for the side to move: a stone drops on `col` and
    /// the turn passes. Reports 0 and changes nothing when the column is
    /// out of range or full.
    pub fn make_move(&mut self, col: u8) -> (moved: u8)
        requires
            old(self).wf(),
        ensures
            final(self).wf(),
            col >= 7 || old(self).col_height[col as int] == 6 ==> moved == 0 && *final(self)
                == *old(self),
            col < 7 && old(self).col_height[col as int] < 6 ==> moved == 1 && *final(self)
                == spec_apply(*old(self), col),
    {
        if col >= COLS {
            return 0;
        }
        if self.put(col) == 0 {
            return 0;
        }
        self.active = self.active ^ 1;
        proof {
            let a = old(self).active;
            assert(a < 2 ==> (a ^ 1usize) == spec_flip(a)) by (bit_vector);
            lemma_flip_wf(spec_put(*old(self), col));
            assert(*self == spec_apply(*old(self), col));
        }
        1
    }

    /// Whether the board is completely full: every one of the 42 playable
    /// squares is occupied.
    pub fn draw(&self) -> (full: bool)
        requires
            self.wf(),
        ensures
            full == (self.spec_occupancy() == FULL_BOARD),
            full <==> (forall|c: u64, r: u64|
                c < 7 && r < 6 ==> #[trigger] bit(self.spec_occupancy(), square(c, r))),
    {
        let occ: u64 = self.occupancy();
        proof {
            let m0 = self.board[0];
            let m1 = self.board[1];
            assert(occ & UNPLAYABLE == 0) by (bit_vector)
                requires
                    occ == m0 | m1,
                    m0 & UNPLAYABLE == 0,
                    m1 & UNPLAYABLE == 0,
            ;
            assert((occ >= FULL_BOARD) == (occ == FULL_BOARD)) by (bit_vector)
                requires
                    occ & UNPLAYABLE == 0,
            ;
            if occ == FULL_BOARD {
                assert forall|c: u64, r: u64| c < 7 && r < 6 implies #[trigger] bit(
                    self.spec_occupancy(),
                    square(c, r),
                ) by {
                    assert(c < 7 && r < 6 ==> bit(FULL_BOARD, square(c, r))) by (bit_vector);
                }
            } else {
                let d = occ ^ FULL_BOARD;
                assert(d != 0) by (bit_vector)
                    requires
                        d == occ ^ FULL_BOARD,
                        occ != FULL_BOARD,
                ;
                lemma_nonzero_has_bit(d);
                let i = choose|i: u64| i < 64 && bit(d, i);
                assert(i <= 47 && i % 7 <= 5 && !bit(occ, i)) by (bit_vector)
                    requires
                        i < 64,
                        bit(occ ^ FULL_BOARD, i),
                        occ & UNPLAYABLE == 0,
                ;
                let c = i / 7;
                let r = i % 7;
                assert(i == 7 * c + r && r < 7 && c < 7) by (nonlinear_arith)
                    requires
                        i <= 47,
                        c == i / 7,
                        r == i % 7,
                ;
                assert(!bit(self.spec_occupancy(), square(c, r)) && c < 7 && r < 6);
            }
        }
        occ >= FULL_BOARD
    }

    /// Whether side `side` holds four stones in a straight line:
    /// vertical, horizontal, or either diagonal.
    pub fn game_over(&self, side: usize) -> (won: bool)
        requires
            self.wf(),
            side < 2,
        ensures
            won == has_win(self.board[side as int]),
    {
        let bb: u64 = self.board[side];
        proof {
            lemma_win_formula(bb);
        }
        (bb & bb << 8 & bb << 16 & bb << 24) > 0 || (bb & bb << 1 & bb << 2 & bb << 3) > 0 || (bb
            & bb << 7 & bb << 14 & bb << 21) > 0 || (bb & bb << 6 & bb << 12 & bb << 18) > 0
    }

    /// The columns that can still take a stone, in the fixed center-out
    /// priority order: each listed column is in range with room to spare,
    /// every non-full column is listed, and ranks strictly increase.
    pub fn legal_moves(&self) -> (moves: Vec<u8>)
        requires
            self.wf(),
        ensures
            forall|j: int|
                0 <= j < moves@.len() ==> (#[trigger] moves@[j]) < 7 && self.col_height[moves@[j] as int]
                    < 6,
            forall|c: u8|
                c < 7 && self.col_height[c as int] < 6 ==> #[trigger] moves@.contains(c),
            forall|j1: int, j2: int|
                0 <= j1 < j2 < moves@.len() ==> move_priority(moves@[j1]) < move_priority(
                    moves@[j2],
                ),
    {
        let mut moves: Vec<u8> = Vec::new();
        let mut i: usize = 0;
        while i < 7
            invariant
                i <= 7,
                self.wf(),
                forall|j: int|
                    0 <= j < moves@.len() ==> (#[trigger] moves@[j]) < 7
                        && self.col_height[moves@[j] as int] < 6 && move_priority(moves@[j]) < i,
                forall|c: u8|
                    c < 7 && self.col_height[c as int] < 6 && move_priority(c) < i
                        ==> #[trigger] moves@.contains(c),
                forall|j1: int, j2: int|
                    0 <= j1 < j2 < moves@.len() ==> move_priority(moves@[j1]) < move_priority(
                        moves@[j2],
                    ),
            decreases 7 - i,
        {
            let m = move_order(i);
            proof {
                assert(move_priority(spec_move_order(i as int)) == i as int);
            }
            let ghost before = moves@;
            if self.column_fill(m) != ROWS {
                moves.push(m);
                proof {
                    assert(moves@[moves@.len() - 1] == m);
                    assert forall|c: u8|
                        c < 7 && self.col_height[c as int] < 6 && move_priority(c) < i + 1 implies
                        #[trigger] moves@.contains(c) by {
                        if move_priority(c) < i {
                            assert(before.contains(c));
                            let n = choose|n: int| 0 <= n < before.len() && before[n] == c;
                            assert(moves@[n] == c);
                        } else {
                            assert(c == m);
                        }
                    }
                }
            } else {
                proof {
                    assert forall|c: u8|
                        c < 7 && self.col_height[c as int] < 6 && move_priority(c) < i + 1 implies
                        #[trigger] moves@.contains(c) by {
                        if move_priority(c) == i as int {
                            assert(c == m);
                        } else {
                            assert(before.contains(c));
                        }
                    }
                }
            }
            i = i + 1;
        }
        moves
    }

    /// Takes back the most recent move, which was a stone the other side
    /// dropped on column `col`: the turn returns and the stone lifts off.
    pub fn unmake_move(&mut self, col: u8)
        requires
            old(self).wf(),
            col < 7,
            old(self).col_height[col as int] >= 1,
            bit(
                old(self).board[spec_flip(old(self).active) as int],
                square(col as u64, (old(self).col_height[col as int] - 1) as u64),
            ),
        ensures
            final(self).wf(),
            *final(self) == spec_retract(*old(self), col),
    {
        self.active = self.active ^ 1;
        proof {
            let a = old(self).active;
            assert(a < 2 ==> (a ^ 1usize) == spec_flip(a)) by (bit_vector);
            lemma_flip_wf(*old(self));
            assert(*self == Board { active: spec_flip(a), ..*old(self) });
        }
        self.remove(col);
    }
}

/// Four stones of mask `m` stacked in column `c`, rows `r` to `r + 3`.
pub open spec fn vertical_win_at(m: u64, c: u64, r: u64) -> bool {
    &&& bit(m, square(c, r))
    &&& bit(m, square(c, (r + 1) as u64))
    &&& bit(m, square(c, (r + 2) as u64))
    &&& bit(m, square(c, (r + 3) as u64))
}

/// Four stones of mask `m` in row `r`, columns `c` to `c + 3`.
pub open spec fn horizontal_win_at(m: u64, c: u64, r: u64) -> bool {
    &&& bit(m, square(c, r))
    &&& bit(m, square((c + 1) as u64, r))
    &&& bit(m, square((c + 2) as u64, r))
    &&& bit(m, square((c + 3) as u64, r))
}

/// Four stones of mask `m` on the rising diagonal from `(c, r)`.
pub open spec fn diag_up_win_at(m: u64, c: u64, r: u64) -> bool {
    &&& bit(m, square(c, r))
    &&& bit(m, square((c + 1) as u64, (r + 1) as u64))
    &&& bit(m, square((c + 2) as u64, (r + 2) as u64))
    &&& bit(m, square((c + 3) as u64, (r + 3) as u64))
}

/// Four stones of mask `m` on the falling diagonal from `(c, r)`.
pub open spec fn diag_down_win_at(m: u64, c: u64, r: u64) -> bool {
    &&& bit(m, square(c, r))
    &&& bit(m, square((c + 1) as u64, (r - 1) as u64))
    &&& bit(m, square((c + 2) as u64, (r - 2) as u64))
    &&& bit(m, square((c + 3) as u64, (r - 3) as u64))
}

/// A straight line of four stones starting at playable square `(c, r)`,
/// in any of the four directions, within the board.
pub open spec fn win_at(m: u64, c: u64, r: u64) -> bool {
    &&& c < 7
    &&& r < 6
    &&& {
        ||| (r <= 2 && vertical_win_at(m, c, r))
        ||| (c <= 3 && horizontal_win_at(m, c, r))
        ||| (c <= 3 && r <= 2 && diag_up_win_at(m, c, r))
        ||| (c <= 3 && r >= 3 && diag_down_win_at(m, c, r))
    }
}

/// The mask holds four in a row somewhere.
pub open spec fn has_win(m: u64) -> bool {
    exists|c: u64, r: u64| #[trigger] win_at(m, c, r)
}

/// A set bit of the vertical shift product yields a vertical line.
proof fn lemma_vertical_sound(bb: u64)
    requires
        bb & UNPLAYABLE == 0,
        ((bb & (bb << 1)) & (bb << 2)) & (bb << 3) != 0,
    ensures
        has_win(bb),
{
    lemma_nonzero_has_bit(((bb & (bb << 1)) & (bb << 2)) & (bb << 3));
    let i = choose|i: u64| i < 64 && bit(((bb & (bb << 1)) & (bb << 2)) & (bb << 3), i);
    assert(i >= 3 && i <= 47 && (i - 3) % 7 <= 2 && bit(bb, (i - 3) as u64) && bit(
        bb,
        (i - 2) as u64,
    ) && bit(bb, (i - 1) as u64) && bit(bb, i)) by (bit_vector)
        requires
            i < 64,
            bit(((bb & (bb << 1)) & (bb << 2)) & (bb << 3), i),
            bb & UNPLAYABLE == 0,
    ;
    let s = (i - 3) as u64;
    let c = s / 7;
    let r = s % 7;
    assert(s == 7 * c + r && r < 7 && c < 7) by (nonlinear_arith)
        requires
            s <= 44,
            c == s / 7,
            r == s % 7,
    ;
    assert(win_at(bb, c, r));
}

/// A set bit of the horizontal shift product yields a horizontal line.
proof fn lemma_horizontal_sound(bb: u64)
    requires
        bb & UNPLAYABLE == 0,
        ((bb & (bb << 7)) & (bb << 14)) & (bb << 21) != 0,
    ensures
        has_win(bb),
{
    lemma_nonzero_has_bit(((bb & (bb << 7)) & (bb << 14)) & (bb << 21));
    let i = choose|i: u64| i < 64 && bit(((bb & (bb << 7)) & (bb << 14)) & (bb << 21), i);
    assert(i >= 21 && i <= 47 && (i - 21) % 7 <= 5 && bit(bb, (i - 21) as u64) && bit(
        bb,
        (i - 14) as u64,
    ) && bit(bb, (i - 7) as u64) && bit(bb, i)) by (bit_vector)
        requires
            i < 64,
            bit(((bb & (bb << 7)) & (bb << 14)) & (bb << 21), i),
            bb & UNPLAYABLE == 0,
    ;
    let s = (i - 21) as u64;
    let c = s / 7;
    let r = s % 7;
    assert(s == 7 * c + r && r < 7 && c < 7) by (nonlinear_arith)
        requires
            s <= 26,
            c == s / 7,
            r == s % 7,
    ;
    assert(win_at(bb, c, r));
}

/// A set bit of the rising-diagonal shift product yields a rising line.
proof fn lemma_diag_up_sound(bb: u64)
    requires
        bb & UNPLAYABLE == 0,
        ((bb & (bb << 8)) & (bb << 16)) & (bb << 24) != 0,
    ensures
        has_win(bb),
{
    lemma_nonzero_has_bit(((bb & (bb << 8)) & (bb << 16)) & (bb << 24));
    let i = choose|i: u64| i < 64 && bit(((bb & (bb << 8)) & (bb << 16)) & (bb << 24), i);
    assert(i >= 24 && i <= 47 && (i - 24) % 7 <= 2 && (i - 24) / 7 <= 3 && bit(
        bb,
        (i - 24) as u64,
    ) && bit(bb, (i - 16) as u64) && bit(bb, (i - 8) as u64) && bit(bb, i)) by (bit_vector)
        requires
            i < 64,
            bit(((bb & (bb << 8)) & (bb << 16)) & (bb << 24), i),
            bb & UNPLAYABLE == 0,
    ;
    let s = (i - 24) as u64;
    let c = s / 7;
    let r = s % 7;
    assert(s == 7 * c + r && r < 7 && c < 7) by (nonlinear_arith)
        requires
            s <= 23,
            c == s / 7,
            r == s % 7,
    ;
    assert(win_at(bb, c, r));
}

/// A set bit of the falling-diagonal shift product yields a falling line.
proof fn lemma_diag_down_sound(bb: u64)
    requires
        bb & UNPLAYABLE == 0,
        ((bb & (bb << 6)) & (bb << 12)) & (bb << 18) != 0,
    ensures
        has_win(bb),
{
    lemma_nonzero_has_bit(((bb & (bb << 6)) & (bb << 12)) & (bb << 18));
    let i = choose|i: u64| i < 64 && bit(((bb & (bb << 6)) & (bb << 12)) & (bb << 18), i);
    assert(i >= 18 && i <= 47 && (i - 18) % 7 >= 3 && (i - 18) % 7 <= 5 && (i - 18) / 7 <= 3
        && bit(bb, (i - 18) as u64) && bit(bb, (i - 12) as u64) && bit(bb, (i - 6) as u64) && bit(
        bb,
        i,
    )) by (bit_vector)
        requires
            i < 64,
            bit(((bb & (bb << 6)) & (bb << 12)) & (bb << 18), i),
            bb & UNPLAYABLE == 0,
    ;
    let s = (i - 18) as u64;
    let c = s / 7;
    let r = s % 7;
    assert(s == 7 * c + r && r < 7 && c < 7) by (nonlinear_arith)
        requires
            s <= 29,
            c == s / 7,
            r == s % 7,
    ;
    assert(win_at(bb, c, r));
}

/// The four shift products detect exactly the lines that `has_win` names.
proof fn lemma_win_formula(bb: u64)
    requires
        bb & UNPLAYABLE == 0,
    ensures
        (((bb & (bb << 8)) & (bb << 16)) & (bb << 24) != 0 || ((bb & (bb << 1)) & (bb << 2)) & (bb
            << 3) != 0 || ((bb & (bb << 7)) & (bb << 14)) & (bb << 21) != 0 || ((bb & (bb << 6)) & (
        bb << 12)) & (bb << 18) != 0) == has_win(bb),
{
    if ((bb & (bb << 8)) & (bb << 16)) & (bb << 24) != 0 {
        lemma_diag_up_sound(bb);
    } else if ((bb & (bb << 1)) & (bb << 2)) & (bb << 3) != 0 {
        lemma_vertical_sound(bb);
    } else if ((bb & (bb << 7)) & (bb << 14)) & (bb << 21) != 0 {
        lemma_horizontal_sound(bb);
    } else if ((bb & (bb << 6)) & (bb << 12)) & (bb << 18) != 0 {
        lemma_diag_down_sound(bb);
    } else if has_win(bb) {
        let (c, r) = choose|c: u64, r: u64| #[trigger] win_at(bb, c, r);
        if r <= 2 && vertical_win_at(bb, c, r) {
            assert(((bb & (bb << 1)) & (bb << 2)) & (bb << 3) != 0) by (bit_vector)
                requires
                    c < 7,
                    r <= 2,
                    bit(bb, square(c, r)),
                    bit(bb, square(c, (r + 1) as u64)),
                    bit(bb, square(c, (r + 2) as u64)),
                    bit(bb, square(c, (r + 3) as u64)),
            ;
        } else if c <= 3 && horizontal_win_at(bb, c, r) {
            assert(((bb & (bb << 7)) & (bb << 14)) & (bb << 21) != 0) by (bit_vector)
                requires
                    c <= 3,
                    r < 6,
                    bit(bb, square(c, r)),
                    bit(bb, square((c + 1) as u64, r)),
                    bit(bb, square((c + 2) as u64, r)),
                    bit(bb, square((c + 3) as u64, r)),
            ;
        } else if c <= 3 && r <= 2 && diag_up_win_at(bb, c, r) {
            assert(((bb & (bb << 8)) & (bb << 16)) & (bb << 24) != 0) by (bit_vector)
                requires
                    c <= 3,
                    r <= 2,
                    bit(bb, square(c, r)),
                    bit(bb, square((c + 1) as u64, (r + 1) as u64)),
                    bit(bb, square((c + 2) as u64, (r + 2) as u64)),
                    bit(bb, square((c + 3) as u64, (r + 3) as u64)),
            ;
        } else {
            assert(c <= 3 && r >= 3 && diag_down_win_at(bb, c, r));
            assert(((bb & (bb << 6)) & (bb << 12)) & (bb << 18) != 0) by (bit_vector)
                requires
                    c <= 3,
                    3 <= r < 6,
                    bit(bb, square(c, r)),
                    bit(bb, square((c + 1) as u64, (r - 1) as u64)),
                    bit(bb, square((c + 2) as u64, (r - 2) as u64)),
                    bit(bb, square((c + 3) as u64, (r - 3) as u64)),
            ;
        }
    }
}

/// A legal move can be taken back, and taking it back restores the prior
/// state bit for bit: occupancy masks, column heights, side to move and
/// position hash.
pub proof fn lemma_apply_retract_inverse(b: Board, col: u8)
    requires
        b.wf(),
        col < 7,
        b.col_height[col as int] < 6,
    ensures
        spec_apply(b, col).wf(),
        spec_apply(b, col).col_height[col as int] >= 1,
        bit(
            spec_apply(b, col).board[spec_flip(spec_apply(b, col).active) as int],
            square(col as u64, (spec_apply(b, col).col_height[col as int] - 1) as u64),
        ),
        spec_retract(spec_apply(b, col), col) == b,
{
    let a = b.active as int;
    let fill = b.col_height[col as int];
    let cu = col as u64;
    let ru = fill as u64;
    let sq = square(cu, ru);
    let x = b.board[a];
    let b1 = spec_apply(b, col);
    lemma_put_wf(b, col);
    lemma_flip_wf(spec_put(b, col));
    assert(b1 == Board { active: spec_flip(spec_put(b, col).active), ..spec_put(b, col) });
    assert(b1.wf());
    // the new stone's bit is set in the mover's mask
    assert(bit(b.spec_occupancy(), square(cu, ru)) <==> ru < b.col_height[cu as int]);
    lemma_bit_or(b.board[0], b.board[1], sq);
    lemma_bit_flip(x, sq, sq);
    assert(bit(b1.board[a], sq));
    assert(spec_flip(b1.active) == b.active);
    // retracting recomputes the same square and cancels both exclusive-ors
    let b2 = spec_retract(b1, col);
    lemma_xor_cancel_u64(x, 1u64 << sq);
    lemma_xor_cancel_u32(b.hash, b.zobrist_table[a][sq as int]);
    assert(b2.board =~= b.board);
    assert(b2.col_height =~= b.col_height);
    assert(b2 == b);
}

/// After flipping the bit of square `sq` on the active side, every other
/// occupancy bit is unchanged.
proof fn lemma_occupancy_flip(b: Board, b2: Board, sq: u64, i: u64)
    requires
        b.active < 2,
        sq < 64,
        i < 64,
        b2.board == spec_array_update(
            b.board,
            b.active as int,
            b.board[b.active as int] ^ (1u64 << sq),
        ),
    ensures
        i != sq ==> (bit(b2.spec_occupancy(), i) <==> bit(b.spec_occupancy(), i)),
        i == sq ==> (bit(b2.spec_occupancy(), i) <==> (bit(b.board[1 - b.active as int], i) || !bit(
            b.board[b.active as int],
            i,
        ))),
{
    let a = b.active as int;
    let x = b.board[a];
    let y = b.board[1 - a];
    lemma_bit_flip(x, sq, i);
    if a == 0 {
        lemma_bit_or(x, y, i);
        lemma_bit_or(x ^ (1u64 << sq), y, i);
        assert(b.spec_occupancy() == x | y);
        assert(b2.spec_occupancy() == (x ^ (1u64 << sq)) | y);
    } else {
        lemma_bit_or(y, x, i);
        lemma_bit_or(y, x ^ (1u64 << sq), i);
        assert(b.spec_occupancy() == y | x);
        assert(b2.spec_occupancy() == y | (x ^ (1u64 << sq)));
    }
}

/// The invariant does not depend on whose turn it is.
proof fn lemma_flip_wf(b: Board)
    requires
        b.wf(),
    ensures
        (Board { active: spec_flip(b.active), ..b }).wf(),
{
    let b2 = Board { active: spec_flip(b.active), ..b };
    assert(b2.spec_occupancy() == b.spec_occupancy());
    assert forall|c: u64, r: u64|
        c < 7 && r < 7 implies (#[trigger] bit(b2.spec_occupancy(), square(c, r)) <==> r
        < b2.col_height[c as int]) by {
        assert(bit(b.spec_occupancy(), square(c, r)) <==> r < b.col_height[c as int]);
    }
}

/// Dropping a legal stone preserves the data-model invariant.
proof fn lemma_put_wf(b: Board, col: u8)
    requires
        b.wf(),
        col < 7,
        b.col_height[col as int] < 6,
    ensures
        spec_put(b, col).wf(),
{
    let a = b.active as int;
    let fill = b.col_height[col as int];
    let cu = col as u64;
    let ru = fill as u64;
    let sq = square(cu, ru);
    let x = b.board[a];
    let y = b.board[1 - a];
    let b2 = spec_put(b, col);
    assert(sq == 7 * cu + ru && sq < 49);
    assert(bit(b.spec_occupancy(), square(cu, ru)) <==> ru < b.col_height[cu as int]);
    assert(!bit(b.spec_occupancy(), sq));
    lemma_bit_or(b.board[0], b.board[1], sq);
    assert(!bit(x, sq) && !bit(y, sq));
    assert(b2.board[a] == x ^ (1u64 << sq) && b2.board[1 - a] == y);
    assert((x ^ (1u64 << sq)) & y == 0 && y & (x ^ (1u64 << sq)) == 0) by (bit_vector)
        requires
            x & y == 0 || y & x == 0,
            sq < 64,
            (x >> sq) & 1 != 1,
            (y >> sq) & 1 != 1,
    ;
    assert((x ^ (1u64 << sq)) & UNPLAYABLE == 0) by (bit_vector)
        requires
            x & UNPLAYABLE == 0,
            cu < 7,
            ru < 6,
            sq == 7 * cu + ru,
    ;
    assert forall|c: u64, r: u64|
        c < 7 && r < 7 implies (#[trigger] bit(b2.spec_occupancy(), square(c, r)) <==> r
        < b2.col_height[c as int]) by {
        let i = square(c, r);
        assert(i == 7 * c + r && i < 49);
        lemma_occupancy_flip(b, b2, sq, i);
        if i == sq {
            lemma_square_injective(c, r, cu, ru);
            assert(b2.col_height[col as int] == fill + 1);
        } else {
            assert(bit(b.spec_occupancy(), square(c, r)) <==> r < b.col_height[c as int]);
            if c == cu {
                assert(r != ru);
            }
        }
    }
    if a == 0 {
        lemma_hash_flip(x, y, x ^ (1u64 << sq), y, b.zobrist_table, a, sq);
    } else {
        lemma_hash_flip(y, x, y, x ^ (1u64 << sq), b.zobrist_table, a, sq);
    }
}

/// Lifting the top stone of a non-empty column preserves the invariant,
/// provided the stone belongs to the side that lifts it.
proof fn lemma_remove_wf(b: Board, col: u8)
    requires
        b.wf(),
        col < 7,
        b.col_height[col as int] >= 1,
        bit(
            b.board[b.active as int],
            square(col as u64, (b.col_height[col as int] - 1) as u64),
        ),
    ensures
        spec_remove(b, col).wf(),
{
    let a = b.active as int;
    let fill = b.col_height[col as int];
    let cu = col as u64;
    let ru = (fill - 1) as u64;
    let sq = square(cu, ru);
    let x = b.board[a];
    let y = b.board[1 - a];
    let b2 = spec_remove(b, col);
    assert(sq == 7 * cu + ru && sq < 49);
    assert(bit(b.spec_occupancy(), square(cu, ru)) <==> ru < b.col_height[cu as int]);
    assert(bit(b.spec_occupancy(), sq));
    lemma_bit_or(b.board[0], b.board[1], sq);
    assert(bit(x, sq) || bit(y, sq));
    assert(b2.board[a] == x ^ (1u64 << sq) && b2.board[1 - a] == y);
    assert((x ^ (1u64 << sq)) & y == 0 && y & (x ^ (1u64 << sq)) == 0) by (bit_vector)
        requires
            x & y == 0 || y & x == 0,
            sq < 64,
            (x >> sq) & 1 == 1,
    ;
    assert((x ^ (1u64 << sq)) & UNPLAYABLE == 0) by (bit_vector)
        requires
            x & UNPLAYABLE == 0,
            cu < 7,
            ru < 6,
            sq == 7 * cu + ru,
    ;
    assert forall|c: u64, r: u64|
        c < 7 && r < 7 implies (#[trigger] bit(b2.spec_occupancy(), square(c, r)) <==> r
        < b2.col_height[c as int]) by {
        let i = square(c, r);
        assert(i == 7 * c + r && i < 49);
        lemma_occupancy_flip(b, b2, sq, i);
        if i == sq {
            lemma_square_injective(c, r, cu, ru);
            assert(b2.col_height[col as int] == fill - 1);
            // the leaving stone's bit is absent from the passive mask
            assert((y >> sq) & 1 != 1) by (bit_vector)
                requires
                    sq < 64,
                    (x >> sq) & 1 == 1,
                    x & y == 0 || y & x == 0,
            ;
        } else {
            assert(bit(b.spec_occupancy(), square(c, r)) <==> r < b.col_height[c as int]);
            if c == cu {
                assert(r != ru);
            }
        }
    }
    if a == 0 {
        lemma_hash_flip(x, y, x ^ (1u64 << sq), y, b.zobrist_table, a, sq);
    } else {
        lemma_hash_flip(y, x, y, x ^ (1u64 << sq), b.zobrist_table, a, sq);
    }
}

/// The fixed center-out column priority: the column tried at rank `i`.
/// The middle column comes first and the rest alternate outward, since
/// central columns join more winning lines and so prune earlier.
pub open spec fn spec_move_order(i: int) -> u8 {
    if i == 0 {
        3
    } else if i == 1 {
        2
    } else if i == 2 {
        4
    } else if i == 3 {
        1
    } else if i == 4 {
        5
    } else if i == 5 {
        0
    } else {
        6
    }
}

/// The rank of column `c` in the center-out priority order.
pub open spec fn move_priority(c: u8) -> int {
    if c == 3 {
        0
    } else if c == 2 {
        1
    } else if c == 4 {
        2
    } else if c == 1 {
        3
    } else if c == 5 {
        4
    } else if c == 0 {
        5
    } else {
        6
    }
}

/// The column tried at rank `i` of the move order.
pub fn move_order(i: usize) -> (col: u8)
    requires
        i < 7,
    ensures
        col == spec_move_order(i as int),
        col < 7,
{
    if i == 0 {
        3
    } else if i == 1 {
        2
    } else if i == 2 {
        4
    } else if i == 3 {
        1
    } else if i == 4 {
        5
    } else if i == 5 {
        0
    } else {
        6
    }
}

/// `b2` is the left-right mirror image of `b1`: same side to move, same
/// contribution table, same hash, each column as tall as its mirror
/// column, and each side's stones reflected column-wise.
pub open spec fn mirror_of(b1: Board, b2: Board) -> bool {
    &&& b1.wf()
    &&& b2.wf()
    &&& b2.active == b1.active
    &&& b2.hash == b1.hash
    &&& b2.zobrist_table == b1.zobrist_table
    &&& forall|c: u64| c < 7 ==> #[trigger] b2.col_height[c as int] == b1.col_height[(6 - c) as int]
    &&& forall|s: int, c: u64, r: u64|
        0 <= s < 2 && c < 7 && r < 7 ==> (#[trigger] bit(b2.board[s], square(c, r)) <==> bit(
            b1.board[s],
            square((6 - c) as u64, r),
        ))
}

/// Playing a column on a board and its mirror column on the mirror board
/// keeps the two boards mirror images — with the same hash.
pub proof fn lemma_mirror_step(b1: Board, b2: Board, col: u8)
    requires
        mirror_of(b1, b2),
        col < 7,
        b1.col_height[col as int] < 6,
    ensures
        b2.col_height[(6 - col) as int] < 6,
        mirror_of(spec_apply(b1, col), spec_apply(b2, (6 - col) as u8)),
{
    let a = b1.active as int;
    let col2 = (6 - col) as u8;
    let fill = b1.col_height[col as int];
    let cu = col as u64;
    let c2u = col2 as u64;
    let ru = fill as u64;
    let sq1 = square(cu, ru);
    let sq2 = square(c2u, ru);
    assert(b2.col_height[c2u as int] == b1.col_height[col as int]);
    let n1 = spec_apply(b1, col);
    let n2 = spec_apply(b2, col2);
    lemma_put_wf(b1, col);
    lemma_flip_wf(spec_put(b1, col));
    lemma_put_wf(b2, col2);
    lemma_flip_wf(spec_put(b2, col2));
    assert(n1 == Board { active: spec_flip(spec_put(b1, col).active), ..spec_put(b1, col) });
    assert(n2 == Board { active: spec_flip(spec_put(b2, col2).active), ..spec_put(b2, col2) });
    // the two stones land on mirror squares, which share their table entry
    assert(sq1 / 7 == cu && sq1 % 7 == ru) by (nonlinear_arith)
        requires
            cu < 7,
            ru < 7,
            sq1 == 7 * cu + ru,
    ;
    assert(mirror_square(sq1 as int) == sq2 as int);
    assert(b1.zobrist_table[a][sq1 as int] == b1.zobrist_table[a][sq2 as int]);
    assert(n2.hash == n1.hash);
    // heights stay mirrored
    assert forall|c: u64| c < 7 implies #[trigger] n2.col_height[c as int] == n1.col_height[(6
        - c) as int] by {
        if c != c2u {
            assert(b2.col_height[c as int] == b1.col_height[(6 - c) as int]);
        }
    }
    // stones stay mirrored
    assert forall|s: int, c: u64, r: u64|
        0 <= s < 2 && c < 7 && r < 7 implies (#[trigger] bit(n2.board[s], square(c, r)) <==> bit(
        n1.board[s],
        square((6 - c) as u64, r),
    )) by {
        let i2 = square(c, r);
        let i1 = square((6 - c) as u64, r);
        assert(bit(b2.board[s], square(c, r)) <==> bit(b1.board[s], square((6 - c) as u64, r)));
        if s == a {
            lemma_bit_flip(b2.board[a], sq2, i2);
            lemma_bit_flip(b1.board[a], sq1, i1);
            if i2 == sq2 {
                lemma_square_injective(c, r, c2u, ru);
                assert(i1 == sq1);
            } else {
                if i1 == sq1 {
                    lemma_square_injective((6 - c) as u64, r, cu, ru);
                    assert(c == c2u && r == ru);
                }
            }
        } else {
            assert(n2.board[s] == b2.board[s] && n1.board[s] == b1.board[s]);
        }
    }
}

/// The mirror image of a column sequence, column by column.
pub open spec fn mirror_cols(cols: Seq<u8>) -> Seq<u8> {
    cols.map_values(|c: u8| (6 - c) as u8)
}

/// Every column of the sequence is in range and lands in a non-full
/// column when played in order.
pub open spec fn playable_seq(b: Board, cols: Seq<u8>) -> bool
    decreases cols.len(),
{
    cols.len() == 0 || {
        &&& cols[0] < 7
        &&& b.col_height[cols[0] as int] < 6
        &&& playable_seq(spec_apply(b, cols[0]), cols.skip(1))
    }
}

/// The position reached by playing the columns in order.
pub open spec fn play(b: Board, cols: Seq<u8>) -> Board
    decreases cols.len(),
{
    if cols.len() == 0 {
        b
    } else {
        play(spec_apply(b, cols[0]), cols.skip(1))
    }
}

/// Playing a sequence on a board and the mirrored sequence on its mirror
/// image keeps the boards mirror images.
pub proof fn lemma_mirror_play(b1: Board, b2: Board, cols: Seq<u8>)
    requires
        mirror_of(b1, b2),
        playable_seq(b1, cols),
    ensures
        playable_seq(b2, mirror_cols(cols)),
        mirror_of(play(b1, cols), play(b2, mirror_cols(cols))),
    decreases cols.len(),
{
    if cols.len() == 0 {
        assert(mirror_cols(cols).len() == 0);
    } else {
        let c = cols[0];
        let c2 = (6 - c) as u8;
        lemma_mirror_step(b1, b2, c);
        lemma_mirror_play(spec_apply(b1, c), spec_apply(b2, c2), cols.skip(1));
        assert(mirror_cols(cols)[0] == c2);
        assert(mirror_cols(cols).skip(1) =~= mirror_cols(cols.skip(1)));
    }
}

/// Mirror-hash symmetry: playing any legal column sequence on a board
/// with no stones, and its left-right mirror image on another such board,
/// reaches positions with the same position hash. The two boards may be
/// separate instances: the invariant pins both contribution tables to the
/// same fixed-seed stream, so they agree.
pub proof fn lemma_mirror_hash(b1: Board, b2: Board, cols: Seq<u8>)
    requires
        b1.wf(),
        b2.wf(),
        b1.board[0] == 0,
        b1.board[1] == 0,
        b2.board[0] == 0,
        b2.board[1] == 0,
        playable_seq(b1, cols),
        b2.active == b1.active,
    ensures
        playable_seq(b2, mirror_cols(cols)),
        play(b1, cols).hash == play(b2, mirror_cols(cols)).hash,
{
    assert(0u64 | 0u64 == 0) by (bit_vector);
    assert(forall|q: u64| !bit(0u64, q)) by (bit_vector);
    assert forall|c: u64| c < 7 implies #[trigger] b1.col_height[c as int] == 0 by {
        assert(bit(b1.spec_occupancy(), square(c, 0)) <==> 0 < b1.col_height[c as int]);
    }
    assert forall|c: u64| c < 7 implies #[trigger] b2.col_height[c as int] == 0 by {
        assert(bit(b2.spec_occupancy(), square(c, 0)) <==> 0 < b2.col_height[c as int]);
    }
    // both tables equal the one fixed table, entry by entry
    assert forall|s: int| 0 <= s < 2 implies b2.zobrist_table[s] =~= b1.zobrist_table[s] by {
        assert forall|q: int| 0 <= q < 49 implies b2.zobrist_table[s][q]
            == b1.zobrist_table[s][q] by {
            assert(b1.zobrist_table[s][q] == spec_zobrist_entry(s, q));
            assert(b2.zobrist_table[s][q] == spec_zobrist_entry(s, q));
        }
    }
    assert(b2.zobrist_table =~= b1.zobrist_table);
    // both empty boards hash to zero
    lemma_hash_fold_empty(b1.zobrist_table, 98);
    lemma_hash_fold_empty(b2.zobrist_table, 98);
    assert(mirror_of(b1, b2));
    lemma_mirror_play(b1, b2, cols);
}

} // verus!
