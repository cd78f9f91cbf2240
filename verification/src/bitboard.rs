//! Sets of squares held as the bits of a `u64`: bit `i` stands for the square
//! with index `i`.
use crate::core_types::{file_of, rank_of, Color, Direction, Square};
use vstd::prelude::*;
use vstd::std_specs::bits::u64_trailing_zeros;

verus! {

/// Whether bit `i` of `x` is set (false for `i` outside `0..64`).
pub open spec fn has_bit(x: u64, i: int) -> bool {
    0 <= i < 64 && (x >> (i as u64)) & 1u64 == 1u64
}

/// The board with only square `i` set.
pub open spec fn single(i: int) -> u64 {
    1u64 << (i as u64)
}

/// Square `t` of the result of moving every square of `x` by `df` files and
/// `dr` ranks: it is on the board, and the square it came from is on the
/// board and set in `x`.
pub open spec fn moved_from(x: u64, t: int, df: int, dr: int) -> bool {
    &&& 0 <= t < 64
    &&& 0 <= file_of(t) - df < 8
    &&& 0 <= rank_of(t) - dr < 8
    &&& has_bit(x, t - 8 * dr - df)
}

/// The number of set bits of `x` below bit `n`.
pub open spec fn count_bits(x: u64, n: int) -> nat
    decreases n,
{
    if n <= 0 {
        0
    } else {
        count_bits(x, n - 1) + if has_bit(x, n - 1) {
            1nat
        } else {
            0nat
        }
    }
}

/// The number of set bits of `x`.
pub open spec fn popcount_spec(x: u64) -> nat {
    count_bits(x, 64)
}

pub open spec fn file_a_mask() -> u64 {
    0x0101010101010101u64
}

pub open spec fn file_h_mask() -> u64 {
    0x8080808080808080u64
}

pub open spec fn rank_1_mask() -> u64 {
    0x00000000000000FFu64
}

/// The bitwise operations, read bit by bit.
pub proof fn lemma_bit_ops()
    ensures
        forall|a: u64, b: u64, i: int| #[trigger] has_bit(a & b, i) == (has_bit(a, i) && has_bit(b, i)),
        forall|a: u64, b: u64, i: int| #[trigger] has_bit(a | b, i) == (has_bit(a, i) || has_bit(b, i)),
        forall|a: u64, b: u64, i: int| #[trigger] has_bit(a ^ b, i) == (has_bit(a, i) != has_bit(b, i)),
        forall|a: u64, i: int| #[trigger] has_bit(!a, i) == (0 <= i < 64 && !has_bit(a, i)),
        forall|i: int| !(#[trigger] has_bit(0u64, i)),
        forall|i: int| #[trigger] has_bit(0xFFFF_FFFF_FFFF_FFFFu64, i) == (0 <= i < 64),
{
    assert((forall|a: u64, b: u64, j: u64|
        #![trigger (a & b) >> j]
        j < 64 ==> ((((a & b) >> j) & 1u64 == 1u64) == (((a >> j) & 1u64 == 1u64) && ((b >> j)
            & 1u64 == 1u64)))) && (forall|a: u64, b: u64, j: u64|
        #![trigger (a | b) >> j]
        j < 64 ==> ((((a | b) >> j) & 1u64 == 1u64) == (((a >> j) & 1u64 == 1u64) || ((b >> j)
            & 1u64 == 1u64)))) && (forall|a: u64, b: u64, j: u64|
        #![trigger (a ^ b) >> j]
        j < 64 ==> ((((a ^ b) >> j) & 1u64 == 1u64) == (((a >> j) & 1u64 == 1u64) != ((b >> j)
            & 1u64 == 1u64)))) && (forall|a: u64, j: u64|
        #![trigger (!a) >> j]
        j < 64 ==> ((((!a) >> j) & 1u64 == 1u64) == !((a >> j) & 1u64 == 1u64))) && (forall|j: u64|
        #![trigger 0u64 >> j]
        !((0u64 >> j) & 1u64 == 1u64)) && (forall|j: u64|
        #![trigger 0xFFFF_FFFF_FFFF_FFFFu64 >> j]
        j < 64 ==> (0xFFFF_FFFF_FFFF_FFFFu64 >> j) & 1u64 == 1u64)) by (bit_vector);
}

/// One bit of a conjunction.
pub proof fn lemma_and_bit(a: u64, b: u64, i: int)
    ensures
        has_bit(a & b, i) == (has_bit(a, i) && has_bit(b, i)),
{
    lemma_bit_ops();
}

/// One bit of a disjunction.
pub proof fn lemma_or_bit(a: u64, b: u64, i: int)
    ensures
        has_bit(a | b, i) == (has_bit(a, i) || has_bit(b, i)),
{
    lemma_bit_ops();
}

/// Shifting a board moves each of its bits by the shift's amount.
pub proof fn lemma_shifts()
    ensures
        forall|x: u64, k: u64, i: int|
            k < 64 ==> #[trigger] has_bit(x << k, i) == (0 <= i < 64 && i >= k && has_bit(
                x,
                i - k,
            )),
        forall|x: u64, k: u64, i: int|
            k < 64 ==> #[trigger] has_bit(x >> k, i) == (0 <= i && i + k < 64 && has_bit(
                x,
                i + k,
            )),
{
    assert(forall|x: u64, k: u64, j: u64|
        #![trigger (x << k) >> j]
        #![trigger (x >> k) >> j]
        k < 64 && j < 64 ==> ((((x << k) >> j) & 1u64 == 1u64) == (j >= k && (x >> ((j - k) as u64))
            & 1u64 == 1u64)) && ((((x >> k) >> j) & 1u64 == 1u64) == (j + k < 64 && (x >> ((j + k) as u64)) & 1u64 == 1u64))) by (bit_vector);
    assert forall|x: u64, k: u64, i: int| k < 64 implies #[trigger] has_bit(x << k, i) == (0 <= i
        < 64 && i >= k && has_bit(x, i - k)) by {
        if 0 <= i < 64 {
            let j = i as u64;
            assert(((x << k) >> j) & 1u64 == 1u64 <==> (j >= k && (x >> ((j - k) as u64)) & 1u64
                == 1u64));
            if j >= k {
                assert(((j - k) as u64) == (i - k) as u64);
            }
        }
    }
    assert forall|x: u64, k: u64, i: int| k < 64 implies #[trigger] has_bit(x >> k, i) == (0 <= i
        && i + k < 64 && has_bit(x, i + k)) by {
        if 0 <= i < 64 {
            let j = i as u64;
            assert(((x >> k) >> j) & 1u64 == 1u64 <==> (j + k < 64 && (x >> ((j + k) as u64)) & 1u64
                == 1u64));
            if i + k < 64 {
                assert(((j + k) as u64) == (i + k) as u64);
            }
        }
    }
}

/// The one-square board, and the masks of the edge files and the first rank.
pub proof fn lemma_masks()
    ensures
        forall|s: int, i: int| 0 <= s < 64 ==> #[trigger] has_bit(single(s), i) == (i == s),
        forall|i: int| #[trigger] has_bit(0x0101010101010101u64, i) == (0 <= i < 64 && file_of(i) == 0),
        forall|i: int| #[trigger] has_bit(0x8080808080808080u64, i) == (0 <= i < 64 && file_of(i) == 7),
        forall|i: int| #[trigger] has_bit(0xFFu64, i) == (0 <= i < 8),
{
    assert(forall|s: u64, j: u64|
        #![trigger (1u64 << s) >> j]
        s < 64 && j < 64 ==> ((((1u64 << s) >> j) & 1u64 == 1u64) == (s == j))) by (bit_vector);
    assert((forall|j: u64|
        #![trigger 0x0101010101010101u64 >> j]
        j < 64 ==> (((0x0101010101010101u64 >> j) & 1u64 == 1u64) == (j % 8 == 0))) && (forall|
        j: u64,
    |
        #![trigger 0x8080808080808080u64 >> j]
        j < 64 ==> (((0x8080808080808080u64 >> j) & 1u64 == 1u64) == (j % 8 == 7))) && (forall|
        j: u64,
    |
        #![trigger 0xFFu64 >> j]
        j < 64 ==> (((0xFFu64 >> j) & 1u64 == 1u64) == (j < 8)))) by (bit_vector);
    assert forall|s: int, i: int| 0 <= s < 64 implies #[trigger] has_bit(single(s), i) == (i
        == s) by {
        if 0 <= i < 64 {
            assert(((1u64 << (s as u64)) >> (i as u64)) & 1u64 == 1u64 <==> s as u64 == i as u64);
        }
    }
    assert forall|i: int| #[trigger] has_bit(0x0101010101010101u64, i) == (0 <= i < 64 && file_of(i)
        == 0) by {
        if 0 <= i < 64 {
            assert(((0x0101010101010101u64 >> (i as u64)) & 1u64 == 1u64) == ((i as u64) % 8 == 0));
        }
    }
    assert forall|i: int| #[trigger] has_bit(0x8080808080808080u64, i) == (0 <= i < 64 && file_of(i)
        == 7) by {
        if 0 <= i < 64 {
            assert(((0x8080808080808080u64 >> (i as u64)) & 1u64 == 1u64) == ((i as u64) % 8 == 7));
        }
    }
    assert forall|i: int| #[trigger] has_bit(0xFFu64, i) == (0 <= i < 8) by {
        if 0 <= i < 64 {
            assert(((0xFFu64 >> (i as u64)) & 1u64 == 1u64) == ((i as u64) < 8));
        }
    }
}

/// One bit of a one-square board.
pub proof fn lemma_single_bit(s: int, i: int)
    requires
        0 <= s < 64,
    ensures
        has_bit(single(s), i) == (i == s),
{
    lemma_masks();
}

/// Two boards with the same squares are the same board.
pub proof fn lemma_bits_ext(a: u64, b: u64)
    requires
        forall|i: int| 0 <= i < 64 ==> #[trigger] has_bit(a, i) == has_bit(b, i),
    ensures
        a == b,
{
    if a != b {
        let x = a ^ b;
        assert(x != 0) by (bit_vector)
            requires
                x == a ^ b,
                a != b,
        ;
        vstd::std_specs::bits::axiom_u64_trailing_zeros(x);
        let j = vstd::std_specs::bits::u64_trailing_zeros(x) as u64;
        assert((x >> j) & 1u64 == 1u64);
        lemma_bit_ops();
        assert(has_bit(x, j as int));
    }
}

/// The empty board is the only one without squares.
pub proof fn lemma_empty_iff(a: u64)
    ensures
        a == 0 <==> forall|i: int| 0 <= i < 64 ==> !#[trigger] has_bit(a, i),
{
    lemma_bit_ops();
    if forall|i: int| 0 <= i < 64 ==> !#[trigger] has_bit(a, i) {
        lemma_bits_ext(a, 0);
    }
}

/// A board that is not empty has a square.
pub proof fn lemma_empty_witness(a: u64)
    requires
        a != 0,
    ensures
        exists|i: int| 0 <= i < 64 && #[trigger] has_bit(a, i),
{
    lemma_empty_iff(a);
}

/// `x & (x - 1)` clears the lowest set bit of `x` and keeps the others.
pub proof fn lemma_clear_lowest(x: u64)
    requires
        x != 0,
    ensures
        forall|i: int|
            #[trigger] has_bit(x & ((x - 1) as u64), i) == (has_bit(x, i) && i != u64_trailing_zeros(x)),
        x & ((x - 1) as u64) < x,
{
    assert(x != 0 ==> x & ((x - 1) as u64) < x) by (bit_vector);
    vstd::std_specs::bits::axiom_u64_trailing_zeros(x);
    let tz = u64_trailing_zeros(x) as u64;
    assert(tz < 64);
    assert((x >> tz) & 1u64 == 1u64);
    assert(x << ((64 - tz) as u64) == 0);
    assert(forall|j: u64|
        #![trigger (x & ((x - 1) as u64)) >> j]
        j < 64 ==> ((((x & ((x - 1) as u64)) >> j) & 1u64 == 1u64) == (j != tz && (x >> j) & 1u64 == 1u64)))
        by (bit_vector)
        requires
            x != 0,
            tz < 64,
            (x >> tz) & 1u64 == 1u64,
            x << ((64 - tz) as u64) == 0,
    ;
    assert forall|i: int|
        #[trigger] has_bit(x & ((x - 1) as u64), i) == (has_bit(x, i) && i != u64_trailing_zeros(x)) by {
        if 0 <= i < 64 {
            let j = i as u64;
            assert((((x & ((x - 1) as u64)) >> j) & 1u64 == 1u64) == (j != tz && (x >> j) & 1u64 == 1u64));
        }
    }
}

/// The lowest set bit of a nonzero board.
pub proof fn lemma_lowest_bit(x: u64)
    requires
        x != 0,
    ensures
        0 <= u64_trailing_zeros(x) < 64,
        has_bit(x, u64_trailing_zeros(x) as int),
        forall|i: int| 0 <= i < u64_trailing_zeros(x) ==> !#[trigger] has_bit(x, i),
{
    vstd::std_specs::bits::axiom_u64_trailing_zeros(x);
    let tz = u64_trailing_zeros(x);
    assert forall|i: int| 0 <= i < u64_trailing_zeros(x) implies !#[trigger] has_bit(x, i) by {
        let j = i as u64;
        assert((x >> j) & 1u64 == 0u64);
    }
}

/// No bit below `n` is set exactly when none is counted.
pub proof fn lemma_count_bits_zero(x: u64, n: int)
    requires
        0 <= n <= 64,
    ensures
        (count_bits(x, n) == 0) == (forall|i: int| 0 <= i < n ==> !#[trigger] has_bit(x, i)),
    decreases n,
{
    if n > 0 {
        lemma_count_bits_zero(x, n - 1);
    }
}

/// Below bit `n`, only bit `s` of `x` is set.
pub open spec fn only_bit_below(x: u64, s: int, n: int) -> bool {
    0 <= s < n && has_bit(x, s) && forall|i: int| 0 <= i < n && i != s ==> !#[trigger] has_bit(x, i)
}

/// Exactly one bit below `n` is set exactly when one is counted.
pub proof fn lemma_count_bits_one(x: u64, n: int)
    requires
        0 <= n <= 64,
    ensures
        (count_bits(x, n) == 1) == (exists|s: int| #[trigger] only_bit_below(x, s, n)),
    decreases n,
{
    if n > 0 {
        lemma_count_bits_one(x, n - 1);
        lemma_count_bits_zero(x, n - 1);
        if count_bits(x, n) == 1 {
            if has_bit(x, n - 1) {
                assert(only_bit_below(x, n - 1, n));
            } else {
                let s = choose|s: int| #[trigger] only_bit_below(x, s, n - 1);
                assert(only_bit_below(x, s, n));
            }
        }
        if exists|s: int| #[trigger] only_bit_below(x, s, n) {
            let s = choose|s: int| #[trigger] only_bit_below(x, s, n);
            if s == n - 1 {
                assert(count_bits(x, n - 1) == 0);
            } else {
                assert(!has_bit(x, n - 1));
                assert(only_bit_below(x, s, n - 1));
            }
        }
    }
}

/// A board of one square has a count of one and that square as its lowest.
pub proof fn lemma_popcount_one(x: u64)
    ensures
        (popcount_spec(x) == 1) == (exists|s: int| #[trigger] only_bit_below(x, s, 64)),
        popcount_spec(x) == 0 <==> x == 0,
{
    lemma_count_bits_one(x, 64);
    lemma_count_bits_zero(x, 64);
    lemma_empty_iff(x);
}

#[derive(Copy, Clone, Eq, PartialEq, Debug, Structural)]
pub struct Bitboard {
    raw: u64,
}

impl View for Bitboard {
    type V = u64;

    closed spec fn view(&self) -> u64 {
        self.raw
    }
}

/// Two bitboards are equal exactly when they hold the same bits.
pub proof fn lemma_bitboard_eq(a: Bitboard, b: Bitboard)
    ensures
        (a@ == b@) <==> a == b,
{
}

impl Bitboard {
    pub const EMPTY_RAW: u64 = 0;

    pub const ALL_RAW: u64 = 0xFFFFFFFFFFFFFFFF;

    pub const RANK_1_RAW: u64 = 0x00000000000000FF;

    pub const RANK_2_RAW: u64 = 0x000000000000FF00;

    pub const RANK_3_RAW: u64 = 0x0000000000FF0000;

    pub const RANK_4_RAW: u64 = 0x00000000FF000000;

    pub const RANK_5_RAW: u64 = 0x000000FF00000000;

    pub const RANK_6_RAW: u64 = 0x0000FF0000000000;

    pub const RANK_7_RAW: u64 = 0x00FF000000000000;

    pub const RANK_8_RAW: u64 = 0xFF00000000000000;

    pub const FILE_A_RAW: u64 = 0x0101010101010101;

    pub const FILE_B_RAW: u64 = 0x0202020202020202;

    pub const FILE_C_RAW: u64 = 0x0404040404040404;

    pub const FILE_D_RAW: u64 = 0x0808080808080808;

    pub const FILE_E_RAW: u64 = 0x1010101010101010;

    pub const FILE_F_RAW: u64 = 0x2020202020202020;

    pub const FILE_G_RAW: u64 = 0x4040404040404040;

    pub const FILE_H_RAW: u64 = 0x8080808080808080;

    pub fn from_raw(raw: u64) -> (r: Self)
        ensures
            r@ == raw,
    {
        Self { raw }
    }

    pub fn raw(self) -> (r: u64)
        ensures
            r == self@,
    {
        self.raw
    }

    pub fn is_empty(self) -> (r: bool)
        ensures
            r == (self@ == 0),
            r == forall|i: int| 0 <= i < 64 ==> !#[trigger] has_bit(self@, i),
    {
        proof {
            lemma_empty_iff(self.raw);
            assert(self.raw == 0 <==> forall|i: int| 0 <= i < 64 ==> !#[trigger] has_bit(self.raw, i));
            assert(self@ == self.raw);
        }
        self.raw == 0
    }

    /// Whether the two boards share a square.
    pub fn intersects(self, other: Self) -> (r: bool)
        ensures
            r == (self@ & other@ != 0),
            r == exists|i: int| #[trigger] has_bit(self@, i) && has_bit(other@, i),
    {
        proof {
            let x = self.raw & other.raw;
            lemma_empty_iff(x);
            lemma_bit_ops();
            assert(self@ == self.raw && other@ == other.raw);
            if x != 0 {
                let i = choose|i: int| 0 <= i < 64 && #[trigger] has_bit(x, i);
                assert(has_bit(self@, i) && has_bit(other@, i));
            }
            if exists|i: int| #[trigger] has_bit(self@, i) && has_bit(other@, i) {
                let i = choose|i: int| #[trigger] has_bit(self@, i) && has_bit(other@, i);
                assert(has_bit(x, i));
            }
        }
        (self.raw & other.raw) != 0
    }

    pub fn has_sq(self, sq: Square) -> (r: bool)
        ensures
            r == has_bit(self@, sq as int),
    {
        let b = sq.bb().raw;
        proof {
            let x = self.raw & b;
            lemma_bit_ops();
            lemma_masks();
            lemma_empty_iff(x);
            assert(self@ == self.raw);
            if x != 0 {
                let i = choose|i: int| 0 <= i < 64 && #[trigger] has_bit(x, i);
                assert(i == sq as int);
            }
            if has_bit(self.raw, sq as int) {
                assert(has_bit(x, sq as int));
            }
        }
        (self.raw & b) != 0
    }

    pub fn with_sq(self, sq: Square) -> (r: Self)
        ensures
            r@ == self@ | single(sq as int),
            forall|i: int| #[trigger] has_bit(r@, i) == (has_bit(self@, i) || i == sq as int),
    {
        proof {
            lemma_bit_ops();
            lemma_masks();
        }
        Self { raw: self.raw | sq.bb().raw }
    }

    pub fn without_sq(self, sq: Square) -> (r: Self)
        ensures
            r@ == self@ & !single(sq as int),
            forall|i: int| #[trigger] has_bit(r@, i) == (has_bit(self@, i) && i != sq as int),
    {
        proof {
            lemma_bit_ops();
            lemma_masks();
        }
        Self { raw: self.raw & !sq.bb().raw }
    }

    pub fn with_sq_toggled(self, sq: Square) -> (r: Self)
        ensures
            r@ == self@ ^ single(sq as int),
            forall|i: int| #[trigger] has_bit(r@, i) == (has_bit(self@, i) != (i == sq as int)),
    {
        proof {
            lemma_bit_ops();
            lemma_masks();
        }
        Self { raw: self.raw ^ sq.bb().raw }
    }

    pub fn set_sq(&mut self, sq: Square)
        ensures
            final(self)@ == old(self)@ | single(sq as int),
            forall|i: int| #[trigger] has_bit(final(self)@, i) == (has_bit(old(self)@, i) || i == sq as int),
    {
        proof {
            lemma_bit_ops();
            lemma_masks();
        }
        self.raw = self.raw | sq.bb().raw;
    }

    pub fn clear_sq(&mut self, sq: Square)
        ensures
            final(self)@ == old(self)@ & !single(sq as int),
            forall|i: int| #[trigger] has_bit(final(self)@, i) == (has_bit(old(self)@, i) && i != sq as int),
    {
        proof {
            lemma_bit_ops();
            lemma_masks();
        }
        self.raw = self.raw & !sq.bb().raw;
    }

    pub fn toggle_sq(&mut self, sq: Square)
        ensures
            final(self)@ == old(self)@ ^ single(sq as int),
            forall|i: int| #[trigger] has_bit(final(self)@, i) == (has_bit(old(self)@, i) != (i == sq as int)),
    {
        proof {
            lemma_bit_ops();
            lemma_masks();
        }
        self.raw = self.raw ^ sq.bb().raw;
    }

    pub fn cmpl(self) -> (r: Self)
        ensures
            r@ == !self@,
    {
        Self { raw: !self.raw }
    }

    pub fn and(self, other: Self) -> (r: Self)
        ensures
            r@ == self@ & other@,
    {
        Self { raw: self.raw & other.raw }
    }

    pub fn or(self, other: Self) -> (r: Self)
        ensures
            r@ == self@ | other@,
    {
        Self { raw: self.raw | other.raw }
    }

    pub fn xor(self, other: Self) -> (r: Self)
        ensures
            r@ == self@ ^ other@,
    {
        Self { raw: self.raw ^ other.raw }
    }

    pub fn shr(self, count: usize) -> (r: Self)
        requires
            count < 64,
        ensures
            r@ == self@ >> (count as u64),
    {
        Self { raw: self.raw >> count }
    }

    pub fn shl(self, count: usize) -> (r: Self)
        requires
            count < 64,
        ensures
            r@ == self@ << (count as u64),
    {
        Self { raw: self.raw << count }
    }
    pub fn shift_up(self) -> (r: Self)
        ensures
            r@ == self@ << 8u64,
            forall|t: int| #[trigger] has_bit(r@, t) == moved_from(self@, t, 0, 1),
    {
        proof {
            lemma_bit_ops();
            lemma_shifts();
            lemma_masks();
        }
        self.shl(8)
    }

    pub fn shift_down(self) -> (r: Self)
        ensures
            r@ == self@ >> 8u64,
            forall|t: int| #[trigger] has_bit(r@, t) == moved_from(self@, t, 0, -1),
    {
        proof {
            lemma_bit_ops();
            lemma_shifts();
            lemma_masks();
        }
        self.shr(8)
    }

    pub fn shift_left(self) -> (r: Self)
        ensures
            r@ == (self@ & !file_a_mask()) >> 1u64,
            forall|t: int| #[trigger] has_bit(r@, t) == moved_from(self@, t, -1, 0),
    {
        proof {
            lemma_bit_ops();
            lemma_shifts();
            lemma_masks();
        }
        self.and(Self::from_raw(!Self::FILE_A_RAW)).shr(1)
    }

    pub fn shift_right(self) -> (r: Self)
        ensures
            r@ == (self@ & !file_h_mask()) << 1u64,
            forall|t: int| #[trigger] has_bit(r@, t) == moved_from(self@, t, 1, 0),
    {
        proof {
            lemma_bit_ops();
            lemma_shifts();
            lemma_masks();
        }
        self.and(Self::from_raw(!Self::FILE_H_RAW)).shl(1)
    }

    pub fn shift_up_left(self) -> (r: Self)
        ensures
            r@ == (self@ & !file_a_mask()) << 7u64,
            forall|t: int| #[trigger] has_bit(r@, t) == moved_from(self@, t, -1, 1),
    {
        proof {
            lemma_bit_ops();
            lemma_shifts();
            lemma_masks();
        }
        self.and(Self::from_raw(!Self::FILE_A_RAW)).shl(7)
    }

    pub fn shift_up_right(self) -> (r: Self)
        ensures
            r@ == (self@ & !file_h_mask()) << 9u64,
            forall|t: int| #[trigger] has_bit(r@, t) == moved_from(self@, t, 1, 1),
    {
        proof {
            lemma_bit_ops();
            lemma_shifts();
            lemma_masks();
        }
        self.and(Self::from_raw(!Self::FILE_H_RAW)).shl(9)
    }

    pub fn shift_down_left(self) -> (r: Self)
        ensures
            r@ == (self@ & !file_a_mask()) >> 9u64,
            forall|t: int| #[trigger] has_bit(r@, t) == moved_from(self@, t, -1, -1),
    {
        proof {
            lemma_bit_ops();
            lemma_shifts();
            lemma_masks();
        }
        self.and(Self::from_raw(!Self::FILE_A_RAW)).shr(9)
    }

    pub fn shift_down_right(self) -> (r: Self)
        ensures
            r@ == (self@ & !file_h_mask()) >> 7u64,
            forall|t: int| #[trigger] has_bit(r@, t) == moved_from(self@, t, 1, -1),
    {
        proof {
            lemma_bit_ops();
            lemma_shifts();
            lemma_masks();
        }
        self.and(Self::from_raw(!Self::FILE_H_RAW)).shr(7)
    }

    pub fn shift_up_relative(self, color: Color) -> (r: Self)
        ensures
            forall|t: int| #[trigger] has_bit(r@, t) == moved_from(self@, t, 0, forward(color) * (1)),
    {
        match color {
            Color::White => self.shift_up(),
            Color::Black => self.shift_down(),
        }
    }

    pub fn shift_down_relative(self, color: Color) -> (r: Self)
        ensures
            forall|t: int| #[trigger] has_bit(r@, t) == moved_from(self@, t, 0, forward(color) * (-1)),
    {
        match color {
            Color::White => self.shift_down(),
            Color::Black => self.shift_up(),
        }
    }

    pub fn shift_up_left_relative(self, color: Color) -> (r: Self)
        ensures
            forall|t: int| #[trigger] has_bit(r@, t) == moved_from(self@, t, -1, forward(color) * (1)),
    {
        match color {
            Color::White => self.shift_up_left(),
            Color::Black => self.shift_down_left(),
        }
    }

    pub fn shift_up_right_relative(self, color: Color) -> (r: Self)
        ensures
            forall|t: int| #[trigger] has_bit(r@, t) == moved_from(self@, t, 1, forward(color) * (1)),
    {
        match color {
            Color::White => self.shift_up_right(),
            Color::Black => self.shift_down_right(),
        }
    }

    pub fn shift_down_left_relative(self, color: Color) -> (r: Self)
        ensures
            forall|t: int| #[trigger] has_bit(r@, t) == moved_from(self@, t, -1, forward(color) * (-1)),
    {
        match color {
            Color::White => self.shift_down_left(),
            Color::Black => self.shift_up_left(),
        }
    }

    pub fn shift_down_right_relative(self, color: Color) -> (r: Self)
        ensures
            forall|t: int| #[trigger] has_bit(r@, t) == moved_from(self@, t, 1, forward(color) * (-1)),
    {
        match color {
            Color::White => self.shift_down_right(),
            Color::Black => self.shift_up_right(),
        }
    }

    pub fn shift(self, dir: Direction) -> (r: Self)
        ensures
            forall|t: int| #[trigger] has_bit(r@, t) == moved_from(self@, t, dir_file(dir), dir_rank(dir)),
    {
        match dir {
            Direction::Up => self.shift_up(),
            Direction::Down => self.shift_down(),
            Direction::Left => self.shift_left(),
            Direction::Right => self.shift_right(),
        }
    }

    pub fn rank_bb(rank: usize) -> (r: Bitboard)
        requires
            rank < 8,
        ensures
            r@ == rank_1_mask() << (8 * rank) as u64,
            forall|t: int| #[trigger] has_bit(r@, t) == (0 <= t < 64 && rank_of(t) == rank),
    {
        proof {
            lemma_shifts();
            lemma_masks();
        }
        Self::from_raw(Self::RANK_1_RAW).shl(rank * 8)
    }

    pub fn file_bb(file: usize) -> (r: Bitboard)
        requires
            file < 8,
        ensures
            r@ == file_a_mask() << file as u64,
            forall|t: int| #[trigger] has_bit(r@, t) == (0 <= t < 64 && file_of(t) == file),
    {
        proof {
            lemma_shifts();
            lemma_masks();
        }
        Self::from_raw(Self::FILE_A_RAW).shl(file)
    }

    pub fn lsb(self) -> (r: Option<Square>)
        ensures
            r is None <==> self@ == 0,
            r matches Some(s) ==> s as int == u64_trailing_zeros(self@),
            r matches Some(s) ==> has_bit(self@, s as int),
            r matches Some(s) ==> forall|i: int| 0 <= i < s as int ==> !#[trigger] has_bit(self@, i),
    {
        if self.is_empty() {
            None
        } else {
            proof {
                lemma_lowest_bit(self.raw);
            }
            Some(Square::from_raw(self.raw.trailing_zeros() as u8).unwrap())
        }
    }

    pub fn pop_lsb(&mut self) -> (r: Option<Square>)
        ensures
            r is None <==> old(self)@ == 0,
            r is None ==> final(self)@ == old(self)@,
            r matches Some(s) ==> s as int == u64_trailing_zeros(old(self)@),
            r matches Some(s) ==> has_bit(old(self)@, s as int),
            r matches Some(s) ==> forall|i: int| 0 <= i < s as int ==> !#[trigger] has_bit(old(self)@, i),
            r matches Some(s) ==> final(self)@ == old(self)@ & ((old(self)@ - 1) as u64),
            r matches Some(s) ==> final(self)@ < old(self)@,
            r matches Some(s) ==> forall|i: int| #[trigger] has_bit(final(self)@, i) == (has_bit(old(self)@, i) && i != s as int),
    {
        let sq = self.lsb()?;
        proof {
            lemma_clear_lowest(self.raw);
        }
        self.raw &= self.raw - 1;
        Some(sq)
    }

    pub fn popcount(self) -> (r: u32)
        ensures
            r == popcount_spec(self@),
    {
        let mut count: u32 = 0;
        let mut i: u64 = 0;
        while i < 64
            invariant
                i <= 64,
                count == count_bits(self@, i as int),
                count <= i,
            decreases 64 - i,
        {
            if (self.raw >> i) & 1 == 1 {
                count += 1;
            }
            i += 1;
        }
        count
    }

    /// Walks the squares of the board from the lowest index up.
    pub fn into_iter(self) -> (r: Biterator)
        ensures
            r.remaining() == self,
    {
        Biterator { board: self }
    }
}

impl core::ops::Not for Bitboard {
    type Output = Self;

    fn not(self) -> (r: Self)
        ensures
            r@ == !self@,
    {
        self.cmpl()
    }
}

impl vstd::std_specs::ops::NotSpecImpl for Bitboard {
    open spec fn obeys_not_spec() -> bool {
        true
    }

    open spec fn not_req(self) -> bool {
        true
    }

    closed spec fn not_spec(self) -> Self {
        Bitboard { raw: !self.raw }
    }
}

impl core::ops::BitAnd for Bitboard {
    type Output = Self;

    fn bitand(self, rhs: Self) -> (r: Self)
        ensures
            r@ == self@ & rhs@,
    {
        self.and(rhs)
    }
}

impl vstd::std_specs::ops::BitAndSpecImpl for Bitboard {
    open spec fn obeys_bitand_spec() -> bool {
        true
    }

    open spec fn bitand_req(self, rhs: Self) -> bool {
        true
    }

    closed spec fn bitand_spec(self, rhs: Self) -> Self {
        Bitboard { raw: self.raw & rhs.raw }
    }
}

impl core::ops::BitOr for Bitboard {
    type Output = Self;

    fn bitor(self, rhs: Self) -> (r: Self)
        ensures
            r@ == self@ | rhs@,
    {
        self.or(rhs)
    }
}

impl vstd::std_specs::ops::BitOrSpecImpl for Bitboard {
    open spec fn obeys_bitor_spec() -> bool {
        true
    }

    open spec fn bitor_req(self, rhs: Self) -> bool {
        true
    }

    closed spec fn bitor_spec(self, rhs: Self) -> Self {
        Bitboard { raw: self.raw | rhs.raw }
    }
}

impl core::ops::BitXor for Bitboard {
    type Output = Self;

    fn bitxor(self, rhs: Self) -> (r: Self)
        ensures
            r@ == self@ ^ rhs@,
    {
        self.xor(rhs)
    }
}

impl vstd::std_specs::ops::BitXorSpecImpl for Bitboard {
    open spec fn obeys_bitxor_spec() -> bool {
        true
    }

    open spec fn bitxor_req(self, rhs: Self) -> bool {
        true
    }

    closed spec fn bitxor_spec(self, rhs: Self) -> Self {
        Bitboard { raw: self.raw ^ rhs.raw }
    }
}

impl core::ops::Shr<usize> for Bitboard {
    type Output = Self;

    fn shr(self, rhs: usize) -> (r: Self)
        ensures
            r@ == self@ >> (rhs as u64),
    {
        Bitboard::shr(self, rhs)
    }
}

impl vstd::std_specs::ops::ShrSpecImpl<usize> for Bitboard {
    open spec fn obeys_shr_spec() -> bool {
        true
    }

    open spec fn shr_req(self, rhs: usize) -> bool {
        rhs < 64
    }

    closed spec fn shr_spec(self, rhs: usize) -> Self {
        Bitboard { raw: self.raw >> (rhs as u64) }
    }
}

impl core::ops::Shl<usize> for Bitboard {
    type Output = Self;

    fn shl(self, rhs: usize) -> (r: Self)
        ensures
            r@ == self@ << (rhs as u64),
    {
        Bitboard::shl(self, rhs)
    }
}

impl vstd::std_specs::ops::ShlSpecImpl<usize> for Bitboard {
    open spec fn obeys_shl_spec() -> bool {
        true
    }

    open spec fn shl_req(self, rhs: usize) -> bool {
        rhs < 64
    }

    closed spec fn shl_spec(self, rhs: usize) -> Self {
        Bitboard { raw: self.raw << (rhs as u64) }
    }
}

impl core::ops::BitAndAssign for Bitboard {
    fn bitand_assign(&mut self, rhs: Self)
        ensures
            final(self)@ == old(self)@ & rhs@,
    {
        *self = self.and(rhs);
    }
}

impl core::ops::BitOrAssign for Bitboard {
    fn bitor_assign(&mut self, rhs: Self)
        ensures
            final(self)@ == old(self)@ | rhs@,
    {
        *self = self.or(rhs);
    }
}

impl core::ops::BitXorAssign for Bitboard {
    fn bitxor_assign(&mut self, rhs: Self)
        ensures
            final(self)@ == old(self)@ ^ rhs@,
    {
        *self = self.xor(rhs);
    }
}

/// Walks the squares of a board from the lowest index up, removing each.
pub struct Biterator {
    board: Bitboard,
}

impl Biterator {
    /// The squares not yet handed out.
    pub closed spec fn remaining(&self) -> Bitboard {
        self.board
    }

    pub fn next(&mut self) -> (r: Option<Square>)
        ensures
            r is None <==> old(self).remaining()@ == 0,
            r is None ==> final(self).remaining() == old(self).remaining(),
            r matches Some(s) ==> s as int == u64_trailing_zeros(old(self).remaining()@),
            r matches Some(s) ==> has_bit(old(self).remaining()@, s as int),
            r matches Some(s) ==> final(self).remaining()@ < old(self).remaining()@,
            r matches Some(s) ==> forall|i: int|
                #[trigger] has_bit(final(self).remaining()@, i) == (has_bit(old(self).remaining()@, i)
                    && i != s as int),
    {
        self.board.pop_lsb()
    }
}

/// One step forward for `color`: up the board for white, down for black.
pub open spec fn forward(color: Color) -> int {
    match color {
        Color::White => 1,
        Color::Black => -1,
    }
}

/// The files that a step in `dir` crosses.
pub open spec fn dir_file(dir: Direction) -> int {
    match dir {
        Direction::Left => -1,
        Direction::Right => 1,
        _ => 0,
    }
}

/// The ranks that a step in `dir` crosses.
pub open spec fn dir_rank(dir: Direction) -> int {
    match dir {
        Direction::Up => 1,
        Direction::Down => -1,
        _ => 0,
    }
}

} // verus!
