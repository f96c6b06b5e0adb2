use vstd::prelude::*;
use vstd::std_specs::bits::{axiom_u64_leading_zeros, axiom_u64_trailing_zeros, u64_leading_zeros, u64_trailing_zeros};

use super::square::{file_of, rank_of, Square};
use crate::text::chars_to_string;

verus! {

/// The squares of the a-file.
pub const FILE_A: u64 = 0x0101010101010101u64;

/// The squares of the h-file.
pub const FILE_H: u64 = 0x8080808080808080u64;

/// The squares of the first rank.
pub const RANK_1: u64 = 0x00000000000000FFu64;

/// Whether bit `i` (0 to 63) of `v` is set.
pub open spec fn bit(v: u64, i: int) -> bool {
    0 <= i < 64 && ((v >> (i as u64)) & 1u64) == 1u64
}

/// The number of set bits of `v` among bits 0 to `n - 1`.
pub open spec fn count_bits_below(v: u64, n: int) -> nat
    decreases n,
{
    if n <= 0 {
        0
    } else {
        count_bits_below(v, n - 1) + if bit(v, n - 1) {
            1nat
        } else {
            0nat
        }
    }
}

/// The number of set bits of `v`.
pub open spec fn pop_count(v: u64) -> nat {
    count_bits_below(v, 64)
}

pub broadcast proof fn lemma_bit_and(a: u64, b: u64, i: int)
    ensures
        #[trigger] bit(a & b, i) == (bit(a, i) && bit(b, i)),
{
    if 0 <= i < 64 {
        let u = i as u64;
        assert((((a & b) >> u) & 1u64 == 1u64) == (((a >> u) & 1u64 == 1u64) && ((b >> u) & 1u64
            == 1u64))) by (bit_vector);
    }
}

pub broadcast proof fn lemma_bit_or(a: u64, b: u64, i: int)
    ensures
        #[trigger] bit(a | b, i) == (bit(a, i) || bit(b, i)),
{
    if 0 <= i < 64 {
        let u = i as u64;
        assert((((a | b) >> u) & 1u64 == 1u64) == (((a >> u) & 1u64 == 1u64) || ((b >> u) & 1u64
            == 1u64))) by (bit_vector);
    }
}

pub broadcast proof fn lemma_bit_xor(a: u64, b: u64, i: int)
    ensures
        #[trigger] bit(a ^ b, i) == (bit(a, i) != bit(b, i)),
{
    if 0 <= i < 64 {
        let u = i as u64;
        assert((((a ^ b) >> u) & 1u64 == 1u64) == (((a >> u) & 1u64 == 1u64) != ((b >> u) & 1u64
            == 1u64))) by (bit_vector);
    }
}

pub broadcast proof fn lemma_bit_not(a: u64, i: int)
    ensures
        #[trigger] bit(!a, i) == (0 <= i < 64 && !bit(a, i)),
{
    if 0 <= i < 64 {
        let u = i as u64;
        assert(u < 64 ==> ((((!a) >> u) & 1u64 == 1u64) == !((a >> u) & 1u64 == 1u64))) by (bit_vector);
    }
}

pub broadcast proof fn lemma_bit_zero(i: int)
    ensures
        !#[trigger] bit(0u64, i),
{
    if 0 <= i < 64 {
        let u = i as u64;
        assert(((0u64 >> u) & 1u64) == 0u64) by (bit_vector);
    }
}

pub broadcast proof fn lemma_bit_single(s: int, i: int)
    requires
        0 <= s < 64,
    ensures
        #[trigger] bit(1u64 << (s as u64), i) == (i == s),
{
    if 0 <= i < 64 {
        let u = i as u64;
        let w = s as u64;
        assert(w < 64 ==> ((((1u64 << w) >> u) & 1u64 == 1u64) == (u == w))) by (bit_vector);
    }
}

pub broadcast proof fn lemma_bit_shl(a: u64, k: u64, i: int)
    requires
        k < 64,
    ensures
        #[trigger] bit(a << k, i) == (0 <= i < 64 && i >= k && bit(a, i - k)),
{
    if 0 <= i < 64 {
        let u = i as u64;
        assert(k < 64 && u < 64 ==> ((((a << k) >> u) & 1u64 == 1u64) == (u >= k && ((a >> (
        (u - k) as u64)) & 1u64 == 1u64)))) by (bit_vector);
    }
}

pub broadcast proof fn lemma_bit_shr(a: u64, k: u64, i: int)
    requires
        k < 64,
    ensures
        #[trigger] bit(a >> k, i) == (0 <= i < 64 && i + k < 64 && bit(a, i + k)),
{
    if 0 <= i < 64 {
        let u = i as u64;
        assert(k < 64 && u < 64 ==> ((((a >> k) >> u) & 1u64 == 1u64) == (u + k < 64 && ((a >> (
        (u + k) as u64)) & 1u64 == 1u64)))) by (bit_vector);
    }
}

pub broadcast proof fn lemma_bit_file_a(i: int)
    ensures
        #[trigger] bit(FILE_A, i) == (0 <= i < 64 && i % 8 == 0),
{
    if 0 <= i < 64 {
        let u = i as u64;
        assert(u < 64 ==> (((0x0101010101010101u64 >> u) & 1u64 == 1u64) == (u % 8 == 0)))
            by (bit_vector);
    }
}

pub broadcast proof fn lemma_bit_file_h(i: int)
    ensures
        #[trigger] bit(FILE_H, i) == (0 <= i < 64 && i % 8 == 7),
{
    if 0 <= i < 64 {
        let u = i as u64;
        assert(u < 64 ==> (((0x8080808080808080u64 >> u) & 1u64 == 1u64) == (u % 8 == 7)))
            by (bit_vector);
    }
}

pub broadcast proof fn lemma_bit_rank_1(i: int)
    ensures
        #[trigger] bit(RANK_1, i) == (0 <= i < 8),
{
    if 0 <= i < 64 {
        let u = i as u64;
        assert(u < 64 ==> (((0xFFu64 >> u) & 1u64 == 1u64) == (u < 8))) by (bit_vector);
    }
}

/// Two words are equal when they have the same bits.
pub proof fn lemma_bits_equal(a: u64, b: u64)
    requires
        forall|i: int| 0 <= i < 64 ==> bit(a, i) == bit(b, i),
    ensures
        a == b,
{
    let x = a ^ b;
    vstd::std_specs::bits::axiom_u64_trailing_zeros(x);
    let t = vstd::std_specs::bits::u64_trailing_zeros(x);
    if t < 64 {
        lemma_bit_xor(a, b, t as int);
        assert(bit(x, t as int));
    }
    assert(x == 0u64);
    assert(a ^ b == 0u64 ==> a == b) by (bit_vector);
}


/// The lowest set bit of a non-zero word is set, and no bit below it is.
pub proof fn lemma_lowest_bit(x: u64)
    requires
        x != 0,
    ensures
        u64_trailing_zeros(x) < 64,
        bit(x, u64_trailing_zeros(x) as int),
        forall|i: int| 0 <= i < u64_trailing_zeros(x) ==> !#[trigger] bit(x, i),
{
    axiom_u64_trailing_zeros(x);
    let t = u64_trailing_zeros(x);
    assert forall|i: int| 0 <= i < t implies !#[trigger] bit(x, i) by {
        assert((x >> (i as u64)) & 1u64 == 0u64);
    }
}

/// The highest set bit of a non-zero word is set, and no bit above it is.
pub proof fn lemma_highest_bit(x: u64)
    requires
        x != 0,
    ensures
        0 <= 63 - u64_leading_zeros(x) < 64,
        bit(x, 63 - u64_leading_zeros(x)),
        forall|i: int| 63 - u64_leading_zeros(x) < i ==> !#[trigger] bit(x, i),
{
    axiom_u64_leading_zeros(x);
    let l = u64_leading_zeros(x);
    let h = (63 - l) as u64;
    assert(((x >> h) & 1u64) != 0u64);
    assert(((x >> h) & 1u64) != 0u64 ==> ((x >> h) & 1u64) == 1u64) by (bit_vector);
    assert forall|i: int| 63 - l < i implies !#[trigger] bit(x, i) by {
        if 0 <= i < 64 {
            assert((x >> (i as u64)) & 1u64 == 0u64);
        }
    }
}

/// Clearing the lowest set bit of a word, as `x & (x - 1)` does, keeps every other bit.
pub proof fn lemma_clear_lowest(x: u64)
    requires
        x != 0,
    ensures
        forall|i: int|
            #[trigger] bit(x & ((x - 1) as u64), i) == (bit(x, i) && i != u64_trailing_zeros(x)),
{
    lemma_lowest_bit(x);
    let t = u64_trailing_zeros(x) as u64;
    assert(x << ((64 - t) as u64) == 0) by {
        axiom_u64_trailing_zeros(x);
    }
    assert forall|i: int| #[trigger] bit(x & ((x - 1) as u64), i) == (bit(x, i) && i != t) by {
        if 0 <= i < 64 {
            let u = i as u64;
            assert(x != 0 && t < 64 && u < 64 && (x >> t) & 1u64 == 1u64 && x << ((64 - t) as u64) == 0
                ==> ((((x & ((x - 1) as u64)) >> u) & 1u64 == 1u64) == (((x >> u) & 1u64 == 1u64) && u
                != t))) by (bit_vector);
        }
    }
}

pub broadcast group group_bit_lemmas {
    lemma_bit_and,
    lemma_bit_or,
    lemma_bit_xor,
    lemma_bit_not,
    lemma_bit_zero,
    lemma_bit_single,
    lemma_bit_shl,
    lemma_bit_shr,
    lemma_bit_file_a,
    lemma_bit_file_h,
    lemma_bit_rank_1,
}


/// The characters for the first `n` files of rank `rank`: '1' where the square is in `v`.
pub open spec fn row_text(v: u64, rank: int, n: int) -> Seq<char>
    decreases n,
{
    if n <= 0 {
        Seq::empty()
    } else {
        row_text(v, rank, n - 1).push(
            if bit(v, rank * 8 + n - 1) {
                '1'
            } else {
                '0'
            },
        )
    }
}

/// The first `k` lines of the drawing of `v`, from the eighth rank down.
pub open spec fn board_text(v: u64, k: int) -> Seq<char>
    decreases k,
{
    if k <= 0 {
        Seq::empty()
    } else {
        board_text(v, k - 1) + row_text(v, 8 - k, 8).push('\n')
    }
}

/// The byte with its bits in reverse order.
fn reverse(n: u8) -> (r: u8)
    ensures
        forall|i: u8| i < 8 ==> #[trigger] ((r >> i) & 1u8) == ((n >> (7 - i) as u8) & 1u8),
{
    let a: u8 = (n & 0xF0) >> 4 | (n & 0x0F) << 4;
    let b: u8 = (a & 0xCC) >> 2 | (a & 0x33) << 2;
    let c: u8 = (b & 0xAA) >> 1 | (b & 0x55) << 1;
    assert forall|i: u8| i < 8 implies #[trigger] ((c >> i) & 1u8) == ((n >> (7 - i) as u8) & 1u8) by {
        assert(i < 8 && a == (n & 0xF0) >> 4 | (n & 0x0F) << 4 && b == (a & 0xCC) >> 2 | (a & 0x33)
            << 2 && c == (b & 0xAA) >> 1 | (b & 0x55) << 1 ==> ((c >> i) & 1u8) == ((n >> (7
            - i) as u8) & 1u8)) by (bit_vector);
    }
    c
}

proof fn lemma_row_bit(v: u64, k: u64, j: u64, row: u8, rev: u8)
    requires
        k < 8,
        j < 8,
        row == #[verifier::truncate] (((v << (8 * k)) >> 56u64) as u8),
        forall|i: u8| i < 8 ==> #[trigger] ((rev >> i) & 1u8) == ((row >> (7 - i) as u8) & 1u8),
    ensures
        ((rev >> (7 - j) as u8) & 1u8 == 1u8) == bit(v, (7 - k) * 8 + j),
{
    let i = (7 - j) as u8;
    assert(((rev >> i) & 1u8) == ((row >> (7 - i) as u8) & 1u8));
    let jj = j as u8;
    assert(k < 8 && j < 8 && jj == j && row == #[verifier::truncate] (((v << (8 * k)) >> 56u64) as u8) ==> (((row >> jj)
        & 1u8 == 1u8) == ((v >> ((7 - k) * 8 + j) as u64) & 1u64 == 1u64))) by (bit_vector);
}

/// A set of squares, one bit per square index.
#[derive(Debug, Clone, Copy, PartialEq, Eq, Structural)]
pub struct Bitboard(u64);

impl Bitboard {
    /// The word whose bits are the squares of the set.
    pub closed spec fn view(self) -> u64 {
        self.0
    }

    /// Whether the set holds the square with index `sq`.
    pub open spec fn contains(self, sq: int) -> bool {
        bit(self@, sq)
    }

    /// Whether the set holds some square.
    pub open spec fn nonempty(self) -> bool {
        exists|i: int| #[trigger] self.contains(i)
    }

    /// Whether the set holds two different squares.
    pub open spec fn has_two(self) -> bool {
        exists|i: int, j: int| i != j && #[trigger] self.contains(i) && #[trigger] self.contains(j)
    }

    /// The empty set.
    pub open spec fn empty_spec() -> Bitboard {
        Bitboard::from_raw_spec(0)
    }

    /// The set whose bits are `v`.
    pub closed spec fn from_raw_spec(v: u64) -> Bitboard {
        Bitboard(v)
    }

    /// The word of `from_raw_spec(v)` is `v`.
    pub proof fn lemma_from_raw_spec(v: u64)
        ensures
            #[trigger] Bitboard::from_raw_spec(v)@ == v,
    {
    }

    /// Sets with the same word are equal.
    pub proof fn lemma_view_injective(a: Bitboard, b: Bitboard)
        requires
            a@ == b@,
        ensures
            a == b,
    {
    }

    /// The set whose bits are `v`.
    pub fn from_raw(v: u64) -> (r: Bitboard)
        ensures
            r@ == v,
    {
        Bitboard(v)
    }

    /// The empty set.
    pub fn none() -> (r: Bitboard)
        ensures
            r@ == 0,
            r == Bitboard::empty_spec(),
            forall|i: int| !r.contains(i),
    {
        broadcast use lemma_bit_zero;
        Bitboard(0)
    }

    /// The set of all squares.
    pub fn all() -> (r: Bitboard)
        ensures
            r@ == 0xFFFF_FFFF_FFFF_FFFFu64,
            forall|i: int| #[trigger] r.contains(i) <==> 0 <= i < 64,
    {
        assert forall|i: int| bit(0xFFFF_FFFF_FFFF_FFFFu64, i) <==> 0 <= i < 64 by {
            if 0 <= i < 64 {
                let u = i as u64;
                assert(u < 64 ==> ((0xFFFF_FFFF_FFFF_FFFFu64 >> u) & 1u64 == 1u64))
                    by (bit_vector);
            }
        }
        Bitboard(0xFFFF_FFFF_FFFF_FFFFu64)
    }

    /// The squares of the given file.
    pub fn file(file: u8) -> (r: Bitboard)
        requires
            file < 8,
        ensures
            r@ == FILE_A << file,
            forall|i: int| #[trigger] r.contains(i) <==> 0 <= i < 64 && file_of(i) == file,
    {
        broadcast use lemma_bit_shl, lemma_bit_file_a;

        Bitboard(FILE_A << file)
    }

    /// The squares of the given rank.
    pub fn rank(rank: u8) -> (r: Bitboard)
        requires
            rank < 8,
        ensures
            r@ == RANK_1 << (8 * rank),
            forall|i: int| #[trigger] r.contains(i) <==> 0 <= i < 64 && rank_of(i) == rank,
    {
        broadcast use lemma_bit_shl, lemma_bit_rank_1;

        Bitboard(RANK_1 << (8 * rank))
    }

    /// The set holding only `sq`.
    pub fn from_square(sq: Square) -> (r: Bitboard)
        ensures
            r@ == 1u64 << (sq@ as u64),
            forall|i: int| #[trigger] r.contains(i) <==> i == sq@,
    {
        broadcast use lemma_bit_single;

        Bitboard(1u64 << sq.value())
    }


    /// The lowest square of a non-empty set.
    pub fn lsb(self) -> (r: Square)
        requires
            self@ != 0,
        ensures
            r@ == u64_trailing_zeros(self@),
            self.contains(r@),
            forall|i: int| 0 <= i < r@ ==> !#[trigger] self.contains(i),
    {
        proof {
            lemma_lowest_bit(self.0);
        }
        Square::from_raw(self.0.trailing_zeros() as u8)
    }

    /// The highest square of a non-empty set.
    pub fn msb(self) -> (r: Square)
        requires
            self@ != 0,
        ensures
            r@ == 63 - u64_leading_zeros(self@),
            self.contains(r@),
            forall|i: int| r@ < i ==> !#[trigger] self.contains(i),
    {
        proof {
            lemma_highest_bit(self.0);
        }
        let lz = self.0.leading_zeros();
        Square::from_raw((63 - lz) as u8)
    }

    /// The number of squares in the set.
    pub fn popcount(self) -> (r: u32)
        ensures
            r == pop_count(self@),
            r <= 64,
    {
        let v = self.0;
        let mut count: u32 = 0;
        let mut i: u64 = 0;
        while i < 64
            invariant
                i <= 64,
                count == count_bits_below(v, i as int),
                v == self@,
                count <= i,
            decreases 64 - i,
        {
            let b = (v >> i) & 1u64;
            assert(b == 0 || b == 1) by (bit_vector)
                requires
                    b == (v >> i) & 1u64,
            ;
            count = count + b as u32;
            i = i + 1;
        }
        count
    }

    /// Removes the lowest square of a non-empty set and returns it.
    pub fn poplsb(&mut self) -> (r: Square)
        requires
            old(self)@ != 0,
        ensures
            r@ == u64_trailing_zeros(old(self)@),
            old(self).contains(r@),
            forall|i: int| 0 <= i < r@ ==> !#[trigger] old(self).contains(i),
            final(self)@ == old(self)@ & ((old(self)@ - 1) as u64),
            final(self)@ < old(self)@,
            forall|i: int| #[trigger] final(self).contains(i) <==> old(self).contains(i) && i != r@,
    {
        let lsb = self.lsb();
        proof {
            lemma_clear_lowest(self.0);
        }
        let x = self.0;
        assert(x != 0 ==> x & ((x - 1) as u64) < x) by (bit_vector);
        self.0 = x & (x - 1);
        lsb
    }

    /// Whether the set is not empty.
    pub fn any(self) -> (r: bool)
        ensures
            r == (self@ != 0),
            r == self.nonempty(),
    {
        proof {
            if self.0 != 0 {
                lemma_lowest_bit(self.0);
                assert(self.contains(u64_trailing_zeros(self.0) as int));
            } else {
                assert forall|i: int| !#[trigger] self.contains(i) by {
                    lemma_bit_zero(i);
                }
            }
        }
        self.0 > 0
    }

    /// Whether the set is empty.
    pub fn empty(self) -> (r: bool)
        ensures
            r == (self@ == 0),
            r == forall|i: int| !#[trigger] self.contains(i),
    {
        proof {
            if self.0 != 0 {
                lemma_lowest_bit(self.0);
                assert(self.contains(u64_trailing_zeros(self.0) as int));
            } else {
                assert forall|i: int| !#[trigger] self.contains(i) by {
                    lemma_bit_zero(i);
                }
            }
        }
        self.0 == 0
    }

    /// Whether the set holds two squares or more.
    pub fn multiple(self) -> (r: bool)
        ensures
            r == self.has_two(),
    {
        let v = self.0;
        if v == 0 {
            proof {
                broadcast use lemma_bit_zero;
            }
            return false;
        }
        proof {
            lemma_clear_lowest(v);
            lemma_lowest_bit(v);
            let t = u64_trailing_zeros(v) as int;
            let w = (v & ((v - 1) as u64)) as u64;
            if w != 0 {
                lemma_lowest_bit(w);
                let t2 = u64_trailing_zeros(w) as int;
                assert(bit(w, t2));
                assert(self.contains(t) && self.contains(t2) && t != t2);
            } else {
                broadcast use lemma_bit_zero;
                assert forall|i: int, j: int|
                    i != j && #[trigger] self.contains(i) && #[trigger] self.contains(j)
                    implies false by {
                    if i != t {
                        assert(bit(w, i));
                    } else {
                        assert(bit(w, j));
                    }
                }
            }
        }
        (v & (v - 1)) > 0
    }

    /// Whether the set holds exactly one square.
    pub fn one(self) -> (r: bool)
        ensures
            r == (self.nonempty() && !self.has_two()),
    {
        self.any() && !self.multiple()
    }

    /// Whether the set holds `sq`.
    pub fn has(self, sq: Square) -> (r: bool)
        ensures
            r == self.contains(sq@),
    {
        let v = self.0;
        let s = sq.value() as u64;
        assert(((v >> s) & 1u64 > 0) == ((v >> s) & 1u64 == 1u64)) by (bit_vector);
        ((v >> s) & 1u64) > 0
    }

    /// The squares in both sets.
    pub fn bit_and(self, rhs: Bitboard) -> (r: Bitboard)
        ensures
            r@ == self@ & rhs@,
            forall|i: int| #[trigger] r.contains(i) == (self.contains(i) && rhs.contains(i)),
    {
        broadcast use lemma_bit_and;

        Bitboard(self.0 & rhs.0)
    }

    /// The squares in either set.
    pub fn bit_or(self, rhs: Bitboard) -> (r: Bitboard)
        ensures
            r@ == self@ | rhs@,
            forall|i: int| #[trigger] r.contains(i) == (self.contains(i) || rhs.contains(i)),
    {
        broadcast use lemma_bit_or;

        Bitboard(self.0 | rhs.0)
    }

    /// The squares in exactly one of the sets.
    pub fn bit_xor(self, rhs: Bitboard) -> (r: Bitboard)
        ensures
            r@ == self@ ^ rhs@,
            forall|i: int| #[trigger] r.contains(i) == (self.contains(i) != rhs.contains(i)),
    {
        broadcast use lemma_bit_xor;

        Bitboard(self.0 ^ rhs.0)
    }

    /// The squares not in the set.
    pub fn bit_not(self) -> (r: Bitboard)
        ensures
            r@ == !self@,
            forall|i: int| #[trigger] r.contains(i) == (0 <= i < 64 && !self.contains(i)),
    {
        broadcast use lemma_bit_not;

        Bitboard(!self.0)
    }

    /// The board drawn as eight lines of '0' and '1', the eighth rank first and
    /// the a-file leftmost.
    pub fn to_string(self) -> (r: String)
        ensures
            r@ == board_text(self@, 8),
    {
        let mut out: Vec<char> = Vec::new();
        let mut bb: u64 = self.0;
        let mut k: u64 = 0;
        let v = self.0;
        assert(v << 0u64 == v) by (bit_vector);
        while k < 8
            invariant
                k <= 8,
                out@ == board_text(self@, k as int),
                bb == self@ << ((8 * k) as u64),
                v == self@,
            decreases 8 - k,
        {
            let row: u8 = #[verifier::truncate] ((bb >> 56u64) as u8);
            let rev = reverse(row);
            let mut j: u64 = 0;
            let ghost start = out@;
            while j < 8
                invariant
                    j <= 8,
                    out@ == start + row_text(self@, 7 - k, j as int),
                    forall|i: u8| i < 8 ==> #[trigger] ((rev >> i) & 1u8) == ((row >> (7 - i) as u8) & 1u8),
                    row == #[verifier::truncate] (((self@ << (8 * k)) >> 56u64) as u8),
                    k < 8,
                decreases 8 - j,
            {
                let b = (rev >> ((7 - j) as u8)) & 1u8;
                proof {
                    lemma_row_bit(self@, k, j, row, rev);
                }
                if b == 1 {
                    out.push('1');
                } else {
                    out.push('0');
                }
                j = j + 1;
            }
            out.push('\n');
            assert(k < 8 && bb == v << ((8 * k) as u64) ==> bb << 8u64 == v << ((8 * (k + 1)) as u64))
                by (bit_vector);
            bb = bb << 8u64;
            k = k + 1;
        }
        chars_to_string(&out)
    }

    /// The word of the set.
    pub fn value(self) -> (r: u64)
        ensures
            r == self@,
    {
        self.0
    }

    /// The set moved one rank up; squares on the eighth rank leave the board.
    pub fn north(self) -> (r: Bitboard)
        ensures
            r@ == self@ << 8u64,
            forall|i: int| #[trigger] r.contains(i) <==> 8 <= i < 64 && self.contains(i - 8),
    {
        broadcast use lemma_bit_shl;

        Bitboard(self.0 << 8u64)
    }

    /// The set moved one rank down; squares on the first rank leave the board.
    pub fn south(self) -> (r: Bitboard)
        ensures
            r@ == self@ >> 8u64,
            forall|i: int| #[trigger] r.contains(i) <==> 0 <= i < 56 && self.contains(i + 8),
    {
        broadcast use lemma_bit_shr;

        Bitboard(self.0 >> 8u64)
    }

    /// The set moved one file towards the a-file; squares on the a-file leave the board.
    pub fn west(self) -> (r: Bitboard)
        ensures
            r@ == (self@ >> 1u64) & !FILE_H,
            forall|i: int|
                #[trigger] r.contains(i) <==> 0 <= i < 64 && file_of(i) != 7 && self.contains(i + 1),
    {
        broadcast use lemma_bit_shr, lemma_bit_and, lemma_bit_not, lemma_bit_file_h;

        Bitboard((self.0 >> 1u64) & !FILE_H)
    }

    /// The set moved one file towards the h-file; squares on the h-file leave the board.
    pub fn east(self) -> (r: Bitboard)
        ensures
            r@ == (self@ << 1u64) & !FILE_A,
            forall|i: int|
                #[trigger] r.contains(i) <==> 0 <= i < 64 && file_of(i) != 0 && self.contains(i - 1),
    {
        broadcast use lemma_bit_shl, lemma_bit_and, lemma_bit_not, lemma_bit_file_a;

        Bitboard((self.0 << 1u64) & !FILE_A)
    }

    /// The set moved one square up and towards the a-file.
    pub fn north_west(self) -> (r: Bitboard)
        ensures
            forall|i: int|
                #[trigger] r.contains(i) <==> 8 <= i < 64 && file_of(i) != 7 && self.contains(i - 7),
    {
        let n = self.north();
        let r = n.west();
        assert forall|i: int| #[trigger] r.contains(i) <==> n.contains(i + 1) && 0 <= i < 64 && file_of(i) != 7 by {
            assert(n.contains(i + 1) == (8 <= i + 1 < 64 && self.contains(i + 1 - 8)));
            assert(r.contains(i) == (0 <= i < 64 && file_of(i) != 7 && n.contains(i + 1)));
        }
        r
    }

    /// The set moved one square up and towards the h-file.
    pub fn north_east(self) -> (r: Bitboard)
        ensures
            forall|i: int|
                #[trigger] r.contains(i) <==> 8 <= i < 64 && file_of(i) != 0 && self.contains(i - 9),
    {
        let n = self.north();
        let r = n.east();
        assert forall|i: int| #[trigger] r.contains(i) <==> n.contains(i + -1) && 0 <= i < 64 && file_of(i) != 0 by {
            assert(n.contains(i + -1) == (8 <= i + -1 < 64 && self.contains(i + -1 - 8)));
        }
        r
    }

    /// The set moved one square down and towards the a-file.
    pub fn south_west(self) -> (r: Bitboard)
        ensures
            forall|i: int|
                #[trigger] r.contains(i) <==> 0 <= i < 56 && file_of(i) != 7 && self.contains(i + 9),
    {
        let n = self.south();
        let r = n.west();
        assert forall|i: int| #[trigger] r.contains(i) <==> n.contains(i + 1) && 0 <= i < 64 && file_of(i) != 7 by {
            assert(n.contains(i + 1) == (0 <= i + 1 < 56 && self.contains(i + 1 + 8)));
        }
        r
    }

    /// The set moved one square down and towards the h-file.
    pub fn south_east(self) -> (r: Bitboard)
        ensures
            forall|i: int|
                #[trigger] r.contains(i) <==> 0 <= i < 56 && file_of(i) != 0 && self.contains(i + 7),
    {
        let n = self.south();
        let r = n.east();
        assert forall|i: int| #[trigger] r.contains(i) <==> n.contains(i + -1) && 0 <= i < 64 && file_of(i) != 0 by {
            assert(n.contains(i + -1) == (0 <= i + -1 < 56 && self.contains(i + -1 + 8)));
        }
        r
    }
}

} // verus!
