use vstd::prelude::*;

verus! {

/// The value in the range of `i32` that `x` wraps to.
pub open spec fn wrap32(x: int) -> int {
    let r = x % 0x1_0000_0000;
    if r >= 0x8000_0000 {
        r - 0x1_0000_0000
    } else {
        r
    }
}

/// The value in the range of `i16` that `x` wraps to.
pub open spec fn wrap16(x: int) -> int {
    let r = x % 65536;
    if r >= 32768 {
        r - 65536
    } else {
        r
    }
}

/// The middle game part of a packed word: its low 16 bits, signed.
pub open spec fn mg_of(p: int) -> int {
    wrap16(p)
}

/// The end game part of a packed word: its high 16 bits, signed, rounded so that a negative
/// middle game part does not borrow from it.
pub open spec fn eg_of(p: int) -> int {
    wrap16((p + 32768) / 65536)
}

/// Wrapping a sum gives the same word whether or not a summand was wrapped first.
pub proof fn lemma_wrap_add(x: int, y: int)
    ensures
        wrap32(wrap32(x) + y) == wrap32(x + y),
        wrap32(x + wrap32(y)) == wrap32(x + y),
        wrap32(wrap32(x) - y) == wrap32(x - y),
        wrap32(x - wrap32(y)) == wrap32(x - y),
{
    let m: int = 0x1_0000_0000;
    vstd::arithmetic::div_mod::lemma_add_mod_noop(x, y, m);
    vstd::arithmetic::div_mod::lemma_add_mod_noop(wrap32(x), y, m);
    vstd::arithmetic::div_mod::lemma_add_mod_noop(x, wrap32(y), m);
    vstd::arithmetic::div_mod::lemma_sub_mod_noop(x, y, m);
    vstd::arithmetic::div_mod::lemma_sub_mod_noop(wrap32(x), y, m);
    vstd::arithmetic::div_mod::lemma_sub_mod_noop(x, wrap32(y), m);
    vstd::arithmetic::div_mod::lemma_mod_twice(x, m);
    vstd::arithmetic::div_mod::lemma_mod_twice(y, m);
    assert(wrap32(x) % m == x % m) by {
        vstd::arithmetic::div_mod::lemma_mod_add_multiples_vanish(x % m, m);
        vstd::arithmetic::div_mod::lemma_mod_sub_multiples_vanish(x % m, m);
    }
    assert(wrap32(y) % m == y % m) by {
        vstd::arithmetic::div_mod::lemma_mod_add_multiples_vanish(y % m, m);
        vstd::arithmetic::div_mod::lemma_mod_sub_multiples_vanish(y % m, m);
    }
}

/// Wrapping a product gives the same word whether or not the first factor was wrapped first.
pub proof fn lemma_wrap_mul(x: int, k: int)
    ensures
        wrap32(wrap32(x) * k) == wrap32(x * k),
{
    let m: int = 0x1_0000_0000;
    vstd::arithmetic::div_mod::lemma_mul_mod_noop_left(x, k, m);
    vstd::arithmetic::div_mod::lemma_mul_mod_noop_left(wrap32(x), k, m);
    vstd::arithmetic::div_mod::lemma_mod_twice(x, m);
    assert(wrap32(x) % m == x % m) by {
        vstd::arithmetic::div_mod::lemma_mod_add_multiples_vanish(x % m, m);
        vstd::arithmetic::div_mod::lemma_mod_sub_multiples_vanish(x % m, m);
    }
}

/// The parts of a packed word come back out of it when they lie in the range of `i16`.
pub proof fn lemma_pack_parts(mg: int, eg: int)
    requires
        -32768 <= mg < 32768,
        -32768 <= eg < 32768,
    ensures
        mg_of(wrap32(eg * 65536 + mg)) == mg,
        eg_of(wrap32(eg * 65536 + mg)) == eg,
{
    let m = mg as i16;
    let e = eg as i16;
    assert(mg_of(wrap32(e * 65536 + m)) == m && eg_of(wrap32(e * 65536 + m)) == e) by (bit_vector);
}

/// A middle game and an end game score packed in one word: the end game part times 65536 plus
/// the middle game part, wrapped to 32 bits.
#[derive(Debug, Clone, Copy, PartialEq, Eq, Structural)]
pub struct ScorePair(i32);

impl View for ScorePair {
    type V = int;

    closed spec fn view(&self) -> int {
        self.0 as int
    }
}

impl ScorePair {
    /// The pair of `mg` and `eg`.
    pub fn new(mg: i32, eg: i32) -> (r: ScorePair)
        ensures
            r@ == wrap32(eg * 65536 + mg),
    {
        let v: i32 = (((eg as u32) << 16u32).wrapping_add(mg as u32)) as i32;
        assert(v == wrap32(eg * 65536 + mg)) by (bit_vector)
            requires
                v == (((eg as u32) << 16u32).wrapping_add(mg as u32)) as i32;
        ScorePair(v)
    }

    /// The packed word lies in the range of `i32`.
    pub proof fn lemma_range(self)
        ensures
            -0x8000_0000 <= self@ < 0x8000_0000,
            wrap32(self@) == self@,
    {
    }

    /// The zero pair.
    pub fn zero() -> (r: ScorePair)
        ensures
            r@ == 0,
    {
        ScorePair(0)
    }

    /// The middle game part.
    pub fn mg(&self) -> (r: i32)
        ensures
            r == mg_of(self@),
    {
        let v = self.0;
        let r = (v as i16) as i32;
        assert(r == wrap16(v as int)) by (bit_vector)
            requires
                r == (v as i16) as i32;
        r
    }

    /// The end game part.
    pub fn eg(&self) -> (r: i32)
        ensures
            r == eg_of(self@),
    {
        let v = self.0;
        let r = ((v.wrapping_add(0x8000) as u32 >> 16u32) as i16) as i32;
        assert(r == wrap16((v + 32768) / 65536)) by (bit_vector)
            requires
                r == ((v.wrapping_add(0x8000) as u32 >> 16u32) as i16) as i32;
        r
    }

    /// The sum of two pairs, part by part, wrapped to 32 bits.
    pub fn plus(self, rhs: ScorePair) -> (r: ScorePair)
        ensures
            r@ == wrap32(self@ + rhs@),
    {
        ScorePair(self.0.wrapping_add(rhs.0))
    }

    /// The difference of two pairs, part by part, wrapped to 32 bits.
    pub fn minus(self, rhs: ScorePair) -> (r: ScorePair)
        ensures
            r@ == wrap32(self@ - rhs@),
    {
        ScorePair(self.0.wrapping_sub(rhs.0))
    }

    /// The pair times `k`, part by part, wrapped to 32 bits.
    pub fn times(self, k: i32) -> (r: ScorePair)
        ensures
            r@ == wrap32(self@ * k),
    {
        ScorePair(self.0.wrapping_mul(k))
    }

    /// The negated pair, wrapped to 32 bits.
    pub fn negate(self) -> (r: ScorePair)
        ensures
            r@ == wrap32(-self@),
    {
        ScorePair(0i32.wrapping_sub(self.0))
    }
}

/// A score type of the evaluation.
pub trait EvalScoreType {}

impl EvalScoreType for i32 {}

/// A pair of a middle game and an end game score.
pub trait EvalScorePairType {
    /// The middle game part.
    spec fn mg_value(&self) -> int;

    /// The end game part.
    spec fn eg_value(&self) -> int;

    /// The middle game part.
    fn mg(&self) -> (r: i32)
        ensures
            r == self.mg_value(),
    ;

    /// The end game part.
    fn eg(&self) -> (r: i32)
        ensures
            r == self.eg_value(),
    ;
}

impl EvalScorePairType for ScorePair {
    open spec fn mg_value(&self) -> int {
        mg_of(self@)
    }

    open spec fn eg_value(&self) -> int {
        eg_of(self@)
    }

    fn mg(&self) -> (r: i32) {
        ScorePair::mg(self)
    }

    fn eg(&self) -> (r: i32) {
        ScorePair::eg(self)
    }
}

} // verus!
