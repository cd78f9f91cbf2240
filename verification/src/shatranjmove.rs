//! A move packed into 16 bits: the from square in bits 0..6, the to square
//! in bits 6..12, and the promotion flag in bit 12.
use crate::core_types::Square;
use vstd::prelude::*;

verus! {

/// The from square held in a packed move.
pub open spec fn packed_from(raw: u16) -> int {
    raw as int % 64
}

/// The to square held in a packed move.
pub open spec fn packed_to(raw: u16) -> int {
    (raw as int / 64) % 64
}

/// The promotion flag held in a packed move.
pub open spec fn packed_promo(raw: u16) -> bool {
    (raw as int / 4096) % 2 == 1
}

/// The packed form of a move from `from` to `to`.
pub open spec fn pack(from: int, to: int, promo: bool) -> int {
    from + 64 * to + if promo {
        4096int
    } else {
        0int
    }
}

/// Whether `raw` is a packed move: not zero, and no bit above the flag set.
pub open spec fn valid_packed(raw: u16) -> bool {
    raw != 0 && raw < 8192
}

/// A packed move is the sum of its parts.
pub proof fn lemma_unpack(m: u16)
    requires
        valid_packed(m),
    ensures
        m as int == pack(packed_from(m), packed_to(m), packed_promo(m)),
        0 <= packed_from(m) < 64,
        0 <= packed_to(m) < 64,
{
    let x = m as int;
    assert(x == x % 64 + 64 * ((x / 64) % 64) + 4096 * ((x / 4096) % 2)) by (nonlinear_arith)
        requires
            0 <= x < 8192,
    ;
}

/// Two packed moves with the same parts are the same.
pub proof fn lemma_unpack_eq(a: u16, b: u16)
    requires
        valid_packed(a),
        valid_packed(b),
        packed_from(a) == packed_from(b),
        packed_to(a) == packed_to(b),
        packed_promo(a) == packed_promo(b),
    ensures
        a == b,
{
    lemma_unpack(a);
    lemma_unpack(b);
}

#[derive(Copy, Clone, Eq, PartialEq, Debug, Structural)]
pub struct Move {
    raw: u16,
}

impl View for Move {
    type V = u16;

    closed spec fn view(&self) -> u16 {
        self.raw
    }
}

/// The bit operations that pack and unpack a move, read as arithmetic.
proof fn lemma_packing()
    ensures
        forall|x: u16| #![trigger x & 63u16] x & 63u16 == x % 64,
        forall|x: u16| #![trigger (x >> 6u16) & 63u16] (x >> 6u16) & 63u16 == (x / 64) % 64,
        forall|x: u16| #![trigger (x >> 12u16) & 1u16] (x >> 12u16) & 1u16 == (x / 4096) % 2,
        forall|x: u16| #![trigger x & 0xE000u16] (x & 0xE000u16 == 0) == (x < 8192),
        forall|x: u16| #![trigger x >> 0u16] x >> 0u16 == x,
{
    assert((forall|x: u16| #![trigger x & 63u16] x & 63u16 == x % 64) && (forall|x: u16|
        #![trigger (x >> 6u16) & 63u16]
        (x >> 6u16) & 63u16 == (x / 64) % 64) && (forall|x: u16|
        #![trigger (x >> 12u16) & 1u16]
        (x >> 12u16) & 1u16 == (x / 4096) % 2) && (forall|x: u16|
        #![trigger x & 0xE000u16]
        (x & 0xE000u16 == 0) == (x < 8192)) && (forall|x: u16| #![trigger x >> 0u16] x >> 0u16 == x)) by (bit_vector);
}

impl Move {
    /// Every move is a packed move: not zero, and no bit above the
    /// promotion flag set.
    #[verifier::type_invariant]
    spec fn packed_ok(self) -> bool {
        valid_packed(self.raw)
    }

    pub fn new(from: Square, to: Square) -> (r: Self)
        requires
            from as int != 0 || to as int != 0,
        ensures
            r@ == pack(from as int, to as int, false),
            packed_from(r@) == from as int,
            packed_to(r@) == to as int,
            !packed_promo(r@),
            valid_packed(r@),
    {
        let f = from.raw() as u16;
        let t = to.raw() as u16;
        let mut value: u16 = 0;
        value |= f << 0u16;
        value |= t << 6u16;
        assert(value == f + 64 * t) by (bit_vector)
            requires
                f < 64,
                t < 64,
                value == (0u16 | (f << 0u16)) | (t << 6u16),
        ;
        proof {
            lemma_packing();
        }
        Self { raw: value }
    }

    pub fn new_promo(from: Square, to: Square) -> (r: Self)
        ensures
            r@ == pack(from as int, to as int, true),
            packed_from(r@) == from as int,
            packed_to(r@) == to as int,
            packed_promo(r@),
            valid_packed(r@),
    {
        let f = from.raw() as u16;
        let t = to.raw() as u16;
        let mut value: u16 = 0;
        value |= f << 0u16;
        value |= t << 6u16;
        value |= 1u16 << 12u16;
        assert(value == f + 64 * t + 4096) by (bit_vector)
            requires
                f < 64,
                t < 64,
                value == ((0u16 | (f << 0u16)) | (t << 6u16)) | (1u16 << 12u16),
        ;
        proof {
            lemma_packing();
        }
        Self { raw: value }
    }

    pub fn from_raw(raw: u16) -> (r: Option<Self>)
        ensures
            r is Some <==> valid_packed(raw),
            r matches Some(m) ==> m@ == raw,
    {
        proof {
            lemma_packing();
        }
        if raw == 0 || raw & 0xE000 != 0 {
            None
        } else {
            Some(Self { raw })
        }
    }

    pub fn from_sq(self) -> (r: Square)
        ensures
            r as int == packed_from(self@),
            valid_packed(self@),
    {
        proof {
            lemma_packing();
            use_type_invariant(&self);
        }
        let raw = (self.raw >> 0u16) & 63u16;
        Square::from_index(raw as u8)
    }

    pub fn to_sq(self) -> (r: Square)
        ensures
            r as int == packed_to(self@),
    {
        proof {
            lemma_packing();
        }
        let raw = (self.raw >> 6u16) & 63u16;
        Square::from_index(raw as u8)
    }

    pub fn is_promo(self) -> (r: bool)
        ensures
            r == packed_promo(self@),
    {
        proof {
            lemma_packing();
        }
        let raw = (self.raw >> 12u16) & 1u16;
        raw != 0
    }

    pub fn raw(self) -> (r: u16)
        ensures
            r == self@,
            valid_packed(r),
    {
        proof {
            use_type_invariant(&self);
        }
        self.raw
    }

    /// The move in coordinate notation, such as `e2e3`, with `q` after a
    /// promotion.
    pub open spec fn notation(self) -> Seq<char> {
        let from = Square::from_int(packed_from(self@));
        let to = Square::from_int(packed_to(self@));
        from.name() + to.name() + if packed_promo(self@) {
            seq!['q']
        } else {
            Seq::empty()
        }
    }

    /// The move in coordinate notation, such as `e2e3`, with `q` after a
    /// promotion.
    pub fn to_chars(self) -> (r: Vec<char>)
        ensures
            r@ == self.notation(),
    {
        let from = self.from_sq();
        let to = self.to_sq();
        proof {
            Square::lemma_from_int(from);
            Square::lemma_from_int(to);
        }
        let mut v = from.to_chars();
        let mut t = to.to_chars();
        v.append(&mut t);
        if self.is_promo() {
            v.push('q');
        }
        v
    }

    /// The move in coordinate notation, such as `e2e3`, with `q` after a
    /// promotion.
    pub fn to_string(self) -> (r: String)
        ensures
            r@ == self.notation(),
    {
        crate::text::string_from_chars(self.to_chars())
    }
}

} // verus!
