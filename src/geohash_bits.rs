//! Geohash cells: a word of interleaved latitude (even positions) and
//! longitude (odd positions) bits, with the precision it was made at.

use crate::interleave::{
    deinterleave_bits, even_part, gather_word, interleave, interleave_bits, lemma_gather_word,
    lemma_deinterleave_interleave, lemma_interleave_deinterleave, odd_part,
};
use crate::base32::{base32_char, base32_char_of, base32_value, base32_value_of, lemma_base32_inverse};
use crate::bounding_box::BoundingBox;
use crate::location::{Location, LATITUDE_MAX, LATITUDE_MIN, LONGITUDE_MAX, LONGITUDE_MIN};
use crate::{GeohashError, Neighbor};
use vstd::arithmetic::power2::{
    lemma2_to64, lemma2_to64_rest, lemma_pow2_adds, lemma_pow2_pos, lemma_pow2_strictly_increases,
    pow2,
};
use vstd::bits::{
    lemma_u64_low_bits_mask_is_mod, lemma_u64_pow2_no_overflow, lemma_u64_shl_is_mul, low_bits_mask,
};
use vstd::prelude::*;

verus! {

/// The resolution of a cell: a number of bits per axis, or a number of
/// base-32 characters (five interleaved bits each).
#[derive(Clone, Copy, Debug, PartialEq, Eq, Structural)]
pub enum Precision {
    Bits(u8),
    Characters(u8),
}

impl Precision {
    /// Bits per axis: `n` for `Bits(n)`, `ceil(5n / 2)` for `Characters(n)`.
    pub open spec fn spec_binary_precision(self) -> nat {
        match self {
            Precision::Bits(n) => n as nat,
            Precision::Characters(n) => (5 * n as nat + 1) / 2,
        }
    }

    /// Base-32 characters: `floor(2n / 5)` for `Bits(n)`, `n` for `Characters(n)`.
    pub open spec fn spec_character_precision(self) -> nat {
        match self {
            Precision::Bits(n) => 2 * n as nat / 5,
            Precision::Characters(n) => n as nat,
        }
    }

    /// An odd number of characters: the latitude gets one bit less.
    pub open spec fn spec_is_odd_characters(self) -> bool {
        match self {
            Precision::Bits(_) => false,
            Precision::Characters(n) => n % 2 == 1,
        }
    }

    /// Between 1 and 32 bits per axis.
    pub open spec fn is_valid(self) -> bool {
        1 <= self.spec_binary_precision() <= 32
    }

    /// Bits per axis.
    pub fn binary_precision(&self) -> (r: u8)
        requires
            self.spec_binary_precision() <= u8::MAX,
        ensures
            r == self.spec_binary_precision(),
    {
        match self {
            Precision::Bits(n) => *n,
            Precision::Characters(n) => ((5 * (*n as u16) + 1) / 2) as u8,
        }
    }

    /// Number of base-32 characters.
    pub fn character_precision(&self) -> (r: u8)
        ensures
            r == self.spec_character_precision(),
    {
        match self {
            Precision::Bits(n) => ((2 * (*n as u16)) / 5) as u8,
            Precision::Characters(n) => *n,
        }
    }

    /// Number of cells along one axis: two to the bits per axis.
    pub fn max_binary_value(&self) -> (r: u64)
        requires
            self.spec_binary_precision() < 64,
        ensures
            r == pow2(self.spec_binary_precision()),
    {
        let bp = self.binary_precision() as u64;
        proof {
            lemma_u64_pow2_no_overflow(bp as nat);
            lemma_u64_shl_is_mul(1, bp);
        }
        1u64 << bp
    }

    /// Whether this is an odd number of characters.
    pub fn is_odd_characters(&self) -> (r: bool)
        ensures
            r == self.spec_is_odd_characters(),
    {
        match self {
            Precision::Bits(_) => false,
            Precision::Characters(n) => (*n % 2) > 0,
        }
    }
}

/// Which of the two interleaved axes a step changes.
#[derive(Clone, Copy, PartialEq, Eq, Structural)]
enum InterleaveSet {
    Odds,
    Evens,
}

/// The even bit positions of a word.
pub open spec fn evens_mask() -> u64 {
    0x5555555555555555u64
}

/// The odd bit positions of a word.
pub open spec fn odds_mask() -> u64 {
    0xaaaaaaaaaaaaaaaau64
}

impl InterleaveSet {
    /// The positions that the step changes.
    fn modify_mask(&self) -> (r: u64)
        ensures
            r == (if *self == InterleaveSet::Evens {
                evens_mask()
            } else {
                odds_mask()
            }),
    {
        match self {
            InterleaveSet::Evens => 0x5555555555555555,
            InterleaveSet::Odds => 0xaaaaaaaaaaaaaaaa,
        }
    }

    /// The positions that the step keeps.
    fn keep_mask(&self) -> (r: u64)
        ensures
            r == (if *self == InterleaveSet::Evens {
                odds_mask()
            } else {
                evens_mask()
            }),
    {
        match self {
            InterleaveSet::Evens => 0xaaaaaaaaaaaaaaaa,
            InterleaveSet::Odds => 0x5555555555555555,
        }
    }
}

/// The low `p` bits of a word (for `1 <= p <= 32`).
pub open spec fn axis_mask(p: u64) -> u64 {
    0xffffffffu64 >> ((32 - p) as u64)
}

/// The low `2p` bits of a word (for `1 <= p <= 32`).
pub open spec fn word_mask(p: u64) -> u64 {
    0xffffffffffffffffu64 >> ((64 - 2 * p) as u64)
}

/// One step of a fixed-point value held on the `modify` positions of a
/// word of `2p` bits: the `keep` positions are filled with ones so that a
/// carry or a borrow runs through them, and are then restored.
pub open spec fn stepped_word(bits: u64, p: u64, modify: u64, keep: u64, shift: bool, up: bool) -> u64 {
    let increment = keep >> ((64 - 2 * p) as u64);
    let m0 = bits & modify;
    let m1 = if shift {
        m0 >> 2u64
    } else {
        m0
    };
    let m2 = if up {
        (m1 + increment + 1) as u64
    } else {
        ((m1 | increment) - (increment + 1)) as u64
    };
    let m3 = if shift {
        (m2 << 2u64) as u64
    } else {
        m2
    };
    (m3 & (modify >> ((64 - 2 * p) as u64))) | (bits & keep)
}

/// Stepping the even positions moves the latitude field by one, modulo
/// two to the precision, and keeps the longitude field.
proof fn lemma_step_evens(b: u64, p: u64, up: bool)
    by (bit_vector)
    requires
        1 <= p <= 32,
        b <= word_mask(p),
    ensures
        stepped_word(b, p, evens_mask(), odds_mask(), false, up) <= word_mask(p),
        gather_word(stepped_word(b, p, evens_mask(), odds_mask(), false, up)) == (if up {
            ((gather_word(b) + 1) as u64) & axis_mask(p)
        } else {
            ((gather_word(b) + axis_mask(p)) as u64) & axis_mask(p)
        }),
        gather_word(stepped_word(b, p, evens_mask(), odds_mask(), false, up) >> 1u64)
            == gather_word(b >> 1u64),
{
}

/// Stepping the odd positions moves the longitude field by one, modulo
/// two to the precision, and keeps the latitude field.
proof fn lemma_step_odds(b: u64, p: u64, up: bool)
    by (bit_vector)
    requires
        1 <= p <= 32,
        b <= word_mask(p),
    ensures
        stepped_word(b, p, odds_mask(), evens_mask(), false, up) <= word_mask(p),
        gather_word(stepped_word(b, p, odds_mask(), evens_mask(), false, up) >> 1u64) == (if up {
            ((gather_word(b >> 1u64) + 1) as u64) & axis_mask(p)
        } else {
            ((gather_word(b >> 1u64) + axis_mask(p)) as u64) & axis_mask(p)
        }),
        gather_word(stepped_word(b, p, odds_mask(), evens_mask(), false, up)) == gather_word(b),
{
}

/// Stepping the even positions above the lowest one moves the latitude
/// field without its lowest bit, and clears that bit.
proof fn lemma_step_evens_shifted(b: u64, p: u64, up: bool)
    by (bit_vector)
    requires
        2 <= p <= 32,
        b <= word_mask(p),
    ensures
        stepped_word(b, p, evens_mask(), odds_mask(), true, up) <= word_mask(p),
        gather_word(stepped_word(b, p, evens_mask(), odds_mask(), true, up)) == (if up {
            (((gather_word(b) >> 1u64) + 1) as u64) & axis_mask((p - 1) as u64)
        } else {
            (((gather_word(b) >> 1u64) + axis_mask((p - 1) as u64)) as u64) & axis_mask(
                (p - 1) as u64,
            )
        }) * 2,
        gather_word(stepped_word(b, p, evens_mask(), odds_mask(), true, up) >> 1u64)
            == gather_word(b >> 1u64),
{
}

/// A word of `2p` bits holds fields of `p` bits.
proof fn lemma_parts_bounded(b: u64, p: u64)
    by (bit_vector)
    requires
        1 <= p <= 32,
        b <= word_mask(p),
    ensures
        gather_word(b) <= axis_mask(p),
        gather_word(b >> 1u64) <= axis_mask(p),
        gather_word(b) < 0x1_0000_0000u64,
        gather_word(b >> 1u64) < 0x1_0000_0000u64,
{
}

/// Fields of `p` bits make a word of `2p` bits.
proof fn lemma_parts_bounded_rev(lat: u64, lon: u64, p: u64)
    by (bit_vector)
    requires
        1 <= p <= 32,
        lat <= axis_mask(p),
        lon <= axis_mask(p),
    ensures
        crate::interleave::spread_word(lat) | (crate::interleave::spread_word(lon) << 1u64)
            <= word_mask(p),
{
}

/// The masks are two to a power, less one.
proof fn lemma_masks(p: u64)
    requires
        1 <= p <= 32,
    ensures
        axis_mask(p) == pow2(p as nat) - 1,
        axis_mask(p) == low_bits_mask(p as nat),
        word_mask(p) == pow2(2 * p as nat) - 1,
{
    lemma2_to64();
    lemma2_to64_rest();
    lemma_u64_pow2_no_overflow(p as nat);
    lemma_u64_shl_is_mul(1, p);
    assert(axis_mask(p) == (1u64 << p) - 1) by (bit_vector)
        requires
            1 <= p <= 32,
    ;
    if p < 32 {
        let q = (2 * p) as u64;
        lemma_u64_pow2_no_overflow(q as nat);
        lemma_u64_shl_is_mul(1, q);
        assert(word_mask(p) == (1u64 << q) - 1) by (bit_vector)
            requires
                1 <= p < 32,
                q == 2 * p,
        ;
    } else {
        assert(word_mask(32) == 0xffffffffffffffffu64) by (bit_vector);
    }
}

/// The even and odd parts of a word, as the gathering network computes them.
proof fn lemma_parts(b: u64)
    ensures
        gather_word(b) == even_part(b as nat),
        gather_word(b >> 1u64) == odd_part(b as nat),
{
    let h = b >> 1u64;
    assert(h == b / 2) by (bit_vector)
        requires
            h == b >> 1u64,
    ;
    lemma_gather_word(b, 32);
    lemma_gather_word(h, 32);
}

/// An axis value one step up or down, modulo two to the axis width.
pub open spec fn wrapped_step(v: nat, width: nat, up: bool) -> nat {
    if up {
        (v + 1) % pow2(width)
    } else {
        ((v + pow2(width) - 1) % (pow2(width) as int)) as nat
    }
}

/// A stepped value stays below two to the width.
proof fn lemma_wrapped_bounded(v: nat, width: nat)
    ensures
        wrapped_step(v, width, true) < pow2(width),
        wrapped_step(v, width, false) < pow2(width),
{
    lemma_pow2_pos(width);
}

/// A step up undoes a step down, and a step down undoes a step up.
proof fn lemma_wrapped_inverse(v: nat, width: nat)
    requires
        v < pow2(width),
    ensures
        wrapped_step(wrapped_step(v, width, true), width, false) == v,
        wrapped_step(wrapped_step(v, width, false), width, true) == v,
{
    let m = pow2(width) as int;
    lemma_pow2_pos(width);
    if v + 1 < m {
        assert((v + 1) as int % m == v + 1) by {
            vstd::arithmetic::div_mod::lemma_small_mod((v + 1) as nat, m as nat);
        }
        vstd::arithmetic::div_mod::lemma_mod_add_multiples_vanish(v as int, m);
    } else {
        vstd::arithmetic::div_mod::lemma_mod_self_0(m);
        vstd::arithmetic::div_mod::lemma_small_mod((m - 1) as nat, m as nat);
    }
    if v > 0 {
        vstd::arithmetic::div_mod::lemma_mod_add_multiples_vanish(v - 1, m);
        vstd::arithmetic::div_mod::lemma_small_mod((v - 1) as nat, m as nat);
        vstd::arithmetic::div_mod::lemma_small_mod(v as nat, m as nat);
    } else {
        vstd::arithmetic::div_mod::lemma_small_mod((m - 1) as nat, m as nat);
        vstd::arithmetic::div_mod::lemma_mod_self_0(m);
    }
}

/// The masked sums of the stepping lemmas are `wrapped_step`.
proof fn lemma_wrapped(g: u64, p: u64, up: bool)
    requires
        1 <= p <= 32,
        g < 0x1_0000_0000,
    ensures
        (if up {
            ((g + 1) as u64) & axis_mask(p)
        } else {
            ((g + axis_mask(p)) as u64) & axis_mask(p)
        }) == wrapped_step(g as nat, p as nat, up),
{
    lemma_masks(p);
    lemma2_to64();
    lemma_u64_pow2_no_overflow(p as nat);
    let x: u64 = if up {
        (g + 1) as u64
    } else {
        (g + axis_mask(p)) as u64
    };
    lemma_u64_low_bits_mask_is_mod(x, p as nat);
}

/// The value of a string of base-32 digits, most significant first.
pub open spec fn digits_value(s: Seq<char>) -> nat
    decreases s.len(),
{
    if s.len() == 0 {
        0
    } else {
        digits_value(s.drop_last()) * 32 + base32_value_of(s.last()).unwrap_or(0)
    }
}

/// Every character is a base-32 digit.
pub open spec fn all_base32(s: Seq<char>) -> bool {
    forall|i: int| 0 <= i < s.len() ==> base32_value_of(#[trigger] s[i]) is Some
}

/// The digit at position `k` (from the most significant) of a word of
/// `total` bits read five bits at a time.
pub open spec fn digit_at(bits: nat, total: nat, k: nat) -> nat {
    (bits / pow2((total - 5 * (k + 1)) as nat)) % 32
}

/// The longitude range, 360 degrees, in fixed-point units.
pub open spec fn longitude_span() -> int {
    LONGITUDE_MAX - LONGITUDE_MIN
}

/// The latitude range, 180 degrees, in fixed-point units.
pub open spec fn latitude_span() -> int {
    LATITUDE_MAX - LATITUDE_MIN
}

/// The cell index of an offset into a range of `span` units cut into
/// `2^p` cells: `floor(offset / span * 2^p)`, the far end of the range
/// falling in the last cell.
pub open spec fn axis_index(offset: int, span: int, p: nat) -> nat {
    let i = offset * pow2(p) / span;
    if i < pow2(p) {
        i as nat
    } else {
        (pow2(p) - 1) as nat
    }
}

/// The lower edge of cell `index` of a range starting at `range_min` and
/// `span` units long, cut into `2^p` cells.
pub open spec fn cell_edge(range_min: int, span: int, index: nat, p: nat) -> int {
    range_min + index * span / (pow2(p) as int)
}

/// Powers of two grow with the exponent.
proof fn lemma_pow2_le(e1: nat, e2: nat)
    requires
        e1 <= e2,
    ensures
        pow2(e1) <= pow2(e2),
{
    if e1 < e2 {
        lemma_pow2_strictly_increases(e1, e2);
    }
}

/// The width of one of `2^p` cells of a range of `45 * 2^span_exp` units.
pub(crate) proof fn lemma_cell_width(span_exp: u64, p: u64) -> (w: u64)
    requires
        1 <= p <= 32,
        span_exp == 34 || span_exp == 35,
    ensures
        w == 45u64 << ((span_exp - p) as u64),
        w == 45 * pow2((span_exp - p) as nat),
        0 < w <= 45 * 0x4_0000_0000,
        w * pow2(p as nat) == 45 * pow2(span_exp as nat),
        pow2(p as nat) <= 0x1_0000_0000,
        45 * pow2(span_exp as nat) <= 45 * 0x8_0000_0000,
{
    lemma2_to64();
    lemma2_to64_rest();
    let e = (span_exp - p) as u64;
    lemma_pow2_le(e as nat, 35);
    lemma_pow2_le(p as nat, 32);
    lemma_pow2_le(span_exp as nat, 35);
    lemma_pow2_pos(e as nat);
    lemma_pow2_le(e as nat, 34);
    lemma_u64_shl_is_mul(45, e);
    lemma_pow2_adds(e as nat, p as nat);
    vstd::arithmetic::mul::lemma_mul_is_associative(45, pow2(e as nat) as int, pow2(p as nat) as int);
    45u64 << e
}

/// The cell index of an offset along an axis of `45 * 2^span_exp` units.
fn quantize(offset: u64, span_exp: u64, p: u64) -> (r: u32)
    requires
        1 <= p <= 32,
        span_exp == 34 || span_exp == 35,
        offset <= 45 * pow2(span_exp as nat),
    ensures
        r == axis_index(offset as int, (45 * pow2(span_exp as nat)) as int, p as nat),
{
    let ghost w = lemma_cell_width(span_exp, p);
    proof {
        lemma_u64_pow2_no_overflow(p as nat);
        lemma_u64_shl_is_mul(1, p);
    }
    let width = 45u64 << (span_exp - p);
    let cells = 1u64 << p;
    let index = offset / width;
    proof {
        let big_p = pow2(p as nat) as int;
        lemma_pow2_pos(p as nat);
        vstd::arithmetic::div_mod::lemma_div_denominator(offset as int * big_p, big_p, w as int);
        vstd::arithmetic::mul::lemma_mul_is_commutative(offset as int, big_p);
        vstd::arithmetic::div_mod::lemma_div_multiples_vanish(offset as int, big_p);
        vstd::arithmetic::mul::lemma_mul_is_commutative(w as int, big_p);
    }
    if index < cells {
        index as u32
    } else {
        (cells - 1) as u32
    }
}

/// The two edges of cell `index` along an axis of `45 * 2^span_exp` units
/// starting at `range_min`.
fn axis_edges(index: u32, range_min: i64, span_exp: u64, p: u64) -> (r: (i64, i64))
    requires
        1 <= p <= 32,
        span_exp == 34 || span_exp == 35,
        index < pow2(p as nat),
        -(45 * 0x8_0000_0000) <= range_min <= 0,
    ensures
        r.0 == cell_edge(
            range_min as int,
            (45 * pow2(span_exp as nat)) as int,
            index as nat,
            p as nat,
        ),
        r.1 == cell_edge(
            range_min as int,
            (45 * pow2(span_exp as nat)) as int,
            (index + 1) as nat,
            p as nat,
        ),
        range_min <= r.0 < r.1 <= range_min + 45 * pow2(span_exp as nat),
{
    let ghost w = lemma_cell_width(span_exp, p);
    let width = (45u64 << (span_exp - p)) as i64;
    proof {
        let big_p = pow2(p as nat) as int;
        lemma_pow2_pos(p as nat);
        assert((index + 1) * w <= big_p * w) by (nonlinear_arith)
            requires
                index + 1 <= big_p,
                w >= 0,
        ;
        assert(index * (w * big_p) == (index * w) * big_p) by (nonlinear_arith);
        assert((index + 1) * (w * big_p) == ((index + 1) * w) * big_p) by (nonlinear_arith);
        vstd::arithmetic::div_mod::lemma_div_multiples_vanish((index * w) as int, big_p);
        vstd::arithmetic::div_mod::lemma_div_multiples_vanish(((index + 1) * w) as int, big_p);
        vstd::arithmetic::mul::lemma_mul_is_commutative((index * w) as int, big_p);
        vstd::arithmetic::mul::lemma_mul_is_commutative(((index + 1) * w) as int, big_p);
        vstd::arithmetic::mul::lemma_mul_is_commutative(w as int, big_p);
        assert(index * w < (index + 1) * w) by (nonlinear_arith)
            requires
                w > 0,
        ;
        assert(w * big_p <= 45 * 0x8_0000_0000);
    }
    (range_min + (index as i64) * width, range_min + (index as i64 + 1) * width)
}

/// Relies on `String::push`: appends one character.
#[verifier::external_body]
fn push_char(s: &mut String, c: char)
    ensures
        final(s)@ == old(s)@.push(c),
{
    s.push(c)
}

/// A cell: latitude bits on the even positions and longitude bits on the
/// odd positions of the low `2 * binary_precision` bits of a word.
#[derive(Clone, Copy, Debug, PartialEq, Eq, Structural)]
pub struct GeohashBits {
    bits: u64,
    precision: Precision,
}

impl GeohashBits {
    /// The interleaved word.
    pub closed spec fn spec_bits(self) -> u64 {
        self.bits
    }

    /// The precision the cell was made at.
    pub closed spec fn spec_precision(self) -> Precision {
        self.precision
    }

    /// Bits per axis.
    pub open spec fn spec_binary_precision(self) -> nat {
        self.spec_precision().spec_binary_precision()
    }

    /// A valid precision, and no bit set above the low `2 * binary_precision`.
    pub open spec fn wf(self) -> bool {
        &&& self.spec_precision().is_valid()
        &&& (self.spec_bits() as nat) < pow2(2 * self.spec_binary_precision())
    }

    /// The latitude field: the value on the even positions.
    pub open spec fn lat_bits(self) -> nat {
        even_part(self.spec_bits() as nat)
    }

    /// The longitude field: the value on the odd positions.
    pub open spec fn lon_bits(self) -> nat {
        odd_part(self.spec_bits() as nat)
    }

    /// Bits of latitude that count: one less for an odd number of characters.
    pub open spec fn lat_precision(self) -> nat {
        if self.spec_precision().spec_is_odd_characters() {
            (self.spec_binary_precision() - 1) as nat
        } else {
            self.spec_binary_precision()
        }
    }

    /// The row of the cell: the latitude field without its unused lowest bit.
    pub open spec fn lat_index(self) -> nat {
        if self.spec_precision().spec_is_odd_characters() {
            self.lat_bits() / 2
        } else {
            self.lat_bits()
        }
    }

    /// The latitude field after one step north (`up`) or south.
    pub open spec fn lat_moved(self, up: bool) -> nat {
        if self.spec_precision().spec_is_odd_characters() {
            wrapped_step(self.lat_bits() / 2, self.lat_precision(), up) * 2
        } else {
            wrapped_step(self.lat_bits(), self.spec_binary_precision(), up)
        }
    }

    /// The longitude field after one step east (`up`) or west.
    pub open spec fn lon_moved(self, up: bool) -> nat {
        wrapped_step(self.lon_bits(), self.spec_binary_precision(), up)
    }

    /// The cell holds the given latitude and longitude fields.
    pub open spec fn has_fields(self, lat: nat, lon: nat) -> bool {
        self.lat_bits() == lat && self.lon_bits() == lon
    }

    /// A well-formed cell holds fewer than two to the precision in each field.
    pub proof fn lemma_fields_bounded(self)
        requires
            self.wf(),
        ensures
            self.lat_bits() < pow2(self.spec_binary_precision()),
            self.lon_bits() < pow2(self.spec_binary_precision()),
            self.spec_bits() == interleave(self.lat_bits(), self.lon_bits()),
    {
        let p = self.spec_binary_precision() as u64;
        lemma_masks(p);
        lemma_parts(self.bits);
        lemma_parts_bounded(self.bits, p);
        lemma_interleave_deinterleave(self.bits);
    }

    /// Two cells of one precision with the same fields are the same cell.
    pub proof fn lemma_same_fields(self, other: GeohashBits)
        requires
            self.spec_precision() == other.spec_precision(),
            self.lat_bits() == other.lat_bits(),
            self.lon_bits() == other.lon_bits(),
        ensures
            self == other,
    {
        lemma_interleave_deinterleave(self.bits);
        lemma_interleave_deinterleave(other.bits);
    }

    /// The adjacent cell in a direction: the moved field changes by one,
    /// modulo two to its width, and the other field is kept.
    pub closed spec fn spec_neighbor(self, dir: Neighbor) -> GeohashBits {
        let lat = match dir {
            Neighbor::North => self.lat_moved(true),
            Neighbor::South => self.lat_moved(false),
            _ => self.lat_bits(),
        };
        let lon = match dir {
            Neighbor::East => self.lon_moved(true),
            Neighbor::West => self.lon_moved(false),
            _ => self.lon_bits(),
        };
        GeohashBits { bits: interleave(lat, lon) as u64, precision: self.precision }
    }

    /// The cell of precision `precision` with the given latitude and
    /// longitude fields.
    pub closed spec fn from_fields(precision: Precision, lat: nat, lon: nat) -> GeohashBits {
        GeohashBits { bits: interleave(lat, lon) as u64, precision }
    }

    /// A cell made from fields that fit the precision has those fields.
    pub proof fn lemma_from_fields(precision: Precision, lat: nat, lon: nat)
        requires
            precision.is_valid(),
            lat < pow2(precision.spec_binary_precision()),
            lon < pow2(precision.spec_binary_precision()),
        ensures
            GeohashBits::from_fields(precision, lat, lon).wf(),
            GeohashBits::from_fields(precision, lat, lon).spec_precision() == precision,
            GeohashBits::from_fields(precision, lat, lon).has_fields(lat, lon),
    {
        let p = precision.spec_binary_precision();
        if p < 32 {
            lemma_pow2_strictly_increases(p, 32);
        }
        lemma2_to64();
        lemma_deinterleave_interleave(lat as u32, lon as u32);
        let q = p as u64;
        lemma_masks(q);
        lemma_parts_bounded_rev(lat as u64, lon as u64, q);
        crate::interleave::lemma_word_of(lat as u32, lon as u32);
    }

    /// A well-formed cell is the cell made from its own fields.
    pub proof fn lemma_from_own_fields(self)
        requires
            self.wf(),
        ensures
            self == GeohashBits::from_fields(self.spec_precision(), self.lat_bits(), self.lon_bits()),
    {
        self.lemma_fields_bounded();
        GeohashBits::lemma_from_fields(self.spec_precision(), self.lat_bits(), self.lon_bits());
        self.lemma_same_fields(GeohashBits::from_fields(self.spec_precision(), self.lat_bits(), self.lon_bits()));
    }

    /// The cell a valid location is encoded into at a valid precision.
    pub open spec fn spec_from_location(location: Location, precision: Precision) -> GeohashBits {
        GeohashBits::from_fields(
            precision,
            axis_index(
                location.latitude - LATITUDE_MIN,
                latitude_span(),
                precision.spec_binary_precision(),
            ),
            axis_index(
                location.longitude - LONGITUDE_MIN,
                longitude_span(),
                precision.spec_binary_precision(),
            ),
        )
    }

    /// The fields of a neighbour.
    pub proof fn lemma_neighbor_fields(self, dir: Neighbor)
        requires
            self.wf(),
        ensures
            self.spec_neighbor(dir).wf(),
            self.spec_neighbor(dir).spec_precision() == self.spec_precision(),
            dir == Neighbor::North ==> self.spec_neighbor(dir).has_fields(
                self.lat_moved(true),
                self.lon_bits(),
            ),
            dir == Neighbor::South ==> self.spec_neighbor(dir).has_fields(
                self.lat_moved(false),
                self.lon_bits(),
            ),
            dir == Neighbor::East ==> self.spec_neighbor(dir).has_fields(
                self.lat_bits(),
                self.lon_moved(true),
            ),
            dir == Neighbor::West ==> self.spec_neighbor(dir).has_fields(
                self.lat_bits(),
                self.lon_moved(false),
            ),
    {
        let p = self.spec_binary_precision();
        self.lemma_fields_bounded();
        lemma_pow2_pos(p);
        lemma_wrapped_bounded(self.lat_bits(), p);
        lemma_wrapped_bounded(self.lon_bits(), p);
        if self.spec_precision().spec_is_odd_characters() {
            lemma_wrapped_bounded(self.lat_bits() / 2, (p - 1) as nat);
            vstd::arithmetic::power2::lemma_pow2_unfold(p);
        }
        let n = self.spec_neighbor(dir);
        let lat = n.lat_bits();
        let lon = n.lon_bits();
        let lat0 = match dir {
            Neighbor::North => self.lat_moved(true),
            Neighbor::South => self.lat_moved(false),
            _ => self.lat_bits(),
        };
        let lon0 = match dir {
            Neighbor::East => self.lon_moved(true),
            Neighbor::West => self.lon_moved(false),
            _ => self.lon_bits(),
        };
        if p < 32 {
            lemma_pow2_strictly_increases(p, 32);
        }
        lemma2_to64();
        lemma_deinterleave_interleave(lat0 as u32, lon0 as u32);
        let q = p as u64;
        lemma_masks(q);
        lemma_parts_bounded_rev(lat0 as u64, lon0 as u64, q);
        crate::interleave::lemma_word_of(lat0 as u32, lon0 as u32);
    }

    /// The cell one step along one axis: `direction` above zero steps up,
    /// below zero steps down, zero keeps the cell.
    fn incremented(&self, set: InterleaveSet, direction: i32) -> (r: GeohashBits)
        requires
            self.wf(),
        ensures
            r.wf(),
            r.spec_precision() == self.spec_precision(),
            direction == 0 ==> r == *self,
            direction != 0 && set == InterleaveSet::Evens ==> r.lat_bits() == self.lat_moved(
                direction > 0,
            ) && r.lon_bits() == self.lon_bits(),
            direction != 0 && set == InterleaveSet::Odds ==> r.lon_bits() == self.lon_moved(
                direction > 0,
            ) && r.lat_bits() == self.lat_bits(),
    {
        if direction == 0 {
            return GeohashBits { bits: self.bits, precision: self.precision };
        }
        let modify_mask = set.modify_mask();
        let keep_mask = set.keep_mask();
        let mut modify_bits = self.bits & modify_mask;
        let keep_bits = self.bits & keep_mask;
        let binary_precision = self.precision.binary_precision() as u64;
        let increment = keep_mask >> (64 - 2 * binary_precision);
        let shift_bits = set == InterleaveSet::Evens && self.precision.is_odd_characters();
        assert(increment < 0xffffffffffffffffu64) by (bit_vector)
            requires
                increment == keep_mask >> ((64 - 2 * binary_precision) as u64),
                keep_mask == 0x5555555555555555u64 || keep_mask == 0xaaaaaaaaaaaaaaaau64,
        ;
        let ghost m0 = modify_bits;
        if shift_bits {
            modify_bits >>= 2;
        }
        let ghost m1 = modify_bits;
        if direction > 0 {
            modify_bits = modify_bits.wrapping_add(increment + 1);
        } else {
            modify_bits |= increment;
            modify_bits = modify_bits.wrapping_sub(increment + 1);
        }
        let ghost m2 = modify_bits;
        if shift_bits {
            modify_bits <<= 2;
        }
        let ghost m3 = modify_bits;
        modify_bits &= modify_mask >> (64 - 2 * binary_precision);
        let r = GeohashBits { bits: modify_bits | keep_bits, precision: self.precision };
        proof {
            let b = self.bits;
            let p = binary_precision;
            let up = direction > 0;
            assert(m2 == (if up {
                (m1 + increment + 1) as u64
            } else {
                ((m1 | increment) - (increment + 1)) as u64
            })) by (bit_vector)
                requires
                    up ==> m2 == vstd::wrapping::u64_specs::wrapping_add(m1, (increment + 1) as u64),
                    !up ==> m2 == vstd::wrapping::u64_specs::wrapping_sub(
                        m1 | increment,
                        (increment + 1) as u64,
                    ),
                    increment < 0xffffffffffffffffu64,
            ;
            let rb = r.bits;
            assert(rb == stepped_word(b, p, modify_mask, keep_mask, shift_bits, up))
                by (bit_vector)
                requires
                    m0 == b & modify_mask,
                    m1 == (if shift_bits {
                        m0 >> 2u64
                    } else {
                        m0
                    }),
                    m2 == (if up {
                        (m1 + increment + 1) as u64
                    } else {
                        ((m1 | increment) - (increment + 1)) as u64
                    }),
                    m3 == (if shift_bits {
                        (m2 << 2u64) as u64
                    } else {
                        m2
                    }),
                    increment == keep_mask >> ((64 - 2 * p) as u64),
                    rb == (m3 & (modify_mask >> ((64 - 2 * p) as u64))) | (b & keep_mask),
            ;
            lemma_masks(p);
            lemma_parts(b);
            lemma_parts(rb);
            lemma_parts_bounded(b, p);
            if set == InterleaveSet::Evens {
                if shift_bits {
                    lemma_step_evens_shifted(b, p, up);
                    let g = gather_word(b);
                    let h = g >> 1u64;
                    assert(h == g / 2) by (bit_vector)
                        requires
                            h == g >> 1u64,
                    ;
                    lemma_wrapped(h, (p - 1) as u64, up);
                } else {
                    lemma_step_evens(b, p, up);
                    lemma_wrapped(gather_word(b), p, up);
                }
            } else {
                lemma_step_odds(b, p, up);
                lemma_wrapped(gather_word(b >> 1u64), p, up);
            }
        }
        r
    }

    /// The adjacent cell in a direction, at the same precision. Moving off
    /// an edge of the coordinate space wraps around to the opposite edge.
    pub fn neighbor(&self, neighbor: &Neighbor) -> (r: GeohashBits)
        requires
            self.wf(),
        ensures
            r == self.spec_neighbor(*neighbor),
            r.wf(),
            r.spec_precision() == self.spec_precision(),
            *neighbor == Neighbor::North ==> r.has_fields(self.lat_moved(true), self.lon_bits()),
            *neighbor == Neighbor::South ==> r.has_fields(self.lat_moved(false), self.lon_bits()),
            *neighbor == Neighbor::East ==> r.has_fields(self.lat_bits(), self.lon_moved(true)),
            *neighbor == Neighbor::West ==> r.has_fields(self.lat_bits(), self.lon_moved(false)),
    {
        proof {
            self.lemma_neighbor_fields(*neighbor);
        }
        let r = match neighbor {
            Neighbor::North => self.incremented(InterleaveSet::Evens, 1),
            Neighbor::South => self.incremented(InterleaveSet::Evens, -1),
            Neighbor::East => self.incremented(InterleaveSet::Odds, 1),
            Neighbor::West => self.incremented(InterleaveSet::Odds, -1),
        };
        proof {
            r.lemma_same_fields(self.spec_neighbor(*neighbor));
        }
        r
    }

    /// Encodes a location at a precision. Each axis is cut into
    /// `2^binary_precision` cells; the latitude index goes to the even bit
    /// positions, the longitude index to the odd ones.
    pub fn from_location(location: &Location, precision: Precision) -> (r: Result<
        GeohashBits,
        GeohashError,
    >)
        ensures
            !location.longitude_valid() ==> r == Err::<GeohashBits, GeohashError>(
                GeohashError::LongitudeOutOfRange,
            ),
            location.longitude_valid() && !location.latitude_valid() ==> r == Err::<
                GeohashBits,
                GeohashError,
            >(GeohashError::LatitudeOutOfRange),
            location.valid() && !precision.is_valid() ==> r == Err::<GeohashBits, GeohashError>(
                GeohashError::PrecisionOutOfRange,
            ),
            location.valid() && precision.is_valid() ==> (r matches Ok(c) && c.wf()
                && c == GeohashBits::spec_from_location(*location, precision)
                && c.spec_precision() == precision && c.lon_bits() == axis_index(
                location.longitude - LONGITUDE_MIN,
                longitude_span(),
                precision.spec_binary_precision(),
            ) && c.lat_bits() == axis_index(
                location.latitude - LATITUDE_MIN,
                latitude_span(),
                precision.spec_binary_precision(),
            )),
    {
        match location.validate_range() {
            Err(e) => {
                return Err(e);
            },
            Ok(()) => {},
        }
        let in_range = match precision {
            Precision::Bits(n) => 1 <= n && n <= 32,
            Precision::Characters(n) => 1 <= n && n <= 12,
        };
        if !in_range {
            return Err(GeohashError::PrecisionOutOfRange);
        }
        let binary_precision = precision.binary_precision() as u64;
        proof {
            lemma2_to64();
            lemma2_to64_rest();
        }
        let longitude_bits = quantize((location.longitude - LONGITUDE_MIN) as u64, 35, binary_precision);
        let latitude_bits = quantize((location.latitude - LATITUDE_MIN) as u64, 34, binary_precision);
        let bits = interleave_bits(latitude_bits, longitude_bits);
        proof {
            let p = binary_precision;
            lemma_masks(p);
            lemma_parts_bounded_rev(latitude_bits as u64, longitude_bits as u64, p);
            crate::interleave::lemma_word_of(latitude_bits, longitude_bits);
        }
        let r = GeohashBits { bits, precision };
        proof {
            let s = GeohashBits::spec_from_location(*location, precision);
            GeohashBits::lemma_from_fields(precision, latitude_bits as nat, longitude_bits as nat);
            r.lemma_same_fields(s);
        }
        Ok(r)
    }

    /// The rectangle the cell covers. For an odd number of characters the
    /// latitude has one bit less and its unused lowest bit is ignored.
    pub fn bounding_box(&self) -> (r: BoundingBox)
        requires
            self.wf(),
        ensures
            r.wf(),
            r.spec_min().longitude == cell_edge(
                LONGITUDE_MIN as int,
                longitude_span(),
                self.lon_bits(),
                self.spec_binary_precision(),
            ),
            r.spec_max().longitude == cell_edge(
                LONGITUDE_MIN as int,
                longitude_span(),
                self.lon_bits() + 1,
                self.spec_binary_precision(),
            ),
            r.spec_min().latitude == cell_edge(
                LATITUDE_MIN as int,
                latitude_span(),
                self.lat_index(),
                self.lat_precision(),
            ),
            r.spec_max().latitude == cell_edge(
                LATITUDE_MIN as int,
                latitude_span(),
                self.lat_index() + 1,
                self.lat_precision(),
            ),
    {
        let (mut lat_bits, lon_bits) = deinterleave_bits(self.bits);
        let binary_precision = self.precision.binary_precision() as u64;
        let mut lat_precision = binary_precision;
        proof {
            self.lemma_fields_bounded();
            lemma2_to64();
            lemma2_to64_rest();
        }
        if self.precision.is_odd_characters() {
            proof {
                assert(lat_bits >> 1u32 == lat_bits / 2) by (bit_vector);
                vstd::arithmetic::power2::lemma_pow2_unfold(binary_precision as nat);
            }
            lat_bits >>= 1;
            lat_precision -= 1;
        }
        let (lon_min, lon_max) = axis_edges(lon_bits, LONGITUDE_MIN, 35, binary_precision);
        let (lat_min, lat_max) = axis_edges(lat_bits, LATITUDE_MIN, 34, lat_precision);
        BoundingBox::from_corners(
            Location { longitude: lon_min, latitude: lat_min },
            Location { longitude: lon_max, latitude: lat_max },
        )
    }

    /// Decodes a base-32 geohash string of 1 to 12 characters. The cell has
    /// the precision of that many characters; the digits fill the word from
    /// its most significant used bit down.
    pub fn from_hash(hash: &str) -> (r: Result<GeohashBits, GeohashError>)
        ensures
            hash@.len() == 0 || hash@.len() > 12 ==> r == Err::<GeohashBits, GeohashError>(
                GeohashError::PrecisionOutOfRange,
            ),
            1 <= hash@.len() <= 12 && !all_base32(hash@) ==> r == Err::<GeohashBits, GeohashError>(
                GeohashError::InvalidCharacter,
            ),
            1 <= hash@.len() <= 12 && all_base32(hash@) ==> (r matches Ok(c) && c.wf()
                && c.spec_precision() == Precision::Characters(hash@.len() as u8)
                && c.spec_bits() == digits_value(hash@) * pow2(
                (2 * c.spec_binary_precision() - 5 * hash@.len()) as nat,
            ) && (hash@.len() % 2 == 1 ==> c.spec_bits() % 2 == 0)),
    {
        let n = hash.unicode_len();
        if n == 0 || n > 12 {
            return Err(GeohashError::PrecisionOutOfRange);
        }
        let mut value: u64 = 0;
        let mut i: usize = 0;
        proof {
            lemma2_to64();
        }
        while i < n
            invariant
                n == hash@.len(),
                1 <= n <= 12,
                i <= n,
                all_base32(hash@.take(i as int)),
                value == digits_value(hash@.take(i as int)),
                value < pow2(5 * i as nat),
            decreases n - i,
        {
            let c = hash.get_char(i);
            let digit = match base32_value(c) {
                Some(d) => d,
                None => {
                    proof {
                        assert(!all_base32(hash@));
                    }
                    return Err(GeohashError::InvalidCharacter);
                },
            };
            proof {
                lemma_base32_inverse();
                let t = hash@.take(i as int + 1);
                assert(t.drop_last() =~= hash@.take(i as int));
                assert(t.last() == c);
                lemma_pow2_adds(5 * i as nat, 5);
                lemma2_to64();
                lemma2_to64_rest();
                lemma_pow2_strictly_increases((5 * i + 5) as nat, 64);
                assert(value * 32 + digit < pow2(5 * i as nat) * 32) by (nonlinear_arith)
                    requires
                        value < pow2(5 * i as nat),
                        digit < 32,
                ;
            }
            value = value * 32 + digit;
            i = i + 1;
        }
        proof {
            assert(hash@.take(n as int) =~= hash@);
        }
        let precision = Precision::Characters(n as u8);
        let binary_precision = precision.binary_precision() as u64;
        let shift = 2 * binary_precision - 5 * (n as u64);
        proof {
            lemma2_to64();
            lemma2_to64_rest();
            lemma_pow2_adds(5 * n as nat, shift as nat);
            lemma_pow2_strictly_increases((5 * n + shift) as nat, 64);
            assert(value * pow2(shift as nat) < pow2(5 * n as nat) * pow2(shift as nat))
                by (nonlinear_arith)
                requires
                    value < pow2(5 * n as nat),
                    pow2(shift as nat) > 0,
            ;
            lemma_u64_shl_is_mul(value, shift);
            if n % 2 == 1 {
                assert(shift == 1);
                vstd::arithmetic::div_mod::lemma_mod_multiples_basic(value as int, 2);
                vstd::arithmetic::mul::lemma_mul_is_commutative(value as int, 2);
            }
        }
        Ok(GeohashBits { bits: value << shift, precision })
    }

    /// The base-32 string of the cell: `character_precision` characters,
    /// five bits each from the most significant used bit down. Bits below
    /// the last whole character are dropped.
    pub fn hash(&self) -> (r: String)
        requires
            self.wf(),
        ensures
            r@.len() == self.spec_precision().spec_character_precision(),
            forall|k: int|
                0 <= k < r@.len() ==> #[trigger] r@[k] == base32_char_of(
                    digit_at(self.spec_bits() as nat, 2 * self.spec_binary_precision(), k as nat),
                ),
    {
        let character_precision = self.precision.character_precision();
        let total_binary_precision = 2 * self.precision.binary_precision() as u64;
        let mut hash = String::new();
        let mut i: u64 = 1;
        while i <= character_precision as u64
            invariant
                1 <= i <= character_precision as u64 + 1,
                character_precision == self.spec_precision().spec_character_precision(),
                total_binary_precision == 2 * self.spec_binary_precision(),
                5 * character_precision <= total_binary_precision <= 64,
                hash@.len() == i - 1,
                forall|k: int|
                    0 <= k < hash@.len() ==> #[trigger] hash@[k] == base32_char_of(
                        digit_at(self.bits as nat, total_binary_precision as nat, k as nat),
                    ),
            decreases character_precision as u64 + 1 - i,
        {
            // each character is 5 bits
            let shift = total_binary_precision - i * 5;
            let index = (self.bits >> shift) & 0x1f;
            proof {
                vstd::bits::lemma_u64_shr_is_div(self.bits, shift);
                let x = self.bits >> shift;
                assert(x & 0x1fu64 == x % 32 && x & 0x1fu64 < 32) by (bit_vector);
            }
            push_char(&mut hash, base32_char(index));
            i = i + 1;
        }
        hash
    }

    /// The interleaved word.
    pub fn bits(&self) -> (r: u64)
        ensures
            r == self.spec_bits(),
    {
        self.bits
    }
}

/// Stepping east then west, or west then east, gives the cell back. So does
/// stepping north then south, or south then north, for every cell whose
/// latitude field has no set bit below its precision (which only an odd
/// number of characters leaves unused).
pub proof fn lemma_neighbor_symmetry(c: GeohashBits)
    requires
        c.wf(),
    ensures
        c.spec_neighbor(Neighbor::East).spec_neighbor(Neighbor::West) == c,
        c.spec_neighbor(Neighbor::West).spec_neighbor(Neighbor::East) == c,
        !c.spec_precision().spec_is_odd_characters() || c.lat_bits() % 2 == 0 ==> {
            &&& c.spec_neighbor(Neighbor::North).spec_neighbor(Neighbor::South) == c
            &&& c.spec_neighbor(Neighbor::South).spec_neighbor(Neighbor::North) == c
        },
{
    let p = c.spec_binary_precision();
    c.lemma_fields_bounded();
    lemma_wrapped_inverse(c.lon_bits(), p);
    c.lemma_neighbor_fields(Neighbor::East);
    c.lemma_neighbor_fields(Neighbor::West);
    c.spec_neighbor(Neighbor::East).lemma_neighbor_fields(Neighbor::West);
    c.spec_neighbor(Neighbor::West).lemma_neighbor_fields(Neighbor::East);
    c.spec_neighbor(Neighbor::East).spec_neighbor(Neighbor::West).lemma_same_fields(c);
    c.spec_neighbor(Neighbor::West).spec_neighbor(Neighbor::East).lemma_same_fields(c);
    if !c.spec_precision().spec_is_odd_characters() || c.lat_bits() % 2 == 0 {
        c.lemma_neighbor_fields(Neighbor::North);
        c.lemma_neighbor_fields(Neighbor::South);
        c.spec_neighbor(Neighbor::North).lemma_neighbor_fields(Neighbor::South);
        c.spec_neighbor(Neighbor::South).lemma_neighbor_fields(Neighbor::North);
        if c.spec_precision().spec_is_odd_characters() {
            vstd::arithmetic::power2::lemma_pow2_unfold(p);
            lemma_wrapped_inverse(c.lat_bits() / 2, (p - 1) as nat);
            lemma_wrapped_bounded(c.lat_bits() / 2, (p - 1) as nat);
        } else {
            lemma_wrapped_inverse(c.lat_bits(), p);
        }
        c.spec_neighbor(Neighbor::North).spec_neighbor(Neighbor::South).lemma_same_fields(c);
        c.spec_neighbor(Neighbor::South).spec_neighbor(Neighbor::North).lemma_same_fields(c);
    }
}

/// An edge of a cell of a range of `45 * 2^span_exp` units, as a product.
pub(crate) proof fn lemma_edge_value(range_min: int, span_exp: u64, index: nat, p: u64)
    requires
        1 <= p <= 32,
        span_exp == 34 || span_exp == 35,
    ensures
        cell_edge(range_min, (45 * pow2(span_exp as nat)) as int, index, p as nat) == range_min
            + index * (45 * pow2((span_exp - p) as nat)),
{
    let w = lemma_cell_width(span_exp, p);
    let big_p = pow2(p as nat) as int;
    lemma_pow2_pos(p as nat);
    assert(index * (w * big_p) == (index * w) * big_p) by (nonlinear_arith);
    vstd::arithmetic::div_mod::lemma_div_multiples_vanish((index * w) as int, big_p);
    vstd::arithmetic::mul::lemma_mul_is_commutative((index * w) as int, big_p);
}

/// The index of an offset names a cell whose edges hold the offset.
pub(crate) proof fn lemma_axis_contains(offset: int, span_exp: u64, p: u64)
    requires
        1 <= p <= 32,
        span_exp == 34 || span_exp == 35,
        0 <= offset <= 45 * pow2(span_exp as nat),
    ensures
        ({
            let i = axis_index(offset, (45 * pow2(span_exp as nat)) as int, p as nat);
            let w = 45 * pow2((span_exp - p) as nat);
            &&& i < pow2(p as nat)
            &&& i * w <= offset <= (i + 1) * w
            &&& i + 1 < pow2(p as nat) ==> offset < (i + 1) * w
        }),
{
    let w = lemma_cell_width(span_exp, p);
    let big_p = pow2(p as nat) as int;
    lemma_pow2_pos(p as nat);
    let span = (45 * pow2(span_exp as nat)) as int;
    vstd::arithmetic::div_mod::lemma_div_denominator(offset * big_p, big_p, w as int);
    vstd::arithmetic::mul::lemma_mul_is_commutative(offset, big_p);
    vstd::arithmetic::div_mod::lemma_div_multiples_vanish(offset, big_p);
    vstd::arithmetic::mul::lemma_mul_is_commutative(w as int, big_p);
    let q = offset / (w as int);
    vstd::arithmetic::div_mod::lemma_fundamental_div_mod(offset, w as int);
    assert(q * w <= offset < (q + 1) * w) by (nonlinear_arith)
        requires
            offset == w * q + offset % (w as int),
            0 <= offset % (w as int) < w,
    ;
    if q >= big_p {
        assert(big_p * w <= q * w) by (nonlinear_arith)
            requires
                q >= big_p,
                w > 0,
        ;
        assert((big_p - 1) * w <= offset <= big_p * w) by (nonlinear_arith)
            requires
                offset == span,
                span == w * big_p,
                w > 0,
        ;
    }
}

/// A location lies in the rectangle of the cell it is encoded into, at
/// every valid precision.
pub proof fn lemma_round_trip(location: Location, precision: Precision, c: GeohashBits)
    requires
        location.valid(),
        precision.is_valid(),
        c.wf(),
        c.spec_precision() == precision,
        c.lon_bits() == axis_index(
            location.longitude - LONGITUDE_MIN,
            longitude_span(),
            precision.spec_binary_precision(),
        ),
        c.lat_bits() == axis_index(
            location.latitude - LATITUDE_MIN,
            latitude_span(),
            precision.spec_binary_precision(),
        ),
    ensures
        cell_edge(LONGITUDE_MIN as int, longitude_span(), c.lon_bits(), c.spec_binary_precision())
            <= location.longitude <= cell_edge(
            LONGITUDE_MIN as int,
            longitude_span(),
            c.lon_bits() + 1,
            c.spec_binary_precision(),
        ),
        cell_edge(LATITUDE_MIN as int, latitude_span(), c.lat_index(), c.lat_precision())
            <= location.latitude <= cell_edge(
            LATITUDE_MIN as int,
            latitude_span(),
            c.lat_index() + 1,
            c.lat_precision(),
        ),
{
    lemma2_to64();
    lemma2_to64_rest();
    let p = c.spec_binary_precision() as u64;
    lemma_axis_contains(location.longitude - LONGITUDE_MIN, 35, p);
    lemma_axis_contains(location.latitude - LATITUDE_MIN, 34, p);
    lemma_edge_value(LONGITUDE_MIN as int, 35, c.lon_bits(), p);
    lemma_edge_value(LONGITUDE_MIN as int, 35, c.lon_bits() + 1, p);
    if c.spec_precision().spec_is_odd_characters() {
        let q = (p - 1) as u64;
        let l = c.lat_bits();
        let w = 45 * pow2((34 - p) as nat);
        vstd::arithmetic::power2::lemma_pow2_unfold((34 - q) as nat);
        lemma_edge_value(LATITUDE_MIN as int, 34, l / 2, q);
        lemma_edge_value(LATITUDE_MIN as int, 34, l / 2 + 1, q);
        assert((l / 2) * (2 * w) <= l * w && (l + 1) * w <= (l / 2 + 1) * (2 * w))
            by (nonlinear_arith)
            requires
                w > 0,
        ;
    } else {
        lemma_edge_value(LATITUDE_MIN as int, 34, c.lat_bits(), p);
        lemma_edge_value(LATITUDE_MIN as int, 34, c.lat_bits() + 1, p);
    }
}

/// Cells get strictly narrower and lower as the number of bits per axis
/// grows, on both axes.
pub proof fn lemma_cells_shrink(p: nat, q: nat, i: nat, j: nat)
    requires
        1 <= p < q <= 32,
    ensures
        cell_edge(LONGITUDE_MIN as int, longitude_span(), j + 1, q) - cell_edge(
            LONGITUDE_MIN as int,
            longitude_span(),
            j,
            q,
        ) < cell_edge(LONGITUDE_MIN as int, longitude_span(), i + 1, p) - cell_edge(
            LONGITUDE_MIN as int,
            longitude_span(),
            i,
            p,
        ),
        cell_edge(LATITUDE_MIN as int, latitude_span(), j + 1, q) - cell_edge(
            LATITUDE_MIN as int,
            latitude_span(),
            j,
            q,
        ) < cell_edge(LATITUDE_MIN as int, latitude_span(), i + 1, p) - cell_edge(
            LATITUDE_MIN as int,
            latitude_span(),
            i,
            p,
        ),
{
    lemma2_to64();
    lemma2_to64_rest();
    lemma_edge_value(LONGITUDE_MIN as int, 35, i, p as u64);
    lemma_edge_value(LONGITUDE_MIN as int, 35, i + 1, p as u64);
    lemma_edge_value(LONGITUDE_MIN as int, 35, j, q as u64);
    lemma_edge_value(LONGITUDE_MIN as int, 35, j + 1, q as u64);
    lemma_edge_value(LATITUDE_MIN as int, 34, i, p as u64);
    lemma_edge_value(LATITUDE_MIN as int, 34, i + 1, p as u64);
    lemma_edge_value(LATITUDE_MIN as int, 34, j, q as u64);
    lemma_edge_value(LATITUDE_MIN as int, 34, j + 1, q as u64);
    lemma_pow2_strictly_increases((35 - q) as nat, (35 - p) as nat);
    lemma_pow2_strictly_increases((34 - q) as nat, (34 - p) as nat);
    let wp = 45 * pow2((35 - p) as nat);
    let wq = 45 * pow2((35 - q) as nat);
    let hp = 45 * pow2((34 - p) as nat);
    let hq = 45 * pow2((34 - q) as nat);
    assert((i + 1) * wp - i * wp == wp && (j + 1) * wq - j * wq == wq) by (nonlinear_arith);
    assert((i + 1) * hp - i * hp == hp && (j + 1) * hq - j * hq == hq) by (nonlinear_arith);
}

/// Digit `i` of a string of base-32 digits, read back from its value.
proof fn lemma_digit_of_value(s: Seq<char>, i: nat)
    requires
        all_base32(s),
        i < s.len(),
    ensures
        (digits_value(s) / pow2((5 * (s.len() - 1 - i)) as nat)) % 32 == base32_value_of(
            s[i as int],
        ).unwrap(),
    decreases s.len(),
{
    lemma_base32_inverse();
    lemma2_to64();
    let n = s.len();
    let t = s.drop_last();
    let d = base32_value_of(s.last()).unwrap();
    let v = digits_value(t);
    assert(base32_value_of(s[n - 1]) is Some);
    assert(digits_value(s) == v * 32 + d);
    assert(d < 32);
    if i == n - 1 {
        vstd::arithmetic::div_mod::lemma_fundamental_div_mod_converse(
            (v * 32 + d) as int,
            32,
            v as int,
            d as int,
        );
        assert(pow2((5 * (s.len() - 1 - i)) as nat) == 1);
        assert(digits_value(s) / 1 == digits_value(s));
        assert(s[i as int] == s.last());
    } else {
        assert(all_base32(t)) by {
            assert forall|j: int| 0 <= j < t.len() implies base32_value_of(#[trigger] t[j]) is Some by {
                assert(t[j] == s[j]);
            }
        }
        lemma_digit_of_value(t, i);
        assert(t[i as int] == s[i as int]);
        let m = (5 * (n - 2 - i)) as nat;
        lemma_pow2_adds(5, m);
        assert((5 * (n - 1 - i)) as nat == 5 + m);
        lemma_pow2_pos(m);
        vstd::arithmetic::div_mod::lemma_div_denominator((v * 32 + d) as int, 32, pow2(m) as int);
        vstd::arithmetic::div_mod::lemma_fundamental_div_mod_converse(
            (v * 32 + d) as int,
            32,
            v as int,
            d as int,
        );
        assert(t.len() == n - 1);
        assert(pow2((5 * (s.len() - 1 - i)) as nat) == 32 * pow2(m));
        assert((v * 32 + d) / 32 == v);
        assert(digits_value(s) / pow2((5 * (s.len() - 1 - i)) as nat) == v / pow2(m));
    }
}

/// Decoding a string of 1 to 12 base-32 characters and encoding the cell
/// gives the string back.
pub proof fn lemma_hash_round_trip(s: Seq<char>, c: GeohashBits)
    requires
        1 <= s.len() <= 12,
        all_base32(s),
        c.wf(),
        c.spec_precision() == Precision::Characters(s.len() as u8),
        c.spec_bits() == digits_value(s) * pow2((2 * c.spec_binary_precision() - 5 * s.len()) as nat),
    ensures
        c.spec_precision().spec_character_precision() == s.len(),
        forall|k: int|
            0 <= k < s.len() ==> base32_char_of(
                #[trigger] digit_at(c.spec_bits() as nat, 2 * c.spec_binary_precision(), k as nat),
            ) == s[k],
{
    lemma_base32_inverse();
    let n = s.len();
    let total = 2 * c.spec_binary_precision();
    let e = (total - 5 * n) as nat;
    assert forall|k: int| 0 <= k < s.len() implies base32_char_of(
        #[trigger] digit_at(c.spec_bits() as nat, total, k as nat),
    ) == s[k] by {
        let m = (5 * (n - 1 - k)) as nat;
        assert((total - 5 * (k + 1)) as nat == e + m);
        lemma_pow2_adds(e, m);
        lemma_pow2_pos(e);
        lemma_pow2_pos(m);
        let v = digits_value(s);
        vstd::arithmetic::div_mod::lemma_div_denominator(
            (v * pow2(e)) as int,
            pow2(e) as int,
            pow2(m) as int,
        );
        vstd::arithmetic::div_mod::lemma_div_multiples_vanish(v as int, pow2(e) as int);
        vstd::arithmetic::mul::lemma_mul_is_commutative(v as int, pow2(e) as int);
        lemma_digit_of_value(s, k as nat);
        assert(s[k] == s[k as nat as int]);
    }
}

/// Along one axis, the cell of an offset at `q` bits lies inside its cell
/// at `p` bits, for `p < q`.
proof fn lemma_axis_nest(offset: int, span_exp: u64, p: u64, q: u64)
    requires
        1 <= p < q <= 32,
        span_exp == 34 || span_exp == 35,
        0 <= offset <= 45 * pow2(span_exp as nat),
    ensures
        ({
            let span = (45 * pow2(span_exp as nat)) as int;
            let i = axis_index(offset, span, p as nat);
            let j = axis_index(offset, span, q as nat);
            let wp = 45 * pow2((span_exp - p) as nat);
            let wq = 45 * pow2((span_exp - q) as nat);
            &&& i * wp <= j * wq
            &&& (j + 1) * wq <= (i + 1) * wp
        }),
{
    let span = (45 * pow2(span_exp as nat)) as int;
    lemma_axis_contains(offset, span_exp, p);
    lemma_axis_contains(offset, span_exp, q);
    let i = axis_index(offset, span, p as nat) as int;
    let j = axis_index(offset, span, q as nat) as int;
    let d = (q - p) as nat;
    let f = pow2(d) as int;
    let pp = pow2(p as nat) as int;
    let pq = pow2(q as nat) as int;
    let wq = lemma_cell_width(span_exp, q) as int;
    let wp = lemma_cell_width(span_exp, p) as int;
    lemma_pow2_adds((span_exp - q) as nat, d);
    lemma_pow2_adds(p as nat, d);
    lemma_pow2_pos(d);
    assert(wp == wq * f) by {
        vstd::arithmetic::mul::lemma_mul_is_associative(45, pow2((span_exp - q) as nat) as int, f);
    }
    assert(pq == pp * f);
    assert(i * f <= j) by {
        if j + 1 < pq {
            assert(i * f < j + 1) by (nonlinear_arith)
                requires
                    i * (wq * f) <= offset,
                    offset < (j + 1) * wq,
                    wq > 0,
            ;
        } else {
            assert(i * f <= pq - f) by (nonlinear_arith)
                requires
                    0 <= i <= pp - 1,
                    f > 0,
                    pq == pp * f,
            ;
        }
    }
    assert(j + 1 <= (i + 1) * f) by {
        if i + 1 < pp {
            assert(j < (i + 1) * f) by (nonlinear_arith)
                requires
                    j * wq <= offset,
                    offset < (i + 1) * (wq * f),
                    wq > 0,
            ;
        } else {
            assert(j + 1 <= pq);
        }
    }
    assert(i * wp <= j * wq && (j + 1) * wq <= (i + 1) * wp) by (nonlinear_arith)
        requires
            wp == wq * f,
            i * f <= j,
            j + 1 <= (i + 1) * f,
            wq > 0,
    ;
}

/// The cell of a location at `q` bits per axis lies inside its cell at `p`
/// bits per axis, for `p < q`: the finer rectangle is nested in the coarser.
pub proof fn lemma_cells_nest(location: Location, p: u8, q: u8)
    requires
        location.valid(),
        1 <= p < q <= 32,
    ensures
        ({
            let c = GeohashBits::spec_from_location(location, Precision::Bits(p));
            let d = GeohashBits::spec_from_location(location, Precision::Bits(q));
            &&& cell_edge(LONGITUDE_MIN as int, longitude_span(), c.lon_bits(), p as nat)
                <= cell_edge(LONGITUDE_MIN as int, longitude_span(), d.lon_bits(), q as nat)
            &&& cell_edge(LONGITUDE_MIN as int, longitude_span(), d.lon_bits() + 1, q as nat)
                <= cell_edge(LONGITUDE_MIN as int, longitude_span(), c.lon_bits() + 1, p as nat)
            &&& cell_edge(LATITUDE_MIN as int, latitude_span(), c.lat_index(), p as nat)
                <= cell_edge(LATITUDE_MIN as int, latitude_span(), d.lat_index(), q as nat)
            &&& cell_edge(LATITUDE_MIN as int, latitude_span(), d.lat_index() + 1, q as nat)
                <= cell_edge(LATITUDE_MIN as int, latitude_span(), c.lat_index() + 1, p as nat)
        }),
{
    lemma2_to64();
    lemma2_to64_rest();
    let a = location.longitude - LONGITUDE_MIN;
    let b = location.latitude - LATITUDE_MIN;
    let (p64, q64) = (p as u64, q as u64);
    lemma_axis_contains(a, 35, p64);
    lemma_axis_contains(b, 34, p64);
    lemma_axis_contains(a, 35, q64);
    lemma_axis_contains(b, 34, q64);
    let ci = axis_index(a, longitude_span(), p as nat);
    let cj = axis_index(b, latitude_span(), p as nat);
    let di = axis_index(a, longitude_span(), q as nat);
    let dj = axis_index(b, latitude_span(), q as nat);
    GeohashBits::lemma_from_fields(Precision::Bits(p), cj, ci);
    GeohashBits::lemma_from_fields(Precision::Bits(q), dj, di);
    lemma_axis_nest(a, 35, p64, q64);
    lemma_axis_nest(b, 34, p64, q64);
    lemma_edge_value(LONGITUDE_MIN as int, 35, ci, p64);
    lemma_edge_value(LONGITUDE_MIN as int, 35, ci + 1, p64);
    lemma_edge_value(LONGITUDE_MIN as int, 35, di, q64);
    lemma_edge_value(LONGITUDE_MIN as int, 35, di + 1, q64);
    lemma_edge_value(LATITUDE_MIN as int, 34, cj, p64);
    lemma_edge_value(LATITUDE_MIN as int, 34, cj + 1, p64);
    lemma_edge_value(LATITUDE_MIN as int, 34, dj, q64);
    lemma_edge_value(LATITUDE_MIN as int, 34, dj + 1, q64);
}

} // verus!
