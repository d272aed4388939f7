use vstd::prelude::*;

use crate::num::{abs_i64, unsigned_abs};

verus! {

/// Identity commitment of a frame, an element of Z_4.
#[derive(Debug, Clone, Copy, PartialEq, Eq, Structural)]
pub enum Chirality {
    C0,
    C1,
    C2,
    C3,
}

/// The element of Z_4 a chirality stands for.
pub open spec fn chirality_value(c: Chirality) -> u8 {
    match c {
        Chirality::C0 => 0,
        Chirality::C1 => 1,
        Chirality::C2 => 2,
        Chirality::C3 => 3,
    }
}

/// Integer division rounded toward zero, as Rust divides signed integers (`/` on `int`
/// rounds down for a positive divisor and up for a negative one).
pub open spec fn div_toward_zero(a: int, b: int) -> int
    recommends
        b != 0,
{
    if a >= 0 {
        a / b
    } else {
        -((-a) / b)
    }
}

/// Offset of a frame after `delta` nanoseconds: `drift_ppb * delta / 10^9` added to the
/// offset, the quotient rounded toward zero.
pub open spec fn predicted_offset(offset: i64, drift_ppb: i64, delta: i64) -> int {
    offset + div_toward_zero(drift_ppb * delta, 1_000_000_000)
}

impl Chirality {
    /// The chirality committed by an identity hash: its first byte modulo 4.
    pub fn from_identity_hash(hash: &[u8; 32]) -> (c: Self)
        ensures
            chirality_value(c) == hash[0] % 4,
    {
        let b = hash[0];
        let v = b & 0x03;
        assert(b & 0x03 == b % 4) by (bit_vector);
        if v == 0 {
            Chirality::C0
        } else if v == 1 {
            Chirality::C1
        } else if v == 2 {
            Chirality::C2
        } else {
            Chirality::C3
        }
    }

    /// Projection through a zero screen: Z_4 to Z_2.
    pub fn project_once(self) -> (p: u8)
        ensures
            p == chirality_value(self) % 2,
    {
        match self {
            Chirality::C0 => 0,
            Chirality::C1 => 1,
            Chirality::C2 => 0,
            Chirality::C3 => 1,
        }
    }

    /// Two projections: Z_4 to Z_2 to the trivial group; nothing of the identity is left.
    pub fn project_twice(self) -> (p: u8)
        ensures
            p == 0,
    {
        let _ = self.project_once();
        0
    }
}

/// Integer-basis state of a clock node: offset, drift and confidence, with the identity
/// commitment.
#[derive(Debug, Clone)]
pub struct ChiralFrame {
    pub offset_nanos: i64,
    pub drift_ppb: i64,
    pub confidence: u32,
    pub chirality: Chirality,
}

/// Difference between two frames.
#[derive(Debug, Clone)]
pub struct TwistValue {
    pub offset_diff_nanos: i64,
    pub drift_diff_ppb: i64,
}

impl ChiralFrame {
    /// A frame with chirality `C0`.
    pub fn new(offset_nanos: i64, drift_ppb: i64, confidence: u32) -> (f: Self)
        ensures
            f.offset_nanos == offset_nanos,
            f.drift_ppb == drift_ppb,
            f.confidence == confidence,
            f.chirality == Chirality::C0,
    {
        ChiralFrame { offset_nanos, drift_ppb, confidence, chirality: Chirality::C0 }
    }

    /// The same frame with another chirality.
    pub fn with_chirality(self, chirality: Chirality) -> (f: Self)
        ensures
            f.offset_nanos == self.offset_nanos,
            f.drift_ppb == self.drift_ppb,
            f.confidence == self.confidence,
            f.chirality == chirality,
    {
        let mut f = self;
        f.chirality = chirality;
        f
    }

    /// The offset predicted `delta_nanos` later, in integer arithmetic.
    pub fn predict_offset(&self, delta_nanos: i64) -> (p: i64)
        requires
            i64::MIN <= self.drift_ppb * delta_nanos <= i64::MAX,
            i64::MIN <= predicted_offset(self.offset_nanos, self.drift_ppb, delta_nanos) <= i64::MAX,
        ensures
            p == predicted_offset(self.offset_nanos, self.drift_ppb, delta_nanos),
    {
        let prod = self.drift_ppb * delta_nanos;
        let q: i64 = prod / 1_000_000_000;
        self.offset_nanos + q
    }

    /// Offset and drift of `self` relative to `other`.
    pub fn twist(&self, other: &ChiralFrame) -> (t: TwistValue)
        requires
            i64::MIN <= self.offset_nanos - other.offset_nanos <= i64::MAX,
            i64::MIN <= self.drift_ppb - other.drift_ppb <= i64::MAX,
        ensures
            t.offset_diff_nanos == self.offset_nanos - other.offset_nanos,
            t.drift_diff_ppb == self.drift_ppb - other.drift_ppb,
    {
        TwistValue {
            offset_diff_nanos: self.offset_nanos - other.offset_nanos,
            drift_diff_ppb: self.drift_ppb - other.drift_ppb,
        }
    }
}

impl TwistValue {
    /// Size of the offset difference.
    pub fn magnitude_nanos(&self) -> (m: u64)
        ensures
            m == abs_i64(self.offset_diff_nanos),
    {
        unsigned_abs(self.offset_diff_nanos)
    }

    /// Whether the offset difference is explained by the round trip: an asymmetric path
    /// accounts for up to half the round trip, plus `tolerance_nanos`.
    pub fn is_consistent(&self, measured_rtt_nanos: u64, tolerance_nanos: u64) -> (ok: bool)
        requires
            measured_rtt_nanos / 2 + tolerance_nanos <= u64::MAX,
        ensures
            ok == (abs_i64(self.offset_diff_nanos) <= measured_rtt_nanos / 2 + tolerance_nanos),
    {
        let max_offset_error = measured_rtt_nanos / 2 + tolerance_nanos;
        unsigned_abs(self.offset_diff_nanos) <= max_offset_error
    }
}

} // verus!
