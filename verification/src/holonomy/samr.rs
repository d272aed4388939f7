use vstd::prelude::*;

use crate::num::{abs_i64, unsigned_abs};
use vstd::arithmetic::div_mod::{
    lemma_add_mod_noop, lemma_fundamental_div_mod, lemma_mod_bound, lemma_fundamental_div_mod_converse,
    lemma_mod_mod, lemma_mod_multiples_basic, lemma_mod_pos_bound, lemma_mul_mod_noop,
    lemma_mul_mod_noop_left, lemma_mul_mod_noop_right,
};

verus! {

/// `y` is the inverse of `a` modulo `m`: it lies in `[0, m)` and `a * y` leaves
/// remainder `1 % m` (for `m == 1` every product leaves `0`, so `0` is the inverse).
pub open spec fn is_mod_inverse(a: int, m: int, y: int) -> bool {
    0 <= y < m && (a * y) % m == 1int % m
}

/// `x` is a multiple of `d`.
pub open spec fn divides(d: int, x: int) -> bool {
    d != 0 && x % d == 0
}

proof fn lemma_divides_combination(d: int, x: int, y: int, q: int)
    requires
        d > 0,
        divides(d, x),
        divides(d, y),
    ensures
        divides(d, x + q * y),
{
    lemma_fundamental_div_mod(x, d);
    lemma_fundamental_div_mod(y, d);
    let kx = x / d;
    let ky = y / d;
    assert(x + q * y == (kx + q * ky) * d + 0) by (nonlinear_arith)
        requires
            x == d * kx + 0,
            y == d * ky + 0,
    ;
    lemma_fundamental_div_mod_converse(x + q * y, d, kx + q * ky, 0);
}

/// A common divisor `g >= 2` of `a` and `m` rules out any inverse of `a` modulo `m`.
proof fn lemma_no_inverse_with_common_divisor(a: int, m: int, g: int, y: int)
    requires
        m >= 2,
        g >= 2,
        divides(g, a),
        divides(g, m),
    ensures
        !is_mod_inverse(a, m, y),
{
    if is_mod_inverse(a, m, y) {
        lemma_fundamental_div_mod(a * y, m);
        lemma_fundamental_div_mod(a, g);
        lemma_fundamental_div_mod(m, g);
        let k = (a * y) / m;
        let ag = a / g;
        let mg = m / g;
        lemma_fundamental_div_mod_converse(1, m, 0, 1);
        assert(a * y == m * k + 1);
        assert(g * (ag * y - mg * k) == 1) by (nonlinear_arith)
            requires
                a * y == m * k + 1,
                a == g * ag + 0,
                m == g * mg + 0,
        ;
        assert(false) by (nonlinear_arith)
            requires
                g * (ag * y - mg * k) == 1,
                g >= 2,
        ;
    }
}

/// The inverse modulo `m`, when there is one, is unique.
pub proof fn lemma_mod_inverse_unique(a: int, m: int, y1: int, y2: int)
    requires
        m > 0,
        is_mod_inverse(a, m, y1),
        is_mod_inverse(a, m, y2),
    ensures
        y1 == y2,
{
    if m == 1 {
    } else {
        lemma_fundamental_div_mod(a * y1, m);
        lemma_fundamental_div_mod(a * y2, m);
        let k1 = (a * y1) / m;
        let k2 = (a * y2) / m;
        lemma_fundamental_div_mod_converse(1, m, 0, 1);
        assert(y1 - y2 == m * (k1 * y2 - k2 * y1)) by (nonlinear_arith)
            requires
                a * y1 == m * k1 + 1,
                a * y2 == m * k2 + 1,
        ;
        let c = k1 * y2 - k2 * y1;
        assert(c == 0) by (nonlinear_arith)
            requires
                y1 - y2 == m * c,
                0 <= y1 < m,
                0 <= y2 < m,
                m > 1,
        ;
    }
}

/// Extended Euclid: the inverse of `a` modulo `m`, or `None` when `a` has none.
fn mod_inverse(a: u64, m: u64) -> (res: Option<u64>)
    requires
        m > 0,
    ensures
        res matches Some(y) ==> is_mod_inverse(a as int, m as int, y as int),
        res is None ==> forall|y: int| !is_mod_inverse(a as int, m as int, y),
{
    if m == 1 {
        return Some(0);
    }
    let ghost ai = a as int;
    let ghost mi = m as int;
    let mut old_r: i128 = a as i128;
    let mut r: i128 = m as i128;
    let mut old_s: i128 = 1;
    let mut s: i128 = 0;
    let ghost mut old_t: int = 0;
    let ghost mut t: int = 1;
    while r != 0
        invariant
            mi == m as int,
            ai == a as int,
            mi >= 2,
            0 <= old_r <= u64::MAX,
            0 <= r <= u64::MAX,
            old_r > 0 || r > 0,
            old_r == old_s * ai + old_t * mi,
            r == s * ai + t * mi,
            old_s * s <= 0,
            -mi <= old_s <= mi,
            -mi <= s <= mi,
            (if old_s < 0 { -old_s } else { old_s as int }) * r + (if s < 0 { -s } else { s as int }) * old_r == mi,
            forall|d: int| d > 0 && #[trigger] divides(d, old_r as int) && divides(d, r as int)
                ==> divides(d, ai) && divides(d, mi),
        decreases r,
    {
        let q: i128 = old_r / r;
        proof {
            lemma_fundamental_div_mod(old_r as int, r as int);
            lemma_mod_pos_bound(old_r as int, r as int);
        }
        let ghost os = old_s as int;
        let ghost ss = s as int;
        let ghost abs_os: int = if os < 0 { -os } else { os };
        let ghost abs_s: int = if ss < 0 { -ss } else { ss };
        let ghost new_s: int = os - q * ss;
        let ghost rem: int = old_r - q * r;
        assert(q == old_r / r);
        assert(old_r == r * q + old_r % r);
        assert(0 <= old_r % r < r);
        assert(r * q == q * r) by (nonlinear_arith);
        assert(0 <= rem < r);
        assert(0 <= q);
        assert(q * ss * ss >= 0) by (nonlinear_arith)
            requires q >= 0;
        assert(ss * new_s <= 0) by (nonlinear_arith)
            requires
                os * ss <= 0,
                q * ss * ss >= 0,
                new_s == os - q * ss,
        ;
        let ghost abs_new: int = if new_s < 0 { -new_s } else { new_s };
        assert(abs_new == abs_os + q * abs_s) by (nonlinear_arith)
            requires
                os * ss <= 0,
                q >= 0,
                new_s == os - q * ss,
                abs_os == if os < 0 { -os } else { os },
                abs_s == if ss < 0 { -ss } else { ss },
                abs_new == if new_s < 0 { -new_s } else { new_s },
        ;
        assert(abs_s * rem + abs_new * r == mi) by (nonlinear_arith)
            requires
                abs_os * r + abs_s * old_r == mi,
                abs_new == abs_os + q * abs_s,
                rem == old_r - q * r,
        ;
        assert(abs_new <= mi) by (nonlinear_arith)
            requires
                abs_s * rem + abs_new * r == mi,
                abs_s >= 0,
                rem >= 0,
                r >= 1,
                abs_new >= 0,
        ;
        assert(q * abs_s <= mi) by (nonlinear_arith)
            requires
                abs_new == abs_os + q * abs_s,
                abs_os >= 0,
                abs_new <= mi,
        ;
        assert(-mi <= q * ss <= mi) by (nonlinear_arith)
            requires
                q * abs_s <= mi,
                q >= 0,
                abs_s == if ss < 0 { -ss } else { ss },
        ;
        assert(q * r <= old_r) by (nonlinear_arith)
            requires
                rem == old_r - q * r,
                rem >= 0,
        ;
        let temp_r = r;
        r = old_r - q * r;
        old_r = temp_r;
        let temp_s = s;
        s = old_s - q * s;
        old_s = temp_s;
        proof {
            let new_t = old_t - q * t;
            assert(r == s * ai + new_t * mi) by (nonlinear_arith)
                requires
                    old_r == ss * ai + t * mi,
                    rem == os * ai + old_t * mi - q * (ss * ai + t * mi),
                    r == rem,
                    s == os - q * ss,
                    new_t == old_t - q * t,
            ;
            old_t = t;
            t = new_t;
            assert forall|d: int| d > 0 && #[trigger] divides(d, old_r as int) && divides(d, r as int)
                implies divides(d, ai) && divides(d, mi) by {
                lemma_divides_combination(d, r as int, old_r as int, q as int);
                assert(r + q * old_r == temp_r + 0 - temp_r + (rem + q * old_r));
            }
        }
    }
    if old_r != 1 {
        proof {
            assert(old_r > 0);
            assert(divides(old_r as int, old_r as int)) by {
                lemma_fundamental_div_mod_converse(old_r as int, old_r as int, 1, 0);
            }
            assert(divides(old_r as int, 0)) by {
                lemma_fundamental_div_mod_converse(0, old_r as int, 0, 0);
            }
            assert(divides(old_r as int, r as int));
            assert(old_r > 0 && divides(old_r as int, old_r as int) && divides(old_r as int, r as int));
            assert(divides(old_r as int, ai) && divides(old_r as int, mi));
            if old_r == 0 {
                assert(false);
            }
            assert forall|y: int| !is_mod_inverse(ai, mi, y) by {
                lemma_no_inverse_with_common_divisor(ai, mi, old_r as int, y);
            }
        }
        return None;
    }
    let mw: i128 = m as i128;
    let y: i128 = if old_s < 0 {
        old_s + mw
    } else if old_s == mw {
        0
    } else {
        old_s
    };
    proof {
        let k: int = (y - old_s) / mi;
        assert(y == old_s + k * mi) by {
            if old_s < 0 {
                assert(y - old_s == mi);
                lemma_fundamental_div_mod_converse(y - old_s, mi, 1, 0);
            } else if old_s == mw {
                assert(y - old_s == -mi);
                lemma_fundamental_div_mod_converse(y - old_s, mi, -1, 0);
            } else {
                lemma_fundamental_div_mod_converse(y - old_s, mi, 0, 0);
            }
        }
        assert(ai * y == 1 + (ai * k - old_t) * mi) by (nonlinear_arith)
            requires
                1 == old_s * ai + old_t * mi,
                y == old_s + k * mi,
        ;
        lemma_fundamental_div_mod_converse(ai * y, mi, ai * k - old_t, 1);
        lemma_fundamental_div_mod_converse(1, mi, 0, 1);
        assert(0 <= y < mi);
    }
    Some(y as u64)
}


/// One prime channel of the scheduler: a residue `value` modulo `prime` and the
/// defect left in that dimension of the clock state.
#[derive(Debug, Clone, Copy, PartialEq, Eq, Structural)]
pub struct PrimeChannel {
    pub prime: u32,
    pub value: u32,
    pub defect: u64,
}

/// A channel with residue 0 and the largest defect.
pub open spec fn fresh_channel(prime: u32) -> PrimeChannel {
    PrimeChannel { prime, value: 0, defect: u64::MAX }
}

impl PrimeChannel {
    /// A fresh channel: residue 0 and the largest defect.
    pub fn new(prime: u32) -> (ch: Self)
        ensures
            ch == fresh_channel(prime),
    {
        PrimeChannel { prime, value: 0, defect: u64::MAX }
    }

    /// Record a refined residue. The residue must lie below the prime.
    pub fn set(&mut self, value: u32, defect: u64)
        requires
            value < old(self).prime,
        ensures
            *final(self) == (PrimeChannel { prime: old(self).prime, value, defect }),
    {
        self.value = value;
        self.defect = defect;
    }
}

/// Structured adaptive multi-resolution state: independent prime channels
/// combined through the Chinese remainder theorem.
#[derive(Debug, Clone)]
pub struct SAMRState {
    pub channels: Vec<PrimeChannel>,
}

/// Product of the channel primes.
pub open spec fn prime_product(chs: Seq<PrimeChannel>) -> nat
    decreases chs.len(),
{
    if chs.len() == 0 {
        1
    } else {
        prime_product(chs.drop_last()) * (chs.last().prime as nat)
    }
}

/// Every running product of the primes, first to last, fits in a `u64`.
pub open spec fn product_fits(chs: Seq<PrimeChannel>) -> bool {
    forall|k: int| 0 <= k <= chs.len() ==> #[trigger] prime_product(chs.take(k)) <= u64::MAX
}

/// `a` has an inverse modulo `m`.
pub open spec fn invertible(a: int, m: int) -> bool {
    exists|y: int| is_mod_inverse(a, m, y)
}

/// The inverse of `a` modulo `m`, or 0 when there is none.
pub open spec fn inverse_or_zero(a: int, m: int) -> int {
    if invertible(a, m) {
        choose|y: int| is_mod_inverse(a, m, y)
    } else {
        0
    }
}

/// The CRT summand of channel `i`: `value_i * N_i * inv(N_i mod p_i)` with `N_i = n / p_i`.
pub open spec fn crt_term(chs: Seq<PrimeChannel>, n: int, i: int) -> int {
    let p = chs[i].prime as int;
    (chs[i].value as int) * (n / p) * inverse_or_zero(n / p, p)
}

/// Sum of the first `k` CRT summands.
pub open spec fn crt_partial(chs: Seq<PrimeChannel>, n: int, k: int) -> int
    decreases k,
{
    if k <= 0 {
        0
    } else {
        crt_partial(chs, n, k - 1) + crt_term(chs, n, k - 1)
    }
}

/// The combined CRT code of the channels.
pub open spec fn crt_value(chs: Seq<PrimeChannel>) -> int {
    let n = prime_product(chs) as int;
    crt_partial(chs, n, chs.len() as int) % n
}

/// The CRT combination can be computed in `u64` without overflow and without a zero prime.
pub open spec fn crt_fits(chs: Seq<PrimeChannel>) -> bool {
    let n = prime_product(chs) as int;
    &&& product_fits(chs)
    &&& forall|i: int| 0 <= i < chs.len() ==> #[trigger] chs[i].prime > 0
    &&& forall|i: int|
        0 <= i < chs.len() ==> (#[trigger] chs[i].value as int) * (n / (chs[i].prime as int))
            <= u64::MAX
    &&& forall|k: int| 0 <= k <= chs.len() ==> #[trigger] crt_partial(chs, n, k) <= u64::MAX
}

/// Any two distinct channels have primes that are invertible modulo each other
/// (pairwise coprime primes).
pub open spec fn pairwise_invertible(chs: Seq<PrimeChannel>) -> bool {
    forall|i: int, j: int|
        0 <= i < chs.len() && 0 <= j < chs.len() && i != j ==> invertible(
            #[trigger] chs[j].prime as int,
            #[trigger] chs[i].prime as int,
        )
}

/// Network tier for a round-trip time: fast (< 10 ms), medium (< 100 ms), slow.
pub open spec fn tier_of(rtt_nanos: u64) -> u32 {
    if rtt_nanos < 10_000_000 {
        0
    } else if rtt_nanos < 100_000_000 {
        1
    } else {
        2
    }
}

/// Offset precision level for an uncertainty: sub-ms, 1-5 ms, 5-20 ms, 20-100 ms, more.
pub open spec fn precision_level_of(uncertainty_nanos: u64) -> u32 {
    if uncertainty_nanos < 1_000_000 {
        0
    } else if uncertainty_nanos < 5_000_000 {
        1
    } else if uncertainty_nanos < 20_000_000 {
        2
    } else if uncertainty_nanos < 100_000_000 {
        3
    } else {
        4
    }
}

/// Drift category: 3 is centered (< 10 ppb); 4, 5, 6 are slight, moderate and severe fast
/// drift; 2, 1, 0 the same for slow drift (thresholds 100 and 1000 ppb).
pub open spec fn drift_category_of(drift_ppb: i64) -> u32 {
    let a = abs_i64(drift_ppb);
    if a < 10 {
        3
    } else if drift_ppb > 0 {
        if a < 100 {
            4
        } else if a < 1000 {
            5
        } else {
            6
        }
    } else if a < 100 {
        2
    } else if a < 1000 {
        1
    } else {
        0
    }
}

impl SAMRState {
    /// The clock scheduler: reachability (2), network tier (3), offset
    /// precision (5) and drift category (7).
    pub fn clock_default() -> (st: Self)
        ensures
            st.channels@ == seq![
                fresh_channel(2),
                fresh_channel(3),
                fresh_channel(5),
                fresh_channel(7),
            ],
    {
        let mut channels: Vec<PrimeChannel> = Vec::new();
        channels.push(PrimeChannel::new(2));
        channels.push(PrimeChannel::new(3));
        channels.push(PrimeChannel::new(5));
        channels.push(PrimeChannel::new(7));
        SAMRState { channels }
    }

    /// Total resolution: the product of the channel primes.
    pub fn total_resolution(&self) -> (n: u64)
        requires
            product_fits(self.channels@),
        ensures
            n == prime_product(self.channels@),
    {
        let ghost chs = self.channels@;
        let len = self.channels.len();
        let mut prod: u64 = 1;
        let mut i: usize = 0;
        assert(chs.take(0) =~= Seq::<PrimeChannel>::empty());
        while i < len
            invariant
                chs == self.channels@,
                len == chs.len(),
                i <= len,
                product_fits(chs),
                prod == prime_product(chs.take(i as int)),
            decreases len - i,
        {
            assert(chs.take(i + 1).drop_last() =~= chs.take(i as int));
            assert(prime_product(chs.take(i + 1)) <= u64::MAX);
            prod = prod * (self.channels[i].prime as u64);
            i = i + 1;
        }
        assert(chs.take(len as int) =~= chs);
        prod
    }

    /// CRT decode: the single integer in `[0, total_resolution)` that combines the
    /// channel residues.
    pub fn crt_decode(&self) -> (code: u64)
        requires
            crt_fits(self.channels@),
        ensures
            code == crt_value(self.channels@),
    {
        let ghost chs = self.channels@;
        let n = self.total_resolution();
        let ghost ni_ = n as int;
        proof {
            lemma_product_positive(chs);
        }
        let len = self.channels.len();
        let mut result: u64 = 0;
        let mut i: usize = 0;
        while i < len
            invariant
                chs == self.channels@,
                len == chs.len(),
                i <= len,
                crt_fits(chs),
                n as int == prime_product(chs),
                n > 0,
                result == crt_partial(chs, n as int, i as int),
            decreases len - i,
        {
            let ch = self.channels[i];
            assert(chs[i as int].prime > 0);
            let ni = n / (ch.prime as u64);
            let yi = match mod_inverse(ni, ch.prime as u64) {
                Some(y) => y,
                None => 0,
            };
            proof {
                let p = ch.prime as int;
                if invertible(ni as int, p) {
                    let c = choose|y: int| is_mod_inverse(ni as int, p, y);
                    lemma_mod_inverse_unique(ni as int, p, yi as int, c);
                }
                assert(yi == inverse_or_zero(ni as int, p));
                assert(crt_partial(chs, n as int, i + 1) <= u64::MAX);
                assert(crt_partial(chs, n as int, i as int) <= u64::MAX);
                assert((ch.value as int) * (ni as int) <= u64::MAX);
                assert(crt_term(chs, n as int, i as int) == (ch.value as int) * (ni as int) * (yi as int));
                assert((ch.value as int) * (ni as int) * (yi as int) >= 0) by (nonlinear_arith)
                    requires ch.value >= 0, ni >= 0, yi >= 0;
            }
            result = result + (ch.value as u64) * ni * yi;
            i = i + 1;
        }
        result % n
    }

    /// Whether `crt_decode` can combine the channels within 64 bits (its precondition):
    /// no zero prime, every running product of the primes, every scaled residue and
    /// every running sum of the combination fit.
    pub fn crt_fits_exec(&self) -> (ok: bool)
        ensures
            ok == crt_fits(self.channels@),
    {
        let ghost chs = self.channels@;
        let len = self.channels.len();
        let mut i: usize = 0;
        while i < len
            invariant
                chs == self.channels@,
                len == chs.len(),
                i <= len,
                forall|j: int| 0 <= j < i ==> #[trigger] chs[j].prime > 0,
            decreases len - i,
        {
            if self.channels[i].prime == 0 {
                return false;
            }
            i = i + 1;
        }
        let mut prod: u64 = 1;
        let mut k: usize = 0;
        assert(chs.take(0) =~= Seq::<PrimeChannel>::empty());
        while k < len
            invariant
                chs == self.channels@,
                len == chs.len(),
                k <= len,
                forall|j: int| 0 <= j < len ==> #[trigger] chs[j].prime > 0,
                prod == prime_product(chs.take(k as int)),
                forall|j: int| 0 <= j <= k ==> #[trigger] prime_product(chs.take(j)) <= u64::MAX,
            decreases len - k,
        {
            assert(chs.take(k + 1).drop_last() =~= chs.take(k as int));
            match prod.checked_mul(self.channels[k].prime as u64) {
                Some(v) => {
                    prod = v;
                },
                None => {
                    assert(prime_product(chs.take(k + 1)) > u64::MAX);
                    return false;
                },
            }
            k = k + 1;
        }
        assert(chs.take(len as int) =~= chs);
        let n = prod;
        proof {
            lemma_product_positive(chs);
        }
        let mut result: u64 = 0;
        let mut m: usize = 0;
        while m < len
            invariant
                chs == self.channels@,
                len == chs.len(),
                m <= len,
                forall|j: int| 0 <= j < len ==> #[trigger] chs[j].prime > 0,
                product_fits(chs),
                n as int == prime_product(chs),
                n > 0,
                result == crt_partial(chs, n as int, m as int),
                forall|j: int| 0 <= j < m ==> (#[trigger] chs[j].value as int) * ((n as int) / (chs[j].prime as int))
                    <= u64::MAX,
                forall|j: int| 0 <= j <= m ==> #[trigger] crt_partial(chs, n as int, j) <= u64::MAX,
            decreases len - m,
        {
            let ch = self.channels[m];
            assert(chs[m as int].prime > 0);
            let ni = n / (ch.prime as u64);
            let vn = match (ch.value as u64).checked_mul(ni) {
                Some(v) => v,
                None => {
                    assert(!((chs[m as int].value as int) * ((n as int) / (chs[m as int].prime as int)) <= u64::MAX));
                    return false;
                },
            };
            let yi = match mod_inverse(ni, ch.prime as u64) {
                Some(y) => y,
                None => 0,
            };
            proof {
                let p = ch.prime as int;
                if invertible(ni as int, p) {
                    let c = choose|y: int| is_mod_inverse(ni as int, p, y);
                    lemma_mod_inverse_unique(ni as int, p, yi as int, c);
                }
                assert(yi == inverse_or_zero(ni as int, p));
                assert(crt_term(chs, n as int, m as int) == (vn as int) * (yi as int));
                assert(crt_partial(chs, n as int, m + 1) == crt_partial(chs, n as int, m as int) + crt_term(
                    chs,
                    n as int,
                    m as int,
                ));
            }
            let term = match vn.checked_mul(yi) {
                Some(v) => v,
                None => {
                    assert(crt_partial(chs, n as int, m + 1) > u64::MAX);
                    return false;
                },
            };
            match result.checked_add(term) {
                Some(v) => {
                    result = v;
                },
                None => {
                    assert(crt_partial(chs, n as int, m + 1) > u64::MAX);
                    return false;
                },
            }
            m = m + 1;
        }
        true
    }

    /// The channel with the highest defect, which is refined next; on ties the
    /// last such channel. `None` when there are no channels.
    pub fn next_channel_to_refine(&self) -> (r: Option<usize>)
        ensures
            r is None <==> self.channels@.len() == 0,
            r matches Some(i) ==> {
                &&& i < self.channels@.len()
                &&& forall|j: int| 0 <= j < self.channels@.len()
                    ==> #[trigger] self.channels@[j].defect <= self.channels@[i as int].defect
                &&& forall|j: int| i < j < self.channels@.len()
                    ==> #[trigger] self.channels@[j].defect < self.channels@[i as int].defect
            },
    {
        let len = self.channels.len();
        if len == 0 {
            return None;
        }
        let mut best: usize = 0;
        let mut i: usize = 1;
        while i < len
            invariant
                len == self.channels@.len(),
                1 <= i <= len,
                best < i,
                forall|j: int| 0 <= j < i ==> #[trigger] self.channels@[j].defect <= self.channels@[best as int].defect,
                forall|j: int| best < j < i ==> #[trigger] self.channels@[j].defect < self.channels@[best as int].defect,
            decreases len - i,
        {
            if self.channels[i].defect >= self.channels[best].defect {
                best = i;
            }
            i = i + 1;
        }
        Some(best)
    }

    /// Channel 0 (p = 2): 1 when the node is reachable, else 0; defect 0.
    pub fn classify_reachability(&mut self, reachable: bool)
        requires
            old(self).channels@.len() > 0,
            old(self).channels@[0].prime > (if reachable { 1u32 } else { 0u32 }),
        ensures
            final(self).channels@ == old(self).channels@.update(
                0,
                PrimeChannel {
                    prime: old(self).channels@[0].prime,
                    value: if reachable { 1 } else { 0 },
                    defect: 0,
                },
            ),
    {
        let mut ch = self.channels[0];
        ch.set(if reachable { 1 } else { 0 }, 0);
        self.channels.set(0, ch);
    }

    /// Channel 1 (p = 3): network tier of the round-trip time; defect 0.
    pub fn classify_tier(&mut self, rtt_nanos: u64)
        requires
            old(self).channels@.len() > 1,
            old(self).channels@[1].prime > tier_of(rtt_nanos),
        ensures
            final(self).channels@ == old(self).channels@.update(
                1,
                PrimeChannel {
                    prime: old(self).channels@[1].prime,
                    value: tier_of(rtt_nanos),
                    defect: 0,
                },
            ),
    {
        let tier: u32 = if rtt_nanos < 10_000_000 {
            0
        } else if rtt_nanos < 100_000_000 {
            1
        } else {
            2
        };
        let mut ch = self.channels[1];
        ch.set(tier, 0);
        self.channels.set(1, ch);
    }

    /// Channel 2 (p = 5): precision level of the offset uncertainty; the
    /// uncertainty is the defect.
    pub fn classify_offset(&mut self, offset_nanos: i64, uncertainty_nanos: u64)
        requires
            old(self).channels@.len() > 2,
            old(self).channels@[2].prime > precision_level_of(uncertainty_nanos),
        ensures
            final(self).channels@ == old(self).channels@.update(
                2,
                PrimeChannel {
                    prime: old(self).channels@[2].prime,
                    value: precision_level_of(uncertainty_nanos),
                    defect: uncertainty_nanos,
                },
            ),
    {
        let level: u32 = if uncertainty_nanos < 1_000_000 {
            0
        } else if uncertainty_nanos < 5_000_000 {
            1
        } else if uncertainty_nanos < 20_000_000 {
            2
        } else if uncertainty_nanos < 100_000_000 {
            3
        } else {
            4
        };
        let _ = offset_nanos;
        let mut ch = self.channels[2];
        ch.set(level, uncertainty_nanos);
        self.channels.set(2, ch);
    }

    /// Channel 3 (p = 7): drift category; the absolute drift is the defect.
    pub fn classify_drift(&mut self, drift_ppb: i64)
        requires
            old(self).channels@.len() > 3,
            old(self).channels@[3].prime > drift_category_of(drift_ppb),
        ensures
            final(self).channels@ == old(self).channels@.update(
                3,
                PrimeChannel {
                    prime: old(self).channels@[3].prime,
                    value: drift_category_of(drift_ppb),
                    defect: abs_i64(drift_ppb),
                },
            ),
    {
        let abs_drift = unsigned_abs(drift_ppb);
        let category: u32 = if abs_drift < 10 {
            3
        } else if drift_ppb > 0 {
            if abs_drift < 100 {
                4
            } else if abs_drift < 1000 {
                5
            } else {
                6
            }
        } else if abs_drift < 100 {
            2
        } else if abs_drift < 1000 {
            1
        } else {
            0
        };
        let mut ch = self.channels[3];
        ch.set(category, abs_drift);
        self.channels.set(3, ch);
    }
}

proof fn lemma_product_positive(chs: Seq<PrimeChannel>)
    requires
        forall|i: int| 0 <= i < chs.len() ==> #[trigger] chs[i].prime > 0,
    ensures
        prime_product(chs) > 0,
    decreases chs.len(),
{
    if chs.len() > 0 {
        lemma_product_positive(chs.drop_last());
        let a = prime_product(chs.drop_last());
        let b = chs.last().prime as nat;
        assert(a * b > 0) by (nonlinear_arith)
            requires a > 0, b > 0;
    }
}


proof fn lemma_product_remove(chs: Seq<PrimeChannel>, i: int)
    requires
        0 <= i < chs.len(),
    ensures
        prime_product(chs) == (chs[i].prime as nat) * prime_product(chs.remove(i)),
    decreases chs.len(),
{
    let p = chs[i].prime as nat;
    if i == chs.len() - 1 {
        assert(chs.remove(i) =~= chs.drop_last());
        let a = prime_product(chs.drop_last());
        assert(a * p == p * a) by (nonlinear_arith);
    } else {
        let d = chs.drop_last();
        lemma_product_remove(d, i);
        assert(chs.remove(i).drop_last() =~= d.remove(i));
        assert(chs.remove(i).last() == chs.last());
        let rest = prime_product(d.remove(i));
        let last = chs.last().prime as nat;
        assert(prime_product(chs) == prime_product(d) * last);
        assert(prime_product(chs.remove(i)) == rest * last);
        assert((p * rest) * last == p * (rest * last)) by (nonlinear_arith);
    }
}

proof fn lemma_invertible_one(p: int)
    requires
        p > 0,
    ensures
        invertible(1, p),
{
    let y = 1int % p;
    lemma_mod_pos_bound(1, p);
    if p == 1 {
        assert(1 * y % p == 1int % p);
    } else {
        lemma_fundamental_div_mod_converse(1, p, 0, 1);
        assert(1 * y == 1);
    }
    assert(is_mod_inverse(1, p, y));
}

proof fn lemma_invertible_mul(x: int, y: int, p: int)
    requires
        p > 0,
        invertible(x, p),
        invertible(y, p),
    ensures
        invertible(x * y, p),
{
    let ix = choose|z: int| is_mod_inverse(x, p, z);
    let iy = choose|z: int| is_mod_inverse(y, p, z);
    let w = (ix * iy) % p;
    lemma_mod_pos_bound(ix * iy, p);
    lemma_mul_mod_noop_right(x * y, ix * iy, p);
    assert((x * y) * (ix * iy) == (x * ix) * (y * iy)) by (nonlinear_arith);
    lemma_mul_mod_noop(x * ix, y * iy, p);
    if p == 1 {
        lemma_fundamental_div_mod_converse(1, 1, 1, 0);
        lemma_fundamental_div_mod_converse(0, 1, 0, 0);
        assert((x * y) * w % p == 1int % p);
    } else {
        lemma_fundamental_div_mod_converse(1, p, 0, 1);
        assert((1int % p) * (1int % p) == 1);
        assert((x * y) * w % p == 1int % p);
    }
    assert(is_mod_inverse(x * y, p, w));
}

proof fn lemma_product_invertible(s: Seq<PrimeChannel>, p: int)
    requires
        p > 0,
        forall|k: int| 0 <= k < s.len() ==> invertible(#[trigger] s[k].prime as int, p),
    ensures
        invertible(prime_product(s) as int, p),
    decreases s.len(),
{
    if s.len() == 0 {
        lemma_invertible_one(p);
    } else {
        let d = s.drop_last();
        assert forall|k: int| 0 <= k < d.len() implies invertible(#[trigger] d[k].prime as int, p) by {
            assert(d[k] == s[k]);
        }
        lemma_product_invertible(d, p);
        assert(invertible(s[s.len() - 1].prime as int, p));
        lemma_invertible_mul(prime_product(d) as int, s.last().prime as int, p);
    }
}

proof fn lemma_crt_partial_mod(chs: Seq<PrimeChannel>, n: int, i: int, k: int)
    requires
        0 <= i < chs.len(),
        0 <= k <= chs.len(),
        chs[i].prime > 0,
        invertible(n / (chs[i].prime as int), chs[i].prime as int),
        forall|j: int|
            0 <= j < chs.len() && j != i ==> #[trigger] ((n / (chs[j].prime as int)) % (
            chs[i].prime as int)) == 0,
    ensures
        crt_partial(chs, n, k) % (chs[i].prime as int) == (if k > i {
            chs[i].value as int
        } else {
            0
        }) % (chs[i].prime as int),
    decreases k,
{
    let p = chs[i].prime as int;
    if k == 0 {
        lemma_fundamental_div_mod_converse(0, p, 0, 0);
    } else {
        lemma_crt_partial_mod(chs, n, i, k - 1);
        let j = k - 1;
        let prev = crt_partial(chs, n, j);
        let v = chs[j].value as int;
        let nj = n / (chs[j].prime as int);
        let inv = inverse_or_zero(nj, chs[j].prime as int);
        let term = crt_term(chs, n, j);
        assert(term == v * nj * inv);
        lemma_add_mod_noop(prev, term, p);
        if j == i {
            let c = choose|z: int| is_mod_inverse(nj, p, z);
            assert(inv == c);
            assert(v * nj * inv == v * (nj * inv)) by (nonlinear_arith);
            lemma_mul_mod_noop(v, nj * inv, p);
            lemma_mod_pos_bound(v, p);
            if p == 1 {
                lemma_fundamental_div_mod_converse(v, 1, v, 0);
                lemma_fundamental_div_mod_converse(prev, 1, prev, 0);
                lemma_fundamental_div_mod_converse(prev + term, 1, prev + term, 0);
            } else {
                lemma_fundamental_div_mod_converse(1, p, 0, 1);
                assert((v % p) * 1 == v % p);
                lemma_fundamental_div_mod_converse(v % p, p, 0, v % p);
                lemma_fundamental_div_mod_converse(0, p, 0, 0);
                assert(prev % p == 0);
                assert(term % p == v % p);
                assert((prev % p + term % p) == v % p);
            }
        } else {
            assert(nj % p == 0);
            lemma_mul_mod_noop(v, nj, p);
            assert((v % p) * 0 == 0);
            lemma_fundamental_div_mod_converse(0, p, 0, 0);
            assert((v * nj) % p == 0);
            lemma_mul_mod_noop(v * nj, inv, p);
            assert(0 * (inv % p) == 0);
            assert(term % p == 0);
            lemma_mod_bound(prev, p);
            lemma_fundamental_div_mod_converse(prev % p, p, 0, prev % p);
        }
    }
}

/// Chinese remainder law of the scheduler: when the channel primes are pairwise
/// coprime and every residue lies below its prime, the decoded code lies in
/// `[0, total_resolution)` and leaves each channel's residue modulo that channel's prime.
pub proof fn lemma_crt_decode_residues(chs: Seq<PrimeChannel>)
    requires
        forall|i: int| 0 <= i < chs.len() ==> #[trigger] chs[i].prime > 0,
        forall|i: int| 0 <= i < chs.len() ==> #[trigger] chs[i].value < chs[i].prime,
        pairwise_invertible(chs),
    ensures
        0 <= crt_value(chs) < prime_product(chs),
        forall|i: int|
            0 <= i < chs.len() ==> crt_value(chs) % (#[trigger] chs[i].prime as int)
                == chs[i].value,
{
    let n = prime_product(chs) as int;
    lemma_product_positive(chs);
    lemma_mod_bound(crt_partial(chs, n, chs.len() as int), n);
    assert forall|i: int| 0 <= i < chs.len() implies crt_value(chs) % (
    #[trigger] chs[i].prime as int) == chs[i].value by {
        let p = chs[i].prime as int;
        let rest = chs.remove(i);
        lemma_product_remove(chs, i);
        let ni = prime_product(rest) as int;
        assert(n == p * ni);
        lemma_fundamental_div_mod_converse(n, p, ni, 0);
        assert(n / p == ni);
        assert forall|k: int| 0 <= k < rest.len() implies invertible(
            #[trigger] rest[k].prime as int,
            p,
        ) by {
            if k < i {
                assert(rest[k] == chs[k]);
            } else {
                assert(rest[k] == chs[k + 1]);
            }
        }
        lemma_product_invertible(rest, p);
        assert forall|j: int| 0 <= j < chs.len() && j != i implies #[trigger] ((n / (
        chs[j].prime as int)) % p) == 0 by {
            let pj = chs[j].prime as int;
            let rj = chs.remove(j);
            lemma_product_remove(chs, j);
            let nj = prime_product(rj) as int;
            lemma_fundamental_div_mod_converse(n, pj, nj, 0);
            let ii = if i < j { i } else { i - 1 };
            assert(rj[ii] == chs[i]);
            lemma_product_remove(rj, ii);
            let other = prime_product(rj.remove(ii)) as int;
            assert(nj == p * other);
            assert(nj == other * p) by (nonlinear_arith)
                requires nj == p * other;
            lemma_mod_multiples_basic(other, p);
        }
        lemma_crt_partial_mod(chs, n, i, chs.len() as int);
        lemma_product_positive(rest);
        lemma_mod_mod(crt_partial(chs, n, chs.len() as int), p, ni);
        lemma_fundamental_div_mod_converse(chs[i].value as int, p, 0, chs[i].value as int);
    }
}


proof fn lemma_coprime_factors_divide(m: int, p: int, d: int)
    requires
        m > 0,
        p > 0,
        d % m == 0,
        d % p == 0,
        invertible(m, p),
    ensures
        d % (m * p) == 0,
{
    let y = choose|y: int| is_mod_inverse(m, p, y);
    lemma_fundamental_div_mod(d, m);
    let k = d / m;
    assert(d == m * k);
    lemma_mul_mod_noop_right(y, d, p);
    assert(y * 0 == 0);
    assert((y * d) % p == 0);
    assert(k * (m * y) == y * d) by (nonlinear_arith)
        requires
            d == m * k,
    ;
    lemma_mul_mod_noop_right(k, m * y, p);
    assert((k * ((m * y) % p)) % p == 0);
    assert((m * y) % p == 1int % p);
    lemma_mul_mod_noop_right(k, 1, p);
    assert((k * (1int % p)) % p == (k * 1) % p);
    assert(k * 1 == k);
    assert(k % p == 0);
    lemma_fundamental_div_mod(k, p);
    let j = k / p;
    assert(d == (m * p) * j) by (nonlinear_arith)
        requires
            d == m * k,
            k == p * j + 0,
    ;
    assert(m * p > 0) by (nonlinear_arith)
        requires
            m > 0,
            p > 0,
    ;
    lemma_mod_multiples_basic(j, m * p);
    assert(j * (m * p) == (m * p) * j) by (nonlinear_arith);
}

proof fn lemma_product_divides(chs: Seq<PrimeChannel>, d: int)
    requires
        forall|i: int| 0 <= i < chs.len() ==> #[trigger] chs[i].prime > 0,
        pairwise_invertible(chs),
        forall|i: int| 0 <= i < chs.len() ==> d % (#[trigger] chs[i].prime as int) == 0,
    ensures
        d % (prime_product(chs) as int) == 0,
    decreases chs.len(),
{
    if chs.len() == 0 {
        assert(d % 1 == 0);
    } else {
        let rest = chs.drop_last();
        let last = chs.len() - 1;
        let p = chs[last].prime as int;
        assert forall|i: int, j: int|
            0 <= i < rest.len() && 0 <= j < rest.len() && i != j implies invertible(
            #[trigger] rest[j].prime as int,
            #[trigger] rest[i].prime as int,
        ) by {
            assert(rest[i] == chs[i] && rest[j] == chs[j]);
            assert(invertible(chs[j].prime as int, chs[i].prime as int));
        }
        assert forall|i: int| 0 <= i < rest.len() implies d % (#[trigger] rest[i].prime as int) == 0 by {
            assert(rest[i] == chs[i]);
        }
        lemma_product_divides(rest, d);
        assert forall|k: int| 0 <= k < rest.len() implies invertible(#[trigger] rest[k].prime as int, p) by {
            assert(rest[k] == chs[k]);
            assert(invertible(chs[k].prime as int, chs[last].prime as int));
        }
        lemma_product_invertible(rest, p);
        lemma_product_positive(rest);
        lemma_coprime_factors_divide(prime_product(rest) as int, p, d);
        assert(prime_product(chs) == prime_product(rest) * (chs.last().prime as nat));
    }
}

/// The decoded code is the only one: two codes in `[0, total_resolution)` that leave
/// the same residue modulo every (pairwise coprime) channel prime are equal. With the
/// residue law, decoding and reducing modulo each prime undo each other.
pub proof fn lemma_crt_unique(chs: Seq<PrimeChannel>, x: int, y: int)
    requires
        forall|i: int| 0 <= i < chs.len() ==> #[trigger] chs[i].prime > 0,
        pairwise_invertible(chs),
        0 <= x < prime_product(chs),
        0 <= y < prime_product(chs),
        forall|i: int| 0 <= i < chs.len() ==> x % (#[trigger] chs[i].prime as int) == y % (chs[i].prime as int),
    ensures
        x == y,
{
    let d = x - y;
    assert forall|i: int| 0 <= i < chs.len() implies d % (#[trigger] chs[i].prime as int) == 0 by {
        let p = chs[i].prime as int;
        lemma_fundamental_div_mod(x, p);
        lemma_fundamental_div_mod(y, p);
        let q = x / p - y / p;
        assert(d == p * q) by (nonlinear_arith)
            requires
                x == p * (x / p) + x % p,
                y == p * (y / p) + y % p,
                x % p == y % p,
                d == x - y,
                q == x / p - y / p,
        ;
        lemma_mod_multiples_basic(q, p);
        assert(q * p == p * q) by (nonlinear_arith);
    }
    lemma_product_divides(chs, d);
    let n = prime_product(chs) as int;
    lemma_fundamental_div_mod(d, n);
    let q = d / n;
    assert(q == 0) by (nonlinear_arith)
        requires
            d == n * q + 0,
            -n < d < n,
            n > 0,
    ;
}

/// The clock scheduler's primes 2, 3, 5 and 7 are pairwise coprime, so the
/// Chinese remainder law applies to every state with those channel primes.
pub proof fn lemma_clock_primes_pairwise_invertible(chs: Seq<PrimeChannel>)
    requires
        chs.len() == 4,
        chs[0].prime == 2,
        chs[1].prime == 3,
        chs[2].prime == 5,
        chs[3].prime == 7,
    ensures
        pairwise_invertible(chs),
{
    assert(is_mod_inverse(3, 2, 1));
    assert(is_mod_inverse(5, 2, 1));
    assert(is_mod_inverse(7, 2, 1));
    assert(is_mod_inverse(2, 3, 2));
    assert(is_mod_inverse(5, 3, 2));
    assert(is_mod_inverse(7, 3, 1));
    assert(is_mod_inverse(2, 5, 3));
    assert(is_mod_inverse(3, 5, 2));
    assert(is_mod_inverse(7, 5, 3));
    assert(is_mod_inverse(2, 7, 4));
    assert(is_mod_inverse(3, 7, 5));
    assert(is_mod_inverse(5, 7, 3));
    assert forall|i: int, j: int|
        0 <= i < chs.len() && 0 <= j < chs.len() && i != j implies invertible(
        #[trigger] chs[j].prime as int,
        #[trigger] chs[i].prime as int,
    ) by {
        if i == 0 {
            if j == 1 { assert(is_mod_inverse(3, 2, 1)); }
            else if j == 2 { assert(is_mod_inverse(5, 2, 1)); }
            else { assert(is_mod_inverse(7, 2, 1)); }
        } else if i == 1 {
            if j == 0 { assert(is_mod_inverse(2, 3, 2)); }
            else if j == 2 { assert(is_mod_inverse(5, 3, 2)); }
            else { assert(is_mod_inverse(7, 3, 1)); }
        } else if i == 2 {
            if j == 0 { assert(is_mod_inverse(2, 5, 3)); }
            else if j == 1 { assert(is_mod_inverse(3, 5, 2)); }
            else { assert(is_mod_inverse(7, 5, 3)); }
        } else {
            if j == 0 { assert(is_mod_inverse(2, 7, 4)); }
            else if j == 1 { assert(is_mod_inverse(3, 7, 5)); }
            else { assert(is_mod_inverse(5, 7, 3)); }
        }
    }
}


/// Drift categories as `classify_drift` records them: a drift of 10 ppb or more either
/// way leaves the centre (3), fast drifts (positive) get 4, 5 or 6 and slow ones 0, 1 or
/// 2, and a drift and its opposite get mirrored categories `c` and `6 - c`.
pub proof fn lemma_drift_category_sides(d: i64)
    ensures
        d >= 10 ==> 4 <= drift_category_of(d) <= 6,
        d <= -10 ==> drift_category_of(d) <= 2,
        -10 < d < 10 ==> drift_category_of(d) == 3,
        d > i64::MIN ==> drift_category_of((-(d as int)) as i64) == 6 - drift_category_of(d),
        10 <= d < 100 ==> drift_category_of(d) == 4,
        100 <= d < 1000 ==> drift_category_of(d) == 5,
        d >= 1000 ==> drift_category_of(d) == 6,
{
}

/// A larger drift never gets a lower category.
pub proof fn lemma_drift_category_monotone(d1: i64, d2: i64)
    requires
        d1 <= d2,
    ensures
        drift_category_of(d1) <= drift_category_of(d2),
{
}

} // verus!
