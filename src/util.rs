//! Word-level bit facts shared by every structure of the crate.
use vstd::prelude::*;

verus! {

/// Bit `t` (counted from the least significant one) of a word.
pub open spec fn word_bit(w: u64, t: int) -> bool {
    0 <= t < 64 && (w >> (t as u64)) & 1u64 == 1u64
}

/// Number of one bits among the `n` lowest bits of a word.
pub open spec fn popcount_upto(w: u64, n: nat) -> nat
    decreases n,
{
    if n == 0 {
        0
    } else {
        popcount_upto(w, (n - 1) as nat) + if word_bit(w, n - 1) { 1nat } else { 0nat }
    }
}

/// Number of one bits of a word.
pub open spec fn popcount(w: u64) -> nat {
    popcount_upto(w, 64)
}

/// Number of `true` entries of a sequence of bits.
pub open spec fn count_ones(s: Seq<bool>) -> nat
    decreases s.len(),
{
    if s.len() == 0 {
        0
    } else {
        count_ones(s.drop_last()) + if s.last() { 1nat } else { 0nat }
    }
}

/// Number of ones in the first `i` bits of `s`.
pub open spec fn rank_of(s: Seq<bool>, i: int) -> nat {
    count_ones(s.take(i))
}

/// Number of zeros in the first `i` bits of `s`.
pub open spec fn rank0_of(s: Seq<bool>, i: int) -> int {
    i - rank_of(s, i)
}

/// The `w` lowest bits of `r` are `s[i..i + w]` and all its other bits are zero.
pub open spec fn word_holds(r: u64, s: Seq<bool>, i: int, w: int) -> bool {
    forall|t: int| 0 <= t < 64 ==> #[trigger] word_bit(r, t) == (t < w && s[i + t])
}

/// The `w` lowest bits of a value, from the least significant one.
pub open spec fn bits_of(v: u64, w: nat) -> Seq<bool> {
    Seq::new(w, |t: int| word_bit(v, t))
}

/// A value fits in `w` bits.
pub open spec fn fits(v: u64, w: nat) -> bool {
    forall|t: int| w <= t < 64 ==> !#[trigger] word_bit(v, t)
}

/// Ceiling of `a / b`.
pub open spec fn ceil_div_spec(a: int, b: int) -> int {
    (a + b - 1) / b
}

pub proof fn lemma_popcount_upto_le(w: u64, n: nat)
    ensures
        popcount_upto(w, n) <= n,
    decreases n,
{
    if n > 0 {
        lemma_popcount_upto_le(w, (n - 1) as nat);
    }
}

pub proof fn lemma_count_ones_le(s: Seq<bool>)
    ensures
        count_ones(s) <= s.len(),
    decreases s.len(),
{
    if s.len() > 0 {
        lemma_count_ones_le(s.drop_last());
    }
}

/// Taking one more bit adds that bit to the count.
pub proof fn lemma_rank_step(s: Seq<bool>, i: int)
    requires
        0 <= i < s.len(),
    ensures
        rank_of(s, i + 1) == rank_of(s, i) + if s[i] { 1nat } else { 0nat },
{
    assert(s.take(i + 1).drop_last() =~= s.take(i));
}

pub proof fn lemma_rank_le(s: Seq<bool>, i: int)
    requires
        0 <= i <= s.len(),
    ensures
        rank_of(s, i) <= i,
{
    lemma_count_ones_le(s.take(i));
}

/// Rank never decreases.
pub proof fn lemma_rank_mono(s: Seq<bool>, i: int, j: int)
    requires
        0 <= i <= j <= s.len(),
    ensures
        rank_of(s, i) <= rank_of(s, j),
        rank0_of(s, i) <= rank0_of(s, j),
    decreases j - i,
{
    if i < j {
        lemma_rank_mono(s, i, j - 1);
        lemma_rank_step(s, j - 1);
    }
}

/// Rank of a prefix of a sequence is the rank in the sequence.
pub proof fn lemma_rank_prefix(s: Seq<bool>, u: Seq<bool>, i: int)
    requires
        0 <= i <= s.len(),
        s.len() <= u.len(),
        s =~= u.take(s.len() as int),
    ensures
        rank_of(s, i) == rank_of(u, i),
{
    assert(s.take(i) =~= u.take(i));
}

/// Facts on `ceil(n / k)`, the number of groups of `k` that cover `n`.
pub proof fn lemma_ceil_div(n: int, k: int)
    requires
        n >= 0,
        k >= 1,
    ensures
        ((n + k - 1) / k) * k >= n,
        (n + k - 1) / k <= n,
        n > 0 ==> ((n + k - 1) / k) >= 1,
        n == 0 ==> (n + k - 1) / k == 0,
        forall|i: int| 0 <= i < (n + k - 1) / k ==> #[trigger] (i * k) < n,
        n % k == 0 ==> ((n + k - 1) / k) * k == n,
{
    let q = (n + k - 1) / k;
    vstd::arithmetic::div_mod::lemma_fundamental_div_mod(n + k - 1, k);
    vstd::arithmetic::div_mod::lemma_fundamental_div_mod(n, k);
    let r = (n + k - 1) % k;
    assert(q * k >= n) by (nonlinear_arith)
        requires
            n + k - 1 == k * q + r,
            0 <= r < k,
    ;
    assert(q <= n) by (nonlinear_arith)
        requires
            n + k - 1 == k * q + r,
            0 <= r < k,
            k >= 1,
            n >= 0,
    ;
    assert(n > 0 ==> q >= 1) by (nonlinear_arith)
        requires
            n + k - 1 == k * q + r,
            0 <= r < k,
            k >= 1,
    ;
    assert(n == 0 ==> q == 0) by (nonlinear_arith)
        requires
            n + k - 1 == k * q + r,
            0 <= r < k,
            k >= 1,
    ;
    assert forall|i: int| 0 <= i < q implies #[trigger] (i * k) < n by {
        assert(i * k < n) by (nonlinear_arith)
            requires
                n + k - 1 == k * q + r,
                0 <= r < k,
                i < q,
                i >= 0,
        ;
    }
    if n % k == 0 {
        assert(q * k == n) by (nonlinear_arith)
            requires
                n + k - 1 == k * q + r,
                0 <= r < k,
                n == k * (n / k) + n % k,
                n % k == 0,
                k >= 1,
        ;
    }
}

/// One more item starts a new group of `k` exactly when it is a multiple of `k`.
pub proof fn lemma_ceil_div_step(j: int, k: int)
    requires
        j >= 0,
        k >= 1,
    ensures
        (j + 1 + k - 1) / k == (j + k - 1) / k + (if j % k == 0 { 1int } else { 0int }),
        j % k == 0 ==> (j + k - 1) / k * k == j,
{
    vstd::arithmetic::div_mod::lemma_fundamental_div_mod(j, k);
    let q = j / k;
    let r = j % k;
    if r == 0 {
        assert(j + k - 1 == q * k + (k - 1) && j + k == (q + 1) * k + 0) by (nonlinear_arith)
            requires
                j == k * q + r,
                r == 0,
        ;
        vstd::arithmetic::div_mod::lemma_fundamental_div_mod_converse(j + k - 1, k, q, k - 1);
        vstd::arithmetic::div_mod::lemma_fundamental_div_mod_converse(j + k, k, q + 1, 0);
        assert(q * k == j) by (nonlinear_arith)
            requires
                j == k * q + r,
                r == 0,
        ;
    } else {
        assert(j + k - 1 == (q + 1) * k + (r - 1) && j + k == (q + 1) * k + r) by (nonlinear_arith)
            requires
                j == k * q + r,
        ;
        vstd::arithmetic::div_mod::lemma_fundamental_div_mod_converse(j + k - 1, k, q + 1, r - 1);
        vstd::arithmetic::div_mod::lemma_fundamental_div_mod_converse(j + k, k, q + 1, r);
    }
}

/// The ones of a range are the difference of the ranks at its ends.
pub proof fn lemma_count_subrange(s: Seq<bool>, a: int, w: int)
    requires
        0 <= a,
        0 <= w,
        a + w <= s.len(),
    ensures
        count_ones(s.subrange(a, a + w)) == rank_of(s, a + w) - rank_of(s, a),
    decreases w,
{
    if w > 0 {
        lemma_count_subrange(s, a, w - 1);
        lemma_rank_step(s, a + w - 1);
        assert(s.subrange(a, a + w).drop_last() =~= s.subrange(a, a + w - 1));
    } else {
        assert(s.subrange(a, a) =~= Seq::<bool>::empty());
    }
}

/// The bits of `s[i..j]`, counted, are the difference of two ranks.
pub proof fn lemma_rank_of_word(r: u64, s: Seq<bool>, i: int, w: int, n: int)
    requires
        0 <= i,
        0 <= n <= w <= 64,
        i + w <= s.len(),
        word_holds(r, s, i, w),
    ensures
        popcount_upto(r, n as nat) == rank_of(s, i + n) - rank_of(s, i),
    decreases n,
{
    if n > 0 {
        lemma_rank_of_word(r, s, i, w, n - 1);
        lemma_rank_step(s, i + n - 1);
        assert(word_bit(r, n - 1) == s[i + n - 1]);
    }
}

pub proof fn lemma_shr_one(w: u64, b: u64)
    requires
        b < 64,
    ensures
        (w >> b) >> 1u64 == w >> ((b + 1) as u64),
{
    assert((w >> b) >> 1u64 == w >> ((b + 1) as u64)) by (bit_vector)
        requires
            b < 64,
    ;
}

proof fn lemma_shr_split(x: u64, n: u64)
    requires
        n < 63,
    ensures
        x >> n == ((x >> ((n + 1) as u64)) << 1u64) | ((x >> n) & 1u64),
{
    assert(x >> n == ((x >> ((n + 1) as u64)) << 1u64) | ((x >> n) & 1u64)) by (bit_vector)
        requires
            n < 63,
    ;
}

proof fn lemma_shr_eq_from(x: u64, y: u64, n: u64)
    requires
        n <= 63,
        forall|t: int| 0 <= t < 64 ==> #[trigger] word_bit(x, t) == word_bit(y, t),
    ensures
        x >> n == y >> n,
    decreases 63 - n,
{
    assert(word_bit(x, n as int) == word_bit(y, n as int));
    assert((x >> n) & 1u64 == 0u64 || (x >> n) & 1u64 == 1u64) by (bit_vector);
    assert((y >> n) & 1u64 == 0u64 || (y >> n) & 1u64 == 1u64) by (bit_vector);
    if n == 63 {
        assert(x >> 63u64 == (x >> 63u64) & 1u64) by (bit_vector);
        assert(y >> 63u64 == (y >> 63u64) & 1u64) by (bit_vector);
    } else {
        lemma_shr_eq_from(x, y, (n + 1) as u64);
        lemma_shr_split(x, n);
        lemma_shr_split(y, n);
    }
}

/// Two words with the same bits are equal.
pub proof fn lemma_bits_determine(x: u64, y: u64)
    requires
        forall|t: int| 0 <= t < 64 ==> #[trigger] word_bit(x, t) == word_bit(y, t),
    ensures
        x == y,
{
    lemma_shr_eq_from(x, y, 0);
    assert(x >> 0u64 == x) by (bit_vector);
    assert(y >> 0u64 == y) by (bit_vector);
}

/// A word holding a range of bits is the only one.
pub proof fn lemma_word_holds_unique(r1: u64, r2: u64, s: Seq<bool>, i: int, w: int)
    requires
        word_holds(r1, s, i, w),
        word_holds(r2, s, i, w),
    ensures
        r1 == r2,
{
    assert forall|t: int| 0 <= t < 64 implies #[trigger] word_bit(r1, t) == word_bit(r2, t) by {
        assert(word_bit(r1, t) == (t < w && s[i + t]));
    }
    lemma_bits_determine(r1, r2);
}

/// The number whose binary digits, least significant first, are `s[i..i + w]`.
pub open spec fn value_of(s: Seq<bool>, i: int, w: nat) -> nat
    decreases w,
{
    if w == 0 {
        0
    } else {
        2 * value_of(s, i + 1, (w - 1) as nat) + if s[i] { 1nat } else { 0nat }
    }
}

/// The value of a range depends on that range only.
pub proof fn lemma_value_of_agree(s1: Seq<bool>, s2: Seq<bool>, i: int, w: nat)
    requires
        forall|t: int| 0 <= t < w ==> #[trigger] s1[i + t] == s2[i + t],
    ensures
        value_of(s1, i, w) == value_of(s2, i, w),
    decreases w,
{
    if w > 0 {
        assert(s1[i + 0] == s2[i + 0]);
        assert forall|t: int| 0 <= t < w - 1 implies #[trigger] s1[(i + 1) + t] == s2[(i + 1) + t] by {
            assert(s1[i + (t + 1)] == s2[i + (t + 1)]);
        }
        lemma_value_of_agree(s1, s2, i + 1, (w - 1) as nat);
    }
}

/// A word that holds a range of bits has the value of that range.
pub proof fn lemma_word_holds_value(x: u64, s: Seq<bool>, i: int, w: nat)
    requires
        w <= 64,
        word_holds(x, s, i, w as int),
    ensures
        x as nat == value_of(s, i, w),
    decreases w,
{
    lemma_bit_small();
    if w == 0 {
        assert forall|t: int| 0 <= t < 64 implies #[trigger] word_bit(x, t) == word_bit(0u64, t) by {}
        lemma_bits_determine(x, 0u64);
    } else {
        let y = x >> 1u64;
        lemma_bit_shr(x, 1u64);
        assert forall|t: int| 0 <= t < 64 implies #[trigger] word_bit(y, t) == (t < w - 1 && s[(i + 1)
            + t]) by {
            assert(word_bit(y, t) == word_bit(x, t + 1));
            if t + 1 < 64 {
                assert(word_bit(x, t + 1) == (t + 1 < w && s[i + (t + 1)]));
            }
        }
        lemma_word_holds_value(y, s, i + 1, (w - 1) as nat);
        assert(x >> 1u64 == x / 2u64 && x & 1u64 == x % 2u64 && x >> 0u64 == x) by (bit_vector);
        assert(word_bit(x, 0) == s[i + 0]);
    }
}

/// A word fits in `b` bits exactly when shifting it right by `b` leaves zero.
pub proof fn lemma_fits_shr(v: u64, b: u64)
    requires
        b < 64,
    ensures
        fits(v, b as nat) <==> v >> b == 0,
{
    lemma_bit_shr(v, b);
    lemma_bit_small();
    if fits(v, b as nat) {
        assert forall|t: int| 0 <= t < 64 implies #[trigger] word_bit(v >> b, t) == word_bit(0u64, t) by {
            assert(word_bit(v >> b, t) == word_bit(v, t + b));
        }
        lemma_bits_determine(v >> b, 0u64);
    }
    if v >> b == 0 {
        assert forall|t: int| b <= t < 64 implies !#[trigger] word_bit(v, t) by {
            assert(word_bit(v >> b, t - b) == word_bit(v, t));
        }
    }
}

/// A value below one that fits in `b` bits fits too.
pub proof fn lemma_fits_mono(v: u64, m: u64, b: nat)
    requires
        v <= m,
        fits(m, b),
    ensures
        fits(v, b),
{
    if b < 64 {
        let bb = b as u64;
        lemma_fits_shr(m, bb);
        assert(v <= m ==> v >> bb <= m >> bb) by (bit_vector);
        lemma_fits_shr(v, bb);
    }
}

/// Number of bits needed to write `v`: 0 for 0, 1 for 1, 2 for 2 and 3, and so on.
pub fn bit_length(v: u64) -> (r: u32)
    ensures
        r <= 64,
        fits(v, r as nat),
        r > 0 ==> word_bit(v, r - 1),
{
    let mut x = v;
    let mut b: u32 = 0;
    proof {
        assert(v >> 0u64 == v) by (bit_vector);
    }
    while x != 0
        invariant
            b <= 64,
            x == v >> (b as u64),
            b == 64 ==> x == 0,
            (x == 0 && b > 0) ==> word_bit(v, b - 1),
        decreases 64 - b,
    {
        proof {
            lemma_shr_one(v, b as u64);
            assert(x != 0 && (x >> 1u64) == 0 ==> x & 1u64 == 1u64) by (bit_vector);
            if b == 63 {
                assert((v >> 63u64) >> 1u64 == 0) by (bit_vector);
            }
        }
        x = x >> 1;
        b = b + 1;
    }
    proof {
        if b < 64 {
            lemma_fits_shr(v, b as u64);
        }
    }
    b
}

/// Number of bits needed to write a value.
pub trait BitsRequired {
    /// The value, as a word.
    spec fn word_value(&self) -> u64;

    /// The smallest `r` such that the value fits in `r` bits.
    fn bits_required(&self) -> (r: u32)
        ensures
            r <= 64,
            fits(self.word_value(), r as nat),
            r > 0 ==> word_bit(self.word_value(), r - 1),
    ;
}

impl BitsRequired for u64 {
    open spec fn word_value(&self) -> u64 {
        *self
    }

    fn bits_required(&self) -> (r: u32) {
        bit_length(*self)
    }
}

impl BitsRequired for usize {
    open spec fn word_value(&self) -> u64 {
        *self as u64
    }

    fn bits_required(&self) -> (r: u32) {
        bit_length(*self as u64)
    }
}

/// The lowest bit of a word is zero or one.
pub proof fn lemma_low_bit(w: u64)
    ensures
        w & 1u64 == 0u64 || w & 1u64 == 1u64,
{
    assert(w & 1u64 == 0u64 || w & 1u64 == 1u64) by (bit_vector);
}

/// The bits of an OR are the ORs of the bits.
pub proof fn lemma_bit_or(a: u64, b: u64)
    ensures
        forall|t: int| #[trigger] word_bit(a | b, t) == (word_bit(a, t) || word_bit(b, t)),
{
    assert forall|t: int| #[trigger] word_bit(a | b, t) == (word_bit(a, t) || word_bit(b, t)) by {
        if 0 <= t < 64 {
            let u = t as u64;
            assert(((a | b) >> u) & 1u64 == 1u64 <==> ((a >> u) & 1u64 == 1u64 || (b >> u) & 1u64
                == 1u64)) by (bit_vector);
        }
    }
}

/// The bits of an AND are the ANDs of the bits.
pub proof fn lemma_bit_and(a: u64, b: u64)
    ensures
        forall|t: int| #[trigger] word_bit(a & b, t) == (word_bit(a, t) && word_bit(b, t)),
{
    assert forall|t: int| #[trigger] word_bit(a & b, t) == (word_bit(a, t) && word_bit(b, t)) by {
        if 0 <= t < 64 {
            let u = t as u64;
            assert(((a & b) >> u) & 1u64 == 1u64 <==> ((a >> u) & 1u64 == 1u64 && (b >> u) & 1u64
                == 1u64)) by (bit_vector);
        }
    }
}

/// The bits of a complement are the complements of the bits.
pub proof fn lemma_bit_not(a: u64)
    ensures
        forall|t: int| 0 <= t < 64 ==> #[trigger] word_bit(!a, t) == !word_bit(a, t),
{
    assert forall|t: int| 0 <= t < 64 implies #[trigger] word_bit(!a, t) == !word_bit(a, t) by {
        let u = t as u64;
        assert(((!a) >> u) & 1u64 == 1u64 <==> !((a >> u) & 1u64 == 1u64)) by (bit_vector)
            requires
                u < 64,
        ;
    }
}

/// Shifting left moves each bit up by `off`.
pub proof fn lemma_bit_shl(v: u64, off: u64)
    requires
        off < 64,
    ensures
        forall|t: int| #[trigger] word_bit(v << off, t) == (off <= t < 64 && word_bit(v, t - off)),
{
    assert forall|t: int| #[trigger] word_bit(v << off, t) == (off <= t < 64 && word_bit(v, t - off)) by {
        if 0 <= t < 64 {
            let u = t as u64;
            if u >= off {
                assert(((v << off) >> u) & 1u64 == (v >> ((u - off) as u64)) & 1u64) by (bit_vector)
                    requires
                        off < 64,
                        u < 64,
                        u >= off,
                ;
            } else {
                assert(((v << off) >> u) & 1u64 == 0u64) by (bit_vector)
                    requires
                        off < 64,
                        u < off,
                ;
            }
        }
    }
}

/// Shifting right moves each bit down by `s`.
pub proof fn lemma_bit_shr(v: u64, s: u64)
    requires
        s < 64,
    ensures
        forall|t: int| 0 <= t ==> #[trigger] word_bit(v >> s, t) == word_bit(v, t + s),
{
    assert forall|t: int| 0 <= t implies #[trigger] word_bit(v >> s, t) == word_bit(v, t + s) by {
        if t < 64 {
            let u = t as u64;
            if u + s < 64 {
                assert(((v >> s) >> u) & 1u64 == (v >> ((u + s) as u64)) & 1u64) by (bit_vector)
                    requires
                        s < 64,
                        u < 64,
                        u + s < 64,
                ;
            } else {
                assert(((v >> s) >> u) & 1u64 == 0u64) by (bit_vector)
                    requires
                        s < 64,
                        u < 64,
                        u + s >= 64,
                ;
            }
        }
    }
}

/// The mask of the `len` lowest bits.
pub proof fn lemma_bit_mask(len: u64)
    requires
        1 <= len <= 64,
    ensures
        forall|t: int| #[trigger] word_bit(u64::MAX >> ((64 - len) as u64), t) == (0 <= t < len),
{
    assert forall|t: int| #[trigger] word_bit(u64::MAX >> ((64 - len) as u64), t) == (0 <= t < len) by {
        if 0 <= t < 64 {
            let u = t as u64;
            assert(((u64::MAX >> ((64 - len) as u64)) >> u) & 1u64 == 1u64 <==> u < len) by (bit_vector)
                requires
                    1 <= len <= 64,
                    u < 64,
            ;
        }
    }
}

/// The bits of zero and one.
pub proof fn lemma_bit_small()
    ensures
        forall|t: int| !#[trigger] word_bit(0u64, t),
        forall|t: int| #[trigger] word_bit(1u64, t) == (t == 0),
        forall|t: int| #[trigger] word_bit(u64::MAX, t) == (0 <= t < 64),
{
    assert forall|t: int| !#[trigger] word_bit(0u64, t) by {
        if 0 <= t < 64 {
            let u = t as u64;
            assert((0u64 >> u) & 1u64 == 0u64) by (bit_vector);
        }
    }
    assert forall|t: int| #[trigger] word_bit(1u64, t) == (t == 0) by {
        if 0 <= t < 64 {
            let u = t as u64;
            assert((1u64 >> u) & 1u64 == 1u64 <==> u == 0) by (bit_vector);
        }
    }
    assert forall|t: int| #[trigger] word_bit(u64::MAX, t) == (0 <= t < 64) by {
        if 0 <= t < 64 {
            let u = t as u64;
            assert((u64::MAX >> u) & 1u64 == 1u64) by (bit_vector)
                requires
                    u < 64,
            ;
        }
    }
}

/// Counting the bits of a word that agrees with another below `off` and is zero above.
pub proof fn lemma_popcount_masked(x: u64, w: u64, off: nat, n: nat)
    requires
        forall|t: int| 0 <= t < 64 ==> #[trigger] word_bit(x, t) == (t < off && word_bit(w, t)),
    ensures
        popcount_upto(x, n) == popcount_upto(w, if n < off { n } else { off }),
    decreases n,
{
    if n > 0 {
        lemma_popcount_masked(x, w, off, (n - 1) as nat);
        assert(word_bit(x, n - 1) == (n - 1 < off && word_bit(w, n - 1)));
    }
}

/// A word that fits in `off` bits counts no ones above `off`.
pub proof fn lemma_popcount_fits(w: u64, off: nat, n: nat)
    requires
        fits(w, off),
        off <= n,
    ensures
        popcount_upto(w, n) == popcount_upto(w, off),
    decreases n,
{
    if n > off {
        lemma_popcount_fits(w, off, (n - 1) as nat);
        if n - 1 < 64 {
            assert(!word_bit(w, n - 1));
        }
    }
}

} // verus!
