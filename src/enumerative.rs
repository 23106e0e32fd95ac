//! Enumerative coding of fixed-width blocks: a block of `b` bits with `c` ones is
//! numbered among all such blocks, and that number is decoded back.
use vstd::prelude::*;
use vstd::arithmetic::power2::{pow2, lemma_pow2_unfold, lemma2_to64};
use crate::util::{word_bit, word_holds, count_ones, bits_of, fits, lemma_bit_or, lemma_bit_shl, lemma_bit_small, lemma_bit_mask, lemma_shr_one, lemma_low_bit, lemma_count_ones_le};

verus! {

/// The binomial coefficient `n` choose `k`.
pub open spec fn binom(n: nat, k: nat) -> nat
    decreases n,
{
    if k == 0 {
        1
    } else if n == 0 {
        0
    } else {
        binom((n - 1) as nat, (k - 1) as nat) + binom((n - 1) as nat, k)
    }
}

/// The number of a block `s` with `c` ones among the blocks of its length with `c` ones,
/// reading the block from its first bit.
pub open spec fn enum_offset(s: Seq<bool>, c: nat) -> nat
    decreases s.len(),
{
    if c == 0 || c >= s.len() {
        0
    } else if s[0] {
        binom((s.len() - 1) as nat, c) + enum_offset(s.drop_first(), (c - 1) as nat)
    } else {
        enum_offset(s.drop_first(), c)
    }
}

/// The block of `m` bits with `c` ones whose number is `o`.
pub open spec fn enum_block(m: nat, c: nat, o: nat) -> Seq<bool>
    decreases m,
{
    if m == 0 {
        Seq::empty()
    } else if c == 0 {
        Seq::new(m, |i: int| false)
    } else if c >= m {
        Seq::new(m, |i: int| true)
    } else if o >= binom((m - 1) as nat, c) {
        seq![true] + enum_block((m - 1) as nat, (c - 1) as nat, (o - binom((m - 1) as nat, c)) as nat)
    } else {
        seq![false] + enum_block((m - 1) as nat, c, o)
    }
}

pub proof fn lemma_binom_zero_above(n: nat, k: nat)
    requires
        k > n,
    ensures
        binom(n, k) == 0,
    decreases n,
{
    if n > 0 {
        lemma_binom_zero_above((n - 1) as nat, (k - 1) as nat);
        lemma_binom_zero_above((n - 1) as nat, k);
    }
}

pub proof fn lemma_binom_diag(n: nat)
    ensures
        binom(n, n) == 1,
    decreases n,
{
    if n > 0 {
        lemma_binom_diag((n - 1) as nat);
        lemma_binom_zero_above((n - 1) as nat, n);
    }
}

pub proof fn lemma_binom_pos(n: nat, k: nat)
    requires
        k <= n,
    ensures
        binom(n, k) >= 1,
    decreases n,
{
    if k > 0 && n > 0 {
        lemma_binom_pos((n - 1) as nat, (k - 1) as nat);
    }
}

pub proof fn lemma_binom_one(n: nat)
    ensures
        binom(n, 1) == n,
    decreases n,
{
    if n > 0 {
        lemma_binom_one((n - 1) as nat);
        assert(binom(n, 1) == binom((n - 1) as nat, 0) + binom((n - 1) as nat, 1));
    }
}

/// Binomials of `n >= 1` stay below `2^n`.
pub proof fn lemma_binom_bound(n: nat, k: nat)
    ensures
        binom(n, k) <= pow2(n),
        n >= 1 ==> binom(n, k) < pow2(n),
    decreases n,
{
    if n == 0 {
        assert(pow2(0) == 1) by {
            lemma2_to64();
        }
    } else {
        lemma_binom_bound((n - 1) as nat, k);
        if k > 0 {
            lemma_binom_bound((n - 1) as nat, (k - 1) as nat);
        }
        lemma_pow2_unfold(n);
        if n == 1 {
            assert(pow2(0) == 1 && pow2(1) == 2) by {
                lemma2_to64();
            }
            if k > 1 {
                lemma_binom_zero_above(0, (k - 1) as nat);
            }
        }
    }
}

/// Binomials up to the word width fit in a word.
pub proof fn lemma_binom_fits_word(n: nat, k: nat)
    requires
        n <= 64,
    ensures
        binom(n, k) <= u64::MAX,
{
    lemma_binom_bound(n, k);
    lemma2_to64();
    if n < 64 {
        vstd::arithmetic::power2::lemma_pow2_strictly_increases(n, 64);
    }
}

/// Counting the ones of a sequence from its first bit.
pub proof fn lemma_count_first(s: Seq<bool>)
    requires
        s.len() > 0,
    ensures
        count_ones(s) == count_ones(s.drop_first()) + if s[0] { 1nat } else { 0nat },
    decreases s.len(),
{
    if s.len() > 1 {
        lemma_count_first(s.drop_last());
        assert(s.drop_last().drop_first() =~= s.drop_first().drop_last());
    } else {
        assert(s.drop_first() =~= Seq::<bool>::empty());
        assert(s.drop_last() =~= Seq::<bool>::empty());
    }
}

/// No ones, all zeros; all ones, no zeros.
pub proof fn lemma_count_extremes(s: Seq<bool>)
    ensures
        count_ones(s) == 0 ==> s =~= Seq::new(s.len(), |i: int| false),
        count_ones(s) == s.len() ==> s =~= Seq::new(s.len(), |i: int| true),
    decreases s.len(),
{
    if s.len() > 0 {
        lemma_count_extremes(s.drop_last());
        lemma_count_ones_le(s.drop_last());
        if count_ones(s) == 0 {
            assert forall|i: int| 0 <= i < s.len() implies s[i] == false by {
                if i < s.len() - 1 {
                    assert(s.drop_last()[i] == s[i]);
                }
            }
        }
        if count_ones(s) == s.len() {
            assert forall|i: int| 0 <= i < s.len() implies s[i] == true by {
                if i < s.len() - 1 {
                    assert(s.drop_last()[i] == s[i]);
                }
            }
        }
    }
}

/// The number of a block is below the count of blocks of its class.
pub proof fn lemma_enum_offset_bound(s: Seq<bool>, c: nat)
    requires
        count_ones(s) == c,
    ensures
        enum_offset(s, c) < binom(s.len(), c),
    decreases s.len(),
{
    lemma_count_ones_le(s);
    if c == 0 {
    } else if c >= s.len() {
        lemma_binom_diag(s.len());
    } else {
        lemma_count_first(s);
        let t = s.drop_first();
        if s[0] {
            lemma_enum_offset_bound(t, (c - 1) as nat);
        } else {
            lemma_enum_offset_bound(t, c);
        }
    }
}

/// Decoding the number of a block gives the block back.
pub proof fn lemma_enum_round_trip(s: Seq<bool>)
    ensures
        enum_block(s.len(), count_ones(s), enum_offset(s, count_ones(s))) =~= s,
    decreases s.len(),
{
    let c = count_ones(s);
    let m = s.len();
    lemma_count_ones_le(s);
    lemma_count_extremes(s);
    if m > 0 && c > 0 && c < m {
        lemma_count_first(s);
        let t = s.drop_first();
        lemma_enum_round_trip(t);
        if s[0] {
            assert(enum_block(m, c, enum_offset(s, c)) =~= seq![true] + t);
        } else {
            lemma_enum_offset_bound(t, c);
            assert(enum_block(m, c, enum_offset(s, c)) =~= seq![false] + t);
        }
        assert(seq![s[0]] + t =~= s);
    }
}

/// A block of class one has its single one at `m - o - 1`.
pub proof fn lemma_enum_block_one(m: nat, o: nat)
    requires
        o < m,
    ensures
        enum_block(m, 1, o) =~= Seq::new(m, |i: int| i == m - o - 1),
    decreases m,
{
    if m > 1 {
        lemma_binom_one((m - 1) as nat);
        if o >= m - 1 {
            assert(enum_block((m - 1) as nat, 0, (o - (m - 1)) as nat) =~= Seq::new((m - 1) as nat, |i: int| false));
        } else {
            lemma_enum_block_one((m - 1) as nat, o);
        }
    }
}

/// A block decoded from class `c` has `c` ones.
pub proof fn lemma_enum_block_count(m: nat, c: nat, o: nat)
    requires
        c <= m,
    ensures
        count_ones(enum_block(m, c, o)) == c,
    decreases m,
{
    let e = enum_block(m, c, o);
    lemma_enum_block_len(m, c, o);
    if m == 0 {
    } else if c == 0 {
        lemma_count_zero_seq(m);
    } else if c >= m {
        lemma_count_one_seq(m);
    } else {
        lemma_count_first(e);
        if o >= binom((m - 1) as nat, c) {
            lemma_enum_block_count((m - 1) as nat, (c - 1) as nat, (o - binom((m - 1) as nat, c)) as nat);
            assert(e.drop_first() =~= enum_block((m - 1) as nat, (c - 1) as nat, (o - binom((m - 1) as nat, c)) as nat));
        } else {
            lemma_enum_block_count((m - 1) as nat, c, o);
            assert(e.drop_first() =~= enum_block((m - 1) as nat, c, o));
        }
    }
}

proof fn lemma_count_zero_seq(m: nat)
    ensures
        count_ones(Seq::new(m, |i: int| false)) == 0,
    decreases m,
{
    if m > 0 {
        lemma_count_zero_seq((m - 1) as nat);
        assert(Seq::new(m, |i: int| false).drop_last() =~= Seq::new((m - 1) as nat, |i: int| false));
    }
}

proof fn lemma_count_one_seq(m: nat)
    ensures
        count_ones(Seq::new(m, |i: int| true)) == m,
    decreases m,
{
    if m > 0 {
        lemma_count_one_seq((m - 1) as nat);
        assert(Seq::new(m, |i: int| true).drop_last() =~= Seq::new((m - 1) as nat, |i: int| true));
    }
}

/// A block of `m` bits has `m` bits.
pub proof fn lemma_enum_block_len(m: nat, c: nat, o: nat)
    ensures
        enum_block(m, c, o).len() == m,
    decreases m,
{
    if m > 0 && c > 0 && c < m {
        if o >= binom((m - 1) as nat, c) {
            lemma_enum_block_len((m - 1) as nat, (c - 1) as nat, (o - binom((m - 1) as nat, c)) as nat);
        } else {
            lemma_enum_block_len((m - 1) as nat, c, o);
        }
    }
}

/// The table holds `n choose k` for all `n, k <= 64`.
pub open spec fn binomial_table_ok(t: Seq<Vec<u64>>) -> bool {
    &&& t.len() == 65
    &&& forall|n: int| 0 <= n <= 64 ==> (#[trigger] t[n])@.len() == 65
    &&& forall|n: int, k: int| 0 <= n <= 64 && 0 <= k <= 64 ==> #[trigger] t[n]@[k] == binom(n as nat, k as nat)
}

/// The binomial coefficients `n choose k` for `n, k` up to the word width.
pub fn get_binomial_table() -> (r: Vec<Vec<u64>>)
    ensures
        binomial_table_ok(r@),
{
    let mut table: Vec<Vec<u64>> = Vec::new();
    let mut n: usize = 0;
    proof {
        lemma2_to64();
    }
    while n <= 64
        invariant
            n <= 65,
            table@.len() == n,
            pow2(64) == 0x10000000000000000,
            forall|i: int| 0 <= i < n ==> (#[trigger] table@[i])@.len() == 65,
            forall|i: int, k: int| 0 <= i < n && 0 <= k <= 64 ==> #[trigger] table@[i]@[k] == binom(i as nat, k as nat),
        decreases 65 - n,
    {
        let mut row: Vec<u64> = Vec::new();
        let mut k: usize = 0;
        while k <= 64
            invariant
                n <= 64,
                k <= 65,
                row@.len() == k,
                table@.len() == n,
                pow2(64) == 0x10000000000000000,
                forall|i: int| 0 <= i < n ==> (#[trigger] table@[i])@.len() == 65,
                forall|i: int, j: int| 0 <= i < n && 0 <= j <= 64 ==> #[trigger] table@[i]@[j] == binom(i as nat, j as nat),
                forall|j: int| 0 <= j < k ==> #[trigger] row@[j] == binom(n as nat, j as nat),
            decreases 65 - k,
        {
            let v: u64 = if k == 0 {
                1
            } else if n == 0 {
                0
            } else {
                let a = table[n - 1][k - 1];
                let b = table[n - 1][k];
                proof {
                    lemma_binom_bound(n as nat, k as nat);
                    if n < 64 {
                        vstd::arithmetic::power2::lemma_pow2_strictly_increases(n as nat, 64);
                    }
                }
                a + b
            };
            row.push(v);
            k = k + 1;
        }
        table.push(row);
        n = n + 1;
    }
    table
}

/// Counting the low bits of a word counts the bits of the sequence they make.
pub proof fn lemma_popcount_bits_of(w: u64, n: nat)
    ensures
        crate::util::popcount_upto(w, n) == count_ones(bits_of(w, n)),
    decreases n,
{
    if n > 0 {
        lemma_popcount_bits_of(w, (n - 1) as nat);
        assert(bits_of(w, n).drop_last() =~= bits_of(w, (n - 1) as nat));
    } else {
        assert(bits_of(w, 0) =~= Seq::<bool>::empty());
    }
}

/// The class (number of ones) and the number of a block of `b` bits.
pub fn encode_with(table: &Vec<Vec<u64>>, block: u64, b: usize) -> (r: (usize, u64))
    requires
        binomial_table_ok(table@),
        1 <= b <= 64,
        fits(block, b as nat),
    ensures
        r.0 == count_ones(bits_of(block, b as nat)),
        r.1 == enum_offset(bits_of(block, b as nat), r.0 as nat),
{
    let ghost s = bits_of(block, b as nat);
    let class = crate::bitvec::word_count_ones(block) as usize;
    proof {
        crate::util::lemma_popcount_fits(block, b as nat, 64);
        lemma_popcount_bits_of(block, b as nat);
        assert(s.skip(0) =~= s);
        assert(block >> 0u64 == block) by (bit_vector);
        lemma_enum_offset_bound(s, class as nat);
        lemma_binom_bound(b as nat, class as nat);
        lemma2_to64();
        if b < 64 {
            vstd::arithmetic::power2::lemma_pow2_strictly_increases(b as nat, 64);
        }
    }
    let mut offset: u64 = 0;
    let mut c: usize = class;
    let mut cur = block;
    let mut i: usize = 1;
    while i <= b && c != 0 && c <= b - i
        invariant
            binomial_table_ok(table@),
            1 <= b <= 64,
            1 <= i <= b + 1,
            s == bits_of(block, b as nat),
            cur == block >> ((i - 1) as u64),
            c == count_ones(s.skip(i - 1)),
            offset + enum_offset(s.skip(i - 1), c as nat) == enum_offset(s, class as nat),
            enum_offset(s, class as nat) < binom(b as nat, class as nat),
            binom(b as nat, class as nat) <= u64::MAX,
        decreases b + 1 - i,
    {
        let ghost t = s.skip(i - 1);
        proof {
            lemma_count_first(t);
            assert(t.drop_first() =~= s.skip(i as int));
            assert(t[0] == word_bit(block, i - 1));
            lemma_low_bit(cur);
            lemma_shr_one(block, (i - 1) as u64);
        }
        if cur & 1 == 1 {
            offset = offset + table[b - i][c];
            c = c - 1;
        }
        cur = cur >> 1;
        i = i + 1;
    }
    proof {
        assert(s.skip(i - 1).len() == b + 1 - i);
    }
    (class, offset)
}

/// The first `len` bits of the block of `b` bits with `class` ones and number `offset`.
pub fn decode_with(table: &Vec<Vec<u64>>, class: usize, offset: u64, b: usize, len: usize) -> (r: u64)
    requires
        binomial_table_ok(table@),
        1 <= b <= 64,
        class <= b,
        offset < binom(b as nat, class as nat),
        len <= b,
    ensures
        word_holds(r, enum_block(b as nat, class as nat, offset as nat), 0, len as int),
{
    let ghost e = enum_block(b as nat, class as nat, offset as nat);
    proof {
        lemma_enum_block_len(b as nat, class as nat, offset as nat);
        lemma_bit_small();
    }
    if len == 0 {
        return 0;
    }
    if class == b {
        proof {
            lemma_bit_mask(len as u64);
        }
        return u64::MAX >> ((64 - len) as u64);
    } else if class == 0 {
        return 0;
    }
    let mut block: u64 = 0;
    let mut c: usize = class;
    let mut o: u64 = offset;
    let mut i: usize = 0;
    proof {
        assert(e.skip(0) =~= e);
    }
    while c > 1
        invariant
            binomial_table_ok(table@),
            1 <= b <= 64,
            e == enum_block(b as nat, class as nat, offset as nat),
            e.len() == b,
            i <= len <= b,
            1 <= c <= b - i,
            o < binom((b - i) as nat, c as nat),
            e.skip(i as int) =~= enum_block((b - i) as nat, c as nat, o as nat),
            forall|t: int| 0 <= t < 64 ==> #[trigger] word_bit(block, t) == (t < i && e[t]),
        decreases b - i,
    {
        if i >= len {
            return block;
        }
        let m = b - i;
        let ghost rest = enum_block(m as nat, c as nat, o as nat);
        let p = table[m - 1][c];
        proof {
            assert(e[i as int] == rest[0]);
            assert(e.skip(i + 1) =~= rest.drop_first());
            if c == m {
                lemma_binom_zero_above((m - 1) as nat, c as nat);
                assert(rest.drop_first() =~= enum_block((m - 1) as nat, (c - 1) as nat, o as nat));
            }
        }
        if o >= p {
            proof {
                assert(rest[0] == true);
                lemma_bit_or(block, 1u64 << (i as u64));
                lemma_bit_shl(1u64, i as u64);
            }
            let ghost old_block = block;
            block = block | (1u64 << (i as u64));
            proof {
                lemma_bit_small();
                assert forall|t: int| 0 <= t < 64 implies #[trigger] word_bit(block, t) == (t < i + 1
                    && e[t]) by {
                    assert(word_bit(block, t) == (word_bit(old_block, t) || word_bit(1u64 << (i as u64), t)));
                    if t == i {
                        assert(word_bit(1u64, 0));
                    } else if t >= i {
                        assert(!word_bit(1u64, t - i));
                    }
                }
            }
            o = o - p;
            c = c - 1;
        } else {
            proof {
                assert(rest[0] == false);
                assert forall|t: int| 0 <= t < 64 implies #[trigger] word_bit(block, t) == (t < i + 1
                    && e[t]) by {
                    if t == i {
                        assert(e[t] == rest[0]);
                    }
                }
                if c + 1 > m {
                    lemma_binom_zero_above((m - 1) as nat, c as nat);
                }
            }
        }
        i = i + 1;
    }
    let m = b - i;
    proof {
        lemma_binom_one(m as nat);
        lemma_enum_block_one(m as nat, o as nat);
    }
    let bo = b - (o as usize) - 1;
    if bo < len {
        proof {
            lemma_bit_small();
            lemma_bit_or(block, 1u64 << (bo as u64));
            lemma_bit_shl(1u64, bo as u64);
        }
        block = block | (1u64 << (bo as u64));
    }
    proof {
        assert forall|t: int| 0 <= t < 64 implies #[trigger] word_bit(block, t) == (t < len && e[t]) by {
            if i <= t < len {
                assert(e[t] == e.skip(i as int)[t - i]);
            }
        }
    }
    block
}

} // verus!
