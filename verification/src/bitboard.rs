//! A fixed-size bitboard supporting up to 32x32 = 1024 positions,
//! stored as 16 x u64 words, entirely on the stack.

use vstd::prelude::*;

verus! {

/// Number of 64-bit words in a bitboard.
pub const WORD_COUNT: usize = 16;

/// Total bit capacity: enough for a 32x32 board.
pub const CAPACITY: usize = 1024;

/// True iff bit `b` of word `w` is set.
pub open spec fn word_bit(w: u64, b: u64) -> bool {
    b < 64 && (w >> b) & 1u64 == 1u64
}

/// A set of cell indices in `0..1024`, one bit per cell.
#[derive(Clone, Copy, Debug, PartialEq, Eq, Hash)]
pub struct Bitboard {
    words: [u64; 16],
}

impl View for Bitboard {
    type V = Seq<bool>;

    closed spec fn view(&self) -> Seq<bool> {
        Seq::new(1024, |i: int| word_bit(self.words@[i / 64], (i % 64) as u64))
    }
}

/// Every bitboard views as a sequence of exactly `CAPACITY` booleans.
pub broadcast proof fn lemma_bitboard_len(bb: Bitboard)
    ensures
        (#[trigger] bb@).len() == 1024,
{
}

// ---------------------------------------------------------------------------
// Word-level bit facts.
// ---------------------------------------------------------------------------

proof fn lemma_word_and(x: u64, y: u64)
    by (bit_vector)
    ensures
        forall|j: u64| #[trigger] word_bit(x & y, j) == (word_bit(x, j) && word_bit(y, j)),
{
}

proof fn lemma_word_or(x: u64, y: u64)
    by (bit_vector)
    ensures
        forall|j: u64| #[trigger] word_bit(x | y, j) == (word_bit(x, j) || word_bit(y, j)),
{
}

proof fn lemma_word_andnot(x: u64, y: u64)
    by (bit_vector)
    ensures
        forall|j: u64| #[trigger] word_bit(x & !y, j) == (word_bit(x, j) && !word_bit(y, j)),
{
}

proof fn lemma_word_not(x: u64)
    by (bit_vector)
    ensures
        forall|j: u64| j < 64 ==> #[trigger] word_bit(!x, j) == !word_bit(x, j),
{
}

proof fn lemma_word_get(w: u64, b: u64)
    by (bit_vector)
    requires
        b < 64,
    ensures
        ((w >> b) & 1u64 != 0) == word_bit(w, b),
{
}

proof fn lemma_word_zero()
    by (bit_vector)
    ensures
        forall|j: u64| !(#[trigger] word_bit(0u64, j)),
{
}

proof fn lemma_word_single(b: u64)
    by (bit_vector)
    requires
        b < 64,
    ensures
        forall|j: u64| #[trigger] word_bit(1u64 << b, j) == (j == b),
{
}

proof fn lemma_word_shl(x: u64, s: u64)
    by (bit_vector)
    requires
        s < 64,
    ensures
        forall|j: u64|
            #[trigger] word_bit(x << s, j) == (j < 64 && j >= s && word_bit(x, (j - s) as u64)),
{
}

proof fn lemma_word_shr(x: u64, s: u64)
    by (bit_vector)
    requires
        s < 64,
    ensures
        forall|j: u64|
            #[trigger] word_bit(x >> s, j) == (j + s < 64 && word_bit(x, (j + s) as u64)),
{
}

proof fn lemma_word_xor(x: u64, y: u64)
    by (bit_vector)
    ensures
        forall|j: u64| #[trigger] word_bit(x ^ y, j) == (word_bit(x, j) != (word_bit(y, j) && j < 64)),
        x ^ y == 0 ==> x == y,
        x == y ==> x ^ y == 0,
{
}

/// A nonzero word has a set bit, namely its lowest one.
proof fn lemma_word_nonzero(x: u64)
    requires
        x != 0,
    ensures
        word_bit(x, vstd::std_specs::bits::u64_trailing_zeros(x) as u64),
        vstd::std_specs::bits::u64_trailing_zeros(x) < 64,
{
    vstd::std_specs::bits::axiom_u64_trailing_zeros(x);
}

/// If two words agree on all 64 bit positions they are equal.
proof fn lemma_word_eq(x: u64, y: u64)
    requires
        forall|j: u64| j < 64 ==> word_bit(x, j) == word_bit(y, j),
    ensures
        x == y,
{
    lemma_word_xor(x, y);
    if x != y {
        let d = x ^ y;
        assert(d != 0);
        lemma_word_nonzero(d);
        let j = vstd::std_specs::bits::u64_trailing_zeros(d) as u64;
        assert(word_bit(d, j));
        assert(word_bit(x, j) != (word_bit(y, j) && j < 64));
        assert(false);
    }
}

// ---------------------------------------------------------------------------
// Decomposition of a cell index into word index and bit offset.
// ---------------------------------------------------------------------------

/// `wi * 64 + j` decomposes back into word index `wi` and offset `j`.
proof fn lemma_compose(wi: int, j: int)
    requires
        0 <= wi,
        0 <= j < 64,
    ensures
        (wi * 64 + j) / 64 == wi,
        (wi * 64 + j) % 64 == j,
{
    vstd::arithmetic::div_mod::lemma_fundamental_div_mod_converse(wi * 64 + j, 64, wi, j);
}

/// A cell index is the composition of its word index and offset.
proof fn lemma_decompose(g: int)
    requires
        0 <= g < 1024,
    ensures
        g == (g / 64) * 64 + g % 64,
        0 <= g / 64 < 16,
        0 <= g % 64 < 64,
{
    vstd::arithmetic::div_mod::lemma_fundamental_div_mod(g, 64);
}

// ---------------------------------------------------------------------------
// Population count over boolean sequences.
// ---------------------------------------------------------------------------

/// Number of `true` entries in a boolean sequence.
pub open spec fn popcount(s: Seq<bool>) -> nat
    decreases s.len(),
{
    if s.len() == 0 {
        0
    } else {
        popcount(s.drop_last()) + (if s.last() {
            1nat
        } else {
            0nat
        })
    }
}

/// Extending a prefix by one cell adds that cell's contribution.
pub proof fn lemma_popcount_take_step(s: Seq<bool>, i: int)
    requires
        0 <= i < s.len(),
    ensures
        popcount(s.take(i + 1)) == popcount(s.take(i)) + (if s[i] {
            1nat
        } else {
            0nat
        }),
{
    assert(s.take(i + 1).drop_last() =~= s.take(i));
    assert(s.take(i + 1).last() == s[i]);
}

/// The count never exceeds the length.
pub proof fn lemma_popcount_le_len(s: Seq<bool>)
    ensures
        popcount(s) <= s.len(),
    decreases s.len(),
{
    if s.len() > 0 {
        lemma_popcount_le_len(s.drop_last());
    }
}

/// Pointwise implication between sequences can only increase the count.
pub proof fn lemma_popcount_monotone(s1: Seq<bool>, s2: Seq<bool>)
    requires
        s1.len() == s2.len(),
        forall|i: int| 0 <= i < s1.len() ==> (s1[i] ==> s2[i]),
    ensures
        popcount(s1) <= popcount(s2),
    decreases s1.len(),
{
    if s1.len() > 0 {
        lemma_popcount_monotone(s1.drop_last(), s2.drop_last());
    }
}

/// A strictly larger set (pointwise) has a strictly larger count.
pub proof fn lemma_popcount_strict(s1: Seq<bool>, s2: Seq<bool>, w: int)
    requires
        s1.len() == s2.len(),
        forall|i: int| 0 <= i < s1.len() ==> (s1[i] ==> s2[i]),
        0 <= w < s1.len(),
        !s1[w],
        s2[w],
    ensures
        popcount(s1) < popcount(s2),
    decreases s1.len(),
{
    if w == s1.len() - 1 {
        lemma_popcount_monotone(s1.drop_last(), s2.drop_last());
    } else {
        lemma_popcount_strict(s1.drop_last(), s2.drop_last(), w);
    }
}

/// Two sequences with no common member count together in their union.
pub proof fn lemma_popcount_disjoint_or(s1: Seq<bool>, s2: Seq<bool>, u: Seq<bool>)
    requires
        s1.len() == s2.len() == u.len(),
        forall|i: int| 0 <= i < u.len() ==> u[i] == (s1[i] || s2[i]),
        forall|i: int| 0 <= i < u.len() ==> !(s1[i] && s2[i]),
    ensures
        popcount(u) == popcount(s1) + popcount(s2),
    decreases u.len(),
{
    if u.len() > 0 {
        lemma_popcount_disjoint_or(s1.drop_last(), s2.drop_last(), u.drop_last());
    }
}

/// A sequence with no member counts to zero.
pub proof fn lemma_popcount_zero(s: Seq<bool>)
    requires
        forall|i: int| 0 <= i < s.len() ==> !s[i],
    ensures
        popcount(s) == 0,
    decreases s.len(),
{
    if s.len() > 0 {
        lemma_popcount_zero(s.drop_last());
    }
}

/// A sequence with exactly one member counts to one.
pub proof fn lemma_popcount_single(s: Seq<bool>, w: int)
    requires
        0 <= w < s.len(),
        forall|i: int| 0 <= i < s.len() ==> s[i] == (i == w),
    ensures
        popcount(s) == 1,
    decreases s.len(),
{
    if w == s.len() - 1 {
        lemma_popcount_zero(s.drop_last());
    } else {
        lemma_popcount_single(s.drop_last(), w);
    }
}

/// A sequence with a member counts at least one.
pub proof fn lemma_popcount_member(s: Seq<bool>, a: int)
    requires
        0 <= a < s.len(),
        s[a],
    ensures
        popcount(s) >= 1,
    decreases s.len(),
{
    if a < s.len() - 1 {
        lemma_popcount_member(s.drop_last(), a);
    }
}

/// A sequence counting at most one has at most one member.
pub proof fn lemma_popcount_unique(s: Seq<bool>, a: int, b: int)
    requires
        popcount(s) <= 1,
        0 <= a < s.len(),
        0 <= b < s.len(),
        s[a],
        s[b],
    ensures
        a == b,
    decreases s.len(),
{
    if a != b {
        if a == s.len() - 1 {
            lemma_popcount_member(s.drop_last(), b);
        } else if b == s.len() - 1 {
            lemma_popcount_member(s.drop_last(), a);
        } else {
            lemma_popcount_unique(s.drop_last(), a, b);
        }
    }
}

/// A sequence empty beyond a prefix counts like the prefix.
pub proof fn lemma_popcount_confined(s: Seq<bool>, k: int)
    requires
        0 <= k <= s.len(),
        forall|i: int| k <= i < s.len() ==> !s[i],
    ensures
        popcount(s) == popcount(s.take(k)),
    decreases s.len(),
{
    if s.len() > k {
        lemma_popcount_confined(s.drop_last(), k);
        assert(s.drop_last().take(k) =~= s.take(k));
    } else {
        assert(s.take(k) =~= s);
    }
}

/// The full-length prefix counts the whole sequence.
pub proof fn lemma_popcount_take_all(s: Seq<bool>)
    ensures
        popcount(s.take(s.len() as int)) == popcount(s),
{
    assert(s.take(s.len() as int) =~= s);
}

impl Bitboard {
    /// All bits zero.
    pub fn empty() -> (r: Self)
        ensures
            forall|i: int| 0 <= i < 1024 ==> !r@[i],
    {
        let r = Bitboard { words: [0u64; 16] };
        proof {
            lemma_word_zero();
        }
        r
    }

    /// Single bit set at `index`.
    pub fn single(index: usize) -> (r: Self)
        requires
            index < 1024,
        ensures
            forall|i: int| 0 <= i < 1024 ==> r@[i] == (i == index),
    {
        let mut bb = Self::empty();
        bb.set(index);
        bb
    }

    /// Construct from raw words; bit `i` of the result is bit `i % 64` of word `i / 64`.
    pub fn from_words(words: [u64; 16]) -> (r: Self)
        ensures
            forall|i: int| 0 <= i < 1024 ==> r@[i] == word_bit(words@[i / 64], (i % 64) as u64),
    {
        Bitboard { words }
    }

    /// Test whether bit `index` is set.
    pub fn get(&self, index: usize) -> (r: bool)
        requires
            index < 1024,
        ensures
            r == self@[index as int],
    {
        proof {
            lemma_decompose(index as int);
            lemma_word_get(self.words@[index as int / 64], (index as int % 64) as u64);
        }
        (self.words[index / 64] >> ((index % 64) as u64)) & 1 != 0
    }

    /// Set bit `index` to 1.
    pub fn set(&mut self, index: usize)
        requires
            index < 1024,
        ensures
            final(self)@ == old(self)@.update(index as int, true),
    {
        let wi = index / 64;
        let b = (index % 64) as u64;
        let w = self.words[wi];
        self.words[wi] = w | (1u64 << b);
        proof {
            lemma_word_single(b);
            lemma_word_or(w, 1u64 << b);
            lemma_decompose(index as int);
            assert forall|g: int| 0 <= g < 1024 implies final(self)@[g] == old(self)@.update(
                index as int,
                true,
            )[g] by {
                lemma_decompose(g);
            }
            assert(final(self)@ =~= old(self)@.update(index as int, true));
        }
    }

    /// Clear bit `index` to 0.
    pub fn clear(&mut self, index: usize)
        requires
            index < 1024,
        ensures
            final(self)@ == old(self)@.update(index as int, false),
    {
        let wi = index / 64;
        let b = (index % 64) as u64;
        let w = self.words[wi];
        self.words[wi] = w & !(1u64 << b);
        proof {
            lemma_word_single(b);
            lemma_word_andnot(w, 1u64 << b);
            lemma_decompose(index as int);
            assert forall|g: int| 0 <= g < 1024 implies final(self)@[g] == old(self)@.update(
                index as int,
                false,
            )[g] by {
                lemma_decompose(g);
            }
            assert(final(self)@ =~= old(self)@.update(index as int, false));
        }
    }

    /// True if no bits are set.
    pub fn is_empty(&self) -> (r: bool)
        ensures
            r == (forall|i: int| 0 <= i < 1024 ==> !self@[i]),
    {
        let mut wi: usize = 0;
        while wi < 16
            invariant
                wi <= 16,
                forall|g: int| 0 <= g < wi * 64 ==> !self@[g],
            decreases 16 - wi,
        {
            let w = self.words[wi];
            if w != 0 {
                proof {
                    lemma_word_nonzero(w);
                    let tz = vstd::std_specs::bits::u64_trailing_zeros(w) as u64;
                    lemma_compose(wi as int, tz as int);
                    assert(self@[wi * 64 + tz as int]);
                }
                return false;
            }
            proof {
                assert forall|g: int| 0 <= g < (wi + 1) * 64 implies !self@[g] by {
                    if g >= wi * 64 {
                        lemma_decompose(g);
                        assert(g / 64 == wi) by {
                            lemma_compose(wi as int, g - wi * 64);
                        }
                        lemma_word_zero();
                    }
                }
            }
            wi = wi + 1;
        }
        true
    }

    /// True if any bit is set.
    pub fn is_nonzero(&self) -> (r: bool)
        ensures
            r == (exists|i: int| 0 <= i < 1024 && self@[i]),
    {
        !self.is_empty()
    }

    /// Population count: the number of set bits.
    pub fn count(&self) -> (r: u32)
        ensures
            r == popcount(self@),
    {
        let r = self.count_w(16);
        proof {
            lemma_popcount_take_all(self@);
        }
        r
    }

    /// Index of the lowest set bit, or `None` if empty.
    pub fn lowest_bit_index(&self) -> (r: Option<usize>)
        ensures
            (r matches Some(k) ==> k < 1024 && self@[k as int] && (forall|j: int|
                0 <= j < k ==> !self@[j])),
            r is None ==> (forall|i: int| 0 <= i < 1024 ==> !self@[i]),
    {
        let mut wi: usize = 0;
        while wi < 16
            invariant
                wi <= 16,
                forall|g: int| 0 <= g < wi * 64 ==> !self@[g],
            decreases 16 - wi,
        {
            let w = self.words[wi];
            if w != 0 {
                let tz = w.trailing_zeros() as usize;
                proof {
                    vstd::std_specs::bits::axiom_u64_trailing_zeros(w);
                    lemma_compose(wi as int, tz as int);
                    assert(word_bit(w, tz as u64));
                    assert forall|j: int| 0 <= j < wi * 64 + tz implies !self@[j] by {
                        if j >= wi * 64 {
                            lemma_decompose(j);
                            lemma_compose(wi as int, j - wi * 64);
                            assert(j / 64 == wi && j % 64 == j - wi * 64);
                            assert((w >> ((j - wi * 64) as u64)) & 1u64 == 0u64);
                        }
                    }
                }
                return Some(wi * 64 + tz);
            }
            proof {
                assert forall|g: int| 0 <= g < (wi + 1) * 64 implies !self@[g] by {
                    if g >= wi * 64 {
                        lemma_decompose(g);
                        lemma_compose(wi as int, g - wi * 64);
                        lemma_word_zero();
                    }
                }
            }
            wi = wi + 1;
        }
        None
    }

    /// Shift all bits left (toward higher indices) by `n` positions.
    /// Bits shifted beyond the capacity are lost.
    pub fn shift_left(&self, n: usize) -> (r: Self)
        ensures
            forall|i: int| 0 <= i < 1024 ==> r@[i] == (n <= i && self@[i - n]),
    {
        if n == 0 {
            return *self;
        }
        if n >= 1024 {
            return Self::empty();
        }
        let ws = n / 64;
        let bs = (n % 64) as u64;
        proof {
            lemma_decompose(n as int);
        }
        let mut out = [0u64; 16];
        proof {
            lemma_word_zero();
        }
        let mut i = ws;
        while i < 16
            invariant
                ws <= i <= 16,
                ws < 16,
                n == ws * 64 + bs,
                0 <= bs < 64,
                n < 1024,
                forall|wi: int, j: u64|
                    0 <= wi < i && j < 64 ==> #[trigger] word_bit(out@[wi], j) == (wi >= ws && n
                        <= wi * 64 + j && self@[wi * 64 + j - n]),
            decreases 16 - i,
        {
            let lo = self.words[i - ws];
            let mut v: u64;
            if bs == 0 {
                v = lo;
            } else {
                v = lo << bs;
                proof {
                    lemma_word_shl(lo, bs);
                }
                if i > ws {
                    let hi = self.words[i - ws - 1];
                    let h = hi >> ((64 - bs) as u64);
                    proof {
                        lemma_word_shr(hi, (64 - bs) as u64);
                        lemma_word_or(v, h);
                    }
                    v = v | h;
                }
            }
            out[i] = v;
            proof {
                assert forall|j: u64| j < 64 implies #[trigger] word_bit(out@[i as int], j) == (
                n <= i * 64 + j && self@[i * 64 + j - n]) by {
                    let g = i * 64 + j;
                    if g >= n {
                        lemma_decompose(g - n);
                        if j >= bs {
                            lemma_compose(i - ws, j - bs);
                            assert(g - n == (i - ws) * 64 + (j - bs));
                        } else {
                            lemma_compose(i - ws - 1, j + 64 - bs);
                            assert(g - n == (i - ws - 1) * 64 + (j + 64 - bs));
                        }
                    }
                }
            }
            i = i + 1;
        }
        let r = Bitboard { words: out };
        proof {
            assert forall|g: int| 0 <= g < 1024 implies r@[g] == (n <= g && self@[g - n]) by {
                lemma_decompose(g);
                if g / 64 < ws {
                    assert(g < ws * 64) by {
                        lemma_compose(g / 64, g % 64);
                    }
                }
            }
        }
        r
    }

    /// Shift all bits right (toward lower indices) by `n` positions.
    /// Bits shifted below 0 are lost.
    pub fn shift_right(&self, n: usize) -> (r: Self)
        ensures
            forall|i: int| 0 <= i < 1024 ==> r@[i] == (i + n < 1024 && self@[i + n]),
    {
        if n == 0 {
            return *self;
        }
        if n >= 1024 {
            return Self::empty();
        }
        let ws = n / 64;
        let bs = (n % 64) as u64;
        proof {
            lemma_decompose(n as int);
        }
        let mut out = [0u64; 16];
        let mut i: usize = 0;
        while i < 16 - ws
            invariant
                0 <= i <= 16 - ws,
                ws < 16,
                n == ws * 64 + bs,
                0 <= bs < 64,
                n < 1024,
                forall|wi: int, j: u64|
                    0 <= wi < i && j < 64 ==> #[trigger] word_bit(out@[wi], j) == (wi * 64 + j + n
                        < 1024 && self@[wi * 64 + j + n]),
                forall|wi: int| i <= wi < 16 ==> out@[wi] == 0,
            decreases 16 - ws - i,
        {
            let lo = self.words[i + ws];
            let mut v: u64;
            if bs == 0 {
                v = lo;
            } else {
                v = lo >> bs;
                proof {
                    lemma_word_shr(lo, bs);
                }
                if i + ws + 1 < 16 {
                    let hi = self.words[i + ws + 1];
                    let h = hi << ((64 - bs) as u64);
                    proof {
                        lemma_word_shl(hi, (64 - bs) as u64);
                        lemma_word_or(v, h);
                    }
                    v = v | h;
                }
            }
            out[i] = v;
            proof {
                assert forall|j: u64| j < 64 implies #[trigger] word_bit(out@[i as int], j) == (
                i * 64 + j + n < 1024 && self@[i * 64 + j + n]) by {
                    let g = i * 64 + j;
                    if g + n < 1024 {
                        lemma_decompose(g + n);
                        if j + bs < 64 {
                            lemma_compose(i + ws, j + bs);
                            assert(g + n == (i + ws) * 64 + (j + bs));
                        } else {
                            lemma_compose(i + ws + 1, j + bs - 64);
                            assert(g + n == (i + ws + 1) * 64 + (j + bs - 64));
                        }
                    }
                }
            }
            i = i + 1;
        }
        let r = Bitboard { words: out };
        proof {
            lemma_word_zero();
            assert forall|g: int| 0 <= g < 1024 implies r@[g] == (g + n < 1024 && self@[g + n])
                by {
                lemma_decompose(g);
                if g / 64 >= 16 - ws {
                    assert(g >= (16 - ws) * 64) by {
                        lemma_compose(g / 64, g % 64);
                    }
                }
            }
        }
        r
    }

    // -----------------------------------------------------------------------
    // Word-count-bounded operations for hot paths.
    // `nw` = number of active words to process. Words at or beyond `nw` are
    // left zero in outputs.
    // -----------------------------------------------------------------------

    /// Shift left bounded to `nw` output words.
    pub fn shift_left_w(&self, n: usize, nw: usize) -> (r: Self)
        requires
            0 < n < 64,
            nw <= 16,
        ensures
            forall|i: int| 0 <= i < 1024 ==> r@[i] == (i < nw * 64 && n <= i && self@[i - n]),
    {
        let mut out = [0u64; 16];
        let bs = n as u64;
        let mut i: usize = 0;
        while i < nw
            invariant
                0 <= i <= nw <= 16,
                bs == n,
                0 < n < 64,
                forall|wi: int, j: u64|
                    0 <= wi < i && j < 64 ==> #[trigger] word_bit(out@[wi], j) == (n <= wi * 64 + j
                        && self@[wi * 64 + j - n]),
                forall|wi: int| i <= wi < 16 ==> out@[wi] == 0,
            decreases nw - i,
        {
            let lo = self.words[i];
            let mut v: u64 = lo << bs;
            proof {
                lemma_word_shl(lo, bs);
            }
            if i > 0 {
                let hi = self.words[i - 1];
                let h = hi >> ((64 - bs) as u64);
                proof {
                    lemma_word_shr(hi, (64 - bs) as u64);
                    lemma_word_or(v, h);
                }
                v = v | h;
            }
            out[i] = v;
            proof {
                assert forall|j: u64| j < 64 implies #[trigger] word_bit(out@[i as int], j) == (
                n <= i * 64 + j && self@[i * 64 + j - n]) by {
                    let g = i * 64 + j;
                    if g >= n {
                        lemma_decompose(g - n);
                        if j >= bs {
                            lemma_compose(i as int, j - bs);
                            assert(g - n == i * 64 + (j - bs));
                        } else {
                            lemma_compose(i - 1, j + 64 - bs);
                            assert(g - n == (i - 1) * 64 + (j + 64 - bs));
                        }
                    }
                }
            }
            i = i + 1;
        }
        let r = Bitboard { words: out };
        proof {
            lemma_word_zero();
            assert forall|g: int| 0 <= g < 1024 implies r@[g] == (g < nw * 64 && n <= g && self@[g
                - n]) by {
                lemma_decompose(g);
                lemma_compose(g / 64, g % 64);
            }
        }
        r
    }

    /// Shift right bounded to `nw` input words. The input must be confined
    /// to its first `nw` words.
    pub fn shift_right_w(&self, n: usize, nw: usize) -> (r: Self)
        requires
            0 < n < 64,
            nw <= 16,
            forall|i: int| nw * 64 <= i < 1024 ==> !self@[i],
        ensures
            forall|i: int| 0 <= i < 1024 ==> r@[i] == (i < nw * 64 && i + n < 1024 && self@[i + n]),
    {
        let mut out = [0u64; 16];
        let bs = n as u64;
        let mut i: usize = 0;
        while i < nw
            invariant
                0 <= i <= nw <= 16,
                bs == n,
                0 < n < 64,
                forall|g: int| nw * 64 <= g < 1024 ==> !self@[g],
                forall|wi: int, j: u64|
                    0 <= wi < i && j < 64 ==> #[trigger] word_bit(out@[wi], j) == (wi * 64 + j + n
                        < 1024 && self@[wi * 64 + j + n]),
                forall|wi: int| i <= wi < 16 ==> out@[wi] == 0,
            decreases nw - i,
        {
            let lo = self.words[i];
            let mut v: u64 = lo >> bs;
            proof {
                lemma_word_shr(lo, bs);
            }
            if i + 1 < 16 {
                let hi = self.words[i + 1];
                let h = hi << ((64 - bs) as u64);
                proof {
                    lemma_word_shl(hi, (64 - bs) as u64);
                    lemma_word_or(v, h);
                }
                v = v | h;
            }
            out[i] = v;
            proof {
                assert forall|j: u64| j < 64 implies #[trigger] word_bit(out@[i as int], j) == (
                i * 64 + j + n < 1024 && self@[i * 64 + j + n]) by {
                    let g = i * 64 + j;
                    if g + n < 1024 {
                        lemma_decompose(g + n);
                        if j + bs < 64 {
                            lemma_compose(i as int, j + bs);
                            assert(g + n == i * 64 + (j + bs));
                        } else {
                            lemma_compose(i + 1, j + bs - 64);
                            assert(g + n == (i + 1) * 64 + (j + bs - 64));
                        }
                    }
                }
            }
            i = i + 1;
        }
        let r = Bitboard { words: out };
        proof {
            lemma_word_zero();
            assert forall|g: int| 0 <= g < 1024 implies r@[g] == (g < nw * 64 && g + n < 1024
                && self@[g + n]) by {
                lemma_decompose(g);
                lemma_compose(g / 64, g % 64);
            }
        }
        r
    }

    /// Bitwise AND bounded to `nw` words.
    pub fn and_w(self, rhs: Bitboard, nw: usize) -> (r: Bitboard)
        requires
            nw <= 16,
        ensures
            forall|i: int| 0 <= i < 1024 ==> r@[i] == (i < nw * 64 && self@[i] && rhs@[i]),
    {
        let mut out = [0u64; 16];
        let mut i: usize = 0;
        while i < nw
            invariant
                0 <= i <= nw <= 16,
                forall|wi: int, j: u64|
                    0 <= wi < i && j < 64 ==> #[trigger] word_bit(out@[wi], j) == (word_bit(
                        self.words@[wi],
                        j,
                    ) && word_bit(rhs.words@[wi], j)),
                forall|wi: int| i <= wi < 16 ==> out@[wi] == 0,
            decreases nw - i,
        {
            proof {
                lemma_word_and(self.words@[i as int], rhs.words@[i as int]);
            }
            out[i] = self.words[i] & rhs.words[i];
            i = i + 1;
        }
        let r = Bitboard { words: out };
        proof {
            lemma_word_zero();
            assert forall|g: int| 0 <= g < 1024 implies r@[g] == (g < nw * 64 && self@[g]
                && rhs@[g]) by {
                lemma_decompose(g);
                lemma_compose(g / 64, g % 64);
            }
        }
        r
    }

    /// Bitwise OR bounded to `nw` words.
    pub fn or_w(self, rhs: Bitboard, nw: usize) -> (r: Bitboard)
        requires
            nw <= 16,
        ensures
            forall|i: int|
                0 <= i < 1024 ==> r@[i] == (i < nw * 64 && (self@[i] || rhs@[i])),
    {
        let mut out = [0u64; 16];
        let mut i: usize = 0;
        while i < nw
            invariant
                0 <= i <= nw <= 16,
                forall|wi: int, j: u64|
                    0 <= wi < i && j < 64 ==> #[trigger] word_bit(out@[wi], j) == (word_bit(
                        self.words@[wi],
                        j,
                    ) || word_bit(rhs.words@[wi], j)),
                forall|wi: int| i <= wi < 16 ==> out@[wi] == 0,
            decreases nw - i,
        {
            proof {
                lemma_word_or(self.words@[i as int], rhs.words@[i as int]);
            }
            out[i] = self.words[i] | rhs.words[i];
            i = i + 1;
        }
        let r = Bitboard { words: out };
        proof {
            lemma_word_zero();
            assert forall|g: int| 0 <= g < 1024 implies r@[g] == (g < nw * 64 && (self@[g]
                || rhs@[g])) by {
                lemma_decompose(g);
                lemma_compose(g / 64, g % 64);
            }
        }
        r
    }

    /// `self & !rhs` bounded to `nw` words.
    pub fn andnot_w(self, rhs: Bitboard, nw: usize) -> (r: Bitboard)
        requires
            nw <= 16,
        ensures
            forall|i: int|
                0 <= i < 1024 ==> r@[i] == (i < nw * 64 && self@[i] && !rhs@[i]),
    {
        let mut out = [0u64; 16];
        let mut i: usize = 0;
        while i < nw
            invariant
                0 <= i <= nw <= 16,
                forall|wi: int, j: u64|
                    0 <= wi < i && j < 64 ==> #[trigger] word_bit(out@[wi], j) == (word_bit(
                        self.words@[wi],
                        j,
                    ) && !word_bit(rhs.words@[wi], j)),
                forall|wi: int| i <= wi < 16 ==> out@[wi] == 0,
            decreases nw - i,
        {
            proof {
                lemma_word_andnot(self.words@[i as int], rhs.words@[i as int]);
            }
            out[i] = self.words[i] & !rhs.words[i];
            i = i + 1;
        }
        let r = Bitboard { words: out };
        proof {
            lemma_word_zero();
            assert forall|g: int| 0 <= g < 1024 implies r@[g] == (g < nw * 64 && self@[g]
                && !rhs@[g]) by {
                lemma_decompose(g);
                lemma_compose(g / 64, g % 64);
            }
        }
        r
    }

    /// Equality check bounded to `nw` words.
    pub fn eq_w(&self, other: &Bitboard, nw: usize) -> (r: bool)
        requires
            nw <= 16,
        ensures
            r == (forall|i: int| 0 <= i < nw * 64 ==> self@[i] == other@[i]),
    {
        let mut i: usize = 0;
        while i < nw
            invariant
                0 <= i <= nw <= 16,
                forall|g: int| 0 <= g < i * 64 ==> self@[g] == other@[g],
            decreases nw - i,
        {
            if self.words[i] != other.words[i] {
                proof {
                    let x = self.words@[i as int];
                    let y = other.words@[i as int];
                    if forall|j: u64| j < 64 ==> word_bit(x, j) == word_bit(y, j) {
                        lemma_word_eq(x, y);
                    }
                    assert(exists|j: u64| j < 64 && word_bit(x, j) != word_bit(y, j));
                    let j = choose|j: u64| j < 64 && word_bit(x, j) != word_bit(y, j);
                    lemma_compose(i as int, j as int);
                    assert(self@[i * 64 + j as int] != other@[i * 64 + j as int]);
                }
                return false;
            }
            proof {
                assert forall|g: int| 0 <= g < (i + 1) * 64 implies self@[g] == other@[g] by {
                    if g >= i * 64 {
                        lemma_decompose(g);
                        lemma_compose(i as int, g - i * 64);
                    }
                }
            }
            i = i + 1;
        }
        true
    }

    /// True if any bit among the first `nw` words is set.
    pub fn is_nonzero_w(&self, nw: usize) -> (r: bool)
        requires
            nw <= 16,
        ensures
            r == (exists|i: int| 0 <= i < nw * 64 && self@[i]),
    {
        !self.is_empty_w(nw)
    }

    /// True if no bits among the first `nw` words are set.
    pub fn is_empty_w(&self, nw: usize) -> (r: bool)
        requires
            nw <= 16,
        ensures
            r == (forall|i: int| 0 <= i < nw * 64 ==> !self@[i]),
    {
        let mut wi: usize = 0;
        while wi < nw
            invariant
                wi <= nw <= 16,
                forall|g: int| 0 <= g < wi * 64 ==> !self@[g],
            decreases nw - wi,
        {
            let w = self.words[wi];
            if w != 0 {
                proof {
                    lemma_word_nonzero(w);
                    let tz = vstd::std_specs::bits::u64_trailing_zeros(w) as u64;
                    lemma_compose(wi as int, tz as int);
                    assert(self@[wi * 64 + tz as int]);
                }
                return false;
            }
            proof {
                assert forall|g: int| 0 <= g < (wi + 1) * 64 implies !self@[g] by {
                    if g >= wi * 64 {
                        lemma_decompose(g);
                        lemma_compose(wi as int, g - wi * 64);
                        lemma_word_zero();
                    }
                }
            }
            wi = wi + 1;
        }
        true
    }

    /// Population count bounded to `nw` words.
    pub fn count_w(&self, nw: usize) -> (r: u32)
        requires
            nw <= 16,
        ensures
            r == popcount(self@.take(nw as int * 64)),
    {
        let mut c: u32 = 0;
        let mut g: usize = 0;
        while g < nw * 64
            invariant
                0 <= g <= nw * 64,
                nw <= 16,
                c == popcount(self@.take(g as int)),
                c <= g,
            decreases nw * 64 - g,
        {
            proof {
                lemma_popcount_take_step(self@, g as int);
            }
            if self.get(g) {
                c = c + 1;
            }
            g = g + 1;
        }
        c
    }

    /// Bitwise AND over the full capacity.
    pub fn and(self, rhs: Bitboard) -> (r: Bitboard)
        ensures
            forall|i: int| 0 <= i < 1024 ==> r@[i] == (self@[i] && rhs@[i]),
    {
        self.and_w(rhs, 16)
    }

    /// Bitwise OR over the full capacity.
    pub fn or(self, rhs: Bitboard) -> (r: Bitboard)
        ensures
            forall|i: int| 0 <= i < 1024 ==> r@[i] == (self@[i] || rhs@[i]),
    {
        self.or_w(rhs, 16)
    }

    /// `self & !rhs` over the full capacity.
    pub fn andnot(self, rhs: Bitboard) -> (r: Bitboard)
        ensures
            forall|i: int| 0 <= i < 1024 ==> r@[i] == (self@[i] && !rhs@[i]),
    {
        self.andnot_w(rhs, 16)
    }

    /// Bitwise complement over the full capacity.
    pub fn not_bits(self) -> (r: Bitboard)
        ensures
            forall|i: int| 0 <= i < 1024 ==> r@[i] == !self@[i],
    {
        let mut out = [0u64; 16];
        let mut i: usize = 0;
        while i < 16
            invariant
                0 <= i <= 16,
                forall|wi: int, j: u64|
                    0 <= wi < i && j < 64 ==> #[trigger] word_bit(out@[wi], j) == !word_bit(
                        self.words@[wi],
                        j,
                    ),
            decreases 16 - i,
        {
            proof {
                lemma_word_not(self.words@[i as int]);
            }
            out[i] = !self.words[i];
            i = i + 1;
        }
        let r = Bitboard { words: out };
        proof {
            assert forall|g: int| 0 <= g < 1024 implies r@[g] == !self@[g] by {
                lemma_decompose(g);
                lemma_compose(g / 64, g % 64);
            }
        }
        r
    }

    /// Iterate over indices of set bits, in ascending order.
    pub fn iter_ones(&self) -> (it: BitIterator)
        ensures
            it.wf(),
            forall|i: int| 0 <= i < 1024 ==> it@[i] == self@[i],
    {
        BitIterator { words: self.words, word_index: 0, word_limit: 16 }
    }

    /// Iterate over set-bit indices, only scanning the first `nw` words.
    pub fn iter_ones_w(&self, nw: usize) -> (it: BitIterator)
        requires
            nw <= 16,
        ensures
            it.wf(),
            forall|i: int| 0 <= i < 1024 ==> it@[i] == (i < nw * 64 && self@[i]),
    {
        let it = BitIterator { words: self.words, word_index: 0, word_limit: nw };
        proof {
            assert forall|g: int| 0 <= g < 1024 implies it@[g] == (g < nw * 64 && self@[g]) by {
                lemma_decompose(g);
                lemma_compose(g / 64, g % 64);
            }
        }
        it
    }
}

/// One-shot iterator over the set-bit indices of a `Bitboard`, ascending.
pub struct BitIterator {
    words: [u64; 16],
    word_index: usize,
    word_limit: usize,
}

impl View for BitIterator {
    type V = Seq<bool>;

    /// The set of indices not yet produced.
    closed spec fn view(&self) -> Seq<bool> {
        Seq::new(
            1024,
            |i: int| i / 64 < self.word_limit && word_bit(self.words@[i / 64], (i % 64) as u64),
        )
    }
}

impl BitIterator {
    /// Scanning position is sound: all words already passed are exhausted.
    pub closed spec fn wf(&self) -> bool {
        self.word_index <= self.word_limit <= 16 && (forall|wi: int|
            0 <= wi < self.word_index ==> self.words@[wi] == 0)
    }

    /// The least remaining set index, removed from the iterator; or `None`.
    pub fn next(&mut self) -> (r: Option<usize>)
        requires
            old(self).wf(),
        ensures
            final(self).wf(),
            (r matches Some(k) ==> k < 1024 && old(self)@[k as int] && (forall|j: int|
                0 <= j < k ==> !old(self)@[j]) && final(self)@ == old(self)@.update(
                k as int,
                false,
            )),
            r is None ==> (forall|i: int| 0 <= i < 1024 ==> !old(self)@[i]) && final(self)@ == old(
                self,
            )@,
    {
        while self.word_index < self.word_limit
            invariant
                self.wf(),
                self.words@ == old(self).words@,
                self.word_limit == old(self).word_limit,
            decreases self.word_limit - self.word_index,
        {
            let wi = self.word_index;
            let w = self.words[wi];
            if w != 0 {
                let tz = w.trailing_zeros() as usize;
                let k = wi * 64 + tz;
                proof {
                    vstd::std_specs::bits::axiom_u64_trailing_zeros(w);
                    lemma_compose(wi as int, tz as int);
                    assert(word_bit(w, tz as u64));
                    lemma_word_single(tz as u64);
                    lemma_word_andnot(w, 1u64 << (tz as u64));
                }
                self.words[wi] = w & !(1u64 << (tz as u64));
                proof {
                    assert forall|j: int| 0 <= j < k implies !old(self)@[j] by {
                        lemma_decompose(j);
                        lemma_compose(j / 64, j % 64);
                        lemma_word_zero();
                        if j / 64 == wi {
                            assert((w >> ((j % 64) as u64)) & 1u64 == 0u64);
                        } else {
                            assert(self.words@[j / 64] == 0);
                        }
                    }
                    assert forall|g: int| 0 <= g < 1024 implies final(self)@[g] == old(
                        self,
                    )@.update(k as int, false)[g] by {
                        lemma_decompose(g);
                        lemma_compose(g / 64, g % 64);
                    }
                    assert(final(self)@ =~= old(self)@.update(k as int, false));
                }
                return Some(k);
            }
            self.word_index = wi + 1;
        }
        proof {
            assert forall|g: int| 0 <= g < 1024 implies !old(self)@[g] by {
                lemma_decompose(g);
                lemma_word_zero();
            }
        }
        None
    }
}

} // verus!
