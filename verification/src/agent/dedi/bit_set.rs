use vstd::prelude::*;
use vstd::string::StringExecFns;

verus! {

/// A set of the numbers below 192, one bit each: `a` holds 0 to 63, `b` 64 to
/// 127 and `c` 128 to 191.
#[derive(Debug, Clone, Copy, Default, PartialEq, Eq, Structural)]
pub struct Bitset192 {
    pub a: u64,
    pub b: u64,
    pub c: u64,
}

/// Bit `i` of `w`.
pub open spec fn bit(w: u64, i: u64) -> bool {
    (w >> i) & 1 != 0
}

impl Bitset192 {
    /// Whether `i` is in the set.
    pub open spec fn has(self, i: int) -> bool {
        if 0 <= i < 64 {
            bit(self.a, i as u64)
        } else if 64 <= i < 128 {
            bit(self.b, (i - 64) as u64)
        } else if 128 <= i < 192 {
            bit(self.c, (i - 128) as u64)
        } else {
            false
        }
    }

    pub fn new(a: u64, b: u64, c: u64) -> (s: Self)
        ensures
            s == (Bitset192 { a, b, c }),
    {
        Self { a, b, c }
    }

    pub fn get_bit(&self, idx: usize) -> (r: bool)
        requires
            idx < 192,
        ensures
            r == self.has(idx as int),
    {
        if idx < 64 {
            (self.a >> idx as u64) & 1 != 0
        } else if idx < 128 {
            (self.b >> (idx - 64) as u64) & 1 != 0
        } else {
            (self.c >> (idx - 128) as u64) & 1 != 0
        }
    }

    pub fn set_bit(&mut self, idx: usize)
        requires
            idx < 192,
        ensures
            forall|j: int| #[trigger] final(self).has(j) == (j == idx || old(self).has(j)),
    {
        if idx < 64 {
            let i = idx as u64;
            let w = self.a;
            self.a = w | (1u64 << i);
            proof {
                lemma_set_word(w, i);
            }
        } else if idx < 128 {
            let i = (idx - 64) as u64;
            let w = self.b;
            self.b = w | (1u64 << i);
            proof {
                lemma_set_word(w, i);
            }
        } else {
            let i = (idx - 128) as u64;
            let w = self.c;
            self.c = w | (1u64 << i);
            proof {
                lemma_set_word(w, i);
            }
        }
    }

    pub fn clear_bit(&mut self, idx: usize)
        requires
            idx < 192,
        ensures
            forall|j: int| #[trigger] final(self).has(j) == (j != idx && old(self).has(j)),
    {
        if idx < 64 {
            let i = idx as u64;
            let w = self.a;
            self.a = w & !(1u64 << i);
            proof {
                lemma_clear_word(w, i);
            }
        } else if idx < 128 {
            let i = (idx - 64) as u64;
            let w = self.b;
            self.b = w & !(1u64 << i);
            proof {
                lemma_clear_word(w, i);
            }
        } else {
            let i = (idx - 128) as u64;
            let w = self.c;
            self.c = w & !(1u64 << i);
            proof {
                lemma_clear_word(w, i);
            }
        }
    }

    /// Whether the set has an element.
    pub fn any(&self) -> (r: bool)
        ensures
            r == exists|j: int| 0 <= j < 192 && #[trigger] self.has(j),
    {
        proof {
            lemma_word_nonzero(self.a);
            lemma_word_nonzero(self.b);
            lemma_word_nonzero(self.c);
            if self.a != 0 {
                let i = choose|i: u64| i < 64 && bit(self.a, i);
                assert(self.has(i as int));
            }
            if self.b != 0 {
                let i = choose|i: u64| i < 64 && bit(self.b, i);
                assert(self.has(i + 64));
            }
            if self.c != 0 {
                let i = choose|i: u64| i < 64 && bit(self.c, i);
                assert(self.has(i + 128));
            }
        }
        self.a != 0 || self.b != 0 || self.c != 0
    }

    /// The elements in both sets.
    pub fn bitand(self, rhs: Self) -> (r: Self)
        ensures
            forall|j: int| #[trigger] r.has(j) == (self.has(j) && rhs.has(j)),
    {
        let r = Self { a: self.a & rhs.a, b: self.b & rhs.b, c: self.c & rhs.c };
        proof {
            lemma_and_words(self.a, rhs.a);
            lemma_and_words(self.b, rhs.b);
            lemma_and_words(self.c, rhs.c);
        }
        r
    }

    /// The elements in either set.
    pub fn bitor(self, rhs: Self) -> (r: Self)
        ensures
            forall|j: int| #[trigger] r.has(j) == (self.has(j) || rhs.has(j)),
    {
        let r = Self { a: self.a | rhs.a, b: self.b | rhs.b, c: self.c | rhs.c };
        proof {
            lemma_or_words(self.a, rhs.a);
            lemma_or_words(self.b, rhs.b);
            lemma_or_words(self.c, rhs.c);
        }
        r
    }

    /// The elements in exactly one of the sets.
    pub fn bitxor(self, rhs: Self) -> (r: Self)
        ensures
            forall|j: int| #[trigger] r.has(j) == (self.has(j) != rhs.has(j)),
    {
        let r = Self { a: self.a ^ rhs.a, b: self.b ^ rhs.b, c: self.c ^ rhs.c };
        proof {
            lemma_xor_words(self.a, rhs.a);
            lemma_xor_words(self.b, rhs.b);
            lemma_xor_words(self.c, rhs.c);
        }
        r
    }

    /// The numbers below 192 not in the set.
    pub fn not(self) -> (r: Self)
        ensures
            forall|j: int| 0 <= j < 192 ==> #[trigger] r.has(j) == !self.has(j),
    {
        let r = Self { a: !self.a, b: !self.b, c: !self.c };
        proof {
            lemma_not_word(self.a);
            lemma_not_word(self.b);
            lemma_not_word(self.c);
        }
        r
    }

    pub fn bitand_assign(&mut self, rhs: Self)
        ensures
            forall|j: int| #[trigger] final(self).has(j) == (old(self).has(j) && rhs.has(j)),
    {
        *self = self.bitand(rhs);
    }

    pub fn bitor_assign(&mut self, rhs: Self)
        ensures
            forall|j: int| #[trigger] final(self).has(j) == (old(self).has(j) || rhs.has(j)),
    {
        *self = self.bitor(rhs);
    }

    pub fn bitxor_assign(&mut self, rhs: Self)
        ensures
            forall|j: int| #[trigger] final(self).has(j) == (old(self).has(j) != rhs.has(j)),
    {
        *self = self.bitxor(rhs);
    }

    /// The elements below `n`, in increasing order.
    pub open spec fn ones_below(self, n: int) -> Seq<usize>
        decreases n,
    {
        if n <= 0 {
            Seq::empty()
        } else {
            self.ones_below(n - 1) + if self.has(n - 1) {
                seq![(n - 1) as usize]
            } else {
                Seq::empty()
            }
        }
    }

    /// The elements in increasing order.
    pub fn iter_ones(&self) -> (v: Vec<usize>)
        ensures
            v@ == self.ones_below(192),
    {
        let mut v: Vec<usize> = Vec::new();
        let mut i: usize = 0;
        while i < 192
            invariant
                i <= 192,
                v@ == self.ones_below(i as int),
            decreases 192 - i,
        {
            if self.get_bit(i) {
                v.push(i);
            }
            i += 1;
        }
        v
    }
}

proof fn lemma_set_word(w: u64, i: u64)
    requires
        i < 64,
    ensures
        forall|j: u64| j < 64 ==> #[trigger] bit(w | (1u64 << i), j) == (j == i || bit(w, j)),
{
    assert forall|j: u64| j < 64 implies #[trigger] bit(w | (1u64 << i), j) == (j == i || bit(w, j)) by {
        assert(((w | (1u64 << i)) >> j) & 1 != 0 <==> (j == i || (w >> j) & 1 != 0)) by (bit_vector)
            requires
                i < 64,
                j < 64,
        ;
    }
}

proof fn lemma_clear_word(w: u64, i: u64)
    requires
        i < 64,
    ensures
        forall|j: u64| j < 64 ==> #[trigger] bit(w & !(1u64 << i), j) == (j != i && bit(w, j)),
{
    assert forall|j: u64| j < 64 implies #[trigger] bit(w & !(1u64 << i), j) == (j != i && bit(w, j)) by {
        assert(((w & !(1u64 << i)) >> j) & 1 != 0 <==> (j != i && (w >> j) & 1 != 0)) by (bit_vector)
            requires
                i < 64,
                j < 64,
        ;
    }
}

proof fn lemma_and_words(x: u64, y: u64)
    ensures
        forall|j: u64| #[trigger] bit(x & y, j) == (bit(x, j) && bit(y, j)),
{
    assert forall|j: u64| #[trigger] bit(x & y, j) == (bit(x, j) && bit(y, j)) by {
        assert((((x & y) >> j) & 1 != 0) <==> ((x >> j) & 1 != 0 && (y >> j) & 1 != 0)) by (bit_vector);
    }
}

proof fn lemma_or_words(x: u64, y: u64)
    ensures
        forall|j: u64| #[trigger] bit(x | y, j) == (bit(x, j) || bit(y, j)),
{
    assert forall|j: u64| #[trigger] bit(x | y, j) == (bit(x, j) || bit(y, j)) by {
        assert((((x | y) >> j) & 1 != 0) <==> ((x >> j) & 1 != 0 || (y >> j) & 1 != 0)) by (bit_vector);
    }
}

proof fn lemma_xor_words(x: u64, y: u64)
    ensures
        forall|j: u64| #[trigger] bit(x ^ y, j) == (bit(x, j) != bit(y, j)),
{
    assert forall|j: u64| #[trigger] bit(x ^ y, j) == (bit(x, j) != bit(y, j)) by {
        assert((((x ^ y) >> j) & 1 != 0) <==> ((x >> j) & 1 != 0) != ((y >> j) & 1 != 0)) by (bit_vector);
    }
}

proof fn lemma_not_word(x: u64)
    ensures
        forall|j: u64| j < 64 ==> #[trigger] bit(!x, j) == !bit(x, j),
{
    assert forall|j: u64| j < 64 implies #[trigger] bit(!x, j) == !bit(x, j) by {
        assert(((!x >> j) & 1 != 0) <==> !((x >> j) & 1 != 0)) by (bit_vector)
            requires
                j < 64,
        ;
    }
}

/// A word is nonzero exactly when one of its 64 bits is set.
proof fn lemma_word_nonzero(w: u64)
    ensures
        w != 0 <==> exists|i: u64| i < 64 && #[trigger] bit(w, i),
    decreases w,
{
    if w == 0 {
        assert forall|i: u64| i < 64 implies !#[trigger] bit(w, i) by {
            assert(((0u64 >> i) & 1 != 0) == false) by (bit_vector);
        }
    } else if w & 1 != 0 {
        assert((w >> 0u64) & 1 != 0) by (bit_vector)
            requires
                w & 1 != 0,
        ;
        assert(bit(w, 0));
    } else {
        let h = w >> 1u64;
        assert((w >> 1u64) < w && (w >> 1u64) != 0) by (bit_vector)
            requires
                w != 0,
                w & 1 == 0,
        ;
        lemma_word_nonzero(h);
        let i = choose|i: u64| i < 64 && bit(h, i);
        assert(i < 63 && bit(w, (i + 1) as u64)) by (bit_vector)
            requires
                i < 64,
                ((w >> 1u64) >> i) & 1 != 0,
        ;
    }
}

/// Setting a number and reading it gives true, and other numbers read as
/// before.
pub proof fn lemma_set_then_get(s: Bitset192, t: Bitset192, idx: int, j: int)
    requires
        0 <= idx < 192,
        forall|k: int| #[trigger] t.has(k) == (k == idx || s.has(k)),
    ensures
        t.has(idx),
        j != idx ==> t.has(j) == s.has(j),
{
}

/// Clearing a number and reading it gives false, and other numbers read as
/// before.
pub proof fn lemma_clear_then_get(s: Bitset192, t: Bitset192, idx: int, j: int)
    requires
        0 <= idx < 192,
        forall|k: int| #[trigger] t.has(k) == (k != idx && s.has(k)),
    ensures
        !t.has(idx),
        j != idx ==> t.has(j) == s.has(j),
{
}

/// The bits `k - 1` down to `0` of `w`, as `'1'` and `'0'`.
pub open spec fn word_bits(w: u64, k: int) -> Seq<char>
    decreases k,
{
    if k <= 0 {
        Seq::empty()
    } else {
        seq![if bit(w, (k - 1) as u64) { '1' } else { '0' }] + word_bits(w, k - 1)
    }
}

/// The bits of a word, highest first.
fn word_string(w: u64) -> (s: String)
    ensures
        s@ == word_bits(w, 64),
{
    let mut out = String::new();
    let mut k: u64 = 64;
    while k > 0
        invariant
            k <= 64,
            out@ + word_bits(w, k as int) == word_bits(w, 64),
        decreases k,
    {
        let one = (w >> (k - 1)) & 1 != 0;
        let ghost before = out@;
        if one {
            out = out.concat("1");
        } else {
            out = out.concat("0");
        }
        proof {
            reveal_strlit("1");
            reveal_strlit("0");
            assert(word_bits(w, k as int) == seq![if bit(w, (k - 1) as u64) { '1' } else { '0' }] + word_bits(w, k - 1));
            assert(out@ + word_bits(w, k - 1) =~= before + word_bits(w, k as int));
        }
        k -= 1;
    }
    proof {
        assert(out@ + word_bits(w, 0) =~= out@);
    }
    out
}

impl Bitset192 {
    /// The set as its bits, highest first, the three words apart.
    pub open spec fn bit_string(self) -> Seq<char> {
        "Bitset192("@ + word_bits(self.c, 64) + seq!['_'] + word_bits(self.b, 64) + seq!['_'] + word_bits(self.a, 64) + ")"@
    }

    /// The set as its bits: `Bitset192(`, the bits 191 down to 128, `_`, the
    /// bits 127 down to 64, `_`, the bits 63 down to 0, and `)`.
    pub fn to_bit_string(&self) -> (s: String)
        ensures
            s@ == self.bit_string(),
    {
        let mut out = String::from_str("Bitset192(");
        let c = word_string(self.c);
        let b = word_string(self.b);
        let a = word_string(self.a);
        out = out.concat(c.as_str());
        out = out.concat("_");
        out = out.concat(b.as_str());
        out = out.concat("_");
        out = out.concat(a.as_str());
        out = out.concat(")");
        proof {
            reveal_strlit("_");
            assert(out@ =~= self.bit_string());
        }
        out
    }
}

} // verus!
