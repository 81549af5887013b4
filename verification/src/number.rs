//! Natural numbers of any size, held as big-endian bytes.
//!
//! A `Number` is what travels between the protocol logic and the big-integer
//! arithmetic. Its view is the natural number that the bytes spell; the bytes
//! are always kept free of leading zeros, so two numbers are equal exactly
//! when their bytes are.

use vstd::prelude::*;

verus! {

/// The natural number that a big-endian byte string spells.
pub open spec fn be_value(s: Seq<u8>) -> nat
    decreases s.len(),
{
    if s.len() == 0 {
        0
    } else {
        be_value(s.drop_last()) * 256 + s.last() as nat
    }
}

/// A byte string without a leading zero byte.
pub open spec fn canonical(s: Seq<u8>) -> bool {
    s.len() > 0 ==> s[0] != 0
}

/// `256^n`: the number of values that `n` bytes can spell.
pub open spec fn span(n: nat) -> nat
    decreases n,
{
    if n == 0 {
        1
    } else {
        256 * span((n - 1) as nat)
    }
}

/// Appending a byte multiplies the value by 256 and adds the byte.
pub proof fn lemma_be_value_push(s: Seq<u8>, b: u8)
    ensures
        be_value(s.push(b)) == be_value(s) * 256 + b as nat,
{
    assert(s.push(b).drop_last() =~= s);
}

/// A leading zero byte does not change the value.
pub proof fn lemma_be_value_leading_zero(s: Seq<u8>)
    requires
        s.len() > 0,
        s[0] == 0,
    ensures
        be_value(s) == be_value(s.drop_first()),
    decreases s.len(),
{
    if s.len() == 1 {
        assert(be_value(s.drop_last()) == 0);
        assert(be_value(s.drop_first()) == 0);
        assert(s.last() == s[0]);
    } else {
        let t = s.drop_first();
        lemma_be_value_leading_zero(s.drop_last());
        assert(s.drop_last().drop_first() =~= t.drop_last());
        assert(t.last() == s.last());
        assert(be_value(t) == be_value(t.drop_last()) * 256 + t.last() as nat);
    }
}

/// Dropping any number of leading zero bytes does not change the value.
pub proof fn lemma_be_value_skip_zeros(s: Seq<u8>, k: int)
    requires
        0 <= k <= s.len(),
        forall|i: int| 0 <= i < k ==> s[i] == 0,
    ensures
        be_value(s) == be_value(s.skip(k)),
    decreases k,
{
    if k == 0 {
        assert(s.skip(0) =~= s);
    } else {
        lemma_be_value_skip_zeros(s, k - 1);
        let t = s.skip(k - 1);
        assert(t[0] == s[k - 1]);
        lemma_be_value_leading_zero(t);
        assert(t.drop_first() =~= s.skip(k));
    }
}

proof fn lemma_span_monotonic(a: nat, b: nat)
    requires
        a <= b,
    ensures
        span(a) <= span(b),
        span(a) >= 1,
    decreases b,
{
    if a == 0 {
        if b > 0 {
            lemma_span_monotonic(0, (b - 1) as nat);
        }
    } else {
        lemma_span_monotonic((a - 1) as nat, (b - 1) as nat);
    }
}

/// `n` bytes spell a value below `256^n`.
pub proof fn lemma_be_value_upper(s: Seq<u8>)
    ensures
        be_value(s) < span(s.len()),
    decreases s.len(),
{
    if s.len() > 0 {
        lemma_be_value_upper(s.drop_last());
    }
}

/// `n > 0` bytes without a leading zero spell a value of at least `256^(n-1)`.
pub proof fn lemma_be_value_lower(s: Seq<u8>)
    requires
        s.len() > 0,
        s[0] != 0,
    ensures
        be_value(s) >= span((s.len() - 1) as nat),
    decreases s.len(),
{
    if s.len() == 1 {
        assert(s.drop_last().len() == 0);
    } else {
        lemma_be_value_lower(s.drop_last());
    }
}

proof fn lemma_same_length_unique(a: Seq<u8>, b: Seq<u8>)
    requires
        a.len() == b.len(),
        be_value(a) == be_value(b),
    ensures
        a == b,
    decreases a.len(),
{
    if a.len() == 0 {
        assert(a =~= b);
    } else {
        lemma_same_length_unique(a.drop_last(), b.drop_last());
        assert(a =~= a.drop_last().push(a.last()));
        assert(b =~= b.drop_last().push(b.last()));
    }
}

/// Two byte strings without leading zeros that spell the same value are the
/// same string.
pub proof fn lemma_canonical_unique(a: Seq<u8>, b: Seq<u8>)
    requires
        canonical(a),
        canonical(b),
        be_value(a) == be_value(b),
    ensures
        a == b,
{
    lemma_be_value_upper(a);
    lemma_be_value_upper(b);
    if a.len() < b.len() {
        lemma_be_value_lower(b);
        lemma_span_monotonic(a.len(), (b.len() - 1) as nat);
    } else if b.len() < a.len() {
        lemma_be_value_lower(a);
        lemma_span_monotonic(b.len(), (a.len() - 1) as nat);
    } else {
        lemma_same_length_unique(a, b);
    }
}

/// A natural number of any size.
#[derive(Debug)]
pub struct Number {
    bytes: Vec<u8>,
}

impl View for Number {
    type V = nat;

    closed spec fn view(&self) -> nat {
        be_value(self.bytes@)
    }
}

impl Number {
    #[verifier::type_invariant]
    spec fn well_formed(self) -> bool {
        canonical(self.bytes@)
    }

    /// The number zero.
    pub fn zero() -> (r: Number)
        ensures
            r@ == 0,
    {
        Number { bytes: Vec::new() }
    }

    /// The number one.
    pub fn one() -> (r: Number)
        ensures
            r@ == 1,
    {
        let mut bytes: Vec<u8> = Vec::new();
        bytes.push(1u8);
        proof {
            lemma_be_value_push(Seq::<u8>::empty(), 1u8);
            assert(bytes@ =~= Seq::<u8>::empty().push(1u8));
        }
        Number { bytes }
    }

    /// The number that `bytes` spell, most significant byte first. Leading
    /// zero bytes are accepted and dropped.
    pub fn from_bytes(bytes: &[u8]) -> (r: Number)
        ensures
            r@ == be_value(bytes@),
    {
        let n: usize = bytes.len();
        let mut start: usize = 0;
        while start < n && bytes[start] == 0
            invariant
                n == bytes@.len(),
                start <= n,
                forall|i: int| 0 <= i < start ==> bytes@[i] == 0,
            decreases n - start,
        {
            start = start + 1;
        }
        let mut kept: Vec<u8> = Vec::new();
        let mut i: usize = start;
        while i < n
            invariant
                n == bytes@.len(),
                start <= i <= n,
                kept@ == bytes@.subrange(start as int, i as int),
            decreases n - i,
        {
            kept.push(bytes[i]);
            i = i + 1;
            assert(kept@ =~= bytes@.subrange(start as int, i as int));
        }
        proof {
            assert(bytes@.subrange(start as int, n as int) =~= bytes@.skip(start as int));
            lemma_be_value_skip_zeros(bytes@, start as int);
        }
        Number { bytes: kept }
    }

    /// The bytes of this number, most significant first, without leading
    /// zeros. Zero is the empty string.
    pub fn to_bytes(&self) -> (r: Vec<u8>)
        ensures
            be_value(r@) == self@,
            canonical(r@),
    {
        proof {
            use_type_invariant(self);
        }
        let n: usize = self.bytes.len();
        let mut out: Vec<u8> = Vec::new();
        let mut i: usize = 0;
        while i < n
            invariant
                n == self.bytes@.len(),
                i <= n,
                out@ == self.bytes@.subrange(0, i as int),
            decreases n - i,
        {
            out.push(self.bytes[i]);
            i = i + 1;
            assert(out@ =~= self.bytes@.subrange(0, i as int));
        }
        assert(out@ =~= self.bytes@);
        out
    }

    /// A second copy of this number.
    pub fn duplicate(&self) -> (r: Number)
        ensures
            r@ == self@,
    {
        let bytes = self.to_bytes();
        Number { bytes }
    }

    /// Whether this number is zero.
    pub fn is_zero(&self) -> (r: bool)
        ensures
            r == (self@ == 0),
    {
        proof {
            use_type_invariant(self);
            if self.bytes@.len() > 0 {
                lemma_be_value_lower(self.bytes@);
                lemma_span_monotonic(0, (self.bytes@.len() - 1) as nat);
            }
        }
        self.bytes.len() == 0
    }

    /// Whether the two numbers are the same.
    pub fn equals(&self, other: &Number) -> (r: bool)
        ensures
            r == (self@ == other@),
    {
        proof {
            use_type_invariant(self);
            use_type_invariant(other);
            if self@ == other@ {
                lemma_canonical_unique(self.bytes@, other.bytes@);
            }
        }
        let n: usize = self.bytes.len();
        if n != other.bytes.len() {
            return false;
        }
        let mut i: usize = 0;
        while i < n
            invariant
                n == self.bytes@.len(),
                n == other.bytes@.len(),
                i <= n,
                forall|k: int| 0 <= k < i ==> self.bytes@[k] == other.bytes@[k],
                self@ == other@ ==> self.bytes@ == other.bytes@,
            decreases n - i,
        {
            if self.bytes[i] != other.bytes[i] {
                return false;
            }
            i = i + 1;
        }
        assert(self.bytes@ =~= other.bytes@);
        true
    }
}

} // verus!
