use vstd::arithmetic::power2::{
    lemma2_to64,
    lemma2_to64_rest,
    lemma_pow2_strictly_increases,
    lemma_pow2_unfold,
    pow2,
};
use vstd::prelude::*;
use vstd::string::*;

verus! {

/// A gene: one of the two characters a chromosome is written with.
pub open spec fn is_bit(c: char) -> bool {
    c == '0' || c == '1'
}

/// A chromosome: a string made of `'0'` and `'1'` only.
pub open spec fn is_chromosome(s: Seq<char>) -> bool {
    forall|i: int| 0 <= i < s.len() ==> is_bit(#[trigger] s[i])
}

pub open spec fn bit_value(c: char) -> nat {
    if c == '1' {
        1
    } else {
        0
    }
}

/// The number that `s` writes in binary, most significant bit first.
pub open spec fn bits_value(s: Seq<char>) -> nat
    decreases s.len(),
{
    if s.len() == 0 {
        0
    } else {
        2 * bits_value(s.drop_last()) + bit_value(s.last())
    }
}

/// The largest number that `length` bits can write.
pub open spec fn max_code_of(length: nat) -> nat {
    (pow2(length) - 1) as nat
}

/// The number of bits needed for `steps` resolution steps: the least `n` with
/// `2^n >= steps`.
pub open spec fn is_bit_length_for(steps: nat, n: nat) -> bool {
    steps <= pow2(n) && (n == 0 || pow2((n - 1) as nat) < steps)
}

pub proof fn lemma_pow2_facts(n: nat)
    requires
        n <= 64,
    ensures
        pow2(n) <= pow2(64),
        pow2(64) == 0x1_0000_0000_0000_0000,
        n < 64 ==> pow2(n) <= pow2(63),
        pow2(63) == 0x8000_0000_0000_0000,
{
    lemma2_to64();
    lemma2_to64_rest();
    if n < 64 {
        lemma_pow2_strictly_increases(n, 64);
    }
    if n < 63 {
        lemma_pow2_strictly_increases(n, 63);
    }
}

/// A number written in `n` bits is below `2^n`.
pub proof fn lemma_bits_value_bound(s: Seq<char>)
    ensures
        bits_value(s) < pow2(s.len()),
    decreases s.len(),
{
    if s.len() == 0 {
        lemma2_to64();
    } else {
        lemma_bits_value_bound(s.drop_last());
        lemma_pow2_unfold(s.len());
    }
}

/// Putting a bit in front adds its weight.
pub proof fn lemma_bits_value_prepend(c: char, s: Seq<char>)
    ensures
        bits_value(seq![c] + s) == bit_value(c) * pow2(s.len()) + bits_value(s),
    decreases s.len(),
{
    let t = seq![c] + s;
    if s.len() == 0 {
        assert(t.drop_last() =~= Seq::<char>::empty());
        assert(t.last() == c);
        assert(bits_value(t.drop_last()) == 0);
        lemma2_to64();
    } else {
        assert(t.drop_last() =~= seq![c] + s.drop_last());
        assert(t.last() == s.last());
        lemma_bits_value_prepend(c, s.drop_last());
        lemma_pow2_unfold(s.len());
        let p = pow2((s.len() - 1) as nat);
        assert(2 * (bit_value(c) * p) == bit_value(c) * (2 * p)) by (nonlinear_arith);
    }
}

/// Relies on `String::push`: appends one character at the end.
#[verifier::external_body]
pub(crate) fn push_char(s: &mut String, c: char)
    ensures
        final(s)@ == old(s)@.push(c),
{
    s.push(c)
}

/// Reads the bits of `chromosome` in `from..to` as a big-endian number.
pub fn decode_range(chromosome: &str, from: usize, to: usize) -> (r: u64)
    requires
        from <= to <= chromosome@.len(),
        to - from <= 64,
        is_chromosome(chromosome@),
    ensures
        r == bits_value(chromosome@.subrange(from as int, to as int)),
{
    let ghost s = chromosome@;
    let mut acc: u64 = 0;
    let mut i: usize = from;
    proof {
        assert(s.subrange(from as int, from as int) =~= Seq::<char>::empty());
        lemma2_to64();
    }
    while i < to
        invariant
            from <= i <= to <= s.len(),
            to - from <= 64,
            s == chromosome@,
            acc == bits_value(s.subrange(from as int, i as int)),
            acc < pow2((i - from) as nat),
        decreases to - i,
    {
        let c = chromosome.get_char(i);
        let b: u64 = if c == '1' { 1 } else { 0 };
        proof {
            lemma_pow2_facts((i - from) as nat);
            let next = s.subrange(from as int, i + 1);
            assert(next.drop_last() =~= s.subrange(from as int, i as int));
            assert(next.last() == c);
            lemma_pow2_unfold((i + 1 - from) as nat);
        }
        acc = acc * 2 + b;
        i = i + 1;
    }
    acc
}

/// Reads a chromosome as a big-endian binary number.
pub fn decode(chromosome: &str) -> (r: u64)
    requires
        1 <= chromosome@.len() <= 64,
        is_chromosome(chromosome@),
    ensures
        r == bits_value(chromosome@),
        r <= max_code_of(chromosome@.len()),
{
    let n = chromosome.unicode_len();
    proof {
        assert(chromosome@.subrange(0, n as int) =~= chromosome@);
        lemma_bits_value_bound(chromosome@);
    }
    decode_range(chromosome, 0, n)
}

/// Writes `value` in exactly `length` bits, most significant first.
pub fn encode(value: u64, length: usize) -> (r: String)
    requires
        length <= 64,
        value < pow2(length as nat),
    ensures
        r@.len() == length,
        is_chromosome(r@),
        bits_value(r@) == value,
{
    let mut bits: Vec<char> = Vec::new();
    let mut q: u64 = value;
    let mut k: usize = 0;
    proof {
        lemma2_to64();
    }
    while k < length
        invariant
            k <= length <= 64,
            bits@.len() == k,
            is_chromosome(bits@),
            value == q * pow2(k as nat) + bits_value(bits@),
        decreases length - k,
    {
        let c = if q % 2 == 1 { '1' } else { '0' };
        let ghost old_bits = bits@;
        let ghost old_q = q;
        bits.insert(0, c);
        q = q / 2;
        k = k + 1;
        proof {
            assert(bits@ =~= seq![c] + old_bits);
            lemma_bits_value_prepend(c, old_bits);
            lemma_pow2_unfold(k as nat);
            let p = pow2((k - 1) as nat);
            let r = old_q % 2;
            assert(bit_value(c) == r);
            assert(old_q == 2 * q + r);
            assert(old_q * p == q * (2 * p) + r * p) by (nonlinear_arith)
                requires
                    old_q == 2 * q + r,
            ;
        }
    }
    proof {
        if q > 0 {
            assert(q * pow2(length as nat) >= pow2(length as nat)) by (nonlinear_arith)
                requires
                    q > 0,
            ;
        }
    }
    let mut out = String::new();
    let mut i: usize = 0;
    while i < length
        invariant
            i <= length == bits@.len(),
            out@ == bits@.subrange(0, i as int),
        decreases length - i,
    {
        push_char(&mut out, bits[i]);
        i = i + 1;
        assert(out@ =~= bits@.subrange(0, i as int));
    }
    assert(out@ =~= bits@);
    out
}

/// The largest number that `length` bits can write, `2^length - 1`.
pub fn max_code(length: usize) -> (r: u64)
    requires
        length <= 64,
    ensures
        r == max_code_of(length as nat),
{
    let mut p: u128 = 1;
    let mut i: usize = 0;
    proof {
        lemma2_to64();
    }
    while i < length
        invariant
            i <= length <= 64,
            p == pow2(i as nat),
            p >= 1,
        decreases length - i,
    {
        proof {
            lemma_pow2_facts(i as nat);
            lemma_pow2_unfold((i + 1) as nat);
        }
        p = p * 2;
        i = i + 1;
    }
    proof {
        lemma_pow2_facts(length as nat);
    }
    (p - 1) as u64
}

/// The number of bits that a variable needs to be resolved into `steps`
/// steps: the least `n` with `2^n >= steps` (the ceiling of `log2(steps)`).
pub fn bit_length(steps: u64) -> (r: usize)
    ensures
        r <= 64,
        is_bit_length_for(steps as nat, r as nat),
{
    let mut p: u128 = 1;
    let mut r: usize = 0;
    proof {
        lemma2_to64();
    }
    while p < steps as u128
        invariant
            r <= 64,
            p == pow2(r as nat),
            p >= 1,
            r == 0 || pow2((r - 1) as nat) < steps,
        decreases 64 - r,
    {
        proof {
            lemma_pow2_facts(r as nat);
            lemma_pow2_unfold((r + 1) as nat);
            if r == 64 {
                assert(false);
            }
        }
        p = p * 2;
        r = r + 1;
    }
    r
}

} // verus!
