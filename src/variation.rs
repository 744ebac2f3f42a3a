use crate::candidate::GaError;
use crate::codec::push_char;
use crate::random::{random_chance, random_in_range};
use vstd::prelude::*;
use vstd::string::*;

verus! {

/// The child of single-point crossover at `locus` that takes its head from
/// `head` and its tail from `tail`.
pub open spec fn splice(head: Seq<char>, tail: Seq<char>, locus: int) -> Seq<char> {
    head.subrange(0, locus) + tail.subrange(locus, tail.len() as int)
}

/// The other gene: `'0'` becomes `'1'`, anything else becomes `'0'`.
pub open spec fn flip(c: char) -> char {
    if c == '0' {
        '1'
    } else {
        '0'
    }
}

/// `c` with the genes flipped where `mask` is `true`.
pub open spec fn apply_mask(c: Seq<char>, mask: Seq<bool>) -> Seq<char> {
    Seq::new(c.len(), |i: int| if mask[i] { flip(c[i]) } else { c[i] })
}

/// A mask of `len` draws at rate `numerator / denominator`: all `false` at
/// rate zero, all `true` at rate one.
pub open spec fn is_mask_draw(mask: Seq<bool>, len: nat, numerator: nat, denominator: nat) -> bool {
    &&& mask.len() == len
    &&& numerator == 0 ==> forall|i: int| 0 <= i < len ==> !#[trigger] mask[i]
    &&& numerator == denominator ==> forall|i: int| 0 <= i < len ==> #[trigger] mask[i]
}

/// `m` is `c` with some genes flipped.
pub open spec fn is_mutation_of(c: Seq<char>, m: Seq<char>) -> bool {
    m.len() == c.len() && forall|i: int| 0 <= i < c.len() ==> #[trigger] m[i] == c[i] || m[i] == flip(c[i])
}

/// `m` is `c` with every gene flipped.
pub open spec fn is_complement_of(c: Seq<char>, m: Seq<char>) -> bool {
    m.len() == c.len() && forall|i: int| 0 <= i < c.len() ==> #[trigger] m[i] == flip(c[i])
}

/// Crossover keeps lengths, and the head of the first child joined to the
/// tail of the second at the same locus gives back the first parent (and
/// symmetrically the second).
pub proof fn lemma_crossover_conservation(p1: Seq<char>, p2: Seq<char>, locus: int)
    requires
        p1.len() == p2.len(),
        0 <= locus <= p1.len(),
    ensures
        splice(p1, p2, locus).len() == p1.len(),
        splice(p2, p1, locus).len() == p2.len(),
        splice(splice(p1, p2, locus), splice(p2, p1, locus), locus) == p1,
        splice(splice(p2, p1, locus), splice(p1, p2, locus), locus) == p2,
{
    assert(splice(splice(p1, p2, locus), splice(p2, p1, locus), locus) =~= p1);
    assert(splice(splice(p2, p1, locus), splice(p1, p2, locus), locus) =~= p2);
}

/// Single-point crossover at a given locus: the first child is `p1` up to
/// `locus` then `p2`, the second `p2` up to `locus` then `p1`.
pub fn crossover_at(p1: &str, p2: &str, locus: usize) -> (r: (String, String))
    requires
        p1@.len() == p2@.len(),
        locus <= p1@.len(),
    ensures
        r.0@ == splice(p1@, p2@, locus as int),
        r.1@ == splice(p2@, p1@, locus as int),
{
    let n = p1.unicode_len();
    let mut c1 = String::new();
    let mut c2 = String::new();
    let mut i: usize = 0;
    while i < n
        invariant
            i <= n == p1@.len() == p2@.len(),
            locus <= n,
            c1@ == splice(p1@, p2@, locus as int).subrange(0, i as int),
            c2@ == splice(p2@, p1@, locus as int).subrange(0, i as int),
        decreases n - i,
    {
        if i < locus {
            push_char(&mut c1, p1.get_char(i));
            push_char(&mut c2, p2.get_char(i));
        } else {
            push_char(&mut c1, p2.get_char(i));
            push_char(&mut c2, p1.get_char(i));
        }
        i = i + 1;
        assert(c1@ =~= splice(p1@, p2@, locus as int).subrange(0, i as int));
        assert(c2@ =~= splice(p2@, p1@, locus as int).subrange(0, i as int));
    }
    assert(c1@ =~= splice(p1@, p2@, locus as int));
    assert(c2@ =~= splice(p2@, p1@, locus as int));
    (c1, c2)
}

/// Single-point crossover at a locus drawn uniformly from `1..len`, so that
/// each child has genes of both parents. Fails on parents of different
/// lengths, and on parents shorter than two genes.
pub fn crossover(p1: &str, p2: &str) -> (r: Result<(String, String), GaError>)
    ensures
        p1@.len() != p2@.len() <==> r == Err::<(String, String), GaError>(
            GaError::MismatchedChromosomeLength,
        ),
        p1@.len() == p2@.len() && p1@.len() < 2 <==> r == Err::<(String, String), GaError>(
            GaError::DegenerateChromosome,
        ),
        p1@.len() == p2@.len() && p1@.len() >= 2 <==> r is Ok,
        r is Ok ==> exists|locus: int|
            1 <= locus < p1@.len() && r->Ok_0.0@ == splice(p1@, p2@, locus) && r->Ok_0.1@
                == splice(p2@, p1@, locus),
{
    let n = p1.unicode_len();
    if n != p2.unicode_len() {
        return Err(GaError::MismatchedChromosomeLength);
    }
    if n < 2 {
        return Err(GaError::DegenerateChromosome);
    }
    let locus = random_in_range(1, n);
    Ok(crossover_at(p1, p2, locus))
}

/// Flips the genes at the positions where `mask` is `true`.
pub fn flip_bits(chromosome: &str, mask: &Vec<bool>) -> (r: String)
    requires
        mask@.len() == chromosome@.len(),
    ensures
        r@ == apply_mask(chromosome@, mask@),
        r@.len() == chromosome@.len(),
        forall|i: int|
            0 <= i < chromosome@.len() ==> #[trigger] r@[i] == if mask@[i] {
                flip(chromosome@[i])
            } else {
                chromosome@[i]
            },
{
    let n = chromosome.unicode_len();
    let mut out = String::new();
    let mut i: usize = 0;
    while i < n
        invariant
            i <= n == chromosome@.len() == mask@.len(),
            out@.len() == i,
            forall|k: int|
                0 <= k < i ==> #[trigger] out@[k] == if mask@[k] {
                    flip(chromosome@[k])
                } else {
                    chromosome@[k]
                },
        decreases n - i,
    {
        let c = chromosome.get_char(i);
        let g = if mask[i] {
            if c == '0' {
                '1'
            } else {
                '0'
            }
        } else {
            c
        };
        push_char(&mut out, g);
        i = i + 1;
    }
    assert(out@ =~= apply_mask(chromosome@, mask@));
    out
}

/// Draws `len` independent flips, each `true` with probability
/// `rate_numerator / rate_denominator`.
pub fn draw_mask(len: usize, rate_numerator: u32, rate_denominator: u32) -> (r: Vec<bool>)
    requires
        0 < rate_denominator,
        rate_numerator <= rate_denominator,
    ensures
        is_mask_draw(r@, len as nat, rate_numerator as nat, rate_denominator as nat),
{
    let mut mask: Vec<bool> = Vec::new();
    while mask.len() < len
        invariant
            mask@.len() <= len,
            rate_numerator == 0 ==> forall|k: int| 0 <= k < mask@.len() ==> !#[trigger] mask@[k],
            rate_numerator == rate_denominator ==> forall|k: int|
                0 <= k < mask@.len() ==> #[trigger] mask@[k],
            0 < rate_denominator,
            rate_numerator <= rate_denominator,
        decreases len - mask@.len(),
    {
        let b = random_chance(rate_numerator, rate_denominator);
        mask.push(b);
    }
    mask
}

/// Mutates a chromosome gene by gene: each gene is flipped, independently,
/// with probability `rate_numerator / rate_denominator`. A rate of zero
/// leaves the chromosome as it was; a rate of one flips every gene.
pub fn mutate(chromosome: &mut String, rate_numerator: u32, rate_denominator: u32)
    requires
        0 < rate_denominator,
        rate_numerator <= rate_denominator,
    ensures
        exists|mask: Seq<bool>|
            is_mask_draw(
                mask,
                old(chromosome)@.len(),
                rate_numerator as nat,
                rate_denominator as nat,
            ) && final(chromosome)@ == apply_mask(old(chromosome)@, mask),
        is_mutation_of(old(chromosome)@, final(chromosome)@),
        rate_numerator == 0 ==> final(chromosome)@ == old(chromosome)@,
        rate_numerator == rate_denominator ==> is_complement_of(
            old(chromosome)@,
            final(chromosome)@,
        ),
{
    let n = chromosome.unicode_len();
    let mask = draw_mask(n, rate_numerator, rate_denominator);
    let mutated = flip_bits(chromosome.as_str(), &mask);
    proof {
        if rate_numerator == 0 {
            assert(mutated@ =~= chromosome@);
        }
    }
    *chromosome = mutated;
}

} // verus!
