use crate::candidate::{Candidate, GaError};
use crate::codec::{
    bits_value,
    decode_range,
    encode,
    is_bit,
    is_chromosome,
    max_code,
    max_code_of,
    push_char,
};
use crate::random::{random_in_range, random_up_to};
use crate::select::{generate_mating_pool, mating_pool_of, ranked, total_fitness};
use crate::variation::{
    apply_mask,
    crossover_at,
    draw_mask,
    flip_bits,
    is_mask_draw,
    splice,
};
use vstd::arithmetic::div_mod::lemma_small_mod;
use vstd::arithmetic::power2::{lemma_pow2_pos, pow2};
use vstd::prelude::*;
use vstd::string::*;

verus! {

/// The two numbers that a chromosome encodes: its first `length_x1` genes
/// and the rest, each read as a big-endian binary number.
pub open spec fn decoded_pair(code: Seq<char>, length_x1: nat) -> (u64, u64) {
    (
        bits_value(code.subrange(0, length_x1 as int)) as u64,
        bits_value(code.subrange(length_x1 as int, code.len() as int)) as u64,
    )
}

/// A candidate whose chromosome has the layout `length_x1` + `length_x2` and
/// whose fitness is what the objective gave for the chromosome's decoded pair.
pub open spec fn is_consistent<F: Fn(u64, u64) -> u64>(
    c: Candidate,
    length_x1: nat,
    length_x2: nat,
    objective: F,
) -> bool {
    &&& c.code@.len() == length_x1 + length_x2
    &&& is_chromosome(c.code@)
    &&& objective.ensures(decoded_pair(c.code@, length_x1), c.fitness)
}

/// Every candidate of `s` is consistent.
pub open spec fn all_consistent<F: Fn(u64, u64) -> u64>(
    s: Seq<Candidate>,
    length_x1: nat,
    length_x2: nat,
    objective: F,
) -> bool {
    forall|i: int| 0 <= i < s.len() ==> is_consistent(#[trigger] s[i], length_x1, length_x2, objective)
}

/// The pool members whose child stands at position `k` of the next
/// generation: members `k` and `k + 1` (wrapping) at an even `k`, members
/// `k` and `k - 1` at an odd one.
pub open spec fn parents_of(k: int, n: int) -> (int, int) {
    if k % 2 == 0 {
        (k, (k + 1) % n)
    } else {
        (k, k - 1)
    }
}

/// The crossover child at position `k` of the next generation, before
/// mutation: its first parent's head and its second parent's tail at `locus`.
pub open spec fn child_code(pool: Seq<Candidate>, k: int, locus: int) -> Seq<char> {
    let parents = parents_of(k, pool.len() as int);
    splice(pool[parents.0].code@, pool[parents.1].code@, locus)
}

/// The random draws of one breeding over a pool of `n`: one interior locus
/// per pair (`loci[p]` for children `2p` and `2p + 1`) and one mutation mask
/// per child, at rate `numerator / denominator`, over chromosomes of `len`.
pub open spec fn are_breeding_draws(
    loci: Seq<usize>,
    masks: Seq<Vec<bool>>,
    n: nat,
    len: nat,
    numerator: nat,
    denominator: nat,
) -> bool {
    &&& loci.len() == n / 2 + n % 2
    &&& masks.len() == n
    &&& forall|p: int| 0 <= p < loci.len() ==> 1 <= #[trigger] loci[p] < len
    &&& forall|k: int| 0 <= k < n ==> is_mask_draw(#[trigger] masks[k]@, len, numerator, denominator)
}

/// `next` is what breeding `pool` gives with these draws: child `k` is the
/// crossover child at its pair's locus, with its mask's genes flipped.
pub open spec fn is_bred_with(
    next: Seq<Candidate>,
    pool: Seq<Candidate>,
    loci: Seq<usize>,
    masks: Seq<Vec<bool>>,
) -> bool {
    &&& next.len() == pool.len()
    &&& forall|k: int|
        0 <= k < next.len() ==> #[trigger] next[k].code@ == apply_mask(
            child_code(pool, k, loci[k / 2] as int),
            masks[k]@,
        )
}

/// `next` is what breeding `pool` gives for some draws at this rate.
pub open spec fn is_bred_from(
    next: Seq<Candidate>,
    pool: Seq<Candidate>,
    len: nat,
    numerator: nat,
    denominator: nat,
) -> bool {
    exists|loci: Seq<usize>, masks: Seq<Vec<bool>>|
        are_breeding_draws(loci, masks, pool.len(), len, numerator, denominator)
            && is_bred_with(next, pool, loci, masks)
}

/// `history` lists the generations of a run, the first one first: each has
/// `pop_size` consistent candidates, and each after the first is bred from
/// the mating pool of the one before it.
pub open spec fn is_run<F: Fn(u64, u64) -> u64>(
    history: Seq<Seq<Candidate>>,
    pop_size: nat,
    length_x1: nat,
    length_x2: nat,
    numerator: nat,
    denominator: nat,
    objective: F,
) -> bool {
    &&& forall|g: int|
        0 <= g < history.len() ==> (#[trigger] history[g]).len() == pop_size && all_consistent(
            history[g],
            length_x1,
            length_x2,
            objective,
        )
    &&& forall|g: int|
        1 <= g < history.len() ==> is_bred_from(
            #[trigger] history[g],
            mating_pool_of(ranked(history[g - 1]), total_fitness(history[g - 1]), pop_size),
            length_x1 + length_x2,
            numerator,
            denominator,
        )
}

/// Bounds that every layout of a chromosome keeps: each variable fits a `u64`.
pub open spec fn is_layout(length_x1: nat, length_x2: nat) -> bool {
    length_x1 <= 64 && length_x2 <= 64
}

pub proof fn lemma_splice_chromosome(a: Seq<char>, b: Seq<char>, locus: int)
    requires
        is_chromosome(a),
        is_chromosome(b),
        0 <= locus <= a.len() == b.len(),
    ensures
        is_chromosome(splice(a, b, locus)),
        splice(a, b, locus).len() == a.len(),
{
    let s = splice(a, b, locus);
    assert forall|i: int| 0 <= i < s.len() implies is_bit(#[trigger] s[i]) by {
        if i < locus {
            assert(s[i] == a[i]);
        } else {
            assert(s[i] == b[i]);
        }
    }
}

pub proof fn lemma_mask_chromosome(c: Seq<char>, mask: Seq<bool>)
    requires
        is_chromosome(c),
        mask.len() == c.len(),
    ensures
        is_chromosome(apply_mask(c, mask)),
        apply_mask(c, mask).len() == c.len(),
{
    let m = apply_mask(c, mask);
    assert forall|i: int| 0 <= i < m.len() implies is_bit(#[trigger] m[i]) by {
        assert(is_bit(c[i]));
    }
}

/// Appends `t` to `s`.
pub fn append_str(s: &mut String, t: &str)
    ensures
        final(s)@ == old(s)@ + t@,
{
    let n = t.unicode_len();
    let ghost start = s@;
    let mut i: usize = 0;
    while i < n
        invariant
            i <= n == t@.len(),
            s@ == start + t@.subrange(0, i as int),
        decreases n - i,
    {
        push_char(s, t.get_char(i));
        i = i + 1;
        assert(s@ =~= start + t@.subrange(0, i as int));
    }
    assert(t@.subrange(0, n as int) =~= t@);
}

/// Decodes a chromosome into its two variables' numbers.
pub fn decode_pair(code: &str, length_x1: usize) -> (r: (u64, u64))
    requires
        is_chromosome(code@),
        length_x1 <= code@.len(),
        length_x1 <= 64,
        code@.len() - length_x1 <= 64,
    ensures
        r == decoded_pair(code@, length_x1 as nat),
{
    let n = code.unicode_len();
    let a = decode_range(code, 0, length_x1);
    let b = decode_range(code, length_x1, n);
    (a, b)
}

/// A candidate for `code`, scored by the objective on its decoded pair.
pub fn evaluate<F: Fn(u64, u64) -> u64>(
    code: String,
    length_x1: usize,
    length_x2: usize,
    objective: &F,
) -> (r: Candidate)
    requires
        is_layout(length_x1 as nat, length_x2 as nat),
        code@.len() == length_x1 + length_x2,
        is_chromosome(code@),
        forall|a: u64, b: u64| objective.requires((a, b)),
    ensures
        r.code@ == code@,
        is_consistent(r, length_x1 as nat, length_x2 as nat, *objective),
{
    let (a, b) = decode_pair(code.as_str(), length_x1);
    let fitness = objective(a, b);
    Candidate { code, fitness }
}

/// The first generation: `pop_size` candidates, each from a point drawn
/// uniformly over the grid of both variables, encoded into its chromosome
/// and scored at that same point.
pub fn generate_population<F: Fn(u64, u64) -> u64>(
    length_x1: usize,
    length_x2: usize,
    pop_size: usize,
    objective: &F,
) -> (r: Vec<Candidate>)
    requires
        is_layout(length_x1 as nat, length_x2 as nat),
        forall|a: u64, b: u64| objective.requires((a, b)),
    ensures
        r@.len() == pop_size,
        all_consistent(r@, length_x1 as nat, length_x2 as nat, *objective),
{
    let top1 = max_code(length_x1);
    let top2 = max_code(length_x2);
    proof {
        lemma_pow2_pos(length_x1 as nat);
        lemma_pow2_pos(length_x2 as nat);
    }
    let mut population: Vec<Candidate> = Vec::new();
    while population.len() < pop_size
        invariant
            population@.len() <= pop_size,
            is_layout(length_x1 as nat, length_x2 as nat),
            top1 == max_code_of(length_x1 as nat),
            top2 == max_code_of(length_x2 as nat),
            pow2(length_x1 as nat) > 0,
            pow2(length_x2 as nat) > 0,
            forall|a: u64, b: u64| objective.requires((a, b)),
            all_consistent(population@, length_x1 as nat, length_x2 as nat, *objective),
        decreases pop_size - population@.len(),
    {
        let d1 = random_up_to(top1);
        let d2 = random_up_to(top2);
        let mut code = encode(d1, length_x1);
        let tail = encode(d2, length_x2);
        let ghost head = code@;
        append_str(&mut code, tail.as_str());
        proof {
            assert forall|i: int| 0 <= i < code@.len() implies is_bit(#[trigger] code@[i]) by {
                if i < head.len() {
                    assert(code@[i] == head[i]);
                } else {
                    assert(code@[i] == tail@[i - head.len()]);
                }
            }
        }
        let c = evaluate(code, length_x1, length_x2, objective);
        population.push(c);
    }
    population
}

/// The candidate of highest fitness; among equals, the last one.
pub fn best_index(population: &Vec<Candidate>) -> (r: usize)
    requires
        population@.len() > 0,
    ensures
        r < population@.len(),
        forall|j: int| 0 <= j < population@.len() ==> population@[r as int].fitness >= #[trigger] population@[j].fitness,
        forall|j: int| r < j < population@.len() ==> population@[r as int].fitness > #[trigger] population@[j].fitness,
{
    let mut best: usize = 0;
    let mut i: usize = 1;
    while i < population.len()
        invariant
            1 <= i <= population@.len(),
            best < i,
            forall|j: int| 0 <= j < i ==> population@[best as int].fitness >= #[trigger] population@[j].fitness,
            forall|j: int| best < j < i ==> population@[best as int].fitness > #[trigger] population@[j].fitness,
        decreases population.len() - i,
    {
        if population[i].fitness >= population[best].fitness {
            best = i;
        }
        i = i + 1;
    }
    best
}

/// Breeds the next generation from a mating pool with given draws: members
/// `i` and `i + 1` (the last one with member `0` when the pool is odd) are
/// crossed at locus `loci[i / 2]`, child `k` is mutated by flipping the genes
/// where `masks[k]` is `true`, and each child is scored on its own decoded
/// chromosome. The new generation is as large as the pool: of an odd pool's
/// last pair only the first child is kept.
pub fn breed_with<F: Fn(u64, u64) -> u64>(
    pool: &Vec<Candidate>,
    loci: &Vec<usize>,
    masks: &Vec<Vec<bool>>,
    length_x1: usize,
    length_x2: usize,
    objective: &F,
) -> (r: Vec<Candidate>)
    requires
        is_layout(length_x1 as nat, length_x2 as nat),
        loci@.len() == pool@.len() / 2 + pool@.len() % 2,
        masks@.len() == pool@.len(),
        forall|p: int| 0 <= p < loci@.len() ==> 1 <= #[trigger] loci@[p] < length_x1 + length_x2,
        forall|k: int| 0 <= k < masks@.len() ==> (#[trigger] masks@[k])@.len() == length_x1 + length_x2,
        forall|a: u64, b: u64| objective.requires((a, b)),
        all_consistent(pool@, length_x1 as nat, length_x2 as nat, *objective),
    ensures
        is_bred_with(r@, pool@, loci@, masks@),
        all_consistent(r@, length_x1 as nat, length_x2 as nat, *objective),
{
    let n = pool.len();
    let ghost len = (length_x1 + length_x2) as nat;
    let mut next: Vec<Candidate> = Vec::new();
    while next.len() < n
        invariant
            n == pool@.len(),
            next@.len() <= n,
            next@.len() % 2 == 0 || next@.len() == n,
            len == length_x1 + length_x2,
            loci@.len() == n / 2 + n % 2,
            masks@.len() == n,
            forall|p: int| 0 <= p < loci@.len() ==> 1 <= #[trigger] loci@[p] < len,
            forall|k: int| 0 <= k < masks@.len() ==> (#[trigger] masks@[k])@.len() == len,
            forall|k: int|
                0 <= k < next@.len() ==> #[trigger] next@[k].code@ == apply_mask(
                    child_code(pool@, k, loci@[k / 2] as int),
                    masks@[k]@,
                ),
            is_layout(length_x1 as nat, length_x2 as nat),
            forall|a: u64, b: u64| objective.requires((a, b)),
            all_consistent(pool@, length_x1 as nat, length_x2 as nat, *objective),
            all_consistent(next@, length_x1 as nat, length_x2 as nat, *objective),
        decreases n - next@.len(),
    {
        let i = next.len();
        let j = (i + 1) % n;
        let p1 = &pool[i].code;
        let p2 = &pool[j].code;
        assert(is_consistent(pool@[i as int], length_x1 as nat, length_x2 as nat, *objective));
        assert(is_consistent(pool@[j as int], length_x1 as nat, length_x2 as nat, *objective));
        let locus = loci[i / 2];
        let (child1, child2) = crossover_at(p1.as_str(), p2.as_str(), locus);
        proof {
            lemma_splice_chromosome(p1@, p2@, locus as int);
            lemma_splice_chromosome(p2@, p1@, locus as int);
            assert(parents_of(i as int, n as int) == (i as int, j as int));
        }
        let mutated1 = flip_bits(child1.as_str(), &masks[i]);
        proof {
            lemma_mask_chromosome(child1@, masks@[i as int]@);
        }
        let first = evaluate(mutated1, length_x1, length_x2, objective);
        next.push(first);
        if next.len() < n {
            proof {
                lemma_small_mod((i + 1) as nat, n as nat);
                assert(parents_of(i + 1, n as int) == (j as int, i as int));
                assert((i + 1) / 2 == i / 2);
            }
            let mutated2 = flip_bits(child2.as_str(), &masks[i + 1]);
            proof {
                lemma_mask_chromosome(child2@, masks@[i + 1]@);
            }
            let second = evaluate(mutated2, length_x1, length_x2, objective);
            next.push(second);
        }
    }
    next
}

/// Breeds the next generation from a mating pool as `breed_with` does, with
/// loci drawn uniformly from `1..len` and each gene flipped with probability
/// `rate_numerator / rate_denominator`.
pub fn breed<F: Fn(u64, u64) -> u64>(
    pool: &Vec<Candidate>,
    length_x1: usize,
    length_x2: usize,
    rate_numerator: u32,
    rate_denominator: u32,
    objective: &F,
) -> (r: Vec<Candidate>)
    requires
        is_layout(length_x1 as nat, length_x2 as nat),
        length_x1 + length_x2 >= 2,
        0 < rate_denominator,
        rate_numerator <= rate_denominator,
        forall|a: u64, b: u64| objective.requires((a, b)),
        all_consistent(pool@, length_x1 as nat, length_x2 as nat, *objective),
    ensures
        r@.len() == pool@.len(),
        is_bred_from(
            r@,
            pool@,
            (length_x1 + length_x2) as nat,
            rate_numerator as nat,
            rate_denominator as nat,
        ),
        all_consistent(r@, length_x1 as nat, length_x2 as nat, *objective),
{
    let n = pool.len();
    let len = length_x1 + length_x2;
    let pairs = n / 2 + n % 2;
    let mut loci: Vec<usize> = Vec::new();
    while loci.len() < pairs
        invariant
            loci@.len() <= pairs,
            len >= 2,
            forall|p: int| 0 <= p < loci@.len() ==> 1 <= #[trigger] loci@[p] < len,
        decreases pairs - loci@.len(),
    {
        loci.push(random_in_range(1, len));
    }
    let mut masks: Vec<Vec<bool>> = Vec::new();
    while masks.len() < n
        invariant
            masks@.len() <= n,
            0 < rate_denominator,
            rate_numerator <= rate_denominator,
            forall|k: int|
                0 <= k < masks@.len() ==> is_mask_draw(
                    #[trigger] masks@[k]@,
                    len as nat,
                    rate_numerator as nat,
                    rate_denominator as nat,
                ),
        decreases n - masks@.len(),
    {
        masks.push(draw_mask(len, rate_numerator, rate_denominator));
    }
    let next = breed_with(pool, &loci, &masks, length_x1, length_x2, objective);
    assert(are_breeding_draws(
        loci@,
        masks@,
        n as nat,
        len as nat,
        rate_numerator as nat,
        rate_denominator as nat,
    ));
    next
}

/// One generation: a mating pool as large as the population, then the
/// children bred from it. Fails when the fitness scores sum to zero.
pub fn evolve_generation<F: Fn(u64, u64) -> u64>(
    population: &Vec<Candidate>,
    length_x1: usize,
    length_x2: usize,
    rate_numerator: u32,
    rate_denominator: u32,
    objective: &F,
) -> (r: Result<Vec<Candidate>, GaError>)
    requires
        is_layout(length_x1 as nat, length_x2 as nat),
        length_x1 + length_x2 >= 2,
        0 < rate_denominator,
        rate_numerator <= rate_denominator,
        forall|a: u64, b: u64| objective.requires((a, b)),
        all_consistent(population@, length_x1 as nat, length_x2 as nat, *objective),
    ensures
        total_fitness(population@) == 0 <==> r == Err::<Vec<Candidate>, GaError>(
            GaError::ZeroTotalFitness,
        ),
        total_fitness(population@) > 0 <==> r is Ok,
        r is Ok ==> r->Ok_0@.len() == population@.len(),
        r is Ok ==> is_bred_from(
            r->Ok_0@,
            mating_pool_of(
                ranked(population@),
                total_fitness(population@),
                population@.len() as nat,
            ),
            (length_x1 + length_x2) as nat,
            rate_numerator as nat,
            rate_denominator as nat,
        ),
        r is Ok ==> all_consistent(r->Ok_0@, length_x1 as nat, length_x2 as nat, *objective),
{
    let pool = match generate_mating_pool(population, population.len()) {
        Ok(pool) => pool,
        Err(e) => {
            return Err(e);
        },
    };
    proof {
        assert forall|k: int| 0 <= k < pool@.len() implies is_consistent(
            #[trigger] pool@[k],
            length_x1 as nat,
            length_x2 as nat,
            *objective,
        ) by {
            assert(population@.contains(pool@[k]));
        }
    }
    Ok(breed(&pool, length_x1, length_x2, rate_numerator, rate_denominator, objective))
}

/// Runs the optimizer: a first generation of `pop_size` candidates, then
/// `generations` generations of selection and breeding, and reports the
/// candidate of highest fitness in the last generation. Chromosomes hold
/// `length_x1` genes for the first variable and `length_x2` for the second;
/// genes mutate with probability `rate_numerator / rate_denominator`. Before
/// each generation `observer` is told its index and its best fitness.
/// Fails when the chromosome is shorter than two genes, and when a
/// generation's fitness scores sum to zero.
pub fn genetic_algorithm<F: Fn(u64, u64) -> u64, O: Fn(usize, u64)>(
    pop_size: usize,
    length_x1: usize,
    length_x2: usize,
    generations: usize,
    rate_numerator: u32,
    rate_denominator: u32,
    objective: &F,
    observer: &O,
) -> (r: Result<Candidate, GaError>)
    requires
        pop_size >= 1,
        is_layout(length_x1 as nat, length_x2 as nat),
        0 < rate_denominator,
        rate_numerator <= rate_denominator,
        forall|a: u64, b: u64| objective.requires((a, b)),
        forall|g: usize, best: u64| observer.requires((g, best)),
    ensures
        length_x1 + length_x2 < 2 <==> r == Err::<Candidate, GaError>(
            GaError::DegenerateChromosome,
        ),
        r is Err ==> r == Err::<Candidate, GaError>(GaError::DegenerateChromosome) || r == Err::<
            Candidate,
            GaError,
        >(GaError::ZeroTotalFitness),
        r == Err::<Candidate, GaError>(GaError::ZeroTotalFitness) ==> exists|
            history: Seq<Seq<Candidate>>,
        |
            1 <= history.len() <= generations && is_run(
                history,
                pop_size as nat,
                length_x1 as nat,
                length_x2 as nat,
                rate_numerator as nat,
                rate_denominator as nat,
                *objective,
            ) && total_fitness(history.last()) == 0,
        length_x1 + length_x2 >= 2 && generations == 0 ==> r is Ok,
        length_x1 + length_x2 >= 2 && (forall|a: u64, b: u64, f: u64|
            objective.ensures((a, b), f) ==> f > 0) ==> r is Ok,
        r is Ok ==> is_consistent(r->Ok_0, length_x1 as nat, length_x2 as nat, *objective),
        r is Ok ==> exists|history: Seq<Seq<Candidate>>|
            history.len() == generations + 1 && is_run(
                history,
                pop_size as nat,
                length_x1 as nat,
                length_x2 as nat,
                rate_numerator as nat,
                rate_denominator as nat,
                *objective,
            ) && history.last().contains(r->Ok_0) && forall|j: int|
                0 <= j < pop_size ==> r->Ok_0.fitness >= #[trigger] history.last()[j].fitness,
{
    if length_x1 + length_x2 < 2 {
        return Err(GaError::DegenerateChromosome);
    }
    let mut population = generate_population(length_x1, length_x2, pop_size, objective);
    let ghost mut history: Seq<Seq<Candidate>> = seq![population@];
    let mut generation: usize = 0;
    while generation < generations
        invariant
            generation <= generations,
            history.len() == generation + 1,
            history.last() == population@,
            is_run(
                history,
                pop_size as nat,
                length_x1 as nat,
                length_x2 as nat,
                rate_numerator as nat,
                rate_denominator as nat,
                *objective,
            ),
            population@.len() == pop_size >= 1,
            is_layout(length_x1 as nat, length_x2 as nat),
            length_x1 + length_x2 >= 2,
            0 < rate_denominator,
            rate_numerator <= rate_denominator,
            forall|a: u64, b: u64| objective.requires((a, b)),
            forall|g: usize, best: u64| observer.requires((g, best)),
            all_consistent(population@, length_x1 as nat, length_x2 as nat, *objective),
        decreases generations - generation,
    {
        let best = best_index(&population);
        observer(generation, population[best].fitness);
        proof {
            if forall|a: u64, b: u64, f: u64| objective.ensures((a, b), f) ==> f > 0 {
                let last = population@.last();
                assert(is_consistent(
                    population@[pop_size - 1],
                    length_x1 as nat,
                    length_x2 as nat,
                    *objective,
                ));
                assert(last.fitness > 0);
                assert(total_fitness(population@) >= last.fitness);
            }
        }
        population =
        match evolve_generation(
            &population,
            length_x1,
            length_x2,
            rate_numerator,
            rate_denominator,
            objective,
        ) {
            Ok(next) => next,
            Err(e) => {
                return Err(e);
            },
        };
        proof {
            let before = history;
            history = history.push(population@);
            assert(history[history.len() - 2] == before.last());
            assert forall|g: int| 0 <= g < history.len() implies (#[trigger] history[g]).len()
                == pop_size && all_consistent(
                history[g],
                length_x1 as nat,
                length_x2 as nat,
                *objective,
            ) by {
                if g < before.len() {
                    assert(history[g] == before[g]);
                }
            }
            assert forall|g: int| 1 <= g < history.len() implies is_bred_from(
                #[trigger] history[g],
                mating_pool_of(
                    ranked(history[g - 1]),
                    total_fitness(history[g - 1]),
                    pop_size as nat,
                ),
                (length_x1 + length_x2) as nat,
                rate_numerator as nat,
                rate_denominator as nat,
            ) by {
                if g < before.len() {
                    assert(history[g] == before[g]);
                    assert(history[g - 1] == before[g - 1]);
                }
            }
        }
        generation = generation + 1;
    }
    let best = best_index(&population);
    assert(is_consistent(population@[best as int], length_x1 as nat, length_x2 as nat, *objective));
    let winner = population[best].duplicate();
    assert(population@.contains(winner));
    Ok(winner)
}

} // verus!
