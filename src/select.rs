use crate::candidate::{Candidate, GaError};
use vstd::arithmetic::div_mod::lemma_div_is_ordered;
use vstd::arithmetic::mul::lemma_mul_inequality;
use vstd::prelude::*;
use vstd::seq_lib::{to_multiset_build, to_multiset_contains, to_multiset_insert, to_multiset_len};

verus! {

/// The sum of the fitness scores of `s`.
pub open spec fn total_fitness(s: Seq<Candidate>) -> nat
    decreases s.len(),
{
    if s.len() == 0 {
        0
    } else {
        total_fitness(s.drop_last()) + s.last().fitness as nat
    }
}

/// Fitness never increases along `s`.
pub open spec fn is_sorted_by_fitness(s: Seq<Candidate>) -> bool {
    forall|i: int, j: int| 0 <= i < j < s.len() ==> s[i].fitness >= s[j].fitness
}

/// The number of pool slots that a candidate's share of the total fitness
/// earns: `floor(fitness / total * slots)`.
pub open spec fn slot_share(fitness: nat, total: nat, slots: nat) -> nat {
    if total == 0 {
        0
    } else {
        (fitness * slots) / total
    }
}

/// `count` copies of `c`.
pub open spec fn copies_of(c: Candidate, count: nat) -> Seq<Candidate> {
    Seq::new(count, |_i: int| c)
}

/// The proportional part of the pool: each candidate of `s`, in order, gets
/// its slot share of copies, as far as room is left among `slots`.
pub open spec fn allocation(s: Seq<Candidate>, total: nat, slots: nat) -> Seq<Candidate>
    decreases s.len(),
{
    if s.len() == 0 {
        Seq::empty()
    } else {
        let prev = allocation(s.drop_last(), total, slots);
        let room: nat = if prev.len() < slots {
            (slots - prev.len()) as nat
        } else {
            0
        };
        let earned = slot_share(s.last().fitness as nat, total, slots);
        let count = if earned < room {
            earned
        } else {
            room
        };
        prev + copies_of(s.last(), count)
    }
}

/// The mating pool drawn from the ranked candidates `s`: the proportional
/// part, then the best candidate `s[0]` again for every slot still free.
pub open spec fn mating_pool_of(s: Seq<Candidate>, total: nat, slots: nat) -> Seq<Candidate> {
    let a = allocation(s, total, slots);
    a + copies_of(s[0], (slots - a.len()) as nat)
}

/// `c` put into the ranked sequence `s` after every candidate at least as
/// fit, and before the first less fit one.
pub open spec fn insert_ranked(s: Seq<Candidate>, c: Candidate) -> Seq<Candidate>
    decreases s.len(),
{
    if s.len() == 0 {
        seq![c]
    } else if s[0].fitness >= c.fitness {
        seq![s[0]] + insert_ranked(s.drop_first(), c)
    } else {
        seq![c] + s
    }
}

/// The population ranked by fitness, best first; candidates of equal
/// fitness keep their order in the population.
pub open spec fn ranked(population: Seq<Candidate>) -> Seq<Candidate>
    decreases population.len(),
{
    if population.len() == 0 {
        Seq::empty()
    } else {
        insert_ranked(ranked(population.drop_last()), population.last())
    }
}

/// The mating pool of `pool_size` slots for `population`.
pub open spec fn is_mating_pool(population: Seq<Candidate>, pool: Seq<Candidate>, pool_size: nat) -> bool {
    pool == mating_pool_of(ranked(population), total_fitness(population), pool_size)
}

/// Inserting at the first position whose candidate is less fit is
/// `insert_ranked`.
pub proof fn lemma_insert_ranked(s: Seq<Candidate>, c: Candidate, pos: int)
    requires
        0 <= pos <= s.len(),
        forall|k: int| 0 <= k < pos ==> s[k].fitness >= c.fitness,
        pos == s.len() || s[pos].fitness < c.fitness,
    ensures
        insert_ranked(s, c) == s.insert(pos, c),
    decreases s.len(),
{
    if s.len() == 0 {
        assert(s.insert(pos, c) =~= seq![c]);
    } else if pos == 0 {
        assert(s.insert(pos, c) =~= seq![c] + s);
    } else {
        let t = s.drop_first();
        assert forall|k: int| 0 <= k < pos - 1 implies t[k].fitness >= c.fitness by {
            assert(t[k] == s[k + 1]);
        }
        lemma_insert_ranked(t, c, pos - 1);
        assert(s.insert(pos, c) =~= seq![s[0]] + t.insert(pos - 1, c));
    }
}

pub proof fn lemma_allocation_len(s: Seq<Candidate>, total: nat, slots: nat)
    ensures
        allocation(s, total, slots).len() <= slots,
    decreases s.len(),
{
    if s.len() > 0 {
        lemma_allocation_len(s.drop_last(), total, slots);
    }
}

/// A better candidate earns at least as many slots.
pub proof fn lemma_share_monotone(f1: nat, f2: nat, total: nat, slots: nat)
    requires
        f1 <= f2,
    ensures
        slot_share(f1, total, slots) <= slot_share(f2, total, slots),
{
    if total > 0 {
        lemma_mul_inequality(f1 as int, f2 as int, slots as int);
        lemma_div_is_ordered((f1 * slots) as int, (f2 * slots) as int, total as int);
    }
}

/// On ranked candidates the proportional part is empty or starts with the best.
pub proof fn lemma_allocation_head(s: Seq<Candidate>, total: nat, slots: nat)
    requires
        s.len() > 0,
        slots > 0,
        is_sorted_by_fitness(s),
    ensures
        slot_share(s[0].fitness as nat, total, slots) == 0 ==> allocation(s, total, slots).len()
            == 0,
        slot_share(s[0].fitness as nat, total, slots) > 0 ==> allocation(s, total, slots).len() > 0
            && allocation(s, total, slots)[0] == s[0],
    decreases s.len(),
{
    let prev = allocation(s.drop_last(), total, slots);
    if s.len() == 1 {
        assert(s.drop_last().len() == 0);
        assert(prev.len() == 0);
    } else {
        lemma_allocation_head(s.drop_last(), total, slots);
        assert(s.drop_last()[0] == s[0]);
        lemma_share_monotone(s.last().fitness as nat, s[0].fitness as nat, total, slots);
    }
}

/// The pool of a non-empty ranked population opens with its best candidate.
pub proof fn lemma_pool_starts_with_best(s: Seq<Candidate>, total: nat, slots: nat)
    requires
        s.len() > 0,
        slots > 0,
        is_sorted_by_fitness(s),
    ensures
        mating_pool_of(s, total, slots).len() == slots,
        mating_pool_of(s, total, slots)[0] == s[0],
{
    lemma_allocation_len(s, total, slots);
    lemma_allocation_head(s, total, slots);
}

/// The candidates ranked by fitness, best first; equal scores keep their order.
pub fn sort_by_fitness(population: &Vec<Candidate>) -> (r: Vec<Candidate>)
    ensures
        r@ == ranked(population@),
        is_sorted_by_fitness(r@),
        r@.to_multiset() == population@.to_multiset(),
{
    let mut sorted: Vec<Candidate> = Vec::new();
    let mut i: usize = 0;
    proof {
        assert(population@.subrange(0, 0) =~= Seq::<Candidate>::empty());
    }
    while i < population.len()
        invariant
            i <= population.len(),
            is_sorted_by_fitness(sorted@),
            sorted@ == ranked(population@.subrange(0, i as int)),
            sorted@.to_multiset() == population@.subrange(0, i as int).to_multiset(),
        decreases population.len() - i,
    {
        let c = population[i].duplicate();
        let mut pos: usize = 0;
        while pos < sorted.len() && sorted[pos].fitness >= c.fitness
            invariant
                pos <= sorted.len(),
                forall|k: int| 0 <= k < pos ==> sorted@[k].fitness >= c.fitness,
            decreases sorted.len() - pos,
        {
            pos = pos + 1;
        }
        let ghost before = sorted@;
        sorted.insert(pos, c);
        proof {
            assert(forall|k: int| pos <= k < before.len() ==> before[k].fitness < c.fitness) by {
                assert forall|k: int| pos <= k < before.len() implies before[k].fitness
                    < c.fitness by {
                    assert(before[pos as int].fitness < c.fitness);
                    assert(before[pos as int].fitness >= before[k].fitness);
                }
            }
            assert(sorted@ =~= before.insert(pos as int, c));
            lemma_insert_ranked(before, c, pos as int);
            let prefix = population@.subrange(0, i + 1);
            assert(prefix.drop_last() =~= population@.subrange(0, i as int));
            assert(prefix.last() == c);
            to_multiset_insert(before, pos as int, c);
            assert(population@.subrange(0, i + 1) =~= population@.subrange(0, i as int).push(c));
            to_multiset_build(population@.subrange(0, i as int), c);
        }
        i = i + 1;
    }
    assert(population@.subrange(0, i as int) =~= population@);
    sorted
}

/// The sum of the fitness scores.
pub fn sum_fitness(population: &Vec<Candidate>) -> (r: u128)
    ensures
        r == total_fitness(population@),
{
    let mut sum: u128 = 0;
    let mut i: usize = 0;
    assert(population@.subrange(0, 0) =~= Seq::<Candidate>::empty());
    while i < population.len()
        invariant
            i <= population.len(),
            sum == total_fitness(population@.subrange(0, i as int)),
            sum <= i * 0xffff_ffff_ffff_ffff,
        decreases population.len() - i,
    {
        assert(population@.subrange(0, i + 1).drop_last() =~= population@.subrange(0, i as int));
        assert(sum + population[i as int].fitness <= (i + 1) * 0xffff_ffff_ffff_ffff)
            by (nonlinear_arith)
            requires
                sum <= i * 0xffff_ffff_ffff_ffff,
                population[i as int].fitness <= 0xffff_ffff_ffff_ffff,
        ;
        assert(i * 0xffff_ffff_ffff_ffff < 0x1_0000_0000_0000_0000 * 0xffff_ffff_ffff_ffffu128)
            by (nonlinear_arith)
            requires
                i < 0x1_0000_0000_0000_0000,
        ;
        sum = sum + population[i].fitness as u128;
        i = i + 1;
    }
    assert(population@.subrange(0, i as int) =~= population@);
    sum
}

/// Fills a pool of `pool_size` slots from the ranked candidates `ranked`:
/// each in order gets its slot share of copies while room is left, and the
/// best candidate fills what is still free.
pub fn fill_mating_pool(ranked: &Vec<Candidate>, total: u128, pool_size: usize) -> (r: Vec<
    Candidate,
>)
    requires
        ranked@.len() > 0,
        total > 0,
    ensures
        r@ == mating_pool_of(ranked@, total as nat, pool_size as nat),
        r@.len() == pool_size,
{
    let mut pool: Vec<Candidate> = Vec::new();
    let mut i: usize = 0;
    assert(ranked@.subrange(0, 0) =~= Seq::<Candidate>::empty());
    while i < ranked.len()
        invariant
            i <= ranked.len(),
            total > 0,
            pool@ == allocation(ranked@.subrange(0, i as int), total as nat, pool_size as nat),
        decreases ranked.len() - i,
    {
        proof {
            lemma_allocation_len(ranked@.subrange(0, i as int), total as nat, pool_size as nat);
        }
        let c = &ranked[i];
        assert(c.fitness * pool_size < 0x1_0000_0000_0000_0000 * 0x1_0000_0000_0000_0000)
            by (nonlinear_arith)
            requires
                c.fitness < 0x1_0000_0000_0000_0000,
                pool_size < 0x1_0000_0000_0000_0000,
        ;
        let earned: u128 = (c.fitness as u128 * pool_size as u128) / total;
        let room: usize = pool_size - pool.len();
        let count: usize = if earned < room as u128 {
            earned as usize
        } else {
            room
        };
        let ghost prev = pool@;
        let mut k: usize = 0;
        while k < count
            invariant
                k <= count,
                i < ranked@.len(),
                pool@ == prev + copies_of(ranked@[i as int], k as nat),
            decreases count - k,
        {
            pool.push(ranked[i].duplicate());
            k = k + 1;
            assert(pool@ =~= prev + copies_of(ranked@[i as int], k as nat));
        }
        proof {
            let next = ranked@.subrange(0, i + 1);
            assert(next.drop_last() =~= ranked@.subrange(0, i as int));
            assert(next.last() == ranked@[i as int]);
        }
        i = i + 1;
    }
    assert(ranked@.subrange(0, i as int) =~= ranked@);
    proof {
        lemma_allocation_len(ranked@, total as nat, pool_size as nat);
    }
    let ghost part = pool@;
    while pool.len() < pool_size
        invariant
            part.len() <= pool@.len() <= pool_size,
            ranked@.len() > 0,
            pool@ == part + copies_of(ranked@[0], (pool@.len() - part.len()) as nat),
        decreases pool_size - pool.len(),
    {
        pool.push(ranked[0].duplicate());
        assert(pool@ =~= part + copies_of(ranked@[0], (pool@.len() - part.len()) as nat));
    }
    pool
}

/// Builds a mating pool of `pool_size` candidates by fitness-proportional
/// selection with elitist backfill. The population is ranked by fitness
/// (best first); each candidate gets `floor(fitness / total * pool_size)`
/// copies in rank order while room is left, and the best candidate fills the
/// remaining slots. Fails when the fitness scores sum to zero.
pub fn generate_mating_pool(population: &Vec<Candidate>, pool_size: usize) -> (r: Result<
    Vec<Candidate>,
    GaError,
>)
    ensures
        total_fitness(population@) == 0 <==> r == Err::<Vec<Candidate>, GaError>(
            GaError::ZeroTotalFitness,
        ),
        total_fitness(population@) > 0 <==> r is Ok,
        r is Ok ==> is_mating_pool(population@, r->Ok_0@, pool_size as nat),
        r is Ok ==> r->Ok_0@.len() == pool_size,
        r is Ok ==> forall|j: int|
            0 <= j < pool_size ==> population@.contains(#[trigger] r->Ok_0@[j]),
        r is Ok && pool_size > 0 ==> forall|j: int|
            0 <= j < population@.len() ==> r->Ok_0@[0].fitness >= #[trigger] population@[j].fitness,
{
    let total = sum_fitness(population);
    if total == 0 {
        return Err(GaError::ZeroTotalFitness);
    }
    let order = sort_by_fitness(population);
    proof {
        broadcast use to_multiset_contains;

        if order@.len() == 0 {
            to_multiset_len(order@);
            to_multiset_len(population@);
            assert(population@.len() == 0);
            assert(total_fitness(population@) == 0);
        }
    }
    let pool = fill_mating_pool(&order, total, pool_size);
    proof {
        broadcast use to_multiset_contains;

        let s = order@;
        lemma_allocation_len(s, total as nat, pool_size as nat);
        assert forall|j: int| 0 <= j < pool_size implies population@.contains(
            #[trigger] pool@[j],
        ) by {
            lemma_pool_member(s, total as nat, pool_size as nat, j);
            assert(s.to_multiset().count(pool@[j]) > 0);
        }
        if pool_size > 0 {
            lemma_pool_starts_with_best(s, total as nat, pool_size as nat);
            assert forall|j: int| 0 <= j < population@.len() implies pool@[0].fitness
                >= #[trigger] population@[j].fitness by {
                assert(population@.contains(population@[j]));
                to_multiset_contains(population@, population@[j]);
                to_multiset_contains(s, population@[j]);
                assert(s.contains(population@[j]));
                let k = choose|k: int| 0 <= k < s.len() && s[k] == population@[j];
                assert(s[0].fitness >= s[k].fitness);
            }
        }
    }
    Ok(pool)
}

/// Every candidate of the pool is one of the ranked candidates.
pub proof fn lemma_pool_member(s: Seq<Candidate>, total: nat, slots: nat, j: int)
    requires
        s.len() > 0,
        0 <= j < mating_pool_of(s, total, slots).len(),
    ensures
        s.contains(mating_pool_of(s, total, slots)[j]),
{
    lemma_allocation_len(s, total, slots);
    let a = allocation(s, total, slots);
    if j < a.len() {
        lemma_allocation_member(s, total, slots, j);
    } else {
        assert(mating_pool_of(s, total, slots)[j] == s[0]);
    }
}

pub proof fn lemma_allocation_member(s: Seq<Candidate>, total: nat, slots: nat, j: int)
    requires
        0 <= j < allocation(s, total, slots).len(),
    ensures
        s.contains(allocation(s, total, slots)[j]),
    decreases s.len(),
{
    let prev = allocation(s.drop_last(), total, slots);
    if j < prev.len() {
        lemma_allocation_member(s.drop_last(), total, slots, j);
        let k = choose|k: int| 0 <= k < s.drop_last().len() && s.drop_last()[k] == prev[j];
        assert(s[k] == prev[j]);
    } else {
        assert(allocation(s, total, slots)[j] == s.last());
        assert(s[s.len() - 1] == s.last());
    }
}

} // verus!
