use genetic::candidate::{Candidate, GaError};
use genetic::codec::{bit_length, decode, decode_range, encode, max_code};
use genetic::exhaustive::bracket_peak;
use genetic::evolve::{
    best_index, breed, breed_with, decode_pair, evolve_generation, generate_population, genetic_algorithm,
};
use genetic::select::{fill_mating_pool, generate_mating_pool, sort_by_fitness, sum_fitness};
use genetic::variation::{crossover, crossover_at, draw_mask, flip_bits, mutate};

fn cand(code: &str, fitness: u64) -> Candidate {
    Candidate { code: code.to_string(), fitness }
}

fn fitness_of(pool: &[Candidate]) -> Vec<u64> {
    pool.iter().map(|c| c.fitness).collect()
}

fn to_real(min: f64, max: f64, d: u64, length: usize) -> f64 {
    min + (d as f64 / ((2_u64.pow(length as u32) - 1) as f64)) * (max - min)
}

fn fx(x1: f64, x2: f64) -> f64 {
    x1 * x1 + x2 * x2 - x1 * x2
}

fn score(x: f64) -> u64 {
    (x * 1000.0).round() as u64
}

#[test]
fn decode_reads_big_endian() {
    assert_eq!(decode("1011"), 11);
    assert_eq!(decode("0"), 0);
    assert_eq!(decode("0001"), 1);
    assert_eq!(decode(&"1".repeat(64)), u64::MAX);
}

#[test]
fn decode_range_reads_a_block() {
    assert_eq!(decode_range("0011010", 2, 5), 6);
    assert_eq!(decode_pair("1100101", 3), (6, 5));
}

#[test]
fn encode_writes_fixed_width() {
    assert_eq!(encode(5, 4), "0101");
    assert_eq!(encode(0, 3), "000");
    assert_eq!(encode(0, 0), "");
    assert_eq!(encode(u64::MAX, 64), "1".repeat(64));
}

#[test]
fn encode_then_decode_round_trip() {
    for d in 0..64u64 {
        assert_eq!(decode(&encode(d, 6)), d);
    }
}

#[test]
fn max_code_values() {
    assert_eq!(max_code(0), 0);
    assert_eq!(max_code(3), 7);
    assert_eq!(max_code(64), u64::MAX);
}

#[test]
fn bit_length_values() {
    assert_eq!(bit_length(0), 0);
    assert_eq!(bit_length(1), 0);
    assert_eq!(bit_length(2), 1);
    assert_eq!(bit_length(16), 4);
    assert_eq!(bit_length(17), 5);
    assert_eq!(bit_length(20000), 15);
    assert_eq!(bit_length(u64::MAX), 64);
}

#[test]
fn codec_boundaries_map_to_bounds() {
    let length = bit_length(20000);
    assert_eq!(to_real(-10.0, 10.0, 0, length), -10.0);
    assert_eq!(to_real(-10.0, 10.0, max_code(length), length), 10.0);
    let mid = to_real(-10.0, 10.0, 12345, length);
    assert!(mid >= -10.0 && mid <= 10.0);
}

#[test]
fn sum_of_fitness() {
    let pop = vec![cand("00", 1), cand("01", 2), cand("10", 7)];
    assert_eq!(sum_fitness(&pop), 10);
    assert_eq!(sum_fitness(&vec![]), 0);
    let big = vec![cand("0", u64::MAX), cand("1", u64::MAX)];
    assert_eq!(sum_fitness(&big), 2 * u64::MAX as u128);
}

#[test]
fn sort_is_descending_and_stable() {
    let pop = vec![cand("a", 1), cand("b", 5), cand("c", 1), cand("d", 5)];
    let sorted = sort_by_fitness(&pop);
    let codes: Vec<&str> = sorted.iter().map(|c| c.code.as_str()).collect();
    assert_eq!(codes, vec!["b", "d", "a", "c"]);
}

#[test]
fn mating_pool_is_proportional() {
    let pop = vec![cand("00", 1), cand("01", 2), cand("10", 7)];
    let pool = generate_mating_pool(&pop, 10).unwrap();
    assert_eq!(fitness_of(&pool), vec![7, 7, 7, 7, 7, 7, 7, 2, 2, 1]);
}

#[test]
fn mating_pool_backfills_with_best() {
    let pop = vec![cand("a", 1), cand("b", 1), cand("c", 1)];
    let pool = generate_mating_pool(&pop, 4).unwrap();
    let codes: Vec<&str> = pool.iter().map(|c| c.code.as_str()).collect();
    assert_eq!(codes, vec!["a", "b", "c", "a"]);
}

#[test]
fn mating_pool_keeps_best_when_shares_round_to_zero() {
    let pop = vec![cand("a", 3), cand("b", 4), cand("c", 5)];
    let pool = generate_mating_pool(&pop, 2).unwrap();
    let codes: Vec<&str> = pool.iter().map(|c| c.code.as_str()).collect();
    assert_eq!(codes, vec!["c", "c"]);
}

#[test]
fn mating_pool_has_requested_size() {
    let pop = vec![cand("a", 9), cand("b", 1), cand("c", 30), cand("d", 0)];
    for size in 0..20 {
        let pool = generate_mating_pool(&pop, size).unwrap();
        assert_eq!(pool.len(), size);
        if size > 0 {
            assert!(pool.iter().any(|c| c.code == "c"));
            assert_eq!(pool[0].code, "c");
        }
    }
}

#[test]
fn mating_pool_elitism() {
    let pop = vec![cand("a", 1), cand("b", 100), cand("c", 1), cand("d", 1)];
    let pool = generate_mating_pool(&pop, 3).unwrap();
    assert_eq!(fitness_of(&pool), vec![100, 100, 100]);
}

#[test]
fn mating_pool_zero_total_fails() {
    let pop = vec![cand("a", 0), cand("b", 0)];
    assert_eq!(generate_mating_pool(&pop, 2), Err(GaError::ZeroTotalFitness));
    assert_eq!(generate_mating_pool(&vec![], 2), Err(GaError::ZeroTotalFitness));
}

#[test]
fn fill_pool_from_ranked() {
    let ranked = vec![cand("a", 6), cand("b", 3), cand("c", 1)];
    let pool = fill_mating_pool(&ranked, 10, 5);
    let codes: Vec<&str> = pool.iter().map(|c| c.code.as_str()).collect();
    assert_eq!(codes, vec!["a", "a", "a", "b", "a"]);
}

#[test]
fn crossover_at_locus() {
    let (c1, c2) = crossover_at("0011", "1100", 1);
    assert_eq!(c1, "0100");
    assert_eq!(c2, "1011");
    let (c1, c2) = crossover_at("0011", "1100", 0);
    assert_eq!((c1.as_str(), c2.as_str()), ("1100", "0011"));
}

#[test]
fn crossover_conserves_parents() {
    let p1 = "00000000";
    let p2 = "11111111";
    for _ in 0..50 {
        let (c1, c2) = crossover(p1, p2).unwrap();
        assert_eq!(c1.len(), 8);
        assert_eq!(c2.len(), 8);
        let locus = c1.find('1').unwrap();
        assert!(locus >= 1 && locus <= 7);
        assert_eq!(c1, format!("{}{}", &p1[..locus], &p2[locus..]));
        assert_eq!(c2, format!("{}{}", &p2[..locus], &p1[locus..]));
        assert_eq!(format!("{}{}", &c1[..locus], &c2[locus..]), p1);
    }
}

#[test]
fn crossover_errors() {
    assert_eq!(crossover("010", "01"), Err(GaError::MismatchedChromosomeLength));
    assert_eq!(crossover("1", "0"), Err(GaError::DegenerateChromosome));
    assert_eq!(crossover("", ""), Err(GaError::DegenerateChromosome));
}

#[test]
fn flip_bits_by_mask() {
    assert_eq!(flip_bits("0101", &vec![true, false, false, true]), "1100");
    assert_eq!(flip_bits("", &vec![]), "");
}

#[test]
fn mutation_rate_zero_keeps_chromosome() {
    let mut c = "0110100111".to_string();
    mutate(&mut c, 0, 100);
    assert_eq!(c, "0110100111");
}

#[test]
fn mutation_rate_one_flips_every_bit() {
    let mut c = "0110100111".to_string();
    mutate(&mut c, 7, 7);
    assert_eq!(c, "1001011000");
}

#[test]
fn mutation_keeps_length_and_genes() {
    let mut c = "0000011111".to_string();
    mutate(&mut c, 1, 2);
    assert_eq!(c.len(), 10);
    assert!(c.chars().all(|g| g == '0' || g == '1'));
}

#[test]
fn best_index_takes_last_of_equals() {
    let pop = vec![cand("a", 3), cand("b", 9), cand("c", 2), cand("d", 9)];
    assert_eq!(best_index(&pop), 3);
    assert_eq!(best_index(&vec![cand("x", 0)]), 0);
}

#[test]
fn population_has_requested_size_and_is_consistent() {
    let objective = |a: u64, b: u64| a * 100 + b;
    let pop = generate_population(4, 3, 12, &objective);
    assert_eq!(pop.len(), 12);
    for c in &pop {
        assert_eq!(c.code.len(), 7);
        let (a, b) = decode_pair(&c.code, 4);
        assert!(a <= 15 && b <= 7);
        assert_eq!(c.fitness, a * 100 + b);
    }
}

#[test]
fn generations_keep_population_size() {
    let objective = |a: u64, b: u64| a + b + 1;
    for size in [1usize, 2, 5, 10] {
        let mut pop = generate_population(3, 3, size, &objective);
        for _ in 0..5 {
            pop = evolve_generation(&pop, 3, 3, 1, 100, &objective).unwrap();
            assert_eq!(pop.len(), size);
            for c in &pop {
                let (a, b) = decode_pair(&c.code, 3);
                assert_eq!(c.fitness, a + b + 1);
            }
        }
    }
}

#[test]
fn breed_odd_pool() {
    let objective = |a: u64, b: u64| a * 10 + b;
    let pool = vec![cand("0000", 0), cand("1111", 33), cand("0101", 11)];
    let next = breed(&pool, 2, 2, 0, 1, &objective);
    assert_eq!(next.len(), 3);
    for c in &next {
        let (a, b) = decode_pair(&c.code, 2);
        assert_eq!(c.fitness, a * 10 + b);
    }
}

#[test]
fn evolve_generation_zero_fitness_fails() {
    let objective = |_a: u64, _b: u64| 0u64;
    let pop = generate_population(2, 2, 4, &objective);
    assert_eq!(
        evolve_generation(&pop, 2, 2, 1, 100, &objective),
        Err(GaError::ZeroTotalFitness)
    );
    assert_eq!(
        genetic_algorithm(4, 2, 2, 3, 1, 100, &objective, &|_g: usize, _b: u64| {}),
        Err(GaError::ZeroTotalFitness)
    );
}

#[test]
fn genetic_algorithm_degenerate_chromosome() {
    let objective = |a: u64, b: u64| a + b;
    assert_eq!(genetic_algorithm(4, 1, 0, 3, 1, 100, &objective, &|_g: usize, _b: u64| {}), Err(GaError::DegenerateChromosome));
    assert_eq!(genetic_algorithm(4, 0, 0, 0, 1, 100, &objective, &|_g: usize, _b: u64| {}), Err(GaError::DegenerateChromosome));
}

#[test]
fn genetic_algorithm_end_to_end() {
    let (min, max) = (-10.0, 10.0);
    let length = bit_length(((max - min) / 0.001_f64).ceil() as u64);
    assert_eq!(length, 15);
    let objective = move |a: u64, b: u64| {
        score(fx(to_real(min, max, a, length), to_real(min, max, b, length)))
    };
    let seen = std::cell::RefCell::new(Vec::new());
    let observer = |g: usize, best: u64| seen.borrow_mut().push((g, best));
    let best = genetic_algorithm(10, length, length, 5, 1, 100, &objective, &observer).unwrap();
    let seen = seen.into_inner();
    assert_eq!(seen.iter().map(|p| p.0).collect::<Vec<_>>(), vec![0, 1, 2, 3, 4]);
    assert_eq!(best.code.len(), 2 * length);
    let (a, b) = decode_pair(&best.code, length);
    let (x1, x2) = (to_real(min, max, a, length), to_real(min, max, b, length));
    assert!(x1 >= -10.0 && x1 <= 10.0);
    assert!(x2 >= -10.0 && x2 <= 10.0);
    assert_eq!(best.fitness, score(fx(x1, x2)));
}

#[test]
fn test_base() {
    let found = bracket_peak(5, 10);
    let x = match found {
        Some(k) => k as f64 / 5.0,
        None => -1.0,
    };
    assert_eq!(x, 1.4);
}

#[test]
fn bracket_peak_edges() {
    assert_eq!(bracket_peak(5, 10), Some(7));
    assert_eq!(bracket_peak(5, 5), None);
    assert_eq!(bracket_peak(5, 0), None);
    assert_eq!(bracket_peak(1, 3), Some(1));
}

#[test]
fn breed_with_given_draws() {
    let objective = |a: u64, b: u64| a * 10 + b;
    let pool = vec![cand("0000", 0), cand("1111", 33), cand("0101", 11)];
    let loci = vec![1, 3];
    let masks = vec![
        vec![false, false, false, false],
        vec![true, false, false, false],
        vec![false, false, false, true],
    ];
    let next = breed_with(&pool, &loci, &masks, 2, 2, &objective);
    let codes: Vec<&str> = next.iter().map(|c| c.code.as_str()).collect();
    assert_eq!(codes, vec!["0111", "0000", "0101"]);
    assert_eq!(fitness_of(&next), vec![13, 0, 11]);
}

#[test]
fn breed_at_rate_zero_only_crosses() {
    let objective = |a: u64, b: u64| a + b;
    let pool = vec![cand("000000", 0), cand("111111", 14)];
    for _ in 0..20 {
        let next = breed(&pool, 3, 3, 0, 5, &objective);
        let locus = next[0].code.find('1').unwrap();
        assert!(locus >= 1 && locus <= 5);
        assert_eq!(next[0].code, format!("{}{}", "0".repeat(locus), "1".repeat(6 - locus)));
        assert_eq!(next[1].code, format!("{}{}", "1".repeat(locus), "0".repeat(6 - locus)));
    }
}

#[test]
fn breed_at_rate_one_complements() {
    let objective = |a: u64, b: u64| a + b;
    let pool = vec![cand("000000", 0), cand("000000", 0)];
    let next = breed(&pool, 3, 3, 4, 4, &objective);
    assert_eq!(next[0].code, "111111");
    assert_eq!(next[1].code, "111111");
    assert_eq!(fitness_of(&next), vec![14, 14]);
}

#[test]
fn draw_mask_extremes() {
    assert_eq!(draw_mask(5, 0, 3), vec![false; 5]);
    assert_eq!(draw_mask(5, 3, 3), vec![true; 5]);
    assert_eq!(draw_mask(0, 1, 2), Vec::<bool>::new());
}

#[test]
fn mating_pool_ties_keep_population_order() {
    let pop = vec![cand("a", 5), cand("b", 5)];
    let pool = generate_mating_pool(&pop, 1).unwrap();
    assert_eq!(pool[0].code, "a");
    let pool = generate_mating_pool(&pop, 3).unwrap();
    let codes: Vec<&str> = pool.iter().map(|c| c.code.as_str()).collect();
    assert_eq!(codes, vec!["a", "b", "a"]);
}

#[test]
fn positive_objective_run_succeeds() {
    let objective = |a: u64, b: u64| a + b + 1;
    for generations in 0..4 {
        let best = genetic_algorithm(5, 2, 3, generations, 1, 10, &objective, &|_g: usize, _b: u64| {});
        let best = best.unwrap();
        let (a, b) = decode_pair(&best.code, 2);
        assert_eq!(best.fitness, a + b + 1);
    }
}
