use hamletrs::excerpt::Quote;
use hamletrs::genetic::{
    evaluate_chunk, join_chunks, reaches_threshold, sort_by_fitness, symbol_at, GeneticAlgorithm,
    Individual, ALPHABET_SIZE, BASE_MUTATION_RATE, POPULATION_SIZE, RATE_SCALE,
};
use rand::rngs::SmallRng;
use rand::SeedableRng;

fn alphabet() -> Vec<u8> {
    (0..ALPHABET_SIZE).map(symbol_at).collect()
}

fn rng(seed: u64) -> SmallRng {
    SmallRng::seed_from_u64(seed)
}

#[test]
fn alphabet_holds_letters_digits_and_punctuation() {
    let a = alphabet();
    assert_eq!(
        a,
        b"ABCDEFGHIJKLMNOPQRSTUVWXYZabcdefghijklmnopqrstuvwxyz0123456789 ,.!?;:'\"()-".to_vec()
    );
}

#[test]
fn fitness_counts_matching_positions() {
    let mut x = Individual::from_genes(b"HELXO".to_vec());
    assert_eq!(x.score(), 0);
    let r = x.calculate_fitness(b"HELLO");
    assert_eq!(r, 4);
    assert_eq!(x.score(), 4);
    assert_eq!(r as f64 / 5.0, 0.8);
    assert_eq!(x.genes(), &b"HELXO".to_vec());
}

#[test]
fn fitness_is_one_only_for_the_target() {
    let mut x = Individual::from_genes(b"HELLO".to_vec());
    assert_eq!(x.calculate_fitness(b"HELLO"), 5);
    let mut y = Individual::from_genes(b"hello".to_vec());
    assert_eq!(y.calculate_fitness(b"HELLO"), 0);
    let mut r = rng(1);
    for _ in 0..50 {
        let mut z = Individual::new_random(12, &mut r);
        let s = z.calculate_fitness(b"To be, or no");
        assert!(s <= 12);
        assert_eq!(s == 12, z.genes().as_slice() == b"To be, or no");
    }
}

#[test]
fn new_random_draws_symbols_of_the_length_asked() {
    let mut r = rng(7);
    let x = Individual::new_random(300, &mut r);
    let a = alphabet();
    assert_eq!(x.genes().len(), 300);
    assert_eq!(x.score(), 0);
    assert!(x.genes().iter().all(|g| a.contains(g)));
    let first = x.genes()[0];
    assert!(x.genes().iter().any(|g| *g != first));
    assert_eq!(Individual::new_random(0, &mut r).genes().len(), 0);
}

#[test]
fn crossover_at_cuts_at_the_split() {
    let a = Individual::from_genes(b"AAAA".to_vec());
    let b = Individual::from_genes(b"BBBB".to_vec());
    assert_eq!(a.crossover_at(&b, 2).genes(), &b"AABB".to_vec());
    assert_eq!(a.crossover_at(&b, 0).genes(), &b"BBBB".to_vec());
    assert_eq!(a.crossover_at(&b, 3).genes(), &b"AAAB".to_vec());
    assert_eq!(a.crossover_at(&b, 1).score(), 0);
}

#[test]
fn crossover_keeps_length_and_takes_a_prefix_and_a_suffix() {
    let a = Individual::from_genes(b"abcdefgh".to_vec());
    let b = Individual::from_genes(b"ABCDEFGH".to_vec());
    let mut r = rng(3);
    for _ in 0..100 {
        let c = a.crossover(&b, &mut r);
        assert_eq!(c.genes().len(), 8);
        let g = c.genes();
        let ok = (0..8).any(|s| g[..s] == a.genes()[..s] && g[s..] == b.genes()[s..]);
        assert!(ok);
    }
}

#[test]
fn mutation_at_rate_zero_changes_nothing() {
    let mut r = rng(5);
    let mut x = Individual::from_genes(b"To be, or not to be".to_vec());
    x.mutate(0, &mut r);
    assert_eq!(x.genes(), &b"To be, or not to be".to_vec());
}

#[test]
fn mutation_at_full_rate_redraws_every_gene() {
    let mut r = rng(9);
    let mut x = Individual::from_genes(vec![b'A'; 7400]);
    x.mutate(RATE_SCALE, &mut r);
    let a = alphabet();
    assert_eq!(x.genes().len(), 7400);
    assert!(x.genes().iter().all(|g| a.contains(g)));
    let kept = x.genes().iter().filter(|g| **g == b'A').count();
    assert!(kept < 400);
    for s in a.iter() {
        assert!(x.genes().contains(s));
    }
}

#[test]
fn apply_mutation_follows_the_draws() {
    let mut x = Individual::from_genes(b"abcd".to_vec());
    x.apply_mutation(&vec![0, 999_999, 10, 20_000], &vec![0, 1, 73, 62], BASE_MUTATION_RATE);
    assert_eq!(x.genes(), &b"Ab-d".to_vec());
}

#[test]
fn threshold_is_ninety_five_percent() {
    assert!(reaches_threshold(19, 20));
    assert!(!reaches_threshold(18, 20));
    assert!(reaches_threshold(2, 2));
    assert!(!reaches_threshold(1, 2));
    assert!(reaches_threshold(95, 100));
    assert!(!reaches_threshold(94, 100));
}

#[test]
fn empty_target_is_rejected() {
    let mut r = rng(11);
    assert!(GeneticAlgorithm::new("", vec![], &mut r).is_none());
}

#[test]
fn new_engine_starts_with_a_full_random_population() {
    let mut r = rng(12);
    let ga = GeneticAlgorithm::new("To be", vec![], &mut r).unwrap();
    assert_eq!(ga.target(), &b"To be".to_vec());
    assert_eq!(ga.population().len(), POPULATION_SIZE);
    assert_eq!(ga.best_score(), 0);
    assert_eq!(ga.generation(), 0);
    assert!(ga.quotes().is_empty());
    let a = alphabet();
    for x in ga.population() {
        assert_eq!(x.genes().len(), 5);
        assert!(x.genes().iter().all(|g| a.contains(g)));
    }
}

#[test]
fn split_population_gives_the_remainder_to_the_last_chunk() {
    let mut r = rng(13);
    let ga = GeneticAlgorithm::new("abc", vec![], &mut r).unwrap();
    let sizes: Vec<usize> = ga.split_population(3).iter().map(|c| c.len()).collect();
    assert_eq!(sizes, vec![333, 333, 334]);
    let sizes: Vec<usize> = ga.split_population(1).iter().map(|c| c.len()).collect();
    assert_eq!(sizes, vec![1000]);
    assert_eq!(ga.split_population(5000).len(), 1000);
    let joined = join_chunks(ga.split_population(7));
    assert_eq!(joined.len(), POPULATION_SIZE);
    for (a, b) in joined.iter().zip(ga.population()) {
        assert_eq!(a.genes(), b.genes());
    }
}

#[test]
fn chunked_evaluation_matches_sequential_evaluation() {
    let mut r = rng(14);
    let ga = GeneticAlgorithm::new("To be, or not to be", vec![], &mut r).unwrap();
    let sequential: Vec<(Vec<u8>, usize)> = ga
        .population()
        .iter()
        .map(|x| {
            let mut y = Individual::from_genes(x.genes().clone());
            let s = y.calculate_fitness(ga.target());
            (x.genes().clone(), s)
        })
        .collect();
    for workers in [1usize, 2, 3, 8, 999, 1000, 4096] {
        let chunks = ga.split_population(workers);
        let evaluated: Vec<Vec<Individual>> =
            chunks.iter().map(|c| evaluate_chunk(c, ga.target())).collect();
        let joined = join_chunks(evaluated);
        let got: Vec<(Vec<u8>, usize)> =
            joined.iter().map(|x| (x.genes().clone(), x.score())).collect();
        assert_eq!(got, sequential);
        let direct: Vec<(Vec<u8>, usize)> = ga
            .evaluate_in_chunks(workers)
            .iter()
            .map(|x| (x.genes().clone(), x.score()))
            .collect();
        assert_eq!(direct, sequential);
    }
}

#[test]
fn sort_by_fitness_puts_the_best_first() {
    let mut xs = Vec::new();
    for (g, t) in [(b"AAB", b"AAA"), (b"AAA", b"AAA"), (b"BBB", b"AAA"), (b"ABB", b"AAA")] {
        let mut x = Individual::from_genes(g.to_vec());
        x.calculate_fitness(t);
        xs.push(x);
    }
    let sorted = sort_by_fitness(&xs);
    let scores: Vec<usize> = sorted.iter().map(|x| x.score()).collect();
    assert_eq!(scores, vec![3, 2, 1, 0]);
    assert_eq!(sorted[0].genes(), &b"AAA".to_vec());
    assert_eq!(sorted[3].genes(), &b"BBB".to_vec());
}

#[test]
fn ranking_records_the_best_and_the_threshold() {
    let mut r = rng(15);
    let mut ga = GeneticAlgorithm::new("Whether 'tis nobler", vec![], &mut r).unwrap();
    let evaluated = ga.evaluate_in_chunks(4);
    let top = evaluated.iter().map(|x| x.score()).max().unwrap();
    let converged = ga.rank_population(evaluated);
    assert_eq!(ga.best_score(), top);
    assert_eq!(ga.population()[0].score(), top);
    assert_eq!(converged, top * 20 >= 19 * 19);
    let scores: Vec<usize> = ga.population().iter().map(|x| x.score()).collect();
    assert!(scores.windows(2).all(|w| w[0] >= w[1]));
    assert_eq!(scores.len(), POPULATION_SIZE);
}

#[test]
fn tournament_pick_takes_the_first_best_draw() {
    let mut r = rng(16);
    let mut ga = GeneticAlgorithm::new("slings and arrows", vec![], &mut r).unwrap();
    let evaluated = ga.evaluate_in_chunks(2);
    ga.rank_population(evaluated);
    let pop = ga.population();
    assert_eq!(ga.tournament_pick(&vec![]), 0);
    let draws = vec![999, 500, 998, 0, 500];
    let p = ga.tournament_pick(&draws);
    assert_eq!(p, 0);
    let draws = vec![999, 998, 997];
    let p = ga.tournament_pick(&draws);
    let mut best = 999;
    for d in [998, 997] {
        if pop[d].score() > pop[best].score() {
            best = d;
        }
    }
    assert_eq!(p, best);
    let w = ga.tournament_selection(5, &mut r);
    assert_eq!(w.genes().len(), 17);
    let e = ga.tournament_selection(0, &mut r);
    assert_eq!(e.genes(), pop[0].genes());
}

#[test]
fn next_generation_keeps_the_elite_first() {
    let mut r = rng(17);
    let mut ga = GeneticAlgorithm::new("fortune", vec![], &mut r).unwrap();
    let evaluated = ga.evaluate_in_chunks(3);
    ga.rank_population(evaluated);
    let elite = ga.population()[0].genes().clone();
    let elite_score = ga.population()[0].score();
    ga.create_next_generation(&mut r);
    assert_eq!(ga.generation(), 0);
    assert_eq!(ga.best_score(), elite_score);
    assert_eq!(ga.population().len(), POPULATION_SIZE);
    assert_eq!(ga.population()[0].genes(), &elite);
    assert_eq!(ga.population()[0].score(), elite_score);
    assert!(ga.population().iter().all(|x| x.genes().len() == 7));
    assert!(ga.population()[1..].iter().all(|x| x.score() == 0));
    ga.count_generation();
    assert_eq!(ga.generation(), 1);
    assert_eq!(ga.population()[0].genes(), &elite);
}

#[test]
fn breed_crosses_tournament_winners_and_mutates() {
    let mut r = rng(20);
    let mut ga = GeneticAlgorithm::new("abcd", vec![], &mut r).unwrap();
    let evaluated = ga.evaluate_in_chunks(2);
    ga.rank_population(evaluated);
    let pop = ga.population();
    let d1 = vec![0, 0, 0, 0, 0];
    let d2 = vec![999, 999, 999, 999, 999];
    let calm = vec![RATE_SCALE - 1; 4];
    let child = ga.breed(&d1, &d2, 2, &calm, &vec![0; 4]);
    let mut expected = pop[0].genes()[..2].to_vec();
    expected.extend_from_slice(&pop[999].genes()[2..]);
    assert_eq!(child.genes(), &expected);
    assert_eq!(child.score(), 0);
    let child = ga.breed(&d1, &d2, 0, &vec![0, RATE_SCALE - 1, 0, RATE_SCALE - 1], &vec![25, 0, 73, 0]);
    let g = pop[999].genes();
    assert_eq!(child.genes(), &vec![b'Z', g[1], b'-', g[3]]);
}

#[test]
fn best_fitness_never_falls_across_generations() {
    let mut r = rng(18);
    let mut ga = GeneticAlgorithm::new("Or to take arms against", vec![], &mut r).unwrap();
    let mut last = 0;
    for g in 0..15 {
        ga.evolve_single_generation(&mut r);
        assert_eq!(ga.generation(), g + 1);
        assert!(ga.best_score() >= last);
        assert_eq!(ga.population().len(), POPULATION_SIZE);
        last = ga.best_score();
    }
}

#[test]
fn two_letter_target_converges() {
    let mut r = rng(19);
    let mut ga = GeneticAlgorithm::new("AB", vec![], &mut r).unwrap();
    let mut converged = false;
    for _ in 0..200 {
        let evaluated = ga.evaluate_in_chunks(4);
        if ga.rank_population(evaluated) {
            converged = true;
            break;
        }
        ga.create_next_generation(&mut r);
        ga.count_generation();
    }
    assert!(converged);
    assert_eq!(ga.best_score(), 2);
    assert_eq!(ga.population()[0].genes(), &b"AB".to_vec());
    assert_eq!(ga.population().len(), POPULATION_SIZE);
}

fn quote(location: Option<usize>) -> Quote {
    Quote {
        text: "be".to_string(),
        speaker: "Hamlet".to_string(),
        act: 3,
        scene: 12,
        location,
    }
}

#[test]
fn excerpt_of_a_missing_quote() {
    assert_eq!(quote(None).format_excerpt(b"To be", 2), "Hamlet (Act 3 Scene 12): [Not found]");
}

#[test]
fn excerpt_colours_the_matching_characters() {
    let s = quote(Some(3)).format_excerpt(b"To be, or", 2);
    assert_eq!(s, "Hamlet (Act 3 Scene 12): o \x1B[32mb\x1B[0m\x1B[32me\x1B[0m, ");
    let s = quote(Some(3)).format_excerpt(b"To bx", 5);
    assert_eq!(s, "Hamlet (Act 3 Scene 12): To \x1B[32mb\x1B[0mx");
    let q = Quote { text: "x".to_string(), speaker: "Ophelia".to_string(), act: 104, scene: 0, location: Some(9) };
    assert_eq!(q.format_excerpt(b"abc", 1), "Ophelia (Act 104 Scene 0): ");
}
