use queens_ga::dna::DNA;
use queens_ga::population::{GenerateError, Population};
use queens_ga::POPULATION_COUNT;

fn with_genes(g: [u8; 8]) -> DNA {
    let mut d = DNA::new();
    for (i, v) in g.iter().enumerate() {
        d.set_gene_at(i, *v);
    }
    d
}

#[test]
fn classic_solution_has_eight_matches() {
    let p = Population::new();
    assert_eq!(p.count_dna_matches(&with_genes([0, 4, 7, 5, 2, 6, 1, 3])), 8);
}

#[test]
fn same_column_has_no_matches() {
    let p = Population::new();
    assert_eq!(p.count_dna_matches(&with_genes([0; 8])), 0);
}

#[test]
fn partial_conflicts_are_counted() {
    let p = Population::new();
    assert_eq!(p.count_dna_matches(&with_genes([0, 1, 7, 5, 2, 6, 4, 3])), 3);
    assert_eq!(p.count_dna_matches(&with_genes([3, 4, 7, 5, 2, 6, 1, 3])), 5);
}

#[test]
fn board_of_candidate_has_one_square_per_row() {
    let p = Population::new();
    let b = p.dna_to_bb(&with_genes([0, 4, 7, 5, 2, 6, 1, 3]));
    assert_eq!(b.count_ones(), 8);
    let expected: u64 = [0u32, 12, 23, 29, 34, 46, 49, 59].iter().map(|s| 1u64 << s).sum();
    assert_eq!(b, expected);
}

#[test]
fn new_population_is_empty() {
    let p = Population::new();
    assert!(p.elements().is_empty());
    assert!(p.mating_pool().is_empty());
    assert_eq!(p.best(), 0);
    assert!(!p.check_all_state());
}

#[test]
fn init_fills_population() {
    let mut p = Population::new();
    p.init();
    assert_eq!(p.elements().len(), POPULATION_COUNT);
    for d in p.elements() {
        for i in 0..8 {
            assert!(d.get_gene_at(i) < 8);
        }
    }
}

#[test]
fn fitness_is_normalized_after_scoring() {
    let mut p = Population::new();
    p.init();
    p.calc_fitness();
    let els = p.elements();
    assert_eq!(els.len(), POPULATION_COUNT);
    let total: u32 = els.iter().map(|d| d.get_matches() as u32).sum();
    for d in els {
        assert!(d.get_matches() <= 8);
        assert_eq!(d.get_matches(), p.count_dna_matches(d));
        let f = d.get_fitness();
        assert_eq!(f.num, d.get_matches() as u32);
        assert_eq!(f.den, total);
    }
    if total > 0 {
        let sum: f64 = els.iter().map(|d| d.get_fitness().num as f64 / d.get_fitness().den as f64).sum();
        assert!((sum - 1.0).abs() < 1e-6);
        for d in els {
            let v = d.get_fitness().num as f32 / d.get_fitness().den as f32;
            assert!((0.0..=1.0).contains(&v));
        }
    }
    let best = els[p.best()].get_fitness().num;
    assert!(els.iter().all(|d| d.get_fitness().num <= best));
}

#[test]
fn solved_state_matches_scores() {
    let mut p = Population::new();
    p.init();
    p.calc_fitness();
    let any = p.elements().iter().any(|d| d.get_matches() == 8);
    assert_eq!(p.check_all_state(), any);
}

#[test]
fn generate_keeps_population_size() {
    let mut p = Population::new();
    p.init();
    for _ in 0..5 {
        p.calc_fitness();
        let expected_pool: usize = p
            .elements()
            .iter()
            .map(|d| {
                let f = d.get_fitness();
                if f.den == 0 { 0 } else { (100 * f.num / f.den) as usize }
            })
            .sum();
        match p.generate(true) {
            Ok(()) => {
                assert!(expected_pool > 0);
                assert_eq!(p.mating_pool().len(), expected_pool);
                assert_eq!(p.elements().len(), POPULATION_COUNT);
                for d in p.elements() {
                    assert_eq!(d.get_matches(), 0);
                    for i in 0..8 {
                        assert!(d.get_gene_at(i) < 8);
                    }
                }
            }
            Err(e) => {
                assert_eq!(e, GenerateError::EmptyMatingPool);
                assert_eq!(expected_pool, 0);
            }
        }
    }
}

#[test]
fn mating_pool_is_in_index_order() {
    let mut p = Population::new();
    p.init();
    p.calc_fitness();
    let _ = p.generate(true);
    let pool = p.mating_pool();
    for w in pool.windows(2) {
        assert!(w[0] <= w[1]);
    }
    assert!(pool.iter().all(|i| (*i as usize) < POPULATION_COUNT));
}

#[test]
fn selective_selection_is_unsupported() {
    let mut p = Population::new();
    p.init();
    p.calc_fitness();
    assert_eq!(p.generate(false), Err(GenerateError::SelectiveUnsupported));
    assert_eq!(p.elements().len(), POPULATION_COUNT);
    assert!(p.mating_pool().is_empty());
}

#[test]
fn generate_on_empty_population_has_empty_pool() {
    let mut p = Population::new();
    assert_eq!(p.generate(true), Err(GenerateError::EmptyMatingPool));
    assert!(p.elements().is_empty());
}

#[test]
fn scoring_an_empty_population_keeps_it_empty() {
    let mut p = Population::new();
    p.calc_fitness();
    assert!(p.elements().is_empty());
    assert_eq!(p.best(), 0);
}

#[test]
fn unscored_population_is_not_solved() {
    let mut p = Population::new();
    p.init();
    assert!(p.elements().iter().all(|d| d.get_matches() == 0));
    assert!(!p.check_all_state());
}
