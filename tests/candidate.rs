use queens_ga::dna::{Ratio, DNA};

fn with_genes(g: [u8; 8]) -> DNA {
    let mut d = DNA::new();
    for (i, v) in g.iter().enumerate() {
        d.set_gene_at(i, *v);
    }
    d
}

fn genes(d: &DNA) -> [u8; 8] {
    let mut g = [0u8; 8];
    for (i, v) in g.iter_mut().enumerate() {
        *v = d.get_gene_at(i);
    }
    g
}

#[test]
fn new_candidate_is_zero() {
    let d = DNA::new();
    assert_eq!(genes(&d), [0; 8]);
    assert_eq!(d.get_matches(), 0);
    assert_eq!(d.get_fitness(), Ratio { num: 0, den: 1 });
}

#[test]
fn setters_and_getters() {
    let mut d = DNA::new();
    d.set_gene_at(3, 6);
    d.set_matches(5);
    d.set_fitness(Ratio { num: 5, den: 40 });
    assert_eq!(d.get_gene_at(3), 6);
    assert_eq!(d.get_gene_at(2), 0);
    assert_eq!(d.get_matches(), 5);
    assert_eq!(d.get_fitness(), Ratio { num: 5, den: 40 });
}

#[test]
fn randomize_draws_columns() {
    for _ in 0..200 {
        let mut d = with_genes([9; 8]);
        d.set_matches(4);
        d.randomize();
        assert!(genes(&d).iter().all(|g| *g < 8));
        assert_eq!(d.get_matches(), 4);
        let r = DNA::randomized_new();
        assert!(genes(&r).iter().all(|g| *g < 8));
    }
}

#[test]
fn crossover_at_takes_prefix_from_first_parent() {
    let a = with_genes([0, 1, 2, 3, 4, 5, 6, 7]);
    let b = with_genes([7, 6, 5, 4, 3, 2, 1, 0]);
    let c = DNA::crossover_at(&a, &b, 3);
    assert_eq!(genes(&c), [0, 1, 2, 4, 3, 2, 1, 0]);
    let all_b = DNA::crossover_at(&a, &b, 0);
    assert_eq!(genes(&all_b), genes(&b));
    let all_a = DNA::crossover_at(&a, &b, 8);
    assert_eq!(genes(&all_a), genes(&a));
}

#[test]
fn crossover_child_is_not_scored() {
    let mut a = with_genes([1; 8]);
    a.set_matches(8);
    a.set_fitness(Ratio { num: 1, den: 1 });
    let c = DNA::crossover_at(&a, &a, 4);
    assert_eq!(c.get_matches(), 0);
    assert_eq!(c.get_fitness(), Ratio { num: 0, den: 1 });
}

#[test]
fn crossover_last_gene_from_second_parent() {
    let a = with_genes([1; 8]);
    let b = with_genes([6; 8]);
    for _ in 0..200 {
        let c = DNA::crossover(&a, &b);
        let g = genes(&c);
        assert_eq!(g[7], 6);
        let split = g.iter().position(|x| *x == 6).unwrap();
        assert!(split < 7);
        assert!(g[..split].iter().all(|x| *x == 1));
        assert!(g[split..].iter().all(|x| *x == 6));
    }
}

#[test]
fn mutate_with_zero_rate_keeps_genes() {
    let mut d = with_genes([0, 4, 7, 5, 2, 6, 1, 3]);
    DNA::mutate(&mut d, Ratio { num: 0, den: 100 });
    assert_eq!(genes(&d), [0, 4, 7, 5, 2, 6, 1, 3]);
}

#[test]
fn mutate_with_full_rate_keeps_columns_valid() {
    let mut changed = false;
    for _ in 0..50 {
        let mut d = with_genes([7; 8]);
        DNA::mutate(&mut d, Ratio { num: 1, den: 1 });
        let g = genes(&d);
        assert!(g.iter().all(|x| *x < 8));
        changed |= g != [7; 8];
    }
    assert!(changed);
}

#[test]
fn mutate_with_replaces_hit_genes_only() {
    let mut d = with_genes([0, 1, 2, 3, 4, 5, 6, 7]);
    d.set_matches(3);
    d.set_fitness(Ratio { num: 3, den: 9 });
    let hit = [true, false, true, false, false, false, false, true];
    let fresh = [5, 6, 6, 6, 6, 6, 6, 1];
    DNA::mutate_with(&mut d, hit, fresh);
    assert_eq!(genes(&d), [5, 1, 6, 3, 4, 5, 6, 1]);
    assert_eq!(d.get_matches(), 3);
    assert_eq!(d.get_fitness(), Ratio { num: 3, den: 9 });
}

#[test]
fn mutate_with_no_hits_keeps_genes() {
    let mut d = with_genes([0, 4, 7, 5, 2, 6, 1, 3]);
    DNA::mutate_with(&mut d, [false; 8], [7; 8]);
    assert_eq!(genes(&d), [0, 4, 7, 5, 2, 6, 1, 3]);
}
