use genesplice::zort::{PreferLeft, PreferRight, Zort};
use genesplice::{Gene, Genome, InnovationRanker, Platter};

fn genome_from(platter: &mut Platter, genes: Vec<Gene<String>>) -> Genome<String> {
    let mut genome = Genome::new();
    for gene in genes {
        genome.push(platter, gene, 0);
    }
    genome
}

fn innovations(genome: &Genome<String>) -> Vec<usize> {
    genome.genes.iter().map(|g| g.innovation).collect()
}

#[test]
fn platter_starts_with_no_innovations_handed_out() {
    let platter = Platter::new();
    assert_eq!(platter.innovation, 0);
}

#[test]
fn platter_draws_leave_the_innovation_counter_alone() {
    let mut platter = Platter::new();
    let _first = platter.rand();
    let _second = platter.rand();
    assert_eq!(platter.innovation, 0);
}

#[test]
fn gene_new_keeps_its_parts() {
    let gene = Gene::new(7, false, String::from("axon"));
    assert_eq!(gene.innovation, 7);
    assert!(!gene.enabled);
    assert_eq!(gene.phene, "axon");
}

#[test]
fn bias_keeps_the_left_gene() {
    let kept = Genome::bias(
        Gene::new(4, true, String::from("left")),
        Gene::new(4, true, String::from("right")),
    );
    assert_eq!(kept.phene, "left");
}

#[test]
fn push_appends_in_order() {
    let mut platter = Platter::new();
    let genome = genome_from(
        &mut platter,
        vec![
            Gene::new(1, true, String::from("a")),
            Gene::new(5, true, String::from("b")),
        ],
    );
    assert_eq!(innovations(&genome), vec![1, 5]);
}

#[test]
fn splice_interleaves_disjoint_parents_by_innovation() {
    let mut platter = Platter::new();
    let left = genome_from(
        &mut platter,
        vec![
            Gene::new(1, true, String::from("l1")),
            Gene::new(3, true, String::from("l3")),
        ],
    );
    let right = genome_from(
        &mut platter,
        vec![
            Gene::new(0, true, String::from("r0")),
            Gene::new(2, true, String::from("r2")),
            Gene::new(4, true, String::from("r4")),
        ],
    );
    let child = Genome::splice(&mut platter, left, right, PreferLeft, 0);
    assert_eq!(innovations(&child), vec![0, 1, 2, 3, 4]);
    assert_eq!(
        child.collect(),
        vec!["r0", "l1", "r2", "l3", "r4"]
    );
}

#[test]
fn splice_keeps_innovation_order_strict_whatever_the_mutation_rate() {
    for mutation in [0u64, 1, u64::MAX] {
        let mut platter = Platter::new();
        let left = genome_from(
            &mut platter,
            vec![
                Gene::new(2, true, String::from("l2")),
                Gene::new(4, true, String::from("l4")),
                Gene::new(9, true, String::from("l9")),
            ],
        );
        let right = genome_from(
            &mut platter,
            vec![
                Gene::new(2, true, String::from("r2")),
                Gene::new(7, true, String::from("r7")),
            ],
        );
        let child = Genome::splice(&mut platter, left, right, PreferLeft, mutation);
        let ids = innovations(&child);
        assert_eq!(ids, vec![2, 4, 7, 9]);
        for pair in ids.windows(2) {
            assert!(pair[0] < pair[1]);
        }
    }
}

#[test]
fn splice_resolves_each_collision_with_the_decider() {
    let mut platter = Platter::new();
    let left = genome_from(
        &mut platter,
        vec![
            Gene::new(1, true, String::from("l1")),
            Gene::new(2, true, String::from("l2")),
        ],
    );
    let right = genome_from(
        &mut platter,
        vec![
            Gene::new(1, true, String::from("r1")),
            Gene::new(2, true, String::from("r2")),
        ],
    );
    let child = Genome::splice(&mut platter, left, right, PreferRight, 0);
    assert_eq!(innovations(&child), vec![1, 2]);
    assert_eq!(child.collect(), vec!["r1", "r2"]);
}

#[test]
fn collect_returns_only_enabled_payloads_in_order() {
    let mut platter = Platter::new();
    let genome = genome_from(
        &mut platter,
        vec![
            Gene::new(1, true, String::from("a")),
            Gene::new(2, false, String::from("b")),
            Gene::new(3, true, String::from("c")),
            Gene::new(4, false, String::from("d")),
        ],
    );
    assert_eq!(genome.collect(), vec!["a", "c"]);
}

#[test]
fn collect_of_all_disabled_genes_is_empty() {
    let mut platter = Platter::new();
    let genome = genome_from(
        &mut platter,
        vec![Gene::new(1, false, String::from("a"))],
    );
    assert_eq!(genome.collect(), Vec::<String>::new());
}

#[test]
fn disabled_genes_survive_a_splice_but_not_its_phenotype() {
    let mut platter = Platter::new();
    let left = genome_from(&mut platter, vec![Gene::new(1, true, String::from("on"))]);
    let right = genome_from(&mut platter, vec![Gene::new(1, false, String::from("off"))]);
    let child = Genome::splice(&mut platter, left, right, PreferRight, 0);
    assert_eq!(child.genes.len(), 1);
    assert!(!child.genes[0].enabled);
    assert_eq!(child.collect(), Vec::<String>::new());
}

#[test]
fn set_decider_replaces_the_collision_strategy() {
    let a = vec![Gene::new(1, true, String::from("left"))];
    let b = vec![Gene::new(1, true, String::from("right"))];
    let mut z = Zort::new(a, b, InnovationRanker, PreferRight, 0);
    z.set_decider(PreferRight);
    let survivor = z.next().unwrap();
    assert_eq!(survivor.phene, "right");
    assert!(z.next().is_none());
}
