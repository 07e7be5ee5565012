use ed_balance::algorithm::GeneticAlgorithm;
use ed_balance::basic::{BasicBehaviour, BasicIndividual};
use ed_balance::models::{Context, EngineError, IBehaviour, IIndividual};
use ed_balance::pool::{dedup_by_content, group_by_kind};
use ed_balance::process::{need_to_continue, run, RunError};

fn context(
    mutations_count: usize,
    population_size: usize,
    children_count: u32,
    generations_count: u32,
    results_count: usize,
    repeats_count: u16,
) -> Context {
    Context {
        mutations_count,
        population_size,
        children_count,
        generations_count,
        results_count,
        left_count: 15,
        repeats_count,
    }
}

fn behaviour(population_size: usize, generations_count: u32, repeats_count: u16) -> BasicBehaviour {
    BasicBehaviour {
        context: context(2, population_size, 3, generations_count, 2, repeats_count),
        start_value: 7,
        higher_is_better: true,
    }
}

fn individual(value: u64, version: &str, parent_version: &str) -> BasicIndividual {
    BasicIndividual {
        version: String::from(version),
        value,
        mutations: Vec::new(),
        parent_version: String::from(parent_version),
        parent_value: value,
    }
}

#[test]
fn dedup_collapses_content_equal_candidates() {
    let pool = vec![
        individual(1, "v1", "p"),
        individual(2, "v2", "p"),
        individual(1, "v3", "p"),
        individual(3, "v4", "p"),
    ];
    let deduped = dedup_by_content(pool);
    let values: Vec<u64> = deduped.iter().map(|x| x.value).collect();
    assert_eq!(values, vec![1, 2, 3]);
}

#[test]
fn dedup_twice_equals_dedup_once() {
    let once = dedup_by_content(vec![
        individual(5, "a", "p"),
        individual(5, "b", "p"),
        individual(9, "c", "p"),
    ]);
    let once_values: Vec<u64> = once.iter().map(|x| x.value).collect();
    let twice = dedup_by_content(once);
    let twice_values: Vec<u64> = twice.iter().map(|x| x.value).collect();
    assert_eq!(once_values, twice_values);
}

#[test]
fn run_respects_population_size_bound() {
    let b = behaviour(3, 10, 5);
    let algorithm = GeneticAlgorithm::new(&b);
    let population = vec![
        individual(1, "v1", "v1"),
        individual(2, "v2", "v2"),
        individual(3, "v3", "v3"),
        individual(4, "v4", "v4"),
        individual(5, "v5", "v5"),
    ];
    let ctx = context(2, 3, 3, 10, 2, 5);
    let next = algorithm.run(population, &ctx).unwrap();
    assert!(next.len() >= 1);
    assert!(next.len() <= 3);
}

#[test]
fn run_with_one_duplicating_parent_keeps_one_survivor() {
    // The basic behaviour's mutate always hands back a content-duplicate of
    // its parent, so after deduplication the pool holds one unique entry.
    let b = behaviour(5, 10, 5);
    let algorithm = GeneticAlgorithm::new(&b);
    let population = vec![individual(4, "v1", "v1")];
    let ctx = context(2, 5, 4, 10, 2, 5);
    let next = algorithm.run(population, &ctx).unwrap();
    assert_eq!(next.len(), 1);
    assert_eq!(next[0].value, 4);
}

#[test]
fn run_with_zero_target_size_reports_extinction() {
    let b = behaviour(5, 10, 5);
    let algorithm = GeneticAlgorithm::new(&b);
    let population = vec![individual(4, "v1", "v1")];
    let ctx = context(2, 0, 4, 10, 2, 5);
    let r = algorithm.run(population, &ctx);
    assert!(matches!(r, Err(EngineError::Extinction)));
}

#[test]
fn run_with_empty_population_reports_extinction() {
    let b = behaviour(5, 10, 5);
    let algorithm = GeneticAlgorithm::new(&b);
    let population: Vec<BasicIndividual> = Vec::new();
    let ctx = context(2, 5, 4, 10, 2, 5);
    let r = algorithm.run(population, &ctx);
    assert!(matches!(r, Err(EngineError::Extinction)));
}

#[test]
fn grouping_separates_two_lineages() {
    // Two individuals from lineage A and one from lineage B form exactly
    // two groups.
    let population = vec![
        individual(1, "a1", "lineage_a"),
        individual(2, "a2", "lineage_a"),
        individual(3, "b1", "lineage_b"),
    ];
    let groups = group_by_kind(population);
    assert_eq!(groups.len(), 2);
    assert_eq!(groups[0].len(), 2);
    assert_eq!(groups[1].len(), 1);
}

#[test]
fn recombination_crosses_only_inside_a_group() {
    let b = behaviour(5, 10, 5);
    let algorithm = GeneticAlgorithm::new(&b);

    // A group of two produces one crossed child ahead of its two members.
    let pair = vec![individual(1, "a1", "lineage_a"), individual(2, "a2", "lineage_a")];
    let crossed = algorithm.recombine(pair).unwrap();
    assert_eq!(crossed.len(), 3);
    assert_eq!(crossed[0].get_kind(), "lineage_a");

    // A group of one produces no children.
    let single = vec![individual(3, "b1", "lineage_b")];
    let alone = algorithm.recombine(single).unwrap();
    assert_eq!(alone.len(), 1);
}

#[test]
fn comparator_direction_decides_the_best() {
    // The same raw population under opposite comparators selects different
    // candidates as best: the engine does not hardcode a direction.
    let ctx = context(2, 2, 1, 10, 2, 5);
    let higher = BasicBehaviour {
        context: context(2, 2, 1, 10, 2, 5),
        start_value: 0,
        higher_is_better: true,
    };
    let lower = BasicBehaviour {
        context: context(2, 2, 1, 10, 2, 5),
        start_value: 0,
        higher_is_better: false,
    };

    let population = vec![individual(1, "v1", "v1"), individual(2, "v2", "v2")];
    let algorithm = GeneticAlgorithm::new(&higher);
    let best_higher = algorithm.run(population, &ctx).unwrap()[0].value;

    let population = vec![individual(1, "v1", "v1"), individual(2, "v2", "v2")];
    let algorithm = GeneticAlgorithm::new(&lower);
    let best_lower = algorithm.run(population, &ctx).unwrap()[0].value;

    assert_eq!(best_higher, 2);
    assert_eq!(best_lower, 1);
    assert_ne!(best_higher, best_lower);
}

#[test]
fn driver_stops_after_exactly_the_configured_repeats() {
    // The basic behaviour never changes the top results, so the repeat
    // counter grows by one per generation after the first, and the driver
    // stops at the threshold: not before, not after.
    let b = behaviour(3, 50, 4);
    let outcome = run(&b).unwrap();
    assert!(outcome.converged);
    assert_eq!(outcome.repeats, 4);
    // The first check resets the counter (there was no previous result
    // set), and each later check advances it by one.
    assert_eq!(outcome.generations, 5);
}

#[test]
fn driver_exhausts_the_generation_budget_when_nothing_stabilises() {
    let b = behaviour(3, 3, 100);
    let outcome = run(&b).unwrap();
    assert!(!outcome.converged);
    assert_eq!(outcome.generations, 3);
}

#[test]
fn driver_with_zero_budget_only_scores_the_seeds() {
    let b = behaviour(4, 0, 5);
    let outcome = run(&b).unwrap();
    assert_eq!(outcome.generations, 0);
    assert!(!outcome.converged);
    assert_eq!(outcome.population.len(), 4);
}

#[test]
fn convergence_check_counts_and_resets() {
    let b = behaviour(3, 10, 5);

    // An unchanged rendered result set advances the counter.
    let population = vec![individual(6, "v1", "v1")];
    let prev = vec![String::from("6")];
    let (repeats, tops, to_continue, population) =
        need_to_continue(2, &prev, population, 2, 5, &b);
    assert_eq!(repeats, 3);
    assert!(to_continue);
    assert_eq!(tops, vec![String::from("6")]);

    // A changed one resets it to zero.
    let prev = vec![String::from("9")];
    let (repeats, _tops, to_continue, population) =
        need_to_continue(2, &prev, population, 2, 5, &b);
    assert_eq!(repeats, 0);
    assert!(to_continue);

    // Reaching the threshold stops the driver.
    let prev = vec![String::from("6")];
    let (repeats, _tops, to_continue, _population) =
        need_to_continue(4, &prev, population, 2, 5, &b);
    assert_eq!(repeats, 5);
    assert!(!to_continue);
}

#[test]
fn extinction_cannot_happen_with_a_positive_population_size() {
    let b = behaviour(2, 6, 2);
    let outcome = run(&b);
    assert!(!matches!(outcome, Err(RunError::Extinction)));
    let outcome = outcome.unwrap();
    assert!(outcome.population.len() >= 1);
    assert!(outcome.population.len() <= 2);
}

#[test]
fn basic_individual_renders_its_value() {
    let x = individual(42, "v", "p");
    assert_eq!(x.to_string(), "42");
}
