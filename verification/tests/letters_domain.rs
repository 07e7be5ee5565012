use ed_balance::letters::{Behaviour, Digraphs, Letters, Mutation};
use ed_balance::models::{Context, EngineError, IBehaviour, IIndividual};
use ed_balance::pool::dedup_by_content;
use ed_balance::process::need_to_continue;
use ed_balance::shared::get_version;

fn default_context() -> Context {
    Context {
        mutations_count: 4,
        population_size: 10,
        children_count: 10,
        generations_count: 10,
        results_count: 10,
        left_count: 15,
        repeats_count: 10,
    }
}

fn default_behaviour() -> Behaviour {
    Behaviour {
        context: default_context(),
        digraphs: Digraphs::new(Vec::new()),
        frozen_left: Vec::new(),
        frozen_right: Vec::new(),
    }
}

fn to_sorted_string(list: &Vec<char>) -> String {
    let mut vec = list.clone();
    vec.sort();
    vec.iter().collect()
}

#[test]
fn unique_should_work() {
    let behaviour = default_behaviour();
    let a = behaviour.generate();
    let b = behaviour.generate();
    let clone = a.copy();
    let vec: Vec<Letters> = vec![a, b, clone];

    let actual = dedup_by_content(vec);

    assert_eq!(actual.len(), 2);
}

#[test]
fn should_assign_parent_version() {
    let mut context = default_context();
    context.mutations_count = 1;
    let behaviour = Behaviour {
        context,
        digraphs: Digraphs::new(Vec::new()),
        frozen_left: Vec::new(),
        frozen_right: Vec::new(),
    };

    let target = behaviour.generate();
    let actual = behaviour.mutate(&target);

    assert_eq!(actual.parent_version, target.version);
}

#[test]
fn should_not_mutate_source_object() {
    let behaviour = default_behaviour();
    let target = behaviour.generate();
    let copy = target.left.clone();
    let actual = behaviour.mutate(&target);

    assert_ne!(actual.left, copy);
    assert_eq!(copy, target.left);
}

#[test]
fn behaviour_should_mutate() {
    let behaviour = default_behaviour();
    let target = behaviour.generate();

    let actual = behaviour.mutate(&target);

    assert_ne!(target.left, actual.left);
    assert_ne!(target.right, actual.right);
}

#[test]
fn should_sort_chars() {
    let behaviour = default_behaviour();
    let letters = behaviour.generate();

    let target = to_sorted_string(&letters.left);
    let actual: String = letters.left.iter().collect();

    assert_eq!(target, actual);

    let target = to_sorted_string(&letters.right);
    let actual: String = letters.right.iter().collect();

    assert_eq!(target, actual);
}

#[test]
fn mutate_keeps_the_letter_multiset() {
    // Mutation only swaps letters between the hands: pooling both hands and
    // sorting must give the same letters before and after.
    let behaviour = default_behaviour();
    let target = behaviour.generate();
    let actual = behaviour.mutate(&target);

    let mut before: Vec<char> = target.left.clone();
    before.extend(target.right.iter());
    before.sort();
    let mut after: Vec<char> = actual.left.clone();
    after.extend(actual.right.iter());
    after.sort();

    assert_eq!(before, after);
}

#[test]
fn cross_rejects_an_incompatible_mutation() {
    let behaviour = default_behaviour();
    let ancestor_left = vec!['a', 'b'];
    let ancestor_right = vec!['c', 'd'];
    let a = Letters {
        version: String::from("va"),
        left: ancestor_left.clone(),
        right: ancestor_right.clone(),
        left_score: 0,
        right_score: 0,
        mutations: vec![Mutation { left: 'z', right: 'z' }],
        parent_version: String::from("p"),
        parent_left: ancestor_left.clone(),
        parent_right: ancestor_right.clone(),
    };
    let b = Letters {
        version: String::from("vb"),
        left: ancestor_left.clone(),
        right: ancestor_right.clone(),
        left_score: 0,
        right_score: 0,
        mutations: Vec::new(),
        parent_version: String::from("p"),
        parent_left: ancestor_left.clone(),
        parent_right: ancestor_right.clone(),
    };

    let r = behaviour.cross(&a, &b);
    assert!(matches!(r, Err(EngineError::IncompatibleMutation)));
}

#[test]
fn cross_replays_a_compatible_mutation() {
    let behaviour = default_behaviour();
    let ancestor_left = vec!['a', 'b'];
    let ancestor_right = vec!['c', 'd'];
    let a = Letters {
        version: String::from("va"),
        left: vec!['b', 'c'],
        right: vec!['a', 'd'],
        left_score: 0,
        right_score: 0,
        mutations: vec![Mutation { left: 'a', right: 'c' }],
        parent_version: String::from("p"),
        parent_left: ancestor_left.clone(),
        parent_right: ancestor_right.clone(),
    };
    let b = Letters {
        version: String::from("vb"),
        left: ancestor_left.clone(),
        right: ancestor_right.clone(),
        left_score: 0,
        right_score: 0,
        mutations: Vec::new(),
        parent_version: String::from("p"),
        parent_left: ancestor_left.clone(),
        parent_right: ancestor_right.clone(),
    };

    let child = behaviour.cross(&a, &b).unwrap();
    assert_eq!(child.parent_version, "p");
    // The child keeps its parents' ancestor snapshot.
    assert_eq!(child.parent_left, ancestor_left);
    assert_eq!(child.parent_right, ancestor_right);
    assert!(child.mutations.len() <= 4);
    // The single edit swaps 'a' and 'c' across the hands.
    assert_eq!(child.left, vec!['b', 'c']);
    assert_eq!(child.right, vec!['a', 'd']);
}

#[test]
fn digraph_scores_add_up() {
    let digraphs = Digraphs::new(vec![('a', 'b', 3), ('b', 'a', 4), ('a', 'z', 100)]);
    // Both letters of a pair must sit on the hand for its weight to count.
    assert_eq!(digraphs.calculate_score(&vec!['a', 'b', 'c']), 7);
    assert_eq!(digraphs.calculate_score(&vec!['a']), 0);
    assert_eq!(digraphs.calculate_score(&vec![]), 0);
}

#[test]
fn version_tokens_have_ten_characters() {
    let v = get_version();
    assert_eq!(v.len(), 10);
    assert!(v.chars().all(|c| c.is_ascii_alphanumeric()));
}

#[test]
fn generated_split_respects_left_count() {
    let behaviour = default_behaviour();
    let letters = behaviour.generate();
    assert_eq!(letters.left.len(), 15);
    assert_eq!(letters.right.len(), 11);
    assert_eq!(letters.version, letters.parent_version);
    assert!(letters.mutations.is_empty());
}

fn plain_letters(left: Vec<char>, right: Vec<char>, version: &str) -> Letters {
    Letters {
        version: String::from(version),
        left: left.clone(),
        right: right.clone(),
        left_score: 0,
        right_score: 0,
        mutations: Vec::new(),
        parent_version: String::from(version),
        parent_left: left,
        parent_right: right,
    }
}

#[test]
fn letters_render_hands_and_scores() {
    let mut x = plain_letters(vec!['a', 'b'], vec!['c', 'd'], "v");
    x.left_score = 5;
    x.right_score = -3;
    assert_eq!(x.to_string(), "ab;cd;5;-3");
}

#[test]
fn tied_scores_render_in_text_order() {
    // Both candidates score zero, so the stable secondary key, the textual
    // representation, decides the rendered order.
    let behaviour = default_behaviour();
    let first = plain_letters(vec!['b'], vec!['z'], "v1");
    let second = plain_letters(vec!['a'], vec!['z'], "v2");
    let prev: Vec<String> = Vec::new();

    let (_, tops, _, _) = need_to_continue(0, &prev, vec![first, second], 2, 5, &behaviour);

    assert_eq!(tops, vec![String::from("a;z;0;0"), String::from("b;z;0;0")]);
}
