use ed_balance::keyboard::{
    cross_keys, generate_keys, line_to_keys, mutate_keys, parse_u8, Keyboard, Keys, Mutation,
    Position,
};
use ed_balance::models::{EngineError, IIndividual};
use ed_balance::pool::dedup_by_content;
use ed_balance::text::{chars_to_string, i64_digits};

fn sorted(mut keys: Keys) -> Keys {
    keys.sort();
    keys
}

#[test]
fn test_line_to_keys() {
    let actual = line_to_keys("hntio asler zxcvd  wyfj_ qubpg km___; 5625.250; some text");
    let expected: Keys = vec![
        ('h', 0_u8),
        ('n', 1_u8),
        ('t', 2_u8),
        ('i', 3_u8),
        ('o', 4_u8),
        ('a', 5_u8),
        ('s', 6_u8),
        ('l', 7_u8),
        ('e', 8_u8),
        ('r', 9_u8),
        ('z', 10_u8),
        ('x', 11_u8),
        ('c', 12_u8),
        ('v', 13_u8),
        ('d', 14_u8),
        ('w', 19_u8),
        ('y', 18_u8),
        ('f', 17_u8),
        ('j', 16_u8),
        ('q', 24_u8),
        ('u', 23_u8),
        ('b', 22_u8),
        ('p', 21_u8),
        ('g', 20_u8),
        ('k', 29_u8),
        ('m', 28_u8),
    ];

    assert_eq!(sorted(actual), sorted(expected));
}

#[test]
fn parse_u8_accepts_positions_and_rejects_the_rest() {
    assert_eq!(parse_u8(&String::from("0")), Some(0));
    assert_eq!(parse_u8(&String::from("29")), Some(29));
    assert_eq!(parse_u8(&String::from("255")), Some(255));
    assert_eq!(parse_u8(&String::from("007")), Some(7));
    assert_eq!(parse_u8(&String::from("+17")), Some(17));
    assert_eq!(parse_u8(&String::from("256")), None);
    assert_eq!(parse_u8(&String::from("")), None);
    assert_eq!(parse_u8(&String::from("+")), None);
    assert_eq!(parse_u8(&String::from("12a")), None);
    assert_eq!(parse_u8(&String::from("-3")), None);
}

#[test]
fn test_generate_with_no_frozen() {
    let frozen_keys: Keys = Vec::new();
    let blocked_keys: Vec<Position> = vec![9, 14, 19, 24];

    let keys = generate_keys(&frozen_keys, &blocked_keys);

    let expected_keys: Vec<char> = ('a'..='z').collect();
    let mut actual_keys: Vec<char> = keys.iter().map(|k| k.0).collect();
    actual_keys.sort();

    let mut expected_values: Vec<Position> =
        (0..=29).filter(|x| !blocked_keys.contains(x)).collect();
    expected_values.sort();

    let mut actual_values: Vec<Position> = keys.iter().map(|k| k.1).collect();
    actual_values.sort();

    assert_eq!(keys.len(), 26);
    assert_eq!(actual_keys, expected_keys);
    assert_eq!(actual_values, expected_values);
}

#[test]
fn test_generate() {
    let frozen_keys: Keys = vec![('a', 1_u8), ('b', 2_u8), ('c', 29_u8)];
    let frozen_values: Vec<Position> = frozen_keys.iter().map(|k| k.1).collect();
    let blocked_keys: Vec<Position> = vec![0, 2, 15, 16, 17];

    let keys = generate_keys(&frozen_keys, &blocked_keys);

    let expected_keys: Vec<char> = ('a'..='z').collect();
    let mut actual_keys: Vec<char> = keys.iter().map(|k| k.0).collect();
    actual_keys.sort();

    let mut expected_values: Vec<Position> = (1..=29)
        .filter(|x| !blocked_keys.contains(x))
        .filter(|x| !frozen_values.contains(x))
        .chain(frozen_values.iter().cloned())
        .collect();
    expected_values.sort();

    let mut actual_values: Vec<Position> = keys.iter().map(|k| k.1).collect();
    actual_values.sort();

    let find = |c: char| keys.iter().find(|k| k.0 == c).map(|k| k.1);
    assert_eq!(keys.len(), 26);
    assert_eq!(find('a'), Some(1));
    assert_eq!(find('b'), Some(2));
    assert_eq!(find('c'), Some(29));
    assert_eq!(actual_keys, expected_keys);
    assert_eq!(actual_values, expected_values);
}

fn keyboard(keys: Keys, score: (i64, u32, u32, u32, i64, i64), version: &str, parent_version: &str) -> Keyboard {
    Keyboard {
        version: String::from(version),
        keys: keys.clone(),
        score,
        mutations: vec![Mutation { first: 1, second: 2 }],
        parent_version: String::from(parent_version),
        parent: keys,
    }
}

#[test]
fn should_filter_unique() {
    let k1 = keyboard(
        vec![('a', 0_u8), ('b', 1_u8), ('c', 2_u8)],
        (1, 1, 2, 3, 4, 5),
        "version",
        "parent_version",
    );
    let k2 = keyboard(
        vec![('a', 0_u8), ('b', 1_u8), ('c', 2_u8)],
        (2, 3, 4, 5, 6, 7),
        "version2",
        "parent_version2",
    );

    assert_eq!(&k1, &k2);

    let vec = dedup_by_content(vec![k1, k2]);

    assert_eq!(vec.len(), 1);
}

#[test]
fn layouts_differing_in_one_position_are_not_equal() {
    let k1 = keyboard(vec![('a', 0_u8), ('b', 1_u8)], (0, 0, 0, 0, 0, 0), "v1", "p1");
    let k2 = keyboard(vec![('a', 0_u8), ('b', 3_u8)], (0, 0, 0, 0, 0, 0), "v2", "p2");
    assert_ne!(&k1, &k2);
}

#[test]
fn keyboard_renders_its_layout_and_score() {
    let keys = line_to_keys("hntio asler zxcvd  wyfj_ qubpg km___; x");
    let k = keyboard(keys, (5625, 10, 20, 30, -1, 2), "v", "p");
    assert_eq!(
        k.to_string(),
        "hntio asler zxcvd  wyfj_ qubpg km___;5625;10;20;30;-1;2"
    );
}

#[test]
fn mutate_keys_swaps_within_the_cap() {
    let keys = line_to_keys("hntio asler zxcvd  wyfj_ qubpg km___; x");
    let frozen: Keys = Vec::new();
    let (mutated, mutations) = mutate_keys(&keys, &frozen, 2);
    assert_eq!(mutated.len(), keys.len());
    assert!(mutations.len() >= 1);
    assert!(mutations.len() <= 2);

    let mut before: Vec<char> = keys.iter().map(|k| k.0).collect();
    before.sort();
    let mut after: Vec<char> = mutated.iter().map(|k| k.0).collect();
    after.sort();
    assert_eq!(before, after);
}

#[test]
fn cross_keys_replays_the_capped_union() {
    let parent: Keys = vec![('a', 0_u8), ('b', 1_u8), ('c', 2_u8)];
    let own = vec![Mutation { first: 0, second: 1 }];
    let other = vec![Mutation { first: 1, second: 2 }];
    let (keys, mutations) = cross_keys(&parent, &own, &other, 2).unwrap();
    assert_eq!(keys.len(), 3);
    assert!(mutations.len() <= 2);
}

#[test]
fn cross_keys_rejects_an_unknown_position() {
    let parent: Keys = vec![('a', 0_u8), ('b', 1_u8)];
    let own = vec![Mutation { first: 0, second: 7 }];
    let other: Vec<Mutation> = Vec::new();
    let r = cross_keys(&parent, &own, &other, 2);
    assert!(matches!(r, Err(EngineError::IncompatibleMutation)));
}

#[test]
fn mutant_children_join_their_parent_lineage() {
    let parent_keys: Keys = vec![('a', 0_u8), ('b', 1_u8)];
    let parent = Keyboard {
        version: String::from("v"),
        keys: parent_keys.clone(),
        score: (0, 0, 0, 0, 0, 0),
        mutations: Vec::new(),
        parent_version: String::from("p"),
        parent: vec![('a', 1_u8), ('b', 0_u8)],
    };

    // A mutated child descends from its parent: the parent's version is its
    // lineage key and the parent's keys its ancestor snapshot.
    let child = Keyboard::mutant(&parent, parent_keys.clone(), (1, 0, 0, 0, 0, 0), Vec::new());
    assert_eq!(child.parent_version, "v");
    assert_eq!(child.parent, parent.keys);

    // A crossed child stays a sibling of its parents: it keeps their shared
    // lineage key and ancestor snapshot.
    let sibling = Keyboard::crossed(&parent, parent_keys, (1, 0, 0, 0, 0, 0), Vec::new());
    assert_eq!(sibling.parent_version, "p");
    assert_eq!(sibling.parent, parent.parent);
}

#[test]
fn negative_scores_render_with_a_sign() {
    let digits = i64_digits(-42);
    assert_eq!(chars_to_string(&digits), "-42");
    let digits = i64_digits(0);
    assert_eq!(chars_to_string(&digits), "0");
    let digits = i64_digits(9007199254740993);
    assert_eq!(chars_to_string(&digits), "9007199254740993");
}
