use ed_balance::models::Context;
use ed_balance::shared::CliSettings;

fn settings() -> CliSettings {
    CliSettings {
        keyboard: None,
        text: None,
        digraphs: None,
        frozen_left: String::from("ab"),
        frozen_right: String::from("cd"),
        mutations_count: 2,
        population_size: 100,
        children_count: 10,
        generations_count: 1000,
        results_count: 20,
        left_count: 15,
        repeats_count: 100,
    }
}

#[test]
fn context_takes_its_counts_from_the_settings() {
    let s = settings();
    let context = Context::new(&s);
    assert_eq!(context.mutations_count, 2);
    assert_eq!(context.population_size, 100);
    assert_eq!(context.children_count, 10);
    assert_eq!(context.generations_count, 1000);
    assert_eq!(context.results_count, 20);
    assert_eq!(context.left_count, 15);
    assert_eq!(context.repeats_count, 100);
}
