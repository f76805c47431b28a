use text_normalizer::TextNormalizer;

fn normalize(text: &str) -> String {
    TextNormalizer::new().normalize_text(text).into_owned()
}

#[test]
fn pipeline_runs_the_three_rules() {
    assert_eq!(
        normalize("Sooo *sigh* WhAt   nOw?"),
        "So What now?"
    );
    assert_eq!(normalize("It's a niiice *laughs* day!"), "It's a nice day!");
    assert_eq!(normalize("Plain words."), "Plain words.");
}

#[test]
fn pipeline_spares_no_double_letter() {
    assert_eq!(
        normalize("Hellooo how areee you *cough* today?"),
        "Helo how are you today?"
    );
    assert_eq!(
        normalize("HeLLo ThERe, HOw Are YOu?"),
        "Helo There, How Are You?"
    );
    assert_eq!(
        normalize("Regular text with no issues."),
        "Regular text with no isues."
    );
}

#[test]
fn pipeline_of_nothing_is_nothing() {
    assert_eq!(normalize(""), "");
}

#[test]
fn pipeline_is_the_rules_in_their_order() {
    let normalizer = TextNormalizer::new();
    for sample in [
        "Hellooo how areee you *cough* today?",
        "HHHeLLLo",
        "a **b** c",
        "*oops  WoRRRld",
        "",
    ] {
        let collapsed = normalizer.normalize_repeated_characters(sample);
        let stripped = normalizer.remove_asterisks(&collapsed);
        let settled = normalizer.normalize_casing(&stripped);
        assert_eq!(normalizer.normalize_text(sample), settled);
    }
}

#[test]
fn order_of_the_rules_matters() {
    let normalizer = TextNormalizer::new();
    let input = "HHHeLLLo";

    assert_eq!(normalizer.normalize_text(input), "Helo");

    let settled_first = normalizer.normalize_casing(input);
    assert_eq!(settled_first, "Hhhelllo");
    let then_collapsed = normalizer.normalize_repeated_characters(&settled_first);
    assert_eq!(then_collapsed, "Hhelo");

    assert_ne!(normalizer.normalize_text(input), then_collapsed);
}

#[test]
fn asterisks_meet_only_after_collapsing() {
    // Asterisks are no word characters: collapsing leaves "**" alone, and the
    // pair is then removed as an empty remark.
    assert_eq!(normalize("a ** b"), "a b");
    assert_eq!(normalize("aa**bb"), "ab");
}

#[test]
fn default_normalizer_is_the_normalizer() {
    let normalizer = TextNormalizer::default();
    assert_eq!(normalizer.normalize_text("WoOoW"), "Wooow");
}
