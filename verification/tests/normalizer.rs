use text_normalizer::TextNormalizer;

#[test]
fn test_normalize_text() {
    let normalizer = TextNormalizer::new();

    assert_eq!(
        normalizer.normalize_text("Hellooo how areee you *cough* today?"),
        "Helo how are you today?"
    );

    assert_eq!(
        normalizer.normalize_text("HeLLo ThERe, HOw Are YOu?"),
        "Helo There, How Are You?"
    );

    assert_eq!(
        normalizer.normalize_text("It's a niiice *laughs* day!"),
        "It's a nice day!"
    );

    assert_eq!(normalizer.normalize_text(""), "");

    assert_eq!(
        normalizer.normalize_text("Regular text with no issues."),
        "Regular text with no isues."
    );
}

#[test]
fn test_normalize_repeated_characters() {
    let normalizer = TextNormalizer::new();

    assert_eq!(normalizer.normalize_repeated_characters("Hellooo"), "Helo");

    assert_eq!(
        normalizer.normalize_repeated_characters("goooood moooorning"),
        "god morning"
    );

    assert_eq!(
        normalizer.normalize_repeated_characters("normal text"),
        "normal text"
    );

    assert_eq!(normalizer.normalize_repeated_characters(""), "");
}

#[test]
fn test_remove_asterisks() {
    let normalizer = TextNormalizer::new();

    assert_eq!(
        normalizer.remove_asterisks("Hello *cough* there"),
        "Hello there"
    );

    assert_eq!(
        normalizer.remove_asterisks("*laughs* This is funny *smiles*"),
        " This is funny "
    );

    assert_eq!(
        normalizer.remove_asterisks("No asterisks here"),
        "No asterisks here"
    );

    assert_eq!(normalizer.remove_asterisks(""), "");
}

#[test]
fn test_normalize_casing() {
    let normalizer = TextNormalizer::new();

    assert_eq!(normalizer.normalize_casing("HeLLo"), "Hello");

    assert_eq!(normalizer.normalize_casing("ALL CAPS"), "ALL CAPS");

    assert_eq!(
        normalizer.normalize_casing("all lowercase"),
        "all lowercase"
    );

    assert_eq!(
        normalizer.normalize_casing("MiXeD CaSiNg TeXt"),
        "Mixed Casing Text"
    );

    assert_eq!(normalizer.normalize_casing(""), "");
}

#[test]
fn test_has_mixed_casing() {
    let normalizer = TextNormalizer::new();

    assert!(normalizer.has_mixed_casing("HeLLo"));
    assert!(!normalizer.has_mixed_casing("HELLO"));
    assert!(!normalizer.has_mixed_casing("hello"));
    assert!(normalizer.has_mixed_casing("Hello")); // one capital and lowercase letters: both cases occur
    assert!(!normalizer.has_mixed_casing("a")); // a single character
    assert!(!normalizer.has_mixed_casing("")); // the empty word
}
