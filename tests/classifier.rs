use incydecy::classify::{classify, classify_with, is_emoji_text, trim_white_space, Classification, Direction};

fn mutation(text: &str) -> Option<(String, Direction)> {
    match classify(text) {
        Classification::Mutation(m) => Some((m.label, m.direction)),
        Classification::NotAMutation => None,
    }
}

#[test]
fn short_texts_are_not_mutations() {
    assert_eq!(mutation(""), None);
    assert_eq!(mutation("+"), None);
    assert_eq!(mutation("++"), None);
    assert_eq!(mutation("a+"), None);
}

#[test]
fn long_texts_are_not_mutations() {
    let text = format!("{}++", "a".repeat(58));
    assert_eq!(text.len(), 60);
    assert_eq!(mutation(&text), None);
    let text = format!("{}++", "a".repeat(57));
    assert_eq!(text.len(), 59);
    assert_eq!(mutation(&text), Some(("a".repeat(57), Direction::Increment)));
}

#[test]
fn texts_without_operator_are_not_mutations() {
    assert_eq!(mutation("counter"), None);
    assert_eq!(mutation("counter+-"), None);
    assert_eq!(mutation("counter-+"), None);
    assert_eq!(mutation("counter+"), None);
}

#[test]
fn plain_increment() {
    assert_eq!(mutation("counter++"), Some(("counter".to_string(), Direction::Increment)));
}

#[test]
fn plain_decrement() {
    assert_eq!(mutation("abc_1--"), Some(("abc_1".to_string(), Direction::Decrement)));
}

#[test]
fn emoji_label() {
    assert_eq!(mutation("🎉🎉--"), Some(("🎉🎉".to_string(), Direction::Decrement)));
}

#[test]
fn punctuation_fails_the_ascii_policy() {
    assert_eq!(mutation("abc!!++"), None);
}

#[test]
fn mention_and_emoji_code_syntax_pass() {
    assert_eq!(
        mutation("<:party:123>++"),
        Some(("<:party:123>".to_string(), Direction::Increment))
    );
}

#[test]
fn surrounding_white_space_is_ignored_for_matching_but_kept_in_label() {
    assert_eq!(mutation(" counter ++"), Some((" counter ".to_string(), Direction::Increment)));
    assert_eq!(mutation("   ++"), None);
}

#[test]
fn white_space_inside_a_label_is_rejected() {
    assert_eq!(mutation("my counter++"), None);
    assert_eq!(mutation("a b++"), None);
}

#[test]
fn mixed_text_and_emoji_is_rejected() {
    assert_eq!(mutation("a🎉++"), None);
    assert_eq!(mutation("éé++"), None);
}

#[test]
fn classify_with_takes_the_emoji_verdict() {
    assert!(matches!(classify_with("éé++", true), Classification::Mutation(_)));
    assert!(matches!(classify_with("éé++", false), Classification::NotAMutation));
    assert!(matches!(classify_with("abc!!++", true), Classification::NotAMutation));
}

#[test]
fn white_space_trimming() {
    assert_eq!(trim_white_space(" a\tb\u{3000}c \n"), "a\tb\u{3000}c");
    assert_eq!(trim_white_space("\u{3000} \t"), "");
    assert_eq!(trim_white_space("abc"), "abc");
}

#[test]
fn emoji_runs() {
    assert!(is_emoji_text("🎉🎉"));
    assert!(!is_emoji_text("🎉a"));
    assert!(!is_emoji_text(""));
}

#[test]
fn white_space_only_label_is_rejected() {
    assert_eq!(mutation("\u{3000}++"), None);
    assert_eq!(mutation("🎉 🎉++"), None);
    assert_eq!(mutation("\u{3000}🎉 ++"), Some(("\u{3000}🎉 ".to_string(), Direction::Increment)));
}

#[test]
fn effects_of_directions() {
    assert_eq!(Direction::Increment.effect(), 1);
    assert_eq!(Direction::Decrement.effect(), -1);
}
