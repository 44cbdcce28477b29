use flashcard_core::richtext::match_str;
use flashcard_core::richtext::parse_rich_text;
use flashcard_core::richtext::Parsed;
use flashcard_core::richtext::TextBlock;
use flashcard_core::settings::translation_target;
use flashcard_core::settings::Language;

#[test]
fn test_match_str() {
    assert_eq!(match_str("`math", "What is", 0), Parsed::No(1));
    assert_eq!(match_str("`math", "`math 0.1`", 0), Parsed::Yes(5));
}

#[test]
fn test_parse_rich_text() {
    let blocks = parse_rich_text("What is this notation: `math 0.bar(3)` ?");
    assert_eq!(blocks.len(), 3);
    assert_eq!(
        blocks[0],
        TextBlock::Raw("What is this notation: ".to_string())
    );
    assert_eq!(blocks[1], TextBlock::AsciiMath("0.bar(3)".to_string()));
    assert_eq!(blocks[2], TextBlock::Raw(" ?".to_string()));
}

#[test]
fn matching_stops_at_the_end_of_the_text() {
    assert_eq!(match_str("`math", "`ma", 0), Parsed::No(4));
    assert_eq!(match_str("`math", "xx`math", 2), Parsed::Yes(5));
}

#[test]
fn plain_text_is_one_raw_block() {
    let blocks = parse_rich_text("nothing special");
    assert_eq!(blocks, vec![TextBlock::Raw("nothing special".to_string())]);
    assert!(parse_rich_text("").is_empty());
}

#[test]
fn leading_math_keeps_the_empty_raw_block() {
    let blocks = parse_rich_text("`math x`");
    assert_eq!(blocks.len(), 2);
    assert_eq!(blocks[0], TextBlock::Raw(String::new()));
    assert_eq!(blocks[1], TextBlock::AsciiMath("x".to_string()));
}

#[test]
fn unterminated_math_runs_to_the_end() {
    let blocks = parse_rich_text("a `math 1/3");
    assert_eq!(blocks.len(), 2);
    assert_eq!(blocks[0], TextBlock::Raw("a ".to_string()));
    assert_eq!(blocks[1], TextBlock::AsciiMath("1/3".to_string()));
}

#[test]
fn empty_blocks_report_empty() {
    assert!(TextBlock::Raw(String::new()).is_empty());
    assert!(TextBlock::AsciiMath(String::new()).is_empty());
    assert!(!TextBlock::Raw("x".to_string()).is_empty());
}

#[test]
fn language_names_and_translation_codes() {
    assert_eq!(Language::Spanish.as_str(), "spanish");
    assert_eq!(Language::French.as_str(), "french");
    assert_eq!(Language::Portuguese.as_str(), "portuguese");
    assert_eq!(Language::German.as_str(), "german");
    assert_eq!(translation_target(Language::Spanish), Some("es"));
    assert_eq!(translation_target(Language::French), Some("fr"));
    assert_eq!(translation_target(Language::Portuguese), Some("pt-PT"));
    assert_eq!(translation_target(Language::German), None);
}
