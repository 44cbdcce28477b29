use flashcard_core::language::get_all_sentences;
use flashcard_core::language::llm_resp_parse_words;
use flashcard_core::language::new_sentence_from_response;
use flashcard_core::language::parse_xml_tag;
use flashcard_core::model::Flashcard;
use flashcard_core::text::str_eq;
use flashcard_core::text::trim_str;

#[test]
fn test_llm_resp_parse_words() {
    // Test case 1: Normal response with words
    let response1 = "Here is the response:\n<words>\ngustaria\ncocina\n</words>\nThank you!";
    let result1 = llm_resp_parse_words(response1);
    assert_eq!(result1, vec!["gustaria", "cocina"]);

    // Test case 2: Response with extra whitespace
    let response2 = "  <words>  \n  gustaria  \n  cocina  \n  </words>  ";
    let result2 = llm_resp_parse_words(response2);
    assert_eq!(result2, vec!["gustaria", "cocina"]);

    // Test case 3: Response with empty lines
    let response3 = "<words>\ngustaria\n\ncocina\n\n</words>";
    let result3 = llm_resp_parse_words(response3);
    assert_eq!(result3, vec!["gustaria", "cocina"]);

    // Test case 4: Response without tags
    let response4 = "This response has no tags";
    let result4 = llm_resp_parse_words(response4);
    assert_eq!(result4, Vec::<String>::new());

    // Test case 5: Response with only opening tag
    let response5 = "<words>\ngustaria\ncocina";
    let result5 = llm_resp_parse_words(response5);
    assert_eq!(result5, Vec::<String>::new());

    // Test case 6: Empty response
    let response6 = "";
    let result6 = llm_resp_parse_words(response6);
    assert_eq!(result6, Vec::<String>::new());

    // Test case 7: Response with empty words section
    let response7 = "<words>\n</words>";
    let result7 = llm_resp_parse_words(response7);
    assert_eq!(result7, Vec::<String>::new());
}

#[test]
fn xml_tag_extracts_trimmed_content() {
    let text = "before <tag>\n  hello world \n</tag> after";
    assert_eq!(parse_xml_tag(text, "tag"), Some("hello world".to_string()));
}

#[test]
fn xml_tag_takes_the_first_occurrence_of_each_tag() {
    let text = "<t>one</t> <t>two</t>";
    assert_eq!(parse_xml_tag(text, "t"), Some("one".to_string()));
}

#[test]
fn xml_tag_missing_or_crossed_tags_yield_nothing() {
    assert_eq!(parse_xml_tag("no tags here", "t"), None);
    assert_eq!(parse_xml_tag("<t>unclosed", "t"), None);
    assert_eq!(parse_xml_tag("unopened</t>", "t"), None);
    assert_eq!(parse_xml_tag("</t>backwards<t>", "t"), None);
    assert_eq!(parse_xml_tag("<t></t>", "t"), Some(String::new()));
}

#[test]
fn sentence_needs_all_three_tags() {
    let full = "<new_sentence>Me gusta la cocina.</new_sentence>\n<new_word>cocina</new_word>\n<translation>kitchen</translation>";
    let s = new_sentence_from_response(full).unwrap();
    assert_eq!(s.text, "Me gusta la cocina.");
    assert_eq!(s.new_word, "cocina");
    assert_eq!(s.translation, "kitchen");

    let partial = "<new_sentence>Me gusta la cocina.</new_sentence>\n<new_word>cocina</new_word>";
    assert!(new_sentence_from_response(partial).is_none());
    assert!(new_sentence_from_response("").is_none());
}

fn answer_card(id: i64, answer: &str) -> Flashcard {
    Flashcard {
        id,
        question: String::new(),
        answer: answer.to_string(),
        examples: None,
        source: None,
        img: None,
        question_img: None,
        tags: Vec::new(),
        last_reviewed: 0,
        review_after_secs: 0,
    }
}

#[test]
fn sentences_are_joined_one_per_line() {
    let cards = vec![
        answer_card(1, "Me gusta."),
        answer_card(2, "Hace frio."),
        answer_card(3, "Hasta luego."),
    ];
    assert_eq!(get_all_sentences(&cards), "Me gusta.\nHace frio.\nHasta luego.");
    assert_eq!(get_all_sentences(&Vec::new()), "");
    assert_eq!(get_all_sentences(&vec![answer_card(1, "Solo.")]), "Solo.");
}

#[test]
fn trimming_strips_ascii_whitespace_only_at_the_ends() {
    assert_eq!(trim_str("  a b \t\r\n"), "a b");
    assert_eq!(trim_str(""), "");
    assert_eq!(trim_str(" \n "), "");
    assert_eq!(trim_str("x"), "x");
}

#[test]
fn string_equality_is_by_characters() {
    assert!(str_eq("", ""));
    assert!(str_eq("abc", "abc"));
    assert!(!str_eq("abc", "abd"));
    assert!(!str_eq("abc", "ab"));
}
