use riinguist::glossary::{build_definition_hashmap, Definition, Glossary};
use riinguist::lookup::explain;

const PROMPT: &str = "Please provide a Riichi Mahjong term for me to explain.";
const NO_MATCH: &str = "No such term was found.";

fn sample_glossary() -> Glossary {
    build_definition_hashmap(vec![
        Definition {
            name: "Riichi".to_string(),
            details: Some("ree-chee".to_string()),
            description: "Declaring readiness.".to_string(),
        },
        Definition {
            name: "Pinfu".to_string(),
            details: None,
            description: "All sequences.".to_string(),
        },
    ])
}

#[test]
fn empty_query_prompts() {
    let g = sample_glossary();
    assert_eq!(explain("", &g), PROMPT);
}

#[test]
fn blank_query_prompts() {
    let g = sample_glossary();
    assert_eq!(explain("   ", &g), PROMPT);
}

#[test]
fn bare_command_prompts() {
    let g = sample_glossary();
    assert_eq!(explain("!explain   ", &g), PROMPT);
}

#[test]
fn noisy_query_answers_with_entry() {
    let g = sample_glossary();
    assert_eq!(explain("!explain riichii", &g), "**Riichi** (ree-chee)\nDeclaring readiness.");
}

#[test]
fn exact_query_answers_with_entry() {
    let g = sample_glossary();
    assert_eq!(explain("!explain pinfu", &g), "**Pinfu**\nAll sequences.");
}

#[test]
fn case_difference_still_matches() {
    let g = sample_glossary();
    assert_eq!(explain("!explain Riichi", &g), "**Riichi** (ree-chee)\nDeclaring readiness.");
}

#[test]
fn prefix_is_stripped_only_once_and_only_in_front() {
    // only one leading "!explain" is a command: what remains is the query
    let g = sample_glossary();
    assert_eq!(explain("!explain !explain", &g), NO_MATCH);
    assert_eq!(explain("riichi !explain", &g), NO_MATCH);
}

#[test]
fn unknown_term_is_not_found() {
    let g = sample_glossary();
    assert_eq!(explain("!explain xyzzy", &g), NO_MATCH);
    assert_eq!(explain("xyzzy", &g), NO_MATCH);
}

#[test]
fn empty_glossary_finds_nothing() {
    let g = build_definition_hashmap(Vec::new());
    assert_eq!(explain("!explain riichi", &g), NO_MATCH);
}
