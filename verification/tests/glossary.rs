use riinguist::extract::{extract_patterns, extract_terms, get_definitions, ExtractError,
    PatternNode, TermCell, TermTable};
use riinguist::glossary::{build_definition_hashmap, Definition};

fn frag(s: &str) -> Vec<String> {
    vec![s.to_string()]
}

fn term_table(bold: Option<&str>, italic: Option<&str>, desc: Option<&str>) -> TermTable {
    let mut cells = vec![TermCell {
        bold: bold.map(|s| frag(s)),
        italic: italic.map(|s| frag(s)),
        fragments: Vec::new(),
    }];
    if let Some(d) = desc {
        cells.push(TermCell { bold: None, italic: None, fragments: frag(d) });
    }
    TermTable { cells }
}

fn row(bold: Option<&str>, detail: Option<&str>, desc: Option<&str>) -> PatternNode {
    let mut details = vec![Vec::new()];
    if let Some(d) = detail {
        details.push(frag(d));
    }
    let mut cells = vec![Vec::new()];
    if let Some(d) = desc {
        cells.push(frag(d));
    }
    PatternNode::Row { bold: bold.map(|s| frag(s)), details, cells }
}

fn heading(label: &str) -> PatternNode {
    PatternNode::Heading { fragments: frag(label) }
}

#[test]
fn stringify_collapses_whitespace() {
    let frags = vec!["  Hello\n\tworld ".to_string(), String::new(), "again".to_string()];
    assert_eq!(riinguist::text::stringify(&frags), "Hello world again");
}

#[test]
fn stringify_collapses_unicode_whitespace() {
    // no-break space and ideographic space count as whitespace too
    let frags = vec!["a\u{a0}\u{3000}b".to_string(), " c ".to_string()];
    assert_eq!(riinguist::text::stringify(&frags), "a b c");
}

#[test]
fn terminology_row_renders_entry() {
    let tables = vec![term_table(Some("Riichi"), Some("REE-chee"), Some("Declaring readiness."))];
    let defs = extract_terms(&tables).unwrap();
    assert_eq!(defs.len(), 1);
    assert_eq!(defs[0].name, "Riichi");
    assert_eq!(defs[0].details.as_deref(), Some("ree-chee"));
    assert_eq!(defs[0].description, "Declaring readiness.");
    let g = build_definition_hashmap(defs);
    let entry = g.get(&"riichi".to_string()).unwrap();
    assert_eq!(entry.as_str(), "**Riichi** (ree-chee)\nDeclaring readiness.");
    assert!(g.get(&"Riichi".to_string()).is_none());
}

#[test]
fn glossary_round_trip_from_mock_pages() {
    let tables = vec![term_table(Some("Riichi"), Some("REE-chee"), Some("Declaring readiness."))];
    let nodes = vec![
        heading("Intro"),
        heading("One han closed only"),
        row(Some("Pinfu"), Some("(closed)"), Some("All sequences.")),
    ];
    let g = get_definitions(&tables, &nodes).unwrap();
    assert_eq!(g.len(), 2);
    assert_eq!(
        g.get(&"riichi".to_string()).unwrap().as_str(),
        "**Riichi** (ree-chee)\nDeclaring readiness."
    );
    assert_eq!(
        g.get(&"pinfu".to_string()).unwrap().as_str(),
        "**Pinfu** (one han, closed)\nAll sequences."
    );
    assert!(g.get(&"no such key".to_string()).is_none());
}

#[test]
fn pattern_row_detail_substitution() {
    // " (" becomes ", ", ")" disappears, the heading phrase is shortened,
    // and the whole detail is lowercased under the carried section label
    let nodes = vec![
        heading("Intro"),
        heading("One han closed only"),
        row(Some("Pinfu"), Some("1 han (closed)"), Some("All sequences.")),
    ];
    let defs = extract_patterns(&nodes).unwrap();
    assert_eq!(defs.len(), 1);
    assert_eq!(defs[0].name, "Pinfu");
    assert_eq!(defs[0].details.as_deref(), Some("one han, 1 han, closed"));
    assert_eq!(defs[0].description, "All sequences.");
}

#[test]
fn pattern_row_bare_parenthesis_detail() {
    // a parenthesis that opens the whole detail cell is dropped along with
    // its closing mate, so "(closed)" joins the section label as ", closed"
    let nodes = vec![
        heading("Intro"),
        heading("One han closed only"),
        row(Some("Pinfu"), Some("(closed)"), Some("All sequences.")),
    ];
    let defs = extract_patterns(&nodes).unwrap();
    assert_eq!(defs[0].details.as_deref(), Some("one han, closed"));
}

#[test]
fn pattern_scan_skips_first_element() {
    // the introductory first element is never read as a data row, even when
    // it is malformed
    let nodes = vec![
        row(None, None, None),
        heading("Two han"),
        row(Some("Chanta"), Some("2 han (open)"), Some("Outside hand.")),
    ];
    let defs = extract_patterns(&nodes).unwrap();
    assert_eq!(defs.len(), 1);
    assert_eq!(defs[0].details.as_deref(), Some("two han, 2 han, open"));
}

#[test]
fn pattern_scan_caps_at_forty_seven_elements() {
    let mut nodes = vec![heading("Intro")];
    for i in 0..48 {
        nodes.push(row(Some(&format!("t{}", i)), Some("x"), Some("d")));
    }
    let defs = extract_patterns(&nodes).unwrap();
    assert_eq!(defs.len(), 47);
    assert_eq!(defs.last().unwrap().name, "t46");
}

#[test]
fn later_record_overwrites_earlier_key() {
    let defs = vec![
        Definition {
            name: "Riichi".to_string(),
            details: None,
            description: "First reading.".to_string(),
        },
        Definition {
            name: "RIICHI".to_string(),
            details: None,
            description: "Second reading.".to_string(),
        },
    ];
    let g = build_definition_hashmap(defs);
    assert_eq!(g.len(), 1);
    assert_eq!(g.get(&"riichi".to_string()).unwrap().as_str(), "**RIICHI**\nSecond reading.");
}

#[test]
fn missing_cell_is_fatal() {
    let tables = vec![TermTable { cells: Vec::new() }];
    assert!(matches!(extract_terms(&tables), Err(ExtractError::MissingCell)));
}

#[test]
fn missing_bold_name_is_fatal() {
    let tables = vec![term_table(None, None, Some("desc"))];
    assert!(matches!(extract_terms(&tables), Err(ExtractError::MissingName)));
    let nodes = vec![heading("Intro"), row(None, Some("x"), Some("d"))];
    assert!(matches!(extract_patterns(&nodes), Err(ExtractError::MissingName)));
}

#[test]
fn missing_description_cell_is_fatal() {
    let tables = vec![term_table(Some("Riichi"), None, None)];
    assert!(matches!(extract_terms(&tables), Err(ExtractError::MissingDescription)));
    let nodes = vec![heading("Intro"), row(Some("Pinfu"), Some("x"), None)];
    assert!(matches!(extract_patterns(&nodes), Err(ExtractError::MissingDescription)));
}

#[test]
fn missing_detail_child_is_fatal() {
    let nodes = vec![heading("Intro"), row(Some("Pinfu"), None, Some("d"))];
    assert!(matches!(extract_patterns(&nodes), Err(ExtractError::MissingDetail)));
}

#[test]
fn first_failure_wins() {
    let tables = vec![
        term_table(Some("Riichi"), None, Some("ok")),
        TermTable { cells: Vec::new() },
        term_table(None, None, Some("also bad")),
    ];
    assert!(matches!(extract_terms(&tables), Err(ExtractError::MissingCell)));
}

#[test]
fn entry_without_details_has_no_bracket() {
    let defs = vec![Definition {
        name: "Pinfu".to_string(),
        details: None,
        description: "All sequences.".to_string(),
    }];
    let g = build_definition_hashmap(defs);
    assert_eq!(g.get(&"pinfu".to_string()).unwrap().as_str(), "**Pinfu**\nAll sequences.");
}
