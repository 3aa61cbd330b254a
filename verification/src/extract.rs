//! Extractors: turn the two page models into definition records. The
//! terminology page is a list of tables, each holding a term cell and a
//! description cell; the pattern page is a document-order run of headings and
//! data rows, where the last heading's label is carried forward into every
//! following row's details.

use vstd::prelude::*;
use crate::glossary::{
    build_definition_hashmap,
    def_views,
    glossary_map,
    keys_in_order,
    DefData,
    Definition,
    Glossary,
};
use crate::text::{
    lower_of,
    lowercase,
    prefix_stripped,
    replace_chars,
    replaced,
    str_chars,
    strip_prefix_chars,
    chars_to_string,
    stringified,
    stringify,
    views,
};

verus! {

/// One cell of a terminology table: the text fragments of its first bolded
/// child, of its first italicized child, and of the cell as a whole.
pub struct TermCell {
    pub bold: Option<Vec<String>>,
    pub italic: Option<Vec<String>>,
    pub fragments: Vec<String>,
}

/// One table of the terminology page, as the cell-like children found in it.
pub struct TermTable {
    pub cells: Vec<TermCell>,
}

/// One element of the pattern page's document-order scan: a section heading,
/// or a data row with the fragments of its first bolded child, of its
/// definition-description children, and of its cell children.
pub enum PatternNode {
    Heading { fragments: Vec<String> },
    Row { bold: Option<Vec<String>>, details: Vec<Vec<String>>, cells: Vec<Vec<String>> },
}

/// A structural extraction failure: the page no longer has the expected
/// markup shape, which is fatal for the whole glossary.
#[derive(Clone, Copy, Debug, PartialEq, Eq, Structural)]
pub enum ExtractError {
    /// A table has no cell at all where the term was expected.
    MissingCell,
    /// A term cell or data row has no bolded name.
    MissingName,
    /// A data row has no second definition-description child.
    MissingDetail,
    /// A table or data row has no second cell for the description.
    MissingDescription,
}

/// The fragments under an optional child, empty when the child is absent.
pub open spec fn frags_of(o: Option<Vec<String>>) -> Seq<String> {
    match o {
        Some(v) => v@,
        None => Seq::empty(),
    }
}

/// A terminology table is well shaped when it has the two expected cells and
/// the first holds a bolded name.
pub open spec fn term_ok(t: TermTable) -> bool {
    t.cells@.len() >= 2 && t.cells@[0].bold is Some
}

/// Which failure a malformed terminology table surfaces, in the order the
/// extraction reads the table.
pub open spec fn term_err(t: TermTable) -> ExtractError {
    if t.cells@.len() == 0 {
        ExtractError::MissingCell
    } else if !(t.cells@[0].bold is Some) {
        ExtractError::MissingName
    } else {
        ExtractError::MissingDescription
    }
}

/// The record a well-shaped terminology table yields: the bolded text as the
/// name, the italicized text, lowercased, as the optional qualifier, and the
/// second cell's text as the description.
pub open spec fn term_record(t: TermTable) -> DefData {
    DefData {
        name: stringified(views(frags_of(t.cells@[0].bold))),
        details: match t.cells@[0].italic {
            Some(it) => Some(lower_of(stringified(views(it@)))),
            None => None,
        },
        description: stringified(views(t.cells@[1].fragments@)),
    }
}

/// The records of the whole terminology page, one per table.
pub open spec fn term_records(tables: Seq<TermTable>) -> Seq<DefData> {
    Seq::new(tables.len(), |i: int| term_record(tables[i]))
}

/// Extracts one record per terminology table. Fails on the first table that
/// lacks a cell, a bolded name, or a description cell.
pub fn extract_terms(tables: &Vec<TermTable>) -> (r: Result<Vec<Definition>, ExtractError>)
    ensures
        match r {
            Ok(defs) => {
                &&& forall|i: int| 0 <= i < tables@.len() ==> term_ok(tables@[i])
                &&& def_views(defs@) == term_records(tables@)
            },
            Err(e) => exists|i: int|
                0 <= i < tables@.len() && !term_ok(tables@[i]) && e == term_err(tables@[i]) && (
                forall|j: int| 0 <= j < i ==> term_ok(#[trigger] tables@[j])),
        },
{
    let mut defs: Vec<Definition> = Vec::new();
    let mut i: usize = 0;
    while i < tables.len()
        invariant
            i <= tables@.len(),
            defs@.len() == i,
            forall|j: int| 0 <= j < i ==> term_ok(#[trigger] tables@[j]),
            forall|j: int| 0 <= j < i ==> defs@[j]@ == term_record(tables@[j]),
        decreases tables@.len() - i,
    {
        let t = &tables[i];
        if t.cells.len() == 0 {
            return Err(ExtractError::MissingCell);
        }
        let name = match &t.cells[0].bold {
            Some(b) => stringify(b),
            None => {
                return Err(ExtractError::MissingName);
            },
        };
        let details = match &t.cells[0].italic {
            Some(it) => {
                let raw = stringify(it);
                Some(lowercase(raw.as_str()))
            },
            None => None,
        };
        if t.cells.len() < 2 {
            return Err(ExtractError::MissingDescription);
        }
        let description = stringify(&t.cells[1].fragments);
        let d = Definition { name, details, description };
        proof {
            assert(d@ == term_record(tables@[i as int]));
        }
        defs.push(d);
        i += 1;
    }
    proof {
        assert(def_views(defs@) =~= term_records(tables@));
    }
    Ok(defs)
}

/// The label a heading carries into the rows that follow it: its text, with
/// the one literal phrase "One han closed only" shortened to "One han".
pub open spec fn heading_label(frags: Seq<Seq<char>>) -> Seq<char> {
    replaced(stringified(frags), "One han closed only"@, "One han"@)
}

/// The detail text of a data row: the second definition-description child's
/// text, with a parenthesis that opens the whole cell dropped, every interior
/// " (" turned into ", ", and every ")" removed — so "(closed)" becomes
/// "closed" and "1 han (closed)" becomes "1 han, closed".
pub open spec fn row_detail(dd: Seq<Seq<char>>) -> Seq<char> {
    replaced(replaced(prefix_stripped(stringified(dd), "("@), " ("@, ", "@), ")"@, Seq::empty())
}

/// A data row is well shaped when it has a bolded name, a second
/// definition-description child and a second cell; headings are always
/// accepted.
pub open spec fn node_ok(n: PatternNode) -> bool {
    match n {
        PatternNode::Heading { .. } => true,
        PatternNode::Row { bold, details, cells } => bold is Some && details@.len() >= 2
            && cells@.len() >= 2,
    }
}

/// Which failure a malformed data row surfaces, in the order the extraction
/// reads the row.
pub open spec fn node_err(n: PatternNode) -> ExtractError {
    match n {
        PatternNode::Heading { .. } => ExtractError::MissingName,
        PatternNode::Row { bold, details, cells } => if !(bold is Some) {
            ExtractError::MissingName
        } else if details@.len() < 2 {
            ExtractError::MissingDetail
        } else {
            ExtractError::MissingDescription
        },
    }
}

/// The record a well-shaped data row yields under the section label that the
/// last heading left behind: the details join the label and the row's own
/// detail text, lowercased.
pub open spec fn row_record(n: PatternNode, section: Seq<char>) -> DefData {
    match n {
        PatternNode::Heading { .. } => DefData {
            name: Seq::empty(),
            details: None,
            description: Seq::empty(),
        },
        PatternNode::Row { bold, details, cells } => DefData {
            name: stringified(views(frags_of(bold))),
            details: Some(lower_of(section + ", "@ + row_detail(views(details@[1]@)))),
            description: stringified(views(cells@[1]@)),
        },
    }
}

/// The slice of the pattern page that the scan visits: everything after the
/// introductory first element, capped at 47 elements — the page's known,
/// fixed layout.
pub open spec fn clipped(nodes: Seq<PatternNode>) -> Seq<PatternNode> {
    if nodes.len() <= 1 {
        Seq::empty()
    } else if nodes.len() > 48 {
        nodes.subrange(1, 48)
    } else {
        nodes.subrange(1, nodes.len() as int)
    }
}

/// The records of the scan from position `i` on, under the given carried
/// section label: a heading replaces the label, a data row emits a record.
pub open spec fn scan_records(nodes: Seq<PatternNode>, i: int, section: Seq<char>) -> Seq<DefData>
    decreases nodes.len() - i,
{
    if i < 0 || i >= nodes.len() {
        Seq::empty()
    } else {
        match nodes[i] {
            PatternNode::Heading { fragments } => scan_records(
                nodes,
                i + 1,
                heading_label(views(fragments@)),
            ),
            PatternNode::Row { .. } => seq![row_record(nodes[i], section)] + scan_records(
                nodes,
                i + 1,
                section,
            ),
        }
    }
}

/// The records of the whole pattern page: the clipped scan, starting with an
/// empty section label.
pub open spec fn pattern_records(nodes: Seq<PatternNode>) -> Seq<DefData> {
    scan_records(clipped(nodes), 0, Seq::empty())
}

/// Scans the pattern page in document order, skipping the introductory first
/// element and visiting at most 47 elements: headings update the carried
/// section label, data rows emit records. Fails on the first malformed row.
pub fn extract_patterns(nodes: &Vec<PatternNode>) -> (r: Result<Vec<Definition>, ExtractError>)
    ensures
        match r {
            Ok(defs) => {
                &&& forall|i: int| 0 <= i < clipped(nodes@).len() ==> node_ok(clipped(nodes@)[i])
                &&& def_views(defs@) == pattern_records(nodes@)
            },
            Err(e) => exists|i: int|
                0 <= i < clipped(nodes@).len() && !node_ok(clipped(nodes@)[i]) && e == node_err(
                    clipped(nodes@)[i],
                ) && (forall|j: int| 0 <= j < i ==> node_ok(#[trigger] clipped(nodes@)[j])),
        },
{
    let ghost cl = clipped(nodes@);
    let end: usize = if nodes.len() > 48 {
        48
    } else {
        nodes.len()
    };
    let mut defs: Vec<Definition> = Vec::new();
    let mut section: Vec<char> = Vec::new();
    let mut idx: usize = 1;
    proof {
        assert(section@ =~= Seq::<char>::empty());
        assert(def_views(defs@) =~= Seq::<DefData>::empty());
        assert(Seq::<DefData>::empty() + scan_records(cl, 0, Seq::empty()) =~= scan_records(
            cl,
            0,
            Seq::empty(),
        ));
    }
    while idx < end
        invariant
            cl == clipped(nodes@),
            end <= nodes@.len(),
            end <= 48,
            nodes@.len() > 48 ==> end == 48,
            nodes@.len() <= 48 ==> end == nodes@.len(),
            1 <= idx,
            idx <= end || (end <= 1 && idx == 1),
            cl.len() == if end <= 1 { 0 } else { end - 1 },
            forall|j: int| 0 <= j < cl.len() ==> cl[j] == nodes@[j + 1],
            forall|j: int| 0 <= j < idx - 1 ==> node_ok(#[trigger] cl[j]),
            pattern_records(nodes@) == def_views(defs@) + scan_records(cl, idx - 1, section@),
        decreases end - idx,
    {
        let ghost k = idx - 1;
        let node = &nodes[idx];
        proof {
            assert(cl[k as int] == nodes@[idx as int]);
        }
        match node {
            PatternNode::Heading { fragments } => {
                let h = stringify(fragments);
                let hc = str_chars(h.as_str());
                let pat = str_chars("One han closed only");
                let rep = str_chars("One han");
                proof {
                    assert(pat@.len() > 0) by {
                        reveal_strlit("One han closed only");
                    }
                }
                section = replace_chars(&hc, &pat, &rep);
                proof {
                    assert(section@ == heading_label(views(fragments@)));
                }
            },
            PatternNode::Row { bold, details, cells } => {
                let name = match bold {
                    Some(b) => stringify(b),
                    None => {
                        return Err(ExtractError::MissingName);
                    },
                };
                if details.len() < 2 {
                    return Err(ExtractError::MissingDetail);
                }
                let dd = stringify(&details[1]);
                let raw_ddc = str_chars(dd.as_str());
                let paren = str_chars("(");
                let ddc = strip_prefix_chars(&raw_ddc, &paren);
                let pat1 = str_chars(" (");
                let rep1 = str_chars(", ");
                proof {
                    assert(pat1@.len() > 0) by {
                        reveal_strlit(" (");
                    }
                }
                let step1 = replace_chars(&ddc, &pat1, &rep1);
                let pat2 = str_chars(")");
                let rep2: Vec<char> = Vec::new();
                proof {
                    assert(pat2@.len() > 0) by {
                        reveal_strlit(")");
                    }
                    assert(rep2@ =~= Seq::<char>::empty());
                }
                let step2 = replace_chars(&step1, &pat2, &rep2);
                if cells.len() < 2 {
                    return Err(ExtractError::MissingDescription);
                }
                let description = stringify(&cells[1]);
                let mut combined = section.clone();
                let mut sep = str_chars(", ");
                let mut tail = step2;
                combined.append(&mut sep);
                combined.append(&mut tail);
                let combined_str = chars_to_string(combined);
                let det = lowercase(combined_str.as_str());
                let d = Definition { name, details: Some(det), description };
                let ghost old_defs = defs@;
                proof {
                    assert(d@ == row_record(cl[k as int], section@));
                }
                defs.push(d);
                proof {
                    assert(def_views(defs@) =~= def_views(old_defs).push(
                        row_record(cl[k as int], section@),
                    ));
                    assert(def_views(old_defs) + (seq![row_record(cl[k as int], section@)]
                        + scan_records(cl, k + 1, section@)) =~= def_views(defs@) + scan_records(
                        cl,
                        k + 1,
                        section@,
                    ));
                }
            },
        }
        idx += 1;
    }
    proof {
        assert(scan_records(cl, idx - 1, section@) =~= Seq::<DefData>::empty());
        assert(def_views(defs@) + Seq::<DefData>::empty() =~= def_views(defs@));
    }
    Ok(defs)
}

/// The combined record sequence of both pages: every terminology record,
/// then every pattern record.
pub open spec fn combined_records(
    term_tables: Seq<TermTable>,
    pattern_nodes: Seq<PatternNode>,
) -> Seq<DefData> {
    term_records(term_tables) + pattern_records(pattern_nodes)
}

/// Builds the whole glossary from the two page models: extracts both record
/// sequences and merges them, terminology records first, so that a pattern
/// record with the same key overwrites a terminology record. Fails on the
/// first structural failure, the terminology page read first.
pub fn get_definitions(term_tables: &Vec<TermTable>, pattern_nodes: &Vec<PatternNode>) -> (r:
    Result<Glossary, ExtractError>)
    ensures
        match r {
            Ok(g) => {
                &&& forall|i: int| 0 <= i < term_tables@.len() ==> term_ok(term_tables@[i])
                &&& forall|i: int|
                    0 <= i < clipped(pattern_nodes@).len() ==> node_ok(clipped(pattern_nodes@)[i])
                &&& g.wf()
                &&& g.map_view() == glossary_map(combined_records(term_tables@, pattern_nodes@))
                &&& g.keys_view() == keys_in_order(combined_records(term_tables@, pattern_nodes@))
            },
            Err(e) => {
                ||| exists|i: int|
                    0 <= i < term_tables@.len() && !term_ok(term_tables@[i]) && e == term_err(
                        term_tables@[i],
                    ) && (forall|j: int| 0 <= j < i ==> term_ok(#[trigger] term_tables@[j]))
                ||| {
                    &&& forall|i: int| 0 <= i < term_tables@.len() ==> term_ok(term_tables@[i])
                    &&& exists|i: int|
                        0 <= i < clipped(pattern_nodes@).len() && !node_ok(clipped(pattern_nodes@)[i])
                            && e == node_err(clipped(pattern_nodes@)[i]) && (forall|j: int|
                            0 <= j < i ==> node_ok(#[trigger] clipped(pattern_nodes@)[j]))
                }
            },
        },
{
    let mut all = match extract_terms(term_tables) {
        Ok(t) => t,
        Err(e) => {
            return Err(e);
        },
    };
    let mut pats = match extract_patterns(pattern_nodes) {
        Ok(p) => p,
        Err(e) => {
            return Err(e);
        },
    };
    let ghost terms_view = all@;
    let ghost pats_view = pats@;
    all.append(&mut pats);
    proof {
        assert forall|i: int| 0 <= i < all@.len() implies def_views(all@)[i] == combined_records(
            term_tables@,
            pattern_nodes@,
        )[i] by {
            if i < terms_view.len() {
                assert(all@[i] == terms_view[i]);
                assert(def_views(terms_view)[i] == terms_view[i]@);
            } else {
                assert(all@[i] == pats_view[i - terms_view.len()]);
                assert(def_views(pats_view)[i - terms_view.len()] == pats_view[i
                    - terms_view.len()]@);
            }
        }
        assert(def_views(all@) =~= combined_records(term_tables@, pattern_nodes@));
    }
    Ok(build_definition_hashmap(all))
}

} // verus!

