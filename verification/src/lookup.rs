//! The lookup service: the one operation the chat transport calls. It strips
//! the command prefix and surrounding whitespace from the raw message, asks
//! for a term when nothing is left, and otherwise answers with the rendered
//! entry of the best-matching glossary key, or with a fixed message when no
//! key comes close enough.

use vstd::prelude::*;
use crate::glossary::Glossary;
use crate::matcher::{
    best_match,
    is_best,
    lemma_best_unique,
    lemma_exact_match_wins,
    lemma_score_self,
    sim_score,
    SCORE_FLOOR,
};
use crate::text::{prefix_stripped, str_chars, strip_prefix_chars, trim_chars, trimmed};
use vstd::string::StringExecFns;

verus! {

/// The query text of a raw message: one leading command prefix removed, and
/// surrounding whitespace trimmed away.
pub open spec fn stripped_query(raw: Seq<char>) -> Seq<char> {
    trimmed(prefix_stripped(raw, "!explain"@))
}

/// Answers one raw message against the glossary. An empty query is met with a
/// prompt, never with a lookup; a query that no key matches at or above the
/// similarity floor is met with a fixed notice; otherwise the answer is the
/// entry stored under the best-ranked key — in particular, a query that is
/// itself a glossary key is answered with that key's own entry.
pub fn explain(raw: &str, g: &Glossary) -> (r: String)
    requires
        g.wf(),
    ensures
        stripped_query(raw@).len() == 0 ==> r@
            == "Please provide a Riichi Mahjong term for me to explain."@,
        (stripped_query(raw@).len() > 0 && (forall|j: int|
            0 <= j < g.keys_view().len() ==> sim_score(stripped_query(raw@), g.keys_view()[j])
                < SCORE_FLOOR)) ==> r@ == "No such term was found."@,
        forall|i: int|
            stripped_query(raw@).len() > 0 && is_best(stripped_query(raw@), g.keys_view(), i)
                ==> r@ == g.map_view()[g.keys_view()[i]],
        forall|e: int|
            stripped_query(raw@).len() > 0 && 0 <= e < g.keys_view().len() && g.keys_view()[e]
                == stripped_query(raw@) ==> r@ == g.map_view()[stripped_query(raw@)],
{
    let raw_chars = str_chars(raw);
    let pat = str_chars("!explain");
    let stripped = strip_prefix_chars(&raw_chars, &pat);
    let arg = trim_chars(stripped);
    proof {
        assert(arg@ == stripped_query(raw@));
    }
    if arg.len() == 0 {
        return String::from_str("Please provide a Riichi Mahjong term for me to explain.");
    }
    let ghost q = stripped_query(raw@);
    match best_match(&arg, g.keys()) {
        Some(i) => {
            proof {
                assert(is_best(q, g.keys_view(), i as int));
                assert forall|x: int| q.len() > 0 && is_best(q, g.keys_view(), x) implies x
                    == i as int by {
                    lemma_best_unique(q, g.keys_view(), x, i as int);
                }
                assert forall|e: int|
                    0 <= e < g.keys_view().len() && g.keys_view()[e] == q implies g.keys_view()[
                    i as int] == q by {
                    lemma_exact_match_wins(q, g.keys_view(), e, i as int);
                }
            }
            let entry = g.entry_at(i);
            entry.clone()
        },
        None => {
            proof {
                assert forall|e: int|
                    0 <= e < g.keys_view().len() && g.keys_view()[e] == q implies false by {
                    lemma_score_self(q);
                }
            }
            String::from_str("No such term was found.")
        },
    }
}

} // verus!
