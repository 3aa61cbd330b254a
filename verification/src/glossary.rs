//! The glossary: definition records rendered into display entries and merged
//! into an immutable mapping keyed by the lowercased term name, where a later
//! record with the same key overwrites an earlier one.

use vstd::prelude::*;
use crate::text::{lower_of, lowercase, views};

verus! {

/// One extracted definition record: the display form of the term, an optional
/// parenthetical qualifier, and the explanatory text.
pub struct Definition {
    pub name: String,
    pub details: Option<String>,
    pub description: String,
}

/// The mathematical shape of a definition record.
pub struct DefData {
    pub name: Seq<char>,
    pub details: Option<Seq<char>>,
    pub description: Seq<char>,
}

impl View for Definition {
    type V = DefData;

    open spec fn view(&self) -> DefData {
        DefData {
            name: self.name@,
            details: match self.details {
                Some(d) => Some(d@),
                None => None,
            },
            description: self.description@,
        }
    }
}

/// The views of a sequence of definition records.
pub open spec fn def_views(ds: Seq<Definition>) -> Seq<DefData> {
    Seq::new(ds.len(), |i: int| ds[i]@)
}

/// The glossary key of a record: its name, lowercased.
pub open spec fn key_of(d: DefData) -> Seq<char> {
    lower_of(d.name)
}

/// The rendered display entry of a record: the name in emphasis, the
/// bracketed qualifier when there is one, and the explanatory text on the
/// following line.
pub open spec fn rendered(d: DefData) -> Seq<char> {
    "**"@ + d.name + "**"@ + (match d.details {
        Some(t) => " ("@ + t + ")"@,
        None => Seq::<char>::empty(),
    }) + "\n"@ + d.description
}

/// The mapping that a sequence of records builds, a later record with the
/// same key overwriting an earlier one.
pub open spec fn glossary_map(ds: Seq<DefData>) -> Map<Seq<char>, Seq<char>>
    decreases ds.len(),
{
    if ds.len() == 0 {
        Map::empty()
    } else {
        glossary_map(ds.drop_last()).insert(key_of(ds.last()), rendered(ds.last()))
    }
}

/// The keys of a sequence of records, in order of first appearance.
pub open spec fn keys_in_order(ds: Seq<DefData>) -> Seq<Seq<char>>
    decreases ds.len(),
{
    if ds.len() == 0 {
        Seq::empty()
    } else {
        let pre = keys_in_order(ds.drop_last());
        if pre.contains(key_of(ds.last())) {
            pre
        } else {
            pre.push(key_of(ds.last()))
        }
    }
}

/// The mapping held by parallel key and entry rows.
pub open spec fn row_map(ks: Seq<Seq<char>>, vs: Seq<Seq<char>>) -> Map<Seq<char>, Seq<char>>
    decreases ks.len(),
{
    if ks.len() == 0 || vs.len() == 0 {
        Map::empty()
    } else {
        row_map(ks.drop_last(), vs.drop_last()).insert(ks.last(), vs.last())
    }
}

/// A key is in the row mapping exactly when it stands in the key row, and
/// with pairwise distinct keys each key is sent to its own entry.
pub proof fn lemma_row_map_index(ks: Seq<Seq<char>>, vs: Seq<Seq<char>>)
    requires
        ks.len() == vs.len(),
    ensures
        forall|k: Seq<char>|
            row_map(ks, vs).contains_key(k) <==> exists|j: int| 0 <= j < ks.len() && ks[j] == k,
        (forall|i: int, j: int| 0 <= i < j < ks.len() ==> ks[i] != ks[j]) ==> forall|j: int|
            0 <= j < ks.len() ==> row_map(ks, vs).contains_key(ks[j]) && row_map(ks, vs)[ks[j]]
                == vs[j],
    decreases ks.len(),
{
    if ks.len() == 0 {
    } else {
        let dk = ks.drop_last();
        let dv = vs.drop_last();
        lemma_row_map_index(dk, dv);
        assert forall|k: Seq<char>| row_map(ks, vs).contains_key(k) implies exists|j: int|
            0 <= j < ks.len() && ks[j] == k by {
            if k == ks.last() {
                assert(ks[ks.len() - 1] == k);
            } else {
                assert(row_map(dk, dv).contains_key(k));
                let j = choose|j: int| 0 <= j < dk.len() && dk[j] == k;
                assert(dk[j] == ks[j]);
                assert(ks[j] == k);
            }
        }
        assert forall|k: Seq<char>| (exists|j: int| 0 <= j < ks.len() && ks[j] == k) implies row_map(
            ks,
            vs,
        ).contains_key(k) by {
            let j = choose|j: int| 0 <= j < ks.len() && ks[j] == k;
            if j < ks.len() - 1 {
                assert(dk[j] == k);
                assert(row_map(dk, dv).contains_key(k));
            }
        }
        if forall|i: int, j: int| 0 <= i < j < ks.len() ==> ks[i] != ks[j] {
            assert forall|i: int, j: int| 0 <= i < j < dk.len() implies dk[i] != dk[j] by {
                assert(dk[i] == ks[i]);
                assert(dk[j] == ks[j]);
            }
            assert forall|j: int| 0 <= j < ks.len() implies row_map(ks, vs).contains_key(ks[j])
                && row_map(ks, vs)[ks[j]] == vs[j] by {
                if j < ks.len() - 1 {
                    assert(dk[j] == ks[j]);
                    assert(dv[j] == vs[j]);
                    assert(ks[j] != ks[ks.len() - 1]);
                    assert(row_map(dk, dv)[dk[j]] == dv[j]);
                }
            }
        }
    }
}

/// Overwriting one entry of the rows, at a key that is distinct from every
/// other key, overwrites that key's image in the mapping.
pub proof fn lemma_row_map_update(ks: Seq<Seq<char>>, vs: Seq<Seq<char>>, j: int, e: Seq<char>)
    requires
        ks.len() == vs.len(),
        0 <= j < ks.len(),
        forall|x: int, y: int| 0 <= x < y < ks.len() ==> ks[x] != ks[y],
    ensures
        row_map(ks, vs.update(j, e)) == row_map(ks, vs).insert(ks[j], e),
    decreases ks.len(),
{
    let n = ks.len();
    if j == n - 1 {
        assert(vs.update(j, e).drop_last() =~= vs.drop_last());
        assert(vs.update(j, e).last() == e);
        assert(row_map(ks, vs.update(j, e)) =~= row_map(ks, vs).insert(ks[j], e));
    } else {
        assert(vs.update(j, e).drop_last() =~= vs.drop_last().update(j, e));
        lemma_row_map_update(ks.drop_last(), vs.drop_last(), j, e);
        assert(ks.drop_last()[j] == ks[j]);
        assert(ks[j] != ks.last());
        assert(row_map(ks, vs.update(j, e)) == row_map(ks.drop_last(), vs.drop_last()).insert(
            ks[j],
            e,
        ).insert(ks.last(), vs.last()));
        assert(row_map(ks.drop_last(), vs.drop_last()).insert(ks[j], e).insert(
            ks.last(),
            vs.last(),
        ) =~= row_map(ks.drop_last(), vs.drop_last()).insert(ks.last(), vs.last()).insert(
            ks[j],
            e,
        ));
    }
}

/// The views of a row of pairwise distinct strings are pairwise distinct.
proof fn lemma_views_distinct(ss: Seq<String>)
    requires
        forall|i: int, j: int| 0 <= i < j < ss.len() ==> ss[i]@ != ss[j]@,
    ensures
        forall|i: int, j: int| 0 <= i < j < views(ss).len() ==> views(ss)[i] != views(ss)[j],
{
    assert forall|i: int, j: int| 0 <= i < j < views(ss).len() implies views(ss)[i] != views(
        ss,
    )[j] by {
        assert(ss[i]@ != ss[j]@);
    }
}

/// The glossary: an immutable mapping from lowercased term to rendered entry,
/// held as parallel rows of pairwise distinct keys and their entries.
pub struct Glossary {
    keys: Vec<String>,
    entries: Vec<String>,
}

impl Glossary {
    /// The rows are aligned, no key repeats, and every key is its own
    /// lowercase form.
    pub closed spec fn wf(&self) -> bool {
        &&& self.keys@.len() == self.entries@.len()
        &&& forall|i: int, j: int|
            0 <= i < j < self.keys@.len() ==> self.keys@[i]@ != self.keys@[j]@
        &&& forall|i: int|
            0 <= i < self.keys@.len() ==> lower_of(#[trigger] self.keys@[i]@) == self.keys@[i]@
    }

    /// Every key of a well-formed glossary is a fixed point of lowercasing:
    /// the builder lowercases each name, and lowercasing is idempotent.
    pub proof fn lemma_keys_lowercase(&self)
        requires
            self.wf(),
        ensures
            forall|j: int|
                0 <= j < self.keys_view().len() ==> lower_of(#[trigger] self.keys_view()[j])
                    == self.keys_view()[j],
    {
        assert forall|j: int| 0 <= j < self.keys_view().len() implies lower_of(
            #[trigger] self.keys_view()[j],
        ) == self.keys_view()[j] by {
            assert(lower_of(self.keys@[j]@) == self.keys@[j]@);
        }
    }

    /// The mapping this glossary holds.
    pub closed spec fn map_view(&self) -> Map<Seq<char>, Seq<char>> {
        row_map(views(self.keys@), views(self.entries@))
    }

    /// The key row, in order of first appearance.
    pub closed spec fn keys_view(&self) -> Seq<Seq<char>> {
        views(self.keys@)
    }

    /// The keys, for the matcher to rank.
    pub fn keys(&self) -> (r: &Vec<String>)
        ensures
            views(r@) == self.keys_view(),
    {
        &self.keys
    }

    /// How many terms the glossary holds.
    pub fn len(&self) -> (r: usize)
        ensures
            r == self.keys_view().len(),
    {
        self.keys.len()
    }

    /// The entry at a key position, for a match the matcher picked.
    pub fn entry_at(&self, i: usize) -> (r: &String)
        requires
            self.wf(),
            i < self.keys_view().len(),
        ensures
            r@ == self.map_view()[self.keys_view()[i as int]],
    {
        proof {
            lemma_views_distinct(self.keys@);
            lemma_row_map_index(views(self.keys@), views(self.entries@));
            assert(views(self.entries@)[i as int] == self.entries@[i as int]@);
        }
        &self.entries[i]
    }

    /// The rendered entry stored under a key, or nothing when the key is
    /// unknown.
    pub fn get(&self, key: &String) -> (r: Option<&String>)
        requires
            self.wf(),
        ensures
            match r {
                Some(e) => self.map_view().contains_key(key@) && e@ == self.map_view()[key@],
                None => !self.map_view().contains_key(key@),
            },
    {
        proof {
            lemma_views_distinct(self.keys@);
            lemma_row_map_index(views(self.keys@), views(self.entries@));
        }
        let mut i: usize = 0;
        while i < self.keys.len()
            invariant
                self.wf(),
                i <= self.keys@.len(),
                forall|j: int| 0 <= j < i ==> self.keys@[j]@ != key@,
            decreases self.keys@.len() - i,
        {
            if self.keys[i] == *key {
                proof {
                    lemma_views_distinct(self.keys@);
                    lemma_row_map_index(views(self.keys@), views(self.entries@));
                    assert(views(self.keys@)[i as int] == key@);
                    assert(self.map_view().contains_key(views(self.keys@)[i as int]));
                    assert(self.map_view()[views(self.keys@)[i as int]] == views(self.entries@)[i as int]);
                    assert(views(self.entries@)[i as int] == self.entries@[i as int]@);
                }
                return Some(&self.entries[i]);
            }
            i += 1;
        }
        proof {
            assert forall|j: int| 0 <= j < views(self.keys@).len() implies views(self.keys@)[j]
                != key@ by {
                assert(self.keys@[j]@ != key@);
            }
        }
        None
    }
}

/// Renders one record into its display entry.
fn render(d: &Definition) -> (r: String)
    ensures
        r@ == rendered(d@),
{
    let mut out = String::new();
    out.append("**");
    out.append(d.name.as_str());
    out.append("**");
    match &d.details {
        Some(t) => {
            out.append(" (");
            out.append(t.as_str());
            out.append(")");
        },
        None => {},
    }
    out.append("\n");
    out.append(d.description.as_str());
    proof {
        assert(out@ =~= rendered(d@));
    }
    out
}

/// Builds the glossary from the combined record sequence of both extractors:
/// every record is rendered and inserted under its lowercased name, and a
/// later record with the same key overwrites the entry of an earlier one.
pub fn build_definition_hashmap(v: Vec<Definition>) -> (g: Glossary)
    ensures
        g.wf(),
        g.map_view() == glossary_map(def_views(v@)),
        g.keys_view() == keys_in_order(def_views(v@)),
{
    let mut keys: Vec<String> = Vec::new();
    let mut entries: Vec<String> = Vec::new();
    let mut i: usize = 0;
    proof {
        assert(def_views(v@).take(0) =~= Seq::<DefData>::empty());
        assert(views(keys@) =~= Seq::<Seq<char>>::empty());
        assert(views(entries@) =~= Seq::<Seq<char>>::empty());
    }
    while i < v.len()
        invariant
            i <= v@.len(),
            keys@.len() == entries@.len(),
            forall|x: int, y: int| 0 <= x < y < keys@.len() ==> keys@[x]@ != keys@[y]@,
            forall|x: int| 0 <= x < keys@.len() ==> lower_of(#[trigger] keys@[x]@) == keys@[x]@,
            row_map(views(keys@), views(entries@)) == glossary_map(def_views(v@).take(i as int)),
            views(keys@) == keys_in_order(def_views(v@).take(i as int)),
        decreases v@.len() - i,
    {
        let d = &v[i];
        let key = lowercase(d.name.as_str());
        let entry = render(d);
        proof {
            assert(def_views(v@).take(i + 1 as int).drop_last() =~= def_views(v@).take(i as int));
            assert(def_views(v@).take(i + 1 as int).last() == v@[i as int]@);
            assert(key@ == key_of(v@[i as int]@));
        }
        let mut j: usize = 0;
        let mut found: Option<usize> = None;
        while j < keys.len()
            invariant
                j <= keys@.len(),
                match found {
                    Some(f) => f < j && keys@[f as int]@ == key@,
                    None => forall|x: int| 0 <= x < j ==> keys@[x]@ != key@,
                },
            decreases keys@.len() - j,
        {
            if found.is_none() && keys[j] == key {
                found = Some(j);
            }
            j += 1;
        }
        match found {
            Some(f) => {
                proof {
                    assert(views(keys@)[f as int] == key@);
                    assert(keys_in_order(def_views(v@).take(i as int)).contains(key@));
                    lemma_row_map_update(views(keys@), views(entries@), f as int, entry@);
                }
                let ghost old_entries = entries@;
                entries[f] = entry;
                proof {
                    assert(views(entries@) =~= views(old_entries).update(f as int, entry@));
                }
            },
            None => {
                proof {
                    assert forall|x: int| 0 <= x < views(keys@).len() implies views(keys@)[x]
                        != key@ by {
                        assert(keys@[x]@ != key@);
                    }
                    assert(!keys_in_order(def_views(v@).take(i as int)).contains(key@));
                }
                let ghost old_keys = keys@;
                let ghost old_entries = entries@;
                keys.push(key);
                entries.push(entry);
                proof {
                    assert(views(keys@) =~= views(old_keys).push(key_of(v@[i as int]@)));
                    assert(views(entries@) =~= views(old_entries).push(rendered(v@[i as int]@)));
                    assert(views(keys@).drop_last() =~= views(old_keys));
                    assert(views(entries@).drop_last() =~= views(old_entries));
                }
            },
        }
        i += 1;
    }
    proof {
        assert(def_views(v@).take(v@.len() as int) =~= def_views(v@));
    }
    Glossary { keys, entries }
}

} // verus!
