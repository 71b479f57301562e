use vstd::prelude::*;
use std::collections::BTreeMap;
use crate::models::{Print, PrintView, Unit, UnitView, distinct_names, distinct_unit_names, prints_view, units_view};
use crate::sorting::{
    distinct_keys, lemma_print_le_total, lemma_sort_keeps_distinct, lemma_sort_members,
    lemma_sort_of_sorted, lemma_sort_sorted, lemma_unit_le_total, print_le, sort_by, sort_prints,
    sort_units, sorted_by, unit_le,
};

verus! {

/// Why a document could not be read or written.
#[derive(Clone, Copy, Debug, PartialEq, Eq, Structural)]
pub enum DocumentError {
    /// The file could not be read.
    Read,
    /// The text is not a JSON object of objects of non-negative 32-bit integers.
    Parse,
    /// The file could not be written.
    Write,
}

/// The message shown for an error.
pub open spec fn error_text(e: DocumentError) -> Seq<char> {
    match e {
        DocumentError::Read | DocumentError::Parse => "Error reading file"@,
        DocumentError::Write => "Error writing file"@,
    }
}

impl DocumentError {
    /// The message shown for this error.
    pub fn message(&self) -> (r: String)
        ensures
            r@ == error_text(*self),
    {
        match self {
            DocumentError::Read | DocumentError::Parse => String::from_str("Error reading file"),
            DocumentError::Write => String::from_str("Error writing file"),
        }
    }
}

#[verifier::external_type_specification]
#[verifier::external_body]
pub struct ExJsonError(serde_json::Error);

/// A document as it is exchanged: print names with their units and quantities.
pub type Entries = Vec<(String, Vec<(String, u32)>)>;

/// The value of exchanged units.
pub open spec fn pairs_view(pairs: Seq<(String, u32)>) -> Seq<UnitView> {
    pairs.map_values(|u: (String, u32)| (u.0@, u.1))
}

/// The value of an exchanged document.
pub open spec fn entries_view(d: Seq<(String, Vec<(String, u32)>)>) -> Seq<PrintView> {
    d.map_values(|e: (String, Vec<(String, u32)>)| (e.0@, pairs_view(e.1@)))
}

/// The document that a JSON text holds, if it holds an object whose values are
/// objects of non-negative 32-bit integers.
pub uninterp spec fn json_document(text: Seq<char>) -> Option<Seq<PrintView>>;

/// The JSON text written for a document.
pub uninterp spec fn json_text(doc: Seq<PrintView>) -> Seq<char>;

/// Relies on `serde_json::from_str` into `BTreeMap<String, BTreeMap<String, u32>>`:
/// it succeeds exactly on such JSON text, its result depends on the text alone,
/// and a map holds each key once.
#[verifier::external_body]
fn decode_entries(text: &str) -> (r: Result<Entries, serde_json::Error>)
    ensures
        r is Ok <==> json_document(text@) is Some,
        r is Ok ==> entries_view(r->Ok_0@) == json_document(text@).unwrap(),
        r is Ok ==> distinct_names(entries_view(r->Ok_0@)),
{
    serde_json::from_str::<BTreeMap<String, BTreeMap<String, u32>>>(text).map(
        |d| d.into_iter().map(|(name, units)| (name, units.into_iter().collect())).collect(),
    )
}

/// Relies on `serde_json::to_string` of `BTreeMap<&String, BTreeMap<&String, u32>>`:
/// the text depends on the document alone, and it cannot fail, since it fails
/// only for a failing `Serialize` impl or a map key that is not a string.
#[verifier::external_body]
fn encode_entries(doc: &Entries) -> (r: Result<String, serde_json::Error>)
    ensures
        r is Ok,
        r->Ok_0@ == json_text(entries_view(doc@)),
{
    let map: BTreeMap<&String, BTreeMap<&String, u32>> = doc.iter().map(
        |(name, units)| (name, units.iter().map(|(u, q)| (u, *q)).collect()),
    ).collect();
    serde_json::to_string(&map)
}

/// The prints that reading a decoded document gives: each print's units sorted
/// by name, and the prints sorted in print order.
pub open spec fn document_prints(d: Seq<PrintView>) -> Seq<PrintView> {
    sort_by(d.map_values(|p: PrintView| (p.0, sort_by(p.1, unit_le()))), print_le())
}

/// Prints as the editor keeps them: names distinct, prints in print order and
/// the units of each print in order of name.
pub open spec fn normalized(s: Seq<PrintView>) -> bool {
    &&& distinct_names(s)
    &&& sorted_by(s, print_le())
    &&& forall|i: int| 0 <= i < s.len() ==> sorted_by(#[trigger] s[i].1, unit_le())
}

proof fn lemma_document_prints_normalized(d: Seq<PrintView>)
    requires
        distinct_names(d),
    ensures
        normalized(document_prints(d)),
{
    lemma_unit_le_total();
    lemma_print_le_total();
    let m = d.map_values(|p: PrintView| (p.0, sort_by(p.1, unit_le())));
    let ukey = |u: UnitView| u.0;
    let pkey = |p: PrintView| p.0;
    assert forall|i: int| 0 <= i < m.len() implies distinct_unit_names(#[trigger] m[i].1) && sorted_by(
        m[i].1,
        unit_le(),
    ) by {
        assert(distinct_unit_names(d[i].1));
        assert(distinct_keys(d[i].1, ukey));
        lemma_sort_keeps_distinct(d[i].1, unit_le(), ukey);
        lemma_sort_sorted(d[i].1, unit_le());
    }
    assert(distinct_keys(m, pkey));
    lemma_sort_keeps_distinct(m, print_le(), pkey);
    lemma_sort_members(m, print_le());
    lemma_sort_sorted(m, print_le());
    let t = document_prints(d);
    assert forall|i: int| 0 <= i < t.len() implies distinct_unit_names(#[trigger] t[i].1) && sorted_by(
        t[i].1,
        unit_le(),
    ) by {
        assert(m.contains(t[i]));
    }
}

/// Prints as the editor keeps them come back unchanged when the entries
/// written for them (`entries_of`) are read back (`prints_from_entries`).
pub proof fn lemma_read_of_written(s: Seq<PrintView>)
    requires
        normalized(s),
    ensures
        document_prints(s) == s,
{
    let m = s.map_values(|p: PrintView| (p.0, sort_by(p.1, unit_le())));
    assert forall|i: int| 0 <= i < s.len() implies #[trigger] m[i] == s[i] by {
        lemma_sort_of_sorted(s[i].1, unit_le());
    }
    assert(m =~= s);
    lemma_sort_of_sorted(s, print_le());
}

/// Units from exchanged name and quantity pairs, in the same order.
fn units_from_pairs(pairs: &Vec<(String, u32)>) -> (r: Vec<Unit>)
    ensures
        units_view(r@) == pairs_view(pairs@),
{
    let mut units: Vec<Unit> = Vec::new();
    let mut i: usize = 0;
    while i < pairs.len()
        invariant
            0 <= i <= pairs.len(),
            units_view(units@) == pairs_view(pairs@).subrange(0, i as int),
        decreases pairs.len() - i,
    {
        units.push(Unit { name: pairs[i].0.clone(), quantity: pairs[i].1 });
        assert(pairs_view(pairs@).subrange(0, i + 1) =~= pairs_view(pairs@).subrange(0, i as int).push(
            pairs_view(pairs@)[i as int],
        ));
        assert(units_view(units@) =~= pairs_view(pairs@).subrange(0, i + 1));
        i = i + 1;
    }
    assert(pairs_view(pairs@).subrange(0, i as int) =~= pairs_view(pairs@));
    units
}

/// Reads a document from JSON text: an object that maps each print name to an
/// object that maps unit names to non-negative 32-bit quantities. The units of
/// each print come sorted by name, the prints sorted in print order.
pub fn parse_json(json: String) -> (r: Result<Vec<Print>, DocumentError>)
    ensures
        json_document(json@) is None ==> r == Err::<Vec<Print>, DocumentError>(DocumentError::Parse),
        json_document(json@) is Some ==> r is Ok && prints_view(r->Ok_0@) == document_prints(
            json_document(json@).unwrap(),
        ),
        r is Ok ==> normalized(prints_view(r->Ok_0@)),
{
    match decode_entries(json.as_str()) {
        Ok(entries) => Ok(prints_from_entries(entries)),
        Err(_) => Err(DocumentError::Parse),
    }
}

/// Prints from decoded entries: each print's units sorted by name, the prints
/// sorted in print order.
pub fn prints_from_entries(entries: Entries) -> (r: Vec<Print>)
    ensures
        prints_view(r@) == document_prints(entries_view(entries@)),
        distinct_names(entries_view(entries@)) ==> normalized(prints_view(r@)),
{
    let ghost dv = entries_view(entries@);
    let ghost m = dv.map_values(|p: PrintView| (p.0, sort_by(p.1, unit_le())));
    let mut prints: Vec<Print> = Vec::new();
    let mut i: usize = 0;
    while i < entries.len()
        invariant
            0 <= i <= entries.len(),
            dv == entries_view(entries@),
            m == dv.map_values(|p: PrintView| (p.0, sort_by(p.1, unit_le()))),
            prints_view(prints@) == m.subrange(0, i as int),
        decreases entries.len() - i,
    {
        let units = sort_units(units_from_pairs(&entries[i].1));
        prints.push(Print { name: entries[i].0.clone(), units });
        assert(m.subrange(0, i + 1) =~= m.subrange(0, i as int).push(m[i as int]));
        assert(prints_view(prints@) =~= m.subrange(0, i + 1));
        i = i + 1;
    }
    assert(m.subrange(0, i as int) =~= m);
    let sorted = sort_prints(prints);
    proof {
        if distinct_names(dv) {
            lemma_document_prints_normalized(dv);
        }
    }
    sorted
}

/// Entries for prints, in the same order.
pub fn entries_of(prints: &Vec<Print>) -> (r: Entries)
    ensures
        entries_view(r@) == prints_view(prints@),
{
    let mut doc: Entries = Vec::new();
    let mut i: usize = 0;
    while i < prints.len()
        invariant
            0 <= i <= prints.len(),
            entries_view(doc@) == prints_view(prints@).subrange(0, i as int),
        decreases prints.len() - i,
    {
        let units = &prints[i].units;
        let mut pairs: Vec<(String, u32)> = Vec::new();
        let mut j: usize = 0;
        while j < units.len()
            invariant
                0 <= j <= units.len(),
                pairs_view(pairs@) == units_view(units@).subrange(0, j as int),
            decreases units.len() - j,
        {
            let ghost before = pairs@;
            pairs.push((units[j].name.clone(), units[j].quantity));
            assert(pairs_view(pairs@) =~= pairs_view(before).push(units[j as int]@));
            assert(units_view(units@).subrange(0, j + 1) =~= units_view(units@).subrange(
                0,
                j as int,
            ).push(units[j as int]@));
            j = j + 1;
        }
        assert(units_view(units@).subrange(0, j as int) =~= units_view(units@));
        let ghost before = doc@;
        doc.push((prints[i].name.clone(), pairs));
        assert(entries_view(doc@) =~= entries_view(before).push(prints[i as int]@));
        assert(prints_view(prints@).subrange(0, i + 1) =~= prints_view(prints@).subrange(
            0,
            i as int,
        ).push(prints[i as int]@));
        i = i + 1;
    }
    assert(prints_view(prints@).subrange(0, i as int) =~= prints_view(prints@));
    doc
}

/// Writes prints as JSON text: an object that maps each print name to an
/// object that maps its unit names to their quantities.
pub fn to_json(prints: &Vec<Print>) -> (r: String)
    ensures
        r@ == json_text(prints_view(prints@)),
{
    let doc = entries_of(prints);
    match encode_entries(&doc) {
        Ok(text) => text,
        Err(_) => {
            proof {
                assert(false);
            }
            String::new()
        },
    }
}

} // verus!
