//! The feature registry report: each feature of the registry with a badge for its status
//! (live, building or planned), and the counts of each.

use vstd::prelude::*;
use crate::text::{dec_digits, push_decimal, push_str, str_eq, string_from};

verus! {

/// A field of a registry entry: absent, present but not text, or text.
#[derive(Debug, Clone, PartialEq, Eq)]
pub enum FieldText {
    Missing,
    Other,
    Text(String),
}

pub enum FieldTextV {
    Missing,
    Other,
    Text(Seq<char>),
}

impl View for FieldText {
    type V = FieldTextV;

    open spec fn view(&self) -> FieldTextV {
        match self {
            FieldText::Missing => FieldTextV::Missing,
            FieldText::Other => FieldTextV::Other,
            FieldText::Text(t) => FieldTextV::Text(t@),
        }
    }
}

/// The fields of one `[[feature]]` entry that the report reads.
#[derive(Debug, Clone)]
pub struct FeatureEntry {
    pub status: FieldText,
    pub pillar: FieldText,
    pub name: FieldText,
    pub desc: FieldText,
}

pub struct FeatureEntryV {
    pub status: FieldTextV,
    pub pillar: FieldTextV,
    pub name: FieldTextV,
    pub desc: FieldTextV,
}

impl View for FeatureEntry {
    type V = FeatureEntryV;

    open spec fn view(&self) -> FeatureEntryV {
        FeatureEntryV {
            status: self.status@,
            pillar: self.pillar@,
            name: self.name@,
            desc: self.desc@,
        }
    }
}

pub open spec fn entries_v(s: Seq<FeatureEntry>) -> Seq<FeatureEntryV> {
    s.map_values(|e: FeatureEntry| e@)
}

/// Why the registry text gives no list of features.
#[derive(Debug, Clone, Copy, PartialEq, Eq, Structural)]
pub enum RegistryError {
    /// The text is not TOML.
    Invalid,
    /// The document has no `feature` key.
    NoFeatures,
    /// The `feature` key does not hold an array.
    NotAList,
}

/// What the `toml` crate reads from the registry text: the entries of its `feature` array,
/// or why there are none.
pub uninterp spec fn registry_of(text: Seq<char>) -> Result<Seq<FeatureEntryV>, RegistryError>;

pub open spec fn registry_result_v(r: Result<Vec<FeatureEntry>, RegistryError>) -> Result<
    Seq<FeatureEntryV>,
    RegistryError,
> {
    match r {
        Ok(v) => Ok(entries_v(v@)),
        Err(e) => Err(e),
    }
}

/// Parses the text with `toml` (`str::parse::<toml::Value>`) and reads the `feature` array:
/// of each element, the `status`, `pillar`, `name` and `desc` entries (`Value::get`), each
/// as text, as present but not a string, or as missing (also where the element is not a
/// table). Claimed: the outcome is a function of the text alone.
#[verifier::external_body]
fn read_registry(text: &str) -> (r: Result<Vec<FeatureEntry>, RegistryError>)
    ensures
        registry_result_v(r) == registry_of(text@),
{
    let doc = text.parse::<toml::Value>().map_err(|_| RegistryError::Invalid)?;
    let list = doc.get("feature").ok_or(RegistryError::NoFeatures)?;
    let items = list.as_array().ok_or(RegistryError::NotAList)?;
    let field = |f: &toml::Value, k: &str| match f.get(k) {
        None => FieldText::Missing,
        Some(toml::Value::String(s)) => FieldText::Text(s.clone()),
        Some(_) => FieldText::Other,
    };
    Ok(items.iter().map(|f| FeatureEntry {
        status: field(f, "status"), pillar: field(f, "pillar"),
        name: field(f, "name"), desc: field(f, "desc"),
    }).collect())
}

/// A field's text, or `d` where it is present but not text.
pub open spec fn field_or(f: FieldTextV, d: Seq<char>) -> Seq<char> {
    match f {
        FieldTextV::Text(t) => t,
        _ => d,
    }
}

/// The status an entry counts under: its text, `planned` where it is not text.
pub open spec fn status_of(e: FeatureEntryV) -> Seq<char> {
    field_or(e.status, "planned"@)
}

pub open spec fn badge_s(s: Seq<char>) -> Seq<char> {
    if s == "live"@ {
        "✅ LIVE    "@
    } else if s == "building"@ {
        "🚧 BUILDING"@
    } else {
        "📋 PLANNED "@
    }
}

/// Whether the filter lets a status through.
pub open spec fn shown(filter: Option<Seq<char>>, s: Seq<char>) -> bool {
    match filter {
        None => true,
        Some(w) => w == s,
    }
}

/// The report line of an entry.
pub open spec fn entry_line(e: FeatureEntryV) -> Seq<char> {
    badge_s(status_of(e)) + " ["@ + field_or(e.pillar, "?"@) + "] "@ + field_or(e.name, "?"@)
        + " — "@ + field_or(e.desc, ""@)
}

/// The entry has every field the report reads of it: a status, and where it is shown, a
/// pillar, a name and a description.
pub open spec fn readable(e: FeatureEntryV, filter: Option<Seq<char>>) -> bool {
    &&& !(e.status is Missing)
    &&& shown(filter, status_of(e)) ==> !(e.pillar is Missing) && !(e.name is Missing) && !(
    e.desc is Missing)
}

/// The index of the first entry from `k` on that is not readable, or the count of entries.
pub open spec fn first_unreadable(es: Seq<FeatureEntryV>, filter: Option<Seq<char>>, k: int) -> int
    decreases es.len() - k,
{
    if k < 0 || k >= es.len() {
        es.len() as int
    } else if !readable(es[k], filter) {
        k
    } else {
        first_unreadable(es, filter, k + 1)
    }
}

/// The lines of the shown entries.
pub open spec fn shown_lines(es: Seq<FeatureEntryV>, filter: Option<Seq<char>>) -> Seq<Seq<char>>
    decreases es.len(),
{
    if es.len() == 0 {
        Seq::empty()
    } else {
        let p = shown_lines(es.drop_last(), filter);
        if shown(filter, status_of(es.last())) {
            p.push(entry_line(es.last()))
        } else {
            p
        }
    }
}

/// The number of entries that count under status `s`.
pub open spec fn count_under(es: Seq<FeatureEntryV>, s: Seq<char>) -> nat
    decreases es.len(),
{
    if es.len() == 0 {
        0
    } else {
        count_under(es.drop_last(), s) + if status_of(es.last()) == s {
            1nat
        } else {
            0nat
        }
    }
}

/// The number of entries that count as planned: neither live nor building.
pub open spec fn count_planned(es: Seq<FeatureEntryV>) -> nat
    decreases es.len(),
{
    if es.len() == 0 {
        0
    } else {
        count_planned(es.drop_last()) + if status_of(es.last()) != "live"@ && status_of(es.last())
            != "building"@ {
            1nat
        } else {
            0nat
        }
    }
}

pub open spec fn summary_s(es: Seq<FeatureEntryV>) -> Seq<char> {
    dec_digits(count_under(es, "live"@)) + " live · "@ + dec_digits(count_under(es, "building"@))
        + " building · "@ + dec_digits(count_planned(es)) + " planned  (source of truth: features.toml)"@
}

/// The report: its lines and, where every entry could be read, the summary.
pub struct FeatureReport {
    pub lines: Vec<String>,
    pub summary: Option<String>,
}

pub struct FeatureReportV {
    pub lines: Seq<Seq<char>>,
    pub summary: Option<Seq<char>>,
}

impl View for FeatureReport {
    type V = FeatureReportV;

    open spec fn view(&self) -> FeatureReportV {
        FeatureReportV {
            lines: self.lines@.map_values(|s: String| s@),
            summary: match self.summary {
                Some(s) => Some(s@),
                None => None,
            },
        }
    }
}

/// The report on the entries: the lines of the shown entries before the first entry that
/// lacks a field the report reads; the summary only where there is no such entry.
pub open spec fn report_s(es: Seq<FeatureEntryV>, filter: Option<Seq<char>>) -> FeatureReportV {
    let stop = first_unreadable(es, filter, 0);
    FeatureReportV {
        lines: shown_lines(es.take(stop), filter),
        summary: if stop == es.len() {
            Some(summary_s(es))
        } else {
            None
        },
    }
}

pub open spec fn opt_str_v(f: Option<&str>) -> Option<Seq<char>> {
    match f {
        Some(s) => Some(s@),
        None => None,
    }
}

fn field_text_or(f: &FieldText, d: &str) -> (r: String)
    ensures
        r@ == field_or(f@, d@),
{
    match f {
        FieldText::Text(t) => t.clone(),
        _ => string_from(d),
    }
}

fn badge(s: &str) -> (r: &'static str)
    ensures
        r@ == badge_s(s@),
{
    if str_eq(s, "live") {
        "✅ LIVE    "
    } else if str_eq(s, "building") {
        "🚧 BUILDING"
    } else {
        "📋 PLANNED "
    }
}

fn is_missing(f: &FieldText) -> (b: bool)
    ensures
        b == (f@ is Missing),
{
    match f {
        FieldText::Missing => true,
        _ => false,
    }
}

/// The report on registry entries, shown through the optional status filter.
pub fn report_entries(entries: &Vec<FeatureEntry>, filter: Option<&str>) -> (r: FeatureReport)
    ensures
        r@ == report_s(entries_v(entries@), opt_str_v(filter)),
{
    let ghost es = entries_v(entries@);
    let ghost fv = opt_str_v(filter);
    let mut lines: Vec<String> = Vec::new();
    let mut live: usize = 0;
    let mut building: usize = 0;
    let mut planned: usize = 0;
    let mut i: usize = 0;
    assert(es.take(0) =~= Seq::<FeatureEntryV>::empty());
    assert(lines@.map_values(|s: String| s@) =~= Seq::<Seq<char>>::empty());
    while i < entries.len()
        invariant
            i <= entries@.len() == es.len(),
            es == entries_v(entries@),
            fv == opt_str_v(filter),
            first_unreadable(es, fv, 0) == first_unreadable(es, fv, i as int),
            lines@.map_values(|s: String| s@) == shown_lines(es.take(i as int), fv),
            live == count_under(es.take(i as int), "live"@),
            building == count_under(es.take(i as int), "building"@),
            planned == count_planned(es.take(i as int)),
            live + building + planned <= i,
        decreases entries.len() - i,
    {
        proof {
            reveal_strlit("live");
            reveal_strlit("building");
        }
        let e = &entries[i];
        assert(es[i as int] == e@);
        assert(es.take(i + 1).drop_last() =~= es.take(i as int));
        assert(es.take(i + 1).last() == e@);
        if is_missing(&e.status) {
            assert(first_unreadable(es, fv, i as int) == i);
            assert(es.take(i as int) =~= es.take(first_unreadable(es, fv, 0)));
            return FeatureReport { lines, summary: None };
        }
        let st = field_text_or(&e.status, "planned");
        let show = match filter {
            None => true,
            Some(w) => str_eq(w, st.as_str()),
        };
        if show {
            if is_missing(&e.pillar) || is_missing(&e.name) || is_missing(&e.desc) {
                assert(first_unreadable(es, fv, i as int) == i);
                assert(es.take(i as int) =~= es.take(first_unreadable(es, fv, 0)));
                return FeatureReport { lines, summary: None };
            }
        }
        assert(readable(e@, fv));
        assert(st@ == status_of(e@));
        if str_eq(st.as_str(), "live") {
            assert(st@ != "building"@);
            live = live + 1;
        } else if str_eq(st.as_str(), "building") {
            building = building + 1;
        } else {
            planned = planned + 1;
        }
        if show {
            let mut l = string_from(badge(st.as_str()));
            push_str(&mut l, " [");
            push_str(&mut l, field_text_or(&e.pillar, "?").as_str());
            push_str(&mut l, "] ");
            push_str(&mut l, field_text_or(&e.name, "?").as_str());
            push_str(&mut l, " — ");
            push_str(&mut l, field_text_or(&e.desc, "").as_str());
            let ghost before = lines@;
            lines.push(l);
            assert(lines@.map_values(|s: String| s@) =~= before.map_values(|s: String| s@).push(
                entry_line(e@),
            ));
        }
        i = i + 1;
    }
    assert(es.take(i as int) =~= es);
    let mut s = String::new();
    push_decimal(&mut s, live as u64);
    push_str(&mut s, " live · ");
    push_decimal(&mut s, building as u64);
    push_str(&mut s, " building · ");
    push_decimal(&mut s, planned as u64);
    push_str(&mut s, " planned  (source of truth: features.toml)");
    FeatureReport { lines, summary: Some(s) }
}

/// The feature report for the registry text: the registry's error where `toml` finds no
/// list of features, else the report on its entries.
pub fn feature_report(text: &str, filter: Option<&str>) -> (r: Result<FeatureReport, RegistryError>)
    ensures
        match r {
            Ok(rep) => registry_of(text@) is Ok && rep@ == report_s(
                registry_of(text@)->Ok_0,
                opt_str_v(filter),
            ),
            Err(e) => registry_of(text@) == Err::<Seq<FeatureEntryV>, RegistryError>(e),
        },
{
    match read_registry(text) {
        Ok(entries) => Ok(report_entries(&entries, filter)),
        Err(e) => Err(e),
    }
}

/// Every entry counts under exactly one of live, building and planned.
pub proof fn law_counts_cover_entries(es: Seq<FeatureEntryV>)
    ensures
        count_under(es, "live"@) + count_under(es, "building"@) + count_planned(es) == es.len(),
    decreases es.len(),
{
    reveal_strlit("live");
    reveal_strlit("building");
    if es.len() > 0 {
        law_counts_cover_entries(es.drop_last());
        assert("live"@.len() == 4);
        assert("building"@.len() == 8);
        assert("live"@ != "building"@);
    }
}

} // verus!
