use codeio::features::{feature_report, report_entries, FeatureEntry, FieldText, RegistryError};

const REGISTRY: &str = r#"
[[feature]]
name = "Lexer"
pillar = "language"
status = "live"
desc = "tokens"

[[feature]]
name = "Router"
pillar = "engine"
status = "building"
desc = "selectors"

[[feature]]
name = "VM"
pillar = "runtime"
status = "someday"
desc = "bytecode"
"#;

#[test]
fn reports_every_feature_with_badges_and_counts() {
    let r = feature_report(REGISTRY, None).unwrap();
    assert_eq!(
        r.lines,
        vec![
            "✅ LIVE     [language] Lexer — tokens".to_string(),
            "🚧 BUILDING [engine] Router — selectors".to_string(),
            "📋 PLANNED  [runtime] VM — bytecode".to_string(),
        ]
    );
    assert_eq!(
        r.summary.as_deref(),
        Some("1 live · 1 building · 1 planned  (source of truth: features.toml)")
    );
}

#[test]
fn filter_shows_only_that_status_but_counts_all() {
    let r = feature_report(REGISTRY, Some("building")).unwrap();
    assert_eq!(r.lines, vec!["🚧 BUILDING [engine] Router — selectors".to_string()]);
    assert_eq!(
        r.summary.as_deref(),
        Some("1 live · 1 building · 1 planned  (source of truth: features.toml)")
    );
}

#[test]
fn registry_errors() {
    assert_eq!(feature_report("not = [toml", None).err(), Some(RegistryError::Invalid));
    assert_eq!(feature_report("x = 1", None).err(), Some(RegistryError::NoFeatures));
    assert_eq!(feature_report("feature = 3", None).err(), Some(RegistryError::NotAList));
}

#[test]
fn non_text_fields_fall_back() {
    let text = "[[feature]]\nname = 7\npillar = true\nstatus = 1\ndesc = \"d\"\n";
    let r = feature_report(text, None).unwrap();
    assert_eq!(r.lines, vec!["📋 PLANNED  [?] ? — d".to_string()]);
    assert_eq!(
        r.summary.as_deref(),
        Some("0 live · 0 building · 1 planned  (source of truth: features.toml)")
    );
}

#[test]
fn stops_at_an_entry_missing_a_field() {
    let e = |st: FieldText, desc: FieldText| FeatureEntry {
        status: st,
        pillar: FieldText::Text("p".into()),
        name: FieldText::Text("n".into()),
        desc,
    };
    let entries = vec![
        e(FieldText::Text("live".into()), FieldText::Text("ok".into())),
        e(FieldText::Text("live".into()), FieldText::Missing),
        e(FieldText::Text("live".into()), FieldText::Text("never".into())),
    ];
    let r = report_entries(&entries, None);
    assert_eq!(r.lines, vec!["✅ LIVE     [p] n — ok".to_string()]);
    assert_eq!(r.summary, None);
    // the same entry is fine when the filter hides it
    let r = report_entries(&entries, Some("building"));
    assert!(r.lines.is_empty());
    assert!(r.summary.is_some());
    // a missing status always stops the report
    let r = report_entries(&vec![e(FieldText::Missing, FieldText::Text("x".into()))], None);
    assert_eq!(r.summary, None);
    assert!(r.lines.is_empty());
}
