use codeio::values::{MemoryBackend, ValueBackend, ValueKind, ValueLibrary, VaultBackend};

#[test]
fn interns_and_dedups() {
    let mut lib = ValueLibrary::default();
    let a = lib.intern(ValueKind::Str, "hello");
    let b = lib.intern(ValueKind::Str, "hello");
    let c = lib.intern(ValueKind::Str, "world");
    assert_eq!(a.id, b.id);
    assert_ne!(a.id, c.id);
    assert_eq!(lib.len(), 2);
}

#[test]
fn kind_separates_identical_text() {
    let mut lib = ValueLibrary::default();
    let s = lib.intern(ValueKind::Str, "42");
    let i = lib.intern(ValueKind::Int, "42");
    assert_ne!(s.id, i.id);
}

#[test]
fn resolves_back() {
    let mut lib = ValueLibrary::default();
    let r = lib.intern(ValueKind::Link, "https://github.com/brandon-roberts/CodeIO");
    assert_eq!(lib.resolve(&r.id).unwrap(), "https://github.com/brandon-roberts/CodeIO");
}

#[test]
fn vault_backend_encrypts_at_rest_transparently() {
    let enc = Box::new(|s: &str| s.bytes().map(|b| b ^ 0x5A).collect::<Vec<u8>>());
    let dec = Box::new(|c: &[u8]| c.iter().map(|b| (b ^ 0x5A) as char).collect::<String>());
    let mut lib = ValueLibrary::new(VaultBackend::new(enc, dec));
    let r = lib.intern(ValueKind::Str, "secret-key");
    assert_eq!(lib.resolve(&r.id).unwrap(), "secret-key");
}

#[test]
fn value_id_is_kind_prefixed_short_digest() {
    let mut lib = ValueLibrary::default();
    let r = lib.intern(ValueKind::Str, "hello");
    // sha256("str:hello") = 7d2f...; the id keeps the first 16 hex digits
    assert!(r.id.starts_with("str:"));
    assert_eq!(r.id.len(), 4 + 16);
    assert!(r.id[4..].chars().all(|c| c.is_ascii_hexdigit() && !c.is_ascii_uppercase()));
    assert_eq!(r.kind, ValueKind::Str);
}

#[test]
fn reinterning_leaves_library_unchanged() {
    let mut lib = ValueLibrary::default();
    assert!(lib.is_empty());
    let a = lib.intern(ValueKind::Int, "7");
    assert_eq!(lib.len(), 1);
    let b = lib.intern(ValueKind::Int, "7");
    assert_eq!(a.id, b.id);
    assert_eq!(lib.len(), 1);
    assert_eq!(lib.resolve(&a.id).unwrap(), "7");
}

#[test]
fn unknown_id_resolves_to_none() {
    let lib = ValueLibrary::default();
    assert!(lib.resolve("str:0000000000000000").is_none());
}

#[test]
fn memory_backend_put_then_get() {
    let mut b = MemoryBackend::default();
    b.put("k", &ValueKind::Nil, "v1");
    assert_eq!(b.get("k").unwrap(), "v1");
    b.put("k", &ValueKind::Nil, "v2");
    assert_eq!(b.get("k").unwrap(), "v2");
    assert!(b.get("other").is_none());
}

#[test]
fn kind_names() {
    assert_eq!(ValueKind::Str.as_str(), "str");
    assert_eq!(ValueKind::Int.as_str(), "int");
    assert_eq!(ValueKind::Float.as_str(), "float");
    assert_eq!(ValueKind::Bool.as_str(), "bool");
    assert_eq!(ValueKind::Link.as_str(), "link");
    assert_eq!(ValueKind::Nil.as_str(), "nil");
}

#[test]
fn later_interns_keep_earlier_values() {
    let mut lib = ValueLibrary::new(MemoryBackend::default());
    let a = lib.intern(ValueKind::Str, "first");
    let b = lib.intern(ValueKind::Str, "second");
    let a2 = lib.intern(ValueKind::Str, "first");
    assert_eq!(a.id, a2.id);
    assert_eq!(lib.len(), 2);
    assert_eq!(lib.resolve(&a.id), Some("first".to_string()));
    assert_eq!(lib.resolve(&b.id), Some("second".to_string()));
    assert!(lib.resolve("str:ffffffffffffffff").is_none());
}
