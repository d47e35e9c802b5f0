use astrum_memory::c_api::{escape_json_text, parse_tags_classified, parse_tags_csv};
use astrum_memory::canon::CanonLevel;
use astrum_memory::graph_nexus::MemoryGraphNexus;
use astrum_memory::persistence::{default_index_kind, Snapshot, SNAPSHOT_VERSION};
use astrum_memory::provenance::SourceType;
use astrum_memory::text::is_whitespace;
use astrum_memory::vector_index::{SimpleVectorIndex, CAPI_INDEX_KIND};

/// The backend a snapshot's header names, as the loader reads it: the `index_kind` field,
/// or the legacy default when the field is absent.
fn header_kind(json: &str) -> Option<String> {
    let v: serde_json::Value = serde_json::from_str(json).ok()?;
    let obj = v.as_object()?;
    Some(match obj.get("index_kind") {
        Some(k) => k.as_str()?.to_string(),
        None => default_index_kind(),
    })
}

#[test]
fn test_snapshot_records_and_checks_index_kind() {
    // Whatever this build is, its own snapshot passes the index-kind test and says so.
    let snap = Snapshot::new(MemoryGraphNexus::new(), None);
    assert_eq!(snap.index_kind, CAPI_INDEX_KIND);
    assert_eq!(snap.version, SNAPSHOT_VERSION);
    assert!(snap.check_index_kind().is_ok());
    assert!(Snapshot::checked(Ok(snap), None).is_ok());

    // A file written by the OTHER build must fail with a message naming both kinds,
    // not with an opaque decoder error. (Its index encoding never decodes here, so the
    // header re-read is what produces the diagnosis.)
    let other = if CAPI_INDEX_KIND == "f32" { "int8" } else { "f32" };
    let foreign = format!(
        r#"{{"version":1,"nexus":null,"index":{{"dimension":3,"vectors":[]}},"index_kind":"{}"}}"#,
        other
    );
    let err = Snapshot::checked(Err("invalid type: null, expected struct".to_string()), header_kind(&foreign))
        .err()
        .unwrap();
    assert!(err.contains(other), "error should name the foreign kind: {err}");
    assert!(err.contains(CAPI_INDEX_KIND), "error should name this build: {err}");
}

#[test]
fn test_legacy_snapshot_defaults_to_f32() {
    // Snapshots written before the field existed carry no `index_kind` — they were
    // always f32, and that is what the default must report.
    assert_eq!(header_kind(r#"{"version":1}"#).unwrap(), "f32");
    assert_eq!(default_index_kind(), "f32");
}

#[test]
fn foreign_backend_with_an_index_is_refused() {
    let mut index = SimpleVectorIndex::new(1);
    index.insert("a".into(), vec![1.0f32.to_bits()]).unwrap();
    let mut snap = Snapshot::new(MemoryGraphNexus::new(), Some(index));
    snap.index_kind = "int8".to_string();
    let err = snap.check_index_kind().unwrap_err();
    assert_eq!(
        err,
        "snapshot vector index is 'int8', this build is 'f32' — rebuild with the matching capi-int8 feature or re-embed the corpus"
    );
    assert_eq!(Snapshot::checked(Ok(snap), None).err().unwrap(), err);

    // Without an index nothing in the snapshot depends on the backend.
    let mut portable = Snapshot::new(MemoryGraphNexus::new(), None);
    portable.index_kind = "int8".to_string();
    assert!(portable.check_index_kind().is_ok());
}

#[test]
fn decoder_errors_pass_through_when_the_header_is_ours_or_unreadable() {
    let e = || Err::<Snapshot, String>("expected value at line 1 column 1".to_string());
    assert_eq!(Snapshot::checked(e(), None).err().unwrap(), "expected value at line 1 column 1");
    assert_eq!(
        Snapshot::checked(e(), Some("f32".to_string())).err().unwrap(),
        "expected value at line 1 column 1"
    );
}

#[test]
fn snapshot_keeps_the_state_it_was_given() {
    let mut nexus = MemoryGraphNexus::new();
    let id = nexus.create_node(
        "user likes tea".to_string(),
        "pref".to_string(),
        vec!["preference".to_string()],
        SourceType::UserUtterance,
        2,
        None,
        CanonLevel::L2Foundational,
    );
    let mut index = SimpleVectorIndex::new(3);
    index.insert(id.clone(), vec![1.0f32.to_bits(), 0, 0]).unwrap();
    let snap = Snapshot::new(nexus, Some(index));
    let loaded = Snapshot::checked(Ok(snap), None).ok().unwrap();
    assert_eq!(loaded.version, SNAPSHOT_VERSION);
    assert_eq!(loaded.nexus.len(), 1);
    assert!(loaded.nexus.contains_node(&id));
    assert_eq!(loaded.index.as_ref().unwrap().len(), 1);
    assert_eq!(loaded.nexus.topology().topological_boost(1, 2), 90);
}

#[test]
fn tags_are_split_trimmed_and_filtered() {
    assert_eq!(parse_tags_csv(" pref , ,work,, x y "), vec!["pref", "work", "x y"]);
    assert!(parse_tags_csv("").is_empty());
    assert!(parse_tags_csv(" , ,").is_empty());
    assert_eq!(parse_tags_csv("solo"), vec!["solo"]);
}

#[test]
fn json_text_escapes_backslash_quote_and_control_characters() {
    assert_eq!(escape_json_text(r#"say "hi" \ bye"#), r#"say \"hi\" \\ bye"#);
    assert_eq!(escape_json_text("a\nb\r\tc\u{1}\u{1f}\u{7f}"), "a\\nb\\r\\tc\\u0001\\u001f\u{7f}");
    // the escaped text always makes a valid JSON string holding the raw text
    let raw = "line one\nline \"two\"\t\u{0}\\end";
    let json = format!("\"{}\"", escape_json_text(raw));
    let parsed: serde_json::Value = serde_json::from_str(&json).unwrap();
    assert_eq!(parsed.as_str().unwrap(), raw);
    assert_eq!(escape_json_text("plain"), "plain");
    assert_eq!(escape_json_text(""), "");
}

#[test]
fn tags_split_on_the_given_whitespace_classes() {
    // Only the characters flagged as whitespace are trimmed.
    let cs: Vec<(char, bool)> = vec![('_', true), ('a', false), ('_', true), (',', false), ('b', false), (' ', false)];
    assert_eq!(parse_tags_classified(&cs), vec!["a".to_string(), "b ".to_string()]);
    assert!(parse_tags_classified(&[]).is_empty());
}

#[test]
fn whitespace_matches_the_standard_library_everywhere() {
    for u in 0u32..=0x10FFFF {
        if let Some(c) = char::from_u32(u) {
            assert_eq!(is_whitespace(c), c.is_whitespace(), "U+{u:04X}");
        }
    }
}
