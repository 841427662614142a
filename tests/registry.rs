use steamacf::{
    format_listing, format_path, load_registry, AcfToken, AcfTokenStream, StreamError,
    SteamRegistry, StructuredAcfTokenStream,
};

fn nav(input: &str) -> StructuredAcfTokenStream {
    StructuredAcfTokenStream::new(AcfTokenStream::new(input.as_bytes().to_vec()))
}

const REGISTRY: &str = r#"
"Registry"
{
  "HKCU"
  {
    "Software"
    {
      "Valve"
      {
        "Steam"
        {
          "language" "english"
          "Apps"
          {
            "10" { "name" "Counter-Strike" "Installed" "1" }
            "20" { "Installed" "0" }
            "30" { "Updating" "0" "name" "Day of Defeat" "extra" { "a" "b" } }
          }
        }
      }
    }
  }
}
"#;

fn pairs(reg: &SteamRegistry) -> Vec<(String, String)> {
    reg.entries().to_vec()
}

fn p(a: &str, b: &str) -> (String, String) {
    (a.to_string(), b.to_string())
}

#[test]
fn registry_names_and_ids() {
    let reg = load_registry(&mut nav(REGISTRY)).unwrap();
    assert_eq!(pairs(&reg), vec![p("Counter-Strike", "10"), p("Day of Defeat", "30")]);
}

#[test]
fn registry_listing() {
    let reg = load_registry(&mut nav(REGISTRY)).unwrap();
    assert_eq!(format_listing(&reg), "Counter-Strike  10\nDay of Defeat   30\n");
    assert_eq!(format_listing(&SteamRegistry::new()), "");
}

#[test]
fn registry_without_apps() {
    let doc = r#""Registry" { "HKCU" { "Software" { "Valve" { "Steam" { } } } } }"#;
    match load_registry(&mut nav(doc)) {
        Err(StreamError::PathNotFound(path)) => {
            assert_eq!(path, vec!["Registry", "HKCU", "Software", "Valve", "Steam", "Apps"]);
            assert_eq!(format_path(&path), ".Registry.HKCU.Software.Valve.Steam.Apps");
        }
        other => panic!("unexpected {:?}", other.map(|r| pairs(&r))),
    }
}

#[test]
fn registry_name_must_be_a_string() {
    let doc = r#""Registry" { "HKCU" { "Software" { "Valve" { "Steam" { "Apps" {
        "1" { "name" { } } } } } } } }"#;
    match load_registry(&mut nav(doc)) {
        Err(StreamError::UnexpectedToken(t)) => assert_eq!(t, AcfToken::DictStart),
        other => panic!("unexpected {:?}", other.map(|r| pairs(&r))),
    }
}

#[test]
fn registry_later_entry_replaces_id() {
    let doc = r#""Registry" { "HKCU" { "Software" { "Valve" { "Steam" { "Apps" {
        "1" { "name" "A" } "2" { "name" "B" } "3" { "name" "A" } } } } } } }"#;
    let reg = load_registry(&mut nav(doc)).unwrap();
    assert_eq!(pairs(&reg), vec![p("A", "3"), p("B", "2")]);
}

#[test]
fn insert_keeps_names_unique() {
    let mut reg = SteamRegistry::new();
    reg.insert("x".to_string(), "1".to_string());
    reg.insert("y".to_string(), "2".to_string());
    reg.insert("x".to_string(), "3".to_string());
    assert_eq!(pairs(&reg), vec![p("x", "3"), p("y", "2")]);
}

#[test]
fn format_path_of_keys() {
    assert_eq!(format_path(&["a".to_string(), "bc".to_string()]), ".a.bc");
    assert_eq!(format_path(&[]), "");
}
