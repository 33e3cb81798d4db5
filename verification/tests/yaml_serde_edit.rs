//! Integration tests for `yaml_serde_edit`, exercising only the public API.
//!
//! The example types are a deliberately generic subset of what a
//! `docker compose` reader would use for `compose.yml`: a top-level map, a map
//! of service mappings, scalar sequences, optional fields, and free-form
//! sections. Values cross to and from the library's `Yaml` through
//! hand-written encoders that follow serde's field order and skip rules.

use std::collections::BTreeMap;

use serde_norway::Value;
use yaml_serde_edit::{Num, Yaml, YamlObject, YamlValue};

// ── Yaml helpers ──────────────────────────────────────────────────────────────

fn from_value(v: Value) -> Yaml {
    match v {
        Value::Null => Yaml::Null,
        Value::Bool(b) => Yaml::Bool(b),
        Value::Number(n) => Yaml::Number(if let Some(u) = n.as_u64() {
            Num::PosInt(u)
        } else if let Some(i) = n.as_i64() {
            Num::NegInt(i)
        } else {
            Num::Float(n.to_string())
        }),
        Value::String(s) => Yaml::String(s),
        Value::Sequence(items) => Yaml::Sequence(items.into_iter().map(from_value).collect()),
        Value::Mapping(m) => Yaml::Mapping(
            m.into_iter()
                .map(|(k, v)| (from_value(k), from_value(v)))
                .collect(),
        ),
        Value::Tagged(t) => Yaml::Tagged(t.tag.to_string(), Box::new(from_value(t.value))),
    }
}

/// Parse YAML text with serde_norway into the library's value.
fn as_value(text: &str) -> Yaml {
    from_value(serde_norway::from_str(text).unwrap())
}

fn s(text: &str) -> Yaml {
    Yaml::String(text.to_string())
}

fn integer(i: i64) -> Yaml {
    if i >= 0 {
        Yaml::Number(Num::PosInt(i as u64))
    } else {
        Yaml::Number(Num::NegInt(i))
    }
}

fn float(x: f64) -> Yaml {
    from_value(Value::from(x))
}

fn key<'a>(y: &'a Yaml, k: &str) -> &'a Yaml {
    match y {
        Yaml::Mapping(entries) => entries
            .iter()
            .find(|(ek, _)| matches!(ek, Yaml::String(t) if t == k))
            .map(|(_, v)| v)
            .unwrap_or(&Yaml::Null),
        _ => &Yaml::Null,
    }
}

fn key_mut<'a>(y: &'a mut Yaml, k: &str) -> &'a mut Yaml {
    match y {
        Yaml::Mapping(entries) => {
            let pos = entries
                .iter()
                .position(|(ek, _)| matches!(ek, Yaml::String(t) if t == k));
            let pos = match pos {
                Some(p) => p,
                None => {
                    entries.push((s(k), Yaml::Null));
                    entries.len() - 1
                }
            };
            &mut entries[pos].1
        }
        _ => panic!("not a mapping"),
    }
}

fn at_mut(y: &mut Yaml, i: usize) -> &mut Yaml {
    match y {
        Yaml::Sequence(items) => &mut items[i],
        _ => panic!("not a sequence"),
    }
}

fn at(y: &Yaml, i: usize) -> &Yaml {
    match y {
        Yaml::Sequence(items) => &items[i],
        _ => panic!("not a sequence"),
    }
}

fn same(a: &Yaml, b: &Yaml) -> bool {
    a.equals(b)
}

fn err(msg: &str) -> serde_norway::Error {
    <serde_norway::Error as serde::de::Error>::custom(msg)
}

fn text_of(y: &Yaml) -> Result<String, serde_norway::Error> {
    match y {
        Yaml::String(t) => Ok(t.clone()),
        _ => Err(err("expected a string")),
    }
}

fn strings_of(y: &Yaml) -> Result<Vec<String>, serde_norway::Error> {
    match y {
        Yaml::Null => Ok(Vec::new()),
        Yaml::Sequence(items) => items.iter().map(text_of).collect(),
        _ => Err(err("expected a sequence")),
    }
}

fn entries_of(y: &Yaml) -> Result<&Vec<(Yaml, Yaml)>, serde_norway::Error> {
    match y {
        Yaml::Mapping(entries) => Ok(entries),
        _ => Err(err("expected a mapping")),
    }
}

// ── Docker-compose-ish example schema ─────────────────────────────────────────

#[derive(Debug, Clone, PartialEq)]
struct Service {
    image: String,
    container_name: Option<String>,
    ports: Vec<String>,
    environment: Vec<String>,
    depends_on: Vec<String>,
    restart: Option<String>,
}

#[derive(Debug, Clone)]
struct Compose {
    version: Option<String>,
    services: BTreeMap<String, Service>,
    volumes: BTreeMap<String, Yaml>,
    networks: BTreeMap<String, Yaml>,
}

impl PartialEq for Compose {
    fn eq(&self, other: &Compose) -> bool {
        let maps_eq = |a: &BTreeMap<String, Yaml>, b: &BTreeMap<String, Yaml>| {
            a.len() == b.len() && a.iter().zip(b.iter()).all(|((ka, va), (kb, vb))| ka == kb && same(va, vb))
        };
        self.version == other.version
            && self.services == other.services
            && maps_eq(&self.volumes, &other.volumes)
            && maps_eq(&self.networks, &other.networks)
    }
}

fn strings(v: &[String]) -> Yaml {
    Yaml::Sequence(v.iter().map(|t| s(t)).collect())
}

fn encode_service(sv: &Service) -> Yaml {
    let mut e = vec![(s("image"), s(&sv.image))];
    if let Some(c) = &sv.container_name {
        e.push((s("container_name"), s(c)));
    }
    if !sv.ports.is_empty() {
        e.push((s("ports"), strings(&sv.ports)));
    }
    if !sv.environment.is_empty() {
        e.push((s("environment"), strings(&sv.environment)));
    }
    if !sv.depends_on.is_empty() {
        e.push((s("depends_on"), strings(&sv.depends_on)));
    }
    if let Some(r) = &sv.restart {
        e.push((s("restart"), s(r)));
    }
    Yaml::Mapping(e)
}

fn encode_compose(c: &Compose) -> Result<Yaml, serde_norway::Error> {
    let mut e = Vec::new();
    if let Some(v) = &c.version {
        e.push((s("version"), s(v)));
    }
    e.push((
        s("services"),
        Yaml::Mapping(c.services.iter().map(|(k, v)| (s(k), encode_service(v))).collect()),
    ));
    if !c.volumes.is_empty() {
        e.push((
            s("volumes"),
            Yaml::Mapping(c.volumes.iter().map(|(k, v)| (s(k), v.clone())).collect()),
        ));
    }
    if !c.networks.is_empty() {
        e.push((
            s("networks"),
            Yaml::Mapping(c.networks.iter().map(|(k, v)| (s(k), v.clone())).collect()),
        ));
    }
    Ok(Yaml::Mapping(e))
}

fn opt_text(y: &Yaml) -> Result<Option<String>, serde_norway::Error> {
    match y {
        Yaml::Null => Ok(None),
        other => text_of(other).map(Some),
    }
}

fn decode_service(y: &Yaml) -> Result<Service, serde_norway::Error> {
    entries_of(y)?;
    Ok(Service {
        image: text_of(key(y, "image"))?,
        container_name: opt_text(key(y, "container_name"))?,
        ports: strings_of(key(y, "ports"))?,
        environment: strings_of(key(y, "environment"))?,
        depends_on: strings_of(key(y, "depends_on"))?,
        restart: opt_text(key(y, "restart"))?,
    })
}

fn free_map(y: &Yaml) -> Result<BTreeMap<String, Yaml>, serde_norway::Error> {
    match y {
        Yaml::Null => Ok(BTreeMap::new()),
        other => entries_of(other)?
            .iter()
            .map(|(k, v)| Ok((text_of(k)?, v.clone())))
            .collect(),
    }
}

fn decode_compose(y: &Yaml) -> Result<Compose, serde_norway::Error> {
    let services = entries_of(key(y, "services"))?
        .iter()
        .map(|(k, v)| Ok((text_of(k)?, decode_service(v)?)))
        .collect::<Result<BTreeMap<_, _>, serde_norway::Error>>()?;
    Ok(Compose {
        version: opt_text(key(y, "version"))?,
        services,
        volumes: free_map(key(y, "volumes"))?,
        networks: free_map(key(y, "networks"))?,
    })
}

const COMPOSE: &str = "\
# Project compose file — keep me!
version: \"3.9\"

services:
  web:
    image: nginx:1.25      # pin the version
    ports:
      - \"80:80\"
      - \"443:443\"
    depends_on:
      - api
  api:
    # the backend
    image: ghcr.io/acme/api:v2
    environment:
      - LOG_LEVEL=info
    restart: unless-stopped

volumes:
  db-data: {}   # named volume
";

fn open_compose(text: &str) -> YamlObject<Compose> {
    YamlObject::parse(text, decode_compose).unwrap()
}

// ── Typed documents (formerly on disk) ────────────────────────────────────────

#[test]
fn reads_compose_into_typed_value() {
    let file = open_compose(COMPOSE);
    let c = file.get();
    assert_eq!(c.version.as_deref(), Some("3.9"));
    assert_eq!(c.services.len(), 2);
    assert_eq!(c.services["web"].image, "nginx:1.25");
    assert_eq!(c.services["web"].ports, vec!["80:80", "443:443"]);
    assert_eq!(c.services["api"].restart.as_deref(), Some("unless-stopped"));
    assert!(c.volumes.contains_key("db-data"));
}

#[test]
fn edit_one_service_keeps_other_services_comments() {
    let mut file = open_compose(COMPOSE);

    let mut c = file.get().clone();
    c.services.get_mut("web").unwrap().image = "nginx:1.27".to_string();
    file.set(c.clone(), encode_compose).unwrap();

    let text = file.get_string();
    assert!(text.contains("image: nginx:1.27"));
    // Untouched comments and formatting survive.
    assert!(text.contains("# Project compose file — keep me!"));
    assert!(text.contains("# the backend"));
    assert!(text.contains("# named volume"));
    // Exactly the requested value landed.
    assert!(same(&as_value(text), &encode_compose(&c).unwrap()));
    assert_eq!(file.get(), &c);
}

#[test]
fn edit_scalar_sequence_is_value_correct() {
    // Rewriting a sequence nested several levels deep can exceed what the
    // in-place differ applies cleanly, so it may fall back to a rebuild. Either
    // way the result must be exactly the requested value, and the leading
    // comment block (re-prepended unconditionally) always survives.
    let mut file = open_compose(COMPOSE);

    let mut c = file.get().clone();
    c.services.get_mut("web").unwrap().ports = vec!["8080:80".to_string()];
    file.set(c.clone(), encode_compose).unwrap();

    let text = file.get_string();
    assert!(text.contains("8080:80"));
    assert!(!text.contains("443:443"));
    assert!(text.contains("# Project compose file — keep me!"));
    assert!(same(&as_value(text), &encode_compose(&c).unwrap()));
    assert_eq!(file.get(), &c);
}

#[derive(Debug, Clone, PartialEq)]
struct Tagged {
    tags: Vec<String>,
    name: String,
}

fn encode_tagged(t: &Tagged) -> Result<Yaml, serde_norway::Error> {
    Ok(Yaml::Mapping(vec![(s("tags"), strings(&t.tags)), (s("name"), s(&t.name))]))
}

fn decode_tagged(y: &Yaml) -> Result<Tagged, serde_norway::Error> {
    Ok(Tagged {
        tags: strings_of(key(y, "tags"))?,
        name: text_of(key(y, "name"))?,
    })
}

/// A *root-level* scalar sequence reconciles in place, keeping comments.
#[test]
fn edit_top_level_sequence_preserves_comments() {
    let src = "# tags list\ntags:\n  - a   # first\n  - b\n  - c\nname: web  # service\n";
    let mut file = YamlObject::parse(src, decode_tagged).unwrap();
    let mut c = file.get().clone();
    c.tags = vec!["a".into(), "B".into(), "c".into(), "d".into()];
    file.set(c.clone(), encode_tagged).unwrap();

    let text = file.get_string();
    assert!(text.contains("# tags list"));
    assert!(text.contains("# service"));
    assert!(text.contains("- d")); // appended tail element
    assert!(same(&as_value(text), &encode_tagged(&c).unwrap()));
}

#[test]
fn add_and_remove_service_is_value_correct() {
    let mut file = open_compose(COMPOSE);

    let mut c = file.get().clone();
    c.services.insert(
        "cache".to_string(),
        Service {
            image: "redis:7".to_string(),
            container_name: None,
            ports: vec!["6379:6379".to_string()],
            environment: Vec::new(),
            depends_on: Vec::new(),
            restart: None,
        },
    );
    file.set(c.clone(), encode_compose).unwrap();
    assert!(file.get_string().contains("redis:7"));
    assert!(same(&as_value(file.get_string()), &encode_compose(&c).unwrap()));

    let mut c2 = file.get().clone();
    c2.services.remove("cache");
    file.set(c2.clone(), encode_compose).unwrap();
    assert!(!file.get_string().contains("redis:7"));
    assert!(same(&as_value(file.get_string()), &encode_compose(&c2).unwrap()));
}

#[test]
fn no_op_set_keeps_bytes_identical() {
    let mut file = open_compose(COMPOSE);
    let same_value = file.get().clone();
    file.set(same_value, encode_compose).unwrap();
    assert_eq!(file.get_string(), COMPOSE);
}

#[test]
fn set_persists_to_disk_and_reopens() {
    let saved = {
        let mut file = open_compose(COMPOSE);
        let mut c = file.get().clone();
        c.version = Some("3.10".to_string());
        c.services.get_mut("api").unwrap().restart = Some("always".to_string());
        file.set(c, encode_compose).unwrap();
        file.get_string().to_string()
    };
    let reopened = open_compose(&saved);
    assert_eq!(reopened.get().version.as_deref(), Some("3.10"));
    assert_eq!(
        reopened.get().services["api"].restart.as_deref(),
        Some("always")
    );
    assert!(
        reopened
            .get_string()
            .contains("# Project compose file — keep me!")
    );
}

#[test]
fn many_sequential_edits_round_trip() {
    let mut file = open_compose(COMPOSE);
    for i in 0..5u32 {
        let mut c = file.get().clone();
        c.services.get_mut("web").unwrap().image = format!("nginx:1.{i}");
        c.services.get_mut("api").unwrap().environment = vec![format!("LOG_LEVEL=lvl{i}")];
        file.set(c.clone(), encode_compose).unwrap();
        assert_eq!(file.get(), &c);
        assert!(same(&as_value(file.get_string()), &encode_compose(&c).unwrap()));
    }
    assert!(
        file.get_string()
            .contains("# Project compose file — keep me!")
    );
}

// ── YamlValue (in-memory, untyped) ────────────────────────────────────────────

#[test]
fn value_set_applies_change() {
    let mut doc = YamlValue::parse("# top\nname: web   # svc\nreplicas: 1\n").unwrap();
    let mut v = doc.get().clone();
    *key_mut(&mut v, "replicas") = integer(3);
    doc.set(v);
    let out = doc.get_string();
    assert!(out.contains("replicas: 3"));
    assert!(out.contains("# top"));
    assert!(out.contains("# svc"));
    // The value tracks the edit too.
    assert!(same(key(doc.get(), "replicas"), &integer(3)));
}

#[test]
fn value_set_replaces_whole_value() {
    let mut doc = YamlValue::parse("a: 1  # one\nb: 2\n").unwrap();
    let m = vec![
        (s("a"), integer(1)),  // unchanged
        (s("b"), integer(20)), // changed
    ];
    doc.set(Yaml::Mapping(m));
    let out = doc.get_string();
    assert!(out.contains("b: 20"));
    assert!(out.contains("# one")); // comment on untouched `a` preserved
}

#[test]
fn value_get_string_is_lossless_without_edits() {
    let src = "# h\nfoo: bar  # inline\nlist:\n  - 1\n  - 2\n";
    let doc = YamlValue::parse(src).unwrap();
    assert_eq!(doc.get_string(), src);
}

#[test]
fn value_from_str_trait() {
    let doc: YamlValue = "x: 1\n".parse().unwrap();
    assert!(same(key(doc.get(), "x"), &integer(1)));
}

// ── Tags and nested data-type combinations ────────────────────────────────────

#[test]
fn preserves_yaml_tags_when_editing_siblings() {
    // A custom tag on one value; editing another key must keep the tag intact
    // and value-correct.
    let src = "secret: !vault \"abc123\"\nname: web\n";
    let mut doc = YamlValue::parse(src).unwrap();
    let secret_before = key(doc.get(), "secret").clone();
    assert!(matches!(secret_before, Yaml::Tagged(..)));

    let mut v = doc.get().clone();
    *key_mut(&mut v, "name") = s("api");
    doc.set(v);
    let out = doc.get_string();
    assert!(out.contains("!vault"), "tag must survive: {out}");
    assert!(out.contains("api"));
    // Round-trips: the tagged node is still present and equal.
    assert!(same(key(&as_value(&out), "secret"), &secret_before));
}

#[test]
fn replacing_a_tagged_value_is_value_correct() {
    let src = "node: !Color { r: 1, g: 2, b: 3 }\n";
    let mut doc = YamlValue::parse(src).unwrap();
    // Build a new tagged value and set it.
    let new_val = as_value("!Color { r: 9, g: 9, b: 9 }");
    let mut v = doc.get().clone();
    *key_mut(&mut v, "node") = new_val.clone();
    doc.set(v);
    assert!(same(key(doc.get(), "node"), &new_val));
    assert!(same(key(&as_value(&doc.get_string()), "node"), &new_val));
}

#[test]
fn deeply_nested_maps_and_sequences_round_trip() {
    let src = "\
root:
  # a list of records
  records:
    - id: 1
      tags: [a, b]
      meta:
        owner: alice
    - id: 2
      tags: [c]
      meta:
        owner: bob
";
    let mut doc = YamlValue::parse(src).unwrap();
    // Reach deep into root.records[0].meta.owner and change it.
    let mut v = doc.get().clone();
    *key_mut(key_mut(at_mut(key_mut(key_mut(&mut v, "root"), "records"), 0), "meta"), "owner") =
        s("carol");
    doc.set(v);
    let v = as_value(&doc.get_string());
    assert!(same(
        key(key(at(key(key(&v, "root"), "records"), 0), "meta"), "owner"),
        &s("carol")
    ));
    // Untouched neighbour preserved.
    assert!(same(
        key(key(at(key(key(&v, "root"), "records"), 1), "meta"), "owner"),
        &s("bob")
    ));
}

#[test]
fn core_scalar_types_round_trip() {
    let src = "s: hello\ni: -7\nu: 42\nf: 1.5\nb: true\nn: null\n";
    let mut doc = YamlValue::parse(src).unwrap();
    let mut e = doc.get().clone();
    *key_mut(&mut e, "i") = integer(-8);
    *key_mut(&mut e, "f") = float(2.5);
    *key_mut(&mut e, "b") = Yaml::Bool(false);
    doc.set(e);
    let v = as_value(&doc.get_string());
    assert!(same(key(&v, "s"), &s("hello")));
    assert!(same(key(&v, "i"), &integer(-8)));
    assert!(same(key(&v, "u"), &integer(42)));
    assert!(same(key(&v, "f"), &float(2.5)));
    assert!(same(key(&v, "b"), &Yaml::Bool(false)));
    assert!(matches!(key(&v, "n"), Yaml::Null));
}

fn encode_counts(m: &BTreeMap<String, i64>) -> Result<Yaml, serde_norway::Error> {
    Ok(Yaml::Mapping(m.iter().map(|(k, v)| (s(k), integer(*v))).collect()))
}

fn decode_counts(y: &Yaml) -> Result<BTreeMap<String, i64>, serde_norway::Error> {
    entries_of(y)?
        .iter()
        .map(|(k, v)| match v {
            Yaml::Number(Num::PosInt(u)) => Ok((text_of(k)?, *u as i64)),
            Yaml::Number(Num::NegInt(i)) => Ok((text_of(k)?, *i)),
            _ => Err(err("expected an integer")),
        })
        .collect()
}

#[test]
fn btreemap_root_with_comments() {
    let src = "# counts\na: 1\nb: 2  # two\n";
    let mut file = YamlObject::parse(src, decode_counts).unwrap();
    let mut m = file.get().clone();
    m.insert("c".to_string(), 3);
    *m.get_mut("a").unwrap() = 10;
    file.set(m.clone(), encode_counts).unwrap();

    let text = file.get_string();
    assert!(text.contains("a: 10"));
    assert!(text.contains("c: 3"));
    assert!(text.contains("# counts"));
    assert!(text.contains("# two"));
    let rt = decode_counts(&as_value(text)).unwrap();
    assert_eq!(rt, m);
}

// ── YamlObject<T> (typed, no I/O) ─────────────────────────────────────────────

#[test]
fn yaml_object_get_set_typed_preserves_comments() {
    let mut s: YamlObject<Compose> = YamlObject::parse(COMPOSE, decode_compose).unwrap();

    // get() borrows the typed value.
    let mut c = s.get().clone();
    assert_eq!(c.version.as_deref(), Some("3.9"));

    c.version = Some("3.10".to_string());
    c.services.get_mut("web").unwrap().restart = Some("always".to_string());
    s.set(c.clone(), encode_compose).unwrap();

    // get_string() reflects the edit while keeping comments, and the value/text
    // stay in sync.
    let text = s.get_string();
    assert!(text.contains("version: \"3.10\"") || text.contains("version: '3.10'"));
    assert!(text.contains("restart: always"));
    assert!(text.contains("# Project compose file — keep me!"));
    assert!(text.contains("# pin the version"));
    assert_eq!(s.get(), &c);
    assert!(same(&as_value(s.get_string()), &encode_compose(&c).unwrap()));
}

#[test]
fn yaml_object_get_string_and_set_string() {
    let mut s: YamlObject<Compose> = YamlObject::parse(COMPOSE, decode_compose).unwrap();
    // get_string() gives back the parsed text (no edits).
    assert_eq!(s.get_string(), COMPOSE);

    // set_string() replaces the whole document from raw YAML, reparsing the
    // typed value and keeping the new text's comments.
    let replacement = "# fresh\nversion: \"4.0\"\nservices: {}\n";
    s.set_string(replacement, decode_compose).unwrap();
    assert_eq!(s.get().version.as_deref(), Some("4.0"));
    assert!(s.get().services.is_empty());
    assert!(s.get_string().contains("# fresh"));
    assert_eq!(s.get_string(), replacement);

    // Invalid YAML is rejected without disturbing the current contents.
    assert!(s.set_string("key: : : nope", decode_compose).is_err());
    assert_eq!(s.get().version.as_deref(), Some("4.0"));
}

#[test]
fn yaml_object_backs_yaml_file() {
    // A file is a YamlObject plus a path: its text and typed value match the
    // contents once opened.
    let file = open_compose(COMPOSE);
    assert_eq!(file.get_string(), COMPOSE);
    assert_eq!(file.get().version.as_deref(), Some("3.9"));
}
