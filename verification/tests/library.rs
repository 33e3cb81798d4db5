//! Tests of the library's own parts: the leading comment block, YAML
//! equality, key lookup, the differ's plans, the round-trip check, and the
//! error and edge cases of the documents.

use yaml_serde_edit::diff::{plan_mapping, plan_sequence, KeyEdit, SeqEdit};
use yaml_serde_edit::document::check_round_trip;
use yaml_serde_edit::yaml::find_key;
use yaml_serde_edit::{leading_block, Error, Num, Yaml, YamlObject, YamlValue};

fn s(text: &str) -> Yaml {
    Yaml::String(text.to_string())
}

fn n(u: u64) -> Yaml {
    Yaml::Number(Num::PosInt(u))
}

fn fl(t: &str) -> Yaml {
    Yaml::Number(Num::Float(t.to_string()))
}

fn map(entries: Vec<(Yaml, Yaml)>) -> Yaml {
    Yaml::Mapping(entries)
}

fn entries(y: Yaml) -> Vec<(Yaml, Yaml)> {
    match y {
        Yaml::Mapping(e) => e,
        _ => panic!("not a mapping"),
    }
}

fn identity(y: &Yaml) -> Result<Yaml, serde_norway::Error> {
    Ok(y.clone())
}

fn encode_same(y: &Yaml) -> Result<Yaml, serde_norway::Error> {
    Ok(y.clone())
}

// ── leading_block ─────────────────────────────────────────────────────────────

#[test]
fn leading_block_takes_comments_and_blanks_before_content() {
    assert_eq!(leading_block("# a\n\n# b\nkey: 1\n# c\n"), "# a\n\n# b\n");
}

#[test]
fn leading_block_empty_when_content_first() {
    assert_eq!(leading_block("key: 1\n# c\n"), "");
    assert_eq!(leading_block(""), "");
}

#[test]
fn leading_block_normalises_crlf_and_unterminated_lines() {
    assert_eq!(leading_block("# a\r\nkey: 1\r\n"), "# a\n");
    assert_eq!(leading_block("# only"), "# only\n");
    assert_eq!(leading_block("# a\n# b"), "# a\n# b\n");
}

#[test]
fn leading_block_keeps_indented_and_unicode_spaced_comments() {
    assert_eq!(leading_block("   \n\t# t\nk: 1"), "   \n\t# t\n");
    assert_eq!(leading_block("\u{3000}# wide\nk: v\n"), "\u{3000}# wide\n");
    assert_eq!(leading_block("  x # not a comment\n"), "");
}

#[test]
fn leading_block_before_comment_block_is_kept_whole() {
    let block = "# one\n\n# two\n";
    let rest = "a: 1\n# three\n";
    assert_eq!(leading_block(&format!("{block}{rest}")), format!("{block}{}", leading_block(rest)));
}

// ── YAML equality ─────────────────────────────────────────────────────────────

#[test]
fn equality_of_floats() {
    assert!(fl("0.0").equals(&fl("-0.0")));
    assert!(fl(".nan").equals(&fl(".nan")));
    assert!(fl("2.5").equals(&fl("2.5")));
    assert!(!fl("2.5").equals(&fl("2.25")));
    assert!(!fl("1.0").equals(&n(1)));
}

#[test]
fn equality_of_integers_by_kind() {
    assert!(n(3).equals(&n(3)));
    assert!(!n(3).equals(&n(4)));
    assert!(Yaml::Number(Num::NegInt(-3)).equals(&Yaml::Number(Num::NegInt(-3))));
    assert!(!Yaml::Number(Num::NegInt(-3)).equals(&n(3)));
}

#[test]
fn equality_of_tags_ignores_leading_bang() {
    let a = Yaml::Tagged("!x".to_string(), Box::new(n(1)));
    let b = Yaml::Tagged("x".to_string(), Box::new(n(1)));
    let c = Yaml::Tagged("!y".to_string(), Box::new(n(1)));
    assert!(a.equals(&b));
    assert!(!a.equals(&c));
}

#[test]
fn mappings_compare_unordered_sequences_ordered() {
    let m1 = map(vec![(s("a"), n(1)), (s("b"), n(2))]);
    let m2 = map(vec![(s("b"), n(2)), (s("a"), n(1))]);
    let m3 = map(vec![(s("a"), n(1)), (s("b"), n(3))]);
    assert!(m1.equals(&m2));
    assert!(!m1.equals(&m3));
    let q1 = Yaml::Sequence(vec![n(1), n(2)]);
    let q2 = Yaml::Sequence(vec![n(2), n(1)]);
    assert!(!q1.equals(&q2));
    assert!(q1.equals(&q1.clone()));
}

#[test]
fn equality_is_reflexive_on_a_nested_value() {
    let y = map(vec![
        (s("k"), Yaml::Sequence(vec![fl("1.5"), Yaml::Null, Yaml::Bool(true)])),
        (n(7), Yaml::Tagged("!t".to_string(), Box::new(s("v")))),
    ]);
    assert!(y.equals(&y));
}

#[test]
fn as_str_of_strings_only() {
    assert_eq!(s("k").as_str(), Some("k"));
    assert_eq!(n(1).as_str(), None);
}

#[test]
fn well_tagged_rejects_empty_tags() {
    assert!(Yaml::Tagged("!t".to_string(), Box::new(Yaml::Null)).is_well_tagged());
    assert!(!Yaml::Sequence(vec![Yaml::Tagged(String::new(), Box::new(Yaml::Null))]).is_well_tagged());
}

// ── find_key ──────────────────────────────────────────────────────────────────

#[test]
fn find_key_finds_first_equal_key() {
    let e = vec![(s("a"), n(1)), (s("b"), n(2)), (s("b"), n(3))];
    assert_eq!(find_key(&e, &s("b")), Some(1));
    assert_eq!(find_key(&e, &s("a")), Some(0));
    assert_eq!(find_key(&e, &s("z")), None);
    assert_eq!(find_key(&Vec::new(), &s("a")), None);
}

#[test]
fn find_key_uses_yaml_equality() {
    let e = vec![(fl("0.0"), n(1))];
    assert_eq!(find_key(&e, &fl("-0.0")), Some(0));
}

// ── plan_mapping ──────────────────────────────────────────────────────────────

#[test]
fn mapping_plan_removes_then_updates_in_order() {
    let old = entries(map(vec![
        (s("a"), n(1)),
        (s("gone"), n(0)),
        (s("b"), Yaml::Sequence(vec![n(1), n(2)])),
        (s("c"), map(vec![(s("x"), n(1))])),
        (s("d"), n(2)),
        (n(5), s("z")),
    ]));
    let new = entries(map(vec![
        (s("a"), n(1)),
        (s("b"), Yaml::Sequence(vec![n(1), n(3)])),
        (s("c"), map(vec![(s("x"), n(2))])),
        (s("d"), s("s")),
        (s("e"), Yaml::Bool(true)),
        (n(7), s("q")),
    ]));
    let plan = plan_mapping(&old, &new);
    assert_eq!(plan.len(), 5);
    assert!(matches!(plan[0], KeyEdit::Remove(1)));
    assert!(matches!(plan[1], KeyEdit::Reconcile(2, 1)));
    assert!(matches!(plan[2], KeyEdit::Descend(3, 2)));
    assert!(matches!(plan[3], KeyEdit::Write(3)));
    assert!(matches!(plan[4], KeyEdit::Write(4)));
}

#[test]
fn mapping_plan_of_equal_mappings_is_empty() {
    let old = entries(map(vec![(s("a"), n(1)), (s("b"), n(2))]));
    let new = entries(map(vec![(s("b"), n(2)), (s("a"), n(1))]));
    assert!(plan_mapping(&old, &new).is_empty());
}

#[test]
fn mapping_plan_writes_a_changed_kind() {
    let old = entries(map(vec![(s("a"), Yaml::Sequence(vec![n(1)]))]));
    let new = entries(map(vec![(s("a"), map(vec![(s("x"), n(1))]))]));
    let plan = plan_mapping(&old, &new);
    assert_eq!(plan.len(), 1);
    assert!(matches!(plan[0], KeyEdit::Write(0)));
}

// ── plan_sequence ─────────────────────────────────────────────────────────────

#[test]
fn sequence_plan_sets_changed_and_removes_tail_last_first() {
    let (plan, complete) = plan_sequence(&vec![n(1), n(2), n(3), n(4)], &vec![n(1), n(5)]);
    assert!(complete);
    assert_eq!(plan.len(), 3);
    assert!(matches!(plan[0], SeqEdit::SetAt(1)));
    assert!(matches!(plan[1], SeqEdit::RemoveAt(3)));
    assert!(matches!(plan[2], SeqEdit::RemoveAt(2)));
}

#[test]
fn sequence_plan_pushes_new_tail() {
    let (plan, complete) = plan_sequence(&vec![s("a")], &vec![s("a"), s("b"), fl("2.5")]);
    assert!(complete);
    assert_eq!(plan.len(), 2);
    assert!(matches!(plan[0], SeqEdit::Push(1)));
    assert!(matches!(plan[1], SeqEdit::Push(2)));
}

#[test]
fn sequence_plan_stops_at_a_changed_non_scalar() {
    let old = vec![n(1), n(2), n(3)];
    let new = vec![n(9), Yaml::Sequence(vec![]), n(8)];
    let (plan, complete) = plan_sequence(&old, &new);
    assert!(!complete);
    assert_eq!(plan.len(), 1);
    assert!(matches!(plan[0], SeqEdit::SetAt(0)));
}

#[test]
fn sequence_plan_stops_at_a_pushed_non_scalar() {
    let (plan, complete) = plan_sequence(&vec![], &vec![n(1), Yaml::Null, n(2)]);
    assert!(!complete);
    assert_eq!(plan.len(), 1);
    assert!(matches!(plan[0], SeqEdit::Push(0)));
}

#[test]
fn sequence_plan_of_equal_sequences_is_empty_and_complete() {
    let (plan, complete) = plan_sequence(&vec![n(1), Yaml::Null], &vec![n(1), Yaml::Null]);
    assert!(complete);
    assert!(plan.is_empty());
}

// ── check_round_trip ──────────────────────────────────────────────────────────

#[test]
fn round_trip_check_accepts_equal_value() {
    let expected = map(vec![(s("b"), n(2)), (s("a"), n(1))]);
    assert!(check_round_trip("a: 1\nb: 2\n", &expected).is_ok());
}

#[test]
fn round_trip_check_reports_a_different_value() {
    let expected = map(vec![(s("a"), n(2))]);
    assert!(matches!(check_round_trip("a: 1\n", &expected), Err(Error::RoundTrip)));
}

#[test]
fn round_trip_check_reports_unparsable_text() {
    assert!(matches!(check_round_trip("a: [1\n", &Yaml::Null), Err(Error::RoundTrip)));
}

// ── YamlValue ─────────────────────────────────────────────────────────────────

#[test]
fn value_parse_error_is_yaml_error() {
    assert!(matches!(YamlValue::parse("a: [1\n"), Err(Error::Yaml(_))));
    assert!(matches!(YamlValue::parse("a: b: c\n"), Err(Error::Yaml(_))));
}

#[test]
fn value_parse_keeps_leading_block_in_text() {
    let text = "# head\n\na: 1 # tail\n";
    let doc = YamlValue::parse(text).unwrap();
    assert_eq!(doc.get_string(), text);
    assert!(doc.get().equals(&map(vec![(s("a"), n(1))])));
}

#[test]
fn value_set_equal_value_keeps_text() {
    let text = "# head\nb: 2   # two\na: 1\n";
    let mut doc = YamlValue::parse(text).unwrap();
    doc.set(map(vec![(s("a"), n(1)), (s("b"), n(2))]));
    assert_eq!(doc.get_string(), text);
}

#[test]
fn value_set_rebuilds_when_sequence_becomes_mapping() {
    let mut doc = YamlValue::parse("# top\nitems:\n  - 1\n  - 2\nname: x # keep\n").unwrap();
    let target = map(vec![(s("items"), map(vec![(s("k"), n(1))])), (s("name"), s("x"))]);
    doc.set(target.clone());
    assert!(doc.get().equals(&target));
    let text = doc.get_string();
    assert!(text.starts_with("# top\n"));
    let reparsed = YamlValue::parse(&text).unwrap();
    assert!(reparsed.get().equals(&target));
}

#[test]
fn value_set_non_mapping_root() {
    let mut doc = YamlValue::parse("- 1\n- 2\n").unwrap();
    let target = Yaml::Sequence(vec![n(1), n(2), n(3)]);
    doc.set(target.clone());
    assert!(doc.get().equals(&target));
    assert!(YamlValue::parse(&doc.get_string()).unwrap().get().equals(&target));
}

#[test]
fn value_set_float_in_sequence() {
    let mut doc = YamlValue::parse("xs:\n  - 1.5\n  - 2.5\n").unwrap();
    let target = map(vec![(s("xs"), Yaml::Sequence(vec![fl("1.5"), fl("3.25")]))]);
    doc.set(target.clone());
    assert!(YamlValue::parse(&doc.get_string()).unwrap().get().equals(&target));
}

#[test]
fn value_set_string_error_leaves_document() {
    let text = "# c\na: 1\n";
    let mut doc = YamlValue::parse(text).unwrap();
    assert!(matches!(doc.set_string("a: [1\n"), Err(Error::Yaml(_))));
    assert_eq!(doc.get_string(), text);
    assert!(doc.set_string("b: 2\n").is_ok());
    assert_eq!(doc.get_string(), "b: 2\n");
}

// ── YamlObject ────────────────────────────────────────────────────────────────

#[test]
fn object_parse_decode_error_is_yaml_error() {
    let r = YamlObject::<Yaml>::parse("a: 1\n", |_: &Yaml| -> Result<Yaml, serde_norway::Error> {
        Err(<serde_norway::Error as serde::de::Error>::custom("no"))
    });
    assert!(matches!(r, Err(Error::Yaml(_))));
}

#[test]
fn object_set_encode_error_leaves_object() {
    let text = "# c\na: 1\n";
    let mut o = YamlObject::parse(text, identity).unwrap();
    let r = o.set(n(5), |_: &Yaml| -> Result<Yaml, serde_norway::Error> {
        Err(<serde_norway::Error as serde::de::Error>::custom("no"))
    });
    assert!(matches!(r, Err(Error::Yaml(_))));
    assert_eq!(o.get_string(), text);
    assert!(o.get().equals(&map(vec![(s("a"), n(1))])));
}

#[test]
fn object_set_unrepresentable_float_is_refused_and_leaves_object() {
    let text = "# c\na: 1\n";
    let mut o = YamlObject::parse(text, identity).unwrap();
    let r = o.set(map(vec![(s("a"), fl("abc"))]), encode_same);
    assert!(matches!(r, Err(Error::RoundTrip)));
    assert_eq!(o.get_string(), text);
    assert!(o.get().equals(&map(vec![(s("a"), n(1))])));
}

#[test]
fn object_set_keeps_leading_comment_block_as_prefix() {
    let text = "# one\n\n# two\na: 1\nb: 2 # bee\n";
    let mut o = YamlObject::parse(text, identity).unwrap();
    o.set(map(vec![(s("a"), n(9)), (s("b"), n(2))]), encode_same).unwrap();
    let out = o.get_string();
    assert!(out.starts_with("# one\n\n# two\n"));
    assert!(out.contains("# bee"));
    assert!(out.contains("a: 9"));
    assert!(o.document().get().equals(&map(vec![(s("a"), n(9)), (s("b"), n(2))])));
}

#[test]
fn object_set_string_error_leaves_object() {
    let text = "a: 1\n";
    let mut o = YamlObject::parse(text, identity).unwrap();
    assert!(o.set_string("a: [1\n", identity).is_err());
    assert_eq!(o.get_string(), text);
    o.set_string("# new\nz: 0\n", identity).unwrap();
    assert_eq!(o.get_string(), "# new\nz: 0\n");
    assert!(o.get().equals(&map(vec![(s("z"), n(0))])));
}

// ── the documented examples ───────────────────────────────────────────────────

fn set_key(y: &mut Yaml, k: &str, v: Yaml) {
    match y {
        Yaml::Mapping(e) => {
            for entry in e.iter_mut() {
                if entry.0.as_str() == Some(k) {
                    entry.1 = v;
                    return;
                }
            }
            e.push((s(k), v));
        }
        _ => panic!("not a mapping"),
    }
}

#[test]
fn documented_value_example() {
    let mut doc = YamlValue::parse("# top\nname: web   # the service\nreplicas: 1\n").unwrap();
    let mut v = doc.get().clone();
    set_key(&mut v, "replicas", n(3));
    doc.set(v);
    let out = doc.get_string();
    assert!(out.contains("# the service"));
    assert!(out.contains("replicas: 3"));
    assert!(out.starts_with("# top\n"));
}

#[test]
fn documented_object_example() {
    let decode = |y: &Yaml| -> Result<u64, serde_norway::Error> {
        match y {
            Yaml::Mapping(e) => match e.iter().find(|(k, _)| k.as_str() == Some("replicas")) {
                Some((_, Yaml::Number(Num::PosInt(r)))) => Ok(*r),
                _ => Err(<serde_norway::Error as serde::de::Error>::custom("missing field `replicas`")),
            },
            _ => Err(<serde_norway::Error as serde::de::Error>::custom("expected a mapping")),
        }
    };
    let encode = |r: &u64| -> Result<Yaml, serde_norway::Error> { Ok(map(vec![(s("replicas"), n(*r))])) };
    let mut o = YamlObject::parse("# keep me\nreplicas: 1\n", decode).unwrap();
    assert_eq!(*o.get(), 1);
    o.set(3, encode).unwrap();
    assert!(o.get_string().contains("# keep me"));
    assert!(o.get_string().contains("replicas: 3"));
    assert_eq!(*o.get(), 3);
}

#[test]
fn documented_snapshot_example() {
    let mut doc = YamlValue::parse("version: \"3.9\"\nreplicas: 1   # how many\n").unwrap();
    doc.set(map(vec![(s("version"), s("3.9")), (s("replicas"), n(3))]));
    assert_eq!(doc.get_string(), "version: \"3.9\"\nreplicas: 3   # how many\n");
}

// ── the plans, applied ────────────────────────────────────────────────────────

fn apply_mapping_plan(old: &[(Yaml, Yaml)], new: &[(Yaml, Yaml)], plan: &[KeyEdit]) -> Vec<(Yaml, Yaml)> {
    let mut cur: Vec<(Yaml, Yaml)> = old.iter().filter(|(k, _)| k.as_str().is_some()).cloned().collect();
    for e in plan {
        match *e {
            KeyEdit::Remove(i) => cur.retain(|(k, _)| k.as_str() != old[i].0.as_str()),
            KeyEdit::Write(j) | KeyEdit::Descend(_, j) | KeyEdit::Reconcile(_, j) => {
                match cur.iter_mut().find(|(k, _)| k.as_str() == new[j].0.as_str()) {
                    Some(entry) => entry.1 = new[j].1.clone(),
                    None => cur.push(new[j].clone()),
                }
            }
        }
    }
    cur
}

#[test]
fn mapping_plan_applied_gives_the_new_mapping() {
    let old = entries(map(vec![
        (s("keep"), n(1)),
        (s("gone"), n(0)),
        (s("seq"), Yaml::Sequence(vec![n(1), n(2)])),
        (s("sub"), map(vec![(s("x"), n(1)), (s("y"), n(2))])),
        (s("kind"), n(2)),
    ]));
    let new = entries(map(vec![
        (s("added"), s("v")),
        (s("sub"), map(vec![(s("x"), n(5))])),
        (s("keep"), n(1)),
        (s("kind"), Yaml::Sequence(vec![])),
        (s("seq"), Yaml::Sequence(vec![n(2)])),
    ]));
    let plan = plan_mapping(&old, &new);
    let out = apply_mapping_plan(&old, &new, &plan);
    assert!(Yaml::Mapping(out).equals(&Yaml::Mapping(new)));
}

fn apply_sequence_plan(old: &[Yaml], new: &[Yaml], plan: &[SeqEdit]) -> Vec<Yaml> {
    let mut cur = old.to_vec();
    for e in plan {
        match *e {
            SeqEdit::SetAt(i) => cur[i] = new[i].clone(),
            SeqEdit::Push(i) => cur.push(new[i].clone()),
            SeqEdit::RemoveAt(i) => {
                cur.remove(i);
            }
        }
    }
    cur
}

#[test]
fn sequence_plan_applied_gives_the_new_sequence() {
    let cases = vec![
        (vec![n(1), n(2), n(3)], vec![n(1), s("two")]),
        (vec![s("a")], vec![s("b"), s("c"), Yaml::Bool(false)]),
        (vec![], vec![fl("0.5")]),
        (vec![n(4)], vec![]),
    ];
    for (old, new) in cases {
        let (plan, complete) = plan_sequence(&old, &new);
        assert!(complete);
        let out = apply_sequence_plan(&old, &new, &plan);
        assert!(Yaml::Sequence(out).equals(&Yaml::Sequence(new)));
    }
}

// ── texts that serde_norway reads but the edit tree refuses ───────────────────

#[test]
fn value_parse_edit_error() {
    let text = "a: [it's]\n";
    assert!(matches!(YamlValue::parse(text), Err(Error::Edit(_))));
    assert!(matches!(YamlObject::parse(text, identity), Err(Error::Edit(_))));
}

#[test]
fn value_set_string_edit_error_leaves_document() {
    let mut doc = YamlValue::parse("a: 1\n").unwrap();
    assert!(matches!(doc.set_string("a: [it's]\n"), Err(Error::Edit(_))));
    assert_eq!(doc.get_string(), "a: 1\n");
}

#[test]
fn object_set_equal_value_succeeds_and_keeps_text() {
    let text = "# c\nb: 2 # bee\na: 1\n";
    let mut o = YamlObject::parse(text, identity).unwrap();
    assert!(o.set(map(vec![(s("a"), n(1)), (s("b"), n(2))]), encode_same).is_ok());
    assert_eq!(o.get_string(), text);
}

#[test]
fn object_set_nested_sequence_of_mappings_is_value_correct() {
    let mut o = YamlObject::parse("xs:\n  - {k: 1}\n  - 2\nname: n # keep\n", identity).unwrap();
    let target = map(vec![
        (s("xs"), Yaml::Sequence(vec![map(vec![(s("k"), n(1))]), n(3), map(vec![(s("z"), n(0))])])),
        (s("name"), s("n")),
    ]);
    o.set(target.clone(), encode_same).unwrap();
    assert!(YamlValue::parse(o.get_string()).unwrap().get().equals(&target));
}
