use yamldiff::access::KeyPathFuncs;
use yamldiff::diff::{DiffRecord, DiffStats, diff_docs};
use yamldiff::index::RenameEntry;
use yamldiff::node::{MapEntry, Node, node_eq};
use yamldiff::re::CompiledRegex;
use yamldiff::strategy::{
    DocumentFilterRule, DocumentFilterSpec, Filter, PathFilterRule, PathFilterSpec,
    PropertySelect, ReplaceTransform, Strategy, Transform, TransformSpec, YamlValue,
};

fn entry(key: &str, value: Node) -> MapEntry {
    MapEntry { key: key.to_string(), value }
}

fn hash(entries: Vec<MapEntry>) -> Node {
    Node::Hash(entries)
}

fn text(s: &str) -> Node {
    Node::Str(s.to_string())
}

/// A small versioned-kind document: apiVersion, kind, metadata.name and
/// one spec field.
fn k8s_doc(kind: &str, name: &str, replicas: i64) -> Node {
    hash(vec![
        entry("apiVersion", text("v1")),
        entry("kind", text(kind)),
        entry(
            "metadata",
            hash(vec![entry("name", text(name))]),
        ),
        entry("spec", hash(vec![entry("replicas", Node::Int(replicas))])),
    ])
}

fn rule_with_replace(r: ReplaceTransform) -> TransformSpec {
    let mut t = TransformSpec::new();
    t.replace.push(r);
    t
}

#[test]
fn test_index_equality_no_diffs() {
    // {a: {b: {c: [{d: 1}]}}} against an identical structure
    let make = || {
        hash(vec![entry(
            "a",
            hash(vec![entry(
                "b",
                hash(vec![entry(
                    "c",
                    Node::Array(vec![hash(vec![entry("d", Node::Int(1))])]),
                )]),
            )]),
        )])
    };
    let diffs = diff_docs(false, &None, &vec![], &vec![], vec![make()], vec![make()]).unwrap();
    assert_eq!(0, diffs.len());
}

#[test]
fn test_array_padding_adds_tail_element() {
    let a = hash(vec![entry("x", Node::Array(vec![Node::Int(1), Node::Int(2)]))]);
    let b = hash(vec![entry(
        "x",
        Node::Array(vec![Node::Int(1), Node::Int(2), Node::Int(3)]),
    )]);
    let diffs = diff_docs(false, &None, &vec![], &vec![], vec![a], vec![b]).unwrap();
    assert_eq!(1, diffs.len());
    match &diffs[0] {
        DiffRecord::Added { path, value, .. } => {
            assert_eq!("x[2]", path.to_text());
            assert!(node_eq(value, &Node::Int(3)));
        },
        other => panic!("unexpected record {:?}", kind_of(other)),
    }
}

fn kind_of(r: &DiffRecord) -> &'static str {
    match r {
        DiffRecord::Added { .. } => "added",
        DiffRecord::Removed { .. } => "removed",
        DiffRecord::Changed { .. } => "changed",
    }
}

#[test]
fn test_rename_normalization_no_diffs() {
    // a regex replace on the original side turns vault1 into vault2
    let strategy = Some(Strategy {
        transform: Some(Transform {
            original: vec![rule_with_replace(
                ReplaceTransform::regex("metadata.name", "vault1", "vault2").unwrap(),
            )],
            modified: vec![],
            both: vec![],
        }),
        filter: None,
    });
    let a = k8s_doc("Deployment", "vault1", 2);
    let b = k8s_doc("Deployment", "vault2", 2);
    let diffs = diff_docs(false, &strategy, &vec![], &vec![], vec![a], vec![b]).unwrap();
    assert_eq!(0, diffs.len());
}

#[test]
fn test_value_replace_applies_only_on_match() {
    let strategy = Some(Strategy {
        transform: Some(Transform {
            original: vec![rule_with_replace(ReplaceTransform::value(
                "spec.replicas",
                YamlValue::Int(2),
                Some(YamlValue::Int(5)),
            ))],
            modified: vec![],
            both: vec![],
        }),
        filter: None,
    });
    let a = k8s_doc("Deployment", "web", 2);
    let b = k8s_doc("Deployment", "web", 5);
    let diffs = diff_docs(false, &strategy, &vec![], &vec![], vec![a], vec![b]).unwrap();
    assert_eq!(0, diffs.len());
}

#[test]
fn test_path_filter_restricts_diffs() {
    // two structurally different documents; only metadata.name survives
    let strategy = Some(Strategy {
        transform: None,
        filter: Some(Filter {
            path: Some(PathFilterSpec {
                retain: vec![PathFilterRule::regex("^metadata\\.name$").unwrap()],
                exclude: vec![],
            }),
            document: None,
        }),
    });
    let a = k8s_doc("Deployment", "vault1", 2);
    let b = k8s_doc("Deployment", "vault2", 7);
    let diffs = diff_docs(false, &strategy, &vec![], &vec![], vec![a], vec![b]).unwrap();
    assert_eq!(1, diffs.len());
    match &diffs[0] {
        DiffRecord::Changed { path, original, modified, .. } => {
            assert_eq!("metadata.name", path.to_text());
            assert!(node_eq(original, &text("vault1")));
            assert!(node_eq(modified, &text("vault2")));
        },
        other => panic!("unexpected record {:?}", kind_of(other)),
    }
}

#[test]
fn test_exclude_filter_vetoes_retained_path() {
    let strategy = Some(Strategy {
        transform: None,
        filter: Some(Filter {
            path: Some(PathFilterSpec {
                retain: vec![PathFilterRule::regex("^metadata").unwrap()],
                exclude: vec![PathFilterRule::name("metadata.name")],
            }),
            document: None,
        }),
    });
    let a = k8s_doc("Deployment", "vault1", 2);
    let b = k8s_doc("Deployment", "vault2", 7);
    let diffs = diff_docs(false, &strategy, &vec![], &vec![], vec![a], vec![b]).unwrap();
    assert_eq!(0, diffs.len());
}

#[test]
fn test_extra_exclude_patterns_compose() {
    let excludes = vec![CompiledRegex::compile("replicas").unwrap()];
    let a = k8s_doc("Deployment", "web", 2);
    let b = k8s_doc("Deployment", "web", 7);
    let diffs = diff_docs(false, &None, &excludes, &vec![], vec![a], vec![b]).unwrap();
    assert_eq!(0, diffs.len());
}

#[test]
fn test_document_filter_selects_kind() {
    let strategy = Some(Strategy {
        transform: None,
        filter: Some(Filter {
            path: None,
            document: Some(DocumentFilterSpec {
                retain: vec![DocumentFilterRule {
                    select: vec![PropertySelect::value(
                        "kind",
                        YamlValue::Str("ServiceAccount".to_string()),
                    )],
                }],
                exclude: vec![],
            }),
        }),
    });
    // the Deployment pair differs, but only ServiceAccount documents are kept
    let a = vec![k8s_doc("Deployment", "web", 2), k8s_doc("ServiceAccount", "sa", 1)];
    let b = vec![k8s_doc("Deployment", "web", 7), k8s_doc("ServiceAccount", "sa", 1)];
    let diffs = diff_docs(true, &strategy, &vec![], &vec![], a, b).unwrap();
    assert_eq!(0, diffs.len());
}

#[test]
fn test_k8s_unmatched_documents() {
    let a = vec![k8s_doc("Deployment", "old", 2)];
    let b = vec![k8s_doc("Deployment", "new", 2)];
    let diffs = diff_docs(true, &None, &vec![], &vec![], a, b).unwrap();
    // an unmatched document surfaces once per leaf field
    let stats = DiffStats::from(&diffs);
    assert_eq!(8, stats.total);
    assert_eq!(4, stats.additions);
    assert_eq!(4, stats.removals);
    assert_eq!(0, stats.changes);
}

#[test]
fn test_rename_table_pairs_documents() {
    let renames = vec![RenameEntry {
        api_version: "v1".to_string(),
        kind: "Deployment".to_string(),
        field: "name".to_string(),
        from: "vault1".to_string(),
        to: "vault2".to_string(),
    }];
    let a = vec![k8s_doc("Deployment", "vault1", 2)];
    let b = vec![k8s_doc("Deployment", "vault2", 2)];
    let diffs = diff_docs(true, &None, &vec![], &renames, a, b).unwrap();
    assert_eq!(0, diffs.len());
}

#[test]
fn test_unknown_rename_field_is_fatal() {
    let renames = vec![RenameEntry {
        api_version: "v1".to_string(),
        kind: "Deployment".to_string(),
        field: "namespace".to_string(),
        from: "a".to_string(),
        to: "b".to_string(),
    }];
    let result = yamldiff::index::validate_renames(&renames);
    assert!(result.is_err());
    if let Err(e) = result {
        assert_eq!(
            "Unknown field 'namespace' not found in rename directive",
            e.message()
        );
    }
}

#[test]
fn test_missing_identity_field_is_fatal() {
    let doc = hash(vec![entry("apiVersion", text("v1"))]);
    let err = diff_docs(true, &None, &vec![], &vec![], vec![doc], vec![]).unwrap_err();
    assert_eq!("key 'kind' not found in YAML document, or is wrong type", err.error.message());
    assert_eq!(0, err.index);
}

#[test]
fn test_bad_pattern_is_fatal_at_load() {
    let result = CompiledRegex::compile("(unclosed");
    assert!(result.is_err());
    if let Err(e) = result {
        assert_eq!("invalid regular expression '(unclosed'", e.message());
    }
    assert!(PathFilterRule::regex("(").is_err());
    assert!(PropertySelect::regex("kind", "[").is_err());
}

#[test]
fn test_regex_select_matches_strings_only() {
    let sel = PropertySelect::regex("kind", "^Dep").unwrap();
    assert!(sel.accept(&k8s_doc("Deployment", "web", 1)));
    assert!(!sel.accept(&k8s_doc("Service", "web", 1)));
    // a regex never matches a non-string value
    let sel_int = PropertySelect::regex("spec.replicas", "1").unwrap();
    assert!(!sel_int.accept(&k8s_doc("Deployment", "web", 1)));
}

#[test]
fn test_type_mismatch_surfaces_both_sides() {
    // a scalar against a sequence: the elements appear as additions and
    // the scalar as a removal
    let a = hash(vec![entry("x", Node::Int(9))]);
    let b = hash(vec![entry("x", Node::Array(vec![Node::Int(1)]))]);
    let diffs = diff_docs(false, &None, &vec![], &vec![], vec![a], vec![b]).unwrap();
    let stats = DiffStats::from(&diffs);
    assert_eq!(2, stats.total);
    assert_eq!(1, stats.additions);
    assert_eq!(1, stats.removals);
}

#[test]
fn test_int_and_real_never_equal() {
    let a = hash(vec![entry("x", Node::Int(1))]);
    let b = hash(vec![entry("x", Node::Real("1.0".to_string()))]);
    let diffs = diff_docs(false, &None, &vec![], &vec![], vec![a], vec![b]).unwrap();
    assert_eq!(1, diffs.len());
}

#[test]
fn test_drop_rule_nulls_document() {
    let mut drop_rule = TransformSpec::new();
    drop_rule.drop = true;
    drop_rule.select.push(PropertySelect::value(
        "kind",
        YamlValue::Str("Secret".to_string()),
    ));
    let strategy = Some(Strategy {
        transform: Some(Transform { original: vec![], modified: vec![], both: vec![drop_rule] }),
        filter: None,
    });
    let a = vec![k8s_doc("Secret", "s1", 1)];
    let b = vec![k8s_doc("Secret", "s2", 2)];
    // both documents become null, so nothing differs
    let diffs = diff_docs(false, &strategy, &vec![], &vec![], a, b).unwrap();
    assert_eq!(0, diffs.len());
}

#[test]
fn test_set_rule_writes_both_sides() {
    let mut rule = TransformSpec::new();
    rule.set.push(yamldiff::strategy::YamlPathAndValue::new(
        "metadata.namespace",
        YamlValue::Str("production".to_string()),
    ));
    let strategy = Some(Strategy {
        transform: Some(Transform { original: vec![rule], modified: vec![], both: vec![] }),
        filter: None,
    });
    let a = vec![k8s_doc("Deployment", "web", 1)];
    let mut bdoc = k8s_doc("Deployment", "web", 1);
    bdoc.set_at_path(
        &yamldiff::keypath::KeyPath::parse("metadata.namespace"),
        text("production"),
    )
    .unwrap();
    let diffs = diff_docs(false, &strategy, &vec![], &vec![], a, vec![bdoc]).unwrap();
    assert_eq!(0, diffs.len());
}
