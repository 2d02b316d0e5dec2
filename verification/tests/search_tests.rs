use pdf_inspect::Dict;
use pdf_inspect::MapResolver;
use pdf_inspect::Node;
use pdf_inspect::PathElem;
use pdf_inspect::RefId;
use pdf_inspect::SearchPath;
use pdf_inspect::StreamNode;
use pdf_inspect::search;
use pdf_inspect::search_key;
use pdf_inspect::Resolver;
use pdf_inspect::node::clone_node;

fn dict(pairs: Vec<(&str, Node)>) -> Dict {
    Dict { entries: pairs.into_iter().map(|(k, v)| (k.to_string(), v)).collect() }
}

fn dict_node(pairs: Vec<(&str, Node)>) -> Node {
    Node::Dictionary(dict(pairs))
}

fn d(key: &str) -> PathElem {
    PathElem::DictElem { key: key.to_string() }
}

fn a(index: usize) -> PathElem {
    PathElem::ArrayElem { index }
}

#[test]
fn empty_document_yields_nothing() {
    let root = dict(vec![]);
    let resolver = MapResolver::new();
    let paths = search(&root, &resolver, "x");
    assert_eq!(paths, Vec::<SearchPath>::new());
}

#[test]
fn empty_key_yields_nothing() {
    let root = dict(vec![("x", Node::Int(1)), ("y", Node::Int(2))]);
    let resolver = MapResolver::new();
    let paths = search(&root, &resolver, "");
    assert_eq!(paths, Vec::<SearchPath>::new());
}

#[test]
fn empty_key_does_not_match_empty_keyed_entry() {
    let root = dict(vec![("", Node::Int(1))]);
    let resolver = MapResolver::new();
    let paths = search(&root, &resolver, "");
    assert_eq!(paths, Vec::<SearchPath>::new());
}

#[test]
fn multiple_matches_in_nested_dictionaries() {
    let root = dict(vec![
        ("x", Node::Int(1)),
        ("nested", dict_node(vec![("x", Node::Int(2))])),
    ]);
    let resolver = MapResolver::new();
    let paths = search(&root, &resolver, "x");
    assert_eq!(paths, vec![vec![d("x")], vec![d("nested"), d("x")]]);
}

#[test]
fn match_is_still_descended_into() {
    let root = dict(vec![("x", dict_node(vec![("x", Node::Int(1))]))]);
    let resolver = MapResolver::new();
    let paths = search(&root, &resolver, "x");
    assert_eq!(paths, vec![vec![d("x")], vec![d("x"), d("x")]]);
}

#[test]
fn array_elements_indexed_in_order() {
    let root = dict(vec![(
        "items",
        Node::Array(vec![
            dict_node(vec![("target", Node::Int(1))]),
            dict_node(vec![("other", Node::Int(2))]),
            dict_node(vec![("target", Node::Int(3))]),
        ]),
    )]);
    let resolver = MapResolver::new();
    let paths = search(&root, &resolver, "target");
    assert_eq!(
        paths,
        vec![
            vec![d("items"), a(0), d("target")],
            vec![d("items"), a(2), d("target")],
        ]
    );
}

#[test]
fn resolution_failure_only_ends_its_branch() {
    let missing = RefId { id: 9, gen: 0 };
    let root = dict(vec![
        ("a", Node::Reference(missing)),
        ("b", dict_node(vec![("target", Node::Int(1))])),
    ]);
    let resolver = MapResolver::new();
    let paths = search(&root, &resolver, "target");
    assert_eq!(paths, vec![vec![d("b"), d("target")]]);
}

#[test]
fn reference_adds_no_step() {
    let obj = RefId { id: 1, gen: 0 };
    let mut resolver = MapResolver::new();
    resolver.insert(obj, dict_node(vec![("target", Node::Int(5))]));
    let root = dict(vec![("r", Node::Reference(obj))]);
    let paths = search(&root, &resolver, "target");
    assert_eq!(paths, vec![vec![d("r"), d("target")]]);
}

#[test]
fn cyclic_references_terminate() {
    let obj_a = RefId { id: 1, gen: 0 };
    let obj_b = RefId { id: 2, gen: 0 };
    let mut resolver = MapResolver::new();
    resolver.insert(
        obj_a,
        dict_node(vec![("x", Node::Int(1)), ("b", Node::Reference(obj_b))]),
    );
    resolver.insert(
        obj_b,
        dict_node(vec![("a", Node::Reference(obj_a)), ("x", Node::Int(2))]),
    );
    let root = dict(vec![("start", Node::Reference(obj_a))]);
    let paths = search(&root, &resolver, "x");
    assert_eq!(
        paths,
        vec![vec![d("start"), d("x")], vec![d("start"), d("b"), d("x")]]
    );
}

#[test]
fn stream_metadata_is_searched() {
    let root = dict(vec![(
        "s",
        Node::Stream(StreamNode {
            info: dict(vec![("target", Node::Bool(true))]),
            data: vec![1, 2, 3],
        }),
    )]);
    let resolver = MapResolver::new();
    let paths = search(&root, &resolver, "target");
    assert_eq!(paths, vec![vec![d("s"), d("target")]]);
}

#[test]
fn scalars_are_leaves() {
    let root = dict(vec![
        ("a", Node::Null),
        ("b", Node::Real),
        ("c", Node::Text("target".to_string())),
        ("d", Node::Name("target".to_string())),
        ("e", Node::Int(7)),
        ("f", Node::Bool(false)),
    ]);
    let resolver = MapResolver::new();
    let paths = search(&root, &resolver, "target");
    assert_eq!(paths, Vec::<SearchPath>::new());
}

#[test]
fn repeated_searches_agree() {
    let obj = RefId { id: 3, gen: 1 };
    let mut resolver = MapResolver::new();
    resolver.insert(obj, dict_node(vec![("k", Node::Int(1))]));
    let root = dict(vec![
        ("k", Node::Int(0)),
        ("r", Node::Reference(obj)),
        ("arr", Node::Array(vec![dict_node(vec![("k", Node::Int(2))])])),
    ]);
    let first = search(&root, &resolver, "k");
    let second = search(&root, &resolver, "k");
    assert_eq!(first, second);
    assert_eq!(
        first,
        vec![
            vec![d("k")],
            vec![d("r"), d("k")],
            vec![d("arr"), a(0), d("k")],
        ]
    );
}

/// Replays one path from the root by hand: descends dictionary
/// entries and array elements as the steps say, resolving references
/// through the resolver, and reports the key carried by the last
/// step's dictionary.
fn replay(root: &Dict, resolver: &MapResolver, path: &[PathElem]) -> Option<String> {
    let mut node = Node::Dictionary(Dict {
        entries: root
            .entries
            .iter()
            .map(|(k, v)| (k.clone(), clone_node(v)))
            .collect(),
    });
    for (pos, step) in path.iter().enumerate() {
        loop {
            node = match node {
                Node::Reference(r) => resolver.resolve(r).ok()?,
                other => {
                    node = other;
                    break;
                }
            };
        }
        let last = pos + 1 == path.len();
        match step {
            PathElem::DictElem { key } => {
                let entries = match &node {
                    Node::Dictionary(d) => &d.entries,
                    Node::Stream(s) => &s.info.entries,
                    _ => return None,
                };
                let (k, v) = entries.iter().find(|(k, _)| k == key)?;
                if last {
                    return Some(k.clone());
                }
                node = clone_node(v);
            }
            PathElem::ArrayElem { index } => {
                let items = match &node {
                    Node::Array(items) => items,
                    _ => return None,
                };
                if last {
                    return None;
                }
                node = clone_node(items.get(*index)?);
            }
        }
    }
    None
}

#[test]
fn every_reported_path_replays_to_the_key() {
    let obj = RefId { id: 4, gen: 0 };
    let mut resolver = MapResolver::new();
    resolver.insert(obj, dict_node(vec![("x", Node::Int(3))]));
    let root = dict(vec![
        ("x", Node::Int(1)),
        ("nested", dict_node(vec![("x", Node::Int(2))])),
        ("r", Node::Reference(obj)),
        ("arr", Node::Array(vec![dict_node(vec![("x", Node::Int(4))])])),
    ]);
    let paths = search(&root, &resolver, "x");
    assert_eq!(paths.len(), 4);
    for path in &paths {
        assert_eq!(replay(&root, &resolver, path), Some("x".to_string()));
    }
}

#[test]
fn search_key_starts_from_any_node() {
    let obj = RefId { id: 8, gen: 0 };
    let mut resolver = MapResolver::new();
    resolver.insert(obj, dict_node(vec![("target", Node::Int(1))]));
    let from_reference = search_key(&Node::Reference(obj), &resolver, "target");
    assert_eq!(from_reference, vec![vec![d("target")]]);
    let from_scalar = search_key(&Node::Int(3), &resolver, "target");
    assert_eq!(from_scalar, Vec::<SearchPath>::new());
}
