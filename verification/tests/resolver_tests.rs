use pdf_inspect::MapResolver;
use pdf_inspect::Node;
use pdf_inspect::RefId;
use pdf_inspect::ResolveError;
use pdf_inspect::Resolver;

#[test]
fn missing_reference_is_not_found() {
    let resolver = MapResolver::new();
    let r = RefId { id: 1, gen: 0 };
    assert_eq!(resolver.resolve(r), Err(ResolveError::NotFound));
}

#[test]
fn inserted_reference_resolves_to_its_node() {
    let mut resolver = MapResolver::new();
    let r = RefId { id: 1, gen: 2 };
    resolver.insert(r, Node::Int(42));
    assert_eq!(resolver.resolve(r), Ok(Node::Int(42)));
}

#[test]
fn generation_number_tells_references_apart() {
    let mut resolver = MapResolver::new();
    resolver.insert(RefId { id: 1, gen: 0 }, Node::Int(1));
    assert_eq!(
        resolver.resolve(RefId { id: 1, gen: 1 }),
        Err(ResolveError::NotFound)
    );
}

#[test]
fn later_insert_replaces_earlier_binding() {
    let mut resolver = MapResolver::new();
    let r = RefId { id: 7, gen: 0 };
    resolver.insert(r, Node::Int(1));
    resolver.insert(r, Node::Int(2));
    assert_eq!(resolver.resolve(r), Ok(Node::Int(2)));
}

#[test]
fn resolution_copies_the_whole_node() {
    let mut resolver = MapResolver::new();
    let r = RefId { id: 3, gen: 0 };
    let node = Node::Array(vec![
        Node::Text("hello".to_string()),
        Node::Dictionary(pdf_inspect::Dict {
            entries: vec![("k".to_string(), Node::Bool(true))],
        }),
    ]);
    resolver.insert(r, node);
    let expected = Node::Array(vec![
        Node::Text("hello".to_string()),
        Node::Dictionary(pdf_inspect::Dict {
            entries: vec![("k".to_string(), Node::Bool(true))],
        }),
    ]);
    assert_eq!(resolver.resolve(r), Ok(expected));
}
