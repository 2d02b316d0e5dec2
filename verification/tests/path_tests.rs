use pdf_inspect::PathElem;
use pdf_inspect::path_to_string;

fn d(key: &str) -> PathElem {
    PathElem::DictElem { key: key.to_string() }
}

fn a(index: usize) -> PathElem {
    PathElem::ArrayElem { index }
}

#[test]
fn empty_path_renders_empty() {
    assert_eq!(path_to_string(&vec![]), "");
}

#[test]
fn dictionary_steps_render_with_arrows() {
    assert_eq!(path_to_string(&vec![d("Root"), d("Pages")]), "->Root->Pages");
}

#[test]
fn array_steps_render_with_brackets() {
    assert_eq!(
        path_to_string(&vec![d("b"), a(12), d("target")]),
        "->b[12]->target"
    );
}

#[test]
fn indexes_render_in_decimal() {
    assert_eq!(path_to_string(&vec![a(0)]), "[0]");
    assert_eq!(path_to_string(&vec![a(9)]), "[9]");
    assert_eq!(path_to_string(&vec![a(10)]), "[10]");
    assert_eq!(path_to_string(&vec![a(105)]), "[105]");
    assert_eq!(path_to_string(&vec![a(98765)]), "[98765]");
    assert_eq!(path_to_string(&vec![a(4294967295)]), "[4294967295]");
}
