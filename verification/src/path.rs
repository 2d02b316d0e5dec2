//! Paths: ordered descent descriptions from the root to a matched
//! dictionary entry, and their rendering as text.

use vstd::prelude::*;

verus! {

/// One step of a path: descend into the dictionary entry named `key`,
/// or into the array element at `index`.
#[derive(PartialEq, Eq, Debug)]
pub enum PathElem {
    DictElem { key: String },
    ArrayElem { index: usize },
}

/// A path: the ordered sequence of steps that leads from the root to
/// the dictionary entry that satisfied the search.
pub type SearchPath = Vec<PathElem>;

/// The mathematical form of a step, over character sequences and
/// unbounded integers.
pub enum SpecElem {
    DictElem { key: Seq<char> },
    ArrayElem { index: int },
}

/// The mathematical form of one executable step.
pub open spec fn elem_view(e: PathElem) -> SpecElem {
    match e {
        PathElem::DictElem { key } => SpecElem::DictElem { key: key@ },
        PathElem::ArrayElem { index } => SpecElem::ArrayElem { index: index as int },
    }
}

/// The mathematical form of a whole path.
pub open spec fn path_view(p: Seq<PathElem>) -> Seq<SpecElem> {
    p.map_values(|e: PathElem| elem_view(e))
}

/// The mathematical form of a list of paths.
pub open spec fn paths_view(ps: Seq<SearchPath>) -> Seq<Seq<SpecElem>> {
    ps.map_values(|p: SearchPath| path_view(p@))
}

pub broadcast proof fn lemma_path_view_push(p: Seq<PathElem>, e: PathElem)
    ensures
        #[trigger] path_view(p.push(e)) == path_view(p).push(elem_view(e)),
{
    assert(path_view(p.push(e)) =~= path_view(p).push(elem_view(e)));
}

pub broadcast proof fn lemma_paths_view_push(ps: Seq<SearchPath>, p: SearchPath)
    ensures
        #[trigger] paths_view(ps.push(p)) == paths_view(ps).push(path_view(p@)),
{
    assert(paths_view(ps.push(p)) =~= paths_view(ps).push(path_view(p@)));
}

pub broadcast proof fn lemma_paths_view_add(ps: Seq<SearchPath>, qs: Seq<SearchPath>)
    ensures
        #[trigger] paths_view(ps + qs) == paths_view(ps) + paths_view(qs),
{
    assert(paths_view(ps + qs) =~= paths_view(ps) + paths_view(qs));
}

/// Copies one step.
pub fn clone_elem(e: &PathElem) -> (r: PathElem)
    ensures
        r == *e,
{
    match e {
        PathElem::DictElem { key } => PathElem::DictElem { key: key.clone() },
        PathElem::ArrayElem { index } => PathElem::ArrayElem { index: *index },
    }
}

/// Copies a whole path.
pub fn clone_path(p: &SearchPath) -> (r: SearchPath)
    ensures
        r@ == p@,
{
    let mut r: SearchPath = Vec::new();
    let mut i: usize = 0;
    while i < p.len()
        invariant
            0 <= i <= p.len(),
            r@ =~= p@.subrange(0, i as int),
        decreases p.len() - i,
    {
        r.push(clone_elem(&p[i]));
        i = i + 1;
    }
    assert(r@ =~= p@);
    r
}

/// The character standing for one decimal digit.
pub open spec fn digit_char(d: int) -> char {
    if d == 0 {
        '0'
    } else if d == 1 {
        '1'
    } else if d == 2 {
        '2'
    } else if d == 3 {
        '3'
    } else if d == 4 {
        '4'
    } else if d == 5 {
        '5'
    } else if d == 6 {
        '6'
    } else if d == 7 {
        '7'
    } else if d == 8 {
        '8'
    } else {
        '9'
    }
}

/// The decimal rendering of a non-negative integer, most significant
/// digit first.
pub open spec fn spec_decimal(n: nat) -> Seq<char>
    decreases n,
{
    if n < 10 {
        seq![digit_char(n as int)]
    } else {
        spec_decimal(n / 10).push(digit_char((n % 10) as int))
    }
}

/// Appends one decimal digit (0 to 9) to a string.
fn push_digit(s: &mut String, d: usize)
    requires
        d < 10,
    ensures
        final(s)@ == old(s)@ + seq![digit_char(d as int)],
{
    if d == 0 {
        proof {
            reveal_strlit("0");
        }
        s.append("0");
        assert(final(s)@ =~= old(s)@ + seq![digit_char(d as int)]);
    } else if d == 1 {
        proof {
            reveal_strlit("1");
        }
        s.append("1");
        assert(final(s)@ =~= old(s)@ + seq![digit_char(d as int)]);
    } else if d == 2 {
        proof {
            reveal_strlit("2");
        }
        s.append("2");
        assert(final(s)@ =~= old(s)@ + seq![digit_char(d as int)]);
    } else if d == 3 {
        proof {
            reveal_strlit("3");
        }
        s.append("3");
        assert(final(s)@ =~= old(s)@ + seq![digit_char(d as int)]);
    } else if d == 4 {
        proof {
            reveal_strlit("4");
        }
        s.append("4");
        assert(final(s)@ =~= old(s)@ + seq![digit_char(d as int)]);
    } else if d == 5 {
        proof {
            reveal_strlit("5");
        }
        s.append("5");
        assert(final(s)@ =~= old(s)@ + seq![digit_char(d as int)]);
    } else if d == 6 {
        proof {
            reveal_strlit("6");
        }
        s.append("6");
        assert(final(s)@ =~= old(s)@ + seq![digit_char(d as int)]);
    } else if d == 7 {
        proof {
            reveal_strlit("7");
        }
        s.append("7");
        assert(final(s)@ =~= old(s)@ + seq![digit_char(d as int)]);
    } else if d == 8 {
        proof {
            reveal_strlit("8");
        }
        s.append("8");
        assert(final(s)@ =~= old(s)@ + seq![digit_char(d as int)]);
    } else {
        proof {
            reveal_strlit("9");
        }
        s.append("9");
        assert(final(s)@ =~= old(s)@ + seq![digit_char(d as int)]);
    }
}

/// Appends the decimal rendering of `n` to a string.
fn push_decimal(s: &mut String, n: usize)
    ensures
        final(s)@ == old(s)@ + spec_decimal(n as nat),
    decreases n,
{
    if n < 10 {
        push_digit(s, n);
    } else {
        push_decimal(s, n / 10);
        push_digit(s, n % 10);
        assert(final(s)@ =~= old(s)@ + spec_decimal(n as nat));
    }
}

/// The text standing for one step: `->key` for a dictionary step,
/// `[index]` for an array step.
pub open spec fn spec_elem_text(e: PathElem) -> Seq<char> {
    match e {
        PathElem::DictElem { key } => seq!['-', '>'] + key@,
        PathElem::ArrayElem { index } => seq!['['] + spec_decimal(index as nat) + seq![']'],
    }
}

/// The text standing for a whole path: the texts of its steps in
/// order.
pub open spec fn spec_path_text(p: Seq<PathElem>) -> Seq<char>
    decreases p.len(),
{
    if p.len() == 0 {
        Seq::empty()
    } else {
        spec_elem_text(p[0]) + spec_path_text(p.drop_first())
    }
}

proof fn lemma_path_text_snoc(p: Seq<PathElem>, e: PathElem)
    ensures
        spec_path_text(p.push(e)) == spec_path_text(p) + spec_elem_text(e),
    decreases p.len(),
{
    if p.len() == 0 {
        assert(p.push(e).drop_first() =~= p);
        assert(spec_path_text(p.push(e)) =~= spec_path_text(p) + spec_elem_text(e));
    } else {
        assert(p.push(e).drop_first() =~= p.drop_first().push(e));
        lemma_path_text_snoc(p.drop_first(), e);
        assert(spec_path_text(p.push(e)) =~= spec_path_text(p) + spec_elem_text(e));
    }
}

/// Renders a path as text, one step after the other.
pub fn path_to_string(path: &SearchPath) -> (r: String)
    ensures
        r@ == spec_path_text(path@),
{
    let mut r = String::new();
    let mut i: usize = 0;
    while i < path.len()
        invariant
            0 <= i <= path.len(),
            r@ == spec_path_text(path@.subrange(0, i as int)),
        decreases path.len() - i,
    {
        let ghost done = path@.subrange(0, i as int);
        match &path[i] {
            PathElem::DictElem { key } => {
                proof {
                    reveal_strlit("->");
                }
                r.append("->");
                r.append(key.as_str());
                assert(r@ =~= spec_path_text(done) + spec_elem_text(path@[i as int]));
            },
            PathElem::ArrayElem { index } => {
                proof {
                    reveal_strlit("[");
                    reveal_strlit("]");
                }
                r.append("[");
                push_decimal(&mut r, *index);
                r.append("]");
                assert(r@ =~= spec_path_text(done) + spec_elem_text(path@[i as int]));
            },
        }
        proof {
            lemma_path_text_snoc(done, path@[i as int]);
            assert(done.push(path@[i as int]) =~= path@.subrange(0, i as int + 1));
        }
        i = i + 1;
    }
    assert(path@.subrange(0, path@.len() as int) =~= path@);
    r
}

} // verus!
