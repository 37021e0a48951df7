//! How scanning a concatenation `a + b` relates to scanning `a` and `b`:
//! bounds on the positions that the scanner returns, the suffix `b` scanned
//! at an offset, and a prefix `a` that ends with a line feed.
use vstd::prelude::*;
use crate::grammar::{
    Span, NodeModel, is_space, ends_token, skip_space, skip_digits, skip_line,
    unsigned_end, literal_end, is_terminator, is_cnf, declaration_at, clause_from, nodes_from,
    document_nodes,
};

verus! {

pub open spec fn shift_span(sp: Span, d: int) -> Span {
    Span { start: (sp.start + d) as usize, end: (sp.end + d) as usize }
}

pub open spec fn shift_spans(l: Seq<Span>, d: int) -> Seq<Span> {
    l.map_values(|sp: Span| shift_span(sp, d))
}

pub open spec fn shift_node(n: NodeModel, d: int) -> NodeModel {
    match n {
        NodeModel::Declaration { vars, clauses } => NodeModel::Declaration {
            vars: shift_span(vars, d),
            clauses: shift_span(clauses, d),
        },
        NodeModel::Clause { literals } => NodeModel::Clause { literals: shift_spans(literals, d) },
    }
}

pub open spec fn shift_nodes(ns: Seq<NodeModel>, d: int) -> Seq<NodeModel> {
    ns.map_values(|n: NodeModel| shift_node(n, d))
}

/// The nodes `acc` followed by the nodes of `r` moved by `d` positions.
pub open spec fn lift_nodes(r: Result<Seq<NodeModel>, int>, acc: Seq<NodeModel>, d: int) -> Result<Seq<NodeModel>, int> {
    match r {
        Ok(ns) => Ok(acc + shift_nodes(ns, d)),
        Err(q) => Err(q + d),
    }
}

pub open spec fn span_within(sp: Span, n: int) -> bool {
    sp.start < sp.end <= n
}

pub open spec fn node_within(nd: NodeModel, n: int) -> bool {
    match nd {
        NodeModel::Declaration { vars, clauses } => span_within(vars, n) && span_within(clauses, n),
        NodeModel::Clause { literals } => forall|m: int|
            0 <= m < literals.len() ==> span_within(#[trigger] literals[m], n),
    }
}

pub proof fn lemma_skip_bounds(s: Seq<char>, i: int)
    requires
        0 <= i <= s.len(),
    ensures
        i <= skip_space(s, i) <= s.len(),
        i <= skip_digits(s, i) <= s.len(),
        i <= skip_line(s, i) <= s.len(),
    decreases s.len() - i,
{
    if i < s.len() {
        lemma_skip_bounds(s, i + 1);
    }
}

pub proof fn lemma_token_bounds(s: Seq<char>, i: int)
    requires
        0 <= i <= s.len(),
    ensures
        unsigned_end(s, i) matches Some(e) ==> i < e <= s.len(),
        literal_end(s, i) matches Some(e) ==> i < e <= s.len(),
{
    lemma_skip_bounds(s, i);
    if i < s.len() {
        lemma_skip_bounds(s, i + 1);
    }
    if i + 1 < s.len() {
        lemma_skip_bounds(s, i + 2);
    }
}

pub proof fn lemma_declaration_bounds(s: Seq<char>, j: int)
    requires
        0 <= j < s.len(),
        s.len() <= usize::MAX,
    ensures
        declaration_at(s, j) matches Ok((n, k)) ==> j < k <= s.len() && node_within(n, s.len() as int),
{
    if ends_token(s, j + 1) {
        let a = skip_space(s, j + 1);
        if j + 1 <= s.len() {
            lemma_skip_bounds(s, j + 1);
        }
        if is_cnf(s, a) {
            let b = skip_space(s, a + 3);
            lemma_skip_bounds(s, a + 3);
            lemma_token_bounds(s, b);
            if let Some(be) = unsigned_end(s, b) {
                lemma_skip_bounds(s, be);
                lemma_token_bounds(s, skip_space(s, be));
            }
        }
    }
}

pub proof fn lemma_clause_bounds(s: Seq<char>, i: int, acc: Seq<Span>)
    requires
        0 <= i <= s.len(),
        s.len() <= usize::MAX,
        forall|m: int| 0 <= m < acc.len() ==> span_within(#[trigger] acc[m], s.len() as int),
    ensures
        clause_from(s, i, acc) matches Ok((l, k)) ==> i < k <= s.len() && forall|m: int|
            0 <= m < l.len() ==> span_within(#[trigger] l[m], s.len() as int),
    decreases s.len() - i,
{
    let t = skip_space(s, i);
    lemma_skip_bounds(s, i);
    lemma_token_bounds(s, t);
    if !(acc.len() > 0 && is_terminator(s, t)) {
        if let Some(e) = literal_end(s, t) {
            if e > i && e <= s.len() {
                let sp = Span { start: t as usize, end: e as usize };
                assert forall|m: int| 0 <= m < acc.push(sp).len() implies span_within(
                    #[trigger] acc.push(sp)[m],
                    s.len() as int,
                ) by {
                    if m < acc.len() {
                        assert(acc.push(sp)[m] == acc[m]);
                    }
                }
                lemma_clause_bounds(s, e, acc.push(sp));
            }
        }
    }
}

pub proof fn lemma_nodes_bounds(s: Seq<char>, i: int, acc: Seq<NodeModel>)
    requires
        0 <= i <= s.len(),
        s.len() <= usize::MAX,
        forall|m: int| 0 <= m < acc.len() ==> node_within(#[trigger] acc[m], s.len() as int),
    ensures
        nodes_from(s, i, acc) matches Ok(ns) ==> forall|m: int|
            0 <= m < ns.len() ==> node_within(#[trigger] ns[m], s.len() as int),
    decreases s.len() - i,
{
    let j = skip_space(s, i);
    lemma_skip_bounds(s, i);
    if j < s.len() {
        if s[j] == 'c' {
            let k = skip_line(s, j);
            if i < k <= s.len() {
                lemma_nodes_bounds(s, k, acc);
            }
        } else {
            let n;
            let k;
            if s[j] == 'p' {
                lemma_declaration_bounds(s, j);
                if declaration_at(s, j) is Err {
                    return;
                }
                n = declaration_at(s, j)->Ok_0.0;
                k = declaration_at(s, j)->Ok_0.1;
            } else {
                lemma_clause_bounds(s, j, Seq::empty());
                if clause_from(s, j, Seq::empty()) is Err {
                    return;
                }
                n = NodeModel::Clause { literals: clause_from(s, j, Seq::empty())->Ok_0.0 };
                k = clause_from(s, j, Seq::empty())->Ok_0.1;
            }
            if i < k <= s.len() {
                assert forall|m: int| 0 <= m < acc.push(n).len() implies node_within(
                    #[trigger] acc.push(n)[m],
                    s.len() as int,
                ) by {
                    if m < acc.len() {
                        assert(acc.push(n)[m] == acc[m]);
                    }
                }
                lemma_nodes_bounds(s, k, acc.push(n));
            }
        }
    }
}

pub proof fn lemma_skip_suffix(p: Seq<char>, x: Seq<char>, i: int)
    requires
        0 <= i <= x.len(),
    ensures
        skip_space(p + x, p.len() + i) == p.len() + skip_space(x, i),
        skip_digits(p + x, p.len() + i) == p.len() + skip_digits(x, i),
        skip_line(p + x, p.len() + i) == p.len() + skip_line(x, i),
    decreases x.len() - i,
{
    if i < x.len() {
        assert((p + x)[p.len() + i] == x[i]);
        lemma_skip_suffix(p, x, i + 1);
    }
}

pub proof fn lemma_ends_suffix(p: Seq<char>, x: Seq<char>, e: int)
    requires
        0 <= e,
    ensures
        ends_token(p + x, p.len() + e) == ends_token(x, e),
{
    if e < x.len() {
        assert((p + x)[p.len() + e] == x[e]);
    }
}

pub proof fn lemma_tokens_suffix(p: Seq<char>, x: Seq<char>, i: int)
    requires
        0 <= i <= x.len(),
    ensures
        is_terminator(p + x, p.len() + i) == is_terminator(x, i),
        is_cnf(p + x, p.len() + i) == is_cnf(x, i),
        unsigned_end(p + x, p.len() + i) == (match unsigned_end(x, i) {
            Some(e) => Some(e + p.len()),
            None => None,
        }),
        literal_end(p + x, p.len() + i) == (match literal_end(x, i) {
            Some(e) => Some(e + p.len()),
            None => None,
        }),
{
    let d = p.len() as int;
    let s = p + x;
    lemma_skip_suffix(p, x, i);
    lemma_skip_bounds(x, i);
    lemma_ends_suffix(p, x, skip_digits(x, i));
    lemma_ends_suffix(p, x, i + 1);
    lemma_ends_suffix(p, x, i + 3);
    if i < x.len() {
        assert(s[d + i] == x[i]);
        lemma_skip_suffix(p, x, i + 1);
        lemma_skip_bounds(x, i + 1);
        lemma_ends_suffix(p, x, skip_digits(x, i + 1));
    }
    if i + 1 < x.len() {
        assert(s[d + i + 1] == x[i + 1]);
        lemma_skip_suffix(p, x, i + 2);
        lemma_skip_bounds(x, i + 2);
        lemma_ends_suffix(p, x, skip_digits(x, i + 2));
    }
    if i + 2 < x.len() {
        assert(s[d + i + 2] == x[i + 2]);
    }
}

pub proof fn lemma_declaration_suffix(p: Seq<char>, x: Seq<char>, j: int)
    requires
        0 <= j < x.len(),
        (p + x).len() <= usize::MAX,
    ensures
        declaration_at(p + x, p.len() + j) == (match declaration_at(x, j) {
            Ok((n, k)) => Ok((shift_node(n, p.len() as int), k + p.len())),
            Err(q) => Err(q + p.len()),
        }),
{
    let s = p + x;
    let d = p.len() as int;
    lemma_ends_suffix(p, x, j + 1);
    lemma_skip_suffix(p, x, j + 1);
    lemma_skip_bounds(x, j + 1);
    let a = skip_space(x, j + 1);
    lemma_tokens_suffix(p, x, a);
    if is_cnf(x, a) {
        lemma_skip_suffix(p, x, a + 3);
        lemma_skip_bounds(x, a + 3);
        let b = skip_space(x, a + 3);
        lemma_tokens_suffix(p, x, b);
        lemma_token_bounds(x, b);
        if let Some(be) = unsigned_end(x, b) {
            lemma_skip_suffix(p, x, be);
            lemma_skip_bounds(x, be);
            let c = skip_space(x, be);
            lemma_tokens_suffix(p, x, c);
            lemma_token_bounds(x, c);
        }
    }
}

pub proof fn lemma_clause_suffix(p: Seq<char>, x: Seq<char>, i: int, acc: Seq<Span>)
    requires
        0 <= i <= x.len(),
        (p + x).len() <= usize::MAX,
    ensures
        clause_from(p + x, p.len() + i, shift_spans(acc, p.len() as int)) == (match clause_from(x, i, acc) {
            Ok((l, k)) => Ok((shift_spans(l, p.len() as int), k + p.len())),
            Err(q) => Err(q + p.len()),
        }),
    decreases x.len() - i,
{
    let d = p.len() as int;
    let t = skip_space(x, i);
    lemma_skip_suffix(p, x, i);
    lemma_skip_bounds(x, i);
    lemma_tokens_suffix(p, x, t);
    lemma_token_bounds(x, t);
    if !(acc.len() > 0 && is_terminator(x, t)) {
        if let Some(e) = literal_end(x, t) {
            if e > i && e <= x.len() {
                let sp = Span { start: t as usize, end: e as usize };
                assert(shift_spans(acc.push(sp), d) =~= shift_spans(acc, d).push(
                    Span { start: (d + t) as usize, end: (d + e) as usize },
                ));
                lemma_clause_suffix(p, x, e, acc.push(sp));
            }
        }
    }
}

pub proof fn lemma_nodes_suffix(p: Seq<char>, x: Seq<char>, i: int, acc1: Seq<NodeModel>, acc2: Seq<NodeModel>)
    requires
        0 <= i <= x.len(),
        (p + x).len() <= usize::MAX,
    ensures
        nodes_from(p + x, p.len() + i, acc1 + shift_nodes(acc2, p.len() as int)) == lift_nodes(
            nodes_from(x, i, acc2),
            acc1,
            p.len() as int,
        ),
    decreases x.len() - i,
{
    let s = p + x;
    let d = p.len() as int;
    let j = skip_space(x, i);
    lemma_skip_suffix(p, x, i);
    lemma_skip_bounds(x, i);
    if j < x.len() {
        assert(s[d + j] == x[j]);
        if x[j] == 'c' {
            lemma_skip_suffix(p, x, j);
            lemma_skip_bounds(x, j);
            let k = skip_line(x, j);
            if i < k <= x.len() {
                lemma_nodes_suffix(p, x, k, acc1, acc2);
            }
        } else if x[j] == 'p' {
            lemma_declaration_suffix(p, x, j);
            lemma_declaration_bounds(x, j);
            if let Ok((n, k)) = declaration_at(x, j) {
                if i < k <= x.len() {
                    assert(acc1 + shift_nodes(acc2.push(n), d) =~= (acc1 + shift_nodes(acc2, d)).push(
                        shift_node(n, d),
                    ));
                    lemma_nodes_suffix(p, x, k, acc1, acc2.push(n));
                }
            }
        } else {
            lemma_clause_suffix(p, x, j, Seq::empty());
            lemma_clause_bounds(x, j, Seq::empty());
            assert(shift_spans(Seq::<Span>::empty(), d) =~= Seq::<Span>::empty());
            if let Ok((l, k)) = clause_from(x, j, Seq::empty()) {
                if i < k <= x.len() {
                    let n = NodeModel::Clause { literals: l };
                    assert(acc1 + shift_nodes(acc2.push(n), d) =~= (acc1 + shift_nodes(acc2, d)).push(
                        shift_node(n, d),
                    ));
                    lemma_nodes_suffix(p, x, k, acc1, acc2.push(n));
                }
            }
        }
    } else {
        assert(acc1 + shift_nodes(acc2, d) =~= acc1 + shift_nodes(acc2, d));
    }
}

/// A space before the next construct changes nothing.
pub proof fn lemma_space_step(s: Seq<char>, i: int, acc: Seq<NodeModel>)
    requires
        0 <= i < s.len(),
        s.len() <= usize::MAX,
        is_space(s[i]),
    ensures
        nodes_from(s, i, acc) == nodes_from(s, i + 1, acc),
{
    lemma_skip_bounds(s, i + 1);
    let j = skip_space(s, i + 1);
    if j < s.len() {
        if s[j] == 'c' {
            lemma_skip_bounds(s, j + 1);
            assert(skip_line(s, j) == skip_line(s, j + 1));
        } else if s[j] == 'p' {
            lemma_declaration_bounds(s, j);
        } else {
            lemma_clause_bounds(s, j, Seq::empty());
        }
    }
}

pub open spec fn ends_line(a: Seq<char>) -> bool {
    a.len() > 0 && a[a.len() - 1] == '\n'
}

pub proof fn lemma_skip_prefix(a: Seq<char>, b: Seq<char>, i: int)
    requires
        0 <= i <= a.len(),
        ends_line(a),
    ensures
        skip_space(a, i) < a.len() ==> skip_space(a + b, i) == skip_space(a, i),
        i < a.len() ==> skip_digits(a + b, i) == skip_digits(a, i) < a.len(),
        i < a.len() ==> skip_line(a + b, i) == skip_line(a, i) < a.len(),
    decreases a.len() - i,
{
    if i < a.len() {
        assert((a + b)[i] == a[i]);
        lemma_skip_prefix(a, b, i + 1);
    }
}

pub proof fn lemma_tokens_prefix(a: Seq<char>, b: Seq<char>, i: int)
    requires
        0 <= i < a.len(),
        ends_line(a),
    ensures
        ends_token(a + b, i) == ends_token(a, i),
        is_terminator(a + b, i) == is_terminator(a, i),
        is_cnf(a + b, i) == is_cnf(a, i),
        unsigned_end(a + b, i) == unsigned_end(a, i),
        literal_end(a + b, i) == literal_end(a, i),
{
    let s = a + b;
    assert(s[i] == a[i]);
    lemma_skip_prefix(a, b, i);
    lemma_skip_bounds(a, i);
    if skip_digits(a, i) < a.len() {
        assert(s[skip_digits(a, i)] == a[skip_digits(a, i)]);
    }
    if i + 1 < a.len() {
        assert(s[i + 1] == a[i + 1]);
        lemma_skip_prefix(a, b, i + 1);
        lemma_skip_bounds(a, i + 1);
        assert(s[skip_digits(a, i + 1)] == a[skip_digits(a, i + 1)]);
    }
    if i + 2 < a.len() {
        assert(s[i + 2] == a[i + 2]);
        lemma_skip_prefix(a, b, i + 2);
        lemma_skip_bounds(a, i + 2);
        assert(s[skip_digits(a, i + 2)] == a[skip_digits(a, i + 2)]);
    }
    if i + 3 < a.len() {
        assert(s[i + 3] == a[i + 3]);
    }
}

pub proof fn lemma_declaration_prefix(a: Seq<char>, b: Seq<char>, j: int)
    requires
        0 <= j < a.len(),
        ends_line(a),
        declaration_at(a, j) is Ok,
    ensures
        declaration_at(a + b, j) == declaration_at(a, j),
{
    lemma_tokens_prefix(a, b, j + 1);
    lemma_skip_prefix(a, b, j + 1);
    let x = skip_space(a, j + 1);
    lemma_tokens_prefix(a, b, x);
    lemma_skip_prefix(a, b, x + 3);
    let y = skip_space(a, x + 3);
    lemma_tokens_prefix(a, b, y);
    let ye = unsigned_end(a, y)->Some_0;
    lemma_skip_prefix(a, b, ye);
    lemma_tokens_prefix(a, b, skip_space(a, ye));
}

pub proof fn lemma_clause_prefix(a: Seq<char>, b: Seq<char>, i: int, acc: Seq<Span>)
    requires
        0 <= i <= a.len(),
        ends_line(a),
        clause_from(a, i, acc) is Ok,
    ensures
        clause_from(a + b, i, acc) == clause_from(a, i, acc),
    decreases a.len() - i,
{
    let t = skip_space(a, i);
    lemma_skip_prefix(a, b, i);
    lemma_skip_bounds(a, i);
    if t < a.len() {
        lemma_tokens_prefix(a, b, t);
        lemma_token_bounds(a, t);
        if !(acc.len() > 0 && is_terminator(a, t)) {
            let e = literal_end(a, t)->Some_0;
            lemma_clause_prefix(a, b, e, acc.push(Span { start: t as usize, end: e as usize }));
        }
    }
}

/// Scanning `a + b` passes through the end of `a` with the nodes of `a`.
pub proof fn lemma_nodes_prefix(a: Seq<char>, b: Seq<char>, i: int, acc: Seq<NodeModel>)
    requires
        0 <= i <= a.len(),
        ends_line(a),
        (a + b).len() <= usize::MAX,
        nodes_from(a, i, acc) is Ok,
    ensures
        nodes_from(a + b, i, acc) == nodes_from(a + b, a.len() as int, nodes_from(a, i, acc)->Ok_0),
    decreases a.len() - i,
{
    let s = a + b;
    if i < a.len() {
        assert(s[i] == a[i]);
        if is_space(a[i]) {
            lemma_space_step(a, i, acc);
            lemma_space_step(s, i, acc);
            lemma_nodes_prefix(a, b, i + 1, acc);
        } else if a[i] == 'c' {
            lemma_skip_prefix(a, b, i + 1);
            lemma_skip_bounds(a, i + 1);
            assert(skip_line(a, i) == skip_line(a, i + 1));
            assert(skip_line(s, i) == skip_line(s, i + 1));
            lemma_nodes_prefix(a, b, skip_line(a, i), acc);
        } else if a[i] == 'p' {
            lemma_declaration_bounds(a, i);
            lemma_declaration_prefix(a, b, i);
            let (n, k) = declaration_at(a, i)->Ok_0;
            lemma_nodes_prefix(a, b, k, acc.push(n));
        } else {
            lemma_clause_bounds(a, i, Seq::empty());
            lemma_clause_prefix(a, b, i, Seq::empty());
            let (l, k) = clause_from(a, i, Seq::empty())->Ok_0;
            lemma_nodes_prefix(a, b, k, acc.push(NodeModel::Clause { literals: l }));
        }
    }
}

/// Scanning `a + b`, where `a` is whole lines that scan, gives the nodes of
/// `a` followed by those of `b` moved past `a`.
pub proof fn lemma_concat_nodes(a: Seq<char>, b: Seq<char>)
    requires
        ends_line(a),
        document_nodes(a) is Ok,
        (a + b).len() <= usize::MAX,
    ensures
        document_nodes(a + b) == lift_nodes(document_nodes(b), document_nodes(a)->Ok_0, a.len() as int),
{
    let na = document_nodes(a)->Ok_0;
    lemma_nodes_prefix(a, b, 0, Seq::empty());
    assert(na + shift_nodes(Seq::empty(), a.len() as int) =~= na);
    lemma_nodes_suffix(a, b, 0, na, Seq::empty());
}

/// A comment line: `c`, text without a line feed, then a line feed.
pub open spec fn comment_line(t: Seq<char>) -> Seq<char> {
    seq!['c'] + t + seq!['\n']
}

proof fn lemma_skip_to_line_end(s: Seq<char>, i: int, e: int)
    requires
        0 <= i <= e < s.len(),
        s[e] == '\n',
        forall|m: int| i <= m < e ==> s[m] != '\n',
    ensures
        skip_line(s, i) == e,
    decreases e - i,
{
    if i < e {
        lemma_skip_to_line_end(s, i + 1, e);
    }
}

/// A comment line scans to no node.
pub proof fn lemma_comment_nodes(t: Seq<char>)
    requires
        forall|m: int| 0 <= m < t.len() ==> t[m] != '\n',
    ensures
        ends_line(comment_line(t)),
        document_nodes(comment_line(t)) == Ok::<Seq<NodeModel>, int>(Seq::empty()),
{
    let c = comment_line(t);
    let e = c.len() - 1;
    assert(c[0] == 'c');
    assert(c[e] == '\n');
    assert forall|m: int| 0 <= m < e implies c[m] != '\n' by {
        if m > 0 {
            assert(c[m] == t[m - 1]);
        }
    }
    lemma_skip_to_line_end(c, 0, e);
    assert(skip_space(c, e + 1) == e + 1);
    assert(skip_space(c, e) == e + 1);
    assert(skip_space(c, 0) == 0);
    assert(nodes_from(c, e, Seq::empty()) == Ok::<Seq<NodeModel>, int>(Seq::empty()));
    assert(nodes_from(c, 0, Seq::empty()) == nodes_from(c, e, Seq::empty()));
}

} // verus!
