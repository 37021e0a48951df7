//! Properties that relate several parses of DIMACS CNF documents.
use vstd::prelude::*;
use crate::grammar::{
    Span, NodeModel, is_digit, skip_space, skip_digits, skip_line, literal_end, is_terminator,
    declaration_at, clause_from, nodes_from, document_nodes,
};
use crate::dimacs::{
    WalkState, walk, initial_state, literal_values, max_magnitude, digit_value, digits_value,
    token_value, parse_result,
};
use crate::locality::{
    shift_span, shift_spans, shift_node, shift_nodes, span_within, node_within, ends_line,
    comment_line, lemma_skip_bounds, lemma_nodes_bounds, lemma_concat_nodes, lemma_comment_nodes,
};

verus! {

/// The node is a declaration of `vars` variables and `clauses` clauses.
pub open spec fn declares(s: Seq<char>, n: NodeModel, vars: nat, clauses: nat) -> bool {
    match n {
        NodeModel::Declaration { vars: v, clauses: c } => token_value(s, v) == vars as int
            && token_value(s, c) == clauses as int,
        NodeModel::Clause { .. } => false,
    }
}

/// From node `k` on, where every declaration agrees on the counts and the
/// lenient walk keeps no more than `clauses` clauses, the strict walk ends in
/// the same state; that state keeps at least the clauses of `st`, and its
/// declared variable count is `vars` once a declaration was seen.
proof fn lemma_walk_modes_agree(
    s: Seq<char>,
    ns: Seq<NodeModel>,
    k: int,
    st: WalkState,
    vars: nat,
    clauses: nat,
)
    requires
        0 <= k <= ns.len(),
        forall|m: int| 0 <= m < ns.len() && #[trigger] ns[m] is Declaration ==> declares(s, ns[m], vars, clauses),
        st.declared_clauses == 0 || st.declared_clauses == clauses,
        st.declared_vars is None || st.declared_vars == Some(vars),
        walk(s, ns, k, st, false) is Ok,
        walk(s, ns, k, st, false)->Ok_0.clauses.len() <= clauses,
    ensures
        walk(s, ns, k, st, true) == walk(s, ns, k, st, false),
        walk(s, ns, k, st, false)->Ok_0.clauses.len() >= st.clauses.len(),
        (st.declared_vars == Some(vars) || exists|m: int| k <= m < ns.len() && #[trigger] ns[m] is Declaration)
            ==> walk(s, ns, k, st, false)->Ok_0.declared_vars == Some(vars),
    decreases ns.len() - k,
{
    if k < ns.len() {
        match ns[k] {
            NodeModel::Clause { literals } => {
                let c = literal_values(s, literals)->Ok_0;
                let next = WalkState {
                    max_var: if max_magnitude(c) > st.max_var {
                        max_magnitude(c)
                    } else {
                        st.max_var
                    },
                    clauses: st.clauses.push(c),
                    ..st
                };
                lemma_walk_modes_agree(s, ns, k + 1, next, vars, clauses);
                if exists|m: int| k <= m < ns.len() && #[trigger] ns[m] is Declaration {
                    let m = choose|m: int| k <= m < ns.len() && #[trigger] ns[m] is Declaration;
                    assert(k + 1 <= m);
                }
            },
            NodeModel::Declaration { vars: v, clauses: c } => {
                assert(declares(s, ns[k], vars, clauses));
                let next = WalkState {
                    declared_vars: Some(token_value(s, v) as nat),
                    declared_clauses: token_value(s, c) as nat,
                    ..st
                };
                lemma_walk_modes_agree(s, ns, k + 1, next, vars, clauses);
            },
        }
    }
}

/// Strict and lenient parses agree on the clauses of a document whose
/// declarations all give the same counts, where the lenient parse keeps no
/// more clauses and uses no larger variable than declared.
pub proof fn lemma_strict_agrees_with_lenient(s: Seq<char>, vars: nat, clauses: nat)
    requires
        document_nodes(s) is Ok,
        exists|m: int|
            0 <= m < document_nodes(s)->Ok_0.len() && #[trigger] document_nodes(s)->Ok_0[m] is Declaration,
        forall|m: int|
            0 <= m < document_nodes(s)->Ok_0.len() && #[trigger] document_nodes(s)->Ok_0[m] is Declaration
                ==> declares(s, document_nodes(s)->Ok_0[m], vars, clauses),
        parse_result(s, false) is Ok,
        parse_result(s, false)->Ok_0.num_clauses <= clauses,
        parse_result(s, false)->Ok_0.num_vars <= vars,
    ensures
        parse_result(s, true) is Ok,
        parse_result(s, true)->Ok_0.clauses == parse_result(s, false)->Ok_0.clauses,
        parse_result(s, true)->Ok_0.num_clauses == parse_result(s, false)->Ok_0.num_clauses,
        parse_result(s, true)->Ok_0.num_vars == vars,
{
    let ns = document_nodes(s)->Ok_0;
    lemma_walk_modes_agree(s, ns, 0, initial_state(), vars, clauses);
}

/// Parsing the same text twice in the same mode gives the same result.
pub proof fn lemma_parse_deterministic(a: Seq<char>, b: Seq<char>, strict: bool)
    requires
        a == b,
    ensures
        parse_result(a, strict) == parse_result(b, strict),
{
}

/// Two nodes of the same kind whose tokens have the same values.
pub open spec fn same_node(s1: Seq<char>, n1: NodeModel, s2: Seq<char>, n2: NodeModel) -> bool {
    match (n1, n2) {
        (
            NodeModel::Declaration { vars: v1, clauses: c1 },
            NodeModel::Declaration { vars: v2, clauses: c2 },
        ) => token_value(s1, v1) == token_value(s2, v2) && token_value(s1, c1) == token_value(s2, c2),
        (NodeModel::Clause { literals: l1 }, NodeModel::Clause { literals: l2 }) => l1.len()
            == l2.len() && forall|m: int|
            0 <= m < l1.len() ==> token_value(s1, #[trigger] l1[m]) == token_value(s2, l2[m]),
        _ => false,
    }
}

proof fn lemma_literals_same(s1: Seq<char>, l1: Seq<Span>, s2: Seq<char>, l2: Seq<Span>)
    requires
        l1.len() == l2.len(),
        forall|m: int| 0 <= m < l1.len() ==> token_value(s1, #[trigger] l1[m]) == token_value(s2, l2[m]),
    ensures
        (literal_values(s1, l1) is Ok) == (literal_values(s2, l2) is Ok),
        literal_values(s1, l1) is Ok ==> literal_values(s1, l1) == literal_values(s2, l2),
    decreases l1.len(),
{
    if l1.len() > 0 {
        let n = l1.len() - 1;
        assert forall|m: int| 0 <= m < n implies token_value(s1, #[trigger] l1.drop_last()[m])
            == token_value(s2, l2.drop_last()[m]) by {
            assert(l1.drop_last()[m] == l1[m]);
        }
        assert(token_value(s1, l1[n]) == token_value(s2, l2[n]));
        lemma_literals_same(s1, l1.drop_last(), s2, l2.drop_last());
    }
}

/// The walk reads the nodes through the values of their tokens alone.
proof fn lemma_walk_same(
    s1: Seq<char>,
    n1: Seq<NodeModel>,
    s2: Seq<char>,
    n2: Seq<NodeModel>,
    k: int,
    st: WalkState,
    strict: bool,
)
    requires
        0 <= k,
        n1.len() == n2.len(),
        forall|m: int| 0 <= m < n1.len() ==> same_node(s1, #[trigger] n1[m], s2, n2[m]),
    ensures
        (walk(s1, n1, k, st, strict) is Ok) == (walk(s2, n2, k, st, strict) is Ok),
        walk(s1, n1, k, st, strict) is Ok ==> walk(s1, n1, k, st, strict) == walk(s2, n2, k, st, strict),
    decreases n1.len() - k,
{
    if k < n1.len() {
        assert(same_node(s1, n1[k], s2, n2[k]));
        match (n1[k], n2[k]) {
            (NodeModel::Clause { literals: l1 }, NodeModel::Clause { literals: l2 }) => {
                lemma_literals_same(s1, l1, s2, l2);
                if literal_values(s1, l1) is Ok {
                    let c = literal_values(s1, l1)->Ok_0;
                    let next = WalkState {
                        max_var: if max_magnitude(c) > st.max_var {
                            max_magnitude(c)
                        } else {
                            st.max_var
                        },
                        clauses: st.clauses.push(c),
                        ..st
                    };
                    lemma_walk_same(s1, n1, s2, n2, k + 1, next, strict);
                }
            },
            (NodeModel::Declaration { vars: v, clauses: c }, _) => {
                let next = WalkState {
                    declared_vars: Some(token_value(s1, v) as nat),
                    declared_clauses: token_value(s1, c) as nat,
                    ..st
                };
                lemma_walk_same(s1, n1, s2, n2, k + 1, next, strict);
            },
            _ => {},
        }
    }
}

proof fn lemma_digits_shift(x: Seq<char>, s: Seq<char>, d: int, a: int, b: int)
    requires
        0 <= a <= b <= x.len(),
        0 <= d,
        forall|q: int| 0 <= q < x.len() ==> s[d + q] == #[trigger] x[q],
    ensures
        digits_value(s, a + d, b + d) == digits_value(x, a, b),
    decreases b - a,
{
    if a < b {
        lemma_digits_shift(x, s, d, a, b - 1);
        assert(s[d + (b - 1)] == x[b - 1]);
    }
}

/// A token of `x` keeps its value where `x` stands at offset `d` of `s`.
proof fn lemma_token_shift(x: Seq<char>, sp: Span, s: Seq<char>, d: int)
    requires
        span_within(sp, x.len() as int),
        0 <= d,
        d + x.len() <= s.len() <= usize::MAX,
        forall|q: int| 0 <= q < x.len() ==> s[d + q] == #[trigger] x[q],
    ensures
        token_value(s, shift_span(sp, d)) == token_value(x, sp),
{
    assert(s[d + sp.start] == x[sp.start as int]);
    lemma_digits_shift(x, s, d, sp.start + 1, sp.end as int);
    lemma_digits_shift(x, s, d, sp.start as int, sp.end as int);
}

/// The nodes of `x` keep their values where `x` stands at offset `d1` of `s1`
/// and at offset `d2` of `s2`.
proof fn lemma_same_shifted(x: Seq<char>, ns: Seq<NodeModel>, s1: Seq<char>, d1: int, s2: Seq<char>, d2: int)
    requires
        forall|m: int| 0 <= m < ns.len() ==> node_within(#[trigger] ns[m], x.len() as int),
        0 <= d1,
        0 <= d2,
        d1 + x.len() <= s1.len() <= usize::MAX,
        d2 + x.len() <= s2.len() <= usize::MAX,
        forall|q: int| 0 <= q < x.len() ==> s1[d1 + q] == #[trigger] x[q] && s2[d2 + q] == x[q],
    ensures
        forall|m: int| 0 <= m < ns.len() ==> same_node(s1, shift_node(#[trigger] ns[m], d1), s2, shift_node(ns[m], d2)),
{
    assert forall|m: int| 0 <= m < ns.len() implies same_node(s1, shift_node(#[trigger] ns[m], d1), s2, shift_node(ns[m], d2)) by {
        assert(node_within(ns[m], x.len() as int));
        match ns[m] {
            NodeModel::Declaration { vars, clauses } => {
                lemma_token_shift(x, vars, s1, d1);
                lemma_token_shift(x, vars, s2, d2);
                lemma_token_shift(x, clauses, s1, d1);
                lemma_token_shift(x, clauses, s2, d2);
            },
            NodeModel::Clause { literals } => {
                assert forall|j: int| 0 <= j < literals.len() implies token_value(
                    s1,
                    #[trigger] shift_spans(literals, d1)[j],
                ) == token_value(s2, shift_spans(literals, d2)[j]) by {
                    assert(span_within(literals[j], x.len() as int));
                    lemma_token_shift(x, literals[j], s1, d1);
                    lemma_token_shift(x, literals[j], s2, d2);
                }
            },
        }
    }
}

proof fn lemma_shift_zero(ns: Seq<NodeModel>)
    ensures
        shift_nodes(ns, 0) == ns,
{
    assert forall|m: int| 0 <= m < ns.len() implies #[trigger] shift_nodes(ns, 0)[m] == ns[m] by {
        match ns[m] {
            NodeModel::Declaration { .. } => {},
            NodeModel::Clause { literals } => {
                assert(shift_spans(literals, 0) =~= literals);
            },
        }
    }
    assert(shift_nodes(ns, 0) =~= ns);
}

/// A comment line that starts a line after whole constructs of a document
/// changes neither whether the document parses nor the formula it gives.
pub proof fn lemma_comment_line_ignored(a: Seq<char>, t: Seq<char>, b: Seq<char>, strict: bool)
    requires
        a.len() == 0 || ends_line(a),
        document_nodes(a) is Ok,
        forall|m: int| 0 <= m < t.len() ==> t[m] != '\n',
        (a + comment_line(t) + b).len() <= usize::MAX,
    ensures
        parse_result(a + comment_line(t) + b, strict) is Ok <==> parse_result(a + b, strict) is Ok,
        parse_result(a + b, strict) is Ok ==> parse_result(a + comment_line(t) + b, strict)
            == parse_result(a + b, strict),
{
    let c = comment_line(t);
    let ac = a + c;
    let s1 = a + b;
    let s2 = ac + b;
    let na = document_nodes(a)->Ok_0;
    lemma_comment_nodes(t);
    if a.len() == 0 {
        assert(ac =~= c);
        assert(s1 =~= b);
        assert(na =~= Seq::<NodeModel>::empty());
        if document_nodes(b) is Ok {
            lemma_shift_zero(document_nodes(b)->Ok_0);
            assert(na + shift_nodes(document_nodes(b)->Ok_0, 0) =~= document_nodes(b)->Ok_0);
        }
    } else {
        lemma_concat_nodes(a, c);
        assert(na + shift_nodes(Seq::empty(), a.len() as int) =~= na);
        lemma_concat_nodes(a, b);
    }
    assert(ac[ac.len() - 1] == c[c.len() - 1]);
    lemma_concat_nodes(ac, b);
    if document_nodes(b) is Ok {
        let nb = document_nodes(b)->Ok_0;
        let n1 = na + shift_nodes(nb, a.len() as int);
        let n2 = na + shift_nodes(nb, ac.len() as int);
        lemma_nodes_bounds(a, 0, Seq::empty());
        lemma_nodes_bounds(b, 0, Seq::empty());
        lemma_shift_zero(na);
        lemma_same_shifted(a, na, s1, 0, s2, 0);
        lemma_same_shifted(b, nb, s1, a.len() as int, s2, ac.len() as int);
        assert forall|m: int| 0 <= m < n1.len() implies same_node(s1, #[trigger] n1[m], s2, n2[m]) by {
            if m < na.len() {
                assert(shift_nodes(na, 0)[m] == na[m]);
            } else {
                assert(n1[m] == shift_node(nb[m - na.len()], a.len() as int));
                assert(n2[m] == shift_node(nb[m - na.len()], ac.len() as int));
            }
        }
        lemma_walk_same(s1, n1, s2, n2, 0, initial_state(), strict);
    }
}

/// A literal token: an optional `-`, a digit 1 to 9, then digits.
pub open spec fn literal_token(s: Seq<char>, sp: Span) -> bool {
    let j = if sp.start < s.len() && s[sp.start as int] == '-' {
        sp.start + 1
    } else {
        sp.start as int
    };
    0 <= j < sp.end <= s.len() && s[j] != '0' && forall|m: int| j <= m < sp.end ==> is_digit(#[trigger] s[m])
}

/// Every literal of every clause node is a literal token.
pub open spec fn literal_tokens(s: Seq<char>, ns: Seq<NodeModel>) -> bool {
    forall|m: int| 0 <= m < ns.len() ==> (#[trigger] ns[m] matches NodeModel::Clause { literals } ==> forall|k: int|
        0 <= k < literals.len() ==> literal_token(s, #[trigger] literals[k]))
}

proof fn lemma_skip_digits_all(s: Seq<char>, i: int)
    requires
        0 <= i <= s.len(),
    ensures
        forall|m: int| i <= m < skip_digits(s, i) ==> is_digit(#[trigger] s[m]),
    decreases s.len() - i,
{
    if i < s.len() {
        lemma_skip_digits_all(s, i + 1);
    }
}

proof fn lemma_clause_literals(s: Seq<char>, i: int, acc: Seq<Span>)
    requires
        0 <= i <= s.len(),
        s.len() <= usize::MAX,
        forall|k: int| 0 <= k < acc.len() ==> literal_token(s, #[trigger] acc[k]),
    ensures
        clause_from(s, i, acc) matches Ok((l, _)) ==> forall|k: int|
            0 <= k < l.len() ==> literal_token(s, #[trigger] l[k]),
    decreases s.len() - i,
{
    let t = skip_space(s, i);
    lemma_skip_bounds(s, i);
    if !(acc.len() > 0 && is_terminator(s, t)) {
        if let Some(e) = literal_end(s, t) {
            if e > i && e <= s.len() {
                let j = if s[t] == '-' {
                    t + 1
                } else {
                    t
                };
                lemma_skip_bounds(s, j + 1);
                lemma_skip_digits_all(s, j + 1);
                let sp = Span { start: t as usize, end: e as usize };
                assert(is_digit(s[j]));
                assert(literal_token(s, sp));
                assert forall|k: int| 0 <= k < acc.push(sp).len() implies literal_token(
                    s,
                    #[trigger] acc.push(sp)[k],
                ) by {
                    if k < acc.len() {
                        assert(acc.push(sp)[k] == acc[k]);
                    }
                }
                lemma_clause_literals(s, e, acc.push(sp));
            }
        }
    }
}

proof fn lemma_nodes_literals(s: Seq<char>, i: int, acc: Seq<NodeModel>)
    requires
        0 <= i <= s.len(),
        s.len() <= usize::MAX,
        literal_tokens(s, acc),
    ensures
        nodes_from(s, i, acc) matches Ok(ns) ==> literal_tokens(s, ns),
    decreases s.len() - i,
{
    let j = skip_space(s, i);
    lemma_skip_bounds(s, i);
    if j < s.len() {
        if s[j] == 'c' {
            let k = skip_line(s, j);
            if i < k <= s.len() {
                lemma_nodes_literals(s, k, acc);
            }
        } else {
            let n;
            let k;
            if s[j] == 'p' {
                if declaration_at(s, j) is Err {
                    return;
                }
                n = declaration_at(s, j)->Ok_0.0;
                k = declaration_at(s, j)->Ok_0.1;
                assert(n is Declaration);
            } else {
                lemma_clause_literals(s, j, Seq::empty());
                if clause_from(s, j, Seq::empty()) is Err {
                    return;
                }
                n = NodeModel::Clause { literals: clause_from(s, j, Seq::empty())->Ok_0.0 };
                k = clause_from(s, j, Seq::empty())->Ok_0.1;
            }
            if i < k <= s.len() {
                assert forall|m: int| 0 <= m < acc.push(n).len() implies (#[trigger] acc.push(n)[m] matches NodeModel::Clause { literals } ==> forall|q: int|
                    0 <= q < literals.len() ==> literal_token(s, #[trigger] literals[q])) by {
                    if m < acc.len() {
                        assert(acc.push(n)[m] == acc[m]);
                    }
                }
                lemma_nodes_literals(s, k, acc.push(n));
            }
        }
    }
}

proof fn lemma_digits_positive(s: Seq<char>, j: int, e: int)
    requires
        0 <= j < e <= s.len(),
        s[j] != '0',
        forall|m: int| j <= m < e ==> is_digit(#[trigger] s[m]),
    ensures
        digits_value(s, j, e) >= 1,
    decreases e - j,
{
    if e > j + 1 {
        lemma_digits_positive(s, j, e - 1);
        assert(is_digit(s[e - 1]));
        assert(digit_value(s[e - 1]) >= 0);
    } else {
        assert(digits_value(s, j, j) == 0);
        assert((s[j] as u32) >= ('1' as u32));
    }
}

proof fn lemma_values_nonzero(s: Seq<char>, l: Seq<Span>)
    requires
        forall|k: int| 0 <= k < l.len() ==> literal_token(s, #[trigger] l[k]),
    ensures
        literal_values(s, l) matches Ok(vs) ==> forall|k: int| 0 <= k < vs.len() ==> #[trigger] vs[k] != 0,
    decreases l.len(),
{
    if l.len() > 0 {
        let n = l.len() - 1;
        assert forall|k: int| 0 <= k < n implies literal_token(s, #[trigger] l.drop_last()[k]) by {
            assert(l.drop_last()[k] == l[k]);
        }
        lemma_values_nonzero(s, l.drop_last());
        let sp = l[n];
        assert(literal_token(s, sp));
        let j = if s[sp.start as int] == '-' {
            sp.start + 1
        } else {
            sp.start as int
        };
        lemma_digits_positive(s, j, sp.end as int);
    }
}

pub open spec fn nonzero_clauses(cs: Seq<Seq<i32>>) -> bool {
    forall|i: int, k: int| 0 <= i < cs.len() && 0 <= k < cs[i].len() ==> #[trigger] cs[i][k] != 0
}

proof fn lemma_walk_nonzero(s: Seq<char>, ns: Seq<NodeModel>, k: int, st: WalkState, strict: bool)
    requires
        0 <= k,
        literal_tokens(s, ns),
        nonzero_clauses(st.clauses),
    ensures
        walk(s, ns, k, st, strict) matches Ok(f) ==> nonzero_clauses(f.clauses),
    decreases ns.len() - k,
{
    if k < ns.len() {
        match ns[k] {
            NodeModel::Clause { literals } => {
                lemma_values_nonzero(s, literals);
                if literal_values(s, literals) is Ok {
                    let c = literal_values(s, literals)->Ok_0;
                    let next = WalkState {
                        max_var: if max_magnitude(c) > st.max_var {
                            max_magnitude(c)
                        } else {
                            st.max_var
                        },
                        clauses: st.clauses.push(c),
                        ..st
                    };
                    assert forall|i: int, q: int| 0 <= i < next.clauses.len() && 0 <= q < next.clauses[i].len() implies #[trigger] next.clauses[i][q] != 0 by {
                        if i < st.clauses.len() {
                            assert(next.clauses[i] == st.clauses[i]);
                        }
                    }
                    lemma_walk_nonzero(s, ns, k + 1, next, strict);
                }
            },
            NodeModel::Declaration { vars: v, clauses: c } => {
                let next = WalkState {
                    declared_vars: Some(token_value(s, v) as nat),
                    declared_clauses: token_value(s, c) as nat,
                    ..st
                };
                lemma_walk_nonzero(s, ns, k + 1, next, strict);
            },
        }
    }
}

/// Every literal of a parsed formula is nonzero: its magnitude names a
/// variable numbered from 1.
pub proof fn lemma_literals_nonzero(s: Seq<char>, strict: bool)
    requires
        s.len() <= usize::MAX,
        parse_result(s, strict) is Ok,
    ensures
        nonzero_clauses(parse_result(s, strict)->Ok_0.clauses),
{
    lemma_nodes_literals(s, 0, Seq::empty());
    lemma_walk_nonzero(s, document_nodes(s)->Ok_0, 0, initial_state(), strict);
}

} // verus!
