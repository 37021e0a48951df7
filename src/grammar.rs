//! The DIMACS CNF grammar: comment lines, the `p cnf <vars> <clauses>` line and
//! clause lines of signed integers ended by `0`. Tokens are separated by
//! whitespace. Scanning turns the text into a sequence of nodes, each holding
//! the character spans of its numeric tokens.
use vstd::prelude::*;

verus! {

/// Half-open range `start..end` of character positions in the text.
#[derive(Clone, Copy, Debug, PartialEq, Eq, Structural)]
pub struct Span {
    pub start: usize,
    pub end: usize,
}

/// A node of the parse tree.
#[derive(Clone, Debug, PartialEq, Eq)]
pub enum Node {
    /// `p cnf <vars> <clauses>`: the spans of the two counts.
    Declaration { vars: Span, clauses: Span },
    /// One or more literals ended by `0`: the span of each literal.
    Clause { literals: Vec<Span> },
}

/// Mathematical model of a node.
pub enum NodeModel {
    Declaration { vars: Span, clauses: Span },
    Clause { literals: Seq<Span> },
}

impl View for Node {
    type V = NodeModel;

    open spec fn view(&self) -> NodeModel {
        match self {
            Node::Declaration { vars, clauses } => NodeModel::Declaration {
                vars: *vars,
                clauses: *clauses,
            },
            Node::Clause { literals } => NodeModel::Clause { literals: literals@ },
        }
    }
}

pub open spec fn is_space(c: char) -> bool {
    c == ' ' || c == '\t' || c == '\n' || c == '\r'
}

pub open spec fn is_digit(c: char) -> bool {
    '0' <= c && c <= '9'
}

/// A token that ends at `i` is followed by whitespace or the end of the text.
pub open spec fn ends_token(s: Seq<char>, i: int) -> bool {
    i >= s.len() || is_space(s[i])
}

/// First position at or after `i` that is not whitespace.
pub open spec fn skip_space(s: Seq<char>, i: int) -> int
    decreases s.len() - i,
{
    if 0 <= i < s.len() && is_space(s[i]) {
        skip_space(s, i + 1)
    } else {
        i
    }
}

/// First position at or after `i` that is not a decimal digit.
pub open spec fn skip_digits(s: Seq<char>, i: int) -> int
    decreases s.len() - i,
{
    if 0 <= i < s.len() && is_digit(s[i]) {
        skip_digits(s, i + 1)
    } else {
        i
    }
}

/// First position at or after `i` that holds a line feed, or the end.
pub open spec fn skip_line(s: Seq<char>, i: int) -> int
    decreases s.len() - i,
{
    if 0 <= i < s.len() && s[i] != '\n' {
        skip_line(s, i + 1)
    } else {
        i
    }
}

/// End of an unsigned integer token (one or more digits) that starts at `i`.
pub open spec fn unsigned_end(s: Seq<char>, i: int) -> Option<int> {
    let e = skip_digits(s, i);
    if e > i && ends_token(s, e) {
        Some(e)
    } else {
        None
    }
}

/// End of a literal token (an optional `-`, a digit 1 to 9, then digits)
/// that starts at `i`.
pub open spec fn literal_end(s: Seq<char>, i: int) -> Option<int> {
    let j = if 0 <= i < s.len() && s[i] == '-' {
        i + 1
    } else {
        i
    };
    if 0 <= j < s.len() && is_digit(s[j]) && s[j] != '0' && ends_token(s, skip_digits(s, j + 1)) {
        Some(skip_digits(s, j + 1))
    } else {
        None
    }
}

/// The clause terminator: a `0` token at `i`.
pub open spec fn is_terminator(s: Seq<char>, i: int) -> bool {
    0 <= i < s.len() && s[i] == '0' && ends_token(s, i + 1)
}

/// The `cnf` token at `i`.
pub open spec fn is_cnf(s: Seq<char>, i: int) -> bool {
    0 <= i && i + 3 <= s.len() && s[i] == 'c' && s[i + 1] == 'n' && s[i + 2] == 'f'
        && ends_token(s, i + 3)
}

/// The declaration line whose `p` stands at `i`: its node and the position after
/// it, or the position of the first token that does not fit.
pub open spec fn declaration_at(s: Seq<char>, i: int) -> Result<(NodeModel, int), int> {
    if !ends_token(s, i + 1) {
        Err(i + 1)
    } else {
        let a = skip_space(s, i + 1);
        if !is_cnf(s, a) {
            Err(a)
        } else {
            let b = skip_space(s, a + 3);
            match unsigned_end(s, b) {
                None => Err(b),
                Some(be) => {
                    let c = skip_space(s, be);
                    match unsigned_end(s, c) {
                        None => Err(c),
                        Some(ce) => Ok(
                            (
                                NodeModel::Declaration {
                                    vars: Span { start: b as usize, end: be as usize },
                                    clauses: Span { start: c as usize, end: ce as usize },
                                },
                                ce,
                            ),
                        ),
                    }
                },
            }
        }
    }
}

/// The literals of a clause, continuing at `i` after the literals `acc`:
/// the literal spans and the position after the terminator, or the position
/// of the first token that does not fit.
pub open spec fn clause_from(s: Seq<char>, i: int, acc: Seq<Span>) -> Result<(Seq<Span>, int), int>
    decreases s.len() - i,
{
    let t = skip_space(s, i);
    if acc.len() > 0 && is_terminator(s, t) {
        Ok((acc, t + 1))
    } else {
        match literal_end(s, t) {
            Some(e) => if e > i && e <= s.len() {
                clause_from(s, e, acc.push(Span { start: t as usize, end: e as usize }))
            } else {
                Err(t)
            },
            None => Err(t),
        }
    }
}

/// The nodes of the document from position `i` on, after the nodes `acc`; or
/// the position of a syntax error.
pub open spec fn nodes_from(s: Seq<char>, i: int, acc: Seq<NodeModel>) -> Result<Seq<NodeModel>, int>
    decreases s.len() - i,
{
    let j = skip_space(s, i);
    if j < i || j >= s.len() {
        Ok(acc)
    } else if s[j] == 'c' {
        let k = skip_line(s, j);
        if i < k <= s.len() {
            nodes_from(s, k, acc)
        } else {
            Ok(acc)
        }
    } else if s[j] == 'p' {
        let d = declaration_at(s, j);
        if d is Err {
            Err(d->Err_0)
        } else if i < d->Ok_0.1 <= s.len() {
            nodes_from(s, d->Ok_0.1, acc.push(d->Ok_0.0))
        } else {
            Ok(acc)
        }
    } else {
        let c = clause_from(s, j, Seq::empty());
        if c is Err {
            Err(c->Err_0)
        } else if i < c->Ok_0.1 <= s.len() {
            nodes_from(s, c->Ok_0.1, acc.push(NodeModel::Clause { literals: c->Ok_0.0 }))
        } else {
            Ok(acc)
        }
    }
}

/// A numeric token: an optional `-` followed by one or more digits.
pub open spec fn token_ok(s: Seq<char>, sp: Span) -> bool {
    let a = if sp.start < sp.end && s[sp.start as int] == '-' {
        sp.start + 1
    } else {
        sp.start as int
    };
    sp.start < sp.end <= s.len() && a < sp.end && forall|m: int|
        a <= m < sp.end ==> is_digit(#[trigger] s[m])
}

/// Every token of the node is a numeric token.
pub open spec fn node_ok(s: Seq<char>, n: NodeModel) -> bool {
    match n {
        NodeModel::Declaration { vars, clauses } => token_ok(s, vars) && token_ok(s, clauses)
            && s[vars.start as int] != '-' && s[clauses.start as int] != '-',
        NodeModel::Clause { literals } => forall|m: int|
            0 <= m < literals.len() ==> token_ok(s, #[trigger] literals[m]),
    }
}

/// The parse tree of a whole document, or the position of a syntax error.
pub open spec fn document_nodes(s: Seq<char>) -> Result<Seq<NodeModel>, int> {
    nodes_from(s, 0, Seq::empty())
}

fn skip_space_at(s: &Vec<char>, i: usize) -> (r: usize)
    requires
        i <= s.len(),
    ensures
        r as int == skip_space(s@, i as int),
        i <= r <= s.len(),
{
    let mut k: usize = i;
    while k < s.len() && (s[k] == ' ' || s[k] == '\t' || s[k] == '\n' || s[k] == '\r')
        invariant
            i <= k <= s.len(),
            skip_space(s@, i as int) == skip_space(s@, k as int),
        decreases s.len() - k,
    {
        k = k + 1;
    }
    k
}

fn skip_digits_at(s: &Vec<char>, i: usize) -> (r: usize)
    requires
        i <= s.len(),
    ensures
        r as int == skip_digits(s@, i as int),
        i <= r <= s.len(),
        forall|m: int| i <= m < r ==> is_digit(#[trigger] s@[m]),
{
    let mut k: usize = i;
    while k < s.len() && '0' <= s[k] && s[k] <= '9'
        invariant
            i <= k <= s.len(),
            forall|m: int| i <= m < k ==> is_digit(#[trigger] s@[m]),
            skip_digits(s@, i as int) == skip_digits(s@, k as int),
        decreases s.len() - k,
    {
        k = k + 1;
    }
    k
}

fn skip_line_at(s: &Vec<char>, i: usize) -> (r: usize)
    requires
        i <= s.len(),
    ensures
        r as int == skip_line(s@, i as int),
        i <= r <= s.len(),
{
    let mut k: usize = i;
    while k < s.len() && s[k] != '\n'
        invariant
            i <= k <= s.len(),
            skip_line(s@, i as int) == skip_line(s@, k as int),
        decreases s.len() - k,
    {
        k = k + 1;
    }
    k
}

fn ends_token_at(s: &Vec<char>, i: usize) -> (r: bool)
    ensures
        r == ends_token(s@, i as int),
{
    i >= s.len() || s[i] == ' ' || s[i] == '\t' || s[i] == '\n' || s[i] == '\r'
}

fn unsigned_end_at(s: &Vec<char>, i: usize) -> (r: Option<usize>)
    requires
        i <= s.len(),
    ensures
        match unsigned_end(s@, i as int) {
            Some(e) => r == Some(e as usize) && i < e <= s.len()
                && token_ok(s@, Span { start: i, end: e as usize }) && is_digit(s@[i as int]),
            None => r is None,
        },
{
    let e = skip_digits_at(s, i);
    if e > i && ends_token_at(s, e) {
        Some(e)
    } else {
        None
    }
}

fn literal_end_at(s: &Vec<char>, i: usize) -> (r: Option<usize>)
    requires
        i <= s.len(),
    ensures
        match literal_end(s@, i as int) {
            Some(e) => r == Some(e as usize) && i < e <= s.len()
                && token_ok(s@, Span { start: i, end: e as usize }),
            None => r is None,
        },
{
    let j = if i < s.len() && s[i] == '-' {
        i + 1
    } else {
        i
    };
    if j < s.len() && '1' <= s[j] && s[j] <= '9' {
        let e = skip_digits_at(s, j + 1);
        if ends_token_at(s, e) {
            return Some(e);
        }
    }
    None
}

fn declaration_at_exec(s: &Vec<char>, i: usize) -> (r: Result<(Node, usize), usize>)
    requires
        i < s.len(),
        s@[i as int] == 'p',
    ensures
        match declaration_at(s@, i as int) {
            Ok((n, k)) => r matches Ok((m, l)) && m@ == n && l == k && i < k <= s.len()
                && node_ok(s@, n),
            Err(p) => r == Err::<(Node, usize), usize>(p as usize) && 0 <= p <= s.len(),
        },
{
    if !ends_token_at(s, i + 1) {
        return Err(i + 1);
    }
    let a = skip_space_at(s, i + 1);
    if !(a < s.len() && s.len() - a >= 3 && s[a] == 'c' && s[a + 1] == 'n' && s[a + 2] == 'f' && ends_token_at(s, a + 3)) {
        return Err(a);
    }
    let b = skip_space_at(s, a + 3);
    let be = match unsigned_end_at(s, b) {
        None => return Err(b),
        Some(be) => be,
    };
    let c = skip_space_at(s, be);
    match unsigned_end_at(s, c) {
        None => Err(c),
        Some(ce) => Ok(
            (
                Node::Declaration {
                    vars: Span { start: b, end: be },
                    clauses: Span { start: c, end: ce },
                },
                ce,
            ),
        ),
    }
}

fn clause_at(s: &Vec<char>, i: usize) -> (r: Result<(Node, usize), usize>)
    requires
        i <= s.len(),
    ensures
        match clause_from(s@, i as int, Seq::empty()) {
            Ok((lits, k)) => r matches Ok((m, l)) && m@ == (NodeModel::Clause { literals: lits })
                && l == k && i < k <= s.len() && node_ok(s@, m@),
            Err(p) => r == Err::<(Node, usize), usize>(p as usize) && 0 <= p <= s.len(),
        },
{
    let mut lits: Vec<Span> = Vec::new();
    let mut k: usize = i;
    loop
        invariant
            i <= k <= s.len(),
            lits@.len() == 0 ==> k == i,
            forall|m: int| 0 <= m < lits@.len() ==> token_ok(s@, #[trigger] lits@[m]),
            clause_from(s@, i as int, Seq::empty()) == clause_from(s@, k as int, lits@),
        decreases s.len() - k,
    {
        let t = skip_space_at(s, k);
        if lits.len() > 0 && t < s.len() && s[t] == '0' && ends_token_at(s, t + 1) {
            return Ok((Node::Clause { literals: lits }, t + 1));
        }
        match literal_end_at(s, t) {
            Some(e) => {
                lits.push(Span { start: t, end: e });
                k = e;
            },
            None => return Err(t),
        }
    }
}

/// Scans a document into its parse tree, or fails with the character position
/// of the first token that does not fit the grammar.
pub fn scan_document(s: &Vec<char>) -> (r: Result<Vec<Node>, usize>)
    ensures
        match document_nodes(s@) {
            Ok(ns) => r matches Ok(v) && v@.map_values(|n: Node| n@) == ns
                && forall|m: int| 0 <= m < v@.len() ==> node_ok(s@, #[trigger] v@[m]@),
            Err(p) => r == Err::<Vec<Node>, usize>(p as usize),
        },
{
    let mut nodes: Vec<Node> = Vec::new();
    let mut i: usize = 0;
    assert(nodes@.map_values(|n: Node| n@) =~= Seq::empty());
    loop
        invariant
            i <= s.len(),
            document_nodes(s@) == nodes_from(s@, i as int, nodes@.map_values(|n: Node| n@)),
            forall|m: int| 0 <= m < nodes@.len() ==> node_ok(s@, #[trigger] nodes@[m]@),
        decreases s.len() - i,
    {
        let j = skip_space_at(s, i);
        if j >= s.len() {
            return Ok(nodes);
        }
        if s[j] == 'c' {
            let k = skip_line_at(s, j + 1);
            assert(skip_line(s@, j as int) == skip_line(s@, j + 1));
            i = k;
        } else {
            let res = if s[j] == 'p' {
                declaration_at_exec(s, j)
            } else {
                clause_at(s, j)
            };
            match res {
                Ok((n, k)) => {
                    proof {
                        assert(nodes@.push(n).map_values(|n: Node| n@) =~= nodes@.map_values(
                            |n: Node| n@,
                        ).push(n@));
                    }
                    nodes.push(n);
                    i = k;
                },
                Err(p) => return Err(p),
            }
        }
    }
}

} // verus!
