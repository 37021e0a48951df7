//! Turning a DIMACS CNF document into a formula, with the strict and lenient
//! policies on the declared problem size.
use vstd::prelude::*;
use crate::grammar::{
    Span, Node, NodeModel, is_digit, token_ok, node_ok, document_nodes, scan_document,
};

verus! {

/// A formula in conjunctive normal form.
#[derive(Clone, Debug, PartialEq, Eq)]
pub struct CnfFormula {
    /// Number of variables: the declared count in strict mode, the largest
    /// variable used in lenient mode.
    pub num_vars: usize,
    /// Number of clauses kept.
    pub num_clauses: usize,
    /// The clauses in document order; a literal `v` or `-v` names variable `v`.
    pub clauses: Vec<Vec<i32>>,
}

/// Mathematical model of a formula.
pub struct FormulaModel {
    pub num_vars: nat,
    pub num_clauses: nat,
    pub clauses: Seq<Seq<i32>>,
}

impl View for CnfFormula {
    type V = FormulaModel;

    open spec fn view(&self) -> FormulaModel {
        FormulaModel {
            num_vars: self.num_vars as nat,
            num_clauses: self.num_clauses as nat,
            clauses: self.clauses@.map_values(|c: Vec<i32>| c@),
        }
    }
}

impl CnfFormula {
    /// The formula with no variables and no clauses.
    pub fn new() -> (r: CnfFormula)
        ensures
            r@.num_vars == 0,
            r@.num_clauses == 0,
            r@.clauses.len() == 0,
    {
        CnfFormula { num_vars: 0, num_clauses: 0, clauses: Vec::new() }
    }
}

/// Why a document could not be turned into a formula.
#[derive(Clone, Debug, PartialEq, Eq)]
pub enum ParserError {
    /// The text does not fit the grammar; the character position of the first
    /// token that does not fit.
    Syntax { pos: usize },
    /// A numeric token does not fit in an `i32`; the character position where
    /// it starts.
    InvalidInteger { pos: usize },
    /// Strict mode: the largest variable used, and the declared variable count
    /// (none where the document declares none).
    TooManyVariables(u32, Option<u32>),
    /// The text could not be read.
    Io(String),
}

/// Value of a decimal digit.
pub open spec fn digit_value(c: char) -> int {
    (c as u32) as int - ('0' as u32) as int
}

/// Value of the decimal digits at positions `a..b`.
pub open spec fn digits_value(s: Seq<char>, a: int, b: int) -> nat
    decreases b - a,
{
    if b <= a {
        0
    } else {
        (digits_value(s, a, b - 1) * 10 + digit_value(s[b - 1])) as nat
    }
}

/// Value of a numeric token, with its sign.
pub open spec fn token_value(s: Seq<char>, sp: Span) -> int {
    if sp.start < sp.end && s[sp.start as int] == '-' {
        -digits_value(s, sp.start + 1, sp.end as int)
    } else {
        digits_value(s, sp.start as int, sp.end as int) as int
    }
}

pub open spec fn fits_i32(v: int) -> bool {
    i32::MIN <= v <= i32::MAX
}

pub open spec fn magnitude(v: i32) -> nat {
    if v < 0 {
        (-v) as nat
    } else {
        v as nat
    }
}

/// Largest magnitude of a literal of the clause; 0 for an empty clause.
pub open spec fn max_magnitude(c: Seq<i32>) -> nat
    decreases c.len(),
{
    if c.len() == 0 {
        0
    } else {
        let m = max_magnitude(c.drop_last());
        if magnitude(c.last()) > m {
            magnitude(c.last())
        } else {
            m
        }
    }
}

/// The values of the literal tokens, or the error of the first that does not fit.
pub open spec fn literal_values(s: Seq<char>, lits: Seq<Span>) -> Result<Seq<i32>, ParserError>
    decreases lits.len(),
{
    if lits.len() == 0 {
        Ok(Seq::empty())
    } else {
        match literal_values(s, lits.drop_last()) {
            Err(e) => Err(e),
            Ok(vs) => {
                let v = token_value(s, lits.last());
                if fits_i32(v) {
                    Ok(vs.push(v as i32))
                } else {
                    Err(ParserError::InvalidInteger { pos: lits.last().start })
                }
            },
        }
    }
}

/// What the walk knows after a prefix of the nodes.
pub struct WalkState {
    /// Largest variable used so far.
    pub max_var: nat,
    /// Variable count of the latest declaration.
    pub declared_vars: Option<nat>,
    /// Clause count of the latest declaration; 0 where none was seen.
    pub declared_clauses: nat,
    /// Clauses kept so far.
    pub clauses: Seq<Seq<i32>>,
}

pub open spec fn initial_state() -> WalkState {
    WalkState { max_var: 0, declared_vars: None, declared_clauses: 0, clauses: Seq::empty() }
}

/// In strict mode a clause is dropped, and the walk ends, once the declared
/// clause count is reached.
pub open spec fn truncates(st: WalkState, strict: bool) -> bool {
    strict && st.declared_clauses > 0 && st.clauses.len() >= st.declared_clauses
}

/// The walk over the nodes from index `k` on, starting in state `st`.
pub open spec fn walk(s: Seq<char>, nodes: Seq<NodeModel>, k: int, st: WalkState, strict: bool)
    -> Result<WalkState, ParserError>
    decreases nodes.len() - k,
{
    if k < 0 || k >= nodes.len() {
        Ok(st)
    } else {
        match nodes[k] {
            NodeModel::Clause { literals } => if truncates(st, strict) {
                Ok(st)
            } else {
                match literal_values(s, literals) {
                    Err(e) => Err(e),
                    Ok(c) => walk(
                        s,
                        nodes,
                        k + 1,
                        WalkState {
                            max_var: if max_magnitude(c) > st.max_var {
                                max_magnitude(c)
                            } else {
                                st.max_var
                            },
                            clauses: st.clauses.push(c),
                            ..st
                        },
                        strict,
                    ),
                }
            },
            NodeModel::Declaration { vars, clauses } => {
                let v = token_value(s, vars);
                let c = token_value(s, clauses);
                if !fits_i32(v) {
                    Err(ParserError::InvalidInteger { pos: vars.start })
                } else if !fits_i32(c) {
                    Err(ParserError::InvalidInteger { pos: clauses.start })
                } else {
                    walk(
                        s,
                        nodes,
                        k + 1,
                        WalkState { declared_vars: Some(v as nat), declared_clauses: c as nat, ..st },
                        strict,
                    )
                }
            },
        }
    }
}

/// The formula from the state at the end of the walk.
pub open spec fn finish(st: WalkState, strict: bool) -> Result<FormulaModel, ParserError> {
    if strict {
        match st.declared_vars {
            None => Err(ParserError::TooManyVariables(st.max_var as u32, None)),
            Some(d) => if st.max_var > d {
                Err(ParserError::TooManyVariables(st.max_var as u32, Some(d as u32)))
            } else {
                Ok(FormulaModel { num_vars: d, num_clauses: st.clauses.len(), clauses: st.clauses })
            },
        }
    } else {
        Ok(
            FormulaModel {
                num_vars: st.max_var,
                num_clauses: st.clauses.len(),
                clauses: st.clauses,
            },
        )
    }
}

/// What parsing the text `s` gives.
pub open spec fn parse_result(s: Seq<char>, strict: bool) -> Result<FormulaModel, ParserError> {
    match document_nodes(s) {
        Err(p) => Err(ParserError::Syntax { pos: p as usize }),
        Ok(nodes) => match walk(s, nodes, 0, initial_state(), strict) {
            Err(e) => Err(e),
            Ok(st) => finish(st, strict),
        },
    }
}

/// Saturation bound of the digit accumulator: above every magnitude an `i32` holds.
const DIGITS_CAP: u64 = 4294967296;

/// The value of a numeric token, where it fits in an `i32`.
fn token_to_i32(s: &Vec<char>, sp: Span) -> (r: Option<i32>)
    requires
        token_ok(s@, sp),
    ensures
        r == (if fits_i32(token_value(s@, sp)) {
            Some(token_value(s@, sp) as i32)
        } else {
            None::<i32>
        }),
{
    let neg = s[sp.start] == '-';
    let a: usize = if neg {
        sp.start + 1
    } else {
        sp.start
    };
    let mut v: u64 = 0;
    let mut m: usize = a;
    while m < sp.end
        invariant
            token_ok(s@, sp),
            neg == (s@[sp.start as int] == '-'),
            a == (if neg { sp.start + 1 } else { sp.start as int }),
            a <= m <= sp.end <= s.len(),
            v as int == (if digits_value(s@, a as int, m as int) < DIGITS_CAP {
                digits_value(s@, a as int, m as int) as int
            } else {
                DIGITS_CAP as int
            }),
        decreases sp.end - m,
    {
        assert(is_digit(s@[m as int]));
        let d: u64 = (s[m] as u32 - '0' as u32) as u64;
        let ghost dv = digits_value(s@, a as int, m as int);
        assert(digits_value(s@, a as int, m + 1) == dv * 10 + d);
        if v < DIGITS_CAP {
            assert(v * 10 + d <= 42949672959) by (nonlinear_arith)
                requires v < 4294967296, d <= 9;
            v = v * 10 + d;
            if v > DIGITS_CAP {
                v = DIGITS_CAP;
            }
        } else {
            assert(dv * 10 + d >= DIGITS_CAP) by (nonlinear_arith)
                requires dv >= 4294967296, d >= 0;
        }
        m = m + 1;
    }
    if neg {
        if v <= 2147483648 {
            Some((0 - (v as i64)) as i32)
        } else {
            None
        }
    } else {
        if v <= 2147483647 {
            Some(v as i32)
        } else {
            None
        }
    }
}

/// Once a prefix of the literals holds one that does not fit, so do the literals.
proof fn lemma_literal_error_extends(s: Seq<char>, lits: Seq<Span>, j: int)
    requires
        0 <= j <= lits.len(),
        literal_values(s, lits.take(j)) is Err,
    ensures
        literal_values(s, lits) == literal_values(s, lits.take(j)),
    decreases lits.len() - j,
{
    if j < lits.len() {
        assert(lits.take(j + 1).drop_last() =~= lits.take(j));
        lemma_literal_error_extends(s, lits, j + 1);
    } else {
        assert(lits.take(j) =~= lits);
    }
}

/// The literal values of a clause and their largest magnitude.
fn clause_values(s: &Vec<char>, lits: &Vec<Span>) -> (r: Result<(Vec<i32>, u32), ParserError>)
    requires
        forall|m: int| 0 <= m < lits@.len() ==> token_ok(s@, #[trigger] lits@[m]),
    ensures
        match literal_values(s@, lits@) {
            Ok(c) => r matches Ok((v, mm)) && v@ == c && mm as nat == max_magnitude(c),
            Err(e) => r == Err::<(Vec<i32>, u32), ParserError>(e),
        },
{
    let mut vals: Vec<i32> = Vec::new();
    let mut mm: u32 = 0;
    let mut j: usize = 0;
    assert(lits@.take(0) =~= Seq::<Span>::empty());
    while j < lits.len()
        invariant
            0 <= j <= lits@.len(),
            forall|m: int| 0 <= m < lits@.len() ==> token_ok(s@, #[trigger] lits@[m]),
            literal_values(s@, lits@.take(j as int)) == Ok::<Seq<i32>, ParserError>(vals@),
            mm as nat == max_magnitude(vals@),
        decreases lits@.len() - j,
    {
        let sp = lits[j];
        assert(lits@.take(j + 1).drop_last() =~= lits@.take(j as int));
        match token_to_i32(s, sp) {
            None => {
                proof {
                    lemma_literal_error_extends(s@, lits@, j + 1);
                }
                return Err(ParserError::InvalidInteger { pos: sp.start });
            },
            Some(v) => {
                let mag: u32 = if v < 0 {
                    (0 - (v as i64)) as u32
                } else {
                    v as u32
                };
                assert(vals@.push(v).drop_last() =~= vals@);
                vals.push(v);
                if mag > mm {
                    mm = mag;
                }
            },
        }
        j = j + 1;
    }
    assert(lits@.take(j as int) =~= lits@);
    Ok((vals, mm))
}

pub open spec fn state_model(max_var: u32, dv: Option<u32>, dc: usize, clauses: Seq<Vec<i32>>) -> WalkState {
    WalkState {
        max_var: max_var as nat,
        declared_vars: match dv {
            Some(d) => Some(d as nat),
            None => None,
        },
        declared_clauses: dc as nat,
        clauses: clauses.map_values(|c: Vec<i32>| c@),
    }
}

/// The formula that walking the nodes gives.
pub open spec fn formula_of_nodes(s: Seq<char>, nodes: Seq<NodeModel>, strict: bool) -> Result<FormulaModel, ParserError> {
    match walk(s, nodes, 0, initial_state(), strict) {
        Err(e) => Err(e),
        Ok(st) => finish(st, strict),
    }
}

/// Turns a parse tree into a formula under the strict or lenient policy.
pub fn build_formula(s: &Vec<char>, nodes: &Vec<Node>, strict: bool) -> (r: Result<CnfFormula, ParserError>)
    requires
        forall|m: int| 0 <= m < nodes@.len() ==> node_ok(s@, #[trigger] nodes@[m]@),
    ensures
        match formula_of_nodes(s@, nodes@.map_values(|n: Node| n@), strict) {
            Ok(f) => r matches Ok(g) && g@ == f,
            Err(e) => r == Err::<CnfFormula, ParserError>(e),
        },
{
    let ghost ns = nodes@.map_values(|n: Node| n@);
    let mut max_var: u32 = 0;
    let mut declared_vars: Option<u32> = None;
    let mut declared_clauses: usize = 0;
    let mut clauses: Vec<Vec<i32>> = Vec::new();
    let mut k: usize = 0;
    assert(state_model(max_var, declared_vars, declared_clauses, clauses@) =~= initial_state()) by {
        assert(clauses@.map_values(|c: Vec<i32>| c@) =~= Seq::<Seq<i32>>::empty());
    }
    while k < nodes.len()
        invariant
            0 <= k <= nodes@.len(),
            ns == nodes@.map_values(|n: Node| n@),
            forall|m: int| 0 <= m < nodes@.len() ==> node_ok(s@, #[trigger] nodes@[m]@),
            walk(s@, ns, 0, initial_state(), strict) == walk(
                s@,
                ns,
                k as int,
                state_model(max_var, declared_vars, declared_clauses, clauses@),
                strict,
            ),
        ensures
            walk(s@, ns, 0, initial_state(), strict) == Ok::<WalkState, ParserError>(
                state_model(max_var, declared_vars, declared_clauses, clauses@),
            ),
        decreases nodes@.len() - k,
    {
        assert(node_ok(s@, ns[k as int]));
        match &nodes[k] {
            Node::Clause { literals } => {
                if strict && declared_clauses > 0 && clauses.len() >= declared_clauses {
                    break;
                }
                match clause_values(s, literals) {
                    Err(e) => return Err(e),
                    Ok((c, mm)) => {
                        proof {
                            assert(clauses@.push(c).map_values(|c: Vec<i32>| c@) =~= clauses@.map_values(
                                |c: Vec<i32>| c@,
                            ).push(c@));
                        }
                        clauses.push(c);
                        if mm > max_var {
                            max_var = mm;
                        }
                    },
                }
            },
            Node::Declaration { vars, clauses: counted } => {
                let v = match token_to_i32(s, *vars) {
                    None => return Err(ParserError::InvalidInteger { pos: vars.start }),
                    Some(v) => v,
                };
                let c = match token_to_i32(s, *counted) {
                    None => return Err(ParserError::InvalidInteger { pos: counted.start }),
                    Some(c) => c,
                };
                declared_vars = Some(v as u32);
                declared_clauses = c as usize;
            },
        }
        k = k + 1;
    }
    let num_vars: u32 = if strict {
        match declared_vars {
            None => return Err(ParserError::TooManyVariables(max_var, None)),
            Some(d) => {
                if max_var > d {
                    return Err(ParserError::TooManyVariables(max_var, Some(d)));
                }
                d
            },
        }
    } else {
        max_var
    };
    let num_clauses = clauses.len();
    Ok(CnfFormula { num_vars: num_vars as usize, num_clauses, clauses })
}

/// The characters of the text, in order.
fn chars_of(input: &str) -> (r: Vec<char>)
    ensures
        r@ == input@,
{
    let mut out: Vec<char> = Vec::new();
    for c in it: input.chars()
        invariant
            out@ == it.seq().take(it.index() as int),
    {
        out.push(c);
    }
    out
}

/// Parses a DIMACS CNF document.
///
/// In strict mode the declared variable count is authoritative: a literal
/// beyond it fails with `TooManyVariables`, and once the declared clause count
/// is reached the walk stops: later clauses and declarations are not read,
/// though the whole text must still fit the grammar. In lenient mode the
/// variable count is the largest variable used and every clause is kept.
pub fn parse_dimacs_cnf(input: &str, strict: bool) -> (r: Result<CnfFormula, ParserError>)
    ensures
        match parse_result(input@, strict) {
            Ok(f) => r matches Ok(g) && g@ == f,
            Err(e) => r == Err::<CnfFormula, ParserError>(e),
        },
        r matches Ok(g) ==> g.num_clauses == g.clauses@.len(),
{
    let s = chars_of(input);
    match scan_document(&s) {
        Err(p) => Err(ParserError::Syntax { pos: p }),
        Ok(nodes) => build_formula(&s, &nodes, strict),
    }
}

} // verus!
