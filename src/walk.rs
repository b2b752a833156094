//! The traversal shared by the consumers of the tree: a walk that visits
//! every node in source order, container before children, announcing each
//! node when it enters it and again when it leaves it.
//!
//! A consumer reads the visits in order and acts on the kinds it cares
//! about; the scope resolver, for one, opens a scope on entering a block
//! and closes it on leaving. There are no per-kind visit methods to
//! override: a consumer sees every node, and cannot skip a subtree (it
//! ignores the visits it does not care about). The printer, which needs the
//! shape of each node rather than a flat sequence, recurses on the tree by
//! itself.
use vstd::prelude::*;
use crate::ast::{
    Block, Node, Statement, Expression, Literal, Identifier, FunctionCall, Switch, Case,
    FunctionDefinition, VariableDeclaration, Assignment, ForLoop, SubAssembly,
};

verus! {

#[derive(Debug, Clone, Copy, PartialEq, Eq, Structural)]
pub enum NodeKind {
    Block,
    Statement,
    Expression,
    FunctionDefinition,
    VariableDeclaration,
    Assignment,
    Switch,
    Case,
    ForLoop,
    ControlOp,
    SubAssembly,
    FunctionCall,
    Identifier,
    Literal,
    HexNumber,
    DecNumber,
    StringLiteral,
    HexLiteral,
}

/// Entering (`enter`) or leaving a node.
#[derive(Debug, Clone, Copy, PartialEq, Eq, Structural)]
pub struct Visit {
    pub id: u64,
    pub kind: NodeKind,
    pub enter: bool,
}

/// The visits of a node: entering it, the visits of its children, leaving it.
pub open spec fn around(id: u64, kind: NodeKind, inner: Seq<Visit>) -> Seq<Visit> {
    seq![Visit { id, kind, enter: true }] + inner + seq![Visit { id, kind, enter: false }]
}

pub open spec fn leaf(id: u64, kind: NodeKind) -> Seq<Visit> {
    around(id, kind, Seq::empty())
}

/// The visits of the first `n` identifiers of `v`.
pub open spec fn identifiers_visits(v: Seq<Node<Identifier>>, n: nat) -> Seq<Visit>
    decreases n,
{
    if n == 0 || n > v.len() {
        Seq::empty()
    } else {
        identifiers_visits(v, (n - 1) as nat) + leaf(v[n - 1].id, NodeKind::Identifier)
    }
}

pub open spec fn literal_visits(l: Node<Literal>) -> Seq<Visit> {
    around(l.id, NodeKind::Literal, match l.node {
        Literal::HexNumber(n) => leaf(n.id, NodeKind::HexNumber),
        Literal::DecNumber(n) => leaf(n.id, NodeKind::DecNumber),
        Literal::StringLiteral(n) => leaf(n.id, NodeKind::StringLiteral),
        Literal::HexLiteral(n) => leaf(n.id, NodeKind::HexLiteral),
    })
}

pub open spec fn expression_visits(e: Node<Expression>) -> Seq<Visit>
    decreases e, 3nat,
{
    around(e.id, NodeKind::Expression, match e.node {
        Expression::Identifier(i) => leaf(i.id, NodeKind::Identifier),
        Expression::Literal(l) => literal_visits(l),
        Expression::FunctionCall(c) => function_call_visits(c),
    })
}

/// The visits of the first `n` arguments of the call.
pub open spec fn arguments_visits(c: FunctionCall, n: nat) -> Seq<Visit>
    decreases c, n,
{
    if n == 0 || n > c.arguments@.len() {
        Seq::empty()
    } else {
        arguments_visits(c, (n - 1) as nat) + expression_visits(c.arguments@[n - 1])
    }
}

pub open spec fn block_visits(b: Node<Block>) -> Seq<Visit>
    decreases b, 3nat,
{
    around(b.id, NodeKind::Block, statements_visits(b.node, b.node.statements@.len()))
}

/// The visits of the first `n` statements of the block.
pub open spec fn statements_visits(b: Block, n: nat) -> Seq<Visit>
    decreases b, n,
{
    if n == 0 || n > b.statements@.len() {
        Seq::empty()
    } else {
        statements_visits(b, (n - 1) as nat) + statement_visits(b.statements@[n - 1])
    }
}

/// The visits of the first `n` cases of the switch.
pub open spec fn cases_visits(w: Switch, n: nat) -> Seq<Visit>
    decreases w, n,
{
    if n == 0 || n > w.cases@.len() {
        Seq::empty()
    } else {
        cases_visits(w, (n - 1) as nat) + case_visits(w.cases@[n - 1])
    }
}

pub open spec fn function_call_visits(c: Node<FunctionCall>) -> Seq<Visit>
    decreases c, 2nat,
{
    around(c.id, NodeKind::FunctionCall,
        leaf(c.node.identifier.id, NodeKind::Identifier) + arguments_visits(c.node, c.node.arguments@.len()))
}

pub open spec fn function_definition_visits(f: Node<FunctionDefinition>) -> Seq<Visit>
    decreases f, 1nat,
{
    around(f.id, NodeKind::FunctionDefinition,
        leaf(f.node.identifier.id, NodeKind::Identifier)
        + identifiers_visits(f.node.arguments@, f.node.arguments@.len())
        + match f.node.returns {
            Some(r) => identifiers_visits(r@, r@.len()),
            None => Seq::empty(),
        }
        + block_visits(f.node.body))
}

pub open spec fn variable_declaration_visits(d: Node<VariableDeclaration>) -> Seq<Visit> {
    around(d.id, NodeKind::VariableDeclaration,
        identifiers_visits(d.node.identifiers@, d.node.identifiers@.len()) + expression_visits(d.node.expression))
}

pub open spec fn assignment_visits(a: Node<Assignment>) -> Seq<Visit> {
    around(a.id, NodeKind::Assignment,
        identifiers_visits(a.node.identifiers@, a.node.identifiers@.len()) + expression_visits(a.node.expression))
}

pub open spec fn case_visits(c: Node<Case>) -> Seq<Visit>
    decreases c, 1nat,
{
    around(c.id, NodeKind::Case, expression_visits(c.node.expression) + block_visits(c.node.block))
}

pub open spec fn switch_visits(w: Node<Switch>) -> Seq<Visit>
    decreases w, 1nat,
{
    around(w.id, NodeKind::Switch,
        expression_visits(w.node.expression) + cases_visits(w.node, w.node.cases@.len())
        + match w.node.default {
            Some(d) => block_visits(d),
            None => Seq::empty(),
        })
}

pub open spec fn for_loop_visits(f: Node<ForLoop>) -> Seq<Visit>
    decreases f, 1nat,
{
    around(f.id, NodeKind::ForLoop,
        block_visits(f.node.init) + expression_visits(f.node.condition) + block_visits(f.node.post)
        + block_visits(f.node.body))
}

pub open spec fn sub_assembly_visits(a: Node<SubAssembly>) -> Seq<Visit>
    decreases a, 1nat,
{
    around(a.id, NodeKind::SubAssembly, leaf(a.node.identifier.id, NodeKind::Identifier) + block_visits(a.node.block))
}

pub open spec fn statement_visits(s: Node<Statement>) -> Seq<Visit>
    decreases s, 2nat,
{
    around(s.id, NodeKind::Statement, match s.node {
        Statement::Block(b) => block_visits(b),
        Statement::FunctionDefinition(f) => function_definition_visits(f),
        Statement::VariableDeclaration(d) => variable_declaration_visits(d),
        Statement::Assignment(a) => assignment_visits(a),
        Statement::Expression(e) => expression_visits(e),
        Statement::Switch(w) => switch_visits(w),
        Statement::ForLoop(f) => for_loop_visits(f),
        Statement::ControlOp(o) => leaf(o.id, NodeKind::ControlOp),
        Statement::SubAssembly(a) => sub_assembly_visits(a),
    })
}

/// The nodes entered in `vs` have identifiers in `lo..hi`, no two the same.
pub open spec fn fresh_ids(vs: Seq<Visit>, lo: int, hi: int) -> bool {
    &&& forall|i: int| 0 <= i < vs.len() && (#[trigger] vs[i]).enter ==> lo <= vs[i].id < hi
    &&& forall|i: int, j: int|
        0 <= i < vs.len() && 0 <= j < vs.len() && i != j && (#[trigger] vs[i]).enter && (#[trigger] vs[j]).enter
            ==> vs[i].id != vs[j].id
}

pub proof fn lemma_fresh_empty(lo: int, hi: int)
    ensures
        fresh_ids(Seq::empty(), lo, hi),
{
}

pub proof fn lemma_fresh_concat(a: Seq<Visit>, b: Seq<Visit>, lo: int, mid1: int, mid2: int, hi: int)
    requires
        fresh_ids(a, lo, mid1),
        fresh_ids(b, mid2, hi),
        lo <= mid1 <= mid2 <= hi,
    ensures
        fresh_ids(a + b, lo, hi),
{
    let c = a + b;
    assert forall|i: int| 0 <= i < c.len() && (#[trigger] c[i]).enter implies lo <= c[i].id < hi by {
        if i < a.len() {
            assert(c[i] == a[i]);
        } else {
            assert(c[i] == b[i - a.len()]);
        }
    }
    assert forall|i: int, j: int|
        0 <= i < c.len() && 0 <= j < c.len() && i != j && (#[trigger] c[i]).enter && (#[trigger] c[j]).enter
            implies c[i].id != c[j].id by {
        if i < a.len() {
            assert(c[i] == a[i]);
        } else {
            assert(c[i] == b[i - a.len()]);
        }
        if j < a.len() {
            assert(c[j] == a[j]);
        } else {
            assert(c[j] == b[j - a.len()]);
        }
    }
}

/// A node built after its children, with the next identifier.
pub proof fn lemma_fresh_around(id: u64, kind: NodeKind, inner: Seq<Visit>, lo: int)
    requires
        fresh_ids(inner, lo, id as int),
        lo <= id,
    ensures
        fresh_ids(around(id, kind, inner), lo, id + 1),
{
    let e = seq![Visit { id, kind, enter: true }];
    let x = seq![Visit { id, kind, enter: false }];
    assert(fresh_ids(e, id as int, id + 1));
    assert(fresh_ids(x, id + 1, id + 1));
    assert(fresh_ids(e + inner, lo, id + 1)) by {
        let c = e + inner;
        assert forall|i: int| 0 <= i < c.len() && (#[trigger] c[i]).enter implies lo <= c[i].id < id + 1 by {
            if i > 0 {
                assert(c[i] == inner[i - 1]);
            }
        }
        assert forall|i: int, j: int|
            0 <= i < c.len() && 0 <= j < c.len() && i != j && (#[trigger] c[i]).enter && (#[trigger] c[j]).enter
                implies c[i].id != c[j].id by {
            if i > 0 {
                assert(c[i] == inner[i - 1]);
            }
            if j > 0 {
                assert(c[j] == inner[j - 1]);
            }
        }
    }
    lemma_fresh_concat(e + inner, x, lo, id + 1, id + 1, id + 1);
}

pub proof fn lemma_fresh_widen(vs: Seq<Visit>, lo: int, hi: int, lo2: int, hi2: int)
    requires
        fresh_ids(vs, lo, hi),
        lo2 <= lo,
        hi <= hi2,
    ensures
        fresh_ids(vs, lo2, hi2),
{
}

/// The visits of the first `n` expressions of `v`.
pub open spec fn expressions_visits(v: Seq<Node<Expression>>, n: nat) -> Seq<Visit>
    decreases n,
{
    if n == 0 || n > v.len() {
        Seq::empty()
    } else {
        expressions_visits(v, (n - 1) as nat) + expression_visits(v[n - 1])
    }
}

pub proof fn lemma_arguments_visits(c: FunctionCall, n: nat)
    ensures
        arguments_visits(c, n) == expressions_visits(c.arguments@, n),
    decreases n,
{
    if n > 0 && n <= c.arguments@.len() {
        lemma_arguments_visits(c, (n - 1) as nat);
    }
}

/// The visits of the first `n` statements of `v`.
pub open spec fn statement_list_visits(v: Seq<Node<Statement>>, n: nat) -> Seq<Visit>
    decreases n,
{
    if n == 0 || n > v.len() {
        Seq::empty()
    } else {
        statement_list_visits(v, (n - 1) as nat) + statement_visits(v[n - 1])
    }
}

pub proof fn lemma_statements_visits(b: Block, n: nat)
    ensures
        statements_visits(b, n) == statement_list_visits(b.statements@, n),
    decreases n,
{
    if n > 0 && n <= b.statements@.len() {
        lemma_statements_visits(b, (n - 1) as nat);
    }
}

/// The visits of the first `n` cases of `v`.
pub open spec fn case_list_visits(v: Seq<Node<Case>>, n: nat) -> Seq<Visit>
    decreases n,
{
    if n == 0 || n > v.len() {
        Seq::empty()
    } else {
        case_list_visits(v, (n - 1) as nat) + case_visits(v[n - 1])
    }
}

pub proof fn lemma_cases_visits(w: Switch, n: nat)
    ensures
        cases_visits(w, n) == case_list_visits(w.cases@, n),
    decreases n,
{
    if n > 0 && n <= w.cases@.len() {
        lemma_cases_visits(w, (n - 1) as nat);
    }
}

proof fn lemma_identifiers_visits_prefix(v: Seq<Node<Identifier>>, x: Node<Identifier>, n: nat)
    requires
        n <= v.len(),
    ensures
        identifiers_visits(v.push(x), n) == identifiers_visits(v, n),
    decreases n,
{
    if n > 0 {
        lemma_identifiers_visits_prefix(v, x, (n - 1) as nat);
        assert(v.push(x)[n - 1] == v[n - 1]);
    }
}

pub proof fn lemma_identifiers_visits_push(v: Seq<Node<Identifier>>, x: Node<Identifier>)
    ensures
        identifiers_visits(v.push(x), v.len() + 1) == identifiers_visits(v, v.len()) + leaf(x.id, NodeKind::Identifier),
{
    lemma_identifiers_visits_prefix(v, x, v.len());
    assert(v.push(x)[v.len() as int] == x);
}

proof fn lemma_expressions_visits_prefix(v: Seq<Node<Expression>>, x: Node<Expression>, n: nat)
    requires
        n <= v.len(),
    ensures
        expressions_visits(v.push(x), n) == expressions_visits(v, n),
    decreases n,
{
    if n > 0 {
        lemma_expressions_visits_prefix(v, x, (n - 1) as nat);
        assert(v.push(x)[n - 1] == v[n - 1]);
    }
}

pub proof fn lemma_expressions_visits_push(v: Seq<Node<Expression>>, x: Node<Expression>)
    ensures
        expressions_visits(v.push(x), v.len() + 1) == expressions_visits(v, v.len()) + expression_visits(x),
{
    lemma_expressions_visits_prefix(v, x, v.len());
    assert(v.push(x)[v.len() as int] == x);
}

proof fn lemma_statement_list_visits_prefix(v: Seq<Node<Statement>>, x: Node<Statement>, n: nat)
    requires
        n <= v.len(),
    ensures
        statement_list_visits(v.push(x), n) == statement_list_visits(v, n),
    decreases n,
{
    if n > 0 {
        lemma_statement_list_visits_prefix(v, x, (n - 1) as nat);
        assert(v.push(x)[n - 1] == v[n - 1]);
    }
}

pub proof fn lemma_statement_list_visits_push(v: Seq<Node<Statement>>, x: Node<Statement>)
    ensures
        statement_list_visits(v.push(x), v.len() + 1) == statement_list_visits(v, v.len()) + statement_visits(x),
{
    lemma_statement_list_visits_prefix(v, x, v.len());
    assert(v.push(x)[v.len() as int] == x);
}

proof fn lemma_case_list_visits_prefix(v: Seq<Node<Case>>, x: Node<Case>, n: nat)
    requires
        n <= v.len(),
    ensures
        case_list_visits(v.push(x), n) == case_list_visits(v, n),
    decreases n,
{
    if n > 0 {
        lemma_case_list_visits_prefix(v, x, (n - 1) as nat);
        assert(v.push(x)[n - 1] == v[n - 1]);
    }
}

pub proof fn lemma_case_list_visits_push(v: Seq<Node<Case>>, x: Node<Case>)
    ensures
        case_list_visits(v.push(x), v.len() + 1) == case_list_visits(v, v.len()) + case_visits(x),
{
    lemma_case_list_visits_prefix(v, x, v.len());
    assert(v.push(x)[v.len() as int] == x);
}

pub proof fn lemma_fresh_leaf(id: u64, kind: NodeKind)
    ensures
        fresh_ids(leaf(id, kind), id as int, id + 1),
{
    lemma_fresh_empty(id as int, id as int);
    lemma_fresh_around(id, kind, Seq::empty(), id as int);
}

pub fn walk_identifier(i: &Node<Identifier>, out: &mut Vec<Visit>)
    ensures
        final(out)@ == old(out)@ + leaf(i.id, NodeKind::Identifier),
{
    let ghost start = out@;
    out.push(Visit { id: i.id, kind: NodeKind::Identifier, enter: true });
    out.push(Visit { id: i.id, kind: NodeKind::Identifier, enter: false });
    assert(out@ =~= start + leaf(i.id, NodeKind::Identifier));
}

pub fn walk_identifiers(v: &Vec<Node<Identifier>>, out: &mut Vec<Visit>)
    ensures
        final(out)@ == old(out)@ + identifiers_visits(v@, v@.len()),
{
    let ghost start = out@;
    let mut j: usize = 0;
    assert(start + Seq::<Visit>::empty() =~= start);
    while j < v.len()
        invariant
            j <= v@.len(),
            out@ == start + identifiers_visits(v@, j as nat),
        decreases v@.len() - j,
    {
        walk_identifier(&v[j], out);
        assert(identifiers_visits(v@, (j + 1) as nat) == identifiers_visits(v@, j as nat) + leaf(v@[j as int].id, NodeKind::Identifier));
        assert(out@ =~= start + identifiers_visits(v@, (j + 1) as nat));
        j = j + 1;
    }
}

fn walk_leaf(id: u64, kind: NodeKind, out: &mut Vec<Visit>)
    ensures
        final(out)@ == old(out)@ + leaf(id, kind),
{
    let ghost start = out@;
    out.push(Visit { id, kind, enter: true });
    out.push(Visit { id, kind, enter: false });
    assert(out@ =~= start + leaf(id, kind));
}

pub fn walk_literal(l: &Node<Literal>, out: &mut Vec<Visit>)
    ensures
        final(out)@ == old(out)@ + literal_visits(*l),
{
    let ghost start = out@;
    out.push(Visit { id: l.id, kind: NodeKind::Literal, enter: true });
    match &l.node {
        Literal::HexNumber(n) => walk_leaf(n.id, NodeKind::HexNumber, out),
        Literal::DecNumber(n) => walk_leaf(n.id, NodeKind::DecNumber, out),
        Literal::StringLiteral(n) => walk_leaf(n.id, NodeKind::StringLiteral, out),
        Literal::HexLiteral(n) => walk_leaf(n.id, NodeKind::HexLiteral, out),
    }
    out.push(Visit { id: l.id, kind: NodeKind::Literal, enter: false });
    assert(out@ =~= start + literal_visits(*l));
}

pub fn walk_expression(e: &Node<Expression>, out: &mut Vec<Visit>)
    ensures
        final(out)@ == old(out)@ + expression_visits(*e),
    decreases *e, 3nat,
{
    let ghost start = out@;
    out.push(Visit { id: e.id, kind: NodeKind::Expression, enter: true });
    match &e.node {
        Expression::Identifier(i) => walk_identifier(i, out),
        Expression::Literal(l) => walk_literal(l, out),
        Expression::FunctionCall(c) => walk_function_call(c, out),
    }
    out.push(Visit { id: e.id, kind: NodeKind::Expression, enter: false });
    assert(out@ =~= start + expression_visits(*e));
}

pub fn walk_function_call(c: &Node<FunctionCall>, out: &mut Vec<Visit>)
    ensures
        final(out)@ == old(out)@ + function_call_visits(*c),
    decreases *c, 2nat,
{
    let ghost start = out@;
    out.push(Visit { id: c.id, kind: NodeKind::FunctionCall, enter: true });
    walk_identifier(&c.node.identifier, out);
    let ghost mid = out@;
    let args = &c.node.arguments;
    let mut j: usize = 0;
    assert(mid + Seq::<Visit>::empty() =~= mid);
    while j < args.len()
        invariant
            *args == c.node.arguments,
            j <= args@.len(),
            out@ == mid + arguments_visits(c.node, j as nat),
        decreases args@.len() - j,
    {
        proof {
            let ghost a = args@[j as int];
            assert(decreases_to!(*c => c.node));
            assert(decreases_to!(c.node => c.node.arguments));
            assert(decreases_to!(*args => args@));
            assert(decreases_to!(args@ => a));
        }
        walk_expression(&args[j], out);
        assert(out@ =~= mid + arguments_visits(c.node, (j + 1) as nat));
        j = j + 1;
    }
    out.push(Visit { id: c.id, kind: NodeKind::FunctionCall, enter: false });
    assert(out@ =~= start + function_call_visits(*c));
}

pub fn walk_block(b: &Node<Block>, out: &mut Vec<Visit>)
    ensures
        final(out)@ == old(out)@ + block_visits(*b),
    decreases *b, 3nat,
{
    let ghost start = out@;
    out.push(Visit { id: b.id, kind: NodeKind::Block, enter: true });
    let ghost mid = out@;
    let stmts = &b.node.statements;
    let mut j: usize = 0;
    assert(mid + Seq::<Visit>::empty() =~= mid);
    while j < stmts.len()
        invariant
            *stmts == b.node.statements,
            j <= stmts@.len(),
            out@ == mid + statements_visits(b.node, j as nat),
        decreases stmts@.len() - j,
    {
        proof {
            let ghost a = stmts@[j as int];
            assert(decreases_to!(*b => b.node));
            assert(decreases_to!(b.node => b.node.statements));
            assert(decreases_to!(*stmts => stmts@));
            assert(decreases_to!(stmts@ => a));
        }
        walk_statement(&stmts[j], out);
        assert(out@ =~= mid + statements_visits(b.node, (j + 1) as nat));
        j = j + 1;
    }
    out.push(Visit { id: b.id, kind: NodeKind::Block, enter: false });
    assert(out@ =~= start + block_visits(*b));
}

pub fn walk_function_definition(f: &Node<FunctionDefinition>, out: &mut Vec<Visit>)
    ensures
        final(out)@ == old(out)@ + function_definition_visits(*f),
    decreases *f, 1nat,
{
    let ghost start = out@;
    out.push(Visit { id: f.id, kind: NodeKind::FunctionDefinition, enter: true });
    walk_identifier(&f.node.identifier, out);
    walk_identifiers(&f.node.arguments, out);
    match &f.node.returns {
        Some(r) => walk_identifiers(r, out),
        None => {},
    }
    walk_block(&f.node.body, out);
    out.push(Visit { id: f.id, kind: NodeKind::FunctionDefinition, enter: false });
    assert(out@ =~= start + function_definition_visits(*f));
}

pub fn walk_variable_declaration(d: &Node<VariableDeclaration>, out: &mut Vec<Visit>)
    ensures
        final(out)@ == old(out)@ + variable_declaration_visits(*d),
{
    let ghost start = out@;
    out.push(Visit { id: d.id, kind: NodeKind::VariableDeclaration, enter: true });
    walk_identifiers(&d.node.identifiers, out);
    walk_expression(&d.node.expression, out);
    out.push(Visit { id: d.id, kind: NodeKind::VariableDeclaration, enter: false });
    assert(out@ =~= start + variable_declaration_visits(*d));
}

pub fn walk_assignment(a: &Node<Assignment>, out: &mut Vec<Visit>)
    ensures
        final(out)@ == old(out)@ + assignment_visits(*a),
{
    let ghost start = out@;
    out.push(Visit { id: a.id, kind: NodeKind::Assignment, enter: true });
    walk_identifiers(&a.node.identifiers, out);
    walk_expression(&a.node.expression, out);
    out.push(Visit { id: a.id, kind: NodeKind::Assignment, enter: false });
    assert(out@ =~= start + assignment_visits(*a));
}

pub fn walk_case(c: &Node<Case>, out: &mut Vec<Visit>)
    ensures
        final(out)@ == old(out)@ + case_visits(*c),
    decreases *c, 1nat,
{
    let ghost start = out@;
    out.push(Visit { id: c.id, kind: NodeKind::Case, enter: true });
    walk_expression(&c.node.expression, out);
    walk_block(&c.node.block, out);
    out.push(Visit { id: c.id, kind: NodeKind::Case, enter: false });
    assert(out@ =~= start + case_visits(*c));
}

pub fn walk_switch(w: &Node<Switch>, out: &mut Vec<Visit>)
    ensures
        final(out)@ == old(out)@ + switch_visits(*w),
    decreases *w, 1nat,
{
    let ghost start = out@;
    out.push(Visit { id: w.id, kind: NodeKind::Switch, enter: true });
    walk_expression(&w.node.expression, out);
    let ghost mid = out@;
    let cs = &w.node.cases;
    let mut j: usize = 0;
    assert(mid + Seq::<Visit>::empty() =~= mid);
    while j < cs.len()
        invariant
            *cs == w.node.cases,
            j <= cs@.len(),
            out@ == mid + cases_visits(w.node, j as nat),
        decreases cs@.len() - j,
    {
        proof {
            let ghost a = cs@[j as int];
            assert(decreases_to!(*w => w.node));
            assert(decreases_to!(w.node => w.node.cases));
            assert(decreases_to!(*cs => cs@));
            assert(decreases_to!(cs@ => a));
        }
        walk_case(&cs[j], out);
        assert(out@ =~= mid + cases_visits(w.node, (j + 1) as nat));
        j = j + 1;
    }
    match &w.node.default {
        Some(d) => walk_block(d, out),
        None => {},
    }
    out.push(Visit { id: w.id, kind: NodeKind::Switch, enter: false });
    assert(out@ =~= start + switch_visits(*w));
}

pub fn walk_for_loop(f: &Node<ForLoop>, out: &mut Vec<Visit>)
    ensures
        final(out)@ == old(out)@ + for_loop_visits(*f),
    decreases *f, 1nat,
{
    let ghost start = out@;
    out.push(Visit { id: f.id, kind: NodeKind::ForLoop, enter: true });
    walk_block(&f.node.init, out);
    walk_expression(&f.node.condition, out);
    walk_block(&f.node.post, out);
    walk_block(&f.node.body, out);
    out.push(Visit { id: f.id, kind: NodeKind::ForLoop, enter: false });
    assert(out@ =~= start + for_loop_visits(*f));
}

pub fn walk_sub_assembly(a: &Node<SubAssembly>, out: &mut Vec<Visit>)
    ensures
        final(out)@ == old(out)@ + sub_assembly_visits(*a),
    decreases *a, 1nat,
{
    let ghost start = out@;
    out.push(Visit { id: a.id, kind: NodeKind::SubAssembly, enter: true });
    walk_identifier(&a.node.identifier, out);
    walk_block(&a.node.block, out);
    out.push(Visit { id: a.id, kind: NodeKind::SubAssembly, enter: false });
    assert(out@ =~= start + sub_assembly_visits(*a));
}

pub fn walk_statement(s: &Node<Statement>, out: &mut Vec<Visit>)
    ensures
        final(out)@ == old(out)@ + statement_visits(*s),
    decreases *s, 2nat,
{
    let ghost start = out@;
    out.push(Visit { id: s.id, kind: NodeKind::Statement, enter: true });
    match &s.node {
        Statement::Block(b) => walk_block(b, out),
        Statement::FunctionDefinition(f) => walk_function_definition(f, out),
        Statement::VariableDeclaration(d) => walk_variable_declaration(d, out),
        Statement::Assignment(a) => walk_assignment(a, out),
        Statement::Expression(e) => walk_expression(e, out),
        Statement::Switch(w) => walk_switch(w, out),
        Statement::ForLoop(f) => walk_for_loop(f, out),
        Statement::ControlOp(o) => walk_leaf(o.id, NodeKind::ControlOp, out),
        Statement::SubAssembly(a) => walk_sub_assembly(a, out),
    }
    out.push(Visit { id: s.id, kind: NodeKind::Statement, enter: false });
    assert(out@ =~= start + statement_visits(*s));
}

/// Every visit of a program, in order.
pub fn walk(root: &Node<Block>) -> (r: Vec<Visit>)
    ensures
        r@ == block_visits(*root),
{
    let mut out: Vec<Visit> = Vec::new();
    walk_block(root, &mut out);
    assert(out@ =~= block_visits(*root));
    out
}

} // verus!
