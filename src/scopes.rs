//! Scope resolution: walks a program and builds its tree of scopes, one for
//! each block, recording for every node the scope it stands in.
//!
//! The resolver reads the visits of the walk in order, holding a stack of
//! open scopes whose top is the current one (at first the global scope 0).
//! Entering a block opens a new scope inside the current one; the block
//! itself and everything in it stand in that scope until the block is left.
use vstd::prelude::*;
use crate::ast::{Block, Node, Statement, Expression, Literal, Identifier, FunctionCall, Switch};
use std::collections::HashMap;
use crate::symbols::{Sid, SymbolTable, TableModel};
use crate::walk::{
    NodeKind, Visit, walk, around, leaf, block_visits, statements_visits, statement_visits,
    expression_visits, arguments_visits, function_call_visits, literal_visits, identifiers_visits,
    function_definition_visits, variable_declaration_visits, assignment_visits, case_visits,
    cases_visits, switch_visits, for_loop_visits, sub_assembly_visits,
};

verus! {

/// The model of the resolver: its table, its stack of open scopes, the
/// scope of each node entered so far (in order of entry), and the block
/// each scope was opened for.
pub struct ResolveState {
    pub table: TableModel,
    pub stack: Seq<nat>,
    pub sids: Seq<(u64, nat)>,
    pub origins: Seq<(nat, u64)>,
}

pub open spec fn initial_state() -> ResolveState {
    ResolveState {
        table: TableModel { parents: seq![None], bindings: Seq::empty() },
        stack: seq![0nat],
        sids: Seq::empty(),
        origins: Seq::empty(),
    }
}

/// What one visit does to the resolver.
pub open spec fn step(st: ResolveState, v: Visit) -> ResolveState {
    let top = st.stack.last();
    if v.enter {
        if v.kind == NodeKind::Block {
            let sid = st.table.parents.len();
            ResolveState {
                table: st.table.with_subscope(top),
                stack: st.stack.push(sid),
                sids: st.sids.push((v.id, sid)),
                origins: st.origins.push((sid, v.id)),
            }
        } else {
            ResolveState { table: st.table, stack: st.stack, sids: st.sids.push((v.id, top)), origins: st.origins }
        }
    } else if v.kind == NodeKind::Block && st.stack.len() > 1 {
        ResolveState { table: st.table, stack: st.stack.drop_last(), sids: st.sids, origins: st.origins }
    } else {
        st
    }
}

/// The resolver after the visits `vs`, from state `st`.
pub open spec fn run_from(st: ResolveState, vs: Seq<Visit>) -> ResolveState
    decreases vs.len(),
{
    if vs.len() == 0 {
        st
    } else {
        step(run_from(st, vs.drop_last()), vs.last())
    }
}

/// The resolution of a program: the resolver after all the visits of its walk.
pub open spec fn resolution(root: Node<Block>) -> ResolveState {
    run_from(initial_state(), block_visits(root))
}

pub open spec fn state_wf(st: ResolveState) -> bool {
    &&& st.table.wf()
    &&& st.stack.len() >= 1
    &&& forall|i: int| 0 <= i < st.stack.len() ==> #[trigger] st.stack[i] < st.table.parents.len()
}

proof fn lemma_step_wf(st: ResolveState, v: Visit)
    requires
        state_wf(st),
    ensures
        state_wf(step(st, v)),
{
    let n = step(st, v);
    if v.enter && v.kind == NodeKind::Block {
        let top = st.stack.last();
        assert(st.stack[st.stack.len() - 1] < st.table.parents.len());
        let t = st.table.with_subscope(top);
        assert forall|i: int| 0 <= i < t.bindings.len() implies #[trigger] t.bindings[i].scope < t.parents.len() by {
            assert(st.table.bindings[i].scope < st.table.parents.len());
        }
        assert forall|i: int| 1 <= i < t.parents.len() implies (#[trigger] t.parents[i] is Some) && t.parents[i]->0 < i by {
            if i < st.table.parents.len() {
                assert(st.table.parents[i] is Some);
            }
        }
        assert forall|i: int| 0 <= i < n.stack.len() implies #[trigger] n.stack[i] < n.table.parents.len() by {
            if i < st.stack.len() {
                assert(st.stack[i] < st.table.parents.len());
            }
        }
    } else if !v.enter && v.kind == NodeKind::Block && st.stack.len() > 1 {
        assert forall|i: int| 0 <= i < n.stack.len() implies #[trigger] n.stack[i] < n.table.parents.len() by {
            assert(st.stack[i] < st.table.parents.len());
        }
    }
}

proof fn lemma_run_wf(st: ResolveState, vs: Seq<Visit>)
    requires
        state_wf(st),
    ensures
        state_wf(run_from(st, vs)),
    decreases vs.len(),
{
    if vs.len() > 0 {
        lemma_run_wf(st, vs.drop_last());
        lemma_step_wf(run_from(st, vs.drop_last()), vs.last());
    }
}

/// Running two stretches of visits one after the other.
proof fn lemma_run_concat(st: ResolveState, a: Seq<Visit>, b: Seq<Visit>)
    ensures
        run_from(st, a + b) == run_from(run_from(st, a), b),
    decreases b.len(),
{
    if b.len() == 0 {
        assert(a + b =~= a);
    } else {
        assert((a + b).drop_last() =~= a + b.drop_last());
        assert((a + b).last() == b.last());
        lemma_run_concat(st, a, b.drop_last());
    }
}

/// The resolver only adds: the scopes and the node entries it had stay as they were.
proof fn lemma_run_extends(st: ResolveState, vs: Seq<Visit>)
    ensures
        run_from(st, vs).sids.len() >= st.sids.len(),
        forall|k: int| 0 <= k < st.sids.len() ==> #[trigger] run_from(st, vs).sids[k] == st.sids[k],
        run_from(st, vs).table.parents.len() >= st.table.parents.len(),
        forall|k: int| 0 <= k < st.table.parents.len() ==> #[trigger] run_from(st, vs).table.parents[k] == st.table.parents[k],
        forall|i: int| 0 <= i < vs.len() && (#[trigger] vs[i]).enter ==>
            exists|k: int| 0 <= k < run_from(st, vs).sids.len() && (#[trigger] run_from(st, vs).sids[k]).0 == vs[i].id,
    decreases vs.len(),
{
    if vs.len() > 0 {
        let pre = vs.drop_last();
        lemma_run_extends(st, pre);
        let m = run_from(st, pre);
        let r = run_from(st, vs);
        assert(r == step(m, vs.last()));
        assert forall|k: int| 0 <= k < m.sids.len() implies #[trigger] r.sids[k] == m.sids[k] by {}
        assert forall|k: int| 0 <= k < m.table.parents.len() implies #[trigger] r.table.parents[k] == m.table.parents[k] by {}
        assert forall|i: int| 0 <= i < vs.len() && (#[trigger] vs[i]).enter implies
            exists|k: int| 0 <= k < r.sids.len() && (#[trigger] r.sids[k]).0 == vs[i].id by {
            if i < vs.len() - 1 {
                assert(pre[i] == vs[i]);
                let k = choose|k: int| 0 <= k < m.sids.len() && (#[trigger] m.sids[k]).0 == pre[i].id;
                assert(r.sids[k] == m.sids[k]);
            } else {
                assert(r.sids[m.sids.len() as int].0 == vs[i].id);
            }
        }
    }
}

/// Visits that leave the stack of open scopes as they found it.
pub open spec fn balanced(vs: Seq<Visit>) -> bool {
    forall|st: ResolveState| state_wf(st) ==> (#[trigger] run_from(st, vs)).stack == st.stack
}

proof fn lemma_balanced_concat(a: Seq<Visit>, b: Seq<Visit>)
    requires
        balanced(a),
        balanced(b),
    ensures
        balanced(a + b),
{
    assert forall|st: ResolveState| state_wf(st) implies (#[trigger] run_from(st, a + b)).stack == st.stack by {
        lemma_run_concat(st, a, b);
        lemma_run_wf(st, a);
        assert(run_from(st, a).stack == st.stack);
        assert(run_from(run_from(st, a), b).stack == run_from(st, a).stack);
    }
}

proof fn lemma_balanced_empty()
    ensures
        balanced(Seq::<Visit>::empty()),
{
    assert forall|st: ResolveState| state_wf(st) implies (#[trigger] run_from(st, Seq::<Visit>::empty())).stack == st.stack by {}
}

proof fn lemma_run_one(st: ResolveState, v: Visit)
    ensures
        run_from(st, seq![v]) == step(st, v),
{
    let one = seq![v];
    assert(one.drop_last() =~= Seq::<Visit>::empty());
    assert(one.last() == v);
    assert(run_from(st, one.drop_last()) == st);
}

/// A node's visits are balanced when its children's are.
proof fn lemma_balanced_around(id: u64, kind: NodeKind, inner: Seq<Visit>)
    requires
        balanced(inner),
    ensures
        balanced(around(id, kind, inner)),
{
    let enter = Visit { id, kind, enter: true };
    let exit = Visit { id, kind, enter: false };
    assert forall|st: ResolveState| state_wf(st) implies (#[trigger] run_from(st, around(id, kind, inner))).stack == st.stack by {
        let s1 = step(st, enter);
        lemma_run_one(st, enter);
        lemma_step_wf(st, enter);
        lemma_run_concat(st, seq![enter], inner);
        let s2 = run_from(s1, inner);
        assert(s2.stack == s1.stack);
        lemma_run_concat(st, seq![enter] + inner, seq![exit]);
        lemma_run_one(s2, exit);
        assert(around(id, kind, inner) == seq![enter] + inner + seq![exit]);
        if kind == NodeKind::Block {
            assert(s1.stack == st.stack.push(st.table.parents.len()));
            assert(s1.stack.drop_last() =~= st.stack);
        }
    }
}

proof fn lemma_leaf_balanced(id: u64, kind: NodeKind)
    ensures
        balanced(leaf(id, kind)),
{
    lemma_balanced_empty();
    lemma_balanced_around(id, kind, Seq::empty());
}

proof fn lemma_identifiers_balanced(v: Seq<Node<Identifier>>, n: nat)
    ensures
        balanced(identifiers_visits(v, n)),
    decreases n,
{
    if n == 0 || n > v.len() {
        lemma_balanced_empty();
    } else {
        lemma_identifiers_balanced(v, (n - 1) as nat);
        lemma_leaf_balanced(v[n - 1].id, NodeKind::Identifier);
        lemma_balanced_concat(identifiers_visits(v, (n - 1) as nat), leaf(v[n - 1].id, NodeKind::Identifier));
    }
}

proof fn lemma_literal_balanced(l: Node<Literal>)
    ensures
        balanced(literal_visits(l)),
{
    match l.node {
        Literal::HexNumber(n) => lemma_leaf_balanced(n.id, NodeKind::HexNumber),
        Literal::DecNumber(n) => lemma_leaf_balanced(n.id, NodeKind::DecNumber),
        Literal::StringLiteral(n) => lemma_leaf_balanced(n.id, NodeKind::StringLiteral),
        Literal::HexLiteral(n) => lemma_leaf_balanced(n.id, NodeKind::HexLiteral),
    }
    let inner = match l.node {
        Literal::HexNumber(n) => leaf(n.id, NodeKind::HexNumber),
        Literal::DecNumber(n) => leaf(n.id, NodeKind::DecNumber),
        Literal::StringLiteral(n) => leaf(n.id, NodeKind::StringLiteral),
        Literal::HexLiteral(n) => leaf(n.id, NodeKind::HexLiteral),
    };
    lemma_balanced_around(l.id, NodeKind::Literal, inner);
}

proof fn lemma_expression_balanced(e: Node<Expression>)
    ensures
        balanced(expression_visits(e)),
    decreases e, 3nat,
{
    match e.node {
        Expression::Identifier(i) => {
            lemma_leaf_balanced(i.id, NodeKind::Identifier);
            lemma_balanced_around(e.id, NodeKind::Expression, leaf(i.id, NodeKind::Identifier));
        },
        Expression::Literal(l) => {
            lemma_literal_balanced(l);
            lemma_balanced_around(e.id, NodeKind::Expression, literal_visits(l));
        },
        Expression::FunctionCall(c) => {
            lemma_function_call_balanced(c);
            lemma_balanced_around(e.id, NodeKind::Expression, function_call_visits(c));
        },
    }
}

proof fn lemma_arguments_balanced(c: FunctionCall, n: nat)
    ensures
        balanced(arguments_visits(c, n)),
    decreases c, n,
{
    if n == 0 || n > c.arguments@.len() {
        lemma_balanced_empty();
    } else {
        lemma_arguments_balanced(c, (n - 1) as nat);
        lemma_expression_balanced(c.arguments@[n - 1]);
        lemma_balanced_concat(arguments_visits(c, (n - 1) as nat), expression_visits(c.arguments@[n - 1]));
    }
}

proof fn lemma_function_call_balanced(c: Node<FunctionCall>)
    ensures
        balanced(function_call_visits(c)),
    decreases c, 2nat,
{
    lemma_leaf_balanced(c.node.identifier.id, NodeKind::Identifier);
    lemma_arguments_balanced(c.node, c.node.arguments@.len());
    lemma_balanced_concat(leaf(c.node.identifier.id, NodeKind::Identifier), arguments_visits(c.node, c.node.arguments@.len()));
    lemma_balanced_around(c.id, NodeKind::FunctionCall,
        leaf(c.node.identifier.id, NodeKind::Identifier) + arguments_visits(c.node, c.node.arguments@.len()));
}

proof fn lemma_block_balanced(b: Node<Block>)
    ensures
        balanced(block_visits(b)),
    decreases b, 3nat,
{
    lemma_statements_balanced(b.node, b.node.statements@.len());
    lemma_balanced_around(b.id, NodeKind::Block, statements_visits(b.node, b.node.statements@.len()));
}

proof fn lemma_statements_balanced(b: Block, n: nat)
    ensures
        balanced(statements_visits(b, n)),
    decreases b, n,
{
    if n == 0 || n > b.statements@.len() {
        lemma_balanced_empty();
    } else {
        lemma_statements_balanced(b, (n - 1) as nat);
        lemma_statement_balanced(b.statements@[n - 1]);
        lemma_balanced_concat(statements_visits(b, (n - 1) as nat), statement_visits(b.statements@[n - 1]));
    }
}

proof fn lemma_cases_balanced(w: Switch, n: nat)
    ensures
        balanced(cases_visits(w, n)),
    decreases w, n,
{
    if n == 0 || n > w.cases@.len() {
        lemma_balanced_empty();
    } else {
        lemma_cases_balanced(w, (n - 1) as nat);
        let c = w.cases@[n - 1];
        lemma_expression_balanced(c.node.expression);
        lemma_block_balanced(c.node.block);
        lemma_balanced_concat(expression_visits(c.node.expression), block_visits(c.node.block));
        lemma_balanced_around(c.id, NodeKind::Case, expression_visits(c.node.expression) + block_visits(c.node.block));
        lemma_balanced_concat(cases_visits(w, (n - 1) as nat), case_visits(c));
    }
}

proof fn lemma_statement_balanced(s: Node<Statement>)
    ensures
        balanced(statement_visits(s)),
    decreases s, 2nat,
{
    let inner = match s.node {
        Statement::Block(b) => block_visits(b),
        Statement::FunctionDefinition(f) => function_definition_visits(f),
        Statement::VariableDeclaration(d) => variable_declaration_visits(d),
        Statement::Assignment(a) => assignment_visits(a),
        Statement::Expression(e) => expression_visits(e),
        Statement::Switch(w) => switch_visits(w),
        Statement::ForLoop(f) => for_loop_visits(f),
        Statement::ControlOp(o) => leaf(o.id, NodeKind::ControlOp),
        Statement::SubAssembly(a) => sub_assembly_visits(a),
    };
    match s.node {
        Statement::Block(b) => lemma_block_balanced(b),
        Statement::FunctionDefinition(f) => {
            let ids = leaf(f.node.identifier.id, NodeKind::Identifier);
            let args = identifiers_visits(f.node.arguments@, f.node.arguments@.len());
            let rets = match f.node.returns {
                Some(r) => identifiers_visits(r@, r@.len()),
                None => Seq::empty(),
            };
            lemma_leaf_balanced(f.node.identifier.id, NodeKind::Identifier);
            lemma_identifiers_balanced(f.node.arguments@, f.node.arguments@.len());
            match f.node.returns {
                Some(r) => lemma_identifiers_balanced(r@, r@.len()),
                None => lemma_balanced_empty(),
            }
            lemma_block_balanced(f.node.body);
            lemma_balanced_concat(ids, args);
            lemma_balanced_concat(ids + args, rets);
            lemma_balanced_concat(ids + args + rets, block_visits(f.node.body));
            lemma_balanced_around(f.id, NodeKind::FunctionDefinition, ids + args + rets + block_visits(f.node.body));
        },
        Statement::VariableDeclaration(d) => {
            lemma_identifiers_balanced(d.node.identifiers@, d.node.identifiers@.len());
            lemma_expression_balanced(d.node.expression);
            lemma_balanced_concat(identifiers_visits(d.node.identifiers@, d.node.identifiers@.len()), expression_visits(d.node.expression));
            lemma_balanced_around(d.id, NodeKind::VariableDeclaration,
                identifiers_visits(d.node.identifiers@, d.node.identifiers@.len()) + expression_visits(d.node.expression));
        },
        Statement::Assignment(a) => {
            lemma_identifiers_balanced(a.node.identifiers@, a.node.identifiers@.len());
            lemma_expression_balanced(a.node.expression);
            lemma_balanced_concat(identifiers_visits(a.node.identifiers@, a.node.identifiers@.len()), expression_visits(a.node.expression));
            lemma_balanced_around(a.id, NodeKind::Assignment,
                identifiers_visits(a.node.identifiers@, a.node.identifiers@.len()) + expression_visits(a.node.expression));
        },
        Statement::Expression(e) => lemma_expression_balanced(e),
        Statement::Switch(w) => {
            let x = expression_visits(w.node.expression);
            let cs = cases_visits(w.node, w.node.cases@.len());
            let d = match w.node.default {
                Some(d) => block_visits(d),
                None => Seq::empty(),
            };
            lemma_expression_balanced(w.node.expression);
            lemma_cases_balanced(w.node, w.node.cases@.len());
            match w.node.default {
                Some(db) => lemma_block_balanced(db),
                None => lemma_balanced_empty(),
            }
            lemma_balanced_concat(x, cs);
            lemma_balanced_concat(x + cs, d);
            lemma_balanced_around(w.id, NodeKind::Switch, x + cs + d);
        },
        Statement::ForLoop(f) => {
            lemma_block_balanced(f.node.init);
            lemma_expression_balanced(f.node.condition);
            lemma_block_balanced(f.node.post);
            lemma_block_balanced(f.node.body);
            let a = block_visits(f.node.init);
            let b = expression_visits(f.node.condition);
            let c = block_visits(f.node.post);
            let d = block_visits(f.node.body);
            lemma_balanced_concat(a, b);
            lemma_balanced_concat(a + b, c);
            lemma_balanced_concat(a + b + c, d);
            lemma_balanced_around(f.id, NodeKind::ForLoop, a + b + c + d);
        },
        Statement::ControlOp(o) => lemma_leaf_balanced(o.id, NodeKind::ControlOp),
        Statement::SubAssembly(a) => {
            lemma_leaf_balanced(a.node.identifier.id, NodeKind::Identifier);
            lemma_block_balanced(a.node.block);
            lemma_balanced_concat(leaf(a.node.identifier.id, NodeKind::Identifier), block_visits(a.node.block));
            lemma_balanced_around(a.id, NodeKind::SubAssembly,
                leaf(a.node.identifier.id, NodeKind::Identifier) + block_visits(a.node.block));
        },
    }
    lemma_balanced_around(s.id, NodeKind::Statement, inner);
}

proof fn lemma_statements_prefix(b: Block, k: nat, n: nat)
    requires
        k <= n <= b.statements@.len(),
    ensures
        statements_visits(b, n).len() >= statements_visits(b, k).len(),
        statements_visits(b, n).subrange(0, statements_visits(b, k).len() as int) == statements_visits(b, k),
    decreases n,
{
    if n > k {
        lemma_statements_prefix(b, k, (n - 1) as nat);
        let a = statements_visits(b, (n - 1) as nat);
        let c = statement_visits(b.statements@[n - 1]);
        assert((a + c).subrange(0, statements_visits(b, k).len() as int)
            =~= a.subrange(0, statements_visits(b, k).len() as int));
    } else {
        assert(statements_visits(b, n).subrange(0, statements_visits(b, k).len() as int) =~= statements_visits(b, k));
    }
}

/// Every node of a program has an entry in the scope index: for each node
/// the walk enters, the resolution records a scope for that node's id.
pub proof fn lemma_every_node_has_a_scope(root: Node<Block>)
    ensures
        forall|i: int| 0 <= i < block_visits(root).len() && (#[trigger] block_visits(root)[i]).enter ==>
            exists|k: int| 0 <= k < resolution(root).sids.len()
                && (#[trigger] resolution(root).sids[k]).0 == block_visits(root)[i].id,
{
    let vs = block_visits(root);
    let r = run_from(initial_state(), vs);
    lemma_run_extends(initial_state(), vs);
    assert forall|i: int| 0 <= i < vs.len() && (#[trigger] vs[i]).enter implies
        exists|k: int| 0 <= k < resolution(root).sids.len() && (#[trigger] resolution(root).sids[k]).0 == vs[i].id by {
        let k = choose|k: int| 0 <= k < r.sids.len() && (#[trigger] r.sids[k]).0 == vs[i].id;
        assert(resolution(root).sids[k] == r.sids[k]);
    }
}

/// Whenever the resolver, in any well-formed state, goes through the visits
/// of a block `b` (wherever in a tree it stands): the block gets a new scope
/// whose parent is the scope current when it was entered; its `k`-th
/// statement, whatever siblings come before it, stands in that new scope; a
/// block that is that statement gets a scope of its own whose parent is the
/// new scope; and afterwards the current scope is the one it was before.
pub proof fn lemma_block_scopes(st: ResolveState, b: Node<Block>, k: nat)
    requires
        state_wf(st),
        k < b.node.statements@.len(),
    ensures
        run_from(st, block_visits(b)).stack == st.stack,
        run_from(st, block_visits(b)).sids[st.sids.len() as int] == (b.id, st.table.parents.len()),
        run_from(st, block_visits(b)).table.parents[st.table.parents.len() as int] == Some(st.stack.last()),
        exists|ks: int| 0 <= ks < run_from(st, block_visits(b)).sids.len()
            && #[trigger] run_from(st, block_visits(b)).sids[ks] == (b.node.statements@[k as int].id, st.table.parents.len()),
        b.node.statements@[k as int].node is Block ==> exists|kb: int|
            0 <= kb < run_from(st, block_visits(b)).sids.len()
            && (#[trigger] run_from(st, block_visits(b)).sids[kb]).0 == b.node.statements@[k as int].node->Block_0.id
            && run_from(st, block_visits(b)).sids[kb].1 != st.table.parents.len()
            && run_from(st, block_visits(b)).table.parents[run_from(st, block_visits(b)).sids[kb].1 as int]
                == Some(st.table.parents.len()),
{
    lemma_block_balanced(b);
    let bb = b.node;
    let n = bb.statements@.len();
    let st_k = bb.statements@[k as int];
    let e_r = Visit { id: b.id, kind: NodeKind::Block, enter: true };
    let e_s = Visit { id: st_k.id, kind: NodeKind::Statement, enter: true };
    let before = statements_visits(bb, k);
    let pre = seq![e_r] + before + seq![e_s];
    let vs = block_visits(b);
    let sb = st.table.parents.len();

    lemma_statements_prefix(bb, (k + 1) as nat, n);
    let upto = statements_visits(bb, (k + 1) as nat);
    assert(upto == before + statement_visits(st_k));
    let sv = statement_visits(st_k);
    assert(sv[0] == e_s);
    let all = statements_visits(bb, n);
    assert(vs == seq![e_r] + all + seq![Visit { id: b.id, kind: NodeKind::Block, enter: false }]);
    assert forall|i: int| 0 <= i < pre.len() implies vs[i] == pre[i] by {
        if i == 0 {
        } else if i <= before.len() {
            assert(all[i - 1] == upto[i - 1]);
        } else {
            assert(all[i - 1] == upto[i - 1]);
            assert(upto[i - 1] == sv[0]);
        }
    }
    assert(vs.subrange(0, pre.len() as int) =~= pre);
    let tail = vs.subrange(pre.len() as int, vs.len() as int);
    assert(vs =~= pre + tail);

    let s1 = step(st, e_r);
    lemma_run_one(st, e_r);
    lemma_step_wf(st, e_r);
    lemma_statements_balanced(bb, k);
    lemma_run_wf(s1, before);
    lemma_run_extends(s1, before);
    let s2 = run_from(s1, before);
    assert(s2.stack == s1.stack);
    assert(s1.stack.last() == sb);
    let s3 = step(s2, e_s);
    lemma_run_one(s2, e_s);
    lemma_run_concat(st, seq![e_r], before);
    lemma_run_concat(st, seq![e_r] + before, seq![e_s]);
    assert(run_from(st, pre) == s3);
    lemma_run_concat(st, pre, tail);
    lemma_run_extends(s3, tail);
    let r = run_from(st, vs);
    assert(r == run_from(s3, tail));
    let ks = s2.sids.len() as int;
    assert(s3.sids[ks] == (st_k.id, sb));
    assert(r.sids[ks] == (st_k.id, sb));
    let k0 = st.sids.len() as int;
    assert(s1.sids[k0] == (b.id, sb));
    assert(s2.sids[k0] == s1.sids[k0]);
    assert(r.sids[k0] == (b.id, sb));
    assert(s1.table.parents[sb as int] == Some(st.stack.last()));
    assert(s2.table.parents[sb as int] == s1.table.parents[sb as int]);
    assert(r.table.parents[sb as int] == Some(st.stack.last()));
    if st_k.node is Block {
        let inner = st_k.node->Block_0;
        let e_b = Visit { id: inner.id, kind: NodeKind::Block, enter: true };
        assert(sv == around(st_k.id, NodeKind::Statement, block_visits(inner)));
        assert(block_visits(inner) == around(inner.id, NodeKind::Block, statements_visits(inner.node, inner.node.statements@.len())));
        assert(sv[1] == e_b);
        let pre2 = pre + seq![e_b];
        assert forall|i: int| 0 <= i < pre2.len() implies vs[i] == pre2[i] by {
            if i < pre.len() {
                assert(vs[i] == pre[i]);
            } else {
                assert(all[i - 1] == upto[i - 1]);
                assert(upto[i - 1] == sv[1]);
            }
        }
        assert(vs.subrange(0, pre2.len() as int) =~= pre2);
        let tail2 = vs.subrange(pre2.len() as int, vs.len() as int);
        assert(vs =~= pre2 + tail2);
        let s4 = step(s3, e_b);
        lemma_run_one(s3, e_b);
        lemma_run_concat(st, pre, seq![e_b]);
        assert(run_from(st, pre2) == s4);
        lemma_run_concat(st, pre2, tail2);
        lemma_run_extends(s4, tail2);
        assert(r == run_from(s4, tail2));
        let kb = s3.sids.len() as int;
        let m = s3.table.parents.len();
        assert(s4.sids[kb] == (inner.id, m));
        assert(s4.table.parents[m as int] == Some(sb));
        assert(r.sids[kb] == (inner.id, m));
        assert(m > sb);
        assert(r.table.parents[m as int] == Some(sb));
    }
}

/// Each statement of the program's block, whatever siblings come before it,
/// stands in the scope of that block, and that scope lies inside the global scope 0.
pub proof fn lemma_statement_scope(root: Node<Block>, k: nat)
    requires
        k < root.node.statements@.len(),
    ensures
        exists|kr: int, ks: int|
            0 <= kr < resolution(root).sids.len() && 0 <= ks < resolution(root).sids.len()
            && (#[trigger] resolution(root).sids[kr]).0 == root.id
            && (#[trigger] resolution(root).sids[ks]).0 == root.node.statements@[k as int].id
            && resolution(root).sids[kr].1 == resolution(root).sids[ks].1
            && resolution(root).table.parents[resolution(root).sids[kr].1 as int] == Some(0nat),
{
    let b = root.node;
    let n = b.statements@.len();
    let st_k = b.statements@[k as int];
    let e_r = Visit { id: root.id, kind: NodeKind::Block, enter: true };
    let e_s = Visit { id: st_k.id, kind: NodeKind::Statement, enter: true };
    let before = statements_visits(b, k);
    let pre = seq![e_r] + before + seq![e_s];
    let vs = block_visits(root);

    lemma_statements_prefix(b, (k + 1) as nat, n);
    let upto = statements_visits(b, (k + 1) as nat);
    assert(upto == before + statement_visits(st_k));
    let sv = statement_visits(st_k);
    assert(sv[0] == e_s);
    let all = statements_visits(b, n);
    assert(vs == seq![e_r] + all + seq![Visit { id: root.id, kind: NodeKind::Block, enter: false }]);
    assert forall|i: int| 0 <= i < pre.len() implies vs[i] == pre[i] by {
        if i == 0 {
        } else if i <= before.len() {
            assert(all[i - 1] == upto[i - 1]);
        } else {
            assert(all[i - 1] == upto[i - 1]);
            assert(upto[i - 1] == sv[0]);
        }
    }
    assert(vs.subrange(0, pre.len() as int) =~= pre);
    let tail = vs.subrange(pre.len() as int, vs.len() as int);
    assert(vs =~= pre + tail);

    let s0 = initial_state();
    let s1 = step(s0, e_r);
    lemma_run_one(s0, e_r);
    assert(state_wf(s0)) by {
        assert(s0.stack[0] == 0);
    }
    lemma_step_wf(s0, e_r);
    lemma_statements_balanced(b, k);
    lemma_run_wf(s1, before);
    lemma_run_extends(s1, before);
    let s2 = run_from(s1, before);
    assert(s2.stack == s1.stack);
    assert(s1.stack =~= seq![0nat, 1nat]);
    let s3 = step(s2, e_s);
    lemma_run_one(s2, e_s);
    lemma_run_concat(s0, seq![e_r], before);
    lemma_run_concat(s0, seq![e_r] + before, seq![e_s]);
    assert(run_from(s0, pre) == s3);
    lemma_run_concat(s0, pre, tail);
    lemma_run_extends(s3, tail);
    let r = resolution(root);
    assert(r == run_from(s3, tail));
    let ks = s2.sids.len() as int;
    assert(s3.sids[ks] == (st_k.id, 1nat));
    assert(s1.table.parents[1] == Some(0nat));
    assert(s2.table.parents[1] == s1.table.parents[1]);
    assert(s2.sids[0] == s1.sids[0]);
    assert(r.sids[0] == (root.id, 1nat));
    assert(r.sids[ks] == (st_k.id, 1nat));
    assert(r.table.parents[1] == Some(0nat));
}

/// A block that stands as a statement of the program's block (after any
/// sibling statements, blocks among them) gets a scope of its own, other than
/// the outer block's, and the outer block's scope is its parent.
pub proof fn lemma_nested_block_scope(root: Node<Block>, k: nat)
    requires
        k < root.node.statements@.len(),
        root.node.statements@[k as int].node is Block,
    ensures
        exists|kr: int, kb: int|
            0 <= kr < resolution(root).sids.len() && 0 <= kb < resolution(root).sids.len()
            && (#[trigger] resolution(root).sids[kr]).0 == root.id
            && (#[trigger] resolution(root).sids[kb]).0 == root.node.statements@[k as int].node->Block_0.id
            && resolution(root).sids[kr].1 != resolution(root).sids[kb].1
            && resolution(root).table.parents[resolution(root).sids[kb].1 as int] == Some(resolution(root).sids[kr].1),
{
    let b = root.node;
    let n = b.statements@.len();
    let st_k = b.statements@[k as int];
    let inner = st_k.node->Block_0;
    let e_r = Visit { id: root.id, kind: NodeKind::Block, enter: true };
    let e_s = Visit { id: st_k.id, kind: NodeKind::Statement, enter: true };
    let e_b = Visit { id: inner.id, kind: NodeKind::Block, enter: true };
    let before = statements_visits(b, k);
    let pre = seq![e_r] + before + seq![e_s, e_b];
    let vs = block_visits(root);

    lemma_statements_prefix(b, (k + 1) as nat, n);
    let upto = statements_visits(b, (k + 1) as nat);
    assert(upto == before + statement_visits(st_k));
    let sv = statement_visits(st_k);
    assert(sv == around(st_k.id, NodeKind::Statement, block_visits(inner)));
    assert(block_visits(inner) == around(inner.id, NodeKind::Block, statements_visits(inner.node, inner.node.statements@.len())));
    assert(sv[0] == e_s);
    assert(sv[1] == e_b);
    let all = statements_visits(b, n);
    assert(vs == seq![e_r] + all + seq![Visit { id: root.id, kind: NodeKind::Block, enter: false }]);
    assert forall|i: int| 0 <= i < pre.len() implies vs[i] == pre[i] by {
        if i == 0 {
        } else if i <= before.len() {
            assert(all[i - 1] == upto[i - 1]);
        } else if i == before.len() + 1 {
            assert(all[i - 1] == upto[i - 1]);
            assert(upto[i - 1] == sv[0]);
        } else {
            assert(all[i - 1] == upto[i - 1]);
            assert(upto[i - 1] == sv[1]);
        }
    }
    assert(vs.subrange(0, pre.len() as int) =~= pre);
    let tail = vs.subrange(pre.len() as int, vs.len() as int);
    assert(vs =~= pre + tail);

    let s0 = initial_state();
    let s1 = step(s0, e_r);
    lemma_run_one(s0, e_r);
    assert(state_wf(s0)) by {
        assert(s0.stack[0] == 0);
    }
    lemma_step_wf(s0, e_r);
    lemma_statements_balanced(b, k);
    lemma_run_wf(s1, before);
    lemma_run_extends(s1, before);
    let s2 = run_from(s1, before);
    assert(s2.stack == s1.stack);
    assert(s1.stack =~= seq![0nat, 1nat]);
    let s3 = step(s2, e_s);
    let s4 = step(s3, e_b);
    assert(run_from(s2, seq![e_s, e_b]) == s4) by {
        let two = seq![e_s, e_b];
        assert(two.drop_last() =~= seq![e_s]);
        lemma_run_one(s2, e_s);
    }
    lemma_run_concat(s0, seq![e_r], before);
    lemma_run_concat(s0, seq![e_r] + before, seq![e_s, e_b]);
    assert(run_from(s0, pre) == s4);
    lemma_run_concat(s0, pre, tail);
    lemma_run_extends(s4, tail);
    let r = resolution(root);
    assert(r == run_from(s4, tail));
    let kb = s3.sids.len() as int;
    let m = s3.table.parents.len();
    assert(s4.sids[kb] == (inner.id, m));
    assert(s4.table.parents[m as int] == Some(1nat));
    assert(s1.sids[0] == (root.id, 1nat));
    assert(s2.sids[0] == s1.sids[0]);
    assert(s4.sids[0] == s2.sids[0]);
    assert(r.sids[0] == (root.id, 1nat));
    assert(r.sids[kb] == (inner.id, m));
    assert(m >= 2);
    assert(r.table.parents[m as int] == Some(1nat));
}

/// The map that a log of (key, value) entries builds, a later entry for a
/// key replacing an earlier one.
pub open spec fn log_map<K, V>(log: Seq<(K, V)>) -> Map<K, V>
    decreases log.len(),
{
    if log.len() == 0 {
        Map::empty()
    } else {
        log_map(log.drop_last()).insert(log.last().0, log.last().1)
    }
}

/// A key has an entry in the map exactly when some entry of the log has that key.
pub proof fn lemma_log_map_keys<K, V>(log: Seq<(K, V)>, k: K)
    ensures
        log_map(log).contains_key(k) == exists|i: int| 0 <= i < log.len() && (#[trigger] log[i]).0 == k,
    decreases log.len(),
{
    if log.len() > 0 {
        let pre = log.drop_last();
        lemma_log_map_keys(pre, k);
        if exists|i: int| 0 <= i < pre.len() && (#[trigger] pre[i]).0 == k {
            let i = choose|i: int| 0 <= i < pre.len() && (#[trigger] pre[i]).0 == k;
            assert(log[i] == pre[i]);
        }
        if exists|i: int| 0 <= i < log.len() && (#[trigger] log[i]).0 == k {
            let i = choose|i: int| 0 <= i < log.len() && (#[trigger] log[i]).0 == k;
            if i < log.len() - 1 {
                assert(pre[i] == log[i]);
            }
        }
    }
}

/// The node index of a resolution: the scope of each node entered (for a
/// node id met twice, the later one).
pub open spec fn node_scopes(st: ResolveState) -> Map<u64, nat> {
    log_map(st.sids)
}

/// The block each scope was opened for.
pub open spec fn scope_origins(st: ResolveState) -> Map<nat, u64> {
    log_map(st.origins)
}

pub struct ScopeVisitor<'v> {
    pub symbols: SymbolTable,
    stack: Vec<Sid>,
    root_node: &'v Node<Block>,
    /// The scope of each node visited.
    pub sids: HashMap<u64, Sid>,
    /// The block each scope was opened for.
    pub origins: HashMap<Sid, u64>,
    entries: Ghost<Seq<(u64, nat)>>,
    opened: Ghost<Seq<(nat, u64)>>,
}

/// `m` holds the same entries as `log`'s map, scope ids as numbers.
pub open spec fn same_index(m: Map<u64, u64>, log: Seq<(u64, nat)>) -> bool {
    forall|k: u64| #[trigger] m.contains_key(k) == log_map(log).contains_key(k)
        && (m.contains_key(k) ==> m[k] as nat == log_map(log)[k])
}

pub open spec fn same_origins(m: Map<u64, u64>, log: Seq<(nat, u64)>) -> bool {
    forall|k: u64| #[trigger] m.contains_key(k) == log_map(log).contains_key(k as nat)
        && (m.contains_key(k) ==> m[k] == log_map(log)[k as nat])
}

impl<'v> ScopeVisitor<'v> {
    pub closed spec fn state(&self) -> ResolveState {
        ResolveState {
            table: self.symbols@,
            stack: self.stack@.map_values(|s: Sid| s as nat),
            sids: self.entries@,
            origins: self.opened@,
        }
    }

    pub closed spec fn root(&self) -> Node<Block> {
        *self.root_node
    }

    /// The exact maps agree with the logs of the model.
    pub closed spec fn wf(&self) -> bool {
        self.symbols.wf() && same_index(self.sids@, self.entries@) && same_origins(self.origins@, self.opened@)
    }

    /// A resolver for the program `node`, which has not visited anything yet.
    pub fn new(node: &'v Node<Block>) -> (r: ScopeVisitor<'v>)
        ensures
            r.state() == initial_state(),
            r.root() == *node,
            r.wf(),
    {
        let mut stack: Vec<Sid> = Vec::new();
        stack.push(0);
        let r = ScopeVisitor {
            symbols: SymbolTable::new(),
            stack,
            root_node: node,
            sids: HashMap::new(),
            origins: HashMap::new(),
            entries: Ghost(Seq::empty()),
            opened: Ghost(Seq::empty()),
        };
        assert(r.state().stack =~= seq![0nat]);
        assert(r.state().table.bindings =~= initial_state().table.bindings);
        assert(r.state().table == initial_state().table);
        r
    }

    fn step(&mut self, v: Visit)
        requires
            state_wf(old(self).state()),
            old(self).wf(),
        ensures
            final(self).state() == step(old(self).state(), v),
            state_wf(final(self).state()),
            final(self).root() == old(self).root(),
            final(self).wf(),
    {
        broadcast use vstd::std_specs::hash::group_hash_axioms;
        let ghost st = self.state();
        let top = self.stack[self.stack.len() - 1];
        proof {
            assert(st.stack.last() == top as nat);
        }
        if v.enter {
            if v.kind == NodeKind::Block {
                match self.symbols.subscope(top) {
                    Ok(sid) => {
                        self.stack.push(sid);
                        self.sids.insert(v.id, sid);
                        self.origins.insert(sid, v.id);
                        self.entries = Ghost(self.entries@.push((v.id, sid as nat)));
                        self.opened = Ghost(self.opened@.push((sid as nat, v.id)));
                        proof {
                            let n = step(st, v);
                            assert(self.state().stack =~= n.stack);
                            assert forall|i: int| 0 <= i < n.stack.len() implies #[trigger] n.stack[i] < n.table.parents.len() by {
                                if i < st.stack.len() {
                                    assert(st.stack[i] < st.table.parents.len());
                                }
                            }
                            assert(self.entries@.drop_last() == st.sids);
                            assert(self.opened@.drop_last() == st.origins);
                            assert forall|k: u64| #[trigger] self.origins@.contains_key(k)
                                == log_map(self.opened@).contains_key(k as nat)
                                && (self.origins@.contains_key(k) ==> self.origins@[k] == log_map(self.opened@)[k as nat]) by {
                                assert(old(self).origins@.contains_key(k) == log_map(st.origins).contains_key(k as nat));
                            }
                        }
                    },
                    Err(_) => {},
                }
            } else {
                self.sids.insert(v.id, top);
                self.entries = Ghost(self.entries@.push((v.id, top as nat)));
                proof {
                    assert(self.state().stack =~= step(st, v).stack);
                    assert(self.entries@.drop_last() == st.sids);
                }
            }
        } else if v.kind == NodeKind::Block && self.stack.len() > 1 {
            self.stack.pop();
            proof {
                assert(self.state().stack =~= step(st, v).stack);
            }
        }
    }

    /// Resolves the whole program from scratch.
    pub fn visit(&mut self)
        ensures
            final(self).state() == resolution(old(self).root()),
            final(self).root() == old(self).root(),
            final(self).wf(),
    {
        let root = self.root_node;
        let mut stack: Vec<Sid> = Vec::new();
        stack.push(0);
        self.symbols = SymbolTable::new();
        self.stack = stack;
        self.sids = HashMap::new();
        self.origins = HashMap::new();
        self.entries = Ghost(Seq::empty());
        self.opened = Ghost(Seq::empty());
        proof {
            assert(self.state().stack =~= seq![0nat]);
            assert(self.state().table.bindings =~= initial_state().table.bindings);
            assert(self.state().table == initial_state().table);
        }
        let visits = walk(root);
        let mut i: usize = 0;
        proof {
            assert(visits@.subrange(0, 0) =~= Seq::<Visit>::empty());
        }
        while i < visits.len()
            invariant
                *root == self.root(),
                visits@ == block_visits(*root),
                i <= visits@.len(),
                state_wf(self.state()),
                self.wf(),
                self.state() == run_from(initial_state(), visits@.subrange(0, i as int)),
            decreases visits@.len() - i,
        {
            self.step(visits[i]);
            proof {
                let t = visits@.subrange(0, i + 1);
                assert(t.drop_last() =~= visits@.subrange(0, i as int));
                assert(t.last() == visits@[i as int]);
            }
            i = i + 1;
        }
        proof {
            assert(visits@.subrange(0, visits@.len() as int) =~= visits@);
        }
    }

    /// The scope recorded for the node `nid`, if any.
    pub fn scope_of(&self, nid: u64) -> (r: Option<Sid>)
        requires
            self.wf(),
        ensures
            match r {
                Some(s) => node_scopes(self.state()).contains_key(nid) && node_scopes(self.state())[nid] == s,
                None => !node_scopes(self.state()).contains_key(nid),
            },
    {
        broadcast use vstd::std_specs::hash::group_hash_axioms;
        match self.sids.get(&nid) {
            Some(s) => Some(*s),
            None => None,
        }
    }
}

/// Resolves a program: its table of scopes (one for each block, inside the
/// global scope 0), and the scope of each of its nodes.
pub fn resolve(root: &Node<Block>) -> (r: (SymbolTable, HashMap<u64, Sid>))
    ensures
        r.0.wf(),
        r.0@ == resolution(*root).table,
        same_index(r.1@, resolution(*root).sids),
{
    let mut v = ScopeVisitor::new(root);
    v.visit();
    let ScopeVisitor { symbols, sids, .. } = v;
    (symbols, sids)
}

/// Every node of a program has an entry in the node index of its resolution.
pub proof fn lemma_index_covers_every_node(root: Node<Block>)
    ensures
        forall|i: int| 0 <= i < block_visits(root).len() && (#[trigger] block_visits(root)[i]).enter ==>
            node_scopes(resolution(root)).contains_key(block_visits(root)[i].id),
{
    lemma_every_node_has_a_scope(root);
    let vs = block_visits(root);
    assert forall|i: int| 0 <= i < vs.len() && (#[trigger] vs[i]).enter implies
        node_scopes(resolution(root)).contains_key(vs[i].id) by {
        lemma_log_map_keys(resolution(root).sids, vs[i].id);
    }
}

} // verus!
