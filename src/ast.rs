//! The syntax tree of the assembly language, and its mathematical model.
//!
//! Every node carries an identifier handed out by a `NodeIds` counter when the
//! node is built; the models erase those identifiers and keep only the shape.
use vstd::prelude::*;
use crate::number::{U256, all_hex_digits, all_dec_digits, dec_value, hex_value, hex_bytes, pow2_256, bytes_from_hex};

verus! {

/// A syntax node: a value of the tree together with the identifier it was given when built.
#[derive(Debug)]
pub struct Node<T> {
    pub id: u64,
    pub node: T,
}

/// The source of fresh node identifiers for one parse (or one hand-built tree).
#[derive(Debug)]
pub struct NodeIds {
    pub next: u64,
}

impl NodeIds {
    /// A counter whose first identifier is 0.
    pub fn new() -> (r: NodeIds)
        ensures
            r.next == 0,
    {
        NodeIds { next: 0 }
    }

    /// Hands out the next identifier; the counter saturates at `u64::MAX`.
    pub fn fresh(&mut self) -> (id: u64)
        ensures
            id == old(self).next,
            final(self).next == if old(self).next < u64::MAX { old(self).next + 1 } else { old(self).next as int },
    {
        let id = self.next;
        if self.next < u64::MAX {
            self.next = self.next + 1;
        }
        id
    }
}

impl<T> Node<T> {
    /// Wraps `t` in a node with a fresh identifier.
    pub fn new(ids: &mut NodeIds, t: T) -> (r: Node<T>)
        ensures
            r.id == old(ids).next,
            r.node == t,
            final(ids).next >= old(ids).next,
            old(ids).next < u64::MAX ==> final(ids).next == old(ids).next + 1,
    {
        let id = ids.fresh();
        Node { id, node: t }
    }

    pub fn unwrap(self) -> (r: T)
        ensures
            r == self.node,
    {
        self.node
    }
}

#[derive(Debug)]
pub struct Block {
    pub statements: Vec<Node<Statement>>,
}

#[derive(Debug)]
pub enum Statement {
    Block(Node<Block>),
    FunctionDefinition(Node<FunctionDefinition>),
    VariableDeclaration(Node<VariableDeclaration>),
    Assignment(Node<Assignment>),
    Expression(Node<Expression>),
    Switch(Node<Switch>),
    ForLoop(Node<ForLoop>),
    ControlOp(Node<ControlOp>),
    SubAssembly(Node<SubAssembly>),
}

#[derive(Debug)]
pub enum Expression {
    Identifier(Node<Identifier>),
    Literal(Node<Literal>),
    FunctionCall(Node<FunctionCall>),
}

#[derive(Debug)]
pub struct FunctionDefinition {
    pub identifier: Node<Identifier>,
    pub arguments: Vec<Node<Identifier>>,
    pub returns: Option<Vec<Node<Identifier>>>,
    pub body: Node<Block>,
}

#[derive(Debug)]
pub struct VariableDeclaration {
    pub identifiers: Vec<Node<Identifier>>,
    pub expression: Node<Expression>,
}

#[derive(Debug)]
pub struct Assignment {
    pub identifiers: Vec<Node<Identifier>>,
    pub expression: Node<Expression>,
}

#[derive(Debug)]
pub struct Switch {
    pub expression: Node<Expression>,
    pub cases: Vec<Node<Case>>,
    pub default: Option<Node<Block>>,
}

#[derive(Debug)]
pub struct Case {
    pub expression: Node<Expression>,
    pub block: Node<Block>,
}

#[derive(Debug)]
pub struct ForLoop {
    pub init: Node<Block>,
    pub condition: Node<Expression>,
    pub post: Node<Block>,
    pub body: Node<Block>,
}

#[derive(Debug, PartialEq, Eq, Structural)]
pub enum ControlOp {
    Break(),
    Continue(),
}

#[derive(Debug)]
pub struct SubAssembly {
    pub identifier: Node<Identifier>,
    pub block: Node<Block>,
}

#[derive(Debug)]
pub struct FunctionCall {
    pub identifier: Node<Identifier>,
    pub arguments: Vec<Node<Expression>>,
}

#[derive(Debug)]
pub struct Identifier {
    pub symbol: String,
}

#[derive(Debug)]
pub enum Literal {
    HexNumber(Node<HexNumber>),
    DecNumber(Node<DecNumber>),
    StringLiteral(Node<StringLiteral>),
    HexLiteral(Node<HexLiteral>),
}

#[derive(Debug)]
pub struct StringLiteral {
    pub string: String,
}

/// A raw byte string, written in hex digit pairs.
#[derive(Debug)]
pub struct HexLiteral {
    pub bytes: Vec<u8>,
}

#[derive(Debug)]
pub struct HexNumber {
    pub uint: U256,
}

#[derive(Debug)]
pub struct DecNumber {
    pub uint: U256,
}

/*
 * The model: the tree without node identifiers.
 */

pub enum LiteralModel {
    Hex(nat),
    Dec(nat),
    Str(Seq<char>),
    Bytes(Seq<u8>),
}

pub enum ExprModel {
    Ident(Seq<char>),
    Lit(LiteralModel),
    Call(Seq<char>, Seq<ExprModel>),
}

pub struct CaseModel {
    pub expr: ExprModel,
    pub body: Seq<StmtModel>,
}

pub enum StmtModel {
    Block(Seq<StmtModel>),
    Function(Seq<char>, Seq<Seq<char>>, Option<Seq<Seq<char>>>, Seq<StmtModel>),
    Let(Seq<Seq<char>>, ExprModel),
    Assign(Seq<Seq<char>>, ExprModel),
    Expr(ExprModel),
    Switch(ExprModel, Seq<CaseModel>, Option<Seq<StmtModel>>),
    For(Seq<StmtModel>, ExprModel, Seq<StmtModel>, Seq<StmtModel>),
    Break,
    Continue,
    Assembly(Seq<char>, Seq<StmtModel>),
}

pub open spec fn idents_model(v: Seq<Node<Identifier>>) -> Seq<Seq<char>> {
    v.map_values(|n: Node<Identifier>| n.node.symbol@)
}

pub open spec fn literal_model(l: Literal) -> LiteralModel {
    match l {
        Literal::HexNumber(n) => LiteralModel::Hex(n.node.uint.value()),
        Literal::DecNumber(n) => LiteralModel::Dec(n.node.uint.value()),
        Literal::StringLiteral(n) => LiteralModel::Str(n.node.string@),
        Literal::HexLiteral(n) => LiteralModel::Bytes(n.node.bytes@),
    }
}

pub open spec fn block_model(b: Block) -> Seq<StmtModel>
    decreases b, b.statements@.len() + 1,
{
    stmts_model(b, 0)
}

/// The models of `b`'s statements from the `i`-th on.
pub open spec fn stmts_model(b: Block, i: nat) -> Seq<StmtModel>
    decreases b, b.statements@.len() - i,
{
    if i < b.statements@.len() {
        seq![stmt_model(b.statements@[i as int].node)] + stmts_model(b, i + 1)
    } else {
        seq![]
    }
}

pub open spec fn stmt_model(s: Statement) -> StmtModel
    decreases s, 0nat,
{
    match s {
        Statement::Block(n) => StmtModel::Block(block_model(n.node)),
        Statement::FunctionDefinition(n) => StmtModel::Function(
            n.node.identifier.node.symbol@,
            idents_model(n.node.arguments@),
            match n.node.returns {
                Some(r) => Some(idents_model(r@)),
                None => None,
            },
            block_model(n.node.body.node),
        ),
        Statement::VariableDeclaration(n) => StmtModel::Let(
            idents_model(n.node.identifiers@),
            expr_model(n.node.expression.node),
        ),
        Statement::Assignment(n) => StmtModel::Assign(
            idents_model(n.node.identifiers@),
            expr_model(n.node.expression.node),
        ),
        Statement::Expression(n) => StmtModel::Expr(expr_model(n.node)),
        Statement::Switch(n) => StmtModel::Switch(
            expr_model(n.node.expression.node),
            cases_model(n.node, 0),
            match n.node.default {
                Some(d) => Some(block_model(d.node)),
                None => None,
            },
        ),
        Statement::ForLoop(n) => StmtModel::For(
            block_model(n.node.init.node),
            expr_model(n.node.condition.node),
            block_model(n.node.post.node),
            block_model(n.node.body.node),
        ),
        Statement::ControlOp(n) => match n.node {
            ControlOp::Break() => StmtModel::Break,
            ControlOp::Continue() => StmtModel::Continue,
        },
        Statement::SubAssembly(n) => StmtModel::Assembly(
            n.node.identifier.node.symbol@,
            block_model(n.node.block.node),
        ),
    }
}

/// The models of the switch's cases from the `i`-th on.
pub open spec fn cases_model(s: Switch, i: nat) -> Seq<CaseModel>
    decreases s, s.cases@.len() - i,
{
    if i < s.cases@.len() {
        seq![CaseModel {
            expr: expr_model(s.cases@[i as int].node.expression.node),
            body: block_model(s.cases@[i as int].node.block.node),
        }] + cases_model(s, i + 1)
    } else {
        seq![]
    }
}

pub open spec fn expr_model(e: Expression) -> ExprModel
    decreases e, 0nat,
{
    match e {
        Expression::Identifier(n) => ExprModel::Ident(n.node.symbol@),
        Expression::Literal(n) => ExprModel::Lit(literal_model(n.node)),
        Expression::FunctionCall(n) => ExprModel::Call(
            n.node.identifier.node.symbol@,
            args_model(n.node, 0),
        ),
    }
}

/// The models of the call's arguments from the `i`-th on.
pub open spec fn args_model(c: FunctionCall, i: nat) -> Seq<ExprModel>
    decreases c, c.arguments@.len() - i,
{
    if i < c.arguments@.len() {
        seq![expr_model(c.arguments@[i as int].node)] + args_model(c, i + 1)
    } else {
        seq![]
    }
}

pub open spec fn exprs_model(v: Seq<Node<Expression>>) -> Seq<ExprModel> {
    v.map_values(|n: Node<Expression>| expr_model(n.node))
}

pub open spec fn stmts_seq_model(v: Seq<Node<Statement>>) -> Seq<StmtModel> {
    v.map_values(|n: Node<Statement>| stmt_model(n.node))
}

pub open spec fn case_model(c: Case) -> CaseModel {
    CaseModel { expr: expr_model(c.expression.node), body: block_model(c.block.node) }
}

pub open spec fn cases_seq_model(v: Seq<Node<Case>>) -> Seq<CaseModel> {
    v.map_values(|n: Node<Case>| case_model(n.node))
}

/// A block's model is the models of its statements, in order.
pub proof fn lemma_block_model(b: Block)
    ensures
        block_model(b) == stmts_seq_model(b.statements@),
{
    lemma_stmts_model(b, 0);
    assert(stmts_seq_model(b.statements@).subrange(0, b.statements@.len() as int) =~= stmts_seq_model(b.statements@));
}

proof fn lemma_stmts_model(b: Block, i: nat)
    requires
        i <= b.statements@.len(),
    ensures
        stmts_model(b, i) == stmts_seq_model(b.statements@).subrange(i as int, b.statements@.len() as int),
    decreases b.statements@.len() - i,
{
    let m = stmts_seq_model(b.statements@);
    if i < b.statements@.len() {
        lemma_stmts_model(b, i + 1);
        assert(m.subrange(i as int, m.len() as int) =~= seq![m[i as int]] + m.subrange(i as int + 1, m.len() as int));
    } else {
        assert(m.subrange(i as int, m.len() as int) =~= Seq::<StmtModel>::empty());
    }
}

/// A call's argument models are the models of its arguments, in order.
pub proof fn lemma_args_model(c: FunctionCall)
    ensures
        args_model(c, 0) == exprs_model(c.arguments@),
{
    lemma_args_model_from(c, 0);
    assert(exprs_model(c.arguments@).subrange(0, c.arguments@.len() as int) =~= exprs_model(c.arguments@));
}

proof fn lemma_args_model_from(c: FunctionCall, i: nat)
    requires
        i <= c.arguments@.len(),
    ensures
        args_model(c, i) == exprs_model(c.arguments@).subrange(i as int, c.arguments@.len() as int),
    decreases c.arguments@.len() - i,
{
    let m = exprs_model(c.arguments@);
    if i < c.arguments@.len() {
        lemma_args_model_from(c, i + 1);
        assert(m.subrange(i as int, m.len() as int) =~= seq![m[i as int]] + m.subrange(i as int + 1, m.len() as int));
    } else {
        assert(m.subrange(i as int, m.len() as int) =~= Seq::<ExprModel>::empty());
    }
}

/// A switch's case models are the models of its cases, in order.
pub proof fn lemma_cases_model(w: Switch)
    ensures
        cases_model(w, 0) == cases_seq_model(w.cases@),
{
    lemma_cases_model_from(w, 0);
    assert(cases_seq_model(w.cases@).subrange(0, w.cases@.len() as int) =~= cases_seq_model(w.cases@));
}

proof fn lemma_cases_model_from(w: Switch, i: nat)
    requires
        i <= w.cases@.len(),
    ensures
        cases_model(w, i) == cases_seq_model(w.cases@).subrange(i as int, w.cases@.len() as int),
    decreases w.cases@.len() - i,
{
    let m = cases_seq_model(w.cases@);
    if i < w.cases@.len() {
        lemma_cases_model_from(w, i + 1);
        assert(m.subrange(i as int, m.len() as int) =~= seq![m[i as int]] + m.subrange(i as int + 1, m.len() as int));
    } else {
        assert(m.subrange(i as int, m.len() as int) =~= Seq::<CaseModel>::empty());
    }
}

impl Block {
    pub fn new(ids: &mut NodeIds, statements: Vec<Node<Statement>>) -> (r: Node<Block>)
        ensures
            r.id == old(ids).next,
            r.node.statements == statements,
    {
        Node::new(ids, Block { statements })
    }
}

impl FunctionDefinition {
    pub fn new(
        ids: &mut NodeIds,
        i: Node<Identifier>,
        args: Vec<Node<Identifier>>,
        rets: Option<Vec<Node<Identifier>>>,
        body: Node<Block>,
    ) -> (r: Node<FunctionDefinition>)
        ensures
            r.id == old(ids).next,
            r.node == (FunctionDefinition { identifier: i, arguments: args, returns: rets, body: body }),
    {
        Node::new(ids, FunctionDefinition { identifier: i, arguments: args, returns: rets, body })
    }
}

impl VariableDeclaration {
    pub fn new(ids: &mut NodeIds, is: Vec<Node<Identifier>>, e: Node<Expression>) -> (r: Node<VariableDeclaration>)
        ensures
            r.id == old(ids).next,
            r.node == (VariableDeclaration { identifiers: is, expression: e }),
    {
        Node::new(ids, VariableDeclaration { identifiers: is, expression: e })
    }
}

impl Assignment {
    pub fn new(ids: &mut NodeIds, is: Vec<Node<Identifier>>, e: Node<Expression>) -> (r: Node<Assignment>)
        ensures
            r.id == old(ids).next,
            r.node == (Assignment { identifiers: is, expression: e }),
    {
        Node::new(ids, Assignment { identifiers: is, expression: e })
    }
}

impl Switch {
    pub fn new(ids: &mut NodeIds, e: Node<Expression>, cs: Vec<Node<Case>>, d: Option<Node<Block>>) -> (r: Node<Switch>)
        ensures
            r.id == old(ids).next,
            r.node == (Switch { expression: e, cases: cs, default: d }),
    {
        Node::new(ids, Switch { expression: e, cases: cs, default: d })
    }
}

impl Case {
    pub fn new(ids: &mut NodeIds, e: Node<Expression>, b: Node<Block>) -> (r: Node<Case>)
        ensures
            r.id == old(ids).next,
            r.node == (Case { expression: e, block: b }),
    {
        Node::new(ids, Case { expression: e, block: b })
    }
}

impl ForLoop {
    pub fn new(ids: &mut NodeIds, i: Node<Block>, c: Node<Expression>, p: Node<Block>, b: Node<Block>) -> (r: Node<ForLoop>)
        ensures
            r.id == old(ids).next,
            r.node == (ForLoop { init: i, condition: c, post: p, body: b }),
    {
        Node::new(ids, ForLoop { init: i, condition: c, post: p, body: b })
    }
}

impl SubAssembly {
    pub fn new(ids: &mut NodeIds, i: Node<Identifier>, b: Node<Block>) -> (r: Node<SubAssembly>)
        ensures
            r.id == old(ids).next,
            r.node == (SubAssembly { identifier: i, block: b }),
    {
        Node::new(ids, SubAssembly { identifier: i, block: b })
    }
}

impl FunctionCall {
    pub fn new(ids: &mut NodeIds, i: Node<Identifier>, args: Vec<Node<Expression>>) -> (r: Node<FunctionCall>)
        ensures
            r.id == old(ids).next,
            r.node == (FunctionCall { identifier: i, arguments: args }),
    {
        Node::new(ids, FunctionCall { identifier: i, arguments: args })
    }
}

impl StringLiteral {
    pub fn new(ids: &mut NodeIds, s: String) -> (r: Node<StringLiteral>)
        ensures
            r.id == old(ids).next,
            r.node.string == s,
    {
        Node::new(ids, StringLiteral { string: s })
    }
}

impl HexLiteral {
    /// The literal for the bytes that the hex digit pairs `bytes` denote;
    /// `None` on an odd count of digits or another character.
    pub fn new(ids: &mut NodeIds, bytes: &str) -> (r: Option<Node<HexLiteral>>)
        ensures
            (r is Some) == (all_hex_digits(bytes@) && bytes@.len() % 2 == 0),
            (r is Some) ==> r->0.id == old(ids).next && r->0.node.bytes@ == hex_bytes(bytes@),
    {
        match bytes_from_hex(bytes) {
            Some(b) => Some(Node::new(ids, HexLiteral { bytes: b })),
            None => None,
        }
    }
}

impl HexNumber {
    /// The number that the hex digits `uint` denote (without `0x`); `None`
    /// when they are empty, hold another character, or denote 2^256 or more.
    pub fn new(ids: &mut NodeIds, uint: &str) -> (r: Option<Node<HexNumber>>)
        ensures
            (r is Some) == (uint@.len() > 0 && all_hex_digits(uint@) && hex_value(uint@) < pow2_256()),
            (r is Some) ==> r->0.id == old(ids).next && r->0.node.uint.value() == hex_value(uint@),
    {
        match U256::from_hex_digits(uint) {
            Some(u) => Some(Node::new(ids, HexNumber { uint: u })),
            None => None,
        }
    }
}

impl DecNumber {
    /// The number that the decimal digits `uint` denote; `None` when they are
    /// empty, hold another character, or denote 2^256 or more.
    pub fn new(ids: &mut NodeIds, uint: &str) -> (r: Option<Node<DecNumber>>)
        ensures
            (r is Some) == (uint@.len() > 0 && all_dec_digits(uint@) && dec_value(uint@) < pow2_256()),
            (r is Some) ==> r->0.id == old(ids).next && r->0.node.uint.value() == dec_value(uint@),
    {
        match U256::from_dec_digits(uint) {
            Some(u) => Some(Node::new(ids, DecNumber { uint: u })),
            None => None,
        }
    }
}

impl Identifier {
    pub fn new(ids: &mut NodeIds, s: &str) -> (r: Node<Identifier>)
        ensures
            r.id == old(ids).next,
            r.node.symbol@ == s@,
    {
        Node::new(ids, Identifier { symbol: String::from_str(s) })
    }

    pub fn duplicate(&self) -> (r: Identifier)
        ensures
            r.symbol@ == self.symbol@,
    {
        Identifier { symbol: self.symbol.clone() }
    }
}

impl Node<Identifier> {
    pub fn duplicate(&self) -> (r: Node<Identifier>)
        ensures
            r.id == self.id,
            r.node.symbol@ == self.node.symbol@,
    {
        Node { id: self.id, node: self.node.duplicate() }
    }
}

impl Literal {
    pub fn duplicate(&self) -> (r: Literal)
        ensures
            literal_model(r) == literal_model(*self),
    {
        match self {
            Literal::HexNumber(n) => Literal::HexNumber(Node { id: n.id, node: HexNumber { uint: n.node.uint } }),
            Literal::DecNumber(n) => Literal::DecNumber(Node { id: n.id, node: DecNumber { uint: n.node.uint } }),
            Literal::StringLiteral(n) => Literal::StringLiteral(
                Node { id: n.id, node: StringLiteral { string: n.node.string.clone() } },
            ),
            Literal::HexLiteral(n) => {
                let bytes = n.node.bytes.clone();
                assert(bytes@ =~= n.node.bytes@);
                Literal::HexLiteral(Node { id: n.id, node: HexLiteral { bytes } })
            },
        }
    }
}

proof fn lemma_args_model_eq(c1: FunctionCall, c2: FunctionCall, i: nat)
    requires
        c1.arguments@.len() == c2.arguments@.len(),
        forall|j: int| i <= j < c1.arguments@.len() ==> expr_model(#[trigger] c1.arguments@[j].node) == expr_model(c2.arguments@[j].node),
    ensures
        args_model(c1, i) == args_model(c2, i),
    decreases c1.arguments@.len() - i,
{
    if i < c1.arguments@.len() {
        lemma_args_model_eq(c1, c2, i + 1);
    }
}

impl Expression {
    /// A copy of the expression: the same model (the copy's nodes keep the
    /// identifiers of the nodes they copy, which this contract does not state).
    pub fn duplicate(&self) -> (r: Expression)
        ensures
            expr_model(r) == expr_model(*self),
        decreases *self,
    {
        match self {
            Expression::Identifier(n) => Expression::Identifier(n.duplicate()),
            Expression::Literal(n) => Expression::Literal(Node { id: n.id, node: n.node.duplicate() }),
            Expression::FunctionCall(n) => {
                let c = &n.node;
                let mut args: Vec<Node<Expression>> = Vec::new();
                let mut i: usize = 0;
                while i < c.arguments.len()
                    invariant
                        *self == Expression::FunctionCall(*n),
                        *c == n.node,
                        i <= c.arguments@.len(),
                        args@.len() == i,
                        forall|j: int| 0 <= j < i ==> expr_model(#[trigger] args@[j].node) == expr_model(c.arguments@[j].node),
                    decreases c.arguments@.len() - i,
                {
                    proof {
                        let ghost nn = *n;
                        let ghost v = c.arguments;
                        let ghost a = v@[i as int];
                        assert(decreases_to!(*self => (*self)->FunctionCall_0));
                        assert(decreases_to!(nn => nn.node));
                        assert(decreases_to!(nn.node => v));
                        assert(decreases_to!(v => v@));
                        assert(decreases_to!(v@ => a));
                        assert(decreases_to!(a => a.node));
                    }
                    let a = &c.arguments[i];
                    args.push(Node { id: a.id, node: a.node.duplicate() });
                    i = i + 1;
                }
                let call = FunctionCall { identifier: c.identifier.duplicate(), arguments: args };
                proof {
                    lemma_args_model_eq(call, *c, 0);
                }
                Expression::FunctionCall(Node { id: n.id, node: call })
            },
        }
    }
}

} // verus!
