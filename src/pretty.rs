//! The canonical printer: renders a syntax tree as text in the one layout
//! that the parser reads back unchanged.
//!
//! An empty block is `{ }`; a block of one statement stays on one line,
//! `{ s }`; a block of more statements puts each on a line of its own, two
//! spaces further in, and its `}` on a line at the block's own indentation.
use vstd::prelude::*;
use crate::ast::{
    Block, Node, Statement, Expression, Literal, ControlOp, Identifier, CaseModel, ExprModel,
    LiteralModel, StmtModel, block_model, stmt_model, expr_model, literal_model, idents_model,
    exprs_model, stmts_seq_model, cases_seq_model, lemma_block_model, lemma_args_model,
    lemma_cases_model,
};
use crate::number::{
    dec_text, hex_text, hex_pairs, bigint_dec_string, bigint_lower_hex_string, serialize_to_hex, pow2_256,
    dec_value, hex_value, hex_bytes, is_dec_digit, is_hex_digit, all_dec_digits, all_hex_digits,
    lemma_dec_text_round_trip, lemma_hex_text_round_trip, lemma_hex_pairs_round_trip,
};
use crate::grammar;
use crate::grammar::CharClass;

verus! {

/// A line break, then the indentation `pad`.
pub open spec fn newline(pad: Seq<char>) -> Seq<char> {
    "\n"@ + pad
}

/// Names separated by `, `.
pub open spec fn join(names: Seq<Seq<char>>) -> Seq<char>
    decreases names.len(),
{
    if names.len() == 0 {
        Seq::empty()
    } else if names.len() == 1 {
        names[0]
    } else {
        join(names.subrange(0, names.len() - 1)) + ", "@ + names[names.len() - 1]
    }
}

/// The targets of `let` or of an assignment: one bare, more in parentheses.
pub open spec fn fmt_targets(names: Seq<Seq<char>>) -> Seq<char> {
    if names.len() == 1 {
        names[0]
    } else {
        "("@ + join(names) + ")"@
    }
}

pub open spec fn fmt_literal(l: LiteralModel) -> Seq<char> {
    match l {
        LiteralModel::Hex(v) => "0x"@ + hex_text(v),
        LiteralModel::Dec(v) => dec_text(v),
        LiteralModel::Str(t) => "\""@ + t + "\""@,
        LiteralModel::Bytes(b) => "hex\""@ + hex_pairs(b) + "\""@,
    }
}

pub open spec fn fmt_expr(e: ExprModel) -> Seq<char>
    decreases e,
{
    match e {
        ExprModel::Ident(n) => n,
        ExprModel::Lit(l) => fmt_literal(l),
        ExprModel::Call(n, args) => n + "("@ + fmt_exprs(args) + ")"@,
    }
}

/// Expressions separated by `, `.
pub open spec fn fmt_exprs(args: Seq<ExprModel>) -> Seq<char>
    decreases args,
{
    if args.len() == 0 {
        Seq::empty()
    } else if args.len() == 1 {
        fmt_expr(args[0])
    } else {
        fmt_exprs(args.subrange(0, args.len() - 1)) + ", "@ + fmt_expr(args[args.len() - 1])
    }
}

pub open spec fn fmt_block(b: Seq<StmtModel>, pad: Seq<char>) -> Seq<char>
    decreases b, 1nat,
{
    if b.len() == 0 {
        "{ }"@
    } else if b.len() == 1 {
        "{ "@ + fmt_stmt(b[0], pad, false) + " }"@
    } else {
        "{"@ + fmt_lines(b, pad + "  "@) + newline(pad) + "}"@
    }
}

/// Each statement on a line of its own, indented by `pad`.
pub open spec fn fmt_lines(b: Seq<StmtModel>, pad: Seq<char>) -> Seq<char>
    decreases b, 0nat,
{
    if b.len() == 0 {
        Seq::empty()
    } else {
        fmt_lines(b.subrange(0, b.len() - 1), pad) + newline(pad) + fmt_stmt(b[b.len() - 1], pad, true)
    }
}

/// What stands before each case and the default of a switch: a new line when
/// statements go on lines of their own, else a space.
pub open spec fn case_break(pad: Seq<char>, lines: bool) -> Seq<char> {
    if lines { newline(pad) } else { " "@ }
}

pub open spec fn fmt_cases(cs: Seq<CaseModel>, pad: Seq<char>, lines: bool) -> Seq<char>
    decreases cs, 0nat,
{
    if cs.len() == 0 {
        Seq::empty()
    } else {
        fmt_cases(cs.subrange(0, cs.len() - 1), pad, lines) + case_break(pad, lines) + "case "@
            + fmt_expr(cs[cs.len() - 1].expr) + ": "@ + fmt_block(cs[cs.len() - 1].body, pad)
    }
}

/// A statement, at indentation `pad`; `lines` tells whether the statements
/// around it stand on lines of their own.
pub open spec fn fmt_stmt(s: StmtModel, pad: Seq<char>, lines: bool) -> Seq<char>
    decreases s, 0nat,
{
    match s {
        StmtModel::Block(b) => fmt_block(b, pad),
        StmtModel::Function(name, args, rets, body) => "function "@ + name + "("@ + join(args) + ")"@
            + match rets {
                Some(r) => " -> ("@ + join(r) + ")"@,
                None => Seq::empty(),
            } + " "@ + fmt_block(body, pad),
        StmtModel::Let(targets, x) => "let "@ + fmt_targets(targets) + " := "@ + fmt_expr(x),
        StmtModel::Assign(targets, x) => fmt_targets(targets) + " := "@ + fmt_expr(x),
        StmtModel::Expr(x) => fmt_expr(x),
        StmtModel::Switch(x, cs, d) => "switch "@ + fmt_expr(x) + fmt_cases(cs, pad, lines)
            + match d {
                Some(b) => case_break(pad, lines) + "default: "@ + fmt_block(b, pad),
                None => Seq::empty(),
            },
        StmtModel::For(init, cond, post, body) => "for "@ + fmt_block(init, pad) + " "@ + fmt_expr(cond) + " "@
            + fmt_block(post, pad) + " "@ + fmt_block(body, pad),
        StmtModel::Break => "break"@,
        StmtModel::Continue => "continue"@,
        StmtModel::Assembly(name, b) => "assembly "@ + name + " "@ + fmt_block(b, pad),
    }
}

/// A literal the printer can write so that it reads back: numbers below
/// 2^256, strings without a double quote.
pub open spec fn literal_valid(l: LiteralModel) -> bool {
    match l {
        LiteralModel::Hex(v) => v < pow2_256(),
        LiteralModel::Dec(v) => v < pow2_256(),
        LiteralModel::Str(t) => forall|i: int| 0 <= i < t.len() ==> t[i] != '"',
        LiteralModel::Bytes(_) => true,
    }
}

proof fn lemma_run_over(s: Seq<char>, p: int, e: int, k: CharClass)
    requires
        0 <= p <= e <= s.len(),
        forall|i: int| p <= i < e ==> grammar::in_class(k, #[trigger] s[i]),
        e == s.len() || !grammar::in_class(k, s[e]),
    ensures
        grammar::run(s, p, k) == e,
    decreases e - p,
{
    if p < e {
        lemma_run_over(s, p + 1, e, k);
    }
}

proof fn lemma_dec_text_shape(n: nat)
    ensures
        dec_text(n).len() >= 1,
        n > 0 ==> dec_text(n)[0] != '0',
    decreases n,
{
    if n >= 10 {
        lemma_dec_text_shape(n / 10);
        assert(dec_text(n)[0] == dec_text(n / 10)[0]);
    } else {
        let c = dec_text(n)[0];
        assert(c as nat == n + 48);
    }
}

proof fn lemma_hex_text_len(n: nat)
    ensures
        hex_text(n).len() >= 1,
    decreases n,
{
    if n >= 16 {
        lemma_hex_text_len(n / 16);
    }
}

/// A literal as the printer writes it, followed by anything that does not
/// continue a word, reads back as the same literal, and as an expression.
pub proof fn lemma_literal_reads_back(s: Seq<char>, p: int, l: LiteralModel)
    requires
        literal_valid(l),
        0 <= p,
        p + fmt_literal(l).len() <= s.len(),
        s.subrange(p, p + fmt_literal(l).len()) == fmt_literal(l),
        !grammar::continues_word(s, p + fmt_literal(l).len()),
    ensures
        grammar::literal(s, p) == Some((l, p + fmt_literal(l).len())),
        grammar::expression(s, p) == Some((ExprModel::Lit(l), p + fmt_literal(l).len())),
{
    let x = fmt_literal(l);
    let e = p + x.len();
    assert forall|i: int| 0 <= i < x.len() implies s[p + i] == #[trigger] x[i] by {
        assert(s.subrange(p, e)[i] == s[p + i]);
    }
    match l {
        LiteralModel::Hex(v) => {
            reveal_strlit("0x");
            let t = hex_text(v);
            lemma_hex_text_round_trip(v);
            lemma_hex_text_len(v);
            assert(x == seq!['0', 'x'] + t);
            assert(x[0] == '0' && x[1] == 'x');
            assert(s[p] == '0' && s[p + 1] == 'x');
            assert(grammar::skip(s, p) == p);
            assert forall|i: int| p + 2 <= i < e implies grammar::in_class(CharClass::Hex, #[trigger] s[i]) by {
                assert(s[i] == x[i - p]);
                assert(x[i - p] == t[i - p - 2]);
            }
            lemma_run_over(s, p + 2, e, CharClass::Hex);
            assert(s.subrange(p + 2, e) =~= t) by {
                assert forall|i: int| 0 <= i < t.len() implies s.subrange(p + 2, e)[i] == t[i] by {
                    assert(x[i + 2] == t[i]);
                }
            }
            assert(!grammar::opens_hex_literal(s, p));
        },
        LiteralModel::Dec(v) => {
            let t = dec_text(v);
            lemma_dec_text_round_trip(v);
            lemma_dec_text_shape(v);
            assert(x == t);
            assert(grammar::skip(s, p) == p) by {
                assert(is_dec_digit(t[0]));
            }
            assert forall|i: int| p <= i < e implies grammar::in_class(CharClass::Dec, #[trigger] s[i]) by {
                assert(s[i] == x[i - p]);
            }
            assert(is_dec_digit(s[p]));
            lemma_run_over(s, p + 1, e, CharClass::Dec);
            assert(grammar::run(s, p, CharClass::Dec) == grammar::run(s, p + 1, CharClass::Dec));
            assert(s.subrange(p, e) =~= t);
            if e > p + 1 {
                assert(s[p] != '0' || s[p + 1] != 'x') by {
                    if v == 0 {
                        assert(t.len() == 1);
                    } else {
                        assert(t[0] != '0');
                    }
                }
            } else {
                assert(grammar::hex_number(s, p) is None) by {
                    if s[p] == '0' && p + 1 < s.len() && s[p + 1] == 'x' {
                        assert(grammar::continues_word(s, e));
                    }
                }
            }
            assert(!grammar::opens_hex_literal(s, p));
            assert(grammar::hex_number(s, p) is None);
        },
        LiteralModel::Str(t) => {
            reveal_strlit("\"");
            assert(x == seq!['"'] + t + seq!['"']);
            assert(x[0] == '"');
            assert(s[p + 0] == x[0]);
            assert(s[p] == '"');
            assert(grammar::skip(s, p) == p);
            assert forall|i: int| p + 1 <= i < e - 1 implies grammar::in_class(CharClass::NotQuote, #[trigger] s[i]) by {
                assert(s[i] == x[i - p]);
                assert(x[i - p] == t[i - p - 1]);
            }
            assert(s[e - 1] == x[x.len() - 1]);
            lemma_run_over(s, p + 1, e - 1, CharClass::NotQuote);
            assert(s.subrange(p + 1, e - 1) =~= t) by {
                assert forall|i: int| 0 <= i < t.len() implies s.subrange(p + 1, e - 1)[i] == t[i] by {
                    assert(x[i + 1] == t[i]);
                }
            }
            assert(!grammar::opens_hex_literal(s, p));
        },
        LiteralModel::Bytes(b) => {
            reveal_strlit("hex\"");
            reveal_strlit("\"");
            let t = hex_pairs(b);
            lemma_hex_pairs_round_trip(b);
            assert(x == seq!['h', 'e', 'x', '"'] + t + seq!['"']);
            assert(x[0] == 'h' && x[1] == 'e' && x[2] == 'x' && x[3] == '"');
            assert(s[p + 0] == x[0] && s[p + 1] == x[1] && s[p + 2] == x[2] && s[p + 3] == x[3]);
            assert(s[p] == 'h' && s[p + 1] == 'e' && s[p + 2] == 'x' && s[p + 3] == '"');
            assert(grammar::skip(s, p) == p);
            assert forall|i: int| p + 4 <= i < e - 1 implies grammar::in_class(CharClass::Hex, #[trigger] s[i]) by {
                assert(s[i] == x[i - p]);
                assert(x[i - p] == t[i - p - 4]);
            }
            assert(s[e - 1] == x[x.len() - 1]);
            lemma_run_over(s, p + 4, e - 1, CharClass::Hex);
            assert(s.subrange(p + 4, e - 1) =~= t) by {
                assert forall|i: int| 0 <= i < t.len() implies s.subrange(p + 4, e - 1)[i] == t[i] by {
                    assert(x[i + 4] == t[i]);
                }
            }
        },
    }
}

/// A name the printer can write so that it reads back as an identifier.
pub open spec fn identifier_valid(w: Seq<char>) -> bool {
    &&& w.len() > 0
    &&& grammar::is_ident_start(w[0])
    &&& forall|i: int| 0 <= i < w.len() ==> grammar::is_ident_char(#[trigger] w[i])
    &&& !grammar::is_keyword(w)
}

/// A name as the printer writes it, followed by anything that does not
/// continue a word, reads back as that identifier; and, when no `(` and no
/// quote follows, as an identifier expression.
pub proof fn lemma_identifier_reads_back(s: Seq<char>, p: int, w: Seq<char>)
    requires
        identifier_valid(w),
        0 <= p,
        p + w.len() <= s.len(),
        s.subrange(p, p + w.len()) == w,
        !grammar::continues_word(s, p + w.len()),
    ensures
        grammar::identifier(s, p) == Some((w, p + w.len())),
        grammar::punct(s, p + w.len(), '(') is None
            && !(p + w.len() < s.len() && (s[p + w.len()] == '"' || s[p + w.len()] == '\''))
            ==> grammar::expression(s, p) == Some((ExprModel::Ident(w), p + w.len())),
{
    let e = p + w.len();
    assert forall|i: int| 0 <= i < w.len() implies s[p + i] == #[trigger] w[i] by {
        assert(s.subrange(p, e)[i] == s[p + i]);
    }
    assert(s[p + 0] == w[0]);
    assert(grammar::skip(s, p) == p);
    assert forall|i: int| p <= i < e implies grammar::in_class(CharClass::Ident, #[trigger] s[i]) by {
        assert(s[i] == w[i - p]);
    }
    lemma_run_over(s, p, e, CharClass::Ident);
    assert(grammar::word(s, p) == Some((w, e)));
    if grammar::punct(s, e, '(') is None && !(e < s.len() && (s[e] == '"' || s[e] == '\'')) {
        assert(!is_dec_digit(s[p]));
        assert(s[p] != '"');
        assert(!grammar::opens_hex_literal(s, p)) by {
            if grammar::opens_hex_literal(s, p) {
                assert(s[p] == 'h' && s[p + 1] == 'e' && s[p + 2] == 'x');
                assert(s[p + 3] == '"' || s[p + 3] == '\'');
                assert(grammar::in_class(CharClass::Ident, s[p + 3]) ==> p + 3 < e);
                if p + 3 >= e {
                    assert(w.len() <= 3);
                    if w.len() == 3 {
                        assert(e == p + 3);
                    } else {
                        assert(grammar::in_class(CharClass::Ident, s[p + w.len()]) || p + w.len() == e);
                        assert(s[p + w.len()] == 'e' || s[p + w.len()] == 'x');
                    }
                }
            }
        }
        assert(grammar::literal(s, p) is None);
    }
}

/// The canonical text of a program.
pub open spec fn fmt_program(b: Seq<StmtModel>) -> Seq<char> {
    fmt_block(b, Seq::empty())
}

fn print_names(names: &Vec<Node<Identifier>>, out: &mut String)
    ensures
        final(out)@ == old(out)@ + join(idents_model(names@)),
{
    let ghost m = idents_model(names@);
    let ghost start = out@;
    let mut j: usize = 0;
    proof {
        assert(m.subrange(0, 0) =~= Seq::<Seq<char>>::empty());
        assert(start + Seq::<char>::empty() =~= start);
    }
    while j < names.len()
        invariant
            m == idents_model(names@),
            j <= names@.len(),
            out@ == start + join(m.subrange(0, j as int)),
        decreases names@.len() - j,
    {
        let ghost before = out@;
        if j > 0 {
            out.append(", ");
        }
        out.append(names[j].node.symbol.as_str());
        proof {
            let t = m.subrange(0, j + 1);
            assert(t.subrange(0, t.len() - 1) =~= m.subrange(0, j as int));
            assert(t[t.len() - 1] == m[j as int]);
            if j == 0 {
                assert(out@ =~= start + join(t));
            } else {
                assert(out@ =~= start + join(t));
            }
        }
        j = j + 1;
    }
    proof {
        assert(m.subrange(0, names@.len() as int) =~= m);
    }
}

fn print_targets(names: &Vec<Node<Identifier>>, out: &mut String)
    ensures
        final(out)@ == old(out)@ + fmt_targets(idents_model(names@)),
{
    if names.len() == 1 {
        out.append(names[0].node.symbol.as_str());
    } else {
        let ghost start = out@;
        out.append("(");
        print_names(names, out);
        out.append(")");
        assert(out@ =~= start + fmt_targets(idents_model(names@)));
    }
}

fn print_literal(l: &Literal, out: &mut String)
    ensures
        final(out)@ == old(out)@ + fmt_literal(literal_model(*l)),
{
    let ghost start = out@;
    match l {
        Literal::HexNumber(n) => {
            if n.node.uint.is_zero() {
                proof {
                    reveal_strlit("0x0");
                    reveal_strlit("0x");
                    assert("0x0"@ =~= "0x"@ + hex_text(0));
                }
                out.append("0x0");
            } else {
                let t = bigint_lower_hex_string(&n.node.uint);
                proof {
                    reveal_strlit("0x");
                    assert(t@ =~= "0x"@ + hex_text(n.node.uint.value()));
                }
                out.append(t.as_str());
            }
        },
        Literal::DecNumber(n) => {
            let t = bigint_dec_string(&n.node.uint);
            out.append(t.as_str());
        },
        Literal::StringLiteral(n) => {
            out.append("\"");
            out.append(n.node.string.as_str());
            out.append("\"");
        },
        Literal::HexLiteral(n) => {
            out.append("hex\"");
            let t = serialize_to_hex(&n.node.bytes);
            out.append(t.as_str());
            out.append("\"");
        },
    }
    assert(out@ =~= start + fmt_literal(literal_model(*l)));
}

fn print_expr(e: &Expression, out: &mut String)
    ensures
        final(out)@ == old(out)@ + fmt_expr(expr_model(*e)),
    decreases *e,
{
    let ghost start = out@;
    match e {
        Expression::Identifier(n) => {
            out.append(n.node.symbol.as_str());
        },
        Expression::Literal(n) => {
            print_literal(&n.node, out);
        },
        Expression::FunctionCall(n) => {
            let c = &n.node;
            out.append(c.identifier.node.symbol.as_str());
            out.append("(");
            let ghost mid = out@;
            let ghost m = exprs_model(c.arguments@);
            proof {
                lemma_args_model(*c);
                assert(m.subrange(0, 0) =~= Seq::<ExprModel>::empty());
                assert(mid + Seq::<char>::empty() =~= mid);
            }
            let mut j: usize = 0;
            while j < c.arguments.len()
                invariant
                    *e == Expression::FunctionCall(*n),
                    *c == n.node,
                    m == exprs_model(c.arguments@),
                    j <= c.arguments@.len(),
                    out@ == mid + fmt_exprs(m.subrange(0, j as int)),
                decreases c.arguments@.len() - j,
            {
                if j > 0 {
                    out.append(", ");
                }
                proof {
                    let ghost v = c.arguments;
                    let ghost a = v@[j as int];
                    assert(decreases_to!(*e => (*e)->FunctionCall_0));
                    assert(decreases_to!(v => v@));
                    assert(decreases_to!(v@ => a));
                }
                print_expr(&c.arguments[j].node, out);
                proof {
                    let t = m.subrange(0, j + 1);
                    assert(t.subrange(0, t.len() - 1) =~= m.subrange(0, j as int));
                    assert(t[t.len() - 1] == m[j as int]);
                    assert(out@ =~= mid + fmt_exprs(t));
                }
                j = j + 1;
            }
            proof {
                assert(m.subrange(0, c.arguments@.len() as int) =~= m);
            }
            out.append(")");
        },
    }
    assert(out@ =~= start + fmt_expr(expr_model(*e)));
}

fn print_block(b: &Block, pad: &String, out: &mut String)
    ensures
        final(out)@ == old(out)@ + fmt_block(block_model(*b), pad@),
    decreases *b, 2nat,
{
    let ghost start = out@;
    let ghost m = stmts_seq_model(b.statements@);
    proof {
        lemma_block_model(*b);
    }
    let n = b.statements.len();
    if n == 0 {
        out.append("{ }");
    } else if n == 1 {
        out.append("{ ");
        print_stmt(&b.statements[0].node, pad, false, out);
        out.append(" }");
        assert(out@ =~= start + fmt_block(m, pad@));
    } else {
        out.append("{");
        let mut inner = pad.clone();
        inner.append("  ");
        let ghost mid = out@;
        let mut j: usize = 0;
        proof {
            assert(m.subrange(0, 0) =~= Seq::<StmtModel>::empty());
            assert(mid + Seq::<char>::empty() =~= mid);
        }
        while j < n
            invariant
                n == b.statements@.len(),
                m == stmts_seq_model(b.statements@),
                inner@ == pad@ + "  "@,
                j <= n,
                out@ == mid + fmt_lines(m.subrange(0, j as int), inner@),
            decreases n - j,
        {
            out.append("\n");
            out.append(inner.as_str());
            print_stmt(&b.statements[j].node, &inner, true, out);
            proof {
                let t = m.subrange(0, j + 1);
                assert(t.subrange(0, t.len() - 1) =~= m.subrange(0, j as int));
                assert(t[t.len() - 1] == m[j as int]);
                assert(out@ =~= mid + fmt_lines(t, inner@));
            }
            j = j + 1;
        }
        proof {
            assert(m.subrange(0, n as int) =~= m);
        }
        out.append("\n");
        out.append(pad.as_str());
        out.append("}");
        assert(out@ =~= start + fmt_block(m, pad@));
    }
}

fn print_stmt(s: &Statement, pad: &String, lines: bool, out: &mut String)
    ensures
        final(out)@ == old(out)@ + fmt_stmt(stmt_model(*s), pad@, lines),
    decreases *s, 1nat,
{
    let ghost start = out@;
    match s {
        Statement::Block(n) => {
            print_block(&n.node, pad, out);
        },
        Statement::FunctionDefinition(_) => {
            print_function(s, pad, lines, out);
        },
        Statement::VariableDeclaration(n) => {
            out.append("let ");
            print_targets(&n.node.identifiers, out);
            out.append(" := ");
            print_expr(&n.node.expression.node, out);
            assert(out@ =~= start + fmt_stmt(stmt_model(*s), pad@, lines));
        },
        Statement::Assignment(n) => {
            print_targets(&n.node.identifiers, out);
            out.append(" := ");
            print_expr(&n.node.expression.node, out);
            assert(out@ =~= start + fmt_stmt(stmt_model(*s), pad@, lines));
        },
        Statement::Expression(n) => {
            print_expr(&n.node, out);
        },
        Statement::Switch(_) => {
            print_switch(s, pad, lines, out);
        },
        Statement::ForLoop(_) => {
            print_for(s, pad, lines, out);
        },
        Statement::ControlOp(n) => {
            match n.node {
                ControlOp::Break() => out.append("break"),
                ControlOp::Continue() => out.append("continue"),
            }
        },
        Statement::SubAssembly(n) => {
            out.append("assembly ");
            out.append(n.node.identifier.node.symbol.as_str());
            out.append(" ");
            print_block(&n.node.block.node, pad, out);
            assert(out@ =~= start + fmt_stmt(stmt_model(*s), pad@, lines));
        },
    }
}

fn print_function(s: &Statement, pad: &String, lines: bool, out: &mut String)
    requires
        s is FunctionDefinition,
    ensures
        final(out)@ == old(out)@ + fmt_stmt(stmt_model(*s), pad@, lines),
    decreases *s, 0nat,
{
    let n = match s {
        Statement::FunctionDefinition(n) => n,
        _ => {
            return;
        },
    };
    let ghost start = out@;
    let f = &n.node;
    out.append("function ");
    out.append(f.identifier.node.symbol.as_str());
    out.append("(");
    print_names(&f.arguments, out);
    out.append(")");
    let ghost mid = out@;
    match &f.returns {
        Some(r) => {
            out.append(" -> (");
            print_names(r, out);
            out.append(")");
        },
        None => {},
    }
    let ghost mid2 = out@;
    out.append(" ");
    print_block(&f.body.node, pad, out);
    assert(out@ =~= start + fmt_stmt(stmt_model(*s), pad@, lines));
}

fn print_for(s: &Statement, pad: &String, lines: bool, out: &mut String)
    requires
        s is ForLoop,
    ensures
        final(out)@ == old(out)@ + fmt_stmt(stmt_model(*s), pad@, lines),
    decreases *s, 0nat,
{
    let n = match s {
        Statement::ForLoop(n) => n,
        _ => {
            return;
        },
    };
    let ghost start = out@;
    let f = &n.node;
    let ghost a = fmt_block(block_model(f.init.node), pad@);
    let ghost b = fmt_expr(expr_model(f.condition.node));
    let ghost c = fmt_block(block_model(f.post.node), pad@);
    let ghost d = fmt_block(block_model(f.body.node), pad@);
    assert(fmt_stmt(stmt_model(*s), pad@, lines) == "for "@ + a + " "@ + b + " "@ + c + " "@ + d);
    out.append("for ");
    print_block(&f.init.node, pad, out);
    assert(out@ =~= start + ("for "@ + a));
    out.append(" ");
    print_expr(&f.condition.node, out);
    assert(out@ =~= start + ("for "@ + a + " "@ + b));
    out.append(" ");
    print_block(&f.post.node, pad, out);
    assert(out@ =~= start + ("for "@ + a + " "@ + b + " "@ + c));
    out.append(" ");
    print_block(&f.body.node, pad, out);
    assert(out@ =~= start + fmt_stmt(stmt_model(*s), pad@, lines));
}

fn print_switch(s: &Statement, pad: &String, lines: bool, out: &mut String)
    requires
        s is Switch,
    ensures
        final(out)@ == old(out)@ + fmt_stmt(stmt_model(*s), pad@, lines),
    decreases *s, 0nat,
{
    let n = match s {
        Statement::Switch(n) => n,
        _ => {
            return;
        },
    };
    let w = &n.node;
    let ghost start = out@;
    let ghost m = cases_seq_model(w.cases@);
    proof {
        lemma_cases_model(*w);
    }
    out.append("switch ");
    print_expr(&w.expression.node, out);
    let ghost mid = out@;
    proof {
        assert(m.subrange(0, 0) =~= Seq::<CaseModel>::empty());
        assert(mid + Seq::<char>::empty() =~= mid);
    }
    let mut j: usize = 0;
    while j < w.cases.len()
        invariant
            *s == Statement::Switch(*n),
            *w == n.node,
            m == cases_seq_model(w.cases@),
            j <= w.cases@.len(),
            out@ == mid + fmt_cases(m.subrange(0, j as int), pad@, lines),
        decreases w.cases@.len() - j,
    {
        if lines {
            out.append("\n");
            out.append(pad.as_str());
        } else {
            out.append(" ");
        }
        out.append("case ");
        let c = &w.cases[j].node;
        print_expr(&c.expression.node, out);
        out.append(": ");
        proof {
            let ghost v = w.cases;
            let ghost a = v@[j as int];
            assert(decreases_to!(*s => (*s)->Switch_0));
            assert(decreases_to!(v => v@));
            assert(decreases_to!(v@ => a));
        }
        print_block(&c.block.node, pad, out);
        proof {
            let t = m.subrange(0, j + 1);
            assert(t.subrange(0, t.len() - 1) =~= m.subrange(0, j as int));
            assert(t[t.len() - 1] == m[j as int]);
            assert(out@ =~= mid + fmt_cases(t, pad@, lines));
        }
        j = j + 1;
    }
    proof {
        assert(m.subrange(0, w.cases@.len() as int) =~= m);
    }
    match &w.default {
        Some(d) => {
            if lines {
                out.append("\n");
                out.append(pad.as_str());
            } else {
                out.append(" ");
            }
            out.append("default: ");
            print_block(&d.node, pad, out);
        },
        None => {},
    }
    assert(out@ =~= start + fmt_stmt(stmt_model(*s), pad@, lines));
}

/// Renders trees as canonical text.
pub struct PrettyPrinter {}

impl PrettyPrinter {
    /// Appends the canonical text of the program `block` to `out`.
    pub fn print(block: &Node<Block>, out: &mut String)
        ensures
            final(out)@ == old(out)@ + fmt_program(block_model(block.node)),
    {
        let pad = String::new();
        print_block(&block.node, &pad, out);
    }
}

/// The canonical text of the program `block`.
pub fn format(block: &Node<Block>) -> (r: String)
    ensures
        r@ == fmt_program(block_model(block.node)),
{
    let mut out = String::new();
    PrettyPrinter::print(block, &mut out);
    assert(out@ =~= fmt_program(block_model(block.node)));
    out
}

} // verus!
