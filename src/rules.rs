//! Parsing whole texts: each function reads one production of the grammar
//! from the start of the text, which must hold nothing after it but
//! whitespace and comments. A program's error is at
//! `grammar::error_position`; the error of another production is somewhere
//! in the text, at the furthest place where a token was expected.
use vstd::prelude::*;
use crate::ast::{
    Block, Node, Identifier, HexNumber, DecNumber, StringLiteral, HexLiteral, Statement, Expression,
    block_model, stmt_model, expr_model,
};
use crate::grammar;
use crate::parser;
use crate::parser::{ParseError, Progress, Source};

verus! {

/// A program: one block.
pub fn block(text: &str) -> (r: Result<Node<Block>, ParseError>)
    ensures
        match r {
            Ok(b) => grammar::program(text@) == Some(block_model(b.node)),
            Err(e) => grammar::program(text@) is None && e.position == grammar::error_position(text@)
                && e.position <= text@.len(),
        },
{
    let src = Source::new(text);
    let mut st = Progress::new();
    let r = parser::block(&src, &mut st, 0);
    match parser::finish(&src, &st, r) {
        Ok(b) => Ok(b),
        Err(_) => Err(parser::program_error(&src)),
    }
}

pub fn statement(text: &str) -> (r: Result<Node<Statement>, ParseError>)
    ensures
        match r {
            Ok(n) => grammar::whole(text@, grammar::statement(text@, 0)) == Some(stmt_model(n.node)),
            Err(e) => grammar::whole(text@, grammar::statement(text@, 0)) is None && e.position <= text@.len(),
        },
{
    let src = Source::new(text);
    let mut st = Progress::new();
    let r = parser::statement(&src, &mut st, 0);
    parser::finish(&src, &st, r)
}

pub fn expression(text: &str) -> (r: Result<Node<Expression>, ParseError>)
    ensures
        match r {
            Ok(n) => grammar::whole(text@, grammar::expression(text@, 0)) == Some(expr_model(n.node)),
            Err(e) => grammar::whole(text@, grammar::expression(text@, 0)) is None && e.position <= text@.len(),
        },
{
    let src = Source::new(text);
    let mut st = Progress::new();
    let r = parser::expression(&src, &mut st, 0);
    parser::finish(&src, &st, r)
}

pub fn identifier(text: &str) -> (r: Result<Node<Identifier>, ParseError>)
    ensures
        match r {
            Ok(n) => grammar::whole(text@, grammar::identifier(text@, 0)) == Some(n.node.symbol@),
            Err(e) => grammar::whole(text@, grammar::identifier(text@, 0)) is None && e.position <= text@.len(),
        },
{
    let src = Source::new(text);
    let mut st = Progress::new();
    let r = parser::identifier(&src, &mut st, 0);
    parser::finish(&src, &st, r)
}

pub fn hex_number(text: &str) -> (r: Result<Node<HexNumber>, ParseError>)
    ensures
        match r {
            Ok(n) => grammar::whole(text@, grammar::hex_number(text@, 0)) == Some(n.node.uint.value()),
            Err(e) => grammar::whole(text@, grammar::hex_number(text@, 0)) is None && e.position <= text@.len(),
        },
{
    let src = Source::new(text);
    let mut st = Progress::new();
    let r = parser::hex_number(&src, &mut st, 0);
    parser::finish(&src, &st, r)
}

pub fn dec_number(text: &str) -> (r: Result<Node<DecNumber>, ParseError>)
    ensures
        match r {
            Ok(n) => grammar::whole(text@, grammar::dec_number(text@, 0)) == Some(n.node.uint.value()),
            Err(e) => grammar::whole(text@, grammar::dec_number(text@, 0)) is None && e.position <= text@.len(),
        },
{
    let src = Source::new(text);
    let mut st = Progress::new();
    let r = parser::dec_number(&src, &mut st, 0);
    parser::finish(&src, &st, r)
}

pub fn string_literal(text: &str) -> (r: Result<Node<StringLiteral>, ParseError>)
    ensures
        match r {
            Ok(n) => grammar::whole(text@, grammar::string_literal(text@, 0)) == Some(n.node.string@),
            Err(e) => grammar::whole(text@, grammar::string_literal(text@, 0)) is None && e.position <= text@.len(),
        },
{
    let src = Source::new(text);
    let mut st = Progress::new();
    let r = parser::string_literal(&src, &mut st, 0);
    parser::finish(&src, &st, r)
}

pub fn hex_literal(text: &str) -> (r: Result<Node<HexLiteral>, ParseError>)
    ensures
        match r {
            Ok(n) => grammar::whole(text@, grammar::hex_literal(text@, 0)) == Some(n.node.bytes@),
            Err(e) => grammar::whole(text@, grammar::hex_literal(text@, 0)) is None && e.position <= text@.len(),
        },
{
    let src = Source::new(text);
    let mut st = Progress::new();
    let r = parser::hex_literal(&src, &mut st, 0);
    parser::finish(&src, &st, r)
}

} // verus!
