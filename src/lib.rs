//! A front end for a small, curly-braced assembly language: a parser from
//! text to syntax tree, proved to follow the grammar; a printer back to
//! canonical text; and a scope resolver that builds the tree of lexical
//! scopes and says in which scope each node stands.
use vstd::prelude::*;

pub mod ast;
pub mod grammar;
pub mod number;
pub mod parser;
pub mod pretty;
pub mod process;
pub mod rules;
pub mod scopes;
pub mod symbols;
pub mod walk;

verus! {

/// Parses a program, drawing the node identifiers from `ids`: the nodes of
/// the tree get identifiers that no other node of it has, handed out while
/// the counter went from its old value to its new one (unless it ran out).
pub fn parse_with(s: &str, ids: &mut ast::NodeIds) -> (r: Result<ast::Node<ast::Block>, parser::ParseError>)
    ensures
        match r {
            Ok(b) => grammar::program(s@) == Some(ast::block_model(b.node))
                && (final(ids).next < u64::MAX
                    ==> walk::fresh_ids(walk::block_visits(b), old(ids).next as int, final(ids).next as int)),
            Err(e) => grammar::program(s@) is None && e.position == grammar::error_position(s@)
                && e.position <= s@.len(),
        },
        old(ids).next <= final(ids).next,
{
    let src = parser::Source::new(s);
    let mut st = parser::Progress::starting_at(ids.next);
    let r = parser::block(&src, &mut st, 0);
    ids.next = st.ids.next;
    match parser::finish(&src, &st, r) {
        Ok(b) => Ok(b),
        Err(_) => Err(parser::program_error(&src)),
    }
}

/// Parses a program: one block, with nothing after it but whitespace and comments.
pub fn parse(s: &str) -> (r: Result<ast::Node<ast::Block>, parser::ParseError>)
    ensures
        match r {
            Ok(b) => grammar::program(s@) == Some(ast::block_model(b.node)),
            Err(e) => grammar::program(s@) is None && e.position == grammar::error_position(s@)
                && e.position <= s@.len(),
        },
{
    rules::block(s)
}

} // verus!
