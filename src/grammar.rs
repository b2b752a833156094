//! The grammar of the assembly language, as spec functions over the text.
//!
//! Each production takes the text and a position and gives, when the text
//! matches there, the model of what was read and the position just past it.
//! Choice is ordered (a parsing expression grammar): the first alternative
//! that matches is taken, and mostly an opening token or keyword decides.
//! Whitespace and comments
//! (`// ...` to the end of the line, `/* ... */`) may stand before any token.
use vstd::prelude::*;
use crate::ast::{CaseModel, ExprModel, LiteralModel, StmtModel};
use crate::number::{dec_value, hex_bytes, hex_value, is_dec_digit, is_hex_digit, pow2_256};

verus! {

pub open spec fn is_space(c: char) -> bool {
    c == ' ' || c == '\t' || c == '\n' || c == '\r'
}

pub open spec fn is_letter(c: char) -> bool {
    ('a' <= c && c <= 'z') || ('A' <= c && c <= 'Z')
}

pub open spec fn is_ident_start(c: char) -> bool {
    is_letter(c) || c == '$' || c == '_'
}

pub open spec fn is_ident_char(c: char) -> bool {
    is_ident_start(c) || is_dec_digit(c)
}

/// The position of the first newline at or after `p`, or the end of the text.
pub open spec fn line_end(s: Seq<char>, p: int) -> int
    decreases s.len() - p,
{
    if 0 <= p < s.len() && s[p] != '\n' {
        line_end(s, p + 1)
    } else {
        p
    }
}

/// The position just past the first `*/` at or after `p`, if there is one.
pub open spec fn comment_close(s: Seq<char>, p: int) -> Option<int>
    decreases s.len() - p,
{
    if p < 0 || p + 1 >= s.len() {
        None
    } else if s[p] == '*' && s[p + 1] == '/' {
        Some(p + 2)
    } else {
        comment_close(s, p + 1)
    }
}

/// The first position at or after `p` that is neither whitespace nor inside a comment.
pub open spec fn skip(s: Seq<char>, p: int) -> int
    decreases s.len() - p,
{
    if p < 0 || p >= s.len() {
        p
    } else if is_space(s[p]) {
        skip(s, p + 1)
    } else if p + 1 < s.len() && s[p] == '/' && s[p + 1] == '/' {
        let e = line_end(s, p + 2);
        if p < e <= s.len() { skip(s, e) } else { p }
    } else if p + 1 < s.len() && s[p] == '/' && s[p + 1] == '*' {
        match comment_close(s, p + 2) {
            Some(e) => if p < e <= s.len() { skip(s, e) } else { p },
            None => p,
        }
    } else {
        p
    }
}

/// The classes of characters that make up the runs of the lexical productions.
#[derive(Clone, Copy)]
pub enum CharClass {
    Ident,
    Dec,
    Hex,
    NotQuote,
}

pub open spec fn in_class(k: CharClass, c: char) -> bool {
    match k {
        CharClass::Ident => is_ident_char(c),
        CharClass::Dec => is_dec_digit(c),
        CharClass::Hex => is_hex_digit(c),
        CharClass::NotQuote => c != '"',
    }
}

/// The end of the run of characters of class `k` that starts at `p`.
pub open spec fn run(s: Seq<char>, p: int, k: CharClass) -> int
    decreases s.len() - p,
{
    if 0 <= p < s.len() && in_class(k, s[p]) {
        run(s, p + 1, k)
    } else {
        p
    }
}

pub open spec fn is_keyword(w: Seq<char>) -> bool {
    w == seq!['f', 'u', 'n', 'c', 't', 'i', 'o', 'n']
    || w == seq!['l', 'e', 't']
    || w == seq!['s', 'w', 'i', 't', 'c', 'h']
    || w == seq!['c', 'a', 's', 'e']
    || w == seq!['d', 'e', 'f', 'a', 'u', 'l', 't']
    || w == seq!['f', 'o', 'r']
    || w == seq!['b', 'r', 'e', 'a', 'k']
    || w == seq!['c', 'o', 'n', 't', 'i', 'n', 'u', 'e']
    || w == seq!['a', 's', 's', 'e', 'm', 'b', 'l', 'y']
}

/// A word: the longest run of identifier characters after the trivia,
/// starting with a letter, `$` or `_`. Gives the word and its end.
pub open spec fn word(s: Seq<char>, p: int) -> Option<(Seq<char>, int)> {
    let q = skip(s, p);
    if 0 <= p <= q < s.len() && is_ident_start(s[q]) {
        let e = run(s, q, CharClass::Ident);
        if q < e <= s.len() { Some((s.subrange(q, e), e)) } else { None }
    } else {
        None
    }
}

/// The keyword `w`, as a whole word.
pub open spec fn keyword(s: Seq<char>, p: int, w: Seq<char>) -> Option<int> {
    match word(s, p) {
        Some((v, e)) => if v == w { Some(e) } else { None },
        None => None,
    }
}

/// An identifier: a word that is not a keyword.
pub open spec fn identifier(s: Seq<char>, p: int) -> Option<(Seq<char>, int)> {
    match word(s, p) {
        Some((v, e)) => if is_keyword(v) { None } else { Some((v, e)) },
        None => None,
    }
}

/// The punctuation character `c`.
pub open spec fn punct(s: Seq<char>, p: int, c: char) -> Option<int> {
    let q = skip(s, p);
    if 0 <= p <= q < s.len() && s[q] == c { Some(q + 1) } else { None }
}

/// The two-character punctuation `c1 c2`.
pub open spec fn punct2(s: Seq<char>, p: int, c1: char, c2: char) -> Option<int> {
    let q = skip(s, p);
    if 0 <= p <= q && q + 1 < s.len() && s[q] == c1 && s[q + 1] == c2 { Some(q + 2) } else { None }
}

/// Whether the character at `e`, if any, would continue a word: a number
/// must not run straight into one.
pub open spec fn continues_word(s: Seq<char>, e: int) -> bool {
    0 <= e < s.len() && is_ident_char(s[e])
}

/// `0x` and at least one hex digit, denoting a number below 2^256, with no
/// letter, digit, `$` or `_` straight after it. Gives that number.
pub open spec fn hex_number(s: Seq<char>, p: int) -> Option<(nat, int)> {
    let q = skip(s, p);
    if 0 <= p <= q && q + 1 < s.len() && s[q] == '0' && s[q + 1] == 'x' {
        let e = run(s, q + 2, CharClass::Hex);
        if e > q + 2 && hex_value(s.subrange(q + 2, e)) < pow2_256() && !continues_word(s, e) {
            Some((hex_value(s.subrange(q + 2, e)), e))
        } else {
            None
        }
    } else {
        None
    }
}

/// At least one decimal digit, denoting a number below 2^256, with no
/// letter, digit, `$` or `_` straight after it.
pub open spec fn dec_number(s: Seq<char>, p: int) -> Option<(nat, int)> {
    let q = skip(s, p);
    if 0 <= p <= q < s.len() && is_dec_digit(s[q]) {
        let e = run(s, q, CharClass::Dec);
        if e > q && dec_value(s.subrange(q, e)) < pow2_256() && !continues_word(s, e) {
            Some((dec_value(s.subrange(q, e)), e))
        } else {
            None
        }
    } else {
        None
    }
}

/// A double-quoted string; gives the text between the quotes.
pub open spec fn string_literal(s: Seq<char>, p: int) -> Option<(Seq<char>, int)> {
    let q = skip(s, p);
    if 0 <= p <= q < s.len() && s[q] == '"' {
        let e = run(s, q + 1, CharClass::NotQuote);
        if e < s.len() { Some((s.subrange(q + 1, e), e + 1)) } else { None }
    } else {
        None
    }
}

/// Whether the text after the trivia at `p` opens a hex literal: `hex`
/// straight followed by a double or single quote. What follows must then be
/// a well-formed hex literal; nothing else is read there.
pub open spec fn opens_hex_literal(s: Seq<char>, p: int) -> bool {
    let q = skip(s, p);
    0 <= p <= q && q + 3 < s.len() && s[q] == 'h' && s[q + 1] == 'e' && s[q + 2] == 'x'
        && (s[q + 3] == '"' || s[q + 3] == '\'')
}

/// `hex`, then an even count of hex digits between double or single quotes;
/// gives the bytes the digit pairs denote.
pub open spec fn hex_literal(s: Seq<char>, p: int) -> Option<(Seq<u8>, int)> {
    let q = skip(s, p);
    if opens_hex_literal(s, p) {
        let e = run(s, q + 4, CharClass::Hex);
        if e < s.len() && s[e] == s[q + 3] && (e - (q + 4)) % 2 == 0 {
            Some((hex_bytes(s.subrange(q + 4, e)), e + 1))
        } else {
            None
        }
    } else {
        None
    }
}

/// A literal: hex literal, hex number, decimal number or string, tried in that order.
pub open spec fn literal(s: Seq<char>, p: int) -> Option<(LiteralModel, int)> {
    match hex_literal(s, p) {
        Some((b, e)) => Some((LiteralModel::Bytes(b), e)),
        None => match hex_number(s, p) {
            Some((n, e)) => Some((LiteralModel::Hex(n), e)),
            None => match dec_number(s, p) {
                Some((n, e)) => Some((LiteralModel::Dec(n), e)),
                None => match string_literal(s, p) {
                    Some((t, e)) => Some((LiteralModel::Str(t), e)),
                    None => None,
                },
            },
        },
    }
}

/// An expression: a literal, a call `name(arg, ...)`, or an identifier. Once
/// a hex literal opens, only a well-formed hex literal will do.
pub open spec fn expression(s: Seq<char>, p: int) -> Option<(ExprModel, int)>
    decreases s.len() - p, 2nat,
{
    match literal(s, p) {
        Some((l, e)) => Some((ExprModel::Lit(l), e)),
        None => if opens_hex_literal(s, p) {
            None
        } else {
            match identifier(s, p) {
                Some((name, e)) => match punct(s, e, '(') {
                    Some(e2) => if p < e2 <= s.len() {
                        match arguments(s, e2) {
                            Some((args, e3)) => Some((ExprModel::Call(name, args), e3)),
                            None => None,
                        }
                    } else {
                        None
                    },
                    None => Some((ExprModel::Ident(name), e)),
                },
                None => None,
            }
        },
    }
}

/// A call's arguments after its `(`: comma-separated expressions, then `)`.
pub open spec fn arguments(s: Seq<char>, p: int) -> Option<(Seq<ExprModel>, int)>
    decreases s.len() - p, 3nat,
{
    match punct(s, p, ')') {
        Some(e) => Some((seq![], e)),
        None => match expression(s, p) {
            Some((a, e)) => if p < e <= s.len() {
                match more_arguments(s, e) {
                    Some((rest, e2)) => Some((seq![a] + rest, e2)),
                    None => None,
                }
            } else {
                None
            },
            None => None,
        },
    }
}

/// The arguments after the first: `, expression` repeated, then `)`.
pub open spec fn more_arguments(s: Seq<char>, p: int) -> Option<(Seq<ExprModel>, int)>
    decreases s.len() - p, 3nat,
{
    match punct(s, p, ')') {
        Some(e) => Some((seq![], e)),
        None => match punct(s, p, ',') {
            Some(e) => match expression(s, e) {
                Some((a, e2)) => if p < e2 <= s.len() {
                    match more_arguments(s, e2) {
                        Some((rest, e3)) => Some((seq![a] + rest, e3)),
                        None => None,
                    }
                } else {
                    None
                },
                None => None,
            },
            None => None,
        },
    }
}

/// Identifiers after the first in a parenthesized list: `, identifier` repeated, then `)`.
pub open spec fn more_identifiers(s: Seq<char>, p: int) -> Option<(Seq<Seq<char>>, int)>
    decreases s.len() - p,
{
    match punct(s, p, ')') {
        Some(e) => Some((seq![], e)),
        None => match punct(s, p, ',') {
            Some(e) => match identifier(s, e) {
                Some((n, e2)) => match more_identifiers(s, e2) {
                    Some((rest, e3)) => Some((seq![n] + rest, e3)),
                    None => None,
                },
                None => None,
            },
            None => None,
        },
    }
}

/// One bare identifier, or a parenthesized, comma-separated, non-empty list of them.
pub open spec fn identifier_list(s: Seq<char>, p: int) -> Option<(Seq<Seq<char>>, int)> {
    match punct(s, p, '(') {
        Some(e) => match identifier(s, e) {
            Some((n, e2)) => match more_identifiers(s, e2) {
                Some((rest, e3)) => Some((seq![n] + rest, e3)),
                None => None,
            },
            None => None,
        },
        None => match identifier(s, p) {
            Some((n, e)) => Some((seq![n], e)),
            None => None,
        },
    }
}

/// A function's parameters: a parenthesized, comma-separated, possibly empty list of identifiers.
pub open spec fn parameters(s: Seq<char>, p: int) -> Option<(Seq<Seq<char>>, int)> {
    match punct(s, p, '(') {
        Some(e) => match punct(s, e, ')') {
            Some(e2) => Some((seq![], e2)),
            None => match identifier(s, e) {
                Some((n, e2)) => match more_identifiers(s, e2) {
                    Some((rest, e3)) => Some((seq![n] + rest, e3)),
                    None => None,
                },
                None => None,
            },
        },
        None => None,
    }
}

pub open spec fn kw_function() -> Seq<char> { seq!['f', 'u', 'n', 'c', 't', 'i', 'o', 'n'] }
pub open spec fn kw_let() -> Seq<char> { seq!['l', 'e', 't'] }
pub open spec fn kw_switch() -> Seq<char> { seq!['s', 'w', 'i', 't', 'c', 'h'] }
pub open spec fn kw_case() -> Seq<char> { seq!['c', 'a', 's', 'e'] }
pub open spec fn kw_default() -> Seq<char> { seq!['d', 'e', 'f', 'a', 'u', 'l', 't'] }
pub open spec fn kw_for() -> Seq<char> { seq!['f', 'o', 'r'] }
pub open spec fn kw_break() -> Seq<char> { seq!['b', 'r', 'e', 'a', 'k'] }
pub open spec fn kw_continue() -> Seq<char> { seq!['c', 'o', 'n', 't', 'i', 'n', 'u', 'e'] }
pub open spec fn kw_assembly() -> Seq<char> { seq!['a', 's', 's', 'e', 'm', 'b', 'l', 'y'] }

/// A block: `{`, statements, `}`.
pub open spec fn block(s: Seq<char>, p: int) -> Option<(Seq<StmtModel>, int)>
    decreases s.len() - p, 3nat,
{
    match punct(s, p, '{') {
        Some(e) => block_rest(s, e),
        None => None,
    }
}

/// The statements of a block after its `{`, up to and including its `}`.
pub open spec fn block_rest(s: Seq<char>, p: int) -> Option<(Seq<StmtModel>, int)>
    decreases s.len() - p, 8nat,
{
    match punct(s, p, '}') {
        Some(e) => Some((seq![], e)),
        None => match statement(s, p) {
            Some((st, e)) => if p < e <= s.len() {
                match block_rest(s, e) {
                    Some((rest, e2)) => Some((seq![st] + rest, e2)),
                    None => None,
                }
            } else {
                None
            },
            None => None,
        },
    }
}

/// The cases of a switch: `case expression : block`, repeated.
pub open spec fn cases(s: Seq<char>, p: int) -> Option<(Seq<CaseModel>, int)>
    decreases s.len() - p, 5nat,
{
    match keyword(s, p, kw_case()) {
        Some(e) => match expression(s, e) {
            Some((x, e2)) => match punct(s, e2, ':') {
                Some(e3) => if p < e3 <= s.len() {
                    match block(s, e3) {
                        Some((b, e4)) => if p < e4 <= s.len() {
                            match cases(s, e4) {
                                Some((rest, e5)) => Some((seq![CaseModel { expr: x, body: b }] + rest, e5)),
                                None => None,
                            }
                        } else {
                            None
                        },
                        None => None,
                    }
                } else {
                    None
                },
                None => None,
            },
            None => None,
        },
        None => Some((seq![], p)),
    }
}

/// What follows `function`: name, parameters, optional `-> returns`, body.
pub open spec fn function_rest(s: Seq<char>, p: int) -> Option<(StmtModel, int)>
    decreases s.len() - p, 4nat,
{
    match identifier(s, p) {
        Some((name, e)) => match parameters(s, e) {
            Some((args, e2)) => match punct2(s, e2, '-', '>') {
                Some(e3) => match identifier_list(s, e3) {
                    Some((rets, e4)) => if p <= e4 <= s.len() {
                        match block(s, e4) {
                            Some((body, e5)) => Some((StmtModel::Function(name, args, Some(rets), body), e5)),
                            None => None,
                        }
                    } else {
                        None
                    },
                    None => None,
                },
                None => if p <= e2 <= s.len() {
                    match block(s, e2) {
                        Some((body, e5)) => Some((StmtModel::Function(name, args, None, body), e5)),
                        None => None,
                    }
                } else {
                    None
                },
            },
            None => None,
        },
        None => None,
    }
}

/// What follows `switch`: the scrutinee, the cases, an optional `default : block`.
pub open spec fn switch_rest(s: Seq<char>, p: int) -> Option<(StmtModel, int)>
    decreases s.len() - p, 6nat,
{
    match expression(s, p) {
        Some((x, e)) => if p <= e <= s.len() {
            match cases(s, e) {
                Some((cs, e2)) => if p <= e2 <= s.len() {
                    match keyword(s, e2, kw_default()) {
                        Some(e3) => match punct(s, e3, ':') {
                            Some(e4) => match block(s, e4) {
                                Some((d, e5)) => Some((StmtModel::Switch(x, cs, Some(d)), e5)),
                                None => None,
                            },
                            None => None,
                        },
                        None => Some((StmtModel::Switch(x, cs, None), e2)),
                    }
                } else {
                    None
                },
                None => None,
            }
        } else {
            None
        },
        None => None,
    }
}

/// What follows `for`: init block, condition, post block, body block.
pub open spec fn for_rest(s: Seq<char>, p: int) -> Option<(StmtModel, int)>
    decreases s.len() - p, 4nat,
{
    match block(s, p) {
        Some((init, e)) => if p < e <= s.len() {
            match expression(s, e) {
                Some((cond, e2)) => if p < e2 <= s.len() {
                    match block(s, e2) {
                        Some((post, e3)) => if p < e3 <= s.len() {
                            match block(s, e3) {
                                Some((body, e4)) => Some((StmtModel::For(init, cond, post, body), e4)),
                                None => None,
                            }
                        } else {
                            None
                        },
                        None => None,
                    }
                } else {
                    None
                },
                None => None,
            }
        } else {
            None
        },
        None => None,
    }
}

/// What follows `let`: the targets, `:=`, the expression.
pub open spec fn let_rest(s: Seq<char>, p: int) -> Option<(StmtModel, int)> {
    match identifier_list(s, p) {
        Some((targets, e)) => match punct2(s, e, ':', '=') {
            Some(e2) => match expression(s, e2) {
                Some((x, e3)) => Some((StmtModel::Let(targets, x), e3)),
                None => None,
            },
            None => None,
        },
        None => None,
    }
}

/// What follows `assembly`: the name and the block.
pub open spec fn assembly_rest(s: Seq<char>, p: int) -> Option<(StmtModel, int)>
    decreases s.len() - p, 4nat,
{
    match identifier(s, p) {
        Some((name, e)) => if p < e <= s.len() {
            match block(s, e) {
                Some((b, e2)) => Some((StmtModel::Assembly(name, b), e2)),
                None => None,
            }
        } else {
            None
        },
        None => None,
    }
}

/// A statement. A `{` opens a block; a keyword decides the other forms; else
/// targets followed by `:=` make an assignment, and anything else must be an expression.
pub open spec fn statement(s: Seq<char>, p: int) -> Option<(StmtModel, int)>
    decreases s.len() - p, 7nat,
{
    match punct(s, p, '{') {
        Some(_) => match block(s, p) {
            Some((b, e)) => Some((StmtModel::Block(b), e)),
            None => None,
        },
        None => match word(s, p) {
            Some((w, e)) => if w == kw_function() {
                function_rest(s, e)
            } else if w == kw_let() {
                let_rest(s, e)
            } else if w == kw_switch() {
                switch_rest(s, e)
            } else if w == kw_for() {
                for_rest(s, e)
            } else if w == kw_break() {
                Some((StmtModel::Break, e))
            } else if w == kw_continue() {
                Some((StmtModel::Continue, e))
            } else if w == kw_assembly() {
                assembly_rest(s, e)
            } else {
                assignment_or_expression(s, p)
            },
            None => assignment_or_expression(s, p),
        },
    }
}

/// `targets := expression` where the targets are followed by `:=`, else an expression.
pub open spec fn assignment_or_expression(s: Seq<char>, p: int) -> Option<(StmtModel, int)>
    decreases s.len() - p, 6nat,
{
    match identifier_list(s, p) {
        Some((targets, e)) => match punct2(s, e, ':', '=') {
            Some(e2) => match expression(s, e2) {
                Some((x, e3)) => Some((StmtModel::Assign(targets, x), e3)),
                None => None,
            },
            None => match expression(s, p) {
                Some((x, e3)) => Some((StmtModel::Expr(x), e3)),
                None => None,
            },
        },
        None => match expression(s, p) {
            Some((x, e3)) => Some((StmtModel::Expr(x), e3)),
            None => None,
        },
    }
}

/// A whole text that is `production` at its start, with nothing but trivia after it.
pub open spec fn whole<T>(s: Seq<char>, r: Option<(T, int)>) -> Option<T> {
    match r {
        Some((t, e)) => if skip(s, e) == s.len() { Some(t) } else { None },
        None => None,
    }
}

/// Where a text that is not a program goes wrong: after the leading trivia
/// when the program's `{` is missing there; else, when the block is complete
/// but more than trivia follows it, where that text begins; else the start
/// of the first statement of the program's block that does not parse (or
/// where its closing `}` is missing).
pub open spec fn error_position(s: Seq<char>) -> int {
    match punct(s, 0, '{') {
        None => skip(s, 0),
        Some(e) => match block_rest(s, e) {
            Some((_, e2)) => skip(s, e2),
            None => first_bad_statement(s, e),
        },
    }
}

/// From `p` on, the start of the first statement that does not parse.
pub open spec fn first_bad_statement(s: Seq<char>, p: int) -> int
    decreases s.len() - p,
{
    match punct(s, p, '}') {
        Some(_) => skip(s, p),
        None => match statement(s, p) {
            Some((_, e)) => if p < e <= s.len() { first_bad_statement(s, e) } else { skip(s, p) },
            None => skip(s, p),
        },
    }
}

/// A program: one block, and nothing but trivia after it.
pub open spec fn program(s: Seq<char>) -> Option<Seq<StmtModel>> {
    whole(s, block(s, 0))
}

} // verus!
