//! The parser: text to syntax tree, proved to follow the grammar of `grammar.rs`.
use vstd::prelude::*;
use crate::ast::{
    Block, Node, NodeIds, Identifier, Literal, HexNumber, DecNumber, StringLiteral, HexLiteral,
    Statement, Expression, FunctionCall, FunctionDefinition, VariableDeclaration, Assignment,
    Switch, Case, ForLoop, ControlOp, SubAssembly, literal_model, expr_model, stmt_model, block_model,
    idents_model, exprs_model, stmts_seq_model, cases_seq_model, case_model, lemma_block_model,
    lemma_args_model, lemma_cases_model,
};
use crate::grammar;
use crate::walk::{
    NodeKind, Visit, fresh_ids, leaf, around, literal_visits, expression_visits, function_call_visits,
    block_visits, statement_visits, identifiers_visits, expressions_visits, statement_list_visits,
    case_list_visits, case_visits, lemma_fresh_leaf, lemma_fresh_around, lemma_fresh_concat,
    lemma_fresh_empty, lemma_fresh_widen, lemma_identifiers_visits_push, lemma_expressions_visits_push,
    lemma_statement_list_visits_push, lemma_case_list_visits_push, lemma_arguments_visits,
    lemma_statements_visits, lemma_cases_visits,
};
use crate::grammar::CharClass;
use crate::number::{
    bigint_from_dec_str, bigint_from_hex_str, serialize_from_hex, is_dec_digit, is_hex_digit,
    all_hex_digits, hex_value, lemma_hex_leading_zeros, lemma_hex_digits_fit,
};

verus! {

/// Where and why a text does not match the grammar.
#[derive(Debug)]
pub struct ParseError {
    pub message: String,
    /// Where the text goes wrong, as a character position: for a program,
    /// `grammar::error_position`; for another production, the furthest
    /// position at which a token was expected and not found.
    pub position: usize,
}

/// The text being parsed, with its characters at hand.
pub(crate) struct Source<'a> {
    text: &'a str,
    chars: Vec<char>,
}

impl<'a> Source<'a> {
    pub(crate) closed spec fn wf(&self) -> bool {
        self.chars@ == self.text@
    }

    pub(crate) closed spec fn s(&self) -> Seq<char> {
        self.chars@
    }

    pub(crate) closed spec fn len(&self) -> int {
        self.chars@.len() as int
    }

    pub(crate) fn new(text: &'a str) -> (r: Source<'a>)
        ensures
            r.wf(),
            r.s() == text@,
            r.len() == text@.len(),
    {
        let n = text.unicode_len();
        let mut chars: Vec<char> = Vec::new();
        let mut i: usize = 0;
        while i < n
            invariant
                n == text@.len(),
                i <= n,
                chars@ == text@.subrange(0, i as int),
            decreases n - i,
        {
            chars.push(text.get_char(i));
            i = i + 1;
            assert(chars@ =~= text@.subrange(0, i as int));
        }
        assert(chars@ =~= text@);
        Source { text, chars }
    }

    /// The text of positions `q..e`, as a `String`.
    fn string_of(&self, q: usize, e: usize) -> (r: String)
        requires
            self.wf(),
            q <= e <= self.len(),
        ensures
            r@ == self.s().subrange(q as int, e as int),
    {
        String::from_str(self.text.substring_char(q, e))
    }
}

/// What parsing changes as it goes: the node identifiers, and the furthest
/// position where a token was missing.
pub(crate) struct Progress {
    pub(crate) ids: NodeIds,
    pub(crate) furthest: usize,
}

impl Progress {
    pub(crate) fn new() -> Progress {
        Progress { ids: NodeIds::new(), furthest: 0 }
    }

    pub(crate) fn starting_at(next: u64) -> (r: Progress)
        ensures
            r.ids.next == next,
    {
        Progress { ids: NodeIds { next }, furthest: 0 }
    }
}

/// Completes the parse of a whole text: what the production read must be
/// followed by whitespace and comments alone.
pub(crate) fn finish<T>(src: &Source, st: &Progress, r: Option<(T, usize)>) -> (out: Result<T, ParseError>)
    requires
        src.wf(),
        match r {
            Some((_, e)) => e <= src.len(),
            None => true,
        },
    ensures
        match r {
            Some((t, e)) => match out {
                Ok(u) => u == t && grammar::skip(src.s(), e as int) == src.len(),
                Err(_) => grammar::skip(src.s(), e as int) != src.len(),
            },
            None => out is Err,
        },
        out matches Err(e) ==> e.position <= src.len(),
{
    let n = src.chars.len();
    let at = match r {
        Some((t, e)) => {
            let q = skip(src, e);
            if q == n {
                return Ok(t);
            }
            if q > st.furthest { q } else { st.furthest }
        },
        None => st.furthest,
    };
    let position = if at < n { at } else { n };
    let message = if position < n {
        String::from_str("unexpected input")
    } else {
        String::from_str("unexpected end of input")
    };
    Err(ParseError { message, position })
}

/// The nodes of `vs` got identifiers, distinct from each other, that the
/// counter handed out while it went from `lo` to `hi` (unless it ran out).
pub(crate) open spec fn fresh_between(vs: Seq<Visit>, lo: u64, hi: u64) -> bool {
    lo <= hi && (hi < u64::MAX ==> fresh_ids(vs, lo as int, hi as int))
}

/// A node made after its children, whose identifiers came from `lo..mid`.
proof fn lemma_fresh_node(id: u64, kind: NodeKind, inner: Seq<Visit>, lo: u64, mid: u64, hi: u64)
    requires
        fresh_between(inner, lo, mid),
        id == mid,
        mid < u64::MAX ==> hi == mid + 1,
        mid <= hi,
    ensures
        fresh_between(around(id, kind, inner), lo, hi),
{
    if hi < u64::MAX {
        lemma_fresh_around(id, kind, inner, lo as int);
    }
}

proof fn lemma_fresh_earlier(vs: Seq<Visit>, lo0: u64, lo: u64, hi: u64)
    requires
        fresh_between(vs, lo, hi),
        lo0 <= lo,
    ensures
        fresh_between(vs, lo0, hi),
{
    if hi < u64::MAX {
        lemma_fresh_widen(vs, lo as int, hi as int, lo0 as int, hi as int);
    }
}

/// Two stretches of nodes made one after the other.
proof fn lemma_fresh_then(a: Seq<Visit>, b: Seq<Visit>, lo: u64, mid1: u64, mid2: u64, hi: u64)
    requires
        fresh_between(a, lo, mid1),
        fresh_between(b, mid2, hi),
        mid1 <= mid2,
    ensures
        fresh_between(a + b, lo, hi),
{
    if hi < u64::MAX {
        lemma_fresh_concat(a, b, lo as int, mid1 as int, mid2 as int, hi as int);
    }
}

/// From `p` on, the start of the first statement that does not parse.
fn first_bad_statement(src: &Source, st: &mut Progress, p: usize) -> (r: usize)
    requires
        src.wf(),
        p <= src.len(),
    ensures
        r == grammar::first_bad_statement(src.s(), p as int),
        r <= src.len(),
{
    let mut q = p;
    loop
        invariant
            src.wf(),
            q <= src.len(),
            grammar::first_bad_statement(src.s(), p as int) == grammar::first_bad_statement(src.s(), q as int),
        decreases src.len() - q,
    {
        match punct(src, st, q, '}') {
            Some(_) => {
                return skip(src, q);
            },
            None => {},
        }
        match statement(src, st, q) {
            Some((_, e)) => {
                q = e;
            },
            None => {
                return skip(src, q);
            },
        }
    }
}

/// The error for a text that is not a program, at `grammar::error_position`.
pub(crate) fn program_error(src: &Source) -> (e: ParseError)
    requires
        src.wf(),
    ensures
        e.position == grammar::error_position(src.s()),
        e.position <= src.len(),
{
    let mut st = Progress::new();
    let n = src.chars.len();
    let position = match punct(src, &mut st, 0, '{') {
        None => skip(src, 0),
        Some(e) => match block_rest(src, &mut st, e) {
            Some((_, e2)) => skip(src, e2),
            None => first_bad_statement(src, &mut st, e),
        },
    };
    let message = if position < n {
        String::from_str("unexpected input")
    } else {
        String::from_str("unexpected end of input")
    };
    ParseError { message, position }
}

fn note_failure(st: &mut Progress, q: usize)
    ensures
        final(st).ids == old(st).ids,
{
    if q > st.furthest {
        st.furthest = q;
    }
}

fn in_class(k: CharClass, c: char) -> (r: bool)
    ensures
        r == grammar::in_class(k, c),
{
    match k {
        CharClass::Ident => is_ident_char(c),
        CharClass::Dec => '0' <= c && c <= '9',
        CharClass::Hex => ('0' <= c && c <= '9') || ('a' <= c && c <= 'f') || ('A' <= c && c <= 'F'),
        CharClass::NotQuote => c != '"',
    }
}

fn is_ident_start(c: char) -> (r: bool)
    ensures
        r == grammar::is_ident_start(c),
{
    ('a' <= c && c <= 'z') || ('A' <= c && c <= 'Z') || c == '$' || c == '_'
}

fn is_ident_char(c: char) -> (r: bool)
    ensures
        r == grammar::is_ident_char(c),
{
    is_ident_start(c) || ('0' <= c && c <= '9')
}

fn line_end(src: &Source, p: usize) -> (e: usize)
    requires
        p <= src.len(),
    ensures
        e == grammar::line_end(src.s(), p as int),
        p <= e <= src.len(),
{
    let n = src.chars.len();
    let mut i = p;
    while i < n && src.chars[i] != '\n'
        invariant
            n == src.len(),
            p <= i <= n,
            grammar::line_end(src.s(), p as int) == grammar::line_end(src.s(), i as int),
        decreases n - i,
    {
        i = i + 1;
    }
    i
}

fn comment_close(src: &Source, p: usize) -> (r: Option<usize>)
    requires
        p <= src.len(),
    ensures
        match r {
            Some(e) => grammar::comment_close(src.s(), p as int) == Some(e as int) && p < e <= src.len(),
            None => grammar::comment_close(src.s(), p as int) is None,
        },
{
    let n = src.chars.len();
    let mut i = p;
    loop
        invariant
            n == src.len(),
            p <= i <= n,
            grammar::comment_close(src.s(), p as int) == grammar::comment_close(src.s(), i as int),
        decreases n - i,
    {
        if n - i < 2 {
            return None;
        }
        if src.chars[i] == '*' && src.chars[i + 1] == '/' {
            return Some(i + 2);
        }
        i = i + 1;
    }
}

/// Skips whitespace and comments.
pub(crate) fn skip(src: &Source, p: usize) -> (q: usize)
    requires
        p <= src.len(),
    ensures
        q == grammar::skip(src.s(), p as int),
        p <= q <= src.len(),
{
    let n = src.chars.len();
    let mut i = p;
    loop
        invariant
            n == src.len(),
            p <= i <= n,
            grammar::skip(src.s(), p as int) == grammar::skip(src.s(), i as int),
        decreases n - i,
    {
        if i >= n {
            return i;
        }
        let c = src.chars[i];
        if c == ' ' || c == '\t' || c == '\n' || c == '\r' {
            i = i + 1;
        } else if c == '/' && i + 1 < n && src.chars[i + 1] == '/' {
            i = line_end(src, i + 2);
        } else if c == '/' && i + 1 < n && src.chars[i + 1] == '*' {
            match comment_close(src, i + 2) {
                Some(e) => {
                    i = e;
                },
                None => {
                    return i;
                },
            }
        } else {
            return i;
        }
    }
}

/// The end of the run of characters of class `k` from `p`.
fn run(src: &Source, p: usize, k: CharClass) -> (e: usize)
    requires
        p <= src.len(),
    ensures
        e == grammar::run(src.s(), p as int, k),
        p <= e <= src.len(),
        forall|i: int| p <= i < e ==> grammar::in_class(k, #[trigger] src.s()[i]),
{
    let n = src.chars.len();
    let mut i = p;
    while i < n && in_class(k, src.chars[i])
        invariant
            n == src.len(),
            p <= i <= n,
            grammar::run(src.s(), p as int, k) == grammar::run(src.s(), i as int, k),
            forall|j: int| p <= j < i ==> grammar::in_class(k, #[trigger] src.s()[j]),
        decreases n - i,
    {
        i = i + 1;
    }
    i
}

/// The start and end of the word after the trivia at `p`.
fn word(src: &Source, st: &mut Progress, p: usize) -> (r: Option<(usize, usize)>)
    requires
        p <= src.len(),
    ensures
        final(st).ids == old(st).ids,
        match r {
            Some((q, e)) => grammar::word(src.s(), p as int) == Some((src.s().subrange(q as int, e as int), e as int))
                && p <= q < e <= src.len(),
            None => grammar::word(src.s(), p as int) is None,
        },
{
    let q = skip(src, p);
    if q < src.chars.len() && is_ident_start(src.chars[q]) {
        let e = run(src, q + 1, CharClass::Ident);
        assert(grammar::run(src.s(), q as int, CharClass::Ident) == grammar::run(src.s(), q + 1, CharClass::Ident));
        Some((q, e))
    } else {
        note_failure(st, q);
        None
    }
}

/// Whether positions `q..e` hold exactly the characters of `w`.
fn range_is(src: &Source, q: usize, e: usize, w: &str) -> (r: bool)
    requires
        q <= e <= src.len(),
    ensures
        r == (src.s().subrange(q as int, e as int) == w@),
{
    let m = w.unicode_len();
    if e - q != m {
        proof {
            assert(src.s().subrange(q as int, e as int).len() != w@.len());
        }
        return false;
    }
    let mut i: usize = 0;
    while i < m
        invariant
            m == w@.len(),
            e - q == m,
            q <= e <= src.len(),
            i <= m,
            forall|j: int| 0 <= j < i ==> src.s()[q + j] == w@[j],
        decreases m - i,
    {
        if src.chars[q + i] != w.get_char(i) {
            proof {
                assert(src.s().subrange(q as int, e as int)[i as int] != w@[i as int]);
            }
            return false;
        }
        i = i + 1;
    }
    assert(src.s().subrange(q as int, e as int) =~= w@);
    true
}

/// Whether positions `q..e` hold one of the keywords.
fn is_keyword(src: &Source, q: usize, e: usize) -> (r: bool)
    requires
        q <= e <= src.len(),
    ensures
        r == grammar::is_keyword(src.s().subrange(q as int, e as int)),
{
    proof {
        reveal_strlit("function");
        reveal_strlit("let");
        reveal_strlit("switch");
        reveal_strlit("case");
        reveal_strlit("default");
        reveal_strlit("for");
        reveal_strlit("break");
        reveal_strlit("continue");
        reveal_strlit("assembly");
        assert("function"@ =~= grammar::kw_function());
        assert("let"@ =~= grammar::kw_let());
        assert("switch"@ =~= grammar::kw_switch());
        assert("case"@ =~= grammar::kw_case());
        assert("default"@ =~= grammar::kw_default());
        assert("for"@ =~= grammar::kw_for());
        assert("break"@ =~= grammar::kw_break());
        assert("continue"@ =~= grammar::kw_continue());
        assert("assembly"@ =~= grammar::kw_assembly());
    }
    range_is(src, q, e, "function") || range_is(src, q, e, "let") || range_is(src, q, e, "switch")
        || range_is(src, q, e, "case") || range_is(src, q, e, "default") || range_is(src, q, e, "for")
        || range_is(src, q, e, "break") || range_is(src, q, e, "continue") || range_is(src, q, e, "assembly")
}

pub(crate) fn identifier(src: &Source, st: &mut Progress, p: usize) -> (r: Option<(Node<Identifier>, usize)>)
    requires
        src.wf(),
        p <= src.len(),
    ensures
        match r {
            Some((n, e)) => grammar::identifier(src.s(), p as int) == Some((n.node.symbol@, e as int))
                && p < e <= src.len(),
            None => grammar::identifier(src.s(), p as int) is None,
        },
        old(st).ids.next <= final(st).ids.next,
        r matches Some((n, _)) ==> fresh_between(leaf(n.id, NodeKind::Identifier), old(st).ids.next, final(st).ids.next),
{
    match word(src, st, p) {
        Some((q, e)) => {
            if is_keyword(src, q, e) {
                note_failure(st, q);
                None
            } else {
                let symbol = src.string_of(q, e);
                let n = Node::new(&mut st.ids, Identifier { symbol });
                proof {
                    lemma_fresh_leaf(n.id, NodeKind::Identifier);
                }
                Some((n, e))
            }
        },
        None => None,
    }
}

/// The punctuation character `c` after the trivia at `p`.
fn punct(src: &Source, st: &mut Progress, p: usize, c: char) -> (r: Option<usize>)
    requires
        p <= src.len(),
    ensures
        final(st).ids == old(st).ids,
        match r {
            Some(e) => grammar::punct(src.s(), p as int, c) == Some(e as int) && p < e <= src.len(),
            None => grammar::punct(src.s(), p as int, c) is None,
        },
{
    let q = skip(src, p);
    if q < src.chars.len() && src.chars[q] == c {
        Some(q + 1)
    } else {
        note_failure(st, q);
        None
    }
}

/// The two punctuation characters `c1 c2` after the trivia at `p`.
fn punct2(src: &Source, st: &mut Progress, p: usize, c1: char, c2: char) -> (r: Option<usize>)
    requires
        p <= src.len(),
    ensures
        final(st).ids == old(st).ids,
        match r {
            Some(e) => grammar::punct2(src.s(), p as int, c1, c2) == Some(e as int) && p < e <= src.len(),
            None => grammar::punct2(src.s(), p as int, c1, c2) is None,
        },
{
    let q = skip(src, p);
    if q < src.chars.len() && src.chars.len() - q >= 2 && src.chars[q] == c1 && src.chars[q + 1] == c2 {
        Some(q + 2)
    } else {
        note_failure(st, q);
        None
    }
}

/// Whether the character at `e`, if any, would continue a word.
fn continues_word(src: &Source, e: usize) -> (r: bool)
    requires
        e <= src.len(),
    ensures
        r == grammar::continues_word(src.s(), e as int),
{
    e < src.chars.len() && is_ident_char(src.chars[e])
}

/// Whether a hex literal opens after the trivia at `p`.
fn opens_hex_literal(src: &Source, p: usize) -> (r: bool)
    requires
        p <= src.len(),
    ensures
        r == grammar::opens_hex_literal(src.s(), p as int),
{
    let q = skip(src, p);
    let n = src.chars.len();
    q < n && n - q > 3 && src.chars[q] == 'h' && src.chars[q + 1] == 'e' && src.chars[q + 2] == 'x'
        && (src.chars[q + 3] == '"' || src.chars[q + 3] == '\'')
}

/// The first position in `p..e` that does not hold the digit `0`, or `e`.
fn zeros_end(src: &Source, p: usize, e: usize) -> (z: usize)
    requires
        p <= e <= src.len(),
    ensures
        p <= z <= e,
        forall|i: int| p <= i < z ==> src.s()[i] == '0',
        z < e ==> src.s()[z as int] != '0',
{
    let mut i = p;
    while i < e && src.chars[i] == '0'
        invariant
            p <= i <= e <= src.len(),
            forall|j: int| p <= j < i ==> src.s()[j] == '0',
        decreases e - i,
    {
        i = i + 1;
    }
    i
}

pub(crate) fn hex_number(src: &Source, st: &mut Progress, p: usize) -> (r: Option<(Node<HexNumber>, usize)>)
    requires
        src.wf(),
        p <= src.len(),
    ensures
        match r {
            Some((n, e)) => grammar::hex_number(src.s(), p as int) == Some((n.node.uint.value(), e as int))
                && p < e <= src.len(),
            None => grammar::hex_number(src.s(), p as int) is None,
        },
        old(st).ids.next <= final(st).ids.next,
        r matches Some((n, _)) ==> fresh_between(leaf(n.id, NodeKind::HexNumber), old(st).ids.next, final(st).ids.next),
{
    let q = skip(src, p);
    if q < src.chars.len() && src.chars.len() - q >= 2 && src.chars[q] == '0' && src.chars[q + 1] == 'x' {
        let e = run(src, q + 2, CharClass::Hex);
        let z = zeros_end(src, q + 2, e);
        let ghost all = src.s().subrange(q + 2, e as int);
        let ghost sig = src.s().subrange(z as int, e as int);
        proof {
            assert forall|i: int| 0 <= i < all.len() implies is_hex_digit(#[trigger] all[i]) by {
                assert(grammar::in_class(CharClass::Hex, src.s()[q + 2 + i]));
            }
            lemma_hex_leading_zeros(all, z - (q + 2));
            assert(all.subrange(z - (q + 2), all.len() as int) =~= sig);
            if z < e {
                assert(all_hex_digits(sig)) by {
                    assert forall|i: int| 0 <= i < sig.len() implies is_hex_digit(#[trigger] sig[i]) by {
                        assert(sig[i] == all[z - (q + 2) + i]);
                    }
                }
                assert(sig[0] == src.s()[z as int]);
                lemma_hex_digits_fit(sig);
            } else {
                assert(sig.len() == 0);
                assert(hex_value(sig) == 0);
            }
        }
        if e > q + 2 && e - z <= 64 && !continues_word(src, e) {
            let digits = src.text.substring_char(z, e);
            proof {
                assert(digits@ == sig);
                assert forall|i: int| 0 <= i < digits@.len() implies is_hex_digit(#[trigger] digits@[i]) by {
                    assert(grammar::in_class(CharClass::Hex, src.s()[z + i]));
                }
            }
            match bigint_from_hex_str(digits) {
                Some(uint) => {
                    let n = Node::new(&mut st.ids, HexNumber { uint });
                    proof {
                        lemma_fresh_leaf(n.id, NodeKind::HexNumber);
                    }
                    Some((n, e))
                },
                None => None,
            }
        } else {
            note_failure(st, e);
            None
        }
    } else {
        note_failure(st, q);
        None
    }
}

pub(crate) fn dec_number(src: &Source, st: &mut Progress, p: usize) -> (r: Option<(Node<DecNumber>, usize)>)
    requires
        src.wf(),
        p <= src.len(),
    ensures
        match r {
            Some((n, e)) => grammar::dec_number(src.s(), p as int) == Some((n.node.uint.value(), e as int))
                && p < e <= src.len(),
            None => grammar::dec_number(src.s(), p as int) is None,
        },
        old(st).ids.next <= final(st).ids.next,
        r matches Some((n, _)) ==> fresh_between(leaf(n.id, NodeKind::DecNumber), old(st).ids.next, final(st).ids.next),
{
    let q = skip(src, p);
    if q < src.chars.len() && '0' <= src.chars[q] && src.chars[q] <= '9' {
        let e = run(src, q + 1, CharClass::Dec);
        assert(grammar::run(src.s(), q as int, CharClass::Dec) == grammar::run(src.s(), q + 1, CharClass::Dec));
        if continues_word(src, e) {
            note_failure(st, e);
            return None;
        }
        let digits = src.text.substring_char(q, e);
        proof {
            assert forall|i: int| 0 <= i < digits@.len() implies is_dec_digit(#[trigger] digits@[i]) by {
                assert(grammar::in_class(CharClass::Dec, src.s()[q + i]));
            }
        }
        match bigint_from_dec_str(digits) {
            Some(uint) => {
                let n = Node::new(&mut st.ids, DecNumber { uint });
                proof {
                    lemma_fresh_leaf(n.id, NodeKind::DecNumber);
                }
                Some((n, e))
            },
            None => {
                note_failure(st, q);
                None
            },
        }
    } else {
        note_failure(st, q);
        None
    }
}

pub(crate) fn string_literal(src: &Source, st: &mut Progress, p: usize) -> (r: Option<(Node<StringLiteral>, usize)>)
    requires
        src.wf(),
        p <= src.len(),
    ensures
        match r {
            Some((n, e)) => grammar::string_literal(src.s(), p as int) == Some((n.node.string@, e as int))
                && p < e <= src.len(),
            None => grammar::string_literal(src.s(), p as int) is None,
        },
        old(st).ids.next <= final(st).ids.next,
        r matches Some((n, _)) ==> fresh_between(leaf(n.id, NodeKind::StringLiteral), old(st).ids.next, final(st).ids.next),
{
    let q = skip(src, p);
    if q < src.chars.len() && src.chars[q] == '"' {
        let e = run(src, q + 1, CharClass::NotQuote);
        if e < src.chars.len() {
            let string = src.string_of(q + 1, e);
            let n = Node::new(&mut st.ids, StringLiteral { string });
            proof {
                lemma_fresh_leaf(n.id, NodeKind::StringLiteral);
            }
            Some((n, e + 1))
        } else {
            note_failure(st, e);
            None
        }
    } else {
        note_failure(st, q);
        None
    }
}

pub(crate) fn hex_literal(src: &Source, st: &mut Progress, p: usize) -> (r: Option<(Node<HexLiteral>, usize)>)
    requires
        src.wf(),
        p <= src.len(),
    ensures
        match r {
            Some((n, e)) => grammar::hex_literal(src.s(), p as int) == Some((n.node.bytes@, e as int))
                && p < e <= src.len(),
            None => grammar::hex_literal(src.s(), p as int) is None,
        },
        old(st).ids.next <= final(st).ids.next,
        r matches Some((n, _)) ==> fresh_between(leaf(n.id, NodeKind::HexLiteral), old(st).ids.next, final(st).ids.next),
{
    let q = skip(src, p);
    let n = src.chars.len();
    if opens_hex_literal(src, p) {
        let quote = src.chars[q + 3];
        let e = run(src, q + 4, CharClass::Hex);
        if e < n && src.chars[e] == quote && (e - (q + 4)) % 2 == 0 {
            let digits = src.text.substring_char(q + 4, e);
            proof {
                assert forall|i: int| 0 <= i < digits@.len() implies is_hex_digit(#[trigger] digits@[i]) by {
                    assert(grammar::in_class(CharClass::Hex, src.s()[q + 4 + i]));
                }
            }
            match serialize_from_hex(digits) {
                Some(bytes) => {
                    let n = Node::new(&mut st.ids, HexLiteral { bytes });
                    proof {
                        lemma_fresh_leaf(n.id, NodeKind::HexLiteral);
                    }
                    Some((n, e + 1))
                },
                None => None,
            }
        } else {
            note_failure(st, e);
            None
        }
    } else {
        None
    }
}

fn literal(src: &Source, st: &mut Progress, p: usize) -> (r: Option<(Node<Literal>, usize)>)
    requires
        src.wf(),
        p <= src.len(),
    ensures
        match r {
            Some((n, e)) => grammar::literal(src.s(), p as int) == Some((literal_model(n.node), e as int))
                && p < e <= src.len(),
            None => grammar::literal(src.s(), p as int) is None,
        },
        old(st).ids.next <= final(st).ids.next,
        r matches Some((n, _)) ==> fresh_between(literal_visits(n), old(st).ids.next, final(st).ids.next),
{
    let ghost lo = st.ids.next;
    match hex_literal(src, st, p) {
        Some((n, e)) => {
            let ghost mid = st.ids.next;
            let l = Node::new(&mut st.ids, Literal::HexLiteral(n));
            proof {
                lemma_fresh_node(l.id, NodeKind::Literal, leaf(n.id, NodeKind::HexLiteral), lo, mid, st.ids.next);
            }
            return Some((l, e));
        },
        None => {},
    }
    let ghost lo1 = st.ids.next;
    match hex_number(src, st, p) {
        Some((n, e)) => {
            let ghost mid = st.ids.next;
            let l = Node::new(&mut st.ids, Literal::HexNumber(n));
            proof {
                if mid < u64::MAX {
                    lemma_fresh_widen(leaf(n.id, NodeKind::HexNumber), lo1 as int, mid as int, lo as int, mid as int);
                }
                lemma_fresh_node(l.id, NodeKind::Literal, leaf(n.id, NodeKind::HexNumber), lo, mid, st.ids.next);
            }
            return Some((l, e));
        },
        None => {},
    }
    let ghost lo2 = st.ids.next;
    match dec_number(src, st, p) {
        Some((n, e)) => {
            let ghost mid = st.ids.next;
            let l = Node::new(&mut st.ids, Literal::DecNumber(n));
            proof {
                if mid < u64::MAX {
                    lemma_fresh_widen(leaf(n.id, NodeKind::DecNumber), lo2 as int, mid as int, lo as int, mid as int);
                }
                lemma_fresh_node(l.id, NodeKind::Literal, leaf(n.id, NodeKind::DecNumber), lo, mid, st.ids.next);
            }
            return Some((l, e));
        },
        None => {},
    }
    let ghost lo3 = st.ids.next;
    match string_literal(src, st, p) {
        Some((n, e)) => {
            let ghost mid = st.ids.next;
            let l = Node::new(&mut st.ids, Literal::StringLiteral(n));
            proof {
                if mid < u64::MAX {
                    lemma_fresh_widen(leaf(n.id, NodeKind::StringLiteral), lo3 as int, mid as int, lo as int, mid as int);
                }
                lemma_fresh_node(l.id, NodeKind::Literal, leaf(n.id, NodeKind::StringLiteral), lo, mid, st.ids.next);
            }
            Some((l, e))
        },
        None => None,
    }
}

/// `r` with `front` put before the sequence it holds.
spec fn prefixed<T>(front: Seq<T>, r: Option<(Seq<T>, int)>) -> Option<(Seq<T>, int)> {
    match r {
        Some((rest, e)) => Some((front + rest, e)),
        None => None,
    }
}

proof fn lemma_prefixed_push<T>(front: Seq<T>, a: T, r: Option<(Seq<T>, int)>)
    ensures
        prefixed(front, prefixed(seq![a], r)) == prefixed(front.push(a), r),
        prefixed(front, Some((Seq::<T>::empty(), 0int))) == Some((front, 0int)),
{
    match r {
        Some((rest, e)) => {
            assert(front + (seq![a] + rest) =~= front.push(a) + rest);
        },
        None => {},
    }
    assert(front + Seq::<T>::empty() =~= front);
}

/// The keyword `w` after the trivia at `p`.
fn keyword(src: &Source, st: &mut Progress, p: usize, w: &str) -> (r: Option<usize>)
    requires
        p <= src.len(),
    ensures
        match r {
            Some(e) => grammar::keyword(src.s(), p as int, w@) == Some(e as int) && p < e <= src.len(),
            None => grammar::keyword(src.s(), p as int, w@) is None,
        },
        final(st).ids == old(st).ids,
{
    match word(src, st, p) {
        Some((q, e)) => {
            if range_is(src, q, e, w) {
                Some(e)
            } else {
                note_failure(st, q);
                None
            }
        },
        None => None,
    }
}

/// The identifiers after the first of a parenthesized list, and its `)`.
fn more_identifiers(src: &Source, st: &mut Progress, p: usize, first: Node<Identifier>, Ghost(lo): Ghost<u64>)
    -> (r: Option<(Vec<Node<Identifier>>, usize)>)
    requires
        src.wf(),
        p <= src.len(),
        fresh_between(leaf(first.id, NodeKind::Identifier), lo, old(st).ids.next),
    ensures
        match r {
            Some((v, e)) => prefixed(seq![first.node.symbol@], grammar::more_identifiers(src.s(), p as int))
                == Some((idents_model(v@), e as int)) && p < e <= src.len(),
            None => grammar::more_identifiers(src.s(), p as int) is None,
        },
        old(st).ids.next <= final(st).ids.next,
        r matches Some((v, _)) ==> fresh_between(identifiers_visits(v@, v@.len()), lo, final(st).ids.next),
{
    let mut v: Vec<Node<Identifier>> = Vec::new();
    proof {
        lemma_identifiers_visits_push(v@, first);
        assert(identifiers_visits(v@, 0) =~= Seq::<Visit>::empty());
    }
    let ghost v0 = v@;
    v.push(first);
    let mut q = p;
    proof {
        assert(idents_model(v@) =~= seq![first.node.symbol@]);
        assert(v@ == v0.push(first));
        assert(identifiers_visits(v@, v@.len()) =~= leaf(first.id, NodeKind::Identifier));
    }
    loop
        invariant
            src.wf(),
            p <= q <= src.len(),
            prefixed(seq![first.node.symbol@], grammar::more_identifiers(src.s(), p as int))
                == prefixed(idents_model(v@), grammar::more_identifiers(src.s(), q as int)),
            grammar::more_identifiers(src.s(), p as int) is None ==> grammar::more_identifiers(src.s(), q as int) is None,
            old(st).ids.next <= st.ids.next,
            fresh_between(identifiers_visits(v@, v@.len()), lo, st.ids.next),
        decreases src.len() - q,
    {
        match punct(src, st, q, ')') {
            Some(e) => {
                proof {
                    lemma_prefixed_push(idents_model(v@), first.node.symbol@, None);
                    assert(idents_model(v@) + Seq::<Seq<char>>::empty() =~= idents_model(v@));
                }
                return Some((v, e));
            },
            None => {},
        }
        match punct(src, st, q, ',') {
            Some(e) => {
                let ghost a = st.ids.next;
                match identifier(src, st, e) {
                    Some((n, e2)) => {
                        proof {
                            lemma_prefixed_push(idents_model(v@), n.node.symbol@, grammar::more_identifiers(src.s(), e2 as int));
                            lemma_identifiers_visits_push(v@, n);
                            lemma_fresh_then(identifiers_visits(v@, v@.len()), leaf(n.id, NodeKind::Identifier), lo, a, a, st.ids.next);
                        }
                        let ghost old_v = v@;
                        v.push(n);
                        proof {
                            assert(idents_model(v@) =~= idents_model(old_v).push(n.node.symbol@));
                        }
                        q = e2;
                    },
                    None => {
                        return None;
                    },
                }
            },
            None => {
                return None;
            },
        }
    }
}

fn identifier_list(src: &Source, st: &mut Progress, p: usize) -> (r: Option<(Vec<Node<Identifier>>, usize)>)
    requires
        src.wf(),
        p <= src.len(),
    ensures
        match r {
            Some((v, e)) => grammar::identifier_list(src.s(), p as int) == Some((idents_model(v@), e as int))
                && p < e <= src.len(),
            None => grammar::identifier_list(src.s(), p as int) is None,
        },
        old(st).ids.next <= final(st).ids.next,
        r matches Some((v, _)) ==> fresh_between(identifiers_visits(v@, v@.len()), old(st).ids.next, final(st).ids.next),
{
    let ghost lo = st.ids.next;
    match punct(src, st, p, '(') {
        Some(e) => match identifier(src, st, e) {
            Some((n, e2)) => more_identifiers(src, st, e2, n, Ghost(lo)),
            None => None,
        },
        None => match identifier(src, st, p) {
            Some((n, e)) => {
                let mut v: Vec<Node<Identifier>> = Vec::new();
                proof {
                    lemma_identifiers_visits_push(v@, n);
                    assert(identifiers_visits(v@, 0) =~= Seq::<Visit>::empty());
                    assert(Seq::<Visit>::empty() + leaf(n.id, NodeKind::Identifier) =~= leaf(n.id, NodeKind::Identifier));
                }
                let ghost v0 = v@;
                v.push(n);
                proof {
                    assert(idents_model(v@) =~= seq![n.node.symbol@]);
                    assert(v@ == v0.push(n));
                }
                Some((v, e))
            },
            None => None,
        },
    }
}

fn parameters(src: &Source, st: &mut Progress, p: usize) -> (r: Option<(Vec<Node<Identifier>>, usize)>)
    requires
        src.wf(),
        p <= src.len(),
    ensures
        match r {
            Some((v, e)) => grammar::parameters(src.s(), p as int) == Some((idents_model(v@), e as int))
                && p < e <= src.len(),
            None => grammar::parameters(src.s(), p as int) is None,
        },
        old(st).ids.next <= final(st).ids.next,
        r matches Some((v, _)) ==> fresh_between(identifiers_visits(v@, v@.len()), old(st).ids.next, final(st).ids.next),
{
    let ghost lo = st.ids.next;
    match punct(src, st, p, '(') {
        Some(e) => match punct(src, st, e, ')') {
            Some(e2) => {
                let v: Vec<Node<Identifier>> = Vec::new();
                proof {
                    assert(idents_model(v@) =~= Seq::<Seq<char>>::empty());
                    lemma_fresh_empty(lo as int, lo as int);
                    assert(identifiers_visits(v@, 0) =~= Seq::<Visit>::empty());
                }
                Some((v, e2))
            },
            None => match identifier(src, st, e) {
                Some((n, e2)) => more_identifiers(src, st, e2, n, Ghost(lo)),
                None => None,
            },
        },
        None => None,
    }
}

pub(crate) fn expression(src: &Source, st: &mut Progress, p: usize) -> (r: Option<(Node<Expression>, usize)>)
    requires
        src.wf(),
        p <= src.len(),
    ensures
        match r {
            Some((n, e)) => grammar::expression(src.s(), p as int) == Some((expr_model(n.node), e as int))
                && p < e <= src.len(),
            None => grammar::expression(src.s(), p as int) is None,
        },
        old(st).ids.next <= final(st).ids.next,
        r matches Some((n, _)) ==> fresh_between(expression_visits(n), old(st).ids.next, final(st).ids.next),
    decreases src.len() - p, 2nat,
{
    let ghost lo = st.ids.next;
    match literal(src, st, p) {
        Some((l, e)) => {
            let ghost mid = st.ids.next;
            let n = Node::new(&mut st.ids, Expression::Literal(l));
            proof {
                lemma_fresh_node(n.id, NodeKind::Expression, literal_visits(l), lo, mid, st.ids.next);
            }
            return Some((n, e));
        },
        None => {},
    }
    if opens_hex_literal(src, p) {
        return None;
    }
    let ghost lo1 = st.ids.next;
    match identifier(src, st, p) {
        Some((name, e)) => {
            let ghost a = st.ids.next;
            match punct(src, st, e, '(') {
                Some(e2) => match arguments(src, st, e2) {
                    Some((args, e3)) => {
                        let ghost b = st.ids.next;
                        let ghost name_id = name.id;
                        let call = FunctionCall { identifier: name, arguments: args };
                        proof {
                            lemma_args_model(call);
                            lemma_arguments_visits(call, call.arguments@.len());
                            lemma_fresh_then(leaf(name_id, NodeKind::Identifier), expressions_visits(call.arguments@, call.arguments@.len()), lo1, a, a, b);
                        }
                        let c = Node::new(&mut st.ids, call);
                        let ghost cc = st.ids.next;
                        proof {
                            lemma_fresh_node(c.id, NodeKind::FunctionCall,
                                leaf(name_id, NodeKind::Identifier) + expressions_visits(call.arguments@, call.arguments@.len()), lo1, b, cc);
                        }
                        let n = Node::new(&mut st.ids, Expression::FunctionCall(c));
                        proof {
                            lemma_fresh_node(n.id, NodeKind::Expression, function_call_visits(c), lo1, cc, st.ids.next);
                            lemma_fresh_earlier(expression_visits(n), lo, lo1, st.ids.next);
                        }
                        Some((n, e3))
                    },
                    None => None,
                },
                None => {
                    let n = Node::new(&mut st.ids, Expression::Identifier(name));
                    proof {
                        lemma_fresh_node(n.id, NodeKind::Expression, leaf(name.id, NodeKind::Identifier), lo1, a, st.ids.next);
                        lemma_fresh_earlier(expression_visits(n), lo, lo1, st.ids.next);
                    }
                    Some((n, e))
                },
            }
        },
        None => None,
    }
}

/// A call's arguments after its `(`, and its `)`.
fn arguments(src: &Source, st: &mut Progress, p: usize) -> (r: Option<(Vec<Node<Expression>>, usize)>)
    requires
        src.wf(),
        p <= src.len(),
    ensures
        match r {
            Some((v, e)) => grammar::arguments(src.s(), p as int) == Some((exprs_model(v@), e as int))
                && p < e <= src.len(),
            None => grammar::arguments(src.s(), p as int) is None,
        },
        old(st).ids.next <= final(st).ids.next,
        r matches Some((v, _)) ==> fresh_between(expressions_visits(v@, v@.len()), old(st).ids.next, final(st).ids.next),
    decreases src.len() - p, 3nat,
{
    let ghost lo = st.ids.next;
    let mut v: Vec<Node<Expression>> = Vec::new();
    proof {
        assert(expressions_visits(v@, 0) =~= Seq::<Visit>::empty());
        lemma_fresh_empty(lo as int, lo as int);
    }
    match punct(src, st, p, ')') {
        Some(e) => {
            proof {
                assert(exprs_model(v@) =~= Seq::<crate::ast::ExprModel>::empty());
            }
            return Some((v, e));
        },
        None => {},
    }
    let mut q: usize;
    match expression(src, st, p) {
        Some((a, e)) => {
            proof {
                lemma_expressions_visits_push(v@, a);
                assert(Seq::<Visit>::empty() + expression_visits(a) =~= expression_visits(a));
            }
            let ghost v0 = v@;
            v.push(a);
            q = e;
            proof {
                assert(exprs_model(v@) =~= seq![expr_model(a.node)]);
                assert(v@ == v0.push(a));
            }
        },
        None => {
            return None;
        },
    }
    loop
        invariant
            src.wf(),
            p < q <= src.len(),
            grammar::arguments(src.s(), p as int) == prefixed(exprs_model(v@), grammar::more_arguments(src.s(), q as int)),
            lo == old(st).ids.next,
            lo <= st.ids.next,
            fresh_between(expressions_visits(v@, v@.len()), lo, st.ids.next),
        decreases src.len() - q,
    {
        match punct(src, st, q, ')') {
            Some(e) => {
                proof {
                    assert(exprs_model(v@) + Seq::<crate::ast::ExprModel>::empty() =~= exprs_model(v@));
                }
                return Some((v, e));
            },
            None => {},
        }
        match punct(src, st, q, ',') {
            Some(e) => {
                let ghost m = st.ids.next;
                match expression(src, st, e) {
                    Some((a, e2)) => {
                        proof {
                            lemma_prefixed_push(exprs_model(v@), expr_model(a.node), grammar::more_arguments(src.s(), e2 as int));
                            lemma_expressions_visits_push(v@, a);
                            lemma_fresh_then(expressions_visits(v@, v@.len()), expression_visits(a), lo, m, m, st.ids.next);
                        }
                        let ghost old_v = v@;
                        v.push(a);
                        proof {
                            assert(exprs_model(v@) =~= exprs_model(old_v).push(expr_model(a.node)));
                        }
                        q = e2;
                    },
                    None => {
                        return None;
                    },
                }
            },
            None => {
                return None;
            },
        }
    }
}

pub(crate) fn block(src: &Source, st: &mut Progress, p: usize) -> (r: Option<(Node<Block>, usize)>)
    requires
        src.wf(),
        p <= src.len(),
    ensures
        match r {
            Some((n, e)) => grammar::block(src.s(), p as int) == Some((block_model(n.node), e as int))
                && p < e <= src.len(),
            None => grammar::block(src.s(), p as int) is None,
        },
        old(st).ids.next <= final(st).ids.next,
        r matches Some((n, _)) ==> fresh_between(block_visits(n), old(st).ids.next, final(st).ids.next),
    decreases src.len() - p, 3nat,
{
    match punct(src, st, p, '{') {
        Some(e) => block_rest(src, st, e),
        None => None,
    }
}

/// A block's statements after its `{`, and its `}`.
fn block_rest(src: &Source, st: &mut Progress, p: usize) -> (r: Option<(Node<Block>, usize)>)
    requires
        src.wf(),
        p <= src.len(),
    ensures
        match r {
            Some((n, e)) => grammar::block_rest(src.s(), p as int) == Some((block_model(n.node), e as int))
                && p < e <= src.len(),
            None => grammar::block_rest(src.s(), p as int) is None,
        },
        old(st).ids.next <= final(st).ids.next,
        r matches Some((n, _)) ==> fresh_between(block_visits(n), old(st).ids.next, final(st).ids.next),
    decreases src.len() - p, 8nat,
{
    let ghost lo = st.ids.next;
    let mut v: Vec<Node<Statement>> = Vec::new();
    let mut q = p;
    proof {
        assert(stmts_seq_model(v@) =~= Seq::<crate::ast::StmtModel>::empty());
        assert(Seq::<crate::ast::StmtModel>::empty() + Seq::<crate::ast::StmtModel>::empty() =~= Seq::<crate::ast::StmtModel>::empty());
        match grammar::block_rest(src.s(), p as int) {
            Some((m, e)) => {
                assert(Seq::<crate::ast::StmtModel>::empty() + m =~= m);
            },
            None => {},
        }
        assert(statement_list_visits(v@, 0) =~= Seq::<Visit>::empty());
        lemma_fresh_empty(lo as int, lo as int);
    }
    loop
        invariant
            src.wf(),
            p <= q <= src.len(),
            grammar::block_rest(src.s(), p as int) == prefixed(stmts_seq_model(v@), grammar::block_rest(src.s(), q as int)),
            lo == old(st).ids.next,
            lo <= st.ids.next,
            fresh_between(statement_list_visits(v@, v@.len()), lo, st.ids.next),
        decreases src.len() - q,
    {
        match punct(src, st, q, '}') {
            Some(e) => {
                let ghost mid = st.ids.next;
                let b = Block { statements: v };
                proof {
                    lemma_block_model(b);
                    assert(stmts_seq_model(b.statements@) + Seq::<crate::ast::StmtModel>::empty() =~= stmts_seq_model(b.statements@));
                    lemma_statements_visits(b, b.statements@.len());
                }
                let n = Node::new(&mut st.ids, b);
                proof {
                    lemma_fresh_node(n.id, NodeKind::Block, statement_list_visits(b.statements@, b.statements@.len()), lo, mid, st.ids.next);
                }
                return Some((n, e));
            },
            None => {},
        }
        let ghost m = st.ids.next;
        match statement(src, st, q) {
            Some((n, e)) => {
                proof {
                    lemma_prefixed_push(stmts_seq_model(v@), stmt_model(n.node), grammar::block_rest(src.s(), e as int));
                    lemma_statement_list_visits_push(v@, n);
                    lemma_fresh_then(statement_list_visits(v@, v@.len()), statement_visits(n), lo, m, m, st.ids.next);
                }
                let ghost old_v = v@;
                v.push(n);
                proof {
                    assert(stmts_seq_model(v@) =~= stmts_seq_model(old_v).push(stmt_model(n.node)));
                }
                q = e;
            },
            None => {
                return None;
            },
        }
    }
}

/// The cases of a switch.
fn cases(src: &Source, st: &mut Progress, p: usize) -> (r: (Option<(Vec<Node<Case>>, usize)>))
    requires
        src.wf(),
        p <= src.len(),
    ensures
        match r {
            Some((v, e)) => grammar::cases(src.s(), p as int) == Some((cases_seq_model(v@), e as int))
                && p <= e <= src.len(),
            None => grammar::cases(src.s(), p as int) is None,
        },
        old(st).ids.next <= final(st).ids.next,
        r matches Some((v, _)) ==> fresh_between(case_list_visits(v@, v@.len()), old(st).ids.next, final(st).ids.next),
    decreases src.len() - p, 5nat,
{
    let ghost lo = st.ids.next;
    let mut v: Vec<Node<Case>> = Vec::new();
    let mut q = p;
    proof {
        reveal_strlit("case");
        assert("case"@ =~= grammar::kw_case());
        assert(cases_seq_model(v@) =~= Seq::<crate::ast::CaseModel>::empty());
        match grammar::cases(src.s(), p as int) {
            Some((m, e)) => {
                assert(Seq::<crate::ast::CaseModel>::empty() + m =~= m);
            },
            None => {},
        }
        assert(case_list_visits(v@, 0) =~= Seq::<Visit>::empty());
        lemma_fresh_empty(lo as int, lo as int);
    }
    loop
        invariant
            src.wf(),
            p <= q <= src.len(),
            "case"@ == grammar::kw_case(),
            grammar::cases(src.s(), p as int) == prefixed(cases_seq_model(v@), grammar::cases(src.s(), q as int)),
            lo == old(st).ids.next,
            lo <= st.ids.next,
            fresh_between(case_list_visits(v@, v@.len()), lo, st.ids.next),
        decreases src.len() - q,
    {
        let k = keyword(src, st, q, "case");
        let ghost m = st.ids.next;
        match k {
            Some(e) => match expression(src, st, e) {
                Some((x, e2)) => {
                    let ghost m2 = st.ids.next;
                    match punct(src, st, e2, ':') {
                        Some(e3) => match block(src, st, e3) {
                            Some((b, e4)) => {
                                let ghost m3 = st.ids.next;
                                let ghost xv = expression_visits(x);
                                let ghost bv = block_visits(b);
                                let c = Case { expression: x, block: b };
                                proof {
                                    lemma_prefixed_push(cases_seq_model(v@), case_model(c), grammar::cases(src.s(), e4 as int));
                                    lemma_fresh_then(xv, bv, m, m2, m2, m3);
                                }
                                let ghost old_v = v@;
                                let cn = Node::new(&mut st.ids, c);
                                proof {
                                    lemma_fresh_node(cn.id, NodeKind::Case, xv + bv, m, m3, st.ids.next);
                                    assert(case_visits(cn) == around(cn.id, NodeKind::Case, xv + bv));
                                    lemma_case_list_visits_push(v@, cn);
                                    lemma_fresh_then(case_list_visits(v@, v@.len()), case_visits(cn), lo, m, m, st.ids.next);
                                }
                                v.push(cn);
                                proof {
                                    assert(cases_seq_model(v@) =~= cases_seq_model(old_v).push(case_model(c)));
                                }
                                q = e4;
                            },
                            None => {
                                return None;
                            },
                        },
                        None => {
                            return None;
                        },
                    }
                },
                None => {
                    return None;
                },
            },
            None => {
                proof {
                    assert(cases_seq_model(v@) + Seq::<crate::ast::CaseModel>::empty() =~= cases_seq_model(v@));
                }
                return Some((v, q));
            },
        }
    }
}

fn function_rest(src: &Source, st: &mut Progress, p: usize) -> (r: Option<(Node<Statement>, usize)>)
    requires
        src.wf(),
        p <= src.len(),
    ensures
        match r {
            Some((n, e)) => grammar::function_rest(src.s(), p as int) == Some((stmt_model(n.node), e as int))
                && p < e <= src.len(),
            None => grammar::function_rest(src.s(), p as int) is None,
        },
        old(st).ids.next <= final(st).ids.next,
        r matches Some((n, _)) ==> fresh_between(statement_visits(n), old(st).ids.next, final(st).ids.next),
    decreases src.len() - p, 4nat,
{
    let ghost lo = st.ids.next;
    let (name, e) = match identifier(src, st, p) {
        Some(x) => x,
        None => {
            return None;
        },
    };
    let ghost a = st.ids.next;
    let (args, e2) = match parameters(src, st, e) {
        Some(x) => x,
        None => {
            return None;
        },
    };
    let ghost b = st.ids.next;
    let (rets_opt, e4) = match punct2(src, st, e2, '-', '>') {
        Some(e3) => match identifier_list(src, st, e3) {
            Some((rets, e4)) => (Some(rets), e4),
            None => {
                return None;
            },
        },
        None => (None, e2),
    };
    let ghost c = st.ids.next;
    let ghost rv = match &rets_opt {
        Some(r) => identifiers_visits(r@, r@.len()),
        None => Seq::<Visit>::empty(),
    };
    proof {
        if rets_opt is None {
            lemma_fresh_empty(b as int, c as int);
        }
    }
    match block(src, st, e4) {
        Some((body, e5)) => {
            let ghost d = st.ids.next;
            let ghost nv = leaf(name.id, NodeKind::Identifier);
            let ghost av = identifiers_visits(args@, args@.len());
            let ghost bv = block_visits(body);
            proof {
                lemma_fresh_then(nv, av, lo, a, a, b);
                lemma_fresh_then(nv + av, rv, lo, b, b, c);
                lemma_fresh_then(nv + av + rv, bv, lo, c, c, d);
            }
            let f = Node::new(&mut st.ids, FunctionDefinition { identifier: name, arguments: args, returns: rets_opt, body });
            let ghost g = st.ids.next;
            proof {
                lemma_fresh_node(f.id, NodeKind::FunctionDefinition, nv + av + rv + bv, lo, d, g);
            }
            let n = Node::new(&mut st.ids, Statement::FunctionDefinition(f));
            proof {
                lemma_fresh_node(n.id, NodeKind::Statement, crate::walk::function_definition_visits(f), lo, g, st.ids.next);
            }
            Some((n, e5))
        },
        None => None,
    }
}

fn switch_rest(src: &Source, st: &mut Progress, p: usize) -> (r: Option<(Node<Statement>, usize)>)
    requires
        src.wf(),
        p <= src.len(),
    ensures
        match r {
            Some((n, e)) => grammar::switch_rest(src.s(), p as int) == Some((stmt_model(n.node), e as int))
                && p < e <= src.len(),
            None => grammar::switch_rest(src.s(), p as int) is None,
        },
        old(st).ids.next <= final(st).ids.next,
        r matches Some((n, _)) ==> fresh_between(statement_visits(n), old(st).ids.next, final(st).ids.next),
    decreases src.len() - p, 6nat,
{
    proof {
        reveal_strlit("default");
        assert("default"@ =~= grammar::kw_default());
    }
    let ghost lo = st.ids.next;
    let (x, e) = match expression(src, st, p) {
        Some(r) => r,
        None => {
            return None;
        },
    };
    let ghost a = st.ids.next;
    let (cs, e2) = match cases(src, st, e) {
        Some(r) => r,
        None => {
            return None;
        },
    };
    let ghost b = st.ids.next;
    let (default, e5) = match keyword(src, st, e2, "default") {
        Some(e3) => match punct(src, st, e3, ':') {
            Some(e4) => match block(src, st, e4) {
                Some((d, e5)) => (Some(d), e5),
                None => {
                    return None;
                },
            },
            None => {
                return None;
            },
        },
        None => (None, e2),
    };
    let ghost c = st.ids.next;
    let ghost dv = match &default {
        Some(d) => block_visits(*d),
        None => Seq::<Visit>::empty(),
    };
    proof {
        if default is None {
            lemma_fresh_empty(b as int, c as int);
        }
    }
    let ghost xv = expression_visits(x);
    let ghost cv = case_list_visits(cs@, cs@.len());
    let w = Switch { expression: x, cases: cs, default };
    proof {
        lemma_cases_model(w);
        lemma_cases_visits(w, w.cases@.len());
        lemma_fresh_then(xv, cv, lo, a, a, b);
        lemma_fresh_then(xv + cv, dv, lo, b, b, c);
    }
    let wn = Node::new(&mut st.ids, w);
    let ghost g = st.ids.next;
    proof {
        lemma_fresh_node(wn.id, NodeKind::Switch, xv + cv + dv, lo, c, g);
        assert(crate::walk::switch_visits(wn) == around(wn.id, NodeKind::Switch, xv + cv + dv));
    }
    let n = Node::new(&mut st.ids, Statement::Switch(wn));
    proof {
        lemma_fresh_node(n.id, NodeKind::Statement, crate::walk::switch_visits(wn), lo, g, st.ids.next);
    }
    Some((n, e5))
}

fn for_rest(src: &Source, st: &mut Progress, p: usize) -> (r: Option<(Node<Statement>, usize)>)
    requires
        src.wf(),
        p <= src.len(),
    ensures
        match r {
            Some((n, e)) => grammar::for_rest(src.s(), p as int) == Some((stmt_model(n.node), e as int))
                && p < e <= src.len(),
            None => grammar::for_rest(src.s(), p as int) is None,
        },
        old(st).ids.next <= final(st).ids.next,
        r matches Some((n, _)) ==> fresh_between(statement_visits(n), old(st).ids.next, final(st).ids.next),
    decreases src.len() - p, 4nat,
{
    let ghost lo = st.ids.next;
    let (init, e) = match block(src, st, p) {
        Some(r) => r,
        None => {
            return None;
        },
    };
    let ghost a = st.ids.next;
    let (condition, e2) = match expression(src, st, e) {
        Some(r) => r,
        None => {
            return None;
        },
    };
    let ghost b = st.ids.next;
    let (post, e3) = match block(src, st, e2) {
        Some(r) => r,
        None => {
            return None;
        },
    };
    let ghost c = st.ids.next;
    let (body, e4) = match block(src, st, e3) {
        Some(r) => r,
        None => {
            return None;
        },
    };
    let ghost d = st.ids.next;
    let ghost v1 = block_visits(init);
    let ghost v2 = expression_visits(condition);
    let ghost v3 = block_visits(post);
    let ghost v4 = block_visits(body);
    proof {
        lemma_fresh_then(v1, v2, lo, a, a, b);
        lemma_fresh_then(v1 + v2, v3, lo, b, b, c);
        lemma_fresh_then(v1 + v2 + v3, v4, lo, c, c, d);
    }
    let f = Node::new(&mut st.ids, ForLoop { init, condition, post, body });
    let ghost g = st.ids.next;
    proof {
        lemma_fresh_node(f.id, NodeKind::ForLoop, v1 + v2 + v3 + v4, lo, d, g);
    }
    let n = Node::new(&mut st.ids, Statement::ForLoop(f));
    proof {
        lemma_fresh_node(n.id, NodeKind::Statement, crate::walk::for_loop_visits(f), lo, g, st.ids.next);
    }
    Some((n, e4))
}

/// A statement made of targets and an expression, with its identifiers' facts.
proof fn lemma_fresh_targets_statement(
    sid: u64, id: u64, kind: NodeKind, tv: Seq<Visit>, xv: Seq<Visit>, lo: u64, a: u64, b: u64, c: u64, g: u64, hi: u64,
)
    requires
        fresh_between(tv, lo, a),
        fresh_between(xv, b, c),
        a <= b,
        id == c,
        c < u64::MAX ==> g == c + 1,
        c <= g,
        sid == g,
        g < u64::MAX ==> hi == g + 1,
        g <= hi,
    ensures
        fresh_between(around(sid, NodeKind::Statement, around(id, kind, tv + xv)), lo, hi),
{
    lemma_fresh_then(tv, xv, lo, a, b, c);
    lemma_fresh_node(id, kind, tv + xv, lo, c, g);
    lemma_fresh_node(sid, NodeKind::Statement, around(id, kind, tv + xv), lo, g, hi);
}

fn assignment_or_expression(src: &Source, st: &mut Progress, p: usize) -> (r: Option<(Node<Statement>, usize)>)
    requires
        src.wf(),
        p <= src.len(),
    ensures
        match r {
            Some((n, e)) => grammar::assignment_or_expression(src.s(), p as int) == Some((stmt_model(n.node), e as int))
                && p < e <= src.len(),
            None => grammar::assignment_or_expression(src.s(), p as int) is None,
        },
        old(st).ids.next <= final(st).ids.next,
        r matches Some((n, _)) ==> fresh_between(statement_visits(n), old(st).ids.next, final(st).ids.next),
    decreases src.len() - p, 6nat,
{
    let ghost lo = st.ids.next;
    match identifier_list(src, st, p) {
        Some((targets, e)) => {
            let ghost a = st.ids.next;
            match punct2(src, st, e, ':', '=') {
                Some(e2) => {
                    return match expression(src, st, e2) {
                        Some((x, e3)) => {
                            let ghost c = st.ids.next;
                            let ghost tv = identifiers_visits(targets@, targets@.len());
                            let ghost xv = expression_visits(x);
                            let an = Node::new(&mut st.ids, Assignment { identifiers: targets, expression: x });
                            let ghost g = st.ids.next;
                            let n = Node::new(&mut st.ids, Statement::Assignment(an));
                            proof {
                                lemma_fresh_targets_statement(n.id, an.id, NodeKind::Assignment, tv, xv, lo, a, a, c, g, st.ids.next);
                            }
                            Some((n, e3))
                        },
                        None => None,
                    };
                },
                None => {},
            }
        },
        None => {},
    }
    let ghost lo1 = st.ids.next;
    match expression(src, st, p) {
        Some((x, e)) => {
            let ghost c = st.ids.next;
            let n = Node::new(&mut st.ids, Statement::Expression(x));
            proof {
                lemma_fresh_node(n.id, NodeKind::Statement, expression_visits(x), lo1, c, st.ids.next);
                lemma_fresh_earlier(statement_visits(n), lo, lo1, st.ids.next);
            }
            Some((n, e))
        },
        None => None,
    }
}

fn let_rest(src: &Source, st: &mut Progress, p: usize) -> (r: Option<(Node<Statement>, usize)>)
    requires
        src.wf(),
        p <= src.len(),
    ensures
        match r {
            Some((n, e)) => grammar::let_rest(src.s(), p as int) == Some((stmt_model(n.node), e as int))
                && p < e <= src.len(),
            None => grammar::let_rest(src.s(), p as int) is None,
        },
        old(st).ids.next <= final(st).ids.next,
        r matches Some((n, _)) ==> fresh_between(statement_visits(n), old(st).ids.next, final(st).ids.next),
    decreases src.len() - p, 4nat,
{
    let ghost lo = st.ids.next;
    match identifier_list(src, st, p) {
        Some((targets, e)) => {
            let ghost a = st.ids.next;
            match punct2(src, st, e, ':', '=') {
                Some(e2) => match expression(src, st, e2) {
                    Some((x, e3)) => {
                        let ghost c = st.ids.next;
                        let ghost tv = identifiers_visits(targets@, targets@.len());
                        let ghost xv = expression_visits(x);
                        let d = Node::new(&mut st.ids, VariableDeclaration { identifiers: targets, expression: x });
                        let ghost g = st.ids.next;
                        let n = Node::new(&mut st.ids, Statement::VariableDeclaration(d));
                        proof {
                            lemma_fresh_targets_statement(n.id, d.id, NodeKind::VariableDeclaration, tv, xv, lo, a, a, c, g, st.ids.next);
                        }
                        Some((n, e3))
                    },
                    None => None,
                },
                None => None,
            }
        },
        None => None,
    }
}

fn assembly_rest(src: &Source, st: &mut Progress, p: usize) -> (r: Option<(Node<Statement>, usize)>)
    requires
        src.wf(),
        p <= src.len(),
    ensures
        match r {
            Some((n, e)) => grammar::assembly_rest(src.s(), p as int) == Some((stmt_model(n.node), e as int))
                && p < e <= src.len(),
            None => grammar::assembly_rest(src.s(), p as int) is None,
        },
        old(st).ids.next <= final(st).ids.next,
        r matches Some((n, _)) ==> fresh_between(statement_visits(n), old(st).ids.next, final(st).ids.next),
    decreases src.len() - p, 4nat,
{
    let ghost lo = st.ids.next;
    match identifier(src, st, p) {
        Some((name, e)) => {
            let ghost a = st.ids.next;
            match block(src, st, e) {
                Some((b, e2)) => {
                    let ghost c = st.ids.next;
                    let ghost nv = leaf(name.id, NodeKind::Identifier);
                    let ghost bv = block_visits(b);
                    let an = Node::new(&mut st.ids, SubAssembly { identifier: name, block: b });
                    let ghost g = st.ids.next;
                    let n = Node::new(&mut st.ids, Statement::SubAssembly(an));
                    proof {
                        lemma_fresh_targets_statement(n.id, an.id, NodeKind::SubAssembly, nv, bv, lo, a, a, c, g, st.ids.next);
                    }
                    Some((n, e2))
                },
                None => None,
            }
        },
        None => None,
    }
}

#[verifier::rlimit(60)]
pub(crate) fn statement(src: &Source, st: &mut Progress, p: usize) -> (r: Option<(Node<Statement>, usize)>)
    requires
        src.wf(),
        p <= src.len(),
    ensures
        match r {
            Some((n, e)) => grammar::statement(src.s(), p as int) == Some((stmt_model(n.node), e as int))
                && p < e <= src.len(),
            None => grammar::statement(src.s(), p as int) is None,
        },
        old(st).ids.next <= final(st).ids.next,
        r matches Some((n, _)) ==> fresh_between(statement_visits(n), old(st).ids.next, final(st).ids.next),
    decreases src.len() - p, 7nat,
{
    proof {
        reveal_strlit("function");
        reveal_strlit("let");
        reveal_strlit("switch");
        reveal_strlit("for");
        reveal_strlit("break");
        reveal_strlit("continue");
        reveal_strlit("assembly");
        assert("function"@ =~= grammar::kw_function());
        assert("let"@ =~= grammar::kw_let());
        assert("switch"@ =~= grammar::kw_switch());
        assert("for"@ =~= grammar::kw_for());
        assert("break"@ =~= grammar::kw_break());
        assert("continue"@ =~= grammar::kw_continue());
        assert("assembly"@ =~= grammar::kw_assembly());
    }
    let ghost lo = st.ids.next;
    match punct(src, st, p, '{') {
        Some(_) => {
            return match block(src, st, p) {
                Some((b, e)) => {
                    let ghost c = st.ids.next;
                    let n = Node::new(&mut st.ids, Statement::Block(b));
                    proof {
                        lemma_fresh_node(n.id, NodeKind::Statement, block_visits(b), lo, c, st.ids.next);
                    }
                    Some((n, e))
                },
                None => None,
            };
        },
        None => {},
    }
    let (q, e) = match word(src, st, p) {
        Some(r) => r,
        None => {
            return assignment_or_expression(src, st, p);
        },
    };
    if range_is(src, q, e, "function") {
        function_rest(src, st, e)
    } else if range_is(src, q, e, "let") {
        let_rest(src, st, e)
    } else if range_is(src, q, e, "switch") {
        switch_rest(src, st, e)
    } else if range_is(src, q, e, "for") {
        for_rest(src, st, e)
    } else if range_is(src, q, e, "break") || range_is(src, q, e, "continue") {
        let is_break = range_is(src, q, e, "break");
        let o = Node::new(&mut st.ids, if is_break { ControlOp::Break() } else { ControlOp::Continue() });
        let ghost c = st.ids.next;
        let n = Node::new(&mut st.ids, Statement::ControlOp(o));
        proof {
            lemma_fresh_leaf(o.id, NodeKind::ControlOp);
            lemma_fresh_node(n.id, NodeKind::Statement, leaf(o.id, NodeKind::ControlOp), lo, c, st.ids.next);
        }
        Some((n, e))
    } else if range_is(src, q, e, "assembly") {
        assembly_rest(src, st, e)
    } else {
        assignment_or_expression(src, st, p)
    }
}

} // verus!
