//! The parser: recursive descent with precedence climbing over a
//! well-formed token stream, building location-annotated syntax nodes.
//!
//! Precedence and associativity are fixed and total: `*` and `/` bind
//! tighter than `+` and `-`, all four are left-associative, and unary `-`
//! binds tighter still. Every node's location runs from its first consumed
//! token's start to its last consumed token's end. A trailing comma before
//! the closing parenthesis of a parameter list is always accepted. The
//! first offending token raises a single error and parsing halts.
//!
//! The grammar itself is written down twice over: as acceptance functions
//! (`spec_primary` through `spec_items`) that map a start position to the
//! position after the derivation or to the exact first error, and as
//! fidelity relations (`prim_fits` through `items_fit`) that say which tree
//! the tokens of a region spell out. Each parsing function returns `Ok`
//! exactly when its acceptance function does, ends at the position that
//! function computes, returns on failure exactly the error it computes, and
//! on success builds a tree the fidelity relations tie, node by node, to
//! the consumed tokens.

use vstd::prelude::*;
use crate::ast::{
    BinOp, Block, Expr, ExprKind, Item, ItemKind, Module, Name, Stmt, StmtKind, UnOp, block_wf,
    expr_wf, item_wf, loc_within, module_wf, name_wf, stmt_wf,
};
use crate::error::{Error, Expected};
use crate::lexer::{lemma_stream_spans_ordered, stream_wf};
use crate::loc::{Loc, Span};
use crate::token::{Token, TokenKind};

verus! {

/// A parser failure is well formed over the stream `toks`: a syntax error
/// names the class and location of some non-final token actually found, and
/// an end-of-input error carries the end-of-input token's location.
pub open spec fn parse_error_wf(e: Error, toks: Seq<Token>) -> bool {
    match e {
        Error::SyntaxError { expected: _, found, loc } => exists|p: int|
            0 <= p < toks.len() && (#[trigger] toks[p]).loc == loc && toks[p].kind == found
                && found != TokenKind::Eof,
        Error::UnexpectedEndOfInput { loc } => loc == toks[toks.len() - 1].loc,
        _ => false,
    }
}

/// The error that consuming one token of exactly the class `kind` raises at
/// position `i`: end-of-input where the stream is exhausted, otherwise a
/// syntax error naming `kind` and the token found.
pub open spec fn expect_err(t: Seq<Token>, i: int, kind: TokenKind) -> Error {
    if t[i].kind == TokenKind::Eof {
        Error::UnexpectedEndOfInput { loc: t[i].loc }
    } else {
        Error::SyntaxError { expected: Expected::Tok(kind), found: t[i].kind, loc: t[i].loc }
    }
}

/// Consuming one token of exactly the class `kind` at position `i`: the
/// position after it, or the error `expect_err` prescribes.
pub open spec fn spec_expect(t: Seq<Token>, i: int, kind: TokenKind) -> Result<int, Error> {
    if t[i].kind == kind {
        Ok(i + 1)
    } else {
        Err(expect_err(t, i, kind))
    }
}

/// The grammar of primary expressions, as a function from a start position
/// to the position after the derivation, or to the first error: an integer,
/// string or name token, or a parenthesized expression.
pub open spec fn spec_primary(t: Seq<Token>, i: int) -> Result<int, Error>
    decreases t.len() - i, 0int,
{
    if i < 0 || i >= t.len() {
        Ok(i)
    } else {
        match t[i].kind {
        TokenKind::Int => Ok(i + 1),
        TokenKind::Str => Ok(i + 1),
        TokenKind::Ident => Ok(i + 1),
        TokenKind::LParen => match spec_expr(t, i + 1) {
            Ok(j) => spec_expect(t, j, TokenKind::RParen),
            Err(e) => Err(e),
        },
        TokenKind::Eof => Err(Error::UnexpectedEndOfInput { loc: t[i].loc }),
        _ => Err(
            Error::SyntaxError { expected: Expected::ExprStart, found: t[i].kind, loc: t[i].loc },
        ),
        }
    }
}

/// The grammar of unary expressions: any number of `-` signs applied to a
/// primary expression.
pub open spec fn spec_unary(t: Seq<Token>, i: int) -> Result<int, Error>
    decreases t.len() - i, 1int,
{
    if i < 0 || i >= t.len() {
        Ok(i)
    } else if t[i].kind == TokenKind::Minus {
        spec_unary(t, i + 1)
    } else {
        spec_primary(t, i)
    }
}

/// The `*`/`/` continuations of a multiplicative expression whose left part
/// ends at `j`.
pub open spec fn spec_mul_tail(t: Seq<Token>, j: int) -> Result<int, Error>
    decreases t.len() - j, 2int,
{
    if j < 0 || j >= t.len() {
        Ok(j)
    } else if t[j].kind == TokenKind::Star || t[j].kind == TokenKind::Slash {
        match spec_unary(t, j + 1) {
            Ok(j2) => if j < j2 <= t.len() {
                spec_mul_tail(t, j2)
            } else {
                Ok(j2)
            },
            Err(e) => Err(e),
        }
    } else {
        Ok(j)
    }
}

/// The grammar of multiplicative expressions: unary expressions joined by
/// `*` or `/`.
pub open spec fn spec_mul(t: Seq<Token>, i: int) -> Result<int, Error>
    decreases t.len() - i, 3int,
{
    match spec_unary(t, i) {
        Ok(j) => if i < j <= t.len() {
            spec_mul_tail(t, j)
        } else {
            Ok(j)
        },
        Err(e) => Err(e),
    }
}

/// The `+`/`-` continuations of an expression whose left part ends at `j`.
pub open spec fn spec_expr_tail(t: Seq<Token>, j: int) -> Result<int, Error>
    decreases t.len() - j, 4int,
{
    if j < 0 || j >= t.len() {
        Ok(j)
    } else if t[j].kind == TokenKind::Plus || t[j].kind == TokenKind::Minus {
        match spec_mul(t, j + 1) {
            Ok(j2) => if j < j2 <= t.len() {
                spec_expr_tail(t, j2)
            } else {
                Ok(j2)
            },
            Err(e) => Err(e),
        }
    } else {
        Ok(j)
    }
}

/// The grammar of expressions: multiplicative expressions joined by `+` or
/// `-`.
pub open spec fn spec_expr(t: Seq<Token>, i: int) -> Result<int, Error>
    decreases t.len() - i, 5int,
{
    match spec_mul(t, i) {
        Ok(j) => if i < j <= t.len() {
            spec_expr_tail(t, j)
        } else {
            Ok(j)
        },
        Err(e) => Err(e),
    }
}

/// The grammar of statements: `let name = expr;`, `return expr;`, or
/// `expr;`.
pub open spec fn spec_stmt(t: Seq<Token>, i: int) -> Result<int, Error> {
    if t[i].kind == TokenKind::KwLet {
        if t[i + 1].kind != TokenKind::Ident {
            Err(expect_err(t, i + 1, TokenKind::Ident))
        } else if t[i + 2].kind != TokenKind::Assign {
            Err(expect_err(t, i + 2, TokenKind::Assign))
        } else {
            match spec_expr(t, i + 3) {
                Ok(j) => spec_expect(t, j, TokenKind::Semi),
                Err(e) => Err(e),
            }
        }
    } else if t[i].kind == TokenKind::KwReturn {
        match spec_expr(t, i + 1) {
            Ok(j) => spec_expect(t, j, TokenKind::Semi),
            Err(e) => Err(e),
        }
    } else {
        match spec_expr(t, i) {
            Ok(j) => spec_expect(t, j, TokenKind::Semi),
            Err(e) => Err(e),
        }
    }
}

/// The grammar of a parameter list after its opening parenthesis, through
/// the closing parenthesis: comma-separated names, a trailing comma always
/// accepted.
pub open spec fn spec_params(t: Seq<Token>, i: int) -> Result<int, Error>
    decreases t.len() - i,
{
    if i < 0 || i >= t.len() {
        Ok(i)
    } else if t[i].kind == TokenKind::RParen {
        Ok(i + 1)
    } else if t[i].kind == TokenKind::Ident {
        if t[i + 1].kind == TokenKind::Comma {
            if i + 2 <= t.len() {
                spec_params(t, i + 2)
            } else {
                Ok(i + 2)
            }
        } else {
            spec_expect(t, i + 1, TokenKind::RParen)
        }
    } else if t[i].kind == TokenKind::Eof {
        Err(Error::UnexpectedEndOfInput { loc: t[i].loc })
    } else {
        Err(
            Error::SyntaxError {
                expected: Expected::ParamOrCloseParen,
                found: t[i].kind,
                loc: t[i].loc,
            },
        )
    }
}

/// The statements of a block from `i`, through the closing brace.
pub open spec fn spec_block_tail(t: Seq<Token>, i: int) -> Result<int, Error>
    decreases t.len() - i,
{
    if i < 0 || i >= t.len() {
        Ok(i)
    } else if t[i].kind == TokenKind::RBrace || t[i].kind == TokenKind::Eof {
        spec_expect(t, i, TokenKind::RBrace)
    } else {
        match spec_stmt(t, i) {
            Ok(j) => if i < j <= t.len() {
                spec_block_tail(t, j)
            } else {
                Ok(j)
            },
            Err(e) => Err(e),
        }
    }
}

/// The grammar of blocks: `{ stmt* }`.
pub open spec fn spec_block(t: Seq<Token>, i: int) -> Result<int, Error> {
    if t[i].kind != TokenKind::LBrace {
        Err(expect_err(t, i, TokenKind::LBrace))
    } else {
        spec_block_tail(t, i + 1)
    }
}

/// The grammar of items: `fn name(params) { body }`.
pub open spec fn spec_item(t: Seq<Token>, i: int) -> Result<int, Error> {
    if t[i].kind != TokenKind::KwFn {
        Err(expect_err(t, i, TokenKind::KwFn))
    } else if t[i + 1].kind != TokenKind::Ident {
        Err(expect_err(t, i + 1, TokenKind::Ident))
    } else if t[i + 2].kind != TokenKind::LParen {
        Err(expect_err(t, i + 2, TokenKind::LParen))
    } else {
        match spec_params(t, i + 3) {
            Ok(j) => spec_block(t, j),
            Err(e) => Err(e),
        }
    }
}

/// The grammar of a module's item sequence from `i`: items up to the
/// end-of-input token, whose position a successful derivation returns.
pub open spec fn spec_items(t: Seq<Token>, i: int) -> Result<int, Error>
    decreases t.len() - i,
{
    if i < 0 || i >= t.len() {
        Ok(i)
    } else if t[i].kind == TokenKind::Eof {
        Ok(i)
    } else if t[i].kind == TokenKind::KwFn {
        match spec_item(t, i) {
            Ok(j) => if i < j <= t.len() {
                spec_items(t, j)
            } else {
                Ok(j)
            },
            Err(e) => Err(e),
        }
    } else {
        Err(Error::SyntaxError { expected: Expected::ItemStart, found: t[i].kind, loc: t[i].loc })
    }
}

/// A node location delimits tokens `[i, j)`: same file, starting at the
/// first token's start and ending at the last token's end.
pub open spec fn node_loc_fits(l: Loc, t: Seq<Token>, i: int, j: int) -> bool {
    &&& l.file == t[i].loc.file
    &&& l.span.start == t[i].loc.span.start
    &&& l.span.end == t[j - 1].loc.span.end
}

/// Fidelity of a primary expression node to tokens `[i, j)`: one literal or
/// name token whose content the node carries, or a parenthesized expression
/// whose kind derives from the inner tokens and whose location absorbs the
/// parentheses.
pub open spec fn prim_fits(e: Expr, t: Seq<Token>, i: int, j: int) -> bool
    decreases j - i, 1int,
{
    &&& node_loc_fits(e.loc, t, i, j)
    &&& if j == i + 1 {
        match e.kind {
            ExprKind::Int(v) => t[i].kind == TokenKind::Int && v == t[i].value,
            ExprKind::Str(b) => t[i].kind == TokenKind::Str && b@ == t[i].text@,
            ExprKind::Var(b) => t[i].kind == TokenKind::Ident && b@ == t[i].text@,
            _ => false,
        }
    } else {
        &&& t[i].kind == TokenKind::LParen
        &&& t[j - 1].kind == TokenKind::RParen
        &&& i + 3 <= j
        &&& expr_fits(
            Expr {
                kind: e.kind,
                loc: Loc {
                    file: t[i + 1].loc.file,
                    span: Span {
                        start: t[i + 1].loc.span.start,
                        end: t[j - 2].loc.span.end,
                    },
                },
            },
            t,
            i + 1,
            j - 1,
        )
    }
}

/// Fidelity of a unary expression to tokens `[i, j)`: a primary expression,
/// or `-` applied to a unary expression.
pub open spec fn unary_fits(e: Expr, t: Seq<Token>, i: int, j: int) -> bool
    decreases j - i, 2int,
{
    ||| prim_fits(e, t, i, j)
    ||| {
        &&& node_loc_fits(e.loc, t, i, j)
        &&& t[i].kind == TokenKind::Minus
        &&& i + 1 < j
        &&& e.kind matches ExprKind::Unary(op, sub) && op == UnOp::Neg && unary_fits(
            *sub,
            t,
            i + 1,
            j,
        )
    }
}

/// Fidelity of a multiplicative expression to tokens `[i, j)`: a unary
/// expression, or a `*`/`/` node whose left operand is the multiplicative
/// expression before the operator token and whose right operand is the
/// unary expression after it.
pub open spec fn mul_fits(e: Expr, t: Seq<Token>, i: int, j: int) -> bool
    decreases j - i, 3int,
{
    ||| unary_fits(e, t, i, j)
    ||| {
        &&& node_loc_fits(e.loc, t, i, j)
        &&& e.kind matches ExprKind::Binary(op, l, r) && (op == BinOp::Mul || op == BinOp::Div)
            && (exists|m: int|
            {
                &&& i < m
                &&& m + 1 < j
                &&& (#[trigger] t[m]).kind == (if op == BinOp::Mul {
                    TokenKind::Star
                } else {
                    TokenKind::Slash
                })
                &&& mul_fits(*l, t, i, m)
                &&& unary_fits(*r, t, m + 1, j)
            })
    }
}

/// Fidelity of an expression to tokens `[i, j)`: a multiplicative
/// expression, or a `+`/`-` node whose left operand is the expression
/// before the operator token and whose right operand is the multiplicative
/// expression after it. Multiplication binds tighter, and all four
/// operators associate to the left.
pub open spec fn expr_fits(e: Expr, t: Seq<Token>, i: int, j: int) -> bool
    decreases j - i, 4int,
{
    ||| mul_fits(e, t, i, j)
    ||| {
        &&& node_loc_fits(e.loc, t, i, j)
        &&& e.kind matches ExprKind::Binary(op, l, r) && (op == BinOp::Add || op == BinOp::Sub)
            && (exists|m: int|
            {
                &&& i < m
                &&& m + 1 < j
                &&& (#[trigger] t[m]).kind == (if op == BinOp::Add {
                    TokenKind::Plus
                } else {
                    TokenKind::Minus
                })
                &&& expr_fits(*l, t, i, m)
                &&& mul_fits(*r, t, m + 1, j)
            })
    }
}

/// Fidelity of a name node to the identifier token at `i`.
pub open spec fn name_fits(n: Name, t: Seq<Token>, i: int) -> bool {
    &&& t[i].kind == TokenKind::Ident
    &&& n.text@ == t[i].text@
    &&& n.loc == t[i].loc
}

/// Fidelity of a statement node to tokens `[i, j)`, the last of which is
/// its terminating semicolon.
pub open spec fn stmt_fits(s: Stmt, t: Seq<Token>, i: int, j: int) -> bool {
    &&& node_loc_fits(s.loc, t, i, j)
    &&& t[j - 1].kind == TokenKind::Semi
    &&& match s.kind {
        StmtKind::Let { name, value } => {
            &&& t[i].kind == TokenKind::KwLet
            &&& name_fits(name, t, i + 1)
            &&& t[i + 2].kind == TokenKind::Assign
            &&& expr_fits(value, t, i + 3, j - 1)
        },
        StmtKind::Return(value) => t[i].kind == TokenKind::KwReturn && expr_fits(
            value,
            t,
            i + 1,
            j - 1,
        ),
        StmtKind::Expr(value) => expr_fits(value, t, i, j - 1),
    }
}

/// Fidelity of a parameter list to tokens `[a, b)`: the names in order,
/// each followed by a comma except possibly the last (`open` tells whether
/// the region ends after a comma, so that another name could follow).
pub open spec fn params_shape(ps: Seq<Name>, t: Seq<Token>, a: int, b: int, open: bool) -> bool
    decreases ps.len(),
{
    if ps.len() == 0 {
        a == b && open
    } else if ps.len() == 1 && !open {
        name_fits(ps[0], t, a) && b == a + 1
    } else {
        &&& name_fits(ps[0], t, a)
        &&& t[a + 1].kind == TokenKind::Comma
        &&& params_shape(ps.drop_first(), t, a + 2, b, open)
    }
}

/// Fidelity of a statement sequence to tokens `[a, b)`: the statements in
/// order, covering the region without gaps.
pub open spec fn stmts_fit(ss: Seq<Stmt>, t: Seq<Token>, a: int, b: int) -> bool
    decreases ss.len(),
{
    if ss.len() == 0 {
        a == b
    } else {
        exists|m: int| a < m <= b && #[trigger] stmt_fits(ss[0], t, a, m) && stmts_fit(
            ss.drop_first(),
            t,
            m,
            b,
        )
    }
}

/// Fidelity of a block to tokens `[i, j)`: braces around its statements.
pub open spec fn block_fits(b: Block, t: Seq<Token>, i: int, j: int) -> bool {
    &&& node_loc_fits(b.loc, t, i, j)
    &&& t[i].kind == TokenKind::LBrace
    &&& t[j - 1].kind == TokenKind::RBrace
    &&& i + 2 <= j
    &&& stmts_fit(b.stmts@, t, i + 1, j - 1)
}

/// Fidelity of an item to tokens `[i, j)`: the `fn` keyword, its name, the
/// parenthesized parameter list, and its body.
pub open spec fn item_fits(it: Item, t: Seq<Token>, i: int, j: int) -> bool {
    &&& node_loc_fits(it.loc, t, i, j)
    &&& match it.kind {
        ItemKind::Fn { name, params, body } => {
            &&& t[i].kind == TokenKind::KwFn
            &&& name_fits(name, t, i + 1)
            &&& t[i + 2].kind == TokenKind::LParen
            &&& exists|m: int|
                {
                    &&& i + 3 <= m
                    &&& m + 1 < j
                    &&& (#[trigger] t[m]).kind == TokenKind::RParen
                    &&& (params_shape(params@, t, i + 3, m, true) || params_shape(
                        params@,
                        t,
                        i + 3,
                        m,
                        false,
                    ))
                    &&& block_fits(body, t, m + 1, j)
                }
        },
    }
}

/// Fidelity of an item sequence to tokens `[a, b)`: the items in order,
/// covering the region without gaps.
pub open spec fn items_fit(its: Seq<Item>, t: Seq<Token>, a: int, b: int) -> bool
    decreases its.len(),
{
    if its.len() == 0 {
        a == b
    } else {
        exists|m: int| a < m <= b && #[trigger] item_fits(its[0], t, a, m) && items_fit(
            its.drop_first(),
            t,
            m,
            b,
        )
    }
}

proof fn lemma_stmts_fit_snoc(ss: Seq<Stmt>, s: Stmt, t: Seq<Token>, a: int, b: int, c: int)
    requires
        stmts_fit(ss, t, a, b),
        stmt_fits(s, t, b, c),
        b < c,
    ensures
        stmts_fit(ss.push(s), t, a, c),
    decreases ss.len(),
{
    if ss.len() == 0 {
        assert(ss.push(s)[0] == s);
        assert(ss.push(s).drop_first() =~= ss);
        assert(stmts_fit(ss, t, c, c));
    } else {
        let m = choose|m: int| a < m <= b && #[trigger] stmt_fits(ss[0], t, a, m) && stmts_fit(
            ss.drop_first(),
            t,
            m,
            b,
        );
        lemma_stmts_fit_snoc(ss.drop_first(), s, t, m, b, c);
        assert(ss.push(s)[0] == ss[0]);
        assert(ss.push(s).drop_first() =~= ss.drop_first().push(s));
        assert(a < m <= c && stmt_fits(ss.push(s)[0], t, a, m) && stmts_fit(
            ss.push(s).drop_first(),
            t,
            m,
            c,
        ));
    }
}

proof fn lemma_items_fit_snoc(its: Seq<Item>, it: Item, t: Seq<Token>, a: int, b: int, c: int)
    requires
        items_fit(its, t, a, b),
        item_fits(it, t, b, c),
        b < c,
    ensures
        items_fit(its.push(it), t, a, c),
    decreases its.len(),
{
    if its.len() == 0 {
        assert(its.push(it)[0] == it);
        assert(its.push(it).drop_first() =~= its);
        assert(items_fit(its, t, c, c));
    } else {
        let m = choose|m: int| a < m <= b && #[trigger] item_fits(its[0], t, a, m) && items_fit(
            its.drop_first(),
            t,
            m,
            b,
        );
        lemma_items_fit_snoc(its.drop_first(), it, t, m, b, c);
        assert(its.push(it)[0] == its[0]);
        assert(its.push(it).drop_first() =~= its.drop_first().push(it));
        assert(a < m <= c && item_fits(its.push(it)[0], t, a, m) && items_fit(
            its.push(it).drop_first(),
            t,
            m,
            c,
        ));
    }
}

proof fn lemma_params_shape_snoc(ps: Seq<Name>, n: Name, t: Seq<Token>, a: int, b: int)
    requires
        params_shape(ps, t, a, b, true),
        name_fits(n, t, b),
    ensures
        params_shape(ps.push(n), t, a, b + 1, false),
    decreases ps.len(),
{
    if ps.len() == 0 {
        assert(ps.push(n)[0] == n);
    } else {
        lemma_params_shape_snoc(ps.drop_first(), n, t, a + 2, b);
        assert(ps.push(n)[0] == ps[0]);
        assert(ps.push(n).drop_first() =~= ps.drop_first().push(n));
    }
}

proof fn lemma_params_shape_comma(ps: Seq<Name>, t: Seq<Token>, a: int, b: int)
    requires
        params_shape(ps, t, a, b, false),
        t[b].kind == TokenKind::Comma,
    ensures
        params_shape(ps, t, a, b + 1, true),
    decreases ps.len(),
{
    if ps.len() == 1 {
        assert(params_shape(ps.drop_first(), t, a + 2, b + 1, true));
    } else if ps.len() > 1 {
        lemma_params_shape_comma(ps.drop_first(), t, a + 2, b);
    }
}

/// Well-formedness of a run of sibling names parsed so far: each well
/// formed, in `file`, spanning between `lo` and `hi`, consecutive spans
/// disjoint and in source order.
pub open spec fn names_run_wf(ns: Seq<Name>, file: u32, lo: int, hi: int) -> bool {
    &&& forall|i: int| 0 <= i < ns.len() ==> {
        &&& name_wf(#[trigger] ns[i])
        &&& ns[i].loc.file == file
        &&& lo <= ns[i].loc.span.start
        &&& ns[i].loc.span.end <= hi
    }
    &&& forall|i: int, j: int| #![trigger ns[i], ns[j]] 0 <= i && j == i + 1 && j
        < ns.len() ==> ns[i].loc.span.end <= ns[j].loc.span.start
}

/// Well-formedness of a run of sibling statements parsed so far.
pub open spec fn stmts_run_wf(ss: Seq<Stmt>, file: u32, lo: int, hi: int) -> bool {
    &&& forall|i: int| 0 <= i < ss.len() ==> {
        &&& stmt_wf(#[trigger] ss[i])
        &&& ss[i].loc.file == file
        &&& lo <= ss[i].loc.span.start
        &&& ss[i].loc.span.end <= hi
    }
    &&& forall|i: int, j: int| #![trigger ss[i], ss[j]] 0 <= i && j == i + 1 && j
        < ss.len() ==> ss[i].loc.span.end <= ss[j].loc.span.start
}

/// Well-formedness of a run of sibling items parsed so far.
pub open spec fn items_run_wf(its: Seq<Item>, file: u32, lo: int, hi: int) -> bool {
    &&& forall|i: int| 0 <= i < its.len() ==> {
        &&& item_wf(#[trigger] its[i])
        &&& its[i].loc.file == file
        &&& lo <= its[i].loc.span.start
        &&& its[i].loc.span.end <= hi
    }
    &&& forall|i: int, j: int| #![trigger its[i], its[j]] 0 <= i && j == i + 1 && j
        < its.len() ==> its[i].loc.span.end <= its[j].loc.span.start
}

#[verifier::rlimit(60)]
proof fn lemma_names_run_push(ns: Seq<Name>, n: Name, file: u32, lo: int, a: int, b: int)
    requires
        names_run_wf(ns, file, lo, a),
        name_wf(n),
        n.loc.file == file,
        lo <= n.loc.span.start,
        a <= n.loc.span.start,
        n.loc.span.end <= b,
        a <= b,
    ensures
        names_run_wf(ns.push(n), file, lo, b),
{
    let r = ns.push(n);
    assert forall|i: int| 0 <= i < r.len() implies {
        &&& name_wf(#[trigger] r[i])
        &&& r[i].loc.file == file
        &&& lo <= r[i].loc.span.start
        &&& r[i].loc.span.end <= b
    } by {
        if i < ns.len() {
            assert(r[i] == ns[i]);
        }
    }
    assert forall|i: int, j: int| #![trigger r[i], r[j]] 0 <= i && j == i + 1 && j < r.len()
        implies r[i].loc.span.end <= r[j].loc.span.start by {
        assert(r[i] == ns[i]);
        if j < ns.len() {
            assert(r[j] == ns[j]);
        } else {
            assert(r[j] == n);
        }
    }
}

proof fn lemma_names_run_weaken(ns: Seq<Name>, file: u32, lo: int, a: int, b: int)
    requires
        names_run_wf(ns, file, lo, a),
        a <= b,
    ensures
        names_run_wf(ns, file, lo, b),
{
    assert forall|i: int| 0 <= i < ns.len() implies {
        &&& name_wf(#[trigger] ns[i])
        &&& ns[i].loc.file == file
        &&& lo <= ns[i].loc.span.start
        &&& ns[i].loc.span.end <= b
    } by {
        assert(ns[i].loc.span.end <= a);
    }
}

#[verifier::rlimit(60)]
proof fn lemma_stmts_run_push(ss: Seq<Stmt>, s: Stmt, file: u32, lo: int, a: int, b: int)
    requires
        stmts_run_wf(ss, file, lo, a),
        stmt_wf(s),
        s.loc.file == file,
        lo <= s.loc.span.start,
        a <= s.loc.span.start,
        s.loc.span.end <= b,
        a <= b,
    ensures
        stmts_run_wf(ss.push(s), file, lo, b),
{
    let r = ss.push(s);
    assert forall|i: int| 0 <= i < r.len() implies {
        &&& stmt_wf(#[trigger] r[i])
        &&& r[i].loc.file == file
        &&& lo <= r[i].loc.span.start
        &&& r[i].loc.span.end <= b
    } by {
        if i < ss.len() {
            assert(r[i] == ss[i]);
        }
    }
    assert forall|i: int, j: int| #![trigger r[i], r[j]] 0 <= i && j == i + 1 && j < r.len()
        implies r[i].loc.span.end <= r[j].loc.span.start by {
        assert(r[i] == ss[i]);
        if j < ss.len() {
            assert(r[j] == ss[j]);
        } else {
            assert(r[j] == s);
        }
    }
}

#[verifier::rlimit(60)]
proof fn lemma_items_run_push(its: Seq<Item>, it: Item, file: u32, lo: int, a: int, b: int)
    requires
        items_run_wf(its, file, lo, a),
        item_wf(it),
        it.loc.file == file,
        lo <= it.loc.span.start,
        a <= it.loc.span.start,
        it.loc.span.end <= b,
        a <= b,
    ensures
        items_run_wf(its.push(it), file, lo, b),
{
    let r = its.push(it);
    assert forall|i: int| 0 <= i < r.len() implies {
        &&& item_wf(#[trigger] r[i])
        &&& r[i].loc.file == file
        &&& lo <= r[i].loc.span.start
        &&& r[i].loc.span.end <= b
    } by {
        if i < its.len() {
            assert(r[i] == its[i]);
        }
    }
    assert forall|i: int, j: int| #![trigger r[i], r[j]] 0 <= i && j == i + 1 && j < r.len()
        implies r[i].loc.span.end <= r[j].loc.span.start by {
        assert(r[i] == its[i]);
        if j < its.len() {
            assert(r[j] == its[j]);
        } else {
            assert(r[j] == it);
        }
    }
}

fn copy_bytes(v: &Vec<u8>) -> (r: Vec<u8>)
    ensures
        r@ == v@,
{
    let mut r: Vec<u8> = Vec::new();
    let mut i: usize = 0;
    while i < v.len()
        invariant
            i <= v@.len(),
            r@ == v@.subrange(0, i as int),
        decreases v@.len() - i,
    {
        r.push(v[i]);
        proof {
            assert(r@ =~= v@.subrange(0, i + 1 as int));
        }
        i = i + 1;
    }
    proof {
        assert(r@ =~= v@);
    }
    r
}

/// An expression keeps its well-formedness when its location is widened to
/// an enclosing span in the same file, as when parentheses are absorbed.
proof fn lemma_expr_widen(e: Expr, loc: Loc)
    requires
        expr_wf(e),
        loc.file == e.loc.file,
        loc.span.start <= e.loc.span.start,
        e.loc.span.end <= loc.span.end,
        loc.span.start <= loc.span.end,
    ensures
        expr_wf(Expr { kind: e.kind, loc }),
{
}

/// The parser: consumes a token stream strictly left to right with one
/// token of lookahead and never backtracks.
#[derive(Debug)]
pub struct Parser {
    /// The token stream being consumed.
    pub toks: Vec<Token>,
    /// The index of the next token to consume.
    pub pos: usize,
    /// The file the tokens were lexed from.
    pub file: u32,
}

impl Parser {
    /// The byte length of the lexed text: the end offset of the final
    /// end-of-input token.
    pub open spec fn text_len(self) -> int {
        self.toks@[self.toks@.len() - 1].loc.span.end as int
    }

    /// The parser is over a well-formed stream and stands before the
    /// end-of-input token or earlier.
    pub open spec fn wf(self) -> bool {
        &&& stream_wf(self.toks@, self.file, self.text_len())
        &&& self.pos < self.toks@.len()
    }

    /// The number of tokens not yet consumed.
    pub open spec fn rem(self) -> int {
        self.toks@.len() - self.pos
    }

    /// The token the parser stands on.
    pub open spec fn cur(self) -> Token {
        self.toks@[self.pos as int]
    }

    /// The result of a production: the stream is untouched, progress was
    /// made without consuming the end-of-input token, and `loc` runs from
    /// the first consumed token's start to the last consumed token's end.
    pub open spec fn consumed_to(self, p1: Parser, loc: Loc) -> bool {
        &&& p1.toks@ == self.toks@
        &&& p1.file == self.file
        &&& self.pos < p1.pos < self.toks@.len()
        &&& loc.file == self.file
        &&& loc.span.start == self.cur().loc.span.start
        &&& loc.span.end == self.toks@[p1.pos - 1].loc.span.end
        &&& loc.span.start <= loc.span.end
        &&& loc.span.end <= self.text_len()
    }

    /// Creates a parser at the start of a well-formed token stream.
    pub fn new(toks: Vec<Token>, file: u32) -> (r: Parser)
        requires
            stream_wf(toks@, file, toks@[toks@.len() - 1].loc.span.end as int),
        ensures
            r.wf(),
            r.toks@ == toks@,
            r.file == file,
            r.pos == 0,
    {
        Parser { toks, pos: 0, file }
    }

    /// The class of the token the parser stands on: one token of lookahead.
    pub fn peek_kind(&self) -> (k: TokenKind)
        requires
            self.wf(),
        ensures
            k == self.cur().kind,
    {
        self.toks[self.pos].kind
    }

    /// The location of the token the parser stands on.
    pub fn peek_loc(&self) -> (l: Loc)
        requires
            self.wf(),
        ensures
            l == self.cur().loc,
    {
        self.toks[self.pos].loc
    }

    /// Consumes the token the parser stands on, which must not be the
    /// end-of-input token.
    #[verifier::rlimit(100)]
    fn bump(&mut self)
        requires
            old(self).wf(),
            old(self).cur().kind != TokenKind::Eof,
        ensures
            final(self).wf(),
            final(self).toks@ == old(self).toks@,
            final(self).file == old(self).file,
            final(self).pos == old(self).pos + 1,
    {
        let n = self.toks.len();
        proof {
            assert(self.pos != self.toks@.len() - 1);
            assert(self.pos + 1 < n);
        }
        self.pos = self.pos + 1;
    }

    /// Consumes one token of exactly the class `kind` and returns its
    /// location, or raises the error the grammar prescribes: end-of-input
    /// where the stream is exhausted, and otherwise a syntax error naming
    /// `kind` as expected and the token actually found.
    #[verifier::rlimit(100)]
    fn expect(&mut self, kind: TokenKind) -> (r: Result<Loc, Error>)
        requires
            old(self).wf(),
            kind != TokenKind::Eof,
        ensures
            final(self).wf(),
            final(self).toks@ == old(self).toks@,
            final(self).file == old(self).file,
            old(self).pos <= final(self).pos,
            r is Ok <==> old(self).cur().kind == kind,
            match r {
                Ok(loc) => {
                    &&& final(self).pos == old(self).pos + 1
                    &&& loc == old(self).cur().loc
                    &&& old(self).cur().kind == kind
                },
                Err(e) => {
                    &&& e == expect_err(old(self).toks@, old(self).pos as int, kind)
                    &&& parse_error_wf(e, old(self).toks@)
                    &&& final(self).pos == old(self).pos
                },
            },
    {
        let k = self.peek_kind();
        if k == kind {
            let l = self.peek_loc();
            self.bump();
            Ok(l)
        } else if k == TokenKind::Eof {
            proof {
                assert(self.pos == self.toks@.len() - 1);
            }
            Err(Error::UnexpectedEndOfInput { loc: self.peek_loc() })
        } else {
            proof {
                let p = self.pos as int;
                assert(0 <= p < self.toks@.len() && self.toks@[p].loc == self.cur().loc
                    && self.toks@[p].kind == k);
            }
            Err(Error::SyntaxError { expected: Expected::Tok(kind), found: k, loc: self.peek_loc() })
        }
    }

    /// Consumes one identifier token and returns it as a name node.
    #[verifier::rlimit(100)]
    fn parse_name(&mut self) -> (r: Result<Name, Error>)
        requires
            old(self).wf(),
        ensures
            final(self).wf(),
            final(self).toks@ == old(self).toks@,
            final(self).file == old(self).file,
            old(self).pos <= final(self).pos,
            r is Ok <==> old(self).cur().kind == TokenKind::Ident,
            match r {
                Ok(n) => {
                    &&& final(self).pos == old(self).pos + 1
                    &&& n.loc == old(self).cur().loc
                    &&& old(self).cur().kind == TokenKind::Ident
                    &&& n.text@ == old(self).cur().text@
                    &&& name_wf(n)
                },
                Err(e) => {
                    &&& e == expect_err(old(self).toks@, old(self).pos as int, TokenKind::Ident)
                    &&& parse_error_wf(e, old(self).toks@)
                    &&& final(self).pos == old(self).pos
                },
            },
    {
        let k = self.peek_kind();
        if k == TokenKind::Ident {
            let text = copy_bytes(&self.toks[self.pos].text);
            let l = self.peek_loc();
            self.bump();
            Ok(Name { text, loc: l })
        } else if k == TokenKind::Eof {
            proof {
                assert(self.pos == self.toks@.len() - 1);
            }
            Err(Error::UnexpectedEndOfInput { loc: self.peek_loc() })
        } else {
            Err(Error::SyntaxError {
                expected: Expected::Tok(TokenKind::Ident),
                found: k,
                loc: self.peek_loc(),
            })
        }
    }

    /// Parses a primary expression: an integer, string or name, or a
    /// parenthesized expression, whose location absorbs the parentheses.
    #[verifier::rlimit(100)]
    fn parse_primary(&mut self) -> (r: Result<Expr, Error>)
        requires
            old(self).wf(),
        ensures
            final(self).wf(),
            final(self).toks@ == old(self).toks@,
            final(self).file == old(self).file,
            old(self).pos <= final(self).pos,
            old(self).cur().kind == TokenKind::Int || old(self).cur().kind == TokenKind::Str
                || old(self).cur().kind == TokenKind::Ident ==> r is Ok,
            r is Ok ==> old(self).cur().kind == TokenKind::Int || old(self).cur().kind
                == TokenKind::Str || old(self).cur().kind == TokenKind::Ident
                || old(self).cur().kind == TokenKind::LParen,
            match r {
                Ok(_) => spec_primary(old(self).toks@, old(self).pos as int) == Ok::<int, Error>(
                    final(self).pos as int,
                ),
                Err(e) => spec_primary(old(self).toks@, old(self).pos as int) == Err::<
                    int,
                    Error,
                >(e),
            },
            match r {
                Ok(e) => expr_wf(e) && old(self).consumed_to(*final(self), e.loc) && prim_fits(
                    e,
                    old(self).toks@,
                    old(self).pos as int,
                    final(self).pos as int,
                ),
                Err(e) => parse_error_wf(e, old(self).toks@),
            },
        decreases self.rem(), 0int,
    {
        let k = self.peek_kind();
        if k == TokenKind::Int {
            let value = self.toks[self.pos].value;
            let l = self.peek_loc();
            self.bump();
            Ok(Expr { kind: ExprKind::Int(value), loc: l })
        } else if k == TokenKind::Str {
            let text = copy_bytes(&self.toks[self.pos].text);
            let l = self.peek_loc();
            self.bump();
            Ok(Expr { kind: ExprKind::Str(text), loc: l })
        } else if k == TokenKind::Ident {
            let text = copy_bytes(&self.toks[self.pos].text);
            let l = self.peek_loc();
            self.bump();
            Ok(Expr { kind: ExprKind::Var(text), loc: l })
        } else if k == TokenKind::LParen {
            let lp = self.peek_loc();
            self.bump();
            let inner = self.parse_expr()?;
            let ghost after = *self;
            let rp = self.expect(TokenKind::RParen)?;
            let loc = Loc { file: self.file, span: Span { start: lp.span.start, end: rp.span.end } };
            proof {
                let t = self.toks@;
                assert(t[old(self).pos as int].loc.span.end <= t[old(self).pos + 1].loc.span.start);
                assert(t[after.pos - 1].loc.span.end <= t[after.pos as int].loc.span.start);
                lemma_expr_widen(inner, loc);
                let a = old(self).pos + 1;
                let b = after.pos as int;
                assert(expr_fits(inner, t, a, b));
                assert(node_loc_fits(inner.loc, t, a, b));
                assert((Loc {
                    file: t[a].loc.file,
                    span: Span { start: t[a].loc.span.start, end: t[b - 1].loc.span.end },
                }) == inner.loc);
                assert((Expr { kind: inner.kind, loc: inner.loc }) == inner);
            }
            let Expr { kind, loc: _ } = inner;
            let res = Expr { kind, loc };
            proof {
                assert(prim_fits(res, self.toks@, old(self).pos as int, self.pos as int));
            }
            Ok(res)
        } else if k == TokenKind::Eof {
            proof {
                assert(self.pos == self.toks@.len() - 1);
            }
            Err(Error::UnexpectedEndOfInput { loc: self.peek_loc() })
        } else {
            Err(Error::SyntaxError { expected: Expected::ExprStart, found: k, loc: self.peek_loc() })
        }
    }

    /// Parses a unary expression: any number of `-` signs applied to a
    /// primary expression; `-` binds tighter than every binary operator.
    #[verifier::rlimit(100)]
    fn parse_unary(&mut self) -> (r: Result<Expr, Error>)
        requires
            old(self).wf(),
        ensures
            final(self).wf(),
            final(self).toks@ == old(self).toks@,
            final(self).file == old(self).file,
            old(self).pos <= final(self).pos,
            match r {
                Ok(_) => spec_unary(old(self).toks@, old(self).pos as int) == Ok::<int, Error>(
                    final(self).pos as int,
                ),
                Err(e) => spec_unary(old(self).toks@, old(self).pos as int) == Err::<
                    int,
                    Error,
                >(e),
            },
            match r {
                Ok(e) => expr_wf(e) && old(self).consumed_to(*final(self), e.loc) && unary_fits(
                    e,
                    old(self).toks@,
                    old(self).pos as int,
                    final(self).pos as int,
                ),
                Err(e) => parse_error_wf(e, old(self).toks@),
            },
        decreases self.rem(), 1int,
    {
        if self.peek_kind() == TokenKind::Minus {
            let mloc = self.peek_loc();
            self.bump();
            let sub = self.parse_unary()?;
            proof {
                let t = self.toks@;
                assert(t[old(self).pos as int].loc.span.end <= t[old(self).pos
                    + 1].loc.span.start);
            }
            let loc = Loc {
                file: self.file,
                span: Span { start: mloc.span.start, end: sub.loc.span.end },
            };
            let ghost gsub = sub;
            let res = Expr { kind: ExprKind::Unary(UnOp::Neg, Box::new(sub)), loc };
            proof {
                assert(unary_fits(gsub, self.toks@, old(self).pos + 1, self.pos as int));
                assert(unary_fits(res, self.toks@, old(self).pos as int, self.pos as int));
            }
            Ok(res)
        } else {
            self.parse_primary()
        }
    }

    /// Parses a multiplicative expression: unary expressions joined by `*`
    /// or `/`, left-associative.
    #[verifier::rlimit(100)]
    #[verifier::loop_isolation(false)]
    fn parse_mul(&mut self) -> (r: Result<Expr, Error>)
        requires
            old(self).wf(),
        ensures
            final(self).wf(),
            final(self).toks@ == old(self).toks@,
            final(self).file == old(self).file,
            old(self).pos <= final(self).pos,
            match r {
                Ok(_) => spec_mul(old(self).toks@, old(self).pos as int) == Ok::<int, Error>(
                    final(self).pos as int,
                ),
                Err(e) => spec_mul(old(self).toks@, old(self).pos as int) == Err::<int, Error>(e),
            },
            match r {
                Ok(e) => expr_wf(e) && old(self).consumed_to(*final(self), e.loc) && mul_fits(
                    e,
                    old(self).toks@,
                    old(self).pos as int,
                    final(self).pos as int,
                ),
                Err(e) => parse_error_wf(e, old(self).toks@),
            },
        decreases self.rem(), 2int,
    {
        let ghost p0 = *self;
        let mut l = self.parse_unary()?;
        while self.peek_kind() == TokenKind::Star || self.peek_kind() == TokenKind::Slash
            invariant
                self.wf(),
                self.toks@ == p0.toks@,
                self.file == p0.file,
                expr_wf(l),
                p0.consumed_to(*self, l.loc),
                p0.wf(),
                spec_mul(p0.toks@, p0.pos as int) == spec_mul_tail(p0.toks@, self.pos as int),
                mul_fits(l, p0.toks@, p0.pos as int, self.pos as int),
            decreases self.rem(),
        {
            let op = self.peek_kind();
            self.bump();
            let ghost mid = *self;
            let r = self.parse_unary()?;
            proof {
                let t = self.toks@;
                assert(t[mid.pos - 2].loc.span.end <= t[mid.pos - 1].loc.span.start);
                assert(t[mid.pos - 1].loc.span.end <= t[mid.pos as int].loc.span.start);
            }
            let binop = if op == TokenKind::Star {
                BinOp::Mul
            } else {
                BinOp::Div
            };
            let loc = Loc {
                file: self.file,
                span: Span { start: l.loc.span.start, end: r.loc.span.end },
            };
            let ghost gl = l;
            let ghost gr = r;
            l = Expr { kind: ExprKind::Binary(binop, Box::new(l), Box::new(r)), loc };
            proof {
                let t = self.toks@;
                let i = p0.pos as int;
                let j = self.pos as int;
                let m = mid.pos - 1;
                assert(t[m].kind == (if binop == BinOp::Mul {
                    TokenKind::Star
                } else {
                    TokenKind::Slash
                }));
                assert(i < m && m + 1 < j && mul_fits(gl, t, i, m) && unary_fits(gr, t, m + 1, j));
                assert(mul_fits(l, t, i, j));
            }
        }
        Ok(l)
    }

    /// Parses an expression: multiplicative expressions joined by `+` or
    /// `-`, left-associative; `*` and `/` bind tighter than `+` and `-`.
    #[verifier::rlimit(100)]
    #[verifier::loop_isolation(false)]
    pub fn parse_expr(&mut self) -> (r: Result<Expr, Error>)
        requires
            old(self).wf(),
        ensures
            final(self).wf(),
            final(self).toks@ == old(self).toks@,
            final(self).file == old(self).file,
            old(self).pos <= final(self).pos,
            match r {
                Ok(_) => spec_expr(old(self).toks@, old(self).pos as int) == Ok::<int, Error>(
                    final(self).pos as int,
                ),
                Err(e) => spec_expr(old(self).toks@, old(self).pos as int) == Err::<int, Error>(e),
            },
            match r {
                Ok(e) => expr_wf(e) && old(self).consumed_to(*final(self), e.loc) && expr_fits(
                    e,
                    old(self).toks@,
                    old(self).pos as int,
                    final(self).pos as int,
                ),
                Err(e) => parse_error_wf(e, old(self).toks@),
            },
        decreases self.rem(), 3int,
    {
        let ghost p0 = *self;
        let mut l = self.parse_mul()?;
        while self.peek_kind() == TokenKind::Plus || self.peek_kind() == TokenKind::Minus
            invariant
                self.wf(),
                self.toks@ == p0.toks@,
                self.file == p0.file,
                expr_wf(l),
                p0.consumed_to(*self, l.loc),
                p0.wf(),
                spec_expr(p0.toks@, p0.pos as int) == spec_expr_tail(p0.toks@, self.pos as int),
                expr_fits(l, p0.toks@, p0.pos as int, self.pos as int),
            decreases self.rem(),
        {
            let op = self.peek_kind();
            self.bump();
            let ghost mid = *self;
            let r = self.parse_mul()?;
            proof {
                let t = self.toks@;
                assert(t[mid.pos - 2].loc.span.end <= t[mid.pos - 1].loc.span.start);
                assert(t[mid.pos - 1].loc.span.end <= t[mid.pos as int].loc.span.start);
            }
            let binop = if op == TokenKind::Plus {
                BinOp::Add
            } else {
                BinOp::Sub
            };
            let loc = Loc {
                file: self.file,
                span: Span { start: l.loc.span.start, end: r.loc.span.end },
            };
            let ghost gl = l;
            let ghost gr = r;
            l = Expr { kind: ExprKind::Binary(binop, Box::new(l), Box::new(r)), loc };
            proof {
                let t = self.toks@;
                let i = p0.pos as int;
                let j = self.pos as int;
                let m = mid.pos - 1;
                assert(t[m].kind == (if binop == BinOp::Add {
                    TokenKind::Plus
                } else {
                    TokenKind::Minus
                }));
                assert(i < m && m + 1 < j && expr_fits(gl, t, i, m) && mul_fits(gr, t, m + 1, j));
                assert(expr_fits(l, t, i, j));
            }
        }
        Ok(l)
    }

    /// Parses one statement: `let name = expr;`, `return expr;`, or an
    /// expression statement `expr;`. The statement's location includes its
    /// terminating semicolon.
    #[verifier::rlimit(100)]
    pub fn parse_stmt(&mut self) -> (r: Result<Stmt, Error>)
        requires
            old(self).wf(),
        ensures
            final(self).wf(),
            final(self).toks@ == old(self).toks@,
            final(self).file == old(self).file,
            old(self).pos <= final(self).pos,
            match r {
                Ok(_) => spec_stmt(old(self).toks@, old(self).pos as int) == Ok::<int, Error>(
                    final(self).pos as int,
                ),
                Err(e) => spec_stmt(old(self).toks@, old(self).pos as int) == Err::<int, Error>(e),
            },
            match r {
                Ok(s) => stmt_wf(s) && old(self).consumed_to(*final(self), s.loc) && stmt_fits(
                    s,
                    old(self).toks@,
                    old(self).pos as int,
                    final(self).pos as int,
                ),
                Err(e) => parse_error_wf(e, old(self).toks@),
            },
    {
        let k = self.peek_kind();
        if k == TokenKind::KwLet {
            let lloc = self.peek_loc();
            self.bump();
            let ghost p1 = *self;
            let name = self.parse_name()?;
            let ghost p2 = *self;
            self.expect(TokenKind::Assign)?;
            let ghost p3 = *self;
            let value = self.parse_expr()?;
            let ghost p4 = *self;
            let sloc = self.expect(TokenKind::Semi)?;
            proof {
                let t = self.toks@;
                assert(t[p1.pos - 1].loc.span.end <= t[p1.pos as int].loc.span.start);
                assert(t[p2.pos - 1].loc.span.end <= t[p2.pos as int].loc.span.start);
                assert(t[p3.pos - 1].loc.span.end <= t[p3.pos as int].loc.span.start);
                assert(t[p4.pos - 1].loc.span.end <= t[p4.pos as int].loc.span.start);
            }
            let loc = Loc {
                file: self.file,
                span: Span { start: lloc.span.start, end: sloc.span.end },
            };
            let ghost gname = name;
            let ghost gvalue = value;
            let st = Stmt { kind: StmtKind::Let { name, value }, loc };
            proof {
                let t = self.toks@;
                let i = old(self).pos as int;
                assert(name_fits(gname, t, i + 1));
                assert(expr_fits(gvalue, t, i + 3, self.pos - 1));
                assert(stmt_fits(st, t, i, self.pos as int));
            }
            Ok(st)
        } else if k == TokenKind::KwReturn {
            let rloc = self.peek_loc();
            self.bump();
            let ghost p1 = *self;
            let value = self.parse_expr()?;
            let ghost p2 = *self;
            let sloc = self.expect(TokenKind::Semi)?;
            proof {
                let t = self.toks@;
                assert(t[p1.pos - 1].loc.span.end <= t[p1.pos as int].loc.span.start);
                assert(t[p2.pos - 1].loc.span.end <= t[p2.pos as int].loc.span.start);
            }
            let loc = Loc {
                file: self.file,
                span: Span { start: rloc.span.start, end: sloc.span.end },
            };
            let ghost gvalue = value;
            let st = Stmt { kind: StmtKind::Return(value), loc };
            proof {
                let t = self.toks@;
                let i = old(self).pos as int;
                assert(expr_fits(gvalue, t, i + 1, self.pos - 1));
                assert(stmt_fits(st, t, i, self.pos as int));
            }
            Ok(st)
        } else {
            let value = self.parse_expr()?;
            let ghost p1 = *self;
            let sloc = self.expect(TokenKind::Semi)?;
            proof {
                let t = self.toks@;
                assert(t[p1.pos - 1].loc.span.end <= t[p1.pos as int].loc.span.start);
            }
            let loc = Loc {
                file: self.file,
                span: Span { start: value.loc.span.start, end: sloc.span.end },
            };
            let ghost gvalue = value;
            let st = Stmt { kind: StmtKind::Expr(value), loc };
            proof {
                let t = self.toks@;
                let i = old(self).pos as int;
                assert(expr_fits(gvalue, t, i, self.pos - 1));
                assert(stmt_fits(st, t, i, self.pos as int));
            }
            Ok(st)
        }
    }

    /// Parses a parameter list after its opening parenthesis, up to and
    /// including the closing parenthesis: comma-separated names, with a
    /// trailing comma always accepted. A token that is neither a parameter
    /// name nor `)` raises a syntax error saying so.
    #[verifier::rlimit(100)]
    #[verifier::loop_isolation(false)]
    fn parse_params(&mut self) -> (r: Result<(Vec<Name>, Loc), Error>)
        requires
            old(self).wf(),
        ensures
            final(self).wf(),
            final(self).toks@ == old(self).toks@,
            final(self).file == old(self).file,
            old(self).pos <= final(self).pos,
            match r {
                Ok(_) => spec_params(old(self).toks@, old(self).pos as int) == Ok::<int, Error>(
                    final(self).pos as int,
                ),
                Err(e) => spec_params(old(self).toks@, old(self).pos as int) == Err::<
                    int,
                    Error,
                >(e),
            },
            match r {
                Ok(pr) => {
                    &&& old(self).pos < final(self).pos < old(self).toks@.len()
                    &&& pr.1 == old(self).toks@[final(self).pos - 1].loc
                    &&& old(self).toks@[final(self).pos - 1].kind == TokenKind::RParen
                    &&& names_run_wf(
                        pr.0@,
                        old(self).file,
                        old(self).cur().loc.span.start as int,
                        pr.1.span.start as int,
                    )
                    &&& (params_shape(
                        pr.0@,
                        old(self).toks@,
                        old(self).pos as int,
                        final(self).pos - 1,
                        true,
                    ) || params_shape(
                        pr.0@,
                        old(self).toks@,
                        old(self).pos as int,
                        final(self).pos - 1,
                        false,
                    ))
                },
                Err(e) => parse_error_wf(e, old(self).toks@),
            },
    {
        let ghost p0 = *self;
        let mut params: Vec<Name> = Vec::new();
        let mut done = false;
        let ghost mut gopen = true;
        while !done
            invariant
                self.wf(),
                self.toks@ == p0.toks@,
                self.file == p0.file,
                p0.wf(),
                p0.pos <= self.pos,
                names_run_wf(
                    params@,
                    p0.file,
                    p0.cur().loc.span.start as int,
                    self.cur().loc.span.start as int,
                ),
                done ==> spec_params(p0.toks@, p0.pos as int) == spec_expect(
                    p0.toks@,
                    self.pos as int,
                    TokenKind::RParen,
                ),
                !done ==> spec_params(p0.toks@, p0.pos as int) == spec_params(
                    p0.toks@,
                    self.pos as int,
                ),
                !done ==> gopen,
                params_shape(params@, p0.toks@, p0.pos as int, self.pos as int, gopen),
            decreases self.rem(), (if done { 0int } else { 1int }),
        {
            let k = self.peek_kind();
            if k == TokenKind::RParen {
                done = true;
            } else if k == TokenKind::Ident {
                let ghost pre = *self;
                let n = self.parse_name()?;
                proof {
                    let t = self.toks@;
                    assert(t[pre.pos as int].loc.span.end <= t[pre.pos + 1].loc.span.start);
                    if p0.pos < pre.pos {
                        lemma_stream_spans_ordered(
                            t,
                            p0.file,
                            p0.text_len(),
                            p0.pos as int,
                            pre.pos as int,
                        );
                    }
                    lemma_names_run_push(
                        params@,
                        n,
                        p0.file,
                        p0.cur().loc.span.start as int,
                        pre.cur().loc.span.start as int,
                        self.cur().loc.span.start as int,
                    );
                    lemma_params_shape_snoc(params@, n, p0.toks@, p0.pos as int, pre.pos as int);
                    gopen = false;
                }
                params.push(n);
                if self.peek_kind() == TokenKind::Comma {
                    let ghost prec = *self;
                    self.bump();
                    proof {
                        let t = self.toks@;
                        assert(t[prec.pos as int].loc.span.end <= t[prec.pos
                            + 1].loc.span.start);
                        lemma_names_run_weaken(
                            params@,
                            p0.file,
                            p0.cur().loc.span.start as int,
                            prec.cur().loc.span.start as int,
                            self.cur().loc.span.start as int,
                        );
                        lemma_params_shape_comma(params@, p0.toks@, p0.pos as int, prec.pos as int);
                        gopen = true;
                    }
                } else {
                    done = true;
                }
            } else if k == TokenKind::Eof {
                proof {
                    assert(self.pos == self.toks@.len() - 1);
                }
                return Err(Error::UnexpectedEndOfInput { loc: self.peek_loc() });
            } else {
                return Err(Error::SyntaxError {
                    expected: Expected::ParamOrCloseParen,
                    found: k,
                    loc: self.peek_loc(),
                });
            }
        }
        let rp = self.expect(TokenKind::RParen)?;
        Ok((params, rp))
    }

    /// Parses a brace-delimited block of statements. The block's location
    /// includes both braces.
    #[verifier::rlimit(100)]
    #[verifier::loop_isolation(false)]
    pub fn parse_block(&mut self) -> (r: Result<Block, Error>)
        requires
            old(self).wf(),
        ensures
            final(self).wf(),
            final(self).toks@ == old(self).toks@,
            final(self).file == old(self).file,
            old(self).pos <= final(self).pos,
            match r {
                Ok(_) => spec_block(old(self).toks@, old(self).pos as int) == Ok::<int, Error>(
                    final(self).pos as int,
                ),
                Err(e) => spec_block(old(self).toks@, old(self).pos as int) == Err::<
                    int,
                    Error,
                >(e),
            },
            match r {
                Ok(b) => block_wf(b) && old(self).consumed_to(*final(self), b.loc) && block_fits(
                    b,
                    old(self).toks@,
                    old(self).pos as int,
                    final(self).pos as int,
                ),
                Err(e) => parse_error_wf(e, old(self).toks@),
            },
    {
        let ghost p0 = *self;
        let lb = self.expect(TokenKind::LBrace)?;
        let mut stmts: Vec<Stmt> = Vec::new();
        while self.peek_kind() != TokenKind::RBrace && self.peek_kind() != TokenKind::Eof
            invariant
                self.wf(),
                self.toks@ == p0.toks@,
                self.file == p0.file,
                p0.wf(),
                p0.pos < self.pos,
                lb == p0.cur().loc,
                stmts_run_wf(
                    stmts@,
                    p0.file,
                    lb.span.end as int,
                    self.cur().loc.span.start as int,
                ),
                spec_block(p0.toks@, p0.pos as int) == spec_block_tail(p0.toks@, self.pos as int),
                stmts_fit(stmts@, p0.toks@, p0.pos + 1, self.pos as int),
            decreases self.rem(),
        {
            let ghost pre = *self;
            let s = self.parse_stmt()?;
            proof {
                let t = self.toks@;
                assert(t[self.pos - 1].loc.span.end <= t[self.pos as int].loc.span.start);
                lemma_stream_spans_ordered(
                    t,
                    p0.file,
                    p0.text_len(),
                    p0.pos as int,
                    pre.pos as int,
                );
                lemma_stmts_run_push(
                    stmts@,
                    s,
                    p0.file,
                    lb.span.end as int,
                    pre.cur().loc.span.start as int,
                    self.cur().loc.span.start as int,
                );
                lemma_stmts_fit_snoc(
                    stmts@,
                    s,
                    p0.toks@,
                    p0.pos + 1,
                    pre.pos as int,
                    self.pos as int,
                );
            }
            stmts.push(s);
        }
        let ghost pr = *self;
        let rb = self.expect(TokenKind::RBrace)?;
        proof {
            let t = self.toks@;
            lemma_stream_spans_ordered(t, p0.file, p0.text_len(), p0.pos as int, pr.pos as int);
        }
        let loc = Loc { file: self.file, span: Span { start: lb.span.start, end: rb.span.end } };
        let ghost gstmts = stmts@;
        let b = Block { stmts, loc };
        proof {
            assert(stmts_fit(gstmts, self.toks@, p0.pos + 1, self.pos - 1));
            assert(block_fits(b, self.toks@, p0.pos as int, self.pos as int));
        }
        Ok(b)
    }

    /// Parses one top-level item: a function declaration
    /// `fn name(params) { body }`.
    #[verifier::rlimit(100)]
    pub fn parse_item(&mut self) -> (r: Result<Item, Error>)
        requires
            old(self).wf(),
        ensures
            final(self).wf(),
            final(self).toks@ == old(self).toks@,
            final(self).file == old(self).file,
            old(self).pos <= final(self).pos,
            match r {
                Ok(_) => spec_item(old(self).toks@, old(self).pos as int) == Ok::<int, Error>(
                    final(self).pos as int,
                ),
                Err(e) => spec_item(old(self).toks@, old(self).pos as int) == Err::<int, Error>(e),
            },
            match r {
                Ok(it) => item_wf(it) && old(self).consumed_to(*final(self), it.loc) && item_fits(
                    it,
                    old(self).toks@,
                    old(self).pos as int,
                    final(self).pos as int,
                ),
                Err(e) => parse_error_wf(e, old(self).toks@),
            },
    {
        let floc = self.expect(TokenKind::KwFn)?;
        let ghost p1 = *self;
        let name = self.parse_name()?;
        let ghost p2 = *self;
        let lp = self.expect(TokenKind::LParen)?;
        let ghost p3 = *self;
        let (params, rp) = self.parse_params()?;
        let ghost p4 = *self;
        let body = self.parse_block()?;
        let loc = Loc {
            file: self.file,
            span: Span { start: floc.span.start, end: body.loc.span.end },
        };
        proof {
            let t = self.toks@;
            let f = old(self).file;
            let n = old(self).text_len();
            assert(t[p1.pos - 1].loc.span.end <= t[p1.pos as int].loc.span.start);
            assert(t[p2.pos - 1].loc.span.end <= t[p2.pos as int].loc.span.start);
            assert(t[p3.pos - 1].loc.span.end <= t[p3.pos as int].loc.span.start);
            assert(t[p4.pos - 1].loc.span.end <= t[p4.pos as int].loc.span.start);
            lemma_stream_spans_ordered(t, f, n, p1.pos as int, p3.pos as int);
            lemma_stream_spans_ordered(t, f, n, p1.pos as int, p4.pos as int);
            lemma_stream_spans_ordered(t, f, n, p1.pos - 1, p3.pos as int);
            lemma_stream_spans_ordered(t, f, n, p1.pos - 1, p4.pos as int);
            assert forall|i: int| 0 <= i < params@.len() implies {
                &&& name_wf(#[trigger] params@[i])
                &&& loc_within(params@[i].loc, loc)
                &&& name.loc.span.end <= params@[i].loc.span.start
                &&& params@[i].loc.span.end <= body.loc.span.start
            } by {
                assert(t[p3.pos as int].loc.span.start <= params@[i].loc.span.start);
                assert(params@[i].loc.span.end <= rp.span.start);
            }
        }
        let ghost gname = name;
        let ghost gparams = params@;
        let ghost gbody = body;
        let it = Item { kind: ItemKind::Fn { name, params, body }, loc };
        proof {
            assert(item_wf(it));
            let t = self.toks@;
            let i = old(self).pos as int;
            let j = self.pos as int;
            let m = p4.pos - 1;
            assert(name_fits(gname, t, i + 1));
            assert(block_fits(gbody, t, m + 1, j));
            assert(i + 3 <= m && m + 1 < j && t[m].kind == TokenKind::RParen
                && (params_shape(gparams, t, i + 3, m, true) || params_shape(
                gparams,
                t,
                i + 3,
                m,
                false,
            )));
            assert(item_fits(it, t, i, j));
        }
        Ok(it)
    }
}

/// Parses a whole token stream into a module: a sequence of top-level
/// items ending at the end-of-input token.
///
/// Parsing succeeds exactly when the grammar accepts the stream
/// (`spec_items`), and then the items are the trees the tokens spell out
/// (`items_fit`) and the module is well formed (`module_wf`): every child's
/// span is contained in its parent's and sibling spans do not overlap. The
/// module's own location covers the whole text, `[0, length)`. An empty
/// stream (the end-of-input token alone) yields a module with an empty item
/// sequence, and only such a stream does. On failure the error is exactly
/// the first error the grammar prescribes — its expected class, the token
/// found, and that token's location (`spec_items`, `parse_error_wf`).
#[verifier::rlimit(100)]
#[verifier::loop_isolation(false)]
pub fn parse_module(toks: Vec<Token>, file: u32) -> (r: Result<Module, Error>)
    requires
        stream_wf(toks@, file, toks@[toks@.len() - 1].loc.span.end as int),
    ensures
        match r {
            Ok(m) => {
                &&& module_wf(m)
                &&& m.file == file
                &&& m.loc.span.start == 0
                &&& m.loc.span.end == toks@[toks@.len() - 1].loc.span.end
                &&& (m.items@.len() == 0 <==> toks@[0].kind == TokenKind::Eof)
                &&& spec_items(toks@, 0) == Ok::<int, Error>(toks@.len() - 1)
                &&& items_fit(m.items@, toks@, 0, toks@.len() - 1)
            },
            Err(e) => parse_error_wf(e, toks@) && spec_items(toks@, 0) == Err::<int, Error>(e),
        },
{
    let ghost toks0 = toks@;
    let mut p = Parser::new(toks, file);
    let ghost pstart = p;
    let mut items: Vec<Item> = Vec::new();
    while p.peek_kind() != TokenKind::Eof
        invariant
            p.wf(),
            p.toks@ == toks0,
            p.file == file,
            pstart.wf(),
            pstart.pos == 0,
            pstart.toks@ == toks0,
            pstart.file == file,
            items@.len() == 0 ==> p.pos == 0,
            items@.len() > 0 ==> p.pos > 0,
            items@.len() > 0 ==> toks0[0].kind != TokenKind::Eof,
            items_run_wf(items@, file, 0, p.cur().loc.span.start as int),
            spec_items(toks0, 0) == spec_items(toks0, p.pos as int),
            items_fit(items@, toks0, 0, p.pos as int),
        decreases p.rem(),
    {
        let k = p.peek_kind();
        if k == TokenKind::KwFn {
            let ghost pre = p;
            let it = match p.parse_item() {
                Ok(it) => it,
                Err(e) => {
                    return Err(e);
                },
            };
            proof {
                let t = p.toks@;
                assert(t[p.pos - 1].loc.span.end <= t[p.pos as int].loc.span.start);
                if pre.pos < p.pos {
                    lemma_stream_spans_ordered(
                        t,
                        file,
                        pstart.text_len(),
                        pre.pos as int,
                        p.pos as int,
                    );
                }
                lemma_items_run_push(
                    items@,
                    it,
                    file,
                    0,
                    pre.cur().loc.span.start as int,
                    p.cur().loc.span.start as int,
                );
                lemma_items_fit_snoc(items@, it, toks0, 0, pre.pos as int, p.pos as int);
            }
            items.push(it);
        } else {
            return Err(Error::SyntaxError { expected: Expected::ItemStart, found: k, loc: p.peek_loc() });
        }
    }
    let eloc = p.peek_loc();
    proof {
        assert(p.pos == p.toks@.len() - 1);
    }
    let loc = Loc { file, span: Span { start: 0, end: eloc.span.end } };
    Ok(Module { file, items, loc })
}

} // verus!
