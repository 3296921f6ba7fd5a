//! The abstract syntax tree: immutable, location-annotated nodes.
//!
//! Well-formedness (`module_wf` and the predicates under it) states the span
//! discipline of the tree: every node's span is well formed, each child's
//! span is fully contained in its parent's, and sibling spans do not overlap
//! and appear in source order.

use vstd::prelude::*;
use crate::loc::Loc;

verus! {

/// A binary operator.
#[derive(Clone, Copy, Debug, PartialEq, Eq, Structural)]
pub enum BinOp {
    /// Addition, `+`.
    Add,
    /// Subtraction, `-`.
    Sub,
    /// Multiplication, `*`.
    Mul,
    /// Division, `/`.
    Div,
}

/// A unary operator.
#[derive(Clone, Copy, Debug, PartialEq, Eq, Structural)]
pub enum UnOp {
    /// Arithmetic negation, `-`.
    Neg,
}

/// An expression node.
#[derive(Debug)]
pub struct Expr {
    /// The syntactic form of the expression.
    pub kind: ExprKind,
    /// The source extent of the expression.
    pub loc: Loc,
}

/// The syntactic forms of expressions.
#[derive(Debug)]
pub enum ExprKind {
    /// An integer literal and its value.
    Int(u64),
    /// A string literal and its decoded bytes.
    Str(Vec<u8>),
    /// A reference to a name.
    Var(Vec<u8>),
    /// A unary operation applied to an operand.
    Unary(UnOp, Box<Expr>),
    /// A binary operation applied to a left and a right operand.
    Binary(BinOp, Box<Expr>, Box<Expr>),
}

/// A name together with its source extent.
#[derive(Debug)]
pub struct Name {
    /// The bytes of the name.
    pub text: Vec<u8>,
    /// The source extent of the name.
    pub loc: Loc,
}

/// A statement node.
#[derive(Debug)]
pub struct Stmt {
    /// The syntactic form of the statement.
    pub kind: StmtKind,
    /// The source extent of the statement, including its terminator.
    pub loc: Loc,
}

/// The syntactic forms of statements.
#[derive(Debug)]
pub enum StmtKind {
    /// A binding: `let name = value;`.
    Let {
        /// The bound name.
        name: Name,
        /// The bound value.
        value: Expr,
    },
    /// A return: `return value;`.
    Return(Expr),
    /// An expression evaluated for effect: `value;`.
    Expr(Expr),
}

/// A brace-delimited block of statements.
#[derive(Debug)]
pub struct Block {
    /// The statements of the block, in source order.
    pub stmts: Vec<Stmt>,
    /// The source extent of the block, including both braces.
    pub loc: Loc,
}

/// A top-level item node.
#[derive(Debug)]
pub struct Item {
    /// The syntactic form of the item.
    pub kind: ItemKind,
    /// The source extent of the item.
    pub loc: Loc,
}

/// The syntactic forms of top-level items.
#[derive(Debug)]
pub enum ItemKind {
    /// A function: `fn name(params) { body }`.
    Fn {
        /// The function's name.
        name: Name,
        /// The parameter names, in source order.
        params: Vec<Name>,
        /// The function's body.
        body: Block,
    },
}

/// The root of the tree: the ordered items of one source file.
#[derive(Debug)]
pub struct Module {
    /// The identity of the file the module was parsed from.
    pub file: u32,
    /// The top-level items, in source order.
    pub items: Vec<Item>,
    /// The source extent of the module: the whole file.
    pub loc: Loc,
}

/// Containment of a child's location in its parent's: same file, and the
/// child's span inside the parent's.
pub open spec fn loc_within(inner: Loc, outer: Loc) -> bool {
    &&& inner.file == outer.file
    &&& outer.span.start <= inner.span.start
    &&& inner.span.end <= outer.span.end
}

/// Well-formedness of a name node.
pub open spec fn name_wf(n: Name) -> bool {
    n.loc.span.start <= n.loc.span.end
}

/// Well-formedness of an expression: spans well formed, children contained
/// in their parent, and operand spans ordered without overlap.
pub open spec fn expr_wf(e: Expr) -> bool
    decreases e,
{
    &&& e.loc.span.start <= e.loc.span.end
    &&& match e.kind {
        ExprKind::Int(_) => true,
        ExprKind::Str(_) => true,
        ExprKind::Var(_) => true,
        ExprKind::Unary(_, sub) => expr_wf(*sub) && loc_within(sub.loc, e.loc),
        ExprKind::Binary(_, l, r) => {
            &&& expr_wf(*l)
            &&& expr_wf(*r)
            &&& loc_within(l.loc, e.loc)
            &&& loc_within(r.loc, e.loc)
            &&& l.loc.span.end <= r.loc.span.start
        },
    }
}

/// Well-formedness of a statement.
pub open spec fn stmt_wf(s: Stmt) -> bool {
    &&& s.loc.span.start <= s.loc.span.end
    &&& match s.kind {
        StmtKind::Let { name, value } => {
            &&& name_wf(name)
            &&& loc_within(name.loc, s.loc)
            &&& expr_wf(value)
            &&& loc_within(value.loc, s.loc)
            &&& name.loc.span.end <= value.loc.span.start
        },
        StmtKind::Return(value) => expr_wf(value) && loc_within(value.loc, s.loc),
        StmtKind::Expr(value) => expr_wf(value) && loc_within(value.loc, s.loc),
    }
}

/// Well-formedness of a block: every statement well formed and contained,
/// and consecutive statement spans disjoint and in source order.
pub open spec fn block_wf(b: Block) -> bool {
    &&& b.loc.span.start <= b.loc.span.end
    &&& forall|i: int| 0 <= i < b.stmts@.len() ==> stmt_wf(#[trigger] b.stmts@[i])
        && loc_within(b.stmts@[i].loc, b.loc)
    &&& forall|i: int, j: int| #![trigger b.stmts@[i], b.stmts@[j]] 0 <= i && j == i + 1 && j
        < b.stmts@.len() ==> b.stmts@[i].loc.span.end <= b.stmts@[j].loc.span.start
}

/// Well-formedness of an item: name, parameters and body well formed and
/// contained, with all sibling spans disjoint and in source order.
pub open spec fn item_wf(it: Item) -> bool {
    &&& it.loc.span.start <= it.loc.span.end
    &&& match it.kind {
        ItemKind::Fn { name, params, body } => {
            &&& name_wf(name)
            &&& loc_within(name.loc, it.loc)
            &&& forall|i: int| 0 <= i < params@.len() ==> name_wf(#[trigger] params@[i])
                && loc_within(params@[i].loc, it.loc)
                && name.loc.span.end <= params@[i].loc.span.start
                && params@[i].loc.span.end <= body.loc.span.start
            &&& forall|i: int, j: int| #![trigger params@[i], params@[j]] 0 <= i && j == i + 1
                && j < params@.len() ==> params@[i].loc.span.end <= params@[j].loc.span.start
            &&& block_wf(body)
            &&& loc_within(body.loc, it.loc)
            &&& name.loc.span.end <= body.loc.span.start
        },
    }
}

/// Well-formedness of a module: every item well formed and contained in the
/// module's span, and consecutive item spans disjoint and in source order.
pub open spec fn module_wf(m: Module) -> bool {
    &&& m.loc.file == m.file
    &&& m.loc.span.start <= m.loc.span.end
    &&& forall|i: int| 0 <= i < m.items@.len() ==> item_wf(#[trigger] m.items@[i])
        && loc_within(m.items@[i].loc, m.loc)
    &&& forall|i: int, j: int| #![trigger m.items@[i], m.items@[j]] 0 <= i && j == i + 1 && j
        < m.items@.len() ==> m.items@[i].loc.span.end <= m.items@[j].loc.span.start
}

/// Law: in a well-formed module no two sibling items overlap — any earlier
/// item's span ends no later than any later item's span starts.
pub proof fn lemma_module_items_disjoint(m: Module, i: int, j: int)
    requires
        module_wf(m),
        0 <= i < j < m.items@.len(),
    ensures
        m.items@[i].loc.span.end <= m.items@[j].loc.span.start,
    decreases j - i,
{
    if j == i + 1 {
        assert(m.items@[i].loc.span.end <= m.items@[j].loc.span.start);
    } else {
        lemma_module_items_disjoint(m, i + 1, j);
        assert(m.items@[i].loc.span.end <= m.items@[i + 1].loc.span.start);
        assert(item_wf(m.items@[i + 1]));
    }
}

/// Law: in a well-formed function item no two sibling parameters overlap —
/// any earlier parameter's span ends no later than any later one's starts.
pub proof fn lemma_item_params_disjoint(it: Item, i: int, j: int)
    requires
        item_wf(it),
        it.kind matches ItemKind::Fn { params, .. } && 0 <= i < j < params@.len(),
    ensures
        it.kind matches ItemKind::Fn { params, .. } ==> params@[i].loc.span.end
            <= params@[j].loc.span.start,
    decreases j - i,
{
    let ItemKind::Fn { name, params, body } = it.kind;
    if j == i + 1 {
        assert(params@[i].loc.span.end <= params@[j].loc.span.start);
    } else {
        lemma_item_params_disjoint(it, i + 1, j);
        assert(params@[i].loc.span.end <= params@[i + 1].loc.span.start);
        assert(name_wf(params@[i + 1]));
    }
}

/// Law: in a well-formed block no two sibling statements overlap — any
/// earlier statement's span ends no later than any later one's starts.
pub proof fn lemma_block_stmts_disjoint(b: Block, i: int, j: int)
    requires
        block_wf(b),
        0 <= i < j < b.stmts@.len(),
    ensures
        b.stmts@[i].loc.span.end <= b.stmts@[j].loc.span.start,
    decreases j - i,
{
    if j == i + 1 {
        assert(b.stmts@[i].loc.span.end <= b.stmts@[j].loc.span.start);
    } else {
        lemma_block_stmts_disjoint(b, i + 1, j);
        assert(b.stmts@[i].loc.span.end <= b.stmts@[i + 1].loc.span.start);
        assert(stmt_wf(b.stmts@[i + 1]));
    }
}

} // verus!
