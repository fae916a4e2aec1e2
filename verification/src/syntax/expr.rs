//! Expressions: the interned node representation and the typed handles
//! that refer to it.

use vstd::prelude::*;
use vstd::std_specs::cmp::PartialEqSpecImpl;
use vstd::std_specs::convert::FromSpecImpl;

use std::marker::PhantomData;

use crate::num::QQ;

use super::symbol::Symbol;
use super::types::{TypArith, TypFo};

verus! {

// Typing of nodes is done by the context, which has access to the symbol
// table needed to resolve the result type of `App` nodes.

// ---------------------------------------------------------------------------
// Internal representation
// ---------------------------------------------------------------------------

/// Raw interned expression ID (index into the context arena).
#[derive(Clone, Copy, PartialEq, Eq, Structural, Hash, Debug)]
pub struct ExprId(pub(crate) u32);

impl View for ExprId {
    type V = u32;

    closed spec fn view(&self) -> u32 {
        self.0
    }
}

impl ExprId {
    /// The id of arena slot `index`.
    pub(crate) fn new(index: u32) -> (r: Self)
        ensures
            r@ == index,
    {
        ExprId(index)
    }

    /// The arena slot of this id.
    pub(crate) fn index(self) -> (r: u32)
        ensures
            r == self@,
    {
        self.0
    }
}

/// An id is determined by its index.
pub proof fn lemma_expr_id_eq(a: ExprId, b: ExprId)
    ensures
        a@ == b@ <==> a == b,
{
}

/// The indices of a list of ids.
pub open spec fn ids_view(s: Seq<ExprId>) -> Seq<u32> {
    s.map_values(|e: ExprId| e@)
}

/// Internal s-expression node stored in the arena.
///
/// All child references are `ExprId`s — this is the hash-consed representation.
#[derive(PartialEq, Eq, Hash, Debug)]
pub enum SExprNode {
    // --- Arithmetic ---
    Real(QQ),
    Add(Vec<ExprId>),
    Mul(Vec<ExprId>),
    Div(ExprId, ExprId),
    Mod(ExprId, ExprId),
    Floor(ExprId),
    Neg(ExprId),

    // --- Variables & applications ---
    Var(u32, TypFo),
    App(Symbol, Vec<ExprId>),

    // --- Array ---
    Select(ExprId, ExprId),
    Store(ExprId, ExprId, ExprId),

    // --- Boolean ---
    True,
    False,
    And(Vec<ExprId>),
    Or(Vec<ExprId>),
    Not(ExprId),
    Eq(ExprId, ExprId),
    Leq(ExprId, ExprId),
    Lt(ExprId, ExprId),
    ArrEq(ExprId, ExprId),
    Exists(String, TypFo, ExprId),
    Forall(String, TypFo, ExprId),

    // --- Conditional ---
    Ite(ExprId, ExprId, ExprId),
}

/// The mathematical content of a node: what its derived equality compares.
pub enum NodeKey {
    // --- Arithmetic ---
    Real(int, int),
    Add(Seq<u32>),
    Mul(Seq<u32>),
    Div(u32, u32),
    Mod(u32, u32),
    Floor(u32),
    Neg(u32),

    // --- Variables & applications ---
    Var(u32, TypFo),
    App(u32, Seq<u32>),

    // --- Array ---
    Select(u32, u32),
    Store(u32, u32, u32),

    // --- Boolean ---
    True,
    False,
    And(Seq<u32>),
    Or(Seq<u32>),
    Not(u32),
    Eq(u32, u32),
    Leq(u32, u32),
    Lt(u32, u32),
    ArrEq(u32, u32),
    Exists(Seq<char>, TypFo, u32),
    Forall(Seq<char>, TypFo, u32),

    // --- Conditional ---
    Ite(u32, u32, u32),
}

/// The mathematical content of a node.
pub open spec fn node_key(n: SExprNode) -> NodeKey {
    match n {
        SExprNode::Real(x0) => NodeKey::Real(x0@.0, x0@.1),
        SExprNode::Add(x0) => NodeKey::Add(ids_view(x0@)),
        SExprNode::Mul(x0) => NodeKey::Mul(ids_view(x0@)),
        SExprNode::Div(x0, x1) => NodeKey::Div(x0@, x1@),
        SExprNode::Mod(x0, x1) => NodeKey::Mod(x0@, x1@),
        SExprNode::Floor(x0) => NodeKey::Floor(x0@),
        SExprNode::Neg(x0) => NodeKey::Neg(x0@),
        SExprNode::Var(x0, x1) => NodeKey::Var(x0, x1),
        SExprNode::App(x0, x1) => NodeKey::App(x0@, ids_view(x1@)),
        SExprNode::Select(x0, x1) => NodeKey::Select(x0@, x1@),
        SExprNode::Store(x0, x1, x2) => NodeKey::Store(x0@, x1@, x2@),
        SExprNode::True => NodeKey::True,
        SExprNode::False => NodeKey::False,
        SExprNode::And(x0) => NodeKey::And(ids_view(x0@)),
        SExprNode::Or(x0) => NodeKey::Or(ids_view(x0@)),
        SExprNode::Not(x0) => NodeKey::Not(x0@),
        SExprNode::Eq(x0, x1) => NodeKey::Eq(x0@, x1@),
        SExprNode::Leq(x0, x1) => NodeKey::Leq(x0@, x1@),
        SExprNode::Lt(x0, x1) => NodeKey::Lt(x0@, x1@),
        SExprNode::ArrEq(x0, x1) => NodeKey::ArrEq(x0@, x1@),
        SExprNode::Exists(x0, x1, x2) => NodeKey::Exists(x0@, x1, x2@),
        SExprNode::Forall(x0, x1, x2) => NodeKey::Forall(x0@, x1, x2@),
        SExprNode::Ite(x0, x1, x2) => NodeKey::Ite(x0@, x1@, x2@),
    }
}

/// A copy of a list of ids.
pub(crate) fn copy_ids(v: &Vec<ExprId>) -> (r: Vec<ExprId>)
    ensures
        r@ == v@,
{
    let mut r: Vec<ExprId> = Vec::new();
    let mut k: usize = 0;
    while k < v.len()
        invariant
            k <= v@.len(),
            r@ == v@.subrange(0, k as int),
        decreases v@.len() - k,
    {
        r.push(v[k]);
        k = k + 1;
    }
    proof {
        assert(r@ =~= v@);
    }
    r
}

impl Clone for SExprNode {
    fn clone(&self) -> (r: Self)
        ensures
            node_key(r) == node_key(*self),
    {
        match self {
            SExprNode::Real(x0) => SExprNode::Real(x0.clone()),
            SExprNode::Add(x0) => SExprNode::Add(copy_ids(x0)),
            SExprNode::Mul(x0) => SExprNode::Mul(copy_ids(x0)),
            SExprNode::Div(x0, x1) => SExprNode::Div(*x0, *x1),
            SExprNode::Mod(x0, x1) => SExprNode::Mod(*x0, *x1),
            SExprNode::Floor(x0) => SExprNode::Floor(*x0),
            SExprNode::Neg(x0) => SExprNode::Neg(*x0),
            SExprNode::Var(x0, x1) => SExprNode::Var(*x0, *x1),
            SExprNode::App(x0, x1) => SExprNode::App(*x0, copy_ids(x1)),
            SExprNode::Select(x0, x1) => SExprNode::Select(*x0, *x1),
            SExprNode::Store(x0, x1, x2) => SExprNode::Store(*x0, *x1, *x2),
            SExprNode::True => SExprNode::True,
            SExprNode::False => SExprNode::False,
            SExprNode::And(x0) => SExprNode::And(copy_ids(x0)),
            SExprNode::Or(x0) => SExprNode::Or(copy_ids(x0)),
            SExprNode::Not(x0) => SExprNode::Not(*x0),
            SExprNode::Eq(x0, x1) => SExprNode::Eq(*x0, *x1),
            SExprNode::Leq(x0, x1) => SExprNode::Leq(*x0, *x1),
            SExprNode::Lt(x0, x1) => SExprNode::Lt(*x0, *x1),
            SExprNode::ArrEq(x0, x1) => SExprNode::ArrEq(*x0, *x1),
            SExprNode::Exists(x0, x1, x2) => SExprNode::Exists(x0.clone(), *x1, *x2),
            SExprNode::Forall(x0, x1, x2) => SExprNode::Forall(x0.clone(), *x1, *x2),
            SExprNode::Ite(x0, x1, x2) => SExprNode::Ite(*x0, *x1, *x2),
        }
    }
}

// ---------------------------------------------------------------------------
// Public typed handles
// ---------------------------------------------------------------------------

/// An arithmetic term (integer or real sort).
///
/// `C` is a phantom type marker — no bounds on `C` are required for any trait impls.
#[derive(Debug, Hash)]
pub struct ArithTerm<C> {
    pub(crate) id: ExprId,
    pub(crate) _phantom: PhantomData<C>,
}

impl<C> View for ArithTerm<C> {
    type V = u32;

    /// The id of the handle's node.
    closed spec fn view(&self) -> u32 {
        self.id@
    }
}

impl<C> ArithTerm<C> {
    /// The handle of node `id`.
    pub(crate) fn of_id(id: ExprId) -> (r: Self)
        ensures
            r@ == id@,
    {
        ArithTerm { id, _phantom: PhantomData }
    }

    /// The id of the handle's node.
    pub(crate) fn node_id(&self) -> (r: ExprId)
        ensures
            r@ == self@,
    {
        self.id
    }
}

impl<C> Clone for ArithTerm<C> {
    fn clone(&self) -> (r: Self)
        ensures
            r@ == self@,
    {
        *self
    }
}

impl<C> Copy for ArithTerm<C> {

}

impl<C> PartialEq for ArithTerm<C> {
    fn eq(&self, other: &Self) -> (r: bool) {
        self.id == other.id
    }
}

impl<C> PartialEqSpecImpl for ArithTerm<C> {
    open spec fn obeys_eq_spec() -> bool {
        true
    }

    open spec fn eq_spec(&self, other: &Self) -> bool {
        self@ == other@
    }
}

impl<C> Eq for ArithTerm<C> {

}

/// An array term.
///
/// `C` is a phantom type marker — no bounds on `C` are required for any trait impls.
#[derive(Debug, Hash)]
pub struct ArrTerm<C> {
    pub(crate) id: ExprId,
    pub(crate) _phantom: PhantomData<C>,
}

impl<C> View for ArrTerm<C> {
    type V = u32;

    /// The id of the handle's node.
    closed spec fn view(&self) -> u32 {
        self.id@
    }
}

impl<C> ArrTerm<C> {
    /// The handle of node `id`.
    pub(crate) fn of_id(id: ExprId) -> (r: Self)
        ensures
            r@ == id@,
    {
        ArrTerm { id, _phantom: PhantomData }
    }

    /// The id of the handle's node.
    pub(crate) fn node_id(&self) -> (r: ExprId)
        ensures
            r@ == self@,
    {
        self.id
    }
}

impl<C> Clone for ArrTerm<C> {
    fn clone(&self) -> (r: Self)
        ensures
            r@ == self@,
    {
        *self
    }
}

impl<C> Copy for ArrTerm<C> {

}

impl<C> PartialEq for ArrTerm<C> {
    fn eq(&self, other: &Self) -> (r: bool) {
        self.id == other.id
    }
}

impl<C> PartialEqSpecImpl for ArrTerm<C> {
    open spec fn obeys_eq_spec() -> bool {
        true
    }

    open spec fn eq_spec(&self, other: &Self) -> bool {
        self@ == other@
    }
}

impl<C> Eq for ArrTerm<C> {

}

/// A boolean formula.
///
/// `C` is a phantom type marker — no bounds on `C` are required for any trait impls.
#[derive(Debug, Hash)]
pub struct Formula<C> {
    pub(crate) id: ExprId,
    pub(crate) _phantom: PhantomData<C>,
}

impl<C> View for Formula<C> {
    type V = u32;

    /// The id of the handle's node.
    closed spec fn view(&self) -> u32 {
        self.id@
    }
}

impl<C> Formula<C> {
    /// The handle of node `id`.
    pub(crate) fn of_id(id: ExprId) -> (r: Self)
        ensures
            r@ == id@,
    {
        Formula { id, _phantom: PhantomData }
    }

    /// The id of the handle's node.
    pub(crate) fn node_id(&self) -> (r: ExprId)
        ensures
            r@ == self@,
    {
        self.id
    }
}

impl<C> Clone for Formula<C> {
    fn clone(&self) -> (r: Self)
        ensures
            r@ == self@,
    {
        *self
    }
}

impl<C> Copy for Formula<C> {

}

impl<C> PartialEq for Formula<C> {
    fn eq(&self, other: &Self) -> (r: bool) {
        self.id == other.id
    }
}

impl<C> PartialEqSpecImpl for Formula<C> {
    open spec fn obeys_eq_spec() -> bool {
        true
    }

    open spec fn eq_spec(&self, other: &Self) -> bool {
        self@ == other@
    }
}

impl<C> Eq for Formula<C> {

}

/// A generic term (either arithmetic or array).
#[derive(Debug, Hash)]
pub enum Term<C> {
    Arith(ArithTerm<C>),
    Arr(ArrTerm<C>),
}

/// Any expression (term or formula).
#[derive(Debug, Hash)]
pub enum Expr<C> {
    ArithTerm(ArithTerm<C>),
    ArrTerm(ArrTerm<C>),
    Formula(Formula<C>),
}

impl<C> Clone for Term<C> {
    fn clone(&self) -> (r: Self)
        ensures
            r == *self,
    {
        *self
    }
}

impl<C> Copy for Term<C> {

}

impl<C> PartialEq for Term<C> {
    fn eq(&self, other: &Self) -> (r: bool) {
        match (self, other) {
            (Term::Arith(a), Term::Arith(b)) => a.id == b.id,
            (Term::Arr(a), Term::Arr(b)) => a.id == b.id,
            _ => false,
        }
    }
}

impl<C> PartialEqSpecImpl for Term<C> {
    open spec fn obeys_eq_spec() -> bool {
        true
    }

    open spec fn eq_spec(&self, other: &Self) -> bool {
        match (*self, *other) {
            (Term::Arith(a), Term::Arith(b)) => a@ == b@,
            (Term::Arr(a), Term::Arr(b)) => a@ == b@,
            _ => false,
        }
    }
}

impl<C> Eq for Term<C> {

}

impl<C> Clone for Expr<C> {
    fn clone(&self) -> (r: Self)
        ensures
            r == *self,
    {
        *self
    }
}

impl<C> Copy for Expr<C> {

}

impl<C> PartialEq for Expr<C> {
    fn eq(&self, other: &Self) -> (r: bool) {
        match (self, other) {
            (Expr::ArithTerm(a), Expr::ArithTerm(b)) => a.id == b.id,
            (Expr::ArrTerm(a), Expr::ArrTerm(b)) => a.id == b.id,
            (Expr::Formula(a), Expr::Formula(b)) => a.id == b.id,
            _ => false,
        }
    }
}

impl<C> PartialEqSpecImpl for Expr<C> {
    open spec fn obeys_eq_spec() -> bool {
        true
    }

    open spec fn eq_spec(&self, other: &Self) -> bool {
        match (*self, *other) {
            (Expr::ArithTerm(a), Expr::ArithTerm(b)) => a@ == b@,
            (Expr::ArrTerm(a), Expr::ArrTerm(b)) => a@ == b@,
            (Expr::Formula(a), Expr::Formula(b)) => a@ == b@,
            _ => false,
        }
    }
}

impl<C> Eq for Expr<C> {

}

impl<C> From<ArithTerm<C>> for Expr<C> {
    fn from(t: ArithTerm<C>) -> (r: Self) {
        Expr::ArithTerm(t)
    }
}

impl<C> FromSpecImpl<ArithTerm<C>> for Expr<C> {
    open spec fn obeys_from_spec() -> bool {
        true
    }

    open spec fn from_spec(v: ArithTerm<C>) -> Expr<C> {
        Expr::ArithTerm(v)
    }
}

impl<C> From<ArrTerm<C>> for Expr<C> {
    fn from(t: ArrTerm<C>) -> (r: Self) {
        Expr::ArrTerm(t)
    }
}

impl<C> FromSpecImpl<ArrTerm<C>> for Expr<C> {
    open spec fn obeys_from_spec() -> bool {
        true
    }

    open spec fn from_spec(v: ArrTerm<C>) -> Expr<C> {
        Expr::ArrTerm(v)
    }
}

impl<C> From<Formula<C>> for Expr<C> {
    fn from(f: Formula<C>) -> (r: Self) {
        Expr::Formula(f)
    }
}

impl<C> FromSpecImpl<Formula<C>> for Expr<C> {
    open spec fn obeys_from_spec() -> bool {
        true
    }

    open spec fn from_spec(v: Formula<C>) -> Expr<C> {
        Expr::Formula(v)
    }
}

impl<C> From<Term<C>> for Expr<C> {
    fn from(t: Term<C>) -> (r: Self) {
        match t {
            Term::Arith(a) => Expr::ArithTerm(a),
            Term::Arr(a) => Expr::ArrTerm(a),
        }
    }
}

impl<C> FromSpecImpl<Term<C>> for Expr<C> {
    open spec fn obeys_from_spec() -> bool {
        true
    }

    open spec fn from_spec(v: Term<C>) -> Expr<C> {
        match v {
            Term::Arith(a) => Expr::ArithTerm(a),
            Term::Arr(a) => Expr::ArrTerm(a),
        }
    }
}

impl<C> From<ArithTerm<C>> for Term<C> {
    fn from(t: ArithTerm<C>) -> (r: Self) {
        Term::Arith(t)
    }
}

impl<C> FromSpecImpl<ArithTerm<C>> for Term<C> {
    open spec fn obeys_from_spec() -> bool {
        true
    }

    open spec fn from_spec(v: ArithTerm<C>) -> Term<C> {
        Term::Arith(v)
    }
}

impl<C> From<ArrTerm<C>> for Term<C> {
    fn from(t: ArrTerm<C>) -> (r: Self) {
        Term::Arr(t)
    }
}

impl<C> FromSpecImpl<ArrTerm<C>> for Term<C> {
    open spec fn obeys_from_spec() -> bool {
        true
    }

    open spec fn from_spec(v: ArrTerm<C>) -> Term<C> {
        Term::Arr(v)
    }
}

// --- Expr utility methods ---

/// The node ids of a list of arithmetic terms.
pub open spec fn arith_ids<C>(s: Seq<ArithTerm<C>>) -> Seq<u32> {
    s.map_values(|t: ArithTerm<C>| t@)
}

/// The node ids of a list of formulas.
pub open spec fn formula_ids<C>(s: Seq<Formula<C>>) -> Seq<u32> {
    s.map_values(|f: Formula<C>| f@)
}

/// The node ids of a list of expressions.
pub open spec fn expr_ids<C>(s: Seq<Expr<C>>) -> Seq<u32> {
    s.map_values(|e: Expr<C>| expr_id(e))
}

/// The node id of an expression.
pub open spec fn expr_id<C>(e: Expr<C>) -> u32 {
    match e {
        Expr::ArithTerm(t) => t@,
        Expr::ArrTerm(t) => t@,
        Expr::Formula(f) => f@,
    }
}

/// The node id of a term.
pub open spec fn term_id<C>(t: Term<C>) -> u32 {
    match t {
        Term::Arith(a) => a@,
        Term::Arr(a) => a@,
    }
}

impl<C> Expr<C> {
    /// Get the raw `ExprId` for this expression.
    pub(crate) fn id(self) -> (r: ExprId)
        ensures
            r@ == expr_id(self),
    {
        match self {
            Expr::ArithTerm(t) => t.id,
            Expr::ArrTerm(t) => t.id,
            Expr::Formula(f) => f.id,
        }
    }
}

impl<C> Term<C> {
    /// Get the raw `ExprId` for this term.
    pub(crate) fn id(self) -> (r: ExprId)
        ensures
            r@ == term_id(self),
    {
        match self {
            Term::Arith(t) => t.id,
            Term::Arr(t) => t.id,
        }
    }
}

// ---------------------------------------------------------------------------
// View types — destructured representations for pattern matching
// ---------------------------------------------------------------------------

/// Quantifier kind.
#[derive(Debug, Clone, Copy, PartialEq, Eq, Structural, Hash)]
pub enum Quantifier {
    Exists,
    Forall,
}

/// Arithmetic comparison kind.
#[derive(Debug, Clone, Copy, PartialEq, Eq, Structural, Hash)]
pub enum ArithCmp {
    Eq,
    Leq,
    Lt,
}

/// An atomic formula.
#[derive(Debug, Clone, PartialEq, Eq)]
pub enum Atom<C> {
    Arith(ArithCmp, ArithTerm<C>, ArithTerm<C>),
    ArrEq(ArrTerm<C>, ArrTerm<C>),
}

/// A proposition (boolean variable or boolean-valued application).
#[derive(Debug, Clone, PartialEq, Eq)]
pub enum Proposition<C> {
    Var(u32),
    App(Symbol, Vec<Expr<C>>),
}

/// Destructured view of an arithmetic term.
#[derive(Debug, Clone, PartialEq, Eq)]
pub enum ArithTermView<C> {
    Real(QQ),
    App(Symbol, Vec<Expr<C>>),
    Var(u32, TypArith),
    Add(Vec<ArithTerm<C>>),
    Mul(Vec<ArithTerm<C>>),
    Div(ArithTerm<C>, ArithTerm<C>),
    Mod(ArithTerm<C>, ArithTerm<C>),
    Floor(ArithTerm<C>),
    Neg(ArithTerm<C>),
    Ite(Formula<C>, ArithTerm<C>, ArithTerm<C>),
    Select(ArrTerm<C>, ArithTerm<C>),
}

/// Destructured view of an array term.
#[derive(Debug, Clone, PartialEq, Eq)]
pub enum ArrTermView<C> {
    App(Symbol, Vec<Expr<C>>),
    Var(u32),
    Store(ArrTerm<C>, ArithTerm<C>, ArithTerm<C>),
    Ite(Formula<C>, ArrTerm<C>, ArrTerm<C>),
}

/// Destructured view of a formula.
#[derive(Debug, Clone, PartialEq, Eq)]
pub enum FormulaView<C> {
    True,
    False,
    And(Vec<Formula<C>>),
    Or(Vec<Formula<C>>),
    Not(Formula<C>),
    Quantify(Quantifier, String, TypFo, Formula<C>),
    Atom(Atom<C>),
    Proposition(Proposition<C>),
    Ite(Formula<C>, Formula<C>, Formula<C>),
}

} // verus!
