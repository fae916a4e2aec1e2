//! The context: an arena of hash-consed expression nodes and a symbol table.

use vstd::prelude::*;

use std::marker::PhantomData;

use hashbrown::{HashMap, HashSet};

use crate::num::QQ;

use super::expr::{
    arith_ids, expr_id, expr_ids, formula_ids, ids_view, node_key, term_id, ArithCmp, ArithTerm, ArithTermView, ArrTerm, ArrTermView, Atom, Expr,
    ExprId, Formula, FormulaView, NodeKey, Proposition, Quantifier, SExprNode, Term,
};
use super::symbol::{Symbol, SymbolSet};
use super::types::{same_typ, Typ, TypArith, TypFo, TypTerm};

verus! {

// ---------------------------------------------------------------------------
// Hash tables
// ---------------------------------------------------------------------------

/// The hash-consing table: each interned node mapped to its id.
#[verifier::external_body]
pub struct InternTable {
    map: HashMap<SExprNode, ExprId>,
}

/// The entries of the hash-consing table, each node taken by its content.
pub uninterp spec fn intern_entries(t: InternTable) -> Map<NodeKey, u32>;

/// `hashbrown::HashMap::new`: an empty table.
#[verifier::external_body]
fn intern_table_new() -> (r: InternTable)
    ensures
        intern_entries(r).dom() == Set::<NodeKey>::empty(),
{
    InternTable { map: HashMap::new() }
}

/// `hashbrown::HashMap::get`: the id stored for `node`, if any. Nodes are
/// compared by their derived equality, which compares their contents.
#[verifier::external_body]
fn intern_table_get(t: &InternTable, node: &SExprNode) -> (r: Option<ExprId>)
    ensures
        match r {
            Some(id) => intern_entries(*t).contains_key(node_key(*node)) && intern_entries(*t)[node_key(*node)] == id@,
            None => !intern_entries(*t).contains_key(node_key(*node)),
        },
{
    t.map.get(node).copied()
}

/// `hashbrown::HashMap::insert`: store `id` for `node`.
#[verifier::external_body]
fn intern_table_insert(t: &mut InternTable, node: SExprNode, id: ExprId)
    ensures
        intern_entries(*final(t)) == intern_entries(*old(t)).insert(node_key(node), id@),
{
    t.map.insert(node, id);
}

/// The registry of named symbols: each name mapped to its symbol.
#[verifier::external_body]
pub struct NameTable {
    map: HashMap<String, Symbol>,
}

/// The entries of the name registry, each name taken by its characters.
pub uninterp spec fn name_entries(t: NameTable) -> Map<Seq<char>, u32>;

/// `hashbrown::HashMap::new`: an empty registry.
#[verifier::external_body]
fn name_table_new() -> (r: NameTable)
    ensures
        name_entries(r).dom() == Set::<Seq<char>>::empty(),
{
    NameTable { map: HashMap::new() }
}

/// `hashbrown::HashMap::contains_key`: is `name` registered?
#[verifier::external_body]
fn name_table_contains(t: &NameTable, name: &str) -> (r: bool)
    ensures
        r == name_entries(*t).contains_key(name@),
{
    t.map.contains_key(name)
}

/// `hashbrown::HashMap::get`: the symbol registered under `name`, if any.
#[verifier::external_body]
fn name_table_get(t: &NameTable, name: &str) -> (r: Option<Symbol>)
    ensures
        match r {
            Some(s) => name_entries(*t).contains_key(name@) && name_entries(*t)[name@] == s@,
            None => !name_entries(*t).contains_key(name@),
        },
{
    t.map.get(name).copied()
}

/// `hashbrown::HashMap::insert`: register `name` for `sym`.
#[verifier::external_body]
fn name_table_insert(t: &mut NameTable, name: String, sym: Symbol)
    ensures
        name_entries(*final(t)) == name_entries(*old(t)).insert(name@, sym@),
{
    t.map.insert(name, sym);
}

/// A set of visited node ids.
#[verifier::external_body]
pub struct VisitedSet {
    set: HashSet<ExprId>,
}

/// The ids in a visited set.
pub uninterp spec fn visited_ids(t: VisitedSet) -> Set<u32>;

/// `hashbrown::HashSet::new`: an empty set.
#[verifier::external_body]
fn visited_new() -> (r: VisitedSet)
    ensures
        visited_ids(r) == Set::<u32>::empty(),
{
    VisitedSet { set: HashSet::new() }
}

/// An empty set of visited ids.
pub(crate) fn visited_new_pub() -> (r: VisitedSet)
    ensures
        visited_ids(r) == Set::<u32>::empty(),
{
    visited_new()
}

/// Add `id` to a visited set; true iff it was not there yet.
pub(crate) fn visited_insert_pub(t: &mut VisitedSet, id: ExprId) -> (r: bool)
    ensures
        visited_ids(*final(t)) == visited_ids(*old(t)).insert(id@),
        r == !visited_ids(*old(t)).contains(id@),
{
    visited_insert(t, id)
}

/// `hashbrown::HashSet::insert`: add `id`; true iff it was not there yet.
#[verifier::external_body]
fn visited_insert(t: &mut VisitedSet, id: ExprId) -> (r: bool)
    ensures
        visited_ids(*final(t)) == visited_ids(*old(t)).insert(id@),
        r == !visited_ids(*old(t)).contains(id@),
{
    t.set.insert(id)
}

// ---------------------------------------------------------------------------
// Typing of nodes
// ---------------------------------------------------------------------------

/// Arithmetic sorts.
pub open spec fn is_arith(t: TypFo) -> bool {
    t == TypFo::Int || t == TypFo::Real
}

/// The sort a symbol of type `t` produces.
pub open spec fn codomain(t: Typ) -> TypFo {
    match t {
        Typ::Int => TypFo::Int,
        Typ::Real => TypFo::Real,
        Typ::Bool => TypFo::Bool,
        Typ::Arr => TypFo::Arr,
        Typ::Fun(_, cod) => cod,
    }
}

/// The first-order type of node `i`: `Real` for literals and divisions, `Int`
/// for floors, the sort of the first operand for negation and modulo, `Real`
/// for a sum or product with a `Real` operand and `Int` otherwise, the
/// declared type for variables and applications, the sort of the `then`
/// branch for conditionals, `Bool` for formulas and `Arr` for stores.
pub open spec fn typ_at(nodes: Seq<NodeKey>, syms: Seq<(Seq<char>, Typ)>, i: int) -> TypFo
    decreases i, operand_bound(nodes, i),
{
    if 0 <= i < nodes.len() {
        match nodes[i] {
            NodeKey::Real(_, _) => TypFo::Real,
            NodeKey::Floor(_) => TypFo::Int,
            NodeKey::Neg(c) => if c < i { typ_at(nodes, syms, c as int) } else { TypFo::Int },
            NodeKey::Add(cs) => if any_real(nodes, syms, cs, cs.len() as int, i) {
                TypFo::Real
            } else {
                TypFo::Int
            },
            NodeKey::Mul(cs) => if any_real(nodes, syms, cs, cs.len() as int, i) {
                TypFo::Real
            } else {
                TypFo::Int
            },
            NodeKey::Div(_, _) => TypFo::Real,
            NodeKey::Mod(a, _) => if a < i { typ_at(nodes, syms, a as int) } else { TypFo::Int },
            NodeKey::Select(_, _) => TypFo::Real,
            NodeKey::Var(_, t) => t,
            NodeKey::App(s, _) => codomain(syms[s as int].1),
            NodeKey::Store(_, _, _) => TypFo::Arr,
            NodeKey::Ite(_, t, _) => if t < i { typ_at(nodes, syms, t as int) } else { TypFo::Int },
            _ => TypFo::Bool,
        }
    } else {
        TypFo::Int
    }
}

/// One more than the number of operands of node `i`.
pub open spec fn operand_bound(nodes: Seq<NodeKey>, i: int) -> nat {
    if 0 <= i < nodes.len() {
        children_of(nodes[i]).len() + 1
    } else {
        0
    }
}

/// Some operand in `cs` (all before node `i`) has type `Real`.
pub open spec fn any_real(nodes: Seq<NodeKey>, syms: Seq<(Seq<char>, Typ)>, cs: Seq<u32>, n: int, i: int) -> bool
    decreases i, n,
{
    if n <= 0 || n > cs.len() {
        false
    } else {
        (cs[n - 1] < i && typ_at(nodes, syms, cs[n - 1] as int) == TypFo::Real) || any_real(nodes, syms, cs, n - 1, i)
    }
}

/// The node ids that node `i` refers to.
pub open spec fn children_of(n: NodeKey) -> Seq<u32> {
    match n {
        NodeKey::Real(_, _) | NodeKey::True | NodeKey::False | NodeKey::Var(_, _) => Seq::empty(),
        NodeKey::Add(cs) | NodeKey::Mul(cs) | NodeKey::And(cs) | NodeKey::Or(cs) => cs,
        NodeKey::App(_, cs) => cs,
        NodeKey::Div(a, b) | NodeKey::Mod(a, b) | NodeKey::Eq(a, b) | NodeKey::Leq(a, b) | NodeKey::Lt(a, b)
        | NodeKey::ArrEq(a, b) | NodeKey::Select(a, b) => seq![a, b],
        NodeKey::Floor(a) | NodeKey::Neg(a) | NodeKey::Not(a) => seq![a],
        NodeKey::Exists(_, _, a) | NodeKey::Forall(_, _, a) => seq![a],
        NodeKey::Store(a, b, c) | NodeKey::Ite(a, b, c) => seq![a, b, c],
    }
}

/// Node `i` refers only to earlier nodes, with operands of the sorts its
/// constructor expects, and to symbols of the table.
pub open spec fn node_ok(nodes: Seq<NodeKey>, syms: Seq<(Seq<char>, Typ)>, i: int) -> bool {
    &&& forall|k: int| 0 <= k < children_of(nodes[i]).len() ==> #[trigger] children_of(nodes[i])[k] < i
    &&& match nodes[i] {
        NodeKey::Add(cs) => forall|k: int| 0 <= k < cs.len() ==> is_arith(#[trigger] typ_at(nodes, syms, cs[k] as int)),
        NodeKey::Mul(cs) => forall|k: int| 0 <= k < cs.len() ==> is_arith(#[trigger] typ_at(nodes, syms, cs[k] as int)),
        NodeKey::Div(a, b) | NodeKey::Mod(a, b) | NodeKey::Eq(a, b) | NodeKey::Leq(a, b) | NodeKey::Lt(a, b) => is_arith(
            typ_at(nodes, syms, a as int),
        ) && is_arith(typ_at(nodes, syms, b as int)),
        NodeKey::Floor(a) | NodeKey::Neg(a) => is_arith(typ_at(nodes, syms, a as int)),
        NodeKey::App(s, _) => s < syms.len(),
        NodeKey::Select(a, b) => typ_at(nodes, syms, a as int) == TypFo::Arr && is_arith(typ_at(nodes, syms, b as int)),
        NodeKey::Store(a, b, c) => typ_at(nodes, syms, a as int) == TypFo::Arr && is_arith(typ_at(nodes, syms, b as int)) && is_arith(
            typ_at(nodes, syms, c as int),
        ),
        NodeKey::And(cs) => forall|k: int| 0 <= k < cs.len() ==> #[trigger] typ_at(nodes, syms, cs[k] as int) == TypFo::Bool,
        NodeKey::Or(cs) => forall|k: int| 0 <= k < cs.len() ==> #[trigger] typ_at(nodes, syms, cs[k] as int) == TypFo::Bool,
        NodeKey::Not(a) => typ_at(nodes, syms, a as int) == TypFo::Bool,
        NodeKey::ArrEq(a, b) => typ_at(nodes, syms, a as int) == TypFo::Arr && typ_at(nodes, syms, b as int) == TypFo::Arr,
        NodeKey::Exists(_, _, b) | NodeKey::Forall(_, _, b) => typ_at(nodes, syms, b as int) == TypFo::Bool,
        NodeKey::Ite(c, t, e) => typ_at(nodes, syms, c as int) == TypFo::Bool && same_class(typ_at(nodes, syms, t as int), typ_at(nodes, syms, e as int)),
        _ => true,
    }
}

/// Both sorts are arithmetic, or both are the same non-arithmetic sort.
pub open spec fn same_class(a: TypFo, b: TypFo) -> bool {
    if is_arith(a) {
        is_arith(b)
    } else {
        a == b
    }
}

/// `new` extends `old`: every node and symbol of `old` is still there, with
/// the same meaning.
pub open spec fn extends(old: Seq<NodeKey>, new: Seq<NodeKey>) -> bool {
    old.len() <= new.len() && new.subrange(0, old.len() as int) == old
}

/// `new` is `old` with `key` interned at `id`: `old` unchanged when it
/// already held `key`, `key` appended otherwise.
pub open spec fn interns(old: Seq<NodeKey>, new: Seq<NodeKey>, key: NodeKey, id: u32) -> bool {
    &&& id < new.len()
    &&& new[id as int] == key
    &&& if old.contains(key) {
        new == old
    } else {
        new == old.push(key)
    }
}

/// The type of a node depends only on the nodes before it.
pub proof fn lemma_typ_stable(nodes: Seq<NodeKey>, ext: Seq<NodeKey>, syms: Seq<(Seq<char>, Typ)>, i: int)
    requires
        extends(nodes, ext),
        0 <= i < nodes.len(),
    ensures
        typ_at(ext, syms, i) == typ_at(nodes, syms, i),
    decreases i, 1int, 0int,
{
    assert(ext[i] == nodes[i]);
    match nodes[i] {
        NodeKey::Neg(c) => {
            if c < i {
                lemma_typ_stable(nodes, ext, syms, c as int);
            }
        },
        NodeKey::Mod(c, _) => {
            if c < i {
                lemma_typ_stable(nodes, ext, syms, c as int);
            }
        },
        NodeKey::Ite(_, c, _) => {
            if c < i {
                lemma_typ_stable(nodes, ext, syms, c as int);
            }
        },
        NodeKey::Add(cs) => {
            lemma_typ_stable_list(nodes, ext, syms, i, cs, cs.len() as int);
        },
        NodeKey::Mul(cs) => {
            lemma_typ_stable_list(nodes, ext, syms, i, cs, cs.len() as int);
        },
        _ => {},
    }
}

proof fn lemma_typ_stable_list(nodes: Seq<NodeKey>, ext: Seq<NodeKey>, syms: Seq<(Seq<char>, Typ)>, i: int, cs: Seq<u32>, n: int)
    requires
        extends(nodes, ext),
        0 <= i < nodes.len(),
    ensures
        any_real(nodes, syms, cs, n, i) == any_real(ext, syms, cs, n, i),
    decreases i, 0int, n,
{
    if 0 < n <= cs.len() {
        if cs[n - 1] < i {
            lemma_typ_stable(nodes, ext, syms, cs[n - 1] as int);
        }
        lemma_typ_stable_list(nodes, ext, syms, i, cs, n - 1);
    }
}

/// Well-formedness of a node survives growth of the arena.
proof fn lemma_node_ok_stable(nodes: Seq<NodeKey>, ext: Seq<NodeKey>, syms: Seq<(Seq<char>, Typ)>, i: int)
    requires
        extends(nodes, ext),
        0 <= i < nodes.len(),
        node_ok(nodes, syms, i),
    ensures
        node_ok(ext, syms, i),
{
    assert(ext[i] == ext.subrange(0, nodes.len() as int)[i]);
    let ch = children_of(nodes[i]);
    assert forall|k: int| 0 <= k < ch.len() implies #[trigger] typ_at(ext, syms, ch[k] as int) == typ_at(nodes, syms, ch[k] as int) by {
        assert(ch[k] < i);
        lemma_typ_stable(nodes, ext, syms, ch[k] as int);
    }
    match nodes[i] {
        NodeKey::Add(cs) => {
            assert forall|k: int| 0 <= k < cs.len() implies is_arith(#[trigger] typ_at(ext, syms, cs[k] as int)) by {
                assert(ch[k] == cs[k]);
            }
        },
        NodeKey::Mul(cs) => {
            assert forall|k: int| 0 <= k < cs.len() implies is_arith(#[trigger] typ_at(ext, syms, cs[k] as int)) by {
                assert(ch[k] == cs[k]);
            }
        },
        NodeKey::And(cs) => {
            assert forall|k: int| 0 <= k < cs.len() implies #[trigger] typ_at(ext, syms, cs[k] as int) == TypFo::Bool by {
                assert(ch[k] == cs[k]);
            }
        },
        NodeKey::Or(cs) => {
            assert forall|k: int| 0 <= k < cs.len() implies #[trigger] typ_at(ext, syms, cs[k] as int) == TypFo::Bool by {
                assert(ch[k] == cs[k]);
            }
        },
        NodeKey::Div(a, b) | NodeKey::Mod(a, b) | NodeKey::Eq(a, b) | NodeKey::Leq(a, b) | NodeKey::Lt(a, b) | NodeKey::ArrEq(a, b)
        | NodeKey::Select(a, b) => {
            assert(ch[0] == a && ch[1] == b);
        },
        NodeKey::Floor(a) | NodeKey::Neg(a) | NodeKey::Not(a) => {
            assert(ch[0] == a);
        },
        NodeKey::Exists(_, _, a) | NodeKey::Forall(_, _, a) => {
            assert(ch[0] == a);
        },
        NodeKey::Store(a, b, c) | NodeKey::Ite(a, b, c) => {
            assert(ch[0] == a && ch[1] == b && ch[2] == c);
        },
        _ => {},
    }
}

/// The type of a node does not depend on symbols added after the ones it uses.
proof fn lemma_typ_syms_stable(nodes: Seq<NodeKey>, syms: Seq<(Seq<char>, Typ)>, ext: Seq<(Seq<char>, Typ)>, i: int)
    requires
        syms.len() <= ext.len(),
        ext.subrange(0, syms.len() as int) == syms,
        forall|j: int| 0 <= j < nodes.len() ==> #[trigger] node_ok(nodes, syms, j),
        0 <= i < nodes.len(),
    ensures
        typ_at(nodes, ext, i) == typ_at(nodes, syms, i),
    decreases i, 1int, 0int,
{
    assert(node_ok(nodes, syms, i));
    match nodes[i] {
        NodeKey::Neg(c) => {
            if c < i {
                lemma_typ_syms_stable(nodes, syms, ext, c as int);
            }
        },
        NodeKey::Mod(c, _) => {
            if c < i {
                lemma_typ_syms_stable(nodes, syms, ext, c as int);
            }
        },
        NodeKey::Ite(_, c, _) => {
            if c < i {
                lemma_typ_syms_stable(nodes, syms, ext, c as int);
            }
        },
        NodeKey::Add(cs) => {
            lemma_typ_syms_stable_list(nodes, syms, ext, i, cs, cs.len() as int);
        },
        NodeKey::Mul(cs) => {
            lemma_typ_syms_stable_list(nodes, syms, ext, i, cs, cs.len() as int);
        },
        NodeKey::App(s, _) => {
            assert(ext[s as int] == ext.subrange(0, syms.len() as int)[s as int]);
        },
        _ => {},
    }
}

proof fn lemma_typ_syms_stable_list(
    nodes: Seq<NodeKey>,
    syms: Seq<(Seq<char>, Typ)>,
    ext: Seq<(Seq<char>, Typ)>,
    i: int,
    cs: Seq<u32>,
    n: int,
)
    requires
        syms.len() <= ext.len(),
        ext.subrange(0, syms.len() as int) == syms,
        forall|j: int| 0 <= j < nodes.len() ==> #[trigger] node_ok(nodes, syms, j),
        0 <= i < nodes.len(),
    ensures
        any_real(nodes, syms, cs, n, i) == any_real(nodes, ext, cs, n, i),
    decreases i, 0int, n,
{
    if 0 < n <= cs.len() {
        if cs[n - 1] < i {
            lemma_typ_syms_stable(nodes, syms, ext, cs[n - 1] as int);
        }
        lemma_typ_syms_stable_list(nodes, syms, ext, i, cs, n - 1);
    }
}

/// The type of an existing node is unchanged by interning another.
proof fn lemma_push_typ(keys: Seq<NodeKey>, syms: Seq<(Seq<char>, Typ)>, key: NodeKey, c: int)
    requires
        0 <= c < keys.len(),
    ensures
        typ_at(keys.push(key), syms, c) == typ_at(keys, syms, c),
{
    assert(keys.push(key).subrange(0, keys.len() as int) =~= keys);
    lemma_typ_stable(keys, keys.push(key), syms, c);
}

/// The types of existing nodes are unchanged by interning another.
pub(crate) proof fn lemma_push_typs(keys: Seq<NodeKey>, syms: Seq<(Seq<char>, Typ)>, key: NodeKey)
    ensures
        forall|c: int| 0 <= c < keys.len() ==> #[trigger] typ_at(keys.push(key), syms, c) == typ_at(keys, syms, c),
{
    assert forall|c: int| 0 <= c < keys.len() implies #[trigger] typ_at(keys.push(key), syms, c) == typ_at(keys, syms, c) by {
        lemma_push_typ(keys, syms, key, c);
    }
}

// ---------------------------------------------------------------------------
// The context
// ---------------------------------------------------------------------------

/// A context manages symbols and expression sharing.
///
/// The type parameter `C` is a phantom marker that prevents expressions from
/// different contexts from being mixed at compile time.
pub struct Context<C> {
    /// Arena of interned expression nodes.
    arena: Vec<SExprNode>,
    /// Hash-consing map: node -> existing `ExprId`.
    intern_map: InternTable,
    /// Symbol table: `symbol index -> (name, type)`.
    symbols: Vec<(String, Typ)>,
    /// Named symbol registry: `name -> symbol`.
    named_symbols: NameTable,
    /// Phantom type marker.
    _marker: PhantomData<C>,
}

/// Error returned when attempting to register a name that is already in use.
#[derive(Debug, Clone)]
pub struct NameAlreadyRegistered(pub String);

impl<C> Context<C> {
    /// The interned nodes, by id.
    pub closed spec fn keys(&self) -> Seq<NodeKey> {
        self.arena@.map_values(|n: SExprNode| node_key(n))
    }

    /// The symbol table: name and type of each symbol, by index.
    pub closed spec fn syms(&self) -> Seq<(Seq<char>, Typ)> {
        self.symbols@.map_values(|e: (String, Typ)| (e.0@, e.1))
    }

    /// The registered names and their symbols.
    pub closed spec fn named(&self) -> Map<Seq<char>, u32> {
        name_entries(self.named_symbols)
    }

    /// The type of node `i`.
    pub open spec fn typ_of(&self, i: int) -> TypFo {
        typ_at(self.keys(), self.syms(), i)
    }

    /// `t` is an arithmetic term of this context.
    pub open spec fn arith_ok(&self, t: ArithTerm<C>) -> bool {
        t@ < self.keys().len() && is_arith(self.typ_of(t@ as int))
    }

    /// `t` is an array term of this context.
    pub open spec fn arr_ok(&self, t: ArrTerm<C>) -> bool {
        t@ < self.keys().len() && self.typ_of(t@ as int) == TypFo::Arr
    }

    /// `f` is a formula of this context.
    pub open spec fn formula_ok(&self, f: Formula<C>) -> bool {
        f@ < self.keys().len() && self.typ_of(f@ as int) == TypFo::Bool
    }

    /// `e` is an expression of this context, of the sort its variant names.
    pub open spec fn expr_ok(&self, e: Expr<C>) -> bool {
        match e {
            Expr::ArithTerm(t) => self.arith_ok(t),
            Expr::ArrTerm(t) => self.arr_ok(t),
            Expr::Formula(f) => self.formula_ok(f),
        }
    }

    /// `t` is a term of this context, of the sort its variant names.
    pub open spec fn term_ok(&self, t: Term<C>) -> bool {
        match t {
            Term::Arith(a) => self.arith_ok(a),
            Term::Arr(a) => self.arr_ok(a),
        }
    }

    /// There is room for `n` more nodes.
    pub open spec fn room(&self, n: nat) -> bool {
        self.keys().len() + n <= u32::MAX
    }

    /// `self` extends `old`: the same symbols and names, and `old`'s nodes
    /// with possibly more after them.
    pub open spec fn grows_from(&self, old: &Self) -> bool {
        &&& extends(old.keys(), self.keys())
        &&& self.syms() == old.syms()
        &&& self.named() == old.named()
    }

    /// The context's invariant: nodes refer to earlier nodes with the sorts
    /// their constructors expect, no node is interned twice, the
    /// hash-consing table maps each node to its id, and every registered
    /// name maps to a symbol of that name.
    pub closed spec fn wf(&self) -> bool {
        let keys = self.keys();
        let syms = self.syms();
        &&& keys.len() <= u32::MAX
        &&& syms.len() <= u32::MAX
        &&& forall|i: int| 0 <= i < keys.len() ==> #[trigger] node_ok(keys, syms, i)
        &&& forall|i: int, j: int| 0 <= i < keys.len() && 0 <= j < keys.len() && i != j ==> #[trigger] keys[i] != #[trigger] keys[j]
        &&& forall|k: NodeKey| #[trigger] intern_entries(self.intern_map).contains_key(k) ==> intern_entries(self.intern_map)[k]
            < keys.len() && keys[intern_entries(self.intern_map)[k] as int] == k
        &&& forall|i: int| 0 <= i < keys.len() ==> #[trigger] intern_entries(self.intern_map).contains_key(keys[i])
        &&& forall|n: Seq<char>| #[trigger] self.named().contains_key(n) ==> self.named()[n] < syms.len() && syms[self.named()[n] as int].0
            == n
        &&& self.named().dom().finite()
    }

    /// Handles keep their sorts as the context grows.
    pub proof fn lemma_grows(&self, old: &Self, i: int)
        requires
            self.grows_from(old),
            0 <= i < old.keys().len(),
        ensures
            self.typ_of(i) == old.typ_of(i),
            self.keys()[i] == old.keys()[i],
    {
        lemma_typ_stable(old.keys(), self.keys(), self.syms(), i);
        assert(self.keys().subrange(0, old.keys().len() as int)[i] == self.keys()[i]);
    }

    /// Create a new, empty context.
    pub fn new() -> (r: Self)
        ensures
            r.wf(),
            r.keys() == Seq::<NodeKey>::empty(),
            r.syms() == Seq::<(Seq<char>, Typ)>::empty(),
            r.named() == Map::<Seq<char>, u32>::empty(),
    {
        let r = Context {
            arena: Vec::new(),
            intern_map: intern_table_new(),
            symbols: Vec::new(),
            named_symbols: name_table_new(),
            _marker: PhantomData,
        };
        proof {
            assert(r.keys() =~= Seq::<NodeKey>::empty());
            assert(r.syms() =~= Seq::<(Seq<char>, Typ)>::empty());
        }
        r
    }

    /// Returns (number of expressions, number of symbols, number of named symbols).
    pub fn stats(&self) -> (r: (usize, usize, usize))
        requires
            self.wf(),
        ensures
            r.0 == self.keys().len(),
            r.1 == self.syms().len(),
            r.2 == self.named().dom().len(),
    {
        (self.arena.len(), self.symbols.len(), name_table_len(&self.named_symbols))
    }
}

/// `hashbrown::HashMap::len`: the number of registered names.
#[verifier::external_body]
fn name_table_len(t: &NameTable) -> (r: usize)
    ensures
        r == name_entries(*t).dom().len(),
{
    t.map.len()
}


impl<C> Context<C> {
    // -----------------------------------------------------------------------
    // Interning
    // -----------------------------------------------------------------------

    /// Intern a node: if it already exists, return the existing ID; otherwise
    /// allocate a new slot in the arena.
    fn intern(&mut self, node: SExprNode) -> (r: ExprId)
        requires
            old(self).wf(),
            old(self).room(1),
            node_ok(old(self).keys().push(node_key(node)), old(self).syms(), old(self).keys().len() as int),
        ensures
            final(self).wf(),
            final(self).grows_from(old(self)),
            interns(old(self).keys(), final(self).keys(), node_key(node), r@),
    {
        let ghost keys = self.keys();
        let ghost key = node_key(node);
        match intern_table_get(&self.intern_map, &node) {
            Some(id) => {
                proof {
                    assert(keys[id@ as int] == key);
                    assert(keys.contains(key));
                    assert(keys.subrange(0, keys.len() as int) =~= keys);
                }
                return id;
            },
            None => {},
        }
        proof {
            if keys.contains(key) {
                let i = choose|i: int| 0 <= i < keys.len() && keys[i] == key;
                assert(intern_entries(self.intern_map).contains_key(keys[i]));
            }
        }
        let id = ExprId::new(self.arena.len() as u32);
        let copy = node.clone();
        self.arena.push(copy);
        intern_table_insert(&mut self.intern_map, node, id);
        proof {
            assert(self.keys() =~= keys.push(key));
            assert(self.syms() == old(self).syms());
            let new_keys = self.keys();
            assert(new_keys.subrange(0, keys.len() as int) =~= keys);
            assert forall|i: int| 0 <= i < new_keys.len() implies #[trigger] node_ok(new_keys, self.syms(), i) by {
                if i < keys.len() {
                    lemma_node_ok_stable(keys, new_keys, self.syms(), i);
                }
            }
            assert forall|i: int, j: int| 0 <= i < new_keys.len() && 0 <= j < new_keys.len() && i != j implies #[trigger] new_keys[i]
                != #[trigger] new_keys[j] by {
                if i < keys.len() && j < keys.len() {
                    assert(keys[i] != keys[j]);
                } else if i < keys.len() {
                    assert(keys.contains(keys[i]));
                } else if j < keys.len() {
                    assert(keys.contains(keys[j]));
                }
            }
            assert forall|i: int| 0 <= i < new_keys.len() implies #[trigger] intern_entries(self.intern_map).contains_key(new_keys[i]) by {
                if i < keys.len() {
                    assert(intern_entries(old(self).intern_map).contains_key(keys[i]));
                }
            }
            assert(self.named() == old(self).named());
            assert forall|n: Seq<char>| #[trigger] self.named().contains_key(n) implies self.named()[n] < self.syms().len()
                && self.syms()[self.named()[n] as int].0 == n by {
                assert(old(self).named().contains_key(n));
            }
        }
        id
    }

    /// Look up the node for a given `ExprId`.
    pub(crate) fn node(&self, id: ExprId) -> (r: &SExprNode)
        requires
            self.wf(),
            id@ < self.keys().len(),
        ensures
            node_key(*r) == self.keys()[id@ as int],
    {
        &self.arena[id.index() as usize]
    }

    /// Public (crate-internal) interning entry point for substitution etc.
    pub(crate) fn intern_node(&mut self, node: SExprNode) -> (r: ExprId)
        requires
            old(self).wf(),
            old(self).room(1),
            node_ok(old(self).keys().push(node_key(node)), old(self).syms(), old(self).keys().len() as int),
        ensures
            final(self).wf(),
            final(self).grows_from(old(self)),
            interns(old(self).keys(), final(self).keys(), node_key(node), r@),
    {
        self.intern(node)
    }

    // -----------------------------------------------------------------------
    // Symbols
    // -----------------------------------------------------------------------

    /// Create a fresh symbol with the given name and type.
    ///
    /// Multiple calls with the same name and type produce distinct symbols.
    pub fn mk_symbol(&mut self, name: &str, typ: Typ) -> (r: Symbol)
        requires
            old(self).wf(),
            old(self).syms().len() < u32::MAX,
        ensures
            final(self).wf(),
            final(self).keys() == old(self).keys(),
            final(self).named() == old(self).named(),
            final(self).syms() == old(self).syms().push((name@, typ)),
            r@ == old(self).syms().len(),
    {
        let idx = self.symbols.len() as u32;
        let ghost keys = self.keys();
        let ghost syms = self.syms();
        self.symbols.push((name.to_owned(), typ));
        proof {
            let new_syms = self.syms();
            assert(new_syms =~= syms.push((name@, typ)));
            assert(new_syms.subrange(0, syms.len() as int) =~= syms);
            assert(self.keys() == keys);
            assert forall|i: int| 0 <= i < keys.len() implies #[trigger] node_ok(keys, new_syms, i) by {
                assert(node_ok(keys, syms, i));
                assert forall|c: int| 0 <= c < keys.len() implies #[trigger] typ_at(keys, new_syms, c) == typ_at(keys, syms, c) by {
                    lemma_typ_syms_stable(keys, syms, new_syms, c);
                }
            }
            assert(self.named() == old(self).named());
            assert forall|n: Seq<char>| #[trigger] self.named().contains_key(n) implies self.named()[n] < new_syms.len()
                && new_syms[self.named()[n] as int].0 == n by {
                assert(old(self).named().contains_key(n));
                assert(new_syms[self.named()[n] as int] == syms[self.named()[n] as int]);
            }
        }
        Symbol::from_raw(idx)
    }

    /// Register a named symbol. The name must be unique within this context.
    ///
    /// Returns the new symbol, or `Err` if the name is already registered.
    pub fn register_named_symbol(&mut self, name: &str, typ: Typ) -> (r: Result<Symbol, NameAlreadyRegistered>)
        requires
            old(self).wf(),
            old(self).syms().len() < u32::MAX,
        ensures
            final(self).wf(),
            final(self).keys() == old(self).keys(),
            match r {
                Ok(s) => {
                    &&& !old(self).named().contains_key(name@)
                    &&& s@ == old(self).syms().len()
                    &&& final(self).syms() == old(self).syms().push((name@, typ))
                    &&& final(self).named() == old(self).named().insert(name@, s@)
                    &&& final(self).named().dom().len() == old(self).named().dom().len() + 1
                },
                Err(e) => {
                    &&& old(self).named().contains_key(name@)
                    &&& e.0@ == name@
                    &&& final(self).syms() == old(self).syms()
                    &&& final(self).named() == old(self).named()
                },
            },
    {
        if name_table_contains(&self.named_symbols, name) {
            return Err(NameAlreadyRegistered(name.to_owned()));
        }
        let sym = self.mk_symbol(name, typ);
        let ghost syms = self.syms();
        name_table_insert(&mut self.named_symbols, name.to_owned(), sym);
        proof {
            assert(self.syms() == syms);
            assert forall|n: Seq<char>| #[trigger] self.named().contains_key(n) implies self.named()[n] < syms.len()
                && syms[self.named()[n] as int].0 == n by {
            }
        }
        Ok(sym)
    }

    /// Check whether a name is already registered.
    pub fn is_registered_name(&self, name: &str) -> (r: bool)
        ensures
            r == self.named().contains_key(name@),
    {
        name_table_contains(&self.named_symbols, name)
    }

    /// Retrieve the symbol associated with a name. Returns `None` if not registered.
    pub fn get_named_symbol(&self, name: &str) -> (r: Option<Symbol>)
        ensures
            match r {
                Some(s) => self.named().contains_key(name@) && self.named()[name@] == s@,
                None => !self.named().contains_key(name@),
            },
    {
        name_table_get(&self.named_symbols, name)
    }

    /// Get a symbol entry. All Symbols are created by this context's mk_symbol.
    fn get_symbol_entry(&self, sym: Symbol) -> (r: &(String, Typ))
        requires
            sym@ < self.syms().len(),
        ensures
            r.0@ == self.syms()[sym@ as int].0,
            r.1 == self.syms()[sym@ as int].1,
    {
        &self.symbols[sym.as_u32() as usize]
    }

    /// Get the name of a symbol. Returns `None` for ordinary (non-named) symbols.
    pub fn symbol_name(&self, sym: Symbol) -> (r: Option<&str>)
        requires
            sym@ < self.syms().len(),
        ensures
            match r {
                Some(n) => n@ == self.syms()[sym@ as int].0 && self.named().contains_key(n@) && self.named()[n@] == sym@,
                None => !(self.named().contains_key(self.syms()[sym@ as int].0) && self.named()[self.syms()[sym@ as int].0]
                    == sym@),
            },
    {
        let name = &self.get_symbol_entry(sym).0;
        match name_table_get(&self.named_symbols, name.as_str()) {
            Some(s) => {
                if s.as_u32() == sym.as_u32() {
                    Some(name.as_str())
                } else {
                    None
                }
            },
            None => None,
        }
    }

    /// Get the display name of a symbol (always available, unlike `symbol_name`).
    pub fn show_symbol(&self, sym: Symbol) -> (r: &str)
        requires
            sym@ < self.syms().len(),
        ensures
            r@ == self.syms()[sym@ as int].0,
    {
        self.get_symbol_entry(sym).0.as_str()
    }

    /// Get the type of a symbol.
    pub fn typ_symbol(&self, sym: Symbol) -> (r: &Typ)
        requires
            sym@ < self.syms().len(),
        ensures
            *r == self.syms()[sym@ as int].1,
    {
        &self.get_symbol_entry(sym).1
    }

    /// Create a fresh symbol with the same name and type as `sym`.
    pub fn dup_symbol(&mut self, sym: Symbol) -> (r: Symbol)
        requires
            old(self).wf(),
            sym@ < old(self).syms().len(),
            old(self).syms().len() < u32::MAX,
        ensures
            final(self).wf(),
            final(self).keys() == old(self).keys(),
            final(self).named() == old(self).named(),
            r@ == old(self).syms().len(),
            final(self).syms().len() == old(self).syms().len() + 1,
            final(self).syms().subrange(0, r@ as int) == old(self).syms(),
            final(self).syms()[r@ as int].0 == old(self).syms()[sym@ as int].0,
            same_typ(final(self).syms()[r@ as int].1, old(self).syms()[sym@ as int].1),
    {
        let entry = self.get_symbol_entry(sym);
        let name: String = entry.0.clone();
        let typ = entry.1.clone();
        let r = self.mk_symbol(name.as_str(), typ);
        proof {
            assert(self.syms().subrange(0, r@ as int) =~= old(self).syms());
        }
        r
    }
}


impl<C> Context<C> {
    // -----------------------------------------------------------------------
    // Term and formula constructors
    // -----------------------------------------------------------------------

    /// Real-valued division.
    pub fn mk_div(&mut self, a: ArithTerm<C>, b: ArithTerm<C>) -> (r: ArithTerm<C>)
        requires
            old(self).wf(),
            old(self).room(1),
            old(self).arith_ok(a),
            old(self).arith_ok(b),
        ensures
            final(self).wf(),
            final(self).grows_from(old(self)),
            interns(old(self).keys(), final(self).keys(), NodeKey::Div(a@, b@), r@),
            final(self).arith_ok(r),
    {
        let node = SExprNode::Div(a.node_id(), b.node_id());
        proof {
            lemma_push_typs(self.keys(), self.syms(), node_key(node));
        }
        let id = self.intern(node);
        proof {
            assert(node_ok(self.keys(), self.syms(), id@ as int));
            lemma_typ_stable(old(self).keys(), self.keys(), self.syms(), a@ as int);
            lemma_typ_stable(old(self).keys(), self.keys(), self.syms(), b@ as int);
        }
        ArithTerm::of_id(id)
    }

    /// Modulo.
    pub fn mk_mod(&mut self, a: ArithTerm<C>, b: ArithTerm<C>) -> (r: ArithTerm<C>)
        requires
            old(self).wf(),
            old(self).room(1),
            old(self).arith_ok(a),
            old(self).arith_ok(b),
        ensures
            final(self).wf(),
            final(self).grows_from(old(self)),
            interns(old(self).keys(), final(self).keys(), NodeKey::Mod(a@, b@), r@),
            final(self).arith_ok(r),
    {
        let node = SExprNode::Mod(a.node_id(), b.node_id());
        proof {
            lemma_push_typs(self.keys(), self.syms(), node_key(node));
        }
        let id = self.intern(node);
        proof {
            assert(node_ok(self.keys(), self.syms(), id@ as int));
            lemma_typ_stable(old(self).keys(), self.keys(), self.syms(), a@ as int);
            lemma_typ_stable(old(self).keys(), self.keys(), self.syms(), b@ as int);
        }
        ArithTerm::of_id(id)
    }

    /// Unary negation.
    pub fn mk_neg(&mut self, a: ArithTerm<C>) -> (r: ArithTerm<C>)
        requires
            old(self).wf(),
            old(self).room(1),
            old(self).arith_ok(a),
        ensures
            final(self).wf(),
            final(self).grows_from(old(self)),
            interns(old(self).keys(), final(self).keys(), NodeKey::Neg(a@), r@),
            final(self).arith_ok(r),
    {
        let node = SExprNode::Neg(a.node_id());
        proof {
            lemma_push_typs(self.keys(), self.syms(), node_key(node));
        }
        let id = self.intern(node);
        proof {
            assert(node_ok(self.keys(), self.syms(), id@ as int));
            lemma_typ_stable(old(self).keys(), self.keys(), self.syms(), a@ as int);
        }
        ArithTerm::of_id(id)
    }

    /// Floor (round toward negative infinity).
    pub fn mk_floor(&mut self, a: ArithTerm<C>) -> (r: ArithTerm<C>)
        requires
            old(self).wf(),
            old(self).room(1),
            old(self).arith_ok(a),
        ensures
            final(self).wf(),
            final(self).grows_from(old(self)),
            interns(old(self).keys(), final(self).keys(), NodeKey::Floor(a@), r@),
            final(self).arith_ok(r),
    {
        let node = SExprNode::Floor(a.node_id());
        proof {
            lemma_push_typs(self.keys(), self.syms(), node_key(node));
        }
        let id = self.intern(node);
        proof {
            assert(node_ok(self.keys(), self.syms(), id@ as int));
            lemma_typ_stable(old(self).keys(), self.keys(), self.syms(), a@ as int);
        }
        ArithTerm::of_id(id)
    }

    /// Arithmetic equality: `a = b`.
    pub fn mk_eq(&mut self, a: ArithTerm<C>, b: ArithTerm<C>) -> (r: Formula<C>)
        requires
            old(self).wf(),
            old(self).room(1),
            old(self).arith_ok(a),
            old(self).arith_ok(b),
        ensures
            final(self).wf(),
            final(self).grows_from(old(self)),
            interns(old(self).keys(), final(self).keys(), NodeKey::Eq(a@, b@), r@),
            final(self).formula_ok(r),
    {
        let node = SExprNode::Eq(a.node_id(), b.node_id());
        proof {
            lemma_push_typs(self.keys(), self.syms(), node_key(node));
        }
        let id = self.intern(node);
        proof {
            assert(node_ok(self.keys(), self.syms(), id@ as int));
            lemma_typ_stable(old(self).keys(), self.keys(), self.syms(), a@ as int);
            lemma_typ_stable(old(self).keys(), self.keys(), self.syms(), b@ as int);
        }
        Formula::of_id(id)
    }

    /// Less-than: `a < b`.
    pub fn mk_lt(&mut self, a: ArithTerm<C>, b: ArithTerm<C>) -> (r: Formula<C>)
        requires
            old(self).wf(),
            old(self).room(1),
            old(self).arith_ok(a),
            old(self).arith_ok(b),
        ensures
            final(self).wf(),
            final(self).grows_from(old(self)),
            interns(old(self).keys(), final(self).keys(), NodeKey::Lt(a@, b@), r@),
            final(self).formula_ok(r),
    {
        let node = SExprNode::Lt(a.node_id(), b.node_id());
        proof {
            lemma_push_typs(self.keys(), self.syms(), node_key(node));
        }
        let id = self.intern(node);
        proof {
            assert(node_ok(self.keys(), self.syms(), id@ as int));
            lemma_typ_stable(old(self).keys(), self.keys(), self.syms(), a@ as int);
            lemma_typ_stable(old(self).keys(), self.keys(), self.syms(), b@ as int);
        }
        Formula::of_id(id)
    }

    /// Less-than-or-equal: `a <= b`.
    pub fn mk_leq(&mut self, a: ArithTerm<C>, b: ArithTerm<C>) -> (r: Formula<C>)
        requires
            old(self).wf(),
            old(self).room(1),
            old(self).arith_ok(a),
            old(self).arith_ok(b),
        ensures
            final(self).wf(),
            final(self).grows_from(old(self)),
            interns(old(self).keys(), final(self).keys(), NodeKey::Leq(a@, b@), r@),
            final(self).formula_ok(r),
    {
        let node = SExprNode::Leq(a.node_id(), b.node_id());
        proof {
            lemma_push_typs(self.keys(), self.syms(), node_key(node));
        }
        let id = self.intern(node);
        proof {
            assert(node_ok(self.keys(), self.syms(), id@ as int));
            lemma_typ_stable(old(self).keys(), self.keys(), self.syms(), a@ as int);
            lemma_typ_stable(old(self).keys(), self.keys(), self.syms(), b@ as int);
        }
        Formula::of_id(id)
    }

    /// Array equality.
    pub fn mk_arr_eq(&mut self, a: ArrTerm<C>, b: ArrTerm<C>) -> (r: Formula<C>)
        requires
            old(self).wf(),
            old(self).room(1),
            old(self).arr_ok(a),
            old(self).arr_ok(b),
        ensures
            final(self).wf(),
            final(self).grows_from(old(self)),
            interns(old(self).keys(), final(self).keys(), NodeKey::ArrEq(a@, b@), r@),
            final(self).formula_ok(r),
    {
        let node = SExprNode::ArrEq(a.node_id(), b.node_id());
        proof {
            lemma_push_typs(self.keys(), self.syms(), node_key(node));
        }
        let id = self.intern(node);
        proof {
            assert(node_ok(self.keys(), self.syms(), id@ as int));
            lemma_typ_stable(old(self).keys(), self.keys(), self.syms(), a@ as int);
            lemma_typ_stable(old(self).keys(), self.keys(), self.syms(), b@ as int);
        }
        Formula::of_id(id)
    }

    /// Negation.
    pub fn mk_not(&mut self, a: Formula<C>) -> (r: Formula<C>)
        requires
            old(self).wf(),
            old(self).room(1),
            old(self).formula_ok(a),
        ensures
            final(self).wf(),
            final(self).grows_from(old(self)),
            interns(old(self).keys(), final(self).keys(), NodeKey::Not(a@), r@),
            final(self).formula_ok(r),
    {
        let node = SExprNode::Not(a.node_id());
        proof {
            lemma_push_typs(self.keys(), self.syms(), node_key(node));
        }
        let id = self.intern(node);
        proof {
            assert(node_ok(self.keys(), self.syms(), id@ as int));
            lemma_typ_stable(old(self).keys(), self.keys(), self.syms(), a@ as int);
        }
        Formula::of_id(id)
    }

    /// Array select: `a[i]`.
    pub fn mk_select(&mut self, arr: ArrTerm<C>, idx: ArithTerm<C>) -> (r: ArithTerm<C>)
        requires
            old(self).wf(),
            old(self).room(1),
            old(self).arr_ok(arr),
            old(self).arith_ok(idx),
        ensures
            final(self).wf(),
            final(self).grows_from(old(self)),
            interns(old(self).keys(), final(self).keys(), NodeKey::Select(arr@, idx@), r@),
            final(self).arith_ok(r),
    {
        let node = SExprNode::Select(arr.node_id(), idx.node_id());
        proof {
            lemma_push_typs(self.keys(), self.syms(), node_key(node));
        }
        let id = self.intern(node);
        proof {
            assert(node_ok(self.keys(), self.syms(), id@ as int));
            lemma_typ_stable(old(self).keys(), self.keys(), self.syms(), arr@ as int);
            lemma_typ_stable(old(self).keys(), self.keys(), self.syms(), idx@ as int);
        }
        ArithTerm::of_id(id)
    }

    /// Array store: `a[i := v]`.
    pub fn mk_store(&mut self, arr: ArrTerm<C>, idx: ArithTerm<C>, val: ArithTerm<C>) -> (r: ArrTerm<C>)
        requires
            old(self).wf(),
            old(self).room(1),
            old(self).arr_ok(arr),
            old(self).arith_ok(idx),
            old(self).arith_ok(val),
        ensures
            final(self).wf(),
            final(self).grows_from(old(self)),
            interns(old(self).keys(), final(self).keys(), NodeKey::Store(arr@, idx@, val@), r@),
            final(self).arr_ok(r),
    {
        let node = SExprNode::Store(arr.node_id(), idx.node_id(), val.node_id());
        proof {
            lemma_push_typs(self.keys(), self.syms(), node_key(node));
        }
        let id = self.intern(node);
        proof {
            assert(node_ok(self.keys(), self.syms(), id@ as int));
            lemma_typ_stable(old(self).keys(), self.keys(), self.syms(), arr@ as int);
            lemma_typ_stable(old(self).keys(), self.keys(), self.syms(), idx@ as int);
            lemma_typ_stable(old(self).keys(), self.keys(), self.syms(), val@ as int);
        }
        ArrTerm::of_id(id)
    }

    /// The constant `true`.
    pub fn mk_true(&mut self) -> (r: Formula<C>)
        requires
            old(self).wf(),
            old(self).room(1),

        ensures
            final(self).wf(),
            final(self).grows_from(old(self)),
            interns(old(self).keys(), final(self).keys(), NodeKey::True, r@),
            final(self).formula_ok(r),
    {
        let node = SExprNode::True;
        proof {
            lemma_push_typs(self.keys(), self.syms(), node_key(node));
        }
        let id = self.intern(node);
        proof {
            assert(node_ok(self.keys(), self.syms(), id@ as int));
        }
        Formula::of_id(id)
    }

    /// The constant `false`.
    pub fn mk_false(&mut self) -> (r: Formula<C>)
        requires
            old(self).wf(),
            old(self).room(1),

        ensures
            final(self).wf(),
            final(self).grows_from(old(self)),
            interns(old(self).keys(), final(self).keys(), NodeKey::False, r@),
            final(self).formula_ok(r),
    {
        let node = SExprNode::False;
        proof {
            lemma_push_typs(self.keys(), self.syms(), node_key(node));
        }
        let id = self.intern(node);
        proof {
            assert(node_ok(self.keys(), self.syms(), id@ as int));
        }
        Formula::of_id(id)
    }

    /// Create a rational literal.
    pub fn mk_real(&mut self, q: QQ) -> (r: ArithTerm<C>)
        requires
            old(self).wf(),
            old(self).room(1),

        ensures
            final(self).wf(),
            final(self).grows_from(old(self)),
            interns(old(self).keys(), final(self).keys(), NodeKey::Real(q@.0, q@.1), r@),
            final(self).arith_ok(r),
    {
        let node = SExprNode::Real(q);
        proof {
            lemma_push_typs(self.keys(), self.syms(), node_key(node));
        }
        let id = self.intern(node);
        proof {
            assert(node_ok(self.keys(), self.syms(), id@ as int));
        }
        ArithTerm::of_id(id)
    }

    /// If-then-else for formulas.
    pub fn mk_formula_ite(&mut self, cond: Formula<C>, then_: Formula<C>, else_: Formula<C>) -> (r: Formula<C>)
        requires
            old(self).wf(),
            old(self).room(1),
            old(self).formula_ok(cond),
            old(self).formula_ok(then_),
            old(self).formula_ok(else_),
        ensures
            final(self).wf(),
            final(self).grows_from(old(self)),
            interns(old(self).keys(), final(self).keys(), NodeKey::Ite(cond@, then_@, else_@), r@),
            final(self).formula_ok(r),
    {
        let node = SExprNode::Ite(cond.node_id(), then_.node_id(), else_.node_id());
        proof {
            lemma_push_typs(self.keys(), self.syms(), node_key(node));
        }
        let id = self.intern(node);
        proof {
            assert(node_ok(self.keys(), self.syms(), id@ as int));
            assert(children_of(self.keys()[id@ as int])[1] < id@);
            lemma_typ_stable(old(self).keys(), self.keys(), self.syms(), cond@ as int);
            lemma_typ_stable(old(self).keys(), self.keys(), self.syms(), then_@ as int);
            lemma_typ_stable(old(self).keys(), self.keys(), self.syms(), else_@ as int);
        }
        Formula::of_id(id)
    }

    /// If-then-else for arithmetic terms.
    pub fn mk_arith_ite(&mut self, cond: Formula<C>, then_: ArithTerm<C>, else_: ArithTerm<C>) -> (r: ArithTerm<C>)
        requires
            old(self).wf(),
            old(self).room(1),
            old(self).formula_ok(cond),
            old(self).arith_ok(then_),
            old(self).arith_ok(else_),
        ensures
            final(self).wf(),
            final(self).grows_from(old(self)),
            interns(old(self).keys(), final(self).keys(), NodeKey::Ite(cond@, then_@, else_@), r@),
            final(self).arith_ok(r),
    {
        let node = SExprNode::Ite(cond.node_id(), then_.node_id(), else_.node_id());
        proof {
            lemma_push_typs(self.keys(), self.syms(), node_key(node));
        }
        let id = self.intern(node);
        proof {
            assert(node_ok(self.keys(), self.syms(), id@ as int));
            assert(children_of(self.keys()[id@ as int])[1] < id@);
            lemma_typ_stable(old(self).keys(), self.keys(), self.syms(), cond@ as int);
            lemma_typ_stable(old(self).keys(), self.keys(), self.syms(), then_@ as int);
            lemma_typ_stable(old(self).keys(), self.keys(), self.syms(), else_@ as int);
        }
        ArithTerm::of_id(id)
    }

    /// If-then-else for array terms.
    pub fn mk_arr_ite(&mut self, cond: Formula<C>, then_: ArrTerm<C>, else_: ArrTerm<C>) -> (r: ArrTerm<C>)
        requires
            old(self).wf(),
            old(self).room(1),
            old(self).formula_ok(cond),
            old(self).arr_ok(then_),
            old(self).arr_ok(else_),
        ensures
            final(self).wf(),
            final(self).grows_from(old(self)),
            interns(old(self).keys(), final(self).keys(), NodeKey::Ite(cond@, then_@, else_@), r@),
            final(self).arr_ok(r),
    {
        let node = SExprNode::Ite(cond.node_id(), then_.node_id(), else_.node_id());
        proof {
            lemma_push_typs(self.keys(), self.syms(), node_key(node));
        }
        let id = self.intern(node);
        proof {
            assert(node_ok(self.keys(), self.syms(), id@ as int));
            assert(children_of(self.keys()[id@ as int])[1] < id@);
            lemma_typ_stable(old(self).keys(), self.keys(), self.syms(), cond@ as int);
            lemma_typ_stable(old(self).keys(), self.keys(), self.syms(), then_@ as int);
            lemma_typ_stable(old(self).keys(), self.keys(), self.syms(), else_@ as int);
        }
        ArrTerm::of_id(id)
    }

    /// Universal quantification (de Bruijn).
    pub fn mk_forall(&mut self, name: &str, typ: TypFo, body: Formula<C>) -> (r: Formula<C>)
        requires
            old(self).wf(),
            old(self).room(1),
            old(self).formula_ok(body),
        ensures
            final(self).wf(),
            final(self).grows_from(old(self)),
            interns(old(self).keys(), final(self).keys(), NodeKey::Forall(name@, typ, body@), r@),
            final(self).formula_ok(r),
    {
        let node = SExprNode::Forall(name.to_owned(), typ, body.node_id());
        proof {
            lemma_push_typs(self.keys(), self.syms(), node_key(node));
        }
        let id = self.intern(node);
        proof {
            assert(node_ok(self.keys(), self.syms(), id@ as int));
            lemma_typ_stable(old(self).keys(), self.keys(), self.syms(), body@ as int);
        }
        Formula::of_id(id)
    }

    /// Existential quantification (de Bruijn).
    pub fn mk_exists(&mut self, name: &str, typ: TypFo, body: Formula<C>) -> (r: Formula<C>)
        requires
            old(self).wf(),
            old(self).room(1),
            old(self).formula_ok(body),
        ensures
            final(self).wf(),
            final(self).grows_from(old(self)),
            interns(old(self).keys(), final(self).keys(), NodeKey::Exists(name@, typ, body@), r@),
            final(self).formula_ok(r),
    {
        let node = SExprNode::Exists(name.to_owned(), typ, body.node_id());
        proof {
            lemma_push_typs(self.keys(), self.syms(), node_key(node));
        }
        let id = self.intern(node);
        proof {
            assert(node_ok(self.keys(), self.syms(), id@ as int));
            lemma_typ_stable(old(self).keys(), self.keys(), self.syms(), body@ as int);
        }
        Formula::of_id(id)
    }
}


/// `c` is the ceiling of `a`: `-(floor(-a))`.
pub open spec fn is_ceiling(keys: Seq<NodeKey>, c: u32, a: u32) -> bool {
    exists|f: u32, n: u32| #![trigger keys[f as int], keys[n as int]]
        f < keys.len() && n < keys.len() && keys[c as int] == NodeKey::Neg(f) && keys[f as int] == NodeKey::Floor(n)
            && keys[n as int] == NodeKey::Neg(a)
}

/// Node `r` is `truncate(a)`: `if 0 <= a then floor(a) else ceiling(a)`.
pub open spec fn is_truncate(keys: Seq<NodeKey>, r: u32, a: u32) -> bool {
    exists|g: u32, z: u32, f: u32, c: u32|
        #![trigger keys[g as int], keys[z as int], keys[f as int], keys[c as int]]
        keys[r as int] == NodeKey::Ite(g, f, c) && keys[g as int] == NodeKey::Leq(z, a) && keys[z as int] == NodeKey::Real(0, 1)
            && keys[f as int] == NodeKey::Floor(a) && is_ceiling(keys, c, a)
}

proof fn lemma_ceiling_grows(old: Seq<NodeKey>, new: Seq<NodeKey>, c: u32, a: u32)
    requires
        extends(old, new),
        c < old.len(),
        is_ceiling(old, c, a),
    ensures
        is_ceiling(new, c, a),
{
    let (f, n) = choose|f: u32, n: u32| #![trigger old[f as int], old[n as int]]
        f < old.len() && n < old.len() && old[c as int] == NodeKey::Neg(f) && old[f as int] == NodeKey::Floor(n)
            && old[n as int] == NodeKey::Neg(a);
    assert(new[c as int] == new.subrange(0, old.len() as int)[c as int]);
    assert(new[f as int] == new.subrange(0, old.len() as int)[f as int]);
    assert(new[n as int] == new.subrange(0, old.len() as int)[n as int]);
}

/// `f` is the implication `a => b`, built as `!a || b`.
pub open spec fn is_implication(keys: Seq<NodeKey>, f: u32, a: u32, b: u32) -> bool {
    exists|n: u32| #![trigger keys[n as int]] n < keys.len() && keys[n as int] == NodeKey::Not(a) && keys[f as int] == NodeKey::Or(seq![n, b])
}

proof fn lemma_implication_grows(old: Seq<NodeKey>, new: Seq<NodeKey>, f: u32, a: u32, b: u32)
    requires
        extends(old, new),
        f < old.len(),
        is_implication(old, f, a, b),
    ensures
        is_implication(new, f, a, b),
{
    let n = choose|n: u32| #![trigger old[n as int]] n < old.len() && old[n as int] == NodeKey::Not(a) && old[f as int] == NodeKey::Or(seq![n, b]);
    assert(new[n as int] == new.subrange(0, old.len() as int)[n as int]);
    assert(new[f as int] == new.subrange(0, old.len() as int)[f as int]);
}

/// The node of an arithmetic comparison.
pub open spec fn compare_key(op: ArithCmp, a: u32, b: u32) -> NodeKey {
    match op {
        ArithCmp::Eq => NodeKey::Eq(a, b),
        ArithCmp::Leq => NodeKey::Leq(a, b),
        ArithCmp::Lt => NodeKey::Lt(a, b),
    }
}

/// `n` copies of `a`.
pub open spec fn copies(a: u32, n: nat) -> Seq<u32> {
    Seq::new(n, |i: int| a)
}

pub(crate) proof fn lemma_grows_trans<C>(a: &Context<C>, b: &Context<C>, c: &Context<C>)
    requires
        b.grows_from(a),
        c.grows_from(b),
    ensures
        c.grows_from(a),
{
    assert(c.keys().subrange(0, a.keys().len() as int) =~= b.keys().subrange(0, a.keys().len() as int));
}

impl<C> Context<C> {
    /// Every handle of the list is still valid in a grown context.
    pub(crate) proof fn lemma_grows_arith_list(&self, old: &Self, ts: Seq<ArithTerm<C>>)
        requires
            self.grows_from(old),
            forall|k: int| 0 <= k < ts.len() ==> old.arith_ok(#[trigger] ts[k]),
        ensures
            forall|k: int| 0 <= k < ts.len() ==> self.arith_ok(#[trigger] ts[k]),
    {
        assert forall|k: int| 0 <= k < ts.len() implies self.arith_ok(#[trigger] ts[k]) by {
            self.lemma_grows(old, ts[k]@ as int);
        }
    }

    /// Create an integer literal from a 64-bit int.
    pub fn mk_int(&mut self, n: i64) -> (r: ArithTerm<C>)
        requires
            old(self).wf(),
            old(self).room(1),
        ensures
            final(self).wf(),
            final(self).grows_from(old(self)),
            interns(old(self).keys(), final(self).keys(), NodeKey::Real(n as int, 1), r@),
            final(self).arith_ok(r),
    {
        self.mk_real(QQ::of_i64(n))
    }

    /// The zero constant.
    pub fn mk_zero(&mut self) -> (r: ArithTerm<C>)
        requires
            old(self).wf(),
            old(self).room(1),
        ensures
            final(self).wf(),
            final(self).grows_from(old(self)),
            interns(old(self).keys(), final(self).keys(), NodeKey::Real(0, 1), r@),
            final(self).arith_ok(r),
    {
        self.mk_real(QQ::zero())
    }

    /// The one constant.
    pub fn mk_one(&mut self) -> (r: ArithTerm<C>)
        requires
            old(self).wf(),
            old(self).room(1),
        ensures
            final(self).wf(),
            final(self).grows_from(old(self)),
            interns(old(self).keys(), final(self).keys(), NodeKey::Real(1, 1), r@),
            final(self).arith_ok(r),
    {
        self.mk_real(QQ::one())
    }

    /// The ids of a list of arithmetic terms.
    fn arith_id_list(terms: &[ArithTerm<C>]) -> (r: Vec<ExprId>)
        ensures
            ids_view(r@) == arith_ids(terms@),
    {
        let mut ids: Vec<ExprId> = Vec::new();
        let mut k: usize = 0;
        while k < terms.len()
            invariant
                k <= terms@.len(),
                ids@.len() == k,
                forall|j: int| 0 <= j < k ==> (#[trigger] ids@[j])@ == terms@[j]@,
            decreases terms@.len() - k,
        {
            ids.push(terms[k].node_id());
            k = k + 1;
        }
        proof {
            assert(ids_view(ids@) =~= arith_ids(terms@));
        }
        ids
    }

    /// The ids of a list of formulas.
    fn formula_id_list(formulas: &[Formula<C>]) -> (r: Vec<ExprId>)
        ensures
            ids_view(r@) == formula_ids(formulas@),
    {
        let mut ids: Vec<ExprId> = Vec::new();
        let mut k: usize = 0;
        while k < formulas.len()
            invariant
                k <= formulas@.len(),
                ids@.len() == k,
                forall|j: int| 0 <= j < k ==> (#[trigger] ids@[j])@ == formulas@[j]@,
            decreases formulas@.len() - k,
        {
            ids.push(formulas[k].node_id());
            k = k + 1;
        }
        proof {
            assert(ids_view(ids@) =~= formula_ids(formulas@));
        }
        ids
    }

    /// Create a sum. An empty list yields zero.
    pub fn mk_add(&mut self, terms: &[ArithTerm<C>]) -> (r: ArithTerm<C>)
        requires
            old(self).wf(),
            old(self).room(1),
            forall|k: int| 0 <= k < terms@.len() ==> old(self).arith_ok(#[trigger] terms@[k]),
        ensures
            final(self).wf(),
            final(self).grows_from(old(self)),
            terms@.len() == 0 ==> interns(old(self).keys(), final(self).keys(), NodeKey::Real(0, 1), r@),
            terms@.len() == 1 ==> r == terms@[0] && final(self).keys() == old(self).keys(),
            terms@.len() >= 2 ==> interns(old(self).keys(), final(self).keys(), NodeKey::Add(arith_ids(terms@)), r@),
            final(self).arith_ok(r),
    {
        if terms.len() == 0 {
            self.mk_zero()
        } else if terms.len() == 1 {
            proof {
                assert(self.keys().subrange(0, self.keys().len() as int) =~= self.keys());
            }
            terms[0]
        } else {
            let ids = Self::arith_id_list(terms);
            let node = SExprNode::Add(ids);
            proof {
                lemma_push_typs(self.keys(), self.syms(), node_key(node));
                assert forall|k: int| 0 <= k < arith_ids(terms@).len() implies arith_ids(terms@)[k] < self.keys().len() && is_arith(
                    typ_at(self.keys().push(node_key(node)), self.syms(), arith_ids(terms@)[k] as int),
                ) by {
                    assert(self.arith_ok(terms@[k]));
                }
            }
            let id = self.intern(node);
            ArithTerm::of_id(id)
        }
    }

    /// Create a product. An empty list yields one.
    pub fn mk_mul(&mut self, terms: &[ArithTerm<C>]) -> (r: ArithTerm<C>)
        requires
            old(self).wf(),
            old(self).room(1),
            forall|k: int| 0 <= k < terms@.len() ==> old(self).arith_ok(#[trigger] terms@[k]),
        ensures
            final(self).wf(),
            final(self).grows_from(old(self)),
            terms@.len() == 0 ==> interns(old(self).keys(), final(self).keys(), NodeKey::Real(1, 1), r@),
            terms@.len() == 1 ==> r == terms@[0] && final(self).keys() == old(self).keys(),
            terms@.len() >= 2 ==> interns(old(self).keys(), final(self).keys(), NodeKey::Mul(arith_ids(terms@)), r@),
            final(self).arith_ok(r),
    {
        if terms.len() == 0 {
            self.mk_one()
        } else if terms.len() == 1 {
            proof {
                assert(self.keys().subrange(0, self.keys().len() as int) =~= self.keys());
            }
            terms[0]
        } else {
            let ids = Self::arith_id_list(terms);
            let node = SExprNode::Mul(ids);
            proof {
                lemma_push_typs(self.keys(), self.syms(), node_key(node));
                assert forall|k: int| 0 <= k < arith_ids(terms@).len() implies arith_ids(terms@)[k] < self.keys().len() && is_arith(
                    typ_at(self.keys().push(node_key(node)), self.syms(), arith_ids(terms@)[k] as int),
                ) by {
                    assert(self.arith_ok(terms@[k]));
                }
            }
            let id = self.intern(node);
            ArithTerm::of_id(id)
        }
    }

    /// Conjunction. An empty list yields `true`.
    pub fn mk_and(&mut self, formulas: &[Formula<C>]) -> (r: Formula<C>)
        requires
            old(self).wf(),
            old(self).room(1),
            forall|k: int| 0 <= k < formulas@.len() ==> old(self).formula_ok(#[trigger] formulas@[k]),
        ensures
            final(self).wf(),
            final(self).grows_from(old(self)),
            formulas@.len() == 0 ==> interns(old(self).keys(), final(self).keys(), NodeKey::True, r@),
            formulas@.len() == 1 ==> r == formulas@[0] && final(self).keys() == old(self).keys(),
            formulas@.len() >= 2 ==> interns(old(self).keys(), final(self).keys(), NodeKey::And(formula_ids(formulas@)), r@),
            final(self).formula_ok(r),
    {
        if formulas.len() == 0 {
            self.mk_true()
        } else if formulas.len() == 1 {
            proof {
                assert(self.keys().subrange(0, self.keys().len() as int) =~= self.keys());
            }
            formulas[0]
        } else {
            let ids = Self::formula_id_list(formulas);
            let node = SExprNode::And(ids);
            proof {
                lemma_push_typs(self.keys(), self.syms(), node_key(node));
                assert forall|k: int| 0 <= k < formula_ids(formulas@).len() implies formula_ids(formulas@)[k] < self.keys().len()
                    && typ_at(self.keys().push(node_key(node)), self.syms(), formula_ids(formulas@)[k] as int) == TypFo::Bool by {
                    assert(self.formula_ok(formulas@[k]));
                }
            }
            let id = self.intern(node);
            Formula::of_id(id)
        }
    }

    /// Disjunction. An empty list yields `false`.
    pub fn mk_or(&mut self, formulas: &[Formula<C>]) -> (r: Formula<C>)
        requires
            old(self).wf(),
            old(self).room(1),
            forall|k: int| 0 <= k < formulas@.len() ==> old(self).formula_ok(#[trigger] formulas@[k]),
        ensures
            final(self).wf(),
            final(self).grows_from(old(self)),
            formulas@.len() == 0 ==> interns(old(self).keys(), final(self).keys(), NodeKey::False, r@),
            formulas@.len() == 1 ==> r == formulas@[0] && final(self).keys() == old(self).keys(),
            formulas@.len() >= 2 ==> interns(old(self).keys(), final(self).keys(), NodeKey::Or(formula_ids(formulas@)), r@),
            final(self).formula_ok(r),
    {
        if formulas.len() == 0 {
            self.mk_false()
        } else if formulas.len() == 1 {
            proof {
                assert(self.keys().subrange(0, self.keys().len() as int) =~= self.keys());
            }
            formulas[0]
        } else {
            let ids = Self::formula_id_list(formulas);
            let node = SExprNode::Or(ids);
            proof {
                lemma_push_typs(self.keys(), self.syms(), node_key(node));
                assert forall|k: int| 0 <= k < formula_ids(formulas@).len() implies formula_ids(formulas@)[k] < self.keys().len()
                    && typ_at(self.keys().push(node_key(node)), self.syms(), formula_ids(formulas@)[k] as int) == TypFo::Bool by {
                    assert(self.formula_ok(formulas@[k]));
                }
            }
            let id = self.intern(node);
            Formula::of_id(id)
        }
    }
}


proof fn lemma_any_real_mono(nodes: Seq<NodeKey>, syms: Seq<(Seq<char>, Typ)>, cs: Seq<u32>, n: int, m: int, i: int)
    requires
        0 <= n <= m <= cs.len(),
        any_real(nodes, syms, cs, n, i),
    ensures
        any_real(nodes, syms, cs, m, i),
    decreases m - n,
{
    if n < m {
        lemma_any_real_mono(nodes, syms, cs, n, m - 1, i);
    }
}

impl<C> Context<C> {
    // -----------------------------------------------------------------------
    // Type queries
    // -----------------------------------------------------------------------

    /// The type of node `id`.
    fn id_typ(&self, id: ExprId) -> (r: TypFo)
        requires
            self.wf(),
            id@ < self.keys().len(),
        ensures
            r == self.typ_of(id@ as int),
        decreases id@,
    {
        let ghost i = id@ as int;
        let ghost keys = self.keys();
        proof {
            assert(node_ok(keys, self.syms(), i));
        }
        let node = self.node(id);
        match node {
            SExprNode::Real(_) => TypFo::Real,
            SExprNode::Floor(_) => TypFo::Int,
            SExprNode::Neg(c) => {
                proof {
                    assert(children_of(keys[i])[0] < i);
                }
                self.id_typ(*c)
            },
            SExprNode::Add(cs) | SExprNode::Mul(cs) => {
                let ghost ids = ids_view(cs@);
                proof {
                    assert(children_of(keys[i]) == ids);
                }
                let mut k: usize = 0;
                while k < cs.len()
                    invariant
                        self.wf(),
                        0 <= i < keys.len(),
                        keys == self.keys(),
                        ids == ids_view(cs@),
                        children_of(keys[i]) == ids,
                        node_ok(keys, self.syms(), i),
                        k <= cs@.len(),
                        keys[i] == NodeKey::Add(ids) || keys[i] == NodeKey::Mul(ids),
                        !any_real(keys, self.syms(), ids, k as int, i),
                        id@ == i,
                    decreases cs@.len() - k,
                {
                    proof {
                        assert(ids[k as int] == cs@[k as int]@);
                        assert(children_of(keys[i])[k as int] < i);
                    }
                    if self.id_typ(cs[k]) == TypFo::Real {
                        proof {
                            assert(typ_at(keys, self.syms(), ids[k as int] as int) == TypFo::Real);
                            assert(any_real(keys, self.syms(), ids, k + 1, i));
                            lemma_any_real_mono(keys, self.syms(), ids, k + 1, ids.len() as int, i);
                            assert(any_real(keys, self.syms(), ids, ids.len() as int, i));
                            assert(keys[i] == NodeKey::Add(ids) || keys[i] == NodeKey::Mul(ids));
                        }
                        return TypFo::Real;
                    }
                    k = k + 1;
                }
                TypFo::Int
            },
            SExprNode::Div(_, _) => TypFo::Real,
            SExprNode::Mod(a, _) => {
                proof {
                    assert(children_of(keys[i])[0] < i);
                }
                self.id_typ(*a)
            },
            SExprNode::Select(_, _) => TypFo::Real,
            SExprNode::Var(_, typ) => *typ,
            SExprNode::App(sym, _) => match self.typ_symbol(*sym) {
                Typ::Fun(_, cod) => *cod,
                Typ::Int => TypFo::Int,
                Typ::Real => TypFo::Real,
                Typ::Bool => TypFo::Bool,
                Typ::Arr => TypFo::Arr,
            },
            SExprNode::Store(_, _, _) => TypFo::Arr,
            SExprNode::True | SExprNode::False | SExprNode::And(_) | SExprNode::Or(_) | SExprNode::Not(_) | SExprNode::Eq(_, _)
            | SExprNode::Leq(_, _) | SExprNode::Lt(_, _) | SExprNode::ArrEq(_, _) | SExprNode::Exists(_, _, _)
            | SExprNode::Forall(_, _, _) => TypFo::Bool,
            SExprNode::Ite(_, t, _) => {
                proof {
                    assert(children_of(keys[i])[1] < i);
                }
                self.id_typ(*t)
            },
        }
    }

    /// Get the first-order type of an expression.
    pub fn expr_typ(&self, expr: &Expr<C>) -> (r: TypFo)
        requires
            self.wf(),
            expr_id(*expr) < self.keys().len(),
        ensures
            r == self.typ_of(expr_id(*expr) as int),
    {
        self.id_typ(expr.id())
    }

    /// Classify an `ExprId` into a typed handle by its type.
    fn id_to_expr(&self, id: ExprId) -> (r: Expr<C>)
        requires
            self.wf(),
            id@ < self.keys().len(),
        ensures
            expr_id(r) == id@,
            self.expr_ok(r),
    {
        match self.id_typ(id) {
            TypFo::Int | TypFo::Real => Expr::ArithTerm(ArithTerm::of_id(id)),
            TypFo::Arr => Expr::ArrTerm(ArrTerm::of_id(id)),
            TypFo::Bool => Expr::Formula(Formula::of_id(id)),
        }
    }

    /// Classify an `ExprId` into a typed `Expr` handle (crate-internal).
    pub(crate) fn id_to_expr_pub(&self, id: ExprId) -> (r: Expr<C>)
        requires
            self.wf(),
            id@ < self.keys().len(),
        ensures
            expr_id(r) == id@,
            self.expr_ok(r),
    {
        self.id_to_expr(id)
    }

    /// Get the `TypArith` for an arithmetic term.
    pub fn arith_term_typ(&self, t: ArithTerm<C>) -> (r: TypArith)
        requires
            self.wf(),
            t@ < self.keys().len(),
        ensures
            r == (if self.typ_of(t@ as int) == TypFo::Int { TypArith::Int } else { TypArith::Real }),
    {
        match self.id_typ(t.node_id()) {
            TypFo::Int => TypArith::Int,
            _ => TypArith::Real,
        }
    }

    /// Get the `TypTerm` for a generic term.
    pub fn term_typ(&self, t: &Term<C>) -> (r: TypTerm)
        requires
            self.wf(),
            term_id(*t) < self.keys().len(),
        ensures
            r == match *t {
                Term::Arith(a) => if self.typ_of(a@ as int) == TypFo::Int {
                    TypTerm::Int
                } else {
                    TypTerm::Real
                },
                Term::Arr(_) => TypTerm::Arr,
            },
    {
        match t {
            Term::Arith(a) => match self.arith_term_typ(*a) {
                TypArith::Int => TypTerm::Int,
                TypArith::Real => TypTerm::Real,
            },
            Term::Arr(_) => TypTerm::Arr,
        }
    }

    // -----------------------------------------------------------------------
    // Generic constructors
    // -----------------------------------------------------------------------

    /// Create a constant symbol expression.
    pub fn mk_const(&mut self, sym: Symbol) -> (r: Expr<C>)
        requires
            old(self).wf(),
            old(self).room(1),
            sym@ < old(self).syms().len(),
        ensures
            final(self).wf(),
            final(self).grows_from(old(self)),
            interns(old(self).keys(), final(self).keys(), NodeKey::App(sym@, Seq::empty()), expr_id(r)),
            final(self).expr_ok(r),
    {
        let node = SExprNode::App(sym, Vec::new());
        proof {
            assert(ids_view(Seq::<ExprId>::empty()) =~= Seq::<u32>::empty());
        }
        let id = self.intern(node);
        self.id_to_expr(id)
    }

    /// The ids of a list of expressions.
    fn expr_id_list(args: &[Expr<C>]) -> (r: Vec<ExprId>)
        ensures
            ids_view(r@) == expr_ids(args@),
    {
        let mut ids: Vec<ExprId> = Vec::new();
        let mut k: usize = 0;
        while k < args.len()
            invariant
                k <= args@.len(),
                ids@.len() == k,
                forall|j: int| 0 <= j < k ==> (#[trigger] ids@[j])@ == expr_id(args@[j]),
            decreases args@.len() - k,
        {
            ids.push(args[k].id());
            k = k + 1;
        }
        proof {
            assert(ids_view(ids@) =~= expr_ids(args@));
        }
        ids
    }

    /// Create a function application.
    pub fn mk_app(&mut self, sym: Symbol, args: &[Expr<C>]) -> (r: Expr<C>)
        requires
            old(self).wf(),
            old(self).room(1),
            sym@ < old(self).syms().len(),
            forall|k: int| 0 <= k < args@.len() ==> old(self).expr_ok(#[trigger] args@[k]),
        ensures
            final(self).wf(),
            final(self).grows_from(old(self)),
            interns(old(self).keys(), final(self).keys(), NodeKey::App(sym@, expr_ids(args@)), expr_id(r)),
            final(self).expr_ok(r),
    {
        let ids = Self::expr_id_list(args);
        let node = SExprNode::App(sym, ids);
        proof {
            assert forall|k: int| 0 <= k < expr_ids(args@).len() implies expr_ids(args@)[k] < self.keys().len() by {
                assert(self.expr_ok(args@[k]));
            }
        }
        let id = self.intern(node);
        self.id_to_expr(id)
    }

    /// Create a de Bruijn variable.
    pub fn mk_var(&mut self, index: u32, typ: TypFo) -> (r: Expr<C>)
        requires
            old(self).wf(),
            old(self).room(1),
        ensures
            final(self).wf(),
            final(self).grows_from(old(self)),
            interns(old(self).keys(), final(self).keys(), NodeKey::Var(index, typ), expr_id(r)),
            final(self).expr_ok(r),
    {
        let node = SExprNode::Var(index, typ);
        let id = self.intern(node);
        self.id_to_expr(id)
    }

    // -----------------------------------------------------------------------
    // Derived constructors
    // -----------------------------------------------------------------------

    /// C99 integer division: `truncate(a/b)`, rounding toward zero.
    pub fn mk_idiv(&mut self, a: ArithTerm<C>, b: ArithTerm<C>) -> (r: ArithTerm<C>)
        requires
            old(self).wf(),
            old(self).room(8),
            old(self).arith_ok(a),
            old(self).arith_ok(b),
        ensures
            final(self).keys().len() <= old(self).keys().len() + 8,
            final(self).wf(),
            final(self).grows_from(old(self)),
            final(self).arith_ok(r),
            exists|d: u32| #![trigger final(self).keys()[d as int]]
                final(self).keys()[d as int] == NodeKey::Div(a@, b@) && is_truncate(final(self).keys(), r@, d),
    {
        let ghost s0 = *self;
        let div = self.mk_div(a, b);
        let ghost s1 = *self;
        proof {
            self.lemma_grows(&s0, a@ as int);
        }
        let r = self.mk_truncate(div);
        proof {
            lemma_grows_trans(&s0, &s1, self);
            self.lemma_grows(&s1, div@ as int);
        }
        r
    }

    /// Subtraction: `a - b`.
    pub fn mk_sub(&mut self, a: ArithTerm<C>, b: ArithTerm<C>) -> (r: ArithTerm<C>)
        requires
            old(self).wf(),
            old(self).room(2),
            old(self).arith_ok(a),
            old(self).arith_ok(b),
        ensures
            final(self).keys().len() <= old(self).keys().len() + 2,
            final(self).wf(),
            final(self).grows_from(old(self)),
            final(self).arith_ok(r),
            exists|n: u32| #![trigger final(self).keys()[n as int]]
                final(self).keys()[n as int] == NodeKey::Neg(b@) && final(self).keys()[r@ as int] == NodeKey::Add(seq![a@, n]),
    {
        let ghost s0 = *self;
        let neg_b = self.mk_neg(b);
        let ghost s1 = *self;
        proof {
            self.lemma_grows(&s0, a@ as int);
        }
        let terms = [a, neg_b];
        proof {
            assert(terms@ == seq![a, neg_b]);
            assert(arith_ids(terms@) =~= seq![a@, neg_b@]);
        }
        let r = self.mk_add(&terms);
        proof {
            lemma_grows_trans(&s0, &s1, self);
            self.lemma_grows(&s1, neg_b@ as int);
        }
        r
    }

    /// Ceiling: ceil(a) = -floor(-a).
    pub fn mk_ceiling(&mut self, a: ArithTerm<C>) -> (r: ArithTerm<C>)
        requires
            old(self).wf(),
            old(self).room(3),
            old(self).arith_ok(a),
        ensures
            final(self).keys().len() <= old(self).keys().len() + 3,
            final(self).wf(),
            final(self).grows_from(old(self)),
            final(self).arith_ok(r),
            is_ceiling(final(self).keys(), r@, a@),
    {
        let ghost s0 = *self;
        let neg = self.mk_neg(a);
        let ghost s1 = *self;
        let floor = self.mk_floor(neg);
        let ghost s2 = *self;
        let r = self.mk_neg(floor);
        proof {
            lemma_grows_trans(&s0, &s1, &s2);
            lemma_grows_trans(&s0, &s2, self);
            lemma_grows_trans(&s1, &s2, self);
            self.lemma_grows(&s1, neg@ as int);
            self.lemma_grows(&s2, floor@ as int);
            assert(self.keys()[floor@ as int] == NodeKey::Floor(neg@));
            assert(self.keys()[neg@ as int] == NodeKey::Neg(a@));
        }
        r
    }

    /// Truncate: remove fractional part, rounding toward zero.
    #[verifier::spinoff_prover]
    pub fn mk_truncate(&mut self, a: ArithTerm<C>) -> (r: ArithTerm<C>)
        requires
            old(self).wf(),
            old(self).room(7),
            old(self).arith_ok(a),
        ensures
            final(self).keys().len() <= old(self).keys().len() + 7,
            final(self).wf(),
            final(self).grows_from(old(self)),
            final(self).arith_ok(r),
            exists|g: u32, z: u32, f: u32, c: u32|
                #![trigger final(self).keys()[g as int], final(self).keys()[z as int], final(self).keys()[f as int], final(self).keys()[c as int]]
                final(self).keys()[r@ as int] == NodeKey::Ite(g, f, c) && final(self).keys()[g as int] == NodeKey::Leq(z, a@)
                    && final(self).keys()[z as int] == NodeKey::Real(0, 1) && final(self).keys()[f as int] == NodeKey::Floor(a@)
                    && is_ceiling(final(self).keys(), c, a@),
    {
        let ghost s0 = *self;
        let zero = self.mk_zero();
        let ghost s1 = *self;
        proof {
            self.lemma_grows(&s0, a@ as int);
        }
        let geq_zero = self.mk_leq(zero, a);
        let ghost s2 = *self;
        proof {
            lemma_grows_trans(&s0, &s1, &s2);
            self.lemma_grows(&s0, a@ as int);
        }
        let floor = self.mk_floor(a);
        let ghost s3 = *self;
        proof {
            lemma_grows_trans(&s0, &s2, &s3);
            self.lemma_grows(&s0, a@ as int);
        }
        let ceil = self.mk_ceiling(a);
        let ghost s4 = *self;
        proof {
            lemma_grows_trans(&s0, &s3, &s4);
            lemma_grows_trans(&s2, &s3, &s4);
            self.lemma_grows(&s2, geq_zero@ as int);
            self.lemma_grows(&s3, floor@ as int);
        }
        let r = self.mk_arith_ite(geq_zero, floor, ceil);
        proof {
            lemma_grows_trans(&s0, &s4, self);
            lemma_grows_trans(&s1, &s2, &s4);
            lemma_grows_trans(&s1, &s4, self);
            lemma_grows_trans(&s2, &s4, self);
            lemma_grows_trans(&s3, &s4, self);
            self.lemma_grows(&s1, zero@ as int);
            self.lemma_grows(&s2, geq_zero@ as int);
            self.lemma_grows(&s3, floor@ as int);
            lemma_ceiling_grows(s4.keys(), self.keys(), ceil@, a@);
            let k = self.keys();
            assert(k[r@ as int] == NodeKey::Ite(geq_zero@, floor@, ceil@));
            assert(k[geq_zero@ as int] == NodeKey::Leq(zero@, a@));
            assert(k[zero@ as int] == NodeKey::Real(0, 1));
            assert(k[floor@ as int] == NodeKey::Floor(a@));
        }
        r
    }

    /// Power: `a^n` for non-negative integer exponent.
    pub fn mk_pow(&mut self, a: ArithTerm<C>, n: u32) -> (r: ArithTerm<C>)
        requires
            old(self).wf(),
            old(self).room(1),
            old(self).arith_ok(a),
        ensures
            final(self).wf(),
            final(self).grows_from(old(self)),
            final(self).arith_ok(r),
            n == 0 ==> interns(old(self).keys(), final(self).keys(), NodeKey::Real(1, 1), r@),
            n == 1 ==> r@ == a@ && final(self).keys() == old(self).keys(),
            n >= 2 ==> interns(old(self).keys(), final(self).keys(), NodeKey::Mul(copies(a@, n as nat)), r@),
    {
        if n == 0 {
            return self.mk_one();
        }
        let mut factors: Vec<ArithTerm<C>> = Vec::new();
        let mut k: u32 = 0;
        while k < n
            invariant
                k <= n,
                factors@.len() == k,
                forall|j: int| 0 <= j < k ==> #[trigger] factors@[j] == a,
            decreases n - k,
        {
            factors.push(a);
            k = k + 1;
        }
        proof {
            assert(arith_ids(factors@) =~= copies(a@, n as nat));
        }
        self.mk_mul(factors.as_slice())
    }

    /// Implication: `a => b` is `!a || b`.
    pub fn mk_if(&mut self, a: Formula<C>, b: Formula<C>) -> (r: Formula<C>)
        requires
            old(self).wf(),
            old(self).room(2),
            old(self).formula_ok(a),
            old(self).formula_ok(b),
        ensures
            final(self).keys().len() <= old(self).keys().len() + 2,
            final(self).wf(),
            final(self).grows_from(old(self)),
            final(self).formula_ok(r),
            is_implication(final(self).keys(), r@, a@, b@),
    {
        let ghost s0 = *self;
        let not_a = self.mk_not(a);
        let ghost s1 = *self;
        proof {
            self.lemma_grows(&s0, b@ as int);
        }
        let fs = [not_a, b];
        proof {
            assert(fs@ == seq![not_a, b]);
            assert(formula_ids(fs@) =~= seq![not_a@, b@]);
        }
        let r = self.mk_or(&fs);
        proof {
            lemma_grows_trans(&s0, &s1, self);
            self.lemma_grows(&s1, not_a@ as int);
            assert(self.keys()[not_a@ as int] == NodeKey::Not(a@));
        }
        r
    }

    /// Bi-implication: `a <=> b` is `(a => b) && (b => a)`.
    pub fn mk_iff(&mut self, a: Formula<C>, b: Formula<C>) -> (r: Formula<C>)
        requires
            old(self).wf(),
            old(self).room(5),
            old(self).formula_ok(a),
            old(self).formula_ok(b),
        ensures
            final(self).keys().len() <= old(self).keys().len() + 5,
            final(self).wf(),
            final(self).grows_from(old(self)),
            final(self).formula_ok(r),
            exists|f: u32, g: u32| #![trigger final(self).keys()[f as int], final(self).keys()[g as int]]
                final(self).keys()[r@ as int] == NodeKey::And(seq![f, g]) && is_implication(final(self).keys(), f, a@, b@)
                    && is_implication(final(self).keys(), g, b@, a@),
    {
        let ghost s0 = *self;
        let fwd = self.mk_if(a, b);
        let ghost s1 = *self;
        proof {
            self.lemma_grows(&s0, a@ as int);
            self.lemma_grows(&s0, b@ as int);
        }
        let bwd = self.mk_if(b, a);
        let ghost s2 = *self;
        proof {
            lemma_grows_trans(&s0, &s1, &s2);
            self.lemma_grows(&s1, fwd@ as int);
        }
        let fs = [fwd, bwd];
        proof {
            assert(fs@ == seq![fwd, bwd]);
            assert(formula_ids(fs@) =~= seq![fwd@, bwd@]);
        }
        let r = self.mk_and(&fs);
        proof {
            lemma_grows_trans(&s0, &s2, self);
            lemma_grows_trans(&s1, &s2, self);
            lemma_implication_grows(s1.keys(), s2.keys(), fwd@, a@, b@);
            lemma_implication_grows(s2.keys(), self.keys(), fwd@, a@, b@);
            lemma_implication_grows(s2.keys(), self.keys(), bwd@, b@, a@);
            assert(self.keys()[r@ as int] == NodeKey::And(seq![fwd@, bwd@]));
        }
        r
    }

    /// Build an arithmetic comparison atom from an `ArithCmp` tag.
    pub fn mk_compare(&mut self, op: ArithCmp, a: ArithTerm<C>, b: ArithTerm<C>) -> (r: Formula<C>)
        requires
            old(self).wf(),
            old(self).room(1),
            old(self).arith_ok(a),
            old(self).arith_ok(b),
        ensures
            final(self).wf(),
            final(self).grows_from(old(self)),
            interns(old(self).keys(), final(self).keys(), compare_key(op, a@, b@), r@),
            final(self).formula_ok(r),
    {
        match op {
            ArithCmp::Eq => self.mk_eq(a, b),
            ArithCmp::Leq => self.mk_leq(a, b),
            ArithCmp::Lt => self.mk_lt(a, b),
        }
    }
}

impl<C> Default for Context<C> {
    fn default() -> (r: Self)
        ensures
            r.wf(),
            r.keys() == Seq::<NodeKey>::empty(),
            r.syms() == Seq::<(Seq<char>, Typ)>::empty(),
            r.named() == Map::<Seq<char>, u32>::empty(),
    {
        Self::new()
    }
}


impl<C> Context<C> {
    /// Every node of a well-formed context is well formed.
    pub proof fn lemma_wf_node(&self, i: int)
        requires
            self.wf(),
            0 <= i < self.keys().len(),
        ensures
            node_ok(self.keys(), self.syms(), i),
            self.keys().len() <= u32::MAX,
            self.syms().len() <= u32::MAX,
    {
    }

    /// Hash-consing: a well-formed context never holds the same node twice,
    /// so structurally equal expressions are the same handle.
    pub proof fn lemma_hash_consing(&self, i: int, j: int)
        requires
            self.wf(),
            0 <= i < self.keys().len(),
            0 <= j < self.keys().len(),
            self.keys()[i] == self.keys()[j],
        ensures
            i == j,
    {
    }
}

} // verus!
