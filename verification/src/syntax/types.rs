//! Types of the expression language.

use vstd::prelude::*;
use vstd::std_specs::convert::FromSpecImpl;

verus! {

/// First-order types (used in quantifiers, variables, function arguments).
#[derive(Debug, Clone, Copy, PartialEq, Eq, Structural, Hash, PartialOrd, Ord)]
pub enum TypFo {
    Int,
    Real,
    Bool,
    Arr,
}

/// Arithmetic types.
#[derive(Debug, Clone, Copy, PartialEq, Eq, Structural, Hash, PartialOrd, Ord)]
pub enum TypArith {
    Int,
    Real,
}

/// Array type marker.
#[derive(Debug, Clone, Copy, PartialEq, Eq, Structural, Hash, PartialOrd, Ord)]
pub struct TypArr;

/// Term types (arithmetic or array).
#[derive(Debug, Clone, Copy, PartialEq, Eq, Structural, Hash, PartialOrd, Ord)]
pub enum TypTerm {
    Int,
    Real,
    Arr,
}

/// Full type (includes function types).
#[derive(Debug, PartialEq, Eq, Hash)]
pub enum Typ {
    Int,
    Real,
    Bool,
    Arr,
    Fun(Vec<TypFo>, TypFo),
}

/// Two types are the same: the same constructor, and for function types the
/// same argument list and result.
pub open spec fn same_typ(a: Typ, b: Typ) -> bool {
    match (a, b) {
        (Typ::Fun(d1, c1), Typ::Fun(d2, c2)) => d1@ == d2@ && c1 == c2,
        (Typ::Fun(_, _), _) => false,
        (_, Typ::Fun(_, _)) => false,
        _ => a == b,
    }
}

impl Clone for Typ {
    fn clone(&self) -> (r: Self)
        ensures
            same_typ(r, *self),
    {
        match self {
            Typ::Int => Typ::Int,
            Typ::Real => Typ::Real,
            Typ::Bool => Typ::Bool,
            Typ::Arr => Typ::Arr,
            Typ::Fun(dom, cod) => {
                let mut d: Vec<TypFo> = Vec::new();
                let mut k: usize = 0;
                while k < dom.len()
                    invariant
                        k <= dom@.len(),
                        d@ == dom@.subrange(0, k as int),
                    decreases dom@.len() - k,
                {
                    d.push(dom[k]);
                    k = k + 1;
                }
                proof {
                    assert(d@ =~= dom@);
                }
                Typ::Fun(d, *cod)
            },
        }
    }
}

// --- Conversions: sub-types widen into super-types ---

impl From<TypArith> for TypFo {
    fn from(t: TypArith) -> (r: Self) {
        match t {
            TypArith::Int => TypFo::Int,
            TypArith::Real => TypFo::Real,
        }
    }
}

impl FromSpecImpl<TypArith> for TypFo {
    open spec fn obeys_from_spec() -> bool {
        true
    }

    open spec fn from_spec(v: TypArith) -> TypFo {
        match v {
            TypArith::Int => TypFo::Int,
            TypArith::Real => TypFo::Real,
        }
    }
}

impl From<TypArr> for TypFo {
    fn from(_t: TypArr) -> (r: Self) {
        TypFo::Arr
    }
}

impl FromSpecImpl<TypArr> for TypFo {
    open spec fn obeys_from_spec() -> bool {
        true
    }

    open spec fn from_spec(v: TypArr) -> TypFo {
        TypFo::Arr
    }
}

impl From<TypTerm> for TypFo {
    fn from(t: TypTerm) -> (r: Self) {
        match t {
            TypTerm::Int => TypFo::Int,
            TypTerm::Real => TypFo::Real,
            TypTerm::Arr => TypFo::Arr,
        }
    }
}

impl FromSpecImpl<TypTerm> for TypFo {
    open spec fn obeys_from_spec() -> bool {
        true
    }

    open spec fn from_spec(v: TypTerm) -> TypFo {
        match v {
            TypTerm::Int => TypFo::Int,
            TypTerm::Real => TypFo::Real,
            TypTerm::Arr => TypFo::Arr,
        }
    }
}

impl From<TypArith> for TypTerm {
    fn from(t: TypArith) -> (r: Self) {
        match t {
            TypArith::Int => TypTerm::Int,
            TypArith::Real => TypTerm::Real,
        }
    }
}

impl FromSpecImpl<TypArith> for TypTerm {
    open spec fn obeys_from_spec() -> bool {
        true
    }

    open spec fn from_spec(v: TypArith) -> TypTerm {
        match v {
            TypArith::Int => TypTerm::Int,
            TypArith::Real => TypTerm::Real,
        }
    }
}

impl From<TypArr> for TypTerm {
    fn from(_t: TypArr) -> (r: Self) {
        TypTerm::Arr
    }
}

impl FromSpecImpl<TypArr> for TypTerm {
    open spec fn obeys_from_spec() -> bool {
        true
    }

    open spec fn from_spec(v: TypArr) -> TypTerm {
        TypTerm::Arr
    }
}

impl From<TypFo> for Typ {
    fn from(t: TypFo) -> (r: Self) {
        match t {
            TypFo::Int => Typ::Int,
            TypFo::Real => Typ::Real,
            TypFo::Bool => Typ::Bool,
            TypFo::Arr => Typ::Arr,
        }
    }
}

impl FromSpecImpl<TypFo> for Typ {
    open spec fn obeys_from_spec() -> bool {
        true
    }

    open spec fn from_spec(v: TypFo) -> Typ {
        match v {
            TypFo::Int => Typ::Int,
            TypFo::Real => Typ::Real,
            TypFo::Bool => Typ::Bool,
            TypFo::Arr => Typ::Arr,
        }
    }
}

impl From<TypArith> for Typ {
    fn from(t: TypArith) -> (r: Self) {
        match t {
            TypArith::Int => Typ::Int,
            TypArith::Real => Typ::Real,
        }
    }
}

impl FromSpecImpl<TypArith> for Typ {
    open spec fn obeys_from_spec() -> bool {
        true
    }

    open spec fn from_spec(v: TypArith) -> Typ {
        match v {
            TypArith::Int => Typ::Int,
            TypArith::Real => Typ::Real,
        }
    }
}

impl From<TypArr> for Typ {
    fn from(_t: TypArr) -> (r: Self) {
        Typ::Arr
    }
}

impl FromSpecImpl<TypArr> for Typ {
    open spec fn obeys_from_spec() -> bool {
        true
    }

    open spec fn from_spec(v: TypArr) -> Typ {
        Typ::Arr
    }
}

impl From<TypTerm> for Typ {
    fn from(t: TypTerm) -> (r: Self) {
        match t {
            TypTerm::Int => Typ::Int,
            TypTerm::Real => Typ::Real,
            TypTerm::Arr => Typ::Arr,
        }
    }
}

impl FromSpecImpl<TypTerm> for Typ {
    open spec fn obeys_from_spec() -> bool {
        true
    }

    open spec fn from_spec(v: TypTerm) -> Typ {
        match v {
            TypTerm::Int => Typ::Int,
            TypTerm::Real => Typ::Real,
            TypTerm::Arr => Typ::Arr,
        }
    }
}

/// `sub` is a subtype of `sup`: equal, or `Int` below `Real`.
pub open spec fn subtype_of(sub: TypFo, sup: TypFo) -> bool {
    sub == sup || (sub == TypFo::Int && sup == TypFo::Real)
}

/// Returns true if `sub` is a subtype of `sup` (Int <: Real).
pub fn is_subtype(sub: TypFo, sup: TypFo) -> (r: bool)
    ensures
        r == subtype_of(sub, sup),
{
    sub == sup || (sub == TypFo::Int && sup == TypFo::Real)
}

/// Subtyping is a partial order: reflexive, antisymmetric and transitive.
pub proof fn lemma_subtype_order(a: TypFo, b: TypFo, c: TypFo)
    ensures
        subtype_of(a, a),
        subtype_of(a, b) && subtype_of(b, a) ==> a == b,
        subtype_of(a, b) && subtype_of(b, c) ==> subtype_of(a, c),
{
}

// ---------------------------------------------------------------------------
// Rendering
// ---------------------------------------------------------------------------

/// The name of a first-order type.
pub open spec fn typ_fo_name(t: TypFo) -> Seq<char> {
    match t {
        TypFo::Int => seq!['i', 'n', 't'],
        TypFo::Real => seq!['r', 'e', 'a', 'l'],
        TypFo::Bool => seq!['b', 'o', 'o', 'l'],
        TypFo::Arr => seq!['a', 'r', 'r', 'a', 'y'],
    }
}

/// The names of the first `n` argument types, separated by ` * `.
pub open spec fn typ_list_name(ts: Seq<TypFo>, n: int) -> Seq<char>
    decreases n,
{
    if n <= 0 || n > ts.len() {
        Seq::empty()
    } else if n == 1 {
        typ_fo_name(ts[0])
    } else {
        typ_list_name(ts, n - 1) + seq![' ', '*', ' '] + typ_fo_name(ts[n - 1])
    }
}

/// The rendering of a type: its name, and `(a * b -> c)` for a function type.
pub open spec fn typ_name(t: Typ) -> Seq<char> {
    match t {
        Typ::Int => seq!['i', 'n', 't'],
        Typ::Real => seq!['r', 'e', 'a', 'l'],
        Typ::Bool => seq!['b', 'o', 'o', 'l'],
        Typ::Arr => seq!['a', 'r', 'r', 'a', 'y'],
        Typ::Fun(dom, cod) => seq!['('] + typ_list_name(dom@, dom@.len() as int) + seq![' ', '-', '>', ' '] + typ_fo_name(
            cod,
        ) + seq![')'],
    }
}

impl TypFo {
    /// The name of the type: `int`, `real`, `bool` or `array`.
    pub fn to_string(&self) -> (r: String)
        ensures
            r@ == typ_fo_name(*self),
    {
        match self {
            TypFo::Int => {
                proof {
                    reveal_strlit("int");
                }
                String::from_str("int")
            },
            TypFo::Real => {
                proof {
                    reveal_strlit("real");
                }
                String::from_str("real")
            },
            TypFo::Bool => {
                proof {
                    reveal_strlit("bool");
                }
                String::from_str("bool")
            },
            TypFo::Arr => {
                proof {
                    reveal_strlit("array");
                }
                String::from_str("array")
            },
        }
    }
}

impl TypArith {
    /// The name of the type: `int` or `real`.
    pub fn to_string(&self) -> (r: String)
        ensures
            r@ == typ_fo_name(
                match *self {
                    TypArith::Int => TypFo::Int,
                    TypArith::Real => TypFo::Real,
                },
            ),
    {
        match self {
            TypArith::Int => TypFo::Int.to_string(),
            TypArith::Real => TypFo::Real.to_string(),
        }
    }
}

impl TypArr {
    /// The name of the type: `array`.
    pub fn to_string(&self) -> (r: String)
        ensures
            r@ == typ_fo_name(TypFo::Arr),
    {
        TypFo::Arr.to_string()
    }
}

impl TypTerm {
    /// The name of the type: `int`, `real` or `array`.
    pub fn to_string(&self) -> (r: String)
        ensures
            r@ == typ_fo_name(
                match *self {
                    TypTerm::Int => TypFo::Int,
                    TypTerm::Real => TypFo::Real,
                    TypTerm::Arr => TypFo::Arr,
                },
            ),
    {
        match self {
            TypTerm::Int => TypFo::Int.to_string(),
            TypTerm::Real => TypFo::Real.to_string(),
            TypTerm::Arr => TypFo::Arr.to_string(),
        }
    }
}

impl Typ {
    /// The rendering of the type: its name, and `(a * b -> c)` for a
    /// function type.
    pub fn to_string(&self) -> (r: String)
        ensures
            r@ == typ_name(*self),
    {
        match self {
            Typ::Int => TypFo::Int.to_string(),
            Typ::Real => TypFo::Real.to_string(),
            Typ::Bool => TypFo::Bool.to_string(),
            Typ::Arr => TypFo::Arr.to_string(),
            Typ::Fun(dom, cod) => {
                proof {
                    reveal_strlit("(");
                    reveal_strlit(" * ");
                    reveal_strlit(" -> ");
                    reveal_strlit(")");
                }
                let mut s = String::from_str("(");
                let mut k: usize = 0;
                while k < dom.len()
                    invariant
                        k <= dom@.len(),
                        s@ == seq!['('] + typ_list_name(dom@, k as int),
                    decreases dom@.len() - k,
                {
                    let ghost before = s@;
                    proof {
                        reveal_strlit(" * ");
                    }
                    if k > 0 {
                        s.append(" * ");
                    }
                    let name = dom[k].to_string();
                    s.append(name.as_str());
                    proof {
                        if k == 0 {
                            assert(typ_list_name(dom@, 1) == typ_fo_name(dom@[0]));
                            assert(s@ =~= before + typ_fo_name(dom@[0]));
                        } else {
                            assert(typ_list_name(dom@, k + 1) == typ_list_name(dom@, k as int) + seq![' ', '*', ' '] + typ_fo_name(
                                dom@[k as int],
                            ));
                            assert(s@ =~= before + seq![' ', '*', ' '] + typ_fo_name(dom@[k as int]));
                        }
                        assert(seq!['('] + typ_list_name(dom@, k + 1) =~= s@);
                    }
                    k = k + 1;
                }
                s.append(" -> ");
                let c = cod.to_string();
                s.append(c.as_str());
                s.append(")");
                proof {
                    assert(s@ =~= typ_name(*self));
                }
                s
            },
        }
    }
}

} // verus!
