//! Runtime values of the language, the environment, and their models.
use vstd::prelude::*;

use crate::number::LispNumber;

verus! {

/// The dispatch tag of a value.
#[derive(Clone, Copy, Debug, PartialEq, Eq, Structural)]
pub enum LispTypeId {
    Number,
    String,
    List,
    Symbol,
    Function,
}

#[derive(Debug)]
pub struct LispString {
    pub value: String,
}

#[derive(Debug)]
pub struct LispSymbol {
    pub value: String,
}

#[derive(Debug)]
pub struct LispList {
    pub value: Vec<LispExpr>,
}

/// The native behaviours behind the builtin functions.
#[derive(Clone, Copy, Debug, PartialEq, Eq, Structural)]
pub enum Builtin {
    Println,
    Add,
    ToString,
}

#[derive(Debug)]
pub enum LispFunction {
    Internal { name: LispSymbol, args: Vec<LispSymbol>, func: Builtin },
    Lisp { name: LispSymbol, args: Vec<LispSymbol>, body: LispList },
}

#[derive(Debug)]
pub enum LispValue {
    Number(LispNumber),
    String(LispString),
    Symbol(LispSymbol),
    List(LispList),
    Function(LispFunction),
}

/// An expression lowered from a syntax tree: a literal awaiting reduction, a quoted form that
/// reduction hands back unevaluated, or nothing.
#[derive(Debug)]
pub enum LispExpr {
    Literal(LispValue),
    Quoted(Box<LispExpr>),
    Null,
}

#[derive(Debug)]
pub struct LispVariable {
    pub name: String,
    pub value: LispExpr,
}

/// The global environment, and the lines printed so far.
#[derive(Debug)]
pub struct Context {
    pub functions: Vec<LispFunction>,
    pub variables: Vec<LispVariable>,
    pub output: Vec<String>,
}

/// The model of a value.
pub enum Val {
    Number(LispNumber),
    Str(Seq<char>),
    Sym(Seq<char>),
    List(Seq<Expr>),
    Func(Fun),
}

/// The model of an expression.
pub enum Expr {
    Lit(Val),
    Quoted(Box<Expr>),
    Null,
}

/// The model of a function.
pub enum Fun {
    Builtin { name: Seq<char>, params: Seq<Seq<char>>, func: Builtin },
    User { name: Seq<char>, params: Seq<Seq<char>>, body: Seq<Expr> },
}

/// The model of a variable binding.
pub struct Binding {
    pub name: Seq<char>,
    pub value: Expr,
}

impl Fun {
    pub open spec fn name(self) -> Seq<char> {
        match self {
            Fun::Builtin { name, .. } => name,
            Fun::User { name, .. } => name,
        }
    }
}

pub open spec fn symbol_views(s: Seq<LispSymbol>) -> Seq<Seq<char>> {
    s.map_values(|x: LispSymbol| x.value@)
}

impl LispExpr {
    pub open spec fn view(&self) -> Expr
        decreases self,
    {
        match self {
            LispExpr::Literal(v) => Expr::Lit(
                match v {
                    LispValue::Number(n) => Val::Number(*n),
                    LispValue::String(s) => Val::Str(s.value@),
                    LispValue::Symbol(s) => Val::Sym(s.value@),
                    LispValue::List(l) => Val::List(expr_views(l.value@)),
                    LispValue::Function(f) => Val::Func(f.view()),
                },
            ),
            LispExpr::Quoted(b) => Expr::Quoted(Box::new((**b).view())),
            LispExpr::Null => Expr::Null,
        }
    }
}

impl LispValue {
    pub open spec fn view(&self) -> Val {
        match self {
            LispValue::Number(n) => Val::Number(*n),
            LispValue::String(s) => Val::Str(s.value@),
            LispValue::Symbol(s) => Val::Sym(s.value@),
            LispValue::List(l) => Val::List(expr_views(l.value@)),
            LispValue::Function(f) => Val::Func(f.view()),
        }
    }

    pub open spec fn type_id(&self) -> LispTypeId {
        match self {
            LispValue::Number(_) => LispTypeId::Number,
            LispValue::String(_) => LispTypeId::String,
            LispValue::Symbol(_) => LispTypeId::Symbol,
            LispValue::List(_) => LispTypeId::List,
            LispValue::Function(_) => LispTypeId::Function,
        }
    }

    /// The dispatch tag of the value.
    pub fn ltype(&self) -> (r: LispTypeId)
        ensures
            r == self.type_id(),
    {
        match self {
            LispValue::Number(_) => LispTypeId::Number,
            LispValue::String(_) => LispTypeId::String,
            LispValue::Symbol(_) => LispTypeId::Symbol,
            LispValue::List(_) => LispTypeId::List,
            LispValue::Function(_) => LispTypeId::Function,
        }
    }
}

impl LispFunction {
    pub open spec fn view(&self) -> Fun
        decreases self,
    {
        match self {
            LispFunction::Internal { name, args, func } => Fun::Builtin {
                name: name.value@,
                params: symbol_views(args@),
                func: *func,
            },
            LispFunction::Lisp { name, args, body } => Fun::User {
                name: name.value@,
                params: symbol_views(args@),
                body: expr_views(body.value@),
            },
        }
    }
}

pub open spec fn expr_views(s: Seq<LispExpr>) -> Seq<Expr>
    decreases s,
{
    if s.len() == 0 {
        Seq::empty()
    } else {
        expr_views(s.drop_last()).push(s.last().view())
    }
}

pub open spec fn function_views(s: Seq<LispFunction>) -> Seq<Fun> {
    s.map_values(|f: LispFunction| f.view())
}

pub open spec fn binding_views(s: Seq<LispVariable>) -> Seq<Binding> {
    s.map_values(|v: LispVariable| Binding { name: v.name@, value: v.value.view() })
}

pub open spec fn line_views(s: Seq<String>) -> Seq<Seq<char>> {
    s.map_values(|l: String| l@)
}

pub proof fn lemma_expr_views_push(s: Seq<LispExpr>, x: LispExpr)
    ensures
        expr_views(s.push(x)) == expr_views(s).push(x.view()),
{
    assert(s.push(x).drop_last() =~= s);
}

pub proof fn lemma_expr_views_len(s: Seq<LispExpr>)
    ensures
        expr_views(s).len() == s.len(),
    decreases s.len(),
{
    if s.len() > 0 {
        lemma_expr_views_len(s.drop_last());
    }
}

pub proof fn lemma_expr_views_index(s: Seq<LispExpr>, i: int)
    requires
        0 <= i < s.len(),
    ensures
        expr_views(s).len() == s.len(),
        expr_views(s)[i] == s[i].view(),
    decreases s.len(),
{
    lemma_expr_views_len(s);
    if i < s.len() - 1 {
        lemma_expr_views_index(s.drop_last(), i);
    }
}

pub fn copy_symbol(s: &LispSymbol) -> (r: LispSymbol)
    ensures
        r.value@ == s.value@,
{
    LispSymbol { value: s.value.clone() }
}

pub fn copy_symbols(v: &Vec<LispSymbol>) -> (r: Vec<LispSymbol>)
    ensures
        symbol_views(r@) == symbol_views(v@),
{
    let mut out: Vec<LispSymbol> = Vec::new();
    let mut i: usize = 0;
    while i < v.len()
        invariant
            i <= v.len(),
            out.len() == i,
            forall|j: int| 0 <= j < i ==> #[trigger] out@[j].value@ == v@[j].value@,
        decreases v.len() - i,
    {
        out.push(copy_symbol(&v[i]));
        i = i + 1;
    }
    proof {
        assert(symbol_views(out@) =~= symbol_views(v@));
    }
    out
}

/// A deep copy of an expression.
pub fn copy_expr(e: &LispExpr) -> (r: LispExpr)
    ensures
        r.view() == e.view(),
    decreases e,
{
    match e {
        LispExpr::Literal(v) => LispExpr::Literal(copy_value(v)),
        LispExpr::Quoted(b) => LispExpr::Quoted(Box::new(copy_expr(b))),
        LispExpr::Null => LispExpr::Null,
    }
}

/// A deep copy of a value.
pub fn copy_value(v: &LispValue) -> (r: LispValue)
    ensures
        r.view() == v.view(),
    decreases v,
{
    match v {
        LispValue::Number(n) => LispValue::Number(*n),
        LispValue::String(s) => LispValue::String(LispString { value: s.value.clone() }),
        LispValue::Symbol(s) => LispValue::Symbol(copy_symbol(s)),
        LispValue::List(l) => LispValue::List(copy_list(l)),
        LispValue::Function(f) => LispValue::Function(copy_function(f)),
    }
}

/// A deep copy of a list.
pub fn copy_list(l: &LispList) -> (r: LispList)
    ensures
        expr_views(r.value@) == expr_views(l.value@),
    decreases l,
{
    let mut out: Vec<LispExpr> = Vec::new();
    let mut i: usize = 0;
    while i < l.value.len()
        invariant
            i <= l.value.len(),
            expr_views(out@) == expr_views(l.value@.subrange(0, i as int)),
        decreases l.value.len() - i,
    {
        let ghost prev = l.value@.subrange(0, i as int);
        let x = copy_expr(&l.value[i]);
        proof {
            lemma_expr_views_push(out@, x);
            lemma_expr_views_push(prev, l.value@[i as int]);
            assert(l.value@.subrange(0, i + 1) =~= prev.push(l.value@[i as int]));
        }
        out.push(x);
        i = i + 1;
    }
    proof {
        assert(l.value@.subrange(0, l.value.len() as int) =~= l.value@);
    }
    LispList { value: out }
}

/// A deep copy of a function.
pub fn copy_function(f: &LispFunction) -> (r: LispFunction)
    ensures
        r.view() == f.view(),
    decreases f,
{
    match f {
        LispFunction::Internal { name, args, func } => LispFunction::Internal {
            name: copy_symbol(name),
            args: copy_symbols(args),
            func: *func,
        },
        LispFunction::Lisp { name, args, body } => LispFunction::Lisp {
            name: copy_symbol(name),
            args: copy_symbols(args),
            body: copy_list(body),
        },
    }
}

} // verus!
