//! The evaluator: syntax trees to expressions, and their reduction.
use vstd::prelude::*;

use crate::ast::{
    lemma_node_views_index, lemma_node_views_len, lemma_node_views_push, node_views, ASTNode,
    ASTNodeValue, Form, Tree,
};
use crate::function::{
    builtin_result, builtin_table, initial_bindings, lisp_add, lisp_println, lisp_to_string,
    result_view,
};
use crate::internal::{
    binding_views, copy_expr, copy_list, copy_symbols, expr_views, function_views,
    lemma_expr_views_index, lemma_expr_views_len, lemma_expr_views_push, line_views, symbol_views,
    Binding, Builtin, Context, Expr, Fun, LispExpr, LispFunction, LispList, LispString,
    LispSymbol, LispValue, LispVariable, Val,
};
use crate::token::Location;

verus! {

#[derive(Clone, Copy, Debug, PartialEq, Eq, Structural)]
pub enum EvalError {
    /// A symbol with no binding in scope.
    UnboundSymbol,
    /// A call of a name that no function has.
    UnknownFunction,
    /// A call with a number of arguments that the function does not take.
    ArityMismatch,
    /// An argument of a type that the function does not take.
    TypeMismatch,
    /// A call whose head is not a symbol.
    UnsupportedForm,
    /// Calls nested deeper than the evaluator allows.
    StackExhausted,
    /// No form is left to evaluate.
    EndOfInput,
    /// A sum whose exact value does not fit.
    NumericOverflow,
}

/// How deeply calls may nest, counting both calls written inside the
/// arguments of others and calls made from the bodies of user-defined
/// functions.
pub const MAX_CALL_DEPTH: usize = 256;

/// The expression that a syntax tree stands for; lists are kept unreduced.
pub open spec fn lower(t: Tree) -> Expr
    decreases t,
{
    match t.form {
        Form::Number(n) => Expr::Lit(Val::Number(n)),
        Form::Str(s) => Expr::Lit(Val::Str(s)),
        Form::Ident(s) => Expr::Lit(Val::Sym(s)),
        Form::List(xs) => Expr::Lit(Val::List(lower_all(xs))),
        Form::Quote(b) => Expr::Quoted(Box::new(lower(*b))),
    }
}

pub open spec fn lower_all(ts: Seq<Tree>) -> Seq<Expr>
    decreases ts,
{
    if ts.len() == 0 {
        Seq::empty()
    } else {
        lower_all(ts.drop_last()).push(lower(ts.last()))
    }
}

/// The value of the first binding of `name`.
pub open spec fn lookup(vars: Seq<Binding>, name: Seq<char>) -> Option<Expr>
    decreases vars.len(),
{
    if vars.len() == 0 {
        None
    } else if vars[0].name == name {
        Some(vars[0].value)
    } else {
        lookup(vars.drop_first(), name)
    }
}

/// The first function named `name`.
pub open spec fn find_function(fns: Seq<Fun>, name: Seq<char>) -> Option<Fun>
    decreases fns.len(),
{
    if fns.len() == 0 {
        None
    } else if fns[0].name() == name {
        Some(fns[0])
    } else {
        find_function(fns.drop_first(), name)
    }
}

/// A local scope binding each parameter to the argument at its position.
pub open spec fn bind_params(params: Seq<Seq<char>>, args: Seq<Expr>) -> Seq<Binding> {
    Seq::new(params.len(), |i: int| Binding { name: params[i], value: args[i] })
}

/// What reducing `e` prints, and its result, with `locals` searched before
/// `globals` and calls nested at most `depth` deeper.
pub open spec fn reduce(
    fns: Seq<Fun>,
    locals: Seq<Binding>,
    globals: Seq<Binding>,
    e: Expr,
    depth: nat,
) -> (Seq<Seq<char>>, Result<Expr, EvalError>)
    decreases depth, e,
{
    match e {
        Expr::Null => (Seq::empty(), Ok(Expr::Null)),
        Expr::Quoted(b) => (Seq::empty(), Ok(*b)),
        Expr::Lit(Val::Sym(name)) => match lookup(locals, name) {
            Some(x) => (Seq::empty(), Ok(x)),
            None => match lookup(globals, name) {
                Some(x) => (Seq::empty(), Ok(x)),
                None => (Seq::empty(), Err(EvalError::UnboundSymbol)),
            },
        },
        Expr::Lit(Val::List(items)) => if items.len() == 0 {
            (Seq::empty(), Ok(e))
        } else {
            match items[0] {
                Expr::Lit(Val::Sym(callee)) => match find_function(fns, callee) {
                    None => (Seq::empty(), Err(EvalError::UnknownFunction)),
                    Some(f) => if depth == 0 {
                        (Seq::empty(), Err(EvalError::StackExhausted))
                    } else {
                        let (out1, args) = reduce_args(
                            fns,
                            locals,
                            globals,
                            items.subrange(1, items.len() as int),
                            (depth - 1) as nat,
                        );
                        match args {
                            Err(err) => (out1, Err(err)),
                            Ok(vals) => match f {
                                Fun::Builtin { func, .. } => {
                                    let (out2, r) = builtin_result(func, vals);
                                    (out1 + out2, r)
                                },
                                Fun::User { params, body, .. } => if params.len() != vals.len() {
                                    (out1, Err(EvalError::ArityMismatch))
                                } else {
                                    let (out2, r) = reduce(
                                        fns,
                                        bind_params(params, vals),
                                        globals,
                                        Expr::Lit(Val::List(body)),
                                        (depth - 1) as nat,
                                    );
                                    (out1 + out2, r)
                                },
                            },
                        }
                    },
                },
                _ => (Seq::empty(), Err(EvalError::UnsupportedForm)),
            }
        },
        _ => (Seq::empty(), Ok(e)),
    }
}

/// What reducing `items` from left to right prints, and their values or the
/// first error.
pub open spec fn reduce_args(
    fns: Seq<Fun>,
    locals: Seq<Binding>,
    globals: Seq<Binding>,
    items: Seq<Expr>,
    depth: nat,
) -> (Seq<Seq<char>>, Result<Seq<Expr>, EvalError>)
    decreases depth, items,
{
    if items.len() == 0 {
        (Seq::empty(), Ok(Seq::empty()))
    } else {
        let (out1, r1) = reduce_args(fns, locals, globals, items.drop_last(), depth);
        match r1 {
            Err(err) => (out1, Err(err)),
            Ok(xs) => {
                let (out2, r2) = reduce(fns, locals, globals, items.last(), depth);
                match r2 {
                    Err(err) => (out1 + out2, Err(err)),
                    Ok(x) => (out1 + out2, Ok(xs.push(x))),
                }
            },
        }
    }
}

/// What evaluating a top-level expression prints, and its result.
pub open spec fn evaluate(fns: Seq<Fun>, globals: Seq<Binding>, e: Expr) -> (
    Seq<Seq<char>>,
    Result<Expr, EvalError>,
) {
    reduce(fns, Seq::empty(), globals, e, MAX_CALL_DEPTH as nat)
}

/// What evaluating the forms from index `i` on prints, and the location and
/// kind of the first error.
pub open spec fn run_forms(fns: Seq<Fun>, globals: Seq<Binding>, forms: Seq<Tree>, i: nat) -> (
    Seq<Seq<char>>,
    Result<(), (Location, EvalError)>,
)
    decreases forms.len() - i,
{
    if i >= forms.len() {
        (Seq::empty(), Ok(()))
    } else {
        let (out1, r) = evaluate(fns, globals, lower(forms[i as int]));
        match r {
            Err(err) => (out1, Err((forms[i as int].location, err))),
            Ok(_) => {
                let (out2, r2) = run_forms(fns, globals, forms, i + 1);
                (out1 + out2, r2)
            },
        }
    }
}

/// The expression that a syntax tree stands for.
pub fn lower_node(node: &ASTNode) -> (r: LispExpr)
    ensures
        r.view() == lower(node.view()),
    decreases node,
{
    match &node.value {
        ASTNodeValue::Number(n) => LispExpr::Literal(LispValue::Number(*n)),
        ASTNodeValue::String(s) => LispExpr::Literal(
            LispValue::String(LispString { value: s.clone() }),
        ),
        ASTNodeValue::Ident(s) => LispExpr::Literal(
            LispValue::Symbol(LispSymbol { value: s.clone() }),
        ),
        ASTNodeValue::List(v) => LispExpr::Literal(LispValue::List(lower_list(v))),
        ASTNodeValue::Quote(b) => LispExpr::Quoted(Box::new(lower_node(b))),
    }
}

fn lower_list(v: &Vec<ASTNode>) -> (r: LispList)
    ensures
        expr_views(r.value@) == lower_all(node_views(v@)),
    decreases v,
{
    let mut out: Vec<LispExpr> = Vec::new();
    let mut i: usize = 0;
    while i < v.len()
        invariant
            i <= v.len(),
            expr_views(out@) == lower_all(node_views(v@.subrange(0, i as int))),
        decreases v.len() - i,
    {
        let ghost prefix = v@.subrange(0, i as int);
        let x = lower_node(&v[i]);
        proof {
            lemma_expr_views_push(out@, x);
            lemma_node_views_push(prefix, v@[i as int]);
            assert(v@.subrange(0, i + 1) =~= prefix.push(v@[i as int]));
            assert(node_views(prefix).push(v@[i as int].view()).drop_last() =~= node_views(prefix));
        }
        out.push(x);
        i = i + 1;
    }
    proof {
        assert(v@.subrange(0, v.len() as int) =~= v@);
    }
    LispList { value: out }
}

/// The index of the first variable named `name`.
fn find_variable(vars: &Vec<LispVariable>, name: &String) -> (r: Option<usize>)
    ensures
        match lookup(binding_views(vars@), name@) {
            Some(x) => r matches Some(k) && k < vars.len() && vars@[k as int].value.view() == x,
            None => r is None,
        },
{
    let ghost b = binding_views(vars@);
    let mut i: usize = 0;
    proof {
        assert(b.subrange(0, b.len() as int) =~= b);
    }
    while i < vars.len()
        invariant
            i <= vars.len(),
            b == binding_views(vars@),
            lookup(b, name@) == lookup(b.subrange(i as int, b.len() as int), name@),
        decreases vars.len() - i,
    {
        proof {
            assert(b.subrange(i as int, b.len() as int).drop_first() =~= b.subrange(
                i + 1,
                b.len() as int,
            ));
        }
        if vars[i].name == *name {
            return Some(i);
        }
        i = i + 1;
    }
    None
}

/// The index of the first function named `name`.
fn find_function_index(fns: &Vec<LispFunction>, name: &String) -> (r: Option<usize>)
    ensures
        match find_function(function_views(fns@), name@) {
            Some(f) => r matches Some(k) && k < fns.len() && fns@[k as int].view() == f,
            None => r is None,
        },
{
    let ghost b = function_views(fns@);
    let mut i: usize = 0;
    proof {
        assert(b.subrange(0, b.len() as int) =~= b);
    }
    while i < fns.len()
        invariant
            i <= fns.len(),
            b == function_views(fns@),
            find_function(b, name@) == find_function(b.subrange(i as int, b.len() as int), name@),
        decreases fns.len() - i,
    {
        proof {
            assert(b.subrange(i as int, b.len() as int).drop_first() =~= b.subrange(
                i + 1,
                b.len() as int,
            ));
        }
        let hit = match &fns[i] {
            LispFunction::Internal { name: n, .. } => n.value == *name,
            LispFunction::Lisp { name: n, .. } => n.value == *name,
        };
        if hit {
            return Some(i);
        }
        i = i + 1;
    }
    None
}

/// Reduces `e` under the scope `locals` chained to the global variables of
/// `ctx`, appending what it prints to `ctx.output`.
fn reduce_expr(ctx: &mut Context, locals: &Vec<LispVariable>, e: &LispExpr, depth: usize) -> (r:
    Result<LispExpr, EvalError>)
    ensures
        final(ctx).functions == old(ctx).functions,
        final(ctx).variables == old(ctx).variables,
        ({
            let (out, res) = reduce(
                function_views(old(ctx).functions@),
                binding_views(locals@),
                binding_views(old(ctx).variables@),
                e.view(),
                depth as nat,
            );
            line_views(final(ctx).output@) == line_views(old(ctx).output@) + out && result_view(r)
                == res
        }),
    decreases depth, e,
{
    let ghost fns = function_views(ctx.functions@);
    let ghost globals = binding_views(ctx.variables@);
    proof {
        assert(line_views(ctx.output@) + Seq::empty() =~= line_views(ctx.output@));
    }
    match e {
        LispExpr::Null => Ok(LispExpr::Null),
        LispExpr::Quoted(b) => Ok(copy_expr(b)),
        LispExpr::Literal(LispValue::Symbol(s)) => {
            match find_variable(locals, &s.value) {
                Some(k) => Ok(copy_expr(&locals[k].value)),
                None => match find_variable(&ctx.variables, &s.value) {
                    Some(k) => Ok(copy_expr(&ctx.variables[k].value)),
                    None => Err(EvalError::UnboundSymbol),
                },
            }
        },
        LispExpr::Literal(LispValue::List(l)) => reduce_call(ctx, locals, l, depth),
        _ => Ok(copy_expr(e)),
    }
}

/// Reduces a list: the empty list stands for itself; any other is a call.
fn reduce_call(ctx: &mut Context, locals: &Vec<LispVariable>, l: &LispList, depth: usize) -> (r:
    Result<LispExpr, EvalError>)
    ensures
        final(ctx).functions == old(ctx).functions,
        final(ctx).variables == old(ctx).variables,
        ({
            let (out, res) = reduce(
                function_views(old(ctx).functions@),
                binding_views(locals@),
                binding_views(old(ctx).variables@),
                Expr::Lit(Val::List(expr_views(l.value@))),
                depth as nat,
            );
            line_views(final(ctx).output@) == line_views(old(ctx).output@) + out && result_view(r)
                == res
        }),
    decreases depth, l,
{
    let ghost fns = function_views(ctx.functions@);
    let ghost globals = binding_views(ctx.variables@);
    let ghost items = expr_views(l.value@);
    let ghost out0 = line_views(ctx.output@);
    proof {
        lemma_expr_views_len(l.value@);
        assert(out0 + Seq::empty() =~= out0);
    }
    if l.value.len() == 0 {
        return Ok(LispExpr::Literal(LispValue::List(copy_list(l))));
    }
    proof {
        lemma_expr_views_index(l.value@, 0);
    }
    let callee = match &l.value[0] {
        LispExpr::Literal(LispValue::Symbol(s)) => s,
        _ => {
            return Err(EvalError::UnsupportedForm);
        },
    };
    let k = match find_function_index(&ctx.functions, &callee.value) {
        Some(k) => k,
        None => {
            return Err(EvalError::UnknownFunction);
        },
    };
    if depth == 0 {
        return Err(EvalError::StackExhausted);
    }
    let args = match reduce_list_args(ctx, locals, &l.value, depth - 1) {
        Ok(a) => a,
        Err(err) => {
            return Err(err);
        },
    };
    let ghost out1 = line_views(ctx.output@);
    let ghost vals = expr_views(args@);
    proof {
        lemma_expr_views_len(args@);
    }
    match &ctx.functions[k] {
        LispFunction::Internal { func, .. } => {
            let f = *func;
            match f {
                Builtin::Println => {
                    let r = lisp_println(ctx, args);
                    proof {
                        assert(line_views(ctx.output@) =~= out0 + (out1.subrange(
                            out0.len() as int,
                            out1.len() as int,
                        ) + builtin_result(f, vals).0));
                    }
                    r
                },
                Builtin::Add => {
                    let r = lisp_add(ctx, args);
                    proof {
                        assert(line_views(ctx.output@) =~= out0 + (out1.subrange(
                            out0.len() as int,
                            out1.len() as int,
                        ) + builtin_result(f, vals).0));
                    }
                    r
                },
                Builtin::ToString => {
                    let r = lisp_to_string(ctx, args);
                    proof {
                        assert(line_views(ctx.output@) =~= out0 + (out1.subrange(
                            out0.len() as int,
                            out1.len() as int,
                        ) + builtin_result(f, vals).0));
                    }
                    r
                },
            }
        },
        LispFunction::Lisp { args: params, body, .. } => {
            if params.len() != args.len() {
                return Err(EvalError::ArityMismatch);
            }
            let params = copy_symbols(params);
            let body = LispExpr::Literal(LispValue::List(copy_list(body)));
            let frame = bind_frame(params, args);
            let r = reduce_expr(ctx, &frame, &body, depth - 1);
            proof {
                assert(line_views(ctx.output@) =~= out0 + (out1.subrange(
                    out0.len() as int,
                    out1.len() as int,
                ) + (line_views(ctx.output@).subrange(out1.len() as int, line_views(ctx.output@).len() as int))));
            }
            r
        },
    }
}

/// A local scope binding each parameter to the argument at its position.
fn bind_frame(params: Vec<LispSymbol>, args: Vec<LispExpr>) -> (r: Vec<LispVariable>)
    requires
        params.len() == args.len(),
    ensures
        binding_views(r@) == bind_params(symbol_views(params@), expr_views(args@)),
{
    let mut frame: Vec<LispVariable> = Vec::new();
    let mut i: usize = 0;
    proof {
        lemma_expr_views_len(args@);
    }
    while i < args.len()
        invariant
            i <= args.len(),
            params.len() == args.len(),
            frame.len() == i,
            forall|j: int|
                0 <= j < i ==> (#[trigger] frame@[j]).name@ == params@[j].value@
                    && frame@[j].value.view() == args@[j].view(),
        decreases args.len() - i,
    {
        frame.push(
            LispVariable { name: params[i].value.clone(), value: copy_expr(&args[i]) },
        );
        i = i + 1;
    }
    proof {
        assert forall|j: int| 0 <= j < args.len() implies expr_views(args@)[j] == args@[j].view() by {
            lemma_expr_views_index(args@, j);
        }
        assert(binding_views(frame@) =~= bind_params(symbol_views(params@), expr_views(args@)));
    }
    frame
}

/// Reduces the elements of `items` after the first, from left to right.
fn reduce_list_args(
    ctx: &mut Context,
    locals: &Vec<LispVariable>,
    items: &Vec<LispExpr>,
    depth: usize,
) -> (r: Result<Vec<LispExpr>, EvalError>)
    requires
        items.len() >= 1,
    ensures
        final(ctx).functions == old(ctx).functions,
        final(ctx).variables == old(ctx).variables,
        ({
            let (out, res) = reduce_args(
                function_views(old(ctx).functions@),
                binding_views(locals@),
                binding_views(old(ctx).variables@),
                expr_views(items@).subrange(1, items.len() as int),
                depth as nat,
            );
            &&& line_views(final(ctx).output@) == line_views(old(ctx).output@) + out
            &&& match res {
                Ok(vals) => r matches Ok(v) && expr_views(v@) == vals,
                Err(err) => r == Err::<Vec<LispExpr>, EvalError>(err),
            }
        }),
    decreases depth, items,
{
    let ghost fns = function_views(ctx.functions@);
    let ghost locs = binding_views(locals@);
    let ghost globals = binding_views(ctx.variables@);
    let ghost all = expr_views(items@);
    let ghost out0 = line_views(ctx.output@);
    proof {
        lemma_expr_views_len(items@);
        assert(all.subrange(1, 1) =~= Seq::<Expr>::empty());
        assert(out0 + Seq::empty() =~= out0);
    }
    let mut vals: Vec<LispExpr> = Vec::new();
    let mut i: usize = 1;
    while i < items.len()
        invariant
            1 <= i <= items.len(),
            all == expr_views(items@),
            all.len() == items.len(),
            ctx.functions == old(ctx).functions,
            ctx.variables == old(ctx).variables,
            fns == function_views(ctx.functions@),
            globals == binding_views(ctx.variables@),
            locs == binding_views(locals@),
            out0 == line_views(old(ctx).output@),
            ({
                let (out, res) = reduce_args(fns, locs, globals, all.subrange(1, i as int), depth as nat);
                line_views(ctx.output@) == out0 + out && res == Ok::<Seq<Expr>, EvalError>(
                    expr_views(vals@),
                )
            }),
        decreases items.len() - i,
    {
        let ghost prev = all.subrange(1, i as int);
        let ghost next = all.subrange(1, i + 1);
        let ghost outp = line_views(ctx.output@);
        proof {
            lemma_expr_views_index(items@, i as int);
            assert(next.drop_last() =~= prev);
            assert(next.last() == items@[i as int].view());
        }
        let r = reduce_expr(ctx, locals, &items[i], depth);
        match r {
            Ok(x) => {
                proof {
                    lemma_expr_views_push(vals@, x);
                    assert(line_views(ctx.output@) =~= out0 + (outp.subrange(
                        out0.len() as int,
                        outp.len() as int,
                    ) + line_views(ctx.output@).subrange(outp.len() as int, line_views(ctx.output@).len() as int)));
                }
                vals.push(x);
            },
            Err(err) => {
                proof {
                    assert(line_views(ctx.output@) =~= out0 + (outp.subrange(
                        out0.len() as int,
                        outp.len() as int,
                    ) + line_views(ctx.output@).subrange(outp.len() as int, line_views(ctx.output@).len() as int)));
                    let rest = all.subrange(1, all.len() as int);
                    assert(rest.subrange(0, i as int) =~= next);
                    lemma_args_err_stays(fns, locs, globals, rest, i as int, depth as nat);
                }
                return Err(err);
            },
        }
        i = i + 1;
    }
    proof {
        assert(all.subrange(1, i as int) =~= all.subrange(1, items.len() as int));
    }
    Ok(vals)
}

pub struct Evaluator {
    pub input: Vec<ASTNode>,
    pub pos: usize,
    pub context: Context,
}

impl Evaluator {
    pub open spec fn wf(&self) -> bool {
        self.pos <= self.input.len()
    }

    /// An evaluator of `input` in the initial environment.
    pub fn new(input: Vec<ASTNode>) -> (r: Evaluator)
        ensures
            r.wf(),
            r.input@ == input@,
            r.pos == 0,
            function_views(r.context.functions@) == builtin_table(),
            binding_views(r.context.variables@) == initial_bindings(),
            r.context.output@.len() == 0,
    {
        Evaluator { input, pos: 0, context: Context::default() }
    }

    /// The next form to evaluate, if any is left.
    pub fn peek(&self) -> (r: Option<&ASTNode>)
        requires
            self.wf(),
        ensures
            r == (if self.pos < self.input.len() {
                Some(&self.input@[self.pos as int])
            } else {
                None
            }),
    {
        if self.pos < self.input.len() {
            Some(&self.input[self.pos])
        } else {
            None
        }
    }

    /// Skips the next form, if any is left, and returns its location.
    pub fn next(&mut self) -> (r: Option<Location>)
        requires
            old(self).wf(),
        ensures
            final(self).wf(),
            final(self).input == old(self).input,
            final(self).context == old(self).context,
            if old(self).pos < old(self).input.len() {
                r == Some(old(self).input@[old(self).pos as int].location) && final(self).pos
                    == old(self).pos + 1
            } else {
                r is None && final(self).pos == old(self).pos
            },
    {
        if self.pos < self.input.len() {
            let loc = self.input[self.pos].location;
            self.pos = self.pos + 1;
            Some(loc)
        } else {
            None
        }
    }

    /// Reduces `expr` at top level, appending what it prints to the output.
    pub fn evaluate_expr(&mut self, expr: &LispExpr) -> (r: Result<LispExpr, EvalError>)
        ensures
            final(self).input == old(self).input,
            final(self).pos == old(self).pos,
            final(self).context.functions == old(self).context.functions,
            final(self).context.variables == old(self).context.variables,
            ({
                let (out, res) = evaluate(
                    function_views(old(self).context.functions@),
                    binding_views(old(self).context.variables@),
                    expr.view(),
                );
                line_views(final(self).context.output@) == line_views(old(self).context.output@)
                    + out && result_view(r) == res
            }),
    {
        let locals: Vec<LispVariable> = Vec::new();
        proof {
            assert(binding_views(locals@) =~= Seq::<Binding>::empty());
        }
        reduce_expr(&mut self.context, &locals, expr, MAX_CALL_DEPTH)
    }

    /// Lowers the next form to an expression, unreduced, and moves past it;
    /// `EndOfInput` when no form is left.
    pub fn try_interpret_next(&mut self) -> (r: Result<LispExpr, EvalError>)
        ensures
            final(self).input == old(self).input,
            final(self).context == old(self).context,
            old(self).pos < old(self).input.len() ==> final(self).pos == old(self).pos + 1 && (r matches Ok(
                e,
            ) && e.view() == lower(old(self).input@[old(self).pos as int].view())),
            old(self).pos >= old(self).input.len() ==> final(self).pos == old(self).pos && r
                == Err::<LispExpr, EvalError>(EvalError::EndOfInput),
    {
        if self.pos >= self.input.len() {
            return Err(EvalError::EndOfInput);
        }
        let e = lower_node(&self.input[self.pos]);
        self.pos = self.pos + 1;
        Ok(e)
    }

    /// Evaluates the remaining forms in order, stopping at the first error,
    /// which comes with the location of its top-level form.
    pub fn run(&mut self) -> (r: Result<(), (Location, EvalError)>)
        requires
            old(self).wf(),
        ensures
            final(self).context.functions == old(self).context.functions,
            final(self).context.variables == old(self).context.variables,
            ({
                let (out, res) = run_forms(
                    function_views(old(self).context.functions@),
                    binding_views(old(self).context.variables@),
                    node_views(old(self).input@),
                    old(self).pos as nat,
                );
                line_views(final(self).context.output@) == line_views(old(self).context.output@)
                    + out && r == res
            }),
    {
        let ghost fns = function_views(self.context.functions@);
        let ghost globals = binding_views(self.context.variables@);
        let ghost forms = node_views(self.input@);
        let ghost out0 = line_views(self.context.output@);
        proof {
            lemma_node_views_len(self.input@);
            let first = run_forms(fns, globals, forms, self.pos as nat).0;
            assert(out0.subrange(out0.len() as int, out0.len() as int) + first =~= first);
            assert(out0.subrange(0, out0.len() as int) =~= out0);
        }
        while self.pos < self.input.len()
            invariant
                self.wf(),
                self.input == old(self).input,
                forms == node_views(self.input@),
                forms.len() == self.input.len(),
                fns == function_views(self.context.functions@),
                globals == binding_views(self.context.variables@),
                self.context.functions == old(self).context.functions,
                self.context.variables == old(self).context.variables,
                out0 == line_views(old(self).context.output@),
                old(self).pos <= self.pos,
                out0.len() <= line_views(self.context.output@).len(),
                line_views(self.context.output@).subrange(0, out0.len() as int) == out0,
                run_forms(fns, globals, forms, old(self).pos as nat) == ({
                    let rest = run_forms(fns, globals, forms, self.pos as nat);
                    (line_views(self.context.output@).subrange(
                        out0.len() as int,
                        line_views(self.context.output@).len() as int,
                    ) + rest.0, rest.1)
                }),
            decreases self.input.len() - self.pos,
        {
            let loc = self.input[self.pos].location;
            let ghost p = self.pos as nat;
            let ghost outp = line_views(self.context.output@);
            proof {
                lemma_node_views_index(self.input@, p as int);
            }
            let e = match self.try_interpret_next() {
                Ok(e) => e,
                Err(err) => {
                    return Err((loc, err));
                },
            };
            let r = self.evaluate_expr(&e);
            let ghost outn = line_views(self.context.output@);
            proof {
                assert(outn.subrange(0, out0.len() as int) =~= out0);
                let step = evaluate(fns, globals, lower(forms[p as int]));
                assert(outn.subrange(out0.len() as int, outn.len() as int) =~= outp.subrange(
                    out0.len() as int,
                    outp.len() as int,
                ) + step.0);
                if r is Ok {
                    let rest = run_forms(fns, globals, forms, p + 1);
                    assert(outp.subrange(out0.len() as int, outp.len() as int) + (step.0 + rest.0)
                        =~= outn.subrange(out0.len() as int, outn.len() as int) + rest.0);
                }
            }
            if let Err(err) = r {
                proof {
                    assert(line_views(self.context.output@) =~= out0 + line_views(
                        self.context.output@,
                    ).subrange(out0.len() as int, line_views(self.context.output@).len() as int));
                }
                return Err((loc, err));
            }
        }
        proof {
            assert(line_views(self.context.output@) =~= out0 + line_views(self.context.output@).subrange(
                out0.len() as int,
                line_views(self.context.output@).len() as int,
            ));
            assert(line_views(self.context.output@).subrange(
                out0.len() as int,
                line_views(self.context.output@).len() as int,
            ) + Seq::empty() =~= line_views(self.context.output@).subrange(
                out0.len() as int,
                line_views(self.context.output@).len() as int,
            ));
        }
        Ok(())
    }
}

impl Context {
    /// Adds a user-defined function after those already defined.
    pub fn define_function(&mut self, name: String, params: Vec<String>, body: LispList)
        ensures
            final(self).variables == old(self).variables,
            final(self).output == old(self).output,
            function_views(final(self).functions@) == function_views(old(self).functions@).push(
                Fun::User {
                    name: name@,
                    params: params@.map_values(|p: String| p@),
                    body: expr_views(body.value@),
                },
            ),
    {
        let mut args: Vec<LispSymbol> = Vec::new();
        let mut i: usize = 0;
        while i < params.len()
            invariant
                i <= params.len(),
                args.len() == i,
                forall|j: int| 0 <= j < i ==> #[trigger] args@[j].value@ == params@[j]@,
            decreases params.len() - i,
        {
            args.push(LispSymbol { value: params[i].clone() });
            i = i + 1;
        }
        proof {
            assert(symbol_views(args@) =~= params@.map_values(|p: String| p@));
        }
        self.functions.push(LispFunction::Lisp { name: LispSymbol { value: name }, args, body });
        proof {
            assert(function_views(self.functions@) =~= function_views(old(self).functions@).push(
                Fun::User {
                    name: name@,
                    params: params@.map_values(|p: String| p@),
                    body: expr_views(body.value@),
                },
            ));
        }
    }
}

/// A symbol bound nowhere reduces to `UnboundSymbol`, printing nothing.
pub proof fn lemma_unbound_symbol(fns: Seq<Fun>, globals: Seq<Binding>, name: Seq<char>)
    requires
        lookup(globals, name) is None,
    ensures
        evaluate(fns, globals, Expr::Lit(Val::Sym(name))) == (
            Seq::<Seq<char>>::empty(),
            Err::<Expr, EvalError>(EvalError::UnboundSymbol),
        ),
{
}

/// In the initial environment the symbol `nil` evaluates to nothing.
pub proof fn lemma_nil_is_null(fns: Seq<Fun>)
    ensures
        evaluate(fns, initial_bindings(), Expr::Lit(Val::Sym("nil"@))) == (
            Seq::<Seq<char>>::empty(),
            Ok::<Expr, EvalError>(Expr::Null),
        ),
{
    assert(initial_bindings()[0].name == "nil"@);
}

/// A quoted form evaluates to the form itself, unreduced, printing nothing
/// and calling no function.
pub proof fn lemma_quote_is_verbatim(fns: Seq<Fun>, globals: Seq<Binding>, t: Tree)
    ensures
        lower(Tree { location: t.location, form: Form::Quote(Box::new(t)) }) == Expr::Quoted(
            Box::new(lower(t)),
        ),
        evaluate(fns, globals, Expr::Quoted(Box::new(lower(t)))) == (
            Seq::<Seq<char>>::empty(),
            Ok::<Expr, EvalError>(lower(t)),
        ),
{
}

proof fn lemma_args_err_stays(
    fns: Seq<Fun>,
    locals: Seq<Binding>,
    globals: Seq<Binding>,
    items: Seq<Expr>,
    k: int,
    depth: nat,
)
    requires
        0 <= k <= items.len(),
        reduce_args(fns, locals, globals, items.subrange(0, k), depth).1 is Err,
    ensures
        reduce_args(fns, locals, globals, items, depth) == reduce_args(
            fns,
            locals,
            globals,
            items.subrange(0, k),
            depth,
        ),
    decreases items.len() - k,
{
    if k < items.len() {
        assert(items.subrange(0, k + 1).drop_last() =~= items.subrange(0, k));
        lemma_args_err_stays(fns, locals, globals, items, k + 1, depth);
    } else {
        assert(items.subrange(0, k) =~= items);
    }
}

} // verus!
