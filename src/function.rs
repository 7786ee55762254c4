//! The builtin functions and the initial environment.
use vstd::prelude::*;

use crate::internal::{
    binding_views, expr_views, function_views, lemma_expr_views_index,
    lemma_expr_views_len, line_views, Binding, Builtin, Context, Expr, Fun, LispExpr, LispFunction,
    LispList, LispString, LispSymbol, LispValue, LispVariable, Val,
};
use crate::interpreter::EvalError;
use crate::number::{number_text, LispNumber};
use crate::text::{chars_of, string_from_chars};

verus! {

/// `a + b` at the larger scale, or `None` when it does not fit.
pub open spec fn add_numbers(a: LispNumber, b: LispNumber) -> Option<LispNumber> {
    if a.sum_mantissa(b) > u64::MAX {
        None
    } else {
        Some(
            LispNumber {
                mantissa: a.sum_mantissa(b) as u64,
                scale: if a.scale >= b.scale {
                    a.scale
                } else {
                    b.scale
                },
            },
        )
    }
}

/// The sum of numeric arguments, added from left to right starting at zero,
/// or `None` when a partial sum overflows.
pub open spec fn sum_numbers(args: Seq<Expr>) -> Option<LispNumber>
    decreases args.len(),
{
    if args.len() == 0 {
        Some(LispNumber { mantissa: 0, scale: 0 })
    } else {
        match sum_numbers(args.drop_last()) {
            None => None,
            Some(acc) => match args.last() {
                Expr::Lit(Val::Number(n)) => add_numbers(acc, n),
                _ => None,
            },
        }
    }
}

pub open spec fn all_numbers(args: Seq<Expr>) -> bool {
    forall|i: int| 0 <= i < args.len() ==> #[trigger] args[i] matches Expr::Lit(Val::Number(_))
}

/// What `println` prints and returns.
pub open spec fn println_result(args: Seq<Expr>) -> (Seq<Seq<char>>, Result<Expr, EvalError>) {
    if args.len() != 1 {
        (Seq::empty(), Err(EvalError::ArityMismatch))
    } else {
        match args[0] {
            Expr::Lit(Val::Str(s)) => (seq![s], Ok(Expr::Null)),
            _ => (Seq::empty(), Err(EvalError::TypeMismatch)),
        }
    }
}

/// What `+` returns.
pub open spec fn add_result(args: Seq<Expr>) -> Result<Expr, EvalError> {
    if args.len() < 2 {
        Err(EvalError::ArityMismatch)
    } else if !all_numbers(args) {
        Err(EvalError::TypeMismatch)
    } else {
        match sum_numbers(args) {
            Some(n) => Ok(Expr::Lit(Val::Number(n))),
            None => Err(EvalError::NumericOverflow),
        }
    }
}

/// The printed text of an expression; functions have none.
pub open spec fn text_of(e: Expr) -> Result<Seq<char>, EvalError>
    decreases e,
{
    match e {
        Expr::Null => Ok(seq!['n', 'i', 'l']),
        Expr::Quoted(b) => match text_of(*b) {
            Ok(t) => Ok(seq!['\''] + t),
            Err(err) => Err(err),
        },
        Expr::Lit(v) => match v {
            Val::Sym(n) => Ok(seq!['\''] + n),
            Val::Number(n) => Ok(number_text(n)),
            Val::Str(s) => Ok(s),
            Val::Func(_) => Err(EvalError::TypeMismatch),
            Val::List(items) => match join_texts(items) {
                Ok(t) => Ok(seq!['('] + t + seq![')']),
                Err(err) => Err(err),
            },
        },
    }
}

/// The texts of `items` separated by `", "`.
pub open spec fn join_texts(items: Seq<Expr>) -> Result<Seq<char>, EvalError>
    decreases items,
{
    if items.len() == 0 {
        Ok(Seq::empty())
    } else {
        match join_texts(items.drop_last()) {
            Err(err) => Err(err),
            Ok(t) => match text_of(items.last()) {
                Err(err) => Err(err),
                Ok(u) => Ok(
                    if items.len() == 1 {
                        u
                    } else {
                        t + seq![',', ' '] + u
                    },
                ),
            },
        }
    }
}

/// What `string` returns.
pub open spec fn to_string_result(args: Seq<Expr>) -> Result<Expr, EvalError> {
    if args.len() != 1 {
        Err(EvalError::ArityMismatch)
    } else {
        match text_of(args[0]) {
            Ok(t) => Ok(Expr::Lit(Val::Str(t))),
            Err(err) => Err(err),
        }
    }
}

/// What a builtin prints and returns on evaluated arguments.
pub open spec fn builtin_result(f: Builtin, args: Seq<Expr>) -> (
    Seq<Seq<char>>,
    Result<Expr, EvalError>,
) {
    match f {
        Builtin::Println => println_result(args),
        Builtin::Add => (Seq::empty(), add_result(args)),
        Builtin::ToString => (Seq::empty(), to_string_result(args)),
    }
}

pub open spec fn result_view(r: Result<LispExpr, EvalError>) -> Result<Expr, EvalError> {
    match r {
        Ok(e) => Ok(e.view()),
        Err(err) => Err(err),
    }
}

/// Prints its one string argument as a line and returns nothing.
pub fn lisp_println(context: &mut Context, args: Vec<LispExpr>) -> (r: Result<LispExpr, EvalError>)
    ensures
        line_views(final(context).output@) == line_views(old(context).output@) + println_result(
            expr_views(args@),
        ).0,
        result_view(r) == println_result(expr_views(args@)).1,
        final(context).functions == old(context).functions,
        final(context).variables == old(context).variables,
{
    proof {
        lemma_expr_views_len(args@);
    }
    if args.len() != 1 {
        proof {
            assert(line_views(context.output@) + Seq::empty() =~= line_views(context.output@));
        }
        return Err(EvalError::ArityMismatch);
    }
    proof {
        lemma_expr_views_index(args@, 0);
    }
    match &args[0] {
        LispExpr::Literal(LispValue::String(s)) => {
            let line = s.value.clone();
            context.output.push(line);
            proof {
                assert(line_views(context.output@) =~= line_views(old(context).output@) + seq![
                    s.value@,
                ]);
            }
            Ok(LispExpr::Null)
        },
        _ => {
            proof {
                assert(line_views(context.output@) + Seq::empty() =~= line_views(context.output@));
            }
            Err(EvalError::TypeMismatch)
        },
    }
}

proof fn lemma_sum_none_stays(args: Seq<Expr>, k: int)
    requires
        0 <= k <= args.len(),
        sum_numbers(args.subrange(0, k)) is None,
    ensures
        sum_numbers(args) is None,
    decreases args.len() - k,
{
    if k < args.len() {
        let next = args.subrange(0, k + 1);
        assert(next.drop_last() =~= args.subrange(0, k));
        lemma_sum_none_stays(args, k + 1);
    } else {
        assert(args.subrange(0, k) =~= args);
    }
}

/// Adds two or more numbers.
pub fn lisp_add(_context: &Context, args: Vec<LispExpr>) -> (r: Result<LispExpr, EvalError>)
    ensures
        result_view(r) == add_result(expr_views(args@)),
{
    let ghost a = expr_views(args@);
    proof {
        lemma_expr_views_len(args@);
    }
    if args.len() < 2 {
        return Err(EvalError::ArityMismatch);
    }
    let mut i: usize = 0;
    while i < args.len()
        invariant
            i <= args.len(),
            a == expr_views(args@),
            a.len() == args.len(),
            a.len() >= 2,
            forall|j: int| 0 <= j < i ==> #[trigger] a[j] matches Expr::Lit(Val::Number(_)),
        decreases args.len() - i,
    {
        proof {
            lemma_expr_views_index(args@, i as int);
        }
        match &args[i] {
            LispExpr::Literal(LispValue::Number(_)) => {},
            _ => {
                proof {
                    assert(!(a[i as int] matches Expr::Lit(Val::Number(_))));
                    assert(!all_numbers(a));
                }
                return Err(EvalError::TypeMismatch);
            },
        }
        i = i + 1;
    }
    let mut sum = LispNumber { mantissa: 0, scale: 0 };
    let mut k: usize = 0;
    proof {
        assert(a.subrange(0, 0) =~= Seq::<Expr>::empty());
    }
    while k < args.len()
        invariant
            k <= args.len(),
            a == expr_views(args@),
            a.len() == args.len(),
            a.len() >= 2,
            all_numbers(a),
            sum_numbers(a.subrange(0, k as int)) == Some(sum),
        decreases args.len() - k,
    {
        proof {
            lemma_expr_views_index(args@, k as int);
            assert(a.subrange(0, k + 1).drop_last() =~= a.subrange(0, k as int));
            assert(a[k as int] matches Expr::Lit(Val::Number(_)));
        }
        match &args[k] {
            LispExpr::Literal(LispValue::Number(n)) => {
                match sum.checked_add(n) {
                    Some(x) => {
                        sum = x;
                    },
                    None => {
                        proof {
                            lemma_sum_none_stays(a, k + 1);
                        }
                        return Err(EvalError::NumericOverflow);
                    },
                }
            },
            _ => {},
        }
        k = k + 1;
    }
    proof {
        assert(a.subrange(0, a.len() as int) =~= a);
    }
    Ok(LispExpr::Literal(LispValue::Number(sum)))
}

/// Appends the printed text of `e` to `out`.
fn push_text(e: &LispExpr, out: &mut Vec<char>) -> (r: Result<(), EvalError>)
    ensures
        match text_of(e.view()) {
            Ok(t) => r is Ok && final(out)@ == old(out)@ + t,
            Err(err) => r == Err::<(), EvalError>(err),
        },
    decreases e,
{
    match e {
        LispExpr::Null => {
            out.push('n');
            out.push('i');
            out.push('l');
            proof {
                assert(final(out)@ =~= old(out)@ + seq!['n', 'i', 'l']);
            }
            Ok(())
        },
        LispExpr::Quoted(b) => {
            out.push('\'');
            let r = push_text(b, out);
            proof {
                if r is Ok {
                    assert(final(out)@ =~= old(out)@ + (seq!['\''] + text_of((**b).view())->Ok_0));
                }
            }
            r
        },
        LispExpr::Literal(LispValue::Symbol(s)) => {
            out.push('\'');
            let mut cs = chars_of(s.value.as_str());
            out.append(&mut cs);
            proof {
                assert(final(out)@ =~= old(out)@ + (seq!['\''] + s.value@));
            }
            Ok(())
        },
        LispExpr::Literal(LispValue::Number(n)) => {
            let t = n.to_text();
            let mut cs = chars_of(t.as_str());
            out.append(&mut cs);
            Ok(())
        },
        LispExpr::Literal(LispValue::String(s)) => {
            let mut cs = chars_of(s.value.as_str());
            out.append(&mut cs);
            Ok(())
        },
        LispExpr::Literal(LispValue::Function(_)) => Err(EvalError::TypeMismatch),
        LispExpr::Literal(LispValue::List(l)) => push_list_text(l, out),
    }
}

/// Appends the printed text of a list to `out`.
fn push_list_text(l: &LispList, out: &mut Vec<char>) -> (r: Result<(), EvalError>)
    ensures
        match text_of(Expr::Lit(Val::List(expr_views(l.value@)))) {
            Ok(t) => r is Ok && final(out)@ == old(out)@ + t,
            Err(err) => r == Err::<(), EvalError>(err),
        },
    decreases l,
{
    let ghost items = l.value@;
    out.push('(');
    let ghost start = out@;
    let mut i: usize = 0;
    while i < l.value.len()
        invariant
            i <= l.value.len(),
            items == l.value@,
            start == old(out)@.push('('),
            join_texts(expr_views(items.subrange(0, i as int))) matches Ok(t) && out@ == start + t,
        decreases l.value.len() - i,
    {
        let ghost prefix = items.subrange(0, i as int);
        let ghost next = items.subrange(0, i + 1);
        proof {
            assert(next =~= prefix.push(items[i as int]));
            crate::internal::lemma_expr_views_push(prefix, items[i as int]);
            lemma_expr_views_len(prefix);
            assert(expr_views(next).drop_last() =~= expr_views(prefix));
        }
        if i > 0 {
            out.push(',');
            out.push(' ');
        }
        let r = push_text(&l.value[i], out);
        if r.is_err() {
            proof {
                assert(join_texts(expr_views(next)) == Err::<Seq<char>, EvalError>(r->Err_0));
                lemma_join_err_stays(items, i as int + 1, r->Err_0);
            }
            return r;
        }
        proof {
            let t0 = join_texts(expr_views(prefix))->Ok_0;
            let u = text_of(items[i as int].view())->Ok_0;
            if i == 0 {
                assert(prefix.len() == 0);
                assert(expr_views(prefix).len() == 0);
                assert(t0 == Seq::<char>::empty());
                assert(out@ =~= start + u);
            } else {
                assert(out@ =~= start + (t0 + seq![',', ' '] + u));
            }
        }
        i = i + 1;
    }
    out.push(')');
    proof {
        assert(items.subrange(0, items.len() as int) =~= items);
        let t = join_texts(expr_views(items))->Ok_0;
        assert(final(out)@ =~= old(out)@ + (seq!['('] + t + seq![')']));
    }
    Ok(())
}

proof fn lemma_join_err_stays(items: Seq<LispExpr>, k: int, err: EvalError)
    requires
        0 <= k <= items.len(),
        join_texts(expr_views(items.subrange(0, k))) == Err::<Seq<char>, EvalError>(err),
    ensures
        join_texts(expr_views(items)) == Err::<Seq<char>, EvalError>(err),
    decreases items.len() - k,
{
    if k < items.len() {
        let prefix = items.subrange(0, k);
        let next = items.subrange(0, k + 1);
        assert(next =~= prefix.push(items[k]));
        crate::internal::lemma_expr_views_push(prefix, items[k]);
        assert(expr_views(next).drop_last() =~= expr_views(prefix));
        lemma_join_err_stays(items, k + 1, err);
    } else {
        assert(items.subrange(0, k) =~= items);
    }
}

/// The printed text of its one argument, as a string.
pub fn lisp_to_string(_context: &Context, args: Vec<LispExpr>) -> (r: Result<LispExpr, EvalError>)
    ensures
        result_view(r) == to_string_result(expr_views(args@)),
{
    proof {
        lemma_expr_views_len(args@);
    }
    if args.len() != 1 {
        return Err(EvalError::ArityMismatch);
    }
    proof {
        lemma_expr_views_index(args@, 0);
    }
    let mut out: Vec<char> = Vec::new();
    match push_text(&args[0], &mut out) {
        Ok(()) => {
            proof {
                assert(out@ =~= Seq::<char>::empty() + text_of(args@[0].view())->Ok_0);
            }
            Ok(LispExpr::Literal(LispValue::String(LispString { value: string_from_chars(&out) })))
        },
        Err(e) => Err(e),
    }
}

/// The builtin functions, in lookup order.
pub open spec fn builtin_table() -> Seq<Fun> {
    seq![
        Fun::Builtin { name: "println"@, params: seq!["str"@], func: Builtin::Println },
        Fun::Builtin {
            name: "+"@,
            params: seq!["num1"@, "num2"@, "&rest"@],
            func: Builtin::Add,
        },
        Fun::Builtin { name: "string"@, params: seq!["param"@], func: Builtin::ToString },
    ]
}

fn symbol(s: &str) -> (r: LispSymbol)
    ensures
        r.value@ == s@,
{
    broadcast use vstd::string::group_string_axioms;

    LispSymbol { value: s.to_string() }
}

/// The builtin functions, in lookup order.
pub fn get_internal_functions() -> (r: Vec<LispFunction>)
    ensures
        function_views(r@) == builtin_table(),
{
    let r = vec![
        LispFunction::Internal {
            name: symbol("println"),
            args: vec![symbol("str")],
            func: Builtin::Println,
        },
        LispFunction::Internal {
            name: symbol("+"),
            args: vec![symbol("num1"), symbol("num2"), symbol("&rest")],
            func: Builtin::Add,
        },
        LispFunction::Internal {
            name: symbol("string"),
            args: vec![symbol("param")],
            func: Builtin::ToString,
        },
    ];
    proof {
        assert(crate::internal::symbol_views(r@[0]->Internal_args@) =~= seq!["str"@]);
        assert(crate::internal::symbol_views(r@[1]->Internal_args@) =~= seq![
            "num1"@,
            "num2"@,
            "&rest"@,
        ]);
        assert(crate::internal::symbol_views(r@[2]->Internal_args@) =~= seq!["param"@]);
        assert(function_views(r@) =~= builtin_table());
    }
    r
}

/// The initial global variables: `nil` bound to nothing.
pub open spec fn initial_bindings() -> Seq<Binding> {
    seq![Binding { name: "nil"@, value: Expr::Null }]
}

impl Context {
    /// The environment with the builtin functions, the binding of `nil`, and
    /// nothing printed.
    pub fn default() -> (r: Context)
        ensures
            function_views(r.functions@) == builtin_table(),
            binding_views(r.variables@) == initial_bindings(),
            r.output@.len() == 0,
    {
        broadcast use vstd::string::group_string_axioms;

        let variables = vec![LispVariable { name: "nil".to_string(), value: LispExpr::Null }];
        proof {
            assert(binding_views(variables@) =~= initial_bindings());
        }
        Context { functions: get_internal_functions(), variables, output: Vec::new() }
    }
}

} // verus!
