//! The parser: tokens to a forest of located syntax trees, by recursive
//! descent over a single cursor.
use vstd::prelude::*;

use crate::number::LispNumber;
use crate::token::{token_views, Lexeme, LexedToken, Location, Token, TokenValue};

verus! {

#[derive(Debug)]
pub enum ASTNodeValue {
    List(Vec<ASTNode>),
    Ident(String),
    Number(LispNumber),
    String(String),
    Quote(Box<ASTNode>),
}

#[derive(Debug)]
pub struct ASTNode {
    pub location: Location,
    pub value: ASTNodeValue,
}

#[derive(Clone, Copy, Debug, PartialEq, Eq, Structural)]
pub enum ASTParserError {
    /// A token that cannot start a form, such as a `)` with no `(` before it.
    UnexpectedToken,
    /// A list that the input ends inside.
    UnmatchedOpenParenthesis,
    /// A quote with no form after it.
    UnexpectedEnd,
    /// Lists and quotes nested deeper than the parser allows.
    NestingTooDeep,
}

/// A syntax tree with its texts as character sequences.
pub enum Form {
    List(Seq<Tree>),
    Ident(Seq<char>),
    Number(LispNumber),
    Str(Seq<char>),
    Quote(Box<Tree>),
}

pub struct Tree {
    pub location: Location,
    pub form: Form,
}

impl ASTNode {
    pub open spec fn view(&self) -> Tree
        decreases self,
    {
        Tree {
            location: self.location,
            form: match &self.value {
                ASTNodeValue::List(v) => Form::List(node_views(v@)),
                ASTNodeValue::Ident(s) => Form::Ident(s@),
                ASTNodeValue::Number(n) => Form::Number(*n),
                ASTNodeValue::String(s) => Form::Str(s@),
                ASTNodeValue::Quote(b) => Form::Quote(Box::new((**b).view())),
            },
        }
    }
}

pub open spec fn node_views(s: Seq<ASTNode>) -> Seq<Tree>
    decreases s,
{
    if s.len() == 0 {
        Seq::empty()
    } else {
        node_views(s.drop_last()).push(s.last().view())
    }
}

pub proof fn lemma_node_views_push(s: Seq<ASTNode>, x: ASTNode)
    ensures
        node_views(s.push(x)) == node_views(s).push(x.view()),
{
    assert(s.push(x).drop_last() =~= s);
}

pub proof fn lemma_node_views_len(s: Seq<ASTNode>)
    ensures
        node_views(s).len() == s.len(),
    decreases s.len(),
{
    if s.len() > 0 {
        lemma_node_views_len(s.drop_last());
    }
}

pub proof fn lemma_node_views_index(s: Seq<ASTNode>, i: int)
    requires
        0 <= i < s.len(),
    ensures
        node_views(s).len() == s.len(),
        node_views(s)[i] == s[i].view(),
    decreases s.len(),
{
    lemma_node_views_len(s);
    if i < s.len() - 1 {
        lemma_node_views_index(s.drop_last(), i);
    }
}

/// How deeply lists and quotes may nest.
pub const MAX_NESTING: usize = 512;

/// A parse error: where it lies and its kind.
pub type ParseFailure = (Location, ASTParserError);

/// The form that starts at token `p`, and the index after it. `at` is blamed
/// when no token is left; `d` lists and quotes may still open inside.
pub open spec fn parse_form(t: Seq<LexedToken>, p: nat, at: Location, d: nat) -> Result<
    (Tree, nat),
    ParseFailure,
>
    decreases t.len() - p, 0nat,
{
    if p >= t.len() {
        Err((at, ASTParserError::UnexpectedEnd))
    } else {
        let loc = t[p as int].location;
        match t[p as int].lexeme {
            Lexeme::Number(n) => Ok((Tree { location: loc, form: Form::Number(n) }, p + 1)),
            Lexeme::Symbol(s) => Ok((Tree { location: loc, form: Form::Ident(s) }, p + 1)),
            Lexeme::Str(s) => Ok((Tree { location: loc, form: Form::Str(s) }, p + 1)),
            Lexeme::Quote => if d == 0 {
                Err((loc, ASTParserError::NestingTooDeep))
            } else {
                match parse_form(t, p + 1, loc, (d - 1) as nat) {
                    Ok((x, r)) => Ok((Tree { location: loc, form: Form::Quote(Box::new(x)) }, r)),
                    Err(e) => Err(e),
                }
            },
            Lexeme::LParen => if d == 0 {
                Err((loc, ASTParserError::NestingTooDeep))
            } else {
                match parse_items(t, p + 1, loc, (d - 1) as nat) {
                    Ok((xs, r)) => Ok((Tree { location: loc, form: Form::List(xs) }, r)),
                    Err(e) => Err(e),
                }
            },
            Lexeme::RParen => Err((loc, ASTParserError::UnexpectedToken)),
        }
    }
}

/// The forms of the list opened at `open`, from token `p` up to its `)`,
/// and the index after that `)`.
pub open spec fn parse_items(t: Seq<LexedToken>, p: nat, open: Location, d: nat) -> Result<
    (Seq<Tree>, nat),
    ParseFailure,
>
    decreases t.len() - p, 1nat,
{
    if p >= t.len() {
        Err((open, ASTParserError::UnmatchedOpenParenthesis))
    } else if t[p as int].lexeme is RParen {
        Ok((Seq::empty(), p + 1))
    } else {
        match parse_form(t, p, t[p as int].location, d) {
            Err(e) => Err(e),
            Ok((x, r)) => if r <= p || r > t.len() {
                Err((open, ASTParserError::UnexpectedEnd))
            } else {
                match parse_items(t, r, open, d) {
                    Ok((xs, r2)) => Ok((seq![x] + xs, r2)),
                    Err(e) => Err(e),
                }
            },
        }
    }
}

/// All forms from token `p` on, or the location and kind of the first error.
pub open spec fn parse_all(t: Seq<LexedToken>, p: nat) -> Result<Seq<Tree>, ParseFailure>
    decreases t.len() - p,
{
    if p >= t.len() {
        Ok(Seq::empty())
    } else {
        match parse_form(t, p, t[p as int].location, MAX_NESTING as nat) {
            Err(e) => Err(e),
            Ok((x, r)) => if r <= p || r > t.len() {
                Err((t[p as int].location, ASTParserError::UnexpectedEnd))
            } else {
                match parse_all(t, r) {
                    Ok(xs) => Ok(seq![x] + xs),
                    Err(e) => Err(e),
                }
            },
        }
    }
}

/// Prepends `prefix` to a successful result.
pub open spec fn after_items(prefix: Seq<Tree>, r: Result<(Seq<Tree>, nat), ParseFailure>) -> Result<
    (Seq<Tree>, nat),
    ParseFailure,
> {
    match r {
        Ok((xs, e)) => Ok((prefix + xs, e)),
        Err(e) => Err(e),
    }
}

/// Prepends `prefix` to a successful result.
pub open spec fn after_roots(prefix: Seq<Tree>, r: Result<Seq<Tree>, ParseFailure>) -> Result<
    Seq<Tree>,
    ParseFailure,
> {
    match r {
        Ok(xs) => Ok(prefix + xs),
        Err(e) => Err(e),
    }
}

/// Reads the form that starts at token `p`.
fn parse_form_at(toks: &Vec<Token>, p: usize, at: Location, d: usize) -> (r: Result<
    (ASTNode, usize),
    ParseFailure,
>)
    requires
        p <= toks.len(),
    ensures
        match parse_form(token_views(toks@), p as nat, at, d as nat) {
            Ok((x, e)) => r matches Ok((n, e2)) && n.view() == x && e2 == e && p < e <= toks.len(),
            Err(e) => r == Err::<(ASTNode, usize), ParseFailure>(e),
        },
    decreases toks.len() - p, 0nat,
{
    if p >= toks.len() {
        return Err((at, ASTParserError::UnexpectedEnd));
    }
    let tok = &toks[p];
    let loc = tok.location;
    match &tok.value {
        TokenValue::Number(n) => Ok((ASTNode { location: loc, value: ASTNodeValue::Number(*n) }, p + 1)),
        TokenValue::Symbol(s) => Ok(
            (ASTNode { location: loc, value: ASTNodeValue::Ident(s.clone()) }, p + 1),
        ),
        TokenValue::String(s) => Ok(
            (ASTNode { location: loc, value: ASTNodeValue::String(s.clone()) }, p + 1),
        ),
        TokenValue::Quote => {
            if d == 0 {
                return Err((loc, ASTParserError::NestingTooDeep));
            }
            match parse_form_at(toks, p + 1, loc, d - 1) {
                Ok((x, r)) => Ok(
                    (ASTNode { location: loc, value: ASTNodeValue::Quote(Box::new(x)) }, r),
                ),
                Err(e) => Err(e),
            }
        },
        TokenValue::LParen => {
            if d == 0 {
                return Err((loc, ASTParserError::NestingTooDeep));
            }
            match parse_items_at(toks, p + 1, loc, d - 1) {
                Ok((xs, r)) => Ok((ASTNode { location: loc, value: ASTNodeValue::List(xs) }, r)),
                Err(e) => Err(e),
            }
        },
        TokenValue::RParen => Err((loc, ASTParserError::UnexpectedToken)),
    }
}

/// Reads the forms of the list opened at `open`, from token `p` up to and
/// including its `)`.
fn parse_items_at(toks: &Vec<Token>, p: usize, open: Location, d: usize) -> (r: Result<
    (Vec<ASTNode>, usize),
    ParseFailure,
>)
    requires
        p <= toks.len(),
    ensures
        match parse_items(token_views(toks@), p as nat, open, d as nat) {
            Ok((xs, e)) => r matches Ok((ns, e2)) && node_views(ns@) == xs && e2 == e && p < e
                <= toks.len(),
            Err(e) => r == Err::<(Vec<ASTNode>, usize), ParseFailure>(e),
        },
    decreases toks.len() - p, 1nat,
{
    let ghost t = token_views(toks@);
    let mut items: Vec<ASTNode> = Vec::new();
    let mut q = p;
    loop
        invariant
            p <= q <= toks.len(),
            t == token_views(toks@),
            parse_items(t, p as nat, open, d as nat) == after_items(
                node_views(items@),
                parse_items(t, q as nat, open, d as nat),
            ),
        decreases toks.len() - q,
    {
        if q >= toks.len() {
            return Err((open, ASTParserError::UnmatchedOpenParenthesis));
        }
        if let TokenValue::RParen = toks[q].value {
            proof {
                assert(node_views(items@) + Seq::empty() =~= node_views(items@));
            }
            return Ok((items, q + 1));
        }
        match parse_form_at(toks, q, toks[q].location, d) {
            Err(e) => {
                return Err(e);
            },
            Ok((x, r)) => {
                proof {
                    let xs0 = node_views(items@);
                    lemma_node_views_push(items@, x);
                    match parse_items(t, r as nat, open, d as nat) {
                        Ok((xs, e)) => {
                            assert(xs0 + (seq![x.view()] + xs) =~= xs0.push(x.view()) + xs);
                        },
                        Err(_) => {},
                    }
                }
                items.push(x);
                q = r;
            },
        }
    }
}

pub struct ASTParser {
    pub input: Vec<Token>,
    pub pos: usize,
    pub roots: Vec<ASTNode>,
}

impl ASTParser {
    pub open spec fn wf(&self) -> bool {
        self.pos <= self.input.len()
    }

    pub fn new(input: Vec<Token>) -> (r: ASTParser)
        ensures
            r.wf(),
            r.input@ == input@,
            r.pos == 0,
            r.roots@.len() == 0,
    {
        ASTParser { input, pos: 0, roots: Vec::new() }
    }

    /// The next token, if any is left.
    pub fn peek(&self) -> (r: Option<&Token>)
        requires
            self.wf(),
        ensures
            r == (if self.pos < self.input.len() {
                Some(&self.input@[self.pos as int])
            } else {
                None
            }),
    {
        if self.pos < self.input.len() {
            Some(&self.input[self.pos])
        } else {
            None
        }
    }

    /// Consumes the next token, if any is left, and returns its location.
    pub fn next(&mut self) -> (r: Option<Location>)
        requires
            old(self).wf(),
        ensures
            final(self).wf(),
            final(self).input == old(self).input,
            final(self).roots == old(self).roots,
            if old(self).pos < old(self).input.len() {
                r == Some(old(self).input@[old(self).pos as int].location) && final(self).pos
                    == old(self).pos + 1
            } else {
                r is None && final(self).pos == old(self).pos
            },
    {
        if self.pos < self.input.len() {
            let loc = self.input[self.pos].location;
            self.pos = self.pos + 1;
            Some(loc)
        } else {
            None
        }
    }

    pub fn push_node(&mut self, node: ASTNodeValue, location: Location)
        ensures
            final(self).input == old(self).input,
            final(self).pos == old(self).pos,
            final(self).roots@ == old(self).roots@.push(ASTNode { location, value: node }),
    {
        self.roots.push(ASTNode { location, value: node });
    }

    /// Reads one form, if any token is left, and appends it to `roots`. On an
    /// error nothing is consumed, and the error comes with the location of
    /// the token at fault.
    pub fn try_parse_one(&mut self) -> (r: Result<(), ParseFailure>)
        requires
            old(self).wf(),
        ensures
            final(self).wf(),
            final(self).input == old(self).input,
            old(self).pos >= old(self).input.len() ==> r is Ok && final(self).pos == old(self).pos
                && final(self).roots == old(self).roots,
            old(self).pos < old(self).input.len() ==> match parse_form(
                token_views(old(self).input@),
                old(self).pos as nat,
                old(self).input@[old(self).pos as int].location,
                MAX_NESTING as nat,
            ) {
                Ok((x, e)) => r is Ok && final(self).pos == e && old(self).pos < e <= old(
                    self,
                ).input.len() && node_views(final(self).roots@) == node_views(old(self).roots@).push(
                    x,
                ),
                Err(e) => r == Err::<(), ParseFailure>(e) && final(self).pos == old(self).pos
                    && final(self).roots == old(self).roots,
            },
    {
        if self.pos >= self.input.len() {
            return Ok(());
        }
        match parse_form_at(&self.input, self.pos, self.input[self.pos].location, MAX_NESTING) {
            Ok((node, e)) => {
                proof {
                    lemma_node_views_push(self.roots@, node);
                }
                self.roots.push(node);
                self.pos = e;
                Ok(())
            },
            Err(e) => Err(e),
        }
    }

    /// Reads forms until the tokens are exhausted. On an error, returns the
    /// location of the token at fault and the kind of error.
    pub fn try_parse_all(&mut self) -> (r: Result<(), ParseFailure>)
        requires
            old(self).wf(),
        ensures
            final(self).wf(),
            final(self).input == old(self).input,
            r is Ok ==> final(self).pos == final(self).input.len(),
            match parse_all(token_views(old(self).input@), old(self).pos as nat) {
                Ok(xs) => r is Ok && node_views(final(self).roots@) == node_views(
                    old(self).roots@,
                ) + xs,
                Err(e) => r == Err::<(), ParseFailure>(e),
            },
    {
        let ghost t = token_views(self.input@);
        let ghost mut done: Seq<Tree> = Seq::empty();
        proof {
            assert(node_views(self.roots@) =~= node_views(old(self).roots@) + done);
            match parse_all(t, self.pos as nat) {
                Ok(xs) => {
                    assert(done + xs =~= xs);
                },
                Err(_) => {},
            }
        }
        loop
            invariant
                self.wf(),
                self.input == old(self).input,
                t == token_views(self.input@),
                node_views(self.roots@) == node_views(old(self).roots@) + done,
                parse_all(t, old(self).pos as nat) == after_roots(done, parse_all(t, self.pos as nat)),
            decreases self.input.len() - self.pos,
        {
            if self.pos >= self.input.len() {
                proof {
                    assert(done + Seq::empty() =~= done);
                }
                return Ok(());
            }
            let ghost p = self.pos as nat;
            match self.try_parse_one() {
                Ok(()) => {
                    proof {
                        let x = parse_form(t, p, t[p as int].location, MAX_NESTING as nat)->Ok_0.0;
                        assert(parse_all(t, p) == after_roots(seq![x], parse_all(t, self.pos as nat)));
                        let nd = done.push(x);
                        assert(node_views(self.roots@) =~= node_views(old(self).roots@) + nd);
                        match parse_all(t, self.pos as nat) {
                            Ok(xs) => {
                                assert(done + (seq![x] + xs) =~= nd + xs);
                            },
                            Err(_) => {},
                        }
                        done = nd;
                    }
                },
                Err(e) => {
                    return Err(e);
                },
            }
        }
    }
}

} // verus!
