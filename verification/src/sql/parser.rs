//! Recursive-descent parser from tokens to statements.
//!
//! Every parsing function reads tokens from position `*pos` onwards, never
//! moves backwards and never past the end. Nesting is bounded by `fuel`:
//! each descent into a parenthesised sub-expression or sub-query spends one
//! unit, and running out is reported as an error.

use vstd::prelude::*;
use crate::types::{Value, ValueV, str_chars, text_value};
use crate::text::{eq_word, lower_seq};
use crate::sql::lexer::{Token, Sym};
use crate::sql::ast::{BinaryOperator, UnaryOperator, CastType, OrderItem, Expr, SelectItem, JoinKind, FromItem, Select, SetOperator, SetExpr, Query,
    FkAction, ForeignKey, ColumnDef, AlterAction, ConflictMode, InsertSource, OnConflict, TriggerTiming, TriggerEvent, Statement};
use crate::sql::lexer::{tokenize, lex_from, toks_view, tok_view, TokV};

verus! {

pub type PResult<T> = Result<T, Vec<char>>;

/// Nesting allowed in one statement.
pub const MAX_DEPTH: u32 = 200;

/// The symbol at position `i`, if there is one there.
/// Whether token `i` is the keyword `kw` (a word, ignoring case).
pub open spec fn kw_at(t: Seq<Token>, i: int, kw: Seq<char>) -> bool {
    0 <= i < t.len() && (t[i] matches Token::Word(w) && lower_seq(w@) == kw)
}

/// The name token `i` gives: an unquoted word or a quoted name.
pub open spec fn ident_at(t: Seq<Token>, i: int) -> Option<Seq<char>> {
    if 0 <= i < t.len() {
        match t[i] {
            Token::Word(w) => Some(w@),
            Token::Quoted(w) => Some(w@),
            _ => None,
        }
    } else {
        None
    }
}

/// Whether a word is a clause keyword that cannot be a bare alias.
pub open spec fn reserved_word(w: Seq<char>) -> bool {
    let l = lower_seq(w);
    l == "select"@ || l == "from"@ || l == "where"@ || l == "group"@
        || l == "order"@ || l == "having"@ || l == "limit"@ || l == "offset"@
        || l == "join"@ || l == "inner"@ || l == "left"@ || l == "right"@
        || l == "cross"@ || l == "on"@ || l == "union"@ || l == "intersect"@
        || l == "except"@ || l == "as"@ || l == "and"@ || l == "or"@
        || l == "not"@ || l == "returning"@ || l == "set"@ || l == "values"@
        || l == "using"@ || l == "natural"@ || l == "outer"@ || l == "full"@
        || l == "window"@ || l == "is"@ || l == "in"@ || l == "like"@
        || l == "between"@ || l == "match"@ || l == "xor"@ || l == "asc"@
        || l == "desc"@ || l == "nulls"@ || l == "then"@ || l == "when"@
        || l == "else"@ || l == "end"@
}

pub open spec fn sym_at(t: Seq<Token>, i: int) -> Option<Sym> {
    if 0 <= i < t.len() {
        match t[i] {
            Token::Sym(s) => Some(s),
            _ => None,
        }
    } else {
        None
    }
}

/// The precedence level at which a symbol is a binary operator:
/// comparisons 5, bitwise operators 6, `+ -` 7, `* / %` 8, `||` 9;
/// 0 for the other symbols.
pub open spec fn sym_level(s: Sym) -> int {
    match s {
        Sym::Eq | Sym::Ne | Sym::Lt | Sym::Le | Sym::Gt | Sym::Ge => 5,
        Sym::Amp | Sym::Pipe | Sym::Caret | Sym::Shl | Sym::Shr => 6,
        Sym::Plus | Sym::Minus => 7,
        Sym::Star | Sym::Slash | Sym::Percent => 8,
        Sym::Concat => 9,
        _ => 0,
    }
}

/// The symbol of a binary operator that is written with one.
pub open spec fn op_sym(op: BinaryOperator) -> Option<Sym> {
    match op {
        BinaryOperator::Add => Some(Sym::Plus),
        BinaryOperator::Subtract => Some(Sym::Minus),
        BinaryOperator::Multiply => Some(Sym::Star),
        BinaryOperator::Divide => Some(Sym::Slash),
        BinaryOperator::Modulo => Some(Sym::Percent),
        BinaryOperator::Concat => Some(Sym::Concat),
        BinaryOperator::BitwiseAnd => Some(Sym::Amp),
        BinaryOperator::BitwiseOr => Some(Sym::Pipe),
        BinaryOperator::BitwiseXor => Some(Sym::Caret),
        BinaryOperator::ShiftLeft => Some(Sym::Shl),
        BinaryOperator::ShiftRight => Some(Sym::Shr),
        BinaryOperator::Equal => Some(Sym::Eq),
        BinaryOperator::NotEqual => Some(Sym::Ne),
        BinaryOperator::LessThan => Some(Sym::Lt),
        BinaryOperator::LessThanOrEqual => Some(Sym::Le),
        BinaryOperator::GreaterThan => Some(Sym::Gt),
        BinaryOperator::GreaterThanOrEqual => Some(Sym::Ge),
        _ => None,
    }
}

/// A name that the expression parser reads as a column.
pub open spec fn plain_name(w: Seq<char>) -> bool {
    let l = lower_seq(w);
    l != "null"@ && l != "true"@ && l != "false"@ && l != "case"@ && l != "not"@ && l != "exists"@
        && l != "cast"@ && l != "select"@ && l != "count"@
}

/// Expressions built from integer literals, plain column names and
/// `COUNT(*)` with binary operators written as symbols.
pub open spec fn renderable(e: Expr) -> bool
    decreases e,
{
    match e {
        Expr::Literal(Value::Integer(_)) => true,
        Expr::Column { table: None, name } => plain_name(name@),
        Expr::Function { name, distinct, star, .. } => lower_seq(name@) == "count"@ && !distinct && star,
        Expr::Binary { op, left, right } => op_sym(op) is Some && renderable(*left) && renderable(*right),
        _ => false,
    }
}

/// The fully parenthesised tokens of an expression.
pub open spec fn render(e: Expr) -> Seq<Token>
    decreases e,
{
    match e {
        Expr::Literal(Value::Integer(v)) => seq![Token::Int(v)],
        Expr::Column { table: None, name } => seq![Token::Word(name)],
        Expr::Function { name, .. } => seq![Token::Word(name), Token::Sym(Sym::LParen), Token::Sym(Sym::Star), Token::Sym(Sym::RParen)],
        Expr::Binary { op, left, right } =>
            seq![Token::Sym(Sym::LParen)] + render(*left) + seq![Token::Sym(op_sym(op).unwrap())] + render(*right)
                + seq![Token::Sym(Sym::RParen)],
        _ => Seq::empty(),
    }
}

/// The tokens of an operator application without its outer parentheses.
pub open spec fn render_bare(e: Expr) -> Seq<Token> {
    match e {
        Expr::Binary { op, left, right } => render(*left) + seq![Token::Sym(op_sym(op).unwrap())] + render(*right),
        _ => Seq::empty(),
    }
}

/// How deeply the parentheses of the rendering nest.
pub open spec fn depth(e: Expr) -> int
    decreases e,
{
    match e {
        Expr::Binary { left, right, .. } => 1 + if depth(*left) >= depth(*right) { depth(*left) } else { depth(*right) },
        _ => 0,
    }
}

/// Whether `a` is the expression `b` of the rendered kind: names compared by
/// their characters, and a function call in `a` without arguments.
pub open spec fn same_expr(a: Expr, b: Expr) -> bool
    decreases a,
{
    match (a, b) {
        (Expr::Literal(Value::Integer(x)), Expr::Literal(Value::Integer(y))) => x == y,
        (Expr::Column { table: None, name: n }, Expr::Column { table: None, name: m }) => n@ == m@,
        (Expr::Function { name: n, args, distinct: d1, star: s1 }, Expr::Function { name: m, distinct: d2, star: s2, .. }) =>
            n@ == m@ && args@.len() == 0 && d1 == d2 && s1 == s2,
        (Expr::Binary { op: o1, left: l1, right: r1 }, Expr::Binary { op: o2, left: l2, right: r2 }) =>
            o1 == o2 && same_expr(*l1, *l2) && same_expr(*r1, *r2),
        _ => false,
    }
}

/// Whether the token at `end` ends an operand read at precedence level `lv`:
/// the end of the tokens, a symbol that no level from `lv` on continues with,
/// or a word that no operator continues with.
pub open spec fn stop_at(t: Seq<Token>, end: int, lv: int) -> bool {
    ||| end == t.len()
    ||| (sym_at(t, end) matches Some(x) && x != Sym::LParen && x != Sym::Dot && sym_level(x) < lv)
    ||| (0 <= end < t.len() && (t[end] matches Token::Word(w) && stop_word(lower_seq(w@))))
}

/// A word that no operator continues an expression with, such as FROM or AS.
pub open spec fn stop_word(l: Seq<char>) -> bool {
    l != "or"@ && l != "xor"@ && l != "and"@ && l != "is"@ && l != "isnull"@ && l != "notnull"@ && l != "match"@
        && l != "not"@ && l != "in"@ && l != "like"@ && l != "between"@ && l != "over"@
}

/// The tokens a hint claims to start at `p`.
pub open spec fn hinted(e: Expr, bare: bool) -> Seq<Token> {
    if bare { render_bare(e) } else { render(e) }
}

/// Whether the tokens from `p` on are what the hint says, for a parse at
/// level `lv` with the given nesting budget: the rendering of `e` (or, when
/// `bare`, of an operator application of level `lv` or more without its
/// parentheses), followed by a token that ends it.
pub open spec fn hint_holds(t: Seq<Token>, p: int, h: Option<(Expr, bool)>, lv: int, fuel: int) -> bool {
    match h {
        Some((e, bare)) => {
            &&& renderable(e)
            &&& (bare ==> (e matches Expr::Binary { op, .. } && sym_level(op_sym(op).unwrap()) >= lv))
            &&& 0 <= p && p + hinted(e, bare).len() <= t.len()
            &&& t.subrange(p, p + hinted(e, bare).len()) == hinted(e, bare)
            &&& stop_at(t, p + hinted(e, bare).len(), lv)
            &&& fuel > depth(e) - (if bare { 1int } else { 0int })
        },
        None => false,
    }
}

/// What a parse at a level gives when its hint holds: the hinted expression,
/// with the position moved past its tokens.
pub open spec fn hint_met(t: Seq<Token>, p: int, h: Option<(Expr, bool)>, r: PResult<Expr>, end: int) -> bool {
    r matches Ok(x) && same_expr(x, h.unwrap().0) && end == p + hinted(h.unwrap().0, h.unwrap().1).len()
}

/// The operator and operands of an operator application.
pub open spec fn bin_parts(e: Expr) -> (BinaryOperator, Expr, Expr) {
    match e {
        Expr::Binary { op, left, right } => (op, *left, *right),
        _ => (BinaryOperator::Add, e, e),
    }
}

/// The precedence level of the operator of an application written with a symbol.
pub open spec fn level_of(e: Expr) -> int {
    sym_level(op_sym(bin_parts(e).0).unwrap())
}

/// Whether a hint holds at this level and names an application of an operator of this very level.
pub open spec fn splits_here(h: Option<(Expr, bool)>, lv: int) -> bool {
    h matches Some((e, bare)) && bare && level_of(e) == lv
}

/// Operators written with symbols are binary operators of levels 5 to 9,
/// and their symbols name them.
proof fn lemma_op_sym(op: BinaryOperator, other: BinaryOperator)
    requires op_sym(op) is Some,
    ensures 5 <= sym_level(op_sym(op).unwrap()) <= 9,
        op_sym(other) == op_sym(op) ==> other == op,
{
}

/// The symbols of each operator level.
proof fn lemma_sym_levels(x: Sym)
    ensures
        sym_level(x) == 5 <==> (x == Sym::Eq || x == Sym::Ne || x == Sym::Lt || x == Sym::Le || x == Sym::Gt || x == Sym::Ge),
        sym_level(x) == 6 <==> (x == Sym::Amp || x == Sym::Pipe || x == Sym::Caret || x == Sym::Shl || x == Sym::Shr),
        sym_level(x) == 7 <==> (x == Sym::Plus || x == Sym::Minus),
        sym_level(x) == 8 <==> (x == Sym::Star || x == Sym::Slash || x == Sym::Percent),
        sym_level(x) == 9 <==> x == Sym::Concat,
{
}

/// A hint that does not split at this level holds at the next level.
proof fn lemma_hint_next(t: Seq<Token>, p: int, h: Option<(Expr, bool)>, lv: int, fuel: int)
    requires hint_holds(t, p, h, lv, fuel), !splits_here(h, lv),
    ensures hint_holds(t, p, h, lv + 1, fuel),
{
}

/// A hint that splits at this level: its left operand ends at the operator's
/// symbol, and its right operand ends where the whole does.
proof fn lemma_hint_split(t: Seq<Token>, p: int, h: Option<(Expr, bool)>, lv: int, fuel: int)
    requires hint_holds(t, p, h, lv, fuel), splits_here(h, lv),
    ensures ({
        let e = h.unwrap().0;
        let (op, l, r) = bin_parts(e);
        &&& e == (Expr::Binary { op, left: Box::new(l), right: Box::new(r) })
        &&& hint_holds(t, p, Some((l, false)), lv + 1, fuel)
        &&& sym_at(t, p + render(l).len()) == op_sym(op)
        &&& hint_holds(t, p + render(l).len() + 1, Some((r, false)), lv + 1, fuel)
        &&& p + render(l).len() + 1 + render(r).len() == p + hinted(e, true).len()
    }),
{
    let e = h.unwrap().0;
    match e {
        Expr::Binary { op, left, right } => {
            let l = *left;
            let r = *right;
            lemma_op_sym(op, op);
            let s = op_sym(op).unwrap();
            lemma_split3(t, p, render(l), Token::Sym(s), render(r));
            assert(sym_at(t, p + render(l).len()) == Some(s));
        },
        _ => {},
    }
}

/// A sequence that starts with a parenthesised part.
proof fn lemma_paren(t: Seq<Token>, p: int, b: Seq<Token>)
    requires 0 <= p, p + b.len() + 2 <= t.len(),
        t.subrange(p, p + b.len() + 2) == seq![Token::Sym(Sym::LParen)] + b + seq![Token::Sym(Sym::RParen)],
    ensures t[p] == Token::Sym(Sym::LParen), t.subrange(p + 1, p + 1 + b.len()) == b, t[p + 1 + b.len()] == Token::Sym(Sym::RParen),
{
    let whole = seq![Token::Sym(Sym::LParen)] + b + seq![Token::Sym(Sym::RParen)];
    assert(t[p] == whole[0]);
    assert(t.subrange(p + 1, p + 1 + b.len()) =~= whole.subrange(1, 1 + b.len() as int));
    assert(whole.subrange(1, 1 + b.len() as int) =~= b);
    assert(t[p + 1 + b.len()] == whole[1 + b.len() as int]);
}

/// The parts of the rendering of an operator application found in a sequence.
proof fn lemma_render_parts(t: Seq<Token>, p: int, e: Expr)
    requires e is Binary, renderable(e), 0 <= p, p + render(e).len() <= t.len(),
        t.subrange(p, p + render(e).len()) == render(e),
    ensures ({
        let (op, l, r) = bin_parts(e);
        &&& render(e).len() == render(l).len() + render(r).len() + 3
        &&& t[p] == Token::Sym(Sym::LParen)
        &&& t.subrange(p + 1, p + 1 + render(l).len()) == render(l)
        &&& t[p + 1 + render(l).len()] == Token::Sym(op_sym(op).unwrap())
        &&& t.subrange(p + 2 + render(l).len(), p + 2 + render(l).len() + render(r).len()) == render(r)
        &&& t.subrange(p + 1, p + 1 + render_bare(e).len()) == render_bare(e)
        &&& t[p + 1 + render_bare(e).len()] == Token::Sym(Sym::RParen)
    }),
{
    lemma_render_binary(e);
    lemma_paren(t, p, render_bare(e));
    let (op, l, r) = bin_parts(e);
    lemma_split3(t, p + 1, render(l), Token::Sym(op_sym(op).unwrap()), render(r));
}

/// Nesting depths are not negative.
proof fn lemma_depth_nonneg(e: Expr)
    ensures depth(e) >= 0,
    decreases e,
{
    match e {
        Expr::Binary { left, right, .. } => {
            lemma_depth_nonneg(*left);
            lemma_depth_nonneg(*right);
        },
        _ => {},
    }
}

/// Two expressions that render alike: the same but for the arguments of
/// function calls, which a rendering does not show.
pub open spec fn sim(a: Expr, b: Expr) -> bool
    decreases a,
{
    match (a, b) {
        (Expr::Binary { op: o1, left: l1, right: r1 }, Expr::Binary { op: o2, left: l2, right: r2 }) =>
            o1 == o2 && sim(*l1, *l2) && sim(*r1, *r2),
        (Expr::Function { name: n, distinct: d1, star: s1, .. }, Expr::Function { name: m, distinct: d2, star: s2, .. }) =>
            n == m && d1 == d2 && s1 == s2,
        _ => a == b,
    }
}

/// An expression that is the one of two alike ones is the other.
proof fn lemma_sim_same(x: Expr, a: Expr, b: Expr)
    requires sim(a, b),
    ensures same_expr(x, a) == same_expr(x, b),
    decreases x,
{
    match (x, a, b) {
        (Expr::Binary { left: lx, right: rx, .. }, Expr::Binary { left: la, right: ra, .. }, Expr::Binary { left: lb, right: rb, .. }) => {
            lemma_sim_same(*lx, *la, *lb);
            lemma_sim_same(*rx, *ra, *rb);
        },
        _ => {},
    }
}

/// Alike expressions render alike.
proof fn lemma_sim_render(a: Expr, b: Expr)
    requires sim(a, b),
    ensures render(a) == render(b),
    decreases a,
{
    match (a, b) {
        (Expr::Binary { left: la, right: ra, .. }, Expr::Binary { left: lb, right: rb, .. }) => {
            lemma_sim_render(*la, *lb);
            lemma_sim_render(*ra, *rb);
        },
        _ => {},
    }
}

/// The expression `e` with the names of its columns and calls taken from the
/// tokens from `p` on, where it is rendered: the same expression, written
/// with those very tokens.
pub open spec fn rebind(e: Expr, t: Seq<Token>, p: int) -> Expr
    decreases e,
{
    match e {
        Expr::Column { table: None, name } => match t[p] {
            Token::Word(w) => Expr::Column { table: None, name: w },
            _ => e,
        },
        Expr::Function { name, args, distinct, star } => match t[p] {
            Token::Word(w) => Expr::Function { name: w, args, distinct, star },
            _ => e,
        },
        Expr::Binary { op, left, right } => Expr::Binary {
            op,
            left: Box::new(rebind(*left, t, p + 1)),
            right: Box::new(rebind(*right, t, p + 2 + render(*left).len())),
        },
        _ => e,
    }
}

/// An expression rendered by tokens of the same values is, rebound to those
/// tokens, rendered by them exactly, and alike to it for every parse.
proof fn lemma_rebind(e: Expr, t: Seq<Token>, p: int)
    requires renderable(e), 0 <= p, p + render(e).len() <= t.len(),
        toks_view(t.subrange(p, p + render(e).len())) == toks_view(render(e)),
    ensures renderable(rebind(e, t, p)), render(rebind(e, t, p)) == t.subrange(p, p + render(e).len()),
        depth(rebind(e, t, p)) == depth(e),
        forall|x: Expr| #[trigger] same_expr(x, rebind(e, t, p)) ==> same_expr(x, e),
    decreases e,
{
    let n: int = render(e).len() as int;
    assert(toks_view(t.subrange(p, p + n))[0] == tok_view(t[p]));
    assert(toks_view(render(e))[0] == tok_view(render(e)[0]));
    lemma_render_first(e);
    match e {
        Expr::Binary { op, left, right } => {
            let l = *left;
            let r = *right;
            let nl: int = render(l).len() as int;
            let nr: int = render(r).len() as int;
            lemma_render_binary(e);
            let s = op_sym(op).unwrap();
            assert(render(e) =~= seq![Token::Sym(Sym::LParen)] + render(l) + seq![Token::Sym(s)] + render(r) + seq![Token::Sym(Sym::RParen)]);
            let tv = toks_view(t.subrange(p, p + n));
            let rv = toks_view(render(e));
            assert(toks_view(t.subrange(p + 1, p + 1 + nl)) =~= tv.subrange(1, 1 + nl));
            assert(toks_view(render(l)) =~= rv.subrange(1, 1 + nl));
            assert(toks_view(t.subrange(p + 2 + nl, p + 2 + nl + nr)) =~= tv.subrange(2 + nl, 2 + nl + nr));
            assert(toks_view(render(r)) =~= rv.subrange(2 + nl, 2 + nl + nr));
            lemma_rebind(l, t, p + 1);
            lemma_rebind(r, t, p + 2 + nl);
            assert(tv[0] == tok_view(t[p]));
            assert(tv[1 + nl] == tok_view(t[p + 1 + nl]));
            assert(tv[2 + nl + nr] == tok_view(t[p + 2 + nl + nr]));
            assert(rv[1 + nl] == tok_view(Token::Sym(s)));
            assert(rv[2 + nl + nr] == tok_view(Token::Sym(Sym::RParen)));
            assert(t[p] == Token::Sym(Sym::LParen));
            assert(t[p + 1 + nl] == Token::Sym(s));
            assert(t[p + 2 + nl + nr] == Token::Sym(Sym::RParen));
            let b = rebind(e, t, p);
            assert(render(b) =~= t.subrange(p, p + n));
            assert forall|x: Expr| #[trigger] same_expr(x, b) implies same_expr(x, e) by {
                match x {
                    Expr::Binary { left: lx, right: rx, .. } => {
                        assert(same_expr(*lx, rebind(l, t, p + 1)));
                        assert(same_expr(*rx, rebind(r, t, p + 2 + nl)));
                    },
                    _ => {},
                }
            }
        },
        _ => {
            assert(t.subrange(p, p + n)[0] == t[p]);
            if e is Function {
                assert(toks_view(t.subrange(p, p + n))[1] == tok_view(t[p + 1]));
                assert(toks_view(t.subrange(p, p + n))[2] == tok_view(t[p + 2]));
                assert(toks_view(t.subrange(p, p + n))[3] == tok_view(t[p + 3]));
                assert(toks_view(render(e))[1] == tok_view(render(e)[1]));
                assert(toks_view(render(e))[2] == tok_view(render(e)[2]));
                assert(toks_view(render(e))[3] == tok_view(render(e)[3]));
            }
            assert(render(rebind(e, t, p)) =~= t.subrange(p, p + n));
        },
    }
}

/// Whether the tokens from `p` on are the rendering of `e`, followed by a
/// token that ends an expression, within the nesting budget.
pub open spec fn paren_at(t: Seq<Token>, p: int, e: Expr, fuel: int) -> bool {
    paren_tok(t, p, e) && fuel > depth(e)
}

/// Whether the tokens from `p` on are the rendering of `e`, followed by a
/// token that ends an expression.
pub open spec fn paren_tok(t: Seq<Token>, p: int, e: Expr) -> bool {
    renderable(e) && p + render(e).len() <= t.len() && t.subrange(p, p + render(e).len()) == render(e)
        && stop_at(t, p + render(e).len(), 1)
}

/// Whether the tokens from `p` on are an operator application `e` written
/// without its outer parentheses, followed by a token that ends an
/// expression, within the nesting budget.
pub open spec fn bare_at(t: Seq<Token>, p: int, e: Expr, fuel: int) -> bool {
    bare_tok(t, p, e) && fuel > depth(e) - 1
}

/// Whether the tokens from `p` on are the operator application `e` written
/// without its outer parentheses, followed by a token that ends an expression.
pub open spec fn bare_tok(t: Seq<Token>, p: int, e: Expr) -> bool {
    e is Binary && renderable(e) && 0 <= p && p + render_bare(e).len() <= t.len()
        && t.subrange(p, p + render_bare(e).len()) == render_bare(e)
        && stop_at(t, p + render_bare(e).len(), 1)
}

/// The parts of an operator application written without parentheses.
proof fn lemma_bare_parts(t: Seq<Token>, p: int, e: Expr)
    requires bare_tok(t, p, e),
    ensures ({
        let (op, l, r) = bin_parts(e);
        &&& render_bare(e).len() == render(l).len() + 1 + render(r).len()
        &&& t.subrange(p, p + render(l).len()) == render(l)
        &&& t[p + render(l).len()] == Token::Sym(op_sym(op).unwrap())
        &&& t.subrange(p + render(l).len() + 1, p + render(l).len() + 1 + render(r).len()) == render(r)
        &&& renderable(l) && renderable(r) && op_sym(op) is Some
    }),
{
    let (op, l, r) = bin_parts(e);
    lemma_split3(t, p, render(l), Token::Sym(op_sym(op).unwrap()), render(r));
}

/// No tokens are both a parenthesised rendering and one without parentheses.
proof fn lemma_paren_not_bare(t: Seq<Token>, p: int, e1: Expr, e2: Expr)
    requires paren_tok(t, p, e1),
    ensures !bare_tok(t, p, e2),
{
    if bare_tok(t, p, e2) {
        let (op, l, r) = bin_parts(e2);
        lemma_bare_parts(t, p, e2);
        lemma_render_unique(t, p, e1, l);
        lemma_sim_render(e1, l);
        lemma_op_sym(op, op);
        assert(sym_at(t, p + render(l).len()) == op_sym(op));
    }
}

/// Two operator applications written without parentheses at one position are alike.
proof fn lemma_bare_unique(t: Seq<Token>, p: int, e1: Expr, e2: Expr)
    requires bare_tok(t, p, e1), bare_tok(t, p, e2),
    ensures sim(e1, e2),
{
    let (o1, l1, r1) = bin_parts(e1);
    let (o2, l2, r2) = bin_parts(e2);
    lemma_bare_parts(t, p, e1);
    lemma_bare_parts(t, p, e2);
    lemma_render_unique(t, p, l1, l2);
    lemma_sim_render(l1, l2);
    lemma_op_sym(o1, o2);
    lemma_render_unique(t, p + render(l1).len() + 1, r1, r2);
}

/// An operator application written without parentheses by tokens of the
/// same values is, rebound to those tokens, written by them exactly.
proof fn lemma_rebind_bare(e: Expr, t: Seq<Token>, p: int)
    requires e is Binary, renderable(e), 0 <= p, p + render_bare(e).len() <= t.len(),
        toks_view(t.subrange(p, p + render_bare(e).len())) == toks_view(render_bare(e)),
    ensures renderable(rebind(e, t, p - 1)), rebind(e, t, p - 1) is Binary,
        render_bare(rebind(e, t, p - 1)) == t.subrange(p, p + render_bare(e).len()),
        depth(rebind(e, t, p - 1)) == depth(e),
        forall|x: Expr| #[trigger] same_expr(x, rebind(e, t, p - 1)) ==> same_expr(x, e),
{
    let (op, l, r) = bin_parts(e);
    let nl: int = render(l).len() as int;
    let nr: int = render(r).len() as int;
    let sy = op_sym(op).unwrap();
    assert(render_bare(e) =~= render(l) + seq![Token::Sym(sy)] + render(r));
    let tv = toks_view(t.subrange(p, p + nl + 1 + nr));
    let rv = toks_view(render_bare(e));
    assert(toks_view(t.subrange(p, p + nl)) =~= tv.subrange(0, nl));
    assert(toks_view(render(l)) =~= rv.subrange(0, nl));
    assert(toks_view(t.subrange(p + 1 + nl, p + 1 + nl + nr)) =~= tv.subrange(1 + nl, 1 + nl + nr));
    assert(toks_view(render(r)) =~= rv.subrange(1 + nl, 1 + nl + nr));
    lemma_rebind(l, t, p);
    lemma_rebind(r, t, p + 1 + nl);
    assert(tv[nl] == tok_view(t[p + nl]));
    assert(rv[nl] == tok_view(Token::Sym(sy)));
    assert(t[p + nl] == Token::Sym(sy));
    let b = rebind(e, t, p - 1);
    assert(render_bare(b) =~= t.subrange(p, p + nl + 1 + nr));
    assert forall|x: Expr| #[trigger] same_expr(x, b) implies same_expr(x, e) by {
        match x {
            Expr::Binary { left: lx, right: rx, .. } => {
                assert(same_expr(*lx, rebind(l, t, p)));
                assert(same_expr(*rx, rebind(r, t, p + 1 + nl)));
            },
            _ => {},
        }
    }
}

/// Two expressions whose renderings both start at a position are alike.
proof fn lemma_render_unique(t: Seq<Token>, p: int, a: Expr, b: Expr)
    requires renderable(a), renderable(b), 0 <= p,
        p + render(a).len() <= t.len(), t.subrange(p, p + render(a).len()) == render(a),
        p + render(b).len() <= t.len(), t.subrange(p, p + render(b).len()) == render(b),
    ensures sim(a, b),
    decreases a,
{
    lemma_render_first(a);
    lemma_render_first(b);
    assert(t[p] == render(a)[0]) by { assert(t.subrange(p, p + render(a).len())[0] == t[p]); }
    assert(t[p] == render(b)[0]) by { assert(t.subrange(p, p + render(b).len())[0] == t[p]); }
    match a {
        Expr::Binary { op, left, right } => {
            lemma_render_parts(t, p, a);
            lemma_render_parts(t, p, b);
            let (op2, l2, r2) = bin_parts(b);
            lemma_render_unique(t, p + 1, *left, l2);
            lemma_sim_render(*left, l2);
            lemma_op_sym(op, op2);
            lemma_render_unique(t, p + 2 + render(*left).len(), *right, r2);
        },
        _ => {},
    }
}

/// `count` is none of the words the expression parser reads otherwise.
proof fn lemma_count_plain()
    ensures "count"@ != "null"@, "count"@ != "distinct"@, "count"@ != "all"@, "count"@ != "true"@, "count"@ != "false"@, "count"@ != "case"@, "count"@ != "not"@,
        "count"@ != "exists"@, "count"@ != "cast"@, "count"@ != "select"@,
{
    reveal_strlit("count");
    reveal_strlit("null");
    reveal_strlit("true");
    reveal_strlit("false");
    reveal_strlit("case");
    reveal_strlit("not");
    reveal_strlit("exists");
    reveal_strlit("cast");
    reveal_strlit("select");
    reveal_strlit("distinct");
    reveal_strlit("all");
    assert("count"@[0] != "false"@[0]);
    assert("count"@[1] != "case"@[1] || "count"@.len() != "case"@.len());
    assert("count"@[1] != "cast"@[1] || "count"@.len() != "cast"@.len());
}

/// The first token a hint names: an integer, a plain name, or `(`.
proof fn lemma_hint_first(t: Seq<Token>, p: int, h: Option<(Expr, bool)>, lv: int, fuel: int)
    requires hint_holds(t, p, h, lv, fuel),
    ensures 0 <= p < t.len(),
        t[p] is Int || (t[p] matches Token::Word(w) && (plain_name(w@) || lower_seq(w@) == "count"@))
            || t[p] == Token::Sym(Sym::LParen),
        sym_at(t, p) is None || sym_at(t, p) == Some(Sym::LParen),
        t[p] matches Token::Word(w) ==> ({
            let l = lower_seq(w@);
            l != "null"@ && l != "true"@ && l != "false"@ && l != "case"@ && l != "not"@ && l != "exists"@
                && l != "cast"@ && l != "select"@
        }),
{
    lemma_count_plain();
    let (e, bare) = h.unwrap();
    let first = if bare { bin_parts(e).1 } else { e };
    assert(renderable(first));
    lemma_render_first(first);
    assert(hinted(e, bare)[0] == render(first)[0]);
    assert(t[p] == t.subrange(p, p + hinted(e, bare).len())[0]);
}

/// Facts about a sequence that starts with the concatenation of three parts.
proof fn lemma_split3(t: Seq<Token>, p: int, a: Seq<Token>, x: Token, b: Seq<Token>)
    requires 0 <= p, p + a.len() + 1 + b.len() <= t.len(), t.subrange(p, p + a.len() + 1 + b.len()) == a + seq![x] + b,
    ensures
        t.subrange(p, p + a.len()) == a,
        t[p + a.len()] == x,
        t.subrange(p + a.len() + 1, p + a.len() + 1 + b.len()) == b,
{
    let whole = a + seq![x] + b;
    assert(t.subrange(p, p + a.len()) =~= whole.subrange(0, a.len() as int));
    assert(whole.subrange(0, a.len() as int) =~= a);
    assert(t[p + a.len()] == whole[a.len() as int]);
    assert(t.subrange(p + a.len() + 1, p + a.len() + 1 + b.len()) =~= whole.subrange(a.len() as int + 1, whole.len() as int));
    assert(whole.subrange(a.len() as int + 1, whole.len() as int) =~= b);
}

/// The rendering of an expression is its bare rendering in parentheses.
proof fn lemma_render_binary(e: Expr)
    requires e is Binary,
    ensures render(e) == seq![Token::Sym(Sym::LParen)] + render_bare(e) + seq![Token::Sym(Sym::RParen)],
{
    match e {
        Expr::Binary { op, left, right } => {
            assert(render(e) =~= seq![Token::Sym(Sym::LParen)] + render_bare(e) + seq![Token::Sym(Sym::RParen)]);
        },
        _ => {},
    }
}

/// The first token of a rendering: an integer, a plain name, or `(`.
proof fn lemma_render_first(e: Expr)
    requires renderable(e),
    ensures render(e).len() >= 1,
        match e {
            Expr::Literal(Value::Integer(v)) => render(e) == seq![Token::Int(v)],
            Expr::Column { table: None, name } => render(e) == seq![Token::Word(name)],
            Expr::Function { name, .. } => render(e) == seq![Token::Word(name), Token::Sym(Sym::LParen), Token::Sym(Sym::Star),
                Token::Sym(Sym::RParen)],
            Expr::Binary { .. } => render(e)[0] == Token::Sym(Sym::LParen),
            _ => false,
        },
{
    match e {
        Expr::Binary { op, left, right } => {
            lemma_render_binary(e);
        },
        _ => {},
    }
}

fn fail<T>(msg: &str) -> (r: PResult<T>)
    ensures r matches Err(m) && m@ == msg@,
{
    Err(str_chars(msg))
}

fn is_kw(t: &Vec<Token>, i: usize, kw: &str) -> (r: bool)
    ensures r ==> i < t.len() && sym_at(t@, i as int) is None && (t@[i as int] matches Token::Word(w) && lower_seq(w@) == kw@),
        r == kw_at(t@, i as int, kw@),
{
    if i < t.len() {
        match &t[i] {
            Token::Word(w) => eq_word(w, kw),
            _ => false,
        }
    } else {
        false
    }
}

fn is_sym(t: &Vec<Token>, i: usize, s: Sym) -> (r: bool)
    ensures r ==> i < t.len(), r == (sym_at(t@, i as int) == Some(s)),
{
    if i < t.len() {
        match &t[i] {
            Token::Sym(x) => *x == s,
            _ => false,
        }
    } else {
        false
    }
}

/// Whether the token after position `i` is the keyword `kw`.
fn kw_after(t: &Vec<Token>, i: usize, kw: &str) -> (r: bool)
    ensures r ==> i + 1 < t.len() && sym_at(t@, i + 1) is None,
{
    i < t.len() && is_kw(t, i + 1, kw)
}

/// Whether the token after position `i` is the symbol `s`.
fn sym_after(t: &Vec<Token>, i: usize, s: Sym) -> (r: bool)
    ensures r ==> i + 1 < t.len(), r == (i < t.len() && sym_at(t@, i + 1) == Some(s)),
{
    i < t.len() && is_sym(t, i + 1, s)
}

fn eat_kw(t: &Vec<Token>, pos: &mut usize, kw: &str) -> (b: bool)
    requires *old(pos) <= t.len(),
    ensures *old(pos) <= *final(pos) <= t.len(), b ==> *final(pos) == *old(pos) + 1, !b ==> *final(pos) == *old(pos),
        b ==> sym_at(t@, *old(pos) as int) is None,
        b == kw_at(t@, *old(pos) as int, kw@),
{
    if is_kw(t, *pos, kw) {
        *pos = *pos + 1;
        true
    } else {
        false
    }
}

fn eat_sym(t: &Vec<Token>, pos: &mut usize, s: Sym) -> (b: bool)
    requires *old(pos) <= t.len(),
    ensures *old(pos) <= *final(pos) <= t.len(), b ==> *final(pos) == *old(pos) + 1, !b ==> *final(pos) == *old(pos),
        b == (sym_at(t@, *old(pos) as int) == Some(s)),
{
    if is_sym(t, *pos, s) {
        *pos = *pos + 1;
        true
    } else {
        false
    }
}

fn expect_kw(t: &Vec<Token>, pos: &mut usize, kw: &str) -> (r: PResult<()>)
    requires *old(pos) <= t.len(),
    ensures *old(pos) <= *final(pos) <= t.len(), r is Ok ==> *final(pos) == *old(pos) + 1,
        r is Ok ==> sym_at(t@, *old(pos) as int) is None,
        r is Ok <==> kw_at(t@, *old(pos) as int, kw@),
        r is Err ==> *final(pos) == *old(pos),
{
    if eat_kw(t, pos, kw) {
        Ok(())
    } else {
        fail("syntax error: missing keyword")
    }
}

fn expect_sym(t: &Vec<Token>, pos: &mut usize, s: Sym) -> (r: PResult<()>)
    requires *old(pos) <= t.len(),
    ensures *old(pos) <= *final(pos) <= t.len(), r is Ok ==> *final(pos) == *old(pos) + 1,
        (r is Ok) == (sym_at(t@, *old(pos) as int) == Some(s)),
{
    if eat_sym(t, pos, s) {
        Ok(())
    } else {
        fail("syntax error: missing punctuation")
    }
}

/// Words that end a clause and so cannot serve as an implicit alias.
fn is_reserved(w: &Vec<char>) -> (r: bool)
    ensures r == reserved_word(w@),
{
    eq_word(w, "select") || eq_word(w, "from") || eq_word(w, "where") || eq_word(w, "group")
        || eq_word(w, "order") || eq_word(w, "having") || eq_word(w, "limit") || eq_word(w, "offset")
        || eq_word(w, "join") || eq_word(w, "inner") || eq_word(w, "left") || eq_word(w, "right")
        || eq_word(w, "cross") || eq_word(w, "on") || eq_word(w, "union") || eq_word(w, "intersect")
        || eq_word(w, "except") || eq_word(w, "as") || eq_word(w, "and") || eq_word(w, "or")
        || eq_word(w, "not") || eq_word(w, "returning") || eq_word(w, "set") || eq_word(w, "values")
        || eq_word(w, "using") || eq_word(w, "natural") || eq_word(w, "outer") || eq_word(w, "full")
        || eq_word(w, "window") || eq_word(w, "is") || eq_word(w, "in") || eq_word(w, "like")
        || eq_word(w, "between") || eq_word(w, "match") || eq_word(w, "xor") || eq_word(w, "asc")
        || eq_word(w, "desc") || eq_word(w, "nulls") || eq_word(w, "then") || eq_word(w, "when")
        || eq_word(w, "else") || eq_word(w, "end")
}

/// An identifier: an unquoted word or a quoted name.
fn parse_ident(t: &Vec<Token>, pos: &mut usize) -> (r: PResult<Vec<char>>)
    requires *old(pos) <= t.len(),
    ensures *old(pos) <= *final(pos) <= t.len(), r is Ok ==> *final(pos) == *old(pos) + 1,
        match ident_at(t@, *old(pos) as int) {
            Some(n) => r matches Ok(x) && x@ == n,
            None => r is Err && *final(pos) == *old(pos),
        },
{
    if *pos < t.len() {
        match &t[*pos] {
            Token::Word(w) => {
                let r = crate::types::copy_chars(w);
                *pos = *pos + 1;
                Ok(r)
            },
            Token::Quoted(w) => {
                let r = crate::types::copy_chars(w);
                *pos = *pos + 1;
                Ok(r)
            },
            _ => fail("syntax error: expected a name"),
        }
    } else {
        fail("syntax error: unexpected end of statement")
    }
}

/// An optional alias: `AS name`, or a bare name that is not a clause keyword.
fn parse_alias(t: &Vec<Token>, pos: &mut usize) -> (r: PResult<Option<Vec<char>>>)
    requires *old(pos) <= t.len(),
    ensures *old(pos) <= *final(pos) <= t.len(),
        kw_at(t@, *old(pos) as int, "as"@) ==> match ident_at(t@, *old(pos) + 1) {
            Some(n) => r matches Ok(Some(x)) && x@ == n && *final(pos) == *old(pos) + 2,
            None => r is Err,
        },
        !kw_at(t@, *old(pos) as int, "as"@) ==> match ident_at(t@, *old(pos) as int) {
            Some(n) => if t@[*old(pos) as int] is Word && reserved_word(n) {
                r matches Ok(None) && *final(pos) == *old(pos)
            } else {
                r matches Ok(Some(x)) && x@ == n && *final(pos) == *old(pos) + 1
            },
            None => r matches Ok(None) && *final(pos) == *old(pos),
        },
{
    if eat_kw(t, pos, "as") {
        let n = parse_ident(t, pos)?;
        return Ok(Some(n));
    }
    if *pos < t.len() {
        match &t[*pos] {
            Token::Word(w) => {
                if is_reserved(w) {
                    Ok(None)
                } else {
                    let r = crate::types::copy_chars(w);
                    *pos = *pos + 1;
                    Ok(Some(r))
                }
            },
            Token::Quoted(w) => {
                let r = crate::types::copy_chars(w);
                *pos = *pos + 1;
                Ok(Some(r))
            },
            _ => Ok(None),
        }
    } else {
        Ok(None)
    }
}

fn bin(op: BinaryOperator, l: Expr, r: Expr) -> (e: Expr)
    ensures e == (Expr::Binary { op, left: Box::new(l), right: Box::new(r) }),
{
    Expr::Binary { op, left: Box::new(l), right: Box::new(r) }
}

/// `expr [, expr]*`
fn parse_expr_list(t: &Vec<Token>, pos: &mut usize, fuel: u32) -> (r: PResult<Vec<Expr>>)
    requires *old(pos) <= t.len(),
    ensures *old(pos) <= *final(pos) <= t.len(),
        r matches Ok(v) ==> v@.len() > 0 && sym_at(t@, *final(pos) as int) != Some(Sym::Comma),
        fuel > 0 ==> (lit_list_end(toks_view(t@), *old(pos) as int) matches Some(k) ==> (sym_at(t@, k) == Some(Sym::RParen) ==> (r matches Ok(v) && lit_exprs(v@, lit_list_vals(toks_view(t@), *old(pos) as int)) && *final(pos) == k))),
    decreases fuel, 26int,
{
    proof { lemma_tok_views(t@); }
    let ghost ts = toks_view(t@);
    let ghost p0 = *pos as int;
    let ghost good = fuel > 0 && lit_list_end(ts, p0) is Some && sym_at(t@, lit_list_end(ts, p0).unwrap()) == Some(Sym::RParen);
    let ghost mut done: Seq<TokV> = Seq::empty();
    let mut out: Vec<Expr> = Vec::new();
    loop
        invariant_except_break
            good ==> lit_list_end(ts, *pos as int) == lit_list_end(ts, p0)
                && lit_list_vals(ts, p0) == done + lit_list_vals(ts, *pos as int) && lit_exprs(out@, done),
        invariant *old(pos) <= *pos <= t.len(), p0 == *old(pos), ts == toks_view(t@),
            good == (fuel > 0 && lit_list_end(ts, p0) is Some && sym_at(t@, lit_list_end(ts, p0).unwrap()) == Some(Sym::RParen)),
        ensures *old(pos) <= *pos <= t.len(), out@.len() > 0, sym_at(t@, *pos as int) != Some(Sym::Comma),
            good ==> lit_exprs(out@, lit_list_vals(ts, p0)) && *pos == lit_list_end(ts, p0).unwrap(),
        decreases t.len() - *pos,
    {
        let ghost p = *pos as int;
        let ghost ex = Expr::Literal(Value::Integer(0));
        proof {
            if good && ts[p] is Int {
                let v = ts[p]->Int_0;
                assert(ts[p] == tok_view(t@[p]));
                ex = Expr::Literal(Value::Integer(v as i64));
                assert(t@[p] == Token::Int(v as i64));
                assert(t@.subrange(p, p + 1) =~= render(ex));
                assert(stop_at(t@, p + 1, 1));
                assert(renderable(ex) && depth(ex) == 0 && render(ex).len() == 1);
            }
        }
        let lone = *pos < t.len() && (is_sym(t, *pos + 1, Sym::Comma) || is_sym(t, *pos + 1, Sym::RParen));
        let direct: Option<Expr> = if lone {
            match &t[*pos] {
                Token::Str(w) => Some(Expr::Literal(text_value(w))),
                Token::Word(_) => if is_kw(t, *pos, "null") { Some(Expr::Literal(Value::Null)) } else { None },
                _ => None,
            }
        } else {
            None
        };
        let e = match direct {
            Some(x) => {
                *pos = *pos + 1;
                x
            },
            None => parse_expr(t, pos, fuel)?,
        };
        proof {
            if good {
                assert(ts[p] == tok_view(t@[p]));
                if ts[p] is Int {
                    assert(same_expr(e, ex));
                    assert(e == ex);
                }
                assert(lone);
                assert(lit_expr(e, ts[p]));
                assert(lit_exprs(out@.push(e), done.push(ts[p])));
            }
        }
        out.push(e);
        if !eat_sym(t, pos, Sym::Comma) {
            proof {
                if good {
                    assert(lit_list_vals(ts, p) == seq![ts[p]]);
                    assert(done.push(ts[p]) =~= done + lit_list_vals(ts, p));
                }
            }
            break;
        }
        proof {
            if good {
                assert(done.push(ts[p]) + lit_list_vals(ts, p + 2) =~= done + lit_list_vals(ts, p));
                done = done.push(ts[p]);
            }
        }
    }
    Ok(out)
}

/// An expression, at the `OR` level of precedence.
///
/// An expression built from integer literals and plain names with operators
/// written as symbols comes back from its fully parenthesised tokens.
pub fn parse_expr(t: &Vec<Token>, pos: &mut usize, fuel: u32) -> (r: PResult<Expr>)
    requires *old(pos) <= t.len(),
    ensures *old(pos) <= *final(pos) <= t.len(),
        forall|e: Expr| #[trigger] renderable(e) && *old(pos) + render(e).len() <= t@.len()
            && t@.subrange(*old(pos) as int, *old(pos) + render(e).len()) == render(e)
            && stop_at(t@, *old(pos) + render(e).len(), 1) && fuel > depth(e)
            ==> (r matches Ok(x) && same_expr(x, e) && *final(pos) == *old(pos) + render(e).len()),
        forall|e: Expr| #[trigger] bare_at(t@, *old(pos) as int, e, fuel as int)
            ==> (r matches Ok(x) && same_expr(x, e) && *final(pos) == *old(pos) + render_bare(e).len()),
    decreases fuel, 25int,
{
    let ghost p0 = *pos as int;
    let ghost some_b = exists|e: Expr| #[trigger] bare_at(t@, p0, e, fuel as int);
    let ghost some = exists|e: Expr| #[trigger] renderable(e) && p0 + render(e).len() <= t@.len()
        && t@.subrange(p0, p0 + render(e).len()) == render(e) && stop_at(t@, p0 + render(e).len(), 1) && fuel > depth(e);
    let ghost h: Option<(Expr, bool)> = if some {
        Some((choose|e: Expr| #[trigger] renderable(e) && p0 + render(e).len() <= t@.len()
            && t@.subrange(p0, p0 + render(e).len()) == render(e) && stop_at(t@, p0 + render(e).len(), 1) && fuel > depth(e), false))
    } else if some_b {
        Some((choose|e: Expr| #[trigger] bare_at(t@, p0, e, fuel as int), true))
    } else {
        None
    };
    proof {
        if !some && some_b {
            let e0 = h.unwrap().0;
            lemma_op_sym(bin_parts(e0).0, bin_parts(e0).0);
            assert(hint_holds(t@, p0, h, 1, fuel as int));
        }
    }
    let r = parse_or(t, pos, fuel, Ghost(h));
    proof {
        assert forall|e: Expr| #[trigger] renderable(e) && p0 + render(e).len() <= t@.len()
            && t@.subrange(p0, p0 + render(e).len()) == render(e)
            && stop_at(t@, p0 + render(e).len(), 1) && fuel > depth(e)
            implies (r matches Ok(x) && same_expr(x, e) && *pos == p0 + render(e).len()) by {
            let e0 = h.unwrap().0;
            lemma_render_unique(t@, p0, e, e0);
            lemma_sim_render(e, e0);
            lemma_sim_same(r->Ok_0, e, e0);
        }
        assert forall|e: Expr| #[trigger] bare_at(t@, p0, e, fuel as int)
            implies (r matches Ok(x) && same_expr(x, e) && *pos == p0 + render_bare(e).len()) by {
            if some {
                let e1 = h.unwrap().0;
                assert(paren_at(t@, p0, e1, fuel as int));
                lemma_paren_not_bare(t@, p0, e1, e);
            } else {
                let e0 = h.unwrap().0;
                lemma_bare_unique(t@, p0, e, e0);
                lemma_sim_render(e, e0);
                lemma_render_binary(e);
                lemma_render_binary(e0);
                lemma_sim_same(r->Ok_0, e, e0);
            }
        }
    }
    r
}

/// `OR` level.
fn parse_or(t: &Vec<Token>, pos: &mut usize, fuel: u32, Ghost(h): Ghost<Option<(Expr, bool)>>) -> (r: PResult<Expr>)
    requires *old(pos) <= t.len(),
    ensures *old(pos) <= *final(pos) <= t.len(),
        hint_holds(t@, *old(pos) as int, h, 1, fuel as int) ==> hint_met(t@, *old(pos) as int, h, r, *final(pos) as int),
    decreases fuel, 24int,
{
    let ghost p0 = *pos as int;
    let ghost good = hint_holds(t@, p0, h, 1, fuel as int);
    let ghost here = good && splits_here(h, 1);
    let ghost e = h.unwrap().0;
    let ghost op_e = bin_parts(e).0;
    let ghost l_e = bin_parts(e).1;
    let ghost r_e = bin_parts(e).2;
    let ghost end = p0 + hinted(e, h.unwrap().1).len();
    proof {
        if good && h.unwrap().1 { lemma_op_sym(op_e, op_e); }
        if here { lemma_hint_split(t@, p0, h, 1, fuel as int); }
        else if good { lemma_hint_next(t@, p0, h, 1, fuel as int); }
    }
    let ghost hl: Option<(Expr, bool)> = if here { Some((l_e, false)) } else if good { h } else { None };
    let mut left = parse_xor(t, pos, fuel, Ghost(hl))?;
    let ghost mut phase: int = 0;
    loop
        invariant *old(pos) <= *pos <= t.len(), p0 == *old(pos) as int, here ==> good,
            phase == 0 || phase == 1,
            good == hint_holds(t@, p0, h, 1, fuel as int), here == (good && splits_here(h, 1)),
            e == h.unwrap().0, op_e == bin_parts(e).0, l_e == bin_parts(e).1, r_e == bin_parts(e).2,
            end == p0 + hinted(e, h.unwrap().1).len(),
            good ==> stop_at(t@, end, 1),
            here ==> (phase == 0 ==> *pos == p0 + render(l_e).len() && same_expr(left, l_e)),
            here ==> sym_at(t@, p0 + render(l_e).len()) == op_sym(op_e),
            here ==> hint_holds(t@, p0 + render(l_e).len() + 1, Some((r_e, false)), 2int, fuel as int),
            here ==> p0 + render(l_e).len() + 1 + render(r_e).len() == end,
            here ==> e == (Expr::Binary { op: op_e, left: Box::new(l_e), right: Box::new(r_e) }),
            here ==> op_sym(op_e) is Some,
            good && (!here || phase == 1) ==> *pos == end && same_expr(left, e),
        ensures good ==> *pos == end && same_expr(left, e),
        decreases t.len() - *pos,
    {
        if !eat_kw(t, pos, "or") {
            break;
        }
        let op = BinaryOperator::Or;
        proof {
            if good {
                assert(here && phase == 0);
                lemma_op_sym(op_e, op);
            }
        }
        let ghost hr: Option<(Expr, bool)> = if good { Some((r_e, false)) } else { None };
        let right = parse_xor(t, pos, fuel, Ghost(hr))?;
        left = bin(op, left, right);
        proof { phase = 1; }
    }
    Ok(left)
}

fn parse_xor(t: &Vec<Token>, pos: &mut usize, fuel: u32, Ghost(h): Ghost<Option<(Expr, bool)>>) -> (r: PResult<Expr>)
    requires *old(pos) <= t.len(),
    ensures *old(pos) <= *final(pos) <= t.len(),
        hint_holds(t@, *old(pos) as int, h, 2, fuel as int) ==> hint_met(t@, *old(pos) as int, h, r, *final(pos) as int),
    decreases fuel, 22int,
{
    let ghost p0 = *pos as int;
    let ghost good = hint_holds(t@, p0, h, 2, fuel as int);
    let ghost here = good && splits_here(h, 2);
    let ghost e = h.unwrap().0;
    let ghost op_e = bin_parts(e).0;
    let ghost l_e = bin_parts(e).1;
    let ghost r_e = bin_parts(e).2;
    let ghost end = p0 + hinted(e, h.unwrap().1).len();
    proof {
        if good && h.unwrap().1 { lemma_op_sym(op_e, op_e); }
        if here { lemma_hint_split(t@, p0, h, 2, fuel as int); }
        else if good { lemma_hint_next(t@, p0, h, 2, fuel as int); }
    }
    let ghost hl: Option<(Expr, bool)> = if here { Some((l_e, false)) } else if good { h } else { None };
    let mut left = parse_and(t, pos, fuel, Ghost(hl))?;
    let ghost mut phase: int = 0;
    loop
        invariant *old(pos) <= *pos <= t.len(), p0 == *old(pos) as int, here ==> good,
            phase == 0 || phase == 1,
            good == hint_holds(t@, p0, h, 2, fuel as int), here == (good && splits_here(h, 2)),
            e == h.unwrap().0, op_e == bin_parts(e).0, l_e == bin_parts(e).1, r_e == bin_parts(e).2,
            end == p0 + hinted(e, h.unwrap().1).len(),
            good ==> stop_at(t@, end, 2),
            here ==> (phase == 0 ==> *pos == p0 + render(l_e).len() && same_expr(left, l_e)),
            here ==> sym_at(t@, p0 + render(l_e).len()) == op_sym(op_e),
            here ==> hint_holds(t@, p0 + render(l_e).len() + 1, Some((r_e, false)), 3int, fuel as int),
            here ==> p0 + render(l_e).len() + 1 + render(r_e).len() == end,
            here ==> e == (Expr::Binary { op: op_e, left: Box::new(l_e), right: Box::new(r_e) }),
            here ==> op_sym(op_e) is Some,
            good && (!here || phase == 1) ==> *pos == end && same_expr(left, e),
        ensures good ==> *pos == end && same_expr(left, e),
        decreases t.len() - *pos,
    {
        if !eat_kw(t, pos, "xor") {
            break;
        }
        let op = BinaryOperator::Xor;
        proof {
            if good {
                assert(here && phase == 0);
                lemma_op_sym(op_e, op);
            }
        }
        let ghost hr: Option<(Expr, bool)> = if good { Some((r_e, false)) } else { None };
        let right = parse_and(t, pos, fuel, Ghost(hr))?;
        left = bin(op, left, right);
        proof { phase = 1; }
    }
    Ok(left)
}

fn parse_and(t: &Vec<Token>, pos: &mut usize, fuel: u32, Ghost(h): Ghost<Option<(Expr, bool)>>) -> (r: PResult<Expr>)
    requires *old(pos) <= t.len(),
    ensures *old(pos) <= *final(pos) <= t.len(),
        hint_holds(t@, *old(pos) as int, h, 3, fuel as int) ==> hint_met(t@, *old(pos) as int, h, r, *final(pos) as int),
    decreases fuel, 20int,
{
    let ghost p0 = *pos as int;
    let ghost good = hint_holds(t@, p0, h, 3, fuel as int);
    let ghost here = good && splits_here(h, 3);
    let ghost e = h.unwrap().0;
    let ghost op_e = bin_parts(e).0;
    let ghost l_e = bin_parts(e).1;
    let ghost r_e = bin_parts(e).2;
    let ghost end = p0 + hinted(e, h.unwrap().1).len();
    proof {
        if good && h.unwrap().1 { lemma_op_sym(op_e, op_e); }
        if here { lemma_hint_split(t@, p0, h, 3, fuel as int); }
        else if good { lemma_hint_next(t@, p0, h, 3, fuel as int); }
    }
    let ghost hl: Option<(Expr, bool)> = if here { Some((l_e, false)) } else if good { h } else { None };
    let mut left = parse_not(t, pos, fuel, Ghost(hl))?;
    let ghost mut phase: int = 0;
    loop
        invariant *old(pos) <= *pos <= t.len(), p0 == *old(pos) as int, here ==> good,
            phase == 0 || phase == 1,
            good == hint_holds(t@, p0, h, 3, fuel as int), here == (good && splits_here(h, 3)),
            e == h.unwrap().0, op_e == bin_parts(e).0, l_e == bin_parts(e).1, r_e == bin_parts(e).2,
            end == p0 + hinted(e, h.unwrap().1).len(),
            good ==> stop_at(t@, end, 3),
            here ==> (phase == 0 ==> *pos == p0 + render(l_e).len() && same_expr(left, l_e)),
            here ==> sym_at(t@, p0 + render(l_e).len()) == op_sym(op_e),
            here ==> hint_holds(t@, p0 + render(l_e).len() + 1, Some((r_e, false)), 4int, fuel as int),
            here ==> p0 + render(l_e).len() + 1 + render(r_e).len() == end,
            here ==> e == (Expr::Binary { op: op_e, left: Box::new(l_e), right: Box::new(r_e) }),
            here ==> op_sym(op_e) is Some,
            good && (!here || phase == 1) ==> *pos == end && same_expr(left, e),
        ensures good ==> *pos == end && same_expr(left, e),
        decreases t.len() - *pos,
    {
        if !eat_kw(t, pos, "and") {
            break;
        }
        let op = BinaryOperator::And;
        proof {
            if good {
                assert(here && phase == 0);
                lemma_op_sym(op_e, op);
            }
        }
        let ghost hr: Option<(Expr, bool)> = if good { Some((r_e, false)) } else { None };
        let right = parse_not(t, pos, fuel, Ghost(hr))?;
        left = bin(op, left, right);
        proof { phase = 1; }
    }
    Ok(left)
}

fn parse_not(t: &Vec<Token>, pos: &mut usize, fuel: u32, Ghost(h): Ghost<Option<(Expr, bool)>>) -> (r: PResult<Expr>)
    requires *old(pos) <= t.len(),
    ensures *old(pos) <= *final(pos) <= t.len(),
        hint_holds(t@, *old(pos) as int, h, 4, fuel as int) ==> hint_met(t@, *old(pos) as int, h, r, *final(pos) as int),
    decreases fuel, 18int,
{
    let ghost p0 = *pos as int;
    let ghost good = hint_holds(t@, p0, h, 4, fuel as int);
    proof {
        if good {
            lemma_hint_first(t@, p0, h, 4, fuel as int);
            if h.unwrap().1 { lemma_op_sym(bin_parts(h.unwrap().0).0, bin_parts(h.unwrap().0).0); }
            lemma_hint_next(t@, p0, h, 4, fuel as int);
        }
    }
    if is_kw(t, *pos, "not") && !kw_after(t, *pos, "exists") {
        *pos = *pos + 1;
        if fuel == 0 {
            return fail("expression nested too deeply");
        }
        let e = parse_not(t, pos, fuel - 1, Ghost(None))?;
        return Ok(Expr::Unary { op: UnaryOperator::Not, expr: Box::new(e) });
    }
    let ghost hn: Option<(Expr, bool)> = if good { h } else { None };
    parse_comparison(t, pos, fuel, Ghost(hn))
}

fn comparison_op(t: &Vec<Token>, i: usize) -> (r: Option<BinaryOperator>)
    ensures r is Some ==> i < t.len(),
        r is Some == (sym_at(t@, i as int) matches Some(x) && sym_level(x) == 5),
        r matches Some(op) ==> op_sym(op) == sym_at(t@, i as int),
{
    if is_sym(t, i, Sym::Eq) { Some(BinaryOperator::Equal) }
    else if is_sym(t, i, Sym::Ne) { Some(BinaryOperator::NotEqual) }
    else if is_sym(t, i, Sym::Lt) { Some(BinaryOperator::LessThan) }
    else if is_sym(t, i, Sym::Le) { Some(BinaryOperator::LessThanOrEqual) }
    else if is_sym(t, i, Sym::Gt) { Some(BinaryOperator::GreaterThan) }
    else if is_sym(t, i, Sym::Ge) { Some(BinaryOperator::GreaterThanOrEqual) }
    else { None }
}

/// Comparisons and the postfix predicates IS, IN, LIKE, BETWEEN, MATCH.
fn parse_comparison(t: &Vec<Token>, pos: &mut usize, fuel: u32, Ghost(h): Ghost<Option<(Expr, bool)>>) -> (r: PResult<Expr>)
    requires *old(pos) <= t.len(),
    ensures *old(pos) <= *final(pos) <= t.len(),
        hint_holds(t@, *old(pos) as int, h, 5, fuel as int) ==> hint_met(t@, *old(pos) as int, h, r, *final(pos) as int),
    decreases fuel, 16int,
{
    let ghost p0 = *pos as int;
    let ghost good = hint_holds(t@, p0, h, 5, fuel as int);
    let ghost here = good && splits_here(h, 5);
    let ghost e = h.unwrap().0;
    let ghost op_e = bin_parts(e).0;
    let ghost l_e = bin_parts(e).1;
    let ghost r_e = bin_parts(e).2;
    let ghost end = p0 + hinted(e, h.unwrap().1).len();
    proof {
        if good && h.unwrap().1 { lemma_op_sym(op_e, op_e); }
        if here { lemma_hint_split(t@, p0, h, 5, fuel as int); }
        else if good { lemma_hint_next(t@, p0, h, 5, fuel as int); }
    }
    let ghost hl: Option<(Expr, bool)> = if here { Some((l_e, false)) } else if good { h } else { None };
    let mut left = parse_bitwise(t, pos, fuel, Ghost(hl))?;
    let ghost mut phase: int = 0;
    loop
        invariant *old(pos) <= *pos <= t.len(), p0 == *old(pos) as int, here ==> good,
            phase == 0 || phase == 1,
            good == hint_holds(t@, p0, h, 5, fuel as int), here == (good && splits_here(h, 5)),
            e == h.unwrap().0, op_e == bin_parts(e).0, l_e == bin_parts(e).1, r_e == bin_parts(e).2,
            end == p0 + hinted(e, h.unwrap().1).len(),
            good ==> stop_at(t@, end, 5),
            here ==> (phase == 0 ==> *pos == p0 + render(l_e).len() && same_expr(left, l_e)),
            here ==> sym_at(t@, p0 + render(l_e).len()) == op_sym(op_e),
            here ==> hint_holds(t@, p0 + render(l_e).len() + 1, Some((r_e, false)), 6, fuel as int),
            here ==> p0 + render(l_e).len() + 1 + render(r_e).len() == end,
            here ==> e == (Expr::Binary { op: op_e, left: Box::new(l_e), right: Box::new(r_e) }),
            here ==> op_sym(op_e) is Some,
            good && (!here || phase == 1) ==> *pos == end && same_expr(left, e),
        ensures good ==> *pos == end && same_expr(left, e),
        decreases t.len() - *pos,
    {
        proof { if here { lemma_sym_levels(op_sym(op_e).unwrap()); } }
        let start = *pos;
        match comparison_op(t, *pos) {
            Some(op) => {
                proof {
                    if good {
                        assert(here && phase == 0);
                        lemma_op_sym(op_e, op);
                    }
                }
                *pos = *pos + 1;
                let ghost hr: Option<(Expr, bool)> = if good { Some((r_e, false)) } else { None };
                let right = parse_bitwise(t, pos, fuel, Ghost(hr))?;
                left = bin(op, left, right);
                proof { phase = 1; }
                continue;
            },
            None => {},
        }
        if eat_kw(t, pos, "is") {
            let negated = eat_kw(t, pos, "not");
            expect_kw(t, pos, "null")?;
            left = Expr::IsNull { expr: Box::new(left), negated };
            continue;
        }
        if eat_kw(t, pos, "isnull") {
            left = Expr::IsNull { expr: Box::new(left), negated: false };
            continue;
        }
        if eat_kw(t, pos, "notnull") {
            left = Expr::IsNull { expr: Box::new(left), negated: true };
            continue;
        }
        if eat_kw(t, pos, "match") {
            let right = parse_bitwise(t, pos, fuel, Ghost(None))?;
            left = bin(BinaryOperator::FtsMatch, left, right);
            continue;
        }
        let negated = is_kw(t, *pos, "not") && (kw_after(t, *pos, "in") || kw_after(t, *pos, "like")
            || kw_after(t, *pos, "between"));
        if negated {
            *pos = *pos + 1;
        }
        if eat_kw(t, pos, "like") {
            let pat = parse_bitwise(t, pos, fuel, Ghost(None))?;
            left = Expr::Like { expr: Box::new(left), pattern: Box::new(pat), negated };
            continue;
        }
        if eat_kw(t, pos, "between") {
            let low = parse_bitwise(t, pos, fuel, Ghost(None))?;
            expect_kw(t, pos, "and")?;
            let high = parse_bitwise(t, pos, fuel, Ghost(None))?;
            left = Expr::Between { expr: Box::new(left), low: Box::new(low), high: Box::new(high), negated };
            continue;
        }
        if eat_kw(t, pos, "in") {
            expect_sym(t, pos, Sym::LParen)?;
            if fuel == 0 {
                return fail("expression nested too deeply");
            }
            if is_kw(t, *pos, "select") {
                let q = parse_query(t, pos, fuel - 1)?;
                expect_sym(t, pos, Sym::RParen)?;
                left = Expr::InSubquery { expr: Box::new(left), query: Box::new(q), negated };
            } else {
                let list = parse_expr_list(t, pos, fuel - 1)?;
                expect_sym(t, pos, Sym::RParen)?;
                left = Expr::InList { expr: Box::new(left), list, negated };
            }
            continue;
        }
        if negated {
            return fail("syntax error after NOT");
        }
        break;
    }
    Ok(left)
}

fn parse_bitwise(t: &Vec<Token>, pos: &mut usize, fuel: u32, Ghost(h): Ghost<Option<(Expr, bool)>>) -> (r: PResult<Expr>)
    requires *old(pos) <= t.len(),
    ensures *old(pos) <= *final(pos) <= t.len(),
        hint_holds(t@, *old(pos) as int, h, 6, fuel as int) ==> hint_met(t@, *old(pos) as int, h, r, *final(pos) as int),
    decreases fuel, 14int,
{
    let ghost p0 = *pos as int;
    let ghost good = hint_holds(t@, p0, h, 6, fuel as int);
    let ghost here = good && splits_here(h, 6);
    let ghost e = h.unwrap().0;
    let ghost op_e = bin_parts(e).0;
    let ghost l_e = bin_parts(e).1;
    let ghost r_e = bin_parts(e).2;
    let ghost end = p0 + hinted(e, h.unwrap().1).len();
    proof {
        if good && h.unwrap().1 { lemma_op_sym(op_e, op_e); }
        if here { lemma_hint_split(t@, p0, h, 6, fuel as int); }
        else if good { lemma_hint_next(t@, p0, h, 6, fuel as int); }
    }
    let ghost hl: Option<(Expr, bool)> = if here { Some((l_e, false)) } else if good { h } else { None };
    let mut left = parse_additive(t, pos, fuel, Ghost(hl))?;
    let ghost mut phase: int = 0;
    loop
        invariant *old(pos) <= *pos <= t.len(), p0 == *old(pos) as int, here ==> good,
            phase == 0 || phase == 1,
            good == hint_holds(t@, p0, h, 6, fuel as int), here == (good && splits_here(h, 6)),
            e == h.unwrap().0, op_e == bin_parts(e).0, l_e == bin_parts(e).1, r_e == bin_parts(e).2,
            end == p0 + hinted(e, h.unwrap().1).len(),
            good ==> stop_at(t@, end, 6),
            here ==> (phase == 0 ==> *pos == p0 + render(l_e).len() && same_expr(left, l_e)),
            here ==> sym_at(t@, p0 + render(l_e).len()) == op_sym(op_e),
            here ==> hint_holds(t@, p0 + render(l_e).len() + 1, Some((r_e, false)), 7int, fuel as int),
            here ==> p0 + render(l_e).len() + 1 + render(r_e).len() == end,
            here ==> e == (Expr::Binary { op: op_e, left: Box::new(l_e), right: Box::new(r_e) }),
            here ==> op_sym(op_e) is Some,
            good && (!here || phase == 1) ==> *pos == end && same_expr(left, e),
        ensures good ==> *pos == end && same_expr(left, e),
        decreases t.len() - *pos,
    {
        proof { if here { lemma_sym_levels(op_sym(op_e).unwrap()); } }
        let op = if eat_sym(t, pos, Sym::Amp) { BinaryOperator::BitwiseAnd }
            else if eat_sym(t, pos, Sym::Pipe) { BinaryOperator::BitwiseOr }
            else if eat_sym(t, pos, Sym::Caret) { BinaryOperator::BitwiseXor }
            else if eat_sym(t, pos, Sym::Shl) { BinaryOperator::ShiftLeft }
            else if eat_sym(t, pos, Sym::Shr) { BinaryOperator::ShiftRight }
            else { break; };
        proof {
            if good {
                assert(here && phase == 0);
                lemma_op_sym(op_e, op);
            }
        }
        let ghost hr: Option<(Expr, bool)> = if good { Some((r_e, false)) } else { None };
        let right = parse_additive(t, pos, fuel, Ghost(hr))?;
        left = bin(op, left, right);
        proof { phase = 1; }
    }
    Ok(left)
}

fn parse_additive(t: &Vec<Token>, pos: &mut usize, fuel: u32, Ghost(h): Ghost<Option<(Expr, bool)>>) -> (r: PResult<Expr>)
    requires *old(pos) <= t.len(),
    ensures *old(pos) <= *final(pos) <= t.len(),
        hint_holds(t@, *old(pos) as int, h, 7, fuel as int) ==> hint_met(t@, *old(pos) as int, h, r, *final(pos) as int),
    decreases fuel, 12int,
{
    let ghost p0 = *pos as int;
    let ghost good = hint_holds(t@, p0, h, 7, fuel as int);
    let ghost here = good && splits_here(h, 7);
    let ghost e = h.unwrap().0;
    let ghost op_e = bin_parts(e).0;
    let ghost l_e = bin_parts(e).1;
    let ghost r_e = bin_parts(e).2;
    let ghost end = p0 + hinted(e, h.unwrap().1).len();
    proof {
        if good && h.unwrap().1 { lemma_op_sym(op_e, op_e); }
        if here { lemma_hint_split(t@, p0, h, 7, fuel as int); }
        else if good { lemma_hint_next(t@, p0, h, 7, fuel as int); }
    }
    let ghost hl: Option<(Expr, bool)> = if here { Some((l_e, false)) } else if good { h } else { None };
    let mut left = parse_multiplicative(t, pos, fuel, Ghost(hl))?;
    let ghost mut phase: int = 0;
    loop
        invariant *old(pos) <= *pos <= t.len(), p0 == *old(pos) as int, here ==> good,
            phase == 0 || phase == 1,
            good == hint_holds(t@, p0, h, 7, fuel as int), here == (good && splits_here(h, 7)),
            e == h.unwrap().0, op_e == bin_parts(e).0, l_e == bin_parts(e).1, r_e == bin_parts(e).2,
            end == p0 + hinted(e, h.unwrap().1).len(),
            good ==> stop_at(t@, end, 7),
            here ==> (phase == 0 ==> *pos == p0 + render(l_e).len() && same_expr(left, l_e)),
            here ==> sym_at(t@, p0 + render(l_e).len()) == op_sym(op_e),
            here ==> hint_holds(t@, p0 + render(l_e).len() + 1, Some((r_e, false)), 8int, fuel as int),
            here ==> p0 + render(l_e).len() + 1 + render(r_e).len() == end,
            here ==> e == (Expr::Binary { op: op_e, left: Box::new(l_e), right: Box::new(r_e) }),
            here ==> op_sym(op_e) is Some,
            good && (!here || phase == 1) ==> *pos == end && same_expr(left, e),
        ensures good ==> *pos == end && same_expr(left, e),
        decreases t.len() - *pos,
    {
        proof { if here { lemma_sym_levels(op_sym(op_e).unwrap()); } }
        let op = if eat_sym(t, pos, Sym::Plus) { BinaryOperator::Add }
            else if eat_sym(t, pos, Sym::Minus) { BinaryOperator::Subtract }
            else { break; };
        proof {
            if good {
                assert(here && phase == 0);
                lemma_op_sym(op_e, op);
            }
        }
        let ghost hr: Option<(Expr, bool)> = if good { Some((r_e, false)) } else { None };
        let right = parse_multiplicative(t, pos, fuel, Ghost(hr))?;
        left = bin(op, left, right);
        proof { phase = 1; }
    }
    Ok(left)
}

fn parse_multiplicative(t: &Vec<Token>, pos: &mut usize, fuel: u32, Ghost(h): Ghost<Option<(Expr, bool)>>) -> (r: PResult<Expr>)
    requires *old(pos) <= t.len(),
    ensures *old(pos) <= *final(pos) <= t.len(),
        hint_holds(t@, *old(pos) as int, h, 8, fuel as int) ==> hint_met(t@, *old(pos) as int, h, r, *final(pos) as int),
    decreases fuel, 10int,
{
    let ghost p0 = *pos as int;
    let ghost good = hint_holds(t@, p0, h, 8, fuel as int);
    let ghost here = good && splits_here(h, 8);
    let ghost e = h.unwrap().0;
    let ghost op_e = bin_parts(e).0;
    let ghost l_e = bin_parts(e).1;
    let ghost r_e = bin_parts(e).2;
    let ghost end = p0 + hinted(e, h.unwrap().1).len();
    proof {
        if good && h.unwrap().1 { lemma_op_sym(op_e, op_e); }
        if here { lemma_hint_split(t@, p0, h, 8, fuel as int); }
        else if good { lemma_hint_next(t@, p0, h, 8, fuel as int); }
    }
    let ghost hl: Option<(Expr, bool)> = if here { Some((l_e, false)) } else if good { h } else { None };
    let mut left = parse_concat(t, pos, fuel, Ghost(hl))?;
    let ghost mut phase: int = 0;
    loop
        invariant *old(pos) <= *pos <= t.len(), p0 == *old(pos) as int, here ==> good,
            phase == 0 || phase == 1,
            good == hint_holds(t@, p0, h, 8, fuel as int), here == (good && splits_here(h, 8)),
            e == h.unwrap().0, op_e == bin_parts(e).0, l_e == bin_parts(e).1, r_e == bin_parts(e).2,
            end == p0 + hinted(e, h.unwrap().1).len(),
            good ==> stop_at(t@, end, 8),
            here ==> (phase == 0 ==> *pos == p0 + render(l_e).len() && same_expr(left, l_e)),
            here ==> sym_at(t@, p0 + render(l_e).len()) == op_sym(op_e),
            here ==> hint_holds(t@, p0 + render(l_e).len() + 1, Some((r_e, false)), 9int, fuel as int),
            here ==> p0 + render(l_e).len() + 1 + render(r_e).len() == end,
            here ==> e == (Expr::Binary { op: op_e, left: Box::new(l_e), right: Box::new(r_e) }),
            here ==> op_sym(op_e) is Some,
            good && (!here || phase == 1) ==> *pos == end && same_expr(left, e),
        ensures good ==> *pos == end && same_expr(left, e),
        decreases t.len() - *pos,
    {
        proof { if here { lemma_sym_levels(op_sym(op_e).unwrap()); } }
        let op = if eat_sym(t, pos, Sym::Star) { BinaryOperator::Multiply }
            else if eat_sym(t, pos, Sym::Slash) { BinaryOperator::Divide }
            else if eat_sym(t, pos, Sym::Percent) { BinaryOperator::Modulo }
            else { break; };
        proof {
            if good {
                assert(here && phase == 0);
                lemma_op_sym(op_e, op);
            }
        }
        let ghost hr: Option<(Expr, bool)> = if good { Some((r_e, false)) } else { None };
        let right = parse_concat(t, pos, fuel, Ghost(hr))?;
        left = bin(op, left, right);
        proof { phase = 1; }
    }
    Ok(left)
}

fn parse_concat(t: &Vec<Token>, pos: &mut usize, fuel: u32, Ghost(h): Ghost<Option<(Expr, bool)>>) -> (r: PResult<Expr>)
    requires *old(pos) <= t.len(),
    ensures *old(pos) <= *final(pos) <= t.len(),
        hint_holds(t@, *old(pos) as int, h, 9, fuel as int) ==> hint_met(t@, *old(pos) as int, h, r, *final(pos) as int),
    decreases fuel, 8int,
{
    let ghost p0 = *pos as int;
    let ghost good = hint_holds(t@, p0, h, 9, fuel as int);
    let ghost here = good && splits_here(h, 9);
    let ghost e = h.unwrap().0;
    let ghost op_e = bin_parts(e).0;
    let ghost l_e = bin_parts(e).1;
    let ghost r_e = bin_parts(e).2;
    let ghost end = p0 + hinted(e, h.unwrap().1).len();
    proof {
        if good && h.unwrap().1 { lemma_op_sym(op_e, op_e); }
        if here { lemma_hint_split(t@, p0, h, 9, fuel as int); }
        else if good { lemma_hint_next(t@, p0, h, 9, fuel as int); }
    }
    let ghost hl: Option<(Expr, bool)> = if here { Some((l_e, false)) } else if good { h } else { None };
    let mut left = parse_unary(t, pos, fuel, Ghost(hl))?;
    let ghost mut phase: int = 0;
    loop
        invariant *old(pos) <= *pos <= t.len(), p0 == *old(pos) as int, here ==> good,
            phase == 0 || phase == 1,
            good == hint_holds(t@, p0, h, 9, fuel as int), here == (good && splits_here(h, 9)),
            e == h.unwrap().0, op_e == bin_parts(e).0, l_e == bin_parts(e).1, r_e == bin_parts(e).2,
            end == p0 + hinted(e, h.unwrap().1).len(),
            good ==> stop_at(t@, end, 9),
            here ==> (phase == 0 ==> *pos == p0 + render(l_e).len() && same_expr(left, l_e)),
            here ==> sym_at(t@, p0 + render(l_e).len()) == op_sym(op_e),
            here ==> hint_holds(t@, p0 + render(l_e).len() + 1, Some((r_e, false)), 10int, fuel as int),
            here ==> p0 + render(l_e).len() + 1 + render(r_e).len() == end,
            here ==> e == (Expr::Binary { op: op_e, left: Box::new(l_e), right: Box::new(r_e) }),
            here ==> op_sym(op_e) is Some,
            good && (!here || phase == 1) ==> *pos == end && same_expr(left, e),
        ensures good ==> *pos == end && same_expr(left, e),
        decreases t.len() - *pos,
    {
        proof { if here { lemma_sym_levels(op_sym(op_e).unwrap()); } }
        let op = if eat_sym(t, pos, Sym::Concat) { BinaryOperator::Concat }
            else { break; };
        proof {
            if good {
                assert(here && phase == 0);
                lemma_op_sym(op_e, op);
            }
        }
        let ghost hr: Option<(Expr, bool)> = if good { Some((r_e, false)) } else { None };
        let right = parse_unary(t, pos, fuel, Ghost(hr))?;
        left = bin(op, left, right);
        proof { phase = 1; }
    }
    Ok(left)
}

fn parse_unary(t: &Vec<Token>, pos: &mut usize, fuel: u32, Ghost(h): Ghost<Option<(Expr, bool)>>) -> (r: PResult<Expr>)
    requires *old(pos) <= t.len(),
    ensures *old(pos) <= *final(pos) <= t.len(),
        hint_holds(t@, *old(pos) as int, h, 10, fuel as int) ==> hint_met(t@, *old(pos) as int, h, r, *final(pos) as int),
    decreases fuel, 6int,
{
    let ghost p0 = *pos as int;
    let ghost good = hint_holds(t@, p0, h, 10, fuel as int);
    proof {
        if good {
            lemma_hint_first(t@, p0, h, 10, fuel as int);
            if h.unwrap().1 { lemma_op_sym(bin_parts(h.unwrap().0).0, bin_parts(h.unwrap().0).0); }
            lemma_hint_next(t@, p0, h, 10, fuel as int);
        }
    }
    let op = if eat_sym(t, pos, Sym::Minus) { Some(UnaryOperator::Minus) }
        else if eat_sym(t, pos, Sym::Plus) { Some(UnaryOperator::Plus) }
        else if eat_sym(t, pos, Sym::Tilde) { Some(UnaryOperator::BitNot) }
        else { None };
    match op {
        Some(o) => {
            if fuel == 0 {
                return fail("expression nested too deeply");
            }
            // fold a minus sign into an integer literal
            if o == UnaryOperator::Minus && *pos < t.len() {
                match &t[*pos] {
                    Token::Int(v) => {
                        if *v > i64::MIN {
                            let v = *v;
                            *pos = *pos + 1;
                            return Ok(Expr::Literal(Value::Integer(-v)));
                        }
                    },
                    _ => {},
                }
            }
            let e = parse_unary(t, pos, fuel - 1, Ghost(None))?;
            Ok(Expr::Unary { op: o, expr: Box::new(e) })
        },
        None => {
            let ghost hp: Option<(Expr, bool)> = if good { h } else { None };
            parse_primary(t, pos, fuel, Ghost(hp))
        },
    }
}

/// The type a CAST names by the word `w`.
pub open spec fn cast_type_word(w: Seq<char>) -> Option<CastType> {
    let l = lower_seq(w);
    if l == "integer"@ || l == "int"@ || l == "bigint"@ || l == "signed"@ {
        Some(CastType::Integer)
    } else if l == "text"@ || l == "varchar"@ || l == "char"@ || l == "string"@ {
        Some(CastType::Text)
    } else if l == "real"@ || l == "float"@ || l == "double"@ || l == "numeric"@ {
        Some(CastType::Real)
    } else if l == "blob"@ {
        Some(CastType::Blob)
    } else {
        None
    }
}

/// Whether tokens `from .. to` are a parenthesised group: an opening
/// parenthesis, then anything but a closing one, then the closing one.
pub open spec fn paren_group(t: Seq<Token>, from: int, to: int) -> bool {
    from + 1 < to <= t.len() && sym_at(t, from) == Some(Sym::LParen) && sym_at(t, to - 1) == Some(Sym::RParen)
        && forall|k: int| from + 1 <= k < to - 1 ==> sym_at(t, k) != Some(Sym::RParen)
}

/// Whether no closing parenthesis follows token `from`.
pub open spec fn unclosed(t: Seq<Token>, from: int) -> bool {
    forall|k: int| from + 1 <= k < t.len() ==> sym_at(t, k) != Some(Sym::RParen)
}

fn parse_cast_type(t: &Vec<Token>, pos: &mut usize) -> (r: PResult<CastType>)
    requires *old(pos) <= t.len(),
    ensures *old(pos) <= *final(pos) <= t.len(),
        match ident_at(t@, *old(pos) as int) {
            None => r is Err,
            Some(n) => {
                let p = *old(pos) + 1;
                let closed = sym_at(t@, p) != Some(Sym::LParen) || !unclosed(t@, p);
                match cast_type_word(n) {
                    None => r is Err,
                    Some(c) => (r is Ok <==> closed) && (r is Ok ==> r == Ok::<CastType, Vec<char>>(c)),
                }
            },
        },
{
    let name = parse_ident(t, pos)?;
    // skip a length such as VARCHAR(10)
    let ghost p0: int = *pos as int;
    if eat_sym(t, pos, Sym::LParen) {
        while *pos < t.len() && !is_sym(t, *pos, Sym::RParen)
            invariant *old(pos) <= *pos <= t.len(), p0 + 1 <= *pos,
                forall|k: int| p0 + 1 <= k < *pos ==> sym_at(t@, k) != Some(Sym::RParen),
            decreases t.len() - *pos,
        {
            *pos = *pos + 1;
        }
        expect_sym(t, pos, Sym::RParen)?;
    }
    if eq_word(&name, "integer") || eq_word(&name, "int") || eq_word(&name, "bigint") || eq_word(&name, "signed") {
        Ok(CastType::Integer)
    } else if eq_word(&name, "text") || eq_word(&name, "varchar") || eq_word(&name, "char") || eq_word(&name, "string") {
        Ok(CastType::Text)
    } else if eq_word(&name, "real") || eq_word(&name, "float") || eq_word(&name, "double") || eq_word(&name, "numeric") {
        Ok(CastType::Real)
    } else if eq_word(&name, "blob") {
        Ok(CastType::Blob)
    } else {
        fail("unknown type in CAST")
    }
}

fn parse_case(t: &Vec<Token>, pos: &mut usize, fuel: u32) -> (r: PResult<Expr>)
    requires *old(pos) <= t.len(), fuel > 0,
    ensures *old(pos) <= *final(pos) <= t.len(),
        r matches Ok(e) ==> (e matches Expr::Case { operand, whens, .. } && whens@.len() > 0
            && (operand is None <==> kw_at(t@, *old(pos) as int, "when"@))
            && kw_at(t@, *final(pos) - 1, "end"@)),
    decreases fuel, 2int,
{
    let operand = if is_kw(t, *pos, "when") {
        None
    } else {
        let e = parse_expr(t, pos, fuel - 1)?;
        Some(Box::new(e))
    };
    let mut whens: Vec<(Expr, Expr)> = Vec::new();
    while eat_kw(t, pos, "when")
        invariant *old(pos) <= *pos <= t.len(), fuel > 0,
        decreases t.len() - *pos,
    {
        let c = parse_expr(t, pos, fuel - 1)?;
        expect_kw(t, pos, "then")?;
        let v = parse_expr(t, pos, fuel - 1)?;
        whens.push((c, v));
    }
    if whens.len() == 0 {
        return fail("syntax error: CASE without WHEN");
    }
    let else_expr = if eat_kw(t, pos, "else") {
        let e = parse_expr(t, pos, fuel - 1)?;
        Some(Box::new(e))
    } else {
        None
    };
    expect_kw(t, pos, "end")?;
    Ok(Expr::Case { operand, whens, else_expr })
}

/// `ORDER BY` items.
fn parse_order_items(t: &Vec<Token>, pos: &mut usize, fuel: u32) -> (r: PResult<Vec<OrderItem>>)
    requires *old(pos) <= t.len(),
    ensures *old(pos) <= *final(pos) <= t.len(),
        r matches Ok(v) ==> v@.len() > 0 && sym_at(t@, *final(pos) as int) != Some(Sym::Comma),
    decreases fuel, 28int,
{
    let mut out: Vec<OrderItem> = Vec::new();
    loop
        invariant *old(pos) <= *pos <= t.len(),
        ensures *old(pos) <= *pos <= t.len(), out@.len() > 0, sym_at(t@, *pos as int) != Some(Sym::Comma),
        decreases t.len() - *pos,
    {
        let e = parse_expr(t, pos, fuel)?;
        let desc = if eat_kw(t, pos, "desc") { true } else { eat_kw(t, pos, "asc"); false };
        let mut nulls_first: Option<bool> = None;
        if eat_kw(t, pos, "nulls") {
            if eat_kw(t, pos, "first") {
                nulls_first = Some(true);
            } else {
                expect_kw(t, pos, "last")?;
                nulls_first = Some(false);
            }
        }
        out.push(OrderItem { expr: e, desc, nulls_first });
        if !eat_sym(t, pos, Sym::Comma) {
            break;
        }
    }
    Ok(out)
}

/// The window specification after `OVER`.
fn parse_window(t: &Vec<Token>, pos: &mut usize, fuel: u32, name: Vec<char>, args: Vec<Expr>) -> (r: PResult<Expr>)
    requires *old(pos) <= t.len(), fuel > 0,
    ensures *old(pos) <= *final(pos) <= t.len(),
        sym_at(t@, *old(pos) as int) != Some(Sym::LParen) ==> r is Err,
        r matches Ok(e) ==> (e matches Expr::Window { name: n, args: a, partition_by, order_by } && n@ == name@ && a == args
            && (partition_by@.len() > 0 <==> kw_at(t@, *old(pos) + 1, "partition"@))
            && sym_at(t@, *final(pos) - 1) == Some(Sym::RParen)),
    decreases fuel, 0int,
{
    expect_sym(t, pos, Sym::LParen)?;
    let mut partition_by: Vec<Expr> = Vec::new();
    if eat_kw(t, pos, "partition") {
        expect_kw(t, pos, "by")?;
        partition_by = parse_expr_list(t, pos, fuel - 1)?;
    }
    let mut order_by: Vec<OrderItem> = Vec::new();
    if eat_kw(t, pos, "order") {
        expect_kw(t, pos, "by")?;
        order_by = parse_order_items(t, pos, fuel - 1)?;
    }
    expect_sym(t, pos, Sym::RParen)?;
    Ok(Expr::Window { name, args, partition_by, order_by })
}

/// A function call after its name and opening parenthesis.
fn parse_call(t: &Vec<Token>, pos: &mut usize, fuel: u32, name: Vec<char>) -> (r: PResult<Expr>)
    requires *old(pos) <= t.len(), fuel > 0,
    ensures *old(pos) <= *final(pos) <= t.len(),
        ({
            let i = *old(pos) as int;
            &&& (sym_at(t@, i) == Some(Sym::Star) && sym_at(t@, i + 1) == Some(Sym::RParen) && !kw_at(t@, i + 2, "over"@)) ==>
                (r matches Ok(Expr::Function { name: n, args, distinct, star }) && n@ == name@ && args@.len() == 0 && !distinct && star
                    && *final(pos) == i + 2)
            &&& (sym_at(t@, i) == Some(Sym::RParen) && !kw_at(t@, i + 1, "over"@)) ==>
                (r matches Ok(Expr::Function { name: n, args, distinct, star }) && n@ == name@ && args@.len() == 0 && !distinct && !star
                    && *final(pos) == i + 1)
            &&& r matches Ok(e) ==> ((e matches Expr::Function { name: n, .. } && n@ == name@)
                || (e matches Expr::Window { name: n, .. } && n@ == name@))
        }),
    decreases fuel, 2int,
{
    let mut distinct = false;
    let mut star = false;
    let mut args: Vec<Expr> = Vec::new();
    if eat_sym(t, pos, Sym::Star) {
        star = true;
    } else if !is_sym(t, *pos, Sym::RParen) {
        distinct = eat_kw(t, pos, "distinct");
        args = parse_expr_list(t, pos, fuel - 1)?;
    }
    expect_sym(t, pos, Sym::RParen)?;
    if eat_kw(t, pos, "over") {
        return parse_window(t, pos, fuel, name, args);
    }
    Ok(Expr::Function { name, args, distinct, star })
}

/// The whole part of the decimal literal at position `i`, if one stands there.
fn decimal_at(t: &Vec<Token>, i: usize) -> (r: Option<i64>)
    ensures
        match r {
            Some(v) => i < t.len() && t@[i as int] == Token::Decimal(v),
            None => !(i < t.len() && t@[i as int] is Decimal),
        },
{
    if i < t.len() {
        match &t[i] {
            Token::Decimal(v) => Some(*v),
            _ => None,
        }
    } else {
        None
    }
}

fn parse_primary(t: &Vec<Token>, pos: &mut usize, fuel: u32, Ghost(h): Ghost<Option<(Expr, bool)>>) -> (r: PResult<Expr>)
    requires *old(pos) <= t.len(),
    ensures *old(pos) <= *final(pos) <= t.len(),
        hint_holds(t@, *old(pos) as int, h, 11, fuel as int) ==> hint_met(t@, *old(pos) as int, h, r, *final(pos) as int),
    decreases fuel, 4int,
{
    let ghost p0 = *pos as int;
    let ghost good = hint_holds(t@, p0, h, 11, fuel as int);
    let ghost e = h.unwrap().0;
    proof {
        if good {
            if h.unwrap().1 { lemma_op_sym(bin_parts(e).0, bin_parts(e).0); }
            assert(!h.unwrap().1);
            lemma_render_first(e);
            lemma_count_plain();
            lemma_depth_nonneg(e);
            assert(t@[p0] == render(e)[0]) by { assert(t@.subrange(p0, p0 + render(e).len())[0] == t@[p0]); }
        }
    }
    if *pos >= t.len() {
        return fail("syntax error: unexpected end of statement");
    }
    if fuel == 0 {
        return fail("expression nested too deeply");
    }
    let i = *pos;
    match &t[i] {
        Token::Int(v) => {
            *pos = i + 1;
            Ok(Expr::Literal(Value::Integer(*v)))
        },
        Token::Str(s) => {
            *pos = i + 1;
            Ok(Expr::Literal(text_value(s)))
        },
        Token::Blob(b) => {
            *pos = i + 1;
            Ok(Expr::Literal(Value::Blob(crate::types::copy_bytes(b))))
        },
        Token::Sym(Sym::LParen) => {
            *pos = i + 1;
            proof {
                if good {
                    lemma_render_parts(t@, p0, e);
                    lemma_op_sym(bin_parts(e).0, bin_parts(e).0);
                    assert(hint_holds(t@, p0 + 1, Some((e, true)), 1, fuel - 1));
                    lemma_hint_first(t@, p0 + 1, Some((e, true)), 1, fuel - 1);
                }
            }
            if is_kw(t, *pos, "select") {
                let q = parse_query(t, pos, fuel - 1)?;
                expect_sym(t, pos, Sym::RParen)?;
                Ok(Expr::Subquery(Box::new(q)))
            } else {
                let ghost hb: Option<(Expr, bool)> = if good { Some((e, true)) } else { None };
                let inner = parse_or(t, pos, fuel - 1, Ghost(hb))?;
                expect_sym(t, pos, Sym::RParen)?;
                Ok(inner)
            }
        },
        Token::Quoted(w) => {
            let name = crate::types::copy_chars(w);
            *pos = i + 1;
            if eat_sym(t, pos, Sym::Dot) {
                let col = parse_ident(t, pos)?;
                Ok(Expr::Column { table: Some(name), name: col })
            } else {
                Ok(Expr::Column { table: None, name })
            }
        },
        Token::Word(w) => {
            if eq_word(w, "null") {
                *pos = i + 1;
                return Ok(Expr::Literal(Value::Null));
            }
            if eq_word(w, "true") {
                *pos = i + 1;
                return Ok(Expr::Literal(Value::Integer(1)));
            }
            if eq_word(w, "false") {
                *pos = i + 1;
                return Ok(Expr::Literal(Value::Integer(0)));
            }
            if eq_word(w, "case") {
                *pos = i + 1;
                return parse_case(t, pos, fuel);
            }
            let not_exists = eq_word(w, "not") && kw_after(t, i, "exists");
            if eq_word(w, "exists") || not_exists {
                let negated = not_exists;
                *pos = if negated { i + 2 } else { i + 1 };
                expect_sym(t, pos, Sym::LParen)?;
                let q = parse_query(t, pos, fuel - 1)?;
                expect_sym(t, pos, Sym::RParen)?;
                return Ok(Expr::Exists { query: Box::new(q), negated });
            }
            if eq_word(w, "cast") && sym_after(t, i, Sym::LParen) {
                *pos = i + 2;
                match decimal_at(t, *pos) {
                    Some(v) => {
                        *pos = *pos + 1;
                        expect_kw(t, pos, "as")?;
                        let to = parse_cast_type(t, pos)?;
                        expect_sym(t, pos, Sym::RParen)?;
                        return match to {
                            CastType::Integer => Ok(Expr::Literal(Value::Integer(v))),
                            _ => fail("REAL values are not supported"),
                        };
                    },
                    None => {},
                }
                let e = parse_expr(t, pos, fuel - 1)?;
                expect_kw(t, pos, "as")?;
                let to = parse_cast_type(t, pos)?;
                expect_sym(t, pos, Sym::RParen)?;
                return Ok(Expr::Cast { expr: Box::new(e), to });
            }
            let name = crate::types::copy_chars(w);
            *pos = i + 1;
            proof {
                if good && e is Function {
                    assert(t@.subrange(p0, p0 + 4)[1] == t@[p0 + 1]);
                    assert(t@.subrange(p0, p0 + 4)[2] == t@[p0 + 2]);
                    assert(t@.subrange(p0, p0 + 4)[3] == t@[p0 + 3]);
                    assert(t@[p0 + 1] == Token::Sym(Sym::LParen));
                    assert(t@[p0 + 2] == Token::Sym(Sym::Star));
                    assert(t@[p0 + 3] == Token::Sym(Sym::RParen));
                    assert(!kw_at(t@, p0 + 4, "over"@));
                }
            }
            if eat_sym(t, pos, Sym::LParen) {
                return parse_call(t, pos, fuel, name);
            }
            if eat_sym(t, pos, Sym::Dot) {
                let col = parse_ident(t, pos)?;
                return Ok(Expr::Column { table: Some(name), name: col });
            }
            Ok(Expr::Column { table: None, name })
        },
        _ => fail("syntax error in expression"),
    }
}

// ─────────────────────────────── queries ───────────────────────────────

fn parse_select_items(t: &Vec<Token>, pos: &mut usize, fuel: u32) -> (r: PResult<Vec<SelectItem>>)
    requires *old(pos) <= t.len(),
    ensures *old(pos) <= *final(pos) <= t.len(),
        r matches Ok(v) ==> v@.len() > 0 && sym_at(t@, *final(pos) as int) != Some(Sym::Comma),
        sym_at(t@, *old(pos) as int) == Some(Sym::Star) ==> (r matches Ok(v) ==> v@[0] is Star),
        sym_at(t@, *old(pos) as int) == Some(Sym::Star) && sym_at(t@, *old(pos) + 1) != Some(Sym::Comma) ==> (r matches Ok(v) && v@ == seq![SelectItem::Star] && *final(pos) == *old(pos) + 1),
        (fuel > 0 && count_item_at(t@, *old(pos) as int)) ==> (r matches Ok(v) && v@.len() == 1 && count_item(v@[0]) && *final(pos) == *old(pos) + 4),
        (fuel > 0 && col_list_end(t@, *old(pos) as int) is Some && kw_at(t@, col_list_end(t@, *old(pos) as int).unwrap(), "from"@)) ==> (r matches Ok(v)
            && col_items(v@, col_list_vals(t@, *old(pos) as int)) && *final(pos) == col_list_end(t@, *old(pos) as int).unwrap()),
    decreases fuel, 32int,
{
    let ghost star = sym_at(t@, *pos as int) == Some(Sym::Star) && sym_at(t@, *pos + 1) != Some(Sym::Comma);
    let ghost cnt = fuel > 0 && count_item_at(t@, *pos as int);
    let ghost p0 = *pos as int;
    let ghost cl = fuel > 0 && col_list_end(t@, p0) is Some && kw_at(t@, col_list_end(t@, p0).unwrap(), "from"@);
    let ghost mut done: Seq<Seq<char>> = Seq::empty();
    proof { lemma_from_word(); }
    let mut out: Vec<SelectItem> = Vec::new();
    loop
        invariant_except_break star ==> out@.len() == 0, cnt ==> out@.len() == 0,
            cl ==> col_list_end(t@, *pos as int) == col_list_end(t@, p0)
                && col_list_vals(t@, p0) == done + col_list_vals(t@, *pos as int) && col_items(out@, done),
        invariant *old(pos) <= *pos <= t.len(), p0 == *old(pos),
            cl == (fuel > 0 && col_list_end(t@, p0) is Some && kw_at(t@, col_list_end(t@, p0).unwrap(), "from"@)),
            stop_word("from"@), reserved_word("from"@), "from"@ != "as"@,
            cnt == (fuel > 0 && count_item_at(t@, *old(pos) as int)),
            out@.len() > 0 && sym_at(t@, *old(pos) as int) == Some(Sym::Star) ==> out@[0] is Star,
            out@.len() == 0 ==> *pos == *old(pos),
            star == (sym_at(t@, *old(pos) as int) == Some(Sym::Star) && sym_at(t@, *old(pos) + 1) != Some(Sym::Comma)),
        ensures *old(pos) <= *pos <= t.len(), out@.len() > 0, sym_at(t@, *pos as int) != Some(Sym::Comma),
            sym_at(t@, *old(pos) as int) == Some(Sym::Star) ==> out@[0] is Star,
            star ==> out@ == seq![SelectItem::Star] && *pos == *old(pos) + 1,
            cnt ==> out@.len() == 1 && count_item(out@[0]) && *pos == *old(pos) + 4,
            cl ==> col_items(out@, col_list_vals(t@, p0)) && *pos == col_list_end(t@, p0).unwrap(),
        decreases t.len() - *pos,
    {
        let ghost p = *pos as int;
        if eat_sym(t, pos, Sym::Star) {
            out.push(SelectItem::Star);
        } else if sym_after(t, *pos, Sym::Dot) && sym_after(t, *pos + 1, Sym::Star) {
            let name = parse_ident(t, pos)?;
            if !eat_sym(t, pos, Sym::Dot) {
                return fail("syntax error in select list");
            }
            expect_sym(t, pos, Sym::Star)?;
            out.push(SelectItem::TableStar(name));
        } else {
            let ghost ex = Expr::Literal(Value::Integer(0));
            proof {
                if cl {
                    let w = t@[p]->Word_0;
                    ex = Expr::Column { table: None, name: w };
                    assert(t@.subrange(p, p + 1) =~= render(ex));
                    assert(stop_at(t@, p + 1, 1));
                    assert(renderable(ex) && depth(ex) == 0);
                }
                if cnt {
                    lemma_from_word();
                    let w = t@[p]->Word_0;
                    ex = Expr::Function { name: w, args: vstd::pervasive::arbitrary::<Vec<Expr>>(), distinct: false, star: true };
                    assert(t@.subrange(p, p + 4) =~= render(ex));
                    assert(stop_at(t@, p + 4, 1));
                    assert(renderable(ex) && depth(ex) == 0);
                }
            }
            let e = parse_expr(t, pos, fuel)?;
            proof {
                if cl {
                    assert(same_expr(e, ex));
                    assert(*pos == p + 1);
                    assert(sym_at(t@, p + 1) == Some(Sym::Comma) || kw_at(t@, p + 1, "from"@));
                }
            }
            let alias = parse_alias(t, pos)?;
            proof {
                if cnt {
                    assert(same_expr(e, ex));
                    assert(alias is None);
                }
                if cl {
                    assert(same_expr(e, ex));
                    assert(alias is None);
                    assert(col_items(out@.push(SelectItem::Item { expr: e, alias }), done.push(ident_at(t@, p).unwrap())));
                }
            }
            out.push(SelectItem::Item { expr: e, alias });
        }
        if !eat_sym(t, pos, Sym::Comma) {
            proof {
                if cl {
                    assert(col_list_vals(t@, p) == seq![ident_at(t@, p).unwrap()]);
                    assert(done.push(ident_at(t@, p).unwrap()) =~= done + col_list_vals(t@, p));
                }
            }
            break;
        }
        proof {
            if cl {
                assert(done.push(ident_at(t@, p).unwrap()) + col_list_vals(t@, p + 2) =~= done + col_list_vals(t@, p));
                done = done.push(ident_at(t@, p).unwrap());
            }
        }
    }
    Ok(out)
}

fn parse_from_primary(t: &Vec<Token>, pos: &mut usize, fuel: u32) -> (r: PResult<FromItem>)
    requires *old(pos) <= t.len(),
    ensures *old(pos) <= *final(pos) <= t.len(),
        fuel == 0 ==> r is Err,
        sym_at(t@, *old(pos) as int) == Some(Sym::LParen) ==> (r matches Ok(f) ==> f is Derived),
        sym_at(t@, *old(pos) as int) != Some(Sym::LParen) ==> match ident_at(t@, *old(pos) as int) {
            None => r is Err,
            Some(n) => if sym_at(t@, *old(pos) + 1) == Some(Sym::LParen) {
                (lower_seq(n) != "generate_series"@ ==> r is Err) && (r matches Ok(f) ==> f is Series)
            } else {
                r matches Ok(f) ==> (f matches FromItem::Table { name, .. } && name@ == n)
            },
        },
        (fuel > 0 && sym_at(t@, *old(pos) as int) != Some(Sym::LParen) && ident_at(t@, *old(pos) as int) is Some && table_end(t@, *old(pos) + 1)) ==> (r matches Ok(FromItem::Table { name, alias }) && ident_at(t@, *old(pos) as int) == Some(name@) && alias is None && *final(pos) == *old(pos) + 1),
    decreases fuel, 30int,
{
    proof { lemma_where_word(); }
    if fuel == 0 {
        return fail("query nested too deeply");
    }
    if eat_sym(t, pos, Sym::LParen) {
        let q = parse_query(t, pos, fuel - 1)?;
        expect_sym(t, pos, Sym::RParen)?;
        let alias = parse_alias(t, pos)?;
        let alias = match alias {
            Some(a) => a,
            None => str_chars("subquery"),
        };
        return Ok(FromItem::Derived { query: Box::new(q), alias });
    }
    let name = parse_ident(t, pos)?;
    if eat_sym(t, pos, Sym::LParen) {
        if !eq_word(&name, "generate_series") {
            return fail("unknown table-valued function");
        }
        let args = parse_expr_list(t, pos, fuel - 1)?;
        expect_sym(t, pos, Sym::RParen)?;
        let alias = parse_alias(t, pos)?;
        return Ok(FromItem::Series { args, alias });
    }
    let alias = parse_alias(t, pos)?;
    Ok(FromItem::Table { name, alias })
}

fn parse_from_item(t: &Vec<Token>, pos: &mut usize, fuel: u32) -> (r: PResult<FromItem>)
    requires *old(pos) <= t.len(),
    ensures *old(pos) <= *final(pos) <= t.len(),
        fuel == 0 ==> r is Err,
        sym_at(t@, *old(pos) as int) != Some(Sym::LParen) && ident_at(t@, *old(pos) as int) is None ==> r is Err,
        (fuel > 0 && sym_at(t@, *old(pos) as int) != Some(Sym::LParen) && ident_at(t@, *old(pos) as int) is Some && table_end(t@, *old(pos) + 1)) ==> (r matches Ok(FromItem::Table { name, alias }) && ident_at(t@, *old(pos) as int) == Some(name@) && alias is None && *final(pos) == *old(pos) + 1),
    decreases fuel, 34int,
{
    proof { lemma_where_word(); }
    let ghost good = fuel > 0 && sym_at(t@, *pos as int) != Some(Sym::LParen) && ident_at(t@, *pos as int) is Some
        && table_end(t@, *pos + 1);
    let mut left = parse_from_primary(t, pos, fuel)?;
    loop
        invariant *old(pos) <= *pos <= t.len(),
            good == (fuel > 0 && sym_at(t@, *old(pos) as int) != Some(Sym::LParen) && ident_at(t@, *old(pos) as int) is Some
                && table_end(t@, *old(pos) + 1)),
            good ==> (left matches FromItem::Table { name, alias } && ident_at(t@, *old(pos) as int) == Some(name@)
                && alias is None && *pos == *old(pos) + 1),
        ensures *old(pos) <= *pos <= t.len(),
            good ==> (left matches FromItem::Table { name, alias } && ident_at(t@, *old(pos) as int) == Some(name@)
                && alias is None && *pos == *old(pos) + 1),
        decreases t.len() - *pos,
    {
        proof { lemma_where_word(); }
        let kind;
        if eat_kw(t, pos, "join") {
            kind = JoinKind::Inner;
        } else if is_kw(t, *pos, "inner") && kw_after(t, *pos, "join") {
            *pos = *pos + 2;
            kind = JoinKind::Inner;
        } else if is_kw(t, *pos, "cross") && kw_after(t, *pos, "join") {
            *pos = *pos + 2;
            kind = JoinKind::Cross;
        } else if is_kw(t, *pos, "left") {
            *pos = *pos + 1;
            eat_kw(t, pos, "outer");
            expect_kw(t, pos, "join")?;
            kind = JoinKind::Left;
        } else {
            break;
        }
        let right = parse_from_primary(t, pos, fuel)?;
        let on = if eat_kw(t, pos, "on") {
            let e = parse_expr(t, pos, fuel)?;
            Some(e)
        } else {
            None
        };
        left = FromItem::Join { left: Box::new(left), right: Box::new(right), kind, on };
    }
    Ok(left)
}

fn parse_select_core(t: &Vec<Token>, pos: &mut usize, fuel: u32) -> (r: PResult<Select>)
    requires *old(pos) <= t.len(),
    ensures *old(pos) <= *final(pos) <= t.len(),
        !kw_at(t@, *old(pos) as int, "select"@) ==> r is Err,
        r matches Ok(sel) ==> sel.distinct == kw_at(t@, *old(pos) + 1, "distinct"@) && sel.items@.len() > 0,
        (fuel > 0 && star_from_at(t@, *old(pos) as int)) ==> (r matches Ok(sel) && star_select(sel, ident_at(t@, *old(pos) + 3).unwrap()) && *final(pos) == *old(pos) + 4),
        (fuel > 0 && count_from_at(t@, *old(pos) as int)) ==> (r matches Ok(sel) && count_select(sel, ident_at(t@, *old(pos) + 6).unwrap()) && *final(pos) == *old(pos) + 7),
        forall|k: int, e: Expr| #![trigger cond_at(t@, *old(pos) + 8, k, e)] (fuel > 0 && fuel > depth(e) && count_where_at(t@, *old(pos) as int) && cond_at(t@, *old(pos) + 8, k, e)) ==> (r matches Ok(sel) && count_where_select(sel, ident_at(t@, *old(pos) + 6).unwrap(), e) && *final(pos) == k),
        forall|k: int, e: Expr| #![trigger cond_at(t@, *old(pos) + 5, k, e)] (fuel > 0 && fuel > depth(e) && star_where_at(t@, *old(pos) as int) && cond_at(t@, *old(pos) + 5, k, e)) ==> (r matches Ok(sel) && star_where_select(sel, ident_at(t@, *old(pos) + 3).unwrap(), e) && *final(pos) == k),
        (fuel > 0 && cols_from_at(t@, *old(pos) as int) && ends_at(t@, cols_end(t@, *old(pos) as int) + 2)) ==> (r matches Ok(sel)
            && cols_select(sel, col_list_vals(t@, *old(pos) + 1), ident_at(t@, cols_end(t@, *old(pos) as int) + 1).unwrap(), None)
            && *final(pos) == cols_end(t@, *old(pos) as int) + 2),
        forall|k: int, e: Expr| #![trigger cond_at(t@, cols_end(t@, *old(pos) as int) + 3, k, e)] (fuel > 0 && fuel > depth(e)
            && cols_from_at(t@, *old(pos) as int) && kw_at(t@, cols_end(t@, *old(pos) as int) + 2, "where"@)
            && cond_at(t@, cols_end(t@, *old(pos) as int) + 3, k, e)) ==> (r matches Ok(sel)
            && cols_select(sel, col_list_vals(t@, *old(pos) + 1), ident_at(t@, cols_end(t@, *old(pos) as int) + 1).unwrap(), Some(e))
            && *final(pos) == k),
    decreases fuel, 36int,
{
    let ghost sw = fuel > 0 && star_where_at(t@, *pos as int);
    let ghost star = (fuel > 0 && star_from_at(t@, *pos as int)) || sw;
    let ghost cw = fuel > 0 && count_where_at(t@, *pos as int);
    let ghost cnt = (fuel > 0 && count_from_at(t@, *pos as int)) || cw;
    let ghost p0 = *pos as int;
    let ghost ce = cols_end(t@, p0);
    let ghost cf = fuel > 0 && cols_from_at(t@, p0) && (ends_at(t@, ce + 2) || kw_at(t@, ce + 2, "where"@));
    let ghost good = star || cnt || cf;
    let ghost fp: int = if star { p0 + 3 } else if cnt { p0 + 6 } else { ce + 1 };
    proof { lemma_where_word(); }
    proof { lemma_count_plain(); }
    expect_kw(t, pos, "select")?;
    let distinct = if eat_kw(t, pos, "distinct") { true } else { eat_kw(t, pos, "all"); false };
    let items = parse_select_items(t, pos, fuel)?;
    let mut from: Vec<FromItem> = Vec::new();
    if eat_kw(t, pos, "from") {
        loop
            invariant_except_break good ==> from@.len() == 0 && *pos == fp,
            invariant *old(pos) <= *pos <= t.len(), p0 == *old(pos),
                good == (star || cnt || cf), fp == (if star { p0 + 3 } else if cnt { p0 + 6 } else { ce + 1 }),
                ce == cols_end(t@, p0), cf == (fuel > 0 && cols_from_at(t@, p0) && (ends_at(t@, ce + 2) || kw_at(t@, ce + 2, "where"@))),
                star == ((fuel > 0 && star_from_at(t@, p0)) || sw), sw == (fuel > 0 && star_where_at(t@, p0)),
                cw == (fuel > 0 && count_where_at(t@, p0)),
                cnt == ((fuel > 0 && count_from_at(t@, p0)) || cw),
            ensures *old(pos) <= *pos <= t.len(),
                good ==> (from@.len() == 1 && (from@[0] matches FromItem::Table { name, alias } && ident_at(t@, fp) == Some(name@)
                    && alias is None) && *pos == fp + 1),
            decreases t.len() - *pos,
        {
            let f = parse_from_item(t, pos, fuel)?;
            from.push(f);
            if !eat_sym(t, pos, Sym::Comma) {
                break;
            }
        }
    }
    let ghost pf = *pos as int;
    let where_clause = if eat_kw(t, pos, "where") {
        let ghost p8 = *pos as int;
        match parse_expr(t, pos, fuel) {
            Ok(x) => Some(x),
            Err(m) => {
                proof {
                    assert forall|k: int, e: Expr| #![trigger cond_at(t@, p0 + 8, k, e)]
                        (fuel > 0 && fuel > depth(e) && count_where_at(t@, p0) && cond_at(t@, p0 + 8, k, e)) implies false by {
                        assert(pf == p0 + 7 && p8 == p0 + 8);
                        assert(stop_at(t@, k, 1));
                        assert(renderable(e));
                        if !(render(e).len() == k - p8 && t@.subrange(p8, k) == render(e)) {
                            assert(bare_at(t@, p8, e, fuel as int));
                        }
                    }
                    assert forall|k: int, e: Expr| #![trigger cond_at(t@, ce + 3, k, e)]
                        (fuel > 0 && fuel > depth(e) && cols_from_at(t@, p0) && kw_at(t@, ce + 2, "where"@) && cond_at(t@, ce + 3, k, e)) implies false by {
                        assert(pf == ce + 2 && p8 == ce + 3);
                        assert(stop_at(t@, k, 1));
                        assert(renderable(e));
                        if !(render(e).len() == k - p8 && t@.subrange(p8, k) == render(e)) {
                            assert(bare_at(t@, p8, e, fuel as int));
                        }
                    }
                    assert forall|k: int, e: Expr| #![trigger cond_at(t@, p0 + 5, k, e)]
                        (fuel > 0 && fuel > depth(e) && star_where_at(t@, p0) && cond_at(t@, p0 + 5, k, e)) implies false by {
                        assert(pf == p0 + 4 && p8 == p0 + 5);
                        assert(stop_at(t@, k, 1));
                        assert(renderable(e));
                        if !(render(e).len() == k - p8 && t@.subrange(p8, k) == render(e)) {
                            assert(bare_at(t@, p8, e, fuel as int));
                        }
                    }
                }
                return Err(m);
            },
        }
    } else {
        None
    };
    let ghost pw = *pos as int;
    let mut group_by: Vec<Expr> = Vec::new();
    let ghost g0 = kw_at(t@, pw, "group"@);
    proof {
        assert forall|k: int, e: Expr| #![trigger cond_at(t@, p0 + 8, k, e)]
            (fuel > 0 && fuel > depth(e) && count_where_at(t@, p0) && cond_at(t@, p0 + 8, k, e)) implies
            (where_clause matches Some(x) && same_expr(x, e) && pw == k && !g0) by {
            assert(pf == p0 + 7);
            assert(stop_at(t@, k, 1));
            assert(!kw_at(t@, k, "group"@));
            if !(render(e).len() == k - (p0 + 8) && t@.subrange(p0 + 8, k) == render(e)) {
                assert(bare_at(t@, p0 + 8, e, fuel as int));
            }
        }
        assert forall|k: int, e: Expr| #![trigger cond_at(t@, ce + 3, k, e)]
            (fuel > 0 && fuel > depth(e) && cols_from_at(t@, p0) && kw_at(t@, ce + 2, "where"@) && cond_at(t@, ce + 3, k, e)) implies
            (where_clause matches Some(x) && same_expr(x, e) && pw == k && !g0) by {
            assert(pf == ce + 2);
            assert(stop_at(t@, k, 1));
            assert(!kw_at(t@, k, "group"@));
            if !(render(e).len() == k - (ce + 3) && t@.subrange(ce + 3, k) == render(e)) {
                assert(bare_at(t@, ce + 3, e, fuel as int));
            }
        }
        assert forall|k: int, e: Expr| #![trigger cond_at(t@, p0 + 5, k, e)]
            (fuel > 0 && fuel > depth(e) && star_where_at(t@, p0) && cond_at(t@, p0 + 5, k, e)) implies
            (where_clause matches Some(x) && same_expr(x, e) && pw == k && !g0) by {
            assert(pf == p0 + 4);
            assert(stop_at(t@, k, 1));
            assert(!kw_at(t@, k, "group"@));
            if !(render(e).len() == k - (p0 + 5) && t@.subrange(p0 + 5, k) == render(e)) {
                assert(bare_at(t@, p0 + 5, e, fuel as int));
            }
        }
    }
    if eat_kw(t, pos, "group") {
        expect_kw(t, pos, "by")?;
        group_by = parse_expr_list(t, pos, fuel)?;
    }
    let ghost h0 = kw_at(t@, *pos as int, "having"@);
    let having = if eat_kw(t, pos, "having") { Some(parse_expr(t, pos, fuel)?) } else { None };
    proof {
        assert forall|k: int, e: Expr| #![trigger cond_at(t@, p0 + 8, k, e)]
            (fuel > 0 && fuel > depth(e) && count_where_at(t@, p0) && cond_at(t@, p0 + 8, k, e)) implies
            (where_clause matches Some(x) && same_expr(x, e) && pw == k && !g0 && !h0 && group_by@.len() == 0 && having is None) by {
            assert(pf == p0 + 7);
            assert(stop_at(t@, k, 1));
            assert(!kw_at(t@, k, "group"@));
            if !(render(e).len() == k - (p0 + 8) && t@.subrange(p0 + 8, k) == render(e)) {
                assert(bare_at(t@, p0 + 8, e, fuel as int));
            }
        }
        assert forall|k: int, e: Expr| #![trigger cond_at(t@, ce + 3, k, e)]
            (fuel > 0 && fuel > depth(e) && cols_from_at(t@, p0) && kw_at(t@, ce + 2, "where"@) && cond_at(t@, ce + 3, k, e)) implies
            (where_clause matches Some(x) && same_expr(x, e) && pw == k && !g0 && !h0 && group_by@.len() == 0 && having is None) by {
            assert(pf == ce + 2);
            assert(stop_at(t@, k, 1));
            assert(!kw_at(t@, k, "group"@));
            if !(render(e).len() == k - (ce + 3) && t@.subrange(ce + 3, k) == render(e)) {
                assert(bare_at(t@, ce + 3, e, fuel as int));
            }
        }
        assert forall|k: int, e: Expr| #![trigger cond_at(t@, p0 + 5, k, e)]
            (fuel > 0 && fuel > depth(e) && star_where_at(t@, p0) && cond_at(t@, p0 + 5, k, e)) implies
            (where_clause matches Some(x) && same_expr(x, e) && pw == k && !g0 && !h0 && group_by@.len() == 0 && having is None) by {
            assert(pf == p0 + 4);
            assert(stop_at(t@, k, 1));
            assert(!kw_at(t@, k, "group"@));
            if !(render(e).len() == k - (p0 + 5) && t@.subrange(p0 + 5, k) == render(e)) {
                assert(bare_at(t@, p0 + 5, e, fuel as int));
            }
        }
    }
    Ok(Select { distinct, items, from, where_clause, group_by, having })
}

fn parse_set_expr(t: &Vec<Token>, pos: &mut usize, fuel: u32) -> (r: PResult<SetExpr>)
    requires *old(pos) <= t.len(),
    ensures *old(pos) <= *final(pos) <= t.len(),
        !kw_at(t@, *old(pos) as int, "select"@) ==> r is Err,
        (fuel > 0 && star_from_at(t@, *old(pos) as int)) ==> (r matches Ok(SetExpr::Select(sel)) && star_select(*sel, ident_at(t@, *old(pos) + 3).unwrap()) && *final(pos) == *old(pos) + 4),
        (fuel > 0 && count_from_at(t@, *old(pos) as int)) ==> (r matches Ok(SetExpr::Select(sel)) && count_select(*sel, ident_at(t@, *old(pos) + 6).unwrap()) && *final(pos) == *old(pos) + 7),
        forall|k: int, e: Expr| #![trigger cond_at(t@, *old(pos) + 8, k, e)] (fuel > 0 && fuel > depth(e) && count_where_at(t@, *old(pos) as int) && cond_at(t@, *old(pos) + 8, k, e)) ==> (r matches Ok(SetExpr::Select(sel)) && count_where_select(*sel, ident_at(t@, *old(pos) + 6).unwrap(), e) && *final(pos) == k),
        forall|k: int, e: Expr| #![trigger cond_at(t@, *old(pos) + 5, k, e)] (fuel > 0 && fuel > depth(e) && star_where_at(t@, *old(pos) as int) && cond_at(t@, *old(pos) + 5, k, e)) ==> (r matches Ok(SetExpr::Select(sel)) && star_where_select(*sel, ident_at(t@, *old(pos) + 3).unwrap(), e) && *final(pos) == k),
        (fuel > 0 && cols_from_at(t@, *old(pos) as int) && ends_at(t@, cols_end(t@, *old(pos) as int) + 2)) ==> (r matches Ok(SetExpr::Select(sel))
            && cols_select(*sel, col_list_vals(t@, *old(pos) + 1), ident_at(t@, cols_end(t@, *old(pos) as int) + 1).unwrap(), None)
            && *final(pos) == cols_end(t@, *old(pos) as int) + 2),
        forall|k: int, e: Expr| #![trigger cond_at(t@, cols_end(t@, *old(pos) as int) + 3, k, e)] (fuel > 0 && fuel > depth(e)
            && cols_from_at(t@, *old(pos) as int) && kw_at(t@, cols_end(t@, *old(pos) as int) + 2, "where"@)
            && cond_at(t@, cols_end(t@, *old(pos) as int) + 3, k, e)) ==> (r matches Ok(SetExpr::Select(sel))
            && cols_select(*sel, col_list_vals(t@, *old(pos) + 1), ident_at(t@, cols_end(t@, *old(pos) as int) + 1).unwrap(), Some(e))
            && *final(pos) == k),
    decreases fuel, 38int,
{
    let ghost good = fuel > 0 && star_from_at(t@, *pos as int);
    let ghost cnt = fuel > 0 && count_from_at(t@, *pos as int);
    let first = parse_select_core(t, pos, fuel)?;
    let ghost pk = *pos as int;
    let ghost ended = ends_at(t@, pk);
    let mut left = SetExpr::Select(Box::new(first));
    let ghost left0 = left;
    proof {
        assert forall|k: int, e: Expr| #![trigger cond_at(t@, *old(pos) + 8, k, e)]
            (fuel > 0 && fuel > depth(e) && count_where_at(t@, *old(pos) as int) && cond_at(t@, *old(pos) + 8, k, e)) implies ended by {}
        assert forall|k: int, e: Expr| #![trigger cond_at(t@, *old(pos) + 5, k, e)]
            (fuel > 0 && fuel > depth(e) && star_where_at(t@, *old(pos) as int) && cond_at(t@, *old(pos) + 5, k, e)) implies ended by {}
        assert forall|k: int, e: Expr| #![trigger cond_at(t@, cols_end(t@, *old(pos) as int) + 3, k, e)]
            (fuel > 0 && fuel > depth(e) && cols_from_at(t@, *old(pos) as int) && kw_at(t@, cols_end(t@, *old(pos) as int) + 2, "where"@)
            && cond_at(t@, cols_end(t@, *old(pos) as int) + 3, k, e)) implies ended by {}
        assert((fuel > 0 && cols_from_at(t@, *old(pos) as int) && ends_at(t@, cols_end(t@, *old(pos) as int) + 2)) ==> ended);
    }
    loop
        invariant_except_break good ==> (left matches SetExpr::Select(sel) && star_select(*sel, ident_at(t@, *old(pos) + 3).unwrap())
            && *pos == *old(pos) + 4),
            cnt ==> (left matches SetExpr::Select(sel) && count_select(*sel, ident_at(t@, *old(pos) + 6).unwrap())
            && *pos == *old(pos) + 7),
            ended ==> left == left0 && *pos == pk,
        invariant *old(pos) <= *pos <= t.len(),
            good == (fuel > 0 && star_from_at(t@, *old(pos) as int)),
            cnt == (fuel > 0 && count_from_at(t@, *old(pos) as int)),
            ended == ends_at(t@, pk),
            forall|k: int, e: Expr| #![trigger cond_at(t@, *old(pos) + 8, k, e)]
                (fuel > 0 && fuel > depth(e) && count_where_at(t@, *old(pos) as int) && cond_at(t@, *old(pos) + 8, k, e)) ==> ended,
            forall|k: int, e: Expr| #![trigger cond_at(t@, *old(pos) + 5, k, e)]
                (fuel > 0 && fuel > depth(e) && star_where_at(t@, *old(pos) as int) && cond_at(t@, *old(pos) + 5, k, e)) ==> ended,
            forall|k: int, e: Expr| #![trigger cond_at(t@, cols_end(t@, *old(pos) as int) + 3, k, e)]
                (fuel > 0 && fuel > depth(e) && cols_from_at(t@, *old(pos) as int) && kw_at(t@, cols_end(t@, *old(pos) as int) + 2, "where"@)
                && cond_at(t@, cols_end(t@, *old(pos) as int) + 3, k, e)) ==> ended,
            (fuel > 0 && cols_from_at(t@, *old(pos) as int) && ends_at(t@, cols_end(t@, *old(pos) as int) + 2)) ==> ended,
        ensures *old(pos) <= *pos <= t.len(),
            good ==> (left matches SetExpr::Select(sel) && star_select(*sel, ident_at(t@, *old(pos) + 3).unwrap())
                && *pos == *old(pos) + 4),
            cnt ==> (left matches SetExpr::Select(sel) && count_select(*sel, ident_at(t@, *old(pos) + 6).unwrap())
                && *pos == *old(pos) + 7),
            ended ==> left == left0 && *pos == pk,
        decreases t.len() - *pos,
    {
        let op = if eat_kw(t, pos, "union") { SetOperator::Union }
            else if eat_kw(t, pos, "intersect") { SetOperator::Intersect }
            else if eat_kw(t, pos, "except") { SetOperator::Except }
            else { break; };
        let all = eat_kw(t, pos, "all");
        let right = parse_select_core(t, pos, fuel)?;
        left = SetExpr::SetOp { op, all, left: Box::new(left), right: Box::new(SetExpr::Select(Box::new(right))) };
    }
    Ok(left)
}

/// A full query: a select or set operation, then ORDER BY, LIMIT and OFFSET.
pub fn parse_query(t: &Vec<Token>, pos: &mut usize, fuel: u32) -> (r: PResult<Query>)
    requires *old(pos) <= t.len(),
    ensures *old(pos) <= *final(pos) <= t.len(),
        !kw_at(t@, *old(pos) as int, "select"@) ==> r is Err,
        (fuel > 0 && star_from_at(t@, *old(pos) as int)) ==> (r matches Ok(q) && star_query(q, ident_at(t@, *old(pos) + 3).unwrap()) && *final(pos) == *old(pos) + 4),
        (fuel > 0 && count_from_at(t@, *old(pos) as int)) ==> (r matches Ok(q) && count_query(q, ident_at(t@, *old(pos) + 6).unwrap()) && *final(pos) == *old(pos) + 7),
        forall|k: int, e: Expr| #![trigger cond_at(t@, *old(pos) + 8, k, e)] (fuel > 0 && fuel > depth(e) && count_where_at(t@, *old(pos) as int) && cond_at(t@, *old(pos) + 8, k, e)) ==> (r matches Ok(q) && count_where_query(q, ident_at(t@, *old(pos) + 6).unwrap(), e) && *final(pos) == k),
        forall|k: int, e: Expr| #![trigger cond_at(t@, *old(pos) + 5, k, e)] (fuel > 0 && fuel > depth(e) && star_where_at(t@, *old(pos) as int) && cond_at(t@, *old(pos) + 5, k, e)) ==> (r matches Ok(q) && star_where_query(q, ident_at(t@, *old(pos) + 3).unwrap(), e) && *final(pos) == k),
        (fuel > 0 && cols_from_at(t@, *old(pos) as int) && ends_at(t@, cols_end(t@, *old(pos) as int) + 2)) ==> (r matches Ok(q)
            && cols_query(q, col_list_vals(t@, *old(pos) + 1), ident_at(t@, cols_end(t@, *old(pos) as int) + 1).unwrap(), None)
            && *final(pos) == cols_end(t@, *old(pos) as int) + 2),
        forall|k: int, e: Expr| #![trigger cond_at(t@, cols_end(t@, *old(pos) as int) + 3, k, e)] (fuel > 0 && fuel > depth(e)
            && cols_from_at(t@, *old(pos) as int) && kw_at(t@, cols_end(t@, *old(pos) as int) + 2, "where"@)
            && cond_at(t@, cols_end(t@, *old(pos) as int) + 3, k, e)) ==> (r matches Ok(q)
            && cols_query(q, col_list_vals(t@, *old(pos) + 1), ident_at(t@, cols_end(t@, *old(pos) as int) + 1).unwrap(), Some(e))
            && *final(pos) == k),
    decreases fuel, 40int,
{
    let body = parse_set_expr(t, pos, fuel)?;
    let mut order_by: Vec<OrderItem> = Vec::new();
    if eat_kw(t, pos, "order") {
        expect_kw(t, pos, "by")?;
        order_by = parse_order_items(t, pos, fuel)?;
    }
    let mut limit: Option<Expr> = None;
    let mut offset: Option<Expr> = None;
    if eat_kw(t, pos, "limit") {
        let e = parse_expr(t, pos, fuel)?;
        if eat_sym(t, pos, Sym::Comma) {
            let e2 = parse_expr(t, pos, fuel)?;
            offset = Some(e);
            limit = Some(e2);
        } else {
            limit = Some(e);
        }
    }
    if eat_kw(t, pos, "offset") {
        offset = Some(parse_expr(t, pos, fuel)?);
    }
    Ok(Query { body, order_by, limit, offset })
}


// ───────────────────────────── statements ─────────────────────────────

fn is_constraint_start(t: &Vec<Token>, i: usize) -> (r: bool)
    ensures r == (kw_at(t@, i as int, "primary"@) || kw_at(t@, i as int, "not"@) || kw_at(t@, i as int, "null"@)
        || kw_at(t@, i as int, "unique"@) || kw_at(t@, i as int, "default"@) || kw_at(t@, i as int, "references"@)
        || kw_at(t@, i as int, "check"@) || kw_at(t@, i as int, "constraint"@) || kw_at(t@, i as int, "collate"@)
        || kw_at(t@, i as int, "autoincrement"@) || sym_at(t@, i as int) == Some(Sym::Comma)
        || sym_at(t@, i as int) == Some(Sym::RParen) || i >= t.len()),
{
    is_kw(t, i, "primary") || is_kw(t, i, "not") || is_kw(t, i, "null") || is_kw(t, i, "unique")
        || is_kw(t, i, "default") || is_kw(t, i, "references") || is_kw(t, i, "check")
        || is_kw(t, i, "constraint") || is_kw(t, i, "collate") || is_kw(t, i, "autoincrement")
        || is_sym(t, i, Sym::Comma) || is_sym(t, i, Sym::RParen) || i >= t.len()
}

/// Skips a parenthesised group, such as a type length.
fn skip_parens(t: &Vec<Token>, pos: &mut usize) -> (r: PResult<()>)
    requires *old(pos) <= t.len(),
    ensures *old(pos) <= *final(pos) <= t.len(),
        sym_at(t@, *old(pos) as int) != Some(Sym::LParen) ==> r is Ok && *final(pos) == *old(pos),
        sym_at(t@, *old(pos) as int) == Some(Sym::LParen) ==> (r is Ok <==> !unclosed(t@, *old(pos) as int)),
        sym_at(t@, *old(pos) as int) == Some(Sym::LParen) && r is Ok ==> paren_group(t@, *old(pos) as int, *final(pos) as int),
{
    if eat_sym(t, pos, Sym::LParen) {
        while *pos < t.len() && !is_sym(t, *pos, Sym::RParen)
            invariant *old(pos) + 1 <= *pos <= t.len(),
                forall|k: int| *old(pos) + 1 <= k < *pos ==> sym_at(t@, k) != Some(Sym::RParen),
            decreases t.len() - *pos,
        {
            *pos = *pos + 1;
        }
        expect_sym(t, pos, Sym::RParen)?;
    }
    Ok(())
}

/// The action an `ON DELETE` clause names from token `i` on: CASCADE, SET
/// NULL, or (for SET DEFAULT, RESTRICT and NO ACTION) no action.
pub open spec fn fk_action_at(t: Seq<Token>, i: int) -> Option<FkAction> {
    if kw_at(t, i, "cascade"@) {
        Some(FkAction::Cascade)
    } else if kw_at(t, i, "set"@) {
        if kw_at(t, i + 1, "null"@) {
            Some(FkAction::SetNull)
        } else if kw_at(t, i + 1, "default"@) {
            Some(FkAction::NoAction)
        } else {
            None
        }
    } else if kw_at(t, i, "restrict"@) {
        Some(FkAction::NoAction)
    } else if kw_at(t, i, "no"@) && kw_at(t, i + 1, "action"@) {
        Some(FkAction::NoAction)
    } else {
        None
    }
}

fn parse_fk_action(t: &Vec<Token>, pos: &mut usize) -> (r: PResult<FkAction>)
    requires *old(pos) <= t.len(),
    ensures *old(pos) <= *final(pos) <= t.len(),
        match fk_action_at(t@, *old(pos) as int) {
            Some(a) => r == Ok::<FkAction, Vec<char>>(a),
            None => r is Err,
        },
{
    if eat_kw(t, pos, "cascade") {
        Ok(FkAction::Cascade)
    } else if eat_kw(t, pos, "set") {
        if eat_kw(t, pos, "null") {
            Ok(FkAction::SetNull)
        } else {
            expect_kw(t, pos, "default")?;
            Ok(FkAction::NoAction)
        }
    } else if eat_kw(t, pos, "restrict") {
        Ok(FkAction::NoAction)
    } else {
        expect_kw(t, pos, "no")?;
        expect_kw(t, pos, "action")?;
        Ok(FkAction::NoAction)
    }
}

fn parse_column_def(t: &Vec<Token>, pos: &mut usize, fuel: u32) -> (r: PResult<ColumnDef>)
    requires *old(pos) <= t.len(),
    ensures *old(pos) <= *final(pos) <= t.len(),
        ident_at(t@, *old(pos) as int) is None ==> r is Err,
        r matches Ok(c) ==> ident_at(t@, *old(pos) as int) == Some(c.name@),
        coldef_end(toks_view(t@), *old(pos) as int) matches Some(e) ==>
            (r matches Ok(d) && coldef_gives(toks_view(t@), *old(pos) as int, d) && *final(pos) == e),
    decreases fuel, 60int,
{
    proof { lemma_tok_views(t@); }
    let ghost ts = toks_view(t@);
    let ghost p0 = *pos as int;
    let ghost good = coldef_end(ts, p0) is Some;
    let ghost c0: int = if good { type_end(ts, p0 + 1).unwrap() } else { 0 };
    let name = parse_ident(t, pos)?;
    let mut declared_type: Vec<char> = Vec::new();
    while !is_constraint_start(t, *pos)
        invariant *old(pos) <= *pos <= t.len(), ts == toks_view(t@), p0 == *old(pos),
            good == (coldef_end(ts, p0) is Some), good ==> c0 == type_end(ts, p0 + 1).unwrap(),
            good ==> p0 + 1 <= *pos <= c0,
            good ==> (if *pos == p0 + 1 { declared_type@.len() == 0 } else {
                *pos == p0 + 2 && c0 == p0 + 2 && declared_type@ == identv(ts, p0 + 1).unwrap() }),
            forall|i: int, kw: Seq<char>| #[trigger] kw_at(t@, i, kw) == kwv(ts, i, kw),
            forall|i: int| #[trigger] ident_at(t@, i) == identv(ts, i),
            forall|i: int| #[trigger] sym_at(t@, i) == symv(ts, i),
        decreases t.len() - *pos,
    {
        let w = parse_ident(t, pos)?;
        if declared_type.len() == 0 {
            declared_type = w;
        }
        skip_parens(t, pos)?;
    }
    let mut primary_key = false;
    let mut not_null = false;
    let mut unique = false;
    let mut default: Option<Expr> = None;
    let mut references: Option<ForeignKey> = None;
    proof {
        if good {
            assert(*pos as int == c0);
            assert(declared_type@ == (if c0 == p0 + 2 { identv(ts, p0 + 1).unwrap() } else { Seq::<char>::empty() }));
        }
    }
    let ghost dt = declared_type@;
    loop
        invariant *old(pos) <= *pos <= t.len(), ts == toks_view(t@), p0 == *old(pos),
            good == (coldef_end(ts, p0) is Some), good ==> c0 == type_end(ts, p0 + 1).unwrap(),
            good ==> cons_from(ts, c0, false, false, false) == cons_from(ts, *pos as int, primary_key, not_null, unique),
            good ==> default is None && references is None,
            declared_type@ == dt, name@ == identv(ts, p0).unwrap(), identv(ts, p0) is Some,
            forall|i: int, kw: Seq<char>| #[trigger] kw_at(t@, i, kw) == kwv(ts, i, kw),
            forall|i: int| #[trigger] ident_at(t@, i) == identv(ts, i),
            forall|i: int| #[trigger] sym_at(t@, i) == symv(ts, i),
        ensures *old(pos) <= *pos <= t.len(), declared_type@ == dt, name@ == identv(ts, p0).unwrap(),
            good ==> cons_from(ts, c0, false, false, false) == Some((*pos as int, primary_key, not_null, unique)),
            good ==> default is None && references is None,
        decreases t.len() - *pos,
    {
        let start = *pos;
        if eat_kw(t, pos, "primary") {
            expect_kw(t, pos, "key")?;
            primary_key = true;
            if !eat_kw(t, pos, "asc") {
                eat_kw(t, pos, "desc");
            }
        } else if eat_kw(t, pos, "autoincrement") {
        } else if eat_kw(t, pos, "not") {
            expect_kw(t, pos, "null")?;
            not_null = true;
        } else if eat_kw(t, pos, "null") {
        } else if eat_kw(t, pos, "unique") {
            unique = true;
        } else if eat_kw(t, pos, "default") {
            let e = parse_unary(t, pos, fuel, Ghost(None))?;
            default = Some(e);
        } else if eat_kw(t, pos, "constraint") {
            parse_ident(t, pos)?;
        } else if eat_kw(t, pos, "collate") {
            parse_ident(t, pos)?;
        } else if eat_kw(t, pos, "check") {
            expect_sym(t, pos, Sym::LParen)?;
            if fuel == 0 {
                return fail("expression nested too deeply");
            }
            parse_expr(t, pos, fuel - 1)?;
            expect_sym(t, pos, Sym::RParen)?;
        } else if eat_kw(t, pos, "references") {
            assert(!good);
            let table = parse_ident(t, pos)?;
            let mut column: Option<Vec<char>> = None;
            if eat_sym(t, pos, Sym::LParen) {
                column = Some(parse_ident(t, pos)?);
                expect_sym(t, pos, Sym::RParen)?;
            }
            let mut on_delete = FkAction::NoAction;
            while eat_kw(t, pos, "on")
                invariant *old(pos) <= *pos <= t.len(), start < *pos, !good, ts == toks_view(t@), p0 == *old(pos),
                    good == (coldef_end(ts, p0) is Some),
                decreases t.len() - *pos,
            {
                if eat_kw(t, pos, "delete") {
                    on_delete = parse_fk_action(t, pos)?;
                } else {
                    expect_kw(t, pos, "update")?;
                    parse_fk_action(t, pos)?;
                }
            }
            references = Some(ForeignKey { table, column, on_delete });
        } else {
            break;
        }
    }
    Ok(ColumnDef { name, declared_type, primary_key, not_null, unique, default, references })
}

/// The names of a comma-separated list from token `j` on, after those in
/// `acc`, with the position after the last name; `None` where a name is
/// missing.
pub open spec fn names_from(t: Seq<Token>, j: int, acc: Seq<Seq<char>>) -> Option<(Seq<Seq<char>>, int)>
    decreases t.len() - j,
{
    match ident_at(t, j) {
        None => None,
        Some(n) => if sym_at(t, j + 1) == Some(Sym::Comma) {
            names_from(t, j + 2, acc.push(n))
        } else {
            Some((acc.push(n), j + 1))
        },
    }
}

fn parse_name_list(t: &Vec<Token>, pos: &mut usize) -> (r: PResult<Vec<Vec<char>>>)
    requires *old(pos) <= t.len(),
    ensures *old(pos) <= *final(pos) <= t.len(),
        sym_at(t@, *old(pos) as int) != Some(Sym::LParen) ==> r is Err,
        sym_at(t@, *old(pos) as int) == Some(Sym::LParen) ==> match names_from(t@, *old(pos) + 1, seq![]) {
            None => r is Err,
            Some((ns, e)) => if sym_at(t@, e) == Some(Sym::RParen) {
                r matches Ok(v) && crate::vm::query::names_view(v@) == ns && *final(pos) == e + 1
            } else {
                r is Err
            },
        },
{
    expect_sym(t, pos, Sym::LParen)?;
    let mut out: Vec<Vec<char>> = Vec::new();
    let ghost p1: int = *pos as int;
    proof { assert(crate::vm::query::names_view(out@) =~= seq![]); }
    loop
        invariant_except_break
            names_from(t@, *pos as int, crate::vm::query::names_view(out@)) == names_from(t@, p1, seq![]),
        invariant *old(pos) <= *pos <= t.len(), p1 == *old(pos) + 1, sym_at(t@, *old(pos) as int) == Some(Sym::LParen),
        ensures *old(pos) <= *pos <= t.len(),
            names_from(t@, p1, seq![]) == Some((crate::vm::query::names_view(out@), *pos as int)),
        decreases t.len() - *pos,
    {
        let ghost j: int = *pos as int;
        let n = parse_ident(t, pos)?;
        proof {
            assert(crate::vm::query::names_view(out@.push(n)) == crate::vm::query::names_view(out@).push(n@));
        }
        out.push(n);
        if !eat_sym(t, pos, Sym::Comma) {
            break;
        }
    }
    expect_sym(t, pos, Sym::RParen)?;
    Ok(out)
}

/// Where a table-level constraint that continues at token `j`, at
/// parenthesis depth `d`, ends: at the first comma or closing parenthesis
/// outside any parentheses, or at the end of the tokens.
pub open spec fn constraint_end(t: Seq<Token>, j: int, d: int) -> int
    decreases t.len() - j,
{
    if j < 0 || j >= t.len() || (d == 0 && (sym_at(t, j) == Some(Sym::Comma) || sym_at(t, j) == Some(Sym::RParen))) {
        j
    } else if sym_at(t, j) == Some(Sym::LParen) {
        constraint_end(t, j + 1, if d < usize::MAX { d + 1 } else { d })
    } else if sym_at(t, j) == Some(Sym::RParen) {
        constraint_end(t, j + 1, if d > 0 { d - 1 } else { d })
    } else {
        constraint_end(t, j + 1, d)
    }
}

/// Skips a table-level constraint such as `PRIMARY KEY (a, b)`.
fn skip_table_constraint(t: &Vec<Token>, pos: &mut usize) -> (r: PResult<()>)
    requires *old(pos) <= t.len(),
    ensures *old(pos) <= *final(pos) <= t.len(), r is Ok, *final(pos) == constraint_end(t@, *old(pos) as int, 0),
{
    let mut depth: usize = 0;
    while *pos < t.len() && !(depth == 0 && (is_sym(t, *pos, Sym::Comma) || is_sym(t, *pos, Sym::RParen)))
        invariant *old(pos) <= *pos <= t.len(),
            constraint_end(t@, *pos as int, depth as int) == constraint_end(t@, *old(pos) as int, 0),
        decreases t.len() - *pos,
    {
        if is_sym(t, *pos, Sym::LParen) {
            if depth < usize::MAX { depth = depth + 1; }
        } else if is_sym(t, *pos, Sym::RParen) {
            if depth > 0 { depth = depth - 1; }
        }
        *pos = *pos + 1;
    }
    Ok(())
}

fn parse_create_table(t: &Vec<Token>, pos: &mut usize, fuel: u32) -> (r: PResult<Statement>)
    requires *old(pos) <= t.len(),
    ensures *old(pos) <= *final(pos) <= t.len(),
        ({
            let i = *old(pos) as int;
            let k = if kw_at(t@, i, "if"@) { 3int } else { 0int };
            &&& (kw_at(t@, i, "if"@) && !(kw_at(t@, i + 1, "not"@) && kw_at(t@, i + 2, "exists"@))) ==> r is Err
            &&& ident_at(t@, i + k) is None ==> r is Err
            &&& r matches Ok(st) ==> (st matches Statement::CreateTable { name, if_not_exists, columns, as_query }
                && if_not_exists == kw_at(t@, i, "if"@) && ident_at(t@, i + k) == Some(name@)
                && (as_query is Some <==> kw_at(t@, i + k + 1, "as"@))
                && (as_query is None ==> columns@.len() > 0))
        }),
        create_table_end(toks_view(t@), *old(pos) as int) matches Some(e) ==>
            (r matches Ok(st) && create_table_gives(toks_view(t@), *old(pos) as int, st) && *final(pos) == e),
    decreases fuel, 62int,
{
    proof { lemma_tok_views(t@); }
    let ghost ts = toks_view(t@);
    let ghost p0 = *pos as int;
    let ghost good = create_table_end(ts, p0) is Some;
    let ghost kk: int = if_not_exists_v(ts, p0).unwrap();
    let ghost j0: int = p0 + kk + 2;
    let ghost mut starts: Seq<int> = Seq::empty();
    proof {
        if good {
            reveal_strlit("as");
            reveal_strlit("if");
        }
    }
    let mut if_not_exists = false;
    if eat_kw(t, pos, "if") {
        expect_kw(t, pos, "not")?;
        expect_kw(t, pos, "exists")?;
        if_not_exists = true;
    }
    let name = parse_ident(t, pos)?;
    if eat_kw(t, pos, "as") {
        let q = parse_query(t, pos, fuel)?;
        return Ok(Statement::CreateTable { name, if_not_exists, columns: Vec::new(), as_query: Some(Box::new(q)) });
    }
    expect_sym(t, pos, Sym::LParen)?;
    let mut columns: Vec<ColumnDef> = Vec::new();
    loop
        invariant_except_break
            good ==> cols_from(ts, *pos as int, starts) == cols_from(ts, j0, Seq::empty()),
        invariant *old(pos) <= *pos <= t.len(), ts == toks_view(t@), p0 == *old(pos),
            good == (create_table_end(ts, p0) is Some), kk == if_not_exists_v(ts, p0).unwrap(), j0 == p0 + kk + 2,
            good ==> columns@.len() == starts.len()
                && forall|c: int| 0 <= c < starts.len() ==> coldef_gives(ts, #[trigger] starts[c], columns@[c]),
            good ==> if_not_exists == (kk == 3) && identv(ts, p0 + kk) == Some(name@),
            forall|i: int, kw: Seq<char>| #[trigger] kw_at(t@, i, kw) == kwv(ts, i, kw),
            forall|i: int| #[trigger] ident_at(t@, i) == identv(ts, i),
            forall|i: int| #[trigger] sym_at(t@, i) == symv(ts, i),
        ensures *old(pos) <= *pos <= t.len(),
            good ==> cols_from(ts, j0, Seq::empty()) == Some((starts, *pos as int)),
            good ==> columns@.len() == starts.len()
                && forall|c: int| 0 <= c < starts.len() ==> coldef_gives(ts, #[trigger] starts[c], columns@[c]),
            good ==> if_not_exists == (kk == 3) && identv(ts, p0 + kk) == Some(name@),
        decreases t.len() - *pos,
    {
        if is_kw(t, *pos, "primary") || is_kw(t, *pos, "unique") || is_kw(t, *pos, "foreign")
            || is_kw(t, *pos, "check") || is_kw(t, *pos, "constraint") {
            let start = *pos;
            skip_table_constraint(t, pos)?;
            if *pos == start {
                return fail("syntax error in table constraint");
            }
        } else {
            let ghost j = *pos as int;
            let c = parse_column_def(t, pos, fuel)?;
            proof {
                if good {
                    assert(columns@.push(c).len() == starts.push(j).len());
                    assert forall|x: int| 0 <= x < starts.push(j).len() implies
                        coldef_gives(ts, #[trigger] starts.push(j)[x], columns@.push(c)[x]) by {
                        if x < starts.len() { assert(starts.push(j)[x] == starts[x]); }
                    }
                    starts = starts.push(j);
                }
            }
            columns.push(c);
        }
        if !eat_sym(t, pos, Sym::Comma) {
            break;
        }
    }
    expect_sym(t, pos, Sym::RParen)?;
    proof { if good { lemma_cols_from_grows(ts, j0, Seq::empty()); } }
    if columns.len() == 0 {
        return fail("a table needs at least one column");
    }
    Ok(Statement::CreateTable { name, if_not_exists, columns, as_query: None })
}

fn parse_if_exists(t: &Vec<Token>, pos: &mut usize) -> (r: PResult<bool>)
    requires *old(pos) <= t.len(),
    ensures *old(pos) <= *final(pos) <= t.len(),
        !kw_at(t@, *old(pos) as int, "if"@) ==> r == Ok::<bool, Vec<char>>(false) && *final(pos) == *old(pos),
        kw_at(t@, *old(pos) as int, "if"@) ==> (if kw_at(t@, *old(pos) + 1, "exists"@) {
            r == Ok::<bool, Vec<char>>(true) && *final(pos) == *old(pos) + 2
        } else {
            r is Err
        }),
{
    if eat_kw(t, pos, "if") {
        expect_kw(t, pos, "exists")?;
        Ok(true)
    } else {
        Ok(false)
    }
}

fn parse_create(t: &Vec<Token>, pos: &mut usize, fuel: u32) -> (r: PResult<Statement>)
    requires *old(pos) <= t.len(),
    ensures *old(pos) <= *final(pos) <= t.len(),
        r matches Ok(st) ==> (st is CreateTable || st is CreateIndex || st is CreateView || st is CreateTrigger || st is CreatePolicy),
        kw_at(t@, *old(pos) as int, "table"@) ==> (r matches Ok(st) ==> st is CreateTable),
        !kw_at(t@, *old(pos) as int, "table"@) && !kw_at(t@, *old(pos) as int, "unique"@) && !kw_at(t@, *old(pos) as int, "index"@)
            && !kw_at(t@, *old(pos) as int, "view"@) && !kw_at(t@, *old(pos) as int, "policy"@)
            && !kw_at(t@, *old(pos) as int, "trigger"@) ==> r is Err,
        kw_at(t@, *old(pos) as int, "table"@) ==> (r matches Ok(st) ==> create_table_head(t@, *old(pos) + 1, st)),
        kw_at(t@, *old(pos) as int, "table"@) ==> (create_table_end(toks_view(t@), *old(pos) + 1) matches Some(e) ==>
            (r matches Ok(st) && create_table_gives(toks_view(t@), *old(pos) + 1, st) && *final(pos) == e)),
        !kw_at(t@, *old(pos) as int, "table"@) ==> (create_index_end(toks_view(t@), *old(pos) as int) matches Some(e) ==>
            (r matches Ok(st) && create_index_gives(toks_view(t@), *old(pos) as int, st) && *final(pos) == e)),
    decreases fuel, 64int,
{
    if eat_kw(t, pos, "table") {
        return parse_create_table(t, pos, fuel);
    }
    let unique = eat_kw(t, pos, "unique");
    if eat_kw(t, pos, "index") {
        let mut if_not_exists = false;
        if eat_kw(t, pos, "if") {
            expect_kw(t, pos, "not")?;
            expect_kw(t, pos, "exists")?;
            if_not_exists = true;
        }
        let name = parse_ident(t, pos)?;
        expect_kw(t, pos, "on")?;
        let table = parse_ident(t, pos)?;
        let ghost pl = *pos as int;
        proof {
            lemma_tok_views(t@);
            lemma_names_view(t@, pl + 1, Seq::empty());
        }
        let columns = parse_name_list(t, pos)?;
        return Ok(Statement::CreateIndex { name, table, columns, unique, if_not_exists });
    }
    if unique {
        return fail("syntax error after CREATE UNIQUE");
    }
    if eat_kw(t, pos, "view") {
        let name = parse_ident(t, pos)?;
        expect_kw(t, pos, "as")?;
        let q = parse_query(t, pos, fuel)?;
        return Ok(Statement::CreateView { name, query: Box::new(q) });
    }
    if eat_kw(t, pos, "policy") {
        let name = parse_ident(t, pos)?;
        expect_kw(t, pos, "on")?;
        let table = parse_ident(t, pos)?;
        if eat_kw(t, pos, "for") {
            parse_ident(t, pos)?;
        }
        expect_kw(t, pos, "using")?;
        expect_sym(t, pos, Sym::LParen)?;
        let using = parse_expr(t, pos, fuel)?;
        expect_sym(t, pos, Sym::RParen)?;
        return Ok(Statement::CreatePolicy { name, table, using });
    }
    if eat_kw(t, pos, "trigger") {
        let name = parse_ident(t, pos)?;
        let timing = if eat_kw(t, pos, "before") {
            TriggerTiming::Before
        } else {
            expect_kw(t, pos, "after")?;
            TriggerTiming::After
        };
        let event = if eat_kw(t, pos, "insert") {
            TriggerEvent::Insert
        } else if eat_kw(t, pos, "update") {
            TriggerEvent::Update
        } else {
            expect_kw(t, pos, "delete")?;
            TriggerEvent::Delete
        };
        expect_kw(t, pos, "on")?;
        let table = parse_ident(t, pos)?;
        if eat_kw(t, pos, "for") {
            expect_kw(t, pos, "each")?;
            expect_kw(t, pos, "row")?;
        }
        expect_kw(t, pos, "begin")?;
        let mut body: Vec<Statement> = Vec::new();
        if fuel == 0 {
            return fail("statement nested too deeply");
        }
        while !eat_kw(t, pos, "end")
            invariant *old(pos) <= *pos <= t.len(), fuel > 0, !kw_at(t@, *old(pos) as int, "table"@),
                create_index_end(toks_view(t@), *old(pos) as int) is None,
            decreases t.len() - *pos,
        {
            let start = *pos;
            let st = parse_statement(t, pos, fuel - 1)?;
            expect_sym(t, pos, Sym::Semicolon)?;
            body.push(st);
        }
        return Ok(Statement::CreateTrigger { name, timing, event, table, body });
    }
    fail("unsupported CREATE statement")
}

/// How many tokens an `IF EXISTS` at token `i` takes: none where there is no
/// IF, two where IF EXISTS stands there, and `None` for a lone IF.
pub open spec fn if_exists_len(t: Seq<Token>, i: int) -> Option<int> {
    if kw_at(t, i, "if"@) {
        if kw_at(t, i + 1, "exists"@) { Some(2) } else { None }
    } else {
        Some(0)
    }
}

fn parse_drop(t: &Vec<Token>, pos: &mut usize) -> (r: PResult<Statement>)
    requires *old(pos) <= t.len(),
    ensures *old(pos) <= *final(pos) <= t.len(),
        ({
            let i = *old(pos) as int;
            match if_exists_len(t@, i + 1) {
                None => r is Err,
                Some(k) => match ident_at(t@, i + 1 + k) {
                    None => r is Err,
                    Some(n) => if kw_at(t@, i, "table"@) {
                        r matches Ok(Statement::DropTable { name, if_exists }) && name@ == n && if_exists == (k == 2)
                    } else if kw_at(t@, i, "index"@) {
                        r matches Ok(Statement::DropIndex { name, if_exists }) && name@ == n && if_exists == (k == 2)
                    } else if kw_at(t@, i, "view"@) {
                        r matches Ok(Statement::DropView { name, if_exists }) && name@ == n && if_exists == (k == 2)
                    } else if kw_at(t@, i, "trigger"@) {
                        r matches Ok(Statement::DropTrigger { name, if_exists }) && name@ == n && if_exists == (k == 2)
                    } else if kw_at(t@, i, "policy"@) {
                        match ident_at(t@, i + 3 + k) {
                            Some(tb) if kw_at(t@, i + 2 + k, "on"@) => r matches Ok(Statement::DropPolicy { name, table, if_exists })
                                && name@ == n && table@ == tb && if_exists == (k == 2),
                            _ => r is Err,
                        }
                    } else {
                        r is Err
                    },
                },
            }
        }),
        ({
            let i = *old(pos) as int;
            !(kw_at(t@, i, "table"@) || kw_at(t@, i, "index"@) || kw_at(t@, i, "view"@) || kw_at(t@, i, "trigger"@)
                || kw_at(t@, i, "policy"@)) ==> r is Err
        }),
        drop_end(toks_view(t@), *old(pos) as int) matches Some(e) ==> (r matches Ok(st) && drop_gives(toks_view(t@), *old(pos) as int, st) && *final(pos) == e),
{
    proof { lemma_tok_views(t@); }
    if eat_kw(t, pos, "table") {
        let if_exists = parse_if_exists(t, pos)?;
        let name = parse_ident(t, pos)?;
        Ok(Statement::DropTable { name, if_exists })
    } else if eat_kw(t, pos, "index") {
        let if_exists = parse_if_exists(t, pos)?;
        let name = parse_ident(t, pos)?;
        Ok(Statement::DropIndex { name, if_exists })
    } else if eat_kw(t, pos, "view") {
        let if_exists = parse_if_exists(t, pos)?;
        let name = parse_ident(t, pos)?;
        Ok(Statement::DropView { name, if_exists })
    } else if eat_kw(t, pos, "trigger") {
        let if_exists = parse_if_exists(t, pos)?;
        let name = parse_ident(t, pos)?;
        Ok(Statement::DropTrigger { name, if_exists })
    } else if eat_kw(t, pos, "policy") {
        let if_exists = parse_if_exists(t, pos)?;
        let name = parse_ident(t, pos)?;
        expect_kw(t, pos, "on")?;
        let table = parse_ident(t, pos)?;
        Ok(Statement::DropPolicy { name, table, if_exists })
    } else {
        fail("unsupported DROP statement")
    }
}

/// What `ALTER` followed by the tokens from `i` on gives: `TABLE`, the table's
/// name, then an action: ADD [COLUMN] a column, DROP [COLUMN] a name, RENAME
/// TO a name, RENAME [COLUMN] a name TO a name, or ENABLE or DISABLE ROW LEVEL
/// SECURITY; anything else is an error.
pub open spec fn alter_at(t: Seq<Token>, i: int, r: PResult<Statement>) -> bool {
    if !kw_at(t, i, "table"@) {
        r is Err
    } else {
        match ident_at(t, i + 1) {
            None => r is Err,
            Some(tb) => {
                let j = i + 2;
                let ok_with = |a: AlterAction| -> bool { r matches Ok(Statement::AlterTable { table, action }) && table@ == tb && action == a };
                if kw_at(t, j, "add"@) {
                    r matches Ok(st) ==> (st matches Statement::AlterTable { table, action } && table@ == tb && action is AddColumn)
                } else if kw_at(t, j, "drop"@) {
                    let k = j + 1 + (if kw_at(t, j + 1, "column"@) { 1int } else { 0int });
                    match ident_at(t, k) {
                        Some(n) => r matches Ok(Statement::AlterTable { table, action: AlterAction::DropColumn(x) }) && table@ == tb && x@ == n,
                        None => r is Err,
                    }
                } else if kw_at(t, j, "rename"@) {
                    if kw_at(t, j + 1, "to"@) {
                        match ident_at(t, j + 2) {
                            Some(n) => r matches Ok(Statement::AlterTable { table, action: AlterAction::RenameTo(x) }) && table@ == tb && x@ == n,
                            None => r is Err,
                        }
                    } else {
                        let k = j + 1 + (if kw_at(t, j + 1, "column"@) { 1int } else { 0int });
                        match (ident_at(t, k), ident_at(t, k + 2)) {
                            (Some(f), Some(n)) if kw_at(t, k + 1, "to"@) => r matches Ok(Statement::AlterTable {
                                table, action: AlterAction::RenameColumn { from, to } }) && table@ == tb && from@ == f && to@ == n,
                            _ => r is Err,
                        }
                    }
                } else if kw_at(t, j, "enable"@) || kw_at(t, j, "disable"@) {
                    if kw_at(t, j + 1, "row"@) && kw_at(t, j + 2, "level"@) && kw_at(t, j + 3, "security"@) {
                        r matches Ok(Statement::AlterTable { table, action }) && table@ == tb
                            && (if kw_at(t, j, "enable"@) { action is EnableRowSecurity } else { action is DisableRowSecurity })
                    } else {
                        r is Err
                    }
                } else {
                    r is Err
                }
            },
        }
    }
}

fn parse_alter(t: &Vec<Token>, pos: &mut usize, fuel: u32) -> (r: PResult<Statement>)
    requires *old(pos) <= t.len(),
    ensures *old(pos) <= *final(pos) <= t.len(),
        alter_at(t@, *old(pos) as int, r),
        alter_end(toks_view(t@), *old(pos) as int) matches Some(e) ==> (r matches Ok(st) && alter_gives(toks_view(t@), *old(pos) as int, st) && *final(pos) == e),
    decreases fuel, 64int,
{
    proof { lemma_tok_views(t@); }
    expect_kw(t, pos, "table")?;
    let table = parse_ident(t, pos)?;
    let action = if eat_kw(t, pos, "add") {
        eat_kw(t, pos, "column");
        let c = parse_column_def(t, pos, fuel)?;
        AlterAction::AddColumn(c)
    } else if eat_kw(t, pos, "drop") {
        eat_kw(t, pos, "column");
        AlterAction::DropColumn(parse_ident(t, pos)?)
    } else if eat_kw(t, pos, "rename") {
        if eat_kw(t, pos, "to") {
            AlterAction::RenameTo(parse_ident(t, pos)?)
        } else {
            eat_kw(t, pos, "column");
            let from = parse_ident(t, pos)?;
            expect_kw(t, pos, "to")?;
            let to = parse_ident(t, pos)?;
            AlterAction::RenameColumn { from, to }
        }
    } else if eat_kw(t, pos, "enable") {
        expect_kw(t, pos, "row")?;
        expect_kw(t, pos, "level")?;
        expect_kw(t, pos, "security")?;
        AlterAction::EnableRowSecurity
    } else if eat_kw(t, pos, "disable") {
        expect_kw(t, pos, "row")?;
        expect_kw(t, pos, "level")?;
        expect_kw(t, pos, "security")?;
        AlterAction::DisableRowSecurity
    } else {
        return fail("unsupported ALTER TABLE action");
    };
    Ok(Statement::AlterTable { table, action })
}

/// `name = expr [, name = expr]*`
///
/// One assignment whose value the hint describes comes back with that value.
fn parse_assignments(t: &Vec<Token>, pos: &mut usize, fuel: u32, Ghost(h): Ghost<Option<(Expr, bool)>>) -> (r: PResult<Vec<(Vec<char>, Expr)>>)
    requires *old(pos) <= t.len(),
    ensures *old(pos) <= *final(pos) <= t.len(),
        ident_at(t@, *old(pos) as int) is None || sym_at(t@, *old(pos) + 1) != Some(Sym::Eq) ==> r is Err,
        r matches Ok(v) ==> v@.len() > 0 && ident_at(t@, *old(pos) as int) == Some(v@[0].0@)
            && sym_at(t@, *final(pos) as int) != Some(Sym::Comma),
        (hint_holds(t@, *old(pos) + 2, h, 1, fuel as int) && ident_at(t@, *old(pos) as int) is Some
            && sym_at(t@, *old(pos) + 1) == Some(Sym::Eq)
            && sym_at(t@, *old(pos) + 2 + hinted(h.unwrap().0, h.unwrap().1).len()) != Some(Sym::Comma)) ==>
            (r matches Ok(v) && v@.len() == 1 && v@[0].0@ == ident_at(t@, *old(pos) as int).unwrap()
                && same_expr(v@[0].1, h.unwrap().0) && *final(pos) == *old(pos) + 2 + hinted(h.unwrap().0, h.unwrap().1).len()),
    decreases fuel, 60int,
{
    let ghost p0 = *pos as int;
    let ghost hg = hint_holds(t@, p0 + 2, h, 1, fuel as int) && ident_at(t@, p0) is Some
        && sym_at(t@, p0 + 1) == Some(Sym::Eq) && sym_at(t@, p0 + 2 + hinted(h.unwrap().0, h.unwrap().1).len()) != Some(Sym::Comma);
    let mut out: Vec<(Vec<char>, Expr)> = Vec::new();
    loop
        invariant_except_break hg ==> out@.len() == 0,
        invariant *old(pos) <= *pos <= t.len(), p0 == *old(pos),
            hg == (hint_holds(t@, p0 + 2, h, 1, fuel as int) && ident_at(t@, p0) is Some
                && sym_at(t@, p0 + 1) == Some(Sym::Eq) && sym_at(t@, p0 + 2 + hinted(h.unwrap().0, h.unwrap().1).len()) != Some(Sym::Comma)),
            out@.len() == 0 ==> *pos == *old(pos),
            out@.len() > 0 ==> ident_at(t@, *old(pos) as int) == Some(out@[0].0@) && sym_at(t@, *old(pos) + 1) == Some(Sym::Eq),
        ensures *old(pos) <= *pos <= t.len(), out@.len() > 0, sym_at(t@, *pos as int) != Some(Sym::Comma),
            ident_at(t@, *old(pos) as int) == Some(out@[0].0@), sym_at(t@, *old(pos) + 1) == Some(Sym::Eq),
            hg ==> out@.len() == 1 && same_expr(out@[0].1, h.unwrap().0) && *pos == p0 + 2 + hinted(h.unwrap().0, h.unwrap().1).len(),
        decreases t.len() - *pos,
    {
        let name = parse_ident(t, pos)?;
        expect_sym(t, pos, Sym::Eq)?;
        proof {
            if hg {
                let (e, b) = h.unwrap();
                if b {
                    assert(bare_at(t@, p0 + 2, e, fuel as int));
                } else {
                    assert(renderable(e) && fuel > depth(e));
                }
            }
        }
        let e = parse_expr(t, pos, fuel)?;
        out.push((name, e));
        if !eat_sym(t, pos, Sym::Comma) {
            break;
        }
    }
    Ok(out)
}

fn parse_returning(t: &Vec<Token>, pos: &mut usize, fuel: u32) -> (r: PResult<Option<Vec<SelectItem>>>)
    requires *old(pos) <= t.len(),
    ensures *old(pos) <= *final(pos) <= t.len(),
        !kw_at(t@, *old(pos) as int, "returning"@) ==> (r matches Ok(None) && *final(pos) == *old(pos)),
        kw_at(t@, *old(pos) as int, "returning"@) ==> (r is Ok ==> (r matches Ok(Some(items)) && items@.len() > 0)),
    decreases fuel, 60int,
{
    if eat_kw(t, pos, "returning") {
        let items = parse_select_items(t, pos, fuel)?;
        Ok(Some(items))
    } else {
        Ok(None)
    }
}

fn parse_insert(t: &Vec<Token>, pos: &mut usize, fuel: u32) -> (r: PResult<Statement>)
    requires *old(pos) <= t.len(),
    ensures *old(pos) <= *final(pos) <= t.len(),
        ({
            let i = *old(pos) as int;
            let m = if kw_at(t@, i, "or"@) { 2int } else { 0int };
            &&& (kw_at(t@, i, "or"@) && !(kw_at(t@, i + 1, "ignore"@) || kw_at(t@, i + 1, "replace"@)
                || kw_at(t@, i + 1, "abort"@))) ==> r is Err
            &&& !kw_at(t@, i + m, "into"@) ==> r is Err
            &&& ident_at(t@, i + m + 1) is None ==> r is Err
            &&& r matches Ok(st) ==> (st matches Statement::Insert { table, conflict, .. }
                && ident_at(t@, i + m + 1) == Some(table@)
                && conflict == (if !kw_at(t@, i, "or"@) { ConflictMode::Abort } else if kw_at(t@, i + 1, "ignore"@) {
                    ConflictMode::Ignore } else if kw_at(t@, i + 1, "replace"@) { ConflictMode::Replace } else { ConflictMode::Abort }))
        }),
        fuel > 0 ==> (insert_end(toks_view(t@), *old(pos) as int) matches Some(e) ==> (r matches Ok(st) && insert_gives(toks_view(t@), *old(pos) as int, st) && *final(pos) == e)),
    decreases fuel, 64int,
{
    proof { lemma_tok_views(t@); }
    let ghost ts = toks_view(t@);
    let ghost p0 = *pos as int;
    let ghost good = fuel > 0 && insert_end(ts, p0) is Some;
    let ghost e_end = insert_end(ts, p0).unwrap();
    let ghost mut done: Seq<Seq<TokV>> = Seq::empty();
    proof {
        if good {
            reveal_strlit("or");
            reveal_strlit("into");
            assert("or"@.len() == 2 && "into"@.len() == 4);
            assert(kwv(ts, p0, "into"@));
            assert(!kwv(ts, p0, "or"@));
            assert(!kw_at(t@, p0, "or"@));
        }
    }
    let mut conflict = ConflictMode::Abort;
    if eat_kw(t, pos, "or") {
        if eat_kw(t, pos, "ignore") {
            conflict = ConflictMode::Ignore;
        } else if eat_kw(t, pos, "replace") {
            conflict = ConflictMode::Replace;
        } else {
            expect_kw(t, pos, "abort")?;
        }
    }
    expect_kw(t, pos, "into")?;
    let table = parse_ident(t, pos)?;
    let mut columns: Option<Vec<Vec<char>>> = None;
    if is_sym(t, *pos, Sym::LParen) {
        columns = Some(parse_name_list(t, pos)?);
    }
    let source = if eat_kw(t, pos, "values") {
        let mut rows: Vec<Vec<Expr>> = Vec::new();
        loop
            invariant_except_break good ==> lit_rows_from(ts, *pos as int, done) == lit_rows_from(ts, p0 + 3, Seq::empty()),
            invariant *old(pos) <= *pos <= t.len(), p0 == *old(pos), ts == toks_view(t@),
                good == (fuel > 0 && insert_end(ts, p0) is Some), e_end == insert_end(ts, p0).unwrap(),
                good ==> rows@.len() == done.len() && forall|x: int| 0 <= x < rows@.len() ==> lit_exprs(#[trigger] rows@[x]@, done[x]),
                forall|i: int| #[trigger] sym_at(t@, i) == symv(ts, i),
            ensures *old(pos) <= *pos <= t.len(),
                good ==> lit_rows_from(ts, p0 + 3, Seq::empty()) == Some((done, *pos as int)),
                good ==> rows@.len() == done.len() && forall|x: int| 0 <= x < rows@.len() ==> lit_exprs(#[trigger] rows@[x]@, done[x]),
            decreases t.len() - *pos,
        {
            let ghost j = *pos as int;
            expect_sym(t, pos, Sym::LParen)?;
            let row = parse_expr_list(t, pos, fuel)?;
            expect_sym(t, pos, Sym::RParen)?;
            proof {
                if good {
                    let vs = lit_list_vals(ts, j + 1);
                    assert forall|x: int| 0 <= x < rows@.push(row).len() implies lit_exprs(#[trigger] rows@.push(row)[x]@, done.push(vs)[x]) by {
                        if x < rows@.len() { assert(rows@.push(row)[x] == rows@[x]); }
                    }
                    done = done.push(vs);
                }
            }
            rows.push(row);
            if !eat_sym(t, pos, Sym::Comma) {
                break;
            }
        }
        InsertSource::Values(rows)
    } else {
        let q = parse_query(t, pos, fuel)?;
        InsertSource::Query(Box::new(q))
    };
    let mut on_conflict: Option<OnConflict> = None;
    if eat_kw(t, pos, "on") {
        expect_kw(t, pos, "conflict")?;
        if is_sym(t, *pos, Sym::LParen) {
            parse_name_list(t, pos)?;
        }
        expect_kw(t, pos, "do")?;
        if eat_kw(t, pos, "nothing") {
            on_conflict = Some(OnConflict { do_nothing: true, assignments: Vec::new() });
        } else {
            expect_kw(t, pos, "update")?;
            expect_kw(t, pos, "set")?;
            let assignments = parse_assignments(t, pos, fuel, Ghost(None))?;
            on_conflict = Some(OnConflict { do_nothing: false, assignments });
        }
    }
    let returning = parse_returning(t, pos, fuel)?;
    Ok(Statement::Insert { table, columns, source, conflict, on_conflict, returning })
}

/// The dotted name that continues at token `j` after `acc`: each `.` and
/// name that follows adds a dot and that name; `None` where a dot is not
/// followed by a name.
pub open spec fn dotted_from(t: Seq<Token>, j: int, acc: Seq<char>) -> Option<Seq<char>>
    decreases t.len() - j,
{
    if 0 <= j < t.len() && sym_at(t, j) == Some(Sym::Dot) {
        match ident_at(t, j + 1) {
            None => None,
            Some(p) => dotted_from(t, j + 2, acc + seq!['.'] + p),
        }
    } else {
        Some(acc)
    }
}

/// Where the dotted continuation from token `j` ends.
pub open spec fn dotted_end(t: Seq<Token>, j: int) -> int
    decreases t.len() - j,
{
    if 0 <= j < t.len() && sym_at(t, j) == Some(Sym::Dot) && ident_at(t, j + 1) is Some {
        dotted_end(t, j + 2)
    } else {
        j
    }
}

fn parse_setting_name(t: &Vec<Token>, pos: &mut usize) -> (r: PResult<Vec<char>>)
    requires *old(pos) <= t.len(),
    ensures *old(pos) <= *final(pos) <= t.len(),
        match ident_at(t@, *old(pos) as int) {
            None => r is Err,
            Some(n) => match dotted_from(t@, *old(pos) + 1, n) {
                None => r is Err,
                Some(full) => r matches Ok(x) && x@ == full && *final(pos) == dotted_end(t@, *old(pos) + 1),
            },
        },
{
    let mut name = parse_ident(t, pos)?;
    let ghost n0 = name@;
    let ghost p1: int = *pos as int;
    while eat_sym(t, pos, Sym::Dot)
        invariant *old(pos) <= *pos <= t.len(), p1 <= *pos, ident_at(t@, *old(pos) as int) == Some(n0),
            p1 == *old(pos) + 1,
            dotted_from(t@, *pos as int, name@) == dotted_from(t@, p1, n0),
            dotted_end(t@, *pos as int) == dotted_end(t@, p1),
        decreases t.len() - *pos,
    {
        let ghost before = name@;
        let ghost j: int = *pos - 1;
        let part = parse_ident(t, pos)?;
        name.push('.');
        let mut k: usize = 0;
        while k < part.len()
            invariant k <= part.len(), name@ == before + seq!['.'] + part@.subrange(0, k as int),
            decreases part.len() - k,
        {
            name.push(part[k]);
            k += 1;
            proof { assert(part@.subrange(0, k as int) == part@.subrange(0, k - 1) + seq![part@[k - 1]]); }
        }
        proof { assert(part@.subrange(0, part.len() as int) == part@); }
    }
    Ok(name)
}

/// Whether the tokens end at `p`: there are no more, or a semicolon stands there.
pub open spec fn ends_at(t: Seq<Token>, p: int) -> bool {
    p == t.len() || sym_at(t, p) == Some(Sym::Semicolon)
}

/// Whether what follows a table in FROM at `p` ends it: the end of the
/// statement, or WHERE.
pub open spec fn table_end(t: Seq<Token>, p: int) -> bool {
    ends_at(t, p) || kw_at(t, p, "where"@)
}

/// WHERE is no alias and no join.
proof fn lemma_where_word()
    ensures "where"@ != "as"@, "where"@ != "join"@, "where"@ != "inner"@, "where"@ != "cross"@, "where"@ != "left"@,
        reserved_word("where"@), lower_seq("where"@) == "where"@,
{
    reveal_strlit("where");
    reveal_strlit("as");
    reveal_strlit("join");
    reveal_strlit("inner");
    reveal_strlit("cross");
    reveal_strlit("left");
    reveal_strlit("select");
    reveal_strlit("from");
    assert(lower_seq("where"@) =~= "where"@);
    assert("where"@[0] != "inner"@[0]);
}

/// Whether `SELECT * FROM name` stands at `p`, followed by the end.
pub open spec fn star_from_at(t: Seq<Token>, p: int) -> bool {
    kw_at(t, p, "select"@) && sym_at(t, p + 1) == Some(Sym::Star) && kw_at(t, p + 2, "from"@)
        && sym_at(t, p + 3) != Some(Sym::LParen) && ident_at(t, p + 3) is Some && ends_at(t, p + 4)
}

/// `SELECT * FROM name` as a select.
pub open spec fn star_select(sel: Select, n: Seq<char>) -> bool {
    &&& !sel.distinct
    &&& sel.items@ == seq![SelectItem::Star]
    &&& sel.from@.len() == 1
    &&& sel.from@[0] matches FromItem::Table { name, alias } && name@ == n && alias is None
    &&& sel.where_clause is None
    &&& sel.group_by@.len() == 0
    &&& sel.having is None
}

/// `SELECT * FROM name` as a query: no ordering or paging.
pub open spec fn star_query(q: Query, n: Seq<char>) -> bool {
    &&& q.body matches SetExpr::Select(sel) && star_select(*sel, n)
    &&& q.order_by@.len() == 0
    &&& q.limit is None
    &&& q.offset is None
}

/// Whether `COUNT(*)` stands at `p`, followed by FROM.
pub open spec fn count_item_at(t: Seq<Token>, p: int) -> bool {
    kw_at(t, p, "count"@) && sym_at(t, p + 1) == Some(Sym::LParen) && sym_at(t, p + 2) == Some(Sym::Star)
        && sym_at(t, p + 3) == Some(Sym::RParen) && kw_at(t, p + 4, "from"@)
}

/// The select item `COUNT(*)` without alias.
pub open spec fn count_item(i: SelectItem) -> bool {
    i matches SelectItem::Item { expr: Expr::Function { name, args, distinct, star }, alias }
        && lower_seq(name@) == "count"@ && args@.len() == 0 && !distinct && star && alias is None
}

/// Whether `SELECT COUNT(*) FROM name` stands at `p`, followed by the end.
pub open spec fn count_from_at(t: Seq<Token>, p: int) -> bool {
    kw_at(t, p, "select"@) && count_item_at(t, p + 1) && sym_at(t, p + 6) != Some(Sym::LParen)
        && ident_at(t, p + 6) is Some && ends_at(t, p + 7)
}

/// `SELECT COUNT(*) FROM name` as a select.
pub open spec fn count_select(sel: Select, n: Seq<char>) -> bool {
    &&& !sel.distinct
    &&& sel.items@.len() == 1 && count_item(sel.items@[0])
    &&& sel.from@.len() == 1
    &&& sel.from@[0] matches FromItem::Table { name, alias } && name@ == n && alias is None
    &&& sel.where_clause is None
    &&& sel.group_by@.len() == 0
    &&& sel.having is None
}

/// `SELECT COUNT(*) FROM name` as a query: no ordering or paging.
pub open spec fn count_query(q: Query, n: Seq<char>) -> bool {
    &&& q.body matches SetExpr::Select(sel) && count_select(*sel, n)
    &&& q.order_by@.len() == 0
    &&& q.limit is None
    &&& q.offset is None
}

/// FROM is a word that ends an expression and is no alias.
proof fn lemma_from_word()
    ensures stop_word("from"@), "from"@ != "as"@, reserved_word("from"@),
{
    reveal_strlit("from");
    reveal_strlit("or");
    reveal_strlit("xor");
    reveal_strlit("and");
    reveal_strlit("is");
    reveal_strlit("isnull");
    reveal_strlit("notnull");
    reveal_strlit("match");
    reveal_strlit("not");
    reveal_strlit("in");
    reveal_strlit("like");
    reveal_strlit("between");
    reveal_strlit("over");
    reveal_strlit("as");
    reveal_strlit("select");
    assert(lower_seq("from"@) =~= "from"@);
    assert("from"@[0] != "match"@[0]);
    assert("from"@[0] != "over"@[0]);
}

/// Whether `SELECT COUNT(*) FROM name WHERE` stands at `p`.
pub open spec fn count_where_at(t: Seq<Token>, p: int) -> bool {
    kw_at(t, p, "select"@) && count_item_at(t, p + 1) && sym_at(t, p + 6) != Some(Sym::LParen)
        && ident_at(t, p + 6) is Some && kw_at(t, p + 7, "where"@)
}

/// Whether the condition `e` is written by tokens `a .. k`, which end the
/// statement, with or without its outer parentheses.
pub open spec fn cond_at(t: Seq<Token>, a: int, k: int, e: Expr) -> bool {
    &&& renderable(e) && 0 <= a < k && ends_at(t, k)
    &&& (render(e).len() == k - a && t.subrange(a, k) == render(e))
        || (e is Binary && render_bare(e).len() == k - a && t.subrange(a, k) == render_bare(e))
}

/// `SELECT COUNT(*) FROM name` with any WHERE clause, as a select.
pub open spec fn count_base(sel: Select, n: Seq<char>) -> bool {
    &&& !sel.distinct
    &&& sel.items@.len() == 1 && count_item(sel.items@[0])
    &&& sel.from@.len() == 1
    &&& sel.from@[0] matches FromItem::Table { name, alias } && name@ == n && alias is None
    &&& sel.group_by@.len() == 0
    &&& sel.having is None
}

/// `SELECT COUNT(*) FROM name WHERE e` as a select.
pub open spec fn count_where_select(sel: Select, n: Seq<char>, e: Expr) -> bool {
    &&& count_base(sel, n)
    &&& sel.where_clause matches Some(x) && same_expr(x, e)
}

/// Where a comma-separated list of plain column names from token `j` on
/// ends; `None` where a token of it is no such name.
pub open spec fn col_list_end(t: Seq<Token>, j: int) -> Option<int>
    decreases t.len() - j,
{
    if 0 <= j < t.len() && (t[j] matches Token::Word(w) && plain_name(w@)) {
        if sym_at(t, j + 1) == Some(Sym::Comma) { col_list_end(t, j + 2) } else { Some(j + 1) }
    } else {
        None
    }
}

/// The names of that list.
pub open spec fn col_list_vals(t: Seq<Token>, j: int) -> Seq<Seq<char>>
    decreases t.len() - j,
{
    if 0 <= j < t.len() && (t[j] matches Token::Word(w) && plain_name(w@)) {
        let n = ident_at(t, j).unwrap();
        if sym_at(t, j + 1) == Some(Sym::Comma) { seq![n] + col_list_vals(t, j + 2) } else { seq![n] }
    } else {
        Seq::empty()
    }
}

/// Select items that are the named columns, in order, without aliases.
pub open spec fn col_items(v: Seq<SelectItem>, names: Seq<Seq<char>>) -> bool {
    v.len() == names.len() && forall|k: int| 0 <= k < v.len() ==>
        (#[trigger] v[k] matches SelectItem::Item { expr: Expr::Column { table: None, name }, alias: None } && name@ == names[k])
}

/// Whether `SELECT` column names `FROM name` stands at `p`.
pub open spec fn cols_from_at(t: Seq<Token>, p: int) -> bool {
    kw_at(t, p, "select"@) && !kw_at(t, p + 1, "distinct"@) && !kw_at(t, p + 1, "all"@)
        && (col_list_end(t, p + 1) matches Some(k) && kw_at(t, k, "from"@)
            && sym_at(t, k + 1) != Some(Sym::LParen) && ident_at(t, k + 1) is Some)
}

/// Where the FROM of a select of column names stands.
pub open spec fn cols_end(t: Seq<Token>, p: int) -> int {
    col_list_end(t, p + 1).unwrap()
}

/// `SELECT` columns `FROM name`, with the given WHERE clause, as a select.
pub open spec fn cols_select(sel: Select, cols: Seq<Seq<char>>, n: Seq<char>, w: Option<Expr>) -> bool {
    &&& !sel.distinct
    &&& col_items(sel.items@, cols)
    &&& sel.from@.len() == 1
    &&& sel.from@[0] matches FromItem::Table { name, alias } && name@ == n && alias is None
    &&& sel.group_by@.len() == 0
    &&& sel.having is None
    &&& match w {
        None => sel.where_clause is None,
        Some(e) => sel.where_clause matches Some(x) && same_expr(x, e),
    }
}

/// `SELECT` columns `FROM name`, with the given WHERE clause, as a query:
/// no ordering or paging.
pub open spec fn cols_query(q: Query, cols: Seq<Seq<char>>, n: Seq<char>, w: Option<Expr>) -> bool {
    &&& q.body matches SetExpr::Select(sel) && cols_select(*sel, cols, n, w)
    &&& q.order_by@.len() == 0
    &&& q.limit is None
    &&& q.offset is None
}

/// Whether `SELECT * FROM name WHERE` stands at `p`.
pub open spec fn star_where_at(t: Seq<Token>, p: int) -> bool {
    kw_at(t, p, "select"@) && sym_at(t, p + 1) == Some(Sym::Star) && kw_at(t, p + 2, "from"@)
        && sym_at(t, p + 3) != Some(Sym::LParen) && ident_at(t, p + 3) is Some && kw_at(t, p + 4, "where"@)
}

/// `SELECT * FROM name WHERE e` as a select.
pub open spec fn star_where_select(sel: Select, n: Seq<char>, e: Expr) -> bool {
    &&& !sel.distinct
    &&& sel.items@ == seq![SelectItem::Star]
    &&& sel.from@.len() == 1
    &&& sel.from@[0] matches FromItem::Table { name, alias } && name@ == n && alias is None
    &&& sel.group_by@.len() == 0
    &&& sel.having is None
    &&& sel.where_clause matches Some(x) && same_expr(x, e)
}

/// `SELECT * FROM name WHERE e` as a query: no ordering or paging.
pub open spec fn star_where_query(q: Query, n: Seq<char>, e: Expr) -> bool {
    &&& q.body matches SetExpr::Select(sel) && star_where_select(*sel, n, e)
    &&& q.order_by@.len() == 0
    &&& q.limit is None
    &&& q.offset is None
}

/// `SELECT COUNT(*) FROM name WHERE e` as a query: no ordering or paging.
pub open spec fn count_where_query(q: Query, n: Seq<char>, e: Expr) -> bool {
    &&& q.body matches SetExpr::Select(sel) && count_where_select(*sel, n, e)
    &&& q.order_by@.len() == 0
    &&& q.limit is None
    &&& q.offset is None
}

/// Whether token value `i` is the keyword `kw` (a word, ignoring case).
pub open spec fn kwv(ts: Seq<TokV>, i: int, kw: Seq<char>) -> bool {
    0 <= i < ts.len() && (ts[i] matches TokV::Word(w) && lower_seq(w) == kw)
}

/// The name token value `i` gives: an unquoted word or a quoted name.
pub open spec fn identv(ts: Seq<TokV>, i: int) -> Option<Seq<char>> {
    if 0 <= i < ts.len() {
        match ts[i] {
            TokV::Word(w) => Some(w),
            TokV::Quoted(w) => Some(w),
            _ => None,
        }
    } else {
        None
    }
}

/// The symbol token value `i` is, if it is one.
pub open spec fn symv(ts: Seq<TokV>, i: int) -> Option<Sym> {
    if 0 <= i < ts.len() {
        match ts[i] {
            TokV::Sym(x) => Some(x),
            _ => None,
        }
    } else {
        None
    }
}

/// What the parser reads of a token depends only on its value.
pub proof fn lemma_tok_views(t: Seq<Token>)
    ensures
        forall|i: int, kw: Seq<char>| #[trigger] kw_at(t, i, kw) == kwv(toks_view(t), i, kw),
        forall|i: int| #[trigger] ident_at(t, i) == identv(toks_view(t), i),
        forall|i: int| #[trigger] sym_at(t, i) == symv(toks_view(t), i),
{
    assert forall|i: int| 0 <= i < t.len() implies #[trigger] toks_view(t)[i] == tok_view(t[i]) by {}
}

/// Tokens an optional word takes at `i`: one where it stands there.
pub open spec fn opt_kw(ts: Seq<TokV>, i: int, kw: Seq<char>) -> int {
    if kwv(ts, i, kw) { 1 } else { 0 }
}

/// How many tokens `IF EXISTS` takes at `i`: none, two, or `None` for a lone IF.
pub open spec fn if_exists_v(ts: Seq<TokV>, i: int) -> Option<int> {
    if kwv(ts, i, "if"@) {
        if kwv(ts, i + 1, "exists"@) { Some(2) } else { None }
    } else {
        Some(0)
    }
}

/// Where `DROP` followed by the tokens from `j` ends: TABLE, INDEX, VIEW or
/// TRIGGER, [IF EXISTS], a name; or POLICY, [IF EXISTS], a name, ON, a name.
pub open spec fn drop_end(ts: Seq<TokV>, j: int) -> Option<int> {
    match if_exists_v(ts, j + 1) {
        None => None,
        Some(k) => if kwv(ts, j, "table"@) || kwv(ts, j, "index"@) || kwv(ts, j, "view"@) || kwv(ts, j, "trigger"@) {
            if identv(ts, j + 1 + k) is Some { Some(j + 2 + k) } else { None }
        } else if kwv(ts, j, "policy"@) {
            if identv(ts, j + 1 + k) is Some && kwv(ts, j + 2 + k, "on"@) && identv(ts, j + 3 + k) is Some {
                Some(j + 4 + k)
            } else {
                None
            }
        } else {
            None
        },
    }
}

/// The statement `DROP` followed by the tokens from `j` gives.
pub open spec fn drop_gives(ts: Seq<TokV>, j: int, st: Statement) -> bool {
    let k = if_exists_v(ts, j + 1).unwrap();
    let n = identv(ts, j + 1 + k);
    if kwv(ts, j, "table"@) {
        st matches Statement::DropTable { name, if_exists } && n == Some(name@) && if_exists == (k == 2)
    } else if kwv(ts, j, "index"@) {
        st matches Statement::DropIndex { name, if_exists } && n == Some(name@) && if_exists == (k == 2)
    } else if kwv(ts, j, "view"@) {
        st matches Statement::DropView { name, if_exists } && n == Some(name@) && if_exists == (k == 2)
    } else if kwv(ts, j, "trigger"@) {
        st matches Statement::DropTrigger { name, if_exists } && n == Some(name@) && if_exists == (k == 2)
    } else {
        st matches Statement::DropPolicy { name, table, if_exists } && n == Some(name@)
            && identv(ts, j + 3 + k) == Some(table@) && if_exists == (k == 2)
    }
}

/// Where `ALTER` followed by the tokens from `j` ends, for every action but
/// ADD COLUMN: TABLE, a name, then DROP [COLUMN] a name, RENAME TO a name,
/// RENAME [COLUMN] a name TO a name, or ENABLE or DISABLE ROW LEVEL SECURITY.
pub open spec fn alter_end(ts: Seq<TokV>, j: int) -> Option<int> {
    let a = j + 2;
    if !kwv(ts, j, "table"@) || identv(ts, j + 1) is None {
        None
    } else if kwv(ts, a, "add"@) {
        None
    } else if kwv(ts, a, "drop"@) {
        let k = a + 1 + opt_kw(ts, a + 1, "column"@);
        if identv(ts, k) is Some { Some(k + 1) } else { None }
    } else if kwv(ts, a, "rename"@) {
        if kwv(ts, a + 1, "to"@) {
            if identv(ts, a + 2) is Some { Some(a + 3) } else { None }
        } else {
            let k = a + 1 + opt_kw(ts, a + 1, "column"@);
            if identv(ts, k) is Some && kwv(ts, k + 1, "to"@) && identv(ts, k + 2) is Some { Some(k + 3) } else { None }
        }
    } else if kwv(ts, a, "enable"@) || kwv(ts, a, "disable"@) {
        if kwv(ts, a + 1, "row"@) && kwv(ts, a + 2, "level"@) && kwv(ts, a + 3, "security"@) { Some(a + 4) } else { None }
    } else {
        None
    }
}

/// The statement `ALTER` followed by the tokens from `j` gives.
pub open spec fn alter_gives(ts: Seq<TokV>, j: int, st: Statement) -> bool {
    let a = j + 2;
    st matches Statement::AlterTable { table, action } && identv(ts, j + 1) == Some(table@) && {
        if kwv(ts, a, "drop"@) {
            action matches AlterAction::DropColumn(c) && identv(ts, a + 1 + opt_kw(ts, a + 1, "column"@)) == Some(c@)
        } else if kwv(ts, a, "rename"@) {
            if kwv(ts, a + 1, "to"@) {
                action matches AlterAction::RenameTo(n) && identv(ts, a + 2) == Some(n@)
            } else {
                let k = a + 1 + opt_kw(ts, a + 1, "column"@);
                action matches AlterAction::RenameColumn { from, to } && identv(ts, k) == Some(from@) && identv(ts, k + 2) == Some(to@)
            }
        } else if kwv(ts, a, "enable"@) {
            action is EnableRowSecurity
        } else {
            action is DisableRowSecurity
        }
    }
}

/// Whether token `i` is a word that starts a statement.
pub open spec fn starts_statement(ts: Seq<TokV>, i: int) -> bool {
    kwv(ts, i, "select"@) || kwv(ts, i, "create"@) || kwv(ts, i, "drop"@) || kwv(ts, i, "alter"@)
        || kwv(ts, i, "insert"@) || kwv(ts, i, "replace"@) || kwv(ts, i, "update"@) || kwv(ts, i, "delete"@)
        || kwv(ts, i, "explain"@) || kwv(ts, i, "begin"@) || kwv(ts, i, "start"@) || kwv(ts, i, "commit"@)
        || kwv(ts, i, "end"@) || kwv(ts, i, "rollback"@) || kwv(ts, i, "savepoint"@) || kwv(ts, i, "release"@)
        || kwv(ts, i, "set"@) || kwv(ts, i, "show"@) || kwv(ts, i, "vacuum"@) || kwv(ts, i, "analyze"@)
        || kwv(ts, i, "grant"@) || kwv(ts, i, "revoke"@)
}

/// Whether token `i` ends the type of a column definition: a constraint
/// keyword, a comma, a closing parenthesis, or the end.
pub open spec fn constraint_start_v(ts: Seq<TokV>, i: int) -> bool {
    kwv(ts, i, "primary"@) || kwv(ts, i, "not"@) || kwv(ts, i, "null"@) || kwv(ts, i, "unique"@)
        || kwv(ts, i, "default"@) || kwv(ts, i, "references"@) || kwv(ts, i, "check"@)
        || kwv(ts, i, "constraint"@) || kwv(ts, i, "collate"@) || kwv(ts, i, "autoincrement"@)
        || symv(ts, i) == Some(Sym::Comma) || symv(ts, i) == Some(Sym::RParen) || i >= ts.len()
}

/// The constraints of a column definition from token `c` on, after the
/// flags read so far (PRIMARY KEY, NOT NULL, UNIQUE): PRIMARY KEY [ASC |
/// DESC], AUTOINCREMENT, NOT NULL, NULL and UNIQUE, up to a comma or a closing
/// parenthesis; the position of that token and the flags. `None` for any
/// other constraint.
pub open spec fn cons_from(ts: Seq<TokV>, c: int, pk: bool, nn: bool, uq: bool) -> Option<(int, bool, bool, bool)>
    decreases ts.len() - c,
{
    if c < 0 || c >= ts.len() {
        None
    } else if kwv(ts, c, "primary"@) {
        if kwv(ts, c + 1, "key"@) {
            cons_from(ts, c + 2 + (if kwv(ts, c + 2, "asc"@) || kwv(ts, c + 2, "desc"@) { 1int } else { 0int }), true, nn, uq)
        } else {
            None
        }
    } else if kwv(ts, c, "autoincrement"@) {
        cons_from(ts, c + 1, pk, nn, uq)
    } else if kwv(ts, c, "not"@) {
        if kwv(ts, c + 1, "null"@) { cons_from(ts, c + 2, pk, true, uq) } else { None }
    } else if kwv(ts, c, "null"@) {
        cons_from(ts, c + 1, pk, nn, uq)
    } else if kwv(ts, c, "unique"@) {
        cons_from(ts, c + 1, pk, nn, true)
    } else if kwv(ts, c, "default"@) || kwv(ts, c, "constraint"@) || kwv(ts, c, "collate"@) || kwv(ts, c, "check"@)
        || kwv(ts, c, "references"@) {
        None
    } else if symv(ts, c) == Some(Sym::Comma) || symv(ts, c) == Some(Sym::RParen) {
        Some((c, pk, nn, uq))
    } else {
        None
    }
}

/// Where the type words of a column definition from token `k` on end: none,
/// or one name not followed by a parenthesis; `None` for longer types.
pub open spec fn type_end(ts: Seq<TokV>, k: int) -> Option<int> {
    if constraint_start_v(ts, k) {
        Some(k)
    } else if identv(ts, k) is Some && symv(ts, k + 1) != Some(Sym::LParen) && constraint_start_v(ts, k + 1) {
        Some(k + 1)
    } else {
        None
    }
}

/// Where the column definition at token `j` ends, for a name, at most one
/// type word and the constraints `cons_from` reads.
pub open spec fn coldef_end(ts: Seq<TokV>, j: int) -> Option<int> {
    if identv(ts, j) is Some {
        match type_end(ts, j + 1) {
            Some(c) => match cons_from(ts, c, false, false, false) {
                Some(x) => Some(x.0),
                None => None,
            },
            None => None,
        }
    } else {
        None
    }
}

/// The column definition at token `j` that `coldef_end` covers.
pub open spec fn coldef_gives(ts: Seq<TokV>, j: int, d: ColumnDef) -> bool {
    let c = type_end(ts, j + 1).unwrap();
    let x = cons_from(ts, c, false, false, false).unwrap();
    &&& identv(ts, j) == Some(d.name@)
    &&& d.declared_type@ == (if c == j + 2 { identv(ts, j + 1).unwrap() } else { Seq::<char>::empty() })
    &&& d.primary_key == x.1
    &&& d.not_null == x.2
    &&& d.unique == x.3
    &&& d.default is None
    &&& d.references is None
}

/// Whether token `j` starts a table-level constraint rather than a column.
pub open spec fn table_constraint_v(ts: Seq<TokV>, j: int) -> bool {
    kwv(ts, j, "primary"@) || kwv(ts, j, "unique"@) || kwv(ts, j, "foreign"@) || kwv(ts, j, "check"@)
        || kwv(ts, j, "constraint"@)
}

/// The column definitions of a comma-separated list from token `j` on, after
/// those starting at the positions in `acc`: the start of each and the
/// position after the last; `None` where one is not a column definition
/// `coldef_end` covers.
pub open spec fn cols_from(ts: Seq<TokV>, j: int, acc: Seq<int>) -> Option<(Seq<int>, int)>
    decreases ts.len() - j,
{
    if j < 0 || table_constraint_v(ts, j) {
        None
    } else {
        match coldef_end(ts, j) {
            Some(e) => if symv(ts, e) == Some(Sym::Comma) {
                if j <= e < ts.len() { cols_from(ts, e + 1, acc.push(j)) } else { None }
            } else {
                Some((acc.push(j), e))
            },
            None => None,
        }
    }
}

/// A list of column definitions has at least one more than it started with.
proof fn lemma_cols_from_grows(ts: Seq<TokV>, j: int, acc: Seq<int>)
    requires cols_from(ts, j, acc) is Some,
    ensures cols_from(ts, j, acc).unwrap().0.len() > acc.len(),
    decreases ts.len() - j,
{
    let e = coldef_end(ts, j).unwrap();
    if symv(ts, e) == Some(Sym::Comma) {
        lemma_cols_from_grows(ts, e + 1, acc.push(j));
    }
}

/// How many tokens `IF NOT EXISTS` takes at `j`: none, three, or `None`.
pub open spec fn if_not_exists_v(ts: Seq<TokV>, j: int) -> Option<int> {
    if kwv(ts, j, "if"@) {
        if kwv(ts, j + 1, "not"@) && kwv(ts, j + 2, "exists"@) { Some(3) } else { None }
    } else {
        Some(0)
    }
}

/// Where `CREATE TABLE` followed by the tokens from `j` ends, for `[IF NOT
/// EXISTS] name (` column definitions `)`.
pub open spec fn create_table_end(ts: Seq<TokV>, j: int) -> Option<int> {
    match if_not_exists_v(ts, j) {
        Some(k) => if identv(ts, j + k) is Some && symv(ts, j + k + 1) == Some(Sym::LParen) {
            match cols_from(ts, j + k + 2, Seq::empty()) {
                Some((starts, e)) => if symv(ts, e) == Some(Sym::RParen) { Some(e + 1) } else { None },
                None => None,
            }
        } else {
            None
        },
        None => None,
    }
}

/// The statement `CREATE TABLE` followed by the tokens from `j` gives.
pub open spec fn create_table_gives(ts: Seq<TokV>, j: int, st: Statement) -> bool {
    let k = if_not_exists_v(ts, j).unwrap();
    let starts = cols_from(ts, j + k + 2, Seq::empty()).unwrap().0;
    st matches Statement::CreateTable { name, if_not_exists, columns, as_query }
        && identv(ts, j + k) == Some(name@) && if_not_exists == (k == 3) && as_query is None
        && columns@.len() == starts.len()
        && forall|c: int| 0 <= c < starts.len() ==> coldef_gives(ts, #[trigger] starts[c], columns@[c])
}

/// The names of a comma-separated list of token values from `j` on, after
/// those in `acc`, with the position after the last name.
pub open spec fn namesv_from(ts: Seq<TokV>, j: int, acc: Seq<Seq<char>>) -> Option<(Seq<Seq<char>>, int)>
    decreases ts.len() - j,
{
    match identv(ts, j) {
        None => None,
        Some(n) => if symv(ts, j + 1) == Some(Sym::Comma) {
            namesv_from(ts, j + 2, acc.push(n))
        } else {
            Some((acc.push(n), j + 1))
        },
    }
}

/// A name list reads the same from tokens and from their values.
proof fn lemma_names_view(t: Seq<Token>, j: int, acc: Seq<Seq<char>>)
    ensures names_from(t, j, acc) == namesv_from(toks_view(t), j, acc),
    decreases t.len() - j,
{
    lemma_tok_views(t);
    if ident_at(t, j) is Some && sym_at(t, j + 1) == Some(Sym::Comma) {
        lemma_names_view(t, j + 2, acc.push(ident_at(t, j).unwrap()));
    }
}

/// Where `CREATE` followed by the tokens from `j` ends, for `[UNIQUE] INDEX
/// [IF NOT EXISTS] name ON table (` names `)`.
pub open spec fn create_index_end(ts: Seq<TokV>, j: int) -> Option<int> {
    let u = opt_kw(ts, j, "unique"@);
    if kwv(ts, j + u, "index"@) {
        match if_not_exists_v(ts, j + u + 1) {
            Some(k) => {
                let a = j + u + 1 + k;
                if identv(ts, a) is Some && kwv(ts, a + 1, "on"@) && identv(ts, a + 2) is Some
                    && symv(ts, a + 3) == Some(Sym::LParen) {
                    match namesv_from(ts, a + 4, Seq::empty()) {
                        Some((ns, e)) => if symv(ts, e) == Some(Sym::RParen) { Some(e + 1) } else { None },
                        None => None,
                    }
                } else {
                    None
                }
            },
            None => None,
        }
    } else {
        None
    }
}

/// The statement `CREATE` followed by the tokens from `j` gives, for
/// `create_index_end`.
pub open spec fn create_index_gives(ts: Seq<TokV>, j: int, st: Statement) -> bool {
    let u = opt_kw(ts, j, "unique"@);
    let k = if_not_exists_v(ts, j + u + 1).unwrap();
    let a = j + u + 1 + k;
    st matches Statement::CreateIndex { name, table, columns, unique, if_not_exists }
        && identv(ts, a) == Some(name@) && identv(ts, a + 2) == Some(table@)
        && crate::vm::query::names_view(columns@) == namesv_from(ts, a + 4, Seq::empty()).unwrap().0
        && unique == (u == 1) && if_not_exists == (k == 3)
}

/// Whether a token is a literal a VALUES list is read from directly: an
/// integer, a string, or NULL.
pub open spec fn lit_tok(v: TokV) -> bool {
    v is Int || v is Str || (v matches TokV::Word(w) && lower_seq(w) == "null"@)
}

/// The expression a literal token reads as.
pub open spec fn lit_expr(e: Expr, v: TokV) -> bool {
    match v {
        TokV::Int(n) => e == Expr::Literal(Value::Integer(n as i64)),
        TokV::Str(s) => e matches Expr::Literal(x) && x@ == ValueV::Text(s),
        _ => e == Expr::Literal(Value::Null),
    }
}

/// Where a comma-separated list of literals from token `j` on ends; `None`
/// where a token of it is no literal.
pub open spec fn lit_list_end(ts: Seq<TokV>, j: int) -> Option<int>
    decreases ts.len() - j,
{
    if 0 <= j < ts.len() && lit_tok(ts[j]) {
        if symv(ts, j + 1) == Some(Sym::Comma) { lit_list_end(ts, j + 2) } else { Some(j + 1) }
    } else {
        None
    }
}

/// The integers of that list.
pub open spec fn lit_list_vals(ts: Seq<TokV>, j: int) -> Seq<TokV>
    decreases ts.len() - j,
{
    if 0 <= j < ts.len() && lit_tok(ts[j]) {
        let v = ts[j];
        if symv(ts, j + 1) == Some(Sym::Comma) { seq![v] + lit_list_vals(ts, j + 2) } else { seq![v] }
    } else {
        Seq::empty()
    }
}

/// The literals of a list, as expressions.
pub open spec fn lit_exprs(es: Seq<Expr>, vs: Seq<TokV>) -> bool {
    es.len() == vs.len() && forall|k: int| 0 <= k < es.len() ==> lit_expr(#[trigger] es[k], vs[k])
}

/// Where `INSERT` followed by the tokens from `j` ends, for `INTO name
/// The rows of literals of a VALUES list from token `j` on, after
/// those in `acc`: `(` integers `)` separated by commas; with the position
/// after the last row.
pub open spec fn lit_rows_from(ts: Seq<TokV>, j: int, acc: Seq<Seq<TokV>>) -> Option<(Seq<Seq<TokV>>, int)>
    decreases ts.len() - j,
{
    if symv(ts, j) == Some(Sym::LParen) {
        match lit_list_end(ts, j + 1) {
            Some(k) => if symv(ts, k) == Some(Sym::RParen) {
                if symv(ts, k + 1) == Some(Sym::Comma) && j < k + 2 {
                    lit_rows_from(ts, k + 2, acc.push(lit_list_vals(ts, j + 1)))
                } else {
                    Some((acc.push(lit_list_vals(ts, j + 1)), k + 1))
                }
            } else {
                None
            },
            None => None,
        }
    } else {
        None
    }
}

/// Where `INSERT` followed by the tokens from `j` ends, for `INTO name
/// VALUES` rows of literals, followed by the end.
pub open spec fn insert_end(ts: Seq<TokV>, j: int) -> Option<int> {
    if kwv(ts, j, "into"@) && identv(ts, j + 1) is Some && kwv(ts, j + 2, "values"@) {
        match lit_rows_from(ts, j + 3, Seq::empty()) {
            Some((rs, e)) => if e == ts.len() || symv(ts, e) == Some(Sym::Semicolon) { Some(e) } else { None },
            None => None,
        }
    } else {
        None
    }
}

/// The statement `INSERT` followed by the tokens from `j` gives: those rows
/// of literals into the named table, with no column list, conflict
/// clause or RETURNING.
pub open spec fn insert_gives(ts: Seq<TokV>, j: int, st: Statement) -> bool {
    st matches Statement::Insert { table, columns, source, conflict, on_conflict, returning }
        && identv(ts, j + 1) == Some(table@) && columns is None && conflict == ConflictMode::Abort
        && on_conflict is None && returning is None
        && (source matches InsertSource::Values(rows) && rows@.len() == lit_rows_from(ts, j + 3, Seq::empty()).unwrap().0.len()
            && forall|x: int| 0 <= x < rows@.len() ==> lit_exprs(#[trigger] rows@[x]@, lit_rows_from(ts, j + 3, Seq::empty()).unwrap().0[x]))
}

/// Where a comma-separated list of plain column names from token value `j`
/// on ends; `None` where a token of it is no such name.
pub open spec fn colv_list_end(ts: Seq<TokV>, j: int) -> Option<int>
    decreases ts.len() - j,
{
    if 0 <= j < ts.len() && (ts[j] matches TokV::Word(w) && plain_name(w)) {
        if symv(ts, j + 1) == Some(Sym::Comma) { colv_list_end(ts, j + 2) } else { Some(j + 1) }
    } else {
        None
    }
}

/// The names of that list.
pub open spec fn colv_list_vals(ts: Seq<TokV>, j: int) -> Seq<Seq<char>>
    decreases ts.len() - j,
{
    if 0 <= j < ts.len() && (ts[j] matches TokV::Word(w) && plain_name(w)) {
        let n = identv(ts, j).unwrap();
        if symv(ts, j + 1) == Some(Sym::Comma) { seq![n] + colv_list_vals(ts, j + 2) } else { seq![n] }
    } else {
        Seq::empty()
    }
}

/// Where the FROM after the column names of `SELECT` at `i` stands.
pub open spec fn colsv_end(ts: Seq<TokV>, i: int) -> int {
    colv_list_end(ts, i + 1).unwrap()
}

/// Whether `SELECT` column names `FROM name` stands at `i`.
pub open spec fn colsv_from(ts: Seq<TokV>, i: int) -> bool {
    !kwv(ts, i + 1, "distinct"@) && !kwv(ts, i + 1, "all"@) && colv_list_end(ts, i + 1) is Some
        && kwv(ts, colsv_end(ts, i), "from"@) && symv(ts, colsv_end(ts, i) + 1) != Some(Sym::LParen)
        && identv(ts, colsv_end(ts, i) + 1) is Some
}

/// The column lists of tokens and of their values agree.
proof fn lemma_cols_view(t: Seq<Token>, j: int)
    ensures col_list_end(t, j) == colv_list_end(toks_view(t), j), col_list_vals(t, j) == colv_list_vals(toks_view(t), j),
    decreases t.len() - j,
{
    lemma_tok_views(t);
    if 0 <= j < t.len() {
        assert(toks_view(t)[j] == tok_view(t[j]));
    }
    if 0 <= j < t.len() && (t[j] matches Token::Word(w) && plain_name(w@)) && sym_at(t, j + 1) == Some(Sym::Comma) {
        lemma_cols_view(t, j + 2);
    }
}

/// The first WHERE from token value `j` on, or the end.
pub open spec fn next_where(ts: Seq<TokV>, j: int) -> int
    decreases ts.len() - j,
{
    if j < 0 || j >= ts.len() {
        ts.len() as int
    } else if kwv(ts, j, "where"@) {
        j
    } else {
        next_where(ts, j + 1)
    }
}

/// Where the first WHERE from `j` on stands.
proof fn lemma_next_where(ts: Seq<TokV>, j: int)
    requires 0 <= j,
    ensures next_where(ts, j) <= ts.len(), j <= ts.len() ==> j <= next_where(ts, j),
        next_where(ts, j) < ts.len() ==> kwv(ts, next_where(ts, j), "where"@),
    decreases ts.len() - j,
{
    if j < ts.len() && !kwv(ts, j, "where"@) {
        lemma_next_where(ts, j + 1);
    }
}

/// Where the value of the assignment of `UPDATE` followed by the tokens from
/// `j` ends: at its WHERE, or at the end of the statement.
pub open spec fn update_value_end(ts: Seq<TokV>, j: int) -> int {
    if next_where(ts, j + 4) < stmt_last(ts) { next_where(ts, j + 4) } else { stmt_last(ts) }
}

/// Where `UPDATE` followed by the tokens from `j` ends, for `name SET column
/// = value [WHERE condition]`, value and condition of the rendered kind.
pub open spec fn update_end(ts: Seq<TokV>, j: int) -> Option<int> {
    let w = next_where(ts, j + 4);
    let v = update_value_end(ts, j);
    if identv(ts, j) is Some && kwv(ts, j + 1, "set"@) && identv(ts, j + 2) is Some && symv(ts, j + 3) == Some(Sym::Eq)
        && j + 4 < v && cond_renders(ts, j + 4, v) && (w < stmt_last(ts) ==> w + 1 < stmt_last(ts) && cond_renders(ts, w + 1, stmt_last(ts))) {
        Some(stmt_last(ts))
    } else {
        None
    }
}

/// The statement `UPDATE` followed by the tokens from `j` gives: the one
/// assignment of that value to the column, under that condition, with no
/// RETURNING.
pub open spec fn update_gives(ts: Seq<TokV>, j: int, st: Statement) -> bool {
    let w = next_where(ts, j + 4);
    st matches Statement::Update { table, assignments, where_clause, returning }
        && identv(ts, j) == Some(table@) && returning is None
        && assignments@.len() == 1 && Some(assignments@[0].0@) == identv(ts, j + 2)
        && where_gives(ts, j + 4, update_value_end(ts, j), assignments@[0].1)
        && (if w < stmt_last(ts) {
            where_clause matches Some(x) && where_gives(ts, w + 1, stmt_last(ts), x)
        } else {
            where_clause is None
        })
}

/// WHERE ends an expression.
proof fn lemma_where_stops()
    ensures stop_word("where"@),
{
    reveal_strlit("where");
    reveal_strlit("or");
    reveal_strlit("xor");
    reveal_strlit("and");
    reveal_strlit("is");
    reveal_strlit("isnull");
    reveal_strlit("notnull");
    reveal_strlit("match");
    reveal_strlit("not");
    reveal_strlit("in");
    reveal_strlit("like");
    reveal_strlit("between");
    reveal_strlit("over");
    assert(lower_seq("where"@) =~= "where"@);
    assert("where"@[0] != "or"@[0]);
    assert("where"@[0] != "over"@[0]);
}

/// Where the statement's own tokens end: before a final semicolon.
pub open spec fn stmt_last(ts: Seq<TokV>) -> int {
    if ts.len() > 0 && symv(ts, ts.len() - 1) == Some(Sym::Semicolon) { ts.len() - 1 } else { ts.len() as int }
}

/// Whether tokens `a .. b` are the rendering of an expression of the
/// rendered kind nested less deeply than the parser's budget.
pub open spec fn renders(ts: Seq<TokV>, a: int, b: int) -> bool {
    exists|e: Expr| #[trigger] renderable(e) && render(e).len() == b - a && toks_view(render(e)) == ts.subrange(a, b)
        && depth(e) < MAX_DEPTH
}

/// Whether `w` is the expression that tokens `a .. b` write, with or
/// without its outer parentheses.
pub open spec fn where_gives(ts: Seq<TokV>, a: int, b: int, w: Expr) -> bool {
    &&& forall|e: Expr| #[trigger] renderable(e) && render(e).len() == b - a && toks_view(render(e)) == ts.subrange(a, b)
        ==> same_expr(w, e)
    &&& forall|e: Expr| #[trigger] renders_bare_as(ts, a, b, e) ==> same_expr(w, e)
}

/// Whether tokens `a .. b` write the operator application `e` without its
/// outer parentheses.
pub open spec fn renders_bare_as(ts: Seq<TokV>, a: int, b: int, e: Expr) -> bool {
    e is Binary && renderable(e) && render_bare(e).len() == b - a && toks_view(render_bare(e)) == ts.subrange(a, b)
}

/// Whether tokens `a .. b` are a condition of the rendered kind, written with
/// or without outer parentheses, nested less deeply than the parser's budget.
pub open spec fn cond_renders(ts: Seq<TokV>, a: int, b: int) -> bool {
    renders(ts, a, b) || exists|e: Expr| #[trigger] renders_bare_as(ts, a, b, e) && depth(e) < MAX_DEPTH
}

/// A condition the tokens `p .. k` write is, rebound to the tokens, one the
/// expression parser reads exactly, and any parse of it is what
/// `where_gives` states.
proof fn lemma_cond_text(t: Seq<Token>, p: int, k: int, fuel: int) -> (r: (Expr, bool))
    requires 0 <= p < k <= t.len(), cond_renders(toks_view(t), p, k), stop_at(t, k, 1), fuel >= MAX_DEPTH,
    ensures
        !r.1 ==> paren_at(t, p, r.0, fuel) && p + render(r.0).len() == k,
        r.1 ==> bare_at(t, p, r.0, fuel) && p + render_bare(r.0).len() == k,
        depth(r.0) < MAX_DEPTH,
        forall|x: Expr| #[trigger] same_expr(x, r.0) ==> where_gives(toks_view(t), p, k, x),
{
    let ts = toks_view(t);
    assert(toks_view(t.subrange(p, k)) =~= ts.subrange(p, k));
    let r: (Expr, bool) = if renders(ts, p, k) {
        let e0 = choose|e: Expr| #[trigger] renderable(e) && render(e).len() == k - p && toks_view(render(e)) == ts.subrange(p, k)
            && depth(e) < MAX_DEPTH;
        lemma_rebind(e0, t, p);
        (rebind(e0, t, p), false)
    } else {
        let e0 = choose|e: Expr| #[trigger] renders_bare_as(ts, p, k, e) && depth(e) < MAX_DEPTH;
        lemma_rebind_bare(e0, t, p);
        (rebind(e0, t, p - 1), true)
    };
    assert forall|x: Expr| #[trigger] same_expr(x, r.0) implies where_gives(ts, p, k, x) by {
        assert forall|e: Expr| #[trigger] renderable(e) && render(e).len() == k - p && toks_view(render(e)) == ts.subrange(p, k)
            implies same_expr(x, e) by {
            lemma_rebind(e, t, p);
            let b = rebind(e, t, p);
            if r.1 {
                lemma_paren_not_bare(t, p, b, r.0);
            } else {
                lemma_render_unique(t, p, b, r.0);
                lemma_sim_same(x, b, r.0);
            }
        }
        assert forall|e: Expr| #[trigger] renders_bare_as(ts, p, k, e) implies same_expr(x, e) by {
            lemma_rebind_bare(e, t, p);
            let b = rebind(e, t, p - 1);
            if r.1 {
                lemma_bare_unique(t, p, b, r.0);
                lemma_sim_same(x, b, r.0);
            } else {
                lemma_paren_not_bare(t, p, r.0, b);
            }
        }
    }
    r
}

/// Where the statement that starts at token `i` ends, for the statements
/// whose whole text this crate states: `CREATE TABLE` with simple column
/// definitions, `CREATE [UNIQUE] INDEX`, `SELECT *`, `SELECT COUNT(*)` or
/// `SELECT` column names, `FROM name [WHERE condition]`, `DELETE FROM name
/// [WHERE condition]`, `UPDATE name SET column = value [WHERE condition]`
/// (a condition or value written as `render` writes it, or an operator
/// application of such operands without its outer parentheses), `INSERT
/// INTO name VALUES` rows of literals, transaction control, DROP, ALTER
/// TABLE but ADD COLUMN, SHOW and VACUUM; `None` for any other.
pub open spec fn stmt_end(ts: Seq<TokV>, i: int) -> Option<int> {
    if kwv(ts, i, "select"@) {
        if symv(ts, i + 1) == Some(Sym::Star) && kwv(ts, i + 2, "from"@) && symv(ts, i + 3) != Some(Sym::LParen)
            && identv(ts, i + 3) is Some && (i + 4 == ts.len() || symv(ts, i + 4) == Some(Sym::Semicolon)) {
            Some(i + 4)
        } else if symv(ts, i + 1) == Some(Sym::Star) && kwv(ts, i + 2, "from"@) && symv(ts, i + 3) != Some(Sym::LParen)
            && identv(ts, i + 3) is Some && kwv(ts, i + 4, "where"@) && i + 5 < stmt_last(ts) && cond_renders(ts, i + 5, stmt_last(ts)) {
            Some(stmt_last(ts))
        } else if kwv(ts, i + 1, "count"@) && symv(ts, i + 2) == Some(Sym::LParen) && symv(ts, i + 3) == Some(Sym::Star)
            && symv(ts, i + 4) == Some(Sym::RParen) && kwv(ts, i + 5, "from"@) && symv(ts, i + 6) != Some(Sym::LParen)
            && identv(ts, i + 6) is Some && (i + 7 == ts.len() || symv(ts, i + 7) == Some(Sym::Semicolon)) {
            Some(i + 7)
        } else if kwv(ts, i + 1, "count"@) && symv(ts, i + 2) == Some(Sym::LParen) && symv(ts, i + 3) == Some(Sym::Star)
            && symv(ts, i + 4) == Some(Sym::RParen) && kwv(ts, i + 5, "from"@) && symv(ts, i + 6) != Some(Sym::LParen)
            && identv(ts, i + 6) is Some && kwv(ts, i + 7, "where"@) && i + 8 < stmt_last(ts) && cond_renders(ts, i + 8, stmt_last(ts)) {
            Some(stmt_last(ts))
        } else if colsv_from(ts, i) && (colsv_end(ts, i) + 2 == ts.len() || symv(ts, colsv_end(ts, i) + 2) == Some(Sym::Semicolon)) {
            Some(colsv_end(ts, i) + 2)
        } else if colsv_from(ts, i) && kwv(ts, colsv_end(ts, i) + 2, "where"@) && colsv_end(ts, i) + 3 < stmt_last(ts)
            && cond_renders(ts, colsv_end(ts, i) + 3, stmt_last(ts)) {
            Some(stmt_last(ts))
        } else {
            None
        }
    } else if kwv(ts, i, "create"@) {
        if kwv(ts, i + 1, "table"@) { create_table_end(ts, i + 2) } else { create_index_end(ts, i + 1) }
    } else if kwv(ts, i, "drop"@) {
        drop_end(ts, i + 1)
    } else if kwv(ts, i, "alter"@) {
        alter_end(ts, i + 1)
    } else if kwv(ts, i, "insert"@) {
        insert_end(ts, i + 1)
    } else if kwv(ts, i, "replace"@) {
        None
    } else if kwv(ts, i, "update"@) {
        update_end(ts, i + 1)
    } else if kwv(ts, i, "delete"@) {
        if kwv(ts, i + 1, "from"@) && identv(ts, i + 2) is Some && !kwv(ts, i + 3, "where"@) && !kwv(ts, i + 3, "returning"@) {
            Some(i + 3)
        } else if kwv(ts, i + 1, "from"@) && identv(ts, i + 2) is Some && kwv(ts, i + 3, "where"@)
            && i + 4 < stmt_last(ts) && cond_renders(ts, i + 4, stmt_last(ts)) {
            Some(stmt_last(ts))
        } else {
            None
        }
    } else if kwv(ts, i, "explain"@) {
        None
    } else if kwv(ts, i, "begin"@) || kwv(ts, i, "start"@) {
        Some(i + 1 + (if kwv(ts, i + 1, "transaction"@) || kwv(ts, i + 1, "work"@) { 1int } else { 0int }))
    } else if kwv(ts, i, "commit"@) || kwv(ts, i, "end"@) {
        Some(i + 1 + opt_kw(ts, i + 1, "transaction"@))
    } else if kwv(ts, i, "rollback"@) {
        let j = i + 1 + opt_kw(ts, i + 1, "transaction"@);
        if kwv(ts, j, "to"@) {
            let k = j + 1 + opt_kw(ts, j + 1, "savepoint"@);
            if identv(ts, k) is Some { Some(k + 1) } else { None }
        } else {
            Some(j)
        }
    } else if kwv(ts, i, "savepoint"@) {
        if identv(ts, i + 1) is Some { Some(i + 2) } else { None }
    } else if kwv(ts, i, "release"@) {
        let k = i + 1 + opt_kw(ts, i + 1, "savepoint"@);
        if identv(ts, k) is Some { Some(k + 1) } else { None }
    } else if kwv(ts, i, "set"@) {
        None
    } else if kwv(ts, i, "show"@) {
        if kwv(ts, i + 1, "tables"@) {
            Some(i + 2)
        } else if kwv(ts, i + 1, "engine"@) && kwv(ts, i + 2, "status"@) {
            Some(i + 3)
        } else {
            None
        }
    } else if kwv(ts, i, "vacuum"@) {
        Some(i + 1)
    } else {
        None
    }
}

/// The statement that starts at token `i`, for those `stmt_end` covers.
pub open spec fn stmt_gives(ts: Seq<TokV>, i: int, st: Statement) -> bool {
    if kwv(ts, i, "select"@) {
        if symv(ts, i + 1) == Some(Sym::Star) && kwv(ts, i + 4, "where"@) {
            st matches Statement::Query(q) && q.order_by@.len() == 0 && q.limit is None && q.offset is None
                && (q.body matches SetExpr::Select(sel) && !sel.distinct && sel.items@ == seq![SelectItem::Star]
                    && sel.from@.len() == 1
                    && (sel.from@[0] matches FromItem::Table { name, alias } && Some(name@) == identv(ts, i + 3) && alias is None)
                    && sel.group_by@.len() == 0 && sel.having is None
                    && (sel.where_clause matches Some(x) && where_gives(ts, i + 5, stmt_last(ts), x)))
        } else if symv(ts, i + 1) == Some(Sym::Star) {
            st matches Statement::Query(q) && star_query(*q, identv(ts, i + 3).unwrap())
        } else if !kwv(ts, i + 1, "count"@) {
            let c = colsv_end(ts, i);
            st matches Statement::Query(q) && q.order_by@.len() == 0 && q.limit is None && q.offset is None
                && (q.body matches SetExpr::Select(sel) && !sel.distinct && col_items(sel.items@, colv_list_vals(ts, i + 1))
                    && sel.from@.len() == 1
                    && (sel.from@[0] matches FromItem::Table { name, alias } && Some(name@) == identv(ts, c + 1) && alias is None)
                    && sel.group_by@.len() == 0 && sel.having is None
                    && (if kwv(ts, c + 2, "where"@) {
                        sel.where_clause matches Some(x) && where_gives(ts, c + 3, stmt_last(ts), x)
                    } else {
                        sel.where_clause is None
                    }))
        } else if kwv(ts, i + 7, "where"@) {
            st matches Statement::Query(q) && q.order_by@.len() == 0 && q.limit is None && q.offset is None
                && (q.body matches SetExpr::Select(sel) && count_base(*sel, identv(ts, i + 6).unwrap())
                    && (sel.where_clause matches Some(x) && where_gives(ts, i + 8, stmt_last(ts), x)))
        } else {
            st matches Statement::Query(q) && count_query(*q, identv(ts, i + 6).unwrap())
        }
    } else if kwv(ts, i, "create"@) {
        if kwv(ts, i + 1, "table"@) { create_table_gives(ts, i + 2, st) } else { create_index_gives(ts, i + 1, st) }
    } else if kwv(ts, i, "drop"@) {
        drop_gives(ts, i + 1, st)
    } else if kwv(ts, i, "alter"@) {
        alter_gives(ts, i + 1, st)
    } else if kwv(ts, i, "insert"@) {
        insert_gives(ts, i + 1, st)
    } else if kwv(ts, i, "update"@) {
        update_gives(ts, i + 1, st)
    } else if kwv(ts, i, "delete"@) {
        st matches Statement::Delete { table, where_clause, returning } && identv(ts, i + 2) == Some(table@)
            && returning is None
            && (if kwv(ts, i + 3, "where"@) {
                where_clause matches Some(w) && where_gives(ts, i + 4, stmt_last(ts), w)
            } else {
                where_clause is None
            })
    } else if kwv(ts, i, "begin"@) || kwv(ts, i, "start"@) {
        st is Begin
    } else if kwv(ts, i, "commit"@) || kwv(ts, i, "end"@) {
        st is Commit
    } else if kwv(ts, i, "rollback"@) {
        let j = i + 1 + opt_kw(ts, i + 1, "transaction"@);
        if kwv(ts, j, "to"@) {
            st matches Statement::RollbackTo(n) && identv(ts, j + 1 + opt_kw(ts, j + 1, "savepoint"@)) == Some(n@)
        } else {
            st is Rollback
        }
    } else if kwv(ts, i, "savepoint"@) {
        st matches Statement::Savepoint(n) && identv(ts, i + 1) == Some(n@)
    } else if kwv(ts, i, "release"@) {
        st matches Statement::Release(n) && identv(ts, i + 1 + opt_kw(ts, i + 1, "savepoint"@)) == Some(n@)
    } else if kwv(ts, i, "show"@) {
        if kwv(ts, i + 1, "tables"@) { st is ShowTables } else { st is ShowEngineStatus }
    } else {
        st is Vacuum
    }
}

/// Whether the tokens are one statement that `stmt_end` covers, followed by
/// nothing or by a semicolon.
pub open spec fn whole_statement(ts: Seq<TokV>) -> bool {
    stmt_end(ts, 0) matches Some(e) && (e == ts.len() || (e + 1 == ts.len() && symv(ts, e) == Some(Sym::Semicolon)))
}

/// What `CREATE TABLE` followed by the tokens from `i` gives, by its head:
/// the name after an optional IF NOT EXISTS, a query exactly when AS
/// follows, and otherwise at least one column.
pub open spec fn create_table_head(t: Seq<Token>, i: int, st: Statement) -> bool {
    let k = if kw_at(t, i, "if"@) { 3int } else { 0int };
    st matches Statement::CreateTable { name, if_not_exists, columns, as_query }
        && if_not_exists == kw_at(t, i, "if"@) && ident_at(t, i + k) == Some(name@)
        && (as_query is Some <==> kw_at(t, i + k + 1, "as"@))
        && (as_query is None ==> columns@.len() > 0)
}

/// What `INSERT` followed by the tokens from `i` gives, by its head: the
/// table named after INTO and the conflict mode an OR clause names.
pub open spec fn insert_head(t: Seq<Token>, i: int, st: Statement) -> bool {
    let m = if kw_at(t, i, "or"@) { 2int } else { 0int };
    st matches Statement::Insert { table, conflict, .. }
        && ident_at(t, i + m + 1) == Some(table@)
        && conflict == (if !kw_at(t, i, "or"@) { ConflictMode::Abort } else if kw_at(t, i + 1, "ignore"@) {
            ConflictMode::Ignore } else if kw_at(t, i + 1, "replace"@) { ConflictMode::Replace } else { ConflictMode::Abort })
}

/// What the statement that starts at token `i` is, by its first keyword: the
/// kind of statement it gives, and for transaction control, SHOW and VACUUM
/// the whole statement; an error where no statement starts with that word.
pub open spec fn statement_at(t: Seq<Token>, i: int, r: PResult<Statement>) -> bool {
    if kw_at(t, i, "select"@) {
        r matches Ok(st) ==> st is Query
    } else if kw_at(t, i, "create"@) {
        &&& r matches Ok(st) ==> (st is CreateTable || st is CreateIndex || st is CreateView || st is CreateTrigger || st is CreatePolicy)
        &&& kw_at(t, i + 1, "table"@) ==> (r matches Ok(st) ==> create_table_head(t, i + 2, st))
    } else if kw_at(t, i, "drop"@) {
        r matches Ok(st) ==> (st is DropTable || st is DropIndex || st is DropView || st is DropTrigger || st is DropPolicy)
    } else if kw_at(t, i, "alter"@) {
        r matches Ok(st) ==> st is AlterTable
    } else if kw_at(t, i, "insert"@) {
        r matches Ok(st) ==> insert_head(t, i + 1, st)
    } else if kw_at(t, i, "replace"@) {
        r matches Ok(st) ==> (st matches Statement::Insert { table, conflict, .. } && conflict == ConflictMode::Replace
            && ident_at(t, i + 1 + (if kw_at(t, i + 1, "or"@) { 2int } else { 0int }) + 1) == Some(table@))
    } else if kw_at(t, i, "update"@) {
        r matches Ok(st) ==> (st matches Statement::Update { table, .. } && ident_at(t, i + 1) == Some(table@))
    } else if kw_at(t, i, "delete"@) {
        r matches Ok(st) ==> (st matches Statement::Delete { table, .. } && ident_at(t, i + 2) == Some(table@))
    } else if kw_at(t, i, "explain"@) {
        r matches Ok(st) ==> st is Explain
    } else if kw_at(t, i, "begin"@) || kw_at(t, i, "start"@) {
        r matches Ok(Statement::Begin)
    } else if kw_at(t, i, "commit"@) || kw_at(t, i, "end"@) {
        r matches Ok(Statement::Commit)
    } else if kw_at(t, i, "rollback"@) {
        let j = i + 1 + (if kw_at(t, i + 1, "transaction"@) { 1int } else { 0int });
        if kw_at(t, j, "to"@) {
            let k = j + 1 + (if kw_at(t, j + 1, "savepoint"@) { 1int } else { 0int });
            match ident_at(t, k) {
                Some(n) => r matches Ok(Statement::RollbackTo(x)) && x@ == n,
                None => r is Err,
            }
        } else {
            r matches Ok(Statement::Rollback)
        }
    } else if kw_at(t, i, "savepoint"@) {
        match ident_at(t, i + 1) {
            Some(n) => r matches Ok(Statement::Savepoint(x)) && x@ == n,
            None => r is Err,
        }
    } else if kw_at(t, i, "release"@) {
        let k = i + 1 + (if kw_at(t, i + 1, "savepoint"@) { 1int } else { 0int });
        match ident_at(t, k) {
            Some(n) => r matches Ok(Statement::Release(x)) && x@ == n,
            None => r is Err,
        }
    } else if kw_at(t, i, "set"@) {
        r matches Ok(st) ==> st is SetVariable
    } else if kw_at(t, i, "show"@) {
        if kw_at(t, i + 1, "tables"@) {
            r matches Ok(Statement::ShowTables)
        } else if kw_at(t, i + 1, "engine"@) && kw_at(t, i + 2, "status"@) {
            r matches Ok(Statement::ShowEngineStatus)
        } else {
            r is Err
        }
    } else if kw_at(t, i, "vacuum"@) {
        r matches Ok(Statement::Vacuum)
    } else if kw_at(t, i, "analyze"@) {
        r matches Ok(st) ==> st is Analyze
    } else if kw_at(t, i, "grant"@) || kw_at(t, i, "revoke"@) {
        r matches Ok(st) ==> st is Grant
    } else {
        r is Err
    }
}

/// One statement.
#[verifier::rlimit(100)]
pub fn parse_statement(t: &Vec<Token>, pos: &mut usize, fuel: u32) -> (r: PResult<Statement>)
    requires *old(pos) <= t.len(),
    ensures *old(pos) <= *final(pos) <= t.len(),
        statement_at(t@, *old(pos) as int, r),
        fuel >= MAX_DEPTH ==> (stmt_end(toks_view(t@), *old(pos) as int) matches Some(e) ==> (r matches Ok(st) && stmt_gives(toks_view(t@), *old(pos) as int, st) && *final(pos) == e)),
    decreases fuel, 80int,
{
    proof { lemma_tok_views(t@); }
    if is_kw(t, *pos, "select") {
        let ghost ts = toks_view(t@);
        let ghost p0 = *pos as int;
        let ghost k = stmt_last(ts);
        let ghost cw = fuel >= MAX_DEPTH && count_where_at(t@, p0) && p0 + 8 < k && cond_renders(ts, p0 + 8, k);
        let ghost sw = fuel >= MAX_DEPTH && star_where_at(t@, p0) && p0 + 5 < k && cond_renders(ts, p0 + 5, k);
        let ghost ce = cols_end(t@, p0);
        let ghost cwh = fuel >= MAX_DEPTH && cols_from_at(t@, p0) && kw_at(t@, ce + 2, "where"@) && ce + 3 < k && cond_renders(ts, ce + 3, k);
        let ghost mut e1 = (Expr::Literal(Value::Integer(0)), false);
        proof {
            lemma_cols_view(t@, p0 + 1);
            if cwh {
                assert(stop_at(t@, k, 1));
                e1 = lemma_cond_text(t@, ce + 3, k, fuel as int);
                assert(cond_at(t@, ce + 3, k, e1.0));
            }
            if cw {
                assert(stop_at(t@, k, 1));
                e1 = lemma_cond_text(t@, p0 + 8, k, fuel as int);
                assert(cond_at(t@, p0 + 8, k, e1.0));
            }
            if sw {
                assert(stop_at(t@, k, 1));
                e1 = lemma_cond_text(t@, p0 + 5, k, fuel as int);
                assert(cond_at(t@, p0 + 5, k, e1.0));
            }
        }
        let q = parse_query(t, pos, fuel)?;
        proof {
            if cw || sw || cwh {
                let x = q.body->Select_0.where_clause.unwrap();
                assert(same_expr(x, e1.0));
            }
        }
        return Ok(Statement::Query(Box::new(q)));
    }
    if eat_kw(t, pos, "create") {
        return parse_create(t, pos, fuel);
    }
    if eat_kw(t, pos, "drop") {
        return parse_drop(t, pos);
    }
    if eat_kw(t, pos, "alter") {
        return parse_alter(t, pos, fuel);
    }
    if eat_kw(t, pos, "insert") {
        return parse_insert(t, pos, fuel);
    }
    if eat_kw(t, pos, "replace") {
        let st = parse_insert(t, pos, fuel)?;
        return match st {
            Statement::Insert { table, columns, source, on_conflict, returning, .. } =>
                Ok(Statement::Insert { table, columns, source, conflict: ConflictMode::Replace, on_conflict, returning }),
            other => Ok(other),
        };
    }
    if eat_kw(t, pos, "update") {
        let ghost ts = toks_view(t@);
        let ghost j = *pos as int;
        let ghost k = stmt_last(ts);
        let ghost w = next_where(ts, j + 4);
        let ghost v = update_value_end(ts, j);
        let ghost ug = fuel >= MAX_DEPTH && update_end(ts, j) is Some;
        let ghost mut hv = (Expr::Literal(Value::Integer(0)), false);
        let ghost mut hw = (Expr::Literal(Value::Integer(0)), false);
        proof {
            lemma_tok_views(t@);
            lemma_next_where(ts, j + 4);
            lemma_where_stops();
            if ug {
                assert(stop_at(t@, v, 1));
                hv = lemma_cond_text(t@, j + 4, v, fuel as int);
                if hv.1 {
                    lemma_op_sym(bin_parts(hv.0).0, bin_parts(hv.0).0);
                }
                assert(hint_holds(t@, j + 4, Some(hv), 1, fuel as int));
                if w < k {
                    assert(stop_at(t@, k, 1));
                    hw = lemma_cond_text(t@, w + 1, k, fuel as int);
                }
            }
        }
        let table = parse_ident(t, pos)?;
        expect_kw(t, pos, "set")?;
        let assignments = parse_assignments(t, pos, fuel, Ghost(Some(hv)))?;
        let where_clause = if eat_kw(t, pos, "where") { Some(parse_expr(t, pos, fuel)?) } else { None };
        proof {
            if ug && w < k {
                let x = where_clause.unwrap();
                if hw.1 {
                    assert(bare_at(t@, w + 1, hw.0, fuel as int));
                } else {
                    assert(renderable(hw.0));
                }
                assert(same_expr(x, hw.0));
            }
        }
        let returning = parse_returning(t, pos, fuel)?;
        return Ok(Statement::Update { table, assignments, where_clause, returning });
    }
    if eat_kw(t, pos, "delete") {
        expect_kw(t, pos, "from")?;
        let table = parse_ident(t, pos)?;
        let ghost ts = toks_view(t@);
        let ghost p = *pos as int + 1;
        let ghost k = stmt_last(ts);
        let ghost wgood = fuel >= MAX_DEPTH && kwv(ts, p - 1, "where"@) && p < k && cond_renders(ts, p, k);
        let ghost mut e1 = (Expr::Literal(Value::Integer(0)), false);
        proof {
            if wgood {
                lemma_tok_views(t@);
                assert(stop_at(t@, k, 1));
                e1 = lemma_cond_text(t@, p, k, fuel as int);
            }
        }
        let where_clause = if eat_kw(t, pos, "where") { Some(parse_expr(t, pos, fuel)?) } else { None };
        proof {
            if wgood {
                let x = where_clause.unwrap();
                if e1.1 {
                    assert(bare_at(t@, p, e1.0, fuel as int));
                } else {
                    assert(renderable(e1.0));
                }
                assert(same_expr(x, e1.0));
            }
        }
        let returning = parse_returning(t, pos, fuel)?;
        return Ok(Statement::Delete { table, where_clause, returning });
    }
    if eat_kw(t, pos, "explain") {
        let analyze = eat_kw(t, pos, "analyze");
        if eat_kw(t, pos, "format") {
            parse_ident(t, pos)?;
        }
        if fuel == 0 {
            return fail("statement nested too deeply");
        }
        let st = parse_statement(t, pos, fuel - 1)?;
        return Ok(Statement::Explain { analyze, statement: Box::new(st) });
    }
    if eat_kw(t, pos, "begin") || eat_kw(t, pos, "start") {
        if !eat_kw(t, pos, "transaction") {
            eat_kw(t, pos, "work");
        }
        return Ok(Statement::Begin);
    }
    if eat_kw(t, pos, "commit") || eat_kw(t, pos, "end") {
        eat_kw(t, pos, "transaction");
        return Ok(Statement::Commit);
    }
    if eat_kw(t, pos, "rollback") {
        eat_kw(t, pos, "transaction");
        if eat_kw(t, pos, "to") {
            eat_kw(t, pos, "savepoint");
            let name = parse_ident(t, pos)?;
            return Ok(Statement::RollbackTo(name));
        }
        return Ok(Statement::Rollback);
    }
    if eat_kw(t, pos, "savepoint") {
        let name = parse_ident(t, pos)?;
        return Ok(Statement::Savepoint(name));
    }
    if eat_kw(t, pos, "release") {
        eat_kw(t, pos, "savepoint");
        let name = parse_ident(t, pos)?;
        return Ok(Statement::Release(name));
    }
    if eat_kw(t, pos, "set") {
        let name = parse_setting_name(t, pos)?;
        if !eat_sym(t, pos, Sym::Eq) {
            expect_kw(t, pos, "to")?;
        }
        let value = parse_expr(t, pos, fuel)?;
        return Ok(Statement::SetVariable { name, value });
    }
    if eat_kw(t, pos, "show") {
        if eat_kw(t, pos, "tables") {
            return Ok(Statement::ShowTables);
        }
        expect_kw(t, pos, "engine")?;
        expect_kw(t, pos, "status")?;
        return Ok(Statement::ShowEngineStatus);
    }
    if eat_kw(t, pos, "vacuum") {
        return Ok(Statement::Vacuum);
    }
    if eat_kw(t, pos, "analyze") {
        eat_kw(t, pos, "table");
        if *pos < t.len() && !is_sym(t, *pos, Sym::Semicolon) {
            let name = parse_ident(t, pos)?;
            return Ok(Statement::Analyze(Some(name)));
        }
        return Ok(Statement::Analyze(None));
    }
    if is_kw(t, *pos, "grant") || is_kw(t, *pos, "revoke") {
        let revoke = is_kw(t, *pos, "revoke");
        *pos = *pos + 1;
        // privilege list, ON table, TO/FROM grantee
        while *pos < t.len() && !is_kw(t, *pos, "on")
            invariant *old(pos) <= *pos <= t.len(),
            decreases t.len() - *pos,
        {
            *pos = *pos + 1;
        }
        expect_kw(t, pos, "on")?;
        eat_kw(t, pos, "table");
        parse_ident(t, pos)?;
        if revoke {
            expect_kw(t, pos, "from")?;
        } else {
            expect_kw(t, pos, "to")?;
        }
        parse_ident(t, pos)?;
        return Ok(Statement::Grant { revoke });
    }
    fail("unsupported or malformed statement")
}

/// Parses one SQL statement, optionally followed by a semicolon.
pub fn parse_sql(sql: &Vec<char>) -> (r: PResult<Statement>)
    ensures
        match lex_from(sql@, 0, Seq::empty()) {
            None => r is Err,
            Some(ts) => (r is Ok ==> exists|toks: Seq<Token>| toks_view(toks) == ts && #[trigger] statement_at(toks, 0, r))
                && (!starts_statement(ts, 0) ==> r is Err)
                && (whole_statement(ts) ==> (r matches Ok(st) && stmt_gives(ts, 0, st))),
        },
{
    let toks = match tokenize(sql) {
        Ok(t) => t,
        Err(e) => { return Err(e); },
    };
    let mut pos: usize = 0;
    proof { lemma_tok_views(toks@); }
    let st = parse_statement(&toks, &mut pos, MAX_DEPTH)?;
    assert(statement_at(toks@, 0, Ok::<Statement, Vec<char>>(st)));
    eat_sym(&toks, &mut pos, Sym::Semicolon);
    if pos != toks.len() {
        return fail("syntax error: unexpected text after the statement");
    }
    Ok(st)
}

} // verus!
