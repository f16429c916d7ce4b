//! Reading back what is printed: the tokens of a printed expression, and the parse of those
//! tokens, which gives the expression again.
use vstd::prelude::*;
use crate::expr::{Op, TokenV, MAX_CLAUSES, MAX_DEPTH, MAX_LIST_ITEMS};
use crate::expr_parse::{
    p_and, p_and_rest, p_call, p_clause, p_expr, p_items, p_list, p_not, p_op, p_operand,
    p_or_rest, tok, value_arg,
};
use vstd::utf8::encode_utf8;
use crate::expr::{lex, MAX_INPUT_BYTES};
use crate::expr_parse::where_of;
use crate::expr_relex::{lemma_lex_expr, lemma_lex_reads, num_ok, token_reads};
use crate::expr_text::{bare_name, expr_text, strength};
use crate::expr_tree::{absorb, flatten, normal, ArgV, CallV, ClauseV, ExprV, OperandV};

verus! {

/* The tokens of the canonical text. */

/// The token of a name: a word where it reads back bare, else a quoted text.
pub open spec fn name_token(s: Seq<char>) -> TokenV {
    if bare_name(s) {
        TokenV::Ident(s)
    } else {
        TokenV::Str(s)
    }
}

/// The token of a value.
pub open spec fn arg_token(a: ArgV) -> TokenV {
    match a {
        ArgV::Num(n) => TokenV::Num(n),
        ArgV::Name(s) => name_token(s),
    }
}

/// Values separated by commas.
pub open spec fn args_tokens(args: Seq<ArgV>) -> Seq<TokenV>
    decreases args.len(),
{
    if args.len() == 0 {
        Seq::empty()
    } else if args.len() == 1 {
        seq![arg_token(args[0])]
    } else {
        args_tokens(args.drop_last()) + seq![TokenV::Comma, arg_token(args.last())]
    }
}

/// Values in parentheses.
pub open spec fn list_tokens(args: Seq<ArgV>) -> Seq<TokenV> {
    seq![TokenV::LParen] + args_tokens(args) + seq![TokenV::RParen]
}

/// The tokens of a call.
pub open spec fn call_tokens(c: CallV) -> Seq<TokenV> {
    if c.args.len() > 0 {
        seq![TokenV::Ident(c.metric)] + list_tokens(c.args)
    } else {
        seq![TokenV::Ident(c.metric)]
    }
}

/// The tokens of an operator.
pub open spec fn op_tokens(o: Op) -> Seq<TokenV> {
    match o {
        Op::In => seq![TokenV::In],
        Op::NotIn => seq![TokenV::Not, TokenV::In],
        _ => seq![TokenV::Op(o)],
    }
}

/// The tokens of the right side of a clause.
pub open spec fn operand_tokens(v: OperandV) -> Seq<TokenV> {
    match v {
        OperandV::Num(n) => seq![TokenV::Num(n)],
        OperandV::Name(s) => seq![name_token(s)],
        OperandV::List(items) => list_tokens(items),
    }
}

/// The tokens of a clause.
pub open spec fn clause_tokens(c: ClauseV) -> Seq<TokenV> {
    call_tokens(c.call) + op_tokens(c.op) + operand_tokens(c.operand)
}

/// The tokens of an expression.
pub open spec fn expr_tokens(e: ExprV) -> Seq<TokenV>
    decreases e, 0int,
{
    match e {
        ExprV::Clause(c) => clause_tokens(c),
        ExprV::And(items) => join_tokens(items, TokenV::And, 2),
        ExprV::Or(items) => join_tokens(items, TokenV::Or, 3),
        ExprV::Not(b) => seq![TokenV::Not] + paren_tokens(*b, 1),
    }
}

/// The tokens of a child: in parentheses where it binds more loosely than its parent.
pub open spec fn paren_tokens(e: ExprV, parent: int) -> Seq<TokenV>
    decreases e, 1int,
{
    if strength(e) > parent {
        seq![TokenV::LParen] + expr_tokens(e) + seq![TokenV::RParen]
    } else {
        expr_tokens(e)
    }
}

/// Children separated by `sep`.
pub open spec fn join_tokens(items: Seq<ExprV>, sep: TokenV, parent: int) -> Seq<TokenV>
    decreases items, 2int,
{
    if items.len() == 0 {
        Seq::empty()
    } else if items.len() == 1 {
        paren_tokens(items[0], parent)
    } else {
        join_tokens(items.drop_last(), sep, parent) + seq![sep] + paren_tokens(items.last(), parent)
    }
}

/* What a printed expression must hold to read back: what the language can say. */

/// A list of values that a parse can give: at least one, at most `MAX_LIST_ITEMS`.
pub open spec fn list_fits(args: Seq<ArgV>) -> bool {
    1 <= args.len() <= MAX_LIST_ITEMS
}

/// A value the language can say: a number that the lexer reads whole, or any name.
pub open spec fn arg_reads(a: ArgV) -> bool {
    match a {
        ArgV::Num(n) => num_ok(n),
        ArgV::Name(_) => true,
    }
}

/// Values the language can say.
pub open spec fn args_read(args: Seq<ArgV>) -> bool {
    forall|k: int| 0 <= k < args.len() ==> arg_reads(#[trigger] args[k])
}

/// A clause the language can say: its metric a word, its arguments a list that fits where it
/// has any, a list on the right exactly after a membership operator, and every value one the
/// language can say.
pub open spec fn clause_fits(c: ClauseV) -> bool {
    &&& bare_name(c.call.metric)
    &&& c.call.args.len() <= MAX_LIST_ITEMS
    &&& args_read(c.call.args)
    &&& (c.op == Op::In || c.op == Op::NotIn) <==> c.operand is List
    &&& match c.operand {
        OperandV::Num(n) => num_ok(n),
        OperandV::Name(_) => true,
        OperandV::List(items) => list_fits(items) && args_read(items),
    }
}

/// Every clause of the expression fits.
pub open spec fn clauses_fit(e: ExprV) -> bool
    decreases e,
{
    match e {
        ExprV::Clause(c) => clause_fits(c),
        ExprV::And(items) => forall|i: int| 0 <= i < items.len() ==> clauses_fit(#[trigger] items[i]),
        ExprV::Or(items) => forall|i: int| 0 <= i < items.len() ==> clauses_fit(#[trigger] items[i]),
        ExprV::Not(b) => clauses_fit(*b),
    }
}

/// How many clauses an expression holds.
pub open spec fn clause_count(e: ExprV) -> nat
    decreases e, 0int,
{
    match e {
        ExprV::Clause(_) => 1,
        ExprV::And(items) => clause_sum(items),
        ExprV::Or(items) => clause_sum(items),
        ExprV::Not(b) => clause_count(*b),
    }
}

/// How many clauses the expressions hold.
pub open spec fn clause_sum(items: Seq<ExprV>) -> nat
    decreases items, 1int,
{
    if items.len() == 0 {
        0
    } else {
        clause_sum(items.drop_last()) + clause_count(items.last())
    }
}

/// How many levels of `not` and parentheses the printed expression nests below its top.
pub open spec fn nesting(e: ExprV) -> nat
    decreases e, 0int,
{
    match e {
        ExprV::Clause(_) => 0,
        ExprV::And(items) => max_nesting(items, 2),
        ExprV::Or(items) => max_nesting(items, 3),
        ExprV::Not(b) => 1 + nesting_in(*b, 1),
    }
}

/// The nesting of a child, one more where it stands in parentheses.
pub open spec fn nesting_in(e: ExprV, parent: int) -> nat
    decreases e, 1int,
{
    if strength(e) > parent {
        1 + nesting(e)
    } else {
        nesting(e)
    }
}

/// The deepest nesting of the children.
pub open spec fn max_nesting(items: Seq<ExprV>, parent: int) -> nat
    decreases items, 2int,
{
    if items.len() == 0 {
        0
    } else {
        let a = max_nesting(items.drop_last(), parent);
        let b = nesting_in(items.last(), parent);
        if a >= b { a } else { b }
    }
}

/* Tokens in place. */

/// The kinds of the tokens, without their positions.
pub open spec fn kinds(ts: Seq<(int, TokenV)>) -> Seq<TokenV> {
    ts.map_values(|p: (int, TokenV)| p.1)
}

/// The tokens from `pos` on begin with `toks`.
pub open spec fn toks_at(ts: Seq<(int, TokenV)>, pos: int, toks: Seq<TokenV>) -> bool {
    &&& 0 <= pos
    &&& pos + toks.len() <= ts.len()
    &&& kinds(ts).subrange(pos, pos + toks.len()) == toks
}

proof fn lemma_tok_at(ts: Seq<(int, TokenV)>, pos: int, toks: Seq<TokenV>, j: int)
    requires
        toks_at(ts, pos, toks),
        0 <= j < toks.len(),
    ensures
        tok(ts, pos + j) == Some(toks[j]),
{
    assert(kinds(ts).subrange(pos, pos + toks.len())[j] == kinds(ts)[pos + j]);
}

proof fn lemma_toks_split(ts: Seq<(int, TokenV)>, pos: int, a: Seq<TokenV>, b: Seq<TokenV>)
    requires
        toks_at(ts, pos, a + b),
    ensures
        toks_at(ts, pos, a),
        toks_at(ts, pos + a.len(), b),
{
    assert(kinds(ts).subrange(pos, pos + a.len()) =~= (a + b).subrange(0, a.len() as int));
    assert(kinds(ts).subrange(pos + a.len(), pos + a.len() + b.len()) =~= (a + b).subrange(a.len() as int, (a + b).len() as int));
    assert((a + b).subrange(0, a.len() as int) =~= a);
    assert((a + b).subrange(a.len() as int, (a + b).len() as int) =~= b);
}

/* Lists, calls and clauses. */

proof fn lemma_args_tokens(args: Seq<ArgV>)
    requires
        args.len() >= 1,
    ensures
        args_tokens(args).len() == 2 * args.len() - 1,
        forall|k: int| 0 <= k < args.len() ==> #[trigger] args_tokens(args)[2 * k] == arg_token(args[k]),
        forall|k: int| 0 <= k < args.len() - 1 ==> #[trigger] args_tokens(args)[2 * k + 1] == TokenV::Comma,
    decreases args.len(),
{
    if args.len() > 1 {
        let front = args.drop_last();
        lemma_args_tokens(front);
        let t = args_tokens(args);
        assert forall|k: int| 0 <= k < args.len() implies #[trigger] t[2 * k] == arg_token(args[k]) by {
            if k < args.len() - 1 {
                assert(t[2 * k] == args_tokens(front)[2 * k]);
                assert(front[k] == args[k]);
            }
        }
        assert forall|k: int| 0 <= k < args.len() - 1 implies #[trigger] t[2 * k + 1] == TokenV::Comma by {
            if k < args.len() - 2 {
                assert(t[2 * k + 1] == args_tokens(front)[2 * k + 1]);
            }
        }
    }
}

proof fn lemma_value_arg(a: ArgV)
    ensures
        value_arg(Some(arg_token(a))) == Some(a),
{
}

proof fn lemma_p_items(ts: Seq<(int, TokenV)>, end: int, args: Seq<ArgV>, pos0: int, k: int)
    requires
        list_fits(args),
        toks_at(ts, pos0, args_tokens(args) + seq![TokenV::RParen]),
        0 <= k < args.len(),
    ensures
        p_items(ts, end, pos0 + 2 * k, args.take(k)) == Ok::<(Seq<ArgV>, int), (int, crate::expr::Problem)>((args, pos0 + 2 * args.len())),
    decreases args.len() - k,
{
    let all = args_tokens(args) + seq![TokenV::RParen];
    lemma_args_tokens(args);
    let pos = pos0 + 2 * k;
    assert(all[2 * k] == arg_token(args[k]));
    lemma_tok_at(ts, pos0, all, 2 * k);
    lemma_value_arg(args[k]);
    assert(args.take(k).push(args[k]) =~= args.take(k + 1));
    lemma_tok_at(ts, pos0, all, 2 * k + 1);
    if k + 1 < args.len() {
        assert(all[2 * k + 1] == TokenV::Comma);
        lemma_p_items(ts, end, args, pos0, k + 1);
        assert(pos0 + 2 * (k + 1) == pos + 2);
    } else {
        assert(all[2 * k + 1] == TokenV::RParen);
        assert(args.take(k + 1) =~= args);
    }
}

proof fn lemma_p_list(ts: Seq<(int, TokenV)>, end: int, args: Seq<ArgV>, pos: int)
    requires
        list_fits(args),
        toks_at(ts, pos, list_tokens(args)),
    ensures
        p_list(ts, end, pos) == Ok::<(Seq<ArgV>, int), (int, crate::expr::Problem)>((args, pos + list_tokens(args).len())),
{
    lemma_args_tokens(args);
    assert(list_tokens(args) =~= seq![TokenV::LParen] + (args_tokens(args) + seq![TokenV::RParen]));
    lemma_toks_split(ts, pos, seq![TokenV::LParen], args_tokens(args) + seq![TokenV::RParen]);
    lemma_tok_at(ts, pos, seq![TokenV::LParen], 0);
    lemma_p_items(ts, end, args, pos + 1, 0);
    assert(args.take(0) =~= Seq::<ArgV>::empty());
}

proof fn lemma_p_call(ts: Seq<(int, TokenV)>, end: int, c: CallV, pos: int)
    requires
        c.args.len() > 0 ==> list_fits(c.args),
        toks_at(ts, pos, call_tokens(c)),
        c.args.len() == 0 ==> tok(ts, pos + 1) != Some(TokenV::LParen),
    ensures
        p_call(ts, end, pos) == Ok::<(CallV, int), (int, crate::expr::Problem)>((c, pos + call_tokens(c).len())),
{
    lemma_tok_at(ts, pos, call_tokens(c), 0);
    if c.args.len() > 0 {
        lemma_toks_split(ts, pos, seq![TokenV::Ident(c.metric)], list_tokens(c.args));
        lemma_tok_at(ts, pos + 1, list_tokens(c.args), 0);
        lemma_p_list(ts, end, c.args, pos + 1);
    } else {
        assert(c.args =~= Seq::<ArgV>::empty());
    }
}

proof fn lemma_p_op(ts: Seq<(int, TokenV)>, end: int, o: Op, pos: int)
    requires
        toks_at(ts, pos, op_tokens(o)),
    ensures
        p_op(ts, end, pos) == Ok::<(Op, int), (int, crate::expr::Problem)>((o, pos + op_tokens(o).len())),
{
    lemma_tok_at(ts, pos, op_tokens(o), 0);
    if o == Op::NotIn {
        lemma_tok_at(ts, pos, op_tokens(o), 1);
    }
}

proof fn lemma_p_operand(ts: Seq<(int, TokenV)>, end: int, c: ClauseV, pos: int)
    requires
        clause_fits(c),
        toks_at(ts, pos, operand_tokens(c.operand)),
    ensures
        p_operand(ts, end, c.op, pos) == Ok::<(OperandV, int), (int, crate::expr::Problem)>((c.operand, pos + operand_tokens(c.operand).len())),
{
    match c.operand {
        OperandV::List(items) => {
            lemma_p_list(ts, end, items, pos);
        },
        _ => {
            lemma_tok_at(ts, pos, operand_tokens(c.operand), 0);
        },
    }
}

proof fn lemma_p_clause(ts: Seq<(int, TokenV)>, end: int, c: ClauseV, pos: int, cl: int)
    requires
        clause_fits(c),
        toks_at(ts, pos, clause_tokens(c)),
        cl + 1 <= MAX_CLAUSES,
    ensures
        p_clause(ts, end, pos, cl) == Ok::<(ClauseV, int, int), (int, crate::expr::Problem)>((c, pos + clause_tokens(c).len(), cl + 1)),
{
    let ct = call_tokens(c.call);
    let ot = op_tokens(c.op);
    let vt = operand_tokens(c.operand);
    lemma_toks_split(ts, pos, ct + ot, vt);
    lemma_toks_split(ts, pos, ct, ot);
    if c.call.args.len() == 0 {
        lemma_tok_at(ts, pos + ct.len(), ot, 0);
    }
    lemma_p_call(ts, end, c.call, pos);
    lemma_p_op(ts, end, c.op, pos + ct.len());
    lemma_p_operand(ts, end, c, pos + ct.len() + ot.len());
}

/* Joins of children. */

proof fn lemma_absorb_plain(items: Seq<ExprV>, is_and: bool)
    requires
        forall|i: int| 0 <= i < items.len() ==> if is_and { !(#[trigger] items[i] is And) } else { !(items[i] is Or) },
    ensures
        absorb(items, is_and) == items,
    decreases items.len(),
{
    if items.len() > 0 {
        lemma_absorb_plain(items.drop_last(), is_and);
        assert(items.drop_last().push(items.last()) =~= items);
    }
}

proof fn lemma_flatten_one(e: ExprV, is_and: bool)
    requires
        if is_and { !(e is And) } else { !(e is Or) },
    ensures
        flatten(seq![e], is_and) == e,
{
    lemma_absorb_plain(seq![e], is_and);
}

proof fn lemma_join_take(items: Seq<ExprV>, sep: TokenV, parent: int, k: int)
    requires
        0 <= k < items.len(),
    ensures
        k == 0 ==> join_tokens(items.take(1), sep, parent) == paren_tokens(items[0], parent),
        k > 0 ==> join_tokens(items.take(k + 1), sep, parent) == join_tokens(items.take(k), sep, parent) + seq![sep] + paren_tokens(items[k], parent),
        clause_sum(items.take(k + 1)) == clause_sum(items.take(k)) + clause_count(items[k]),
        items.take(k).push(items[k]) == items.take(k + 1),
{
    assert(items.take(k + 1).drop_last() =~= items.take(k));
    assert(items.take(k).push(items[k]) =~= items.take(k + 1));
}

proof fn lemma_join_prefix(items: Seq<ExprV>, sep: TokenV, parent: int, k: int)
    requires
        0 <= k <= items.len(),
    ensures
        join_tokens(items.take(k), sep, parent).len() <= join_tokens(items, sep, parent).len(),
        join_tokens(items, sep, parent).subrange(0, join_tokens(items.take(k), sep, parent).len() as int) == join_tokens(items.take(k), sep, parent),
        clause_sum(items.take(k)) <= clause_sum(items),
    decreases items.len() - k,
{
    if k == items.len() {
        assert(items.take(k) =~= items);
        assert(join_tokens(items, sep, parent).subrange(0, join_tokens(items, sep, parent).len() as int) =~= join_tokens(items, sep, parent));
    } else {
        lemma_join_prefix(items, sep, parent, k + 1);
        lemma_join_take(items, sep, parent, k);
        let a = join_tokens(items.take(k), sep, parent);
        let b = join_tokens(items.take(k + 1), sep, parent);
        let all = join_tokens(items, sep, parent);
        if k == 0 {
            assert(items.take(0) =~= Seq::<ExprV>::empty());
            assert(all.subrange(0, 0) =~= a);
        } else {
            assert(b.subrange(0, a.len() as int) =~= a);
            assert(all.subrange(0, a.len() as int) =~= b.subrange(0, a.len() as int));
        }
    }
}

proof fn lemma_toks_prefix(ts: Seq<(int, TokenV)>, pos: int, a: Seq<TokenV>, b: Seq<TokenV>)
    requires
        toks_at(ts, pos, b),
        a.len() <= b.len(),
        b.subrange(0, a.len() as int) == a,
    ensures
        toks_at(ts, pos, a),
{
    assert(kinds(ts).subrange(pos, pos + a.len()) =~= kinds(ts).subrange(pos, pos + b.len()).subrange(0, a.len() as int));
}

proof fn lemma_max_nesting(items: Seq<ExprV>, parent: int, k: int)
    requires
        0 <= k < items.len(),
    ensures
        nesting_in(items[k], parent) <= max_nesting(items, parent),
    decreases items.len(),
{
    if k < items.len() - 1 {
        lemma_max_nesting(items.drop_last(), parent, k);
        assert(items.drop_last()[k] == items[k]);
    }
}

/// A child that is no `and` prints alike under `not` and under `and`.
proof fn lemma_unit_tokens(e: ExprV)
    requires
        !(e is And),
    ensures
        paren_tokens(e, 2) == paren_tokens(e, 1),
        nesting_in(e, 2) == nesting_in(e, 1),
{
}

/* The parse of the tokens of an expression. */

proof fn lemma_p_not(ts: Seq<(int, TokenV)>, end: int, d: int, pos: int, cl: int, e: ExprV)
    requires
        normal(e),
        clauses_fit(e),
        toks_at(ts, pos, paren_tokens(e, 1)),
        0 <= d,
        d + nesting_in(e, 1) <= MAX_DEPTH,
        0 <= cl,
        cl + clause_count(e) <= MAX_CLAUSES,
    ensures
        p_not(ts, end, d, pos, cl) == Ok::<(ExprV, int, int), (int, crate::expr::Problem)>((e, pos + paren_tokens(e, 1).len(), cl + clause_count(e))),
    decreases e, if e is And || e is Or { 3int } else { 0int }, 0int,
{
    let t = paren_tokens(e, 1);
    lemma_tok_at(ts, pos, t, 0);
    match e {
        ExprV::Clause(c) => {
            lemma_p_clause(ts, end, c, pos, cl);
        },
        ExprV::Not(b) => {
            lemma_toks_split(ts, pos, seq![TokenV::Not], paren_tokens(*b, 1));
            lemma_p_not(ts, end, d + 1, pos + 1, cl, *b);
        },
        _ => {
            let inner = expr_tokens(e);
            assert(t == seq![TokenV::LParen] + inner + seq![TokenV::RParen]);
            lemma_toks_split(ts, pos, seq![TokenV::LParen] + inner, seq![TokenV::RParen]);
            lemma_toks_split(ts, pos, seq![TokenV::LParen], inner);
            lemma_tok_at(ts, pos + 1 + inner.len(), seq![TokenV::RParen], 0);
            lemma_p_expr(ts, end, d + 1, pos + 1, cl, e);
        },
    }
}

proof fn lemma_p_and(ts: Seq<(int, TokenV)>, end: int, d: int, pos: int, cl: int, e: ExprV)
    requires
        normal(e),
        clauses_fit(e),
        !(e is Or),
        toks_at(ts, pos, expr_tokens(e)),
        tok(ts, pos + expr_tokens(e).len()) != Some(TokenV::And),
        0 <= d,
        d + nesting(e) <= MAX_DEPTH,
        0 <= cl,
        cl + clause_count(e) <= MAX_CLAUSES,
    ensures
        p_and(ts, end, d, pos, cl) == Ok::<(ExprV, int, int), (int, crate::expr::Problem)>((e, pos + expr_tokens(e).len(), cl + clause_count(e))),
    decreases e, 1int, 0int,
{
    match e {
        ExprV::And(items) => {
            let n = items.len();
            lemma_join_prefix(items, TokenV::And, 2, 1);
            lemma_join_take(items, TokenV::And, 2, 0);
            lemma_toks_prefix(ts, pos, paren_tokens(items[0], 2), expr_tokens(e));
            lemma_unit_tokens(items[0]);
            lemma_max_nesting(items, 2, 0);
            assert(items.take(0) =~= Seq::<ExprV>::empty());
            lemma_p_not(ts, end, d, pos, cl, items[0]);
            assert(items.take(1) =~= seq![items[0]]);
            lemma_p_and_rest(ts, end, d, pos, cl, items, 1);
        },
        _ => {
            lemma_p_not(ts, end, d, pos, cl, e);
            lemma_flatten_one(e, true);
        },
    }
}

proof fn lemma_p_and_rest(ts: Seq<(int, TokenV)>, end: int, d: int, pos0: int, cl0: int, items: Seq<ExprV>, k: int)
    requires
        normal(ExprV::And(items)),
        clauses_fit(ExprV::And(items)),
        1 <= k <= items.len(),
        toks_at(ts, pos0, join_tokens(items, TokenV::And, 2)),
        tok(ts, pos0 + join_tokens(items, TokenV::And, 2).len()) != Some(TokenV::And),
        0 <= d,
        d + max_nesting(items, 2) <= MAX_DEPTH,
        0 <= cl0,
        cl0 + clause_sum(items) <= MAX_CLAUSES,
    ensures
        p_and_rest(ts, end, d, pos0 + join_tokens(items.take(k), TokenV::And, 2).len(), cl0 + clause_sum(items.take(k)), items.take(k))
            == Ok::<(ExprV, int, int), (int, crate::expr::Problem)>((ExprV::And(items), pos0 + join_tokens(items, TokenV::And, 2).len(), cl0 + clause_sum(items))),
    decreases items, 3int, items.len() - k,
{
    let n = items.len();
    if k == n {
        assert(items.take(k) =~= items);
        lemma_absorb_plain(items, true);
    } else {
        let a = join_tokens(items.take(k), TokenV::And, 2);
        let pk = pos0 + a.len();
        lemma_join_take(items, TokenV::And, 2, k);
        lemma_join_prefix(items, TokenV::And, 2, k + 1);
        lemma_join_prefix(items, TokenV::And, 2, k);
        let b = join_tokens(items.take(k + 1), TokenV::And, 2);
        lemma_toks_prefix(ts, pos0, b, join_tokens(items, TokenV::And, 2));
        lemma_toks_split(ts, pos0, a + seq![TokenV::And], paren_tokens(items[k], 2));
        lemma_toks_split(ts, pos0, a, seq![TokenV::And]);
        lemma_tok_at(ts, pk, seq![TokenV::And], 0);
        lemma_unit_tokens(items[k]);
        lemma_max_nesting(items, 2, k);
        lemma_p_not(ts, end, d, pk + 1, cl0 + clause_sum(items.take(k)), items[k]);
        lemma_p_and_rest(ts, end, d, pos0, cl0, items, k + 1);
    }
}

proof fn lemma_p_expr(ts: Seq<(int, TokenV)>, end: int, d: int, pos: int, cl: int, e: ExprV)
    requires
        normal(e),
        clauses_fit(e),
        toks_at(ts, pos, expr_tokens(e)),
        tok(ts, pos + expr_tokens(e).len()) != Some(TokenV::And),
        tok(ts, pos + expr_tokens(e).len()) != Some(TokenV::Or),
        0 <= d,
        d + nesting(e) <= MAX_DEPTH,
        0 <= cl,
        cl + clause_count(e) <= MAX_CLAUSES,
    ensures
        p_expr(ts, end, d, pos, cl) == Ok::<(ExprV, int, int), (int, crate::expr::Problem)>((e, pos + expr_tokens(e).len(), cl + clause_count(e))),
    decreases e, 2int, 0int,
{
    match e {
        ExprV::Or(items) => {
            lemma_join_prefix(items, TokenV::Or, 3, 1);
            lemma_join_take(items, TokenV::Or, 3, 0);
            lemma_join_take(items, TokenV::Or, 3, 1);
            lemma_join_prefix(items, TokenV::Or, 3, 2);
            let b = join_tokens(items.take(2), TokenV::Or, 3);
            lemma_toks_prefix(ts, pos, b, expr_tokens(e));
            lemma_toks_split(ts, pos, paren_tokens(items[0], 3) + seq![TokenV::Or], paren_tokens(items[1], 3));
            lemma_toks_split(ts, pos, paren_tokens(items[0], 3), seq![TokenV::Or]);
            lemma_tok_at(ts, pos + paren_tokens(items[0], 3).len(), seq![TokenV::Or], 0);
            lemma_max_nesting(items, 3, 0);
            assert(items.take(0) =~= Seq::<ExprV>::empty());
            lemma_p_and(ts, end, d, pos, cl, items[0]);
            assert(items.take(1) =~= seq![items[0]]);
            lemma_p_or_rest(ts, end, d, pos, cl, items, 1);
        },
        _ => {
            lemma_p_and(ts, end, d, pos, cl, e);
            lemma_flatten_one(e, false);
        },
    }
}

proof fn lemma_p_or_rest(ts: Seq<(int, TokenV)>, end: int, d: int, pos0: int, cl0: int, items: Seq<ExprV>, k: int)
    requires
        normal(ExprV::Or(items)),
        clauses_fit(ExprV::Or(items)),
        1 <= k <= items.len(),
        toks_at(ts, pos0, join_tokens(items, TokenV::Or, 3)),
        tok(ts, pos0 + join_tokens(items, TokenV::Or, 3).len()) != Some(TokenV::And),
        tok(ts, pos0 + join_tokens(items, TokenV::Or, 3).len()) != Some(TokenV::Or),
        0 <= d,
        d + max_nesting(items, 3) <= MAX_DEPTH,
        0 <= cl0,
        cl0 + clause_sum(items) <= MAX_CLAUSES,
    ensures
        p_or_rest(ts, end, d, pos0 + join_tokens(items.take(k), TokenV::Or, 3).len(), cl0 + clause_sum(items.take(k)), items.take(k))
            == Ok::<(ExprV, int, int), (int, crate::expr::Problem)>((ExprV::Or(items), pos0 + join_tokens(items, TokenV::Or, 3).len(), cl0 + clause_sum(items))),
    decreases items, 3int, items.len() - k,
{
    let n = items.len();
    if k == n {
        assert(items.take(k) =~= items);
        lemma_absorb_plain(items, false);
    } else {
        let a = join_tokens(items.take(k), TokenV::Or, 3);
        let pk = pos0 + a.len();
        lemma_join_take(items, TokenV::Or, 3, k);
        lemma_join_prefix(items, TokenV::Or, 3, k + 1);
        lemma_join_prefix(items, TokenV::Or, 3, k);
        let b = join_tokens(items.take(k + 1), TokenV::Or, 3);
        lemma_toks_prefix(ts, pos0, b, join_tokens(items, TokenV::Or, 3));
        lemma_toks_split(ts, pos0, a + seq![TokenV::Or], paren_tokens(items[k], 3));
        lemma_toks_split(ts, pos0, a, seq![TokenV::Or]);
        lemma_tok_at(ts, pk, seq![TokenV::Or], 0);
        lemma_max_nesting(items, 3, k);
        if k + 1 < n {
            lemma_join_take(items, TokenV::Or, 3, k + 1);
            lemma_join_prefix(items, TokenV::Or, 3, k + 2);
            lemma_toks_prefix(ts, pos0, join_tokens(items.take(k + 2), TokenV::Or, 3), join_tokens(items, TokenV::Or, 3));
            lemma_toks_split(ts, pos0, b + seq![TokenV::Or], paren_tokens(items[k + 1], 3));
            lemma_toks_split(ts, pos0, b, seq![TokenV::Or]);
            lemma_tok_at(ts, pos0 + b.len(), seq![TokenV::Or], 0);
        } else {
            assert(items.take(k + 1) =~= items);
        }
        lemma_p_and(ts, end, d, pk + 1, cl0 + clause_sum(items.take(k)), items[k]);
        lemma_p_or_rest(ts, end, d, pos0, cl0, items, k + 1);
    }
}

/* Reading back. */

/// An expression in normal form that the language can say, within the limits on nesting,
/// clauses and length, reads back from its canonical text as itself: whatever the library
/// prints, it parses as the same tree.
pub proof fn law_printed_expression_reads_back(e: ExprV)
    requires
        normal(e),
        clauses_fit(e),
        nesting(e) <= MAX_DEPTH,
        clause_count(e) <= MAX_CLAUSES,
        encode_utf8(expr_text(e)).len() <= MAX_INPUT_BYTES,
    ensures
        where_of(expr_text(e)) == Ok::<ExprV, (int, crate::expr::Problem)>(e),
{
    let cs = expr_text(e);
    assert(cs.subrange(0, cs.len() as int) =~= cs);
    lemma_lex_expr(cs, 0, e);
    assert(lex(cs, cs.len() as int) == Ok::<Seq<(int, TokenV)>, (int, crate::expr::Problem)>(Seq::empty()));
    assert(kinds(Seq::<(int, TokenV)>::empty()) =~= Seq::<TokenV>::empty());
    let ts = lex(cs, 0)->Ok_0;
    assert(kinds(ts) =~= expr_tokens(e));
    assert(kinds(ts).subrange(0, expr_tokens(e).len() as int) =~= expr_tokens(e));
    lemma_p_expr(ts, cs.len() as int, 0, 0, 0, e);
}

/* What a parse gives is what the printer can print back. */

/// Every token reads back as itself.
pub open spec fn reads_all(ts: Seq<(int, TokenV)>) -> bool {
    forall|k: int| 0 <= k < ts.len() ==> token_reads(#[trigger] ts[k].1)
}

proof fn lemma_tok_reads(ts: Seq<(int, TokenV)>, pos: int)
    requires
        reads_all(ts),
    ensures
        tok(ts, pos) matches Some(t) ==> token_reads(t),
{
    if 0 <= pos < ts.len() {
        assert(token_reads(ts[pos].1));
    }
}

proof fn lemma_items_fit(ts: Seq<(int, TokenV)>, end: int, pos: int, items: Seq<ArgV>)
    requires
        reads_all(ts),
        args_read(items),
    ensures
        p_items(ts, end, pos, items) matches Ok((r, _)) ==> list_fits(r) && args_read(r),
    decreases ts.len() - pos,
{
    lemma_tok_reads(ts, pos);
    match value_arg(tok(ts, pos)) {
        None => {},
        Some(a) => {
            let items2 = items.push(a);
            assert(arg_reads(a));
            assert forall|k: int| 0 <= k < items2.len() implies arg_reads(#[trigger] items2[k]) by {
                if k < items.len() {
                    assert(items2[k] == items[k]);
                }
            }
            if items2.len() <= MAX_LIST_ITEMS && tok(ts, pos + 1) == Some(TokenV::Comma) {
                lemma_items_fit(ts, end, pos + 2, items2);
            }
        },
    }
}

proof fn lemma_list_fit(ts: Seq<(int, TokenV)>, end: int, pos: int)
    requires
        reads_all(ts),
    ensures
        p_list(ts, end, pos) matches Ok((r, _)) ==> list_fits(r) && args_read(r),
{
    lemma_items_fit(ts, end, pos + 1, Seq::empty());
}

proof fn lemma_call_fits(ts: Seq<(int, TokenV)>, end: int, pos: int)
    requires
        reads_all(ts),
    ensures
        p_call(ts, end, pos) matches Ok((c, _)) ==> bare_name(c.metric) && c.args.len() <= MAX_LIST_ITEMS && args_read(c.args),
{
    lemma_tok_reads(ts, pos);
    lemma_list_fit(ts, end, pos + 1);
}

proof fn lemma_clause_fits(ts: Seq<(int, TokenV)>, end: int, pos: int, cl: int)
    requires
        reads_all(ts),
    ensures
        p_clause(ts, end, pos, cl) matches Ok((c, _, k)) ==> clause_fits(c) && k == cl + 1 && k <= MAX_CLAUSES,
{
    lemma_call_fits(ts, end, pos);
    match p_call(ts, end, pos) {
        Ok((c, p1)) => {
            lemma_tok_reads(ts, p1);
            match p_op(ts, end, p1) {
                Ok((o, p2)) => {
                    lemma_list_fit(ts, end, p2);
                    lemma_tok_reads(ts, p2);
                },
                Err(_) => {},
            }
        },
        Err(_) => {},
    }
}

proof fn lemma_clause_sum_concat(a: Seq<ExprV>, b: Seq<ExprV>)
    ensures
        clause_sum(a + b) == clause_sum(a) + clause_sum(b),
    decreases b.len(),
{
    if b.len() == 0 {
        assert(a + b =~= a);
    } else {
        lemma_clause_sum_concat(a, b.drop_last());
        assert((a + b).drop_last() =~= a + b.drop_last());
    }
}

proof fn lemma_max_nesting_bound(items: Seq<ExprV>, parent: int, bound: int)
    requires
        forall|k: int| 0 <= k < items.len() ==> nesting_in(#[trigger] items[k], parent) <= bound,
        0 <= bound,
    ensures
        max_nesting(items, parent) <= bound,
    decreases items.len(),
{
    if items.len() > 0 {
        assert forall|k: int| 0 <= k < items.drop_last().len() implies nesting_in(#[trigger] items.drop_last()[k], parent) <= bound by {
            assert(items.drop_last()[k] == items[k]);
        }
        lemma_max_nesting_bound(items.drop_last(), parent, bound);
        assert(nesting_in(items[items.len() - 1], parent) <= bound);
    }
}

/// How an item of a combination may nest: below `not` for `and`, whole for `or`.
pub open spec fn item_nesting(e: ExprV, is_and: bool) -> nat {
    if is_and { nesting_in(e, 1) } else { nesting(e) }
}

proof fn lemma_absorb_fits(items: Seq<ExprV>, is_and: bool, bound: int)
    requires
        forall|k: int| 0 <= k < items.len() ==> clauses_fit(#[trigger] items[k]) && item_nesting(items[k], is_and) <= bound,
    ensures
        forall|j: int| 0 <= j < absorb(items, is_and).len() ==> clauses_fit(#[trigger] absorb(items, is_and)[j])
            && nesting_in(absorb(items, is_and)[j], if is_and { 2int } else { 3int }) <= bound,
        clause_sum(absorb(items, is_and)) == clause_sum(items),
    decreases items.len(),
{
    let parent: int = if is_and { 2 } else { 3 };
    if items.len() > 0 {
        let front = items.drop_last();
        let last = items.last();
        assert forall|k: int| 0 <= k < front.len() implies clauses_fit(#[trigger] front[k]) && item_nesting(front[k], is_and) <= bound by {
            assert(front[k] == items[k]);
        }
        assert(clauses_fit(items[items.len() - 1]) && item_nesting(items[items.len() - 1], is_and) <= bound);
        lemma_absorb_fits(front, is_and, bound);
        let a = absorb(front, is_and);
        let b = crate::expr_tree::absorbed(last, is_and);
        assert(absorb(items, is_and) == a + b);
        lemma_clause_sum_concat(a, b);
        assert forall|j: int| 0 <= j < b.len() implies clauses_fit(#[trigger] b[j]) && nesting_in(b[j], parent) <= bound by {
            match last {
                ExprV::And(c) => {
                    if is_and {
                        assert(b[j] == c[j]);
                        lemma_max_nesting(c, 2, j);
                    } else {
                        assert(b[j] == last);
                    }
                },
                ExprV::Or(c) => {
                    if !is_and {
                        assert(b[j] == c[j]);
                        lemma_max_nesting(c, 3, j);
                    } else {
                        assert(b[j] == last);
                    }
                },
                _ => {
                    assert(b[j] == last);
                },
            }
        }
        assert(seq![last].drop_last() =~= Seq::<ExprV>::empty());
        assert(seq![last].last() == last);
        assert(clause_sum(Seq::<ExprV>::empty()) == 0);
        assert(clause_sum(seq![last]) == clause_count(last));
        match last {
            ExprV::And(c) => {
                if !is_and {
                    assert(b =~= seq![last]);
                } else {
                    assert(clause_count(last) == clause_sum(c));
                }
            },
            ExprV::Or(c) => {
                if is_and {
                    assert(b =~= seq![last]);
                } else {
                    assert(clause_count(last) == clause_sum(c));
                }
            },
            _ => {
                assert(b =~= seq![last]);
            },
        }
        assert(clause_sum(b) == clause_count(last));
        assert(clause_sum(items) == clause_sum(front) + clause_count(last));
        assert forall|j: int| 0 <= j < (a + b).len() implies clauses_fit(#[trigger] (a + b)[j]) && nesting_in((a + b)[j], parent) <= bound by {
            if j < a.len() {
                assert((a + b)[j] == a[j]);
            } else {
                assert((a + b)[j] == b[j - a.len()]);
            }
        }
    }
}

proof fn lemma_flatten_fits(items: Seq<ExprV>, is_and: bool, bound: int)
    requires
        items.len() > 0,
        0 <= bound,
        forall|k: int| 0 <= k < items.len() ==> normal(#[trigger] items[k]) && clauses_fit(items[k]) && item_nesting(items[k], is_and) <= bound,
    ensures
        normal(flatten(items, is_and)),
        clauses_fit(flatten(items, is_and)),
        nesting(flatten(items, is_and)) <= bound,
        clause_count(flatten(items, is_and)) == clause_sum(items),
{
    let parent: int = if is_and { 2 } else { 3 };
    crate::expr_tree::lemma_flatten_normal(items, is_and);
    lemma_absorb_fits(items, is_and, bound);
    let out = absorb(items, is_and);
    lemma_max_nesting_bound(out, parent, bound);
    if out.len() == 1 {
        assert(out.drop_last() =~= Seq::<ExprV>::empty());
        assert(nesting_in(out[0], parent) <= bound);
        assert(clause_sum(out) == clause_sum(out.drop_last()) + clause_count(out[0]));
        assert(flatten(items, is_and) == out[0]);
    } else {
        assert forall|k: int| 0 <= k < out.len() implies clauses_fit(#[trigger] out[k]) by {}
        if is_and {
            assert(flatten(items, is_and) == ExprV::And(out));
            assert(clause_count(ExprV::And(out)) == clause_sum(out));
        } else {
            assert(flatten(items, is_and) == ExprV::Or(out));
            assert(clause_count(ExprV::Or(out)) == clause_sum(out));
        }
    }
}

proof fn lemma_not_fits(ts: Seq<(int, TokenV)>, end: int, d: int, pos: int, cl: int)
    requires
        reads_all(ts),
        0 <= d,
        0 <= cl <= MAX_CLAUSES,
    ensures
        p_not(ts, end, d, pos, cl) matches Ok((e, _, c)) ==> normal(e) && clauses_fit(e)
            && d + nesting_in(e, 1) <= MAX_DEPTH && c == cl + clause_count(e) && c <= MAX_CLAUSES,
    decreases MAX_DEPTH + 2 - d, ts.len() - pos, 0int,
{
    if d > MAX_DEPTH {
    } else if tok(ts, pos) == Some(TokenV::Not) {
        lemma_not_fits(ts, end, d + 1, pos + 1, cl);
    } else if tok(ts, pos) == Some(TokenV::LParen) {
        lemma_expr_fits(ts, end, d + 1, pos + 1, cl);
    } else {
        lemma_clause_fits(ts, end, pos, cl);
    }
}

proof fn lemma_and_rest_fits(ts: Seq<(int, TokenV)>, end: int, d: int, pos: int, cl: int, items: Seq<ExprV>)
    requires
        reads_all(ts),
        0 <= d <= MAX_DEPTH,
        0 <= cl <= MAX_CLAUSES,
        items.len() > 0,
        forall|k: int| 0 <= k < items.len() ==> normal(#[trigger] items[k]) && clauses_fit(items[k]) && d + nesting_in(items[k], 1) <= MAX_DEPTH,
    ensures
        p_and_rest(ts, end, d, pos, cl, items) matches Ok((e, _, c)) ==> normal(e) && clauses_fit(e)
            && d + nesting(e) <= MAX_DEPTH && c + clause_sum(items) == cl + clause_count(e) && c <= MAX_CLAUSES,
    decreases MAX_DEPTH + 2 - d, ts.len() - pos, 1int,
{
    if tok(ts, pos) == Some(TokenV::And) {
        lemma_not_fits(ts, end, d, pos + 1, cl);
        match p_not(ts, end, d, pos + 1, cl) {
            Ok((e, p, c)) => {
                let items2 = items.push(e);
                assert forall|k: int| 0 <= k < items2.len() implies normal(#[trigger] items2[k]) && clauses_fit(items2[k]) && d + nesting_in(items2[k], 1) <= MAX_DEPTH by {
                    if k < items.len() {
                        assert(items2[k] == items[k]);
                    }
                }
                assert(items2.drop_last() =~= items);
                lemma_and_rest_fits(ts, end, d, crate::expr_parse::adv(p, pos + 1, ts.len() as int), c, items2);
            },
            Err(_) => {},
        }
    } else {
        lemma_flatten_fits(items, true, MAX_DEPTH - d);
    }
}

proof fn lemma_and_fits(ts: Seq<(int, TokenV)>, end: int, d: int, pos: int, cl: int)
    requires
        reads_all(ts),
        0 <= d,
        0 <= cl <= MAX_CLAUSES,
    ensures
        p_and(ts, end, d, pos, cl) matches Ok((e, _, c)) ==> normal(e) && clauses_fit(e)
            && d + nesting(e) <= MAX_DEPTH && c == cl + clause_count(e) && c <= MAX_CLAUSES,
    decreases MAX_DEPTH + 2 - d, ts.len() - pos, 2int,
{
    lemma_not_fits(ts, end, d, pos, cl);
    match p_not(ts, end, d, pos, cl) {
        Ok((e, p, c)) => {
            assert(seq![e].drop_last() =~= Seq::<ExprV>::empty());
            assert(clause_sum(seq![e]) == clause_sum(Seq::<ExprV>::empty()) + clause_count(e));
            lemma_and_rest_fits(ts, end, d, crate::expr_parse::adv(p, pos, ts.len() as int), c, seq![e]);
        },
        Err(_) => {},
    }
}

proof fn lemma_or_rest_fits(ts: Seq<(int, TokenV)>, end: int, d: int, pos: int, cl: int, items: Seq<ExprV>)
    requires
        reads_all(ts),
        0 <= d <= MAX_DEPTH,
        0 <= cl <= MAX_CLAUSES,
        items.len() > 0,
        forall|k: int| 0 <= k < items.len() ==> normal(#[trigger] items[k]) && clauses_fit(items[k]) && d + nesting(items[k]) <= MAX_DEPTH,
    ensures
        p_or_rest(ts, end, d, pos, cl, items) matches Ok((e, _, c)) ==> normal(e) && clauses_fit(e)
            && d + nesting(e) <= MAX_DEPTH && c + clause_sum(items) == cl + clause_count(e) && c <= MAX_CLAUSES,
    decreases MAX_DEPTH + 2 - d, ts.len() - pos, 3int,
{
    if tok(ts, pos) == Some(TokenV::Or) {
        lemma_and_fits(ts, end, d, pos + 1, cl);
        match p_and(ts, end, d, pos + 1, cl) {
            Ok((e, p, c)) => {
                let items2 = items.push(e);
                assert forall|k: int| 0 <= k < items2.len() implies normal(#[trigger] items2[k]) && clauses_fit(items2[k]) && d + nesting(items2[k]) <= MAX_DEPTH by {
                    if k < items.len() {
                        assert(items2[k] == items[k]);
                    }
                }
                assert(items2.drop_last() =~= items);
                lemma_or_rest_fits(ts, end, d, crate::expr_parse::adv(p, pos + 1, ts.len() as int), c, items2);
            },
            Err(_) => {},
        }
    } else {
        lemma_flatten_fits(items, false, MAX_DEPTH - d);
    }
}

proof fn lemma_expr_fits(ts: Seq<(int, TokenV)>, end: int, d: int, pos: int, cl: int)
    requires
        reads_all(ts),
        0 <= d,
        0 <= cl <= MAX_CLAUSES,
    ensures
        p_expr(ts, end, d, pos, cl) matches Ok((e, _, c)) ==> normal(e) && clauses_fit(e)
            && d + nesting(e) <= MAX_DEPTH && c == cl + clause_count(e) && c <= MAX_CLAUSES,
    decreases MAX_DEPTH + 2 - d, ts.len() - pos, 4int,
{
    lemma_and_fits(ts, end, d, pos, cl);
    match p_and(ts, end, d, pos, cl) {
        Ok((e, p, c)) => {
            assert(seq![e].drop_last() =~= Seq::<ExprV>::empty());
            assert(clause_sum(seq![e]) == clause_sum(Seq::<ExprV>::empty()) + clause_count(e));
            lemma_or_rest_fits(ts, end, d, crate::expr_parse::adv(p, pos, ts.len() as int), c, seq![e]);
        },
        Err(_) => {},
    }
}

/// What a `where=` text gives is in normal form, says only what the language can say, and
/// stays within the limits on nesting and clauses.
pub proof fn lemma_where_fits(cs: Seq<char>)
    ensures
        where_of(cs) matches Ok(e) ==> normal(e) && clauses_fit(e) && nesting(e) <= MAX_DEPTH && clause_count(e) <= MAX_CLAUSES,
{
    lemma_lex_reads(cs, 0);
    match lex(cs, 0) {
        Ok(ts) => {
            lemma_expr_fits(ts, cs.len() as int, 0, 0, 0);
        },
        Err(_) => {},
    }
}

/// Whatever a `where=` text gives, its canonical text gives again, wherever that text keeps
/// within the length limit: printing a parse and parsing the print is the parse.
pub proof fn law_reparse(cs: Seq<char>)
    requires
        where_of(cs) is Ok,
        encode_utf8(expr_text(where_of(cs)->Ok_0)).len() <= MAX_INPUT_BYTES,
    ensures
        where_of(expr_text(where_of(cs)->Ok_0)) == where_of(cs),
{
    lemma_where_fits(cs);
    law_printed_expression_reads_back(where_of(cs)->Ok_0);
}

} // verus!
