//! The parser of the expression language: recursive descent over the tokens, with every input
//! bounded before and during parsing.
use vstd::prelude::*;
use vstd::utf8::{encode_scalar, encode_utf8};
use crate::expr::{
    error, is_error, lex, tokenize_chars, tokens_view, Op, ParseError, Problem, Token, TokenV,
    MAX_CLAUSES, MAX_DEPTH, MAX_INPUT_BYTES, MAX_LIST_ITEMS,
};
use crate::expr_tree::{
    args_view, exprs_view, flatten, flatten_exprs, lemma_exprs_view, lemma_flatten_normal,
    normal, Arg, ArgV, Call, CallV, Clause, ClauseV, Expr, ExprV, Operand, OperandV,
};
use crate::text::chars_of;

verus! {

broadcast use {vstd::string::group_string_axioms, vstd::utf8::group_utf8_lib};

/* What a parse gives, over the tokens `ts` of an input of `end` characters. */

/// The token at `pos`, where there is one.
pub open spec fn tok(ts: Seq<(int, TokenV)>, pos: int) -> Option<TokenV> {
    if 0 <= pos < ts.len() {
        Some(ts[pos].1)
    } else {
        None
    }
}

/// The character position of the token at `pos`, or the end of the input after the last.
pub open spec fn pos_at(ts: Seq<(int, TokenV)>, pos: int, end: int) -> int {
    if 0 <= pos < ts.len() {
        ts[pos].0
    } else {
        end
    }
}

/// A position that has moved on from `lo`, within `hi`; `lo` for any other.
pub open spec fn adv(p: int, lo: int, hi: int) -> int {
    if lo <= p <= hi {
        p
    } else {
        lo
    }
}

/// The value a token gives in a list or as an argument: a number, or a word or quoted text as
/// a name.
pub open spec fn value_arg(t: Option<TokenV>) -> Option<ArgV> {
    match t {
        Some(TokenV::Num(n)) => Some(ArgV::Num(n)),
        Some(TokenV::Ident(s)) => Some(ArgV::Name(s)),
        Some(TokenV::Str(s)) => Some(ArgV::Name(s)),
        _ => None,
    }
}

/// The values of a list from `pos`, where a value is due, after `items`; and where the list
/// ends after its `)`.
pub open spec fn p_items(ts: Seq<(int, TokenV)>, end: int, pos: int, items: Seq<ArgV>) -> Result<(Seq<ArgV>, int), (int, Problem)>
    decreases ts.len() - pos,
{
    match value_arg(tok(ts, pos)) {
        None => Err((pos_at(ts, pos, end), Problem::ExpectedValue)),
        Some(a) => {
            let items2 = items.push(a);
            if items2.len() > MAX_LIST_ITEMS {
                Err((pos_at(ts, pos + 1, end), Problem::TooManyValues))
            } else if tok(ts, pos + 1) == Some(TokenV::Comma) {
                p_items(ts, end, pos + 2, items2)
            } else if tok(ts, pos + 1) == Some(TokenV::RParen) {
                Ok((items2, pos + 2))
            } else {
                Err((pos_at(ts, pos + 1, end), Problem::ExpectedCommaOrClose))
            }
        },
    }
}

/// `( value, value, ... )`, at least one.
pub open spec fn p_list(ts: Seq<(int, TokenV)>, end: int, pos: int) -> Result<(Seq<ArgV>, int), (int, Problem)> {
    if tok(ts, pos) == Some(TokenV::LParen) {
        p_items(ts, end, pos + 1, Seq::empty())
    } else {
        Err((pos_at(ts, pos, end), Problem::ExpectedOpen))
    }
}

/// A metric, with its arguments where a `(` follows it.
pub open spec fn p_call(ts: Seq<(int, TokenV)>, end: int, pos: int) -> Result<(CallV, int), (int, Problem)> {
    match tok(ts, pos) {
        Some(TokenV::Ident(s)) => {
            if tok(ts, pos + 1) == Some(TokenV::LParen) {
                match p_list(ts, end, pos + 1) {
                    Ok((a, p)) => Ok((CallV { metric: s, args: a }, p)),
                    Err(x) => Err(x),
                }
            } else {
                Ok((CallV { metric: s, args: Seq::empty() }, pos + 1))
            }
        },
        _ => Err((pos_at(ts, pos, end), Problem::ExpectedMetric)),
    }
}

/// An operator: a comparison, `in`, or `not in`.
pub open spec fn p_op(ts: Seq<(int, TokenV)>, end: int, pos: int) -> Result<(Op, int), (int, Problem)> {
    match tok(ts, pos) {
        Some(TokenV::Op(o)) => Ok((o, pos + 1)),
        Some(TokenV::In) => Ok((Op::In, pos + 1)),
        Some(TokenV::Not) => {
            if tok(ts, pos + 1) == Some(TokenV::In) {
                Ok((Op::NotIn, pos + 2))
            } else {
                Err((pos_at(ts, pos + 1, end), Problem::ExpectedInAfterNot))
            }
        },
        _ => Err((pos_at(ts, pos, end), Problem::ExpectedOperator)),
    }
}

/// The right side of a clause: a list after a membership operator, else one value.
pub open spec fn p_operand(ts: Seq<(int, TokenV)>, end: int, op: Op, pos: int) -> Result<(OperandV, int), (int, Problem)> {
    if op == Op::In || op == Op::NotIn {
        match p_list(ts, end, pos) {
            Ok((a, p)) => Ok((OperandV::List(a), p)),
            Err(x) => Err(x),
        }
    } else {
        match tok(ts, pos) {
            Some(TokenV::Num(n)) => Ok((OperandV::Num(n), pos + 1)),
            Some(TokenV::Ident(s)) => Ok((OperandV::Name(s), pos + 1)),
            Some(TokenV::Str(s)) => Ok((OperandV::Name(s), pos + 1)),
            _ => Err((pos_at(ts, pos, end), Problem::ExpectedValue)),
        }
    }
}

/// A clause, the `cl`-th and one more of the expression; at most `MAX_CLAUSES` of them.
pub open spec fn p_clause(ts: Seq<(int, TokenV)>, end: int, pos: int, cl: int) -> Result<(ClauseV, int, int), (int, Problem)> {
    if cl + 1 > MAX_CLAUSES {
        Err((pos_at(ts, pos, end), Problem::TooManyClauses))
    } else {
        match p_call(ts, end, pos) {
            Err(x) => Err(x),
            Ok((c, p1)) => match p_op(ts, end, p1) {
                Err(x) => Err(x),
                Ok((o, p2)) => match p_operand(ts, end, o, p2) {
                    Err(x) => Err(x),
                    Ok((v, p3)) => Ok((ClauseV { call: c, op: o, operand: v }, p3, cl + 1)),
                },
            },
        }
    }
}

/// `a or b or ...` at nesting `depth`, from `pos`, after `cl` clauses: the expression, where
/// it ends, and the clauses then.
pub open spec fn p_expr(ts: Seq<(int, TokenV)>, end: int, depth: int, pos: int, cl: int) -> Result<(ExprV, int, int), (int, Problem)>
    decreases MAX_DEPTH + 2 - depth, ts.len() - pos, 4int,
{
    match p_and(ts, end, depth, pos, cl) {
        Ok((e, p, c)) => p_or_rest(ts, end, depth, adv(p, pos, ts.len() as int), c, seq![e]),
        Err(x) => Err(x),
    }
}

/// More `or` items after `items`.
pub open spec fn p_or_rest(ts: Seq<(int, TokenV)>, end: int, depth: int, pos: int, cl: int, items: Seq<ExprV>) -> Result<(ExprV, int, int), (int, Problem)>
    decreases MAX_DEPTH + 2 - depth, ts.len() - pos, 3int,
{
    if tok(ts, pos) == Some(TokenV::Or) {
        match p_and(ts, end, depth, pos + 1, cl) {
            Ok((e, p, c)) => p_or_rest(ts, end, depth, adv(p, pos + 1, ts.len() as int), c, items.push(e)),
            Err(x) => Err(x),
        }
    } else {
        Ok((flatten(items, false), pos, cl))
    }
}

/// `a and b and ...`.
pub open spec fn p_and(ts: Seq<(int, TokenV)>, end: int, depth: int, pos: int, cl: int) -> Result<(ExprV, int, int), (int, Problem)>
    decreases MAX_DEPTH + 2 - depth, ts.len() - pos, 2int,
{
    match p_not(ts, end, depth, pos, cl) {
        Ok((e, p, c)) => p_and_rest(ts, end, depth, adv(p, pos, ts.len() as int), c, seq![e]),
        Err(x) => Err(x),
    }
}

/// More `and` items after `items`.
pub open spec fn p_and_rest(ts: Seq<(int, TokenV)>, end: int, depth: int, pos: int, cl: int, items: Seq<ExprV>) -> Result<(ExprV, int, int), (int, Problem)>
    decreases MAX_DEPTH + 2 - depth, ts.len() - pos, 1int,
{
    if tok(ts, pos) == Some(TokenV::And) {
        match p_not(ts, end, depth, pos + 1, cl) {
            Ok((e, p, c)) => p_and_rest(ts, end, depth, adv(p, pos + 1, ts.len() as int), c, items.push(e)),
            Err(x) => Err(x),
        }
    } else {
        Ok((flatten(items, true), pos, cl))
    }
}

/// `not x`, `( expression )` or a clause; every level of nesting passes here, and none deeper
/// than `MAX_DEPTH`.
pub open spec fn p_not(ts: Seq<(int, TokenV)>, end: int, depth: int, pos: int, cl: int) -> Result<(ExprV, int, int), (int, Problem)>
    decreases MAX_DEPTH + 2 - depth, ts.len() - pos, 0int,
{
    if depth > MAX_DEPTH {
        Err((pos_at(ts, pos, end), Problem::NestedTooDeeply))
    } else if tok(ts, pos) == Some(TokenV::Not) {
        match p_not(ts, end, depth + 1, pos + 1, cl) {
            Ok((e, p, c)) => Ok((ExprV::Not(Box::new(e)), p, c)),
            Err(x) => Err(x),
        }
    } else if tok(ts, pos) == Some(TokenV::LParen) {
        match p_expr(ts, end, depth + 1, pos + 1, cl) {
            Ok((e, p, c)) => {
                if tok(ts, p) == Some(TokenV::RParen) {
                    Ok((e, p + 1, c))
                } else {
                    Err((pos_at(ts, p, end), Problem::ExpectedClose))
                }
            },
            Err(x) => Err(x),
        }
    } else {
        match p_clause(ts, end, pos, cl) {
            Ok((c, p, k)) => Ok((ExprV::Clause(c), p, k)),
            Err(x) => Err(x),
        }
    }
}

/// More calls after `calls`, each after a comma.
pub open spec fn p_calls_rest(ts: Seq<(int, TokenV)>, end: int, pos: int, calls: Seq<CallV>) -> Result<(Seq<CallV>, int), (int, Problem)>
    decreases ts.len() - pos,
{
    if tok(ts, pos) == Some(TokenV::Comma) {
        match p_call(ts, end, pos + 1) {
            Ok((c, p)) => p_calls_rest(ts, end, adv(p, pos + 1, ts.len() as int), calls.push(c)),
            Err(x) => Err(x),
        }
    } else {
        Ok((calls, pos))
    }
}

/// The bytes a character takes in UTF-8.
pub open spec fn char_width(c: char) -> int {
    encode_scalar(c as u32).len() as int
}

/// How many characters start before byte `b`.
pub open spec fn chars_before(cs: Seq<char>, b: int) -> nat
    decreases cs.len(),
{
    if cs.len() == 0 || b <= 0 {
        0
    } else {
        1 + chars_before(cs.drop_first(), b - char_width(cs[0]))
    }
}

/// An input no longer than `MAX_INPUT_BYTES` bytes, else the error at the character where the
/// limit falls.
pub open spec fn within_limit(cs: Seq<char>) -> Result<(), (int, Problem)> {
    if encode_utf8(cs).len() > MAX_INPUT_BYTES {
        Err((chars_before(cs, MAX_INPUT_BYTES as int) as int, Problem::TooLong))
    } else {
        Ok(())
    }
}

/// What the whole of the tokens gives, as a `where=` expression.
pub open spec fn where_of_tokens(ts: Seq<(int, TokenV)>, end: int) -> Result<ExprV, (int, Problem)> {
    match p_expr(ts, end, 0, 0, 0) {
        Ok((e, p, c)) => if p < ts.len() {
            Err((pos_at(ts, p, end), Problem::UnexpectedInput))
        } else {
            Ok(e)
        },
        Err(x) => Err(x),
    }
}

/// What a `where=` text gives.
pub open spec fn where_of(cs: Seq<char>) -> Result<ExprV, (int, Problem)> {
    match within_limit(cs) {
        Err(x) => Err(x),
        Ok(_) => match lex(cs, 0) {
            Err(x) => Err(x),
            Ok(ts) => where_of_tokens(ts, cs.len() as int),
        },
    }
}

/// What a `sort=` text gives: one call.
pub open spec fn call_of(cs: Seq<char>) -> Result<CallV, (int, Problem)> {
    match within_limit(cs) {
        Err(x) => Err(x),
        Ok(_) => match lex(cs, 0) {
            Err(x) => Err(x),
            Ok(ts) => match p_call(ts, cs.len() as int, 0) {
                Ok((c, p)) => if p < ts.len() {
                    Err((pos_at(ts, p, cs.len() as int), Problem::UnexpectedInput))
                } else {
                    Ok(c)
                },
                Err(x) => Err(x),
            },
        },
    }
}

/// Calls that must reach the end of the tokens.
pub open spec fn calls_finish(r: Result<(Seq<CallV>, int), (int, Problem)>, ts: Seq<(int, TokenV)>, end: int) -> Result<Seq<CallV>, (int, Problem)> {
    match r {
        Err(x) => Err(x),
        Ok((calls, q)) => if q < ts.len() {
            Err((pos_at(ts, q, end), Problem::UnexpectedInput))
        } else {
            Ok(calls)
        },
    }
}

/// What a `metrics=` text gives: calls separated by commas.
pub open spec fn calls_of(cs: Seq<char>) -> Result<Seq<CallV>, (int, Problem)> {
    match within_limit(cs) {
        Err(x) => Err(x),
        Ok(_) => match lex(cs, 0) {
            Err(x) => Err(x),
            Ok(ts) => match p_call(ts, cs.len() as int, 0) {
                Err(x) => Err(x),
                Ok((c, p)) => calls_finish(p_calls_rest(ts, cs.len() as int, adv(p, 0, ts.len() as int), seq![c]), ts, cs.len() as int),
            },
        },
    }
}

/// An error is the problem, at its position, that the spec gives.
pub open spec fn err_matches<T>(r: Result<T, (int, Problem)>, e: ParseError) -> bool {
    r matches Err((at, p)) && is_error(e, at, p)
}

/// A number for each kind of token, nothing after the last.
pub open spec fn tag_of(t: Option<TokenV>) -> u8 {
    match t {
        None => 0,
        Some(TokenV::Ident(_)) => 1,
        Some(TokenV::Num(_)) => 2,
        Some(TokenV::Str(_)) => 3,
        Some(TokenV::LParen) => 4,
        Some(TokenV::RParen) => 5,
        Some(TokenV::Comma) => 6,
        Some(TokenV::Op(_)) => 7,
        Some(TokenV::And) => 8,
        Some(TokenV::Or) => 9,
        Some(TokenV::Not) => 10,
        Some(TokenV::In) => 11,
    }
}

const TAG_LPAREN: u8 = 4;
const TAG_RPAREN: u8 = 5;
const TAG_COMMA: u8 = 6;
const TAG_AND: u8 = 8;
const TAG_OR: u8 = 9;
const TAG_NOT: u8 = 10;
const TAG_IN: u8 = 11;

/// The tokens of an input, where the parse stands in them, and how many clauses it has read.
struct Parser {
    tokens: Vec<(usize, Token)>,
    end: usize,
    pos: usize,
    clauses: usize,
}

impl Parser {
    spec fn ts(&self) -> Seq<(int, TokenV)> {
        tokens_view(self.tokens@)
    }

    spec fn ready(&self) -> bool {
        self.pos <= self.tokens@.len() && self.clauses <= MAX_CLAUSES && self.tokens@.len() <= usize::MAX
    }

    fn peek_tag(&self) -> (res: u8)
        ensures
            res == tag_of(tok(self.ts(), self.pos as int)),
    {
        if self.pos >= self.tokens.len() {
            return 0;
        }
        match &self.tokens[self.pos].1 {
            Token::Ident(_) => 1,
            Token::Num(_) => 2,
            Token::Str(_) => 3,
            Token::LParen => 4,
            Token::RParen => 5,
            Token::Comma => 6,
            Token::Op(_) => 7,
            Token::And => 8,
            Token::Or => 9,
            Token::Not => 10,
            Token::In => 11,
        }
    }

    /// The character position of the current token, or the end of the input.
    fn at(&self) -> (res: usize)
        ensures
            res == pos_at(self.ts(), self.pos as int, self.end as int),
    {
        if self.pos < self.tokens.len() {
            self.tokens[self.pos].0
        } else {
            self.end
        }
    }

    fn err(&self, p: Problem) -> (res: ParseError)
        ensures
            is_error(res, pos_at(self.ts(), self.pos as int, self.end as int), p),
    {
        error(self.at(), p)
    }

    /// The value the current token gives in a list or as an argument.
    fn value(&self) -> (res: Option<Arg>)
        ensures
            match res {
                Some(a) => value_arg(tok(self.ts(), self.pos as int)) == Some(a@),
                None => value_arg(tok(self.ts(), self.pos as int)) is None,
            },
    {
        if self.pos >= self.tokens.len() {
            return None;
        }
        match &self.tokens[self.pos].1 {
            Token::Num(n) => Some(Arg::Num(n.clone())),
            Token::Ident(w) => Some(Arg::Name(w.clone())),
            Token::Str(w) => Some(Arg::Name(w.clone())),
            _ => None,
        }
    }

    fn list(&mut self) -> (res: Result<Vec<Arg>, ParseError>)
        requires
            old(self).ready(),
        ensures
            final(self).tokens@ == old(self).tokens@,
            final(self).end == old(self).end,
            final(self).clauses == old(self).clauses,
            match res {
                Ok(v) => p_list(old(self).ts(), old(self).end as int, old(self).pos as int) == Ok::<(Seq<ArgV>, int), (int, Problem)>((args_view(v@), final(self).pos as int))
                    && old(self).pos < final(self).pos <= final(self).tokens@.len(),
                Err(e) => err_matches(p_list(old(self).ts(), old(self).end as int, old(self).pos as int), e),
            },
    {
        let ghost ts = self.ts();
        let ghost end = self.end as int;
        let ghost pos0 = self.pos as int;
        if self.peek_tag() != TAG_LPAREN {
            return Err(self.err(Problem::ExpectedOpen));
        }
        self.pos += 1;
        let mut items: Vec<Arg> = Vec::new();
        proof {
            assert(args_view(items@) =~= Seq::<ArgV>::empty());
        }
        loop
            invariant
                self.tokens@ == old(self).tokens@,
                self.tokens@.len() <= usize::MAX,
                self.end == old(self).end,
                self.clauses == old(self).clauses,
                ts == self.ts(),
                end == self.end,
                pos0 == old(self).pos,
                pos0 < self.pos <= self.tokens@.len(),
                items@.len() <= MAX_LIST_ITEMS,
                p_list(ts, end, pos0) == p_items(ts, end, self.pos as int, args_view(items@)),
            decreases self.tokens@.len() - self.pos,
        {
            let a = match self.value() {
                Some(a) => a,
                None => {
                    return Err(self.err(Problem::ExpectedValue));
                },
            };
            let ghost before = items@;
            let ghost p = self.pos as int;
            self.pos += 1;
            items.push(a);
            proof {
                assert(args_view(items@) =~= args_view(before).push(a@));
            }
            if items.len() > MAX_LIST_ITEMS {
                return Err(self.err(Problem::TooManyValues));
            }
            let t = self.peek_tag();
            if t == TAG_COMMA {
                self.pos += 1;
            } else if t == TAG_RPAREN {
                self.pos += 1;
                return Ok(items);
            } else {
                return Err(self.err(Problem::ExpectedCommaOrClose));
            }
        }
    }

    fn call(&mut self) -> (res: Result<Call, ParseError>)
        requires
            old(self).ready(),
        ensures
            final(self).tokens@ == old(self).tokens@,
            final(self).end == old(self).end,
            final(self).clauses == old(self).clauses,
            match res {
                Ok(c) => p_call(old(self).ts(), old(self).end as int, old(self).pos as int) == Ok::<(CallV, int), (int, Problem)>((c@, final(self).pos as int))
                    && old(self).pos < final(self).pos <= final(self).tokens@.len(),
                Err(e) => err_matches(p_call(old(self).ts(), old(self).end as int, old(self).pos as int), e),
            },
    {
        if self.pos >= self.tokens.len() {
            return Err(self.err(Problem::ExpectedMetric));
        }
        let metric = match &self.tokens[self.pos].1 {
            Token::Ident(w) => w.clone(),
            _ => {
                return Err(self.err(Problem::ExpectedMetric));
            },
        };
        self.pos += 1;
        if self.peek_tag() == TAG_LPAREN {
            match self.list() {
                Ok(args) => Ok(Call { metric, args }),
                Err(e) => Err(e),
            }
        } else {
            let args: Vec<Arg> = Vec::new();
            proof {
                assert(args_view(args@) =~= Seq::<ArgV>::empty());
            }
            Ok(Call { metric, args })
        }
    }

    fn clause(&mut self) -> (res: Result<Clause, ParseError>)
        requires
            old(self).ready(),
        ensures
            final(self).tokens@ == old(self).tokens@,
            final(self).end == old(self).end,
            match res {
                Ok(c) => p_clause(old(self).ts(), old(self).end as int, old(self).pos as int, old(self).clauses as int)
                    == Ok::<(ClauseV, int, int), (int, Problem)>((c@, final(self).pos as int, final(self).clauses as int))
                    && old(self).pos < final(self).pos <= final(self).tokens@.len()
                    && final(self).clauses <= MAX_CLAUSES,
                Err(e) => err_matches(p_clause(old(self).ts(), old(self).end as int, old(self).pos as int, old(self).clauses as int), e),
            },
    {
        if self.clauses + 1 > MAX_CLAUSES {
            return Err(self.err(Problem::TooManyClauses));
        }
        self.clauses += 1;
        let call = match self.call() {
            Ok(c) => c,
            Err(e) => {
                return Err(e);
            },
        };
        if self.pos >= self.tokens.len() {
            return Err(self.err(Problem::ExpectedOperator));
        }
        let op = match &self.tokens[self.pos].1 {
            Token::Op(o) => {
                self.pos += 1;
                *o
            },
            Token::In => {
                self.pos += 1;
                Op::In
            },
            Token::Not => {
                self.pos += 1;
                if self.peek_tag() == TAG_IN {
                    self.pos += 1;
                    Op::NotIn
                } else {
                    return Err(self.err(Problem::ExpectedInAfterNot));
                }
            },
            _ => {
                return Err(self.err(Problem::ExpectedOperator));
            },
        };
        let operand = if op.is_membership() {
            match self.list() {
                Ok(v) => Operand::List(v),
                Err(e) => {
                    return Err(e);
                },
            }
        } else {
            if self.pos >= self.tokens.len() {
                return Err(self.err(Problem::ExpectedValue));
            }
            let v = match &self.tokens[self.pos].1 {
                Token::Num(n) => Operand::Num(n.clone()),
                Token::Ident(w) => Operand::Name(w.clone()),
                Token::Str(w) => Operand::Name(w.clone()),
                _ => {
                    return Err(self.err(Problem::ExpectedValue));
                },
            };
            self.pos += 1;
            v
        };
        Ok(Clause { call, op, operand })
    }

    fn expr(&mut self, depth: u8) -> (res: Result<Expr, ParseError>)
        requires
            old(self).ready(),
            depth <= MAX_DEPTH + 1,
        ensures
            final(self).tokens@ == old(self).tokens@,
            final(self).end == old(self).end,
            match res {
                Ok(e) => p_expr(old(self).ts(), old(self).end as int, depth as int, old(self).pos as int, old(self).clauses as int)
                    == Ok::<(ExprV, int, int), (int, Problem)>((e@, final(self).pos as int, final(self).clauses as int))
                    && old(self).pos < final(self).pos <= final(self).tokens@.len()
                    && final(self).clauses <= MAX_CLAUSES
                    && normal(e@),
                Err(e) => err_matches(p_expr(old(self).ts(), old(self).end as int, depth as int, old(self).pos as int, old(self).clauses as int), e),
            },
        decreases MAX_DEPTH + 2 - depth, old(self).tokens@.len() - old(self).pos, 4int,
    {
        let ghost ts = self.ts();
        let ghost end = self.end as int;
        let ghost pos0 = self.pos as int;
        let ghost cl0 = self.clauses as int;
        let first = match self.and_expr(depth) {
            Ok(e) => e,
            Err(e) => {
                return Err(e);
            },
        };
        let mut items: Vec<Expr> = Vec::new();
        items.push(first);
        proof {
            lemma_exprs_view(items@);
            assert(exprs_view(items@) =~= seq![first@]);
        }
        while self.peek_tag() == TAG_OR
            invariant
                self.tokens@ == old(self).tokens@,
                self.tokens@.len() <= usize::MAX,
                self.end == old(self).end,
                ts == self.ts(),
                end == self.end,
                pos0 == old(self).pos,
                cl0 == old(self).clauses,
                depth <= MAX_DEPTH + 1,
                pos0 < self.pos <= self.tokens@.len(),
                self.clauses <= MAX_CLAUSES,
                items@.len() > 0,
                forall|i: int| 0 <= i < exprs_view(items@).len() ==> normal(#[trigger] exprs_view(items@)[i]),
                p_expr(ts, end, depth as int, pos0, cl0) == p_or_rest(ts, end, depth as int, self.pos as int, self.clauses as int, exprs_view(items@)),
            decreases self.tokens@.len() - self.pos,
        {
            self.pos += 1;
            let e = match self.and_expr(depth) {
                Ok(e) => e,
                Err(e) => {
                    return Err(e);
                },
            };
            let ghost before = items@;
            items.push(e);
            proof {
                assert(items@.drop_last() =~= before);
                lemma_exprs_view(items@);
                lemma_exprs_view(before);
            }
        }
        proof {
            lemma_exprs_view(items@);
            lemma_flatten_normal(exprs_view(items@), false);
        }
        Ok(flatten_exprs(items, false))
    }

    fn and_expr(&mut self, depth: u8) -> (res: Result<Expr, ParseError>)
        requires
            old(self).ready(),
            depth <= MAX_DEPTH + 1,
        ensures
            final(self).tokens@ == old(self).tokens@,
            final(self).end == old(self).end,
            match res {
                Ok(e) => p_and(old(self).ts(), old(self).end as int, depth as int, old(self).pos as int, old(self).clauses as int)
                    == Ok::<(ExprV, int, int), (int, Problem)>((e@, final(self).pos as int, final(self).clauses as int))
                    && old(self).pos < final(self).pos <= final(self).tokens@.len()
                    && final(self).clauses <= MAX_CLAUSES
                    && normal(e@),
                Err(e) => err_matches(p_and(old(self).ts(), old(self).end as int, depth as int, old(self).pos as int, old(self).clauses as int), e),
            },
        decreases MAX_DEPTH + 2 - depth, old(self).tokens@.len() - old(self).pos, 2int,
    {
        let ghost ts = self.ts();
        let ghost end = self.end as int;
        let ghost pos0 = self.pos as int;
        let ghost cl0 = self.clauses as int;
        let first = match self.not_expr(depth) {
            Ok(e) => e,
            Err(e) => {
                return Err(e);
            },
        };
        let mut items: Vec<Expr> = Vec::new();
        items.push(first);
        proof {
            lemma_exprs_view(items@);
            assert(exprs_view(items@) =~= seq![first@]);
        }
        while self.peek_tag() == TAG_AND
            invariant
                self.tokens@ == old(self).tokens@,
                self.tokens@.len() <= usize::MAX,
                self.end == old(self).end,
                ts == self.ts(),
                end == self.end,
                pos0 == old(self).pos,
                cl0 == old(self).clauses,
                depth <= MAX_DEPTH + 1,
                pos0 < self.pos <= self.tokens@.len(),
                self.clauses <= MAX_CLAUSES,
                items@.len() > 0,
                forall|i: int| 0 <= i < exprs_view(items@).len() ==> normal(#[trigger] exprs_view(items@)[i]),
                p_and(ts, end, depth as int, pos0, cl0) == p_and_rest(ts, end, depth as int, self.pos as int, self.clauses as int, exprs_view(items@)),
            decreases self.tokens@.len() - self.pos,
        {
            self.pos += 1;
            let e = match self.not_expr(depth) {
                Ok(e) => e,
                Err(e) => {
                    return Err(e);
                },
            };
            let ghost before = items@;
            items.push(e);
            proof {
                assert(items@.drop_last() =~= before);
                lemma_exprs_view(items@);
                lemma_exprs_view(before);
            }
        }
        proof {
            lemma_exprs_view(items@);
            lemma_flatten_normal(exprs_view(items@), true);
        }
        Ok(flatten_exprs(items, true))
    }

    fn not_expr(&mut self, depth: u8) -> (res: Result<Expr, ParseError>)
        requires
            old(self).ready(),
            depth <= MAX_DEPTH + 1,
        ensures
            final(self).tokens@ == old(self).tokens@,
            final(self).end == old(self).end,
            match res {
                Ok(e) => p_not(old(self).ts(), old(self).end as int, depth as int, old(self).pos as int, old(self).clauses as int)
                    == Ok::<(ExprV, int, int), (int, Problem)>((e@, final(self).pos as int, final(self).clauses as int))
                    && old(self).pos < final(self).pos <= final(self).tokens@.len()
                    && final(self).clauses <= MAX_CLAUSES
                    && normal(e@),
                Err(e) => err_matches(p_not(old(self).ts(), old(self).end as int, depth as int, old(self).pos as int, old(self).clauses as int), e),
            },
        decreases MAX_DEPTH + 2 - depth, old(self).tokens@.len() - old(self).pos, 0int,
    {
        if depth > MAX_DEPTH {
            return Err(self.err(Problem::NestedTooDeeply));
        }
        let t = self.peek_tag();
        if t == TAG_NOT {
            self.pos += 1;
            match self.not_expr(depth + 1) {
                Ok(e) => {
                    let r = Expr::Not(Box::new(e));
                    proof {
                        assert(r@ == ExprV::Not(Box::new(e@)));
                    }
                    Ok(r)
                },
                Err(e) => Err(e),
            }
        } else if t == TAG_LPAREN {
            self.pos += 1;
            match self.expr(depth + 1) {
                Ok(e) => {
                    if self.peek_tag() == TAG_RPAREN {
                        self.pos += 1;
                        Ok(e)
                    } else {
                        Err(self.err(Problem::ExpectedClose))
                    }
                },
                Err(e) => Err(e),
            }
        } else {
            match self.clause() {
                Ok(c) => Ok(Expr::Clause(c)),
                Err(e) => Err(e),
            }
        }
    }
}


/// The bytes a character takes in UTF-8.
fn utf8_width(c: char) -> (res: usize)
    ensures
        res == char_width(c),
{
    proof {
        vstd::utf8::char_is_scalar(c);
    }
    let u = c as u32;
    if u <= 0x7f {
        1
    } else if u <= 0x7ff {
        2
    } else if u <= 0xffff {
        3
    } else {
        4
    }
}

/// How many characters start before byte `b`.
fn chars_before_exec(cs: &Vec<char>, b: usize) -> (res: usize)
    ensures
        res == chars_before(cs@, b as int),
{
    let mut i: usize = 0;
    let mut start: usize = 0;
    proof {
        assert(cs@.subrange(0, cs@.len() as int) =~= cs@);
    }
    while i < cs.len() && start < b
        invariant
            i <= cs@.len(),
            start <= b,
            chars_before(cs@, b as int) == i + chars_before(cs@.subrange(i as int, cs@.len() as int), b - start),
        decreases cs@.len() - i,
    {
        let w = utf8_width(cs[i]);
        proof {
            let t = cs@.subrange(i as int, cs@.len() as int);
            assert(t[0] == cs@[i as int]);
            assert(t.drop_first() =~= cs@.subrange(i + 1, cs@.len() as int));
        }
        if b - start < w {
            proof {
                let t = cs@.subrange(i + 1, cs@.len() as int);
                assert(chars_before(t, b - start - w) == 0);
            }
            return i + 1;
        }
        start += w;
        i += 1;
    }
    i
}

/// The input within `MAX_INPUT_BYTES` bytes; else the error at the character where the limit
/// falls.
pub fn check_length(s: &str) -> (res: Result<(), ParseError>)
    ensures
        match res {
            Ok(_) => within_limit(s@) is Ok,
            Err(e) => err_matches(within_limit(s@), e),
        },
{
    if s.as_bytes().len() > MAX_INPUT_BYTES {
        let cs = chars_of(s);
        Err(error(chars_before_exec(&cs, MAX_INPUT_BYTES), Problem::TooLong))
    } else {
        Ok(())
    }
}

fn parser_of(s: &str) -> (res: Result<Parser, ParseError>)
    ensures
        match res {
            Ok(p) => within_limit(s@) is Ok && lex(s@, 0) == Ok::<Seq<(int, TokenV)>, (int, Problem)>(p.ts())
                && p.end == s@.len() && p.pos == 0 && p.clauses == 0 && p.ready(),
            Err(e) => within_limit(s@) is Err && err_matches(within_limit(s@), e)
                || within_limit(s@) is Ok && err_matches(lex(s@, 0), e),
        },
{
    match check_length(s) {
        Err(e) => {
            return Err(e);
        },
        Ok(_) => {},
    }
    let cs = chars_of(s);
    match tokenize_chars(&cs) {
        Ok(tokens) => {
            let _n = tokens.len();
            Ok(Parser { tokens, end: cs.len(), pos: 0, clauses: 0 })
        },
        Err(e) => Err(e),
    }
}

/// Parses a `where=` expression from its tokens and the number of characters of its input.
pub fn parse_where_tokens(tokens: Vec<(usize, Token)>, end: usize) -> (res: Result<Expr, ParseError>)
    ensures
        match res {
            Ok(e) => where_of_tokens(tokens_view(tokens@), end as int) == Ok::<ExprV, (int, Problem)>(e@) && normal(e@),
            Err(e) => err_matches(where_of_tokens(tokens_view(tokens@), end as int), e),
        },
{
    let _n = tokens.len();
    let mut p = Parser { tokens, end, pos: 0, clauses: 0 };
    let e = match p.expr(0) {
        Ok(e) => e,
        Err(e) => {
            return Err(e);
        },
    };
    if p.pos < p.tokens.len() {
        return Err(p.err(Problem::UnexpectedInput));
    }
    Ok(e)
}

/// Parses a `where=` expression: clauses combined by `and`, `or`, `not` and parentheses. Its
/// `and` and `or` come flat: no combination holds one of its own kind.
pub fn parse_where(s: &str) -> (res: Result<Expr, ParseError>)
    ensures
        match res {
            Ok(e) => where_of(s@) == Ok::<ExprV, (int, Problem)>(e@) && normal(e@),
            Err(e) => err_matches(where_of(s@), e),
        },
{
    let p = match parser_of(s) {
        Ok(p) => p,
        Err(e) => {
            return Err(e);
        },
    };
    parse_where_tokens(p.tokens, p.end)
}

/// Parses one call: `field_score(oncology)`.
pub fn parse_call(s: &str) -> (res: Result<Call, ParseError>)
    ensures
        match res {
            Ok(c) => call_of(s@) == Ok::<CallV, (int, Problem)>(c@),
            Err(e) => err_matches(call_of(s@), e),
        },
{
    let mut p = match parser_of(s) {
        Ok(p) => p,
        Err(e) => {
            return Err(e);
        },
    };
    let c = match p.call() {
        Ok(c) => c,
        Err(e) => {
            return Err(e);
        },
    };
    if p.pos < p.tokens.len() {
        return Err(p.err(Problem::UnexpectedInput));
    }
    Ok(c)
}

/// The views of calls.
pub open spec fn calls_view(v: Seq<Call>) -> Seq<CallV> {
    v.map_values(|c: Call| c@)
}

/// Parses calls separated by commas: `field_share(oncology), window_papers(2020, 2024)`.
pub fn parse_calls(s: &str) -> (res: Result<Vec<Call>, ParseError>)
    ensures
        match res {
            Ok(v) => calls_of(s@) == Ok::<Seq<CallV>, (int, Problem)>(calls_view(v@)),
            Err(e) => err_matches(calls_of(s@), e),
        },
{
    let mut p = match parser_of(s) {
        Ok(p) => p,
        Err(e) => {
            return Err(e);
        },
    };
    let ghost ts = p.ts();
    let ghost end = p.end as int;
    let first = match p.call() {
        Ok(c) => c,
        Err(e) => {
            return Err(e);
        },
    };
    let ghost p1 = p.pos as int;
    proof {
        assert(adv(p1, 0, ts.len() as int) == p1);
        assert(calls_of(s@) == calls_finish(p_calls_rest(ts, end, p1, seq![first@]), ts, end));
    }
    let mut calls: Vec<Call> = Vec::new();
    calls.push(first);
    proof {
        assert(calls_view(calls@) =~= seq![first@]);
    }
    while p.peek_tag() == TAG_COMMA
        invariant
            ts == p.ts(),
            end == p.end,
            p.ready(),
            0 < p1 <= p.pos,
            p_calls_rest(ts, end, p1, seq![first@]) == p_calls_rest(ts, end, p.pos as int, calls_view(calls@)),
            calls_of(s@) == calls_finish(p_calls_rest(ts, end, p1, seq![first@]), ts, end),
        decreases p.tokens@.len() - p.pos,
    {
        let ghost pb = p.pos as int;
        proof {
            assert(tok(ts, pb) == Some(TokenV::Comma));
        }
        p.pos += 1;
        let c = match p.call() {
            Ok(c) => c,
            Err(e) => {
                proof {
                    assert(p_call(ts, end, pb + 1) is Err);
                    assert(p_calls_rest(ts, end, pb, calls_view(calls@)) is Err);
                    assert(err_matches(p_calls_rest(ts, end, pb, calls_view(calls@)), e));
                }
                return Err(e);
            },
        };
        let ghost before = calls@;
        calls.push(c);
        proof {
            assert(calls_view(calls@) =~= calls_view(before).push(c@));
        }
    }
    if p.pos < p.tokens.len() {
        return Err(p.err(Problem::UnexpectedInput));
    }
    Ok(calls)
}

} // verus!
