//! The lexer on printed text: each piece of the canonical text gives back its tokens.
use vstd::prelude::*;
use crate::expr::{
    digits_end, is_alpha, is_digit, is_space, is_word_char, lex, lex_step, mantissa_end,
    number_end, readable_mantissa, scan_string, word_end, word_token, Op, Problem, TokenV,
};
use crate::expr_reread::{
    arg_reads, arg_token, args_read, args_tokens, call_tokens, clause_fits, clause_tokens,
    clauses_fit, expr_tokens, join_tokens, kinds, list_tokens, name_token, op_tokens,
    operand_tokens, paren_tokens,
};
use crate::expr_text::{
    arg_text, args_text, bare_name, call_text, clause_text, escaped, escaped_char, expr_text,
    join_text, name_text, op_text, operand_text, paren_text, strength,
};
use crate::expr_tree::{ArgV, CallV, ClauseV, ExprV, OperandV};

verus! {

/* What the lexer gives from a position. */

/// The kinds of the tokens a lex gives, or its error.
pub open spec fn lex_kinds(r: Result<Seq<(int, TokenV)>, (int, Problem)>) -> Result<Seq<TokenV>, (int, Problem)> {
    match r {
        Ok(ts) => Ok(kinds(ts)),
        Err(x) => Err(x),
    }
}

/// `toks` before what a lex gives.
pub open spec fn prefixed(toks: Seq<TokenV>, r: Result<Seq<TokenV>, (int, Problem)>) -> Result<Seq<TokenV>, (int, Problem)> {
    match r {
        Ok(k) => Ok(toks + k),
        Err(x) => Err(x),
    }
}

/// Lexing from `i` gives `toks` and then what lexing from `j` gives.
pub open spec fn lexes(cs: Seq<char>, i: int, j: int, toks: Seq<TokenV>) -> bool {
    lex_kinds(lex(cs, i)) == prefixed(toks, lex_kinds(lex(cs, j)))
}

/// The text `t` stands in `cs` at `i`.
pub open spec fn text_at(cs: Seq<char>, i: int, t: Seq<char>) -> bool {
    &&& 0 <= i
    &&& i + t.len() <= cs.len()
    &&& cs.subrange(i, i + t.len()) == t
}

/// A character that ends any word or number before it.
pub open spec fn is_stop(c: char) -> bool {
    c == ' ' || c == '(' || c == ')' || c == ','
}

/// The text ends at `j`, or a stop follows there.
pub open spec fn stop_after(cs: Seq<char>, j: int) -> bool {
    j == cs.len() || (0 <= j < cs.len() && is_stop(cs[j]))
}

/// Lexing runs on: tokens from `i` to `j`, then from `j` to `k`.
pub proof fn lemma_lexes_trans(cs: Seq<char>, i: int, j: int, k: int, a: Seq<TokenV>, b: Seq<TokenV>)
    requires
        lexes(cs, i, j, a),
        lexes(cs, j, k, b),
    ensures
        lexes(cs, i, k, a + b),
{
    match lex_kinds(lex(cs, k)) {
        Ok(r) => {
            assert(a + (b + r) =~= (a + b) + r);
        },
        Err(_) => {},
    }
}

/// Lexing from a position gives nothing before what lexing from it gives.
pub proof fn lemma_lexes_here(cs: Seq<char>, i: int)
    ensures
        lexes(cs, i, i, Seq::empty()),
{
    match lex_kinds(lex(cs, i)) {
        Ok(r) => {
            assert(Seq::<TokenV>::empty() + r =~= r);
        },
        Err(_) => {},
    }
}

/// A text that stands somewhere is its parts, each at its place.
pub proof fn lemma_text_split(cs: Seq<char>, i: int, a: Seq<char>, b: Seq<char>)
    requires
        text_at(cs, i, a + b),
    ensures
        text_at(cs, i, a),
        text_at(cs, i + a.len(), b),
        b.len() > 0 ==> cs[i + a.len()] == b[0],
{
    assert(cs.subrange(i, i + a.len()) =~= (a + b).subrange(0, a.len() as int));
    assert((a + b).subrange(0, a.len() as int) =~= a);
    assert(cs.subrange(i + a.len(), i + a.len() + b.len()) =~= (a + b).subrange(a.len() as int, (a + b).len() as int));
    assert((a + b).subrange(a.len() as int, (a + b).len() as int) =~= b);
    if b.len() > 0 {
        assert(cs.subrange(i, i + (a + b).len())[a.len() as int] == cs[i + a.len()]);
    }
}

/// A character of a text that stands somewhere.
pub proof fn lemma_text_char(cs: Seq<char>, i: int, t: Seq<char>, k: int)
    requires
        text_at(cs, i, t),
        0 <= k < t.len(),
    ensures
        cs[i + k] == t[k],
{
    assert(cs.subrange(i, i + t.len())[k] == cs[i + k]);
}

/// One token from `i` to `e`.
proof fn lemma_lex_unit(cs: Seq<char>, i: int, e: int, t: TokenV)
    requires
        0 <= i < e <= cs.len(),
        !is_space(cs[i]),
        lex_step(cs, i) == Ok::<(TokenV, int), Problem>((t, e)),
    ensures
        lexes(cs, i, e, seq![t]),
{
    match lex(cs, e) {
        Ok(rest) => {
            assert(kinds(seq![(i, t)] + rest) =~= seq![t] + kinds(rest));
        },
        Err(_) => {},
    }
}

/// A space is skipped.
pub proof fn lemma_lex_space(cs: Seq<char>, i: int)
    requires
        0 <= i < cs.len(),
        cs[i] == ' ',
    ensures
        lexes(cs, i, i + 1, Seq::empty()),
{
    lemma_lexes_here(cs, i + 1);
}

/// `(`, `)` or `,`.
pub proof fn lemma_lex_punct(cs: Seq<char>, i: int)
    requires
        0 <= i < cs.len(),
        cs[i] == '(' || cs[i] == ')' || cs[i] == ',',
    ensures
        cs[i] == '(' ==> lexes(cs, i, i + 1, seq![TokenV::LParen]),
        cs[i] == ')' ==> lexes(cs, i, i + 1, seq![TokenV::RParen]),
        cs[i] == ',' ==> lexes(cs, i, i + 1, seq![TokenV::Comma]),
{
    if cs[i] == '(' {
        lemma_lex_unit(cs, i, i + 1, TokenV::LParen);
    } else if cs[i] == ')' {
        lemma_lex_unit(cs, i, i + 1, TokenV::RParen);
    } else {
        lemma_lex_unit(cs, i, i + 1, TokenV::Comma);
    }
}

/* Words. */

proof fn lemma_word_run(cs: Seq<char>, k: int, j: int)
    requires
        0 <= k <= j <= cs.len(),
        forall|x: int| k <= x < j ==> is_word_char(#[trigger] cs[x]),
        stop_after(cs, j),
    ensures
        word_end(cs, k) == j,
    decreases j - k,
{
    if k < j {
        lemma_word_run(cs, k + 1, j);
    }
}

/// A word the lexer reads as one token.
pub open spec fn is_word(w: Seq<char>) -> bool {
    &&& w.len() > 0
    &&& (is_alpha(w[0]) || w[0] == '_')
    &&& forall|x: int| 0 <= x < w.len() ==> is_word_char(#[trigger] w[x])
}

/// A word, with a stop after it, is one token.
pub proof fn lemma_lex_word(cs: Seq<char>, i: int, w: Seq<char>)
    requires
        is_word(w),
        text_at(cs, i, w),
        stop_after(cs, i + w.len()),
    ensures
        lexes(cs, i, i + w.len(), seq![word_token(w)]),
{
    lemma_text_char(cs, i, w, 0);
    assert forall|x: int| i + 1 <= x < i + w.len() implies is_word_char(#[trigger] cs[x]) by {
        lemma_text_char(cs, i, w, x - i);
    }
    lemma_word_run(cs, i + 1, i + w.len());
    lemma_lex_unit(cs, i, i + w.len(), word_token(w));
}

proof fn lemma_keywords()
    ensures
        is_word("and"@) && word_token("and"@) == TokenV::And,
        is_word("or"@) && word_token("or"@) == TokenV::Or,
        is_word("not"@) && word_token("not"@) == TokenV::Not,
        is_word("in"@) && word_token("in"@) == TokenV::In,
{
    reveal_strlit("and");
    reveal_strlit("or");
    reveal_strlit("not");
    reveal_strlit("in");
    assert(!crate::expr::word_is("or"@, "and"@));
    assert(crate::expr::ascii_lower("not"@[0]) != "and"@[0]);
    assert(!crate::expr::word_is("not"@, "and"@));
    assert(!crate::expr::word_is("not"@, "or"@));
    assert(!crate::expr::word_is("in"@, "and"@));
    assert(crate::expr::ascii_lower("in"@[0]) != "or"@[0]);
    assert(!crate::expr::word_is("in"@, "or"@));
    assert(!crate::expr::word_is("in"@, "not"@));
}

/// A keyword, with a stop after it.
pub proof fn lemma_lex_keyword(cs: Seq<char>, i: int, w: Seq<char>, t: TokenV)
    requires
        (w == "and"@ && t == TokenV::And) || (w == "or"@ && t == TokenV::Or) || (w == "not"@ && t == TokenV::Not) || (w == "in"@ && t == TokenV::In),
        text_at(cs, i, w),
        stop_after(cs, i + w.len()),
    ensures
        lexes(cs, i, i + w.len(), seq![t]),
{
    lemma_keywords();
    lemma_lex_word(cs, i, w);
}

/* Operators. */

/// An operator's text, with a stop after it, is its tokens.
pub proof fn lemma_lex_op(cs: Seq<char>, i: int, o: Op)
    requires
        text_at(cs, i, op_text(o)),
        stop_after(cs, i + op_text(o).len()),
    ensures
        lexes(cs, i, i + op_text(o).len(), op_tokens(o)),
{
    reveal_strlit("=");
    reveal_strlit("!=");
    reveal_strlit("<");
    reveal_strlit("<=");
    reveal_strlit(">");
    reveal_strlit(">=");
    reveal_strlit("not in");
    let t = op_text(o);
    match o {
        Op::In => {
            lemma_lex_keyword(cs, i, "in"@, TokenV::In);
        },
        Op::NotIn => {
            reveal_strlit("not");
            reveal_strlit("in");
            assert(t =~= "not"@ + (seq![' '] + "in"@));
            lemma_text_split(cs, i, "not"@, seq![' '] + "in"@);
            lemma_text_split(cs, i + 3, seq![' '], "in"@);
            lemma_lex_keyword(cs, i, "not"@, TokenV::Not);
            lemma_lex_space(cs, i + 3);
            lemma_lex_keyword(cs, i + 4, "in"@, TokenV::In);
            lemma_lexes_trans(cs, i, i + 3, i + 4, seq![TokenV::Not], Seq::empty());
            lemma_lexes_trans(cs, i, i + 4, i + 6, seq![TokenV::Not] + Seq::empty(), seq![TokenV::In]);
            assert(seq![TokenV::Not] + Seq::<TokenV>::empty() + seq![TokenV::In] =~= op_tokens(o));
        },
        _ => {
            assert(t.len() >= 1);
            lemma_text_char(cs, i, t, 0);
            if t.len() > 1 {
                lemma_text_char(cs, i, t, 1);
            }
            lemma_lex_unit(cs, i, i + t.len(), TokenV::Op(o));
        },
    }
}

/* Quoted names. */

proof fn lemma_escaped_front(s: Seq<char>)
    requires
        s.len() > 0,
    ensures
        escaped(s) == escaped_char(s[0]) + escaped(s.drop_first()),
    decreases s.len(),
{
    if s.len() == 1 {
        assert(s.drop_last() =~= Seq::<char>::empty());
        assert(s.drop_first() =~= Seq::<char>::empty());
        assert(escaped(s) =~= escaped_char(s[0]) + escaped(s.drop_first()));
    } else {
        lemma_escaped_front(s.drop_last());
        assert(s.drop_last().drop_first() =~= s.drop_first().drop_last());
        assert(s.drop_first().last() == s.last());
        assert(escaped(s) =~= escaped_char(s[0]) + escaped(s.drop_first()));
    }
}

proof fn lemma_scan_escaped(cs: Seq<char>, j: int, s: Seq<char>)
    requires
        text_at(cs, j, escaped(s) + seq!['"']),
    ensures
        scan_string(cs, j, '"') == Some((s, j + escaped(s).len() + 1)),
    decreases s.len(),
{
    if s.len() == 0 {
        lemma_text_char(cs, j, escaped(s) + seq!['"'], 0);
    } else {
        lemma_escaped_front(s);
        let first = escaped_char(s[0]);
        let rest = escaped(s.drop_first());
        assert(escaped(s) + seq!['"'] =~= first + (rest + seq!['"']));
        lemma_text_split(cs, j, first, rest + seq!['"']);
        lemma_text_char(cs, j, first, 0);
        if first.len() == 2 {
            lemma_text_char(cs, j, first, 1);
        }
        lemma_scan_escaped(cs, j + first.len(), s.drop_first());
        assert(seq![s[0]] + s.drop_first() =~= s);
    }
}

/// A name in quotes.
pub proof fn lemma_lex_quoted(cs: Seq<char>, i: int, s: Seq<char>)
    requires
        text_at(cs, i, seq!['"'] + escaped(s) + seq!['"']),
    ensures
        lexes(cs, i, i + escaped(s).len() + 2, seq![TokenV::Str(s)]),
{
    let t = seq!['"'] + escaped(s) + seq!['"'];
    assert(t =~= seq!['"'] + (escaped(s) + seq!['"']));
    lemma_text_split(cs, i, seq!['"'], escaped(s) + seq!['"']);
    lemma_text_char(cs, i, t, 0);
    lemma_scan_escaped(cs, i + 1, s);
    lemma_lex_unit(cs, i, i + escaped(s).len() + 2, TokenV::Str(s));
}

/* Numbers. */

/// The exponent of a number from `m`: `e` or `E`, an optional sign, and digits to the end.
pub open spec fn exponent_ok(n: Seq<char>, m: int) -> bool {
    let j = if m + 1 < n.len() && (n[m + 1] == '-' || n[m + 1] == '+') { m + 2 } else { m + 1 };
    &&& 0 <= m < n.len()
    &&& (n[m] == 'e' || n[m] == 'E')
    &&& j < n.len()
    &&& forall|x: int| j <= x < n.len() ==> is_digit(#[trigger] n[x])
}

/// A number as the lexer reads it whole: an optional minus, digits and dots with one dot at
/// most and a digit at least, and an exponent with digits where there is one.
pub open spec fn num_ok(n: Seq<char>) -> bool {
    let ms: int = if n.len() > 0 && n[0] == '-' { 1 } else { 0 };
    let m = mantissa_end(n, ms);
    &&& ms < n.len()
    &&& readable_mantissa(n.subrange(ms, m))
    &&& (m == n.len() || exponent_ok(n, m))
}

proof fn lemma_mantissa_run(cs: Seq<char>, k: int, j: int)
    requires
        0 <= k <= j <= cs.len(),
        forall|x: int| k <= x < j ==> is_digit(#[trigger] cs[x]) || cs[x] == '.',
        j < cs.len() ==> !(is_digit(cs[j]) || cs[j] == '.'),
    ensures
        mantissa_end(cs, k) == j,
    decreases j - k,
{
    if k < j {
        lemma_mantissa_run(cs, k + 1, j);
    }
}

proof fn lemma_digits_run(cs: Seq<char>, k: int, j: int)
    requires
        0 <= k <= j <= cs.len(),
        forall|x: int| k <= x < j ==> is_digit(#[trigger] cs[x]),
        j < cs.len() ==> !is_digit(cs[j]),
    ensures
        digits_end(cs, k) == j,
    decreases j - k,
{
    if k < j {
        lemma_digits_run(cs, k + 1, j);
    }
}

proof fn lemma_digit_count_pos(m: Seq<char>)
    requires
        crate::expr::digit_count(m) >= 1,
    ensures
        m.len() >= 1,
{
}

/// A number that reads whole, with a stop after it, is one number token.
pub proof fn lemma_lex_number(cs: Seq<char>, i: int, n: Seq<char>)
    requires
        num_ok(n),
        text_at(cs, i, n),
        stop_after(cs, i + n.len()),
    ensures
        lexes(cs, i, i + n.len(), seq![TokenV::Num(n)]),
{
    let ms: int = if n.len() > 0 && n[0] == '-' { 1 } else { 0 };
    crate::expr::lemma_mantissa_end(n, ms);
    let m = mantissa_end(n, ms);
    lemma_digit_count_pos(n.subrange(ms, m));
    assert forall|x: int| 0 <= x < n.len() implies cs[i + x] == #[trigger] n[x] by {
        lemma_text_char(cs, i, n, x);
    }
    assert forall|x: int| i + ms <= x < i + m implies is_digit(#[trigger] cs[x]) || cs[x] == '.' by {
        assert(cs[x] == n[x - i]);
    }
    if m < n.len() {
        assert(cs[i + m] == n[m]);
    }
    lemma_mantissa_run(cs, i + ms, i + m);
    assert(cs.subrange(i + ms, i + m) =~= n.subrange(ms, m));
    assert(cs[i + ms] == n[ms]);
    if m < n.len() {
        let j = if m + 1 < n.len() && (n[m + 1] == '-' || n[m + 1] == '+') { m + 2 } else { m + 1 };
        assert(cs[i + m + 1] == n[m + 1]);
        assert(cs[i + j] == n[j]);
        assert forall|x: int| i + j <= x < i + n.len() implies is_digit(#[trigger] cs[x]) by {
            assert(cs[x] == n[x - i]);
        }
        lemma_digits_run(cs, i + j, i + n.len());
    }
    assert(cs.subrange(i, i + n.len()) == n);
    assert(cs[i] == n[0]);
    if ms == 1 {
        assert(cs[i + 1] == n[1]);
    }
    lemma_lex_unit(cs, i, i + n.len(), TokenV::Num(n));
}

/* The pieces of a clause. */

/// A name's text is its token.
pub proof fn lemma_lex_name(cs: Seq<char>, i: int, s: Seq<char>)
    requires
        text_at(cs, i, name_text(s)),
        stop_after(cs, i + name_text(s).len()),
    ensures
        lexes(cs, i, i + name_text(s).len(), seq![name_token(s)]),
{
    if bare_name(s) {
        lemma_lex_word(cs, i, s);
    } else {
        lemma_lex_quoted(cs, i, s);
    }
}

/// A value's text is its token.
pub proof fn lemma_lex_arg(cs: Seq<char>, i: int, a: ArgV)
    requires
        arg_reads(a),
        text_at(cs, i, arg_text(a)),
        stop_after(cs, i + arg_text(a).len()),
    ensures
        lexes(cs, i, i + arg_text(a).len(), seq![arg_token(a)]),
{
    match a {
        ArgV::Num(n) => lemma_lex_number(cs, i, n),
        ArgV::Name(s) => lemma_lex_name(cs, i, s),
    }
}

/// Values separated by `, ` are their tokens separated by commas.
pub proof fn lemma_lex_args(cs: Seq<char>, i: int, args: Seq<ArgV>)
    requires
        args_read(args),
        text_at(cs, i, args_text(args)),
        stop_after(cs, i + args_text(args).len()),
    ensures
        lexes(cs, i, i + args_text(args).len(), args_tokens(args)),
    decreases args.len(),
{
    reveal_strlit(", ");
    if args.len() == 0 {
        lemma_lexes_here(cs, i);
    } else if args.len() == 1 {
        lemma_lex_arg(cs, i, args[0]);
    } else {
        let front = args.drop_last();
        let f = args_text(front);
        let l = arg_text(args.last());
        assert(args_text(args) == f + ", "@ + l);
        assert(f + ", "@ + l =~= f + (seq![','] + (seq![' '] + l)));
        lemma_text_split(cs, i, f, seq![','] + (seq![' '] + l));
        lemma_text_split(cs, i + f.len(), seq![','], seq![' '] + l);
        lemma_text_split(cs, i + f.len() + 1, seq![' '], l);
        assert forall|k: int| 0 <= k < front.len() implies arg_reads(#[trigger] front[k]) by {
            assert(front[k] == args[k]);
        }
        assert(arg_reads(args[args.len() - 1]));
        lemma_lex_args(cs, i, front);
        lemma_lex_punct(cs, i + f.len());
        lemma_lex_space(cs, i + f.len() + 1);
        lemma_lex_arg(cs, i + f.len() + 2, args.last());
        lemma_lexes_trans(cs, i, i + f.len(), i + f.len() + 1, args_tokens(front), seq![TokenV::Comma]);
        lemma_lexes_trans(cs, i, i + f.len() + 1, i + f.len() + 2, args_tokens(front) + seq![TokenV::Comma], Seq::empty());
        lemma_lexes_trans(cs, i, i + f.len() + 2, i + f.len() + 2 + l.len(), args_tokens(front) + seq![TokenV::Comma] + Seq::empty(), seq![arg_token(args.last())]);
        assert(args_tokens(front) + seq![TokenV::Comma] + Seq::empty() + seq![arg_token(args.last())] =~= args_tokens(args));
    }
}

/// Values in parentheses are their tokens in parentheses.
pub proof fn lemma_lex_list(cs: Seq<char>, i: int, args: Seq<ArgV>)
    requires
        args_read(args),
        text_at(cs, i, "("@ + args_text(args) + ")"@),
    ensures
        lexes(cs, i, i + args_text(args).len() + 2, list_tokens(args)),
{
    reveal_strlit("(");
    reveal_strlit(")");
    let a = args_text(args);
    assert("("@ + a + ")"@ =~= seq!['('] + (a + seq![')']));
    lemma_text_split(cs, i, seq!['('], a + seq![')']);
    lemma_text_split(cs, i + 1, a, seq![')']);
    lemma_text_char(cs, i, seq!['('], 0);
    lemma_lex_punct(cs, i);
    lemma_lex_args(cs, i + 1, args);
    lemma_lex_punct(cs, i + 1 + a.len());
    lemma_lexes_trans(cs, i, i + 1, i + 1 + a.len(), seq![TokenV::LParen], args_tokens(args));
    lemma_lexes_trans(cs, i, i + 1 + a.len(), i + 2 + a.len(), seq![TokenV::LParen] + args_tokens(args), seq![TokenV::RParen]);
}

/// A call's text is its tokens.
pub proof fn lemma_lex_call(cs: Seq<char>, i: int, c: CallV)
    requires
        bare_name(c.metric),
        args_read(c.args),
        text_at(cs, i, call_text(c)),
        stop_after(cs, i + call_text(c).len()),
    ensures
        lexes(cs, i, i + call_text(c).len(), call_tokens(c)),
{
    reveal_strlit("(");
    reveal_strlit(")");
    let m = c.metric;
    assert(word_token(m) == TokenV::Ident(m));
    if c.args.len() > 0 {
        let rest = "("@ + args_text(c.args) + ")"@;
        assert(call_text(c) =~= m + rest);
        lemma_text_split(cs, i, m, rest);
        lemma_lex_word(cs, i, m);
        lemma_lex_list(cs, i + m.len(), c.args);
        lemma_lexes_trans(cs, i, i + m.len(), i + m.len() + rest.len(), seq![TokenV::Ident(m)], list_tokens(c.args));
    } else {
        lemma_lex_word(cs, i, m);
    }
}

/// The right side of a clause reads back, where the language can say it.
pub open spec fn operand_reads(v: OperandV) -> bool {
    match v {
        OperandV::Num(n) => num_ok(n),
        OperandV::Name(_) => true,
        OperandV::List(items) => args_read(items),
    }
}

/// The text of a clause's right side is its tokens.
pub proof fn lemma_lex_operand(cs: Seq<char>, i: int, v: OperandV)
    requires
        operand_reads(v),
        text_at(cs, i, operand_text(v)),
        stop_after(cs, i + operand_text(v).len()),
    ensures
        lexes(cs, i, i + operand_text(v).len(), operand_tokens(v)),
{
    match v {
        OperandV::Num(n) => lemma_lex_number(cs, i, n),
        OperandV::Name(s) => lemma_lex_name(cs, i, s),
        OperandV::List(items) => {
            reveal_strlit("(");
            reveal_strlit(")");
            lemma_lex_list(cs, i, items);
        },
    }
}

/// A clause's text is its tokens.
pub proof fn lemma_lex_clause(cs: Seq<char>, i: int, c: ClauseV)
    requires
        clause_fits(c),
        text_at(cs, i, clause_text(c)),
        stop_after(cs, i + clause_text(c).len()),
    ensures
        lexes(cs, i, i + clause_text(c).len(), clause_tokens(c)),
{
    reveal_strlit(" ");
    let ct = call_text(c.call);
    let ot = op_text(c.op);
    let vt = operand_text(c.operand);
    assert(clause_text(c) =~= ct + (seq![' '] + (ot + (seq![' '] + vt))));
    lemma_text_split(cs, i, ct, seq![' '] + (ot + (seq![' '] + vt)));
    let i1 = i + ct.len();
    lemma_text_split(cs, i1, seq![' '], ot + (seq![' '] + vt));
    let i2 = i1 + 1;
    lemma_text_split(cs, i2, ot, seq![' '] + vt);
    let i3 = i2 + ot.len();
    lemma_text_split(cs, i3, seq![' '], vt);
    let i4 = i3 + 1;
    lemma_lex_call(cs, i, c.call);
    lemma_lex_space(cs, i1);
    lemma_lex_op(cs, i2, c.op);
    lemma_lex_space(cs, i3);
    lemma_lex_operand(cs, i4, c.operand);
    let k1 = call_tokens(c.call);
    let k2 = op_tokens(c.op);
    let k3 = operand_tokens(c.operand);
    lemma_lexes_trans(cs, i, i1, i2, k1, Seq::empty());
    lemma_lexes_trans(cs, i, i2, i3, k1 + Seq::empty(), k2);
    lemma_lexes_trans(cs, i, i3, i4, k1 + Seq::empty() + k2, Seq::empty());
    lemma_lexes_trans(cs, i, i4, i4 + vt.len(), k1 + Seq::empty() + k2 + Seq::empty(), k3);
    assert(k1 + Seq::empty() + k2 + Seq::empty() + k3 =~= clause_tokens(c));
}

/* Expressions. */

/// An expression's canonical text is its tokens.
pub proof fn lemma_lex_expr(cs: Seq<char>, i: int, e: ExprV)
    requires
        clauses_fit(e),
        text_at(cs, i, expr_text(e)),
        stop_after(cs, i + expr_text(e).len()),
    ensures
        lexes(cs, i, i + expr_text(e).len(), expr_tokens(e)),
    decreases e, 0int,
{
    match e {
        ExprV::Clause(c) => lemma_lex_clause(cs, i, c),
        ExprV::And(items) => lemma_lex_join(cs, i, items, true),
        ExprV::Or(items) => lemma_lex_join(cs, i, items, false),
        ExprV::Not(b) => {
            reveal_strlit("not ");
            reveal_strlit("not");
            let p = paren_text(*b, 1);
            assert(expr_text(e) =~= "not"@ + (seq![' '] + p));
            lemma_text_split(cs, i, "not"@, seq![' '] + p);
            lemma_text_split(cs, i + 3, seq![' '], p);
            lemma_lex_keyword(cs, i, "not"@, TokenV::Not);
            lemma_lex_space(cs, i + 3);
            lemma_lex_paren(cs, i + 4, *b, 1);
            lemma_lexes_trans(cs, i, i + 3, i + 4, seq![TokenV::Not], Seq::empty());
            lemma_lexes_trans(cs, i, i + 4, i + 4 + p.len(), seq![TokenV::Not] + Seq::empty(), paren_tokens(*b, 1));
            assert(seq![TokenV::Not] + Seq::empty() + paren_tokens(*b, 1) =~= expr_tokens(e));
        },
    }
}

/// A child's text, in parentheses where it needs them, is its tokens.
pub proof fn lemma_lex_paren(cs: Seq<char>, i: int, e: ExprV, parent: int)
    requires
        clauses_fit(e),
        text_at(cs, i, paren_text(e, parent)),
        stop_after(cs, i + paren_text(e, parent).len()),
    ensures
        lexes(cs, i, i + paren_text(e, parent).len(), paren_tokens(e, parent)),
    decreases e, 1int,
{
    if strength(e) > parent {
        reveal_strlit("(");
        reveal_strlit(")");
        let x = expr_text(e);
        assert(paren_text(e, parent) =~= seq!['('] + (x + seq![')']));
        lemma_text_split(cs, i, seq!['('], x + seq![')']);
        lemma_text_split(cs, i + 1, x, seq![')']);
        lemma_text_char(cs, i, seq!['('], 0);
        lemma_lex_punct(cs, i);
        lemma_lex_expr(cs, i + 1, e);
        lemma_lex_punct(cs, i + 1 + x.len());
        lemma_lexes_trans(cs, i, i + 1, i + 1 + x.len(), seq![TokenV::LParen], expr_tokens(e));
        lemma_lexes_trans(cs, i, i + 1 + x.len(), i + 2 + x.len(), seq![TokenV::LParen] + expr_tokens(e), seq![TokenV::RParen]);
    } else {
        lemma_lex_expr(cs, i, e);
    }
}

/// Children joined by ` and ` or ` or ` are their tokens joined by the keyword.
pub proof fn lemma_lex_join(cs: Seq<char>, i: int, items: Seq<ExprV>, is_and: bool)
    requires
        forall|k: int| 0 <= k < items.len() ==> clauses_fit(#[trigger] items[k]),
        text_at(cs, i, join_text(items, if is_and { " and "@ } else { " or "@ }, if is_and { 2int } else { 3int })),
        stop_after(cs, i + join_text(items, if is_and { " and "@ } else { " or "@ }, if is_and { 2int } else { 3int }).len()),
    ensures
        lexes(
            cs,
            i,
            i + join_text(items, if is_and { " and "@ } else { " or "@ }, if is_and { 2int } else { 3int }).len(),
            join_tokens(items, if is_and { TokenV::And } else { TokenV::Or }, if is_and { 2int } else { 3int }),
        ),
    decreases items, 2int,
{
    let sep = if is_and { " and "@ } else { " or "@ };
    let word = if is_and { "and"@ } else { "or"@ };
    let st = if is_and { TokenV::And } else { TokenV::Or };
    let parent: int = if is_and { 2 } else { 3 };
    reveal_strlit(" and ");
    reveal_strlit(" or ");
    reveal_strlit("and");
    reveal_strlit("or");
    if items.len() == 0 {
        lemma_lexes_here(cs, i);
    } else if items.len() == 1 {
        lemma_lex_paren(cs, i, items[0], parent);
    } else {
        let front = items.drop_last();
        let f = join_text(front, sep, parent);
        let l = paren_text(items.last(), parent);
        assert(sep =~= seq![' '] + (word + seq![' ']));
        assert(join_text(items, sep, parent) =~= f + (seq![' '] + (word + (seq![' '] + l))));
        lemma_text_split(cs, i, f, seq![' '] + (word + (seq![' '] + l)));
        let i1 = i + f.len();
        lemma_text_split(cs, i1, seq![' '], word + (seq![' '] + l));
        lemma_text_split(cs, i1 + 1, word, seq![' '] + l);
        let i2 = i1 + 1 + word.len();
        lemma_text_split(cs, i2, seq![' '], l);
        assert forall|k: int| 0 <= k < front.len() implies clauses_fit(#[trigger] front[k]) by {
            assert(front[k] == items[k]);
        }
        assert(clauses_fit(items[items.len() - 1]));
        lemma_lex_join(cs, i, front, is_and);
        lemma_lex_space(cs, i1);
        lemma_lex_keyword(cs, i1 + 1, word, st);
        lemma_lex_space(cs, i2);
        lemma_lex_paren(cs, i2 + 1, items.last(), parent);
        let k0 = join_tokens(front, st, parent);
        lemma_lexes_trans(cs, i, i1, i1 + 1, k0, Seq::empty());
        lemma_lexes_trans(cs, i, i1 + 1, i2, k0 + Seq::empty(), seq![st]);
        lemma_lexes_trans(cs, i, i2, i2 + 1, k0 + Seq::empty() + seq![st], Seq::empty());
        lemma_lexes_trans(cs, i, i2 + 1, i2 + 1 + l.len(), k0 + Seq::empty() + seq![st] + Seq::empty(), paren_tokens(items.last(), parent));
        assert(k0 + Seq::empty() + seq![st] + Seq::empty() + paren_tokens(items.last(), parent) =~= join_tokens(items, st, parent));
    }
}

/* What the lexer gives is what the printer can give back. */

/// A token whose text reads back as itself: a word that is no keyword, a number read whole,
/// and no membership operator among the comparison tokens.
pub open spec fn token_reads(t: TokenV) -> bool {
    match t {
        TokenV::Ident(w) => bare_name(w),
        TokenV::Num(n) => num_ok(n),
        TokenV::Op(o) => !(o == Op::In || o == Op::NotIn),
        _ => true,
    }
}

proof fn lemma_number_reads(cs: Seq<char>, i: int)
    requires
        0 <= i < cs.len(),
        crate::expr::number_starts(cs, i),
        readable_mantissa(cs.subrange(crate::expr::mantissa_start(cs, i), mantissa_end(cs, crate::expr::mantissa_start(cs, i)))),
    ensures
        num_ok(cs.subrange(i, number_end(cs, i))),
{
    let ms2 = crate::expr::mantissa_start(cs, i);
    crate::expr::lemma_mantissa_end(cs, ms2);
    let m2 = mantissa_end(cs, ms2);
    lemma_digit_count_pos(cs.subrange(ms2, m2));
    let e = number_end(cs, i);
    let n = cs.subrange(i, e);
    let ms = ms2 - i;
    let m = m2 - i;
    if m2 < cs.len() && (cs[m2] == 'e' || cs[m2] == 'E') {
        let j2 = if m2 + 1 < cs.len() && (cs[m2 + 1] == '-' || cs[m2 + 1] == '+') { m2 + 2 } else { m2 + 1 };
        if j2 < cs.len() && is_digit(cs[j2]) {
            crate::expr::lemma_digits_end(cs, j2);
        }
    }
    assert(e >= m2);
    assert(n.len() == e - i);
    assert(n[0] == cs[i]);
    assert forall|x: int| ms <= x < m implies is_digit(#[trigger] n[x]) || n[x] == '.' by {
        assert(n[x] == cs[i + x]);
    }
    if m < n.len() {
        assert(n[m] == cs[m2]);
    }
    lemma_mantissa_run(n, ms, m);
    assert(n.subrange(ms, m) =~= cs.subrange(ms2, m2));
    if m < n.len() {
        let j2 = if m2 + 1 < cs.len() && (cs[m2 + 1] == '-' || cs[m2 + 1] == '+') { m2 + 2 } else { m2 + 1 };
        assert(n[m + 1] == cs[m2 + 1]);
        assert forall|x: int| j2 - i <= x < n.len() implies is_digit(#[trigger] n[x]) by {
            assert(n[x] == cs[i + x]);
        }
    }
}

proof fn lemma_lex_step_reads(cs: Seq<char>, i: int)
    requires
        0 <= i < cs.len(),
    ensures
        lex_step(cs, i) matches Ok((t, _)) ==> token_reads(t),
{
    let c = cs[i];
    if c == '(' || c == ')' || c == ',' || c == '=' || c == '!' || c == '<' || c == '>' || c == '"' || c == '\'' {
    } else if crate::expr::number_starts(cs, i) {
        let ms = crate::expr::mantissa_start(cs, i);
        if readable_mantissa(cs.subrange(ms, mantissa_end(cs, ms))) {
            lemma_number_reads(cs, i);
        }
    } else if is_alpha(c) || c == '_' {
        let e = word_end(cs, i + 1);
        crate::expr::lemma_word_end(cs, i + 1);
        let w = cs.subrange(i, e);
        assert forall|x: int| 0 <= x < w.len() implies is_word_char(#[trigger] w[x]) by {
            assert(w[x] == cs[i + x]);
        }
        assert(w[0] == c);
    }
}

/// Every token a lex gives reads back as itself.
pub proof fn lemma_lex_reads(cs: Seq<char>, i: int)
    ensures
        lex(cs, i) matches Ok(ts) ==> forall|k: int| 0 <= k < ts.len() ==> token_reads(#[trigger] ts[k].1),
    decreases cs.len() - i,
{
    if 0 <= i < cs.len() {
        if is_space(cs[i]) {
            lemma_lex_reads(cs, i + 1);
        } else {
            lemma_lex_step_reads(cs, i);
            match lex_step(cs, i) {
                Ok((t, e)) => {
                    if i < e <= cs.len() {
                        lemma_lex_reads(cs, e);
                        match lex(cs, e) {
                            Ok(rest) => {
                                let ts = seq![(i, t)] + rest;
                                assert forall|k: int| 0 <= k < ts.len() implies token_reads(#[trigger] ts[k].1) by {
                                    if k > 0 {
                                        assert(ts[k] == rest[k - 1]);
                                    }
                                }
                            },
                            Err(_) => {},
                        }
                    }
                },
                Err(_) => {},
            }
        }
    }
}

} // verus!
