//! The canonical text of a parsed expression: minimal parentheses, one space around every
//! operator, a name bare where it can be read back bare and quoted otherwise.
use vstd::prelude::*;
use crate::expr::{is_alpha, is_word_char, word_is, Op, ParseError};
use crate::expr_tree::{
    args_view, exprs_view, lemma_exprs_view, Arg, ArgV, Call, CallV, Clause, ClauseV, Expr,
    ExprV, Operand, OperandV,
};
use crate::text::{chars_of, dec_digits, push_digits, string_from_chars};

verus! {

/// The text of an operator.
pub open spec fn op_text(o: Op) -> Seq<char> {
    match o {
        Op::Eq => "="@,
        Op::Ne => "!="@,
        Op::Lt => "<"@,
        Op::Le => "<="@,
        Op::Gt => ">"@,
        Op::Ge => ">="@,
        Op::In => "in"@,
        Op::NotIn => "not in"@,
    }
}

/// A name that reads back as itself without quotes: a word that is no keyword.
pub open spec fn bare_name(s: Seq<char>) -> bool {
    &&& s.len() > 0
    &&& (is_alpha(s[0]) || s[0] == '_')
    &&& forall|i: int| 0 <= i < s.len() ==> is_word_char(#[trigger] s[i])
    &&& !word_is(s, "and"@) && !word_is(s, "or"@) && !word_is(s, "not"@) && !word_is(s, "in"@)
}

/// A character inside quotes: a backslash before a backslash or a quote.
pub open spec fn escaped_char(c: char) -> Seq<char> {
    if c == '\\' || c == '"' {
        seq!['\\', c]
    } else {
        seq![c]
    }
}

/// The characters of a name inside quotes.
pub open spec fn escaped(s: Seq<char>) -> Seq<char>
    decreases s.len(),
{
    if s.len() == 0 {
        Seq::empty()
    } else {
        escaped(s.drop_last()) + escaped_char(s.last())
    }
}

/// The text of a name: bare where that reads back, else quoted.
pub open spec fn name_text(s: Seq<char>) -> Seq<char> {
    if bare_name(s) {
        s
    } else {
        seq!['"'] + escaped(s) + seq!['"']
    }
}

/// The text of a value: a number as written, or a name.
pub open spec fn arg_text(a: ArgV) -> Seq<char> {
    match a {
        ArgV::Num(n) => n,
        ArgV::Name(s) => name_text(s),
    }
}

/// Values separated by `, `.
pub open spec fn args_text(args: Seq<ArgV>) -> Seq<char>
    decreases args.len(),
{
    if args.len() == 0 {
        Seq::empty()
    } else if args.len() == 1 {
        arg_text(args[0])
    } else {
        args_text(args.drop_last()) + ", "@ + arg_text(args.last())
    }
}

/// The text of the right side of a clause.
pub open spec fn operand_text(o: OperandV) -> Seq<char> {
    match o {
        OperandV::Num(n) => n,
        OperandV::Name(s) => name_text(s),
        OperandV::List(items) => "("@ + args_text(items) + ")"@,
    }
}

/// The text of a call: the metric, and its arguments in parentheses where it has any.
pub open spec fn call_text(c: CallV) -> Seq<char> {
    if c.args.len() > 0 {
        c.metric + "("@ + args_text(c.args) + ")"@
    } else {
        c.metric
    }
}

/// The text of a clause.
pub open spec fn clause_text(c: ClauseV) -> Seq<char> {
    call_text(c.call) + " "@ + op_text(c.op) + " "@ + operand_text(c.operand)
}

/// How loosely an expression binds: a clause not at all, `not` 1, `and` 2, `or` 3.
pub open spec fn strength(e: ExprV) -> int {
    match e {
        ExprV::Clause(_) => 0,
        ExprV::Not(_) => 1,
        ExprV::And(_) => 2,
        ExprV::Or(_) => 3,
    }
}

/// The text of an expression.
pub open spec fn expr_text(e: ExprV) -> Seq<char>
    decreases e, 0int,
{
    match e {
        ExprV::Clause(c) => clause_text(c),
        ExprV::And(items) => join_text(items, " and "@, 2),
        ExprV::Or(items) => join_text(items, " or "@, 3),
        ExprV::Not(b) => "not "@ + paren_text(*b, 1),
    }
}

/// The text of a child: in parentheses where it binds more loosely than its parent.
pub open spec fn paren_text(e: ExprV, parent: int) -> Seq<char>
    decreases e, 1int,
{
    if strength(e) > parent {
        "("@ + expr_text(e) + ")"@
    } else {
        expr_text(e)
    }
}

/// Children separated by `sep`.
pub open spec fn join_text(items: Seq<ExprV>, sep: Seq<char>, parent: int) -> Seq<char>
    decreases items, 2int,
{
    if items.len() == 0 {
        Seq::empty()
    } else if items.len() == 1 {
        paren_text(items[0], parent)
    } else {
        join_text(items.drop_last(), sep, parent) + sep + paren_text(items.last(), parent)
    }
}

fn push_str(out: &mut Vec<char>, s: &str)
    ensures
        final(out)@ == old(out)@ + s@,
{
    let mut cs = chars_of(s);
    out.append(&mut cs);
}

fn push_chars_of(out: &mut Vec<char>, s: &String)
    ensures
        final(out)@ == old(out)@ + s@,
{
    push_str(out, s.as_str());
}

impl Op {
    /// The text of the operator.
    pub fn text(self) -> (res: &'static str)
        ensures
            res@ == op_text(self),
    {
        match self {
            Op::Eq => "=",
            Op::Ne => "!=",
            Op::Lt => "<",
            Op::Le => "<=",
            Op::Gt => ">",
            Op::Ge => ">=",
            Op::In => "in",
            Op::NotIn => "not in",
        }
    }
}

fn is_keyword(cs: &Vec<char>) -> (res: bool)
    ensures
        res == (word_is(cs@, "and"@) || word_is(cs@, "or"@) || word_is(cs@, "not"@) || word_is(cs@, "in"@)),
{
    let n = cs.len();
    proof {
        assert(cs@.subrange(0, n as int) =~= cs@);
    }
    crate::expr::word_is_exec(cs, 0, n, "and") || crate::expr::word_is_exec(cs, 0, n, "or")
        || crate::expr::word_is_exec(cs, 0, n, "not") || crate::expr::word_is_exec(cs, 0, n, "in")
}

fn is_bare(cs: &Vec<char>) -> (res: bool)
    ensures
        res == bare_name(cs@),
{
    if cs.len() == 0 {
        return false;
    }
    if !(crate::expr::is_alpha_exec(cs[0]) || cs[0] == '_') {
        return false;
    }
    let mut i: usize = 0;
    while i < cs.len()
        invariant
            i <= cs@.len(),
            forall|k: int| 0 <= k < i ==> is_word_char(#[trigger] cs@[k]),
        decreases cs@.len() - i,
    {
        if !crate::expr::is_word_char_exec(cs[i]) {
            return false;
        }
        i += 1;
    }
    proof {
        assert(cs@.subrange(0, cs@.len() as int) =~= cs@);
    }
    !is_keyword(cs)
}

fn push_name(out: &mut Vec<char>, s: &String)
    ensures
        final(out)@ == old(out)@ + name_text(s@),
{
    let cs = chars_of(s.as_str());
    if is_bare(&cs) {
        push_chars_of(out, s);
        return;
    }
    let ghost start = out@;
    out.push('"');
    let mut i: usize = 0;
    proof {
        assert(cs@.subrange(0, 0) =~= Seq::<char>::empty());
        assert(out@ =~= start + seq!['"'] + escaped(cs@.subrange(0, 0)));
    }
    while i < cs.len()
        invariant
            i <= cs@.len(),
            cs@ == s@,
            out@ == start + seq!['"'] + escaped(cs@.subrange(0, i as int)),
        decreases cs@.len() - i,
    {
        let c = cs[i];
        proof {
            let p = cs@.subrange(0, i + 1);
            assert(p.drop_last() =~= cs@.subrange(0, i as int));
            assert(p.last() == c);
        }
        let ghost before = out@;
        if c == '\\' || c == '"' {
            out.push('\\');
        }
        out.push(c);
        proof {
            assert(out@ =~= before + escaped_char(c));
        }
        i += 1;
    }
    let ghost mid = out@;
    out.push('"');
    proof {
        assert(cs@.subrange(0, cs@.len() as int) =~= cs@);
        assert(out@ =~= start + (seq!['"'] + escaped(s@) + seq!['"']));
    }
}

fn push_arg(out: &mut Vec<char>, a: &Arg)
    ensures
        final(out)@ == old(out)@ + arg_text(a@),
{
    match a {
        Arg::Num(n) => push_chars_of(out, n),
        Arg::Name(s) => push_name(out, s),
    }
}

fn push_args(out: &mut Vec<char>, args: &Vec<Arg>)
    ensures
        final(out)@ == old(out)@ + args_text(args_view(args@)),
{
    let ghost start = out@;
    let ghost av = args_view(args@);
    let mut i: usize = 0;
    proof {
        assert(av.subrange(0, 0) =~= Seq::<ArgV>::empty());
    }
    while i < args.len()
        invariant
            i <= args@.len(),
            av == args_view(args@),
            out@ == start + args_text(av.subrange(0, i as int)),
        decreases args@.len() - i,
    {
        let ghost before = out@;
        proof {
            let p = av.subrange(0, i + 1);
            assert(p.drop_last() =~= av.subrange(0, i as int));
            assert(p.last() == args@[i as int]@);
        }
        if i > 0 {
            push_str(out, ", ");
        }
        push_arg(out, &args[i]);
        proof {
            let p = av.subrange(0, i + 1);
            if i == 0 {
                assert(p[0] == args@[0]@);
                assert(av.subrange(0, 0).len() == 0);
                assert(out@ =~= start + args_text(p));
            } else {
                assert(out@ =~= start + args_text(p));
            }
        }
        i += 1;
    }
    proof {
        assert(av.subrange(0, args@.len() as int) =~= av);
    }
}

fn push_operand(out: &mut Vec<char>, o: &Operand)
    ensures
        final(out)@ == old(out)@ + operand_text(o@),
{
    match o {
        Operand::Num(n) => push_chars_of(out, n),
        Operand::Name(s) => push_name(out, s),
        Operand::List(items) => {
            let ghost start = out@;
            push_str(out, "(");
            push_args(out, items);
            push_str(out, ")");
            proof {
                assert(out@ =~= start + operand_text(o@));
            }
        },
    }
}

fn push_call(out: &mut Vec<char>, c: &Call)
    ensures
        final(out)@ == old(out)@ + call_text(c@),
{
    let ghost start = out@;
    push_chars_of(out, &c.metric);
    if c.args.len() > 0 {
        push_str(out, "(");
        push_args(out, &c.args);
        push_str(out, ")");
        proof {
            assert(out@ =~= start + call_text(c@));
        }
    }
}

fn push_clause(out: &mut Vec<char>, c: &Clause)
    ensures
        final(out)@ == old(out)@ + clause_text(c@),
{
    let ghost start = out@;
    push_call(out, &c.call);
    push_str(out, " ");
    push_str(out, c.op.text());
    push_str(out, " ");
    push_operand(out, &c.operand);
    proof {
        assert(out@ =~= start + clause_text(c@));
    }
}

fn strength_exec(e: &Expr) -> (res: u8)
    ensures
        res == strength(e@),
{
    match e {
        Expr::Clause(_) => 0,
        Expr::Not(_) => 1,
        Expr::And(_) => 2,
        Expr::Or(_) => 3,
    }
}

fn push_expr(out: &mut Vec<char>, e: &Expr)
    ensures
        final(out)@ == old(out)@ + expr_text(e@),
    decreases e, 0int,
{
    match e {
        Expr::Clause(c) => push_clause(out, c),
        Expr::And(items) => push_join(out, items, " and ", 2),
        Expr::Or(items) => push_join(out, items, " or ", 3),
        Expr::Not(b) => {
            let ghost start = out@;
            push_str(out, "not ");
            push_paren(out, b, 1);
            proof {
                assert(out@ =~= start + expr_text(e@));
            }
        },
    }
}

fn push_paren(out: &mut Vec<char>, e: &Expr, parent: u8)
    ensures
        final(out)@ == old(out)@ + paren_text(e@, parent as int),
    decreases e, 1int,
{
    let ghost start = out@;
    if strength_exec(e) > parent {
        push_str(out, "(");
        push_expr(out, e);
        push_str(out, ")");
        proof {
            assert(out@ =~= start + paren_text(e@, parent as int));
        }
    } else {
        push_expr(out, e);
    }
}

fn push_join(out: &mut Vec<char>, items: &Vec<Expr>, sep: &str, parent: u8)
    ensures
        final(out)@ == old(out)@ + join_text(exprs_view(items@), sep@, parent as int),
    decreases items, 2int,
{
    let ghost start = out@;
    let ghost iv = exprs_view(items@);
    proof {
        lemma_exprs_view(items@);
        assert(iv.subrange(0, 0) =~= Seq::<ExprV>::empty());
    }
    let mut i: usize = 0;
    while i < items.len()
        invariant
            i <= items@.len(),
            iv == exprs_view(items@),
            iv.len() == items@.len(),
            forall|k: int| 0 <= k < items@.len() ==> #[trigger] iv[k] == items@[k]@,
            out@ == start + join_text(iv.subrange(0, i as int), sep@, parent as int),
        decreases items@.len() - i,
    {
        proof {
            let p = iv.subrange(0, i + 1);
            assert(p.drop_last() =~= iv.subrange(0, i as int));
            assert(p.last() == items@[i as int]@);
            assert(decreases_to!(items => items@));
            assert(decreases_to!(items@ => items@[i as int]));
        }
        if i > 0 {
            push_str(out, sep);
        }
        push_paren(out, &items[i], parent);
        proof {
            let p = iv.subrange(0, i + 1);
            if i == 0 {
                assert(p[0] == items@[0]@);
                assert(out@ =~= start + join_text(p, sep@, parent as int));
            } else {
                assert(out@ =~= start + join_text(p, sep@, parent as int));
            }
        }
        i += 1;
    }
    proof {
        assert(iv.subrange(0, items@.len() as int) =~= iv);
    }
}

impl Expr {
    /// The canonical text: minimal parentheses, one space around every operator.
    pub fn text(&self) -> (res: String)
        ensures
            res@ == expr_text(self@),
    {
        let mut out: Vec<char> = Vec::new();
        push_expr(&mut out, self);
        proof {
            assert(out@ =~= expr_text(self@));
        }
        string_from_chars(&out)
    }
}

impl Call {
    /// The text of the call.
    pub fn text(&self) -> (res: String)
        ensures
            res@ == call_text(self@),
    {
        let mut out: Vec<char> = Vec::new();
        push_call(&mut out, self);
        proof {
            assert(out@ =~= call_text(self@));
        }
        string_from_chars(&out)
    }
}

impl Clause {
    /// The text of the clause.
    pub fn text(&self) -> (res: String)
        ensures
            res@ == clause_text(self@),
    {
        let mut out: Vec<char> = Vec::new();
        push_clause(&mut out, self);
        proof {
            assert(out@ =~= clause_text(self@));
        }
        string_from_chars(&out)
    }
}

impl Operand {
    /// The text of the right side of a clause.
    pub fn text(&self) -> (res: String)
        ensures
            res@ == operand_text(self@),
    {
        let mut out: Vec<char> = Vec::new();
        push_operand(&mut out, self);
        proof {
            assert(out@ =~= operand_text(self@));
        }
        string_from_chars(&out)
    }
}

impl Arg {
    /// The text of the value.
    pub fn text(&self) -> (res: String)
        ensures
            res@ == arg_text(self@),
    {
        let mut out: Vec<char> = Vec::new();
        push_arg(&mut out, self);
        proof {
            assert(out@ =~= arg_text(self@));
        }
        string_from_chars(&out)
    }
}

impl ParseError {
    /// The message and the position, counted from one: `unexpected input at character 4`.
    pub fn text(&self) -> (res: String)
        requires
            self.at < usize::MAX,
        ensures
            res@ == self.msg@ + " at character "@ + dec_digits(self.at as nat + 1),
    {
        let mut out = chars_of(self.msg);
        push_str(&mut out, " at character ");
        let n = self.at as u64 + 1;
        push_digits(&mut out, n);
        string_from_chars(&out)
    }
}

} // verus!
