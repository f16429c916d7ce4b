//! The tree a parse gives, and its normal form.
use vstd::prelude::*;
use crate::expr::Op;

verus! {

/// An argument or list value as text: a number as written, or a name.
pub enum ArgV {
    Num(Seq<char>),
    Name(Seq<char>),
}

/// The right side of a clause as text.
pub enum OperandV {
    Num(Seq<char>),
    Name(Seq<char>),
    List(Seq<ArgV>),
}

/// A metric with its arguments, as text.
pub struct CallV {
    pub metric: Seq<char>,
    pub args: Seq<ArgV>,
}

/// A clause as text.
pub struct ClauseV {
    pub call: CallV,
    pub op: Op,
    pub operand: OperandV,
}

/// An expression as text.
pub enum ExprV {
    Clause(ClauseV),
    And(Seq<ExprV>),
    Or(Seq<ExprV>),
    Not(Box<ExprV>),
}

/// A bare word is a slug (a semantic id), a quoted string a name that may carry spaces; a
/// number is kept as it is written.
#[derive(Debug, Clone, PartialEq)]
pub enum Arg {
    Num(String),
    Name(String),
}

/// The right side of a clause: a number, a name, or a list of values.
#[derive(Debug, Clone, PartialEq)]
pub enum Operand {
    Num(String),
    Name(String),
    List(Vec<Arg>),
}

/// A metric with its arguments: `papers`, `field_score(oncology)`, `window_papers(2020, 2024)`.
#[derive(Debug, Clone, PartialEq)]
pub struct Call {
    pub metric: String,
    pub args: Vec<Arg>,
}

/// A metric call compared with a value.
#[derive(Debug, Clone, PartialEq)]
pub struct Clause {
    pub call: Call,
    pub op: Op,
    pub operand: Operand,
}

/// Clauses combined by `and`, `or` and `not`.
#[derive(Debug, PartialEq)]
pub enum Expr {
    Clause(Clause),
    And(Vec<Expr>),
    Or(Vec<Expr>),
    Not(Box<Expr>),
}

impl View for Arg {
    type V = ArgV;

    open spec fn view(&self) -> ArgV {
        match self {
            Arg::Num(s) => ArgV::Num(s@),
            Arg::Name(s) => ArgV::Name(s@),
        }
    }
}

/// The views of arguments.
pub open spec fn args_view(v: Seq<Arg>) -> Seq<ArgV> {
    v.map_values(|a: Arg| a@)
}

impl View for Operand {
    type V = OperandV;

    open spec fn view(&self) -> OperandV {
        match self {
            Operand::Num(s) => OperandV::Num(s@),
            Operand::Name(s) => OperandV::Name(s@),
            Operand::List(v) => OperandV::List(args_view(v@)),
        }
    }
}

impl View for Call {
    type V = CallV;

    open spec fn view(&self) -> CallV {
        CallV { metric: self.metric@, args: args_view(self.args@) }
    }
}

impl View for Clause {
    type V = ClauseV;

    open spec fn view(&self) -> ClauseV {
        ClauseV { call: self.call@, op: self.op, operand: self.operand@ }
    }
}

/// The view of an expression.
pub open spec fn expr_view(e: Expr) -> ExprV
    decreases e,
{
    match e {
        Expr::Clause(c) => ExprV::Clause(c@),
        Expr::And(v) => ExprV::And(exprs_view(v@)),
        Expr::Or(v) => ExprV::Or(exprs_view(v@)),
        Expr::Not(b) => ExprV::Not(Box::new(expr_view(*b))),
    }
}

/// The views of expressions.
pub open spec fn exprs_view(s: Seq<Expr>) -> Seq<ExprV>
    decreases s,
{
    if s.len() == 0 {
        Seq::empty()
    } else {
        exprs_view(s.drop_last()).push(expr_view(s.last()))
    }
}

impl View for Expr {
    type V = ExprV;

    open spec fn view(&self) -> ExprV {
        expr_view(*self)
    }
}

/// What an item gives to a combination of its kind: its children where it is of the same
/// kind, else itself.
pub open spec fn absorbed(e: ExprV, is_and: bool) -> Seq<ExprV> {
    match e {
        ExprV::And(c) => if is_and { c } else { seq![e] },
        ExprV::Or(c) => if !is_and { c } else { seq![e] },
        _ => seq![e],
    }
}

/// The items with those of the same kind opened up.
pub open spec fn absorb(items: Seq<ExprV>, is_and: bool) -> Seq<ExprV>
    decreases items.len(),
{
    if items.len() == 0 {
        Seq::empty()
    } else {
        absorb(items.drop_last(), is_and) + absorbed(items.last(), is_and)
    }
}

/// `and` and `or` are associative, so a child of the same kind is absorbed; one item stands for
/// itself.
pub open spec fn flatten(items: Seq<ExprV>, is_and: bool) -> ExprV {
    let out = absorb(items, is_and);
    if out.len() == 1 {
        out[0]
    } else if is_and {
        ExprV::And(out)
    } else {
        ExprV::Or(out)
    }
}

/// The normal form: every combination holds at least two items and none of its own kind.
pub open spec fn normal(e: ExprV) -> bool
    decreases e,
{
    match e {
        ExprV::Clause(_) => true,
        ExprV::And(c) => c.len() >= 2 && forall|i: int| 0 <= i < c.len() ==> !(#[trigger] c[i] is And) && normal(c[i]),
        ExprV::Or(c) => c.len() >= 2 && forall|i: int| 0 <= i < c.len() ==> !(#[trigger] c[i] is Or) && normal(c[i]),
        ExprV::Not(b) => normal(*b),
    }
}

/// Opening up normal items keeps the result's items normal and free of the kind.
proof fn lemma_absorb_normal(items: Seq<ExprV>, is_and: bool)
    requires
        forall|i: int| 0 <= i < items.len() ==> normal(#[trigger] items[i]),
    ensures
        forall|i: int| 0 <= i < absorb(items, is_and).len() ==> normal(#[trigger] absorb(items, is_and)[i]),
        forall|i: int| 0 <= i < absorb(items, is_and).len() ==> (if is_and {
            !(#[trigger] absorb(items, is_and)[i] is And)
        } else {
            !(absorb(items, is_and)[i] is Or)
        }),
        items.len() > 0 ==> absorb(items, is_and).len() > 0,
    decreases items.len(),
{
    if items.len() > 0 {
        let init = items.drop_last();
        lemma_absorb_normal(init, is_and);
        let last = items.last();
        assert(normal(last));
        let a = absorb(init, is_and);
        let b = absorbed(last, is_and);
        assert(absorb(items, is_and) == a + b);
        assert forall|i: int| 0 <= i < b.len() implies normal(#[trigger] b[i]) && (if is_and { !(b[i] is And) } else { !(b[i] is Or) }) by {
            match last {
                ExprV::And(c) => {
                    if is_and {
                        assert(c[i] == b[i]);
                    }
                },
                ExprV::Or(c) => {
                    if !is_and {
                        assert(c[i] == b[i]);
                    }
                },
                _ => {},
            }
        }
        assert forall|i: int| 0 <= i < (a + b).len() implies normal(#[trigger] (a + b)[i]) by {
            if i < a.len() {
                assert((a + b)[i] == a[i]);
            } else {
                assert((a + b)[i] == b[i - a.len()]);
            }
        }
        assert forall|i: int| 0 <= i < (a + b).len() implies (if is_and { !(#[trigger] (a + b)[i] is And) } else { !((a + b)[i] is Or) }) by {
            if i < a.len() {
                assert((a + b)[i] == a[i]);
            } else {
                assert((a + b)[i] == b[i - a.len()]);
            }
        }
        match last {
            ExprV::And(c) => {
                if is_and {
                    assert(c.len() >= 2);
                }
            },
            ExprV::Or(c) => {
                if !is_and {
                    assert(c.len() >= 2);
                }
            },
            _ => {},
        }
    }
}

/// Combining normal items gives a normal expression.
pub proof fn lemma_flatten_normal(items: Seq<ExprV>, is_and: bool)
    requires
        items.len() > 0,
        forall|i: int| 0 <= i < items.len() ==> normal(#[trigger] items[i]),
    ensures
        normal(flatten(items, is_and)),
{
    lemma_absorb_normal(items, is_and);
    let out = absorb(items, is_and);
    if out.len() == 1 {
        assert(normal(out[0]));
    }
}

/// The views of expressions, one for one.
pub proof fn lemma_exprs_view(s: Seq<Expr>)
    ensures
        exprs_view(s).len() == s.len(),
        forall|i: int| 0 <= i < s.len() ==> #[trigger] exprs_view(s)[i] == expr_view(s[i]),
    decreases s.len(),
{
    if s.len() > 0 {
        lemma_exprs_view(s.drop_last());
    }
}

proof fn lemma_exprs_view_concat(a: Seq<Expr>, b: Seq<Expr>)
    ensures
        exprs_view(a + b) == exprs_view(a) + exprs_view(b),
{
    lemma_exprs_view(a);
    lemma_exprs_view(b);
    lemma_exprs_view(a + b);
    assert forall|i: int| 0 <= i < (a + b).len() implies #[trigger] exprs_view(a + b)[i] == (exprs_view(a) + exprs_view(b))[i] by {
        if i < a.len() {
            assert((a + b)[i] == a[i]);
        } else {
            assert((a + b)[i] == b[i - a.len()]);
        }
    }
    assert(exprs_view(a + b) =~= exprs_view(a) + exprs_view(b));
}

proof fn lemma_exprs_view_skip(s: Seq<Expr>)
    requires
        s.len() > 0,
    ensures
        exprs_view(s.drop_first()) == exprs_view(s).drop_first(),
        exprs_view(s)[0] == expr_view(s[0]),
{
    lemma_exprs_view(s);
    lemma_exprs_view(s.drop_first());
    assert(exprs_view(s.drop_first()) =~= exprs_view(s).drop_first());
}

proof fn lemma_absorb_push(items: Seq<ExprV>, e: ExprV, is_and: bool)
    ensures
        absorb(items.push(e), is_and) == absorb(items, is_and) + absorbed(e, is_and),
{
    assert(items.push(e).drop_last() =~= items);
}

/// Combines items of one kind, absorbing children of the same kind.
pub fn flatten_exprs(items: Vec<Expr>, is_and: bool) -> (res: Expr)
    ensures
        res@ == flatten(exprs_view(items@), is_and),
{
    let ghost orig = exprs_view(items@);
    let mut items = items;
    let mut out: Vec<Expr> = Vec::new();
    let ghost mut k: int = 0;
    proof {
        lemma_exprs_view(items@);
        assert(orig.subrange(0, 0) =~= Seq::<ExprV>::empty());
        assert(orig.subrange(0, orig.len() as int) =~= orig);
    }
    while items.len() > 0
        invariant
            0 <= k <= orig.len(),
            exprs_view(out@) == absorb(orig.subrange(0, k), is_and),
            exprs_view(items@) == orig.subrange(k, orig.len() as int),
        decreases items@.len(),
    {
        proof {
            lemma_exprs_view(items@);
            lemma_exprs_view_skip(items@);
            assert(orig.subrange(0, k + 1) =~= orig.subrange(0, k).push(orig[k]));
            assert(orig[k] == exprs_view(items@)[0]);
            lemma_absorb_push(orig.subrange(0, k), orig[k], is_and);
            assert(orig.subrange(k + 1, orig.len() as int) =~= orig.subrange(k, orig.len() as int).drop_first());
        }
        let ghost rest = items@;
        let item = items.remove(0);
        proof {
            assert(items@ =~= rest.drop_first());
        }
        let ghost iv = expr_view(item);
        proof {
            assert(iv == orig[k]);
        }
        let ghost before = out@;
        match item {
            Expr::And(inner) => {
                if is_and {
                    let mut inner = inner;
                    let ghost iv2 = inner@;
                    out.append(&mut inner);
                    proof {
                        lemma_exprs_view_concat(before, iv2);
                        assert(absorbed(iv, is_and) == exprs_view(iv2));
                        assert(exprs_view(out@) == exprs_view(before) + absorbed(iv, is_and));
                    }
                } else {
                    let ghost x = Expr::And(inner);
                    out.push(Expr::And(inner));
                    proof {
                        lemma_exprs_view_concat(before, seq![x]);
                        assert(seq![x].drop_last() =~= Seq::<Expr>::empty());
                        lemma_exprs_view(seq![x]);
                        assert(exprs_view(seq![x]) =~= seq![expr_view(x)]);
                        assert(before.push(x) =~= before + seq![x]);
                        assert(iv == expr_view(x));
                        assert(absorbed(iv, is_and) == seq![iv]);
                        assert(exprs_view(out@) == exprs_view(before) + absorbed(iv, is_and));
                    }
                }
            },
            Expr::Or(inner) => {
                if !is_and {
                    let mut inner = inner;
                    let ghost iv2 = inner@;
                    out.append(&mut inner);
                    proof {
                        lemma_exprs_view_concat(before, iv2);
                        assert(absorbed(iv, is_and) == exprs_view(iv2));
                        assert(exprs_view(out@) == exprs_view(before) + absorbed(iv, is_and));
                    }
                } else {
                    let ghost x = Expr::Or(inner);
                    out.push(Expr::Or(inner));
                    proof {
                        lemma_exprs_view_concat(before, seq![x]);
                        assert(seq![x].drop_last() =~= Seq::<Expr>::empty());
                        lemma_exprs_view(seq![x]);
                        assert(exprs_view(seq![x]) =~= seq![expr_view(x)]);
                        assert(before.push(x) =~= before + seq![x]);
                        assert(iv == expr_view(x));
                        assert(absorbed(iv, is_and) == seq![iv]);
                        assert(exprs_view(out@) == exprs_view(before) + absorbed(iv, is_and));
                    }
                }
            },
            other => {
                let ghost ov = other;
                out.push(other);
                proof {
                    lemma_exprs_view_concat(before, seq![ov]);
                    assert(seq![ov].drop_last() =~= Seq::<Expr>::empty());
                    lemma_exprs_view(seq![ov]);
                    assert(exprs_view(seq![ov]) =~= seq![expr_view(ov)]);
                    assert(before.push(ov) =~= before + seq![ov]);
                    assert(iv == expr_view(ov));
                    assert(absorbed(iv, is_and) == seq![iv]);
                    assert(exprs_view(out@) == exprs_view(before) + absorbed(iv, is_and));
                }
            },
        }
        proof {
            assert(exprs_view(out@) == exprs_view(before) + absorbed(iv, is_and));
            k = k + 1;
        }
    }
    proof {
        lemma_exprs_view(items@);
        assert(k == orig.len());
        assert(orig.subrange(0, k) =~= orig);
        lemma_exprs_view(out@);
    }
    if out.len() == 1 {
        let ghost ov = out@;
        let r = out.pop().unwrap();
        proof {
            assert(r == ov[0]);
            assert(exprs_view(ov)[0] == expr_view(ov[0]));
        }
        r
    } else if is_and {
        Expr::And(out)
    } else {
        Expr::Or(out)
    }
}

} // verus!
