//! The source text of the sorted-record enums `SRecord{i}`: each enum, how a record is told
//! apart from the one before it, and the functions that fold a sorted run of records into a
//! stack of aggregates.
use vstd::prelude::*;
use crate::codegen::{
    join, join_range, joined_with, push_text, range_fits, range_texts, render_range, strings_view,
    Piece,
};
use crate::text::{dec_digits, push_digits, string_from_chars};

verus! {

/// `T{k}`.
pub open spec fn t_tpl() -> Seq<Piece> {
    seq![Piece::Lit("T"), Piece::Up(0)]
}

/// `S{k}`.
pub open spec fn s_tpl() -> Seq<Piece> {
    seq![Piece::Lit("S"), Piece::Up(0)]
}

/// `rec.{k}`.
pub open spec fn rec_tpl() -> Seq<Piece> {
    seq![Piece::Lit("rec."), Piece::Up(0)]
}

/// `T{k}::init_empty()`.
pub open spec fn empty_tpl() -> Seq<Piece> {
    seq![Piece::Lit("T"), Piece::Up(0), Piece::Lit("::init_empty()")]
}

/// `T{k}: InitEmpty`.
pub open spec fn init_empty_tpl() -> Seq<Piece> {
    seq![Piece::Lit("T"), Piece::Up(0), Piece::Lit(": InitEmpty")]
}

/// `T{k}: Into<S{k}>`.
pub open spec fn into_s_tpl() -> Seq<Piece> {
    seq![Piece::Lit("T"), Piece::Up(0), Piece::Lit(": Into<S"), Piece::Up(0), Piece::Lit(">")]
}

/// `S{k}: ReinstateFrom<T{k}>`.
pub open spec fn reinstate_tpl() -> Seq<Piece> {
    seq![Piece::Lit("S"), Piece::Up(0), Piece::Lit(": ReinstateFrom<T"), Piece::Up(0), Piece::Lit(">")]
}

/// `rec.{k}.into(),`.
pub open spec fn into_tpl() -> Seq<Piece> {
    seq![Piece::Lit("rec."), Piece::Up(0), Piece::Lit(".into(),")]
}

/// `S{k}: Updater<S{k + 1}>`.
pub open spec fn updater_tpl() -> Seq<Piece> {
    seq![Piece::Lit("S"), Piece::Up(0), Piece::Lit(": Updater<S"), Piece::Up(1), Piece::Lit(">")]
}

/// A stack level `ls - j` updated from the one below it with field `j` of the record.
pub open spec fn stack_update_tpl(ls: usize) -> Seq<Piece> {
    seq![
        Piece::Lit("            stack."),
        Piece::Down(ls),
        Piece::Lit(".update(&mut stack."),
        Piece::Down((ls + 1) as usize),
        Piece::Lit(", rec."),
        Piece::Up(0),
        Piece::Lit(")"),
    ]
}

/// The root updated from the stack's first level with field `j` of the record.
pub open spec fn root_update_tpl() -> Seq<Piece> {
    seq![Piece::Lit("            root.update(&mut stack.0, rec."), Piece::Up(0), Piece::Lit(")")]
}

/// The decimal text of `n`.
pub open spec fn num(n: int) -> Seq<char> {
    dec_digits(n as nat)
}

/// The statements that fold a record of `rec_size` fields into a stack whose leaf level is
/// `last_si`.
pub open spec fn spec_match_text(rec_size: int, last_si: int) -> Seq<char> {
    if last_si == 0 {
        if rec_size == 1 {
            "stack.consume(rec)"@
        } else {
            "root.update(stack, rec.1);stack.consume(rec.0);"@
        }
    } else if rec_size == 1 {
        "stack."@ + num(last_si) + ".consume(rec)"@
    } else {
        joined_with(
            range_texts(stack_update_tpl(last_si as usize), 1, if last_si + 1 < rec_size { last_si + 1 } else { rec_size }, false)
                + range_texts(root_update_tpl(), last_si + 1, rec_size, false) + seq![
                "            stack."@ + num(last_si) + ".consume(rec.0)"@,
            ],
            ";\n"@,
        )
    }
}

/// `T1, ..., T{i}`.
pub open spec fn its_text(i: int) -> Seq<char> {
    joined_with(range_texts(t_tpl(), 1, i + 1, false), ", "@)
}

/// `S1, ..., S{i - 1}`.
pub open spec fn s_gens_text(i: int) -> Seq<char> {
    joined_with(range_texts(s_tpl(), 1, i, false), ", "@)
}

/// `SRecord{i}<T1, ..., T{i}>`.
pub open spec fn enum_name_text(i: int) -> Seq<char> {
    "SRecord"@ + num(i) + "<"@ + its_text(i) + ">"@
}

/// The record from level `s` on: `Self::Rec{i - s}((rec.{i - 1}, ..., rec.{s}))`.
pub open spec fn prec_text(i: int, s: int) -> Seq<char> {
    "Self::Rec"@ + num(i - s) + "(("@ + joined_with(range_texts(rec_tpl(), s, i, true), ", "@) + "))"@
}

/// The whole record as its enum value.
pub open spec fn frec_str_text(i: int) -> Seq<char> {
    prec_text(i, 0)
}

/// The branch taken where field `e` is the first that differs.
pub open spec fn else_if_piece(i: int, e: int) -> Seq<char> {
    " } else if rec."@ + num(e) + " != last_rec."@ + num(e) + " { Some("@ + prec_text(i, e) + ") "@
}

/// The branches for the fields `1` to `i - 1`.
pub open spec fn else_if_innards_text(i: int) -> Seq<char> {
    joined_with(Seq::new((i - 1) as nat, |j: int| else_if_piece(i, j + 1)), ""@)
}

/// `T{i}::init_empty(), ..., T1::init_empty()`.
pub open spec fn empties_text(i: int) -> Seq<char> {
    joined_with(range_texts(empty_tpl(), 1, i + 1, true), ", "@)
}

/// The empty record: `Self::Rec{i}((T{i}::init_empty(), ...))`.
pub open spec fn empty_srec_text(i: int) -> Seq<char> {
    "Self::Rec"@ + num(i) + "(("@ + empties_text(i) + "))"@
}

/// `T1: InitEmpty, ..., T{i}: InitEmpty`.
pub open spec fn t_init_empties_text(i: int) -> Seq<char> {
    joined_with(range_texts(init_empty_tpl(), 1, i + 1, false), ", "@)
}

/// `T1: Into<S1>, ..., T{i - 1}: Into<S{i - 1}>`.
pub open spec fn t_to_ss_text(i: int) -> Seq<char> {
    joined_with(range_texts(into_s_tpl(), 1, i, false), ", "@)
}

/// `S1: ReinstateFrom<T1>, ...`.
pub open spec fn reinstate_wheres_text(i: int) -> Seq<char> {
    joined_with(range_texts(reinstate_tpl(), 1, i, false), ", "@)
}

/// `rec.{i - 1}.into(),...rec.2.into(),`.
pub open spec fn intos_txt_text(i: int) -> Seq<char> {
    joined_with(range_texts(into_tpl(), 2, i, true), ""@)
}

/// The arm of the match for records of `e` fields.
pub open spec fn match_arm(i: int, e: int) -> Seq<char> {
    "Self::Rec"@ + num(e) + "(rec) => {\n"@ + spec_match_text(e, i - 2) + "\n    }"@
}

/// The arms for records of `1` to `i` fields.
pub open spec fn match_internals_text(i: int) -> Seq<char> {
    joined_with(Seq::new(i as nat, |j: int| match_arm(i, j + 1)), ", "@)
}

/// `S{i - 1}: FoldingStackConsumer<Consumable=T{i}>`.
pub open spec fn consume_where_text(i: int) -> Seq<char> {
    "S"@ + num(i - 1) + ": FoldingStackConsumer<Consumable=T"@ + num(i) + ">"@
}

/// `S0: Updater<S1>, ..., S{i - 2}: Updater<S{i - 1}>`.
pub open spec fn update_wheres_text(i: int) -> Seq<char> {
    joined_with(range_texts(updater_tpl(), 0, i - 1, false), ", "@)
}

/// The variant of `e` fields: `Rec{e}((T{i}, ..., T{i - e + 1})),`.
pub open spec fn variant_text(i: int, e: int) -> Seq<char> {
    "Rec"@ + num(e) + "(("@ + joined_with(range_texts(t_tpl(), i - e + 1, i + 1, true), ", "@) + ")),"@
}

/// The variants of `2` to `i` fields.
pub open spec fn variants_text(i: int) -> Seq<char> {
    joined_with(Seq::new((i - 1) as nat, |j: int| variant_text(i, j + 2)), "\n    "@)
}

/// The `fold` function of `SRecord{i}`.
#[verifier::opaque]
pub open spec fn fold_fn_text(i: int) -> Seq<char> {
    "pub fn fold<"@
        + s_gens_text(i)
        + ", S0, I>(mut it: I, root: &mut S0) where \n                I: Iterator<Item=Self>, \n                "@
        + t_to_ss_text(i)
        + ", \n                "@
        + t_init_empties_text(i)
        + ", \n                "@
        + reinstate_wheres_text(i)
        + ", \n                "@
        + consume_where_text(i)
        + ",\n                "@
        + update_wheres_text(i)
        + " \n                {\n                    let mut stack = it.next().unwrap().to_stack();\n                    let flusher = vec![Self::init_empty()].into_iter();\n                    for rec in it.chain(flusher) {\n                        rec.update_stack(&mut stack, root);\n                    }\n                }"@
}

fn fold_fn(i: usize, s_gens: &String, t_to_ss: &String, t_init_empties: &String, reinstate_wheres: &String, consume_where: &String, update_wheres: &String) -> (res: String)
    requires
        s_gens@ == s_gens_text(i as int),
        t_to_ss@ == t_to_ss_text(i as int),
        t_init_empties@ == t_init_empties_text(i as int),
        reinstate_wheres@ == reinstate_wheres_text(i as int),
        consume_where@ == consume_where_text(i as int),
        update_wheres@ == update_wheres_text(i as int),
    ensures
        res@ == fold_fn_text(i as int),
{
    let mut cs: Vec<char> = Vec::new();
    push_text(&mut cs, "pub fn fold<");
    push_text(&mut cs, s_gens.as_str());
    push_text(&mut cs, ", S0, I>(mut it: I, root: &mut S0) where \n                I: Iterator<Item=Self>, \n                ");
    push_text(&mut cs, t_to_ss.as_str());
    push_text(&mut cs, ", \n                ");
    push_text(&mut cs, t_init_empties.as_str());
    push_text(&mut cs, ", \n                ");
    push_text(&mut cs, reinstate_wheres.as_str());
    push_text(&mut cs, ", \n                ");
    push_text(&mut cs, consume_where.as_str());
    push_text(&mut cs, ",\n                ");
    push_text(&mut cs, update_wheres.as_str());
    push_text(&mut cs, " \n                {\n                    let mut stack = it.next().unwrap().to_stack();\n                    let flusher = vec![Self::init_empty()].into_iter();\n                    for rec in it.chain(flusher) {\n                        rec.update_stack(&mut stack, root);\n                    }\n                }");
    proof {
        reveal(fold_fn_text);
        assert(cs@ =~= fold_fn_text(i as int));
    }
    string_from_chars(&cs)
}

/// The `to_stack` function of `SRecord{i}`.
#[verifier::opaque]
pub open spec fn to_stack_fn_text(i: int) -> Seq<char> {
    "pub fn to_stack<"@
        + s_gens_text(i)
        + ">(self) -> ("@
        + s_gens_text(i)
        + ") where \n                "@
        + t_to_ss_text(i)
        + ",\n                "@
        + consume_where_text(i)
        + "\n            {\n                if let Self::Rec"@
        + dec_digits(i as nat)
        + "(rec) = self {\n                    let mut leaf = rec.1.into();\n                    leaf.consume(rec.0);\n                    ("@
        + intos_txt_text(i)
        + " leaf)\n                } else {\n                    panic!(\"wrong starter\")\n                }\n            }"@
}

fn to_stack_fn(i: usize, s_gens: &String, t_to_ss: &String, consume_where: &String, intos_txt: &String) -> (res: String)
    requires
        s_gens@ == s_gens_text(i as int),
        t_to_ss@ == t_to_ss_text(i as int),
        consume_where@ == consume_where_text(i as int),
        intos_txt@ == intos_txt_text(i as int),
    ensures
        res@ == to_stack_fn_text(i as int),
{
    let mut cs: Vec<char> = Vec::new();
    push_text(&mut cs, "pub fn to_stack<");
    push_text(&mut cs, s_gens.as_str());
    push_text(&mut cs, ">(self) -> (");
    push_text(&mut cs, s_gens.as_str());
    push_text(&mut cs, ") where \n                ");
    push_text(&mut cs, t_to_ss.as_str());
    push_text(&mut cs, ",\n                ");
    push_text(&mut cs, consume_where.as_str());
    push_text(&mut cs, "\n            {\n                if let Self::Rec");
    push_digits(&mut cs, i as u64);
    push_text(&mut cs, "(rec) = self {\n                    let mut leaf = rec.1.into();\n                    leaf.consume(rec.0);\n                    (");
    push_text(&mut cs, intos_txt.as_str());
    push_text(&mut cs, " leaf)\n                } else {\n                    panic!(\"wrong starter\")\n                }\n            }");
    proof {
        reveal(to_stack_fn_text);
        assert(cs@ =~= to_stack_fn_text(i as int));
    }
    string_from_chars(&cs)
}

/// The `update_stack` function of `SRecord{i}`.
#[verifier::opaque]
pub open spec fn update_fn_text(i: int) -> Seq<char> {
    "pub fn update_stack<"@
        + s_gens_text(i)
        + ", S0>(self, stack: &mut ("@
        + s_gens_text(i)
        + "), root: &mut S0) where \n                "@
        + reinstate_wheres_text(i)
        + ", \n                "@
        + consume_where_text(i)
        + ", \n                "@
        + update_wheres_text(i)
        + " \n            {\n                match self {\n                    "@
        + match_internals_text(i)
        + "\n                }\n            }"@
}

fn update_fn(i: usize, s_gens: &String, reinstate_wheres: &String, consume_where: &String, update_wheres: &String, match_internals: &String) -> (res: String)
    requires
        s_gens@ == s_gens_text(i as int),
        reinstate_wheres@ == reinstate_wheres_text(i as int),
        consume_where@ == consume_where_text(i as int),
        update_wheres@ == update_wheres_text(i as int),
        match_internals@ == match_internals_text(i as int),
    ensures
        res@ == update_fn_text(i as int),
{
    let mut cs: Vec<char> = Vec::new();
    push_text(&mut cs, "pub fn update_stack<");
    push_text(&mut cs, s_gens.as_str());
    push_text(&mut cs, ", S0>(self, stack: &mut (");
    push_text(&mut cs, s_gens.as_str());
    push_text(&mut cs, "), root: &mut S0) where \n                ");
    push_text(&mut cs, reinstate_wheres.as_str());
    push_text(&mut cs, ", \n                ");
    push_text(&mut cs, consume_where.as_str());
    push_text(&mut cs, ", \n                ");
    push_text(&mut cs, update_wheres.as_str());
    push_text(&mut cs, " \n            {\n                match self {\n                    ");
    push_text(&mut cs, match_internals.as_str());
    push_text(&mut cs, "\n                }\n            }");
    proof {
        reveal(update_fn_text);
        assert(cs@ =~= update_fn_text(i as int));
    }
    string_from_chars(&cs)
}

/// The body of `from_cmp` of `SRecord{i}`: the record of the first level where `rec` differs from `last_rec`.
#[verifier::opaque]
pub open spec fn shift_fn_text(i: int) -> Seq<char> {
    "\n    if rec.0 != last_rec.0 {\n        Some("@
        + frec_str_text(i)
        + ")\n    "@
        + else_if_innards_text(i)
        + "\n    } else {\n        None\n    }"@
}

fn shift_fn(i: usize, frec_str: &String, else_if_innards: &String) -> (res: String)
    requires
        frec_str@ == frec_str_text(i as int),
        else_if_innards@ == else_if_innards_text(i as int),
    ensures
        res@ == shift_fn_text(i as int),
{
    let mut cs: Vec<char> = Vec::new();
    push_text(&mut cs, "\n    if rec.0 != last_rec.0 {\n        Some(");
    push_text(&mut cs, frec_str.as_str());
    push_text(&mut cs, ")\n    ");
    push_text(&mut cs, else_if_innards.as_str());
    push_text(&mut cs, "\n    } else {\n        None\n    }");
    proof {
        reveal(shift_fn_text);
        assert(cs@ =~= shift_fn_text(i as int));
    }
    string_from_chars(&cs)
}

/// The definition of the enum `SRecord{i}`.
#[verifier::opaque]
pub open spec fn enum_fn_text(i: int) -> Seq<char> {
    "#[derive(Debug)]\n            pub enum "@
        + enum_name_text(i)
        + " {\n                Rec1(T"@
        + dec_digits(i as nat)
        + "),\n                "@
        + variants_text(i)
        + "\n            }"@
}

fn enum_fn(i: usize, enum_name: &String, variants: &String) -> (res: String)
    requires
        enum_name@ == enum_name_text(i as int),
        variants@ == variants_text(i as int),
    ensures
        res@ == enum_fn_text(i as int),
{
    let mut cs: Vec<char> = Vec::new();
    push_text(&mut cs, "#[derive(Debug)]\n            pub enum ");
    push_text(&mut cs, enum_name.as_str());
    push_text(&mut cs, " {\n                Rec1(T");
    push_digits(&mut cs, i as u64);
    push_text(&mut cs, "),\n                ");
    push_text(&mut cs, variants.as_str());
    push_text(&mut cs, "\n            }");
    proof {
        reveal(enum_fn_text);
        assert(cs@ =~= enum_fn_text(i as int));
    }
    string_from_chars(&cs)
}

fn t_tpl_v() -> (res: Vec<Piece>)
    ensures
        res@ == t_tpl(),
{
    vec![Piece::Lit("T"), Piece::Up(0)]
}

fn s_tpl_v() -> (res: Vec<Piece>)
    ensures
        res@ == s_tpl(),
{
    vec![Piece::Lit("S"), Piece::Up(0)]
}

fn rec_tpl_v() -> (res: Vec<Piece>)
    ensures
        res@ == rec_tpl(),
{
    vec![Piece::Lit("rec."), Piece::Up(0)]
}

fn empty_tpl_v() -> (res: Vec<Piece>)
    ensures
        res@ == empty_tpl(),
{
    vec![Piece::Lit("T"), Piece::Up(0), Piece::Lit("::init_empty()")]
}

fn init_empty_tpl_v() -> (res: Vec<Piece>)
    ensures
        res@ == init_empty_tpl(),
{
    vec![Piece::Lit("T"), Piece::Up(0), Piece::Lit(": InitEmpty")]
}

fn into_s_tpl_v() -> (res: Vec<Piece>)
    ensures
        res@ == into_s_tpl(),
{
    vec![Piece::Lit("T"), Piece::Up(0), Piece::Lit(": Into<S"), Piece::Up(0), Piece::Lit(">")]
}

fn reinstate_tpl_v() -> (res: Vec<Piece>)
    ensures
        res@ == reinstate_tpl(),
{
    vec![Piece::Lit("S"), Piece::Up(0), Piece::Lit(": ReinstateFrom<T"), Piece::Up(0), Piece::Lit(">")]
}

fn into_tpl_v() -> (res: Vec<Piece>)
    ensures
        res@ == into_tpl(),
{
    vec![Piece::Lit("rec."), Piece::Up(0), Piece::Lit(".into(),")]
}

fn updater_tpl_v() -> (res: Vec<Piece>)
    ensures
        res@ == updater_tpl(),
{
    vec![Piece::Lit("S"), Piece::Up(0), Piece::Lit(": Updater<S"), Piece::Up(1), Piece::Lit(">")]
}

fn stack_update_tpl_v(ls: usize) -> (res: Vec<Piece>)
    requires
        ls < usize::MAX,
    ensures
        res@ == stack_update_tpl(ls),
{
    vec![
        Piece::Lit("            stack."),
        Piece::Down(ls),
        Piece::Lit(".update(&mut stack."),
        Piece::Down(ls + 1),
        Piece::Lit(", rec."),
        Piece::Up(0),
        Piece::Lit(")"),
    ]
}

fn root_update_tpl_v() -> (res: Vec<Piece>)
    ensures
        res@ == root_update_tpl(),
{
    vec![Piece::Lit("            root.update(&mut stack.0, rec."), Piece::Up(0), Piece::Lit(")")]
}

/// A text as a `String`.
pub fn text_of_str(s: &str) -> (res: String)
    ensures
        res@ == s@,
{
    text_of(s)
}

fn text_of(s: &str) -> (res: String)
    ensures
        res@ == s@,
{
    let mut cs: Vec<char> = Vec::new();
    push_text(&mut cs, s);
    string_from_chars(&cs)
}

/// The statements that fold a record of `rec_size` fields into a stack whose leaf level is
/// `last_si`.
pub fn spec_match(rec_size: usize, last_si: usize) -> (res: String)
    requires
        1 <= rec_size,
        last_si + 1 < usize::MAX,
    ensures
        res@ == spec_match_text(rec_size as int, last_si as int),
{
    if last_si == 0 {
        if rec_size == 1 {
            return text_of("stack.consume(rec)");
        }
        return text_of("root.update(stack, rec.1);stack.consume(rec.0);");
    }
    if rec_size == 1 {
        let mut cs: Vec<char> = Vec::new();
        push_text(&mut cs, "stack.");
        push_digits(&mut cs, last_si as u64);
        push_text(&mut cs, ".consume(rec)");
        proof {
            assert(cs@ =~= spec_match_text(rec_size as int, last_si as int));
        }
        return string_from_chars(&cs);
    }
    let hi = if last_si + 1 < rec_size { last_si + 1 } else { rec_size };
    let mid_t = stack_update_tpl_v(last_si);
    let root_t = root_update_tpl_v();
    let mut lines = render_range(mid_t.as_slice(), 1, hi, false);
    let mut roots = render_range(root_t.as_slice(), last_si + 1, rec_size, false);
    let ghost a = strings_view(lines@);
    let ghost b = strings_view(roots@);
    lines.append(&mut roots);
    let mut cs: Vec<char> = Vec::new();
    push_text(&mut cs, "            stack.");
    push_digits(&mut cs, last_si as u64);
    push_text(&mut cs, ".consume(rec.0)");
    let last = string_from_chars(&cs);
    let ghost ab = strings_view(lines@);
    lines.push(last);
    proof {
        assert(ab =~= a + b);
        assert(strings_view(lines@) =~= ab.push(last@));
        assert(cs@ =~= "            stack."@ + num(last_si as int) + ".consume(rec.0)"@);
        assert(a == range_texts(stack_update_tpl(last_si), 1, hi as int, false));
        assert(b == range_texts(root_update_tpl(), last_si + 1, rec_size as int, false));
        assert(strings_view(lines@) =~= range_texts(stack_update_tpl(last_si), 1, hi as int, false)
            + range_texts(root_update_tpl(), last_si + 1, rec_size as int, false) + seq![
            "            stack."@ + num(last_si as int) + ".consume(rec.0)"@,
        ]);
    }
    join(&lines, ";\n")
}

fn its(i: usize) -> (res: String)
    requires
        i < usize::MAX,
    ensures
        res@ == its_text(i as int),
{
    let t = t_tpl_v();
    join_range(t.as_slice(), 1, i + 1, false, ", ")
}

fn s_gens(i: usize) -> (res: String)
    ensures
        res@ == s_gens_text(i as int),
{
    let t = s_tpl_v();
    join_range(t.as_slice(), 1, i, false, ", ")
}

fn prec(i: usize, s: usize) -> (res: String)
    requires
        s <= i,
    ensures
        res@ == prec_text(i as int, s as int),
{
    let t = rec_tpl_v();
    let inner = join_range(t.as_slice(), s, i, true, ", ");
    let mut cs: Vec<char> = Vec::new();
    push_text(&mut cs, "Self::Rec");
    push_digits(&mut cs, (i - s) as u64);
    push_text(&mut cs, "((");
    push_text(&mut cs, inner.as_str());
    push_text(&mut cs, "))");
    proof {
        assert(cs@ =~= prec_text(i as int, s as int));
    }
    string_from_chars(&cs)
}

fn else_if_innards(i: usize) -> (res: String)
    requires
        2 <= i,
    ensures
        res@ == else_if_innards_text(i as int),
{
    let ghost want = Seq::new((i - 1) as nat, |j: int| else_if_piece(i as int, j + 1));
    let mut v: Vec<String> = Vec::new();
    let mut e: usize = 1;
    while e < i
        invariant
            1 <= e <= i,
            want == Seq::new((i - 1) as nat, |j: int| else_if_piece(i as int, j + 1)),
            strings_view(v@) == want.take(e - 1),
        decreases i - e,
    {
        let p = prec(i, e);
        let mut cs: Vec<char> = Vec::new();
        push_text(&mut cs, " } else if rec.");
        push_digits(&mut cs, e as u64);
        push_text(&mut cs, " != last_rec.");
        push_digits(&mut cs, e as u64);
        push_text(&mut cs, " { Some(");
        push_text(&mut cs, p.as_str());
        push_text(&mut cs, ") ");
        let piece = string_from_chars(&cs);
        let ghost before = strings_view(v@);
        v.push(piece);
        proof {
            assert(cs@ =~= else_if_piece(i as int, e as int));
            assert(strings_view(v@) =~= before.push(piece@));
            assert(want.take(e as int) =~= want.take(e - 1).push(want[e - 1]));
        }
        e += 1;
    }
    proof {
        assert(want.take(i - 1) =~= want);
    }
    join(&v, "")
}

fn empty_srec(i: usize) -> (res: String)
    requires
        i < usize::MAX,
    ensures
        res@ == empty_srec_text(i as int),
{
    let t = empty_tpl_v();
    let empties = join_range(t.as_slice(), 1, i + 1, true, ", ");
    let mut cs: Vec<char> = Vec::new();
    push_text(&mut cs, "Self::Rec");
    push_digits(&mut cs, i as u64);
    push_text(&mut cs, "((");
    push_text(&mut cs, empties.as_str());
    push_text(&mut cs, "))");
    proof {
        assert(cs@ =~= empty_srec_text(i as int));
    }
    string_from_chars(&cs)
}

fn t_init_empties(i: usize) -> (res: String)
    requires
        i < usize::MAX,
    ensures
        res@ == t_init_empties_text(i as int),
{
    let t = init_empty_tpl_v();
    join_range(t.as_slice(), 1, i + 1, false, ", ")
}

fn t_to_ss(i: usize) -> (res: String)
    ensures
        res@ == t_to_ss_text(i as int),
{
    let t = into_s_tpl_v();
    join_range(t.as_slice(), 1, i, false, ", ")
}

fn reinstate_wheres(i: usize) -> (res: String)
    ensures
        res@ == reinstate_wheres_text(i as int),
{
    let t = reinstate_tpl_v();
    join_range(t.as_slice(), 1, i, false, ", ")
}

fn intos_txt(i: usize) -> (res: String)
    ensures
        res@ == intos_txt_text(i as int),
{
    let t = into_tpl_v();
    join_range(t.as_slice(), 2, i, true, "")
}

fn match_internals(i: usize) -> (res: String)
    requires
        2 <= i < usize::MAX,
    ensures
        res@ == match_internals_text(i as int),
{
    let ghost want = Seq::new(i as nat, |j: int| match_arm(i as int, j + 1));
    let mut v: Vec<String> = Vec::new();
    let mut e: usize = 1;
    while e <= i
        invariant
            1 <= e <= i + 1,
            2 <= i < usize::MAX,
            want == Seq::new(i as nat, |j: int| match_arm(i as int, j + 1)),
            strings_view(v@) == want.take(e - 1),
        decreases i + 1 - e,
    {
        let body = spec_match(e, i - 2);
        let mut cs: Vec<char> = Vec::new();
        push_text(&mut cs, "Self::Rec");
        push_digits(&mut cs, e as u64);
        push_text(&mut cs, "(rec) => {\n");
        push_text(&mut cs, body.as_str());
        push_text(&mut cs, "\n    }");
        let arm = string_from_chars(&cs);
        let ghost before = strings_view(v@);
        v.push(arm);
        proof {
            assert(cs@ =~= match_arm(i as int, e as int));
            assert(strings_view(v@) =~= before.push(arm@));
            assert(want.take(e as int) =~= want.take(e - 1).push(want[e - 1]));
        }
        e += 1;
    }
    proof {
        assert(want.take(i as int) =~= want);
    }
    join(&v, ", ")
}

fn consume_where(i: usize) -> (res: String)
    requires
        1 <= i,
    ensures
        res@ == consume_where_text(i as int),
{
    let mut cs: Vec<char> = Vec::new();
    push_text(&mut cs, "S");
    push_digits(&mut cs, (i - 1) as u64);
    push_text(&mut cs, ": FoldingStackConsumer<Consumable=T");
    push_digits(&mut cs, i as u64);
    push_text(&mut cs, ">");
    proof {
        assert(cs@ =~= consume_where_text(i as int));
    }
    string_from_chars(&cs)
}

fn update_wheres(i: usize) -> (res: String)
    requires
        1 <= i,
    ensures
        res@ == update_wheres_text(i as int),
{
    let t = updater_tpl_v();
    join_range(t.as_slice(), 0, i - 1, false, ", ")
}

fn variants(i: usize) -> (res: String)
    requires
        2 <= i < usize::MAX,
    ensures
        res@ == variants_text(i as int),
{
    let ghost want = Seq::new((i - 1) as nat, |j: int| variant_text(i as int, j + 2));
    let t = t_tpl_v();
    let mut v: Vec<String> = Vec::new();
    let mut e: usize = 2;
    while e <= i
        invariant
            2 <= e <= i + 1,
            2 <= i < usize::MAX,
            t@ == t_tpl(),
            want == Seq::new((i - 1) as nat, |j: int| variant_text(i as int, j + 2)),
            strings_view(v@) == want.take(e - 2),
        decreases i + 1 - e,
    {
        let inner = join_range(t.as_slice(), i - e + 1, i + 1, true, ", ");
        let mut cs: Vec<char> = Vec::new();
        push_text(&mut cs, "Rec");
        push_digits(&mut cs, e as u64);
        push_text(&mut cs, "((");
        push_text(&mut cs, inner.as_str());
        push_text(&mut cs, ")),");
        let var = string_from_chars(&cs);
        let ghost before = strings_view(v@);
        v.push(var);
        proof {
            assert(cs@ =~= variant_text(i as int, e as int));
            assert(strings_view(v@) =~= before.push(var@));
            assert(want.take(e - 1) =~= want.take(e - 2).push(want[e - 2]));
        }
        e += 1;
    }
    proof {
        assert(want.take(i - 1) =~= want);
    }
    join(&v, "\n    ")
}

/// The source text of `SRecord{i}`: the enum, the body of its `from_cmp`, the record and the
/// empty record as enum values, and its `fold`, `to_stack` and `update_stack` functions,
/// separated by blank lines.
pub open spec fn srec_items(i: int) -> Seq<char> {
    joined_with(
        seq![
            enum_fn_text(i),
            shift_fn_text(i),
            frec_str_text(i),
            empty_srec_text(i),
            fold_fn_text(i),
            to_stack_fn_text(i),
            update_fn_text(i),
        ],
        "\n\n"@,
    )
}

/// The source text of `SRecord{i}`.
pub fn srec_text(i: usize) -> (res: String)
    requires
        2 <= i < usize::MAX,
    ensures
        res@ == srec_items(i as int),
{
    let its_v = its(i);
    let enum_name = {
        let mut cs: Vec<char> = Vec::new();
        push_text(&mut cs, "SRecord");
        push_digits(&mut cs, i as u64);
        push_text(&mut cs, "<");
        push_text(&mut cs, its_v.as_str());
        push_text(&mut cs, ">");
        proof {
            assert(cs@ =~= enum_name_text(i as int));
        }
        string_from_chars(&cs)
    };
    let s_gens = s_gens(i);
    let frec_str = prec(i, 0);
    let else_if_innards = else_if_innards(i);
    let empty = empty_srec(i);
    let t_init_empties = t_init_empties(i);
    let t_to_ss = t_to_ss(i);
    let reinstate_wheres = reinstate_wheres(i);
    let intos_txt = intos_txt(i);
    let match_internals = match_internals(i);
    let consume_where = consume_where(i);
    let update_wheres = update_wheres(i);
    let variants = variants(i);
    let e = enum_fn(i, &enum_name, &variants);
    let sh = shift_fn(i, &frec_str, &else_if_innards);
    let f = fold_fn(i, &s_gens, &t_to_ss, &t_init_empties, &reinstate_wheres, &consume_where, &update_wheres);
    let ts = to_stack_fn(i, &s_gens, &t_to_ss, &consume_where, &intos_txt);
    let us = update_fn(i, &s_gens, &reinstate_wheres, &consume_where, &update_wheres, &match_internals);
    let parts = vec![e, sh, frec_str, empty, f, ts, us];
    proof {
        assert(strings_view(parts@) =~= seq![
            enum_fn_text(i as int),
            shift_fn_text(i as int),
            frec_str_text(i as int),
            empty_srec_text(i as int),
            fold_fn_text(i as int),
            to_stack_fn_text(i as int),
            update_fn_text(i as int),
        ]);
    }
    join(&parts, "\n\n")
}

/// The source texts of `SRecord2` to `SRecord{n}`.
pub fn srecs_text(n: usize) -> (res: Vec<String>)
    requires
        2 <= n < usize::MAX,
    ensures
        res@.len() == n - 1,
        forall|k: int| 0 <= k < n - 1 ==> #[trigger] res@[k]@ == srec_items(k + 2),
{
    let mut out: Vec<String> = Vec::new();
    let mut i: usize = 2;
    while i <= n
        invariant
            2 <= i <= n + 1,
            n < usize::MAX,
            out@.len() == i - 2,
            forall|k: int| 0 <= k < i - 2 ==> #[trigger] out@[k]@ == srec_items(k + 2),
        decreases n + 1 - i,
    {
        out.push(srec_text(i));
        i += 1;
    }
    out
}

} // verus!
