//! The source text of a trait's meta struct: a struct `{Trait}TraitMeta` whose `meta` function
//! writes, for an entity, the `impl` of the trait with its constants and types filled in.
use vstd::prelude::*;
use crate::codegen::{join, joined_with, push_text, strings_view};
use crate::text::string_from_chars;
use crate::words::{lowercased, to_lowercase};

verus! {

/// An item of a trait: a constant with its name and type text, an associated type with its
/// name, or a function.
pub enum TraitItemShape {
    Const(String, String),
    Type(String),
    Fn,
}

/// The shape of a trait: whether it is public, its name, the texts of its generic
/// parameters, and its items in order.
pub struct TraitShape {
    pub public: bool,
    pub name: String,
    pub generics: Vec<String>,
    pub items: Vec<TraitItemShape>,
}

/// The parameters of `meta` for the items: a constant by its lowercase name and type, an
/// associated type by its lowercase name as `&str`.
pub open spec fn item_params(items: Seq<TraitItemShape>) -> Seq<Seq<char>>
    decreases items.len(),
{
    if items.len() == 0 {
        Seq::empty()
    } else {
        let prev = item_params(items.drop_last());
        match items.last() {
            TraitItemShape::Const(n, ty) => prev.push(lowercased(n@) + ": "@ + ty@),
            TraitItemShape::Type(n) => prev.push(lowercased(n@) + ": &str"@),
            TraitItemShape::Fn => prev,
        }
    }
}

/// The arguments the generated `format!` takes for the items: their lowercase names.
pub open spec fn item_args(items: Seq<TraitItemShape>) -> Seq<Seq<char>>
    decreases items.len(),
{
    if items.len() == 0 {
        Seq::empty()
    } else {
        let prev = item_args(items.drop_last());
        match items.last() {
            TraitItemShape::Const(n, _) => prev.push(lowercased(n@)),
            TraitItemShape::Type(n) => prev.push(lowercased(n@)),
            TraitItemShape::Fn => prev,
        }
    }
}

/// The value of a constant in the generated format: quoted for a `& str` constant.
pub open spec fn const_value_fmt(ty: Seq<char>) -> Seq<char> {
    if ty == "& str"@ {
        "\\\"{}\\\";"@
    } else {
        "{};"@
    }
}

/// The words of the generated `impl` for the items.
pub open spec fn item_fmt(items: Seq<TraitItemShape>) -> Seq<Seq<char>>
    decreases items.len(),
{
    if items.len() == 0 {
        Seq::empty()
    } else {
        let prev = item_fmt(items.drop_last());
        match items.last() {
            TraitItemShape::Const(n, ty) => prev.push("const "@ + n@ + ": "@ + ty@ + " ="@).push(
                const_value_fmt(ty@),
            ),
            TraitItemShape::Type(n) => prev.push("type "@ + n@ + " = {};"@),
            TraitItemShape::Fn => prev,
        }
    }
}

/// The parameters of `meta` for the generic parameters, each lowercase twice, as `&str`.
pub open spec fn generic_params(gs: Seq<String>) -> Seq<Seq<char>> {
    gs.map_values(|g: String| lowercased(lowercased(g@)) + ": &str"@)
}

/// The generic arguments of the trait in the generated format: `<{p1}, {p2}>`, none without
/// generic parameters.
pub open spec fn generics_fmt(gs: Seq<String>) -> Seq<char> {
    if gs.len() == 0 {
        Seq::empty()
    } else {
        "<"@ + joined_with(gs.map_values(|g: String| "{"@ + lowercased(g@) + "}"@), ", "@) + ">"@
    }
}

/// The text of the meta struct of the trait; a trait that is not public is read as one with
/// no name, no generics and no items.
pub open spec fn meta_trait_spec(t: TraitShape) -> Seq<char> {
    let name = if t.public { t.name@ } else { Seq::empty() };
    let gs = if t.public { t.generics@ } else { Seq::empty() };
    let items = if t.public { t.items@ } else { Seq::empty() };
    let params = seq!["entity_name: &str"@] + generic_params(gs) + item_params(items);
    let args = seq!["entity_name"@] + item_args(items);
    let fmt_words = seq!["impl"@, name + generics_fmt(gs), "for {}"@, "{{"@] + item_fmt(items) + seq!["}}"@];
    let format_line = "let impl_str = format!(\""@ + joined_with(fmt_words, " "@) + "\", "@ + joined_with(args, ","@) + ")"@;
    let imps_line = "let importables = vec![\""@ + name + "\".to_string()]"@;
    let body = format_line + ";\n"@ + imps_line + ";\n"@ + "MetaElem { impl_str, importables }"@;
    let struct_name = name + "TraitMeta"@;
    "pub struct "@ + struct_name + " {}"@ + "\n\n"@ + "impl "@ + struct_name + " { pub fn meta("@
        + joined_with(params, ", "@) + ") -> MetaElem { "@ + body + " } }"@
}

fn str_eq_text(a: &str, b: &str) -> (res: bool)
    ensures
        res == (a@ == b@),
{
    crate::text::str_eq(a, b)
}

/// The text of the meta struct of the trait.
pub fn meta_trait_text(t: &TraitShape) -> (res: String)
    ensures
        res@ == meta_trait_spec(*t),
{
    let ghost name_v: Seq<char> = if t.public { t.name@ } else { Seq::empty() };
    let ghost gs: Seq<String> = if t.public { t.generics@ } else { Seq::empty() };
    let ghost items: Seq<TraitItemShape> = if t.public { t.items@ } else { Seq::empty() };
    let mut name: Vec<char> = Vec::new();
    let mut params: Vec<String> = Vec::new();
    let mut args: Vec<String> = Vec::new();
    let mut gen_fmt: Vec<String> = Vec::new();
    let mut fmt_ext: Vec<String> = Vec::new();
    params.push(crate::srecs::text_of_str("entity_name: &str"));
    args.push(crate::srecs::text_of_str("entity_name"));
    let ng: usize = if t.public { t.generics.len() } else { 0 };
    let ni: usize = if t.public { t.items.len() } else { 0 };
    if t.public {
        push_text(&mut name, t.name.as_str());
    }
    proof {
        assert(name@ =~= name_v);
        assert(gs.len() == ng && items.len() == ni);
        assert(gs.take(0) =~= Seq::<String>::empty());
        assert(items.take(0) =~= Seq::<TraitItemShape>::empty());
        assert(strings_view(params@) =~= seq!["entity_name: &str"@] + generic_params(gs.take(0)));
    }
    let mut g: usize = 0;
    while g < ng
        invariant
            g <= ng,
            ng == gs.len(),
            t.public ==> gs == t.generics@,
            !t.public ==> ng == 0,
            strings_view(params@) == seq!["entity_name: &str"@] + generic_params(gs.take(g as int)),
            strings_view(gen_fmt@) == gs.take(g as int).map_values(|s: String| "{"@ + lowercased(s@) + "}"@),
        decreases ng - g,
    {
        let low = to_lowercase(t.generics[g].as_str());
        let low2 = to_lowercase(low.as_str());
        let mut pc: Vec<char> = Vec::new();
        push_text(&mut pc, low2.as_str());
        push_text(&mut pc, ": &str");
        let p = string_from_chars(&pc);
        let mut fc: Vec<char> = Vec::new();
        push_text(&mut fc, "{");
        push_text(&mut fc, low.as_str());
        push_text(&mut fc, "}");
        let f = string_from_chars(&fc);
        let ghost bp = strings_view(params@);
        let ghost bf = strings_view(gen_fmt@);
        params.push(p);
        gen_fmt.push(f);
        proof {
            assert(strings_view(params@) =~= bp.push(p@));
            assert(strings_view(gen_fmt@) =~= bf.push(f@));
            assert(gs.take(g + 1) =~= gs.take(g as int).push(gs[g as int]));
            assert(generic_params(gs.take(g + 1)) =~= generic_params(gs.take(g as int)).push(p@));
            assert(gs.take(g + 1).map_values(|s: String| "{"@ + lowercased(s@) + "}"@) =~= gs.take(
                g as int,
            ).map_values(|s: String| "{"@ + lowercased(s@) + "}"@).push(f@));
        }
        g += 1;
    }
    proof {
        assert(gs.take(ng as int) =~= gs);
    }
    let ghost params_g = strings_view(params@);
    let mut k: usize = 0;
    while k < ni
        invariant
            k <= ni,
            ni == items.len(),
            t.public ==> items == t.items@,
            !t.public ==> ni == 0,
            strings_view(params@) == params_g + item_params(items.take(k as int)),
            strings_view(args@) == seq!["entity_name"@] + item_args(items.take(k as int)),
            strings_view(fmt_ext@) == item_fmt(items.take(k as int)),
        decreases ni - k,
    {
        let ghost bp = strings_view(params@);
        let ghost ba = strings_view(args@);
        let ghost bf = strings_view(fmt_ext@);
        proof {
            assert(items.take(k + 1).drop_last() =~= items.take(k as int));
            assert(items.take(k + 1).last() == items[k as int]);
        }
        match &t.items[k] {
            TraitItemShape::Const(n, ty) => {
                let low = to_lowercase(n.as_str());
                let mut pc: Vec<char> = Vec::new();
                push_text(&mut pc, low.as_str());
                push_text(&mut pc, ": ");
                push_text(&mut pc, ty.as_str());
                let p = string_from_chars(&pc);
                let mut fc: Vec<char> = Vec::new();
                push_text(&mut fc, "const ");
                push_text(&mut fc, n.as_str());
                push_text(&mut fc, ": ");
                push_text(&mut fc, ty.as_str());
                push_text(&mut fc, " =");
                let f1 = string_from_chars(&fc);
                let f2 = if str_eq_text(ty.as_str(), "& str") {
                    crate::srecs::text_of_str("\\\"{}\\\";")
                } else {
                    crate::srecs::text_of_str("{};")
                };
                params.push(p);
                args.push(low);
                fmt_ext.push(f1);
                fmt_ext.push(f2);
                proof {
                    assert(strings_view(params@) =~= bp.push(pc@));
                    assert(strings_view(args@) =~= ba.push(lowercased(n@)));
                    assert(strings_view(fmt_ext@) =~= bf.push(fc@).push(const_value_fmt(ty@)));
                }
            },
            TraitItemShape::Type(n) => {
                let low = to_lowercase(n.as_str());
                let mut pc: Vec<char> = Vec::new();
                push_text(&mut pc, low.as_str());
                push_text(&mut pc, ": &str");
                let p = string_from_chars(&pc);
                let mut fc: Vec<char> = Vec::new();
                push_text(&mut fc, "type ");
                push_text(&mut fc, n.as_str());
                push_text(&mut fc, " = {};");
                let f = string_from_chars(&fc);
                params.push(p);
                args.push(low);
                fmt_ext.push(f);
                proof {
                    assert(strings_view(params@) =~= bp.push(pc@));
                    assert(strings_view(args@) =~= ba.push(lowercased(n@)));
                    assert(strings_view(fmt_ext@) =~= bf.push(fc@));
                }
            },
            TraitItemShape::Fn => {},
        }
        proof {
            assert(strings_view(params@) =~= params_g + item_params(items.take(k + 1)));
        }
        k += 1;
    }
    proof {
        assert(items.take(ni as int) =~= items);
    }
    let name_s = string_from_chars(&name);
    // the words of the generated impl
    let mut head: Vec<char> = Vec::new();
    push_text(&mut head, name_s.as_str());
    if ng > 0 {
        let gj = join(&gen_fmt, ", ");
        push_text(&mut head, "<");
        push_text(&mut head, gj.as_str());
        push_text(&mut head, ">");
    }
    proof {
        assert(gs.map_values(|s: String| "{"@ + lowercased(s@) + "}"@) =~= gs.take(ng as int).map_values(
            |s: String| "{"@ + lowercased(s@) + "}"@,
        ));
        assert(head@ =~= name_v + generics_fmt(gs));
    }
    let mut words: Vec<String> = Vec::new();
    words.push(crate::srecs::text_of_str("impl"));
    words.push(string_from_chars(&head));
    words.push(crate::srecs::text_of_str("for {}"));
    words.push(crate::srecs::text_of_str("{{"));
    let ghost w0 = strings_view(words@);
    let mut fmt_ext2 = fmt_ext;
    words.append(&mut fmt_ext2);
    words.push(crate::srecs::text_of_str("}}"));
    proof {
        assert(strings_view(words@) =~= seq!["impl"@, name_v + generics_fmt(gs), "for {}"@, "{{"@]
            + item_fmt(items) + seq!["}}"@]);
    }
    let fmt_j = join(&words, " ");
    let args_j = join(&args, ",");
    let params_j = join(&params, ", ");
    let mut cs: Vec<char> = Vec::new();
    push_text(&mut cs, "pub struct ");
    push_text(&mut cs, name_s.as_str());
    push_text(&mut cs, "TraitMeta");
    push_text(&mut cs, " {}");
    push_text(&mut cs, "\n\n");
    push_text(&mut cs, "impl ");
    push_text(&mut cs, name_s.as_str());
    push_text(&mut cs, "TraitMeta");
    push_text(&mut cs, " { pub fn meta(");
    push_text(&mut cs, params_j.as_str());
    push_text(&mut cs, ") -> MetaElem { ");
    push_text(&mut cs, "let impl_str = format!(\"");
    push_text(&mut cs, fmt_j.as_str());
    push_text(&mut cs, "\", ");
    push_text(&mut cs, args_j.as_str());
    push_text(&mut cs, ")");
    push_text(&mut cs, ";\n");
    push_text(&mut cs, "let importables = vec![\"");
    push_text(&mut cs, name_s.as_str());
    push_text(&mut cs, "\".to_string()]");
    push_text(&mut cs, ";\n");
    push_text(&mut cs, "MetaElem { impl_str, importables }");
    push_text(&mut cs, " } }");
    proof {
        assert(strings_view(params@) =~= seq!["entity_name: &str"@] + generic_params(gs) + item_params(items));
        assert(cs@ =~= meta_trait_spec(*t));
    }
    string_from_chars(&cs)
}

} // verus!
