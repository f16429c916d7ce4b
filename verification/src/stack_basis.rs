//! The source text of the `StackBasis` impl for a tuple of `n` number types: its generics,
//! the tuple type, its where clause, and its associated types and `get_bds` function.
use vstd::prelude::*;
use crate::codegen::{
    gen_basis_text, gen_set_text, get_gen_basis, get_gen_set, get_stack_type_elems, join, join_range,
    joined_with, lemma_stack_type_elems_len, push_text, range_texts, stack_type_elems, strings_view,
    Piece,
};
use crate::srecs::{num, text_of_str};
use crate::text::{push_digits, string_from_chars};

verus! {

/// The number types `IntX<E1, N1, S1>` to `IntX<E{n}, N{n}, S{n}>`.
pub open spec fn basis_types(n: int) -> Seq<Seq<char>> {
    Seq::new(n as nat, |j: int| gen_basis_text((j + 1) as nat))
}

/// The number types followed by the leaf type.
pub open spec fn stack_input_types(n: int) -> Seq<Seq<char>> {
    basis_types(n).push("FoldingStackLeaf"@)
}

/// The element types of the stack, from the leaf up.
pub open spec fn rev_stack_types(n: int) -> Seq<Seq<char>> {
    stack_type_elems(stack_input_types(n))
}

/// `E{k}: NumberedEntity`.
pub open spec fn numbered_tpl() -> Seq<Piece> {
    seq![Piece::Lit("E"), Piece::Up(0), Piece::Lit(": NumberedEntity")]
}

/// `NET<E{k}>`.
pub open spec fn net_tpl() -> Seq<Piece> {
    seq![Piece::Lit("NET<E"), Piece::Up(0), Piece::Lit(">")]
}

/// The bound that number type `n - i` folds over stack element `i`.
pub open spec fn fsb_where(n: int, i: int) -> Seq<char> {
    stack_input_types(n)[n - (i + 1)] + ": FoldStackBase<"@ + rev_stack_types(n)[i] + ">"@
}

/// The bounds of stack element `i` over entity `n - i + 1` and the element below it.
pub open spec fn fold_where(n: int, i: int) -> Seq<char> {
    rev_stack_types(n)[i] + ": From<NET<E"@ + num(n - i + 1) + ">> + ReinstateFrom<NET<E"@ + num(n - i + 1)
        + ">> + Updater<"@ + rev_stack_types(n)[i - 1] + ">"@
}

/// The breakdown spec of a number type.
pub open spec fn bd_spec(t: Seq<char>) -> Seq<char> {
    "to_bds::<"@ + t + ", FoldingStackLeaf>()"@
}

/// The text of the `StackBasis` impl for `n` number types: the generics, the tuple type, the
/// where clause, the sorted record type, the stack type, the `get_bds` function and the top
/// tree type, separated by blank lines.
pub open spec fn stack_basis_items(n: int) -> Seq<char> {
    let rev = rev_stack_types(n);
    let generics = "<"@ + joined_with(Seq::new(n as nat, |j: int| gen_set_text((j + 1) as nat)), ", "@) + ">"@;
    let ty_name = "("@ + joined_with(basis_types(n), ", "@) + ")"@;
    let wheres = "where "@ + joined_with(range_texts(numbered_tpl(), 1, n + 1, false), ", "@) + ", "@
        + joined_with(Seq::new(n as nat, |i: int| fsb_where(n, i)), ", "@) + ", "@ + joined_with(
        Seq::new(n as nat, |i: int| fold_where(n, i + 1)),
        ", "@,
    );
    let sr_type = "type SortedRec = rankless_rs::agg_tree::SRecord"@ + num(n + 2) + "<"@ + joined_with(
        range_texts(net_tpl(), 1, n + 1, false) + seq!["WT"@, "WT"@],
        ", "@,
    ) + ">;"@;
    let stack_type = "type Stack = ("@ + joined_with(rev.reverse(), ", "@) + ");"@;
    let bds_fn = "fn get_bds() -> Vec<BreakdownSpec> {\n            vec!["@ + joined_with(
        basis_types(n).map_values(|t: Seq<char>| bd_spec(t)),
        ", "@,
    ) + "]\n        }"@;
    let top_tree = "type TopTree = "@ + rev.last() + ";"@;
    joined_with(seq![generics, ty_name, wheres, sr_type, stack_type, bds_fn, top_tree], "\n\n"@)
}

fn cat3(a: &str, b: &str, c: &str) -> (res: String)
    ensures
        res@ == a@ + b@ + c@,
{
    let mut cs: Vec<char> = Vec::new();
    push_text(&mut cs, a);
    push_text(&mut cs, b);
    push_text(&mut cs, c);
    proof {
        assert(cs@ =~= a@ + b@ + c@);
    }
    string_from_chars(&cs)
}

/// The text of the `StackBasis` impl for `n` number types.
pub fn stack_basis_text(n: usize) -> (res: String)
    requires
        1 <= n,
        n + 2 <= usize::MAX,
    ensures
        res@ == stack_basis_items(n as int),
{
    let ghost bt = basis_types(n as int);
    let mut in_types: Vec<String> = Vec::new();
    let mut sets: Vec<String> = Vec::new();
    let mut bds: Vec<String> = Vec::new();
    let mut k: usize = 1;
    while k <= n
        invariant
            1 <= k <= n + 1,
            n + 2 <= usize::MAX,
            bt == basis_types(n as int),
            strings_view(in_types@) == bt.take(k - 1),
            strings_view(sets@) == Seq::new(n as nat, |j: int| gen_set_text((j + 1) as nat)).take(k - 1),
            strings_view(bds@) == bt.map_values(|t: Seq<char>| bd_spec(t)).take(k - 1),
        decreases n + 1 - k,
    {
        let b = get_gen_basis(k);
        let s = get_gen_set(k);
        let d = cat3("to_bds::<", b.as_str(), ", FoldingStackLeaf>()");
        let ghost (vi, vs, vb) = (strings_view(in_types@), strings_view(sets@), strings_view(bds@));
        in_types.push(b);
        sets.push(s);
        bds.push(d);
        proof {
            assert(strings_view(in_types@) =~= vi.push(gen_basis_text(k as nat)));
            assert(strings_view(sets@) =~= vs.push(gen_set_text(k as nat)));
            assert(strings_view(bds@) =~= vb.push(bd_spec(gen_basis_text(k as nat))));
            assert(bt.take(k as int) =~= bt.take(k - 1).push(bt[k - 1]));
            assert(Seq::new(n as nat, |j: int| gen_set_text((j + 1) as nat)).take(k as int) =~= Seq::new(
                n as nat,
                |j: int| gen_set_text((j + 1) as nat),
            ).take(k - 1).push(gen_set_text(k as nat)));
            assert(bt.map_values(|t: Seq<char>| bd_spec(t)).take(k as int) =~= bt.map_values(
                |t: Seq<char>| bd_spec(t),
            ).take(k - 1).push(bd_spec(bt[k - 1])));
        }
        k += 1;
    }
    proof {
        assert(bt.take(n as int) =~= bt);
        assert(Seq::new(n as nat, |j: int| gen_set_text((j + 1) as nat)).take(n as int) =~= Seq::new(
            n as nat,
            |j: int| gen_set_text((j + 1) as nat),
        ));
        assert(bt.map_values(|t: Seq<char>| bd_spec(t)).take(n as int) =~= bt.map_values(|t: Seq<char>| bd_spec(t)));
    }
    let ty_name = cat3("(", join(&in_types, ", ").as_str(), ")");
    let generics = cat3("<", join(&sets, ", ").as_str(), ">");
    let bds_fn = cat3("fn get_bds() -> Vec<BreakdownSpec> {\n            vec![", join(&bds, ", ").as_str(), "]\n        }");
    let mut types = in_types.clone();
    types.push(text_of_str("FoldingStackLeaf"));
    let ghost tv = stack_input_types(n as int);
    let rev = get_stack_type_elems(&types);
    proof {
        assert(strings_view(types@) =~= tv);
        lemma_stack_type_elems_len(tv);
    }
    let ghost rv = rev_stack_types(n as int);
    // the bounds
    let mut fsb: Vec<String> = Vec::new();
    let mut i: usize = 0;
    while i < n
        invariant
            i <= n,
            n + 2 <= usize::MAX,
            strings_view(types@) == stack_input_types(n as int),
            strings_view(rev@) == rev_stack_types(n as int),
            rev@.len() == n + 1,
            types@.len() == n + 1,
            strings_view(fsb@) == Seq::new(n as nat, |j: int| fsb_where(n as int, j)).take(i as int),
        decreases n - i,
    {
        let mut fc: Vec<char> = Vec::new();
        push_text(&mut fc, types[n - (i + 1)].as_str());
        push_text(&mut fc, ": FoldStackBase<");
        push_text(&mut fc, rev[i].as_str());
        push_text(&mut fc, ">");
        let w2 = string_from_chars(&fc);
        let ghost before = strings_view(fsb@);
        fsb.push(w2);
        proof {
            assert(strings_view(types@)[n - (i + 1)] == types@[n - (i + 1)]@);
            assert(strings_view(rev@)[i as int] == rev@[i as int]@);
            assert(fc@ =~= fsb_where(n as int, i as int));
            assert(strings_view(fsb@) =~= before.push(w2@));
            assert(Seq::new(n as nat, |j: int| fsb_where(n as int, j)).take(i + 1) =~= Seq::new(
                n as nat,
                |j: int| fsb_where(n as int, j),
            ).take(i as int).push(fsb_where(n as int, i as int)));
        }
        i += 1;
    }
    let mut folds: Vec<String> = Vec::new();
    let mut m: usize = 0;
    while m < n
        invariant
            m <= n,
            n + 2 <= usize::MAX,
            strings_view(rev@) == rev_stack_types(n as int),
            rev@.len() == n + 1,
            strings_view(folds@) == Seq::new(n as nat, |j: int| fold_where(n as int, j + 1)).take(m as int),
        decreases n - m,
    {
        let i = m + 1;
        let mut cs: Vec<char> = Vec::new();
        push_text(&mut cs, rev[i].as_str());
        push_text(&mut cs, ": From<NET<E");
        push_digits(&mut cs, (n - i + 1) as u64);
        push_text(&mut cs, ">> + ReinstateFrom<NET<E");
        push_digits(&mut cs, (n - i + 1) as u64);
        push_text(&mut cs, ">> + Updater<");
        push_text(&mut cs, rev[i - 1].as_str());
        push_text(&mut cs, ">");
        let w = string_from_chars(&cs);
        let ghost before = strings_view(folds@);
        folds.push(w);
        proof {
            assert(strings_view(rev@)[i as int] == rev@[i as int]@);
            assert(strings_view(rev@)[i - 1] == rev@[i - 1]@);
            assert(cs@ =~= fold_where(n as int, i as int));
            assert(strings_view(folds@) =~= before.push(w@));
            assert(Seq::new(n as nat, |j: int| fold_where(n as int, j + 1)).take(m + 1) =~= Seq::new(
                n as nat,
                |j: int| fold_where(n as int, j + 1),
            ).take(m as int).push(fold_where(n as int, i as int)));
        }
        m += 1;
    }
    proof {
        assert(Seq::new(n as nat, |j: int| fsb_where(n as int, j)).take(n as int) =~= Seq::new(
            n as nat,
            |j: int| fsb_where(n as int, j),
        ));
        assert(Seq::new(n as nat, |j: int| fold_where(n as int, j + 1)).take(n as int) =~= Seq::new(
            n as nat,
            |j: int| fold_where(n as int, j + 1),
        ));
    }
    let nt = vec![Piece::Lit("E"), Piece::Up(0), Piece::Lit(": NumberedEntity")];
    let net_wheres = join_range(nt.as_slice(), 1, n + 1, false, ", ");
    let mut wc: Vec<char> = Vec::new();
    push_text(&mut wc, "where ");
    push_text(&mut wc, net_wheres.as_str());
    push_text(&mut wc, ", ");
    push_text(&mut wc, join(&fsb, ", ").as_str());
    push_text(&mut wc, ", ");
    push_text(&mut wc, join(&folds, ", ").as_str());
    let wheres = string_from_chars(&wc);
    let et = vec![Piece::Lit("NET<E"), Piece::Up(0), Piece::Lit(">")];
    let mut ents = crate::codegen::render_range(et.as_slice(), 1, n + 1, false);
    let ghost ev = strings_view(ents@);
    ents.push(text_of_str("WT"));
    ents.push(text_of_str("WT"));
    proof {
        assert(strings_view(ents@) =~= ev + seq!["WT"@, "WT"@]);
    }
    let mut sc: Vec<char> = Vec::new();
    push_text(&mut sc, "type SortedRec = rankless_rs::agg_tree::SRecord");
    push_digits(&mut sc, (n + 2) as u64);
    push_text(&mut sc, "<");
    push_text(&mut sc, join(&ents, ", ").as_str());
    push_text(&mut sc, ">;");
    let sr_type = string_from_chars(&sc);
    let mut revd: Vec<String> = Vec::new();
    let mut r: usize = n + 1;
    while r > 0
        invariant
            r <= n + 1,
            rev@.len() == n + 1,
            strings_view(revd@) == strings_view(rev@).reverse().take((n + 1 - r) as int),
        decreases r,
    {
        let ghost before = strings_view(revd@);
        revd.push(rev[r - 1].clone());
        proof {
            assert(strings_view(revd@) =~= before.push(rev@[r - 1]@));
            assert(strings_view(rev@).reverse().take((n + 2 - r) as int) =~= strings_view(rev@).reverse().take(
                (n + 1 - r) as int,
            ).push(strings_view(rev@)[r - 1]));
        }
        r -= 1;
    }
    proof {
        assert(strings_view(rev@).reverse().take((n + 1) as int) =~= strings_view(rev@).reverse());
    }
    let stack_type = cat3("type Stack = (", join(&revd, ", ").as_str(), ");");
    let top_tree = cat3("type TopTree = ", rev[n].as_str(), ";");
    let ghost gv = generics@;
    let ghost tv2 = ty_name@;
    let ghost wv = wheres@;
    let ghost sv = sr_type@;
    let ghost stv = stack_type@;
    let ghost bv = bds_fn@;
    let ghost ttv = top_tree@;
    let parts = vec![generics, ty_name, wheres, sr_type, stack_type, bds_fn, top_tree];
    proof {
        assert(strings_view(parts@) =~= seq![gv, tv2, wv, sv, stv, bv, ttv]);
        let rv = rev_stack_types(n as int);
        assert(strings_view(rev@)[n as int] == rv.last());
        assert(wc@ =~= "where "@ + joined_with(range_texts(numbered_tpl(), 1, n + 1, false), ", "@) + ", "@
            + joined_with(Seq::new(n as nat, |i: int| fsb_where(n as int, i)), ", "@) + ", "@ + joined_with(
            Seq::new(n as nat, |i: int| fold_where(n as int, i + 1)),
            ", "@,
        ));
        assert(sc@ =~= "type SortedRec = rankless_rs::agg_tree::SRecord"@ + num(n + 2) + "<"@ + joined_with(
            range_texts(net_tpl(), 1, n + 1, false) + seq!["WT"@, "WT"@],
            ", "@,
        ) + ">;"@);
    }
    join(&parts, "\n\n")
}

} // verus!
