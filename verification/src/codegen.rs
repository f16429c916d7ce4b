//! Pieces of generated Rust source: comma-joined lists, generic parameter lists, the element
//! types of a folding stack, and the statements that fold one record into the stack.
use vstd::prelude::*;
use crate::text::{chars_of, dec_digits, push_digits, string_from_chars};

verus! {

/// The texts joined by `sep`.
pub open spec fn joined_with(items: Seq<Seq<char>>, sep: Seq<char>) -> Seq<char>
    decreases items.len(),
{
    if items.len() == 0 {
        Seq::empty()
    } else if items.len() == 1 {
        items[0]
    } else {
        joined_with(items.drop_last(), sep) + sep + items.last()
    }
}

/// The texts of strings.
pub open spec fn strings_view(v: Seq<String>) -> Seq<Seq<char>> {
    v.map_values(|s: String| s@)
}

fn push_str(out: &mut Vec<char>, s: &str)
    ensures
        final(out)@ == old(out)@ + s@,
{
    let mut cs = chars_of(s);
    out.append(&mut cs);
}

/// The texts joined by `sep`.
pub fn join(items: &Vec<String>, sep: &str) -> (res: String)
    ensures
        res@ == joined_with(strings_view(items@), sep@),
{
    let ghost iv = strings_view(items@);
    let mut out: Vec<char> = Vec::new();
    let mut i: usize = 0;
    proof {
        assert(iv.take(0) =~= Seq::<Seq<char>>::empty());
    }
    while i < items.len()
        invariant
            iv == strings_view(items@),
            i <= items@.len(),
            out@ == joined_with(iv.take(i as int), sep@),
        decreases items@.len() - i,
    {
        let ghost before = out@;
        if i > 0 {
            push_str(&mut out, sep);
        }
        push_str(&mut out, items[i].as_str());
        proof {
            assert(iv.take(i + 1).drop_last() =~= iv.take(i as int));
            assert(iv.take(i + 1).last() == items@[i as int]@);
            if i == 0 {
                assert(before =~= Seq::<char>::empty());
                assert(out@ =~= iv.take(1)[0]);
            }
        }
        i += 1;
    }
    proof {
        assert(iv.take(items@.len() as int) =~= iv);
    }
    string_from_chars(&out)
}

/// The texts joined by `, `.
pub fn cjoin(items: &Vec<String>) -> (res: String)
    ensures
        res@ == joined_with(strings_view(items@), ", "@),
{
    join(items, ", ")
}

/// Each text behind `prefix`.
pub open spec fn prefixed_all(items: Seq<Seq<char>>, prefix: Seq<char>) -> Seq<Seq<char>> {
    items.map_values(|t: Seq<char>| prefix + t)
}

/// The texts, each behind `prefix`, joined by `, `.
pub fn prefed(items: &Vec<String>, prefix: &str) -> (res: String)
    ensures
        res@ == joined_with(prefixed_all(strings_view(items@), prefix@), ", "@),
{
    let mut pre: Vec<String> = Vec::new();
    let mut i: usize = 0;
    while i < items.len()
        invariant
            i <= items@.len(),
            strings_view(pre@) == prefixed_all(strings_view(items@), prefix@).take(i as int),
        decreases items@.len() - i,
    {
        let mut cs = chars_of(prefix);
        push_str(&mut cs, items[i].as_str());
        let t = string_from_chars(&cs);
        let ghost before = strings_view(pre@);
        pre.push(t);
        proof {
            assert(strings_view(pre@) =~= before.push(t@));
            assert(prefixed_all(strings_view(items@), prefix@).take(i + 1) =~= prefixed_all(strings_view(items@), prefix@).take(
                i as int,
            ).push(prefix@ + items@[i as int]@));
        }
        i += 1;
    }
    proof {
        assert(prefixed_all(strings_view(items@), prefix@).take(items@.len() as int) =~= prefixed_all(strings_view(items@), prefix@));
    }
    cjoin(&pre)
}

/// A parameter named `arg` of type `&str`.
pub fn sarg(arg: &str) -> (res: String)
    ensures
        res@ == arg@ + ": &str"@,
{
    let mut cs = chars_of(arg);
    push_str(&mut cs, ": &str");
    string_from_chars(&cs)
}

/// `E{i}, const N{i}: usize, const S{i}: bool`.
pub open spec fn gen_set_text(i: nat) -> Seq<char> {
    "E"@ + dec_digits(i) + ", const N"@ + dec_digits(i) + ": usize, const S"@ + dec_digits(i) + ": bool"@
}

/// `IntX<E{i}, N{i}, S{i}>`.
pub open spec fn gen_basis_text(i: nat) -> Seq<char> {
    "IntX<E"@ + dec_digits(i) + ", N"@ + dec_digits(i) + ", S"@ + dec_digits(i) + ">"@
}

/// The generic parameters of the `i`-th number type: `E{i}, const N{i}: usize, const S{i}: bool`.
pub fn get_gen_set(i: usize) -> (res: String)
    ensures
        res@ == gen_set_text(i as nat),
{
    let mut cs: Vec<char> = Vec::new();
    push_str(&mut cs, "E");
    push_digits(&mut cs, i as u64);
    push_str(&mut cs, ", const N");
    push_digits(&mut cs, i as u64);
    push_str(&mut cs, ": usize, const S");
    push_digits(&mut cs, i as u64);
    push_str(&mut cs, ": bool");
    string_from_chars(&cs)
}

/// The `i`-th number type: `IntX<E{i}, N{i}, S{i}>`.
pub fn get_gen_basis(i: usize) -> (res: String)
    ensures
        res@ == gen_basis_text(i as nat),
{
    let mut cs: Vec<char> = Vec::new();
    push_str(&mut cs, "IntX<E");
    push_digits(&mut cs, i as u64);
    push_str(&mut cs, ", N");
    push_digits(&mut cs, i as u64);
    push_str(&mut cs, ", S");
    push_digits(&mut cs, i as u64);
    push_str(&mut cs, ">");
    string_from_chars(&cs)
}

/// The element type of the stack level above `child` for the type `t`.
pub open spec fn stack_element(t: Seq<char>, child: Seq<char>) -> Seq<char> {
    "<"@ + t + " as FoldStackBase<"@ + child + ">>::StackElement"@
}

/// The element types of a folding stack, from the last of the types up: the last type itself,
/// then for each type before it, its stack element over the one before.
pub open spec fn stack_type_elems(types: Seq<Seq<char>>) -> Seq<Seq<char>>
    decreases types.len(),
{
    if types.len() <= 1 {
        types
    } else {
        let rest = stack_type_elems(types.drop_first());
        rest.push(stack_element(types[0], rest.last()))
    }
}

pub proof fn lemma_stack_type_elems_len(types: Seq<Seq<char>>)
    ensures
        stack_type_elems(types).len() == types.len(),
    decreases types.len(),
{
    if types.len() > 1 {
        lemma_stack_type_elems_len(types.drop_first());
    }
}

/// The element types of a folding stack over the types, at least one.
pub fn get_stack_type_elems(in_types: &Vec<String>) -> (res: Vec<String>)
    requires
        in_types@.len() > 0,
    ensures
        strings_view(res@) == stack_type_elems(strings_view(in_types@)),
{
    let ghost tv = strings_view(in_types@);
    let n = in_types.len();
    let mut child = in_types[n - 1].clone();
    let mut out: Vec<String> = Vec::new();
    out.push(in_types[n - 1].clone());
    let mut k: usize = n - 1;
    proof {
        assert(tv.subrange(k as int, n as int) =~= seq![tv[k as int]]);
        assert(strings_view(out@) =~= seq![tv[k as int]]);
    }
    while k > 0
        invariant
            tv == strings_view(in_types@),
            n == in_types@.len(),
            k < n,
            strings_view(out@) == stack_type_elems(tv.subrange(k as int, n as int)),
            child@ == strings_view(out@).last(),
            out@.len() == n - k,
        decreases k,
    {
        let t = &in_types[k - 1];
        let mut cs: Vec<char> = Vec::new();
        push_str(&mut cs, "<");
        push_str(&mut cs, t.as_str());
        push_str(&mut cs, " as FoldStackBase<");
        push_str(&mut cs, child.as_str());
        push_str(&mut cs, ">>::StackElement");
        let elem = string_from_chars(&cs);
        let ghost before = strings_view(out@);
        child = elem.clone();
        out.push(elem);
        proof {
            let sub = tv.subrange(k - 1, n as int);
            assert(sub.drop_first() =~= tv.subrange(k as int, n as int));
            assert(sub[0] == t@);
            lemma_stack_type_elems_len(tv.subrange(k as int, n as int));
            assert(cs@ =~= stack_element(t@, before.last()));
            assert(strings_view(out@) =~= before.push(elem@));
        }
        k -= 1;
    }
    proof {
        assert(tv.subrange(0, n as int) =~= tv);
    }
    out
}

/// A piece of a text template over a number `k`: a fixed text, the number `k + b`, or the
/// number `b - k`.
pub enum Piece {
    Lit(&'static str),
    Up(usize),
    Down(usize),
}

/// The text of a piece at `k`.
pub open spec fn piece_text(p: Piece, k: int) -> Seq<char> {
    match p {
        Piece::Lit(s) => s@,
        Piece::Up(b) => dec_digits((k + b) as nat),
        Piece::Down(b) => dec_digits((b - k) as nat),
    }
}

/// The numbers of the pieces at `k` are not negative.
pub open spec fn pieces_fit(t: Seq<Piece>, k: int) -> bool {
    forall|j: int| 0 <= j < t.len() ==> match #[trigger] t[j] {
        Piece::Lit(_) => true,
        Piece::Up(b) => k + b <= usize::MAX,
        Piece::Down(b) => 0 <= b - k,
    }
}

/// The text of a template at `k`: its pieces one after the other.
pub open spec fn tpl_text(t: Seq<Piece>, k: int) -> Seq<char>
    decreases t.len(),
{
    if t.len() == 0 {
        Seq::empty()
    } else {
        tpl_text(t.drop_last(), k) + piece_text(t.last(), k)
    }
}

/// The template's texts for `k` from `lo` up to below `hi`, or down from `hi - 1` to `lo`.
pub open spec fn range_texts(t: Seq<Piece>, lo: int, hi: int, down: bool) -> Seq<Seq<char>> {
    Seq::new(
        (if hi > lo { hi - lo } else { 0 }) as nat,
        |j: int| tpl_text(t, if down { hi - 1 - j } else { lo + j }),
    )
}

/// The template's numbers fit from `lo` up to below `hi`.
pub open spec fn range_fits(t: Seq<Piece>, lo: int, hi: int) -> bool {
    forall|k: int| lo <= k < hi ==> #[trigger] pieces_fit(t, k)
}

fn push_piece(out: &mut Vec<char>, p: &Piece, k: usize)
    requires
        pieces_fit(seq![*p], k as int),
    ensures
        final(out)@ == old(out)@ + piece_text(*p, k as int),
{
    assert(seq![*p][0] == *p);
    match p {
        Piece::Lit(s) => push_str(out, s),
        Piece::Up(b) => push_digits(out, (k + *b) as u64),
        Piece::Down(b) => push_digits(out, (*b - k) as u64),
    }
}

/// The template's text at `k`.
pub fn render(t: &[Piece], k: usize) -> (res: String)
    requires
        pieces_fit(t@, k as int),
    ensures
        res@ == tpl_text(t@, k as int),
{
    let mut cs: Vec<char> = Vec::new();
    let mut i: usize = 0;
    proof {
        assert(t@.take(0) =~= Seq::<Piece>::empty());
    }
    while i < t.len()
        invariant
            i <= t@.len(),
            pieces_fit(t@, k as int),
            cs@ == tpl_text(t@.take(i as int), k as int),
        decreases t@.len() - i,
    {
        proof {
            assert(seq![t@[i as int]][0] == t@[i as int]);
            assert(pieces_fit(t@, k as int));
            assert(pieces_fit(seq![t@[i as int]], k as int));
            assert(t@.take(i + 1).drop_last() =~= t@.take(i as int));
            assert(t@.take(i + 1).last() == t@[i as int]);
        }
        push_piece(&mut cs, &t[i], k);
        i += 1;
    }
    proof {
        assert(t@.take(i as int) =~= t@);
    }
    string_from_chars(&cs)
}

/// The template's texts for `k` from `lo` up to below `hi`, or down from `hi - 1` to `lo`.
pub fn render_range(t: &[Piece], lo: usize, hi: usize, down: bool) -> (res: Vec<String>)
    requires
        range_fits(t@, lo as int, hi as int),
    ensures
        strings_view(res@) == range_texts(t@, lo as int, hi as int, down),
{
    let mut out: Vec<String> = Vec::new();
    let n: usize = if hi > lo { hi - lo } else { 0 };
    let mut j: usize = 0;
    while j < n
        invariant
            n == (if hi > lo { hi - lo } else { 0 }),
            j <= n,
            range_fits(t@, lo as int, hi as int),
            strings_view(out@) == range_texts(t@, lo as int, hi as int, down).take(j as int),
        decreases n - j,
    {
        let k = if down { hi - 1 - j } else { lo + j };
        proof {
            assert(pieces_fit(t@, k as int));
        }
        let s = render(t, k);
        let ghost before = strings_view(out@);
        out.push(s);
        proof {
            assert(strings_view(out@) =~= before.push(s@));
            assert(range_texts(t@, lo as int, hi as int, down).take(j + 1) =~= range_texts(t@, lo as int, hi as int, down).take(
                j as int,
            ).push(tpl_text(t@, k as int)));
        }
        j += 1;
    }
    proof {
        assert(range_texts(t@, lo as int, hi as int, down).take(n as int) =~= range_texts(t@, lo as int, hi as int, down));
    }
    out
}

/// The template's texts over the range, joined by `sep`.
pub fn join_range(t: &[Piece], lo: usize, hi: usize, down: bool, sep: &str) -> (res: String)
    requires
        range_fits(t@, lo as int, hi as int),
    ensures
        res@ == joined_with(range_texts(t@, lo as int, hi as int, down), sep@),
{
    let v = render_range(t, lo, hi, down);
    join(&v, sep)
}

/// Appends a text.
pub fn push_text(out: &mut Vec<char>, s: &str)
    ensures
        final(out)@ == old(out)@ + s@,
{
    push_str(out, s);
}

} // verus!
