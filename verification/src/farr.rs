//! The source text of the fixed-size byte form of a struct with named fields: its size, the
//! statements that write each field, and the expression that reads the struct back.
use vstd::prelude::*;
use crate::codegen::{join, joined_with, push_text, strings_view};
use crate::text::string_from_chars;

verus! {

/// A struct with named fields: its name, and each field's name and type text.
pub struct FarrShape {
    pub name: String,
    pub fields: Vec<(String, String)>,
}

/// The size of a field's type: `<{ty} as ByteFixArrayInterface>::S`.
pub open spec fn size_of_text(ty: Seq<char>) -> Seq<char> {
    "<"@ + ty + " as ByteFixArrayInterface>::S"@
}

/// The sizes of the fields, behind a leading `0`.
pub open spec fn offsets(fields: Seq<(String, String)>) -> Seq<Seq<char>> {
    seq!["0"@] + fields.map_values(|f: (String, String)| size_of_text(f.1@))
}

/// The read of field `i`: its bytes from the sum of the sizes before it to the sum up to it.
pub open spec fn read_text(fields: Seq<(String, String)>, i: int) -> Seq<char> {
    fields[i].0@ + ": "@ + fields[i].1@ + "::from_fbytes(&buf["@ + joined_with(offsets(fields).take(i + 1), " + "@)
        + ".."@ + joined_with(offsets(fields).take(i + 2), " + "@) + "]),"@
}

/// The text of the byte form: the impl's head, the size, the writing statements and the
/// reading expression, separated by blank lines.
pub open spec fn farr_items(s: FarrShape) -> Seq<char> {
    let fs = s.fields@;
    let size_expr = joined_with(fs.map_values(|f: (String, String)| size_of_text(f.1@)), " + "@);
    let ext = "{ "@ + joined_with(
        fs.map_values(|f: (String, String)| "out.extend(self."@ + f.0@ + ".to_fbytes());"@),
        "\n"@,
    ) + " }"@;
    let reads = "Self { "@ + joined_with(Seq::new(fs.len(), |i: int| read_text(fs, i)), "\n"@) + " }"@;
    joined_with(seq!["impl ByteFixArrayInterface for "@ + s.name@, size_expr, ext, reads], "\n\n"@)
}

/// The text of the byte form of the struct.
pub fn farr_text(s: &FarrShape) -> (res: String)
    ensures
        res@ == farr_items(*s),
{
    let ghost fs = s.fields@;
    let ghost offs = offsets(fs);
    let n = s.fields.len();
    let mut sizes: Vec<String> = Vec::new();
    let mut exts: Vec<String> = Vec::new();
    let mut reads: Vec<String> = Vec::new();
    let mut acc: Vec<char> = Vec::new();
    push_text(&mut acc, "0");
    let mut i: usize = 0;
    proof {
        assert(offs.take(1) =~= seq!["0"@]);
        assert(acc@ =~= joined_with(offs.take(1), " + "@));
    }
    while i < n
        invariant
            i <= n,
            n == fs.len(),
            fs == s.fields@,
            offs == offsets(fs),
            strings_view(sizes@) == fs.map_values(|f: (String, String)| size_of_text(f.1@)).take(i as int),
            strings_view(exts@) == fs.map_values(
                |f: (String, String)| "out.extend(self."@ + f.0@ + ".to_fbytes());"@,
            ).take(i as int),
            strings_view(reads@) == Seq::new(fs.len(), |k: int| read_text(fs, k)).take(i as int),
            acc@ == joined_with(offs.take(i + 1), " + "@),
        decreases n - i,
    {
        let f = &s.fields[i];
        let mut sc: Vec<char> = Vec::new();
        push_text(&mut sc, "<");
        push_text(&mut sc, f.1.as_str());
        push_text(&mut sc, " as ByteFixArrayInterface>::S");
        let size = string_from_chars(&sc);
        let mut ec: Vec<char> = Vec::new();
        push_text(&mut ec, "out.extend(self.");
        push_text(&mut ec, f.0.as_str());
        push_text(&mut ec, ".to_fbytes());");
        let ext = string_from_chars(&ec);
        let start = string_from_chars(&acc);
        push_text(&mut acc, " + ");
        push_text(&mut acc, size.as_str());
        let end = string_from_chars(&acc);
        let mut rc: Vec<char> = Vec::new();
        push_text(&mut rc, f.0.as_str());
        push_text(&mut rc, ": ");
        push_text(&mut rc, f.1.as_str());
        push_text(&mut rc, "::from_fbytes(&buf[");
        push_text(&mut rc, start.as_str());
        push_text(&mut rc, "..");
        push_text(&mut rc, end.as_str());
        push_text(&mut rc, "]),");
        let read = string_from_chars(&rc);
        let ghost (vs, ve, vr) = (strings_view(sizes@), strings_view(exts@), strings_view(reads@));
        sizes.push(size);
        exts.push(ext);
        reads.push(read);
        proof {
            assert(offs[i + 1] == size_of_text(fs[i as int].1@));
            assert(offs.take(i + 2).drop_last() =~= offs.take(i + 1));
            assert(offs.take(i + 2).len() == i + 2);
            assert(acc@ =~= joined_with(offs.take(i + 2), " + "@));
            assert(rc@ =~= read_text(fs, i as int));
            assert(strings_view(sizes@) =~= vs.push(sc@));
            assert(strings_view(exts@) =~= ve.push(ec@));
            assert(strings_view(reads@) =~= vr.push(rc@));
            assert(fs.map_values(|f: (String, String)| size_of_text(f.1@)).take(i + 1) =~= fs.map_values(
                |f: (String, String)| size_of_text(f.1@),
            ).take(i as int).push(sc@));
            assert(fs.map_values(|f: (String, String)| "out.extend(self."@ + f.0@ + ".to_fbytes());"@).take(i + 1)
                =~= fs.map_values(|f: (String, String)| "out.extend(self."@ + f.0@ + ".to_fbytes());"@).take(
                i as int,
            ).push(ec@));
            assert(Seq::new(fs.len(), |k: int| read_text(fs, k)).take(i + 1) =~= Seq::new(
                fs.len(),
                |k: int| read_text(fs, k),
            ).take(i as int).push(rc@));
        }
        i += 1;
    }
    proof {
        assert(fs.map_values(|f: (String, String)| size_of_text(f.1@)).take(n as int) =~= fs.map_values(
            |f: (String, String)| size_of_text(f.1@),
        ));
        assert(fs.map_values(|f: (String, String)| "out.extend(self."@ + f.0@ + ".to_fbytes());"@).take(n as int)
            =~= fs.map_values(|f: (String, String)| "out.extend(self."@ + f.0@ + ".to_fbytes());"@));
        assert(Seq::new(fs.len(), |k: int| read_text(fs, k)).take(n as int) =~= Seq::new(
            fs.len(),
            |k: int| read_text(fs, k),
        ));
    }
    let mut hc: Vec<char> = Vec::new();
    push_text(&mut hc, "impl ByteFixArrayInterface for ");
    push_text(&mut hc, s.name.as_str());
    let head = string_from_chars(&hc);
    let size_expr = join(&sizes, " + ");
    let mut xc: Vec<char> = Vec::new();
    push_text(&mut xc, "{ ");
    push_text(&mut xc, join(&exts, "\n").as_str());
    push_text(&mut xc, " }");
    let ext = string_from_chars(&xc);
    let mut yc: Vec<char> = Vec::new();
    push_text(&mut yc, "Self { ");
    push_text(&mut yc, join(&reads, "\n").as_str());
    push_text(&mut yc, " }");
    let self_t = string_from_chars(&yc);
    let ghost parts_v = seq![head@, size_expr@, ext@, self_t@];
    let parts = vec![head, size_expr, ext, self_t];
    proof {
        assert(strings_view(parts@) =~= parts_v);
        assert(hc@ =~= "impl ByteFixArrayInterface for "@ + s.name@);
    }
    join(&parts, "\n\n")
}

} // verus!
