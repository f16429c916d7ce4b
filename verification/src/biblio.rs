use vstd::prelude::*;
use vstd::string::*;
use vstd::utf8::*;
use crate::common::{parse_u64, parse_u64_spec};
use crate::text::{dec_digits, u64_to_string};
use crate::words::string_from_utf8;
use crate::entity::ByteArrayInterface;

verus! {

broadcast use {vstd::string::group_string_axioms, vstd::utf8::group_utf8_lib};

/// A work's volume, issue and pages, each empty where unknown.
#[derive(Debug, Clone, PartialEq, Eq)]
pub struct BiblioInfo {
    pub volume: String,
    pub issue: String,
    pub first_page: String,
    pub last_page: String,
}

/// The four texts, in their stored order.
pub open spec fn biblio_fields(b: BiblioInfo) -> Seq<Seq<char>> {
    seq![b.volume@, b.issue@, b.first_page@, b.last_page@]
}

/// The number a field holds where it parses as one.
pub open spec fn field_number(f: Seq<char>) -> Option<u64> {
    match parse_u64_spec(encode_utf8(f)) {
        Ok(v) => Some(v),
        Err(_) => None,
    }
}

/// The field is stored as a number: it is not empty and parses as one.
#[verifier::opaque]
pub open spec fn is_numeric(f: Seq<char>) -> bool {
    f.len() > 0 && field_number(f) is Some
}

/// One flag per field, the first field in the highest of the four bits.
pub open spec fn flags(a: bool, b: bool, c: bool, d: bool) -> int {
    (if a { 8int } else { 0 }) + (if b { 4int } else { 0 }) + (if c { 2int } else { 0 }) + (if d { 1int } else { 0 })
}

/// The first byte: which fields are present in the high half, which are numbers in the low.
pub open spec fn prefix_byte(fs: Seq<Seq<char>>) -> u8 {
    (16 * flags(fs[0].len() > 0, fs[1].len() > 0, fs[2].len() > 0, fs[3].len() > 0) + flags(
        is_numeric(fs[0]),
        is_numeric(fs[1]),
        is_numeric(fs[2]),
        is_numeric(fs[3]),
    )) as u8
}

/// How a present field is stored: its size code and its bytes. A number takes one, two or
/// four bytes, the lowest first; other text of one, two or four bytes is stored as is, and
/// any other length as a length byte and at most 255 bytes.
#[verifier::opaque]
pub open spec fn field_code(f: Seq<char>) -> (u8, Seq<u8>) {
    if is_numeric(f) {
        let v = field_number(f)->0;
        if v <= 255 {
            (0, seq![v as u8])
        } else if v <= 65535 {
            (1, seq![(v % 256) as u8, (v / 256) as u8])
        } else {
            let w = (v % 0x1_0000_0000) as u32;
            (2, seq![(w % 256) as u8, ((w / 256) % 256) as u8, ((w / 65536) % 256) as u8, (w / 16777216) as u8])
        }
    } else {
        let b = encode_utf8(f);
        if b.len() == 1 {
            (0, b)
        } else if b.len() == 2 {
            (1, b)
        } else if b.len() == 4 {
            (2, b)
        } else {
            let l: int = if b.len() < 255 { b.len() as int } else { 255 };
            (3, seq![l as u8] + b.subrange(0, l))
        }
    }
}

/// The size code of a field, 0 where it is absent.
pub open spec fn code_of(f: Seq<char>) -> int {
    if f.len() > 0 { field_code(f).0 as int } else { 0 }
}

/// The bytes of a field, none where it is absent.
pub open spec fn bytes_of(f: Seq<char>) -> Seq<u8> {
    if f.len() > 0 { field_code(f).1 } else { Seq::empty() }
}

/// The stored form: the prefix byte alone where no field is present, else the prefix byte,
/// the size byte with two bits per field (the first field highest) and the fields' bytes.
pub open spec fn biblio_bytes(fs: Seq<Seq<char>>) -> Seq<u8> {
    let p = prefix_byte(fs);
    if fs[0].len() == 0 && fs[1].len() == 0 && fs[2].len() == 0 && fs[3].len() == 0 {
        seq![p]
    } else {
        let size = (64 * code_of(fs[0]) + 16 * code_of(fs[1]) + 4 * code_of(fs[2]) + code_of(fs[3])) as u8;
        seq![p, size] + bytes_of(fs[0]) + bytes_of(fs[1]) + bytes_of(fs[2]) + bytes_of(fs[3])
    }
}

/// Bit `k` of a byte, counting the lowest as 0.
pub open spec fn bit(x: u8, k: int) -> bool {
    (x as int / pow2(k)) % 2 == 1
}

pub open spec fn pow2(k: int) -> int {
    if k <= 0 { 1 } else if k == 1 { 2 } else if k == 2 { 4 } else if k == 3 { 8 } else if k == 4 { 16 } else if k == 5 { 32 } else if k == 6 { 64 } else { 128 }
}

/// The text the bytes spell, or the empty text where they are not UTF-8.
pub open spec fn utf8_or_empty(b: Seq<u8>) -> Seq<char> {
    if valid_utf8(b) { decode_utf8(b) } else { Seq::empty() }
}

/// What reading field `i` from `pos` gives: its text and where the next field starts, or
/// nothing where a read would leave the buffer.
pub open spec fn read_field(buf: Seq<u8>, pos: int, numeric: bool, code: int) -> Option<(Seq<char>, int)> {
    if numeric {
        if code == 0 {
            let v: int = if 0 <= pos < buf.len() { buf[pos] as int } else { 0 };
            Some((dec_digits(v as nat), pos + 1))
        } else if code == 1 {
            if pos + 2 <= buf.len() {
                Some((dec_digits((buf[pos] + 256 * buf[pos + 1]) as nat), pos + 2))
            } else {
                None
            }
        } else if code == 2 {
            if pos + 4 <= buf.len() {
                Some((dec_digits((buf[pos] + 256 * buf[pos + 1] + 65536 * buf[pos + 2] + 16777216 * buf[pos + 3]) as nat), pos + 4))
            } else {
                None
            }
        } else {
            read_dynamic(buf, pos)
        }
    } else {
        if code == 0 {
            if pos + 1 <= buf.len() { Some((utf8_or_empty(buf.subrange(pos, pos + 1)), pos + 1)) } else { None }
        } else if code == 1 {
            if pos + 2 <= buf.len() { Some((utf8_or_empty(buf.subrange(pos, pos + 2)), pos + 2)) } else { None }
        } else if code == 2 {
            if pos + 4 <= buf.len() { Some((utf8_or_empty(buf.subrange(pos, pos + 4)), pos + 4)) } else { None }
        } else {
            read_dynamic(buf, pos)
        }
    }
}

/// A length byte (0 past the end) and that many bytes as text.
pub open spec fn read_dynamic(buf: Seq<u8>, pos: int) -> Option<(Seq<char>, int)> {
    let l: int = if 0 <= pos < buf.len() { buf[pos] as int } else { 0 };
    if pos + 1 + l <= buf.len() {
        Some((utf8_or_empty(buf.subrange(pos + 1, pos + 1 + l)), pos + 1 + l))
    } else {
        None
    }
}

/// What reading field `i` gives, after the ones before it: empty where absent.
#[verifier::opaque]
pub open spec fn read_nth(buf: Seq<u8>, pos: int, i: int) -> Option<(Seq<char>, int)> {
    let prefix = buf[0];
    let size: u8 = if buf.len() > 1 { buf[1] } else { 0 };
    if !bit(prefix, 7 - i) {
        Some((Seq::empty(), pos))
    } else {
        read_field(buf, pos, bit(prefix, 3 - i), (size as int / pow2(6 - 2 * i)) % 4)
    }
}

/// The four fields the bytes hold, or nothing where reading them would leave the buffer.
pub open spec fn read_biblio(buf: Seq<u8>) -> Option<Seq<Seq<char>>> {
    if buf.len() == 0 || buf[0] < 16 {
        Some(seq![Seq::empty(), Seq::empty(), Seq::empty(), Seq::empty()])
    } else {
        match read_nth(buf, 2, 0) {
            Some((f0, p1)) => match read_nth(buf, p1, 1) {
                Some((f1, p2)) => match read_nth(buf, p2, 2) {
                    Some((f2, p3)) => match read_nth(buf, p3, 3) {
                        Some((f3, _p4)) => Some(seq![f0, f1, f2, f3]),
                        None => None,
                    },
                    None => None,
                },
                None => None,
            },
            None => None,
        }
    }
}

/// How a present field is stored: whether it is a number, its size code and its bytes.
fn encode_field(f: &String) -> (res: (bool, u8, Vec<u8>))
    requires
        f@.len() > 0,
    ensures
        res.0 == is_numeric(f@),
        res.1 == field_code(f@).0,
        res.2@ == field_code(f@).1,
{
    reveal(field_code);
    reveal(is_numeric);
    let b = f.as_str().as_bytes();
    proof {
        assert(b@ == encode_utf8(f@));
    }
    match parse_u64(b) {
        Ok(v) => {
            if v <= 255 {
                let out = vec![v as u8];
                proof {
                    assert(out@ =~= seq![v as u8]);
                }
                (true, 0, out)
            } else if v <= 65535 {
                let out = vec![(v % 256) as u8, (v / 256) as u8];
                proof {
                    assert(out@ =~= seq![(v % 256) as u8, (v / 256) as u8]);
                }
                (true, 1, out)
            } else {
                let w = (v % 0x1_0000_0000) as u32;
                let out = vec![(w % 256) as u8, ((w / 256) % 256) as u8, ((w / 65536) % 256) as u8, (w / 16777216) as u8];
                proof {
                    assert(out@ =~= seq![(w % 256) as u8, ((w / 256) % 256) as u8, ((w / 65536) % 256) as u8, (w / 16777216) as u8]);
                }
                (true, 2, out)
            }
        },
        Err(_) => {
            let n = b.len();
            if n == 1 || n == 2 || n == 4 {
                let out = vstd::slice::slice_to_vec(b);
                let code: u8 = if n == 1 {
                    0
                } else if n == 2 {
                    1
                } else {
                    2
                };
                (false, code, out)
            } else {
                let l: usize = if n < 255 {
                    n
                } else {
                    255
                };
                let mut out = vec![l as u8];
                let mut k: usize = 0;
                while k < l
                    invariant
                        l <= n == b@.len(),
                        k <= l,
                        out@ == seq![l as u8] + b@.subrange(0, k as int),
                    decreases l - k,
                {
                    out.push(b[k]);
                    proof {
                        assert(out@ =~= seq![l as u8] + b@.subrange(0, k + 1));
                    }
                    k += 1;
                }
                (false, 3, out)
            }
        },
    }
}

/// The flag bits of four conditions, the first in the highest bit.
fn flag_bits(a: bool, b: bool, c: bool, d: bool) -> (res: u8)
    ensures
        res == flags(a, b, c, d),
{
    (if a { 8u8 } else { 0 }) + (if b { 4u8 } else { 0 }) + (if c { 2u8 } else { 0 }) + (if d { 1u8 } else { 0 })
}

/// Whether bit `k` of the byte is set.
fn bit_of(x: u8, k: u8) -> (res: bool)
    requires
        k < 8,
    ensures
        res == bit(x, k as int),
{
    let d: u8 = if k == 0 {
        1
    } else if k == 1 {
        2
    } else if k == 2 {
        4
    } else if k == 3 {
        8
    } else if k == 4 {
        16
    } else if k == 5 {
        32
    } else if k == 6 {
        64
    } else {
        128
    };
    (x / d) % 2 == 1
}

/// The text the bytes spell, or the empty text where they are not UTF-8.
fn text_or_empty(b: &[u8]) -> (res: String)
    ensures
        res@ == utf8_or_empty(b@),
{
    match string_from_utf8(vstd::slice::slice_to_vec(b)) {
        Some(s) => s,
        None => String::new(),
    }
}

/// Reads one present field from `pos`.
fn read_field_exec(buf: &[u8], pos: usize, numeric: bool, code: u8) -> (res: (String, usize))
    requires
        code < 4,
        pos <= usize::MAX - 8,
        read_field(buf@, pos as int, numeric, code as int) is Some,
    ensures
        read_field(buf@, pos as int, numeric, code as int) == Some((res.0@, res.1 as int)),
{
    reveal(read_field);
    let n = buf.len();
    if numeric && code == 0 {
        let v: u8 = if pos < n {
            buf[pos]
        } else {
            0
        };
        return (u64_to_string(v as u64), pos + 1);
    }
    if numeric && code == 1 {
        let v = buf[pos] as u64 + 256 * (buf[pos + 1] as u64);
        return (u64_to_string(v), pos + 2);
    }
    if numeric && code == 2 {
        let v = buf[pos] as u64 + 256 * (buf[pos + 1] as u64) + 65536 * (buf[pos + 2] as u64) + 16777216 * (buf[pos + 3] as u64);
        return (u64_to_string(v), pos + 4);
    }
    if !numeric && code < 3 {
        let w: usize = if code == 0 {
            1
        } else if code == 1 {
            2
        } else {
            4
        };
        let s = text_or_empty(vstd::slice::slice_subrange(buf, pos, pos + w));
        return (s, pos + w);
    }
    let l: usize = if pos < n {
        buf[pos] as usize
    } else {
        0
    };
    let s = text_or_empty(vstd::slice::slice_subrange(buf, pos + 1, pos + 1 + l));
    (s, pos + 1 + l)
}

/// What a buffer reads as: the prefix, size and field bytes, or all empty fields.
pub open spec fn biblio_readable(buf: Seq<u8>) -> bool {
    read_biblio(buf) is Some
}

impl Default for BiblioInfo {
    fn default() -> (res: Self)
        ensures
            biblio_fields(res) == seq![Seq::<char>::empty(), Seq::<char>::empty(), Seq::<char>::empty(), Seq::<char>::empty()],
    {
        Self { volume: String::new(), issue: String::new(), first_page: String::new(), last_page: String::new() }
    }
}

impl BiblioInfo {
    /// Reads field `i` after `pos`: empty where its presence bit is clear.
    fn read_nth_exec(buf: &[u8], pos: usize, i: u8) -> (res: (String, usize))
        requires
            buf@.len() > 0,
            i < 4,
            pos <= 2 + 260 * i,
            read_nth(buf@, pos as int, i as int) is Some,
        ensures
            read_nth(buf@, pos as int, i as int) == Some((res.0@, res.1 as int)),
            res.1 <= pos + 260,
    {
        reveal(read_nth);
        let prefix = buf[0];
        let size: u8 = if buf.len() > 1 {
            buf[1]
        } else {
            0
        };
        if !bit_of(prefix, 7 - i) {
            return (String::new(), pos);
        }
        let numeric = bit_of(prefix, 3 - i);
        let d: u8 = if i == 0 {
            64
        } else if i == 1 {
            16
        } else if i == 2 {
            4
        } else {
            1
        };
        let code = (size / d) % 4;
        proof {
            assert(pow2(6 - 2 * i) == d as int);
        }
        read_field_exec(buf, pos, numeric, code)
    }
}

impl ByteArrayInterface for BiblioInfo {
    open spec fn readable(buf: Seq<u8>) -> bool {
        biblio_readable(buf)
    }

    /// The stored form of the four fields.
    fn to_bytes(&self) -> (res: Vec<u8>)
        ensures
            res@ == biblio_bytes(biblio_fields(*self)),
    {
        let ghost fs = biblio_fields(*self);
        let p0 = self.volume.as_str().unicode_len() > 0;
        let p1 = self.issue.as_str().unicode_len() > 0;
        let p2 = self.first_page.as_str().unicode_len() > 0;
        let p3 = self.last_page.as_str().unicode_len() > 0;
        let e0 = if p0 { encode_field(&self.volume) } else { (false, 0u8, Vec::new()) };
        let e1 = if p1 { encode_field(&self.issue) } else { (false, 0u8, Vec::new()) };
        let e2 = if p2 { encode_field(&self.first_page) } else { (false, 0u8, Vec::new()) };
        let e3 = if p3 { encode_field(&self.last_page) } else { (false, 0u8, Vec::new()) };
        proof {
            lemma_field_code_small(self.volume@);
            lemma_field_code_small(self.issue@);
            lemma_field_code_small(self.first_page@);
            lemma_field_code_small(self.last_page@);
            reveal(is_numeric);
        }
        let presence = flag_bits(p0, p1, p2, p3);
        let numeric = flag_bits(e0.0, e1.0, e2.0, e3.0);
        let prefix = presence * 16 + numeric;
        proof {
            assert(!p0 ==> !is_numeric(fs[0]));
            assert(!p1 ==> !is_numeric(fs[1]));
            assert(!p2 ==> !is_numeric(fs[2]));
            assert(!p3 ==> !is_numeric(fs[3]));
            assert(prefix == prefix_byte(fs));
        }
        if presence == 0 {
            let out = vec![prefix];
            proof {
                assert(out@ =~= biblio_bytes(fs));
            }
            return out;
        }
        let size = e0.1 * 64 + e1.1 * 16 + e2.1 * 4 + e3.1;
        let mut out = vec![prefix, size];
        let mut b0 = e0.2;
        let mut b1 = e1.2;
        let mut b2 = e2.2;
        let mut b3 = e3.2;
        out.append(&mut b0);
        out.append(&mut b1);
        out.append(&mut b2);
        out.append(&mut b3);
        proof {
            assert(out@ =~= biblio_bytes(fs));
        }
        out
    }

    /// The fields the bytes hold.
    fn from_bytes(buf: &[u8]) -> (res: Self)
        ensures
            read_biblio(buf@) == Some(biblio_fields(res)),
    {
        if buf.len() == 0 || buf[0] < 16 {
            let res = Self::default();
            proof {
                assert(biblio_fields(res) =~= seq![Seq::<char>::empty(), Seq::<char>::empty(), Seq::<char>::empty(), Seq::<char>::empty()]);
            }
            return res;
        }
        let (volume, q1) = Self::read_nth_exec(buf, 2, 0);
        let (issue, q2) = Self::read_nth_exec(buf, q1, 1);
        let (first_page, q3) = Self::read_nth_exec(buf, q2, 2);
        let (last_page, _q4) = Self::read_nth_exec(buf, q3, 3);
        let res = Self { volume, issue, first_page, last_page };
        proof {
            assert(biblio_fields(res) =~= read_biblio(buf@)->0);
        }
        res
    }
}

/// A field that reads back as itself: empty; a number in canonical digits that fits a
/// `u32`; or other text of at most 255 bytes.
pub open spec fn canonical_field(f: Seq<char>) -> bool {
    ||| f.len() == 0
    ||| (is_numeric(f) && field_number(f)->0 <= u32::MAX && dec_digits(field_number(f)->0 as nat) == f)
    ||| (!is_numeric(f) && encode_utf8(f).len() <= 255)
}

proof fn lemma_flag_bits(a: bool, b: bool, c: bool, d: bool, e: bool, f: bool, g: bool, h: bool)
    ensures
        ({
            let p = (16 * flags(a, b, c, d) + flags(e, f, g, h)) as u8;
            &&& bit(p, 7) == a
            &&& bit(p, 6) == b
            &&& bit(p, 5) == c
            &&& bit(p, 4) == d
            &&& bit(p, 3) == e
            &&& bit(p, 2) == f
            &&& bit(p, 1) == g
            &&& bit(p, 0) == h
            &&& (p >= 16 <==> (a || b || c || d))
        }),
{
}

proof fn lemma_size_codes(c0: int, c1: int, c2: int, c3: int)
    requires
        0 <= c0 < 4,
        0 <= c1 < 4,
        0 <= c2 < 4,
        0 <= c3 < 4,
    ensures
        ({
            let s = (64 * c0 + 16 * c1 + 4 * c2 + c3) as u8;
            &&& (s as int / 64) % 4 == c0
            &&& (s as int / 16) % 4 == c1
            &&& (s as int / 4) % 4 == c2
            &&& (s as int / 1) % 4 == c3
        }),
{
}

proof fn lemma_read_field(buf: Seq<u8>, pos: int, f: Seq<char>)
    requires
        canonical_field(f),
        f.len() > 0,
        0 <= pos,
        pos + field_code(f).1.len() <= buf.len(),
        buf.subrange(pos, pos + field_code(f).1.len()) == field_code(f).1,
    ensures
        read_field(buf, pos, is_numeric(f), field_code(f).0 as int) == Some((f, pos + field_code(f).1.len())),
{
    reveal(read_field);
    reveal(field_code);
    reveal(is_numeric);
    let (code, bs) = field_code(f);
    assert(forall|k: int| 0 <= k < bs.len() ==> buf[pos + k] == #[trigger] bs[k]) by {
        assert forall|k: int| 0 <= k < bs.len() implies buf[pos + k] == #[trigger] bs[k] by {
            assert(buf.subrange(pos, pos + bs.len())[k] == buf[pos + k]);
        }
    }
    if is_numeric(f) {
        let v = field_number(f)->0;
        if v <= 255 {
            assert(buf[pos] == bs[0]);
        } else if v <= 65535 {
            assert(buf[pos] == bs[0] && buf[pos + 1] == bs[1]);
            assert(buf[pos] + 256 * buf[pos + 1] == v) by (nonlinear_arith)
                requires
                    buf[pos] == (v % 256) as u8,
                    buf[pos + 1] == (v / 256) as u8,
                    v <= 65535,
            ;
        } else {
            let w = (v % 0x1_0000_0000) as u32;
            assert(w == v);
            assert(buf[pos] == bs[0] && buf[pos + 1] == bs[1] && buf[pos + 2] == bs[2] && buf[pos + 3] == bs[3]);
            assert(buf[pos] + 256 * buf[pos + 1] + 65536 * buf[pos + 2] + 16777216 * buf[pos + 3] == w) by (nonlinear_arith)
                requires
                    buf[pos] == (w % 256) as u8,
                    buf[pos + 1] == ((w / 256) % 256) as u8,
                    buf[pos + 2] == ((w / 65536) % 256) as u8,
                    buf[pos + 3] == (w / 16777216) as u8,
            ;
        }
    } else {
        let b = encode_utf8(f);
        encode_utf8_valid_utf8(f);
        encode_utf8_decode_utf8(f);
        if b.len() == 1 || b.len() == 2 || b.len() == 4 {
            assert(buf.subrange(pos, pos + b.len()) == b);
        } else {
            assert(buf[pos] == bs[0]);
            assert(bs[0] == b.len() as u8);
            assert(buf.subrange(pos + 1, pos + 1 + b.len()) =~= b) by {
                assert forall|k: int| 0 <= k < b.len() implies buf.subrange(pos + 1, pos + 1 + b.len())[k] == b[k] by {
                    assert(bs[1 + k] == b[k]);
                }
            }
        }
    }
}

proof fn lemma_field_code_small(f: Seq<char>)
    ensures
        field_code(f).0 < 4,
{
    reveal(field_code);
}

proof fn lemma_read_nth(buf: Seq<u8>, pos: int, i: int, fs: Seq<Seq<char>>)
    requires
        0 <= i < 4,
        fs.len() == 4,
        canonical_field(fs[i]),
        buf.len() > 1,
        buf[0] == prefix_byte(fs),
        buf[1] == (64 * code_of(fs[0]) + 16 * code_of(fs[1]) + 4 * code_of(fs[2]) + code_of(fs[3])) as u8,
        0 <= pos,
        pos + bytes_of(fs[i]).len() <= buf.len(),
        buf.subrange(pos, pos + bytes_of(fs[i]).len()) == bytes_of(fs[i]),
    ensures
        read_nth(buf, pos, i) == Some((fs[i], pos + bytes_of(fs[i]).len())),
{
    reveal(read_nth);
    lemma_flag_bits(fs[0].len() > 0, fs[1].len() > 0, fs[2].len() > 0, fs[3].len() > 0, is_numeric(fs[0]), is_numeric(fs[1]), is_numeric(fs[2]), is_numeric(fs[3]));
    lemma_field_code_small(fs[0]);
    lemma_field_code_small(fs[1]);
    lemma_field_code_small(fs[2]);
    lemma_field_code_small(fs[3]);
    lemma_size_codes(code_of(fs[0]), code_of(fs[1]), code_of(fs[2]), code_of(fs[3]));
    if fs[i].len() > 0 {
        lemma_read_field(buf, pos, fs[i]);
    } else {
        assert(fs[i] =~= Seq::<char>::empty());
    }
}

/// The stretches of a two-byte head followed by four parts.
proof fn lemma_parts(buf: Seq<u8>, b0: Seq<u8>, b1: Seq<u8>, b2: Seq<u8>, b3: Seq<u8>)
    requires
        buf == seq![buf[0], buf[1]] + b0 + b1 + b2 + b3,
    ensures
        buf.subrange(2, 2 + b0.len() as int) == b0,
        buf.subrange(2 + b0.len() as int, 2 + b0.len() as int + b1.len() as int) == b1,
        buf.subrange(2 + b0.len() as int + b1.len() as int, 2 + b0.len() as int + b1.len() as int + b2.len() as int) == b2,
        buf.subrange(2 + b0.len() as int + b1.len() as int + b2.len() as int, 2 + b0.len() as int + b1.len() as int + b2.len() as int + b3.len() as int) == b3,
        buf.len() == 2 + b0.len() + b1.len() + b2.len() + b3.len(),
{
    let l0 = b0.len() as int;
    let l1 = b1.len() as int;
    let l2 = b2.len() as int;
    assert(buf.subrange(2, 2 + l0) =~= b0);
    assert(buf.subrange(2 + l0, 2 + l0 + l1) =~= b1);
    assert(buf.subrange(2 + l0 + l1, 2 + l0 + l1 + l2) =~= b2);
    assert(buf.subrange(2 + l0 + l1 + l2, buf.len() as int) =~= b3);
}

proof fn lemma_fields_read_back(fs: Seq<Seq<char>>)
    requires
        fs.len() == 4,
        forall|i: int| 0 <= i < 4 ==> canonical_field(#[trigger] fs[i]),
        !(fs[0].len() == 0 && fs[1].len() == 0 && fs[2].len() == 0 && fs[3].len() == 0),
    ensures
        read_biblio(biblio_bytes(fs)) == Some(fs),
{
    let buf = biblio_bytes(fs);
    let b0 = bytes_of(fs[0]);
    let b1 = bytes_of(fs[1]);
    let b2 = bytes_of(fs[2]);
    let b3 = bytes_of(fs[3]);
    let size = (64 * code_of(fs[0]) + 16 * code_of(fs[1]) + 4 * code_of(fs[2]) + code_of(fs[3])) as u8;
    assert(buf == seq![prefix_byte(fs), size] + b0 + b1 + b2 + b3);
    assert(buf[0] == prefix_byte(fs) && buf[1] == size);
    assert(seq![buf[0], buf[1]] =~= seq![prefix_byte(fs), size]);
    lemma_parts(buf, b0, b1, b2, b3);
    let l0 = b0.len() as int;
    let l1 = b1.len() as int;
    let l2 = b2.len() as int;
    assert(canonical_field(fs[0]) && canonical_field(fs[1]) && canonical_field(fs[2]) && canonical_field(fs[3]));
    lemma_read_nth(buf, 2, 0, fs);
    lemma_read_nth(buf, 2 + l0, 1, fs);
    lemma_read_nth(buf, 2 + l0 + l1, 2, fs);
    lemma_read_nth(buf, 2 + l0 + l1 + l2, 3, fs);
    lemma_flag_bits(fs[0].len() > 0, fs[1].len() > 0, fs[2].len() > 0, fs[3].len() > 0, is_numeric(fs[0]), is_numeric(fs[1]), is_numeric(fs[2]), is_numeric(fs[3]));
    assert(buf[0] >= 16);
    assert(seq![fs[0], fs[1], fs[2], fs[3]] =~= fs);
}

/// What `to_bytes` writes, `from_bytes` reads back, for fields that are empty, numbers in
/// canonical digits that fit a `u32`, or other text of at most 255 bytes.
pub proof fn law_biblio_roundtrip(b: BiblioInfo)
    requires
        forall|i: int| 0 <= i < 4 ==> canonical_field(#[trigger] biblio_fields(b)[i]),
    ensures
        read_biblio(biblio_bytes(biblio_fields(b))) == Some(biblio_fields(b)),
{
    let fs = biblio_fields(b);
    if fs[0].len() == 0 && fs[1].len() == 0 && fs[2].len() == 0 && fs[3].len() == 0 {
        lemma_flag_bits(false, false, false, false, false, false, false, false);
        reveal(is_numeric);
        assert(!is_numeric(fs[0]) && !is_numeric(fs[1]) && !is_numeric(fs[2]) && !is_numeric(fs[3]));
        assert(fs[0] =~= Seq::<char>::empty());
        assert(fs[1] =~= Seq::<char>::empty());
        assert(fs[2] =~= Seq::<char>::empty());
        assert(fs[3] =~= Seq::<char>::empty());
        assert(fs =~= seq![Seq::<char>::empty(), Seq::<char>::empty(), Seq::<char>::empty(), Seq::<char>::empty()]);
    } else {
        assert forall|i: int| 0 <= i < 4 implies canonical_field(#[trigger] fs[i]) by {
            assert(canonical_field(biblio_fields(b)[i]));
        }
        lemma_fields_read_back(fs);
    }
}

} // verus!
