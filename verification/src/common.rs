use vstd::prelude::*;
use vstd::utf8::*;
use vstd::string::StringSliceAdditionalSpecFns;
use core::marker::PhantomData;
use crate::entity::{Entity, MappableEntity, NumberedEntity, VariableSizeAttribute};
use crate::text::{chars_of, string_from_chars};

verus! {

broadcast use {vstd::string::group_string_axioms, vstd::utf8::group_utf8_lib};

/// The directory of the built data.
pub const BUILD_LOC: &'static str = "qc-builds";

/// The directory of the semantic ids.
pub const SEM_DIR: &'static str = "semantic-ids";

/// What every OpenAlex id starts with.
pub const ID_PREFIX: &'static str = "https://openalex.org/";

/// The bytes of an OpenAlex id before its number: the prefix and the entity's letter.
pub const ID_NUMBER_START: usize = 22;

/// The number of peers kept for an entity.
pub const N_PEERS: usize = 10;

pub struct NameMarker;

pub struct NameExtensionMarker;

pub struct DoiMarker;

pub struct SemanticIdMarker;

pub struct MainWorkMarker;

pub struct HitWorkMarker;

pub struct WorkCountMarker;

pub struct CiteCountMarker;

pub struct RefSubfieldsArrayMarker;

pub struct CitSubfieldsArrayMarker;

pub struct YearlyPapersMarker;

pub struct YearlyCitationsMarker;

pub struct InstRelMarker;

pub struct Top3PaperSfMarker;

pub struct Top3CitingSfMarker;

pub struct Top3PaperTopicMarker;

pub struct Top15AuthorMarker;

pub struct Top3CitingTopicMarker;

pub struct Top3JournalMarker;

pub struct Top3AffCountryMarker;

pub struct PeerMarker;

pub struct HIndexMarker;

pub struct HIndexSinceMarker;

pub struct CitRankLadderMarker;

pub struct YearCentroidMarker;

pub struct ScoredPaperCountMarker;

/// An attribute entity with no records.
pub struct EmptyAttributeEntity<T> {
    p: PhantomData<T>,
}

impl<T> Entity for EmptyAttributeEntity<T> {
    type T = T;

    const N: usize = 0;

    const NAME: &'static str = "nothing";
}

impl<T> VariableSizeAttribute for EmptyAttributeEntity<T> {
    type SizeType = u8;
}

impl<T> MappableEntity for EmptyAttributeEntity<T> {
    type KeyType = usize;
}

/// Numbered entities kept in memory, found by their big id.
pub struct QuickestNumbered {}

/// Attributes kept in a map.
pub struct QuickMap {}

/// Fixed-size attributes kept in memory.
pub struct QuickestBox {}

/// Fixed-size attributes read from a mapped file.
pub struct MmapBox {}

/// Variable-size attributes kept as an array pair.
pub struct QuickAttPair {}

/// Variable-size attributes kept in memory.
pub struct QuickestVBox {}

/// Variable-size attributes read from a file.
pub struct VarFile {}

/// Records read one by one.
pub struct ReadIter {}

/// Fixed-size records read one by one.
pub struct ReadFixIter {}

/// Compact entities read one by one.
pub struct IterCompactElement {}

/// A big id with its semantic id.
pub struct SemanticElem {
    pub id: u64,
    pub semantic_id: String,
}

/// The storage kind that backs an entity.
pub trait BackendSelector<E> where E: Entity {
    type BE;
}

/// A numbered entity that is one of the main kinds of records.
pub trait MainEntity: NumberedEntity {

}

/// A record that carries an OpenAlex id.
pub trait ParsedId {
    fn get_parsed_id(&self) -> Option<u64>;
}

/// Why a number did not parse: nothing to parse, a character that is not a digit, or a
/// value above the largest `u64`.
#[derive(Debug, Clone, Copy, PartialEq, Eq)]
pub enum IntParseError {
    Empty,
    InvalidDigit,
    PosOverflow,
}

/// The value of decimal digits.
pub open spec fn digits_value(s: Seq<u8>) -> nat
    decreases s.len(),
{
    if s.len() == 0 {
        0
    } else {
        digits_value(s.drop_last()) * 10 + (s.last() - 48) as nat
    }
}

/// Every byte is a decimal digit.
pub open spec fn all_digits(s: Seq<u8>) -> bool {
    forall|i: int| 0 <= i < s.len() ==> 48 <= #[trigger] s[i] <= 57
}

/// The digits of a number text: after a leading plus sign where there is one.
pub open spec fn unsigned_digits(s: Seq<u8>) -> Seq<u8> {
    if s.len() > 0 && s[0] == 43 {
        s.drop_first()
    } else {
        s
    }
}

/// How many decimal digits the bytes start with.
pub open spec fn digit_run(d: Seq<u8>) -> nat
    decreases d.len(),
{
    if d.len() > 0 && 48 <= d[0] <= 57 {
        1 + digit_run(d.drop_first())
    } else {
        0
    }
}

/// What parsing a `u64` from the bytes gives: an optional plus sign, then one or more decimal
/// digits of a value that fits. Read from the left, the first trouble decides: a value that has
/// grown past the largest `u64` before any byte that is not a digit is an overflow.
pub open spec fn parse_u64_spec(s: Seq<u8>) -> Result<u64, IntParseError> {
    let d = unsigned_digits(s);
    let j = digit_run(d);
    if s.len() == 0 {
        Err(IntParseError::Empty)
    } else if s.len() == 1 && s[0] == 43 {
        Err(IntParseError::InvalidDigit)
    } else if digits_value(d.subrange(0, j as int)) > u64::MAX {
        Err(IntParseError::PosOverflow)
    } else if j < d.len() {
        Err(IntParseError::InvalidDigit)
    } else {
        Ok(digits_value(d) as u64)
    }
}

proof fn lemma_digits_value_monotone(s: Seq<u8>, k: int)
    requires
        all_digits(s),
        0 <= k <= s.len(),
    ensures
        digits_value(s.subrange(0, k)) <= digits_value(s),
    decreases s.len() - k,
{
    if k < s.len() {
        lemma_digits_value_monotone(s, k + 1);
        let p = s.subrange(0, k + 1);
        assert(p.drop_last() =~= s.subrange(0, k));
    } else {
        assert(s.subrange(0, k) =~= s);
    }
}

pub proof fn lemma_digit_run(d: Seq<u8>, k: int)
    requires
        0 <= k <= d.len(),
        forall|i: int| 0 <= i < k ==> 48 <= #[trigger] d[i] <= 57,
        k == d.len() || !(48 <= d[k] <= 57),
    ensures
        digit_run(d) == k,
    decreases k,
{
    if k > 0 {
        let t = d.drop_first();
        assert forall|i: int| 0 <= i < k - 1 implies 48 <= #[trigger] t[i] <= 57 by {
            assert(t[i] == d[i + 1]);
        }
        if k < d.len() {
            assert(t[k - 1] == d[k]);
        }
        lemma_digit_run(t, k - 1);
    }
}

proof fn lemma_digit_run_prefix(d: Seq<u8>, k: int)
    requires
        0 <= k <= d.len(),
        forall|i: int| 0 <= i < k ==> 48 <= #[trigger] d[i] <= 57,
    ensures
        k <= digit_run(d) <= d.len(),
        forall|i: int| 0 <= i < digit_run(d) ==> 48 <= #[trigger] d[i] <= 57,
    decreases d.len(),
{
    if d.len() > 0 && 48 <= d[0] <= 57 {
        let t = d.drop_first();
        let k2 = if k > 0 { k - 1 } else { 0 };
        assert forall|i: int| 0 <= i < k2 implies 48 <= #[trigger] t[i] <= 57 by {
            assert(t[i] == d[i + 1]);
        }
        lemma_digit_run_prefix(t, k2);
        assert forall|i: int| 0 <= i < digit_run(d) implies 48 <= #[trigger] d[i] <= 57 by {
            if i > 0 {
                assert(d[i] == t[i - 1]);
            }
        }
    } else {
        if k > 0 {
            assert(48 <= d[0] <= 57);
        }
    }
}

/// Parses a `u64` from decimal digits, with an optional leading plus sign, as `str::parse`
/// does.
pub fn parse_u64(s: &[u8]) -> (res: Result<u64, IntParseError>)
    ensures
        res == parse_u64_spec(s@),
{
    let n = s.len();
    if n == 0 {
        return Err(IntParseError::Empty);
    }
    let start: usize = if s[0] == 43 {
        1
    } else {
        0
    };
    if start == 1 && n == 1 {
        return Err(IntParseError::InvalidDigit);
    }
    let ghost d = unsigned_digits(s@);
    proof {
        assert(d =~= s@.subrange(start as int, n as int));
        assert(d.subrange(0, 0) =~= Seq::<u8>::empty());
    }
    let mut v: u64 = 0;
    let mut j = start;
    while j < n
        invariant
            start <= j <= n == s@.len(),
            n > 0,
            start == 1 ==> n > 1,
            start == (if s@[0] == 43 { 1usize } else { 0usize }),
            d == unsigned_digits(s@),
            d == s@.subrange(start as int, n as int),
            forall|k: int| 0 <= k < j - start ==> 48 <= #[trigger] d[k] <= 57,
            v as nat == digits_value(d.subrange(0, j - start)),
        decreases n - j,
    {
        proof {
            assert(d[j - start] == s@[j as int]);
        }
        if s[j] < 48 || s[j] > 57 {
            proof {
                lemma_digit_run(d, j - start);
            }
            return Err(IntParseError::InvalidDigit);
        }
        proof {
            let p = d.subrange(0, j - start + 1);
            assert(p.drop_last() =~= d.subrange(0, j - start));
        }
        let c = (s[j] - 48) as u64;
        if v > 1844674407370955161 || (v == 1844674407370955161 && c > 5) {
            proof {
                lemma_digit_run_prefix(d, j - start + 1);
                let k = digit_run(d) as int;
                let q = d.subrange(0, k);
                assert(all_digits(q));
                lemma_digits_value_monotone(q, j - start + 1);
                assert(q.subrange(0, j - start + 1) =~= d.subrange(0, j - start + 1));
            }
            return Err(IntParseError::PosOverflow);
        }
        v = v * 10 + c;
        j += 1;
    }
    proof {
        lemma_digit_run(d, d.len() as int);
        assert(d.subrange(0, j - start) =~= d);
    }
    Ok(v)
}

/// The bytes of an OpenAlex id hold its number from the 23rd byte on.
pub open spec fn id_number_bytes(id: &str) -> Seq<u8> {
    id.spec_bytes().subrange(ID_NUMBER_START as int, id.spec_bytes().len() as int)
}

/// The id is long enough to hold a number after its prefix and letter, and that number starts
/// on a character of its own.
pub open spec fn id_sliceable(id: &str) -> bool {
    &&& ID_NUMBER_START <= id.spec_bytes().len()
    &&& is_char_boundary(id.spec_bytes(), ID_NUMBER_START as int)
}

/// The number of an OpenAlex id, or why it does not parse.
pub fn oa_id_parse_res(id: &str) -> (res: Result<u64, IntParseError>)
    requires
        id_sliceable(id),
    ensures
        res == parse_u64_spec(id_number_bytes(id)),
{
    let b = id.as_bytes();
    parse_u64(vstd::slice::slice_subrange(b, ID_NUMBER_START, b.len()))
}

/// The number of an OpenAlex id, where it parses.
pub fn oa_id_parse_opt(id: &str) -> (res: Option<u64>)
    requires
        id_sliceable(id),
    ensures
        res == (match parse_u64_spec(id_number_bytes(id)) {
            Ok(v) => Some(v),
            Err(_) => None,
        }),
{
    match oa_id_parse_res(id) {
        Ok(i) => Some(i),
        Err(_) => None,
    }
}

/// The number of an OpenAlex id that holds one.
pub fn oa_id_parse(id: &str) -> (res: u64)
    requires
        id_sliceable(id),
        parse_u64_spec(id_number_bytes(id)) is Ok,
    ensures
        parse_u64_spec(id_number_bytes(id)) == Ok::<u64, IntParseError>(res),
{
    match oa_id_parse_res(id) {
        Ok(i) => i,
        Err(_) => {
            proof {
                assert(false);
            }
            0
        },
    }
}

/// The bytes after the last slash, or all of them.
pub open spec fn after_last_slash(s: Seq<u8>) -> Seq<u8>
    decreases s.len(),
{
    if s.len() == 0 {
        s
    } else if s.last() == 47 {
        Seq::empty()
    } else {
        after_last_slash(s.drop_last()).push(s.last())
    }
}

/// The number after the last slash of a field's id.
pub fn field_id_parse(id: &str) -> (res: u64)
    requires
        parse_u64_spec(after_last_slash(id.spec_bytes())) is Ok,
    ensures
        parse_u64_spec(after_last_slash(id.spec_bytes())) == Ok::<u64, IntParseError>(res),
{
    let b = id.as_bytes();
    let n = b.len();
    let mut start = n;
    proof {
        assert(b@.subrange(0, n as int) =~= b@);
        assert(after_last_slash(b@) =~= after_last_slash(b@.subrange(0, n as int)) + b@.subrange(n as int, n as int));
    }
    while start > 0 && b[start - 1] != 47
        invariant
            start <= n == b@.len(),
            after_last_slash(b@) == after_last_slash(b@.subrange(0, start as int)) + b@.subrange(start as int, n as int),
        decreases start,
    {
        proof {
            let p = b@.subrange(0, start as int);
            assert(p.drop_last() =~= b@.subrange(0, start - 1));
            assert(b@.subrange(start - 1, n as int) =~= seq![b@[start - 1]] + b@.subrange(start as int, n as int));
        }
        start -= 1;
    }
    proof {
        if start == 0 {
            assert(b@.subrange(0, 0).len() == 0);
        } else {
            let p = b@.subrange(0, start as int);
            assert(p.last() == 47);
        }
        assert(after_last_slash(b@.subrange(0, start as int)) =~= Seq::<u8>::empty());
        assert(after_last_slash(b@) =~= b@.subrange(start as int, n as int));
        assert(b@.subrange(0, n as int) =~= b@);
    }
    match parse_u64(vstd::slice::slice_subrange(b, start, n)) {
        Ok(v) => v,
        Err(_) => {
            proof {
                assert(false);
            }
            0
        },
    }
}

/// The little-endian value of bytes.
pub open spec fn le_value(s: Seq<u8>) -> nat
    decreases s.len(),
{
    if s.len() == 0 {
        0
    } else {
        s[0] as nat + 256 * le_value(s.drop_first())
    }
}

/// The first eight bytes of a text, or all of them, as a little-endian number.
pub fn short_string_to_u64(input: &str) -> (res: u64)
    ensures
        res as nat == le_value(input.spec_bytes().subrange(
            0,
            if input.spec_bytes().len() < 8 {
                input.spec_bytes().len() as int
            } else {
                8
            },
        )),
{
    let b = input.as_bytes();
    let l: usize = if b.len() < 8 {
        b.len()
    } else {
        8
    };
    let ghost s = b@.subrange(0, l as int);
    let mut v: u64 = 0;
    let mut i = l;
    proof {
        assert(s.subrange(l as int, l as int) =~= Seq::<u8>::empty());
    }
    while i > 0
        invariant
            i <= l <= 8,
            l <= b@.len(),
            s == b@.subrange(0, l as int),
            v as nat == le_value(s.subrange(i as int, l as int)),
            v < pow256((l - i) as nat),
        decreases i,
    {
        i -= 1;
        let byte = b[i];
        proof {
            let t = s.subrange(i as int, l as int);
            assert(t.drop_first() =~= s.subrange(i + 1, l as int));
            assert(t[0] == byte);
            lemma_pow256_step((l - i - 1) as nat);
            assert(v * 256 + byte < pow256((l - i) as nat)) by (nonlinear_arith)
                requires
                    v < pow256((l - i - 1) as nat),
                    byte < 256,
                    pow256((l - i) as nat) == 256 * pow256((l - i - 1) as nat);
            lemma_pow256_bound((l - i) as nat);
        }
        v = v * 256 + byte as u64;
    }
    proof {
        assert(s.subrange(0, l as int) =~= s);
    }
    v
}

/// `256` to the power `k`.
pub open spec fn pow256(k: nat) -> nat
    decreases k,
{
    if k == 0 {
        1
    } else {
        256 * pow256((k - 1) as nat)
    }
}

proof fn lemma_pow256_step(k: nat)
    ensures
        pow256(k + 1) == 256 * pow256(k),
{
}

proof fn lemma_pow256_bound(k: nat)
    requires
        k <= 8,
    ensures
        pow256(k) <= pow256(8),
        pow256(8) == 0x1_0000_0000_0000_0000,
    decreases 8 - k,
{
    reveal_with_fuel(pow256, 9);
    if k < 8 {
        lemma_pow256_bound(k + 1);
        assert(pow256(k + 1) == 256 * pow256(k));
    }
}

/// The path of the code made for a step.
pub fn code_path(suffix: &str) -> (res: String)
    ensures
        res@ == "rankless_rs/src/gen/"@ + suffix@ + ".rs"@,
{
    let mut out = chars_of("rankless_rs/src/gen/");
    let mut mid = chars_of(suffix);
    let mut end = chars_of(".rs");
    out.append(&mut mid);
    out.append(&mut end);
    string_from_chars(&out)
}

/// One empty value per record of the entity, and one more.
pub fn init_empty_slice<E: Entity, T: crate::entity::InitEmpty>() -> (res: Vec<T>)
    requires
        E::N < usize::MAX,
    ensures
        res@.len() == E::N + 1,
        forall|k: int| 0 <= k < res@.len() ==> T::is_empty_value(#[trigger] res@[k]),
{
    let n = E::N + 1;
    let mut out: Vec<T> = Vec::new();
    let mut i: usize = 0;
    while i < n
        invariant
            i <= n,
            out@.len() == i,
            forall|k: int| 0 <= k < out@.len() ==> T::is_empty_value(#[trigger] out@[k]),
        decreases n - i,
    {
        out.push(T::init_empty());
        i += 1;
    }
    out
}

/// A source with the area it belongs to, as the sources table holds them.
pub struct SourceArea {
    pub id: Option<String>,
    pub area: Option<String>,
}

/// The first eight bytes of a text, or all of them.
pub open spec fn short_prefix(b: Seq<u8>) -> Seq<u8> {
    b.subrange(0, if b.len() < 8 { b.len() as int } else { 8 })
}

/// The name of an area, empty where it is missing.
pub open spec fn area_name(area: Option<String>) -> Seq<char> {
    match area {
        Some(a) => a@,
        None => Seq::empty(),
    }
}

impl SourceArea {
    /// The area's id: the first eight bytes of its name as a little-endian number.
    pub fn raw_area_id(&self) -> (res: u64)
        ensures
            res as nat == le_value(short_prefix(encode_utf8(area_name(self.area)))),
    {
        let name: &str = match &self.area {
            Some(a) => a.as_str(),
            None => "",
        };
        proof {
            reveal_strlit("");
        }
        short_string_to_u64(name)
    }
}

} // verus!
