use vstd::prelude::*;
use vstd::utf8::*;

verus! {

broadcast use {vstd::utf8::group_utf8_lib, vstd::string::group_string_axioms};

pub const SPLIT_CHAR: u8 = 32;

pub const ASCII_LC_MIN: u8 = 97;

pub const ASCII_LC_MAX: u8 = 122;

pub const ASCII_COUNT: usize = 26;

pub const CHAR_COUNT: usize = 26;

pub const MAX_QUERY_CHARS: usize = 256;

pub const MAX_QUERY_WORDS: usize = 32;

/// What `str::to_lowercase` makes of a text.
pub uninterp spec fn lowercased(s: Seq<char>) -> Seq<char>;

/// What `deunicode::deunicode` makes of a text.
pub uninterp spec fn deunicoded(s: Seq<char>) -> Seq<char>;

/// The text with the ASCII capitals `A` to `Z` in lowercase and every other character kept.
pub open spec fn ascii_lowered(s: Seq<char>) -> Seq<char> {
    s.map_values(|c: char| if 'A' <= c <= 'Z' { ((c as u32) + 32) as char } else { c })
}

/// The bytes of ASCII characters.
pub open spec fn ascii_bytes(s: Seq<char>) -> Seq<u8> {
    Seq::new(s.len(), |i: int| s[i] as u8)
}

/// std's `str::to_lowercase`: the Unicode lowercase of the text, a function of the text alone.
/// Unicode maps the ASCII capitals `A` to `Z` to `a` to `z` and leaves every other ASCII
/// character as it is, so an ASCII text comes back in ASCII lowercase.
#[verifier::external_body]
pub(crate) fn to_lowercase(s: &str) -> (res: String)
    ensures
        res@ == lowercased(s@),
        is_ascii_chars(s@) ==> res@ == ascii_lowered(s@),
{
    s.to_lowercase()
}

/// `deunicode::deunicode`: an ASCII transliteration of the text, a function of the text alone.
/// The crate documents that the result is ASCII and that every ASCII character maps to itself.
#[verifier::external_body]
fn transliterate(s: &str) -> (res: String)
    ensures
        res@ == deunicoded(s@),
        is_ascii_chars(res@),
        is_ascii_chars(s@) ==> res@ == s@,
{
    deunicode::deunicode(s)
}

/// std's `String::from_utf8`: the text that the bytes encode, when they are valid UTF-8.
#[verifier::external_body]
pub(crate) fn string_from_utf8(bytes: Vec<u8>) -> (res: Option<String>)
    ensures
        res is Some <==> valid_utf8(bytes@),
        res matches Some(s) ==> s@ == decode_utf8(bytes@),
{
    String::from_utf8(bytes).ok()
}

/// The characters that the ASCII bytes stand for.
pub open spec fn ascii_chars_of(bytes: Seq<u8>) -> Seq<char> {
    Seq::new(bytes.len(), |i: int| bytes[i] as char)
}

/// ASCII bytes are valid UTF-8 and decode to the characters they stand for.
pub proof fn lemma_ascii_bytes_decode(bytes: Seq<u8>)
    requires
        forall|i: int| 0 <= i < bytes.len() ==> #[trigger] bytes[i] < 128,
    ensures
        valid_utf8(bytes),
        decode_utf8(bytes) == ascii_chars_of(bytes),
{
    let chars = ascii_chars_of(bytes);
    assert(is_ascii_chars(chars)) by {
        assert forall|i: int| 0 <= i < chars.len() implies '\0' <= #[trigger] chars[i] <= '\u{7f}' by {
            assert(bytes[i] < 128);
        }
    }
    is_ascii_chars_encode_utf8(chars);
    assert forall|i: int| 0 <= i < chars.len() implies #[trigger] encode_utf8(chars)[i] == bytes[i] by {
        assert(chars[i] as u8 == bytes[i]);
    }
    assert(encode_utf8(chars) =~= bytes);
    encode_utf8_valid_utf8(chars);
    encode_utf8_decode_utf8(chars);
}

/// Builds a text from ASCII bytes.
pub(crate) fn ascii_string(bytes: Vec<u8>) -> (res: String)
    requires
        forall|i: int| 0 <= i < bytes@.len() ==> #[trigger] bytes@[i] < 128,
    ensures
        res@ == ascii_chars_of(bytes@),
{
    proof {
        lemma_ascii_bytes_decode(bytes@);
    }
    let ghost b = bytes@;
    match string_from_utf8(bytes) {
        Some(s) => s,
        None => {
            proof {
                assert(false);
            }
            String::new()
        },
    }
}

/// The word boundaries after one more word that ends at `i`: a boundary equal to the last
/// one adds no (empty) word.
pub open spec fn add_break(breaks: Seq<u8>, i: u8) -> Seq<u8> {
    let last: u8 = if breaks.len() > 0 {
        breaks.last()
    } else {
        0
    };
    if last != i {
        breaks.push(i)
    } else {
        breaks
    }
}

/// The scan of a query's bytes: letters so far (as 0..26), word boundaries so far, and
/// whether a limit stopped the scan.
pub type ScanState = (Seq<u8>, Seq<u8>, bool);

/// One byte of the scan: a space ends a word, a lowercase ASCII letter extends it, any
/// other byte is skipped. The scan stops at the word limit or at the letter limit.
pub open spec fn scan_step(st: ScanState, c: u8) -> ScanState {
    let (chars, breaks, done) = st;
    if done {
        st
    } else if c == SPLIT_CHAR && chars.len() > 0 {
        let b2 = add_break(breaks, chars.len() as u8);
        (chars, b2, b2.len() == MAX_QUERY_WORDS)
    } else if ASCII_LC_MIN <= c && c <= ASCII_LC_MAX {
        let c2 = chars.push((c - ASCII_LC_MIN) as u8);
        (c2, breaks, c2.len() == MAX_QUERY_CHARS)
    } else {
        st
    }
}

/// The scan after the given bytes.
pub open spec fn scan(bytes: Seq<u8>) -> ScanState
    decreases bytes.len(),
{
    if bytes.len() == 0 {
        (Seq::empty(), Seq::empty(), false)
    } else {
        scan_step(scan(bytes.drop_last()), bytes.last())
    }
}

/// The letters and word boundaries that a query's bytes make.
pub open spec fn word_set(bytes: Seq<u8>) -> (Seq<u8>, Seq<u8>) {
    let (chars, breaks, done) = scan(bytes);
    if done {
        (chars, breaks)
    } else {
        (chars, add_break(breaks, chars.len() as u8))
    }
}

/// The bytes a query is scanned as: its ASCII transliteration in lowercase.
pub open spec fn query_bytes(words: Seq<char>) -> Seq<u8> {
    let t = deunicoded(lowercased(words));
    Seq::new(t.len(), |i: int| t[i] as u8)
}

/// What the scan keeps true: at most 256 letters, each below 26, at most 32 boundaries,
/// rising, each at most the number of letters.
pub open spec fn scan_wf(st: ScanState) -> bool {
    let (chars, breaks, done) = st;
    &&& chars.len() <= MAX_QUERY_CHARS
    &&& (!done ==> chars.len() < MAX_QUERY_CHARS && breaks.len() < MAX_QUERY_WORDS)
    &&& breaks.len() <= MAX_QUERY_WORDS
    &&& forall|j: int| 0 <= j < chars.len() ==> #[trigger] chars[j] < 26
    &&& forall|a: int, b: int| 0 <= a < b < breaks.len() ==> breaks[a] < breaks[b]
    &&& forall|a: int| 0 <= a < breaks.len() ==> 0 < #[trigger] breaks[a] <= chars.len()
}

/// Once a limit stops the scan, later bytes change nothing.
proof fn lemma_scan_done_stays(bytes: Seq<u8>, k: int, m: int)
    requires
        0 <= k <= m <= bytes.len(),
        scan(bytes.subrange(0, k)).2,
    ensures
        scan(bytes.subrange(0, m)) == scan(bytes.subrange(0, k)),
    decreases m - k,
{
    if m > k {
        lemma_scan_done_stays(bytes, k, m - 1);
        assert(bytes.subrange(0, m).drop_last() =~= bytes.subrange(0, m - 1));
    }
}

pub proof fn lemma_scan_wf(bytes: Seq<u8>)
    ensures
        scan_wf(scan(bytes)),
    decreases bytes.len(),
{
    if bytes.len() > 0 {
        lemma_scan_wf(bytes.drop_last());
    }
}

/// The words of a query, as letters 0..26, with their boundaries.
pub struct StackWordSet {
    pub char_array: Vec<u8>,
    pub break_array: Vec<u8>,
    pub breaks_count: usize,
}

impl StackWordSet {
    /// 256 letter slots, 32 boundary slots, the boundaries rising and within the letters,
    /// every letter below 26.
    pub open spec fn wf(&self) -> bool {
        &&& self.char_array@.len() == MAX_QUERY_CHARS
        &&& self.break_array@.len() == MAX_QUERY_WORDS
        &&& self.breaks_count <= MAX_QUERY_WORDS
        &&& forall|j: int| 0 <= j < MAX_QUERY_CHARS ==> #[trigger] self.char_array@[j] < 26
        &&& forall|a: int, b: int|
            0 <= a < b < self.breaks_count ==> self.break_array@[a] < self.break_array@[b]
    }

    /// The word boundaries in use.
    pub open spec fn breaks(&self) -> Seq<u8> {
        self.break_array@.subrange(0, self.breaks_count as int)
    }

    /// The start of word `j`.
    pub open spec fn word_start(&self, j: int) -> int {
        if j == 0 {
            0
        } else {
            self.break_array@[j - 1] as int
        }
    }

    /// Word `j`, as letters 0..26.
    pub open spec fn word(&self, j: int) -> Seq<u8> {
        self.char_array@.subrange(self.word_start(j), self.break_array@[j] as int)
    }

    /// The words of a query, from the bytes it is scanned as.
    pub fn from_bytes(bytes: &[u8]) -> (res: Self)
        ensures
            res.wf(),
            res.char_array@ == word_set(bytes@).0 + Seq::new(
                (MAX_QUERY_CHARS - word_set(bytes@).0.len()) as nat,
                |i: int| 0u8,
            ),
            res.breaks() == word_set(bytes@).1,
            res.breaks_count == 0 ==> res.break_array@[0] == 0,
    {
        let mut out = Self {
            char_array: vec![0u8; MAX_QUERY_CHARS],
            break_array: vec![0u8; MAX_QUERY_WORDS],
            breaks_count: 0,
        };
        let mut i: usize = 0;
        let mut k: usize = 0;
        let mut done = false;
        proof {
            assert(bytes@.subrange(0, 0) =~= Seq::<u8>::empty());
        }
        while k < bytes.len()
            invariant_except_break
                !scan(bytes@.subrange(0, k as int)).2,
                !done,
            invariant
                k <= bytes@.len(),
                out.char_array@.len() == MAX_QUERY_CHARS,
                out.break_array@.len() == MAX_QUERY_WORDS,
                scan_wf(scan(bytes@.subrange(0, k as int))),
                i as int == scan(bytes@.subrange(0, k as int)).0.len(),
                out.char_array@ == scan(bytes@.subrange(0, k as int)).0 + Seq::new(
                    (MAX_QUERY_CHARS - i) as nat,
                    |j: int| 0u8,
                ),
                out.breaks_count == scan(bytes@.subrange(0, k as int)).1.len(),
                out.breaks_count == 0 ==> out.break_array@[0] == 0,
                out.break_array@.subrange(0, out.breaks_count as int) == scan(
                    bytes@.subrange(0, k as int),
                ).1,
            ensures
                done == scan(bytes@.subrange(0, k as int)).2,
                done ==> scan(bytes@) == scan(bytes@.subrange(0, k as int)),
                !done ==> k == bytes@.len(),
            decreases bytes@.len() - k,
        {
            let ghost pre = bytes@.subrange(0, k as int);
            let ghost st = scan(pre);
            let c = bytes[k];
            proof {
                lemma_scan_wf(pre);
                assert(bytes@.subrange(0, k + 1).drop_last() =~= pre);
                assert(bytes@.subrange(0, k + 1).last() == c);
            }
            if c == SPLIT_CHAR && i > 0 {
                out.new_break(i as u8);
                k += 1;
                if out.breaks_count == MAX_QUERY_WORDS {
                    proof {
                        lemma_scan_done_stays(bytes@, k as int, bytes@.len() as int);
                        assert(bytes@.subrange(0, bytes@.len() as int) =~= bytes@);
                    }
                    done = true;
                    break;
                }
            } else if c >= ASCII_LC_MIN && c <= ASCII_LC_MAX {
                let ghost before = out.char_array@;
                out.char_array.set(i, c - ASCII_LC_MIN);
                proof {
                    let n = (MAX_QUERY_CHARS - i) as nat;
                    assert(out.char_array@ =~= st.0.push((c - ASCII_LC_MIN) as u8) + Seq::new(
                        (n - 1) as nat,
                        |j: int| 0u8,
                    ));
                }
                k += 1;
                i = i + 1;
                if i == MAX_QUERY_CHARS {
                    proof {
                        lemma_scan_done_stays(bytes@, k as int, bytes@.len() as int);
                        assert(bytes@.subrange(0, bytes@.len() as int) =~= bytes@);
                    }
                    done = true;
                    break;
                }
            } else {
                k += 1;
            }
        }
        proof {
            lemma_scan_wf(bytes@);
            if k == bytes@.len() {
                assert(bytes@.subrange(0, k as int) =~= bytes@);
            }
        }
        if !done {
            out.new_break(i as u8);
        }
        proof {
            lemma_scan_wf(bytes@);
            let ws = word_set(bytes@);
            assert forall|j: int| 0 <= j < MAX_QUERY_CHARS implies #[trigger] out.char_array@[j] < 26 by {
                if j < ws.0.len() {
                    assert(ws.0[j] < 26);
                }
            }
            let br = out.break_array@;
            assert forall|a: int, b: int| 0 <= a < b < out.breaks_count implies br[a] < br[b] by {
                assert(out.break_array@.subrange(0, out.breaks_count as int)[a] == br[a]);
                assert(out.break_array@.subrange(0, out.breaks_count as int)[b] == br[b]);
            }
        }
        out
    }

    /// Adds the boundary `i` unless it equals the last one.
    fn new_break(&mut self, i: u8)
        requires
            old(self).breaks_count < MAX_QUERY_WORDS,
            old(self).break_array@.len() == MAX_QUERY_WORDS,
        ensures
            final(self).char_array == old(self).char_array,
            final(self).break_array@.len() == MAX_QUERY_WORDS,
            final(self).breaks() == add_break(old(self).breaks(), i),
            final(self).breaks_count == add_break(old(self).breaks(), i).len(),
            final(self).breaks_count == 0 ==> final(self).break_array == old(self).break_array,
    {
        let last_break = if self.breaks_count > 0 {
            self.break_array[self.breaks_count - 1]
        } else {
            0
        };
        if last_break != i {
            let ghost before = self.breaks();
            self.break_array.set(self.breaks_count, i);
            self.breaks_count = self.breaks_count + 1;
            proof {
                assert(self.breaks() =~= before.push(i));
            }
        }
    }

    /// The words of a query: lowercased, transliterated to ASCII, split at spaces, with
    /// anything but the letters a to z left out.
    pub fn new(words: &str) -> (res: Self)
        ensures
            res.wf(),
            res.char_array@ == word_set(query_bytes(words@)).0 + Seq::new(
                (MAX_QUERY_CHARS - word_set(query_bytes(words@)).0.len()) as nat,
                |i: int| 0u8,
            ),
            res.breaks() == word_set(query_bytes(words@)).1,
            res.breaks_count == 0 ==> res.break_array@[0] == 0,
            is_ascii_chars(words@) ==> query_bytes(words@) == ascii_bytes(ascii_lowered(words@)),
    {
        let lower = to_lowercase(words);
        let ascii = transliterate(lower.as_str());
        let bytes = ascii.as_str().as_bytes();
        proof {
            if is_ascii_chars(words@) {
                let l = ascii_lowered(words@);
                assert(is_ascii_chars(l)) by {
                    assert forall|i: int| 0 <= i < l.len() implies '\0' <= #[trigger] l[i] <= '\u{7f}' by {
                        assert('\0' <= words@[i] <= '\u{7f}');
                    }
                }
                assert(ascii@ == l);
                assert(query_bytes(words@) =~= ascii_bytes(l));
            }
            let t = ascii@;
            vstd::utf8::is_ascii_chars_encode_utf8(t);
            assert(bytes@ =~= query_bytes(words@)) by {
                assert forall|i: int| 0 <= i < t.len() implies #[trigger] bytes@[i] == t[i] as u8 by {
                }
            }
        }
        Self::from_bytes(bytes)
    }

    /// The words, spelled with the letters a to z.
    pub fn to_words(&self) -> (res: Vec<String>)
        requires
            self.wf(),
        ensures
            res@.len() == self.breaks_count,
            forall|j: int|
                0 <= j < self.breaks_count ==> #[trigger] res@[j]@ == spelled(self.word(j)),
    {
        let mut out: Vec<String> = Vec::new();
        let mut si: usize = 0;
        let mut i: usize = 0;
        while i < self.breaks_count
            invariant
                self.wf(),
                i <= self.breaks_count,
                si as int == self.word_start(i as int),
                out@.len() == i,
                forall|j: int| 0 <= j < i ==> #[trigger] out@[j]@ == spelled(self.word(j)),
            decreases self.breaks_count - i,
        {
            let ei = self.break_array[i] as usize;
            proof {
                if i > 0 {
                    assert(self.break_array@[i - 1] < self.break_array@[i as int]);
                }
            }
            let mut cv: Vec<u8> = Vec::new();
            let mut p = si;
            while p < ei
                invariant
                    self.wf(),
                    si <= p <= ei <= MAX_QUERY_CHARS,
                    cv@.len() == p - si,
                    forall|q: int| 0 <= q < cv@.len() ==> #[trigger] cv@[q] == self.char_array@[si + q] + ASCII_LC_MIN,
                decreases ei - p,
            {
                cv.push(self.char_array[p] + ASCII_LC_MIN);
                p += 1;
            }
            let w = ascii_string(cv);
            proof {
                assert(w@ =~= spelled(self.word(i as int)));
            }
            out.push(w);
            si = ei;
            i += 1;
        }
        out
    }
}

/// Letters 0..26 as the characters a to z.
pub open spec fn spelled(word: Seq<u8>) -> Seq<char> {
    Seq::new(word.len(), |i: int| (word[i] + ASCII_LC_MIN) as char)
}

} // verus!
