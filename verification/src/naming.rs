use vstd::prelude::*;
use crate::text::{chars_of, string_from_chars};

verus! {

/// The first character of a character's Unicode uppercase.
pub uninterp spec fn uppercase_first(c: char) -> char;

/// std's `char::to_uppercase`, its first character: a function of the character alone. The
/// documentation shows that the ASCII letters `a` to `z` become `A` to `Z` and that any other
/// ASCII character, having no uppercase mapping, stays.
#[verifier::external_body]
fn upper_first(c: char) -> (res: char)
    ensures
        res == uppercase_first(c),
        'a' <= c <= 'z' ==> res == ((c as u32) - 32) as char,
        c < '\u{80}' && !('a' <= c <= 'z') ==> res == c,
{
    c.to_uppercase().next().unwrap_or(c)
}

/// The first character of a character's uppercase: the ASCII letters `a` to `z` become `A`
/// to `Z`, any other ASCII character stays.
pub open spec fn upper_char(c: char) -> char {
    if 'a' <= c <= 'z' {
        ((c as u32) - 32) as char
    } else if (c as u32) < 0x80 {
        c
    } else {
        uppercase_first(c)
    }
}

/// A character that ends a word of a name: a hyphen, an underscore or a digit.
pub open spec fn is_word_break(c: char) -> bool {
    c == '-' || c == '_' || ('0' <= c && c <= '9')
}

/// The name in camel case from `s` on, `big` when the next kept character starts a word.
pub open spec fn camel(s: Seq<char>, big: bool) -> Seq<char>
    decreases s.len(),
{
    if s.len() == 0 {
        Seq::empty()
    } else {
        let c = if big {
            upper_char(s[0])
        } else {
            s[0]
        };
        if is_word_break(c) {
            camel(s.drop_first(), true)
        } else {
            seq![c] + camel(s.drop_first(), false)
        }
    }
}

/// The name in camel case: hyphens, underscores and digits dropped, and the character at the
/// start and after each of them in uppercase.
pub fn camel_case(s: &str) -> (res: String)
    ensures
        res@ == camel(s@, true),
{
    let cs = chars_of(s);
    let mut out: Vec<char> = Vec::new();
    let mut next_big = true;
    let mut i: usize = 0;
    proof {
        assert(cs@.subrange(0, cs@.len() as int) =~= s@);
        assert(out@ + camel(s@, true) =~= camel(s@, true));
    }
    while i < cs.len()
        invariant
            cs@ == s@,
            i <= cs@.len(),
            out@ + camel(cs@.subrange(i as int, cs@.len() as int), next_big) == camel(s@, true),
        decreases cs@.len() - i,
    {
        let ghost rest = cs@.subrange(i as int, cs@.len() as int);
        let mut c = cs[i];
        if next_big {
            c = upper_first(c);
            next_big = false;
        }
        proof {
            assert(rest[0] == cs@[i as int]);
            assert(rest.drop_first() =~= cs@.subrange(i + 1, cs@.len() as int));
        }
        if c == '-' || c == '_' || ('0' <= c && c <= '9') {
            next_big = true;
        } else {
            let ghost before = out@;
            out.push(c);
            proof {
                assert(out@ + camel(rest.drop_first(), false) =~= before + (seq![c] + camel(rest.drop_first(), false)));
            }
        }
        i += 1;
    }
    proof {
        assert(cs@.subrange(i as int, cs@.len() as int).len() == 0);
        assert(out@ + Seq::<char>::empty() =~= out@);
    }
    string_from_chars(&out)
}

/// The name of the smallest unsigned type that holds `n`.
pub open spec fn uscale_name(n: nat) -> Seq<char> {
    if n < 0x100 {
        "u8"@
    } else if n < 0x1_0000 {
        "u16"@
    } else {
        "u32"@
    }
}

/// The name of the smallest unsigned type of 8, 16 or 32 bits that holds `n`.
pub fn get_uscale(n: usize) -> (res: String)
    requires
        n < 0x1_0000_0000,
    ensures
        res@ == uscale_name(n as nat),
{
    let v = n as u64;
    let name: &str = if v >> 8u64 == 0 {
        "u8"
    } else if v >> 16u64 == 0 {
        "u16"
    } else {
        "u32"
    };
    proof {
        assert((v >> 8u64 == 0) == (v < 0x100)) by (bit_vector);
        assert((v >> 16u64 == 0) == (v < 0x1_0000)) by (bit_vector);
    }
    string_from_chars(&chars_of(name))
}

} // verus!
