//! Value types and text utilities for the serialization example stages: a
//! line of text with its metadata, its tokenized form, the verified
//! tokenizer that turns one into the other, and the decoding step from raw
//! bytes.  The wire encoding of these values is not the library's concern;
//! callers that serialize them do so outside it.

use vstd::prelude::*;

verus! {

use vstd::string::StrSliceExecFns;
use vstd::utf8::{decode_utf8, valid_utf8};

/// A line of raw text with a capture timestamp (milliseconds) and a format
/// version tag.
pub struct Text {
    pub text: String,
    pub ts: u64,
    pub version: String,
}

/// The tokenized form of a [`Text`]: the same metadata with the text split
/// into whitespace-separated tokens.
pub struct TextAsTokens {
    pub tokens: Vec<String>,
    pub ts: u64,
    pub version: String,
}

/// Splitting a character sequence on the space character, keeping empty
/// pieces, the way a plain string split does: the result always holds one
/// piece more than there are separators.
pub open spec fn split_chars(s: Seq<char>) -> Seq<Seq<char>>
    decreases s.len(),
{
    if s.len() == 0 {
        seq![Seq::<char>::empty()]
    } else if s[0] == ' ' {
        seq![Seq::<char>::empty()] + split_chars(s.skip(1))
    } else {
        let rest = split_chars(s.skip(1));
        seq![seq![s[0]] + rest[0]] + rest.skip(1)
    }
}

/// Splitting always yields at least one piece.
pub proof fn lemma_split_chars_len(s: Seq<char>)
    ensures
        split_chars(s).len() >= 1,
    decreases s.len(),
{
    if s.len() > 0 {
        lemma_split_chars_len(s.skip(1));
    }
}

/// Splits a string on spaces, keeping empty pieces.  Works on any text:
/// indices count characters, not bytes.  Built from the back so each step
/// prepends to the piece list exactly as the specification unfolds.
pub fn split_spaces(s: &str) -> (r: Vec<String>)
    ensures
        r@.map_values(|t: String| t@) == split_chars(s@),
{
    let n = s.unicode_len();
    let mut cur_end: usize = n;
    let mut rest: Vec<String> = Vec::new();
    let mut i: usize = n;
    proof {
        assert(s@.skip(n as int) =~= Seq::<char>::empty());
        assert(s@.subrange(n as int, n as int) =~= Seq::<char>::empty());
        assert(seq![s@.subrange(i as int, cur_end as int)] + rest@.map_values(|t: String| t@)
            =~= split_chars(s@.skip(i as int)));
    }
    while i > 0
        invariant
            n as int == s@.len(),
            0 <= i <= cur_end <= n,
            seq![s@.subrange(i as int, cur_end as int)] + rest@.map_values(|t: String| t@)
                == split_chars(s@.skip(i as int)),
        decreases i,
    {
        i -= 1;
        let c = s.get_char(i);
        proof {
            assert(s@.skip(i as int)[0] == s@[i as int]);
            assert(s@.skip(i as int).skip(1) =~= s@.skip(i + 1));
            lemma_split_chars_len(s@.skip(i + 1));
        }
        if c == ' ' {
            let ghost end0 = cur_end as int;
            let tok = s.substring_char(i + 1, cur_end).to_owned();
            let ghost rest0 = rest@;
            rest.insert(0, tok);
            cur_end = i;
            proof {
                assert(rest@.map_values(|t: String| t@) =~= seq![s@.subrange(i + 1, end0)]
                    + rest0.map_values(|t: String| t@));
                assert(s@.subrange(i as int, cur_end as int) =~= Seq::<char>::empty());
                assert(split_chars(s@.skip(i as int)) =~= seq![Seq::<char>::empty()]
                    + split_chars(s@.skip(i + 1)));
                assert(seq![s@.subrange(i as int, cur_end as int)] + rest@.map_values(
                    |t: String| t@,
                ) =~= split_chars(s@.skip(i as int)));
            }
        } else {
            proof {
                let old_split = split_chars(s@.skip(i + 1));
                assert(old_split[0] == (seq![s@.subrange(i + 1, cur_end as int)] + rest@.map_values(
                    |t: String| t@,
                ))[0]);
                assert(old_split.skip(1) =~= (seq![s@.subrange(i + 1, cur_end as int)]
                    + rest@.map_values(|t: String| t@)).skip(1));
                assert(old_split.skip(1) =~= rest@.map_values(|t: String| t@));
                assert(s@.subrange(i as int, cur_end as int) =~= seq![s@[i as int]] + s@.subrange(
                    i + 1,
                    cur_end as int,
                ));
                assert(split_chars(s@.skip(i as int)) =~= seq![seq![s@[i as int]] + old_split[0]]
                    + old_split.skip(1));
                assert(seq![s@.subrange(i as int, cur_end as int)] + rest@.map_values(
                    |t: String| t@,
                ) =~= split_chars(s@.skip(i as int)));
            }
        }
    }
    proof {
        assert(s@.skip(0) =~= s@);
    }
    let first = s.substring_char(0, cur_end).to_owned();
    let mut out: Vec<String> = Vec::new();
    out.push(first);
    while rest.len() > 0
        invariant
            out@.len() >= 1,
            out@.map_values(|t: String| t@) + rest@.map_values(|t: String| t@) == split_chars(s@),
        decreases rest@.len(),
    {
        let t = rest.remove(0);
        out.push(t);
        proof {
            assert(out@.map_values(|t2: String| t2@) + rest@.map_values(|t2: String| t2@)
                =~= split_chars(s@));
        }
    }
    proof {
        assert(out@.map_values(|t2: String| t2@) =~= split_chars(s@));
    }
    out
}

/// Relies on `String::from_utf8`: a byte vector decodes to the character
/// sequence that vstd's UTF-8 specification assigns it, and decoding fails
/// exactly on invalid UTF-8.
#[verifier::external_body]
pub(crate) fn utf8_to_string(v: Vec<u8>) -> (r: Option<String>)
    ensures
        match r {
            Some(s) => valid_utf8(v@) && s@ == decode_utf8(v@),
            None => !valid_utf8(v@),
        },
{
    match String::from_utf8(v) {
        Ok(s) => Some(s),
        Err(_) => None,
    }
}

/// Tokenizes a text on spaces, keeping the metadata.  Any text is
/// accepted; the wire encodings around this step live with the caller —
/// this is the part of the stage that computes.
pub fn tokenize(t: &Text) -> (r: TextAsTokens)
    ensures
        r.ts == t.ts,
        r.version@ == t.version@,
        r.tokens@.map_values(|tok: String| tok@) == split_chars(t.text@),
{
    let tokens = split_spaces(t.text.as_str());
    TextAsTokens { tokens, ts: t.ts, version: t.version.clone() }
}

} // verus!
