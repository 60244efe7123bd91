//! Taking the blanks out of JSON text.

use vstd::prelude::*;
use vstd::utf8::{encode_utf8, valid_utf8};
use crate::edit::name_bytes;
use crate::error::{is_nul_error, JsonError};
use crate::lex::is_blank;
use crate::text::{nul_free, string_of};

verus! {

/// The text from `pos` on without its blanks, but for those inside
/// strings. A string goes from a quote to the next quote that no backslash
/// stands before; `in_string` says whether `pos` is inside one.
pub open spec fn minified_from(s: Seq<u8>, pos: int, in_string: bool) -> Seq<u8>
    decreases s.len() - pos,
{
    if !(0 <= pos < s.len()) {
        Seq::empty()
    } else if in_string {
        if s[pos] == 92 && pos + 1 < s.len() {
            seq![s[pos], s[pos + 1]] + minified_from(s, pos + 2, true)
        } else {
            seq![s[pos]] + minified_from(s, pos + 1, s[pos] != 34)
        }
    } else if is_blank(s[pos]) {
        minified_from(s, pos + 1, false)
    } else {
        seq![s[pos]] + minified_from(s, pos + 1, s[pos] == 34)
    }
}

/// The text without its blanks, but for those inside strings.
pub open spec fn minified(s: Seq<u8>) -> Seq<u8> {
    minified_from(s, 0, false)
}

/// Takes the blanks out of a text, but for those inside strings.
pub fn minify_bytes(s: &[u8]) -> (r: Vec<u8>)
    ensures
        r@ == minified(s@),
{
    let mut out: Vec<u8> = Vec::new();
    let mut i: usize = 0;
    let mut in_string = false;
    proof {
        assert(out@ + minified_from(s@, 0, false) =~= minified(s@));
    }
    while i < s.len()
        invariant
            i <= s.len(),
            out@ + minified_from(s@, i as int, in_string) == minified(s@),
        decreases s.len() - i,
    {
        let b: u8 = s[i];
        let ghost before = out@;
        if in_string {
            if b == 92 && i + 1 < s.len() {
                out.push(b);
                out.push(s[i + 1]);
                proof {
                    assert(out@ + minified_from(s@, i + 2, true) =~= before + (seq![b, s@[i + 1]]
                        + minified_from(s@, i + 2, true)));
                }
                i += 2;
            } else {
                out.push(b);
                proof {
                    assert(out@ + minified_from(s@, i + 1, b != 34) =~= before + (seq![b]
                        + minified_from(s@, i + 1, b != 34)));
                }
                in_string = b != 34;
                i += 1;
            }
        } else if b == 32 || b == 9 || b == 10 || b == 13 {
            i += 1;
        } else {
            out.push(b);
            proof {
                assert(out@ + minified_from(s@, i + 1, b == 34) =~= before + (seq![b]
                    + minified_from(s@, i + 1, b == 34)));
            }
            in_string = b == 34;
            i += 1;
        }
    }
    proof {
        assert(out@ + Seq::<u8>::empty() =~= out@);
    }
    out
}

/// UTF-8 text without its blanks is UTF-8: behind any text `before`, what
/// is UTF-8 with the rest of the text is UTF-8 with the rest minified.
pub proof fn lemma_minified_valid(before: Seq<u8>, s: Seq<u8>, pos: int, in_string: bool)
    requires
        0 <= pos <= s.len(),
        valid_utf8(before + s.subrange(pos, s.len() as int)),
    ensures
        valid_utf8(before + minified_from(s, pos, in_string)),
    decreases s.len() - pos,
{
    let rest = s.subrange(pos, s.len() as int);
    if !(0 <= pos < s.len()) {
        assert(rest =~= Seq::<u8>::empty());
        assert(minified_from(s, pos, in_string) =~= Seq::<u8>::empty());
    } else if in_string {
        if s[pos] == 92 && pos + 1 < s.len() {
            let two = seq![s[pos], s[pos + 1]];
            assert(before + two + s.subrange(pos + 2, s.len() as int) =~= before + rest);
            lemma_minified_valid(before + two, s, pos + 2, true);
            assert(before + (two + minified_from(s, pos + 2, true)) =~= before + two
                + minified_from(s, pos + 2, true));
        } else {
            let one = seq![s[pos]];
            assert(before + one + s.subrange(pos + 1, s.len() as int) =~= before + rest);
            lemma_minified_valid(before + one, s, pos + 1, s[pos] != 34);
            assert(before + (one + minified_from(s, pos + 1, s[pos] != 34)) =~= before + one
                + minified_from(s, pos + 1, s[pos] != 34));
        }
    } else if is_blank(s[pos]) {
        let one = seq![s[pos]];
        let behind = s.subrange(pos + 1, s.len() as int);
        assert(before + one + behind =~= before + rest);
        assert(crate::utf8::ascii(one));
        assert(valid_utf8(Seq::<u8>::empty()));
        crate::utf8::lemma_replace_ascii(before, one, Seq::empty(), behind);
        assert(before + Seq::<u8>::empty() + behind =~= before + behind);
        lemma_minified_valid(before, s, pos + 1, false);
    } else {
        let one = seq![s[pos]];
        assert(before + one + s.subrange(pos + 1, s.len() as int) =~= before + rest);
        lemma_minified_valid(before + one, s, pos + 1, s[pos] == 34);
        assert(before + (one + minified_from(s, pos + 1, s[pos] == 34)) =~= before + one
            + minified_from(s, pos + 1, s[pos] == 34));
    }
}

/// Takes the blanks out of a JSON text, but for those inside strings. A
/// text with a zero byte is refused and left as it is.
pub fn cjson_minify(json: &mut String) -> (r: Result<(), JsonError>)
    ensures
        nul_free(encode_utf8(old(json)@)) ==> r is Ok && encode_utf8(final(json)@) == minified(
            encode_utf8(old(json)@),
        ),
        !nul_free(encode_utf8(old(json)@)) ==> is_nul_error(r, encode_utf8(old(json)@)) && final(json)@ == old(json)@,
{
    match name_bytes(json.as_str()) {
        Ok(bytes) => {
            let out = minify_bytes(bytes.as_slice());
            proof {
                assert(Seq::<u8>::empty() + bytes@.subrange(0, bytes@.len() as int) =~= bytes@);
                lemma_minified_valid(Seq::empty(), bytes@, 0, false);
                assert(Seq::<u8>::empty() + minified(bytes@) =~= minified(bytes@));
                vstd::utf8::decode_utf8_encode_utf8(minified(bytes@));
            }
            *json = string_of(out.as_slice());
            Ok(())
        },
        Err(e) => Err(e),
    }
}

} // verus!
