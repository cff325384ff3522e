//! Bytes read as text: which payload bodies count as blank.

use vstd::prelude::*;
use vstd::utf8::decode_utf8;
use vstd::utf8::valid_utf8;

verus! {

/// The text that bytes stand for when every ill-formed part of them is
/// replaced by U+FFFD.
pub uninterp spec fn spec_lossy_text(bytes: Seq<u8>) -> Seq<char>;

/// Whether `c` is white space: one of the code points U+0009 to U+000D,
/// U+0020, U+0085, U+00A0, U+1680, U+2000 to U+200A, U+2028, U+2029, U+202F,
/// U+205F and U+3000.
pub open spec fn spec_is_white_space(c: char) -> bool {
    let n = c as u32;
    ||| 0x09 <= n <= 0x0D
    ||| n == 0x20
    ||| n == 0x85
    ||| n == 0xA0
    ||| n == 0x1680
    ||| 0x2000 <= n <= 0x200A
    ||| n == 0x2028
    ||| n == 0x2029
    ||| n == 0x202F
    ||| n == 0x205F
    ||| n == 0x3000
}

/// Whether `text` holds nothing but white space. The empty text does.
pub open spec fn spec_all_white_space(text: Seq<char>) -> bool {
    forall|i: int| 0 <= i < text.len() ==> spec_is_white_space(#[trigger] text[i])
}

/// Whether `bytes`, read as text, are blank: well-formed UTF-8 that holds
/// nothing but white space. Ill-formed bytes are never blank, since what
/// stands in for them is no white space.
pub open spec fn spec_is_blank(bytes: Seq<u8>) -> bool {
    valid_utf8(bytes) && spec_all_white_space(decode_utf8(bytes))
}

/// `String::from_utf8_lossy`, as an owned string. Trusted: the result is a
/// function of the bytes alone; well-formed UTF-8 comes back as the text it
/// encodes, and the text for ill-formed bytes holds U+FFFD at least once.
#[verifier::external_body]
pub(crate) fn lossy_text(bytes: &[u8]) -> (text: String)
    ensures
        text@ == spec_lossy_text(bytes@),
        valid_utf8(bytes@) ==> text@ == decode_utf8(bytes@),
        !valid_utf8(bytes@) ==> text@.contains('\u{FFFD}'),
{
    String::from_utf8_lossy(bytes).into_owned()
}

/// Whether `c` is white space.
pub fn is_white_space(c: char) -> (r: bool)
    ensures
        r == spec_is_white_space(c),
{
    let n: u32 = c as u32;
    (0x09 <= n && n <= 0x0D) || n == 0x20 || n == 0x85 || n == 0xA0 || n == 0x1680 || (0x2000 <= n
        && n <= 0x200A) || n == 0x2028 || n == 0x2029 || n == 0x202F || n == 0x205F || n
        == 0x3000
}

/// Whether `text` holds nothing but white space.
pub fn all_white_space(text: &str) -> (r: bool)
    ensures
        r == spec_all_white_space(text@),
{
    let mut ok: bool = true;
    for c in it: text.chars()
        invariant
            it.seq() == text@,
            ok == spec_all_white_space(text@.subrange(0, it.index() as int)),
    {
        let white: bool = is_white_space(c);
        proof {
            let k = it.index() as int;
            let before = text@.subrange(0, k);
            let after = text@.subrange(0, k + 1);
            assert(after[k] == c);
            assert(forall|i: int| 0 <= i < k ==> before[i] == after[i]);
            if ok && white {
                assert(spec_all_white_space(after));
            }
        }
        ok = ok && white;
    }
    proof {
        assert(text@.subrange(0, text@.len() as int) =~= text@);
    }
    ok
}

/// Whether `bytes`, read as text, are blank.
pub fn is_blank(bytes: &[u8]) -> (r: bool)
    ensures
        r == spec_is_blank(bytes@),
{
    let text: String = lossy_text(bytes);
    let r: bool = all_white_space(text.as_str());
    proof {
        if !valid_utf8(bytes@) {
            let i = choose|i: int| 0 <= i < text@.len() && text@[i] == '\u{FFFD}';
            assert(!spec_is_white_space(text@[i]));
        }
    }
    r
}

/// Empty bytes are blank.
pub proof fn lemma_empty_is_blank()
    ensures
        spec_is_blank(Seq::<u8>::empty()),
{
}

} // verus!
