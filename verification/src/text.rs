//! Text helpers: lossy UTF-8 decoding and the trimming of trailing NULs and of
//! surrounding whitespace.
use vstd::prelude::*;
use vstd::string::{StrSliceExecFns, StringExecFns};
use vstd::utf8::{decode_utf8, valid_utf8};

verus! {

/// The text that std's `String::from_utf8_lossy` makes of `b`: its UTF-8
/// decoding, with U+FFFD in place of each invalid sequence.
pub uninterp spec fn spec_utf8_lossy(b: Seq<u8>) -> Seq<char>;

/// Calls std's `String::from_utf8_lossy`. The contract claims that the text
/// is [`spec_utf8_lossy`] of the bytes, and, as std documents, the plain
/// decoding where the bytes are valid UTF-8; which replacement characters
/// stand for invalid bytes is left to the name.
#[verifier::external_body]
pub(crate) fn utf8_lossy(b: &[u8]) -> (r: String)
    ensures
        r@ == spec_utf8_lossy(b@),
        valid_utf8(b@) ==> r@ == decode_utf8(b@),
{
    String::from_utf8_lossy(b).into_owned()
}

/// `s` without its trailing NUL characters.
pub open spec fn trim_trailing_nuls(s: Seq<char>) -> Seq<char>
    decreases s.len(),
{
    if s.len() > 0 && s.last() == '\0' {
        trim_trailing_nuls(s.drop_last())
    } else {
        s
    }
}

/// `s` without its trailing NUL characters (see [`trim_trailing_nuls`]).
pub(crate) fn trim_nuls(s: &String) -> (r: String)
    ensures
        r@ == trim_trailing_nuls(s@),
{
    let text = s.as_str();
    let mut end = text.unicode_len();
    proof {
        assert(s@.subrange(0, end as int) =~= s@);
    }
    while end > 0 && text.get_char(end - 1) == '\0'
        invariant
            end <= s@.len(),
            text@ == s@,
            trim_trailing_nuls(s@) == trim_trailing_nuls(s@.subrange(0, end as int)),
        decreases end,
    {
        proof {
            assert(s@.subrange(0, end as int).drop_last() =~= s@.subrange(0, end - 1));
        }
        end = end - 1;
    }
    let kept = text.substring_char(0, end);
    proof {
        let k = s@.subrange(0, end as int);
        assert(!(k.len() > 0 && k.last() == '\0'));
    }
    String::from_str(kept)
}

/// Whether `c` has Unicode's White_Space property, the whitespace that std's
/// `str::trim` removes.
pub open spec fn is_white_space(c: char) -> bool {
    let n = c as u32;
    ||| 0x09 <= n <= 0x0d
    ||| n == 0x20
    ||| n == 0x85
    ||| n == 0xa0
    ||| n == 0x1680
    ||| 0x2000 <= n <= 0x200a
    ||| n == 0x2028
    ||| n == 0x2029
    ||| n == 0x202f
    ||| n == 0x205f
    ||| n == 0x3000
}

/// `s` without its trailing whitespace.
pub open spec fn trim_white_space_end(s: Seq<char>) -> Seq<char>
    decreases s.len(),
{
    if s.len() > 0 && is_white_space(s.last()) {
        trim_white_space_end(s.drop_last())
    } else {
        s
    }
}

/// `s` without its leading whitespace.
pub open spec fn trim_white_space_start(s: Seq<char>) -> Seq<char>
    decreases s.len(),
{
    if s.len() > 0 && is_white_space(s[0]) {
        trim_white_space_start(s.drop_first())
    } else {
        s
    }
}

/// `s` without its leading and trailing whitespace.
pub open spec fn trim_white_space(s: Seq<char>) -> Seq<char> {
    trim_white_space_start(trim_white_space_end(s))
}

/// Whether `c` has the White_Space property (see [`is_white_space`]).
fn white_space(c: char) -> (r: bool)
    ensures
        r == is_white_space(c),
{
    let n = c as u32;
    (0x09 <= n && n <= 0x0d) || n == 0x20 || n == 0x85 || n == 0xa0 || n == 0x1680 || (0x2000 <= n && n
        <= 0x200a) || n == 0x2028 || n == 0x2029 || n == 0x202f || n == 0x205f || n == 0x3000
}

/// `s` without its leading and trailing whitespace (see
/// [`trim_white_space`]).
pub(crate) fn trim(s: &str) -> (r: String)
    ensures
        r@ == trim_white_space(s@),
{
    let mut end = s.unicode_len();
    assert(s@.subrange(0, end as int) =~= s@);
    while end > 0 && white_space(s.get_char(end - 1))
        invariant
            end <= s@.len(),
            trim_white_space_end(s@) == trim_white_space_end(s@.subrange(0, end as int)),
        decreases end,
    {
        assert(s@.subrange(0, end as int).drop_last() =~= s@.subrange(0, end - 1));
        end = end - 1;
    }
    assert(trim_white_space_end(s@.subrange(0, end as int)) == s@.subrange(0, end as int));
    let mut start: usize = 0;
    assert(s@.subrange(0, end as int).subrange(0, end as int) =~= s@.subrange(0, end as int));
    while start < end && white_space(s.get_char(start))
        invariant
            start <= end <= s@.len(),
            trim_white_space(s@) == trim_white_space_start(s@.subrange(start as int, end as int)),
        decreases end - start,
    {
        assert(s@.subrange(start as int, end as int).drop_first() =~= s@.subrange(start + 1, end as int));
        start = start + 1;
    }
    let kept = s.substring_char(start, end);
    proof {
        let k = s@.subrange(start as int, end as int);
        assert(!(k.len() > 0 && is_white_space(k[0])));
    }
    String::from_str(kept)
}

} // verus!
