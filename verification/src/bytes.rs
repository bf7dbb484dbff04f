//! Byte strings: searching them, and turning them into text and back.

use crate::text::{find_sub, find_sub_from, lemma_find_sub_from, occurs_at};
use vstd::prelude::*;
use vstd::utf8::{decode_utf8, encode_utf8, valid_utf8};

verus! {

/// A line feed behind a carriage return.
pub open spec fn line_break() -> Seq<u8> {
    seq![13u8, 10u8]
}

/// The empty line that ends a head: two line breaks.
pub open spec fn blank_line() -> Seq<u8> {
    seq![13u8, 10u8, 13u8, 10u8]
}

/// Where the empty line that ends a head starts.
pub open spec fn header_end(s: Seq<u8>) -> Option<int> {
    find_sub(s, blank_line())
}

/// Appends `more` to `out`.
pub fn push_bytes(out: &mut Vec<u8>, more: &[u8])
    ensures
        final(out)@ == old(out)@ + more@,
{
    let mut i: usize = 0;
    let ghost start = out@;
    while i < more.len()
        invariant
            i <= more@.len(),
            out@ == start + more@.take(i as int),
        decreases more@.len() - i,
    {
        out.push(more[i]);
        i = i + 1;
        assert(start + more@.take(i as int) =~= (start + more@.take(i - 1)).push(more@[i - 1]));
    }
    assert(more@.take(i as int) =~= more@);
}

/// Whether `pattern` stands at `i` in `s`.
fn bytes_at(s: &[u8], pattern: &[u8], i: usize) -> (r: bool)
    requires
        i <= s@.len(),
    ensures
        r == occurs_at(s@, pattern@, i as int),
{
    if pattern.len() > s.len() - i {
        return false;
    }
    let n: usize = s.len();
    let mut k: usize = 0;
    while k < pattern.len()
        invariant
            k <= pattern@.len(),
            n == s@.len(),
            i + pattern@.len() <= n,
            forall|j: int| 0 <= j < k ==> s@[i + j] == pattern@[j],
        decreases pattern@.len() - k,
    {
        if s[i + k] != pattern[k] {
            assert(s@.subrange(i as int, i + pattern@.len())[k as int] != pattern@[k as int]);
            return false;
        }
        k = k + 1;
    }
    assert(s@.subrange(i as int, i + pattern@.len()) =~= pattern@);
    true
}

/// The first place where `pattern` stands in `s`.
pub fn find_bytes(s: &[u8], pattern: &[u8]) -> (r: Option<usize>)
    ensures
        match r {
            Some(i) => find_sub(s@, pattern@) == Some(i as int) && i + pattern@.len() <= s@.len(),
            None => find_sub(s@, pattern@) is None,
        },
{
    let n: usize = s.len();
    let mut i: usize = 0;
    proof {
        lemma_find_sub_from(s@, pattern@, 0);
    }
    while pattern.len() <= n - i
        invariant
            i <= n,
            n == s@.len(),
            find_sub(s@, pattern@) == find_sub_from(s@, pattern@, i as int),
        decreases n - i,
    {
        if bytes_at(s, pattern, i) {
            return Some(i);
        }
        if i == n {
            assert(find_sub_from(s@, pattern@, i + 1) is None);
            return None;
        }
        i = i + 1;
    }
    None
}

/// Where the empty line that ends a head starts.
pub fn find_header_end(s: &[u8]) -> (r: Option<usize>)
    ensures
        match r {
            Some(i) => header_end(s@) == Some(i as int) && i + 4 <= s@.len(),
            None => header_end(s@) is None,
        },
{
    let mut pattern: Vec<u8> = Vec::new();
    pattern.push(13);
    pattern.push(10);
    pattern.push(13);
    pattern.push(10);
    assert(pattern@ =~= blank_line());
    find_bytes(s, pattern.as_slice())
}

/// The bytes of a text.
pub fn bytes_of(text: &str) -> (r: Vec<u8>)
    ensures
        r@ == encode_utf8(text@),
{
    vstd::slice::slice_to_vec(text.as_bytes())
}

/// Bytes as text, with what is no UTF-8 replaced.
pub uninterp spec fn lossy_text(bytes: Seq<u8>) -> Seq<char>;

/// `String::from_utf8_lossy`: the text of the bytes, where each stretch that is
/// no UTF-8 becomes a replacement character. Which stretches count as one is
/// left to the name; bytes that are UTF-8 throughout come out as they are.
#[verifier::external_body]
pub(crate) fn lossy(bytes: &[u8]) -> (r: String)
    ensures
        r@ == lossy_text(bytes@),
        valid_utf8(bytes@) ==> r@ == decode_utf8(bytes@),
{
    String::from_utf8_lossy(bytes).into_owned()
}

/// Why bytes are no UTF-8, in words.
pub uninterp spec fn utf8_error(bytes: Seq<u8>) -> Seq<char>;

/// `str::from_utf8`: the text of bytes that are UTF-8, and otherwise the error,
/// in the words of its `Display`, which the name stands for.
#[verifier::external_body]
pub(crate) fn utf8(bytes: &[u8]) -> (r: Result<String, String>)
    ensures
        match r {
            Ok(text) => valid_utf8(bytes@) && text@ == decode_utf8(bytes@),
            Err(error) => !valid_utf8(bytes@) && error@ == utf8_error(bytes@),
        },
{
    match std::str::from_utf8(bytes) {
        Ok(text) => Ok(text.to_owned()),
        Err(error) => Err(error.to_string()),
    }
}

} // verus!
