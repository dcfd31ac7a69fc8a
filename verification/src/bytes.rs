use vstd::prelude::*;
use vstd::slice::slice_subrange;
use vstd::utf8::{decode_utf8, valid_utf8};

verus! {

/// `data` with the bytes from `at` on replaced by `src`.
pub open spec fn overwritten(data: Seq<u8>, at: int, src: Seq<u8>) -> Seq<u8> {
    Seq::new(
        data.len(),
        |i: int| if at <= i < at + src.len() { src[i - at] } else { data[i] },
    )
}

/// Writes `src` over `data` from position `at` on.
pub fn overwrite(data: &mut Vec<u8>, at: usize, src: &[u8])
    requires
        at + src@.len() <= old(data)@.len(),
    ensures
        final(data)@ == overwritten(old(data)@, at as int, src@),
{
    let n = src.len();
    let total = data.len();
    let mut i: usize = 0;
    while i < n
        invariant
            n == src@.len(),
            total == data@.len(),
            i <= n,
            at + n <= data@.len(),
            data@.len() == old(data)@.len(),
            forall|j: int| 0 <= j < data@.len() ==> data@[j] == (if at <= j < at + i { src@[j - at] } else { old(data)@[j] }),
        decreases n - i,
    {
        data[at + i] = src[i];
        i += 1;
    }
    assert(data@ =~= overwritten(old(data)@, at as int, src@));
}

/// A copy of the bytes `from..to` of `data`.
pub fn copy_range(data: &[u8], from: usize, to: usize) -> (out: Vec<u8>)
    requires
        from <= to <= data@.len(),
    ensures
        out@ == data@.subrange(from as int, to as int),
{
    let part = slice_subrange(data, from, to);
    let mut out: Vec<u8> = Vec::new();
    out.extend_from_slice(part);
    assert(out@ =~= data@.subrange(from as int, to as int));
    out
}

/// The 16-bit word whose low byte is `lo` and whose high byte is `hi`.
pub open spec fn word_of(lo: u8, hi: u8) -> u16 {
    (lo as int + 256 * (hi as int)) as u16
}

/// The little-endian word at byte position `at` of `data`.
pub open spec fn word_at(data: Seq<u8>, at: int) -> u16 {
    word_of(data[at], data[at + 1])
}

/// The two bytes of `w`, low byte first.
pub open spec fn word_bytes(w: u16) -> Seq<u8> {
    seq![(w % 256) as u8, (w / 256) as u8]
}

/// Reads the little-endian word at byte position `at`.
pub fn read_word(data: &[u8], at: usize) -> (w: u16)
    requires
        at + 2 <= data@.len(),
    ensures
        w == word_at(data@, at as int),
{
    let lo: u16 = data[at] as u16;
    let hi: u16 = data[at + 1] as u16;
    lo + 256 * hi
}

/// Appends `w` to `out`, low byte first.
pub fn push_word(out: &mut Vec<u8>, w: u16)
    ensures
        final(out)@ == old(out)@ + word_bytes(w),
{
    out.push((w % 256) as u8);
    out.push((w / 256) as u8);
    assert(out@ =~= old(out)@ + word_bytes(w));
}

/// Appends `n` zero bytes to `out`.
pub fn push_zeros(out: &mut Vec<u8>, n: usize)
    ensures
        final(out)@ == old(out)@ + Seq::new(n as nat, |i: int| 0u8),
{
    let mut i: usize = 0;
    while i < n
        invariant
            i <= n,
            out@ == old(out)@ + Seq::new(i as nat, |j: int| 0u8),
        decreases n - i,
    {
        out.push(0u8);
        i += 1;
        assert(out@ =~= old(out)@ + Seq::new(i as nat, |j: int| 0u8));
    }
    assert(out@ =~= old(out)@ + Seq::new(n as nat, |j: int| 0u8));
}

pub proof fn lemma_word_roundtrip(w: u16)
    ensures
        word_of((w % 256) as u8, (w / 256) as u8) == w,
        word_at(word_bytes(w), 0) == w,
{
}

/// `String::from_utf8`: the text that the bytes encode, or nothing where
/// they are no UTF-8.
#[verifier::external_body]
pub(crate) fn string_from_utf8(bytes: Vec<u8>) -> (r: Option<String>)
    ensures
        match r {
            Some(text) => valid_utf8(bytes@) && text@ == decode_utf8(bytes@),
            None => !valid_utf8(bytes@),
        },
{
    String::from_utf8(bytes).ok()
}

} // verus!
