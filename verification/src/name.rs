use vstd::prelude::*;

use crate::error::Error;

verus! {

/// The RADIX-50 code of a character: space is 0, the letters are 1 to 26,
/// `$` is 27, `.` is 28, `%` is 29 and the digits are 30 to 39.
pub open spec fn r50_value(c: char) -> Option<int> {
    let n = c as u32 as int;
    if n == 32 {
        Some(0)
    } else if 65 <= n <= 90 {
        Some(n - 64)
    } else if n == 36 {
        Some(27)
    } else if n == 46 {
        Some(28)
    } else if n == 37 {
        Some(29)
    } else if 48 <= n <= 57 {
        Some(n - 18)
    } else {
        None
    }
}

/// The character with RADIX-50 code `v`.
pub open spec fn r50_char(v: int) -> char {
    if v == 0 {
        ' '
    } else if 1 <= v <= 26 {
        ((v + 64) as u8) as char
    } else if v == 27 {
        '$'
    } else if v == 28 {
        '.'
    } else if v == 29 {
        '%'
    } else {
        ((v + 18) as u8) as char
    }
}

/// Three codes in one word.
pub open spec fn r50_pack(a: int, b: int, c: int) -> int {
    (a * 40 + b) * 40 + c
}

/// Character `i` of `text`, or a space past its end.
pub open spec fn char_or_space(text: Seq<char>, i: int) -> char {
    if 0 <= i < text.len() { text[i] } else { ' ' }
}

/// The three characters from `at` on can be put in a word.
pub open spec fn r50_word_ok(text: Seq<char>, at: int) -> bool {
    r50_value(char_or_space(text, at)) is Some && r50_value(char_or_space(text, at + 1)) is Some && r50_value(
        char_or_space(text, at + 2),
    ) is Some
}

/// The word for the three characters of `text` from `at` on.
pub open spec fn r50_word(text: Seq<char>, at: int) -> u16 {
    r50_pack(
        r50_value(char_or_space(text, at)).unwrap(),
        r50_value(char_or_space(text, at + 1)).unwrap(),
        r50_value(char_or_space(text, at + 2)).unwrap(),
    ) as u16
}

/// Every character of `text` has a RADIX-50 code.
pub open spec fn r50_text_ok(text: Seq<char>) -> bool {
    forall|i: int| 0 <= i < text.len() ==> (#[trigger] r50_value(text[i])) is Some
}

/// The words for `text`, three characters to a word, the last one filled up
/// with spaces.
pub open spec fn r50_words(text: Seq<char>) -> Seq<u16> {
    Seq::new(((text.len() + 2) / 3) as nat, |i: int| r50_word(text, 3 * i))
}

/// The three characters that `word` stands for. A word above the largest
/// that three characters give is read modulo 40 in each place.
pub open spec fn r50_unpack(word: u16) -> Seq<char> {
    let w = word as int;
    seq![r50_char((w / 1600) % 40), r50_char((w / 40) % 40), r50_char(w % 40)]
}

/// The text that `words` stand for.
pub open spec fn r50_text(words: Seq<u16>) -> Seq<char> {
    Seq::new((3 * words.len()) as nat, |i: int| r50_unpack(words[i / 3])[i % 3])
}

/// `radix50::pdp11::encode`: the words for the text, three characters to a
/// word with the last word filled up with spaces, or nothing where a
/// character has no RADIX-50 code.
#[verifier::external_body]
pub(crate) fn r50_encode(text: &str) -> (r: Option<Vec<u16>>)
    ensures
        match r {
            Some(words) => r50_text_ok(text@) && words@ == r50_words(text@),
            None => !r50_text_ok(text@),
        },
{
    radix50::pdp11::encode(text).ok()
}

/// `radix50::pdp11::encode_word`: the word for the first three characters
/// of the text, spaces standing in for those it lacks, or nothing where one
/// of the three has no RADIX-50 code. What follows the third is not read.
#[verifier::external_body]
pub(crate) fn r50_encode_word(text: &str) -> (r: Option<u16>)
    ensures
        match r {
            Some(word) => r50_word_ok(text@, 0) && word == r50_word(text@, 0),
            None => !r50_word_ok(text@, 0),
        },
{
    radix50::pdp11::encode_word(text).ok()
}

/// `radix50::pdp11::decode`: three characters for each word.
#[verifier::external_body]
pub(crate) fn r50_decode(words: &[u16]) -> (text: String)
    ensures
        text@ == r50_text(words@),
{
    radix50::pdp11::decode(words)
}

/// A character that a file name may hold: a space, a capital letter, a
/// digit, `$` or `.`.
pub open spec fn name_char(c: char) -> bool {
    r50_value(c) is Some && c != '%'
}

/// Position of the first `.` of `text` from `from` on, or the length of the
/// text if there is none.
pub open spec fn first_dot(text: Seq<char>, from: int) -> int
    decreases text.len() - from,
{
    if 0 <= from < text.len() && text[from] != '.' {
        first_dot(text, from + 1)
    } else {
        from
    }
}

/// A 6.3 name: one to six characters, a `.`, one to three characters, all of
/// them characters that a file name may hold.
pub open spec fn valid_filename(name: Seq<char>) -> bool {
    let dot = first_dot(name, 0);
    &&& 1 <= dot <= 6
    &&& dot + 1 < name.len()
    &&& name.len() - dot - 1 <= 3
    &&& forall|i: int| 0 <= i < name.len() ==> name_char(#[trigger] name[i])
}

/// `text` with spaces added up to `width` characters.
pub open spec fn padded(text: Seq<char>, width: int) -> Seq<char> {
    Seq::new(if text.len() < width { width as nat } else { text.len() }, |i: int| char_or_space(text, i))
}

/// The three words of a 6.3 name: two for the part before the first `.`
/// and one for the part after it.
pub open spec fn filename_words(name: Seq<char>) -> Seq<u16> {
    let dot = first_dot(name, 0);
    let base = name.subrange(0, dot);
    let ext = name.subrange(dot + 1, name.len() as int);
    seq![r50_word(base, 0), r50_word(base, 3), r50_word(ext, 0)]
}

pub proof fn lemma_first_dot(text: Seq<char>, from: int)
    requires
        0 <= from <= text.len(),
    ensures
        from <= first_dot(text, from) <= text.len(),
        first_dot(text, from) < text.len() ==> text[first_dot(text, from)] == '.',
        forall|i: int| from <= i < first_dot(text, from) ==> text[i] != '.',
    decreases text.len() - from,
{
    if from < text.len() && text[from] != '.' {
        lemma_first_dot(text, from + 1);
    }
}

fn is_name_char(c: char) -> (b: bool)
    ensures
        b == name_char(c),
{
    let n = c as u32;
    n == 32 || (65 <= n && n <= 90) || n == 36 || n == 46 || (48 <= n && n <= 57)
}

/// `text` followed by spaces up to `width` characters.
fn pad(text: &str, width: usize) -> (out: String)
    ensures
        out@ == padded(text@, width as int),
{
    let mut out = String::from_str(text);
    let mut n = text.unicode_len();
    proof {
        reveal_strlit(" ");
        assert(out@ =~= padded(text@, n as int));
    }
    while n < width
        invariant
            out@ == padded(text@, n as int),
            n >= text@.len(),
            n <= width || n == text@.len(),
        decreases width - n,
    {
        out.append(" ");
        n += 1;
        proof {
            reveal_strlit(" ");
            assert(" "@ =~= seq![' ']);
            assert(out@ =~= padded(text@, n as int));
        }
    }
    proof {
        assert(out@ =~= padded(text@, width as int));
    }
    out
}

/// The three RADIX-50 words of a 6.3 file name.
pub fn encode_filename(name: &str) -> (r: Result<[u16; 3], Error>)
    ensures
        match r {
            Ok(words) => valid_filename(name@) && words@ == filename_words(name@),
            Err(e) => !valid_filename(name@) && e == Error::NameInvalid,
        },
{
    let n = name.unicode_len();
    proof {
        lemma_first_dot(name@, 0);
    }
    if n > 10 {
        return Err(Error::NameInvalid);
    }
    let mut dot: usize = 0;
    let mut found = false;
    while dot < n && !found
        invariant
            n == name@.len(),
            dot <= n,
            first_dot(name@, 0) == first_dot(name@, dot as int),
            found ==> dot < n && name@[dot as int] == '.',
        decreases n - dot + (if found { 0int } else { 1int }),
    {
        if name.get_char(dot) == '.' {
            found = true;
        } else {
            dot += 1;
        }
    }
    if !found || dot < 1 || dot > 6 || n - dot - 1 < 1 || n - dot - 1 > 3 {
        return Err(Error::NameInvalid);
    }
    let mut i: usize = 0;
    while i < n
        invariant
            n == name@.len(),
            i <= n,
            forall|j: int| 0 <= j < i ==> name_char(#[trigger] name@[j]),
        decreases n - i,
    {
        if !is_name_char(name.get_char(i)) {
            return Err(Error::NameInvalid);
        }
        i += 1;
    }
    let base = pad(name.substring_char(0, dot), 6);
    let ext = pad(name.substring_char(dot + 1, n), 3);
    let ghost b = name@.subrange(0, dot as int);
    let ghost x = name@.subrange(dot + 1, n as int);
    proof {
        assert forall|j: int| 0 <= j < base@.len() implies (#[trigger] r50_value(base@[j])) is Some by {
            if j < dot {
                assert(name_char(name@[j]));
            }
        }
        assert forall|j: int| 0 <= j < 3 implies r50_value(#[trigger] char_or_space(ext@, j)) is Some by {
            if j < n - dot - 1 {
                assert(name_char(name@[dot + 1 + j]));
            }
        }
    }
    let first = match r50_encode(base.as_str()) {
        Some(w) => w,
        None => { return Err(Error::NameInvalid); },
    };
    let last = match r50_encode_word(ext.as_str()) {
        Some(w) => w,
        None => { return Err(Error::NameInvalid); },
    };
    let out = [first[0], first[1], last];
    proof {
        assert(r50_word(base@, 0) == r50_word(b, 0));
        assert(r50_word(base@, 3) == r50_word(b, 3));
        assert(r50_word(ext@, 0) == r50_word(x, 0));
        assert(out@ =~= filename_words(name@));
    }
    Ok(out)
}

/// First position from `from` on where `text` holds no space, or its length.
pub open spec fn skip_spaces(text: Seq<char>, from: int) -> int
    decreases text.len() - from,
{
    if 0 <= from < text.len() && text[from] == ' ' {
        skip_spaces(text, from + 1)
    } else {
        from
    }
}

/// Position after the last character before `to` that is no space, not
/// below `floor`.
pub open spec fn drop_spaces(text: Seq<char>, to: int, floor: int) -> int
    decreases to,
{
    if 0 <= floor < to <= text.len() && text[to - 1] == ' ' {
        drop_spaces(text, to - 1, floor)
    } else {
        to
    }
}

/// `text[from..to]` without the spaces at its two ends.
pub open spec fn trimmed(text: Seq<char>, from: int, to: int) -> Seq<char> {
    let part = text.subrange(from, to);
    let start = skip_spaces(part, 0);
    part.subrange(start, drop_spaces(part, part.len() as int, start))
}

/// The 6.3 name that three words stand for: the first six characters and
/// the last three, each without the spaces at its ends, with a `.` between.
pub open spec fn decoded_filename(words: Seq<u16>) -> Seq<char> {
    let text = r50_text(words);
    trimmed(text, 0, 6) + seq!['.'] + trimmed(text, 6, 9)
}

pub proof fn lemma_skip_spaces(text: Seq<char>, from: int)
    requires
        0 <= from <= text.len(),
    ensures
        from <= skip_spaces(text, from) <= text.len(),
    decreases text.len() - from,
{
    if from < text.len() && text[from] == ' ' {
        lemma_skip_spaces(text, from + 1);
    }
}

pub proof fn lemma_drop_spaces(text: Seq<char>, to: int, floor: int)
    requires
        0 <= floor <= to <= text.len(),
    ensures
        floor <= drop_spaces(text, to, floor) <= to,
    decreases to,
{
    if floor < to && text[to - 1] == ' ' {
        lemma_drop_spaces(text, to - 1, floor);
    }
}

pub proof fn lemma_r50_char_value(c: char)
    requires
        r50_value(c) is Some,
    ensures
        0 <= r50_value(c).unwrap() < 40,
        r50_char(r50_value(c).unwrap()) == c,
{
    let n = c as u32;
    let v = r50_value(c).unwrap();
    if 1 <= v <= 26 {
        assert(((v + 64) as u8) as char == c) by {
            assert((v + 64) as u8 == n as u8);
            assert((n as u8) as char == c);
        }
    } else if 30 <= v <= 39 {
        assert(((v + 18) as u8) as char == c) by {
            assert((v + 18) as u8 == n as u8);
            assert((n as u8) as char == c);
        }
    } else {
        assert(' ' as u32 == 32 && '$' as u32 == 36 && '.' as u32 == 46 && '%' as u32 == 37);
    }
}

/// The word of three characters stands for these three characters.
pub proof fn lemma_r50_word_unpack(text: Seq<char>, at: int)
    requires
        r50_word_ok(text, at),
    ensures
        r50_unpack(r50_word(text, at)) == seq![
            char_or_space(text, at),
            char_or_space(text, at + 1),
            char_or_space(text, at + 2),
        ],
{
    let a = char_or_space(text, at);
    let b = char_or_space(text, at + 1);
    let c = char_or_space(text, at + 2);
    lemma_r50_char_value(a);
    lemma_r50_char_value(b);
    lemma_r50_char_value(c);
    let va = r50_value(a).unwrap();
    let vb = r50_value(b).unwrap();
    let vc = r50_value(c).unwrap();
    let w = r50_pack(va, vb, vc);
    assert(w == va * 1600 + vb * 40 + vc);
    assert(0 <= w < 64000);
    assert((w / 1600) % 40 == va && (w / 40) % 40 == vb && w % 40 == vc);
    assert(r50_unpack(r50_word(text, at)) =~= seq![a, b, c]);
}

/// Text that neither begins nor ends with a space, filled up with spaces,
/// is what is left when the spaces at the ends are taken away again.
pub proof fn lemma_trim_padded(text: Seq<char>, width: int)
    requires
        0 < text.len() <= width,
        text[0] != ' ',
        text[text.len() - 1] != ' ',
    ensures
        trimmed(padded(text, width), 0, width) == text,
{
    let part = padded(text, width);
    assert(part.subrange(0, width) =~= part);
    assert(skip_spaces(part, 0) == 0);
    lemma_drop_padding(text, width, width);
    assert(part.subrange(0, text.len() as int) =~= text);
}

proof fn lemma_drop_padding(text: Seq<char>, width: int, to: int)
    requires
        0 < text.len() <= to <= width,
        text[text.len() - 1] != ' ',
    ensures
        drop_spaces(padded(text, width), to, 0) == text.len(),
    decreases to,
{
    if to > text.len() {
        lemma_drop_padding(text, width, to - 1);
    }
}

/// The three words of a base of up to six characters and an extension of
/// up to three stand for the base and the extension, each filled up with
/// spaces.
pub proof fn lemma_words_text(base: Seq<char>, ext: Seq<char>)
    requires
        base.len() <= 6,
        ext.len() <= 3,
        r50_word_ok(base, 0),
        r50_word_ok(base, 3),
        r50_word_ok(ext, 0),
    ensures
        r50_text(seq![r50_word(base, 0), r50_word(base, 3), r50_word(ext, 0)]) == padded(base, 6) + padded(ext, 3),
{
    let words = seq![r50_word(base, 0), r50_word(base, 3), r50_word(ext, 0)];
    let text = r50_text(words);
    let want = padded(base, 6) + padded(ext, 3);
    lemma_r50_word_unpack(base, 0);
    lemma_r50_word_unpack(base, 3);
    lemma_r50_word_unpack(ext, 0);
    assert(text.len() == 9 && want.len() == 9);
    assert(text[0] == want[0]);
    assert(text[1] == want[1]);
    assert(text[2] == want[2]);
    assert(text[3] == want[3]);
    assert(text[4] == want[4]);
    assert(text[5] == want[5]);
    assert(text[6] == want[6]);
    assert(text[7] == want[7]);
    assert(text[8] == want[8]);
    assert(text =~= want);
}

proof fn lemma_parts_ok(name: Seq<char>)
    requires
        valid_filename(name),
    ensures
        ({
            let dot = first_dot(name, 0);
            let base = name.subrange(0, dot);
            let ext = name.subrange(dot + 1, name.len() as int);
            &&& 1 <= dot <= 6
            &&& name[dot] == '.'
            &&& r50_word_ok(base, 0)
            &&& r50_word_ok(base, 3)
            &&& r50_word_ok(ext, 0)
            &&& base + seq!['.'] + ext == name
        }),
{
    let dot = first_dot(name, 0);
    lemma_first_dot(name, 0);
    let base = name.subrange(0, dot);
    let ext = name.subrange(dot + 1, name.len() as int);
    assert forall|i: int| 0 <= i < 6 implies r50_value(#[trigger] char_or_space(base, i)) is Some by {
        if i < dot {
            assert(name_char(name[i]));
        }
    }
    assert forall|i: int| 0 <= i < 3 implies r50_value(#[trigger] char_or_space(ext, i)) is Some by {
        if i < ext.len() {
            assert(name_char(name[dot + 1 + i]));
        }
    }
    assert(r50_value(char_or_space(base, 0)) is Some);
    assert(r50_value(char_or_space(base, 1)) is Some);
    assert(r50_value(char_or_space(base, 2)) is Some);
    assert(r50_value(char_or_space(base, 3)) is Some);
    assert(r50_value(char_or_space(base, 4)) is Some);
    assert(r50_value(char_or_space(base, 5)) is Some);
    assert(r50_value(char_or_space(ext, 0)) is Some);
    assert(r50_value(char_or_space(ext, 1)) is Some);
    assert(r50_value(char_or_space(ext, 2)) is Some);
    assert(base + seq!['.'] + ext =~= name);
}

/// A 6.3 name whose two parts neither begin nor end with a space is the
/// name that its three words stand for.
pub proof fn lemma_filename_roundtrip(name: Seq<char>)
    requires
        valid_filename(name),
        name[0] != ' ',
        name[first_dot(name, 0) - 1] != ' ',
        name[first_dot(name, 0) + 1] != ' ',
        name[name.len() - 1] != ' ',
    ensures
        decoded_filename(filename_words(name)) == name,
{
    let dot = first_dot(name, 0);
    let base = name.subrange(0, dot);
    let ext = name.subrange(dot + 1, name.len() as int);
    lemma_parts_ok(name);
    lemma_words_text(base, ext);
    let text = padded(base, 6) + padded(ext, 3);
    assert(text.subrange(0, 6) =~= padded(base, 6));
    assert(text.subrange(6, 9) =~= padded(ext, 3));
    lemma_trim_padded(base, 6);
    lemma_trim_padded(ext, 3);
    assert(padded(base, 6).subrange(0, 6) =~= padded(base, 6));
    assert(padded(ext, 3).subrange(0, 3) =~= padded(ext, 3));
}

/// The characters `from..to` of `text` without the spaces at the two ends.
fn trim_part(text: &str, from: usize, to: usize) -> (out: &str)
    requires
        from <= to <= text@.len(),
    ensures
        out@ == trimmed(text@, from as int, to as int),
{
    let part = text.substring_char(from, to);
    let n = to - from;
    let mut start: usize = 0;
    let mut going = true;
    while start < n && going
        invariant
            n == part@.len(),
            start <= n,
            skip_spaces(part@, 0) == skip_spaces(part@, start as int),
            !going ==> start < n && part@[start as int] != ' ',
        decreases n - start + (if going { 1int } else { 0int }),
    {
        if part.get_char(start) == ' ' {
            start += 1;
        } else {
            going = false;
        }
    }
    let mut end: usize = n;
    going = true;
    while end > start && going
        invariant
            n == part@.len(),
            start <= end <= n,
            drop_spaces(part@, n as int, start as int) == drop_spaces(part@, end as int, start as int),
            !going ==> end > start && part@[end - 1] != ' ',
        decreases end + (if going { 1int } else { 0int }),
    {
        if part.get_char(end - 1) == ' ' {
            end -= 1;
        } else {
            going = false;
        }
    }
    part.substring_char(start, end)
}

/// The 6.3 name that three RADIX-50 words stand for.
pub fn decode_filename(words: &[u16; 3]) -> (name: String)
    ensures
        name@ == decoded_filename(words@),
{
    let mut list: Vec<u16> = Vec::new();
    list.push(words[0]);
    list.push(words[1]);
    list.push(words[2]);
    assert(list@ =~= words@);
    let text = r50_decode(list.as_slice());
    let base = trim_part(text.as_str(), 0, 6);
    let ext = trim_part(text.as_str(), 6, 9);
    let name = String::from_str(base).concat(".").concat(ext);
    proof {
        reveal_strlit(".");
        assert("."@ =~= seq!['.']);
        assert(name@ =~= decoded_filename(words@));
    }
    name
}

} // verus!
