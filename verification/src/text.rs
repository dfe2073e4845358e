//! Text: comparison, decimal numbers and the character classes the protocols rely on.
use vstd::prelude::*;
use vstd::string::*;
use vstd::utf8::{encode_utf8, encode_utf8_decode_utf8};

verus! {

/// `String::push`: appends the character at the end.
pub assume_specification[ std::string::String::push ](s: &mut std::string::String, c: char)
    ensures
        final(s)@ == old(s)@.push(c),
;

/// The text `{:?}` gives a string: in double quotes, with control and quoting characters
/// escaped.
pub uninterp spec fn quoted_text(s: Seq<char>) -> Seq<char>;

/// The standard library's `Debug` form of a string, a function of its characters.
#[verifier::external_body]
pub(crate) fn quoted(s: &str) -> (r: String)
    ensures
        r@ == quoted_text(s@),
{
    format!("{s:?}")
}

/// Two strings with the same UTF-8 encoding hold the same characters.
proof fn lemma_encoding_is_injective(a: Seq<char>, b: Seq<char>)
    requires
        encode_utf8(a) == encode_utf8(b),
    ensures
        a == b,
{
    encode_utf8_decode_utf8(a);
    encode_utf8_decode_utf8(b);
}

/// Whether two strings hold the same characters.
pub fn same_text(a: &str, b: &str) -> (r: bool)
    ensures
        r == (a@ == b@),
{
    let x: &[u8] = a.as_bytes();
    let y: &[u8] = b.as_bytes();
    if x.len() != y.len() {
        return false;
    }
    let mut i: usize = 0;
    while i < x.len()
        invariant
            x@ == a.spec_bytes(),
            y@ == b.spec_bytes(),
            x@.len() == y@.len(),
            i <= x@.len(),
            forall|k: int| 0 <= k < i ==> x@[k] == y@[k],
        decreases x@.len() - i,
    {
        if x[i] != y[i] {
            return false;
        }
        i += 1;
    }
    proof {
        assert(x@ =~= y@);
        lemma_encoding_is_injective(a@, b@);
    }
    true
}

/// The decimal digit `d` as a character.
pub open spec fn digit(d: int) -> char {
    ((48 + d) as u8) as char
}

/// `n` in decimal, without leading zeros.
pub open spec fn digits(n: nat) -> Seq<char>
    decreases n,
{
    if n < 10 {
        seq![digit(n as int)]
    } else {
        digits(n / 10).push(digit((n % 10) as int))
    }
}

/// `n` in decimal.
pub fn decimal(n: u64) -> (r: String)
    ensures
        r@ == digits(n as nat),
    decreases n,
{
    if n < 10 {
        let mut text: String = String::new();
        let d: u8 = (n as u8) + 48u8;
        text.push(d as char);
        proof {
            assert(text@ =~= seq![digit(n as int)]);
        }
        text
    } else {
        let mut text: String = decimal(n / 10);
        let d: u8 = ((n % 10) as u8) + 48u8;
        text.push(d as char);
        text
    }
}

/// The decimal digits of `n`, after a minus sign where it is negative.
pub open spec fn signed_digits(n: int) -> Seq<char> {
    if n < 0 {
        seq!['-'] + digits((-n) as nat)
    } else {
        digits(n as nat)
    }
}

/// `n` in decimal.
pub fn signed_decimal(n: i32) -> (r: String)
    ensures
        r@ == signed_digits(n as int),
{
    if n < 0 {
        proof {
            reveal_strlit("-");
            assert("-"@ =~= seq!['-']);
        }
        let size: u64 = (-(n as i64)) as u64;
        "-".to_owned().concat(decimal(size).as_str())
    } else {
        decimal(n as u64)
    }
}

/// A character with the Unicode `White_Space` property.
pub open spec fn white_space(c: char) -> bool {
    let u = c as u32;
    ||| 9 <= u <= 13
    ||| u == 0x20 || u == 0x85 || u == 0xA0 || u == 0x1680
    ||| 0x2000 <= u <= 0x200A
    ||| u == 0x2028 || u == 0x2029 || u == 0x202F || u == 0x205F || u == 0x3000
}

/// Whether `c` is white space.
pub fn is_white_space(c: char) -> (r: bool)
    ensures
        r == white_space(c),
{
    let u: u32 = c as u32;
    (9 <= u && u <= 13) || u == 0x20 || u == 0x85 || u == 0xA0 || u == 0x1680 || (0x2000 <= u && u
        <= 0x200A) || u == 0x2028 || u == 0x2029 || u == 0x202F || u == 0x205F || u == 0x3000
}

/// Lexicographic order of byte strings.
pub open spec fn bytes_before(a: Seq<u8>, b: Seq<u8>) -> bool
    decreases a.len(),
{
    if b.len() == 0 {
        false
    } else if a.len() == 0 {
        true
    } else if a[0] != b[0] {
        a[0] < b[0]
    } else {
        bytes_before(a.drop_first(), b.drop_first())
    }
}

/// The order of strings: lexicographic by their UTF-8 bytes.
pub open spec fn text_before(a: Seq<char>, b: Seq<char>) -> bool {
    bytes_before(encode_utf8(a), encode_utf8(b))
}

/// The order is strict and total.
pub proof fn lemma_bytes_order(a: Seq<u8>, b: Seq<u8>)
    ensures
        bytes_before(a, b) ==> !bytes_before(b, a) && a != b,
        a != b ==> bytes_before(a, b) || bytes_before(b, a),
    decreases a.len(),
{
    if a.len() > 0 && b.len() > 0 {
        lemma_bytes_order(a.drop_first(), b.drop_first());
        if a[0] == b[0] && a.drop_first() == b.drop_first() {
            assert(a =~= seq![a[0]] + a.drop_first());
            assert(b =~= seq![b[0]] + b.drop_first());
        }
    } else if a.len() == 0 && b.len() == 0 {
        assert(a =~= b);
    }
}

proof fn lemma_bytes_transitive(a: Seq<u8>, b: Seq<u8>, c: Seq<u8>)
    requires
        bytes_before(a, b),
        bytes_before(b, c),
    ensures
        bytes_before(a, c),
    decreases a.len(),
{
    if a.len() > 0 && a[0] == b[0] && b[0] == c[0] {
        lemma_bytes_transitive(a.drop_first(), b.drop_first(), c.drop_first());
    }
}

/// The order of strings is strict, total and transitive.
pub proof fn lemma_text_order(a: Seq<char>, b: Seq<char>, c: Seq<char>)
    ensures
        text_before(a, b) ==> !text_before(b, a) && a != b,
        a != b ==> text_before(a, b) || text_before(b, a),
        text_before(a, b) && text_before(b, c) ==> text_before(a, c),
{
    lemma_bytes_order(encode_utf8(a), encode_utf8(b));
    if a != b && encode_utf8(a) == encode_utf8(b) {
        lemma_encoding_is_injective(a, b);
    }
    if text_before(a, b) && text_before(b, c) {
        lemma_bytes_transitive(encode_utf8(a), encode_utf8(b), encode_utf8(c));
    }
}

/// Whether `a` comes before `b` in the order of strings.
pub fn is_before(a: &str, b: &str) -> (r: bool)
    ensures
        r == text_before(a@, b@),
{
    let x: &[u8] = a.as_bytes();
    let y: &[u8] = b.as_bytes();
    let mut i: usize = 0;
    proof {
        assert(x@.skip(0) =~= x@);
        assert(y@.skip(0) =~= y@);
    }
    while i < x.len() && i < y.len()
        invariant
            x@ == encode_utf8(a@),
            y@ == encode_utf8(b@),
            i <= x@.len(),
            i <= y@.len(),
            bytes_before(x@, y@) == bytes_before(x@.skip(i as int), y@.skip(i as int)),
        decreases x@.len() - i,
    {
        proof {
            assert(x@.skip(i as int).drop_first() =~= x@.skip(i + 1));
            assert(y@.skip(i as int).drop_first() =~= y@.skip(i + 1));
        }
        if x[i] != y[i] {
            return x[i] < y[i];
        }
        i += 1;
    }
    i < y.len()
}

/// Whether `text` holds the character `c`.
pub fn has_char(text: &str, c: char) -> (r: bool)
    ensures
        r == text@.contains(c),
{
    for x in it: text.chars()
        invariant
            it.seq() == text@,
            forall|k: int| 0 <= k < it.index() ==> text@[k] != c,
    {
        if x == c {
            assert(text@[it.index()] == c);
            return true;
        }
    }
    false
}

/// The characters of `text`.
pub fn characters(text: &str) -> (r: Vec<char>)
    ensures
        r@ == text@,
{
    let mut out: Vec<char> = Vec::new();
    for x in it: text.chars()
        invariant
            it.seq() == text@,
            out@ == text@.take(it.index()),
    {
        out.push(x);
        proof {
            assert(text@.take(it.index() + 1) =~= text@.take(it.index()).push(x));
        }
    }
    proof {
        assert(text@.take(text@.len() as int) =~= text@);
    }
    out
}

/// The strings are in order, and none occurs twice.
pub open spec fn strictly_sorted(strings: Seq<Seq<char>>) -> bool {
    forall|i: int, j: int|
        0 <= i < j < strings.len() ==> text_before(#[trigger] strings[i], #[trigger] strings[j])
}

/// `text` ends with `end`.
pub open spec fn has_suffix(text: Seq<char>, end: Seq<char>) -> bool {
    end.len() <= text.len() && text.skip(text.len() - end.len()) == end
}

/// Whether `text` ends with `end`.
pub fn ends_with(text: &str, end: &str) -> (r: bool)
    ensures
        r == has_suffix(text@, end@),
{
    let t: Vec<char> = characters(text);
    let e: Vec<char> = characters(end);
    if e.len() > t.len() {
        return false;
    }
    let size: usize = t.len();
    let start: usize = size - e.len();
    let mut i: usize = 0;
    while i < e.len()
        invariant
            t@ == text@,
            e@ == end@,
            size == t@.len(),
            start == size - e@.len(),
            i <= e@.len(),
            forall|k: int| 0 <= k < i ==> t@[start + k] == e@[k],
        decreases e@.len() - i,
    {
        if t[start + i] != e[i] {
            assert(text@.skip(start as int)[i as int] != end@[i as int]);
            return false;
        }
        i += 1;
    }
    assert(text@.skip(start as int) =~= end@);
    true
}

/// The characters from `from` to `to` as a string.
pub fn string_of(chars: &Vec<char>, from: usize, to: usize) -> (r: String)
    requires
        from <= to <= chars@.len(),
    ensures
        r@ == chars@.subrange(from as int, to as int),
{
    let mut text: String = String::new();
    let mut i: usize = from;
    while i < to
        invariant
            from <= i <= to <= chars@.len(),
            text@ == chars@.subrange(from as int, i as int),
        decreases to - i,
    {
        text.push(chars[i]);
        i += 1;
        assert(chars@.subrange(from as int, i as int) =~= chars@.subrange(
            from as int,
            i - 1,
        ).push(chars@[i - 1]));
    }
    text
}

/// The text without the white space around it.
pub open spec fn trim(text: Seq<char>) -> Seq<char>
    decreases text.len(),
{
    if text.len() > 0 && white_space(text[0]) {
        trim(text.drop_first())
    } else if text.len() > 0 && white_space(text.last()) {
        trim(text.drop_last())
    } else {
        text
    }
}

/// The text without the white space around it.
pub fn trim_text(text: &str) -> (r: String)
    ensures
        r@ == trim(text@),
{
    let chars: Vec<char> = characters(text);
    let ghost all = chars@;
    let mut from: usize = 0;
    let mut to: usize = chars.len();
    assert(all.subrange(0, all.len() as int) =~= all);
    while from < to && is_white_space(chars[from])
        invariant
            from <= to == chars@.len(),
            all == chars@,
            trim(all) == trim(all.subrange(from as int, to as int)),
        decreases to - from,
    {
        proof {
            let part = all.subrange(from as int, to as int);
            assert(part[0] == all[from as int]);
            assert(part.drop_first() =~= all.subrange(from + 1, to as int));
        }
        from += 1;
    }
    while to > from && is_white_space(chars[to - 1])
        invariant
            from <= to <= chars@.len(),
            all == chars@,
            trim(all) == trim(all.subrange(from as int, to as int)),
            from < to ==> !white_space(all[from as int]),
        decreases to - from,
    {
        proof {
            let part = all.subrange(from as int, to as int);
            assert(part[0] == all[from as int]);
            assert(part.last() == all[to - 1]);
            assert(part.drop_last() =~= all.subrange(from as int, to - 1));
        }
        to -= 1;
    }
    proof {
        let part = all.subrange(from as int, to as int);
        if part.len() > 0 {
            assert(part[0] == all[from as int]);
            assert(part.last() == all[to - 1]);
        }
    }
    string_of(&chars, from, to)
}

/// The lowercase form of a text.
pub uninterp spec fn lowercase(text: Seq<char>) -> Seq<char>;

/// The lowercase form of an ASCII character.
pub open spec fn ascii_lowercase(c: char) -> char {
    if 'A' <= c <= 'Z' {
        ((c as u8 + 32) as u8) as char
    } else {
        c
    }
}

/// `str::to_lowercase`: a function of the characters; of ASCII text, each letter in lowercase.
#[verifier::external_body]
pub(crate) fn lowered(text: &str) -> (r: String)
    ensures
        r@ == lowercase(text@),
        (forall|i: int| 0 <= i < text@.len() ==> (#[trigger] text@[i] as u32) < 128) ==> r@
            == Seq::new(text@.len(), |i: int| ascii_lowercase(text@[i])),
{
    text.to_lowercase()
}

/// A letter or a digit of any script.
pub uninterp spec fn letter_or_digit(c: char) -> bool;

/// `char::is_alphanumeric`: a function of the character; of ASCII, the letters and the digits.
#[verifier::external_body]
pub(crate) fn is_letter_or_digit(c: char) -> (r: bool)
    ensures
        r == letter_or_digit(c),
        (c as u32) < 128 ==> r == ('a' <= c <= 'z' || 'A' <= c <= 'Z' || '0' <= c <= '9'),
{
    c.is_alphanumeric()
}

/// The text starts with `start`.
pub open spec fn has_prefix(text: Seq<char>, start: Seq<char>) -> bool {
    start.len() <= text.len() && text.take(start.len() as int) == start
}

/// What follows `start` in the text.
pub fn strip_start(text: &str, start: &str) -> (r: Option<String>)
    ensures
        r is Some <==> has_prefix(text@, start@),
        r matches Some(rest) ==> rest@ == text@.skip(start@.len() as int),
{
    let a: Vec<char> = characters(text);
    let b: Vec<char> = characters(start);
    if b.len() > a.len() {
        return None;
    }
    let mut i: usize = 0;
    while i < b.len()
        invariant
            i <= b@.len() <= a@.len(),
            a@ == text@,
            b@ == start@,
            forall|k: int| 0 <= k < i ==> a@[k] == b@[k],
        decreases b@.len() - i,
    {
        if a[i] != b[i] {
            assert(text@.take(start@.len() as int)[i as int] != start@[i as int]);
            return None;
        }
        i += 1;
    }
    assert(text@.take(start@.len() as int) =~= start@);
    assert(a@.subrange(b@.len() as int, a@.len() as int) =~= text@.skip(start@.len() as int));
    Some(string_of(&a, b.len(), a.len()))
}

/// The text without the white space before it.
pub open spec fn trim_before(text: Seq<char>) -> Seq<char>
    decreases text.len(),
{
    if text.len() > 0 && white_space(text[0]) {
        trim_before(text.drop_first())
    } else {
        text
    }
}

/// The text without the white space before it.
pub fn trim_start_text(text: &str) -> (r: String)
    ensures
        r@ == trim_before(text@),
{
    let chars: Vec<char> = characters(text);
    let ghost all = chars@;
    let mut from: usize = 0;
    assert(all.skip(0) =~= all);
    while from < chars.len() && is_white_space(chars[from])
        invariant
            from <= chars@.len(),
            all == chars@,
            trim_before(all) == trim_before(all.skip(from as int)),
        decreases chars@.len() - from,
    {
        proof {
            assert(all.skip(from as int)[0] == all[from as int]);
            assert(all.skip(from as int).drop_first() =~= all.skip(from + 1));
        }
        from += 1;
    }
    proof {
        if from < all.len() {
            assert(all.skip(from as int)[0] == all[from as int]);
        }
        assert(all.skip(from as int) =~= all.subrange(from as int, all.len() as int));
    }
    string_of(&chars, from, chars.len())
}

/// The characters of an optional text.
pub open spec fn text_in(text: Option<String>) -> Option<Seq<char>> {
    match text {
        None => None,
        Some(s) => Some(s@),
    }
}

/// Trimming takes the white space at both ends away and nothing else: what is left starts and ends with
/// something else, or is empty.
pub proof fn law_trimming_removes_white_space_around(text: Seq<char>)
    ensures
        exists|i: int, j: int| {
            &&& 0 <= i <= j <= text.len()
            &&& trim(text) == #[trigger] text.subrange(i, j)
            &&& forall|k: int| 0 <= k < i ==> white_space(#[trigger] text[k])
            &&& forall|k: int| j <= k < text.len() ==> white_space(#[trigger] text[k])
            &&& i < j ==> !white_space(text[i]) && !white_space(text[j - 1])
        },
{
    let (i, j) = lemma_trimmed(text, 0, text.len() as int);
    assert(text.subrange(0, text.len() as int) =~= text);
    assert(trim(text) == text.subrange(i, j));
}

proof fn lemma_trimmed(text: Seq<char>, a: int, b: int) -> (r: (int, int))
    requires
        0 <= a <= b <= text.len(),
    ensures
        a <= r.0 <= r.1 <= b,
        trim(text.subrange(a, b)) == text.subrange(r.0, r.1),
        forall|k: int| a <= k < r.0 ==> white_space(#[trigger] text[k]),
        forall|k: int| r.1 <= k < b ==> white_space(#[trigger] text[k]),
        r.0 < r.1 ==> !white_space(text[r.0]) && !white_space(text[r.1 - 1]),
    decreases b - a,
{
    let part = text.subrange(a, b);
    if part.len() > 0 && white_space(part[0]) {
        assert(part.drop_first() =~= text.subrange(a + 1, b));
        lemma_trimmed(text, a + 1, b)
    } else if part.len() > 0 && white_space(part.last()) {
        assert(part.drop_last() =~= text.subrange(a, b - 1));
        lemma_trimmed(text, a, b - 1)
    } else {
        if part.len() > 0 {
            assert(part[0] == text[a] && part.last() == text[b - 1]);
        }
        (a, b)
    }
}

} // verus!
