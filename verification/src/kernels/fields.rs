//! Lines, words and numbers of a text.
use crate::sequences::texts;
use crate::text::{characters, digit, digits, is_white_space, string_of, white_space};
use vstd::prelude::*;
use vstd::string::*;

verus! {

// ---------------------------------------------------------------------------------------------
// Numbers
// ---------------------------------------------------------------------------------------------

/// A decimal digit.
pub open spec fn is_digit(c: char) -> bool {
    '0' <= c <= '9'
}

/// All characters are decimal digits.
pub open spec fn all_digits(s: Seq<char>) -> bool {
    forall|i: int| 0 <= i < s.len() ==> is_digit(#[trigger] s[i])
}

/// The number that decimal digits write.
pub open spec fn number_of(s: Seq<char>) -> nat
    decreases s.len(),
{
    if s.len() == 0 {
        0
    } else {
        number_of(s.drop_last()) * 10 + (s.last() as u32 - '0' as u32) as nat
    }
}

/// The digits of a number text: it may start with a plus sign.
pub open spec fn unsigned_digits(s: Seq<char>) -> Seq<char> {
    if s.len() > 0 && s[0] == '+' {
        s.drop_first()
    } else {
        s
    }
}

/// The size that a text writes; none where it is no number or too large.
pub open spec fn size_in(s: Seq<char>) -> Option<usize> {
    let d = unsigned_digits(s);
    if d.len() > 0 && all_digits(d) && number_of(d) <= usize::MAX {
        Some(number_of(d) as usize)
    } else {
        None
    }
}

proof fn lemma_number_grows(s: Seq<char>, i: int)
    requires
        0 <= i <= s.len(),
        all_digits(s),
    ensures
        number_of(s.take(i)) <= number_of(s),
    decreases s.len() - i,
{
    if i < s.len() {
        assert(s.take(i + 1).drop_last() =~= s.take(i));
        assert(is_digit(s[i]));
        lemma_number_grows(s, i + 1);
    } else {
        assert(s.take(i) =~= s);
    }
}

pub fn parse_size(word: &str) -> (r: Option<usize>)
    ensures
        r == size_in(word@),
{
    let chars: Vec<char> = characters(word);
    let start: usize = if chars.len() > 0 && chars[0] == '+' {
        1
    } else {
        0
    };
    let ghost d = unsigned_digits(word@);
    assert(d =~= chars@.skip(start as int));
    if chars.len() == start {
        return None;
    }
    let mut n: usize = 0;
    let mut i: usize = start;
    assert(d.take(0) =~= Seq::<char>::empty());
    while i < chars.len()
        invariant
            start <= i <= chars@.len(),
            d == chars@.skip(start as int),
            d == unsigned_digits(word@),
            forall|k: int| 0 <= k < i - start ==> is_digit(#[trigger] d[k]),
            n == number_of(d.take(i - start)),
        decreases chars@.len() - i,
    {
        let c: char = chars[i];
        let ghost k = i - start;
        assert(d[k] == c);
        if !('0' <= c && c <= '9') {
            assert(!is_digit(d[k]));
            return None;
        }
        let value: usize = (c as u32 - 48) as usize;
        proof {
            assert(d.take(k + 1).drop_last() =~= d.take(k));
            assert(d.take(k + 1).last() == c);
            assert(number_of(d.take(k + 1)) == number_of(d.take(k)) * 10 + value);
            if all_digits(d) {
                lemma_number_grows(d, k + 1);
            }
        }
        match n.checked_mul(10) {
            None => {
                return None;
            },
            Some(tens) => match tens.checked_add(value) {
                None => {
                    return None;
                },
                Some(sum) => {
                    n = sum;
                },
            },
        }
        i += 1;
    }
    assert(d.take(i - start) =~= d);
    Some(n)
}

/// A number reads back as it was written.
pub proof fn lemma_digits_round_trip(n: nat)
    ensures
        digits(n).len() > 0,
        all_digits(digits(n)),
        number_of(digits(n)) == n,
    decreases n,
{
    if n < 10 {
        assert(digits(n) =~= seq![digit(n as int)]);
        assert(digits(n).drop_last() =~= Seq::<char>::empty());
        assert(number_of(Seq::<char>::empty()) == 0);
    } else {
        lemma_digits_round_trip(n / 10);
        assert(digits(n).drop_last() =~= digits(n / 10));
    }
}

/// A size reads back as it was written.
pub proof fn lemma_size_round_trip(n: usize)
    ensures
        size_in(digits(n as nat)) == Some(n),
{
    lemma_digits_round_trip(n as nat);
    let d = digits(n as nat);
    assert(is_digit(d[0]));
    assert(unsigned_digits(d) == d);
}

// ---------------------------------------------------------------------------------------------
// Words
// ---------------------------------------------------------------------------------------------

/// Where the first white space from `i` on is; the end where there is none.
pub open spec fn word_end(s: Seq<char>, i: nat) -> nat
    decreases s.len() - i,
{
    if i < s.len() && !white_space(s[i as int]) {
        word_end(s, i + 1)
    } else {
        i
    }
}

proof fn lemma_word_end(s: Seq<char>, i: nat)
    requires
        i <= s.len(),
    ensures
        i <= word_end(s, i) <= s.len(),
        forall|k: int| i <= k < word_end(s, i) ==> !white_space(#[trigger] s[k]),
        word_end(s, i) < s.len() ==> white_space(s[word_end(s, i) as int]),
    decreases s.len() - i,
{
    if i < s.len() && !white_space(s[i as int]) {
        lemma_word_end(s, i + 1);
    }
}

/// The words of `s` from `i` on: maximal runs without white space.
pub open spec fn words_from(s: Seq<char>, i: nat) -> Seq<Seq<char>>
    decreases s.len() - i,
{
    if i >= s.len() {
        Seq::empty()
    } else if white_space(s[i as int]) {
        words_from(s, i + 1)
    } else {
        let end = word_end(s, i);
        if i < end <= s.len() {
            seq![s.subrange(i as int, end as int)] + words_from(s, end)
        } else {
            Seq::empty()
        }
    }
}

/// The words of a line.
pub open spec fn words_in(s: Seq<char>) -> Seq<Seq<char>> {
    words_from(s, 0)
}

fn push_text(list: &mut Vec<String>, text: String)
    ensures
        texts(final(list)@) == texts(old(list)@).push(text@),
{
    let ghost before = list@;
    let ghost model = text@;
    list.push(text);
    assert(texts(list@) =~= texts(before).push(model));
}

pub fn split_words(line: &str) -> (r: Vec<String>)
    ensures
        texts(r@) == words_in(line@),
{
    let chars: Vec<char> = characters(line);
    let mut list: Vec<String> = Vec::new();
    let mut i: usize = 0;
    assert(texts(list@) + words_from(line@, 0) =~= words_in(line@));
    while i < chars.len()
        invariant
            i <= chars@.len(),
            chars@ == line@,
            texts(list@) + words_from(line@, i as nat) == words_in(line@),
        decreases chars@.len() - i,
    {
        if is_white_space(chars[i]) {
            i += 1;
        } else {
            let from: usize = i;
            proof {
                lemma_word_end(line@, from as nat);
            }
            while i < chars.len() && !is_white_space(chars[i])
                invariant
                    from <= i <= chars@.len(),
                    chars@ == line@,
                    word_end(line@, from as nat) == word_end(line@, i as nat),
                decreases chars@.len() - i,
            {
                i += 1;
            }
            let ghost before = texts(list@);
            let ghost rest = words_from(line@, i as nat);
            let word: String = string_of(&chars, from, i);
            let ghost w = word@;
            assert(words_from(line@, from as nat) == seq![w] + rest);
            push_text(&mut list, word);
            assert(before + (seq![w] + rest) =~= before.push(w) + rest);
        }
    }
    assert(texts(list@) =~= words_in(line@));
    list
}

/// A word: not empty, and without white space.
pub open spec fn is_word(s: Seq<char>) -> bool {
    s.len() > 0 && forall|i: int| 0 <= i < s.len() ==> !white_space(#[trigger] s[i])
}

/// Fields `i..` with a space between them.
pub open spec fn spaced(fields: Seq<Seq<char>>, i: nat) -> Seq<char>
    decreases fields.len() - i,
{
    if i >= fields.len() {
        Seq::empty()
    } else if i + 1 == fields.len() {
        fields[i as int]
    } else {
        fields[i as int] + seq![' '] + spaced(fields, i + 1)
    }
}

/// Fields with a space between them.
pub fn space_fields(fields: &Vec<String>) -> (r: String)
    requires
        fields@.len() > 0,
    ensures
        r@ == spaced(texts(fields@), 0),
{
    let ghost all = texts(fields@);
    let size: usize = fields.len();
    let mut i: usize = size - 1;
    let mut out: String = fields[i].as_str().to_owned();
    assert(all[i as int] == fields@[i as int]@);
    while i > 0
        invariant
            i < size,
            size == fields@.len(),
            all == texts(fields@),
            out@ == spaced(all, i as nat),
        decreases i,
    {
        i -= 1;
        assert(all[i as int] == fields@[i as int]@);
        proof {
            reveal_strlit(" ");
            assert(" "@ =~= seq![' ']);
        }
        out = fields[i].as_str().to_owned().concat(" ").concat(out.as_str());
        assert(out@ =~= all[i as int] + seq![' '] + spaced(all, (i + 1) as nat));
    }
    out
}

proof fn lemma_word_end_at(s: Seq<char>, i: nat, e: nat)
    requires
        i <= e <= s.len(),
        forall|k: int| i <= k < e ==> !white_space(#[trigger] s[k]),
        e == s.len() || white_space(s[e as int]),
    ensures
        word_end(s, i) == e,
    decreases e - i,
{
    if i < e {
        lemma_word_end_at(s, i + 1, e);
    }
}

/// Words do not depend on what comes before them.
proof fn lemma_words_shift(a: Seq<char>, b: Seq<char>, i: nat)
    requires
        i <= b.len(),
    ensures
        words_from(a + b, a.len() + i) == words_from(b, i),
    decreases b.len() - i,
{
    let s = a + b;
    let n = a.len();
    if i < b.len() {
        assert(s[n as int + i] == b[i as int]);
        if white_space(b[i as int]) {
            lemma_words_shift(a, b, i + 1);
        } else {
            lemma_word_end(b, i);
            let e = word_end(b, i);
            assert forall|k: int| n + i <= k < n + e implies !white_space(#[trigger] s[k]) by {
                assert(s[k] == b[k - n]);
            }
            if e < b.len() {
                assert(s[n as int + e] == b[e as int]);
            }
            lemma_word_end_at(s, (n + i) as nat, (n + e) as nat);
            assert(e > i);
            assert(s.subrange((n + i) as int, (n + e) as int) =~= b.subrange(i as int, e as int));
            lemma_words_shift(a, b, e);
        }
    }
}

/// Fields with a space between them read back as the words of the line.
pub proof fn lemma_fields_round_trip(fields: Seq<Seq<char>>, i: nat)
    requires
        i <= fields.len(),
        forall|k: int| 0 <= k < fields.len() ==> is_word(#[trigger] fields[k]),
    ensures
        words_in(spaced(fields, i)) == fields.skip(i as int),
    decreases fields.len() - i,
{
    let s = spaced(fields, i);
    if i >= fields.len() {
        assert(fields.skip(i as int) =~= Seq::empty());
    } else {
        let w = fields[i as int];
        assert(is_word(w));
        let n = w.len();
        assert forall|k: int| 0 <= k < n implies !white_space(#[trigger] s[k]) by {
            assert(s[k] == w[k]);
        }
        if i + 1 < fields.len() {
            assert(s[n as int] == ' ');
        }
        lemma_word_end_at(s, 0, n);
        assert(s[0] == w[0]);
        assert(s.subrange(0, n as int) =~= w);
        if i + 1 == fields.len() {
            assert(words_from(s, n).len() == 0);
            assert(fields.skip(i as int) =~= seq![w]);
        } else {
            lemma_fields_round_trip(fields, i + 1);
            let rest = spaced(fields, i + 1);
            let head = w + seq![' '];
            assert(s =~= head + rest);
            lemma_words_shift(head, rest, 0);
            assert(words_from(s, n) == words_from(s, n + 1));
            assert(fields.skip(i as int) =~= seq![w] + fields.skip(i as int + 1));
        }
    }
}

/// Digits are a word.
pub proof fn lemma_digits_are_a_word(n: nat)
    ensures
        is_word(digits(n)),
{
    lemma_digits_round_trip(n);
    let d = digits(n);
    assert forall|i: int| 0 <= i < d.len() implies !white_space(#[trigger] d[i]) by {
        assert(is_digit(d[i]));
    }
}

// ---------------------------------------------------------------------------------------------
// Lines
// ---------------------------------------------------------------------------------------------

/// Where the first line feed from `i` on is; the end where there is none.
pub open spec fn line_end(s: Seq<char>, i: nat) -> nat
    decreases s.len() - i,
{
    if i < s.len() && s[i as int] != '\n' {
        line_end(s, i + 1)
    } else {
        i
    }
}

/// The line without the carriage return at its end.
pub open spec fn without_return(line: Seq<char>) -> Seq<char> {
    if line.len() > 0 && line.last() == '\r' {
        line.drop_last()
    } else {
        line
    }
}

/// The lines of `s` from `i` on.
pub open spec fn lines_from(s: Seq<char>, i: nat) -> Seq<Seq<char>>
    decreases s.len() - i,
{
    if i >= s.len() {
        Seq::empty()
    } else {
        let end = line_end(s, i);
        if i <= end < s.len() {
            seq![without_return(s.subrange(i as int, end as int))] + lines_from(s, end + 1)
        } else {
            seq![s.skip(i as int)]
        }
    }
}

/// The lines of a text.
pub open spec fn lines_in(s: Seq<char>) -> Seq<Seq<char>> {
    lines_from(s, 0)
}

proof fn lemma_line_end(s: Seq<char>, i: nat)
    requires
        i <= s.len(),
    ensures
        i <= line_end(s, i) <= s.len(),
        forall|k: int| i <= k < line_end(s, i) ==> #[trigger] s[k] != '\n',
        line_end(s, i) < s.len() ==> s[line_end(s, i) as int] == '\n',
    decreases s.len() - i,
{
    if i < s.len() && s[i as int] != '\n' {
        lemma_line_end(s, i + 1);
    }
}

pub fn split_lines(text: &str) -> (r: Vec<String>)
    ensures
        texts(r@) == lines_in(text@),
{
    let chars: Vec<char> = characters(text);
    let size: usize = chars.len();
    let mut list: Vec<String> = Vec::new();
    let mut i: usize = 0;
    assert(texts(list@) + lines_from(text@, 0) =~= lines_in(text@));
    while i < size
        invariant
            size == chars@.len(),
            i <= size,
            chars@ == text@,
            texts(list@) + lines_from(text@, i as nat) == lines_in(text@),
        decreases size - i,
    {
        let from: usize = i;
        proof {
            lemma_line_end(text@, from as nat);
        }
        while i < size && chars[i] != '\n'
            invariant
                size == chars@.len(),
                from <= i <= size,
                chars@ == text@,
                line_end(text@, from as nat) == line_end(text@, i as nat),
            decreases size - i,
        {
            i += 1;
        }
        let ghost before = texts(list@);
        if i < size {
            let ghost raw = chars@.subrange(from as int, i as int);
            let to: usize = if i > from && chars[i - 1] == '\r' {
                i - 1
            } else {
                i
            };
            let line: String = string_of(&chars, from, to);
            let ghost l = line@;
            assert(l =~= without_return(raw));
            let ghost rest = lines_from(text@, (i + 1) as nat);
            push_text(&mut list, line);
            assert(lines_from(text@, from as nat) == seq![l] + rest);
            assert(before + (seq![l] + rest) =~= before.push(l) + rest);
            i += 1;
        } else {
            let line: String = string_of(&chars, from, size);
            let ghost l = line@;
            assert(l =~= text@.skip(from as int));
            push_text(&mut list, line);
            assert(lines_from(text@, from as nat) =~= seq![l]);
            assert(lines_from(text@, size as nat) =~= Seq::empty());
            assert(before + seq![l] =~= before.push(l) + lines_from(text@, size as nat));
        }
    }
    assert(texts(list@) =~= lines_in(text@));
    list
}

/// A line that reads back: no line feed in it, and no carriage return at its end.
pub open spec fn is_line(s: Seq<char>) -> bool {
    &&& forall|i: int| 0 <= i < s.len() ==> #[trigger] s[i] != '\n'
    &&& s.len() > 0 ==> s.last() != '\r'
}

/// Lines `i..`, each with a line feed after it.
pub open spec fn ended(lines: Seq<Seq<char>>, i: nat) -> Seq<char>
    decreases lines.len() - i,
{
    if i >= lines.len() {
        Seq::empty()
    } else {
        lines[i as int] + seq!['\n'] + ended(lines, i + 1)
    }
}

proof fn lemma_line_end_at(s: Seq<char>, i: nat, e: nat)
    requires
        i <= e < s.len(),
        forall|k: int| i <= k < e ==> #[trigger] s[k] != '\n',
        s[e as int] == '\n',
    ensures
        line_end(s, i) == e,
    decreases e - i,
{
    if i < e {
        lemma_line_end_at(s, i + 1, e);
    }
}

proof fn lemma_lines_shift(a: Seq<char>, b: Seq<char>, i: nat)
    requires
        i <= b.len(),
    ensures
        lines_from(a + b, a.len() + i) == lines_from(b, i),
    decreases b.len() - i,
{
    let s = a + b;
    let n = a.len();
    if i < b.len() {
        lemma_line_end(b, i);
        lemma_line_end(s, n + i);
        let e = line_end(b, i);
        if e < b.len() {
            assert forall|k: int| n + i <= k < n + e implies #[trigger] s[k] != '\n' by {
                assert(s[k] == b[k - n]);
            }
            assert(s[n as int + e] == b[e as int]);
            lemma_line_end_at(s, (n + i) as nat, (n + e) as nat);
            assert(s.subrange((n + i) as int, (n + e) as int) =~= b.subrange(i as int, e as int));
            lemma_lines_shift(a, b, e + 1);
        } else {
            let f = line_end(s, n + i);
            if f < s.len() {
                assert(s[f as int] == b[f - n]);
                assert(b[f - n] == '\n');
            }
            assert(s.skip((n + i) as int) =~= b.skip(i as int));
        }
    }
}

/// Lines read back as they were written.
pub proof fn lemma_lines_round_trip(lines: Seq<Seq<char>>, i: nat)
    requires
        i <= lines.len(),
        forall|k: int| 0 <= k < lines.len() ==> is_line(#[trigger] lines[k]),
    ensures
        lines_in(ended(lines, i)) == lines.skip(i as int),
    decreases lines.len() - i,
{
    let s = ended(lines, i);
    if i >= lines.len() {
        assert(lines.skip(i as int) =~= Seq::empty());
    } else {
        let l = lines[i as int];
        assert(is_line(l));
        let n = l.len();
        let rest = ended(lines, i + 1);
        let head = l + seq!['\n'];
        assert(s =~= head + rest);
        assert forall|k: int| 0 <= k < n implies #[trigger] s[k] != '\n' by {
            assert(s[k] == l[k]);
        }
        assert(s[n as int] == '\n');
        lemma_line_end_at(s, 0, n);
        assert(s.subrange(0, n as int) =~= l);
        lemma_lines_round_trip(lines, i + 1);
        lemma_lines_shift(head, rest, 0);
        assert(lines.skip(i as int) =~= seq![l] + lines.skip(i as int + 1));
    }
}

/// Fields that are words make a line.
pub proof fn lemma_fields_make_a_line(fields: Seq<Seq<char>>, i: nat)
    requires
        i <= fields.len(),
        forall|k: int| 0 <= k < fields.len() ==> is_word(#[trigger] fields[k]),
    ensures
        is_line(spaced(fields, i)),
        i < fields.len() ==> spaced(fields, i).len() > 0,
    decreases fields.len() - i,
{
    if i < fields.len() {
        let w = fields[i as int];
        assert(is_word(w));
        let s = spaced(fields, i);
        assert(white_space('\n') && white_space('\r'));
        if i + 1 == fields.len() {
            assert(!white_space(w[w.len() - 1]));
        } else {
            lemma_fields_make_a_line(fields, i + 1);
            let rest = spaced(fields, i + 1);
            assert forall|k: int| 0 <= k < s.len() implies #[trigger] s[k] != '\n' by {
                if k < w.len() {
                    assert(s[k] == w[k]);
                } else if k > w.len() {
                    assert(s[k] == rest[k - w.len() - 1]);
                }
            }
            assert(s.last() == rest.last());
        }
    }
}

} // verus!
