//! Text as sequences of characters: splitting, trimming and number parsing.
use vstd::prelude::*;

verus! {

/// Appends a character, as the documentation of `String::push` says.
pub assume_specification[ String::push ](s: &mut String, ch: char)
    ensures
        final(s)@ == old(s)@.push(ch),
;

/// A text in lower case, as `str::to_lowercase` gives it.
pub uninterp spec fn lowercased(text: Seq<char>) -> Seq<char>;

/// Calls `str::to_lowercase`, and claims that the result depends on the text
/// alone.
#[verifier::external_body]
pub(crate) fn to_lowercase(text: &str) -> (r: String)
    ensures
        r@ == lowercased(text@),
{
    text.to_lowercase()
}

/// The characters with the Unicode property `White_Space`.
pub open spec fn is_space(c: char) -> bool {
    ||| '\u{9}' <= c <= '\u{d}'
    ||| c == '\u{20}'
    ||| c == '\u{85}'
    ||| c == '\u{a0}'
    ||| c == '\u{1680}'
    ||| '\u{2000}' <= c <= '\u{200a}'
    ||| c == '\u{2028}'
    ||| c == '\u{2029}'
    ||| c == '\u{202f}'
    ||| c == '\u{205f}'
    ||| c == '\u{3000}'
}

/// Whether a character is white space.
pub fn is_space_char(c: char) -> (b: bool)
    ensures
        b == is_space(c),
{
    ('\u{9}' <= c && c <= '\u{d}') || c == '\u{20}' || c == '\u{85}' || c == '\u{a0}' || c
        == '\u{1680}' || ('\u{2000}' <= c && c <= '\u{200a}') || c == '\u{2028}' || c == '\u{2029}'
        || c == '\u{202f}' || c == '\u{205f}' || c == '\u{3000}'
}

/// The text without the white space at its start.
pub open spec fn trimmed_start(s: Seq<char>) -> Seq<char>
    decreases s.len(),
{
    if s.len() > 0 && is_space(s[0]) {
        trimmed_start(s.drop_first())
    } else {
        s
    }
}

/// The text without the white space at its end.
pub open spec fn trimmed_end(s: Seq<char>) -> Seq<char>
    decreases s.len(),
{
    if s.len() > 0 && is_space(s.last()) {
        trimmed_end(s.drop_last())
    } else {
        s
    }
}

/// The text without the white space at either end.
pub open spec fn trimmed(s: Seq<char>) -> Seq<char> {
    trimmed_end(trimmed_start(s))
}

/// The pieces of a text between the occurrences of a character. There is
/// always one more piece than there are occurrences.
pub open spec fn split_on(s: Seq<char>, separator: char) -> Seq<Seq<char>>
    decreases s.len(),
{
    if s.len() == 0 {
        seq![Seq::empty()]
    } else {
        let before = split_on(s.drop_last(), separator);
        if s.last() == separator {
            before.push(Seq::empty())
        } else {
            before.drop_last().push(before.last().push(s.last()))
        }
    }
}

/// A line without the carriage return that belongs to its ending.
pub open spec fn without_cr(s: Seq<char>) -> Seq<char> {
    if s.len() > 0 && s.last() == '\r' {
        s.drop_last()
    } else {
        s
    }
}

/// The lines of a text. A line ends with a line feed, or with a carriage
/// return and a line feed; the ending of the last line is optional.
pub open spec fn lines_of(s: Seq<char>) -> Seq<Seq<char>> {
    let pieces = split_on(s, '\n');
    let ended = pieces.drop_last().map_values(|p: Seq<char>| without_cr(p));
    if pieces.last().len() == 0 {
        ended
    } else {
        ended.push(pieces.last())
    }
}

/// Whether a text starts with another.
pub open spec fn starts_with(s: Seq<char>, prefix: Seq<char>) -> bool {
    prefix.len() <= s.len() && s.take(prefix.len() as int) == prefix
}

/// The views of a list of texts.
pub open spec fn views(texts: Seq<Vec<char>>) -> Seq<Seq<char>> {
    texts.map_values(|t: Vec<char>| t@)
}

/// The views of a list of strings.
pub open spec fn string_views(texts: Seq<String>) -> Seq<Seq<char>> {
    texts.map_values(|t: String| t@)
}

/// The values that are there, in order.
pub open spec fn somes<T>(values: Seq<Option<T>>) -> Seq<T>
    decreases values.len(),
{
    if values.len() == 0 {
        Seq::empty()
    } else {
        let before = somes(values.drop_last());
        match values.last() {
            Some(v) => before.push(v),
            None => before,
        }
    }
}

/// The characters of a string.
pub fn chars_of(s: &str) -> (chars: Vec<char>)
    ensures
        chars@ == s@,
{
    let mut chars: Vec<char> = Vec::new();
    for c in iter: s.chars()
        invariant
            chars@ == iter.seq().take(iter.index() as int),
            iter.seq() == s@,
    {
        chars.push(c);
    }
    assert(chars@ =~= s@);
    chars
}

/// The string with the given characters.
pub fn string_of(chars: &Vec<char>) -> (s: String)
    ensures
        s@ == chars@,
{
    let mut s: String = String::new();
    let mut i: usize = 0;
    while i < chars.len()
        invariant
            i <= chars@.len(),
            s@ =~= chars@.take(i as int),
        decreases chars@.len() - i,
    {
        s.push(chars[i]);
        i = i + 1;
    }
    assert(chars@.take(i as int) =~= chars@);
    s
}

/// The characters from `from` up to `to`.
pub fn slice_of(chars: &Vec<char>, from: usize, to: usize) -> (part: Vec<char>)
    requires
        from <= to <= chars@.len(),
    ensures
        part@ == chars@.subrange(from as int, to as int),
{
    let mut part: Vec<char> = Vec::new();
    let mut i: usize = from;
    while i < to
        invariant
            from <= i <= to <= chars@.len(),
            part@ =~= chars@.subrange(from as int, i as int),
        decreases to - i,
    {
        part.push(chars[i]);
        i = i + 1;
    }
    part
}

/// Whether a character occurs in a string.
pub fn has_char(s: &str, c: char) -> (b: bool)
    ensures
        b == s@.contains(c),
{
    let chars: Vec<char> = chars_of(s);
    let mut i: usize = 0;
    while i < chars.len()
        invariant
            i <= chars@.len(),
            chars@ == s@,
            forall|j: int| 0 <= j < i ==> chars@[j] != c,
        decreases chars@.len() - i,
    {
        if chars[i] == c {
            assert(s@[i as int] == c);
            return true;
        }
        i = i + 1;
    }
    false
}

/// Whether two texts are the same.
pub fn same_text(a: &Vec<char>, b: &Vec<char>) -> (same: bool)
    ensures
        same == (a@ == b@),
{
    if a.len() != b.len() {
        return false;
    }
    let mut i: usize = 0;
    while i < a.len()
        invariant
            i <= a@.len() == b@.len(),
            forall|j: int| 0 <= j < i ==> a@[j] == b@[j],
        decreases a@.len() - i,
    {
        if a[i] != b[i] {
            assert(a@[i as int] != b@[i as int]);
            return false;
        }
        i = i + 1;
    }
    assert(a@ =~= b@);
    true
}

/// Whether a string is the same as another.
pub fn same_str(a: &str, b: &str) -> (same: bool)
    ensures
        same == (a@ == b@),
{
    same_text(&chars_of(a), &chars_of(b))
}

/// Whether a text starts with another.
pub fn has_prefix(s: &Vec<char>, prefix: &Vec<char>) -> (b: bool)
    ensures
        b == starts_with(s@, prefix@),
{
    if prefix.len() > s.len() {
        return false;
    }
    let mut i: usize = 0;
    while i < prefix.len()
        invariant
            i <= prefix@.len() <= s@.len(),
            forall|j: int| 0 <= j < i ==> s@[j] == prefix@[j],
        decreases prefix@.len() - i,
    {
        if s[i] != prefix[i] {
            assert(s@.take(prefix@.len() as int)[i as int] != prefix@[i as int]);
            return false;
        }
        i = i + 1;
    }
    assert(s@.take(prefix@.len() as int) =~= prefix@);
    true
}

/// Removes the white space at either end of a text.
pub fn trim(s: &Vec<char>) -> (r: Vec<char>)
    ensures
        r@ == trimmed(s@),
{
    let mut from: usize = 0;
    assert(s@.skip(0) =~= s@);
    while from < s.len() && is_space_char(s[from])
        invariant
            from <= s@.len(),
            trimmed_start(s@.skip(from as int)) == trimmed_start(s@),
        decreases s@.len() - from,
    {
        assert(s@.skip(from as int).drop_first() =~= s@.skip(from + 1));
        from = from + 1;
    }
    let mut to: usize = s.len();
    assert(s@.skip(from as int) =~= s@.subrange(from as int, to as int));
    while to > from && is_space_char(s[to - 1])
        invariant
            from <= to <= s@.len(),
            trimmed_end(s@.subrange(from as int, to as int)) == trimmed(s@),
        decreases to,
    {
        assert(s@.subrange(from as int, to as int).drop_last() =~= s@.subrange(
            from as int,
            to - 1,
        ));
        assert(s@.subrange(from as int, to as int).last() == s@[to - 1]);
        to = to - 1;
    }
    assert(to > from ==> s@.subrange(from as int, to as int).last() == s@[to - 1]);
    slice_of(s, from, to)
}

/// Splits a text at every occurrence of a character.
pub fn split(s: &Vec<char>, separator: char) -> (pieces: Vec<Vec<char>>)
    ensures
        views(pieces@) == split_on(s@, separator),
        pieces@.len() >= 1,
{
    let mut pieces: Vec<Vec<char>> = Vec::new();
    let mut piece: Vec<char> = Vec::new();
    let mut i: usize = 0;
    assert(views(pieces@).push(piece@) =~= split_on(s@.take(0), separator));
    while i < s.len()
        invariant
            i <= s@.len(),
            views(pieces@).push(piece@) == split_on(s@.take(i as int), separator),
        decreases s@.len() - i,
    {
        let c: char = s[i];
        let ghost before: Seq<Seq<char>> = views(pieces@).push(piece@);
        assert(s@.take(i + 1).drop_last() =~= s@.take(i as int));
        assert(s@.take(i + 1).last() == c);
        assert(before.drop_last() =~= views(pieces@));
        if c == separator {
            pieces.push(piece);
            piece = Vec::new();
            assert(views(pieces@) =~= before);
            assert(piece@ =~= Seq::<char>::empty());
        } else {
            piece.push(c);
        }
        i = i + 1;
    }
    assert(s@.take(i as int) =~= s@);
    let ghost before: Seq<Seq<char>> = views(pieces@).push(piece@);
    pieces.push(piece);
    assert(views(pieces@) =~= before);
    pieces
}

/// Splits a text into its lines.
pub fn lines(s: &Vec<char>) -> (r: Vec<Vec<char>>)
    ensures
        views(r@) == lines_of(s@),
{
    let pieces: Vec<Vec<char>> = split(s, '\n');
    let ghost parts: Seq<Seq<char>> = split_on(s@, '\n');
    let ghost ended: Seq<Seq<char>> = parts.drop_last().map_values(|p: Seq<char>| without_cr(p));
    let mut r: Vec<Vec<char>> = Vec::new();
    let mut i: usize = 0;
    while i < pieces.len() - 1
        invariant
            i < pieces@.len(),
            views(pieces@) == parts,
            ended == parts.drop_last().map_values(|p: Seq<char>| without_cr(p)),
            views(r@) =~= ended.take(i as int),
        decreases pieces@.len() - i,
    {
        let n: usize = pieces[i].len();
        assert(parts[i as int] == pieces@[i as int]@);
        let line: Vec<char> = if n > 0 && pieces[i][n - 1] == '\r' {
            slice_of(&pieces[i], 0, n - 1)
        } else {
            slice_of(&pieces[i], 0, n)
        };
        assert(line@ =~= without_cr(parts[i as int]));
        let ghost before: Seq<Vec<char>> = r@;
        r.push(line);
        assert(views(r@) =~= views(before).push(line@));
        i = i + 1;
    }
    assert(views(r@) =~= ended);
    let n: usize = pieces[i].len();
    assert(parts.last() == pieces@[i as int]@);
    if n > 0 {
        let line: Vec<char> = slice_of(&pieces[i], 0, n);
        assert(line@ =~= parts.last());
        let ghost before: Seq<Vec<char>> = r@;
        r.push(line);
        assert(views(r@) =~= views(before).push(line@));
    }
    r
}

/// Keeps the values that are there.
pub fn keep_somes<T: Copy>(values: &Vec<Option<T>>) -> (r: Vec<T>)
    ensures
        r@ == somes(values@),
{
    let mut r: Vec<T> = Vec::new();
    let mut i: usize = 0;
    assert(values@.take(0) =~= Seq::<Option<T>>::empty());
    while i < values.len()
        invariant
            i <= values@.len(),
            r@ =~= somes(values@.take(i as int)),
        decreases values@.len() - i,
    {
        assert(values@.take(i + 1).drop_last() =~= values@.take(i as int));
        assert(values@.take(i + 1).last() == values@[i as int]);
        if let Some(v) = values[i] {
            r.push(v);
        }
        i = i + 1;
    }
    assert(values@.take(i as int) =~= values@);
    r
}

/// The value of a character as a decimal digit.
pub open spec fn digit_value(c: char) -> int {
    c as int - '0' as int
}

pub open spec fn is_digit(c: char) -> bool {
    '0' <= c <= '9'
}

/// Whether every character is a decimal digit.
pub open spec fn all_digits(s: Seq<char>) -> bool {
    forall|i: int| 0 <= i < s.len() ==> is_digit(#[trigger] s[i])
}

/// The number that decimal digits spell.
pub open spec fn decimal_value(s: Seq<char>) -> int
    decreases s.len(),
{
    if s.len() == 0 {
        0
    } else {
        decimal_value(s.drop_last()) * 10 + digit_value(s.last())
    }
}

/// The digits of a number that may start with a plus sign.
pub open spec fn unsigned_digits(s: Seq<char>) -> Seq<char> {
    if s.len() > 0 && s[0] == '+' {
        s.drop_first()
    } else {
        s
    }
}

/// The number between 0 and `max` that a text spells: at least one decimal
/// digit, with a plus sign allowed before it.
pub open spec fn unsigned_of(s: Seq<char>, max: int) -> Option<int> {
    let digits = unsigned_digits(s);
    if digits.len() > 0 && all_digits(digits) && decimal_value(digits) <= max {
        Some(decimal_value(digits))
    } else {
        None
    }
}

proof fn lemma_decimal_value_grows(s: Seq<char>, n: int)
    requires
        0 <= n <= s.len(),
        all_digits(s),
    ensures
        0 <= decimal_value(s.take(n)) <= decimal_value(s),
    decreases s.len() - n, s.len(),
{
    if n == s.len() {
        assert(s.take(n) =~= s);
        if n > 0 {
            assert(is_digit(s[n - 1]));
            assert(s.drop_last().take(n - 1) =~= s.drop_last());
            assert(all_digits(s.drop_last()));
            lemma_decimal_value_grows(s.drop_last(), n - 1);
        }
    } else {
        lemma_decimal_value_grows(s, n + 1);
        assert(s.take(n + 1).drop_last() =~= s.take(n));
        assert(s.take(n + 1).last() == s[n]);
        assert(is_digit(s[n]));
        assert(all_digits(s.take(n)));
        assert(s.take(n).take(n) =~= s.take(n));
        lemma_decimal_value_grows(s.take(n), n);
    }
}

/// Reads a number between 0 and `max`.
pub fn parse_unsigned(s: &Vec<char>, max: u64) -> (r: Option<u64>)
    ensures
        match r {
            Some(v) => unsigned_of(s@, max as int) == Some(v as int),
            None => unsigned_of(s@, max as int) is None,
        },
{
    let start: usize = if s.len() > 0 && s[0] == '+' { 1 } else { 0 };
    let ghost digits: Seq<char> = unsigned_digits(s@);
    assert(digits =~= s@.skip(start as int));
    if start == s.len() {
        return None;
    }
    let mut value: u128 = 0;
    let mut i: usize = start;
    assert(decimal_value(digits.take(0)) == 0);
    while i < s.len()
        invariant
            start <= i <= s@.len(),
            digits == unsigned_digits(s@),
            digits =~= s@.skip(start as int),
            digits.len() > 0,
            all_digits(digits.take(i - start)),
            value == decimal_value(digits.take(i - start)),
            value <= max,
        decreases s@.len() - i,
    {
        let c: char = s[i];
        let ghost k: int = i - start;
        assert(digits[k] == c);
        if c < '0' || c > '9' {
            assert(!is_digit(digits[k]));
            return None;
        }
        let digit: u32 = c as u32 - '0' as u32;
        value = value * 10 + digit as u128;
        proof {
            assert(digits.take(k + 1).drop_last() =~= digits.take(k));
            assert(digits.take(k + 1).last() == c);
            assert forall|j: int| 0 <= j < k + 1 implies is_digit(
                #[trigger] digits.take(k + 1)[j],
            ) by {
                if j < k {
                    assert(is_digit(digits.take(k)[j]));
                }
            }
        }
        if value > max as u128 {
            proof {
                if all_digits(digits) {
                    lemma_decimal_value_grows(digits, k + 1);
                }
            }
            return None;
        }
        i = i + 1;
    }
    assert(digits.take(i - start) =~= digits);
    Some(value as u64)
}

/// The character of a decimal digit.
pub open spec fn digit_char(digit: int) -> char {
    ('0' as int + digit) as char
}

/// A number in decimal digits.
pub open spec fn decimal_text(n: nat) -> Seq<char>
    decreases n,
{
    if n < 10 {
        seq![digit_char(n as int)]
    } else {
        decimal_text(n / 10).push(digit_char((n % 10) as int))
    }
}

/// A number in decimal digits gives the number back.
pub proof fn decimal_text_reads_back(n: nat, max: nat)
    requires
        n <= max,
    ensures
        decimal_text(n).len() > 0,
        all_digits(decimal_text(n)),
        unsigned_of(decimal_text(n), max as int) == Some(n as int),
{
    lemma_decimal_text(n);
    assert(is_digit(decimal_text(n)[0]));
}

proof fn lemma_decimal_text(n: nat)
    ensures
        decimal_text(n).len() > 0,
        all_digits(decimal_text(n)),
        decimal_value(decimal_text(n)) == n,
    decreases n,
{
    let text = decimal_text(n);
    if n < 10 {
        assert(text.drop_last() =~= Seq::empty());
        assert(decimal_value(text.drop_last()) == 0);
    } else {
        lemma_decimal_text(n / 10);
        let before = decimal_text(n / 10);
        assert(text.drop_last() =~= before);
        assert forall|i: int| 0 <= i < text.len() implies is_digit(#[trigger] text[i]) by {
            if i < before.len() {
                assert(is_digit(before[i]));
            }
        }
    }
}

/// Whether every character is white space.
pub open spec fn all_spaces(s: Seq<char>) -> bool {
    forall|i: int| 0 <= i < s.len() ==> is_space(#[trigger] s[i])
}

/// White space round a text that has none at its ends is trimmed off, and
/// nothing else.
pub proof fn trimming_undoes_padding(left: Seq<char>, s: Seq<char>, right: Seq<char>)
    requires
        all_spaces(left),
        all_spaces(right),
        s.len() > 0,
        !is_space(s[0]),
        !is_space(s.last()),
    ensures
        trimmed(left + s + right) == s,
{
    lemma_padded_start(left, s + right);
    assert(left + (s + right) =~= left + s + right);
    lemma_padded_end(s, right);
}

proof fn lemma_padded_start(left: Seq<char>, s: Seq<char>)
    requires
        all_spaces(left),
        s.len() > 0,
        !is_space(s[0]),
    ensures
        trimmed_start(left + s) == s,
    decreases left.len(),
{
    if left.len() == 0 {
        assert(left + s =~= s);
    } else {
        assert(is_space(left[0]));
        assert((left + s).drop_first() =~= left.drop_first() + s);
        assert forall|i: int| 0 <= i < left.len() - 1 implies is_space(
            #[trigger] left.drop_first()[i],
        ) by {
            assert(is_space(left[i + 1]));
        }
        lemma_padded_start(left.drop_first(), s);
    }
}

proof fn lemma_padded_end(s: Seq<char>, right: Seq<char>)
    requires
        all_spaces(right),
        s.len() > 0,
        !is_space(s.last()),
    ensures
        trimmed_end(s + right) == s,
    decreases right.len(),
{
    if right.len() == 0 {
        assert(s + right =~= s);
    } else {
        assert(is_space(right[right.len() - 1]));
        assert((s + right).drop_last() =~= s + right.drop_last());
        assert forall|i: int| 0 <= i < right.len() - 1 implies is_space(
            #[trigger] right.drop_last()[i],
        ) by {
            assert(is_space(right[i]));
        }
        lemma_padded_end(s, right.drop_last());
    }
}

/// The marks and letters of ASCII that can be seen are no space; blanks, tabs
/// and line ends are.
pub proof fn visible_marks_are_no_space(c: char)
    ensures
        '!' <= c <= '~' ==> !is_space(c),
        c == ' ' || c == '\t' || c == '\n' || c == '\r' ==> is_space(c),
{
}

/// Trimming takes space alone, from either end, and leaves none there.
pub proof fn trimming_takes_the_outer_space(s: Seq<char>)
    ensures
        exists|left: Seq<char>, right: Seq<char>|
            all_spaces(left) && all_spaces(right) && s == #[trigger] (left + trimmed(s) + right),
        trimmed(s).len() > 0 ==> !is_space(trimmed(s)[0]) && !is_space(trimmed(s).last()),
{
    lemma_trimmed_start(s);
    let middle: Seq<char> = trimmed_start(s);
    lemma_trimmed_end(middle);
    let left: Seq<char> = s.take(s.len() - middle.len());
    let right: Seq<char> = middle.skip(trimmed(s).len() as int);
    assert(s =~= left + middle);
    assert(middle =~= trimmed(s) + right);
    assert(s =~= left + trimmed(s) + right);
    if trimmed(s).len() > 0 {
        assert(trimmed(s)[0] == middle[0]);
    }
}

/// What is trimmed from the start is space.
proof fn lemma_trimmed_start(s: Seq<char>)
    ensures
        trimmed_start(s).len() <= s.len(),
        trimmed_start(s) == s.skip(s.len() - trimmed_start(s).len()),
        all_spaces(s.take(s.len() - trimmed_start(s).len())),
        trimmed_start(s).len() > 0 ==> !is_space(trimmed_start(s)[0]),
    decreases s.len(),
{
    if s.len() > 0 && is_space(s[0]) {
        let rest: Seq<char> = s.drop_first();
        lemma_trimmed_start(rest);
        let n: int = rest.len() - trimmed_start(rest).len();
        assert(rest.skip(n) =~= s.skip(n + 1));
        assert forall|i: int| 0 <= i < n + 1 implies is_space(#[trigger] s.take(n + 1)[i]) by {
            if i > 0 {
                assert(rest.take(n)[i - 1] == s[i]);
            }
        }
    } else {
        assert(s.skip(0) =~= s);
    }
}

/// What is trimmed from the end is space.
proof fn lemma_trimmed_end(s: Seq<char>)
    ensures
        trimmed_end(s).len() <= s.len(),
        trimmed_end(s) == s.take(trimmed_end(s).len() as int),
        all_spaces(s.skip(trimmed_end(s).len() as int)),
        trimmed_end(s).len() > 0 ==> !is_space(trimmed_end(s).last()),
    decreases s.len(),
{
    if s.len() > 0 && is_space(s.last()) {
        let rest: Seq<char> = s.drop_last();
        lemma_trimmed_end(rest);
        let n: int = trimmed_end(rest).len() as int;
        assert(rest.take(n) =~= s.take(n));
        assert forall|i: int| 0 <= i < s.len() - n implies is_space(#[trigger] s.skip(n)[i]) by {
            if i < rest.len() - n {
                assert(rest.skip(n)[i] == s[n + i]);
            }
        }
    } else {
        assert(s.take(s.len() as int) =~= s);
    }
}

/// Pieces put together, with a separator between each two.
pub open spec fn joined(pieces: Seq<Seq<char>>, separator: char) -> Seq<char>
    decreases pieces.len(),
{
    if pieces.len() == 0 {
        Seq::empty()
    } else if pieces.len() == 1 {
        pieces[0]
    } else {
        joined(pieces.drop_last(), separator).push(separator) + pieces.last()
    }
}

/// Splitting cuts at every separator and nowhere else: there is at least one
/// piece, none has the separator in it, and put together they are the text.
pub proof fn splitting_cuts_at_separators(s: Seq<char>, separator: char)
    ensures
        split_on(s, separator).len() >= 1,
        forall|i: int|
            0 <= i < split_on(s, separator).len() ==> !(
            #[trigger] split_on(s, separator)[i]).contains(separator),
        joined(split_on(s, separator), separator) == s,
    decreases s.len(),
{
    if s.len() == 0 {
        assert(joined(split_on(s, separator), separator) =~= s);
    } else {
        let before: Seq<Seq<char>> = split_on(s.drop_last(), separator);
        let pieces: Seq<Seq<char>> = split_on(s, separator);
        splitting_cuts_at_separators(s.drop_last(), separator);
        if s.last() == separator {
            assert(pieces.drop_last() =~= before);
            assert(joined(pieces, separator) =~= s);
        } else {
            let grown: Seq<char> = before.last().push(s.last());
            assert(!grown.contains(separator)) by {
                assert forall|k: int| 0 <= k < grown.len() implies grown[k] != separator by {
                    if k < before.last().len() {
                        assert(grown[k] == before.last()[k]);
                        assert(!before[before.len() - 1].contains(separator));
                        if grown[k] == separator {
                            assert(before.last().contains(separator));
                        }
                    }
                }
            }
            assert(pieces.drop_last() =~= before.drop_last());
            assert forall|i: int| 0 <= i < pieces.len() implies !(#[trigger] pieces[i]).contains(
                separator,
            ) by {
                if i < pieces.len() - 1 {
                    assert(pieces[i] == before[i]);
                }
            }
            assert(joined(before, separator).push(s.last()) =~= s);
            if before.len() > 1 {
                let front: Seq<char> = joined(before.drop_last(), separator).push(separator);
                assert(front + grown =~= (front + before.last()).push(s.last()));
            }
        }
    }
}

/// A separator parts the pieces before it from those behind it.
proof fn lemma_split_at(a: Seq<char>, separator: char, b: Seq<char>)
    ensures
        split_on(a.push(separator) + b, separator) == split_on(a, separator) + split_on(
            b,
            separator,
        ),
        split_on(b, separator).len() >= 1,
    decreases b.len(),
{
    let whole: Seq<char> = a.push(separator) + b;
    if b.len() == 0 {
        assert(whole =~= a.push(separator));
        assert(whole.drop_last() =~= a);
        assert(split_on(whole, separator) =~= split_on(a, separator) + split_on(b, separator));
    } else {
        lemma_split_at(a, separator, b.drop_last());
        assert(whole.drop_last() =~= a.push(separator) + b.drop_last());
        let before: Seq<Seq<char>> = split_on(b.drop_last(), separator);
        let all: Seq<Seq<char>> = split_on(a, separator) + before;
        assert(all.last() == before.last());
        assert(all.drop_last() =~= split_on(a, separator) + before.drop_last());
        assert(split_on(whole, separator) =~= split_on(a, separator) + split_on(b, separator));
    }
}

/// A text without the separator is one piece.
proof fn lemma_one_piece(s: Seq<char>, separator: char)
    requires
        !s.contains(separator),
    ensures
        split_on(s, separator) == seq![s],
    decreases s.len(),
{
    if s.len() > 0 {
        assert(s[s.len() - 1] == s.last());
        assert(!s.drop_last().contains(separator)) by {
            if s.drop_last().contains(separator) {
                let i = choose|i: int|
                    0 <= i < s.drop_last().len() && s.drop_last()[i] == separator;
                assert(s[i] == separator);
            }
        }
        lemma_one_piece(s.drop_last(), separator);
        assert(s.drop_last().push(s.last()) =~= s);
        assert(split_on(s, separator) =~= seq![s]);
    } else {
        assert(s =~= Seq::<char>::empty());
        assert(split_on(s, separator) =~= seq![s]);
    }
}

/// A line ends at a line feed, with or without a carriage return before it, or
/// at the end of the text. The line is what stands before that, and the other
/// lines are those of what follows.
pub proof fn lines_end_at_line_feeds(line: Seq<char>, rest: Seq<char>)
    requires
        !line.contains('\n'),
        line.len() > 0 ==> line.last() != '\r',
    ensures
        lines_of(line.push('\n') + rest) == seq![line] + lines_of(rest),
        lines_of(line.push('\r').push('\n') + rest) == seq![line] + lines_of(rest),
        line.len() > 0 ==> lines_of(line) == seq![line],
        lines_of(Seq::<char>::empty()) == Seq::<Seq<char>>::empty(),
{
    let returned: Seq<char> = line.push('\r');
    assert(!returned.contains('\n')) by {
        if returned.contains('\n') {
            let i = choose|i: int| 0 <= i < returned.len() && returned[i] == '\n';
            assert(line[i] == '\n');
        }
    }
    lemma_one_piece(line, '\n');
    lemma_one_piece(returned, '\n');
    lemma_first_line(line, rest);
    lemma_first_line(returned, rest);
    assert(returned.drop_last() =~= line);
    lemma_one_piece(Seq::<char>::empty(), '\n');
    assert(lines_of(Seq::<char>::empty()) =~= Seq::<Seq<char>>::empty());
    if line.len() > 0 {
        assert(lines_of(line) =~= seq![line]);
    }
}

/// What stands before the first line feed is the first line.
proof fn lemma_first_line(line: Seq<char>, rest: Seq<char>)
    requires
        split_on(line, '\n') == seq![line],
    ensures
        lines_of(line.push('\n') + rest) == seq![without_cr(line)] + lines_of(rest),
{
    lemma_split_at(line, '\n', rest);
    let pieces: Seq<Seq<char>> = split_on(line.push('\n') + rest, '\n');
    let others: Seq<Seq<char>> = split_on(rest, '\n');
    assert(pieces == seq![line] + others);
    assert(pieces.last() == others.last());
    assert(pieces.drop_last() =~= seq![line] + others.drop_last());
    assert(pieces.drop_last().map_values(|p: Seq<char>| without_cr(p)) =~= seq![without_cr(line)]
        + others.drop_last().map_values(|p: Seq<char>| without_cr(p)));
    assert(lines_of(line.push('\n') + rest) =~= seq![without_cr(line)] + lines_of(rest));
}

/// A text starts with another if and only if it is the other with something
/// behind it.
pub proof fn prefix_comes_first(s: Seq<char>, prefix: Seq<char>)
    ensures
        starts_with(s, prefix) <==> exists|rest: Seq<char>| s == #[trigger] (prefix + rest),
{
    if starts_with(s, prefix) {
        let rest: Seq<char> = s.skip(prefix.len() as int);
        assert(s =~= prefix + rest);
    }
    if exists|rest: Seq<char>| s == #[trigger] (prefix + rest) {
        let rest = choose|rest: Seq<char>| s == #[trigger] (prefix + rest);
        assert((prefix + rest).take(prefix.len() as int) =~= prefix);
    }
}

/// Whether `places` are those at which there is a value, in ascending order.
pub open spec fn are_full_places<T>(places: Seq<int>, values: Seq<Option<T>>) -> bool {
    &&& forall|i: int|
        0 <= i < places.len() ==> 0 <= #[trigger] places[i] < values.len() && values[places[i]]
            is Some
    &&& forall|i: int, j: int|
        0 <= i < j < places.len() ==> #[trigger] places[i] < #[trigger] places[j]
    &&& forall|p: int|
        0 <= p < values.len() && (#[trigger] values[p]) is Some ==> places.contains(p)
}

/// What is kept are the values there are, each once and in order.
pub proof fn values_are_kept_in_order<T>(values: Seq<Option<T>>)
    ensures
        exists|places: Seq<int>| #[trigger]
            are_full_places(places, values) && somes(values) == places.map_values(
                |p: int| values[p]->0,
            ),
    decreases values.len(),
{
    if values.len() == 0 {
        let places: Seq<int> = Seq::empty();
        assert(are_full_places(places, values));
        assert(somes(values) =~= places.map_values(|p: int| values[p]->0));
    } else {
        let before: Seq<Option<T>> = values.drop_last();
        values_are_kept_in_order(before);
        let earlier = choose|places: Seq<int>| #[trigger]
            are_full_places(places, before) && somes(before) == places.map_values(
                |p: int| before[p]->0,
            );
        let last: int = values.len() - 1;
        let places: Seq<int> = if values.last() is Some {
            earlier.push(last)
        } else {
            earlier
        };
        assert forall|p: int| 0 <= p < values.len() && (#[trigger] values[p]) is Some implies
            places.contains(p) by {
            if p < last {
                assert(before[p] is Some);
                let i = choose|i: int| 0 <= i < earlier.len() && earlier[i] == p;
                assert(places[i] == p);
            } else {
                assert(places[places.len() - 1] == p);
            }
        }
        assert(are_full_places(places, values));
        assert(somes(values) =~= places.map_values(|p: int| values[p]->0));
    }
}

/// Digits count by their places: each further digit makes the others count ten
/// times as much.
pub proof fn digits_count_by_place(s: Seq<char>, c: char)
    ensures
        decimal_value(Seq::<char>::empty()) == 0,
        decimal_value(s.push(c)) == 10 * decimal_value(s) + (c as int - 48),
        is_digit(c) <==> 0 <= c as int - 48 <= 9,
{
    assert(s.push(c).drop_last() =~= s);
}

/// A number is read off digits, with or without one plus before them, and off
/// nothing else, and no number above the limit is.
pub proof fn numbers_are_read_off_digits(s: Seq<char>, max: nat)
    requires
        s.len() > 0 ==> s[0] != '+',
    ensures
        unsigned_of(seq!['+'] + s, max as int) == unsigned_of(s, max as int),
        unsigned_of(s, max as int) is Some <==> s.len() > 0 && (forall|i: int|
            0 <= i < s.len() ==> '0' <= #[trigger] s[i] <= '9') && decimal_value(s) <= max,
        unsigned_of(s, max as int) matches Some(n) ==> n == decimal_value(s),
{
    assert((seq!['+'] + s).drop_first() =~= s);
}

/// A number that is read is between zero and the limit.
pub proof fn numbers_keep_to_the_limit(s: Seq<char>, max: nat)
    ensures
        unsigned_of(s, max as int) matches Some(n) ==> 0 <= n <= max,
{
    if unsigned_of(s, max as int) is Some {
        lemma_decimal_value_grows(unsigned_digits(s), 0);
    }
}

/// The spaces are the characters that Unicode calls white, by their numbers.
pub proof fn spaces_are_the_white_characters(c: char)
    ensures
        is_space(c) <==> {
            let n = c as int;
            ||| 9 <= n <= 13
            ||| n == 32 || n == 133 || n == 160 || n == 5760
            ||| 8192 <= n <= 8202
            ||| n == 8232 || n == 8233 || n == 8239 || n == 8287 || n == 12288
        },
{
}

} // verus!
