//! The grammar of the text lines that peers exchange: words separated by
//! white space, a prefix set off by a colon, and lines with white space
//! around them.

use vstd::prelude::*;
use vstd::string::StrSliceExecFns;
use vstd::string::StringExecFns;

verus! {

/// Unicode's white-space characters.
pub open spec fn is_space(c: char) -> bool {
    ||| c == ' '
    ||| '\u{9}' <= c <= '\u{d}'
    ||| c == '\u{85}'
    ||| c == '\u{a0}'
    ||| c == '\u{1680}'
    ||| '\u{2000}' <= c <= '\u{200a}'
    ||| c == '\u{2028}'
    ||| c == '\u{2029}'
    ||| c == '\u{202f}'
    ||| c == '\u{205f}'
    ||| c == '\u{3000}'
}

/// The number of white-space characters that `s` begins with.
pub open spec fn leading_spaces(s: Seq<char>) -> nat
    decreases s.len(),
{
    if s.len() > 0 && is_space(s[0]) {
        1 + leading_spaces(s.skip(1))
    } else {
        0
    }
}

/// The number of white-space characters that `s` ends with.
pub open spec fn trailing_spaces(s: Seq<char>) -> nat
    decreases s.len(),
{
    if s.len() > 0 && is_space(s.last()) {
        1 + trailing_spaces(s.drop_last())
    } else {
        0
    }
}

/// The number of characters other than white space that `s` begins with.
pub open spec fn word_len(s: Seq<char>) -> nat
    decreases s.len(),
{
    if s.len() > 0 && !is_space(s[0]) {
        1 + word_len(s.skip(1))
    } else {
        0
    }
}

/// The number of characters other than `sep` that `s` begins with.
pub open spec fn field_len(s: Seq<char>, sep: char) -> nat
    decreases s.len(),
{
    if s.len() > 0 && s[0] != sep {
        1 + field_len(s.skip(1), sep)
    } else {
        0
    }
}

/// `s` without the white space at its two ends.
pub open spec fn trimmed(s: Seq<char>) -> Seq<char> {
    let t = s.skip(leading_spaces(s) as int);
    t.take(t.len() - trailing_spaces(t))
}

/// The first word of `s`: what stands between its leading white space and
/// the next white space or the end. It is empty where `s` has no word.
pub open spec fn first_word(s: Seq<char>) -> Seq<char> {
    let t = s.skip(leading_spaces(s) as int);
    t.take(word_len(t) as int)
}

/// What follows the first word of `s`.
pub open spec fn after_first_word(s: Seq<char>) -> Seq<char> {
    let t = s.skip(leading_spaces(s) as int);
    t.skip(word_len(t) as int)
}

/// The second word of `s`; empty where it has none.
pub open spec fn second_word(s: Seq<char>) -> Seq<char> {
    first_word(after_first_word(s))
}

/// What stands before the first `sep` in `s`; all of `s` where it holds none.
pub open spec fn first_field(s: Seq<char>, sep: char) -> Seq<char> {
    s.take(field_len(s, sep) as int)
}

/// What stands between the first `sep` in `s` and the next one, or the end;
/// `None` where `s` holds no `sep`.
pub open spec fn second_field(s: Seq<char>, sep: char) -> Option<Seq<char>> {
    if field_len(s, sep) == s.len() {
        None
    } else {
        Some(first_field(s.skip(field_len(s, sep) as int + 1), sep))
    }
}

/// Whether a text is a word: it is not empty and holds no white space.
pub open spec fn is_word(w: Seq<char>) -> bool {
    w.len() > 0 && forall|i: int| 0 <= i < w.len() ==> !is_space(#[trigger] w[i])
}

/// Whether a text holds no `sep`.
pub open spec fn free_of(w: Seq<char>, sep: char) -> bool {
    forall|i: int| 0 <= i < w.len() ==> #[trigger] w[i] != sep
}

/// White space before what is none counts in full as leading white space.
pub proof fn lemma_leading_spaces_prefix(spaces: Seq<char>, rest: Seq<char>)
    requires
        forall|i: int| 0 <= i < spaces.len() ==> is_space(#[trigger] spaces[i]),
        rest.len() == 0 || !is_space(rest[0]),
    ensures
        leading_spaces(spaces + rest) == spaces.len(),
    decreases spaces.len(),
{
    if spaces.len() == 0 {
        assert(spaces + rest =~= rest);
    } else {
        assert((spaces + rest).skip(1) =~= spaces.skip(1) + rest);
        assert(is_space(spaces[0]));
        assert forall|i: int| 0 <= i < spaces.skip(1).len() implies is_space(
            #[trigger] spaces.skip(1)[i],
        ) by {
            assert(spaces.skip(1)[i] == spaces[i + 1]);
        }
        lemma_leading_spaces_prefix(spaces.skip(1), rest);
    }
}

/// White space after what is none counts in full as trailing white space.
pub proof fn lemma_trailing_spaces_suffix(body: Seq<char>, spaces: Seq<char>)
    requires
        forall|i: int| 0 <= i < spaces.len() ==> is_space(#[trigger] spaces[i]),
        body.len() == 0 || !is_space(body.last()),
    ensures
        trailing_spaces(body + spaces) == spaces.len(),
    decreases spaces.len(),
{
    if spaces.len() == 0 {
        assert(body + spaces =~= body);
    } else {
        assert((body + spaces).drop_last() =~= body + spaces.drop_last());
        assert(is_space(spaces.last()));
        assert forall|i: int| 0 <= i < spaces.drop_last().len() implies is_space(
            #[trigger] spaces.drop_last()[i],
        ) by {
            assert(spaces.drop_last()[i] == spaces[i]);
        }
        lemma_trailing_spaces_suffix(body, spaces.drop_last());
    }
}

/// Characters that are no white space, before white space or the end, are a word.
pub proof fn lemma_word_len_prefix(word: Seq<char>, rest: Seq<char>)
    requires
        forall|i: int| 0 <= i < word.len() ==> !is_space(#[trigger] word[i]),
        rest.len() == 0 || is_space(rest[0]),
    ensures
        word_len(word + rest) == word.len(),
    decreases word.len(),
{
    if word.len() == 0 {
        assert(word + rest =~= rest);
    } else {
        assert((word + rest).skip(1) =~= word.skip(1) + rest);
        assert(!is_space(word[0]));
        assert forall|i: int| 0 <= i < word.skip(1).len() implies !is_space(
            #[trigger] word.skip(1)[i],
        ) by {
            assert(word.skip(1)[i] == word[i + 1]);
        }
        lemma_word_len_prefix(word.skip(1), rest);
    }
}

/// Characters other than `sep`, before a `sep` or the end, are a field.
pub proof fn lemma_field_len_prefix(field: Seq<char>, rest: Seq<char>, sep: char)
    requires
        free_of(field, sep),
        rest.len() == 0 || rest[0] == sep,
    ensures
        field_len(field + rest, sep) == field.len(),
    decreases field.len(),
{
    if field.len() == 0 {
        assert(field + rest =~= rest);
    } else {
        assert((field + rest).skip(1) =~= field.skip(1) + rest);
        assert(field[0] != sep);
        assert forall|i: int| 0 <= i < field.skip(1).len() implies #[trigger] field.skip(1)[i]
            != sep by {
            assert(field.skip(1)[i] == field[i + 1]);
        }
        lemma_field_len_prefix(field.skip(1), rest, sep);
    }
}

/// A line of two words, one space between them, and white space or nothing
/// after them has those two words.
pub proof fn lemma_words_of_pair(first: Seq<char>, second: Seq<char>, tail: Seq<char>)
    requires
        is_word(first),
        is_word(second),
        tail.len() == 0 || is_space(tail[0]),
    ensures
        first_word(first + seq![' '] + second + tail) == first,
        second_word(first + seq![' '] + second + tail) == second,
{
    let line = first + seq![' '] + second + tail;
    let after = seq![' '] + second + tail;
    assert(line =~= first + after);
    assert(!is_space(line[0])) by {
        assert(line[0] == first[0]);
    }
    assert(line.skip(0) =~= line);
    lemma_word_len_prefix(first, after);
    assert(line.take(first.len() as int) =~= first);
    assert(line.skip(first.len() as int) =~= after);
    let rest = second + tail;
    assert(after =~= seq![' '] + rest);
    assert(!is_space(rest[0])) by {
        assert(rest[0] == second[0]);
    }
    lemma_leading_spaces_prefix(seq![' '], rest);
    assert(after.skip(1) =~= rest);
    lemma_word_len_prefix(second, tail);
    assert(rest.take(second.len() as int) =~= second);
}

/// A line of one word and white space or nothing after it has that word
/// and no second one.
pub proof fn lemma_words_of_single(word: Seq<char>, spaces: Seq<char>)
    requires
        is_word(word),
        forall|i: int| 0 <= i < spaces.len() ==> is_space(#[trigger] spaces[i]),
    ensures
        first_word(word + spaces) == word,
        second_word(word + spaces).len() == 0,
        trimmed(word + spaces) == word,
{
    let line = word + spaces;
    assert(!is_space(line[0])) by {
        assert(line[0] == word[0]);
    }
    assert(line.skip(0) =~= line);
    if spaces.len() > 0 {
        assert(is_space(spaces[0]));
    }
    lemma_word_len_prefix(word, spaces);
    assert(line.take(word.len() as int) =~= word);
    assert(line.skip(word.len() as int) =~= spaces);
    lemma_leading_spaces_prefix(spaces, Seq::<char>::empty());
    assert(spaces + Seq::<char>::empty() =~= spaces);
    assert(spaces.skip(spaces.len() as int) =~= Seq::<char>::empty());
    assert(!is_space(word.last())) by {
        assert(word.last() == word[word.len() - 1]);
    }
    lemma_trailing_spaces_suffix(word, spaces);
    assert(line.take(line.len() - spaces.len()) =~= word);
}

/// A line of a field, a `sep`, and a second field that holds no `sep` has
/// those two fields.
pub proof fn lemma_fields_of_pair(first: Seq<char>, second: Seq<char>, sep: char)
    requires
        free_of(first, sep),
        free_of(second, sep),
    ensures
        first_field(first + seq![sep] + second, sep) == first,
        second_field(first + seq![sep] + second, sep) == Some(second),
{
    let line = first + seq![sep] + second;
    let after = seq![sep] + second;
    assert(line =~= first + after);
    lemma_field_len_prefix(first, after, sep);
    assert(line.take(first.len() as int) =~= first);
    assert(line.skip(first.len() as int + 1) =~= second);
    lemma_field_len_prefix(second, Seq::<char>::empty(), sep);
    assert(second + Seq::<char>::empty() =~= second);
    assert(second.take(second.len() as int) =~= second);
}

/// Whether a character is white space.
pub fn is_space_char(c: char) -> (r: bool)
    ensures
        r == is_space(c),
{
    c == ' ' || ('\u{9}' <= c && c <= '\u{d}') || c == '\u{85}' || c == '\u{a0}' || c == '\u{1680}'
        || ('\u{2000}' <= c && c <= '\u{200a}') || c == '\u{2028}' || c == '\u{2029}' || c
        == '\u{202f}' || c == '\u{205f}' || c == '\u{3000}'
}

/// The position in `s`, at or after `from`, of the first character that is
/// no white space; the length of `s` where there is none.
fn skip_spaces(s: &str, from: usize) -> (r: usize)
    requires
        from <= s@.len(),
    ensures
        r == from + leading_spaces(s@.skip(from as int)),
        r <= s@.len(),
{
    let n = s.unicode_len();
    let mut i: usize = from;
    while i < n && is_space_char(s.get_char(i))
        invariant
            n == s@.len(),
            from <= i <= n,
            from + leading_spaces(s@.skip(from as int)) == i + leading_spaces(s@.skip(i as int)),
        decreases n - i,
    {
        assert(s@.skip(i as int).skip(1) =~= s@.skip(i + 1));
        i += 1;
    }
    i
}

/// The position in `s`, at or after `from`, of the first white-space
/// character; the length of `s` where there is none.
fn skip_word(s: &str, from: usize) -> (r: usize)
    requires
        from <= s@.len(),
    ensures
        r == from + word_len(s@.skip(from as int)),
        r <= s@.len(),
{
    let n = s.unicode_len();
    let mut i: usize = from;
    while i < n && !is_space_char(s.get_char(i))
        invariant
            n == s@.len(),
            from <= i <= n,
            from + word_len(s@.skip(from as int)) == i + word_len(s@.skip(i as int)),
        decreases n - i,
    {
        assert(s@.skip(i as int).skip(1) =~= s@.skip(i + 1));
        i += 1;
    }
    i
}

/// The position in `s`, at or after `from`, of the first `sep`; the length
/// of `s` where there is none.
fn skip_field(s: &str, from: usize, sep: char) -> (r: usize)
    requires
        from <= s@.len(),
    ensures
        r == from + field_len(s@.skip(from as int), sep),
        r <= s@.len(),
{
    let n = s.unicode_len();
    let mut i: usize = from;
    while i < n && s.get_char(i) != sep
        invariant
            n == s@.len(),
            from <= i <= n,
            from + field_len(s@.skip(from as int), sep) == i + field_len(s@.skip(i as int), sep),
        decreases n - i,
    {
        assert(s@.skip(i as int).skip(1) =~= s@.skip(i + 1));
        i += 1;
    }
    i
}

/// The first two words of a line.
pub fn two_words(s: &str) -> (r: (String, String))
    ensures
        r.0@ == first_word(s@),
        r.1@ == second_word(s@),
{
    let n = s.unicode_len();
    let a = skip_spaces(s, 0);
    assert(s@.skip(0) =~= s@);
    let b = skip_word(s, a);
    let c = skip_spaces(s, b);
    let d = skip_word(s, c);
    let first = s.substring_char(a, b);
    let second = s.substring_char(c, d);
    proof {
        let t = s@.skip(a as int);
        assert(first@ =~= t.take(word_len(t) as int));
        let rest = after_first_word(s@);
        assert(rest =~= s@.skip(b as int));
        let u = rest.skip(leading_spaces(rest) as int);
        assert(u =~= s@.skip(c as int));
        assert(second@ =~= u.take(word_len(u) as int));
    }
    (String::from_str(first), String::from_str(second))
}

/// A line without the white space at its two ends.
pub fn trim(s: &str) -> (r: String)
    ensures
        r@ == trimmed(s@),
{
    let n = s.unicode_len();
    let a = skip_spaces(s, 0);
    assert(s@.skip(0) =~= s@);
    let ghost t = s@.skip(a as int);
    let mut b: usize = n;
    while b > a && is_space_char(s.get_char(b - 1))
        invariant
            n == s@.len(),
            a <= b <= n,
            t == s@.skip(a as int),
            trailing_spaces(t) == (n - b) + trailing_spaces(s@.subrange(a as int, b as int)),
        decreases b,
    {
        assert(s@.subrange(a as int, b as int).drop_last() =~= s@.subrange(a as int, b - 1));
        b -= 1;
    }
    proof {
        assert(s@.subrange(a as int, n as int) =~= t);
        let u = s@.subrange(a as int, b as int);
        if b > a {
            assert(u.last() == s@[b - 1]);
        }
        assert(trailing_spaces(u) == 0);
        assert(u =~= t.take(t.len() - trailing_spaces(t)));
    }
    String::from_str(s.substring_char(a, b))
}

/// The first two fields of a line whose fields are set off by `sep`.
pub fn two_fields(s: &str, sep: char) -> (r: (String, Option<String>))
    ensures
        r.0@ == first_field(s@, sep),
        match r.1 {
            Some(f) => second_field(s@, sep) == Some(f@),
            None => second_field(s@, sep) is None,
        },
{
    let n = s.unicode_len();
    let a = skip_field(s, 0, sep);
    assert(s@.skip(0) =~= s@);
    let first = String::from_str(s.substring_char(0, a));
    assert(first@ =~= s@.take(a as int));
    if a == n {
        (first, None)
    } else {
        let b = skip_field(s, a + 1, sep);
        let second = String::from_str(s.substring_char(a + 1, b));
        proof {
            let t = s@.skip(a + 1);
            assert(second@ =~= t.take(field_len(t, sep) as int));
        }
        (first, Some(second))
    }
}

} // verus!
