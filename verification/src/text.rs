//! Text as sequences of characters: white space, trimming, splitting and joining.

use vstd::prelude::*;
use vstd::string::*;

verus! {

/// The Unicode property `White_Space`.
pub open spec fn is_white(c: char) -> bool {
    let n = c as u32;
    ||| 0x9 <= n <= 0xd
    ||| n == 0x20
    ||| n == 0x85
    ||| n == 0xa0
    ||| n == 0x1680
    ||| 0x2000 <= n <= 0x200a
    ||| n == 0x2028
    ||| n == 0x2029
    ||| n == 0x202f
    ||| n == 0x205f
    ||| n == 0x3000
}

/// The text of an optional string slice.
pub open spec fn text_of(text: Option<&str>) -> Option<Seq<char>> {
    match text {
        Some(s) => Some(s@),
        None => None,
    }
}

/// The text of an optional string.
pub open spec fn owned_text(text: Option<String>) -> Option<Seq<char>> {
    match text {
        Some(s) => Some(s@),
        None => None,
    }
}

/// `s` without the white space at its start.
pub open spec fn trimmed_start(s: Seq<char>) -> Seq<char>
    decreases s.len(),
{
    if s.len() > 0 && is_white(s[0]) {
        trimmed_start(s.drop_first())
    } else {
        s
    }
}

/// `s` without the white space at its end.
pub open spec fn trimmed_end(s: Seq<char>) -> Seq<char>
    decreases s.len(),
{
    if s.len() > 0 && is_white(s.last()) {
        trimmed_end(s.drop_last())
    } else {
        s
    }
}

/// `s` without the white space at either end.
pub open spec fn trimmed(s: Seq<char>) -> Seq<char> {
    trimmed_end(trimmed_start(s))
}

/// `c` with an ASCII capital letter replaced by the small one.
pub open spec fn ascii_lower(c: char) -> char {
    if 'A' <= c && c <= 'Z' {
        ((c as u32) + 32) as char
    } else {
        c
    }
}

/// `s` with its ASCII capital letters replaced by small ones.
pub open spec fn ascii_lowered(s: Seq<char>) -> Seq<char> {
    s.map_values(|c: char| ascii_lower(c))
}

/// The maximal runs of characters of `s` that are not white space, in order.
pub open spec fn words(s: Seq<char>) -> Seq<Seq<char>>
    decreases s.len(),
{
    if s.len() == 0 {
        Seq::empty()
    } else {
        let before = words(s.drop_last());
        let c = s.last();
        if is_white(c) {
            before
        } else if s.len() == 1 || is_white(s[s.len() - 2]) {
            before.push(seq![c])
        } else {
            before.drop_last().push(before.last().push(c))
        }
    }
}

/// `parts` one after the other with a single space between neighbours.
pub open spec fn joined(parts: Seq<Seq<char>>) -> Seq<char>
    decreases parts.len(),
{
    if parts.len() == 0 {
        Seq::empty()
    } else if parts.len() == 1 {
        parts[0]
    } else {
        joined(parts.drop_last()) + seq![' '] + parts.last()
    }
}

/// The first `n` characters of `s`, or all of them where there are fewer.
pub open spec fn clipped(s: Seq<char>, n: nat) -> Seq<char> {
    if s.len() <= n {
        s
    } else {
        s.take(n as int)
    }
}

/// The pieces of `s` between its commas; always at least one.
pub open spec fn comma_pieces(s: Seq<char>) -> Seq<Seq<char>>
    decreases s.len(),
{
    if s.len() == 0 {
        seq![Seq::empty()]
    } else {
        let before = comma_pieces(s.drop_last());
        if s.last() == ',' {
            before.push(Seq::empty())
        } else {
            before.drop_last().push(before.last().push(s.last()))
        }
    }
}

/// The pieces that hold more than white space, trimmed, in order.
pub open spec fn non_blank(pieces: Seq<Seq<char>>) -> Seq<Seq<char>>
    decreases pieces.len(),
{
    if pieces.len() == 0 {
        Seq::empty()
    } else {
        let before = non_blank(pieces.drop_last());
        let piece = trimmed(pieces.last());
        if piece.len() == 0 {
            before
        } else {
            before.push(piece)
        }
    }
}

/// `String::push`: the string grows by that one character at its end.
pub assume_specification[ String::push ](s: &mut String, ch: char)
    ensures
        final(s)@ == old(s)@.push(ch),
;

/// The characters of `s` in a vector.
pub fn chars_of(s: &str) -> (chars: Vec<char>)
    ensures
        chars@ == s@,
{
    let mut chars: Vec<char> = Vec::new();
    for c in it: s.chars()
        invariant
            it.seq() == s@,
            chars@ == s@.take(it.index() as int),
    {
        chars.push(c);
    }
    chars
}

/// Whether `c` is white space.
pub fn is_whitespace(c: char) -> (white: bool)
    ensures
        white == is_white(c),
{
    let n: u32 = c as u32;
    (0x9 <= n && n <= 0xd) || n == 0x20 || n == 0x85 || n == 0xa0 || n == 0x1680 || (0x2000 <= n
        && n <= 0x200a) || n == 0x2028 || n == 0x2029 || n == 0x202f || n == 0x205f || n == 0x3000
}

/// Whether the two texts are the same.
pub fn same_text(a: &str, b: &str) -> (same: bool)
    ensures
        same == (a@ == b@),
{
    a.to_owned() == b.to_owned()
}

/// The text without the white space at either end.
pub fn trim(s: &str) -> (inner: &str)
    ensures
        inner@ == trimmed(s@),
{
    let chars = chars_of(s);
    let mut start: usize = 0;
    assert(s@.skip(0) == s@);
    while start < chars.len() && is_whitespace(chars[start])
        invariant
            start <= chars.len(),
            chars@ == s@,
            trimmed_start(s@) == trimmed_start(s@.skip(start as int)),
        decreases chars.len() - start,
    {
        assert(s@.skip(start as int).drop_first() == s@.skip(start + 1));
        start = start + 1;
    }
    let mut end: usize = chars.len();
    assert(s@.subrange(start as int, end as int) == s@.skip(start as int));
    while end > start && is_whitespace(chars[end - 1])
        invariant
            start <= end <= chars.len(),
            chars@ == s@,
            trimmed(s@) == trimmed_end(s@.subrange(start as int, end as int)),
        decreases end,
    {
        assert(s@.subrange(start as int, end as int).drop_last() == s@.subrange(start as int, end - 1));
        end = end - 1;
    }
    s.substring_char(start, end)
}

/// Whether the text is empty or holds nothing but white space.
pub fn is_blank(s: &str) -> (blank: bool)
    ensures
        blank == (trimmed(s@).len() == 0),
{
    trim(s).is_empty()
}

/// The text with its ASCII capital letters replaced by small ones.
pub fn to_ascii_lowercase(s: &str) -> (lowered: String)
    ensures
        lowered@ == ascii_lowered(s@),
{
    let mut lowered = String::new();
    for c in it: s.chars()
        invariant
            it.seq() == s@,
            lowered@ == ascii_lowered(s@.take(it.index() as int)),
    {
        assert(s@.take(it.index() + 1) == s@.take(it.index() as int).push(c));
        if 'A' <= c && c <= 'Z' {
            let small: char = ((c as u8) + 32) as char;
            lowered.push(small);
        } else {
            lowered.push(c);
        }
        assert(lowered@ == ascii_lowered(s@.take(it.index() + 1)));
    }
    assert(s@.take(s@.len() as int) == s@);
    lowered
}

/// The first `n` characters of the text.
pub fn clip(s: &str, n: usize) -> (start: &str)
    ensures
        start@ == clipped(s@, n as nat),
        start@.is_prefix_of(s@),
        start@.len() == if s@.len() <= n {
            s@.len() as int
        } else {
            n as int
        },
{
    let len: usize = s.unicode_len();
    if len <= n {
        s
    } else {
        s.substring_char(0, n)
    }
}

/// Appending a part to a join, and lengthening its last part.
proof fn lemma_joined_grows(parts: Seq<Seq<char>>, c: char)
    ensures
        joined(parts.push(seq![c])) == (if parts.len() == 0 {
            seq![c]
        } else {
            joined(parts).push(' ').push(c)
        }),
        parts.len() > 0 ==> joined(parts.drop_last().push(parts.last().push(c))) == joined(parts).push(
            c,
        ),
{
    let longer = parts.push(seq![c]);
    assert(longer.drop_last() == parts);
    if parts.len() > 0 {
        assert(joined(longer) == joined(parts).push(' ').push(c));
        let grown = parts.drop_last().push(parts.last().push(c));
        assert(grown.drop_last() == parts.drop_last());
        assert(joined(grown) == joined(parts).push(c));
    }
}

/// The words hold no white space.
proof fn lemma_words_hold_no_white(s: Seq<char>)
    ensures
        forall|i: int, j: int|
            0 <= i < words(s).len() && 0 <= j < words(s)[i].len() ==> !is_white(
                #[trigger] words(s)[i][j],
            ),
        s.len() > 0 && !is_white(s.last()) ==> words(s).len() > 0,
    decreases s.len(),
{
    if s.len() > 0 {
        lemma_words_hold_no_white(s.drop_last());
        let before = words(s.drop_last());
        let after = words(s);
        let c = s.last();
        if !is_white(c) {
            let n = after.len() - 1;
            assert forall|i: int, j: int|
                0 <= i < after.len() && 0 <= j < after[i].len() implies !is_white(
                #[trigger] after[i][j],
            ) by {
                if i < n {
                    assert(after[i] == before[i]);
                    assert(!is_white(before[i][j]));
                } else if j < after[n].len() - 1 {
                    assert(after[n][j] == before[n][j]);
                }
            }
        }
    }
}

/// Parts without white space join into a text whose only white space is the plain space.
proof fn lemma_joined_white_is_space(parts: Seq<Seq<char>>)
    requires
        forall|i: int, j: int|
            0 <= i < parts.len() && 0 <= j < parts[i].len() ==> !is_white(#[trigger] parts[i][j]),
    ensures
        forall|i: int|
            0 <= i < joined(parts).len() && is_white(#[trigger] joined(parts)[i]) ==> joined(
                parts,
            )[i] == ' ',
    decreases parts.len(),
{
    if parts.len() == 1 {
        assert forall|j: int| 0 <= j < joined(parts).len() implies !is_white(
            #[trigger] joined(parts)[j],
        ) by {
            assert(!is_white(parts[0][j]));
        }
    } else if parts.len() > 1 {
        let front = parts.drop_last();
        assert forall|i: int, j: int|
            0 <= i < front.len() && 0 <= j < front[i].len() implies !is_white(
            #[trigger] front[i][j],
        ) by {
            assert(!is_white(parts[i][j]));
        }
        lemma_joined_white_is_space(front);
        let start = joined(front) + seq![' '];
        assert forall|i: int|
            0 <= i < joined(parts).len() && is_white(#[trigger] joined(parts)[i]) implies joined(
            parts,
        )[i] == ' ' by {
            if i < joined(front).len() {
                assert(joined(parts)[i] == joined(front)[i]);
            } else if i >= start.len() {
                assert(joined(parts)[i] == parts[parts.len() - 1][i - start.len()]);
            }
        }
    }
}

/// A text brought onto one line, its words a single space apart, holds no white space but
/// the plain space: no line break and no tab is left of it.
pub proof fn lemma_single_spaced_is_one_line(s: Seq<char>)
    ensures
        forall|i: int|
            0 <= i < joined(words(s)).len() && is_white(#[trigger] joined(words(s))[i]) ==> joined(
                words(s),
            )[i] == ' ',
{
    lemma_words_hold_no_white(s);
    lemma_joined_white_is_space(words(s));
}

/// The words of the text with a single space between neighbours.
pub fn single_spaced(s: &str) -> (line: String)
    ensures
        line@ == joined(words(s@)),
{
    let chars = chars_of(s);
    let mut line = String::new();
    let mut in_word: bool = false;
    let mut any: bool = false;
    let mut i: usize = 0;
    assert(s@.take(0) == Seq::<char>::empty());
    while i < chars.len()
        invariant
            chars@ == s@,
            i <= chars.len(),
            line@ == joined(words(s@.take(i as int))),
            any == (words(s@.take(i as int)).len() > 0),
            in_word == (i > 0 && !is_white(s@[i - 1])),
        decreases chars.len() - i,
    {
        let c: char = chars[i];
        let ghost before = s@.take(i as int);
        let ghost after = s@.take(i + 1);
        proof {
            assert(after.drop_last() == before);
            lemma_joined_grows(words(before), c);
            lemma_words_hold_no_white(before);
        }
        if is_whitespace(c) {
            in_word = false;
        } else {
            if !in_word && any {
                line.push(' ');
            }
            line.push(c);
            in_word = true;
            any = true;
        }
        i = i + 1;
    }
    assert(s@.take(i as int) == s@);
    line
}

/// The pieces of the text between its commas, trimmed, without those that are blank.
pub fn split_commas(s: &str) -> (pieces: Vec<String>)
    ensures
        pieces@.map_values(|p: String| p@) == non_blank(comma_pieces(s@)),
{
    let chars = chars_of(s);
    let mut pieces: Vec<String> = Vec::new();
    let mut piece = String::new();
    let mut i: usize = 0;
    assert(s@.take(0) == Seq::<char>::empty());
    assert(comma_pieces(s@.take(0)).drop_last() == Seq::<Seq<char>>::empty());
    while i < chars.len()
        invariant
            chars@ == s@,
            i <= chars.len(),
            comma_pieces(s@.take(i as int)).len() > 0,
            piece@ == comma_pieces(s@.take(i as int)).last(),
            pieces@.map_values(|p: String| p@) == non_blank(
                comma_pieces(s@.take(i as int)).drop_last(),
            ),
        decreases chars.len() - i,
    {
        let c: char = chars[i];
        let ghost before = comma_pieces(s@.take(i as int));
        assert(s@.take(i + 1).drop_last() == s@.take(i as int));
        if c == ',' {
            push_non_blank(&mut pieces, &piece, Ghost(before.drop_last()));
            piece = String::new();
            assert(before.push(Seq::empty()).drop_last() == before);
            assert(before.drop_last().push(before.last()) == before);
        } else {
            piece.push(c);
            assert(before.drop_last().push(before.last().push(c)).drop_last() == before.drop_last());
        }
        i = i + 1;
    }
    assert(s@.take(i as int) == s@);
    let ghost all = comma_pieces(s@);
    assert(all.drop_last().push(all.last()) == all);
    push_non_blank(&mut pieces, &piece, Ghost(all.drop_last()));
    pieces
}

/// Appends the piece, trimmed, unless it is blank.
fn push_non_blank(pieces: &mut Vec<String>, piece: &String, Ghost(before): Ghost<Seq<Seq<char>>>)
    requires
        old(pieces)@.map_values(|p: String| p@) == non_blank(before),
    ensures
        final(pieces)@.map_values(|p: String| p@) == non_blank(before.push(piece@)),
{
    let inner = trim(piece.as_str());
    assert(before.push(piece@).drop_last() == before);
    if !inner.is_empty() {
        let ghost held = pieces@;
        let owned = inner.to_owned();
        pieces.push(owned);
        assert(pieces@.map_values(|p: String| p@) == held.map_values(|p: String| p@).push(owned@));
    }
}

/// What an optional text holds: the characters of the string, nothing where there is none.
pub proof fn lemma_optional_texts(slice: Option<&str>, string: Option<String>)
    ensures
        text_of(slice) is Some <==> slice is Some,
        slice matches Some(s) ==> text_of(slice) == Some(s@),
        owned_text(string) is Some <==> string is Some,
        string matches Some(s) ==> owned_text(string) == Some(s@),
{
}

/// What is cut off at the start is white space, and what is left does not start with any.
proof fn lemma_trimmed_start(s: Seq<char>) -> (start: int)
    ensures
        0 <= start <= s.len(),
        trimmed_start(s) == s.skip(start),
        forall|i: int| 0 <= i < start ==> is_white(#[trigger] s[i]),
        start < s.len() ==> !is_white(s[start]),
    decreases s.len(),
{
    if s.len() > 0 && is_white(s[0]) {
        let rest = s.drop_first();
        let start = lemma_trimmed_start(rest);
        assert(rest.skip(start) == s.skip(start + 1));
        assert forall|i: int| 0 <= i < start + 1 implies is_white(#[trigger] s[i]) by {
            if i > 0 {
                assert(is_white(rest[i - 1]));
            }
        }
        start + 1
    } else {
        assert(s.skip(0) == s);
        0
    }
}

/// What is cut off at the end is white space, and what is left does not end with any.
proof fn lemma_trimmed_end(s: Seq<char>) -> (end: int)
    ensures
        0 <= end <= s.len(),
        trimmed_end(s) == s.take(end),
        forall|i: int| end <= i < s.len() ==> is_white(#[trigger] s[i]),
        end > 0 ==> !is_white(s[end - 1]),
    decreases s.len(),
{
    if s.len() > 0 && is_white(s.last()) {
        let rest = s.drop_last();
        let end = lemma_trimmed_end(rest);
        assert(rest.take(end) == s.take(end));
        assert forall|i: int| end <= i < s.len() implies is_white(#[trigger] s[i]) by {
            if i < s.len() - 1 {
                assert(is_white(rest[i]));
            }
        }
        end
    } else {
        assert(s.take(s.len() as int) == s);
        s.len() as int
    }
}

/// Trimming takes white space off both ends and nothing else: a text is white space, then the
/// trimmed text, then white space, and the trimmed text neither starts nor ends with any. It
/// is empty exactly if the text holds nothing else.
pub proof fn lemma_trimming_takes_off_only_white_space(s: Seq<char>)
    ensures
        exists|front: Seq<char>, back: Seq<char>|
            {
                &&& s == #[trigger] (front + trimmed(s) + back)
                &&& forall|i: int| 0 <= i < front.len() ==> is_white(#[trigger] front[i])
                &&& forall|i: int| 0 <= i < back.len() ==> is_white(#[trigger] back[i])
            },
        trimmed(s).len() > 0 ==> !is_white(trimmed(s)[0]) && !is_white(trimmed(s).last()),
        trimmed(s).len() == 0 <==> forall|i: int| 0 <= i < s.len() ==> is_white(#[trigger] s[i]),
{
    let start = lemma_trimmed_start(s);
    let rest = s.skip(start);
    let end = lemma_trimmed_end(rest);
    let front = s.take(start);
    let back = rest.skip(end);
    assert(s == front + trimmed(s) + back);
    assert forall|i: int| 0 <= i < back.len() implies is_white(#[trigger] back[i]) by {
        assert(is_white(rest[end + i]));
    }
    if trimmed(s).len() > 0 {
        assert(trimmed(s)[0] == s[start]);
        assert(trimmed(s).last() == rest[end - 1]);
        assert(s[start + end - 1] == rest[end - 1]);
    } else {
        assert forall|i: int| 0 <= i < s.len() implies is_white(#[trigger] s[i]) by {
            if i >= start {
                assert(is_white(rest[i - start]));
            }
        }
    }
}

/// Lowering touches capital letters of ASCII and nothing else: each of them becomes the small
/// letter thirty-two code points on, every other character stays.
pub proof fn lemma_lowering_touches_only_capitals(s: Seq<char>)
    ensures
        ascii_lowered(s).len() == s.len(),
        forall|i: int|
            #![trigger ascii_lowered(s)[i]]
            #![trigger s[i]]
            0 <= i < s.len() ==> if 65 <= s[i] as u32 <= 90 {
                ascii_lowered(s)[i] as u32 == s[i] as u32 + 32
            } else {
                ascii_lowered(s)[i] == s[i]
            },
{
}

/// White space sets words apart and belongs to none: the words of two texts with white space
/// between them are the words of the one and then those of the other.
pub proof fn lemma_words_are_set_apart_by_white_space(a: Seq<char>, c: char, b: Seq<char>)
    requires
        is_white(c),
    ensures
        words(a.push(c) + b) == words(a) + words(b),
    decreases b.len(),
{
    let s = a.push(c) + b;
    if b.len() == 0 {
        assert(s == a.push(c));
        assert(a.push(c).drop_last() == a);
        assert(words(a) + words(b) == words(a));
    } else {
        let rest = b.drop_last();
        lemma_words_are_set_apart_by_white_space(a, c, rest);
        assert(s.drop_last() == a.push(c) + rest);
        lemma_words_hold_no_white(rest);
        let d = b.last();
        let wa = words(a);
        let wr = words(rest);
        if !is_white(d) {
            if b.len() == 1 || is_white(b[b.len() - 2]) {
                assert((wa + wr).push(seq![d]) == wa + wr.push(seq![d]));
            } else {
                assert(rest.last() == b[b.len() - 2]);
                assert((wa + wr).drop_last().push((wa + wr).last().push(d)) == wa
                    + wr.drop_last().push(wr.last().push(d)));
            }
        }
    }
}

/// A text without white space is a single word, and the empty text has none.
pub proof fn lemma_a_text_without_white_space_is_a_word(s: Seq<char>)
    requires
        forall|i: int| 0 <= i < s.len() ==> !is_white(#[trigger] s[i]),
    ensures
        words(s) == if s.len() == 0 {
            Seq::empty()
        } else {
            seq![s]
        },
    decreases s.len(),
{
    if s.len() > 0 {
        let rest = s.drop_last();
        assert forall|i: int| 0 <= i < rest.len() implies !is_white(#[trigger] rest[i]) by {
            assert(!is_white(s[i]));
        }
        lemma_a_text_without_white_space_is_a_word(rest);
        assert(!is_white(s.last()));
        if s.len() == 1 {
            assert(seq![s.last()] == s);
            assert(words(rest).push(s) == seq![s]);
        } else {
            assert(!is_white(s[s.len() - 2]));
            assert(rest.push(s.last()) == s);
            assert(seq![rest].drop_last().push(s) == seq![s]);
        }
    }
}

/// Joining puts a single space between parts and nothing else: one part joins into itself, and
/// the join of two lists is the join of the one, a space, and the join of the other.
pub proof fn lemma_joining_puts_a_space_between(a: Seq<Seq<char>>, b: Seq<Seq<char>>)
    ensures
        a.len() == 0 ==> joined(a) == Seq::<char>::empty(),
        a.len() == 1 ==> joined(a) == a[0],
        a.len() > 0 && b.len() > 0 ==> joined(a + b) == joined(a) + seq![' '] + joined(b),
    decreases b.len(),
{
    if a.len() > 0 && b.len() > 0 {
        let rest = b.drop_last();
        assert((a + b).drop_last() == a + rest);
        if b.len() == 1 {
            assert(a + rest == a);
            assert(joined(a + b) == joined(a) + seq![' '] + joined(b));
        } else {
            lemma_joining_puts_a_space_between(a, rest);
            assert(joined(a + b) == joined(a) + seq![' '] + joined(b));
        }
    }
}

/// Commas set pieces apart and belong to none: the pieces of two texts with a comma between
/// them are the pieces of the one and then those of the other, and a text without a comma is a
/// single piece.
pub proof fn lemma_pieces_are_set_apart_by_commas(a: Seq<char>, b: Seq<char>)
    ensures
        comma_pieces(a.push(',') + b) == comma_pieces(a) + comma_pieces(b),
        !a.contains(',') ==> comma_pieces(a) == seq![a],
{
    lemma_comma_pieces_of_two(a, b);
    if !a.contains(',') {
        lemma_one_comma_piece(a);
    }
}

proof fn lemma_comma_pieces_of_two(a: Seq<char>, b: Seq<char>)
    ensures
        comma_pieces(a.push(',') + b) == comma_pieces(a) + comma_pieces(b),
        comma_pieces(b).len() > 0,
    decreases b.len(),
{
    let s = a.push(',') + b;
    if b.len() == 0 {
        assert(s == a.push(','));
        assert(a.push(',').drop_last() == a);
        assert(comma_pieces(a).push(Seq::empty()) == comma_pieces(a) + seq![Seq::<char>::empty()]);
    } else {
        let rest = b.drop_last();
        lemma_comma_pieces_of_two(a, rest);
        assert(s.drop_last() == a.push(',') + rest);
        let pa = comma_pieces(a);
        let pr = comma_pieces(rest);
        if b.last() == ',' {
            assert((pa + pr).push(Seq::empty()) == pa + pr.push(Seq::empty()));
        } else {
            assert((pa + pr).drop_last().push((pa + pr).last().push(b.last())) == pa
                + pr.drop_last().push(pr.last().push(b.last())));
        }
    }
}

proof fn lemma_one_comma_piece(s: Seq<char>)
    requires
        !s.contains(','),
    ensures
        comma_pieces(s) == seq![s],
    decreases s.len(),
{
    if s.len() == 0 {
        assert(s == Seq::<char>::empty());
    } else {
        let rest = s.drop_last();
        assert(!rest.contains(',')) by {
            if rest.contains(',') {
                let i = choose|i: int| 0 <= i < rest.len() && rest[i] == ',';
                assert(s[i] == ',');
            }
        }
        lemma_one_comma_piece(rest);
        assert(s.last() == s[s.len() - 1]);
        assert(rest.push(s.last()) == s);
        assert(seq![rest].drop_last().push(s) == seq![s]);
    }
}

/// Pieces are trimmed and kept one by one, in order: a blank piece gives nothing, any other
/// itself trimmed, and a list gives what its parts give.
pub proof fn lemma_pieces_are_kept_one_by_one(
    piece: Seq<char>,
    a: Seq<Seq<char>>,
    b: Seq<Seq<char>>,
)
    ensures
        non_blank(seq![piece]) == if trimmed(piece).len() == 0 {
            Seq::empty()
        } else {
            seq![trimmed(piece)]
        },
        non_blank(a + b) == non_blank(a) + non_blank(b),
    decreases b.len(),
{
    assert(seq![piece].drop_last() == Seq::<Seq<char>>::empty());
    assert(non_blank(Seq::empty()) == Seq::<Seq<char>>::empty());
    assert(Seq::<Seq<char>>::empty().push(trimmed(piece)) == seq![trimmed(piece)]);
    if b.len() == 0 {
        assert(a + b == a);
        assert(non_blank(a) + non_blank(b) == non_blank(a));
    } else {
        lemma_pieces_are_kept_one_by_one(piece, a, b.drop_last());
        assert((a + b).drop_last() == a + b.drop_last());
        let kept = trimmed(b.last());
        let na = non_blank(a);
        let nb = non_blank(b.drop_last());
        assert((na + nb).push(kept) == na + nb.push(kept));
    }
}

/// Cutting a text keeps its start: all of it where it is short enough, else as many characters
/// as asked for.
pub proof fn lemma_cutting_keeps_the_start(s: Seq<char>, n: nat)
    ensures
        clipped(s, n).is_prefix_of(s),
        s.len() <= n ==> clipped(s, n) == s,
        s.len() > n ==> clipped(s, n).len() == n,
{
}

}
