//! Text as JSON string literals.

use vstd::prelude::*;

use crate::hexadecimal;

verus! {

/// How a character stands in a JSON string literal: quotes, backslashes and control characters
/// are escaped, any other character stands for itself.
pub open spec fn escaped_char(c: char) -> Seq<char> {
    if c == '"' {
        seq!['\\', '"']
    } else if c == '\\' {
        seq!['\\', '\\']
    } else if c == '\u{8}' {
        seq!['\\', 'b']
    } else if c == '\t' {
        seq!['\\', 't']
    } else if c == '\n' {
        seq!['\\', 'n']
    } else if c == '\u{c}' {
        seq!['\\', 'f']
    } else if c == '\r' {
        seq!['\\', 'r']
    } else if (c as int) < 0x20 {
        seq![
            '\\',
            'u',
            '0',
            '0',
            hexadecimal::digit((c as int) / 16),
            hexadecimal::digit((c as int) % 16),
        ]
    } else {
        seq![c]
    }
}

/// How `text` stands between the quotes of a JSON string literal.
pub open spec fn escaped(text: Seq<char>) -> Seq<char>
    decreases text.len(),
{
    if text.len() == 0 {
        Seq::empty()
    } else {
        escaped_char(text[0]) + escaped(text.skip(1))
    }
}

/// The JSON string literal for `text`.
pub open spec fn quoted(text: Seq<char>) -> Seq<char> {
    seq!['"'] + escaped(text) + seq!['"']
}

/// Calls `serde_json::to_string` on a text, which it cannot fail for, and gives the literal.
#[verifier::external_body]
pub(crate) fn quote(text: &str) -> (literal: String)
    ensures
        literal@ == quoted(text@),
{
    serde_json::to_string(text).unwrap()
}

/// No literal holds a line feed.
pub proof fn lemma_no_line_feed(text: Seq<char>)
    ensures
        !quoted(text).contains('\n'),
{
    lemma_escaped_has_no_line_feed(text);
}

proof fn lemma_escaped_char_has_no_line_feed(c: char, i: int)
    requires
        0 <= i < escaped_char(c).len(),
    ensures
        escaped_char(c)[i] != '\n',
{
    if (c as int) < 0x20 {
        hexadecimal::lemma_digit_value((c as int) / 16);
        hexadecimal::lemma_digit_value((c as int) % 16);
    }
}

proof fn lemma_escaped_has_no_line_feed(text: Seq<char>)
    ensures
        forall|i: int| 0 <= i < escaped(text).len() ==> #[trigger] escaped(text)[i] != '\n',
    decreases text.len(),
{
    if text.len() > 0 {
        let head = escaped_char(text[0]);
        let tail = escaped(text.skip(1));
        lemma_escaped_has_no_line_feed(text.skip(1));
        assert forall|i: int| 0 <= i < escaped(text).len() implies #[trigger] escaped(text)[i] != '\n' by {
            if i >= head.len() {
                assert(escaped(text)[i] == tail[i - head.len()]);
            } else {
                assert(escaped(text)[i] == head[i]);
                lemma_escaped_char_has_no_line_feed(text[0], i);
            }
        }
    }
}

/// A literal is read in one way only: where two literals are followed by anything and the whole
/// is the same text, both stand for the same text and the same follows them.
pub proof fn law_literal_is_unambiguous(
    a: Seq<char>,
    b: Seq<char>,
    after_a: Seq<char>,
    after_b: Seq<char>,
)
    requires
        quoted(a) + after_a == quoted(b) + after_b,
    ensures
        a == b,
        after_a == after_b,
{
    let left = escaped(a) + seq!['"'] + after_a;
    let right = escaped(b) + seq!['"'] + after_b;
    assert((quoted(a) + after_a).skip(1) =~= left);
    assert((quoted(b) + after_b).skip(1) =~= right);
    lemma_escaped_is_unambiguous(a, b, after_a, after_b);
}

proof fn lemma_escaped_is_unambiguous(
    a: Seq<char>,
    b: Seq<char>,
    after_a: Seq<char>,
    after_b: Seq<char>,
)
    requires
        escaped(a) + seq!['"'] + after_a == escaped(b) + seq!['"'] + after_b,
    ensures
        a == b,
        after_a == after_b,
    decreases a.len(),
{
    let left = escaped(a) + seq!['"'] + after_a;
    let right = escaped(b) + seq!['"'] + after_b;
    if a.len() == 0 || b.len() == 0 {
        assert(left[0] == right[0]);
        if a.len() > 0 {
            assert(left[0] == escaped_char(a[0])[0]);
            assert(right[0] == '"');
            assert(false);
        }
        if b.len() > 0 {
            assert(right[0] == escaped_char(b[0])[0]);
            assert(left[0] == '"');
            assert(false);
        }
        assert(after_a =~= left.skip(1));
        assert(after_b =~= right.skip(1));
        assert(a =~= b);
    } else {
        let head_a = escaped_char(a[0]);
        let head_b = escaped_char(b[0]);
        let tail_a = escaped(a.skip(1)) + seq!['"'] + after_a;
        let tail_b = escaped(b.skip(1)) + seq!['"'] + after_b;
        assert(left =~= head_a + tail_a);
        assert(right =~= head_b + tail_b);
        lemma_escaped_char_is_unambiguous(a[0], b[0], tail_a, tail_b);
        lemma_escaped_is_unambiguous(a.skip(1), b.skip(1), after_a, after_b);
        assert(a =~= seq![a[0]] + a.skip(1));
        assert(b =~= seq![b[0]] + b.skip(1));
    }
}

proof fn lemma_escaped_char_is_unambiguous(a: char, b: char, tail_a: Seq<char>, tail_b: Seq<char>)
    requires
        escaped_char(a) + tail_a == escaped_char(b) + tail_b,
        tail_a.len() > 0,
        tail_b.len() > 0,
    ensures
        a == b,
        tail_a == tail_b,
{
    let left = escaped_char(a) + tail_a;
    let right = escaped_char(b) + tail_b;
    let size_a = escaped_char(a).len();
    let size_b = escaped_char(b).len();
    assert(left[0] == right[0]);
    assert(left[1] == right[1]);
    assert(left[0] == escaped_char(a)[0]);
    assert(right[0] == escaped_char(b)[0]);
    if size_a > 1 {
        assert(left[1] == escaped_char(a)[1]);
    }
    if size_b > 1 {
        assert(right[1] == escaped_char(b)[1]);
    }
    if size_a == 6 && size_b == 6 {
        assert(left[4] == escaped_char(a)[4] && right[4] == escaped_char(b)[4]);
        assert(left[5] == escaped_char(a)[5] && right[5] == escaped_char(b)[5]);
        hexadecimal::lemma_digit_value((a as int) / 16);
        hexadecimal::lemma_digit_value((a as int) % 16);
        hexadecimal::lemma_digit_value((b as int) / 16);
        hexadecimal::lemma_digit_value((b as int) % 16);
        assert((a as int) / 16 == (b as int) / 16);
        assert((a as int) % 16 == (b as int) % 16);
    }
    assert(a == b);
    assert(tail_a =~= left.skip(size_a as int));
    assert(tail_b =~= right.skip(size_b as int));
}

/// A text is escaped character by character: what stands for two texts in a row are both in a row.
pub proof fn law_text_is_escaped_character_by_character(a: Seq<char>, b: Seq<char>, c: char)
    ensures
        escaped(a + b) == escaped(a) + escaped(b),
        escaped(seq![c]) == escaped_char(c),
        escaped(Seq::empty()) == Seq::<char>::empty(),
        quoted(a) == seq!['"'] + escaped(a) + seq!['"'],
    decreases a.len(),
{
    assert(seq![c].skip(1) =~= Seq::<char>::empty());
    assert(escaped(seq![c].skip(1)) =~= Seq::<char>::empty());
    assert(escaped_char(c) + Seq::<char>::empty() =~= escaped_char(c));
    if a.len() == 0 {
        assert(a + b =~= b);
        assert(escaped(a) + escaped(b) =~= escaped(b));
    } else {
        law_text_is_escaped_character_by_character(a.skip(1), b, c);
        assert((a + b).skip(1) =~= a.skip(1) + b);
        assert(escaped(a + b) =~= escaped(a) + escaped(b));
    }
}

/// A character stands for itself exactly where it is no quote, no backslash and no control character.
/// Any other has a backslash in front: quotes and backslashes stand behind it as they are, and control
/// characters by a letter of their own or by their number.
pub proof fn law_only_special_characters_are_escaped(c: char)
    ensures
        escaped_char(c) == seq![c] <==> c != '"' && c != '\\' && c as int >= 0x20,
        c == '"' || c == '\\' ==> escaped_char(c) == seq!['\\', c],
        c as int == 8 ==> escaped_char(c) == seq!['\\', 'b'],
        c as int == 9 ==> escaped_char(c) == seq!['\\', 't'],
        c as int == 10 ==> escaped_char(c) == seq!['\\', 'n'],
        c as int == 12 ==> escaped_char(c) == seq!['\\', 'f'],
        c as int == 13 ==> escaped_char(c) == seq!['\\', 'r'],
        (c as int) < 0x20 && !(8 <= c as int <= 10) && !(12 <= c as int <= 13) ==> {
            &&& escaped_char(c).len() == 6
            &&& escaped_char(c).take(4) == seq!['\\', 'u', '0', '0']
            &&& hexadecimal::digit_value(escaped_char(c)[4]) == Some(c as int / 16)
            &&& hexadecimal::digit_value(escaped_char(c)[5]) == Some(c as int % 16)
        },
{
    if (c as int) < 0x20 {
        hexadecimal::lemma_digit_value((c as int) / 16);
        hexadecimal::lemma_digit_value((c as int) % 16);
        assert(escaped_char(c)[0] == '\\');
        assert(seq![c][0] == c);
        if !(8 <= c as int <= 10) && !(12 <= c as int <= 13) {
            assert(escaped_char(c).take(4) =~= seq!['\\', 'u', '0', '0']);
        }
    } else if c == '"' || c == '\\' {
        assert(escaped_char(c).len() == 2);
        assert(seq![c].len() == 1);
    }
}

} // verus!
