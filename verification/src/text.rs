//! Text as sequences of characters: taking apart and putting together `String`s.

use vstd::prelude::*;

verus! {

/// `String::push` appends one character.
pub assume_specification[ String::push ](string: &mut String, c: char)
    ensures
        final(string)@ == old(string)@.push(c),
;

/// The characters of `text`, in order.
pub fn chars_of(text: &str) -> (chars: Vec<char>)
    ensures
        chars@ == text@,
{
    let mut chars: Vec<char> = Vec::new();
    for c in it: text.chars()
        invariant
            it.seq() == text@,
            chars@ == text@.take(it.index() as int),
    {
        chars.push(c);
        assert(text@.take(it.index() + 1) =~= text@.take(it.index() as int).push(text@[it.index() as int]));
    }
    assert(text@.take(text@.len() as int) =~= text@);
    chars
}

/// The text made of `chars[from..to]`.
pub fn text_of(chars: &Vec<char>, from: usize, to: usize) -> (text: String)
    requires
        from <= to <= chars@.len(),
    ensures
        text@ == chars@.subrange(from as int, to as int),
{
    let mut text = String::new();
    let mut i: usize = from;
    while i < to
        invariant
            from <= i <= to <= chars@.len(),
            text@ == chars@.subrange(from as int, i as int),
        decreases to - i,
    {
        text.push(chars[i]);
        i += 1;
        assert(chars@.subrange(from as int, i as int) =~= chars@.subrange(from as int, i - 1).push(chars@[i - 1]));
    }
    text
}

/// A copy of `text` as an owned string.
pub fn owned(text: &str) -> (copy: String)
    ensures
        copy@ == text@,
{
    text.to_owned()
}

/// Whether two texts are the same.
pub fn same_text(a: &str, b: &str) -> (same: bool)
    ensures
        same == (a@ == b@),
{
    let left: String = a.to_owned();
    let right: String = b.to_owned();
    left == right
}

/// `c` with an ASCII capital letter turned into its small letter.
pub open spec fn ascii_folded(c: char) -> char {
    if 'A' <= c && c <= 'Z' {
        ((c as u8 + 32) as u8) as char
    } else {
        c
    }
}

/// The same text but for the case of ASCII letters.
pub open spec fn same_but_for_ascii_case(a: Seq<char>, b: Seq<char>) -> bool {
    &&& a.len() == b.len()
    &&& forall|i: int| 0 <= i < a.len() ==> ascii_folded(#[trigger] a[i]) == ascii_folded(b[i])
}

/// `c` with an ASCII capital letter turned into its small letter.
pub fn fold_ascii(c: char) -> (r: char)
    ensures
        r == ascii_folded(c),
{
    if 'A' <= c && c <= 'Z' {
        let small: u8 = c as u8 + 32;
        small as char
    } else {
        c
    }
}

/// Whether `a` and `b` are equal once ASCII capitals are read as small letters.
pub fn eq_ignore_ascii_case(a: &str, b: &str) -> (same: bool)
    ensures
        same == same_but_for_ascii_case(a@, b@),
{
    let left = chars_of(a);
    let right = chars_of(b);
    if left.len() != right.len() {
        return false;
    }
    let mut i: usize = 0;
    while i < left.len()
        invariant
            left@ == a@,
            right@ == b@,
            left@.len() == right@.len(),
            i <= left@.len(),
            forall|j: int| 0 <= j < i ==> ascii_folded(#[trigger] a@[j]) == ascii_folded(b@[j]),
        decreases left@.len() - i,
    {
        if fold_ascii(left[i]) != fold_ascii(right[i]) {
            assert(ascii_folded(a@[i as int]) != ascii_folded(b@[i as int]));
            return false;
        }
        i += 1;
    }
    true
}

/// Whether `part` stands in `chars` at position `at`.
fn stands_at(chars: &Vec<char>, at: usize, part: &Vec<char>) -> (found: bool)
    requires
        at + part@.len() <= chars@.len(),
    ensures
        found == (chars@.subrange(at as int, at + part@.len()) == part@),
{
    let length: usize = chars.len();
    let mut i: usize = 0;
    while i < part.len()
        invariant
            at + part@.len() <= chars@.len() == length,
            i <= part@.len(),
            forall|j: int| 0 <= j < i ==> chars@[at + j] == #[trigger] part@[j],
        decreases part@.len() - i,
    {
        if chars[at + i] != part[i] {
            assert(chars@.subrange(at as int, at + part@.len())[i as int] != part@[i as int]);
            return false;
        }
        i += 1;
    }
    assert(chars@.subrange(at as int, at + part@.len()) =~= part@);
    true
}

/// Whether the first `end` characters of `chars` end with `part`.
fn ends_at(chars: &Vec<char>, end: usize, part: &Vec<char>) -> (found: bool)
    requires
        end <= chars@.len(),
    ensures
        found == part@.is_suffix_of(chars@.take(end as int)),
{
    if part.len() > end {
        return false;
    }
    assert(chars@.take(end as int).subrange(end - part@.len(), end as int) =~= chars@.subrange(
        end - part@.len(),
        end as int,
    ));
    stands_at(chars, end - part.len(), part)
}

/// Whether `text` begins with `prefix`.
pub fn starts_with(text: &str, prefix: &str) -> (found: bool)
    ensures
        found == prefix@.is_prefix_of(text@),
{
    let chars = chars_of(text);
    let part = chars_of(prefix);
    if part.len() > chars.len() {
        return false;
    }
    stands_at(&chars, 0, &part)
}

/// Whether `text` ends with `suffix`.
pub fn ends_with(text: &str, suffix: &str) -> (found: bool)
    ensures
        found == suffix@.is_suffix_of(text@),
{
    let chars = chars_of(text);
    let part = chars_of(suffix);
    assert(chars@.take(chars@.len() as int) =~= text@);
    ends_at(&chars, chars.len(), &part)
}

/// `text` with every occurrence of `suffix` at its end taken away, one after another.
pub open spec fn without_suffixes(text: Seq<char>, suffix: Seq<char>) -> Seq<char>
    decreases text.len(),
{
    if suffix.len() > 0 && suffix.is_suffix_of(text) {
        without_suffixes(text.take(text.len() - suffix.len()), suffix)
    } else {
        text
    }
}

/// `text` without any number of copies of `suffix` at its end.
pub fn trim_end_matches(text: &str, suffix: &str) -> (rest: String)
    ensures
        rest@ == without_suffixes(text@, suffix@),
{
    let chars = chars_of(text);
    let part = chars_of(suffix);
    let mut end: usize = chars.len();
    assert(chars@.take(end as int) =~= text@);
    while part.len() > 0 && ends_at(&chars, end, &part)
        invariant
            chars@ == text@,
            part@ == suffix@,
            end <= chars@.len(),
            without_suffixes(chars@.take(end as int), suffix@) == without_suffixes(text@, suffix@),
        decreases end,
    {
        let ghost before = chars@.take(end as int);
        assert(before.take(before.len() - part@.len()) =~= chars@.take(end - part@.len()));
        end = end - part.len();
    }
    let rest = text_of(&chars, 0, end);
    assert(chars@.subrange(0, end as int) =~= chars@.take(end as int));
    rest
}

/// `text` with every `from` turned into `to`.
pub open spec fn with_char_replaced(text: Seq<char>, from: char, to: char) -> Seq<char> {
    text.map_values(|c: char| if c == from { to } else { c })
}

/// `text` with each character `from` replaced by `to`.
pub fn replace_char(text: &str, from: char, to: char) -> (replaced: String)
    ensures
        replaced@ == with_char_replaced(text@, from, to),
{
    let chars = chars_of(text);
    let mut replaced = String::new();
    let mut i: usize = 0;
    while i < chars.len()
        invariant
            chars@ == text@,
            i <= chars@.len(),
            replaced@ == with_char_replaced(text@.take(i as int), from, to),
        decreases chars@.len() - i,
    {
        let c = chars[i];
        replaced.push(if c == from { to } else { c });
        assert(text@.take(i + 1) =~= text@.take(i as int).push(c));
        i += 1;
        assert(replaced@ =~= with_char_replaced(text@.take(i as int), from, to));
    }
    assert(text@.take(i as int) =~= text@);
    replaced
}

/// The texts of a list of strings.
pub open spec fn texts(strings: Seq<String>) -> Seq<Seq<char>> {
    strings.map_values(|s: String| s@)
}

/// Taking one more of a list of different names adds just that name.
pub proof fn lemma_take_one_more(names: Seq<Seq<char>>, i: int)
    requires
        0 <= i < names.len(),
        names.no_duplicates(),
    ensures
        !names.take(i).contains(names[i]),
        forall|name: Seq<char>| #[trigger]
            names.take(i + 1).contains(name) <==> (names.take(i).contains(name) || name
                == names[i]),
{
    assert forall|name: Seq<char>| #[trigger]
        names.take(i + 1).contains(name) <==> (names.take(i).contains(name) || name == names[i]) by {
        assert(names.take(i + 1)[i] == names[i]);
        if names.take(i).contains(name) {
            let j = choose|j: int| 0 <= j < i && names.take(i)[j] == name;
            assert(names.take(i + 1)[j] == name);
        }
    }
}

/// The pieces of `text` between the separators: one more than there are separators.
pub open spec fn pieces(text: Seq<char>, separator: char) -> Seq<Seq<char>>
    decreases text.len(),
{
    if text.len() == 0 {
        seq![Seq::<char>::empty()]
    } else {
        let before = pieces(text.drop_last(), separator);
        if text.last() == separator {
            before.push(Seq::empty())
        } else {
            before.drop_last().push(before.last().push(text.last()))
        }
    }
}

/// `line` without the carriage return that a line feed may have left at its end.
pub open spec fn without_carriage_return(line: Seq<char>) -> Seq<char> {
    if line.len() > 0 && line.last() == '\r' {
        line.drop_last()
    } else {
        line
    }
}

/// The lines of `text`: each ends with a line feed, which may follow a carriage return and
/// which the last line may lack.
pub open spec fn lines_of(text: Seq<char>) -> Seq<Seq<char>> {
    let parts = pieces(text, '\n');
    let ended = parts.drop_last().map_values(|line: Seq<char>| without_carriage_return(line));
    if parts.last().len() == 0 {
        ended
    } else {
        ended.push(parts.last())
    }
}

/// Text has at least one piece.
pub proof fn lemma_pieces_not_empty(text: Seq<char>, separator: char)
    ensures
        pieces(text, separator).len() > 0,
    decreases text.len(),
{
    if text.len() > 0 {
        lemma_pieces_not_empty(text.drop_last(), separator);
    }
}

/// Text without a separator adds to the last piece of what stands before it.
proof fn lemma_pieces_of_longer_text(before: Seq<char>, more: Seq<char>, separator: char)
    requires
        !more.contains(separator),
    ensures
        pieces(before + more, separator) == pieces(before, separator).drop_last().push(
            pieces(before, separator).last() + more,
        ),
    decreases more.len(),
{
    let start = pieces(before, separator);
    lemma_pieces_not_empty(before, separator);
    if more.len() == 0 {
        assert(before + more =~= before);
        assert(start.last() + more =~= start.last());
        assert(start =~= start.drop_last().push(start.last()));
    } else {
        let less = more.drop_last();
        assert forall|i: int| 0 <= i < less.len() implies less[i] != separator by {
            assert(more.contains(more[i]));
        }
        assert(more.contains(more.last()));
        lemma_pieces_of_longer_text(before, less, separator);
        assert((before + more).drop_last() =~= before + less);
        assert(start.drop_last().push(start.last() + less).drop_last() =~= start.drop_last());
        assert(start.last() + more =~= (start.last() + less).push(more.last()));
    }
}

/// The pieces of two texts with a separator between them are the pieces of both.
pub proof fn lemma_pieces_of_joined_text(a: Seq<char>, b: Seq<char>, separator: char)
    ensures
        pieces(a.push(separator) + b, separator) == pieces(a, separator) + pieces(b, separator),
    decreases b.len(),
{
    let whole = a.push(separator) + b;
    let joined = pieces(a, separator) + pieces(b, separator);
    if b.len() == 0 {
        assert(whole =~= a.push(separator));
        assert(whole.drop_last() =~= a);
        assert(joined =~= pieces(a, separator).push(Seq::empty()));
    } else {
        let less = b.drop_last();
        lemma_pieces_of_joined_text(a, less, separator);
        lemma_pieces_not_empty(less, separator);
        assert(whole.drop_last() =~= a.push(separator) + less);
        let before = pieces(a, separator) + pieces(less, separator);
        assert(before.last() == pieces(less, separator).last());
        assert(pieces(whole, separator) =~= joined);
    }
}

/// Where text consists of whole lines, another line and a line feed behind it add that line.
pub proof fn lemma_lines_of_longer_text(before: Seq<char>, line: Seq<char>)
    requires
        before.len() == 0 || before.last() == '\n',
        line.len() > 0,
        line.last() != '\r',
        !line.contains('\n'),
    ensures
        lines_of(before + line + seq!['\n']) == lines_of(before).push(line),
{
    let start = pieces(before, '\n');
    let longer = before + line;
    let whole = before + line + seq!['\n'];
    let strip = |line: Seq<char>| without_carriage_return(line);
    lemma_pieces_not_empty(before, '\n');
    lemma_pieces_of_longer_text(before, line, '\n');
    assert(whole.drop_last() =~= longer);
    assert(start.last() + line =~= line);
    let parts = pieces(whole, '\n');
    assert(parts == pieces(longer, '\n').push(Seq::empty()));
    assert(parts.drop_last() =~= start.drop_last().push(line));
    assert(parts.drop_last().map_values(strip) =~= start.drop_last().map_values(strip).push(line));
}

/// The lines of `text`, without their line ends.
pub fn split_lines(text: &str) -> (lines: Vec<String>)
    ensures
        texts(lines@) == lines_of(text@),
{
    let chars = chars_of(text);
    let mut lines: Vec<String> = Vec::new();
    let mut current: Vec<char> = Vec::new();
    let mut i: usize = 0;
    assert(text@.take(0) =~= Seq::<char>::empty());
    assert(texts(lines@) =~= pieces(text@.take(0), '\n').drop_last().map_values(
        |line: Seq<char>| without_carriage_return(line),
    ));
    while i < chars.len()
        invariant
            chars@ == text@,
            i <= chars@.len(),
            pieces(text@.take(i as int), '\n').len() > 0,
            current@ == pieces(text@.take(i as int), '\n').last(),
            texts(lines@) == pieces(text@.take(i as int), '\n').drop_last().map_values(
                |line: Seq<char>| without_carriage_return(line),
            ),
        decreases chars@.len() - i,
    {
        let c = chars[i];
        let ghost before = pieces(text@.take(i as int), '\n');
        let ghost after = pieces(text@.take(i + 1), '\n');
        assert(text@.take(i + 1).drop_last() =~= text@.take(i as int));
        assert(text@.take(i + 1).last() == c);
        if c == '\n' {
            let end: usize = if current.len() > 0 && current[current.len() - 1] == '\r' {
                current.len() - 1
            } else {
                current.len()
            };
            let line = text_of(&current, 0, end);
            assert(line@ =~= without_carriage_return(current@));
            let ghost earlier = lines@;
            lines.push(line);
            current = Vec::new();
            assert(after.drop_last() =~= before);
            assert(before =~= before.drop_last().push(before.last()));
            assert(texts(lines@) =~= texts(earlier).push(line@));
            assert(after.drop_last().map_values(|line: Seq<char>| without_carriage_return(line))
                =~= before.drop_last().map_values(
                |line: Seq<char>| without_carriage_return(line),
            ).push(without_carriage_return(before.last())));
        } else {
            current.push(c);
            assert(after.drop_last() =~= before.drop_last());
        }
        i += 1;
    }
    assert(text@.take(i as int) =~= text@);
    if current.len() > 0 {
        let line = text_of(&current, 0, current.len());
        assert(line@ =~= current@);
        let ghost earlier = lines@;
        lines.push(line);
        assert(texts(lines@) =~= texts(earlier).push(line@));
    }
    lines
}

/// Unicode white space.
pub open spec fn is_white_space(c: char) -> bool {
    ||| '\u{9}' <= c <= '\u{d}'
    ||| c == ' '
    ||| c == '\u{85}'
    ||| c == '\u{a0}'
    ||| c == '\u{1680}'
    ||| '\u{2000}' <= c <= '\u{200a}'
    ||| c == '\u{2028}'
    ||| c == '\u{2029}'
    ||| c == '\u{202f}'
    ||| c == '\u{205f}'
    ||| c == '\u{3000}'
}

fn white_space(c: char) -> (r: bool)
    ensures
        r == is_white_space(c),
{
    ('\u{9}' <= c && c <= '\u{d}') || c == ' ' || c == '\u{85}' || c == '\u{a0}' || c == '\u{1680}'
        || ('\u{2000}' <= c && c <= '\u{200a}') || c == '\u{2028}' || c == '\u{2029}' || c
        == '\u{202f}' || c == '\u{205f}' || c == '\u{3000}'
}

/// `text` without the white space at its end.
pub open spec fn without_trailing_space(text: Seq<char>) -> Seq<char>
    decreases text.len(),
{
    if text.len() > 0 && is_white_space(text.last()) {
        without_trailing_space(text.drop_last())
    } else {
        text
    }
}

/// White space behind text that does not end with any is what is dropped.
pub proof fn lemma_trailing_space_is_dropped(text: Seq<char>, spacing: Seq<char>)
    requires
        text.len() > 0,
        !is_white_space(text.last()),
        forall|i: int| 0 <= i < spacing.len() ==> is_white_space(#[trigger] spacing[i]),
    ensures
        without_trailing_space(text + spacing) == text,
    decreases spacing.len(),
{
    if spacing.len() == 0 {
        assert(text + spacing =~= text);
    } else {
        assert((text + spacing).last() == spacing[spacing.len() - 1]);
        assert((text + spacing).drop_last() =~= text + spacing.drop_last());
        lemma_trailing_space_is_dropped(text, spacing.drop_last());
    }
}

/// `text` without the white space at its end.
pub fn trim_end(text: &str) -> (rest: String)
    ensures
        rest@ == without_trailing_space(text@),
{
    let chars = chars_of(text);
    let mut end: usize = chars.len();
    assert(chars@.take(end as int) =~= text@);
    while end > 0 && white_space(chars[end - 1])
        invariant
            chars@ == text@,
            end <= chars@.len(),
            without_trailing_space(chars@.take(end as int)) == without_trailing_space(text@),
        decreases end,
    {
        assert(chars@.take(end as int).drop_last() =~= chars@.take(end - 1));
        end -= 1;
    }
    let rest = text_of(&chars, 0, end);
    assert(chars@.subrange(0, end as int) =~= chars@.take(end as int));
    rest
}

/// Folding turns the 26 ASCII capitals into the letters 32 places behind them and leaves every other
/// character alone.
pub proof fn law_only_ascii_capitals_are_folded(c: char)
    ensures
        0x41 <= c as int <= 0x5a ==> ascii_folded(c) as int == c as int + 32,
        !(0x41 <= c as int <= 0x5a) ==> ascii_folded(c) == c,
{
}

/// Two texts are the same but for ASCII case exactly where they are as long as each other and any two
/// characters at one place are equal, or the capital and the small form of one ASCII letter.
pub proof fn law_same_but_for_case_is_character_by_character(a: Seq<char>, b: Seq<char>)
    ensures
        same_but_for_ascii_case(a, b) <==> a.len() == b.len() && forall|i: int|
            0 <= i < a.len() ==> {
                ||| #[trigger] a[i] == b[i]
                ||| 0x41 <= a[i] as int <= 0x5a && b[i] as int == a[i] as int + 32
                ||| 0x41 <= b[i] as int <= 0x5a && a[i] as int == b[i] as int + 32
            },
{
    assert forall|x: char, y: char|
        #![trigger ascii_folded(x), ascii_folded(y)]
        ascii_folded(x) == ascii_folded(y) <==> (x == y || (0x41 <= x as int <= 0x5a && y as int
            == x as int + 32) || (0x41 <= y as int <= 0x5a && x as int == y as int + 32)) by {
        lemma_folded_pair(x, y);
    }
    if same_but_for_ascii_case(a, b) {
        assert forall|i: int| 0 <= i < a.len() implies {
            ||| #[trigger] a[i] == b[i]
            ||| 0x41 <= a[i] as int <= 0x5a && b[i] as int == a[i] as int + 32
            ||| 0x41 <= b[i] as int <= 0x5a && a[i] as int == b[i] as int + 32
        } by {
            assert(ascii_folded(a[i]) == ascii_folded(b[i]));
        }
    }
}

proof fn lemma_folded_pair(x: char, y: char)
    ensures
        ascii_folded(x) == ascii_folded(y) <==> (x == y || (0x41 <= x as int <= 0x5a && y as int
            == x as int + 32) || (0x41 <= y as int <= 0x5a && x as int == y as int + 32)),
{
    law_only_ascii_capitals_are_folded(x);
    law_only_ascii_capitals_are_folded(y);
}

/// What is left once suffixes are taken off no longer ends with the suffix, and what was taken off is
/// made of whole copies of it.
pub proof fn law_suffixes_are_taken_off_whole(text: Seq<char>, suffix: Seq<char>)
    requires
        suffix.len() > 0,
    ensures
        without_suffixes(text, suffix).is_prefix_of(text),
        !suffix.is_suffix_of(without_suffixes(text, suffix)),
        (text.len() - without_suffixes(text, suffix).len()) % (suffix.len() as int) == 0,
        forall|i: int|
            without_suffixes(text, suffix).len() <= i < text.len() ==> #[trigger] text[i]
                == suffix[(i - without_suffixes(text, suffix).len()) % (suffix.len() as int)],
    decreases text.len(),
{
    let size = suffix.len() as int;
    let rest = without_suffixes(text, suffix);
    if suffix.is_suffix_of(text) {
        let less = text.take(text.len() - size);
        law_suffixes_are_taken_off_whole(less, suffix);
        let copies = less.len() - rest.len();
        assert(rest =~= text.subrange(0, rest.len() as int)) by {
            assert(rest =~= less.subrange(0, rest.len() as int));
        }
        vstd::arithmetic::div_mod::lemma_mod_add_multiples_vanish(copies, size);
        assert((size + copies) % size == 0);
        assert forall|i: int| rest.len() <= i < text.len() implies #[trigger] text[i] == suffix[(i
            - rest.len()) % size] by {
            if i < less.len() {
                assert(text[i] == less[i]);
            } else {
                let k = i - less.len();
                assert(text[i] == text.subrange(text.len() - size, text.len() as int)[k]);
                vstd::arithmetic::div_mod::lemma_add_mod_noop(copies, k, size);
                vstd::arithmetic::div_mod::lemma_small_mod(k as nat, size as nat);
                assert((copies + k) % size == k);
                assert(i - rest.len() == copies + k);
            }
        }
    } else {
        assert(text =~= text.subrange(0, text.len() as int));
        vstd::arithmetic::div_mod::lemma_small_mod(0, size as nat);
    }
}

/// Replacing a character changes it wherever it stands and nothing else.
pub proof fn law_replacing_changes_that_character_alone(text: Seq<char>, from: char, to: char)
    ensures
        with_char_replaced(text, from, to).len() == text.len(),
        forall|i: int|
            0 <= i < text.len() ==> (text[i] == from ==> #[trigger] with_char_replaced(
                text,
                from,
                to,
            )[i] == to) && (text[i] != from ==> with_char_replaced(text, from, to)[i] == text[i]),
{
}

/// Text without the separator is one piece, and a separator between two texts parts their pieces.
pub proof fn law_separators_part_pieces(a: Seq<char>, b: Seq<char>, separator: char)
    ensures
        !a.contains(separator) ==> pieces(a, separator) == seq![a],
        pieces(a.push(separator) + b, separator) == pieces(a, separator) + pieces(b, separator),
{
    lemma_pieces_of_joined_text(a, b, separator);
    if !a.contains(separator) {
        let empty = Seq::<char>::empty();
        lemma_pieces_of_longer_text(empty, a, separator);
        assert(empty + a =~= a);
        assert(pieces(a, separator) =~= seq![a]);
    }
}

/// A line that ends with a line feed is a line, without a carriage return before it. What stands
/// behind the last line feed is a line as it stands, unless it is empty.
pub proof fn law_line_feeds_end_lines(before: Seq<char>, line: Seq<char>)
    requires
        before.len() == 0 || before.last() == '\n',
        !line.contains('\n'),
    ensures
        lines_of(Seq::<char>::empty()) == Seq::<Seq<char>>::empty(),
        line.len() > 0 ==> lines_of(before + line) == lines_of(before).push(line),
        lines_of(before + line + seq!['\n']) == lines_of(before).push(
            if line.len() > 0 && line.last() == '\r' {
                line.take(line.len() - 1)
            } else {
                line
            },
        ),
{
    let start = pieces(before, '\n');
    let strip = |line: Seq<char>| without_carriage_return(line);
    lemma_pieces_not_empty(before, '\n');
    lemma_pieces_of_longer_text(before, line, '\n');
    assert(start.last().len() == 0);
    assert(start.last() + line =~= line);
    let longer = pieces(before + line, '\n');
    assert(longer =~= start.drop_last().push(line));
    assert(longer.drop_last() =~= start.drop_last());
    assert(longer.last() == line);
    let whole = before + line + seq!['\n'];
    assert(whole.drop_last() =~= before + line);
    let parts = pieces(whole, '\n');
    assert(parts == longer.push(Seq::empty()));
    assert(parts.drop_last() =~= longer);
    assert(parts.last().len() == 0);
    let ended = without_carriage_return(line);
    assert(longer.map_values(strip) =~= start.drop_last().map_values(strip).push(ended));
    assert(lines_of(Seq::<char>::empty()) =~= Seq::<Seq<char>>::empty());
    if line.len() > 0 && line.last() == '\r' {
        assert(ended =~= line.take(line.len() - 1));
    }
}

/// Just the white space at the end is dropped: what is left does not end with any, and all that was
/// dropped is.
pub proof fn law_only_trailing_space_is_dropped(text: Seq<char>)
    ensures
        without_trailing_space(text).is_prefix_of(text),
        without_trailing_space(text).len() > 0 ==> !is_white_space(
            without_trailing_space(text).last(),
        ),
        forall|i: int|
            without_trailing_space(text).len() <= i < text.len() ==> is_white_space(
                #[trigger] text[i],
            ),
    decreases text.len(),
{
    let rest = without_trailing_space(text);
    if text.len() > 0 && is_white_space(text.last()) {
        let less = text.drop_last();
        law_only_trailing_space_is_dropped(less);
        assert(rest =~= text.subrange(0, rest.len() as int)) by {
            assert(rest =~= less.subrange(0, rest.len() as int));
        }
        assert forall|i: int| rest.len() <= i < text.len() implies is_white_space(
            #[trigger] text[i],
        ) by {
            if i < less.len() {
                assert(text[i] == less[i]);
            }
        }
    } else {
        assert(text =~= text.subrange(0, text.len() as int));
    }
}

/// Unicode has 25 characters of white space.
pub proof fn law_white_space_is_what_unicode_lists(c: char)
    ensures
        is_white_space(c) <==> {
            let code = c as int;
            ||| 9 <= code <= 13
            ||| code == 32
            ||| code == 0x85
            ||| code == 0xa0
            ||| code == 0x1680
            ||| 0x2000 <= code <= 0x200a
            ||| code == 0x2028
            ||| code == 0x2029
            ||| code == 0x202f
            ||| code == 0x205f
            ||| code == 0x3000
        },
{
}

/// The texts of a list are the texts of its strings, each in its place.
pub proof fn law_texts_stand_in_their_places(strings: Seq<String>)
    ensures
        texts(strings).len() == strings.len(),
        forall|i: int| 0 <= i < strings.len() ==> #[trigger] texts(strings)[i] == strings[i]@,
{
}

} // verus!
