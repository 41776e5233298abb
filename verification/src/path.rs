//! Paths as text, taken apart and put together by the rules of the platform.
//!
//! `std::path` reads a path by the rules of the platform that it runs on, which is known here by
//! its main separator: a slash on Unix, a backslash on Windows. On Unix every text is read alike. On
//! Windows a path may begin with a drive or a server, the prefix; what is made of such text is only
//! named. What is made of any other text is written down in full.

use std::path::{Path, MAIN_SEPARATOR};

use vstd::prelude::*;

use crate::json;
use crate::json::quote;
use crate::text;
use crate::text::{chars_of, fold_ascii, owned, same_text};

verus! {

/// Whether `separator` is the main separator of a platform.
pub open spec fn is_platform(separator: char) -> bool {
    separator == '/' || separator == '\\'
}

/// Whether `c` stands between components on the platform with the main separator `separator`.
pub open spec fn is_separator(separator: char, c: char) -> bool {
    c == '/' || c == separator
}

/// `path` with a slash for every separator.
pub open spec fn slashed(separator: char, path: Seq<char>) -> Seq<char> {
    text::with_char_replaced(path, separator, '/')
}

/// Whether `path` begins with two slashes.
pub open spec fn has_double_slash(path: Seq<char>) -> bool {
    path.len() >= 2 && path[0] == '/' && path[1] == '/'
}

/// Text in which the platform looks for no prefix: any text on Unix. On Windows text without a
/// colon, which could name a drive, and without two separators in front, which could name a server.
pub open spec fn has_no_prefix(separator: char, path: Seq<char>) -> bool {
    separator == '/' || !path.contains(':') && !has_double_slash(slashed(separator, path))
}

/// Text that is read alike on every platform: no backslash, no colon and no two slashes in front.
pub open spec fn is_portable(path: Seq<char>) -> bool {
    &&& !path.contains('\\')
    &&& !path.contains(':')
    &&& !has_double_slash(path)
}

/// The components of text with slashes. A slash in front is the root, which is written as the main
/// separator. Empty pieces are skipped, and so are single dots behind the beginning.
pub open spec fn slash_components(separator: char, path: Seq<char>) -> Seq<Seq<char>> {
    let parts = text::pieces(path, '/');
    let root = if path.len() > 0 && path[0] == '/' {
        seq![seq![separator]]
    } else {
        Seq::empty()
    };
    let first = if parts[0].len() > 0 {
        seq![parts[0]]
    } else {
        Seq::empty()
    };
    root + first + parts.skip(1).filter(|part: Seq<char>| part.len() > 0 && part != seq!['.'])
}

/// The texts of the components that `std::path::Path::components` finds in `path` on Windows.
pub uninterp spec fn windows_components(path: Seq<char>) -> Seq<Seq<char>>;

/// The texts of the components of `path` on the platform with the main separator `separator`.
pub open spec fn components_text(separator: char, path: Seq<char>) -> Seq<Seq<char>> {
    if has_no_prefix(separator, path) {
        slash_components(separator, slashed(separator, path))
    } else {
        windows_components(path)
    }
}

/// Calls `std::path::Path::components` and hands out the main separator of the platform and the
/// text of each component.
///
/// Claimed: on Unix, and on Windows for text without a prefix, repeated separators and one at the
/// end are ignored, and single dots count only at the beginning. On Windows the list is a function
/// of the text; what a prefix changes is left unsaid.
#[verifier::external_body]
pub(crate) fn components(path: &str) -> (read: (char, Vec<String>))
    ensures
        is_platform(read.0),
        has_no_prefix(read.0, path@) ==> text::texts(read.1@) == slash_components(
            read.0,
            slashed(read.0, path@),
        ),
        !has_no_prefix(read.0, path@) ==> text::texts(read.1@) == windows_components(path@),
{
    let names = Path::new(path).components();
    (MAIN_SEPARATOR, names.map(|c| c.as_os_str().to_string_lossy().into_owned()).collect())
}

/// `base` and `rest` with `glue` between them, unless `base` is empty or ends with a separator.
pub open spec fn glued(
    separator: char,
    glue: char,
    base: Seq<char>,
    rest: Seq<char>,
) -> Seq<char> {
    if base.len() == 0 || is_separator(separator, base.last()) {
        base + rest
    } else {
        base.push(glue) + rest
    }
}

/// What `std::path::Path::join` makes of `base` and `rest` on Windows.
pub uninterp spec fn windows_joined(base: Seq<char>, rest: Seq<char>) -> Seq<char>;

/// `rest` below `base` on the platform with the main separator `separator`. A `rest` with a root
/// of its own stands alone.
pub open spec fn joined_text(separator: char, base: Seq<char>, rest: Seq<char>) -> Seq<char> {
    if has_no_prefix(separator, base) && has_no_prefix(separator, rest) {
        if rest.len() > 0 && is_separator(separator, rest[0]) {
            rest
        } else {
            glued(separator, separator, base, rest)
        }
    } else {
        windows_joined(base, rest)
    }
}

/// `path` is `rest` below `base`, on some platform.
pub open spec fn is_joined(path: Seq<char>, base: Seq<char>, rest: Seq<char>) -> bool {
    path == joined_text('/', base, rest) || path == joined_text('\\', base, rest)
}

/// Calls `std::path::Path::join`.
///
/// Claimed: on Unix, and on Windows for texts without a prefix, a rest with a root replaces the
/// base, and any other is put behind it and the main separator. On Windows the text is a function of
/// both texts; what a prefix changes is left unsaid.
#[verifier::external_body]
pub(crate) fn join(base: &str, rest: &str) -> (path: String)
    ensures
        path@ == joined_text('/', base@, rest@) || path@ == if has_no_prefix('\\', base@)
            && has_no_prefix('\\', rest@) {
            joined_text('\\', base@, rest@)
        } else {
            windows_joined(base@, rest@)
        },
{
    Path::new(base).join(rest).to_string_lossy().into_owned()
}

/// A relative path in its simplest form: no prefix, no empty piece and no single dot.
pub open spec fn is_plain_on(separator: char, rest: Seq<char>) -> bool {
    let parts = text::pieces(slashed(separator, rest), '/');
    &&& has_no_prefix(separator, rest)
    &&& forall|i: int|
        0 <= i < parts.len() ==> (#[trigger] parts[i]).len() > 0 && parts[i] != seq!['.']
}

/// Whether `to` ends the last component of `path`: the text before it has all the components, and
/// no shorter text has them.
pub open spec fn ends_components(separator: char, path: Seq<char>, to: int) -> bool {
    &&& 0 <= to <= path.len()
    &&& components_text(separator, path.take(to)) == components_text(separator, path)
    &&& forall|shorter: int|
        0 <= shorter < to ==> #[trigger] components_text(separator, path.take(shorter))
            != components_text(separator, path)
}

/// Whether the component of `path` behind those in `taken` begins at `from`: the text before it has
/// just these components and ends with a separator, and no longer text does.
pub open spec fn begins_behind(
    separator: char,
    path: Seq<char>,
    taken: Seq<Seq<char>>,
    from: int,
) -> bool {
    if taken.len() == 0 {
        from == 0
    } else {
        &&& 0 < from <= path.len()
        &&& is_separator(separator, path[from - 1])
        &&& components_text(separator, path.take(from)) == taken
        &&& forall|longer: int|
            from < longer <= path.len() && is_separator(separator, path[longer - 1])
                ==> #[trigger] components_text(separator, path.take(longer)) != taken
    }
}

/// Whether `rest` is what stands in `path` behind the components of `base`, from the beginning of
/// the first to the end of the last component that is left.
pub open spec fn is_remainder(
    separator: char,
    rest: Seq<char>,
    path: Seq<char>,
    base: Seq<char>,
) -> bool {
    let taken = components_text(separator, base);
    if taken == components_text(separator, path) {
        rest.len() == 0
    } else {
        exists|from: int, to: int|
            {
                &&& #[trigger] begins_behind(separator, path, taken, from)
                &&& #[trigger] ends_components(separator, path, to)
                &&& from <= to
                &&& rest == path.subrange(from, to)
            }
    }
}

/// What `std::path::Path::strip_prefix` leaves of `path` once `base` is taken off its front, on
/// Windows; nothing where `base` is not its front.
pub uninterp spec fn windows_stripped(path: Seq<char>, base: Seq<char>) -> Option<Seq<char>>;

/// The text that a string may hold.
pub open spec fn optional_text(text: Option<String>) -> Option<Seq<char>> {
    match text {
        Some(text) => Some(text@),
        None => None,
    }
}

/// `rest` is what is left of `path` below `base`, on the platform with the main separator
/// `separator`, where neither has a prefix. There is a rest exactly where the components of `base`
/// come first, and it is what stands behind them. Where `path` was put together of `base` and a plain
/// rest, it is that rest.
pub open spec fn is_slash_stripped(
    separator: char,
    rest: Option<Seq<char>>,
    path: Seq<char>,
    base: Seq<char>,
) -> bool {
    &&& rest is Some <==> components_text(separator, base).is_prefix_of(
        components_text(separator, path),
    )
    &&& rest matches Some(rest) ==> is_remainder(separator, rest, path, base)
    &&& forall|plain: Seq<char>, glue: char|
        path == #[trigger] glued(separator, glue, base, plain) && is_separator(separator, glue)
            && is_plain_on(separator, plain) ==> rest == Some(plain)
}

/// `rest` is what is left of `path` below `base` on the platform with the main separator
/// `separator`.
pub open spec fn is_stripped_on(
    separator: char,
    rest: Option<Seq<char>>,
    path: Seq<char>,
    base: Seq<char>,
) -> bool {
    if has_no_prefix(separator, path) && has_no_prefix(separator, base) {
        is_slash_stripped(separator, rest, path, base)
    } else {
        rest == windows_stripped(path, base)
    }
}

/// `rest` is what is left of `path` below `base`, on some platform.
pub open spec fn is_stripped(rest: Option<Seq<char>>, path: Seq<char>, base: Seq<char>) -> bool {
    is_stripped_on('/', rest, path, base) || is_stripped_on('\\', rest, path, base)
}

/// Calls `std::path::Path::strip_prefix`.
///
/// Claimed: on Unix, and on Windows for texts without a prefix, there is a rest exactly where the
/// components of `base` are the first components of `path`. It is the part of `path` behind them,
/// without separators and single dots in front and at the end, so that a plain rest is given back
/// as it was joined. On Windows the result is a function of both texts; what a prefix changes is
/// left unsaid.
#[verifier::external_body]
pub(crate) fn strip_prefix(path: &str, base: &str) -> (rest: Option<String>)
    ensures
        is_slash_stripped('/', optional_text(rest), path@, base@) || if has_no_prefix('\\', path@)
            && has_no_prefix('\\', base@) {
            is_slash_stripped('\\', optional_text(rest), path@, base@)
        } else {
            optional_text(rest) == windows_stripped(path@, base@)
        },
{
    Path::new(path).strip_prefix(base).ok().map(|rest| rest.to_string_lossy().into_owned())
}

/// Where no character stands in the text, replacing it changes nothing.
pub proof fn lemma_slashed_portable(separator: char, path: Seq<char>)
    requires
        separator == '/' || !path.contains(separator),
    ensures
        slashed(separator, path) == path,
{
    assert forall|i: int| 0 <= i < path.len() implies path[i] != separator || separator == '/' by {
        assert(path.contains(path[i]));
    }
    assert(slashed(separator, path) =~= path);
}

/// Portable text has no prefix anywhere, and the same slashes.
pub proof fn lemma_portable(separator: char, path: Seq<char>)
    requires
        is_platform(separator),
        is_portable(path),
    ensures
        has_no_prefix(separator, path),
        slashed(separator, path) == path,
        components_text(separator, path) == slash_components(separator, path),
{
    lemma_slashed_portable(separator, path);
}

/// A plain path begins with a name.
pub proof fn lemma_plain_begins_with_a_name(separator: char, rest: Seq<char>)
    requires
        is_platform(separator),
        is_plain_on(separator, rest),
    ensures
        rest.len() > 0,
        !is_separator(separator, rest[0]),
{
    let text = slashed(separator, rest);
    let parts = text::pieces(text, '/');
    text::lemma_pieces_not_empty(text, '/');
    assert(parts[0].len() > 0);
    if text.len() > 0 && text[0] == '/' {
        let empty = Seq::<char>::empty();
        assert(empty.push('/') + text.skip(1) =~= text);
        text::lemma_pieces_of_joined_text(empty, text.skip(1), '/');
        assert(parts[0] == text::pieces(empty, '/')[0]);
    }
}

/// The pieces of a path and a rest that is glued to it are those of both, but for an empty piece at
/// the end of the path. No prefix comes of it.
pub proof fn lemma_glued(separator: char, glue: char, base: Seq<char>, rest: Seq<char>)
    requires
        is_platform(separator),
        is_separator(separator, glue),
        has_no_prefix(separator, base),
        is_plain_on(separator, rest),
    ensures
        has_no_prefix(separator, glued(separator, glue, base, rest)),
        ({
            let joined = slashed(separator, glued(separator, glue, base, rest));
            let parts = text::pieces(joined, '/');
            let base_parts = text::pieces(slashed(separator, base), '/');
            let rest_parts = text::pieces(slashed(separator, rest), '/');
            let front = parts.len() - rest_parts.len();
            &&& (joined.len() > 0 && joined[0] == '/') == (slashed(separator, base).len() > 0
                && slashed(separator, base)[0] == '/')
            &&& front == base_parts.len() || front == base_parts.len() - 1
                && base_parts.last().len() == 0
            &&& forall|i: int| 0 <= i < front ==> #[trigger] parts[i] == base_parts[i]
            &&& forall|i: int| 0 <= i < rest_parts.len() ==> parts[front + i] == #[trigger] rest_parts[i]
        }),
{
    let path = glued(separator, glue, base, rest);
    let joined = slashed(separator, path);
    let left = slashed(separator, base);
    let right = slashed(separator, rest);
    lemma_plain_begins_with_a_name(separator, rest);
    if base.len() == 0 {
        assert(path =~= rest);
        assert(left =~= Seq::<char>::empty());
    } else if is_separator(separator, base.last()) {
        let less = left.drop_last();
        assert(left =~= less.push('/'));
        assert(joined =~= less.push('/') + right);
        text::lemma_pieces_of_joined_text(less, right, '/');
        assert(text::pieces(left, '/') == text::pieces(less, '/').push(Seq::empty()));
    } else {
        assert(joined =~= left.push('/') + right);
        text::lemma_pieces_of_joined_text(left, right, '/');
    }
    if separator != '/' {
        let front = path.len() - rest.len();
        assert forall|i: int| 0 <= i < path.len() implies path[i] != ':' by {
            if i < base.len() {
                assert(path[i] == base[i]);
                assert(base.contains(base[i]));
            } else if i >= front {
                assert(path[i] == rest[i - front]);
                assert(rest.contains(rest[i - front]));
            }
        }
        if base.len() == 0 {
            assert(joined[0] == right[0]);
        } else if base.len() == 1 {
            assert(joined[0] == left[0]);
            if is_separator(separator, base[0]) {
                assert(joined[1] == right[0]);
            }
        } else {
            assert(joined[0] == left[0] && joined[1] == left[1]);
        }
    }
}

/// A portable path and a plain portable rest below it make a portable path.
pub proof fn lemma_joined_is_portable(base: Seq<char>, rest: Seq<char>)
    requires
        is_portable(base),
        is_portable(rest),
        is_plain_on('/', rest),
    ensures
        is_portable(joined_text('/', base, rest)),
{
    let joined = joined_text('/', base, rest);
    let front = joined.len() - rest.len();
    lemma_plain_begins_with_a_name('/', rest);
    assert forall|i: int| 0 <= i < joined.len() implies joined[i] != '\\' && joined[i] != ':' by {
        if i < base.len() {
            assert(joined[i] == base[i]);
            assert(base.contains(base[i]));
        } else if i >= front {
            assert(joined[i] == rest[i - front]);
            assert(rest.contains(rest[i - front]));
        }
    }
    if base.len() == 1 {
        assert(joined[1] == '/' ==> base[0] != '/');
    }
}

/// The components of `path` as one text: a JSON literal for each, and a slash for the root.
pub open spec fn key_of_components(separator: char, names: Seq<Seq<char>>) -> Seq<char>
    decreases names.len(),
{
    if names.len() == 0 {
        Seq::empty()
    } else {
        key_of_components(separator, names.drop_last()) + json::quoted(
            if names.last() == seq![separator] {
                seq!['/']
            } else {
                names.last()
            },
        )
    }
}

/// Whether `name` is a drive in front of a path.
pub open spec fn is_drive(separator: char, name: Seq<char>) -> bool {
    separator == '\\' && name.len() == 2 && name[1] == ':'
}

/// The components of a path, with a small letter for the drive, if there is one in front.
pub open spec fn with_small_drive(separator: char, names: Seq<Seq<char>>) -> Seq<Seq<char>> {
    if names.len() > 0 && is_drive(separator, names[0]) {
        names.update(0, seq![text::ascii_folded(names[0][0]), ':'])
    } else {
        names
    }
}

/// The text by which `path` is known on the platform with the main separator `separator`, however
/// its components are written. A drive is the same in capital and small letters.
pub open spec fn key_on(separator: char, path: Seq<char>) -> Seq<char> {
    key_of_components(separator, with_small_drive(separator, components_text(separator, path)))
}

/// `key` is the text by which `path` is known, on some platform.
pub open spec fn is_key(key: Seq<char>, path: Seq<char>) -> bool {
    key == key_on('/', path) || key == key_on('\\', path)
}

/// The text by which `path` is known, the same for every way to write its components. A server in
/// front of a path counts as it is written.
pub fn path_key(path: &str) -> (key: String)
    ensures
        is_key(key@, path@),
{
    let (separator, names) = components(path);
    let ghost all = with_small_drive(separator, text::texts(names@));
    let mut key = String::new();
    let mut i: usize = 0;
    let mut root = String::new();
    root.push(separator);
    assert(root@ =~= seq![separator]);
    assert(all.take(0) =~= Seq::<Seq<char>>::empty());
    while i < names.len()
        invariant
            i <= names@.len(),
            is_platform(separator),
            all == with_small_drive(separator, text::texts(names@)),
            root@ == seq![separator],
            key@ == key_of_components(separator, all.take(i as int)),
        decreases names@.len() - i,
    {
        let mut name = owned(names[i].as_str());
        if i == 0 {
            name = small_drive(separator, name);
        }
        assert(all[i as int] == name@);
        assert(all.take(i + 1).drop_last() =~= all.take(i as int));
        assert(all.take(i + 1).last() == name@);
        if same_text(name.as_str(), root.as_str()) {
            proof {
                reveal_strlit("/");
                assert("/"@ =~= seq!['/']);
            }
            key.append(quote("/").as_str());
        } else {
            key.append(quote(name.as_str()).as_str());
        }
        i += 1;
    }
    assert(all.take(i as int) =~= all);
    key
}

/// The first component `name`, with a small letter where it is a drive.
fn small_drive(separator: char, name: String) -> (small: String)
    ensures
        small@ == if is_drive(separator, name@) {
            seq![text::ascii_folded(name@[0]), ':']
        } else {
            name@
        },
{
    let chars = chars_of(name.as_str());
    if separator == '\\' && chars.len() == 2 && chars[1] == ':' {
        let mut small = String::new();
        small.push(fold_ascii(chars[0]));
        small.push(':');
        assert(small@ =~= seq![text::ascii_folded(name@[0]), ':']);
        small
    } else {
        name
    }
}

/// Text without a colon has no drive in front.
proof fn lemma_no_drive(separator: char, path: Seq<char>)
    requires
        is_platform(separator),
        has_no_prefix(separator, path),
    ensures
        with_small_drive(separator, components_text(separator, path)) == components_text(
            separator,
            path,
        ),
{
    let names = components_text(separator, path);
    let text = slashed(separator, path);
    let parts = text::pieces(text, '/');
    if names.len() > 0 && is_drive(separator, names[0]) {
        text::lemma_pieces_not_empty(text, '/');
        assert forall|k: int| 0 <= k < text.len() implies text[k] != ':' by {
            assert(path.contains(path[k]));
        }
        if text.len() > 0 && text[0] == '/' {
            assert(names[0] == seq![separator]);
        } else {
            lemma_plain_start(text);
            assert(names[0] == parts[0]);
            lemma_pieces_hold_no(text, ':', 0);
        }
    }
}

/// Text that does not begin with a slash begins with its first piece, unless it is empty.
proof fn lemma_plain_start(path: Seq<char>)
    requires
        path.len() == 0 || path[0] != '/',
    ensures
        path.len() > 0 ==> text::pieces(path, '/')[0].len() > 0,
        path.len() == 0 ==> slash_components('\\', path).len() == 0,
    decreases path.len(),
{
    let parts = text::pieces(path, '/');
    let keep = |part: Seq<char>| part.len() > 0 && part != seq!['.'];
    if path.len() == 0 {
        assert(parts.skip(1) =~= Seq::<Seq<char>>::empty());
        reveal(Seq::filter);
        assert(parts.skip(1).filter(keep).len() == 0);
    } else {
        let less = path.drop_last();
        text::lemma_pieces_not_empty(less, '/');
        lemma_plain_start(less);
    }
}

/// A key is made from the front as well as from the back.
proof fn lemma_key_from_the_front(separator: char, names: Seq<Seq<char>>)
    requires
        names.len() > 0,
    ensures
        key_of_components(separator, names) == key_of_components(separator, names.take(1))
            + key_of_components(separator, names.skip(1)),
    decreases names.len(),
{
    if names.len() == 1 {
        assert(names.take(1) =~= names);
        assert(names.skip(1) =~= Seq::<Seq<char>>::empty());
        assert(key_of_components(separator, names) =~= key_of_components(separator, names)
            + Seq::<char>::empty());
    } else {
        let less = names.drop_last();
        lemma_key_from_the_front(separator, less);
        assert(less.take(1) =~= names.take(1));
        assert(names.skip(1).drop_last() =~= less.skip(1));
        assert(names.skip(1).last() == names.last());
        assert(key_of_components(separator, names) =~= key_of_components(separator, names.take(1))
            + key_of_components(separator, names.skip(1)));
    }
}

proof fn lemma_rest_lacks_what_all_lack(names: Seq<Seq<char>>, name: Seq<char>)
    requires
        names.len() > 0,
    ensures
        names.skip(1).contains(name) ==> names.contains(name),
{
    if names.skip(1).contains(name) {
        let i = choose|i: int| 0 <= i < names.skip(1).len() && names.skip(1)[i] == name;
        assert(names[i + 1] == name);
    }
}

/// How a component stands in a key: the root as a slash, any other as it is.
spec fn in_key(separator: char, name: Seq<char>) -> Seq<char> {
    if name == seq![separator] {
        seq!['/']
    } else {
        name
    }
}

proof fn lemma_key_begins_with_the_first(separator: char, names: Seq<Seq<char>>)
    requires
        names.len() > 0,
    ensures
        key_of_components(separator, names) == json::quoted(in_key(separator, names[0]))
            + key_of_components(separator, names.skip(1)),
        key_of_components(separator, names).len() > 0,
{
    lemma_key_from_the_front(separator, names);
    let front = names.take(1);
    assert(front.drop_last() =~= Seq::<Seq<char>>::empty());
    assert(key_of_components(separator, front.drop_last()) =~= Seq::<char>::empty());
    assert(front.last() == names[0]);
    assert(key_of_components(separator, front) =~= json::quoted(in_key(separator, names[0])));
}

proof fn lemma_key_tells_components(separator: char, a: Seq<Seq<char>>, b: Seq<Seq<char>>)
    requires
        key_of_components(separator, a) == key_of_components(separator, b),
        separator == '/' || !a.contains(seq!['/']) && !b.contains(seq!['/']),
    ensures
        a == b,
    decreases a.len(),
{
    if a.len() > 0 {
        lemma_key_begins_with_the_first(separator, a);
    }
    if b.len() > 0 {
        lemma_key_begins_with_the_first(separator, b);
    }
    if a.len() == 0 || b.len() == 0 {
        assert(key_of_components(separator, Seq::empty()).len() == 0);
        assert(a =~= b);
    } else {
        json::law_literal_is_unambiguous(
            in_key(separator, a[0]),
            in_key(separator, b[0]),
            key_of_components(separator, a.skip(1)),
            key_of_components(separator, b.skip(1)),
        );
        assert(a.contains(a[0]) && b.contains(b[0]));
        assert(a[0] == b[0]);
        lemma_rest_lacks_what_all_lack(a, seq!['/']);
        lemma_rest_lacks_what_all_lack(b, seq!['/']);
        lemma_key_tells_components(separator, a.skip(1), b.skip(1));
        assert(a =~= seq![a[0]] + a.skip(1));
        assert(b =~= seq![b[0]] + b.skip(1));
    }
}

/// No piece holds the separator.
proof fn lemma_pieces_hold_no_slash(path: Seq<char>, i: int)
    requires
        0 <= i < text::pieces(path, '/').len(),
    ensures
        text::pieces(path, '/')[i] != seq!['/'],
        !text::pieces(path, '/')[i].contains('/'),
    decreases path.len(),
{
    let parts = text::pieces(path, '/');
    if path.len() > 0 {
        let less = path.drop_last();
        let before = text::pieces(less, '/');
        text::lemma_pieces_not_empty(less, '/');
        if path.last() == '/' {
            if i < before.len() {
                lemma_pieces_hold_no_slash(less, i);
            }
        } else {
            lemma_pieces_hold_no_slash(less, i);
            if i == before.len() - 1 {
                let piece = before.last().push(path.last());
                assert(parts[i] == piece);
                assert forall|k: int| 0 <= k < piece.len() implies piece[k] != '/' by {
                    if k < before.last().len() {
                        assert(before.last().contains(before.last()[k]));
                    }
                }
            }
        }
    }
    if parts[i] == seq!['/'] {
        assert(parts[i][0] == '/');
        assert(parts[i].contains(parts[i][0]));
    }
}

proof fn lemma_components_hold_no_slash(path: Seq<char>)
    ensures
        !slash_components('\\', path).contains(seq!['/']),
{
    let parts = text::pieces(path, '/');
    let keep = |part: Seq<char>| part.len() > 0 && part != seq!['.'];
    let names = slash_components('\\', path);
    let rest = parts.skip(1).filter(keep);
    let front = names.len() - rest.len();
    text::lemma_pieces_not_empty(path, '/');
    if names.contains(seq!['/']) {
        let i = choose|i: int| 0 <= i < names.len() && names[i] == seq!['/'];
        if i >= front {
            assert(names[i] == rest[i - front]);
            assert(rest.contains(seq!['/']));
            parts.skip(1).lemma_filter_contains_rev(keep, seq!['/']);
            let j = choose|j: int| 0 <= j < parts.skip(1).len() && parts.skip(1)[j] == seq!['/'];
            lemma_pieces_hold_no_slash(path, j + 1);
        } else {
            lemma_pieces_hold_no_slash(path, 0);
            assert(seq!['\\'] != seq!['/']) by {
                assert(seq!['\\'][0] != seq!['/'][0]);
            }
        }
    }
}

/// Two paths are known by the same text exactly where they have the same components. This holds of
/// all text on Unix, and on Windows of text without a prefix.
pub proof fn law_key_tells_the_components(separator: char, a: Seq<char>, b: Seq<char>)
    requires
        is_platform(separator),
        has_no_prefix(separator, a),
        has_no_prefix(separator, b),
    ensures
        key_on(separator, a) == key_on(separator, b) <==> components_text(separator, a)
            == components_text(separator, b),
{
    lemma_no_drive(separator, a);
    lemma_no_drive(separator, b);
    if key_on(separator, a) == key_on(separator, b) {
        lemma_components_hold_no_slash(slashed(separator, a));
        lemma_components_hold_no_slash(slashed(separator, b));
        lemma_key_tells_components(
            separator,
            components_text(separator, a),
            components_text(separator, b),
        );
    }
}

/// A portable path is known by one text on whatever platform.
pub proof fn law_portable_path_has_one_key(key: Seq<char>, path: Seq<char>)
    requires
        is_portable(path),
        is_key(key, path),
    ensures
        key == key_on('/', path),
{
    lemma_portable('/', path);
    lemma_portable('\\', path);
    let unix = slash_components('/', path);
    let windows = slash_components('\\', path);
    assert forall|i: int| 0 <= i < path.len() implies path[i] != '\\' by {
        assert(path.contains(path[i]));
    }
    assert forall|i: int| 0 <= i < unix.len() implies #[trigger] unix[i] == windows[i] && windows[i]
        != seq!['\\'] || unix[i] == seq!['/'] && windows[i] == seq!['\\'] by {
        lemma_component_without_backslash(path, i);
    }
    lemma_same_key(unix, windows);
    lemma_no_drive('/', path);
    lemma_no_drive('\\', path);
}

/// A component of text without backslashes is none.
#[verifier::rlimit(40)]
proof fn lemma_component_without_backslash(path: Seq<char>, i: int)
    requires
        forall|k: int| 0 <= k < path.len() ==> path[k] != '\\',
        0 <= i < slash_components('/', path).len(),
    ensures
        ({
            let rooted = path.len() > 0 && path[0] == '/';
            let unix = slash_components('/', path);
            let windows = slash_components('\\', path);
            &&& unix.len() == windows.len()
            &&& rooted && i == 0 ==> unix[i] == seq!['/'] && windows[i] == seq!['\\']
            &&& !(rooted && i == 0) ==> unix[i] == windows[i] && unix[i] != seq!['\\'] && unix[i]
                != seq!['/']
        }),
{
    let parts = text::pieces(path, '/');
    let keep = |part: Seq<char>| part.len() > 0 && part != seq!['.'];
    let names = slash_components('/', path);
    let rest = parts.skip(1).filter(keep);
    let front = names.len() - rest.len();
    let rooted = path.len() > 0 && path[0] == '/';
    text::lemma_pieces_not_empty(path, '/');
    if i >= front {
        assert(names[i] == rest[i - front]);
        assert(rest.contains(names[i]));
        parts.skip(1).lemma_filter_contains_rev(keep, names[i]);
        let j = choose|j: int| 0 <= j < parts.skip(1).len() && parts.skip(1)[j] == names[i];
        assert(parts[j + 1] == names[i]);
        lemma_pieces_hold_no(path, '\\', j + 1);
        lemma_pieces_hold_no_slash(path, j + 1);
    } else if !(rooted && i == 0) {
        assert(names[i] == parts[0]);
        lemma_pieces_hold_no(path, '\\', 0);
        lemma_pieces_hold_no_slash(path, 0);
    }
}

/// A piece holds no character that the text does not hold.
proof fn lemma_pieces_hold_no(path: Seq<char>, c: char, i: int)
    requires
        forall|k: int| 0 <= k < path.len() ==> path[k] != c,
        0 <= i < text::pieces(path, '/').len(),
    ensures
        forall|k: int|
            0 <= k < text::pieces(path, '/')[i].len() ==> text::pieces(path, '/')[i][k] != c,
        text::pieces(path, '/')[i] != seq![c],
    decreases path.len(),
{
    let parts = text::pieces(path, '/');
    if path.len() > 0 {
        let less = path.drop_last();
        let before = text::pieces(less, '/');
        text::lemma_pieces_not_empty(less, '/');
        if i < before.len() {
            lemma_pieces_hold_no(less, c, i);
        }
        if path.last() != '/' && i == before.len() - 1 {
            assert(parts[i] == before.last().push(path.last()));
        }
    }
    if parts[i] == seq![c] {
        assert(parts[i][0] == c);
    }
}

proof fn lemma_same_key(unix: Seq<Seq<char>>, windows: Seq<Seq<char>>)
    requires
        unix.len() == windows.len(),
        forall|i: int|
            0 <= i < unix.len() ==> #[trigger] unix[i] == windows[i] && windows[i] != seq!['\\']
                || unix[i] == seq!['/'] && windows[i] == seq!['\\'],
    ensures
        key_of_components('/', unix) == key_of_components('\\', windows),
    decreases unix.len(),
{
    if unix.len() > 0 {
        assert(unix[unix.len() - 1] == unix.last());
        lemma_same_key(unix.drop_last(), windows.drop_last());
    }
}

/// On Windows a drive is the same in capital and small letters, and two drives that differ otherwise are
/// not: paths that begin with drives and go on alike are known by the same text exactly where the letters
/// are the same but for ASCII case.
pub proof fn law_drive_is_the_same_in_either_case(a: Seq<char>, b: Seq<char>)
    requires
        ({
            let names_a = components_text('\\', a);
            let names_b = components_text('\\', b);
            &&& names_a.len() > 0 && names_b.len() > 0
            &&& names_a[0].len() == 2 && names_a[0][1] == ':'
            &&& names_b[0].len() == 2 && names_b[0][1] == ':'
            &&& names_a.skip(1) == names_b.skip(1)
            &&& !names_a.skip(1).contains(seq!['/'])
        }),
    ensures
        key_on('\\', a) == key_on('\\', b) <==> text::ascii_folded(
            components_text('\\', a)[0][0],
        ) == text::ascii_folded(components_text('\\', b)[0][0]),
{
    let names_a = components_text('\\', a);
    let names_b = components_text('\\', b);
    let small_a = with_small_drive('\\', names_a);
    let small_b = with_small_drive('\\', names_b);
    assert(small_a.skip(1) =~= names_a.skip(1));
    assert(small_b.skip(1) =~= names_b.skip(1));
    assert(small_a =~= seq![small_a[0]] + small_a.skip(1));
    assert(small_b =~= seq![small_b[0]] + small_b.skip(1));
    lemma_no_bare_slash(small_a);
    lemma_no_bare_slash(small_b);
    if key_on('\\', a) == key_on('\\', b) {
        lemma_key_tells_components('\\', small_a, small_b);
        assert(small_a[0][0] == small_b[0][0]);
    }
}

proof fn lemma_no_bare_slash(names: Seq<Seq<char>>)
    requires
        names.len() > 0,
        names[0].len() == 2,
        !names.skip(1).contains(seq!['/']),
    ensures
        !names.contains(seq!['/']),
{
    if names.contains(seq!['/']) {
        let i = choose|i: int| 0 <= i < names.len() && names[i] == seq!['/'];
        if i == 0 {
            assert(seq!['/'].len() == 1);
        } else {
            assert(names.skip(1)[i - 1] == seq!['/']);
        }
    }
}

} // verus!
