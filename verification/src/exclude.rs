//! Filters out noisy paths (version control metadata, dependency caches, editor lock files) that
//! most people who watch a general-purpose folder do not want to hear of on every change.

use vstd::prelude::*;

use crate::path::components;
use crate::text;
use crate::text::{ends_with, eq_ignore_ascii_case, starts_with};

verus! {

/// Directory and file names that are skipped anywhere in a watched tree.
pub open spec fn is_noisy_name(name: Seq<char>) -> bool {
    ||| text::same_but_for_ascii_case(".git"@, name)
    ||| text::same_but_for_ascii_case(".svn"@, name)
    ||| text::same_but_for_ascii_case(".hg"@, name)
    ||| text::same_but_for_ascii_case("node_modules"@, name)
    ||| text::same_but_for_ascii_case("__pycache__"@, name)
    ||| text::same_but_for_ascii_case(".venv"@, name)
    ||| text::same_but_for_ascii_case("venv"@, name)
    ||| text::same_but_for_ascii_case(".DS_Store"@, name)
    ||| text::same_but_for_ascii_case("Thumbs.db"@, name)
    ||| text::same_but_for_ascii_case("desktop.ini"@, name)
}

/// Name endings of the transient and lock files that most editors create and remove around every
/// save. The save itself is reported separately.
pub open spec fn has_transient_suffix(name: Seq<char>) -> bool {
    ||| ".tmp"@.is_suffix_of(name)
    ||| ".swp"@.is_suffix_of(name)
    ||| ".swx"@.is_suffix_of(name)
    ||| "~"@.is_suffix_of(name)
}

/// Name beginnings of the same kind of files, such as the lock file `~$report.docx`.
pub open spec fn has_transient_prefix(name: Seq<char>) -> bool {
    ||| "~$"@.is_prefix_of(name)
    ||| ".~"@.is_prefix_of(name)
}

/// Which paths under a watched root are ignored: the built-in ones, and the names that the user
/// added for that folder.
#[derive(Debug)]
pub struct ExcludeRules {
    custom_names: Vec<String>,
}

impl Clone for ExcludeRules {
    fn clone(&self) -> (copy: Self)
        ensures
            copy@ == self@,
    {
        let copy = ExcludeRules { custom_names: self.custom_names.clone() };
        assert(copy@ =~= self@);
        copy
    }
}

impl View for ExcludeRules {
    type V = Seq<Seq<char>>;

    /// The names that the user added.
    closed spec fn view(&self) -> Seq<Seq<char>> {
        text::texts(self.custom_names@)
    }
}

/// Whether rules with the user's names `custom` ignore a component called `name`.
pub open spec fn name_excluded(custom: Seq<Seq<char>>, name: Seq<char>) -> bool {
    ||| is_noisy_name(name)
    ||| exists|i: int| 0 <= i < custom.len() && #[trigger] text::same_but_for_ascii_case(custom[i], name)
    ||| has_transient_suffix(name)
    ||| has_transient_prefix(name)
}

/// Whether rules with the user's names `custom` ignore a path with the components `names`.
pub open spec fn any_name_excluded(custom: Seq<Seq<char>>, names: Seq<Seq<char>>) -> bool {
    exists|i: int| 0 <= i < names.len() && #[trigger] name_excluded(custom, names[i])
}

/// Whether rules with the user's names `custom` ignore a path with the components `names`, some
/// of which may have no text.
pub open spec fn any_readable_name_excluded(
    custom: Seq<Seq<char>>,
    names: Seq<Option<String>>,
) -> bool {
    exists|i: int|
        0 <= i < names.len() && (#[trigger] names[i]) is Some && name_excluded(custom, names[i]->0@)
}

/// Whether `excluded` is what rules with the user's names `custom` decide for `path`.
pub open spec fn decides_path(excluded: bool, custom: Seq<Seq<char>>, path: Seq<char>) -> bool {
    ||| excluded == any_name_excluded(custom, crate::path::components_text('/', path))
    ||| excluded == any_name_excluded(custom, crate::path::components_text('\\', path))
}

/// Whether `excluded` is what rules with the user's names `custom` decide for `path`. Where the path
/// is not Unicode text, `components` are the names of its components, and decide in its place.
pub open spec fn decides_any_path(
    excluded: bool,
    custom: Seq<Seq<char>>,
    path: Seq<char>,
    components: Option<Vec<Option<String>>>,
) -> bool {
    match components {
        Some(names) => excluded == any_readable_name_excluded(custom, names@),
        None => decides_path(excluded, custom, path),
    }
}

impl Default for ExcludeRules {
    /// The built-in rules alone.
    fn default() -> (rules: Self)
        ensures
            rules@ == Seq::<Seq<char>>::empty(),
    {
        ExcludeRules::new(Vec::new())
    }
}

impl ExcludeRules {
    /// The built-in rules, and `custom_names`.
    pub fn new(custom_names: Vec<String>) -> (rules: Self)
        ensures
            rules@ == text::texts(custom_names@),
    {
        ExcludeRules { custom_names }
    }

    /// True if `path`, or any directory in it, is to be ignored.
    pub fn is_excluded(&self, path: &str) -> (excluded: bool)
        ensures
            decides_path(excluded, self@, path@),
    {
        let (_separator, names) = components(path);
        self.names_excluded(&names)
    }

    /// True if one of a path's components is to be ignored.
    pub fn names_excluded(&self, names: &Vec<String>) -> (excluded: bool)
        ensures
            excluded == any_name_excluded(self@, text::texts(names@)),
    {
        let mut i: usize = 0;
        while i < names.len()
            invariant
                i <= names@.len(),
                forall|j: int| 0 <= j < i ==> !name_excluded(self@, #[trigger] text::texts(names@)[j]),
            decreases names@.len() - i,
        {
            if self.name_matches(names[i].as_str()) {
                assert(name_excluded(self@, text::texts(names@)[i as int]));
                return true;
            }
            i += 1;
        }
        false
    }

    /// True if one of a path's components is to be ignored. A component whose name is not
    /// Unicode text has none here, and is never the reason.
    pub fn readable_names_excluded(&self, names: &Vec<Option<String>>) -> (excluded: bool)
        ensures
            excluded == any_readable_name_excluded(self@, names@),
    {
        let mut i: usize = 0;
        while i < names.len()
            invariant
                i <= names@.len(),
                forall|j: int|
                    0 <= j < i ==> !((#[trigger] names@[j]) is Some && name_excluded(
                        self@,
                        names@[j]->0@,
                    )),
            decreases names@.len() - i,
        {
            if let Some(name) = &names[i] {
                if self.name_matches(name.as_str()) {
                    assert(names@[i as int] is Some);
                    return true;
                }
            }
            i += 1;
        }
        false
    }

    /// True if `path`, or any directory in it, is to be ignored. Where the path is not Unicode text,
    /// `path` stands in for it and `components` are the names of its components.
    pub fn is_any_path_excluded(
        &self,
        path: &str,
        components: &Option<Vec<Option<String>>>,
    ) -> (excluded: bool)
        ensures
            decides_any_path(excluded, self@, path@, *components),
    {
        match components {
            Some(names) => self.readable_names_excluded(names),
            None => self.is_excluded(path),
        }
    }

    /// True if a component called `name` is to be ignored.
    pub fn name_matches(&self, name: &str) -> (matches: bool)
        ensures
            matches == name_excluded(self@, name@),
    {
        noisy_name(name) || self.custom_name(name) || transient_suffix(name) || transient_prefix(name)
    }

    fn custom_name(&self, name: &str) -> (found: bool)
        ensures
            found == exists|i: int|
                0 <= i < self@.len() && #[trigger] text::same_but_for_ascii_case(self@[i], name@),
    {
        let mut i: usize = 0;
        while i < self.custom_names.len()
            invariant
                i <= self.custom_names@.len(),
                forall|j: int|
                    0 <= j < i ==> !#[trigger] text::same_but_for_ascii_case(self@[j], name@),
            decreases self.custom_names@.len() - i,
        {
            if eq_ignore_ascii_case(self.custom_names[i].as_str(), name) {
                assert(text::same_but_for_ascii_case(self@[i as int], name@));
                return true;
            }
            i += 1;
        }
        false
    }
}

fn noisy_name(name: &str) -> (found: bool)
    ensures
        found == is_noisy_name(name@),
{
    eq_ignore_ascii_case(".git", name) || eq_ignore_ascii_case(".svn", name)
        || eq_ignore_ascii_case(".hg", name) || eq_ignore_ascii_case("node_modules", name)
        || eq_ignore_ascii_case("__pycache__", name) || eq_ignore_ascii_case(".venv", name)
        || eq_ignore_ascii_case("venv", name) || eq_ignore_ascii_case(".DS_Store", name)
        || eq_ignore_ascii_case("Thumbs.db", name) || eq_ignore_ascii_case("desktop.ini", name)
}

fn transient_suffix(name: &str) -> (found: bool)
    ensures
        found == has_transient_suffix(name@),
{
    ends_with(name, ".tmp") || ends_with(name, ".swp") || ends_with(name, ".swx") || ends_with(
        name,
        "~",
    )
}

fn transient_prefix(name: &str) -> (found: bool)
    ensures
        found == has_transient_prefix(name@),
{
    starts_with(name, "~$") || starts_with(name, ".~")
}

/// What lies in an ignored directory is ignored: rules that ignore a path ignore every path that
/// goes on from it.
pub proof fn law_excluded_directory_excludes_its_contents(
    custom: Seq<Seq<char>>,
    directory: Seq<Seq<char>>,
    below: Seq<Seq<char>>,
)
    requires
        any_name_excluded(custom, directory),
    ensures
        any_name_excluded(custom, directory + below),
{
    let i = choose|i: int|
        0 <= i < directory.len() && #[trigger] name_excluded(custom, directory[i]);
    assert((directory + below)[i] == directory[i]);
}

/// Names that the user adds only add to what is ignored.
pub proof fn law_custom_names_only_add(
    custom: Seq<Seq<char>>,
    more: Seq<Seq<char>>,
    names: Seq<Seq<char>>,
)
    requires
        any_name_excluded(custom, names),
    ensures
        any_name_excluded(custom + more, names),
{
    let i = choose|i: int| 0 <= i < names.len() && #[trigger] name_excluded(custom, names[i]);
    let name = names[i];
    if exists|j: int| 0 <= j < custom.len() && #[trigger] text::same_but_for_ascii_case(custom[j], name) {
        let j = choose|j: int|
            0 <= j < custom.len() && #[trigger] text::same_but_for_ascii_case(custom[j], name);
        assert((custom + more)[j] == custom[j]);
        assert(text::same_but_for_ascii_case((custom + more)[j], name));
    }
    assert(name_excluded(custom + more, name));
}

/// Whether piece `i` of a path names something: it is not empty, and no single dot behind the
/// beginning.
pub open spec fn is_named_piece(parts: Seq<Seq<char>>, i: int) -> bool {
    &&& 0 <= i < parts.len()
    &&& parts[i].len() > 0
    &&& i == 0 || parts[i] != seq!['.']
}

/// Whether rules with the user's names `custom` ignore a name in text with slashes.
pub open spec fn any_piece_excluded(custom: Seq<Seq<char>>, path: Seq<char>) -> bool {
    exists|i: int| #[trigger]
        is_named_piece(text::pieces(path, '/'), i) && name_excluded(
            custom,
            text::pieces(path, '/')[i],
        )
}

/// A path is ignored exactly where the name of the file, or of a directory in it, is one to be
/// ignored. This holds of all text on Unix, and on Windows of text without a prefix. Left out are
/// rules in which the user names the separator.
pub proof fn law_path_is_excluded_by_its_names(
    separator: char,
    custom: Seq<Seq<char>>,
    path: Seq<char>,
)
    requires
        crate::path::is_platform(separator),
        crate::path::has_no_prefix(separator, path),
        !custom.contains(seq![separator]),
    ensures
        any_name_excluded(custom, crate::path::components_text(separator, path))
            <==> any_piece_excluded(custom, crate::path::slashed(separator, path)),
{
    lemma_separator_is_not_excluded(custom, separator);
    lemma_excluded_by_pieces(separator, custom, crate::path::slashed(separator, path));
}

/// A portable path is ignored exactly where the name of the file, or of a directory in it, is one
/// to be ignored, on whatever platform. Left out are rules in which the user names a separator.
pub proof fn law_portable_path_is_excluded_by_its_names(
    excluded: bool,
    custom: Seq<Seq<char>>,
    path: Seq<char>,
)
    requires
        crate::path::is_portable(path),
        !custom.contains(seq!['/']),
        !custom.contains(seq!['\\']),
        decides_path(excluded, custom, path),
    ensures
        excluded <==> any_piece_excluded(custom, path),
{
    crate::path::lemma_portable('/', path);
    crate::path::lemma_portable('\\', path);
    law_path_is_excluded_by_its_names('/', custom, path);
    law_path_is_excluded_by_its_names('\\', custom, path);
}

proof fn lemma_excluded_by_pieces(separator: char, custom: Seq<Seq<char>>, path: Seq<char>)
    ensures
        any_name_excluded(custom, crate::path::slash_components(separator, path)) <==> (path.len()
            > 0 && path[0] == '/' && name_excluded(custom, seq![separator])) || any_piece_excluded(
            custom,
            path,
        ),
{
    let parts = text::pieces(path, '/');
    let names = crate::path::slash_components(separator, path);
    let keep = |part: Seq<char>| part.len() > 0 && part != seq!['.'];
    let rest = parts.skip(1).filter(keep);
    let front = names.len() - rest.len();
    let rooted = path.len() > 0 && path[0] == '/';
    text::lemma_pieces_not_empty(path, '/');
    if any_name_excluded(custom, names) {
        let i = choose|i: int| 0 <= i < names.len() && #[trigger] name_excluded(custom, names[i]);
        if i >= front {
            assert(names[i] == rest[i - front]);
            parts.skip(1).lemma_filter_pred(keep, i - front);
            parts.skip(1).lemma_filter_contains_rev(keep, names[i]);
            let j = choose|j: int| 0 <= j < parts.skip(1).len() && parts.skip(1)[j] == names[i];
            assert(is_named_piece(parts, j + 1));
        } else if rooted && i == 0 {
            assert(names[i] == seq![separator]);
        } else {
            assert(is_named_piece(parts, 0));
        }
    }
    if rooted && name_excluded(custom, seq![separator]) {
        assert(names[0] == seq![separator]);
        assert(name_excluded(custom, names[0]));
    }
    if any_piece_excluded(custom, path) {
        let i = choose|i: int| #[trigger]
            is_named_piece(parts, i) && name_excluded(custom, parts[i]);
        if i == 0 {
            assert(names[front - 1] == parts[0]);
            assert(name_excluded(custom, names[front - 1]));
        } else {
            assert(parts.skip(1)[i - 1] == parts[i]);
            parts.skip(1).lemma_filter_contains(keep, i - 1);
            assert(rest.contains(parts[i]));
            let j = choose|j: int| 0 <= j < rest.len() && rest[j] == parts[i];
            assert(names[front + j] == parts[i]);
            assert(name_excluded(custom, names[front + j]));
        }
    }
}

/// A path that goes on from another is ignored exactly where that one is, or where what it goes on
/// with is: what lies in an ignored directory is ignored, whatever it is called, and nothing else
/// is. This holds of all text on Unix, and on Windows of text without a prefix, whichever separator
/// stands between both.
pub proof fn law_joined_path_is_excluded_by_either_part(
    separator: char,
    glue: char,
    custom: Seq<Seq<char>>,
    base: Seq<char>,
    rest: Seq<char>,
)
    requires
        crate::path::is_platform(separator),
        crate::path::is_separator(separator, glue),
        crate::path::has_no_prefix(separator, base),
        crate::path::is_plain_on(separator, rest),
    ensures
        any_name_excluded(
            custom,
            crate::path::components_text(
                separator,
                crate::path::glued(separator, glue, base, rest),
            ),
        ) <==> any_name_excluded(custom, crate::path::components_text(separator, base))
            || any_name_excluded(custom, crate::path::components_text(separator, rest)),
        crate::path::joined_text(separator, base, rest) == crate::path::glued(
            separator,
            separator,
            base,
            rest,
        ),
{
    let joined = crate::path::slashed(
        separator,
        crate::path::glued(separator, glue, base, rest),
    );
    let left = crate::path::slashed(separator, base);
    let right = crate::path::slashed(separator, rest);
    let parts = text::pieces(joined, '/');
    let base_parts = text::pieces(left, '/');
    let rest_parts = text::pieces(right, '/');
    crate::path::lemma_glued(separator, glue, base, rest);
    crate::path::lemma_plain_begins_with_a_name(separator, rest);
    lemma_excluded_by_pieces(separator, custom, joined);
    lemma_excluded_by_pieces(separator, custom, left);
    lemma_excluded_by_pieces(separator, custom, right);
    let front = parts.len() - rest_parts.len();
    if any_piece_excluded(custom, joined) {
        let i = choose|i: int| #[trigger]
            is_named_piece(parts, i) && name_excluded(custom, parts[i]);
        if i < front {
            assert(is_named_piece(base_parts, i));
        } else {
            assert(parts[front + (i - front)] == rest_parts[i - front]);
            assert(is_named_piece(rest_parts, i - front));
        }
    }
    if any_piece_excluded(custom, left) {
        let i = choose|i: int| #[trigger]
            is_named_piece(base_parts, i) && name_excluded(custom, base_parts[i]);
        assert(parts[i] == base_parts[i]);
        assert(is_named_piece(parts, i));
    }
    if any_piece_excluded(custom, right) {
        let i = choose|i: int| #[trigger]
            is_named_piece(rest_parts, i) && name_excluded(custom, rest_parts[i]);
        assert(parts[front + i] == rest_parts[i]);
        assert(is_named_piece(parts, front + i));
    }
}

/// A portable path that goes on from another is ignored exactly where that one is, or where what it
/// goes on with is, on whatever platform. Left out are rules in which the user names a separator.
pub proof fn law_joined_portable_path_is_excluded_by_either_part(
    excluded: bool,
    base_excluded: bool,
    rest_excluded: bool,
    custom: Seq<Seq<char>>,
    base: Seq<char>,
    rest: Seq<char>,
)
    requires
        crate::path::is_portable(base),
        crate::path::is_portable(rest),
        crate::path::is_plain_on('/', rest),
        !custom.contains(seq!['/']),
        !custom.contains(seq!['\\']),
        decides_path(excluded, custom, crate::path::joined_text('/', base, rest)),
        decides_path(base_excluded, custom, base),
        decides_path(rest_excluded, custom, rest),
    ensures
        excluded == (base_excluded || rest_excluded),
{
    let joined = crate::path::joined_text('/', base, rest);
    crate::path::lemma_portable('/', base);
    crate::path::lemma_portable('/', rest);
    crate::path::lemma_joined_is_portable(base, rest);
    crate::path::lemma_portable('/', joined);
    law_joined_path_is_excluded_by_either_part('/', '/', custom, base, rest);
    law_portable_path_is_excluded_by_its_names(excluded, custom, joined);
    law_portable_path_is_excluded_by_its_names(base_excluded, custom, base);
    law_portable_path_is_excluded_by_its_names(rest_excluded, custom, rest);
    law_path_is_excluded_by_its_names('/', custom, joined);
    law_path_is_excluded_by_its_names('/', custom, base);
    law_path_is_excluded_by_its_names('/', custom, rest);
}

/// No built-in rule ignores a separator.
proof fn lemma_separator_is_not_excluded(custom: Seq<Seq<char>>, separator: char)
    requires
        separator == '/' || separator == '\\',
        !custom.contains(seq![separator]),
    ensures
        !name_excluded(custom, seq![separator]),
{
    let name = seq![separator];
    reveal_strlit(".git");
    reveal_strlit(".svn");
    reveal_strlit(".hg");
    reveal_strlit("node_modules");
    reveal_strlit("__pycache__");
    reveal_strlit(".venv");
    reveal_strlit("venv");
    reveal_strlit(".DS_Store");
    reveal_strlit("Thumbs.db");
    reveal_strlit("desktop.ini");
    reveal_strlit(".tmp");
    reveal_strlit(".swp");
    reveal_strlit(".swx");
    reveal_strlit("~");
    reveal_strlit("~$");
    reveal_strlit(".~");
    assert(name.subrange(0, 1)[0] == separator);
    assert("~"@[0] == '~');
    assert forall|i: int| 0 <= i < custom.len() implies !#[trigger] text::same_but_for_ascii_case(
        custom[i],
        name,
    ) by {
        if text::same_but_for_ascii_case(custom[i], name) {
            assert(text::ascii_folded(custom[i][0]) == text::ascii_folded(name[0]));
            assert(custom[i] =~= name);
            assert(custom.contains(name));
        }
    }
}

/// Just these names are ignored: the ones that the user added and ten others, in whatever ASCII case,
/// those that end with `.tmp`, `.swp`, `.swx` or a tilde, and those that begin with a tilde and a
/// dollar sign or with a dot and a tilde.
pub proof fn law_just_the_listed_names_are_ignored(custom: Seq<Seq<char>>, name: Seq<char>)
    ensures
        name_excluded(custom, name) <==> {
            let n = name.len() as int;
            ||| exists|i: int|
                0 <= i < custom.len() && #[trigger] text::same_but_for_ascii_case(custom[i], name)
            ||| text::same_but_for_ascii_case(seq!['.', 'g', 'i', 't'], name)
            ||| text::same_but_for_ascii_case(seq!['.', 's', 'v', 'n'], name)
            ||| text::same_but_for_ascii_case(seq!['.', 'h', 'g'], name)
            ||| text::same_but_for_ascii_case(
                seq!['n', 'o', 'd', 'e', '_', 'm', 'o', 'd', 'u', 'l', 'e', 's'],
                name,
            )
            ||| text::same_but_for_ascii_case(
                seq!['_', '_', 'p', 'y', 'c', 'a', 'c', 'h', 'e', '_', '_'],
                name,
            )
            ||| text::same_but_for_ascii_case(seq!['.', 'v', 'e', 'n', 'v'], name)
            ||| text::same_but_for_ascii_case(seq!['v', 'e', 'n', 'v'], name)
            ||| text::same_but_for_ascii_case(
                seq!['.', 'd', 's', '_', 's', 't', 'o', 'r', 'e'],
                name,
            )
            ||| text::same_but_for_ascii_case(
                seq!['t', 'h', 'u', 'm', 'b', 's', '.', 'd', 'b'],
                name,
            )
            ||| text::same_but_for_ascii_case(
                seq!['d', 'e', 's', 'k', 't', 'o', 'p', '.', 'i', 'n', 'i'],
                name,
            )
            ||| n >= 4 && name[n - 4] == '.' && name[n - 3] == 't' && name[n - 2] == 'm' && name[n - 1]
                == 'p'
            ||| n >= 4 && name[n - 4] == '.' && name[n - 3] == 's' && name[n - 2] == 'w' && (name[n - 1]
                == 'p' || name[n - 1] == 'x')
            ||| n >= 1 && name[n - 1] == '~'
            ||| n >= 2 && name[0] == '~' && name[1] == '$'
            ||| n >= 2 && name[0] == '.' && name[1] == '~'
        },
{
    lemma_listed_names(name);
    lemma_listed_affixes(name);
}

proof fn lemma_listed_names(name: Seq<char>)
    ensures
        is_noisy_name(name) <==> {
            ||| text::same_but_for_ascii_case(seq!['.', 'g', 'i', 't'], name)
            ||| text::same_but_for_ascii_case(seq!['.', 's', 'v', 'n'], name)
            ||| text::same_but_for_ascii_case(seq!['.', 'h', 'g'], name)
            ||| text::same_but_for_ascii_case(
                seq!['n', 'o', 'd', 'e', '_', 'm', 'o', 'd', 'u', 'l', 'e', 's'],
                name,
            )
            ||| text::same_but_for_ascii_case(
                seq!['_', '_', 'p', 'y', 'c', 'a', 'c', 'h', 'e', '_', '_'],
                name,
            )
            ||| text::same_but_for_ascii_case(seq!['.', 'v', 'e', 'n', 'v'], name)
            ||| text::same_but_for_ascii_case(seq!['v', 'e', 'n', 'v'], name)
            ||| text::same_but_for_ascii_case(
                seq!['.', 'd', 's', '_', 's', 't', 'o', 'r', 'e'],
                name,
            )
            ||| text::same_but_for_ascii_case(
                seq!['t', 'h', 'u', 'm', 'b', 's', '.', 'd', 'b'],
                name,
            )
            ||| text::same_but_for_ascii_case(
                seq!['d', 'e', 's', 'k', 't', 'o', 'p', '.', 'i', 'n', 'i'],
                name,
            )
        },
{
    reveal_strlit(".git");
    reveal_strlit(".svn");
    reveal_strlit(".hg");
    reveal_strlit("node_modules");
    reveal_strlit("__pycache__");
    reveal_strlit(".venv");
    reveal_strlit("venv");
    reveal_strlit(".DS_Store");
    reveal_strlit("Thumbs.db");
    reveal_strlit("desktop.ini");
    assert(".git"@ =~= seq!['.', 'g', 'i', 't']);
    assert(".svn"@ =~= seq!['.', 's', 'v', 'n']);
    assert(".hg"@ =~= seq!['.', 'h', 'g']);
    assert("node_modules"@ =~= seq!['n', 'o', 'd', 'e', '_', 'm', 'o', 'd', 'u', 'l', 'e', 's']);
    assert("__pycache__"@ =~= seq!['_', '_', 'p', 'y', 'c', 'a', 'c', 'h', 'e', '_', '_']);
    assert(".venv"@ =~= seq!['.', 'v', 'e', 'n', 'v']);
    assert("venv"@ =~= seq!['v', 'e', 'n', 'v']);
    assert("desktop.ini"@ =~= seq!['d', 'e', 's', 'k', 't', 'o', 'p', '.', 'i', 'n', 'i']);
    let store = seq!['.', 'd', 's', '_', 's', 't', 'o', 'r', 'e'];
    let thumbs = seq!['t', 'h', 'u', 'm', 'b', 's', '.', 'd', 'b'];
    lemma_same_letters(".DS_Store"@, store, name);
    lemma_same_letters("Thumbs.db"@, thumbs, name);
}

/// A name may be compared with a listed one in either case.
proof fn lemma_same_letters(a: Seq<char>, b: Seq<char>, name: Seq<char>)
    requires
        a.len() == b.len(),
        forall|i: int| 0 <= i < a.len() ==> text::ascii_folded(#[trigger] a[i])
            == text::ascii_folded(b[i]),
    ensures
        text::same_but_for_ascii_case(a, name) == text::same_but_for_ascii_case(b, name),
{
    if text::same_but_for_ascii_case(a, name) {
        assert forall|i: int| 0 <= i < b.len() implies text::ascii_folded(#[trigger] b[i])
            == text::ascii_folded(name[i]) by {
            assert(text::ascii_folded(a[i]) == text::ascii_folded(name[i]));
        }
    }
    if text::same_but_for_ascii_case(b, name) {
        assert forall|i: int| 0 <= i < a.len() implies text::ascii_folded(#[trigger] a[i])
            == text::ascii_folded(name[i]) by {
            assert(text::ascii_folded(b[i]) == text::ascii_folded(name[i]));
        }
    }
}

proof fn lemma_listed_affixes(name: Seq<char>)
    ensures
        has_transient_suffix(name) || has_transient_prefix(name) <==> {
            let n = name.len() as int;
            ||| n >= 4 && name[n - 4] == '.' && name[n - 3] == 't' && name[n - 2] == 'm' && name[n - 1]
                == 'p'
            ||| n >= 4 && name[n - 4] == '.' && name[n - 3] == 's' && name[n - 2] == 'w' && (name[n - 1]
                == 'p' || name[n - 1] == 'x')
            ||| n >= 1 && name[n - 1] == '~'
            ||| n >= 2 && name[0] == '~' && name[1] == '$'
            ||| n >= 2 && name[0] == '.' && name[1] == '~'
        },
{
    let n = name.len() as int;
    reveal_strlit(".tmp");
    reveal_strlit(".swp");
    reveal_strlit(".swx");
    reveal_strlit("~");
    reveal_strlit("~$");
    reveal_strlit(".~");
    if n >= 4 {
        let end = name.subrange(n - 4, n);
        assert(end[0] == name[n - 4] && end[1] == name[n - 3] && end[2] == name[n - 2] && end[3]
            == name[n - 1]);
        if end[0] == '.' && end[1] == 't' && end[2] == 'm' && end[3] == 'p' {
            assert(end =~= ".tmp"@);
        }
        if end[0] == '.' && end[1] == 's' && end[2] == 'w' && end[3] == 'p' {
            assert(end =~= ".swp"@);
        }
        if end[0] == '.' && end[1] == 's' && end[2] == 'w' && end[3] == 'x' {
            assert(end =~= ".swx"@);
        }
    }
    if n >= 1 {
        let end = name.subrange(n - 1, n);
        assert(end[0] == name[n - 1]);
        if end[0] == '~' {
            assert(end =~= "~"@);
        }
    }
    if n >= 2 {
        let start = name.subrange(0, 2);
        assert(start[0] == name[0] && start[1] == name[1]);
        if start[0] == '~' && start[1] == '$' {
            assert(start =~= "~$"@);
        }
        if start[0] == '.' && start[1] == '~' {
            assert(start =~= ".~"@);
        }
    }
}

/// An ordinary name is kept, whether or not it begins with a dot: without names of the user, one that
/// is as long as none of the ten listed names, ends with neither a tilde nor `p` nor `x`, and has no
/// tilde among its first two characters is not ignored.
pub proof fn law_ordinary_names_are_kept(name: Seq<char>)
    requires
        name.len() == 0 || name.last() != '~' && name.last() != 'p' && name.last() != 'x',
        name.len() > 0 ==> name[0] != '~',
        name.len() > 1 ==> name[1] != '~',
        name.len() != 3 && name.len() != 4 && name.len() != 5 && name.len() != 9 && name.len() != 11
            && name.len() != 12,
    ensures
        !name_excluded(Seq::empty(), name),
{
    law_just_the_listed_names_are_ignored(Seq::empty(), name);
}

/// A name with a dot in front is ignored only where it is one of the listed names, has a listed
/// ending, or has a tilde behind the dot.
pub proof fn law_dot_alone_ignores_nothing(name: Seq<char>)
    requires
        name.len() >= 2,
        name[0] == '.',
        name[1] != '~',
        name_excluded(Seq::empty(), name),
    ensures
        ({
            let n = name.len() as int;
            ||| text::same_but_for_ascii_case(seq!['.', 'g', 'i', 't'], name)
            ||| text::same_but_for_ascii_case(seq!['.', 's', 'v', 'n'], name)
            ||| text::same_but_for_ascii_case(seq!['.', 'h', 'g'], name)
            ||| text::same_but_for_ascii_case(seq!['.', 'v', 'e', 'n', 'v'], name)
            ||| text::same_but_for_ascii_case(
                seq!['.', 'd', 's', '_', 's', 't', 'o', 'r', 'e'],
                name,
            )
            ||| n >= 4 && name[n - 4] == '.' && name[n - 3] == 't' && name[n - 2] == 'm' && name[n - 1]
                == 'p'
            ||| n >= 4 && name[n - 4] == '.' && name[n - 3] == 's' && name[n - 2] == 'w' && (name[n - 1]
                == 'p' || name[n - 1] == 'x')
            ||| name[n - 1] == '~'
        }),
{
    law_just_the_listed_names_are_ignored(Seq::empty(), name);
    let node = seq!['n', 'o', 'd', 'e', '_', 'm', 'o', 'd', 'u', 'l', 'e', 's'];
    let cache = seq!['_', '_', 'p', 'y', 'c', 'a', 'c', 'h', 'e', '_', '_'];
    let venv = seq!['v', 'e', 'n', 'v'];
    let thumbs = seq!['t', 'h', 'u', 'm', 'b', 's', '.', 'd', 'b'];
    let desktop = seq!['d', 'e', 's', 'k', 't', 'o', 'p', '.', 'i', 'n', 'i'];
    assert(text::ascii_folded(node[0]) == 'n' && text::ascii_folded(cache[0]) == '_');
    assert(text::ascii_folded(venv[0]) == 'v' && text::ascii_folded(thumbs[0]) == 't');
    assert(text::ascii_folded(desktop[0]) == 'd' && text::ascii_folded(name[0]) == '.');
}

/// A path is ignored by each of its names alone: a list of names is ignored exactly where one of its
/// parts is, no name ignores nothing, and a single name decides for itself.
pub proof fn law_each_name_decides_for_itself(
    custom: Seq<Seq<char>>,
    names: Seq<Seq<char>>,
    more: Seq<Seq<char>>,
    name: Seq<char>,
)
    ensures
        any_name_excluded(custom, names + more) <==> any_name_excluded(custom, names)
            || any_name_excluded(custom, more),
        !any_name_excluded(custom, Seq::empty()),
        any_name_excluded(custom, seq![name]) <==> name_excluded(custom, name),
{
    let both = names + more;
    if any_name_excluded(custom, both) {
        let i = choose|i: int| 0 <= i < both.len() && #[trigger] name_excluded(custom, both[i]);
        if i < names.len() {
            assert(name_excluded(custom, names[i]));
        } else {
            assert(name_excluded(custom, more[i - names.len()]));
        }
    }
    if any_name_excluded(custom, names) {
        law_excluded_directory_excludes_its_contents(custom, names, more);
    }
    if any_name_excluded(custom, more) {
        let i = choose|i: int| 0 <= i < more.len() && #[trigger] name_excluded(custom, more[i]);
        assert(both[names.len() + i] == more[i]);
        assert(name_excluded(custom, both[names.len() + i]));
    }
    if name_excluded(custom, name) {
        assert(name_excluded(custom, seq![name][0]));
    }
}

/// A path that is not Unicode text is ignored by each of its readable names alone: an unreadable name
/// ignores nothing, and a readable one decides as it does in any other path.
pub proof fn law_each_readable_name_decides_for_itself(
    custom: Seq<Seq<char>>,
    names: Seq<Option<String>>,
    path: Seq<char>,
    components: Vec<Option<String>>,
    excluded: bool,
)
    ensures
        any_readable_name_excluded(custom, names) <==> exists|i: int|
            0 <= i < names.len() && (match #[trigger] names[i] {
                Some(name) => any_name_excluded(custom, seq![name@]),
                None => false,
            }),
        decides_any_path(excluded, custom, path, Some(components)) <==> excluded
            == any_readable_name_excluded(custom, components@),
        decides_any_path(excluded, custom, path, None) <==> decides_path(excluded, custom, path),
{
    assert forall|name: Seq<char>|
        #![trigger any_name_excluded(custom, seq![name])]
        any_name_excluded(custom, seq![name]) <==> name_excluded(custom, name) by {
        law_each_name_decides_for_itself(custom, Seq::empty(), Seq::empty(), name);
    }
    if any_readable_name_excluded(custom, names) {
        let i = choose|i: int|
            0 <= i < names.len() && (#[trigger] names[i]) is Some && name_excluded(
                custom,
                names[i]->0@,
            );
        assert(any_name_excluded(custom, seq![names[i]->0@]));
    }
}

} // verus!
