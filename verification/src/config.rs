//! Persisted user settings: which folders to watch, this machine's stable peer id and the secret
//! that it shares with its peers.

use uuid::Uuid;

use vstd::prelude::*;

use crate::hexadecimal;
use crate::json;
use crate::json::quote;
use crate::path;
use crate::path::join;
use crate::text;
use crate::text::owned;

verus! {

/// Whether `text` is a random identifier as it is usually written: 32 hexadecimal digits in
/// groups of 8, 4, 4, 4 and 12, which tell that they were drawn at random.
pub open spec fn is_random_id(text: Seq<char>) -> bool {
    &&& text.len() == 36
    &&& forall|i: int|
        0 <= i < 36 ==> if i == 8 || i == 13 || i == 18 || i == 23 {
            #[trigger] text[i] == '-'
        } else {
            is_small_digit(text[i])
        }
    &&& text[14] == '4'
    &&& text[19] == '8' || text[19] == '9' || text[19] == 'a' || text[19] == 'b'
}

/// Whether `c` is a hexadecimal digit, with letters small.
pub open spec fn is_small_digit(c: char) -> bool {
    exists|value: int| 0 <= value < 16 && c == #[trigger] hexadecimal::digit(value)
}

/// Calls `uuid::Uuid::new_v4` and `to_string` on what it gives.
///
/// Claimed: the text has the form of a random identifier. Which one it is rests on chance.
#[verifier::external_body]
fn random_id() -> (id: String)
    ensures
        is_random_id(id@),
{
    Uuid::new_v4().to_string()
}

/// The settings of this agent.
#[derive(Debug)]
pub struct Config {
    pub peer_id: String,
    pub watched_folders: Vec<String>,
    /// Set once by the user, the same on every machine; empty until then.
    pub shared_secret: String,
}

impl Clone for Config {
    fn clone(&self) -> (copy: Self)
        ensures
            copy.peer_id == self.peer_id,
            copy.watched_folders@ == self.watched_folders@,
            copy.shared_secret == self.shared_secret,
    {
        let copy = Config {
            peer_id: self.peer_id.clone(),
            watched_folders: self.watched_folders.clone(),
            shared_secret: self.shared_secret.clone(),
        };
        assert(copy.watched_folders@ =~= self.watched_folders@);
        copy
    }
}

/// How the folders behind the first stand in the settings file.
pub open spec fn further_folders_text(folders: Seq<Seq<char>>) -> Seq<char>
    decreases folders.len(),
{
    if folders.len() == 0 {
        Seq::empty()
    } else {
        ",\n    "@ + json::quoted(folders[0]) + further_folders_text(folders.skip(1))
    }
}

/// How the folders stand in the settings file: one to a line.
pub open spec fn folders_text(folders: Seq<Seq<char>>) -> Seq<char> {
    if folders.len() == 0 {
        "[]"@
    } else {
        "[\n    "@ + json::quoted(folders[0]) + further_folders_text(folders.skip(1)) + "\n  ]"@
    }
}

/// Whether `config` is what comes of a settings file with the text `contents`, which is missing
/// where there is no file that can be read, and where `parse` reads such text.
pub open spec fn is_loaded<P>(config: Config, contents: Option<Seq<char>>, parse: P) -> bool where
    P: Fn(&str) -> Option<Config>,
 {
    match contents {
        None => config.is_fresh(),
        Some(contents) => exists|text: &str, saved: Option<Config>|
            {
                &&& text@ == contents
                &&& #[trigger] parse.ensures((text,), saved)
                &&& match saved {
                    Some(saved) => config == saved,
                    None => config.is_fresh(),
                }
            },
    }
}

impl Config {
    /// The text of the settings file: a JSON object with one member to a line.
    pub open spec fn text(self) -> Seq<char> {
        "{\n  \"peer_id\": "@ + json::quoted(self.peer_id@) + ",\n  \"watched_folders\": "@
            + folders_text(text::texts(self.watched_folders@)) + ",\n  \"shared_secret\": "@
            + json::quoted(self.shared_secret@) + "\n}"@
    }

    /// Whether these are settings of a first run: a random peer id and nothing else.
    pub open spec fn is_fresh(self) -> bool {
        &&& is_random_id(self.peer_id@)
        &&& self.watched_folders@.len() == 0
        &&& self.shared_secret@.len() == 0
    }

    /// The settings in a file with the text `contents`, which `parse` reads, or fresh ones where
    /// there are none that can be read (a first run, or a corrupted file).
    pub fn load(contents: Option<String>, parse: impl Fn(&str) -> Option<Config>) -> (config: Self)
        requires
            forall|text: &str| #[trigger] parse.requires((text,)),
        ensures
            is_loaded(config, path::optional_text(contents), parse),
    {
        match contents {
            Some(contents) => match parse(contents.as_str()) {
                Some(saved) => saved,
                None => Config::default(),
            },
            None => Config::default(),
        }
    }

    /// The text of the settings file, which is to be written.
    pub fn save(&self) -> (contents: String)
        ensures
            contents@ == self.text(),
    {
        let mut contents = owned("{\n  \"peer_id\": ");
        contents.append(quote(self.peer_id.as_str()).as_str());
        contents.append(",\n  \"watched_folders\": ");
        contents.append(folders_json(&self.watched_folders).as_str());
        contents.append(",\n  \"shared_secret\": ");
        contents.append(quote(self.shared_secret.as_str()).as_str());
        contents.append("\n}");
        contents
    }
}

fn folders_json(folders: &Vec<String>) -> (list: String)
    ensures
        list@ == folders_text(text::texts(folders@)),
{
    if folders.len() == 0 {
        return owned("[]");
    }
    let ghost names = text::texts(folders@);
    let mut list = owned("[\n    ");
    list.append(quote(folders[0].as_str()).as_str());
    let ghost whole = list@ + further_folders_text(names.skip(1));
    let mut i: usize = 1;
    while i < folders.len()
        invariant
            1 <= i <= folders@.len(),
            names == text::texts(folders@),
            list@ + further_folders_text(names.skip(i as int)) == whole,
        decreases folders@.len() - i,
    {
        let ghost before = list@;
        list.append(",\n    ");
        list.append(quote(folders[i].as_str()).as_str());
        proof {
            assert(names.skip(i as int)[0] == folders@[i as int]@);
            assert(names.skip(i as int).skip(1) =~= names.skip(i + 1));
            assert(list@ + further_folders_text(names.skip(i + 1)) =~= before
                + further_folders_text(names.skip(i as int)));
        }
        i += 1;
    }
    assert(list@ + further_folders_text(names.skip(i as int)) =~= list@);
    list.append("\n  ]");
    list
}

impl Default for Config {
    fn default() -> (config: Self)
        ensures
            config.is_fresh(),
    {
        Config {
            peer_id: random_id(),
            watched_folders: Vec::new(),
            shared_secret: String::new(),
        }
    }
}

/// Whether `path` is the settings file below `base`, in a directory of its own.
pub open spec fn is_config_path(path: Seq<char>, base: Seq<char>) -> bool {
    exists|directory: Seq<char>| #[trigger]
        path::is_joined(directory, base, "network-local-file-manager"@) && path::is_joined(
            path,
            directory,
            "config.json"@,
        )
}

/// The file that the settings are saved in: below `config_dir`, the user's directory for settings,
/// or below `temp_dir` where the platform has none.
pub fn config_path(config_dir: Option<String>, temp_dir: String) -> (path: String)
    ensures
        match config_dir {
            Some(config_dir) => is_config_path(path@, config_dir@),
            None => is_config_path(path@, temp_dir@),
        },
{
    let base = match config_dir {
        Some(config_dir) => config_dir,
        None => temp_dir,
    };
    let directory = join(base.as_str(), "network-local-file-manager");
    assert(path::is_joined(directory@, base@, "network-local-file-manager"@));
    join(directory.as_str(), "config.json")
}

/// Settings that were saved are loaded again, every folder in its place, where `parse` reads the
/// text that was written for them.
pub proof fn law_saved_settings_load_back<P>(config: Config, parse: P, loaded: Config) where
    P: Fn(&str) -> Option<Config>,

    requires
        forall|text: &str, read: Option<Config>| #[trigger]
            parse.ensures((text,), read) && text@ == config.text() ==> read == Some(config),
        is_loaded(loaded, Some(config.text()), parse),
    ensures
        loaded == config,
{
}

/// The settings file tells the settings: the same text is written for no others.
pub proof fn law_settings_file_tells_its_settings(a: Config, b: Config)
    requires
        a.text() == b.text(),
    ensures
        a.peer_id@ == b.peer_id@,
        text::texts(a.watched_folders@) == text::texts(b.watched_folders@),
        a.shared_secret@ == b.shared_secret@,
{
    let start = "{\n  \"peer_id\": "@;
    let folders_name = ",\n  \"watched_folders\": "@;
    let secret_name = ",\n  \"shared_secret\": "@;
    let end = "\n}"@;
    let secret_a = secret_name + json::quoted(a.shared_secret@) + end;
    let secret_b = secret_name + json::quoted(b.shared_secret@) + end;
    let list_a = folders_text(text::texts(a.watched_folders@)) + secret_a;
    let list_b = folders_text(text::texts(b.watched_folders@)) + secret_b;
    lemma_text_by_members(a);
    lemma_text_by_members(b);
    assert(a.text().skip(start.len() as int) =~= json::quoted(a.peer_id@) + (folders_name + list_a));
    assert(b.text().skip(start.len() as int) =~= json::quoted(b.peer_id@) + (folders_name + list_b));
    json::law_literal_is_unambiguous(
        a.peer_id@,
        b.peer_id@,
        folders_name + list_a,
        folders_name + list_b,
    );
    assert((folders_name + list_a).skip(folders_name.len() as int) =~= list_a);
    assert((folders_name + list_b).skip(folders_name.len() as int) =~= list_b);
    lemma_folders_are_unambiguous(
        text::texts(a.watched_folders@),
        text::texts(b.watched_folders@),
        secret_a,
        secret_b,
    );
    let size = secret_name.len() as int;
    assert(secret_a.skip(size) =~= json::quoted(a.shared_secret@) + end);
    assert(secret_b.skip(size) =~= json::quoted(b.shared_secret@) + end);
    json::law_literal_is_unambiguous(a.shared_secret@, b.shared_secret@, end, end);
}

proof fn lemma_text_by_members(config: Config)
    ensures
        config.text() == "{\n  \"peer_id\": "@ + (json::quoted(config.peer_id@) + (
        ",\n  \"watched_folders\": "@ + (folders_text(text::texts(config.watched_folders@)) + (
        ",\n  \"shared_secret\": "@ + json::quoted(config.shared_secret@) + "\n}"@)))),
{
    let a = "{\n  \"peer_id\": "@;
    let b = json::quoted(config.peer_id@);
    let c = ",\n  \"watched_folders\": "@;
    let d = folders_text(text::texts(config.watched_folders@));
    let e = ",\n  \"shared_secret\": "@;
    let f = json::quoted(config.shared_secret@);
    let g = "\n}"@;
    let last = e + f + g;
    assert(a + b + c + d + e + f + g =~= a + b + c + d + last);
    assert(a + b + c + d + last =~= a + b + (c + (d + last)));
    assert(a + b + (c + (d + last)) =~= a + (b + (c + (d + last))));
}

proof fn lemma_folders_are_unambiguous(
    a: Seq<Seq<char>>,
    b: Seq<Seq<char>>,
    after_a: Seq<char>,
    after_b: Seq<char>,
)
    requires
        folders_text(a) + after_a == folders_text(b) + after_b,
    ensures
        a == b,
        after_a == after_b,
{
    reveal_strlit("[]");
    reveal_strlit("[\n    ");
    reveal_strlit("\n  ]");
    let left = folders_text(a) + after_a;
    let right = folders_text(b) + after_b;
    assert(left[1] == right[1]);
    if a.len() == 0 || b.len() == 0 {
        if a.len() > 0 {
            assert(left[1] == '\n');
        }
        if b.len() > 0 {
            assert(right[1] == '\n');
        }
        assert(a =~= b);
        assert(left.skip(2) =~= after_a);
        assert(right.skip(2) =~= after_b);
    } else {
        let end_a = "\n  ]"@ + after_a;
        let end_b = "\n  ]"@ + after_b;
        let tail_a = further_folders_text(a.skip(1)) + end_a;
        let tail_b = further_folders_text(b.skip(1)) + end_b;
        assert(left.skip(6) =~= json::quoted(a[0]) + tail_a);
        assert(right.skip(6) =~= json::quoted(b[0]) + tail_b);
        json::law_literal_is_unambiguous(a[0], b[0], tail_a, tail_b);
        lemma_further_folders_are_unambiguous(a.skip(1), b.skip(1), end_a, end_b);
        assert(a =~= seq![a[0]] + a.skip(1));
        assert(b =~= seq![b[0]] + b.skip(1));
        assert(end_a.skip(4) =~= after_a);
        assert(end_b.skip(4) =~= after_b);
    }
}

proof fn lemma_further_folders_are_unambiguous(
    a: Seq<Seq<char>>,
    b: Seq<Seq<char>>,
    after_a: Seq<char>,
    after_b: Seq<char>,
)
    requires
        further_folders_text(a) + after_a == further_folders_text(b) + after_b,
        after_a.len() > 0 && after_a[0] == '\n',
        after_b.len() > 0 && after_b[0] == '\n',
    ensures
        a == b,
        after_a == after_b,
    decreases a.len(),
{
    reveal_strlit(",\n    ");
    let left = further_folders_text(a) + after_a;
    let right = further_folders_text(b) + after_b;
    assert(left[0] == right[0]);
    if a.len() == 0 || b.len() == 0 {
        if a.len() > 0 {
            assert(left[0] == ',');
            assert(right[0] == '\n');
        }
        if b.len() > 0 {
            assert(right[0] == ',');
            assert(left[0] == '\n');
        }
        assert(a =~= b);
        assert(left =~= after_a);
        assert(right =~= after_b);
    } else {
        let tail_a = further_folders_text(a.skip(1)) + after_a;
        let tail_b = further_folders_text(b.skip(1)) + after_b;
        assert(left.skip(6) =~= json::quoted(a[0]) + tail_a);
        assert(right.skip(6) =~= json::quoted(b[0]) + tail_b);
        json::law_literal_is_unambiguous(a[0], b[0], tail_a, tail_b);
        lemma_further_folders_are_unambiguous(a.skip(1), b.skip(1), after_a, after_b);
        assert(a =~= seq![a[0]] + a.skip(1));
        assert(b =~= seq![b[0]] + b.skip(1));
    }
}

/// A random identifier has 36 characters: dashes at four places, the digit 4 behind the second of them,
/// one of four digits behind the third, and small hexadecimal digits elsewhere.
pub proof fn law_random_id_has_its_form(id: Seq<char>, i: int)
    requires
        is_random_id(id),
        0 <= i < id.len(),
    ensures
        id.len() == 36,
        id[i] == '-' <==> i == 8 || i == 13 || i == 18 || i == 23,
        id[i] == '-' || '0' <= id[i] <= '9' || 'a' <= id[i] <= 'f',
        id[14] == '4',
        '8' <= id[19] <= '9' || 'a' <= id[19] <= 'b',
{
    if !(i == 8 || i == 13 || i == 18 || i == 23) {
        assert(is_small_digit(id[i]));
        let value = choose|value: int| 0 <= value < 16 && id[i] == #[trigger] hexadecimal::digit(value);
        hexadecimal::law_digits_are_numerals_and_small_letters(value);
    } else {
        assert(id[i] == '-');
    }
}

/// Settings of a first run have an identifier, no folders and no secret.
pub proof fn law_fresh_settings_are_empty(config: Config)
    ensures
        config.is_fresh() <==> is_random_id(config.peer_id@) && config.watched_folders@
            == Seq::<String>::empty() && config.shared_secret@ == Seq::<char>::empty(),
{
    if config.is_fresh() {
        assert(config.watched_folders@ =~= Seq::<String>::empty());
        assert(config.shared_secret@ =~= Seq::<char>::empty());
    }
}

/// Settings are fresh where there is no file, or none that can be read, and otherwise what the file is
/// read as, where `parse` reads it in one way only.
pub proof fn law_settings_are_what_the_file_is_read_as<P>(
    config: Config,
    contents: Option<Seq<char>>,
    parse: P,
    only: Option<Config>,
) where P: Fn(&str) -> Option<Config>
    requires
        is_loaded(config, contents, parse),
        contents is Some ==> forall|text: &str, read: Option<Config>|
            text@ == contents->0 && #[trigger] parse.ensures((text,), read) ==> read == only,
    ensures
        contents is None || only is None ==> config.is_fresh(),
        contents is Some && only is Some ==> config == only->0,
{
}

/// The settings file is an object of three members, one to a line: the peer id, the list of folders and
/// the secret.
pub proof fn law_settings_are_written_as_three_members(config: Config)
    ensures
        config.text() == "{\n  \"peer_id\": "@ + (json::quoted(config.peer_id@) + (
        ",\n  \"watched_folders\": "@ + (folders_text(text::texts(config.watched_folders@)) + (
        ",\n  \"shared_secret\": "@ + json::quoted(config.shared_secret@) + "\n}"@)))),
{
    lemma_text_by_members(config);
}

/// The folders are written in order, one to a line: a further one stands behind a comma on a line of its
/// own, in front of the end of the list.
pub proof fn law_folders_are_written_in_order(folders: Seq<Seq<char>>, folder: Seq<char>)
    ensures
        folders_text(Seq::empty()) == seq!['[', ']'],
        folders_text(seq![folder]) == "[\n    "@ + json::quoted(folder) + "\n  ]"@,
        folders.len() > 0 ==> exists|front: Seq<char>|
            folders_text(folders) == #[trigger] (front + "\n  ]"@) && folders_text(folders.push(folder))
                == front + (",\n    "@ + json::quoted(folder) + "\n  ]"@),
{
    reveal_strlit("[]");
    assert("[]"@ =~= seq!['[', ']']);
    assert(seq![folder].skip(1) =~= Seq::<Seq<char>>::empty());
    assert("[\n    "@ + json::quoted(folder) + Seq::<char>::empty() + "\n  ]"@ =~= "[\n    "@
        + json::quoted(folder) + "\n  ]"@);
    if folders.len() > 0 {
        let front = "[\n    "@ + json::quoted(folders[0]) + further_folders_text(folders.skip(1));
        let more = ",\n    "@ + json::quoted(folder);
        lemma_further_folder(folders.skip(1), folder);
        assert(folders.push(folder).skip(1) =~= folders.skip(1).push(folder));
        assert(folders_text(folders) == front + "\n  ]"@);
        assert(folders_text(folders.push(folder)) =~= front + (more + "\n  ]"@));
    }
}

proof fn lemma_further_folder(folders: Seq<Seq<char>>, folder: Seq<char>)
    ensures
        further_folders_text(folders.push(folder)) == further_folders_text(folders) + (",\n    "@
            + json::quoted(folder)),
    decreases folders.len(),
{
    let longer = folders.push(folder);
    let more = ",\n    "@ + json::quoted(folder);
    if folders.len() == 0 {
        assert(longer.skip(1) =~= Seq::<Seq<char>>::empty());
        assert(further_folders_text(longer.skip(1)) =~= Seq::<char>::empty());
        assert(longer[0] == folder);
        assert(further_folders_text(longer) =~= more);
        assert(further_folders_text(folders) + more =~= more);
    } else {
        lemma_further_folder(folders.skip(1), folder);
        assert(longer.skip(1) =~= folders.skip(1).push(folder));
        assert(further_folders_text(longer) =~= further_folders_text(folders) + more);
    }
}

/// The settings file is `config.json` in the directory `network-local-file-manager` right below the
/// base, where the base is portable: the path is made of the three, with a separator between any two,
/// but that none is put behind an empty base or one that ends with a separator.
pub proof fn law_settings_file_is_below_its_base(path: Seq<char>, base: Seq<char>)
    requires
        path::is_portable(base),
        is_config_path(path, base),
    ensures
        exists|first: Seq<char>, second: char|
            {
                &&& path == #[trigger] (base + first + "network-local-file-manager"@).push(second)
                    + "config.json"@
                &&& second == '/' || second == '\\'
                &&& first.len() == 0 <==> base.len() == 0 || base.last() == '/'
                &&& first.len() > 0 ==> first == seq!['/'] || first == seq!['\\']
            },
{
    let name = "network-local-file-manager"@;
    let file = "config.json"@;
    reveal_strlit("network-local-file-manager");
    reveal_strlit("config.json");
    let directory = choose|directory: Seq<char>| #[trigger]
        path::is_joined(directory, base, name) && path::is_joined(path, directory, file);
    let a = if directory == path::joined_text('/', base, name) {
        '/'
    } else {
        '\\'
    };
    let b = if path == path::joined_text('/', directory, file) {
        '/'
    } else {
        '\\'
    };
    path::lemma_portable(a, base);
    assert(base.len() > 0 ==> base.contains(base.last()));
    lemma_plain_name_is_portable(name);
    lemma_plain_name_is_portable(file);
    path::lemma_portable(a, name);
    path::lemma_portable(b, file);
    assert(directory == path::glued(a, a, base, name));
    let first = if base.len() == 0 || base.last() == '/' {
        Seq::<char>::empty()
    } else {
        seq![a]
    };
    assert(directory =~= base + first + name);
    assert forall|i: int| 0 <= i < directory.len() implies directory[i] != ':' by {
        if i < base.len() {
            assert(directory[i] == base[i]);
            assert(base.contains(base[i]));
        } else if i >= base.len() + first.len() {
            assert(directory[i] == name[i - base.len() - first.len()]);
        }
    }
    let slashed = path::slashed('\\', directory);
    assert(!path::has_double_slash(slashed)) by {
        assert forall|i: int| 0 <= i < base.len() implies base[i] != '\\' by {
            assert(base.contains(base[i]));
        }
        if base.len() == 0 {
            assert(slashed[0] == name[0]);
        } else if base.len() == 1 {
            assert(slashed[0] == base[0]);
            if base[0] == '/' {
                assert(slashed[1] == name[0]);
            }
        } else {
            assert(slashed[0] == base[0] && slashed[1] == base[1]);
        }
    }
    assert(path::has_no_prefix(b, directory));
    assert(directory.last() == 'r') by {
        assert(directory.last() == name.last());
    }
    assert(path == path::glued(b, b, directory, file));
    assert(path == (base + first + name).push(b) + file);
}

proof fn lemma_plain_name_is_portable(name: Seq<char>)
    requires
        name.len() >= 2,
        forall|i: int|
            0 <= i < name.len() ==> #[trigger] name[i] == '-' || name[i] == '.' || 'a' <= name[i]
                <= 'z',
    ensures
        path::is_portable(name),
{
}

} // verus!
