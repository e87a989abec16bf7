//! Configurations: what one is, how one may be named, and the manager that
//! registers, lists, removes and chooses them.

pub mod store;

use vstd::prelude::*;

use crate::error::CcsError;
use crate::text::{chars_of, trim, trim_start, trim_str};
pub use store::{ConfigStore, RemoveInfo};
use store::{find_name, first_match, has_name, is_default_config};

verus! {

/// A registered configuration: a name for a settings file of the coding assistant.
pub struct Config {
    /// Name under which the configuration is chosen.
    pub name: String,
    /// Path of the settings file.
    pub path: String,
    /// Free description.
    pub description: Option<String>,
    /// Whether this is the global default.
    pub is_default: bool,
}

/// What a `Config` holds, as mathematical values.
pub struct ConfigView {
    pub name: Seq<char>,
    pub path: Seq<char>,
    pub description: Option<Seq<char>>,
    pub is_default: bool,
}

/// The view of an optional string.
pub open spec fn opt_view(o: Option<String>) -> Option<Seq<char>> {
    match o {
        Some(s) => Some(s@),
        None => None,
    }
}

impl View for Config {
    type V = ConfigView;

    open spec fn view(&self) -> ConfigView {
        ConfigView {
            name: self.name@,
            path: self.path@,
            description: opt_view(self.description),
            is_default: self.is_default,
        }
    }
}

/// A copy of an optional string.
pub fn copy_opt_string(o: &Option<String>) -> (r: Option<String>)
    ensures
        r == *o,
{
    match o {
        Some(s) => Some(s.clone()),
        None => None,
    }
}

impl Clone for Config {
    fn clone(&self) -> (r: Self)
        ensures
            r == *self,
    {
        Config {
            name: self.name.clone(),
            path: self.path.clone(),
            description: copy_opt_string(&self.description),
            is_default: self.is_default,
        }
    }
}

impl Config {
    /// A configuration that is not the global default.
    pub fn new(name: String, path: String, description: Option<String>) -> (c: Config)
        ensures
            c.name == name,
            c.path == path,
            c.description == description,
            !c.is_default,
    {
        Config { name, path, description, is_default: false }
    }
}

/// Characters that a configuration name may not hold: path separators and
/// the characters that Windows forbids in file names.
pub open spec fn is_forbidden_name_char(c: char) -> bool {
    ||| c == '/'
    ||| c == '\\'
    ||| c == ':'
    ||| c == '\0'
    ||| c == '<'
    ||| c == '>'
    ||| c == '"'
    ||| c == '|'
    ||| c == '?'
    ||| c == '*'
}

/// The longest configuration name, in characters.
pub const MAX_NAME_CHARS: usize = 64;

/// What the name rules make of a requested configuration name: the trimmed
/// name, or the first rule it breaks.
pub open spec fn name_verdict(s: Seq<char>) -> Result<Seq<char>, CcsError> {
    let t = trim(s);
    if t.len() == 0 {
        Err(CcsError::EmptyName)
    } else if exists|i: int| 0 <= i < t.len() && is_forbidden_name_char(#[trigger] t[i]) {
        Err(CcsError::ForbiddenChar)
    } else if t == seq!['.'] || t == seq!['.', '.'] {
        Err(CcsError::ReservedName)
    } else if t.last() == ' ' || t.last() == '.' {
        Err(CcsError::BadEnding)
    } else if t.len() > MAX_NAME_CHARS {
        Err(CcsError::NameTooLong)
    } else {
        Ok(t)
    }
}

/// A name that passes the rules passes them again unchanged: checking is
/// idempotent.
pub proof fn lemma_name_verdict_idempotent(s: Seq<char>)
    requires
        name_verdict(s) is Ok,
    ensures
        name_verdict(name_verdict(s)->Ok_0) == name_verdict(s),
{
    crate::text::lemma_trim_idempotent(s);
}

/// A name that passes the rules is a plain file name: no separator, not
/// `.` or `..`, no surrounding whitespace, at most 64 characters; so
/// `<name>.json` stays inside the configuration directory.
pub proof fn lemma_valid_name_is_plain(s: Seq<char>)
    requires
        name_verdict(s) is Ok,
    ensures
        ({
            let n = name_verdict(s)->Ok_0;
            &&& n.len() > 0
            &&& forall|i: int| 0 <= i < n.len() ==> n[i] != '/' && n[i] != '\\' && n[i] != ':'
            &&& n != seq!['.'] && n != seq!['.', '.']
            &&& trim(n) == n
            &&& n.len() <= MAX_NAME_CHARS
        }),
{
    crate::text::lemma_trim_idempotent(s);
    let n = trim(s);
    assert forall|i: int| 0 <= i < n.len() implies n[i] != '/' && n[i] != '\\' && n[i] != ':' by {
        assert(!is_forbidden_name_char(n[i]));
    }
}

/// The name rules refuse only what they list: a name whose trimmed form is
/// not empty, at most 64 characters long, free of `/ \ : NUL < > " | ? *`,
/// not `.` or `..`, and not ending in a space or a dot is accepted, as its
/// trimmed form. Hyphens, underscores, letters of any script and inner
/// spaces or dots are all allowed.
pub proof fn lemma_unlisted_name_accepted(s: Seq<char>)
    requires
        trim(s).len() > 0,
        trim(s).len() <= MAX_NAME_CHARS,
        forall|i: int|
            0 <= i < trim(s).len() ==> {
                let c = #[trigger] trim(s)[i];
                &&& c != '/'
                &&& c != '\\'
                &&& c != ':'
                &&& c != '\0'
                &&& c != '<'
                &&& c != '>'
                &&& c != '"'
                &&& c != '|'
                &&& c != '?'
                &&& c != '*'
            },
        trim(s) != seq!['.'],
        trim(s) != seq!['.', '.'],
        trim(s).last() != ' ',
        trim(s).last() != '.',
    ensures
        name_verdict(s) == Ok::<Seq<char>, CcsError>(trim(s)),
{
    let t = trim(s);
    assert(!(exists|i: int| 0 <= i < t.len() && is_forbidden_name_char(#[trigger] t[i]))) by {
        assert forall|i: int| 0 <= i < t.len() implies !is_forbidden_name_char(#[trigger] t[i]) by {
            let c = t[i];
            assert(c == trim(s)[i]);
        }
    }
}

/// ASCII letters, digits, `-` and `_`.
pub open spec fn is_plain_name_char(c: char) -> bool {
    ||| 'a' <= c <= 'z'
    ||| 'A' <= c <= 'Z'
    ||| '0' <= c <= '9'
    ||| c == '-'
    ||| c == '_'
}

/// A name of 1 to 64 ASCII letters, digits, hyphens and underscores, such
/// as `deepseek-v4` or `work_2`, is accepted exactly as given.
pub proof fn lemma_plain_name_accepted(s: Seq<char>)
    requires
        0 < s.len() <= MAX_NAME_CHARS,
        forall|i: int| 0 <= i < s.len() ==> is_plain_name_char(#[trigger] s[i]),
    ensures
        name_verdict(s) == Ok::<Seq<char>, CcsError>(s),
{
    assert(is_plain_name_char(s[0]));
    assert(is_plain_name_char(s[s.len() - 1]));
    assert(!crate::text::is_white_space(s[0]));
    assert(trim_start(s) == s);
    assert(s.last() == s[s.len() - 1]);
    assert(!crate::text::is_white_space(s.last()));
    assert(trim(s) == s);
    assert forall|i: int| 0 <= i < s.len() implies {
        let c = #[trigger] trim(s)[i];
        &&& c != '/'
        &&& c != '\\'
        &&& c != ':'
        &&& c != '\0'
        &&& c != '<'
        &&& c != '>'
        &&& c != '"'
        &&& c != '|'
        &&& c != '?'
        &&& c != '*'
    } by {
        assert(is_plain_name_char(s[i]));
    }
    if s == seq!['.'] {
        assert(s[0] == '.');
    }
    if s == seq!['.', '.'] {
        assert(s[0] == '.');
    }
    lemma_unlisted_name_accepted(s);
}

/// The view of a result that carries a string.
pub open spec fn string_result_view(r: Result<String, CcsError>) -> Result<Seq<char>, CcsError> {
    match r {
        Ok(s) => Ok(s@),
        Err(e) => Err(e),
    }
}

fn is_forbidden_char(c: char) -> (r: bool)
    ensures
        r == is_forbidden_name_char(c),
{
    c == '/' || c == '\\' || c == ':' || c == '\0' || c == '<' || c == '>' || c == '"' || c == '|'
        || c == '?' || c == '*'
}

/// Checks a requested configuration name, so that it can serve as a file
/// name: trimmed, not empty, free of separators and forbidden characters,
/// not `.` or `..`, not ending in a space or a dot, at most 64 characters.
pub fn validate_config_name(name: &str) -> (r: Result<String, CcsError>)
    ensures
        string_result_view(r) == name_verdict(name@),
{
    let t = trim_str(name);
    let v = chars_of(t.as_str());
    let n = v.len();
    if n == 0 {
        return Err(CcsError::EmptyName);
    }
    let mut i: usize = 0;
    while i < n
        invariant
            n == v.len(),
            v@ == t@,
            t@ == trim(name@),
            i <= n,
            forall|j: int| 0 <= j < i ==> !is_forbidden_name_char(#[trigger] v@[j]),
        decreases n - i,
    {
        if is_forbidden_char(v[i]) {
            assert(is_forbidden_name_char(trim(name@)[i as int]));
            return Err(CcsError::ForbiddenChar);
        }
        i = i + 1;
    }
    if (n == 1 && v[0] == '.') || (n == 2 && v[0] == '.' && v[1] == '.') {
        assert(t@ =~= seq!['.'] || t@ =~= seq!['.', '.']);
        return Err(CcsError::ReservedName);
    }
    assert(t@ != seq!['.']) by {
        if t@ == seq!['.'] {
            assert(v@[0] == '.');
        }
    }
    assert(t@ != seq!['.', '.']) by {
        if t@ == seq!['.', '.'] {
            assert(v@[0] == '.' && v@[1] == '.');
        }
    }
    assert(t@.last() == v@[n - 1]);
    assert(!(exists|j: int| 0 <= j < t@.len() && is_forbidden_name_char(#[trigger] t@[j]))) by {
        assert forall|j: int| 0 <= j < t@.len() implies !is_forbidden_name_char(#[trigger] t@[j]) by {
            assert(v@[j] == t@[j]);
        }
    }
    if v[n - 1] == ' ' || v[n - 1] == '.' {
        return Err(CcsError::BadEnding);
    }
    if n > MAX_NAME_CHARS {
        return Err(CcsError::NameTooLong);
    }
    Ok(t)
}

/// Appends `s` to `out`.
fn append_str(out: &mut String, s: &str)
    ensures
        final(out)@ == old(out)@ + s@,
{
    out.append(s);
}

/// Checks a name for a new configuration and gives the checked name and
/// the name of its settings file, `<name>.json`.
pub fn new_config_file_name(name: &str) -> (r: Result<(String, String), CcsError>)
    ensures
        match name_verdict(name@) {
            Ok(t) => r is Ok && r->Ok_0.0@ == t && r->Ok_0.1@ == t + ".json"@,
            Err(e) => r == Err::<(String, String), CcsError>(e),
        },
{
    let checked = validate_config_name(name)?;
    let mut file = checked.clone();
    append_str(&mut file, ".json");
    Ok((checked, file))
}

/// The line that the listing shows for one configuration: a star for the
/// global default, the name, an arrow, the path and the description.
pub open spec fn config_line(c: ConfigView) -> Seq<char> {
    "  "@ + (if c.is_default {
        "\u{2605}"@
    } else {
        " "@
    }) + " "@ + c.name + " \u{2192} "@ + c.path + " "@ + match c.description {
        Some(d) => d,
        None => Seq::<char>::empty(),
    }
}

/// The lines that listing the configurations prints.
pub open spec fn listing(cs: Seq<ConfigView>) -> Seq<Seq<char>> {
    if cs.len() == 0 {
        seq![EMPTY_LISTING@]
    } else {
        seq![LISTING_HEADER@] + cs.map_values(|c: ConfigView| config_line(c)) + seq![LISTING_FOOTER@]
    }
}

/// What the listing says when nothing is registered.
pub const EMPTY_LISTING: &'static str = "\u{6682}\u{65e0}\u{914d}\u{7f6e}\u{ff0c}\u{4f7f}\u{7528} `ccs add <name> <path>` \u{6dfb}\u{52a0}";

/// The first line of a listing.
pub const LISTING_HEADER: &'static str = "\u{914d}\u{7f6e}\u{5217}\u{8868}:";

/// The last line of a listing, after an empty line.
pub const LISTING_FOOTER: &'static str = "\n  \u{2605} \u{5168}\u{5c40}\u{9ed8}\u{8ba4}";

/// The listing line of one configuration.
pub fn render_config_line(c: &Config) -> (line: String)
    ensures
        line@ == config_line(c@),
{
    let mut line = String::new();
    append_str(&mut line, "  ");
    if c.is_default {
        append_str(&mut line, "\u{2605}");
    } else {
        append_str(&mut line, " ");
    }
    append_str(&mut line, " ");
    append_str(&mut line, c.name.as_str());
    append_str(&mut line, " \u{2192} ");
    append_str(&mut line, c.path.as_str());
    append_str(&mut line, " ");
    match &c.description {
        Some(d) => append_str(&mut line, d.as_str()),
        None => {},
    }
    assert(line@ =~= config_line(c@));
    line
}

/// What `char::is_alphanumeric` says of a character: whether it is
/// alphabetic or numeric in the sense of the Unicode tables.
pub uninterp spec fn char_alphanumeric(c: char) -> bool;

/// Trusted: calls `char::is_alphanumeric`, a function of the character
/// alone, whose result is named `char_alphanumeric`.
#[verifier::external_body]
fn is_alphanumeric(c: char) -> (r: bool)
    ensures
        r == char_alphanumeric(c),
{
    c.is_alphanumeric()
}

/// Characters that an editor name may hold.
pub open spec fn editor_char_ok(c: char) -> bool {
    char_alphanumeric(c) || c == '_' || c == '-' || c == '.'
}

/// Whether an editor name is a plain program name, safe to start: only
/// letters, digits, `_`, `-` and `.`, so no path and nothing a shell would
/// read.
pub fn is_safe_editor_name(editor: &str) -> (r: bool)
    ensures
        r == forall|i: int| 0 <= i < editor@.len() ==> editor_char_ok(#[trigger] editor@[i]),
{
    let v = chars_of(editor);
    let mut i: usize = 0;
    while i < v.len()
        invariant
            v@ == editor@,
            i <= v.len(),
            forall|j: int| 0 <= j < i ==> editor_char_ok(#[trigger] v@[j]),
        decreases v.len() - i,
    {
        let c = v[i];
        if !(is_alphanumeric(c) || c == '_' || c == '-' || c == '.') {
            assert(!editor_char_ok(editor@[i as int]));
            return false;
        }
        i = i + 1;
    }
    true
}

/// The editor to open a new configuration in: `$EDITOR`, else `$VISUAL`,
/// else `code`; each argument is the variable's value when it is set.
pub fn choose_editor(editor: Option<String>, visual: Option<String>) -> (r: String)
    ensures
        r@ == match editor {
            Some(e) => e@,
            None => match visual {
                Some(v) => v@,
                None => "code"@,
            },
        },
{
    match editor {
        Some(e) => e,
        None => match visual {
            Some(v) => v,
            None => "code".to_owned(),
        },
    }
}

/// The configuration manager: the store and the operations that the
/// commands perform on it.
pub struct ConfigManager {
    store: ConfigStore,
}

impl View for ConfigManager {
    type V = Seq<ConfigView>;

    closed spec fn view(&self) -> Seq<ConfigView> {
        self.store@
    }
}

impl ConfigManager {
    /// A manager over the given store.
    pub fn new(store: ConfigStore) -> (m: ConfigManager)
        ensures
            m@ == store@,
    {
        ConfigManager { store }
    }

    /// Registers the settings file at `path` under `name`; `path_exists`
    /// tells whether that file exists.
    pub fn add(&mut self, name: String, path: String, path_exists: bool, description: Option<String>) -> (r: Result<(), CcsError>)
        ensures
            !path_exists ==> r == Err::<(), CcsError>(CcsError::FileMissing) && final(self)@ == old(self)@,
            path_exists && has_name(old(self)@, name@) ==> r == Err::<(), CcsError>(CcsError::NameTaken)
                && final(self)@ == old(self)@,
            path_exists && !has_name(old(self)@, name@) ==> r is Ok && final(self)@ == old(self)@.push(
                ConfigView { name: name@, path: path@, description: opt_view(description), is_default: false },
            ),
    {
        if !path_exists {
            return Err(CcsError::FileMissing);
        }
        let config = Config::new(name, path, description);
        self.store.add(config)
    }

    /// The lines that listing the configurations prints.
    pub fn list(&self) -> (lines: Vec<String>)
        ensures
            lines@.map_values(|l: String| l@) == listing(self@),
    {
        let configs = self.store.list();
        let mut lines: Vec<String> = Vec::new();
        if configs.len() == 0 {
            lines.push(EMPTY_LISTING.to_owned());
            assert(lines@.map_values(|l: String| l@) =~= listing(self@));
            return lines;
        }
        lines.push(LISTING_HEADER.to_owned());
        let ghost cs = self@;
        let mut i: usize = 0;
        while i < configs.len()
            invariant
                i <= configs.len(),
                configs@.map_values(|c: Config| c@) == cs,
                lines@.map_values(|l: String| l@) == seq![LISTING_HEADER@] + cs.take(i as int).map_values(
                    |c: ConfigView| config_line(c),
                ),
            decreases configs.len() - i,
        {
            let line = render_config_line(&configs[i]);
            assert(cs[i as int] == configs@[i as int]@);
            let ghost prev = lines@;
            lines.push(line);
            assert(lines@.map_values(|l: String| l@) =~= prev.map_values(|l: String| l@).push(line@));
            assert(cs.take(i + 1) =~= cs.take(i as int).push(cs[i as int]));
            assert(cs.take(i + 1).map_values(|c: ConfigView| config_line(c)) =~= cs.take(i as int).map_values(
                |c: ConfigView| config_line(c),
            ).push(config_line(cs[i as int])));
            assert(lines@.map_values(|l: String| l@) =~= seq![LISTING_HEADER@] + cs.take(i + 1).map_values(
                |c: ConfigView| config_line(c),
            ));
            i = i + 1;
        }
        lines.push(LISTING_FOOTER.to_owned());
        assert(cs.take(i as int) =~= cs);
        assert(lines@.map_values(|l: String| l@) =~= listing(self@));
        lines
    }

    /// All configurations, in order.
    pub fn configs(&self) -> (r: &[Config])
        ensures
            r@.map_values(|c: Config| c@) == self@,
    {
        self.store.list()
    }

    /// Removes the configuration `name` and reports whether it was the
    /// default and where its file is.
    pub fn remove(&mut self, name: &str) -> (r: Result<RemoveInfo, CcsError>)
        ensures
            match find_name(old(self)@, name@) {
                Some(i) => {
                    &&& r is Ok
                    &&& r->Ok_0.was_default == old(self)@[i].is_default
                    &&& r->Ok_0.path@ == old(self)@[i].path
                    &&& final(self)@ == old(self)@.remove(i)
                },
                None => r is Err && r->Err_0 == CcsError::NotFound && final(self)@ == old(self)@,
            },
    {
        self.store.remove(name)
    }

    /// Makes `name` the global default.
    pub fn set_default(&mut self, name: &str) -> (r: Result<(), CcsError>)
        ensures
            r is Err <==> !has_name(old(self)@, name@),
            r is Err ==> r == Err::<(), CcsError>(CcsError::NotFound) && final(self)@ == old(self)@,
            r is Ok ==> final(self)@ == store::with_default(old(self)@, name@),
    {
        self.store.set_default(name)
    }

    /// Name of the global default configuration.
    pub fn get_default(&self) -> (r: Option<String>)
        ensures
            match first_match(self@, is_default_config()) {
                Some(i) => r is Some && r->0@ == self@[i].name,
                None => r is None,
            },
    {
        match self.store.get_default() {
            Some(c) => Some(c.name.clone()),
            None => None,
        }
    }

    /// The global default configuration.
    pub fn get_default_config(&self) -> (r: Option<&Config>)
        ensures
            match first_match(self@, is_default_config()) {
                Some(i) => r is Some && r->0@ == self@[i],
                None => r is None,
            },
    {
        self.store.get_default()
    }

    /// The configuration `name`.
    pub fn get_config(&self, name: &str) -> (r: Result<&Config, CcsError>)
        ensures
            match find_name(self@, name@) {
                Some(i) => r is Ok && r->Ok_0@ == self@[i],
                None => r == Err::<&Config, CcsError>(CcsError::NotFound),
            },
    {
        self.store.get(name)
    }

    /// Whether a configuration `name` is registered.
    pub fn has_config(&self, name: &str) -> (r: bool)
        ensures
            r == has_name(self@, name@),
    {
        self.store.get(name).is_ok()
    }

    /// Registers a new configuration under the name that the name rules
    /// make of `name` (trimmed), with the settings file at `path`, just
    /// created from the template; refused, and the store left unchanged,
    /// when the name breaks a rule or is taken.
    pub fn new_config(&mut self, name: String, path: String, description: Option<String>) -> (r: Result<(), CcsError>)
        ensures
            match name_verdict(name@) {
                Err(e) => r == Err::<(), CcsError>(e) && final(self)@ == old(self)@,
                Ok(t) => if has_name(old(self)@, t) {
                    r == Err::<(), CcsError>(CcsError::NameTaken) && final(self)@ == old(self)@
                } else {
                    r is Ok && final(self)@ == old(self)@.push(
                        ConfigView { name: t, path: path@, description: opt_view(description), is_default: false },
                    )
                },
            },
    {
        let checked = validate_config_name(name.as_str())?;
        self.store.add(Config::new(checked, path, description))
    }
}

} // verus!
