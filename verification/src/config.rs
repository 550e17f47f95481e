use vstd::prelude::*;
use crate::error::RecallError;
use crate::text::chars_of;

verus! {

/// The settings of the tool: the default notes file, and the notebooks by name.
pub struct Config {
    /// Path of the default notes file; `~/` stands for the home directory.
    pub file: Option<String>,
    /// Notebook names and the paths of their files. Each name is meant to occur once
    /// (`names_unique`, checked by `has_unique_names`); a configuration read from TOML has that,
    /// its keys being unique. A name listed twice is found at its first entry.
    pub notebooks: Option<Vec<(String, String)>>,
}

impl Default for Config {
    fn default() -> (res: Config)
        ensures
            res.file is None,
            res.notebooks is None,
    {
        Config { file: None, notebooks: None }
    }
}

pub open spec fn opt_view(o: Option<String>) -> Option<Seq<char>> {
    match o {
        Some(s) => Some(s@),
        None => None,
    }
}

pub open spec fn entry_views(entries: Seq<(String, String)>) -> Seq<(Seq<char>, Seq<char>)> {
    entries.map_values(|e: (String, String)| (e.0@, e.1@))
}

/// The path that `entries` give for `name`.
pub open spec fn lookup(entries: Seq<(Seq<char>, Seq<char>)>, name: Seq<char>) -> Option<
    Seq<char>,
>
    decreases entries.len(),
{
    if entries.len() == 0 {
        None
    } else if entries[0].0 == name {
        Some(entries[0].1)
    } else {
        lookup(entries.drop_first(), name)
    }
}

/// No notebook name occurs twice.
pub open spec fn names_unique(entries: Seq<(Seq<char>, Seq<char>)>) -> bool {
    forall|i: int, j: int|
        0 <= i < j < entries.len() ==> #[trigger] entries[i].0 != #[trigger] entries[j].0
}

/// Where names occur once, the path found for a name is the one listed with it.
pub proof fn lemma_lookup_listed(entries: Seq<(Seq<char>, Seq<char>)>, name: Seq<char>, path: Seq<
    char,
>)
    requires
        names_unique(entries),
    ensures
        lookup(entries, name) == Some(path) <==> exists|i: int|
            0 <= i < entries.len() && #[trigger] entries[i] == (name, path),
    decreases entries.len(),
{
    if entries.len() > 0 {
        let rest = entries.drop_first();
        assert(names_unique(rest)) by {
            assert forall|i: int, j: int| 0 <= i < j < rest.len() implies #[trigger] rest[i].0
                != #[trigger] rest[j].0 by {
                assert(rest[i] == entries[i + 1] && rest[j] == entries[j + 1]);
            }
        }
        lemma_lookup_listed(rest, name, path);
        if lookup(entries, name) == Some(path) {
            if entries[0].0 == name {
                assert(entries[0] == (name, path));
            } else {
                let i = choose|i: int| 0 <= i < rest.len() && #[trigger] rest[i] == (name, path);
                assert(entries[i + 1] == (name, path));
            }
        } else {
            if exists|i: int| 0 <= i < entries.len() && #[trigger] entries[i] == (name, path) {
                let i = choose|i: int| 0 <= i < entries.len() && #[trigger] entries[i] == (name, path);
                if i == 0 {
                } else {
                    assert(entries[0].0 != entries[i].0);
                    assert(rest[i - 1] == (name, path));
                }
            }
        }
    }
}

impl Config {
    /// The notebook entries, as text.
    pub open spec fn notebook_entries(&self) -> Option<Seq<(Seq<char>, Seq<char>)>> {
        match self.notebooks {
            Some(v) => Some(entry_views(v@)),
            None => None,
        }
    }

    /// The configured path of notebook `name`.
    pub open spec fn notebook_path(&self, name: Seq<char>) -> Option<Seq<char>> {
        match self.notebook_entries() {
            Some(entries) => lookup(entries, name),
            None => None,
        }
    }

    /// The file of notebook `name` given the home directory `home`.
    pub open spec fn resolved_notebook(&self, name: Seq<char>, home: Option<Seq<char>>) -> Option<
        Seq<char>,
    > {
        match self.notebook_path(name) {
            Some(p) => expanded(p, home),
            None => None,
        }
    }

    /// Whether no notebook name occurs twice.
    pub fn has_unique_names(&self) -> (res: bool)
        ensures
            res == match self.notebook_entries() {
                Some(e) => names_unique(e),
                None => true,
            },
    {
        let entries = match &self.notebooks {
            Some(v) => v,
            None => return true,
        };
        let ghost e = entry_views(entries@);
        let n = entries.len();
        let mut j: usize = 0;
        while j < n
            invariant
                j <= n == entries@.len(),
                e == entry_views(entries@),
                self.notebooks == Some(*entries),
                forall|a: int, b: int| 0 <= a < b < j ==> #[trigger] e[a].0 != #[trigger] e[b].0,
            decreases n - j,
        {
            let mut i: usize = 0;
            while i < j
                invariant
                    i <= j < n == entries@.len(),
                    e == entry_views(entries@),
                    self.notebooks == Some(*entries),
                    forall|a: int| 0 <= a < i ==> #[trigger] e[a].0 != e[j as int].0,
                decreases j - i,
            {
                assert(e[i as int].0 == entries@[i as int].0@ && e[j as int].0 == entries@[j as int].0@);
                if entries[i].0 == entries[j].0 {
                    assert(!names_unique(e)) by {
                        assert(e[i as int].0 == e[j as int].0);
                    }
                    return false;
                }
                i = i + 1;
            }
            j = j + 1;
        }
        true
    }

    /// The configured path of notebook `name`, not yet expanded.
    pub fn notebook(&self, name: &str) -> (res: Option<String>)
        ensures
            opt_view(res) == self.notebook_path(name@),
    {
        let entries = match &self.notebooks {
            Some(v) => v,
            None => return None,
        };
        let key = String::from_str(name);
        let n = entries.len();
        let mut i: usize = 0;
        assert(entry_views(entries@).skip(0) == entry_views(entries@));
        while i < n
            invariant
                i <= n == entries@.len(),
                key@ == name@,
                self.notebooks == Some(*entries),
                lookup(entry_views(entries@), name@) == lookup(
                    entry_views(entries@).skip(i as int),
                    name@,
                ),
            decreases n - i,
        {
            let ghost rest = entry_views(entries@).skip(i as int);
            assert(rest[0] == (entries@[i as int].0@, entries@[i as int].1@));
            assert(rest.drop_first() == entry_views(entries@).skip(i + 1));
            if entries[i].0 == key {
                return Some(entries[i].1.clone());
            }
            i = i + 1;
        }
        None
    }

    /// The file of notebook `name`, with `~` expanded: `None` when no notebook has that name,
    /// or its path needs a home directory and there is none.
    pub fn resolve_notebook_path(&self, name: &str) -> (res: Option<String>)
        ensures
            exists|home: Option<Seq<char>>|
                opt_view(res) == #[trigger] self.resolved_notebook(name@, home),
            self.notebook_path(name@) is None ==> res is None,
    {
        let path = match self.notebook(name) {
            Some(p) => p,
            None => {
                assert(opt_view(None) == self.resolved_notebook(name@, None));
                return None;
            },
        };
        let res = Self::expand_path(path.as_str());
        let ghost home = choose|home: Option<Seq<char>>| opt_view(res) == #[trigger] expanded(path@, home);
        assert(opt_view(res) == expanded(path@, home));
        assert(opt_view(res) == self.resolved_notebook(name@, home));
        res
    }

    /// `path` with a leading `~` read as the home directory: `None` when it needs one and
    /// there is none.
    pub fn expand_path(path: &str) -> (res: Option<String>)
        ensures
            exists|home: Option<Seq<char>>| opt_view(res) == #[trigger] expanded(path@, home),
            !needs_home(path@) ==> opt_view(res) == Some(path@),
    {
        let v = chars_of(path);
        let home = if v.len() >= 2 && v[0] == '~' && v[1] == '/' || v.len() == 1 && v[0] == '~' {
            home_directory()
        } else {
            None
        };
        let res = Self::expand_path_with_home(path, home);
        assert(opt_view(res) == expanded(path@, opt_view(home)));
        res
    }

    /// `path` with a leading `~` read as `home`.
    pub fn expand_path_with_home(path: &str, home: Option<String>) -> (res: Option<String>)
        ensures
            opt_view(res) == expanded(path@, opt_view(home)),
    {
        let v = chars_of(path);
        if v.len() >= 2 && v[0] == '~' && v[1] == '/' {
            match home {
                Some(h) => {
                    let rest = path.substring_char(2, v.len());
                    Some(join_path(h.as_str(), rest))
                },
                None => None,
            }
        } else if v.len() == 1 && v[0] == '~' {
            assert(path@ == seq!['~']);
            home
        } else {
            assert(path@ != seq!['~']);
            Some(String::from_str(path))
        }
    }
}

/// Whether `path` starts at the home directory: it is `~` or starts with `~/`.
pub open spec fn needs_home(path: Seq<char>) -> bool {
    (path.len() >= 2 && path[0] == '~' && path[1] == '/') || path == seq!['~']
}

/// `path` with a leading `~` read as `home`.
pub open spec fn expanded(path: Seq<char>, home: Option<Seq<char>>) -> Option<Seq<char>> {
    if path.len() >= 2 && path[0] == '~' && path[1] == '/' {
        match home {
            Some(h) => Some(joined_path(h, path.skip(2))),
            None => None,
        }
    } else if path == seq!['~'] {
        home
    } else {
        Some(path)
    }
}

/// `dirs::home_dir()` as text; a home directory whose path is no valid UTF-8 counts as none.
/// Nothing is stated: the result depends on the environment.
#[verifier::external_body]
fn home_directory() -> (res: Option<String>) {
    let home = dirs::home_dir()?;
    home.into_os_string().into_string().ok()
}

/// The path that `std::path::Path::join` makes of `base` and `rest` on this platform.
pub uninterp spec fn joined_path(base: Seq<char>, rest: Seq<char>) -> Seq<char>;

/// `Path::new(base).join(rest)` as text. Stated: the result is `joined_path` of the two.
#[verifier::external_body]
fn join_path(base: &str, rest: &str) -> (res: String)
    ensures
        res@ == joined_path(base@, rest@),
{
    std::path::Path::new(base).join(rest).to_string_lossy().into_owned()
}

pub open spec fn recall_dir() -> Seq<char> {
    seq!['.', 'r', 'e', 'c', 'a', 'l', 'l']
}

/// `home/.recall/<name>`.
pub open spec fn in_recall_dir(home: Seq<char>, name: Seq<char>) -> Seq<char> {
    joined_path(joined_path(home, recall_dir()), name)
}

fn recall_file(home: &str, name: &str) -> (res: String)
    ensures
        res@ == in_recall_dir(home@, name@),
{
    proof {
        reveal_strlit(".recall");
        assert(".recall"@ =~= recall_dir());
    }
    let dir = join_path(home, ".recall");
    join_path(dir.as_str(), name)
}

/// The notes file that the settings name, given the home directory `home`: the configured
/// file expanded, or `~/.recall/notes.md` when none is configured.
pub open spec fn resolved_file(file: Option<Seq<char>>, home: Option<Seq<char>>) -> Result<
    Seq<char>,
    RecallError,
> {
    match file {
        Some(f) => match expanded(f, home) {
            Some(p) => Ok(p),
            None => Err(RecallError::FilePathUnresolved),
        },
        None => match home {
            Some(h) => Ok(in_recall_dir(h, "notes.md"@)),
            None => Err(RecallError::HomeDirNotFound),
        },
    }
}

pub open spec fn result_view(r: Result<String, RecallError>) -> Result<Seq<char>, RecallError> {
    match r {
        Ok(s) => Ok(s@),
        Err(e) => Err(e),
    }
}

/// The default notes file of `config`.
pub fn resolve_file_path(config: &Config) -> (res: Result<String, RecallError>)
    ensures
        exists|home: Option<Seq<char>>|
            result_view(res) == #[trigger] resolved_file(opt_view(config.file), home),
{
    match &config.file {
        Some(f) => {
            let r = Config::expand_path(f.as_str());
            let ghost home = choose|home: Option<Seq<char>>| opt_view(r) == #[trigger] expanded(f@, home);
            match r {
                Some(p) => {
                    assert(result_view(Ok(p)) == resolved_file(opt_view(config.file), home));
                    Ok(p)
                },
                None => {
                    assert(result_view(Err(RecallError::FilePathUnresolved)) == resolved_file(
                        opt_view(config.file),
                        home,
                    ));
                    Err(RecallError::FilePathUnresolved)
                },
            }
        },
        None => {
            let home = home_directory();
            let res = match &home {
                Some(h) => Ok(recall_file(h.as_str(), "notes.md")),
                None => Err(RecallError::HomeDirNotFound),
            };
            assert(result_view(res) == resolved_file(opt_view(config.file), opt_view(home)));
            res
        },
    }
}

/// The configuration file to read: the one given, else `~/.recall/config.toml` given the home
/// directory `home` (`None` when there is no home directory).
pub open spec fn config_file(explicit: Option<Seq<char>>, home: Option<Seq<char>>) -> Option<
    Seq<char>,
> {
    match explicit {
        Some(p) => Some(p),
        None => match home {
            Some(h) => Some(in_recall_dir(h, "config.toml"@)),
            None => None,
        },
    }
}

/// The configuration file to read.
pub fn config_path(explicit: Option<String>) -> (res: Option<String>)
    ensures
        exists|home: Option<Seq<char>>| opt_view(res) == #[trigger] config_file(opt_view(explicit), home),
{
    match explicit {
        Some(p) => {
            assert(opt_view(Some(p)) == config_file(opt_view(Some(p)), None));
            Some(p)
        },
        None => {
            let home = home_directory();
            let res = match &home {
                Some(h) => Some(recall_file(h.as_str(), "config.toml")),
                None => None,
            };
            assert(opt_view(res) == config_file(None, opt_view(home)));
            res
        },
    }
}

/// One step of the scan for a backslash inside double quotes: (inside quotes, found).
pub open spec fn quote_step(state: (bool, bool), c: char) -> (bool, bool) {
    if c == '"' {
        (!state.0, state.1)
    } else if state.0 && c == '\\' {
        (true, true)
    } else {
        state
    }
}

/// The scan state after `s`.
pub open spec fn quote_scan(s: Seq<char>) -> (bool, bool)
    decreases s.len(),
{
    if s.len() == 0 {
        (false, false)
    } else {
        quote_step(quote_scan(s.drop_last()), s.last())
    }
}

/// Whether a backslash stands inside double quotes in `s`.
pub fn has_backslash_in_double_quotes(s: &str) -> (res: bool)
    ensures
        res == quote_scan(s@).1,
{
    let v = chars_of(s);
    let n = v.len();
    let mut inside = false;
    let mut found = false;
    let mut i: usize = 0;
    while i < n
        invariant
            i <= n == v@.len(),
            v@ == s@,
            (inside, found) == quote_scan(v@.take(i as int)),
        decreases n - i,
    {
        assert(v@.take(i + 1).drop_last() == v@.take(i as int));
        let c = v[i];
        if c == '"' {
            inside = !inside;
        } else if inside && c == '\\' {
            found = true;
        }
        i = i + 1;
    }
    assert(v@.take(n as int) == v@);
    found
}

pub open spec fn hint_prefix() -> Seq<char> {
    "Failed to parse config.toml: "@
}

pub open spec fn hint_suffix() -> Seq<char> {
    "\n\nHint: Windows paths with backslashes must use single quotes:\n\n  [notebooks]\n  w = 'C:\\Data\\Obsidian\\vault\\notes.md'\n\nOr escape the backslashes in double quotes:\n\n  w = \"C:\\\\Data\\\\Obsidian\\\\vault\\\\notes.md\""@
}

/// The message for a configuration file that did not parse: when a backslash stands inside
/// double quotes, the parser's message with a hint on Windows paths; otherwise the parser's
/// message.
pub open spec fn parse_error_message(content: Seq<char>, error: Seq<char>) -> Seq<char> {
    if content.contains('"') && quote_scan(content).1 {
        hint_prefix() + error + hint_suffix()
    } else {
        error
    }
}

/// The message for a configuration file `content` that the parser refused with `error`.
pub fn config_error_message(content: &str, error: &str) -> (res: String)
    ensures
        res@ == parse_error_message(content@, error@),
{
    let found = has_backslash_in_double_quotes(content);
    proof {
        if found {
            assert(content@.contains('"')) by {
                lemma_found_needs_quote(content@);
            }
        }
    }
    if found {
        let mut s = String::from_str("Failed to parse config.toml: ");
        s.append(error);
        s.append(
            "\n\nHint: Windows paths with backslashes must use single quotes:\n\n  [notebooks]\n  w = 'C:\\Data\\Obsidian\\vault\\notes.md'\n\nOr escape the backslashes in double quotes:\n\n  w = \"C:\\\\Data\\\\Obsidian\\\\vault\\\\notes.md\"",
        );
        s
    } else {
        String::from_str(error)
    }
}

/// The number of double quotes in `s`.
pub open spec fn quote_count(s: Seq<char>) -> nat
    decreases s.len(),
{
    if s.len() == 0 {
        0
    } else {
        quote_count(s.drop_last()) + if s.last() == '"' {
            1nat
        } else {
            0nat
        }
    }
}

/// Whether some backslash of `s` has an odd number of double quotes before it.
pub open spec fn backslash_after_odd_quotes(s: Seq<char>) -> bool {
    exists|i: int| 0 <= i < s.len() && s[i] == '\\' && #[trigger] quote_count(s.take(i)) % 2 == 1
}

proof fn lemma_quote_scan(s: Seq<char>)
    ensures
        quote_scan(s).0 == (quote_count(s) % 2 == 1),
        quote_scan(s).1 == backslash_after_odd_quotes(s),
    decreases s.len(),
{
    if s.len() > 0 {
        let p = s.drop_last();
        let c = s.last();
        lemma_quote_scan(p);
        assert(s.take(p.len() as int) == p);
        assert forall|i: int| 0 <= i < p.len() implies s.take(i) == p.take(i) && s[i] == p[i] by {}
        if backslash_after_odd_quotes(p) {
            let i = choose|i: int|
                0 <= i < p.len() && p[i] == '\\' && #[trigger] quote_count(p.take(i)) % 2 == 1;
            assert(s.take(i) == p.take(i));
            assert(s[i] == '\\');
        }
        if backslash_after_odd_quotes(s) {
            let i = choose|i: int|
                0 <= i < s.len() && s[i] == '\\' && #[trigger] quote_count(s.take(i)) % 2 == 1;
            if i < p.len() {
                assert(s.take(i) == p.take(i));
                assert(p[i] == '\\');
            } else {
                assert(s.take(i) == p);
            }
        }
        if quote_scan(p).0 && c == '\\' {
            assert(s[p.len() as int] == '\\');
            assert(quote_count(s.take(p.len() as int)) % 2 == 1);
        }
    } else {
        assert(!backslash_after_odd_quotes(s));
    }
}

/// The Windows-path hint is added exactly when some backslash of the configuration file stands
/// after an odd number of double quotes (every double quote opens or closes a string, whatever
/// stands around it); otherwise the parser's message is given as it is.
pub proof fn lemma_hint_after_odd_quotes(content: Seq<char>, error: Seq<char>)
    ensures
        parse_error_message(content, error) == if backslash_after_odd_quotes(content) {
            hint_prefix() + error + hint_suffix()
        } else {
            error
        },
{
    lemma_quote_scan(content);
    lemma_found_needs_quote(content);
}

proof fn lemma_found_needs_quote(s: Seq<char>)
    ensures
        quote_scan(s).0 || quote_scan(s).1 ==> s.contains('"'),
    decreases s.len(),
{
    if s.len() > 0 {
        lemma_found_needs_quote(s.drop_last());
        if s.drop_last().contains('"') {
            let i = choose|i: int| 0 <= i < s.drop_last().len() && s.drop_last()[i] == '"';
            assert(s[i] == '"');
        }
        if s.last() == '"' {
            assert(s[s.len() - 1] == '"');
        }
    }
}

} // verus!
