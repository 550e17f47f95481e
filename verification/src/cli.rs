use vstd::prelude::*;
use crate::config::{opt_view, Config};
use crate::error::RecallError;
use crate::note::Note;
use crate::storage::Storage;
use crate::text::{is_blank, join, join_from, str_views, trim, views};

verus! {

/// What the words of a command line ask for.
pub enum ExternalCommand {
    /// Add a note with this text to the notes file of `storage`.
    AddNote { storage: Storage, text: String },
    /// Browse the notes file of `storage`.
    Browse { storage: Storage },
    /// Print the notes of the file of `storage`, one line each, newest first.
    List { storage: Storage },
}

/// The meaning of a command: what is done, and to which file.
pub enum Request {
    /// Add a note with this text to the file at this path.
    Add(Seq<char>, Seq<char>),
    /// Browse the file at this path.
    Browse(Seq<char>),
    /// List the notes of the file at this path.
    List(Seq<char>),
}

/// The meaning of an `ExternalCommand`.
pub open spec fn command_view(c: ExternalCommand) -> Request {
    match c {
        ExternalCommand::AddNote { storage, text } => Request::Add(storage.path(), text@),
        ExternalCommand::Browse { storage } => Request::Browse(storage.path()),
        ExternalCommand::List { storage } => Request::List(storage.path()),
    }
}

/// The subcommand word that adds a note.
pub open spec fn add_word() -> Seq<char> {
    seq!['a', 'd', 'd']
}

/// The subcommand word that lists the notes.
pub open spec fn list_word() -> Seq<char> {
    seq!['l', 'i', 's', 't']
}

/// What the words `rest` ask of the file at `path`: `add` and the note's words, `list` alone,
/// or the words of a note.
pub open spec fn routed_to(path: Seq<char>, rest: Seq<Seq<char>>) -> Request {
    if rest.len() >= 1 && rest[0] == add_word() {
        Request::Add(path, join(rest.skip(1), seq![' ']))
    } else if rest.len() == 1 && rest[0] == list_word() {
        Request::List(path)
    } else {
        Request::Add(path, join(rest, seq![' ']))
    }
}

/// The command that `args` ask for, given the file `notebook` that their first word names as a
/// notebook (`None` when it names none). The subcommands `add` and `list` are reserved: as first
/// word they act on the default file `default_path`. Otherwise, with a notebook, no further word
/// browses it and the other words act on it as above; without one, all words are the note to
/// add to the default file.
pub open spec fn routed(args: Seq<Seq<char>>, notebook: Option<Seq<char>>, default_path: Seq<
    char,
>) -> Request {
    if args[0] == add_word() || args[0] == list_word() {
        routed_to(default_path, args)
    } else {
        match notebook {
            Some(path) => if args.len() == 1 {
                Request::Browse(path)
            } else {
                routed_to(path, args.skip(1))
            },
            None => Request::Add(default_path, join(args, seq![' '])),
        }
    }
}

fn word_refs(args: &Vec<String>) -> (res: Vec<&str>)
    ensures
        str_views(res@) == views(args@),
{
    let mut res: Vec<&str> = Vec::new();
    let mut i: usize = 0;
    while i < args.len()
        invariant
            i <= args@.len(),
            str_views(res@) == views(args@).take(i as int),
        decreases args@.len() - i,
    {
        let ghost before = res@;
        res.push(args[i].as_str());
        assert(str_views(res@) == str_views(before).push(args@[i as int]@));
        assert(views(args@).take(i + 1) == views(args@).take(i as int).push(args@[i as int]@));
        i = i + 1;
    }
    assert(views(args@).take(args@.len() as int) == views(args@));
    res
}

/// Whether `s` is the word `w`.
fn is_word(s: &String, w: &str) -> (res: bool)
    ensures
        res == (s@ == w@),
{
    let word = String::from_str(w);
    *s == word
}

/// The command that `words[from..]` ask of the file of `storage`, as `routed_to` states it.
fn route_to(words: &Vec<&str>, args: &Vec<String>, from: usize, storage: Storage) -> (res:
    ExternalCommand)
    requires
        from <= args@.len(),
        str_views(words@) == views(args@),
    ensures
        command_view(res) == routed_to(storage.path(), views(args@).skip(from as int)),
{
    let ghost rest = views(args@).skip(from as int);
    proof {
        reveal_strlit(" ");
        reveal_strlit("add");
        reveal_strlit("list");
        assert(" "@ =~= seq![' ']);
        assert("add"@ =~= add_word());
        assert("list"@ =~= list_word());
    }
    if from < args.len() && is_word(&args[from], "add") {
        assert(rest[0] == args@[from as int]@);
        assert(str_views(words@.subrange(from + 1, words@.len() as int)) == rest.skip(1));
        let text = join_from(words.as_slice(), from + 1, " ");
        ExternalCommand::AddNote { storage, text }
    } else if from < args.len() && args.len() - from == 1 && is_word(&args[from], "list") {
        assert(rest[0] == args@[from as int]@);
        ExternalCommand::List { storage }
    } else {
        proof {
            if from < args.len() {
                assert(rest[0] == args@[from as int]@);
            }
        }
        assert(str_views(words@.subrange(from as int, words@.len() as int)) == rest);
        let text = join_from(words.as_slice(), from, " ");
        ExternalCommand::AddNote { storage, text }
    }
}

/// The command that `args` ask for, given the file that their first word names as a notebook.
pub fn route_external_command(
    args: &Vec<String>,
    notebook: Option<String>,
    default_storage: &Storage,
) -> (res: ExternalCommand)
    requires
        args@.len() >= 1,
    ensures
        command_view(res) == routed(views(args@), opt_view(notebook), default_storage.path()),
{
    let words = word_refs(args);
    proof {
        reveal_strlit(" ");
        reveal_strlit("add");
        reveal_strlit("list");
        assert(" "@ =~= seq![' ']);
        assert("add"@ =~= add_word());
        assert("list"@ =~= list_word());
        assert(views(args@).skip(0) == views(args@));
        assert(views(args@)[0] == args@[0]@);
    }
    let first_add = is_word(&args[0], "add");
    let first_list = is_word(&args[0], "list");
    assert(first_add == (args@[0]@ == add_word()));
    assert(first_list == (args@[0]@ == list_word()));
    if first_add || first_list {
        let storage = Storage::at(default_storage.file_path().to_owned());
        return route_to(&words, args, 0, storage);
    }
    assert(args@[0]@ != add_word() && args@[0]@ != list_word());
    match notebook {
        Some(path) => {
            let storage = Storage::at(path);
            if args.len() == 1 {
                ExternalCommand::Browse { storage }
            } else {
                route_to(&words, args, 1, storage)
            }
        },
        None => {
            assert(str_views(words@.subrange(0, words@.len() as int)) == views(args@));
            let text = join_from(words.as_slice(), 0, " ");
            let storage = Storage::at(default_storage.file_path().to_owned());
            ExternalCommand::AddNote { storage, text }
        },
    }
}

/// The command that `args` ask for: their first word is looked up as a notebook of `config`
/// (with `~` expanded from the home directory; a notebook whose path needs a missing home
/// directory counts as no notebook).
pub fn handle_external_command(args: &Vec<String>, config: &Config, default_storage: &Storage) -> (res:
    ExternalCommand)
    requires
        args@.len() >= 1,
    ensures
        exists|home: Option<Seq<char>>|
            command_view(res) == #[trigger] routed(
                views(args@),
                config.resolved_notebook(args@[0]@, home),
                default_storage.path(),
            ),
{
    let notebook = config.resolve_notebook_path(args[0].as_str());
    let ghost home = choose|home: Option<Seq<char>>|
        opt_view(notebook) == #[trigger] config.resolved_notebook(args@[0]@, home);
    let res = route_external_command(args, notebook, default_storage);
    assert(command_view(res) == routed(
        views(args@),
        config.resolved_notebook(args@[0]@, home),
        default_storage.path(),
    ));
    res
}

/// A new note with `text`, taken now; text that is empty or only white space is refused, and
/// so is any text when the current time cannot be read.
pub fn note_to_add(text: String) -> (res: Result<Note, RecallError>)
    ensures
        trim(text@).len() == 0 <==> res == Err::<Note, RecallError>(RecallError::EmptyNoteText),
        res matches Err(e) ==> e == RecallError::EmptyNoteText || e == RecallError::ClockUnavailable,
        res matches Ok(n) ==> n.text == text && !n.done && n.timestamp.local.valid(),
{
    if is_blank(text.as_str()) {
        Err(RecallError::EmptyNoteText)
    } else {
        match Note::new(text) {
            Some(n) => Ok(n),
            None => Err(RecallError::ClockUnavailable),
        }
    }
}

} // verus!
