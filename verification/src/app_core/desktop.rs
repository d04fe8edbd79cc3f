//! Desktop-entry data: turning the values read from a `.desktop` file into an
//! [`AppEntry`], and turning an `Exec` line into the argument vector of the
//! process to start.

use super::text::{
    chars_of, is_word, lemma_split_words_from, skip_trailing_white_space,
    split_white_space, split_white_space_bounds, trim, trim_bounds, trim_end,
};
use super::{AppEntry, IconRef};
use std::path::PathBuf;
use vstd::prelude::*;

verus! {

/// `std::io::Error`, carried through the library as an opaque value.
#[verifier::external_type_specification]
#[verifier::external_body]
pub struct ExIoError(std::io::Error);

/// Why a desktop entry's command could not be started.
#[derive(Debug)]
pub enum LaunchError {
    /// The command line holds no program to run.
    EmptyCommand,
    /// Starting the process failed.
    Io(std::io::Error),
}

/// The values of a `.desktop` file that an [`AppEntry`] is made from, as the
/// desktop-entry parser reports them.
#[derive(Debug)]
pub struct DesktopRecord {
    /// The desktop-entry identifier (`appid`).
    pub appid: String,
    /// The source `.desktop` file.
    pub path: PathBuf,
    /// The `Hidden` key is `true`.
    pub hidden: bool,
    /// The `NoDisplay` key is `true`.
    pub no_display: bool,
    /// The localized full name (`X-GNOME-FullName`, else `Name`), if any.
    pub full_name: Option<String>,
    /// The localized `Name`, if any.
    pub name: Option<String>,
    /// The `Exec` key, if any.
    pub exec_command: Option<String>,
    /// The `Terminal` key is `true`.
    pub terminal: bool,
    /// The icon named by the `Icon` key, if any.
    pub icon: Option<IconRef>,
}

/// The display name of a record: its full name, else its name, else its id.
pub open spec fn record_display_name(record: DesktopRecord) -> String {
    match record.full_name {
        Some(n) => n,
        None => match record.name {
            Some(n) => n,
            None => record.appid,
        },
    }
}

/// The application entry described by a record: none when the entry is
/// hidden, not to be displayed, or has no command.
pub open spec fn record_to_app_entry(record: DesktopRecord) -> Option<AppEntry> {
    if record.hidden || record.no_display {
        None
    } else {
        match record.exec_command {
            None => None,
            Some(exec_command) => Some(
                AppEntry {
                    id: record.appid,
                    desktop_path: record.path,
                    name: record_display_name(record),
                    exec_command,
                    icon: record.icon,
                    terminal: record.terminal,
                    nodisplay: record.no_display,
                    hidden: record.hidden,
                },
            ),
        }
    }
}

/// A record gives an entry exactly when it is neither hidden nor marked
/// no-display and has a command; the entry carries the record's id, file,
/// command, `Terminal` key and icon, and its name is the full name, else the
/// name, else the id.
pub proof fn lemma_app_entry_fields(record: DesktopRecord)
    ensures
        record_to_app_entry(record) is None <==> (record.hidden || record.no_display
            || record.exec_command is None),
        record_to_app_entry(record) matches Some(e) ==> {
            &&& e.id == record.appid
            &&& e.desktop_path == record.path
            &&& record.exec_command == Some(e.exec_command)
            &&& e.terminal == record.terminal
            &&& e.icon == record.icon
            &&& !e.hidden && !e.nodisplay
            &&& record.full_name matches Some(n) ==> e.name == n
            &&& record.full_name is None ==> (record.name matches Some(n) ==> e.name == n)
            &&& record.full_name is None && record.name is None ==> e.name == record.appid
        },
{
}

/// Builds the application entry for a desktop record; hidden and
/// no-display entries and entries without a command give none.
pub fn desktop_file_to_app_entry(entry: &DesktopRecord) -> (r: Option<AppEntry>)
    ensures
        r == record_to_app_entry(*entry),
        r is None <==> (entry.hidden || entry.no_display || entry.exec_command is None),
        r matches Some(e) ==> {
            &&& e.id == entry.appid
            &&& e.desktop_path == entry.path
            &&& entry.exec_command == Some(e.exec_command)
            &&& e.terminal == entry.terminal
            &&& e.icon == entry.icon
            &&& !e.hidden && !e.nodisplay
            &&& entry.full_name matches Some(n) ==> e.name == n
            &&& entry.full_name is None ==> (entry.name matches Some(n) ==> e.name == n)
            &&& entry.full_name is None && entry.name is None ==> e.name == entry.appid
        },
{
    proof {
        lemma_app_entry_fields(*entry);
    }
    let hidden = entry.hidden;
    let nodisplay = entry.no_display;
    if hidden || nodisplay {
        return None;
    }
    let name = match &entry.full_name {
        Some(n) => n.clone(),
        None => match &entry.name {
            Some(n) => n.clone(),
            None => entry.appid.clone(),
        },
    };
    let exec_command = match &entry.exec_command {
        Some(e) => e.clone(),
        None => {
            return None;
        },
    };
    let icon = match &entry.icon {
        Some(icon) => Some(icon.clone()),
        None => None,
    };
    Some(
        AppEntry {
            id: entry.appid.clone(),
            desktop_path: super::clone_path(&entry.path),
            name,
            exec_command,
            icon,
            terminal: entry.terminal,
            nodisplay,
            hidden,
        },
    )
}

/// Whether position `k` holds the first `%` of `s`.
pub open spec fn is_first_field_code(s: Seq<char>, k: int) -> bool {
    &&& 0 <= k < s.len()
    &&& s[k] == '%'
    &&& forall|j: int| 0 <= j < k ==> s[j] != '%'
}

/// The command line without its field codes: everything from the first `%`
/// on is dropped and trailing white space removed; without a `%`, the line
/// is trimmed at both ends.
pub open spec fn exec_without_field_codes(s: Seq<char>) -> Seq<char> {
    if exists|k: int| 0 <= k < s.len() && s[k] == '%' {
        trim_end(s.take(choose|k: int| is_first_field_code(s, k)))
    } else {
        trim(s)
    }
}

/// The argument vector of a command line: its words, none when it has none.
pub open spec fn exec_argv(s: Seq<char>) -> Option<Seq<Seq<char>>> {
    let cleaned = exec_without_field_codes(s);
    if cleaned.len() == 0 {
        None
    } else if split_white_space(cleaned).len() == 0 {
        None
    } else {
        Some(split_white_space(cleaned))
    }
}

/// The bounds of the command line without its field codes.
fn strip_exec_fields(exec: &Vec<char>) -> (r: (usize, usize))
    ensures
        r.0 <= r.1 <= exec.len(),
        exec@.subrange(r.0 as int, r.1 as int) == exec_without_field_codes(exec@),
        forall|m: int| r.0 <= m < r.1 ==> exec@[m] != '%',
{
    let mut k: usize = 0;
    while k < exec.len() && exec[k] != '%'
        invariant
            k <= exec.len(),
            forall|j: int| 0 <= j < k ==> exec@[j] != '%',
        decreases exec.len() - k,
    {
        k = k + 1;
    }
    if k < exec.len() {
        assert(is_first_field_code(exec@, k as int));
        let ghost chosen = choose|j: int| is_first_field_code(exec@, j);
        assert(chosen == k) by {
            if chosen < k {
                assert(exec@[chosen] != '%');
            } else if chosen > k {
                assert(exec@[k as int] != '%');
            }
        }
        let b = skip_trailing_white_space(exec, 0, k);
        assert(exec@.subrange(0, k as int) =~= exec@.take(k as int));
        (0, b)
    } else {
        let r = trim_bounds(exec);
        r
    }
}

/// Splits a desktop entry's `Exec` line into the program and its arguments.
/// Field codes (`%f`, `%U`, ...) and what follows them are dropped; the rest
/// is split at white space.
pub fn exec_to_argv(exec: &str) -> (r: Result<Vec<String>, LaunchError>)
    ensures
        match r {
            Ok(argv) => exec_argv(exec@) == Some(argv@.map_values(|a: String| a@)),
            Err(e) => exec_argv(exec@) is None && e is EmptyCommand,
        },
        r matches Ok(argv) ==> forall|k: int|
            0 <= k < argv.len() ==> is_word(#[trigger] argv[k]@) && !argv[k]@.contains('%'),
{
    let chars = chars_of(exec);
    let (a, b) = strip_exec_fields(&chars);
    let ghost cleaned = chars@.subrange(a as int, b as int);
    if a == b {
        return Err(LaunchError::EmptyCommand);
    }
    let bounds = split_white_space_bounds(&chars, a, b);
    if bounds.len() == 0 {
        return Err(LaunchError::EmptyCommand);
    }
    let ghost words = split_white_space(cleaned);
    proof {
        lemma_split_words_from(cleaned, seq![]);
    }
    let mut argv: Vec<String> = Vec::new();
    let mut i: usize = 0;
    while i < bounds.len()
        invariant
            chars@ == exec@,
            a <= b <= chars.len(),
            cleaned == chars@.subrange(a as int, b as int),
            words == split_white_space(cleaned),
            bounds.len() == words.len(),
            forall|k: int|
                0 <= k < bounds.len() ==> a <= (#[trigger] bounds[k]).0 <= bounds[k].1 <= b
                    && chars@.subrange(bounds[k].0 as int, bounds[k].1 as int) == words[k],
            i <= bounds.len(),
            argv.len() == i,
            forall|k: int| 0 <= k < i ==> (#[trigger] argv[k])@ == words[k],
        decreases bounds.len() - i,
    {
        let (x, y) = bounds[i];
        let word = exec.substring_char(x, y).to_owned();
        argv.push(word);
        i = i + 1;
    }
    assert(argv@.map_values(|a: String| a@) =~= words);
    assert forall|k: int| 0 <= k < argv.len() implies is_word(#[trigger] argv[k]@) && !argv[k]@.contains('%') by {
        assert(is_word(words[k]));
        if argv[k]@.contains('%') {
            let j = choose|j: int| 0 <= j < argv[k]@.len() && argv[k]@[j] == '%';
            assert(cleaned.contains(words[k][j]) || Seq::<char>::empty().contains(words[k][j]));
            let m = choose|m: int| 0 <= m < cleaned.len() && cleaned[m] == words[k][j];
            assert(chars@[a + m] == cleaned[m]);
        }
    }
    Ok(argv)
}

} // verus!
