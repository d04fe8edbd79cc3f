//! UI-independent application-launcher functionality.

pub mod desktop;
pub mod freq_store;
pub mod json_text;
pub mod launcher;
pub mod search;
pub mod search_worker;
pub mod text;

pub use launcher::{LaunchError, Launcher};

use std::path::PathBuf;
use vstd::prelude::*;

verus! {

/// `std::path::PathBuf`, carried through the library as an opaque value.
#[verifier::external_type_specification]
#[verifier::external_body]
pub struct ExPathBuf(PathBuf);

/// A launchable application parsed from a freedesktop `.desktop` file.
#[derive(Debug)]
pub struct AppEntry {
    /// The desktop-entry identifier.
    pub id: String,
    /// The source `.desktop` file.
    pub desktop_path: PathBuf,
    /// The localized display name.
    pub name: String,
    /// The executable command from the desktop entry.
    pub exec_command: String,
    /// The icon name or path, when one was provided.
    pub icon: Option<IconRef>,
    /// Whether the application expects to run in a terminal.
    pub terminal: bool,
    /// Whether the desktop entry requested that it not be displayed.
    pub nodisplay: bool,
    /// Whether the desktop entry is hidden.
    pub hidden: bool,
}

/// A desktop-entry icon represented without any UI toolkit types.
#[derive(Debug)]
pub enum IconRef {
    /// A name to be resolved by the eventual UI or icon theme implementation.
    ThemedName(String),
    /// An explicit icon file path.
    FilePath(PathBuf),
}

/// `PathBuf::clone`, claimed to give a path equal to the one cloned.
#[verifier::external_body]
fn clone_path(path: &PathBuf) -> (copy: PathBuf)
    ensures
        copy == *path,
{
    path.clone()
}

impl Clone for IconRef {
    fn clone(&self) -> (copy: Self)
        ensures
            copy == *self,
    {
        match self {
            IconRef::ThemedName(name) => IconRef::ThemedName(name.clone()),
            IconRef::FilePath(path) => IconRef::FilePath(clone_path(path)),
        }
    }
}

impl Clone for AppEntry {
    fn clone(&self) -> (copy: Self)
        ensures
            copy == *self,
    {
        let icon = match &self.icon {
            Some(icon) => Some(icon.clone()),
            None => None,
        };
        AppEntry {
            id: self.id.clone(),
            desktop_path: clone_path(&self.desktop_path),
            name: self.name.clone(),
            exec_command: self.exec_command.clone(),
            icon,
            terminal: self.terminal,
            nodisplay: self.nodisplay,
            hidden: self.hidden,
        }
    }
}

} // verus!
