//! Options of the native file dialogs.

use crate::text::texts;
use vstd::prelude::*;

verus! {

/// What a `DialogFilter` stands for.
pub struct DialogFilterModel {
    pub name: Seq<char>,
    pub extensions: Seq<Seq<char>>,
}

/// A named group of file extensions that a file dialog offers.
pub struct DialogFilter {
    pub name: String,
    pub extensions: Vec<String>,
}

impl View for DialogFilter {
    type V = DialogFilterModel;

    open spec fn view(&self) -> DialogFilterModel {
        DialogFilterModel { name: self.name@, extensions: texts(self.extensions@) }
    }
}

/// Whether the open dialog lets the user pick several files: only where
/// that was asked for.
pub fn selects_many(multiple: Option<bool>) -> (r: bool)
    ensures
        r == (multiple == Some(true)),
{
    match multiple {
        Some(m) => m,
        None => false,
    }
}

/// What a dialog for one file reports: the picked path alone, or nothing
/// where the dialog was dismissed.
pub fn single_selection(path: Option<String>) -> (r: Option<Vec<String>>)
    ensures
        path is None ==> r is None,
        path is Some ==> r is Some && r->0@ == seq![path->0],
{
    match path {
        Some(p) => {
            let mut picked: Vec<String> = Vec::new();
            picked.push(p);
            assert(picked@ =~= seq![p]);
            Some(picked)
        },
        None => None,
    }
}

} // verus!
