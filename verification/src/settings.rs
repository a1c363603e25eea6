//! One persisted configuration entry: a repository identity together with
//! its display order, its favourite flag, and the opaque identifier that is
//! the entry's identity within the collection.

use vstd::prelude::*;
use crate::repo::{Repo, RepoView};

verus! {

/// The mathematical value of a [`Setting`].
#[verifier::ext_equal]
pub struct SettingView {
    pub id: Seq<char>,
    pub order: int,
    pub favourite: bool,
    pub repo: RepoView,
}

/// Relies on `uuid::Uuid::new_v4` and its hyphenated text form, which is
/// always 36 characters long: a fresh random identifier for a new entry.
/// Nothing more can be promised of a random value.
#[verifier::external_body]
pub fn new_id() -> (r: String)
    ensures
        r@.len() == 36,
{
    uuid::Uuid::new_v4().to_string()
}

/// A persisted entry. Its identity within the collection is `id` alone: a
/// store never holds two entries with the same `id`, and replacing an entry
/// means replacing the one whose `id` matches. Display ordering is by
/// `order`, ascending, independent of identity.
pub struct Setting {
    id: String,
    order: usize,
    favourite: bool,
    repo: Repo,
}

impl View for Setting {
    type V = SettingView;

    closed spec fn view(&self) -> SettingView {
        SettingView {
            id: self.id@,
            order: self.order as int,
            favourite: self.favourite,
            repo: self.repo@,
        }
    }
}

impl Clone for Setting {
    fn clone(&self) -> (r: Self)
        ensures
            r@ == self@,
    {
        Setting {
            id: self.id.clone(),
            order: self.order,
            favourite: self.favourite,
            repo: self.repo.clone(),
        }
    }
}

impl Setting {
    /// Builds an entry, validating the required field: the identifier must
    /// be non-empty. Fails fast with `None` otherwise.
    pub fn new(id: String, order: usize, favourite: bool, repo: Repo) -> (r: Option<Setting>)
        ensures
            r is Some <==> id@.len() > 0,
            r is Some ==> r->0@ == (SettingView {
                id: id@,
                order: order as int,
                favourite,
                repo: repo@,
            }),
    {
        if id.as_str().is_empty() {
            None
        } else {
            Some(Setting { id, order, favourite, repo })
        }
    }

    /// Assembles an entry from already-accepted parts, as the decoder of the
    /// persisted form does: loading tolerates what creation would refuse.
    pub(crate) fn from_parts(id: String, order: usize, favourite: bool, repo: Repo) -> (r: Setting)
        ensures
            r@ == (SettingView { id: id@, order: order as int, favourite, repo: repo@ }),
    {
        Setting { id, order, favourite, repo }
    }

    pub fn id(&self) -> (r: &String)
        ensures
            r@ == self@.id,
    {
        &self.id
    }

    pub fn order(&self) -> (r: usize)
        ensures
            r as int == self@.order,
    {
        self.order
    }

    pub fn favourite(&self) -> (r: bool)
        ensures
            r == self@.favourite,
    {
        self.favourite
    }

    pub fn repo(&self) -> (r: &Repo)
        ensures
            r@ == self@.repo,
    {
        &self.repo
    }

    /// The same entry with the favourite flag replaced.
    pub fn with_favourite(&self, favourite: bool) -> (r: Setting)
        ensures
            r@ == (SettingView { favourite, ..self@ }),
    {
        Setting {
            id: self.id.clone(),
            order: self.order,
            favourite,
            repo: self.repo.clone(),
        }
    }
}

} // verus!
