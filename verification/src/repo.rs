//! The identity of one remote repository: which hosting provider serves it,
//! who owns it, and what it is called.

use vstd::prelude::*;
use vstd::string::StringExecFns;

verus! {

/// The hosting service a repository lives on.
#[derive(Clone, Copy, Debug, PartialEq, Eq, Structural, Hash)]
pub enum GitProvider {
    GitHub,
    GitLab,
}

/// The mathematical value of a [`Repo`]: the provider tag and the two
/// character sequences that identify the repository on it.
#[verifier::ext_equal]
pub struct RepoView {
    pub git_type: GitProvider,
    pub owner: Seq<char>,
    pub name: Seq<char>,
}

impl RepoView {
    /// A well-formed identity names a real owner and a real repository.
    pub open spec fn wf(self) -> bool {
        self.owner.len() > 0 && self.name.len() > 0
    }

    /// The display form `owner/name`.
    pub open spec fn display(self) -> Seq<char> {
        self.owner + seq!['/'] + self.name
    }
}

/// Identifies one remote repository. Immutable once constructed; equality is
/// by the full triple of provider, owner and name.
pub struct Repo {
    git_type: GitProvider,
    owner: String,
    name: String,
}

impl View for Repo {
    type V = RepoView;

    closed spec fn view(&self) -> RepoView {
        RepoView { git_type: self.git_type, owner: self.owner@, name: self.name@ }
    }
}

impl Clone for Repo {
    fn clone(&self) -> (r: Self)
        ensures
            r@ == self@,
    {
        Repo { git_type: self.git_type, owner: self.owner.clone(), name: self.name.clone() }
    }
}

impl Repo {
    /// Builds an identity, validating the required fields: owner and name
    /// must be non-empty. Fails fast with `None` otherwise.
    pub fn new(git_type: GitProvider, owner: String, name: String) -> (r: Option<Repo>)
        ensures
            r is Some <==> (owner@.len() > 0 && name@.len() > 0),
            r is Some ==> r->0@ == (RepoView { git_type, owner: owner@, name: name@ }),
            r is Some ==> r->0@.wf(),
    {
        if owner.as_str().is_empty() || name.as_str().is_empty() {
            None
        } else {
            Some(Repo { git_type, owner, name })
        }
    }

    /// Assembles an identity from already-accepted parts, as the decoder of
    /// the persisted form does: loading tolerates what creation would refuse.
    pub(crate) fn from_parts(git_type: GitProvider, owner: String, name: String) -> (r: Repo)
        ensures
            r@ == (RepoView { git_type, owner: owner@, name: name@ }),
    {
        Repo { git_type, owner, name }
    }

    pub fn git_type(&self) -> (r: GitProvider)
        ensures
            r == self@.git_type,
    {
        self.git_type
    }

    pub fn owner(&self) -> (r: &String)
        ensures
            r@ == self@.owner,
    {
        &self.owner
    }

    pub fn name(&self) -> (r: &String)
        ensures
            r@ == self@.name,
    {
        &self.name
    }

    /// The display form `owner/name` of this identity.
    pub fn display_name(&self) -> (r: String)
        ensures
            r@ == self@.display(),
    {
        let mut r = self.owner.clone();
        r.append("/");
        r.append(self.name.as_str());
        proof {
            reveal_strlit("/");
            assert(r@ =~= self@.display());
        }
        r
    }

    /// `Ok` exactly when this identity belongs to the provider that is about
    /// to serve it; the error names the provider found and the one expected.
    pub fn check_route(&self, expected: GitProvider) -> (r: Result<(), crate::Error>)
        ensures
            r is Ok <==> self@.git_type == expected,
            r is Err ==> r->Err_0 == crate::Error::ProviderMismatch(self@.git_type, expected),
    {
        if self.git_type == expected {
            Ok(())
        } else {
            Err(crate::Error::ProviderMismatch(self.git_type, expected))
        }
    }
}

} // verus!
