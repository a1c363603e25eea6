//! The provider abstraction: one fetcher per hosting service, each turning a
//! repository identity into a star count with the help of its external API
//! client.
//!
//! The network call itself happens outside the library. What is decided
//! here, and proved: an identity routed to the wrong fetcher is rejected
//! with a mismatch error before any call is made; a reply without a star
//! count means zero stars; any upstream failure is wrapped as an upstream
//! API error.

use vstd::prelude::*;
use vstd::string::StringExecFns;
use crate::Error;
use crate::repo::{GitProvider, Repo};
use crate::codec::{decode, spec_parse};

verus! {

/// A capability that names one repository on one hosting service.
pub trait Fetcher: Sized {
    /// The owner the fetcher was built for.
    spec fn owner_view(&self) -> Seq<char>;

    /// The repository name the fetcher was built for.
    spec fn repo_view(&self) -> Seq<char>;

    /// The hosting service this fetcher serves.
    spec fn provider_kind(&self) -> GitProvider;

    /// The display form `owner/repo` of the repository.
    fn project(&self) -> (r: String)
        ensures
            r@ == self.owner_view() + seq!['/'] + self.repo_view(),
    ;

    /// The provider variant this fetcher serves.
    fn provider(&self) -> (p: GitProvider)
        ensures
            p == self.provider_kind(),
    ;
}

/// Fetches star counts from the GitHub API.
pub struct GitHubFetcher {
    owner: String,
    repo: String,
}

impl GitHubFetcher {
    pub fn new(owner: String, repo: String) -> (r: GitHubFetcher)
        ensures
            r.owner_view() == owner@,
            r.repo_view() == repo@,
    {
        GitHubFetcher { owner, repo }
    }

    pub fn owner(&self) -> (r: &String)
        ensures
            r@ == self.owner_view(),
    {
        &self.owner
    }

    pub fn repo(&self) -> (r: &String)
        ensures
            r@ == self.repo_view(),
    {
        &self.repo
    }
}

impl Fetcher for GitHubFetcher {
    closed spec fn owner_view(&self) -> Seq<char> {
        self.owner@
    }

    closed spec fn repo_view(&self) -> Seq<char> {
        self.repo@
    }

    closed spec fn provider_kind(&self) -> GitProvider {
        GitProvider::GitHub
    }

    fn project(&self) -> (r: String) {
        project_of(&self.owner, &self.repo)
    }

    fn provider(&self) -> (p: GitProvider) {
        GitProvider::GitHub
    }
}

/// Fetches star counts from the GitLab API.
pub struct GitLabFetcher {
    owner: String,
    repo: String,
}

impl GitLabFetcher {
    pub fn new(owner: String, repo: String) -> (r: GitLabFetcher)
        ensures
            r.owner_view() == owner@,
            r.repo_view() == repo@,
    {
        GitLabFetcher { owner, repo }
    }

    pub fn owner(&self) -> (r: &String)
        ensures
            r@ == self.owner_view(),
    {
        &self.owner
    }

    pub fn repo(&self) -> (r: &String)
        ensures
            r@ == self.repo_view(),
    {
        &self.repo
    }
}

impl Fetcher for GitLabFetcher {
    closed spec fn owner_view(&self) -> Seq<char> {
        self.owner@
    }

    closed spec fn repo_view(&self) -> Seq<char> {
        self.repo@
    }

    closed spec fn provider_kind(&self) -> GitProvider {
        GitProvider::GitLab
    }

    fn project(&self) -> (r: String) {
        project_of(&self.owner, &self.repo)
    }

    fn provider(&self) -> (p: GitProvider) {
        GitProvider::GitLab
    }
}

/// The display form `owner/repo`.
fn project_of(owner: &String, repo: &String) -> (r: String)
    ensures
        r@ == owner@ + seq!['/'] + repo@,
{
    let mut r = owner.clone();
    r.append("/");
    r.append(repo.as_str());
    proof {
        reveal_strlit("/");
        assert(r@ =~= owner@ + seq!['/'] + repo@);
    }
    r
}

/// One fetcher per provider variant: the tagged form a persisted entry is
/// turned into, in place of recovering a concrete type from a type-erased
/// handle.
pub enum AnyFetcher {
    GitHub(GitHubFetcher),
    GitLab(GitLabFetcher),
}

/// The repository an [`AnyFetcher`] was built for.
pub open spec fn fetcher_owner(f: AnyFetcher) -> Seq<char> {
    match f {
        AnyFetcher::GitHub(g) => g.owner_view(),
        AnyFetcher::GitLab(g) => g.owner_view(),
    }
}

/// The repository name an [`AnyFetcher`] was built for.
pub open spec fn fetcher_repo(f: AnyFetcher) -> Seq<char> {
    match f {
        AnyFetcher::GitHub(g) => g.repo_view(),
        AnyFetcher::GitLab(g) => g.repo_view(),
    }
}

/// The provider an [`AnyFetcher`] serves.
pub open spec fn fetcher_provider(f: AnyFetcher) -> GitProvider {
    match f {
        AnyFetcher::GitHub(_) => GitProvider::GitHub,
        AnyFetcher::GitLab(_) => GitProvider::GitLab,
    }
}

/// The fetcher that serves a repository identity: the variant is the
/// identity's own provider tag.
pub fn fetcher_for_repo(r: &Repo) -> (f: AnyFetcher)
    ensures
        fetcher_provider(f) == r@.git_type,
        fetcher_owner(f) == r@.owner,
        fetcher_repo(f) == r@.name,
{
    match r.git_type() {
        GitProvider::GitHub => AnyFetcher::GitHub(
            GitHubFetcher::new(r.owner().clone(), r.name().clone()),
        ),
        GitProvider::GitLab => AnyFetcher::GitLab(
            GitLabFetcher::new(r.owner().clone(), r.name().clone()),
        ),
    }
}

/// The identity a fetcher was built for, with the fetcher's own provider as
/// the tag.
pub fn repo_of_fetcher(f: &AnyFetcher) -> (r: Repo)
    ensures
        r@.git_type == fetcher_provider(*f),
        r@.owner == fetcher_owner(*f),
        r@.name == fetcher_repo(*f),
{
    match f {
        AnyFetcher::GitHub(g) => Repo::from_parts(
            GitProvider::GitHub,
            g.owner().clone(),
            g.repo().clone(),
        ),
        AnyFetcher::GitLab(g) => Repo::from_parts(
            GitProvider::GitLab,
            g.owner().clone(),
            g.repo().clone(),
        ),
    }
}

/// What the provider makes of its external client's reply: a star count as
/// it stands, a reply without one as zero stars, and any transport or API
/// failure wrapped as an upstream error carrying the client's message.
pub fn interpret_star_response(upstream: Result<Option<u32>, String>) -> (r: Result<u32, Error>)
    ensures
        match upstream {
            Ok(Some(n)) => r == Ok::<u32, Error>(n),
            Ok(None) => r == Ok::<u32, Error>(0u32),
            Err(m) => r == Err::<u32, Error>(Error::UpstreamApiError(m)),
        },
{
    match upstream {
        Ok(Some(n)) => Ok(n),
        Ok(None) => Ok(0),
        Err(m) => Err(Error::UpstreamApiError(m)),
    }
}

/// The fetchers a persisted text names: one per decoded entry, each built
/// for its entry's repository. A text that does not parse is a
/// serialization error, as when loading the entries themselves.
pub fn load_fetchers(data: &str) -> (r: Result<Vec<AnyFetcher>, Error>)
    ensures
        match spec_parse(data@) {
            Some(vs) => r is Ok && r->Ok_0@.len() == vs.len() && forall|i: int|
                0 <= i < vs.len() ==> fetcher_provider(#[trigger] r->Ok_0@[i]) == vs[i].repo.git_type
                    && fetcher_owner(r->Ok_0@[i]) == vs[i].repo.owner && fetcher_repo(r->Ok_0@[i])
                    == vs[i].repo.name,
            None => r == Err::<Vec<AnyFetcher>, Error>(Error::SerializationError),
        },
{
    match decode(data) {
        Err(e) => Err(e),
        Ok(list) => {
            let ghost vs = crate::store::views_of(list@);
            let mut out: Vec<AnyFetcher> = Vec::new();
            let n = list.len();
            let mut i: usize = 0;
            while i < n
                invariant
                    n == list@.len(),
                    0 <= i <= n,
                    vs == crate::store::views_of(list@),
                    out@.len() == i,
                    forall|j: int|
                        0 <= j < i ==> fetcher_provider(#[trigger] out@[j]) == vs[j].repo.git_type
                            && fetcher_owner(out@[j]) == vs[j].repo.owner && fetcher_repo(out@[j])
                            == vs[j].repo.name,
                decreases n - i,
            {
                let f = fetcher_for_repo(list[i].repo());
                proof {
                    assert(vs[i as int] == list@[i as int]@);
                }
                out.push(f);
                i = i + 1;
            }
            Ok(out)
        },
    }
}

} // verus!
