use startrack::fetch::{assemble_outcomes, favourite_success, FetchOutcome};
use startrack::fetcher::{
    interpret_star_response, load_fetchers, repo_of_fetcher, AnyFetcher, Fetcher, GitHubFetcher,
    GitLabFetcher,
};
use startrack::repo::{GitProvider, Repo};
use startrack::settings::Setting;
use startrack::Error;

fn setting(id: &str, favourite: bool, g: GitProvider, owner: &str, name: &str) -> Setting {
    let repo = Repo::new(g, String::from(owner), String::from(name)).unwrap();
    Setting::new(String::from(id), 0, favourite, repo).unwrap()
}

#[test]
fn github_project_display() {
    let repo = GitHubFetcher::new(String::from("newfla"), String::from("diffusion-rs"));
    assert_eq!(repo.project().as_str(), "newfla/diffusion-rs");
    assert!(matches!(repo.provider(), GitProvider::GitHub));
}

#[test]
fn gitlab_project_display() {
    let repo = GitLabFetcher::new(String::from("gitlab-org"), String::from("gitlab"));
    assert_eq!(repo.project().as_str(), "gitlab-org/gitlab");
    assert!(matches!(repo.provider(), GitProvider::GitLab));
}

#[test]
fn repo_display_name() {
    let repo = Repo::new(
        GitProvider::GitHub,
        String::from("newfla"),
        String::from("diffusion-rs"),
    )
    .unwrap();
    assert_eq!(repo.display_name().as_str(), "newfla/diffusion-rs");
}

#[test]
fn route_check_rejects_a_mismatched_identity() {
    let repo = Repo::new(
        GitProvider::GitLab,
        String::from("gitlab-org"),
        String::from("gitlab"),
    )
    .unwrap();
    assert!(repo.check_route(GitProvider::GitLab).is_ok());
    let err = repo.check_route(GitProvider::GitHub).unwrap_err();
    assert!(matches!(
        err,
        Error::ProviderMismatch(GitProvider::GitLab, GitProvider::GitHub)
    ));
}

#[test]
fn star_responses_map_exactly() {
    assert_eq!(interpret_star_response(Ok(Some(1200))).unwrap(), 1200);
    assert_eq!(interpret_star_response(Ok(None)).unwrap(), 0);
    let err = interpret_star_response(Err(String::from("connection reset"))).unwrap_err();
    match err {
        Error::UpstreamApiError(m) => assert_eq!(m.as_str(), "connection reset"),
        _ => panic!("wrong error kind"),
    }
}

#[test]
fn fanout_isolates_a_single_failure() {
    let settings = vec![
        setting("a", false, GitProvider::GitHub, "o1", "n1"),
        setting("b", true, GitProvider::GitLab, "o2", "n2"),
        setting("c", false, GitProvider::GitHub, "o3", "n3"),
    ];
    let results: Vec<Result<u32, Error>> = vec![
        Ok(10),
        Err(Error::UpstreamApiError(String::from("down"))),
        Ok(30),
    ];
    let outcomes = assemble_outcomes(settings, results);
    assert_eq!(outcomes.len(), 3);
    let failures = outcomes
        .iter()
        .filter(|o| matches!(o, FetchOutcome::Failure(_, _)))
        .count();
    assert_eq!(failures, 1);
    match &outcomes[0] {
        FetchOutcome::Success(f) => {
            assert_eq!(f.stars, 10);
            assert_eq!(f.setting.id().as_str(), "a");
        }
        _ => panic!("first outcome should carry its star count"),
    }
    match &outcomes[1] {
        FetchOutcome::Failure(s, e) => {
            assert_eq!(s.id().as_str(), "b");
            assert!(matches!(e, Error::UpstreamApiError(_)));
        }
        _ => panic!("second outcome should fail"),
    }
    match &outcomes[2] {
        FetchOutcome::Success(f) => assert_eq!(f.stars, 30),
        _ => panic!("third outcome should carry its star count"),
    }
}

#[test]
fn two_reads_cover_the_same_identities() {
    let mk = || {
        vec![
            setting("a", false, GitProvider::GitHub, "o1", "n1"),
            setting("b", false, GitProvider::GitLab, "o2", "n2"),
        ]
    };
    let first = assemble_outcomes(mk(), vec![Ok(1), Ok(2)]);
    let second = assemble_outcomes(
        mk(),
        vec![Ok(99), Err(Error::UpstreamApiError(String::from("down")))],
    );
    let ids = |outs: &Vec<FetchOutcome>| -> Vec<String> {
        outs.iter()
            .map(|o| match o {
                FetchOutcome::Success(f) => f.setting.id().clone(),
                FetchOutcome::Failure(s, _) => s.id().clone(),
            })
            .collect()
    };
    assert_eq!(ids(&first), ids(&second));
}

#[test]
fn favourite_success_drives_the_indicator() {
    let outcomes = vec![
        FetchOutcome::Success(startrack::fetch::Fetched {
            stars: 10,
            setting: setting("a", false, GitProvider::GitHub, "o1", "n1"),
        }),
        FetchOutcome::Success(startrack::fetch::Fetched {
            stars: 1200,
            setting: setting("b", true, GitProvider::GitHub, "newfla", "diffusion-rs"),
        }),
    ];
    let (name, stars) = favourite_success(&outcomes).unwrap();
    assert_eq!(name.as_str(), "newfla/diffusion-rs");
    assert_eq!(stars, 1200);
}

#[test]
fn failed_favourite_leaves_the_indicator_alone() {
    let outcomes = vec![
        FetchOutcome::Success(startrack::fetch::Fetched {
            stars: 10,
            setting: setting("a", false, GitProvider::GitHub, "o1", "n1"),
        }),
        FetchOutcome::Failure(
            setting("b", true, GitProvider::GitLab, "gitlab-org", "gitlab"),
            Error::UpstreamApiError(String::from("transport failure")),
        ),
    ];
    assert!(favourite_success(&outcomes).is_none());
}

#[test]
fn no_favourite_means_no_indicator_update() {
    let outcomes = vec![FetchOutcome::Success(startrack::fetch::Fetched {
        stars: 10,
        setting: setting("a", false, GitProvider::GitHub, "o1", "n1"),
    })];
    assert!(favourite_success(&outcomes).is_none());
}

#[test]
fn fetchers_load_from_persisted_text() {
    let data = r#"[
        {"id":"x","order":1,"favourite":false,
         "repo":{"git_type":"GitHub","owner":"newfla","name":"diffusion-rs"}},
        {"id":"y","order":2,"favourite":true,
         "repo":{"git_type":"GitLab","owner":"gitlab-org","name":"gitlab"}}
    ]"#;
    let fetchers = load_fetchers(data).unwrap();
    assert_eq!(fetchers.len(), 2);
    match &fetchers[0] {
        AnyFetcher::GitHub(g) => assert_eq!(g.project().as_str(), "newfla/diffusion-rs"),
        _ => panic!("first fetcher should serve GitHub"),
    }
    match &fetchers[1] {
        AnyFetcher::GitLab(g) => assert_eq!(g.project().as_str(), "gitlab-org/gitlab"),
        _ => panic!("second fetcher should serve GitLab"),
    }
    let back = repo_of_fetcher(&fetchers[0]);
    assert!(matches!(back.git_type(), GitProvider::GitHub));
    assert_eq!(back.owner().as_str(), "newfla");
    assert_eq!(back.name().as_str(), "diffusion-rs");
}

#[test]
fn load_fetchers_rejects_malformed_text() {
    assert!(matches!(
        load_fetchers("[{]"),
        Err(Error::SerializationError)
    ));
}
