use startrack::codec::{decode, encode, load_from_str, load_store};
use startrack::repo::{GitProvider, Repo};
use startrack::settings::{new_id, Setting};

fn setting(id: &str, order: usize, favourite: bool, g: GitProvider, owner: &str, name: &str) -> Setting {
    let repo = Repo::new(g, String::from(owner), String::from(name)).unwrap();
    Setting::new(String::from(id), order, favourite, repo).unwrap()
}

#[test]
fn settings_test_load() {
    let data = r#"[
            {
                "repo": {
                    "owner": "newfla",
                    "name": "diffusion-rs",
                    "git_type": "GitHub"
                },
                "order": 1,
                "favourite": true,
                "id": "3d69bebb-a800-4e6f-b318-1638a27b66c0"
            },
            {
                "repo": {
                    "owner": "gitlab-org",
                    "name": "gitlab",
                    "git_type": "GitLab"
                },
                "order": 2,
                "favourite": false,
                "id": "e70e6ca2-6e06-4f0c-8509-fea0645af5a1"
            }
            ]"#;
    let fetchers = load_from_str(data).unwrap();
    assert_eq!(2, fetchers.len())
}

#[test]
fn decode_reads_every_field() {
    let data = r#"[{"id":"abc","order":7,"favourite":true,
        "repo":{"git_type":"GitLab","owner":"gitlab-org","name":"gitlab"}}]"#;
    let list = decode(data).unwrap();
    assert_eq!(list.len(), 1);
    let s = &list[0];
    assert_eq!(s.id().as_str(), "abc");
    assert_eq!(s.order(), 7);
    assert!(s.favourite());
    assert!(matches!(s.repo().git_type(), GitProvider::GitLab));
    assert_eq!(s.repo().owner().as_str(), "gitlab-org");
    assert_eq!(s.repo().name().as_str(), "gitlab");
}

#[test]
fn encode_exact_text() {
    let one = setting("a", 0, false, GitProvider::GitHub, "o", "n");
    let text = encode(&vec![one]);
    assert_eq!(
        text.as_str(),
        "[{\"id\":\"a\",\"order\":0,\"favourite\":false,\"repo\":{\"git_type\":\"GitHub\",\"owner\":\"o\",\"name\":\"n\"}}]"
    );
}

#[test]
fn encode_escapes_quotes_and_backslashes() {
    let one = setting("a\"b\\c", 3, true, GitProvider::GitLab, "ow", "na");
    let text = encode(&vec![one]);
    assert_eq!(
        text.as_str(),
        "[{\"id\":\"a\\\"b\\\\c\",\"order\":3,\"favourite\":true,\"repo\":{\"git_type\":\"GitLab\",\"owner\":\"ow\",\"name\":\"na\"}}]"
    );
}

#[test]
fn round_trip_reproduces_the_collection() {
    let a = setting(
        "3d69bebb-a800-4e6f-b318-1638a27b66c0",
        1,
        true,
        GitProvider::GitHub,
        "newfla",
        "diffusion-rs",
    );
    let b = setting(
        "e70e6ca2-6e06-4f0c-8509-fea0645af5a1",
        2,
        false,
        GitProvider::GitLab,
        "gitlab-org",
        "gitlab",
    );
    let text = encode(&vec![a, b]);
    let back = decode(text.as_str()).unwrap();
    assert_eq!(back.len(), 2);
    assert_eq!(back[0].id().as_str(), "3d69bebb-a800-4e6f-b318-1638a27b66c0");
    assert_eq!(back[0].order(), 1);
    assert!(back[0].favourite());
    assert!(matches!(back[0].repo().git_type(), GitProvider::GitHub));
    assert_eq!(back[0].repo().owner().as_str(), "newfla");
    assert_eq!(back[0].repo().name().as_str(), "diffusion-rs");
    assert_eq!(back[1].id().as_str(), "e70e6ca2-6e06-4f0c-8509-fea0645af5a1");
    assert_eq!(back[1].order(), 2);
    assert!(!back[1].favourite());
    assert!(matches!(back[1].repo().git_type(), GitProvider::GitLab));
    assert_eq!(back[1].repo().owner().as_str(), "gitlab-org");
    assert_eq!(back[1].repo().name().as_str(), "gitlab");
}

#[test]
fn round_trip_with_escapes() {
    let a = setting("id\"x", 0, false, GitProvider::GitHub, "ow\\ner", "na\"me");
    let text = encode(&vec![a]);
    let back = decode(text.as_str()).unwrap();
    assert_eq!(back.len(), 1);
    assert_eq!(back[0].id().as_str(), "id\"x");
    assert_eq!(back[0].repo().owner().as_str(), "ow\\ner");
    assert_eq!(back[0].repo().name().as_str(), "na\"me");
}

#[test]
fn round_trip_empty_collection() {
    let text = encode(&Vec::new());
    assert_eq!(text.as_str(), "[]");
    let back = decode(text.as_str()).unwrap();
    assert_eq!(back.len(), 0);
}

#[test]
fn decode_rejects_malformed_text() {
    assert!(matches!(
        decode("not json"),
        Err(startrack::Error::SerializationError)
    ));
    assert!(matches!(
        decode("[{\"id\":\"a\"}]"),
        Err(startrack::Error::SerializationError)
    ));
    assert!(matches!(
        decode(""),
        Err(startrack::Error::SerializationError)
    ));
}

#[test]
fn corrupt_file_loads_as_empty_store() {
    let store = load_store("{invalid json");
    assert_eq!(store.snapshot().len(), 0);
}

#[test]
fn load_store_keeps_parsed_entries() {
    let a = setting("a", 2, false, GitProvider::GitHub, "o1", "n1");
    let b = setting("b", 1, true, GitProvider::GitLab, "o2", "n2");
    let text = encode(&vec![a, b]);
    let store = load_store(text.as_str());
    let snap = store.snapshot();
    assert_eq!(snap.len(), 2);
    assert_eq!(snap[0].id().as_str(), "b");
    assert_eq!(snap[1].id().as_str(), "a");
}

#[test]
fn new_id_has_uuid_length() {
    let a = new_id();
    let b = new_id();
    assert_eq!(a.len(), 36);
    assert_ne!(a, b);
}
