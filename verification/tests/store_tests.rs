use startrack::repo::{GitProvider, Repo};
use startrack::settings::Setting;
use startrack::store::SettingsStore;

fn setting(id: &str, order: usize, favourite: bool) -> Setting {
    let repo = Repo::new(
        GitProvider::GitHub,
        String::from("owner"),
        String::from(id),
    )
    .unwrap();
    Setting::new(String::from(id), order, favourite, repo).unwrap()
}

#[test]
fn create_appends_new_entries() {
    let mut store = SettingsStore::new();
    store.create(setting("a", 1, false));
    store.create(setting("b", 2, false));
    assert_eq!(store.len(), 2);
}

#[test]
fn create_ignores_a_present_id() {
    let mut store = SettingsStore::new();
    store.create(setting("a", 1, false));
    store.create(setting("a", 9, true));
    assert_eq!(store.len(), 1);
    let snap = store.snapshot();
    assert_eq!(snap[0].order(), 1);
    assert!(!snap[0].favourite());
}

#[test]
fn update_replaces_by_id() {
    let mut store = SettingsStore::new();
    store.create(setting("a", 1, false));
    store.update(setting("a", 5, false));
    assert_eq!(store.len(), 1);
    assert_eq!(store.snapshot()[0].order(), 5);
}

#[test]
fn update_inserts_an_absent_id() {
    let mut store = SettingsStore::new();
    store.update(setting("a", 1, false));
    assert_eq!(store.len(), 1);
}

#[test]
fn update_keeps_at_most_one_favourite() {
    let mut store = SettingsStore::new();
    store.create(setting("a", 1, false));
    store.create(setting("b", 2, false));
    store.create(setting("c", 3, false));
    store.update(setting("b", 2, true));
    store.update(setting("c", 3, true));
    let snap = store.snapshot();
    let favourites: Vec<&Setting> = snap.iter().filter(|s| s.favourite()).collect();
    assert_eq!(favourites.len(), 1);
    assert_eq!(favourites[0].id().as_str(), "c");
}

#[test]
fn delete_present_removes_exactly_one() {
    let mut store = SettingsStore::new();
    store.create(setting("a", 1, false));
    store.create(setting("b", 2, false));
    store.delete(&String::from("a"));
    assert_eq!(store.len(), 1);
    let snap = store.snapshot();
    assert_eq!(snap.len(), 1);
    assert_eq!(snap[0].id().as_str(), "b");
    assert!(!store.contains(&String::from("a")));
}

#[test]
fn delete_absent_changes_nothing() {
    let mut store = SettingsStore::new();
    store.create(setting("a", 1, false));
    store.delete(&String::from("zzz"));
    assert_eq!(store.len(), 1);
    assert!(store.contains(&String::from("a")));
}

#[test]
fn snapshot_is_sorted_by_order() {
    let mut store = SettingsStore::new();
    store.create(setting("a", 3, false));
    store.create(setting("b", 1, false));
    store.create(setting("c", 2, false));
    let snap = store.snapshot();
    assert_eq!(snap.len(), 3);
    assert_eq!(snap[0].order(), 1);
    assert_eq!(snap[1].order(), 2);
    assert_eq!(snap[2].order(), 3);
    assert_eq!(snap[0].id().as_str(), "b");
}

#[test]
fn rejects_empty_fields_at_construction() {
    assert!(Repo::new(GitProvider::GitHub, String::new(), String::from("n")).is_none());
    assert!(Repo::new(GitProvider::GitHub, String::from("o"), String::new()).is_none());
    let repo = Repo::new(GitProvider::GitHub, String::from("o"), String::from("n")).unwrap();
    assert!(Setting::new(String::new(), 0, false, repo).is_none());
}
