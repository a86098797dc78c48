use logtail::WatchedFileSet;

#[test]
fn admission_is_granted_once() {
    let mut set = WatchedFileSet::new();
    assert!(set.try_admit("/logs/a.log".to_string()));
    assert!(!set.try_admit("/logs/a.log".to_string()));
    assert!(!set.try_admit("/logs/a.log".to_string()));
}

#[test]
fn distinct_identities_are_independent() {
    let mut set = WatchedFileSet::new();
    assert!(set.try_admit("/logs/a.log".to_string()));
    assert!(set.try_admit("/logs/b.log".to_string()));
    assert!(!set.try_admit("/logs/a.log".to_string()));
    assert!(!set.try_admit("/logs/b.log".to_string()));
}

#[test]
fn membership_follows_admission() {
    let mut set = WatchedFileSet::new();
    let path = "/logs/a.log".to_string();
    assert!(!set.contains(&path));
    assert!(set.try_admit(path.clone()));
    assert!(set.contains(&path));
}

#[test]
fn identities_are_never_removed() {
    // A file that disappears and reappears under the same path is never
    // re-admitted: nothing removes an identity from the set.
    let mut set = WatchedFileSet::new();
    assert!(set.try_admit("/logs/session.log".to_string()));
    // The file "vanishes" and "reappears"; the set still refuses it.
    assert!(!set.try_admit("/logs/session.log".to_string()));
    assert!(set.contains(&"/logs/session.log".to_string()));
}
