use snapstore::gitlog::{CommitPoint, GitStorage};

#[test]
fn stored_commits_are_served_unchanged() {
    let commits = vec![
        CommitPoint {
            id: vec![0xde, 0xad],
            message: String::from("second"),
        },
        CommitPoint {
            id: vec![0xbe, 0xef],
            message: String::from("first"),
        },
    ];
    let storage = GitStorage::from_commits(commits);
    let got = storage.get_commits();
    assert_eq!(got.len(), 2);
    assert_eq!(got[0].id, vec![0xde, 0xad]);
    assert_eq!(got[0].message, "second");
    assert_eq!(got[1].id, vec![0xbe, 0xef]);
    assert_eq!(got[1].message, "first");
}

#[test]
fn empty_history_is_allowed() {
    let storage = GitStorage::from_commits(Vec::new());
    assert!(storage.get_commits().is_empty());
}
