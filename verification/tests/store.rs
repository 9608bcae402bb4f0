use github_label_feed::error::Error;
use github_label_feed::query::{last_updated, list_repositories, repo_id};
use github_label_feed::store::{Issue, IssueLabel, Label, Repository, Store};

fn issue(repo: i64, number: i64, title: &str, updated_at: i64) -> Issue {
    Issue {
        repo,
        number,
        state: 0,
        title: String::from(title),
        body: String::new(),
        user_login: String::from("alice"),
        html_url: format!("https://example.org/{}", number),
        updated_at,
    }
}

fn numbers(store: &Store) -> Vec<(i64, i64)> {
    store.issues().iter().map(|i| (i.repo, i.number)).collect()
}

fn links(store: &Store) -> Vec<(i64, i64, i64)> {
    store.links().iter().map(|l| (l.repo, l.issue, l.label)).collect()
}

#[test]
fn a_new_store_is_empty() {
    let store = Store::new();
    assert!(store.repositories().is_empty());
    assert!(store.issues().is_empty());
    assert!(store.labels().is_empty());
    assert!(store.links().is_empty());
    assert!(list_repositories(&store).is_empty());
}

#[test]
fn repo_id_creates_a_repository_once() {
    let mut store = Store::new();
    assert_eq!(repo_id(&mut store, "acme", "widgets"), Ok(1));
    assert_eq!(repo_id(&mut store, "acme", "gadgets"), Ok(2));
    assert_eq!(repo_id(&mut store, "acme", "widgets"), Ok(1));
    assert_eq!(repo_id(&mut store, "other", "widgets"), Ok(3));
    assert_eq!(store.repositories().len(), 3);
    assert_eq!(store.repository_id("acme", "gadgets"), Some(2));
    assert_eq!(store.repository_id("acme", "nothing"), None);
    assert!(store.has_repository(3));
    assert!(!store.has_repository(4));
}

#[test]
fn repo_id_fails_when_no_identifier_is_left() {
    let mut store = Store::new();
    let last = Repository { id: i64::MAX, owner: String::from("a"), name: String::from("b") };
    assert_eq!(store.insert_repository(last), Ok(()));
    assert_eq!(repo_id(&mut store, "a", "b"), Ok(i64::MAX));
    assert_eq!(repo_id(&mut store, "c", "d"), Err(Error::StoreFull));
    assert_eq!(store.repositories().len(), 1);
}

#[test]
fn labels_are_inserted_if_absent() {
    let mut store = Store::new();
    let repo = repo_id(&mut store, "acme", "widgets").unwrap();
    let other = repo_id(&mut store, "acme", "gadgets").unwrap();
    assert_eq!(store.add_label(repo, "bug"), Ok(()));
    assert_eq!(store.add_label(repo, "p1"), Ok(()));
    assert_eq!(store.add_label(repo, "bug"), Ok(()));
    assert_eq!(store.add_label(other, "bug"), Ok(()));
    assert_eq!(store.labels().len(), 3);
    assert_eq!(store.label_id(repo, "bug"), Some(1));
    assert_eq!(store.label_id(repo, "p1"), Some(2));
    assert_eq!(store.label_id(other, "bug"), Some(3));
    assert_eq!(store.label_id(other, "p1"), None);
    assert_eq!(store.add_label(99, "bug"), Err(Error::UnknownRepository));
    assert_eq!(store.labels().len(), 3);
    assert!(store.has_label(repo, 2));
    assert!(!store.has_label(other, 2));
}

#[test]
fn an_issue_is_replaced_wholesale() {
    let mut store = Store::new();
    let repo = repo_id(&mut store, "acme", "widgets").unwrap();
    assert_eq!(store.upsert_issue(issue(repo, 5, "five", 50)), Ok(()));
    assert_eq!(store.upsert_issue(issue(repo, 2, "two", 20)), Ok(()));
    assert_eq!(store.upsert_issue(issue(repo, 9, "nine", 90)), Ok(()));
    assert_eq!(numbers(&store), vec![(1, 2), (1, 5), (1, 9)]);
    let mut newer = issue(repo, 5, "five again", 55);
    newer.state = 1;
    newer.body = String::from("changed");
    assert_eq!(store.upsert_issue(newer), Ok(()));
    assert_eq!(numbers(&store), vec![(1, 2), (1, 5), (1, 9)]);
    let row = &store.issues()[1];
    assert_eq!(row.title, "five again");
    assert_eq!(row.state, 1);
    assert_eq!(row.body, "changed");
    assert_eq!(row.updated_at, 55);
    assert_eq!(store.upsert_issue(issue(7, 1, "stray", 1)), Err(Error::UnknownRepository));
    assert!(store.has_issue(repo, 9));
    assert!(!store.has_issue(repo, 3));
}

#[test]
fn issues_are_kept_by_repository_and_number() {
    let mut store = Store::new();
    let a = repo_id(&mut store, "acme", "widgets").unwrap();
    let b = repo_id(&mut store, "acme", "gadgets").unwrap();
    for (repo, number) in [(b, 3), (a, 7), (b, 1), (a, 2), (a, -4)] {
        assert_eq!(store.upsert_issue(issue(repo, number, "t", 0)), Ok(()));
    }
    assert_eq!(numbers(&store), vec![(1, -4), (1, 2), (1, 7), (2, 1), (2, 3)]);
}

#[test]
fn links_join_stored_issues_and_labels() {
    let mut store = Store::new();
    let repo = repo_id(&mut store, "acme", "widgets").unwrap();
    let other = repo_id(&mut store, "acme", "gadgets").unwrap();
    store.add_label(repo, "bug").unwrap();
    store.add_label(repo, "p1").unwrap();
    store.add_label(other, "bug").unwrap();
    store.upsert_issue(issue(repo, 1, "one", 0)).unwrap();
    store.upsert_issue(issue(repo, 2, "two", 0)).unwrap();
    assert_eq!(store.link_label(repo, 2, 2), Ok(()));
    assert_eq!(store.link_label(repo, 1, 2), Ok(()));
    assert_eq!(store.link_label(repo, 2, 1), Ok(()));
    assert_eq!(links(&store), vec![(1, 1, 2), (1, 2, 1), (1, 2, 2)]);
    assert_eq!(store.link_label(repo, 2, 1), Err(Error::DuplicateKey));
    assert_eq!(store.link_label(repo, 3, 1), Err(Error::UnknownReference));
    assert_eq!(store.link_label(repo, 1, 3), Err(Error::UnknownReference));
    assert_eq!(store.link_label(repo, 1, 9), Err(Error::UnknownReference));
    assert_eq!(links(&store), vec![(1, 1, 2), (1, 2, 1), (1, 2, 2)]);
    assert!(store.has_link(repo, 2, 1));
    assert!(!store.has_link(repo, 1, 1));
    store.clear_issue_labels(repo, 2);
    assert_eq!(links(&store), vec![(1, 1, 2)]);
    store.clear_issue_labels(repo, 2);
    assert_eq!(links(&store), vec![(1, 1, 2)]);
    assert_eq!(store.links()[0], IssueLabel { repo: 1, issue: 1, label: 2 });
}

#[test]
fn last_updated_is_the_latest_time_of_the_repository() {
    let mut store = Store::new();
    let a = repo_id(&mut store, "acme", "widgets").unwrap();
    let b = repo_id(&mut store, "acme", "gadgets").unwrap();
    assert_eq!(last_updated(&store, a), None);
    store.upsert_issue(issue(a, 1, "one", 100)).unwrap();
    store.upsert_issue(issue(a, 2, "two", 300)).unwrap();
    store.upsert_issue(issue(a, 3, "three", 200)).unwrap();
    store.upsert_issue(issue(b, 1, "one", 900)).unwrap();
    assert_eq!(last_updated(&store, a), Some(300));
    assert_eq!(last_updated(&store, b), Some(900));
    assert_eq!(last_updated(&store, 7), None);
    store.upsert_issue(issue(a, 2, "two", -5)).unwrap();
    assert_eq!(last_updated(&store, a), Some(200));
}

#[test]
fn repositories_are_listed_with_their_counts() {
    let mut store = Store::new();
    let a = repo_id(&mut store, "acme", "widgets").unwrap();
    let b = repo_id(&mut store, "acme", "gadgets").unwrap();
    repo_id(&mut store, "acme", "empty").unwrap();
    store.add_label(a, "bug").unwrap();
    store.add_label(a, "p1").unwrap();
    store.add_label(b, "bug").unwrap();
    store.upsert_issue(issue(a, 1, "one", 0)).unwrap();
    store.upsert_issue(issue(b, 1, "one", 0)).unwrap();
    store.upsert_issue(issue(b, 2, "two", 0)).unwrap();
    store.upsert_issue(issue(b, 3, "three", 0)).unwrap();
    let listed = list_repositories(&store);
    let lines: Vec<String> = listed.iter().map(|r| r.line()).collect();
    assert_eq!(
        lines,
        vec![
            "acme/widgets (2 labels, 1 issues)",
            "acme/gadgets (1 labels, 3 issues)",
            "acme/empty (0 labels, 0 issues)",
        ]
    );
}

#[test]
fn a_store_is_read_back_row_by_row() {
    let mut store = Store::new();
    let row = |id: i64, owner: &str, name: &str| Repository {
        id,
        owner: String::from(owner),
        name: String::from(name),
    };
    assert_eq!(store.insert_repository(row(3, "acme", "widgets")), Ok(()));
    assert_eq!(store.insert_repository(row(8, "acme", "gadgets")), Ok(()));
    assert_eq!(store.insert_repository(row(9, "acme", "widgets")), Err(Error::DuplicateKey));
    assert_eq!(store.insert_repository(row(8, "acme", "more")), Err(Error::IdentifierInUse));
    assert_eq!(store.insert_repository(row(5, "acme", "more")), Err(Error::IdentifierInUse));
    let label = |id: i64, repo: i64, name: &str| Label { id, repo, name: String::from(name) };
    assert_eq!(store.insert_label(label(4, 3, "bug")), Ok(()));
    assert_eq!(store.insert_label(label(6, 8, "bug")), Ok(()));
    assert_eq!(store.insert_label(label(7, 3, "bug")), Err(Error::DuplicateKey));
    assert_eq!(store.insert_label(label(6, 3, "p1")), Err(Error::IdentifierInUse));
    assert_eq!(store.insert_label(label(7, 1, "p1")), Err(Error::UnknownRepository));
    assert_eq!(repo_id(&mut store, "acme", "more"), Ok(9));
    assert_eq!(store.add_label(9, "p1"), Ok(()));
    assert_eq!(store.label_id(9, "p1"), Some(7));
    store.well_formed();
}

#[test]
fn a_listed_line_writes_the_counts_in_decimal() {
    let info = |labels: usize, issues: usize| github_label_feed::query::RepositoryInfo {
        owner: String::from("o"),
        name: String::from("n"),
        label_count: labels,
        issue_count: issues,
    };
    assert_eq!(info(0, 0).line(), "o/n (0 labels, 0 issues)");
    assert_eq!(info(9, 10).line(), "o/n (9 labels, 10 issues)");
    assert_eq!(info(1234567890, 101).line(), "o/n (1234567890 labels, 101 issues)");
    assert_eq!(
        info(usize::MAX, 99).line(),
        format!("o/n ({} labels, 99 issues)", usize::MAX)
    );
    for n in [0usize, 1, 5, 9, 10, 11, 19, 20, 99, 100, 1000, 65535, 65536] {
        assert_eq!(github_label_feed::text::decimal_text(n), format!("{}", n));
    }
}

#[test]
fn labels_cannot_be_added_when_no_identifier_is_left() {
    let mut store = Store::new();
    let repo = repo_id(&mut store, "acme", "widgets").unwrap();
    let last = Label { id: i64::MAX, repo, name: String::from("last") };
    assert_eq!(store.insert_label(last), Ok(()));
    assert_eq!(store.add_label(repo, "last"), Ok(()));
    assert_eq!(store.add_label(repo, "more"), Err(Error::StoreFull));
    assert_eq!(store.labels().len(), 1);
}
