use github_label_feed::error::Error;
use github_label_feed::generate::labels_of_issue;
use github_label_feed::query::issues::{
    begin, update, IssueEdge, IssueNode, IssuePage, IssueState, IssueSync,
};
use github_label_feed::query::labels;
use github_label_feed::query::{last_updated, repo_id};
use github_label_feed::store::Store;

fn label_page(names: &[&str], has_next_page: bool) -> Option<labels::LabelPage> {
    Some(labels::LabelPage {
        has_next_page,
        edges: names
            .iter()
            .map(|name| {
                Some(labels::LabelEdge {
                    cursor: format!("c-{}", name),
                    node: Some(String::from(*name)),
                })
            })
            .collect(),
    })
}

fn node(number: i64, title: &str, updated_at: &str, names: &[&str]) -> IssueNode {
    IssueNode {
        number,
        state: IssueState::OPEN,
        title: String::from(title),
        body_html: format!("<p>{}</p>", title),
        url: format!("https://github.com/acme/widgets/issues/{}", number),
        updated_at: String::from(updated_at),
        author: Some(String::from("alice")),
        labels: names.iter().map(|name| String::from(*name)).collect(),
    }
}

fn page(nodes: Vec<IssueNode>, has_next_page: bool) -> IssuePage {
    IssuePage {
        has_next_page,
        edges: nodes
            .into_iter()
            .map(|node| Some(IssueEdge { cursor: format!("i-{}", node.number), node: Some(node) }))
            .collect(),
    }
}

fn with_labels(names: &[&str]) -> Store {
    let mut store = Store::new();
    let mut sync = labels::begin(&mut store, "acme", "widgets").unwrap();
    labels::update(&mut store, &mut sync, &label_page(names, false)).unwrap();
    store
}

fn snapshot(store: &Store) -> String {
    format!(
        "{:?} {:?} {:?} {:?}",
        store.repositories(),
        store.issues(),
        store.labels(),
        store.links()
    )
}

fn remote() -> Vec<IssueNode> {
    vec![
        node(3, "three", "2020-05-03T00:00:00Z", &["bug"]),
        node(1, "one", "2020-05-01T00:00:00Z", &["p1", "bug"]),
        node(2, "two", "2020-05-02T00:00:00Z", &[]),
    ]
}

#[test]
fn the_first_synchronisation_asks_for_everything() {
    let mut store = Store::new();
    let sync = begin(&mut store, "acme", "widgets").unwrap();
    assert_eq!(sync.repo, 1);
    assert_eq!(sync.since, None);
    assert_eq!(sync.cursor, None);
    assert!(sync.has_next_page);
    let request = sync.query().unwrap();
    assert_eq!(request.owner, "acme");
    assert_eq!(request.name, "widgets");
    assert_eq!(request.since, None);
    assert_eq!(request.after, None);
    assert_eq!(store.repository_id("acme", "widgets"), Some(1));
}

#[test]
fn a_later_synchronisation_resumes_from_the_watermark() {
    let mut store = with_labels(&["bug", "p1"]);
    let mut sync = begin(&mut store, "acme", "widgets").unwrap();
    update(&mut store, &mut sync, &page(remote(), false)).unwrap();
    assert_eq!(last_updated(&store, 1), Some(1_588_464_000));
    let sync = begin(&mut store, "acme", "widgets").unwrap();
    assert_eq!(sync.since, Some(String::from("2020-05-03T00:00:00+00:00")));
    assert_eq!(sync.query().unwrap().since, Some(String::from("2020-05-03T00:00:00+00:00")));
}

#[test]
fn a_watermark_that_cannot_be_written_is_an_error() {
    let mut store = Store::new();
    let repo = repo_id(&mut store, "acme", "widgets").unwrap();
    let row = github_label_feed::store::Issue {
        repo,
        number: 1,
        state: 0,
        title: String::new(),
        body: String::new(),
        user_login: String::new(),
        html_url: String::new(),
        updated_at: i64::MAX,
    };
    store.upsert_issue(row).unwrap();
    assert_eq!(begin(&mut store, "acme", "widgets").unwrap_err(), Error::TimeOutOfRange);
}

#[test]
fn pages_are_followed_by_their_cursors() {
    let mut store = with_labels(&["bug", "p1"]);
    let mut sync = begin(&mut store, "acme", "widgets").unwrap();
    let mut nodes = remote();
    let second = nodes.split_off(2);
    update(&mut store, &mut sync, &page(nodes, true)).unwrap();
    assert!(sync.has_next_page);
    assert_eq!(sync.cursor, Some(String::from("i-1")));
    let request = sync.query().unwrap();
    assert_eq!(request.after, Some(String::from("i-1")));
    assert_eq!(request.since, None);
    update(&mut store, &mut sync, &page(second, false)).unwrap();
    assert!(!sync.has_next_page);
    assert_eq!(sync.cursor, Some(String::from("i-2")));
    assert!(sync.query().is_none());
    let numbers: Vec<i64> = store.issues().iter().map(|i| i.number).collect();
    assert_eq!(numbers, vec![1, 2, 3]);
}

#[test]
fn a_page_without_a_place_ends_the_pagination() {
    let mut store = Store::new();
    let mut sync = begin(&mut store, "acme", "widgets").unwrap();
    update(&mut store, &mut sync, &page(vec![], true)).unwrap();
    assert!(!sync.has_next_page);
    assert_eq!(sync.cursor, None);

    let mut sync = begin(&mut store, "acme", "widgets").unwrap();
    let empty = IssuePage { has_next_page: true, edges: vec![None, None] };
    update(&mut store, &mut sync, &empty).unwrap();
    assert!(!sync.has_next_page);
    assert!(store.issues().is_empty());
}

#[test]
fn a_place_without_an_issue_is_passed_over() {
    let mut store = with_labels(&["bug"]);
    let mut sync = begin(&mut store, "acme", "widgets").unwrap();
    let mixed = IssuePage {
        has_next_page: true,
        edges: vec![
            Some(IssueEdge { cursor: String::from("a"), node: Some(node(1, "one", "2020-05-01T00:00:00Z", &[])) }),
            None,
            Some(IssueEdge { cursor: String::from("b"), node: None }),
        ],
    };
    update(&mut store, &mut sync, &mixed).unwrap();
    assert!(sync.has_next_page);
    assert_eq!(sync.cursor, Some(String::from("b")));
    assert_eq!(store.issues().len(), 1);
}

#[test]
fn an_issue_is_stored_with_its_time_and_author() {
    let mut store = with_labels(&["bug"]);
    let mut sync = begin(&mut store, "acme", "widgets").unwrap();
    let mut closed = node(42, "A & B", "2020-05-01T14:00:00+02:00", &["bug"]);
    closed.state = IssueState::CLOSED;
    closed.author = None;
    let mut odd = node(43, "odd", "1970-01-01T00:00:00Z", &[]);
    odd.state = IssueState::Other(String::from("DRAFT"));
    update(&mut store, &mut sync, &page(vec![closed, odd], false)).unwrap();
    let row = &store.issues()[0];
    assert_eq!(row.repo, 1);
    assert_eq!(row.number, 42);
    assert_eq!(row.state, 1);
    assert_eq!(row.title, "A & B");
    assert_eq!(row.body, "<p>A & B</p>");
    assert_eq!(row.user_login, "ghost");
    assert_eq!(row.html_url, "https://github.com/acme/widgets/issues/42");
    assert_eq!(row.updated_at, 1_588_334_400);
    assert_eq!(store.issues()[1].state, 2);
    assert_eq!(store.issues()[1].updated_at, 0);
    assert_eq!(store.issues()[1].user_login, "alice");
}

#[test]
fn a_malformed_time_is_fatal() {
    let mut store = with_labels(&["bug"]);
    let mut sync = begin(&mut store, "acme", "widgets").unwrap();
    let nodes = vec![
        node(1, "one", "2020-05-01T00:00:00Z", &[]),
        node(2, "two", "yesterday", &[]),
        node(3, "three", "2020-05-03T00:00:00Z", &[]),
    ];
    assert_eq!(update(&mut store, &mut sync, &page(nodes, false)), Err(Error::MalformedTimestamp));
    let numbers: Vec<i64> = store.issues().iter().map(|i| i.number).collect();
    assert_eq!(numbers, vec![1]);
    assert_eq!(sync.cursor, Some(String::from("i-1")));
    assert!(sync.has_next_page);
    let mut sync = begin(&mut store, "acme", "widgets").unwrap();
    let nodes = vec![node(2, "two", "2020-05-01", &[])];
    assert_eq!(update(&mut store, &mut sync, &page(nodes, false)), Err(Error::MalformedTimestamp));
    let nodes = vec![node(2, "two", "", &[])];
    assert_eq!(update(&mut store, &mut sync, &page(nodes, false)), Err(Error::MalformedTimestamp));
}

#[test]
fn the_labels_of_an_issue_are_those_that_the_remote_reports() {
    let mut store = with_labels(&["bug", "p1", "docs"]);
    let mut sync = begin(&mut store, "acme", "widgets").unwrap();
    update(&mut store, &mut sync, &page(vec![node(1, "one", "2020-05-01T00:00:00Z", &["p1", "bug"])], false))
        .unwrap();
    let mut names = labels_of_issue(&store, 1, 1);
    names.sort();
    assert_eq!(names, vec!["bug", "p1"]);
    let mut sync = begin(&mut store, "acme", "widgets").unwrap();
    update(&mut store, &mut sync, &page(vec![node(1, "one", "2020-05-02T00:00:00Z", &["docs"])], false))
        .unwrap();
    assert_eq!(labels_of_issue(&store, 1, 1), vec!["docs"]);
    let mut sync = begin(&mut store, "acme", "widgets").unwrap();
    update(&mut store, &mut sync, &page(vec![node(1, "one", "2020-05-03T00:00:00Z", &[])], false))
        .unwrap();
    assert!(labels_of_issue(&store, 1, 1).is_empty());
    assert!(store.links().is_empty());
}

#[test]
fn a_label_that_is_not_known_is_dropped_from_the_issue() {
    let mut store = with_labels(&["bug"]);
    let mut sync = begin(&mut store, "acme", "widgets").unwrap();
    update(
        &mut store,
        &mut sync,
        &page(vec![node(1, "one", "2020-05-01T00:00:00Z", &["new", "bug", "newer"])], false),
    )
    .unwrap();
    assert_eq!(labels_of_issue(&store, 1, 1), vec!["bug"]);
    assert_eq!(store.labels().len(), 1);
}

#[test]
fn a_label_reported_twice_for_an_issue_is_an_error() {
    let mut store = with_labels(&["bug"]);
    let mut sync = begin(&mut store, "acme", "widgets").unwrap();
    let result = update(
        &mut store,
        &mut sync,
        &page(vec![node(1, "one", "2020-05-01T00:00:00Z", &["bug", "bug"])], false),
    );
    assert_eq!(result, Err(Error::DuplicateKey));
    assert!(store.issues().is_empty());
    assert!(store.links().is_empty());
    assert_eq!(sync.cursor, None);

    let mut sync = begin(&mut store, "acme", "widgets").unwrap();
    update(&mut store, &mut sync, &page(vec![node(1, "one", "2020-05-01T00:00:00Z", &["bug"])], false))
        .unwrap();
    let before = snapshot(&store);
    let mut sync = begin(&mut store, "acme", "widgets").unwrap();
    let result = update(
        &mut store,
        &mut sync,
        &page(vec![node(1, "changed", "2020-06-01T00:00:00Z", &["x", "bug", "y", "bug"])], false),
    );
    assert_eq!(result, Err(Error::DuplicateKey));
    assert_eq!(snapshot(&store), before);
}

#[test]
fn a_label_of_another_repository_is_not_attached() {
    let mut store = Store::new();
    let mut sync = labels::begin(&mut store, "acme", "gadgets").unwrap();
    labels::update(&mut store, &mut sync, &label_page(&["bug"], false)).unwrap();
    let mut sync = begin(&mut store, "acme", "widgets").unwrap();
    update(&mut store, &mut sync, &page(vec![node(1, "one", "2020-05-01T00:00:00Z", &["bug"])], false))
        .unwrap();
    assert!(store.links().is_empty());
}

#[test]
fn synchronising_twice_against_an_unchanged_remote_changes_nothing() {
    let mut store = with_labels(&["bug", "p1"]);
    let mut sync = begin(&mut store, "acme", "widgets").unwrap();
    update(&mut store, &mut sync, &page(remote(), false)).unwrap();
    let first = snapshot(&store);

    let mut sync = labels::begin(&mut store, "acme", "widgets").unwrap();
    labels::update(&mut store, &mut sync, &label_page(&["p1", "bug"], false)).unwrap();
    let mut sync = begin(&mut store, "acme", "widgets").unwrap();
    let since = sync.since.clone().unwrap();
    assert_eq!(since, "2020-05-03T00:00:00+00:00");
    let newest: Vec<IssueNode> = remote().into_iter().filter(|n| n.number == 3).collect();
    update(&mut store, &mut sync, &page(newest, false)).unwrap();
    assert_eq!(snapshot(&store), first);

    let mut sync = begin(&mut store, "acme", "widgets").unwrap();
    let mut all = remote();
    all.reverse();
    update(&mut store, &mut sync, &page(all, false)).unwrap();
    assert_eq!(snapshot(&store), first);
}

#[test]
fn a_resumed_synchronisation_touches_only_what_the_remote_reports() {
    let mut store = with_labels(&["bug", "p1"]);
    let mut sync = begin(&mut store, "acme", "widgets").unwrap();
    update(&mut store, &mut sync, &page(remote(), false)).unwrap();
    let before: Vec<String> = store.issues().iter().map(|i| format!("{:?}", i)).collect();
    let mut sync = begin(&mut store, "acme", "widgets").unwrap();
    let watermark = 1_588_464_000;
    let changed = vec![
        node(2, "two, edited", "2020-05-04T00:00:00Z", &["bug"]),
        node(4, "four", "2020-05-05T00:00:00Z", &[]),
    ];
    update(&mut store, &mut sync, &page(changed, false)).unwrap();
    for row in store.issues() {
        let was_there = before.contains(&format!("{:?}", row));
        assert!(was_there || row.updated_at >= watermark);
    }
    assert_eq!(store.issues().len(), 4);
    assert_eq!(store.issues()[1].title, "two, edited");
    assert_eq!(store.issues()[0].title, "one");
}

#[test]
fn labels_are_added_and_never_removed() {
    let mut store = Store::new();
    let mut sync = labels::begin(&mut store, "acme", "widgets").unwrap();
    let request = sync.query().unwrap();
    assert_eq!((request.owner.as_str(), request.name.as_str()), ("acme", "widgets"));
    assert_eq!(request.after, None);
    labels::update(&mut store, &mut sync, &label_page(&["bug", "p1"], true)).unwrap();
    assert!(sync.has_next_page);
    assert_eq!(sync.query().unwrap().after, Some(String::from("c-p1")));
    labels::update(&mut store, &mut sync, &label_page(&["docs", "bug"], false)).unwrap();
    assert!(sync.query().is_none());
    let names: Vec<&str> = store.labels().iter().map(|l| l.name.as_str()).collect();
    assert_eq!(names, vec!["bug", "p1", "docs"]);
    let ids: Vec<i64> = store.labels().iter().map(|l| l.id).collect();
    assert_eq!(ids, vec![1, 2, 3]);

    let mut sync = labels::begin(&mut store, "acme", "widgets").unwrap();
    labels::update(&mut store, &mut sync, &label_page(&["docs"], false)).unwrap();
    let names: Vec<&str> = store.labels().iter().map(|l| l.name.as_str()).collect();
    assert_eq!(names, vec!["bug", "p1", "docs"]);
}

#[test]
fn an_answer_without_labels_ends_the_pagination() {
    let mut store = Store::new();
    let mut sync = labels::begin(&mut store, "acme", "widgets").unwrap();
    labels::update(&mut store, &mut sync, &None).unwrap();
    assert!(!sync.has_next_page);
    assert!(store.labels().is_empty());

    let mut sync = labels::begin(&mut store, "acme", "widgets").unwrap();
    labels::update(&mut store, &mut sync, &label_page(&[], true)).unwrap();
    assert!(!sync.has_next_page);

    let mut sync = labels::begin(&mut store, "acme", "widgets").unwrap();
    let page = Some(labels::LabelPage {
        has_next_page: true,
        edges: vec![None, Some(labels::LabelEdge { cursor: String::from("x"), node: None })],
    });
    labels::update(&mut store, &mut sync, &page).unwrap();
    assert!(sync.has_next_page);
    assert_eq!(sync.cursor, Some(String::from("x")));
    assert!(store.labels().is_empty());
}

#[test]
fn a_synchronisation_of_a_repository_that_is_gone_is_an_error() {
    let mut store = Store::new();
    let mut sync = IssueSync {
        repo: 5,
        owner: String::from("acme"),
        name: String::from("widgets"),
        since: None,
        cursor: None,
        has_next_page: true,
    };
    let result = update(&mut store, &mut sync, &page(vec![node(1, "one", "2020-05-01T00:00:00Z", &[])], false));
    assert_eq!(result, Err(Error::UnknownRepository));
    let mut sync = labels::LabelSync {
        repo: 5,
        owner: String::from("acme"),
        name: String::from("widgets"),
        cursor: None,
        has_next_page: true,
    };
    assert_eq!(
        labels::update(&mut store, &mut sync, &label_page(&["bug"], false)),
        Err(Error::UnknownRepository)
    );
}

#[test]
fn a_rerun_after_a_failure_gives_what_an_undisturbed_run_gives() {
    let mut undisturbed = with_labels(&["bug", "p1"]);
    let mut sync = begin(&mut undisturbed, "acme", "widgets").unwrap();
    update(&mut undisturbed, &mut sync, &page(remote(), false)).unwrap();

    let mut store = with_labels(&["bug", "p1"]);
    let mut sync = begin(&mut store, "acme", "widgets").unwrap();
    let mut nodes = remote();
    nodes[2].updated_at = String::from("not a time");
    assert_eq!(update(&mut store, &mut sync, &page(nodes, false)), Err(Error::MalformedTimestamp));
    assert_eq!(store.issues().len(), 2);
    let mut sync = begin(&mut store, "acme", "widgets").unwrap();
    update(&mut store, &mut sync, &page(remote(), false)).unwrap();
    assert_eq!(snapshot(&store), snapshot(&undisturbed));
}
