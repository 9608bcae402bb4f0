use github_label_feed::atom;
use github_label_feed::error::Error;
use github_label_feed::generate::{
    atom_entry, atom_feed_head, categories_of, labels_of_issue, query_issues_for_label,
    rss_channel_head, rss_item, rss_item_with_date,
};
use github_label_feed::query::issues::{store_node, sync_node, IssueNode, IssueState, IssueSync};
use github_label_feed::query::repo_id;
use github_label_feed::store::{Issue, Store};

fn node(number: i64, state: IssueState, names: &[&str]) -> IssueNode {
    IssueNode {
        number,
        state,
        title: format!("issue {}", number),
        body_html: String::from("<p>x</p>"),
        url: format!("https://github.com/acme/widgets/issues/{}", number),
        updated_at: String::from("2020-05-01T12:00:00Z"),
        author: Some(String::from("alice")),
        labels: names.iter().map(|n| String::from(*n)).collect(),
    }
}

fn store() -> Store {
    let mut store = Store::new();
    let repo = repo_id(&mut store, "acme", "widgets").unwrap();
    let other = repo_id(&mut store, "acme", "gadgets").unwrap();
    for name in ["p1", "bug", "docs"] {
        store.add_label(repo, name).unwrap();
    }
    store.add_label(other, "bug").unwrap();
    store_node(&mut store, repo, &node(1, IssueState::OPEN, &["bug"]), 10).unwrap();
    store_node(&mut store, repo, &node(2, IssueState::CLOSED, &["docs", "bug", "p1"]), 20).unwrap();
    store_node(&mut store, repo, &node(3, IssueState::Other(String::from("X")), &["bug"]), 30).unwrap();
    store_node(&mut store, repo, &node(4, IssueState::OPEN, &["p1"]), 40).unwrap();
    store_node(&mut store, other, &node(2, IssueState::OPEN, &["bug"]), 50).unwrap();
    store
}

fn numbers(issues: &[Issue]) -> Vec<i64> {
    issues.iter().map(|i| i.number).collect()
}

#[test]
fn store_node_stores_the_row_and_the_links() {
    let store = store();
    let keys: Vec<(i64, i64, i64)> = store.issues().iter().map(|i| (i.repo, i.number, i.updated_at)).collect();
    assert_eq!(keys, vec![(1, 1, 10), (1, 2, 20), (1, 3, 30), (1, 4, 40), (2, 2, 50)]);
    let links: Vec<(i64, i64, i64)> = store.links().iter().map(|l| (l.repo, l.issue, l.label)).collect();
    assert_eq!(links, vec![(1, 1, 2), (1, 2, 1), (1, 2, 2), (1, 2, 3), (1, 3, 2), (1, 4, 1), (2, 2, 4)]);
    assert_eq!(store.issues()[2].state, 2);
}

#[test]
fn store_node_fails_without_the_repository() {
    let mut store = Store::new();
    assert_eq!(
        store_node(&mut store, 1, &node(1, IssueState::OPEN, &[]), 10),
        Err(Error::UnknownRepository)
    );
    assert!(store.issues().is_empty());
}

#[test]
fn sync_node_reads_the_time_of_the_node() {
    let mut store = Store::new();
    let repo = repo_id(&mut store, "acme", "widgets").unwrap();
    let mut late = node(1, IssueState::OPEN, &[]);
    late.updated_at = String::from("2262-04-11T23:47:16.854775807+00:00");
    assert_eq!(sync_node(&mut store, repo, &late), Ok(()));
    assert_eq!(store.issues()[0].updated_at, 9_223_372_036);
    let mut leap = node(2, IssueState::OPEN, &[]);
    leap.updated_at = String::from("2016-12-31T23:59:60Z");
    assert_eq!(sync_node(&mut store, repo, &leap), Ok(()));
    assert_eq!(store.issues()[1].updated_at, 1_483_228_799);
    let mut small = node(3, IssueState::OPEN, &[]);
    small.updated_at = String::from("1969-12-31t23:59:59-00:00");
    assert_eq!(sync_node(&mut store, repo, &small), Ok(()));
    assert_eq!(store.issues()[2].updated_at, -1);
    let mut bad = node(4, IssueState::OPEN, &[]);
    bad.updated_at = String::from("2020-13-01T00:00:00Z");
    assert_eq!(sync_node(&mut store, repo, &bad), Err(Error::MalformedTimestamp));
    assert_eq!(store.issues().len(), 3);
}

#[test]
fn a_synchronisation_starts_at_the_first_page() {
    let sync = IssueSync::starting(3, "acme", "widgets", Some(String::from("then")));
    assert_eq!(sync.repo, 3);
    assert_eq!(sync.owner, "acme");
    assert_eq!(sync.name, "widgets");
    assert_eq!(sync.since, Some(String::from("then")));
    assert_eq!(sync.cursor, None);
    assert!(sync.has_next_page);
}

#[test]
fn a_copy_of_the_store_holds_the_same_rows() {
    let first = store();
    let mut copy = first.clone();
    assert_eq!(format!("{:?}", copy.issues()), format!("{:?}", first.issues()));
    assert_eq!(format!("{:?}", copy.labels()), format!("{:?}", first.labels()));
    assert_eq!(format!("{:?}", copy.repositories()), format!("{:?}", first.repositories()));
    assert_eq!(copy.links(), first.links());
    copy.clear_issue_labels(1, 2);
    assert_eq!(copy.links().len(), 4);
    assert_eq!(first.links().len(), 7);
}

#[test]
fn the_labels_of_an_issue_come_in_the_order_of_the_labels() {
    let store = store();
    assert_eq!(labels_of_issue(&store, 1, 2), vec!["p1", "bug", "docs"]);
    assert_eq!(labels_of_issue(&store, 2, 2), vec!["bug"]);
    assert!(labels_of_issue(&store, 1, 9).is_empty());
    assert!(labels_of_issue(&store, 3, 2).is_empty());
}

#[test]
fn the_categories_of_an_issue_begin_with_its_state() {
    let store = store();
    assert_eq!(categories_of(&store, &store.issues()[0]).unwrap(), vec!["open", "bug"]);
    assert_eq!(categories_of(&store, &store.issues()[1]).unwrap(), vec!["closed", "p1", "bug", "docs"]);
    assert_eq!(categories_of(&store, &store.issues()[2]).unwrap_err(), Error::InvalidIssueState);
}

#[test]
fn the_issues_of_a_label_are_those_of_the_repository_that_carry_it() {
    let store = store();
    assert_eq!(numbers(&query_issues_for_label(&store, 1, "bug", true, true)), vec![3, 2, 1]);
    assert_eq!(numbers(&query_issues_for_label(&store, 1, "bug", false, true)), vec![3, 2]);
    assert_eq!(numbers(&query_issues_for_label(&store, 1, "bug", true, false)), vec![3, 1]);
    assert_eq!(numbers(&query_issues_for_label(&store, 1, "bug", false, false)), vec![3]);
    assert_eq!(numbers(&query_issues_for_label(&store, 1, "p1", true, true)), vec![4, 2]);
    assert_eq!(numbers(&query_issues_for_label(&store, 2, "bug", true, true)), vec![2]);
    assert!(query_issues_for_label(&store, 2, "p1", true, true).is_empty());
    assert!(query_issues_for_label(&store, 1, "none", true, true).is_empty());
    assert!(query_issues_for_label(&store, 9, "bug", true, true).is_empty());
    let found = query_issues_for_label(&store, 2, "bug", true, true);
    assert_eq!(found[0].repo, 2);
    assert_eq!(found[0].updated_at, 50);
}

#[test]
fn only_open_selects_the_open_issues_of_a_label() {
    let store = store();
    assert_eq!(numbers(&atom::query_issues_for_label(&store, 1, "bug", false)), vec![3, 2, 1]);
    assert_eq!(numbers(&atom::query_issues_for_label(&store, 1, "bug", true)), vec![1]);
    assert_eq!(numbers(&atom::query_issues_for_label(&store, 1, "p1", true)), vec![4]);
    assert!(atom::query_issues_for_label(&store, 1, "docs", true).is_empty());
    assert!(atom::query_issues_for_label(&store, 1, "none", false).is_empty());
}

#[test]
fn an_entry_is_made_of_an_issue_and_its_categories() {
    let store = store();
    let entry = atom::issue_to_entry(&store, 1, store.issues()[1].clone()).unwrap();
    assert_eq!(entry.title(), "issue 2");
    assert_eq!(entry.id(), "https://github.com/acme/widgets/issues/2");
    assert_eq!(entry.updated().timestamp(), 20);
    let terms: Vec<&str> = entry.categories().iter().map(|c| c.term()).collect();
    assert_eq!(terms, vec!["closed", "p1", "bug", "docs"]);
    assert_eq!(
        atom::issue_to_entry(&store, 1, store.issues()[2].clone()).unwrap_err(),
        Error::InvalidIssueState
    );
}

#[test]
fn entity_escape_replaces_the_five_characters() {
    assert_eq!(atom::entity_escape("<a href=\"x\">b & c's</a>"), "&lt;a href=&quot;x&quot;&gt;b &amp; c&apos;s&lt;/a&gt;");
    assert_eq!(atom::entity_escape("é ü 漢字 \u{1F600}"), "é ü 漢字 \u{1F600}");
    assert_eq!(atom::entity_escape("&&"), "&amp;&amp;");
}

#[test]
fn atom_feeds_go_into_directories_named_after_the_escaped_labels() {
    let mut store = store();
    let labels = vec![String::from("p1"), String::from("not there"), String::from("bug")];
    let result = atom::generate(&mut store, "acme", "widgets", labels.clone(), false, 0);
    assert_eq!(result.unwrap_err(), Error::InvalidIssueState);
    let feeds = atom::generate(&mut store, "acme", "widgets", labels, true, 0).unwrap();
    let directories: Vec<&str> = feeds.iter().map(|f| f.directory.as_str()).collect();
    assert_eq!(directories, vec!["p1", "not_there", "bug"]);
    let labels: Vec<&str> = feeds.iter().map(|f| f.label.as_str()).collect();
    assert_eq!(labels, vec!["p1", "not there", "bug"]);
    for feed in &feeds {
        assert!(feed.rss.is_none());
        let parsed = atom_syndication::Feed::read_from(feed.atom.as_ref().unwrap().as_bytes()).unwrap();
        assert_eq!(parsed.title(), feed.label);
        assert_eq!(parsed.updated().timestamp(), 0);
    }
    let all = atom::generate(&mut store, "acme", "gadgets", vec![], false, 0).unwrap();
    assert_eq!(all.len(), 1);
    assert_eq!(all[0].label, "bug");
    let none = atom::generate(&mut store, "acme", "new", vec![], false, 0).unwrap();
    assert!(none.is_empty());
    assert_eq!(store.repository_id("acme", "new"), Some(3));
}

#[test]
fn the_values_of_an_entry_are_escaped_where_they_are_written_as_text() {
    let issue = Issue {
        repo: 1,
        number: 42,
        state: 1,
        title: String::from("A & B"),
        body: String::from("<b>"),
        user_login: String::from("al&ice"),
        html_url: String::from("https://x/?a&b"),
        updated_at: 7,
    };
    let labels = vec![String::from("closed"), String::from("a<b")];
    let fields = atom_entry(&issue, &labels);
    assert_eq!(fields.title, "A &amp; B");
    assert_eq!(fields.id, "https://x/?a&amp;b");
    assert_eq!(fields.updated, 7);
    assert_eq!(fields.author_name, "al&amp;ice");
    assert_eq!(fields.author_uri, "https://github.com/al&amp;ice");
    assert_eq!(fields.categories, vec!["closed", "a<b"]);
    assert_eq!(fields.link, "https://x/?a&b");
    assert_eq!(fields.content_type, "html");
    assert_eq!(fields.content, "&lt;b&gt;");

    let item = rss_item_with_date(&issue, &labels, String::from("then"));
    assert_eq!(item.title, "A &amp; B");
    assert_eq!(item.link, "https://x/?a&amp;b");
    assert_eq!(item.pub_date, "then");
    assert_eq!(item.categories, vec!["closed", "a&lt;b"]);
    assert_eq!(item.content, "&lt;b&gt;");
    assert_eq!(rss_item(&issue, &labels).unwrap().pub_date, "Thu, 1 Jan 1970 00:00:07 +0000");
    let never = Issue { updated_at: i64::MIN, ..issue };
    assert!(rss_item(&never, &labels).is_none());
}

#[test]
fn the_head_of_a_feed_names_the_label_and_its_list() {
    let head = atom_feed_head("a&b", "https://x/a&b", 9);
    assert_eq!(head.title, "a&amp;b");
    assert_eq!(head.id, "https://x/a&amp;b");
    assert_eq!(head.updated, 9);
    assert_eq!(head.link, "https://x/a&b");
    assert_eq!(head.link_rel, "alternate");
    let channel = rss_channel_head("a&b", "https://x/a&b", String::from("now"));
    assert_eq!(channel.title, "a&amp;b");
    assert_eq!(channel.link, "https://x/a&b");
    assert_eq!(channel.pub_date, "now");
}

#[test]
fn the_atom_feed_of_a_label_with_a_space_goes_into_a_directory_with_an_underscore() {
    let mut store = Store::new();
    let repo = repo_id(&mut store, "acme", "widgets").unwrap();
    store.add_label(repo, "help wanted").unwrap();
    store.add_label(repo, "area/ui\tnew").unwrap();
    let feeds =
        atom::generate(&mut store, "acme", "widgets", vec![String::from("help wanted")], false, 0)
            .unwrap();
    assert_eq!(feeds.len(), 1);
    assert_eq!(feeds[0].label, "help wanted");
    assert_eq!(feeds[0].directory, "help_wanted");
    let names: Vec<String> = feeds[0].files().into_iter().map(|f| f.name).collect();
    assert_eq!(names, vec!["atom.xml"]);
    let all = atom::generate(&mut store, "acme", "widgets", vec![], false, 0).unwrap();
    let directories: Vec<&str> = all.iter().map(|f| f.directory.as_str()).collect();
    assert_eq!(directories, vec!["help_wanted", "area_ui_new"]);
}
