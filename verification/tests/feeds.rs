use github_label_feed::atom::generate;
use github_label_feed::error::Error;
use github_label_feed::generate::{
    issue_to_atom_entry, issue_to_rss_item, label_listing_url, path_escape, run,
    xml_entity_escape, LabelFeed,
};
use github_label_feed::query::issues::{
    begin, update, IssueEdge, IssueNode, IssuePage, IssueState,
};
use github_label_feed::query::labels;
use github_label_feed::store::{Issue, Store};
use github_label_feed::GenerateOpts;

fn label_page(names: &[&str]) -> Option<labels::LabelPage> {
    Some(labels::LabelPage {
        has_next_page: false,
        edges: names
            .iter()
            .map(|name| {
                Some(labels::LabelEdge {
                    cursor: format!("c-{}", name),
                    node: Some(String::from(*name)),
                })
            })
            .collect(),
    })
}

fn node(number: i64, state: IssueState, title: &str, updated_at: &str, names: &[&str]) -> IssueNode {
    IssueNode {
        number,
        state,
        title: String::from(title),
        body_html: format!("<p>body of {}</p>", number),
        url: format!("https://github.com/acme/widgets/issues/{}", number),
        updated_at: String::from(updated_at),
        author: Some(String::from("alice")),
        labels: names.iter().map(|name| String::from(*name)).collect(),
    }
}

fn issue_page(nodes: Vec<IssueNode>) -> IssuePage {
    IssuePage {
        has_next_page: false,
        edges: nodes
            .into_iter()
            .map(|node| Some(IssueEdge { cursor: format!("i-{}", node.number), node: Some(node) }))
            .collect(),
    }
}

fn widgets() -> Store {
    let mut store = Store::new();
    let mut sync = labels::begin(&mut store, "acme", "widgets").unwrap();
    labels::update(&mut store, &mut sync, &label_page(&["bug", "p1"])).unwrap();
    let mut sync = begin(&mut store, "acme", "widgets").unwrap();
    let page = issue_page(vec![node(
        42,
        IssueState::CLOSED,
        "A & B",
        "2020-05-01T12:00:00Z",
        &["bug", "p1"],
    )]);
    update(&mut store, &mut sync, &page).unwrap();
    store
}

#[test]
fn end_to_end_atom_feed_of_one_closed_issue() {
    let mut store = widgets();
    let feeds = generate(&mut store, "acme", "widgets", vec![String::from("bug")], false, 1_600_000_000)
        .unwrap();
    assert_eq!(feeds.len(), 1);
    let document = feeds[0].atom.as_ref().unwrap();
    let feed = atom_syndication::Feed::read_from(document.as_bytes()).unwrap();
    assert_eq!(feed.entries().len(), 1);
    let entry = &feed.entries()[0];
    assert_eq!(entry.id(), "https://github.com/acme/widgets/issues/42");
    let terms: Vec<&str> = entry.categories().iter().map(|c| c.term()).collect();
    assert_eq!(terms, vec!["closed", "bug", "p1"]);
    assert!(document.contains("<title>A &amp; B</title>"));
    assert_eq!(entry.title(), "A & B");
    assert_eq!(feed.id(), "https://github.com/acme/widgets/labels/bug");
    assert_eq!(feed.links()[0].href(), "https://github.com/acme/widgets/labels/bug");
    assert_eq!(feed.links()[0].rel(), "alternate");
    assert_eq!(feed.updated().timestamp(), 1_600_000_000);
}

#[test]
fn entry_of_an_issue_carries_escaped_text() {
    let issue = Issue {
        repo: 1,
        number: 42,
        state: 1,
        title: String::from("A & B"),
        body: String::from("<p>\"x\" isn't y</p>"),
        user_login: String::from("alice"),
        html_url: String::from("https://github.com/acme/widgets/issues/42"),
        updated_at: 1_588_334_400,
    };
    let labels = vec![String::from("closed"), String::from("bug"), String::from("p1")];
    let entry = issue_to_atom_entry(&issue, &labels).unwrap();
    assert_eq!(entry.title(), "A &amp; B");
    assert_eq!(entry.id(), "https://github.com/acme/widgets/issues/42");
    assert_eq!(entry.updated().to_rfc3339(), "2020-05-01T12:00:00+00:00");
    assert_eq!(entry.authors().len(), 1);
    assert_eq!(entry.authors()[0].name(), "alice");
    assert_eq!(entry.authors()[0].uri(), Some("https://github.com/alice"));
    assert_eq!(entry.authors()[0].email(), None);
    let terms: Vec<&str> = entry.categories().iter().map(|c| c.term()).collect();
    assert_eq!(terms, vec!["closed", "bug", "p1"]);
    assert_eq!(entry.links().len(), 1);
    assert_eq!(entry.links()[0].href(), "https://github.com/acme/widgets/issues/42");
    let content = entry.content().unwrap();
    assert_eq!(content.content_type(), Some("html"));
    assert_eq!(content.value(), Some("&lt;p&gt;&quot;x&quot; isn&apos;t y&lt;/p&gt;"));

    let item = issue_to_rss_item(&issue, &labels).unwrap();
    assert_eq!(item.title(), Some("A &amp; B"));
    assert_eq!(item.link(), Some("https://github.com/acme/widgets/issues/42"));
    assert_eq!(item.pub_date(), Some("Fri, 1 May 2020 12:00:00 +0000"));
    let names: Vec<&str> = item.categories().iter().map(|c| c.name()).collect();
    assert_eq!(names, vec!["closed", "bug", "p1"]);
    assert_eq!(item.content(), Some("&lt;p&gt;&quot;x&quot; isn&apos;t y&lt;/p&gt;"));
}

#[test]
fn escape_replaces_the_five_characters() {
    assert_eq!(xml_entity_escape("a&b<c>d'e\"f"), "a&amp;b&lt;c&gt;d&apos;e&quot;f");
    assert_eq!(xml_entity_escape(""), "");
    assert_eq!(xml_entity_escape("plain text"), "plain text");
    assert_eq!(xml_entity_escape("&amp;"), "&amp;amp;");
}

#[test]
fn path_escape_replaces_slashes_and_white_space() {
    assert_eq!(path_escape("good first issue"), "good_first_issue");
    assert_eq!(path_escape("area/ui\tnew\n"), "area_ui_new_");
    assert_eq!(path_escape("bug"), "bug");
    assert_eq!(path_escape("a\u{a0}b"), "a_b");
}

#[test]
fn label_url_encodes_the_label() {
    assert_eq!(
        label_listing_url("acme", "widgets", "bug").unwrap(),
        "https://github.com/acme/widgets/labels/bug"
    );
    assert_eq!(
        label_listing_url("acme", "widgets", "good first issue").unwrap(),
        "https://github.com/acme/widgets/labels/good%20first%20issue"
    );
    assert_eq!(
        label_listing_url("acme", "widgets", "area/ui").unwrap(),
        "https://github.com/acme/widgets/labels/area%2Fui"
    );
}

fn opts(labels: &[&str], without_open: bool, without_closed: bool, rss: bool, atom: bool) -> GenerateOpts {
    GenerateOpts {
        repo: String::from("acme/widgets"),
        out_path: String::from("out"),
        labels: labels.iter().map(|l| String::from(*l)).collect(),
        without_open,
        without_closed,
        rss,
        atom,
    }
}

fn entry_numbers(feed: &LabelFeed) -> Vec<String> {
    let document = feed.atom.as_ref().unwrap();
    let parsed = atom_syndication::Feed::read_from(document.as_bytes()).unwrap();
    parsed.entries().iter().map(|e| String::from(e.id().rsplit('/').next().unwrap())).collect()
}

fn mixed() -> Store {
    let mut store = Store::new();
    let mut sync = labels::begin(&mut store, "acme", "widgets").unwrap();
    labels::update(&mut store, &mut sync, &label_page(&["bug", "p1", "good first issue"])).unwrap();
    let mut sync = begin(&mut store, "acme", "widgets").unwrap();
    let page = issue_page(vec![
        node(1, IssueState::OPEN, "one", "2020-05-01T12:00:00Z", &["bug"]),
        node(7, IssueState::CLOSED, "seven", "2020-05-02T12:00:00Z", &["bug", "p1"]),
        node(3, IssueState::CLOSED, "three", "2020-05-03T12:00:00Z", &["bug"]),
        node(9, IssueState::OPEN, "nine", "2020-05-04T12:00:00Z", &["p1", "bug"]),
        node(5, IssueState::CLOSED, "five", "2020-05-05T12:00:00Z", &["p1"]),
    ]);
    update(&mut store, &mut sync, &page).unwrap();
    store
}

#[test]
fn feed_lists_issues_by_number_descending() {
    let mut store = mixed();
    let feeds = run(&mut store, &opts(&["bug"], false, false, false, true), 1_600_000_000).unwrap();
    assert_eq!(feeds.len(), 1);
    assert_eq!(entry_numbers(&feeds[0]), vec!["9", "7", "3", "1"]);
    assert!(feeds[0].rss.is_none());
}

#[test]
fn without_open_leaves_all_closed_issues_and_no_open_one() {
    let mut store = mixed();
    let feeds = run(&mut store, &opts(&["bug"], true, false, false, true), 1_600_000_000).unwrap();
    assert_eq!(entry_numbers(&feeds[0]), vec!["7", "3"]);
}

#[test]
fn without_closed_leaves_the_open_issues() {
    let mut store = mixed();
    let feeds = run(&mut store, &opts(&["bug"], false, true, false, true), 1_600_000_000).unwrap();
    assert_eq!(entry_numbers(&feeds[0]), vec!["9", "1"]);
}

#[test]
fn without_both_leaves_an_empty_feed() {
    let mut store = mixed();
    let feeds = run(&mut store, &opts(&["bug"], true, true, false, true), 1_600_000_000).unwrap();
    assert_eq!(entry_numbers(&feeds[0]), Vec::<String>::new());
}

#[test]
fn no_label_asked_for_selects_every_label_of_the_repository() {
    let mut store = mixed();
    let feeds = run(&mut store, &opts(&[], false, false, true, true), 1_600_000_000).unwrap();
    let labels: Vec<&str> = feeds.iter().map(|f| f.label.as_str()).collect();
    assert_eq!(labels, vec!["bug", "p1", "good first issue"]);
    let directories: Vec<&str> = feeds.iter().map(|f| f.directory.as_str()).collect();
    assert_eq!(directories, vec!["bug", "p1", "good_first_issue"]);
    assert_eq!(entry_numbers(&feeds[1]), vec!["9", "7", "5"]);
    assert_eq!(entry_numbers(&feeds[2]), Vec::<String>::new());
    for feed in &feeds {
        assert!(feed.atom.is_some());
        assert!(feed.rss.is_some());
    }
}

#[test]
fn rss_channel_carries_the_items() {
    let mut store = mixed();
    let feeds = run(&mut store, &opts(&["p1"], false, false, true, false), 1_600_000_000).unwrap();
    assert!(feeds[0].atom.is_none());
    let document = feeds[0].rss.as_ref().unwrap();
    let channel = rss::Channel::read_from(document.as_bytes()).unwrap();
    assert_eq!(channel.title(), "p1");
    assert_eq!(channel.link(), "https://github.com/acme/widgets/labels/p1");
    assert_eq!(channel.pub_date(), Some("Sun, 13 Sep 2020 12:26:40 +0000"));
    let titles: Vec<&str> = channel.items().iter().map(|i| i.title().unwrap()).collect();
    assert_eq!(titles, vec!["nine", "seven", "five"]);
    let names: Vec<&str> = channel.items()[0].categories().iter().map(|c| c.name()).collect();
    assert_eq!(names, vec!["open", "bug", "p1"]);
}

#[test]
fn run_rejects_a_repository_without_a_slash() {
    let mut store = mixed();
    let mut bad = opts(&["bug"], false, false, false, true);
    bad.repo = String::from("acme");
    assert_eq!(run(&mut store, &bad, 1_600_000_000).unwrap_err(), Error::InvalidRepoFormat);
}

#[test]
fn an_unreadable_state_is_fatal() {
    let mut store = Store::new();
    let mut sync = labels::begin(&mut store, "acme", "widgets").unwrap();
    labels::update(&mut store, &mut sync, &label_page(&["bug"])).unwrap();
    let mut sync = begin(&mut store, "acme", "widgets").unwrap();
    let page = issue_page(vec![node(
        4,
        IssueState::Other(String::from("DRAFT")),
        "four",
        "2020-05-01T12:00:00Z",
        &["bug"],
    )]);
    update(&mut store, &mut sync, &page).unwrap();
    let result = run(&mut store, &opts(&["bug"], true, true, false, true), 1_600_000_000);
    assert_eq!(result.unwrap_err(), Error::InvalidIssueState);
    let result = generate(&mut store, "acme", "widgets", vec![String::from("bug")], false, 0);
    assert_eq!(result.unwrap_err(), Error::InvalidIssueState);
    let result = generate(&mut store, "acme", "widgets", vec![String::from("bug")], true, 0);
    assert_eq!(result.unwrap().len(), 1);
}

#[test]
fn a_time_that_cannot_be_written_makes_the_feed_unbuildable() {
    let issue = Issue {
        repo: 1,
        number: 1,
        state: 0,
        title: String::from("t"),
        body: String::from("b"),
        user_login: String::from("alice"),
        html_url: String::from("u"),
        updated_at: i64::MAX,
    };
    assert_eq!(issue_to_atom_entry(&issue, &vec![]).unwrap_err(), Error::UnbuildableFeed);
    assert_eq!(issue_to_rss_item(&issue, &vec![]).unwrap_err(), Error::UnbuildableFeed);
    let late = Issue { updated_at: 253_402_300_800, ..issue };
    assert!(issue_to_atom_entry(&late, &vec![]).is_ok());
    assert_eq!(issue_to_rss_item(&late, &vec![]).unwrap_err(), Error::UnbuildableFeed);
    let last = Issue { updated_at: 253_402_300_799, ..late };
    assert_eq!(
        issue_to_rss_item(&last, &vec![]).unwrap().pub_date(),
        Some("Fri, 31 Dec 9999 23:59:59 +0000")
    );
    let first = Issue { updated_at: -62_167_219_200, ..last };
    assert_eq!(
        issue_to_rss_item(&first, &vec![]).unwrap().pub_date(),
        Some("Sat, 1 Jan 0000 00:00:00 +0000")
    );
    let early = Issue { updated_at: -62_167_219_201, ..first };
    assert_eq!(issue_to_rss_item(&early, &vec![]).unwrap_err(), Error::UnbuildableFeed);
}

fn special() -> Store {
    let mut store = Store::new();
    let mut sync = labels::begin(&mut store, "acme", "widgets").unwrap();
    labels::update(&mut store, &mut sync, &label_page(&["a&b <c> 'd' \"e\""])).unwrap();
    let mut sync = begin(&mut store, "acme", "widgets").unwrap();
    let mut odd = node(
        1,
        IssueState::OPEN,
        "if a<b && b>c then 'x' else \"y\"",
        "2020-05-01T12:00:00Z",
        &["a&b <c> 'd' \"e\""],
    );
    odd.body_html = String::from("<p class=\"x\">Tom & Jerry's</p>");
    odd.url = String::from("https://github.com/acme/widgets/issues/1?a=1&b='2'");
    odd.author = Some(String::from("o'neil & <co>"));
    update(&mut store, &mut sync, &issue_page(vec![odd])).unwrap();
    store
}

#[test]
fn an_atom_document_is_well_formed_and_decodes_to_the_stored_text() {
    let mut store = special();
    let feeds = run(&mut store, &opts(&[], false, false, true, true), 1_600_000_000).unwrap();
    assert_eq!(feeds.len(), 1);
    assert_eq!(feeds[0].label, "a&b <c> 'd' \"e\"");
    assert_eq!(feeds[0].directory, "a&b_<c>_'d'_\"e\"");
    let document = feeds[0].atom.as_ref().unwrap();
    let feed = atom_syndication::Feed::read_from(document.as_bytes()).unwrap();
    assert_eq!(feed.title(), "a&b <c> 'd' \"e\"");
    assert_eq!(feed.id(), "https://github.com/acme/widgets/labels/a&b%20%3Cc%3E%20'd'%20%22e%22");
    assert_eq!(feed.links()[0].href(), feed.id());
    assert_eq!(feed.entries().len(), 1);
    let entry = &feed.entries()[0];
    assert_eq!(entry.title(), "if a<b && b>c then 'x' else \"y\"");
    assert_eq!(entry.id(), "https://github.com/acme/widgets/issues/1?a=1&b='2'");
    assert_eq!(entry.links()[0].href(), "https://github.com/acme/widgets/issues/1?a=1&b='2'");
    assert_eq!(entry.authors()[0].name(), "o'neil & <co>");
    assert_eq!(entry.authors()[0].uri(), Some("https://github.com/o'neil & <co>"));
    let terms: Vec<&str> = entry.categories().iter().map(|c| c.term()).collect();
    assert_eq!(terms, vec!["open", "a&b <c> 'd' \"e\""]);
    assert_eq!(entry.content().unwrap().value(), Some("<p class=\"x\">Tom & Jerry's</p>"));
    assert_eq!(entry.content().unwrap().content_type(), Some("html"));
}

#[test]
fn an_rss_document_is_well_formed_and_carries_the_escaped_text() {
    let mut store = special();
    let feeds = run(&mut store, &opts(&[], false, false, true, false), 1_600_000_000).unwrap();
    let document = feeds[0].rss.as_ref().unwrap();
    let channel = rss::Channel::read_from(document.as_bytes()).unwrap();
    assert_eq!(channel.title(), "a&amp;b &lt;c&gt; &apos;d&apos; &quot;e&quot;");
    assert_eq!(
        channel.link(),
        "https://github.com/acme/widgets/labels/a&b%20%3Cc%3E%20'd'%20%22e%22"
    );
    assert_eq!(channel.items().len(), 1);
    let item = &channel.items()[0];
    assert_eq!(
        item.title(),
        Some("if a&lt;b &amp;&amp; b&gt;c then &apos;x&apos; else &quot;y&quot;")
    );
    assert_eq!(
        item.link(),
        Some("https://github.com/acme/widgets/issues/1?a=1&amp;b=&apos;2&apos;")
    );
    let names: Vec<&str> = item.categories().iter().map(|c| c.name()).collect();
    assert_eq!(names, vec!["open", "a&b <c> 'd' \"e\""]);
    assert_eq!(
        item.content(),
        Some("&lt;p class=&quot;x&quot;&gt;Tom &amp; Jerry&apos;s&lt;/p&gt;")
    );
}

#[test]
fn the_files_of_a_feed_are_named_after_their_format() {
    let mut store = mixed();
    let feeds = run(&mut store, &opts(&["bug"], false, false, true, true), 1_600_000_000).unwrap();
    let files = feeds[0].files();
    let names: Vec<&str> = files.iter().map(|f| f.name.as_str()).collect();
    assert_eq!(names, vec!["atom.xml", "rss.xml"]);
    assert_eq!(Some(&files[0].document), feeds[0].atom.as_ref());
    assert_eq!(Some(&files[1].document), feeds[0].rss.as_ref());
    let feeds = run(&mut store, &opts(&["bug"], false, false, true, false), 1_600_000_000).unwrap();
    let names: Vec<String> = feeds[0].files().into_iter().map(|f| f.name).collect();
    assert_eq!(names, vec!["rss.xml"]);
    let feeds = run(&mut store, &opts(&["bug"], false, false, false, false), 1_600_000_000).unwrap();
    assert_eq!(feeds.len(), 1);
    assert!(feeds[0].files().is_empty());
}

#[test]
fn an_rss_item_carries_escaped_title_link_and_content() {
    let issue = Issue {
        repo: 1,
        number: 42,
        state: 1,
        title: String::from("A & B"),
        body: String::from("<p>x</p>"),
        user_login: String::from("alice"),
        html_url: String::from("https://github.com/acme/widgets/issues/42"),
        updated_at: 1_209_600,
    };
    let labels = vec![String::from("closed"), String::from("bug")];
    let item = issue_to_rss_item(&issue, &labels).unwrap();
    assert_eq!(item.title(), Some("A &amp; B"));
    assert_eq!(item.link(), Some("https://github.com/acme/widgets/issues/42"));
    assert_eq!(item.pub_date(), Some("Thu, 15 Jan 1970 00:00:00 +0000"));
    let names: Vec<&str> = item.categories().iter().map(|c| c.name()).collect();
    assert_eq!(names, vec!["closed", "bug"]);
    assert_eq!(item.content(), Some("&lt;p&gt;x&lt;/p&gt;"));
    let odd = Issue { html_url: String::from("https://x/?a=1&b=<2>"), ..issue };
    let item = issue_to_rss_item(&odd, &labels).unwrap();
    assert_eq!(item.link(), Some("https://x/?a=1&amp;b=&lt;2&gt;"));
}

#[test]
fn an_rss_channel_carries_the_escaped_label_as_title() {
    let mut store = special();
    let feeds = run(&mut store, &opts(&[], false, false, true, false), 1_600_000_000).unwrap();
    let document = feeds[0].rss.as_ref().unwrap();
    assert!(document.contains("<category>open</category>"));
    assert!(document
        .contains("<category>a&amp;b &lt;c&gt; &apos;d&apos; &quot;e&quot;</category>"));
    let mut plain = mixed();
    let feeds = run(&mut plain, &opts(&["p1"], false, false, true, false), 1_600_000_000).unwrap();
    let channel = rss::Channel::read_from(feeds[0].rss.as_ref().unwrap().as_bytes()).unwrap();
    assert_eq!(channel.title(), "p1");
}
