//! Feed projection: which issues go into the feed of a label, in which order, what
//! an entry holds of an issue, and which documents are generated.

use vstd::prelude::*;
use vstd::std_specs::iter::IteratorSpec;
use vstd::utf8::{encode_utf8, is_ascii_chars, is_ascii_chars_encode_utf8};

use crate::documents::{
    atom_document, atom_entry_built, build_atom_entry, build_rss_item, build_url, rss_document,
    rss_item_built, url_with_segments, write_atom_feed, write_rss_channel, AtomEntry, AtomEntryView,
    AtomFeed, AtomFeedView, RssChannel, RssChannelView, RssItem, RssItemView, SEGMENT_LIMIT,
};
use crate::error::Error;
use crate::escape::{escaped, lemma_escaped_push, path_escaped};
use crate::query::issues::{IssueState, STATE_CLOSED, STATE_OPEN};
use crate::relations::lemma_wf_order;
use crate::store::{
    backwards, find_label, find_repository, issue_lt, issue_views, issues_ascending, label_name,
    label_names, label_views, names_of_issue, Issue, IssueLabel, IssueView, LabelView, Store,
    StoreView,
};
use crate::text::{is_whitespace, texts, whitespace};
use crate::time::{format_rfc2822, rfc2822_text, rfc2822_writes};
use crate::{parse_repo, repo_parts, GenerateOpts};

verus! {

/// Replaces each of `& < > ' "` by its XML entity, so that the text can stand in a
/// document that is written without further escaping.
pub fn xml_entity_escape(from: &str) -> (text: String)
    ensures
        text@ == escaped(from@),
{
    let mut text = String::new();
    let mut it = from.chars();
    let ghost mut done: int = 0;
    proof {
        assert(from@.take(0) =~= Seq::<char>::empty());
    }
    loop
        invariant
            0 <= done <= from@.len(),
            it.remaining() == from@.skip(done),
            it.obeys_prophetic_iter_laws(),
            text@ == escaped(from@.take(done)),
        decreases from@.len() - done,
    {
        match it.next() {
            Some(c) => {
                proof {
                    reveal_strlit("&amp;");
                    reveal_strlit("&lt;");
                    reveal_strlit("&gt;");
                    reveal_strlit("&apos;");
                    reveal_strlit("&quot;");
                    assert("&amp;"@ =~= seq!['&', 'a', 'm', 'p', ';']);
                    assert("&lt;"@ =~= seq!['&', 'l', 't', ';']);
                    assert("&gt;"@ =~= seq!['&', 'g', 't', ';']);
                    assert("&apos;"@ =~= seq!['&', 'a', 'p', 'o', 's', ';']);
                    assert("&quot;"@ =~= seq!['&', 'q', 'u', 'o', 't', ';']);
                    lemma_escaped_push(from@.take(done), c);
                    assert(from@.take(done + 1) =~= from@.take(done).push(c));
                    assert(from@.skip(done).drop_first() =~= from@.skip(done + 1));
                    assert(text@.push(c) =~= text@ + seq![c]);
                    done = done + 1;
                }
                if c == '&' {
                    text.append("&amp;");
                } else if c == '<' {
                    text.append("&lt;");
                } else if c == '>' {
                    text.append("&gt;");
                } else if c == '\'' {
                    text.append("&apos;");
                } else if c == '"' {
                    text.append("&quot;");
                } else {
                    text.push(c);
                }
            },
            None => {
                proof {
                    assert(from@.take(done) =~= from@);
                }
                return text;
            },
        }
    }
}

/// Turns a label into a directory name: each slash and each white space character
/// becomes an underscore.
pub fn path_escape(from: &str) -> (name: String)
    ensures
        name@ == path_escaped(from@),
{
    let mut name = String::new();
    let mut it = from.chars();
    let ghost mut done: int = 0;
    loop
        invariant
            0 <= done <= from@.len(),
            it.remaining() == from@.skip(done),
            it.obeys_prophetic_iter_laws(),
            name@ == path_escaped(from@.take(done)),
        decreases from@.len() - done,
    {
        match it.next() {
            Some(c) => {
                proof {
                    assert(from@.take(done + 1) =~= from@.take(done).push(c));
                    assert(path_escaped(from@.take(done + 1)) =~= path_escaped(
                        from@.take(done),
                    ).push(if c == '/' || whitespace(c) { '_' } else { c }));
                    assert(from@.skip(done).drop_first() =~= from@.skip(done + 1));
                    done = done + 1;
                }
                if c == '/' || is_whitespace(c) {
                    name.push('_');
                } else {
                    name.push(c);
                }
            },
            None => {
                proof {
                    assert(from@.take(done) =~= from@);
                }
                return name;
            },
        }
    }
}

/// Whether an issue stored with state `state` goes into a feed: an open one where
/// open issues are included, a closed one where closed issues are included. An issue
/// whose state cannot be read is selected, so that it is reported.
pub open spec fn state_selected(state: i64, include_open: bool, include_closed: bool) -> bool {
    if state == STATE_OPEN {
        include_open
    } else if state == STATE_CLOSED {
        include_closed
    } else {
        true
    }
}

/// Whether `issue` goes into the feed of the label with identifier `label` of
/// repository `repo`.
pub open spec fn selected(
    store: StoreView,
    repo: i64,
    label: i64,
    include_open: bool,
    include_closed: bool,
    issue: IssueView,
) -> bool {
    issue.repo == repo && state_selected(issue.state, include_open, include_closed)
        && store.links.contains(IssueLabel { repo, issue: issue.number, label })
}

/// The issues of the feed of label `label` of repository `repo`: the issues of the
/// repository that carry the label and whose state is included, the greatest number
/// first. None where the repository has no such label.
pub open spec fn feed_issues(
    store: StoreView,
    repo: i64,
    label: Seq<char>,
    include_open: bool,
    include_closed: bool,
) -> Seq<IssueView> {
    match find_label(store.labels, repo, label) {
        Some(id) => backwards(
            store.issues,
            |issue: IssueView| selected(store, repo, id, include_open, include_closed, issue),
        ),
        None => Seq::empty(),
    }
}

/// The issues of the feed of label `label` of repository `repo_id`, the greatest
/// number first.
pub fn query_issues_for_label(
    store: &Store,
    repo_id: i64,
    label: &str,
    include_open: bool,
    include_closed: bool,
) -> (issues: Vec<Issue>)
    ensures
        issue_views(issues@) == feed_issues(store@, repo_id, label@, include_open, include_closed),
{
    let mut issues: Vec<Issue> = Vec::new();
    let id = match store.label_id(repo_id, label) {
        Some(id) => id,
        None => {
            proof {
                assert(issue_views(issues@) =~= Seq::<IssueView>::empty());
            }
            return issues;
        },
    };
    let rows = store.issues();
    let ghost views = store@.issues;
    let ghost keep = |issue: IssueView|
        selected(store@, repo_id, id, include_open, include_closed, issue);
    let mut k: usize = rows.len();
    proof {
        assert(views.take(k as int) =~= views);
        assert(issue_views(issues@) =~= Seq::<IssueView>::empty());
        assert(Seq::<IssueView>::empty() + backwards(views, keep) =~= backwards(views, keep));
    }
    while k > 0
        invariant
            0 <= k <= rows.len(),
            issue_views(rows@) == views,
            views == store@.issues,
            keep == |issue: IssueView|
                selected(store@, repo_id, id, include_open, include_closed, issue),
            backwards(views, keep) == issue_views(issues@) + backwards(views.take(k as int), keep),
        decreases k,
    {
        k = k - 1;
        let row = &rows[k];
        proof {
            let upto = views.take(k + 1);
            assert(upto.drop_last() =~= views.take(k as int));
            assert(upto.last() == row@);
        }
        let wanted = row.repo == repo_id && (if row.state == STATE_OPEN {
            include_open
        } else if row.state == STATE_CLOSED {
            include_closed
        } else {
            true
        }) && store.has_link(repo_id, row.number, id);
        if wanted {
            let ghost before = issue_views(issues@);
            issues.push(row.clone());
            proof {
                assert(issue_views(issues@) =~= before.push(row@));
                assert(before.push(row@) + backwards(views.take(k as int), keep) =~= before + (
                seq![row@] + backwards(views.take(k as int), keep)));
            }
        }
    }
    proof {
        assert(views.take(0) =~= Seq::<IssueView>::empty());
        assert(issue_views(issues@) + Seq::<IssueView>::empty() =~= issue_views(issues@));
    }
    issues
}

fn name_of_label(store: &Store, id: i64) -> (name: Option<String>)
    ensures
        name is Some == label_name(store@.labels, id) is Some,
        name is Some ==> name->0@ == label_name(store@.labels, id)->0,
{
    let rows = store.labels();
    let ghost views = store@.labels;
    let mut i: usize = 0;
    proof {
        assert(views.skip(0) =~= views);
    }
    while i < rows.len()
        invariant
            0 <= i <= rows.len(),
            label_views(rows@) == views,
            views == store@.labels,
            label_name(views, id) == label_name(views.skip(i as int), id),
        decreases rows.len() - i,
    {
        let row = &rows[i];
        proof {
            assert(views.skip(i as int)[0] == row@);
            assert(views.skip(i as int).drop_first() =~= views.skip(i + 1));
        }
        if row.id == id {
            return Some(row.name.clone());
        }
        i = i + 1;
    }
    None
}

/// The names of the labels attached to issue `number` of repository `repo`.
pub fn labels_of_issue(store: &Store, repo: i64, number: i64) -> (names: Vec<String>)
    ensures
        texts(names@) == names_of_issue(store@.links, store@.labels, repo, number),
{
    let links = store.links();
    let mut names: Vec<String> = Vec::new();
    let mut i: usize = 0;
    proof {
        assert(links@.take(0) =~= Seq::<IssueLabel>::empty());
        assert(texts(names@) =~= Seq::<Seq<char>>::empty());
    }
    while i < links.len()
        invariant
            0 <= i <= links.len(),
            links@ == store@.links,
            texts(names@) == names_of_issue(links@.take(i as int), store@.labels, repo, number),
        decreases links.len() - i,
    {
        let link = links[i];
        proof {
            assert(links@.take(i + 1).drop_last() =~= links@.take(i as int));
            assert(links@.take(i + 1).last() == link);
        }
        if link.repo == repo && link.issue == number {
            match name_of_label(store, link.label) {
                Some(name) => {
                    let ghost before = texts(names@);
                    names.push(name);
                    proof {
                        assert(texts(names@) =~= before.push(name@));
                    }
                },
                None => {},
            }
        }
        i = i + 1;
    }
    proof {
        assert(links@.take(i as int) =~= links@);
    }
    names
}

/// The name under which a state is a category of a feed entry.
pub open spec fn state_name(state: i64) -> Option<Seq<char>> {
    if state == STATE_OPEN {
        Some("open"@)
    } else if state == STATE_CLOSED {
        Some("closed"@)
    } else {
        None
    }
}

/// The categories of `issue` in a feed: the name of its state, then the names of
/// its labels. None where the state cannot be read.
pub open spec fn issue_categories(store: StoreView, issue: IssueView) -> Option<Seq<Seq<char>>> {
    match state_name(issue.state) {
        Some(state) => Some(
            seq![state] + names_of_issue(store.links, store.labels, issue.repo, issue.number),
        ),
        None => None,
    }
}

/// The categories of `issue` in a feed.
pub fn categories_of(store: &Store, issue: &Issue) -> (categories: Result<Vec<String>, Error>)
    ensures
        match issue_categories(store@, issue@) {
            Some(names) => categories is Ok && texts(categories->Ok_0@) == names,
            None => categories is Err && categories->Err_0 == Error::InvalidIssueState,
        },
{
    let state = match IssueState::from_integer(issue.state) {
        Some(state) => state,
        None => {
            return Err(Error::InvalidIssueState);
        },
    };
    let mut categories: Vec<String> = Vec::new();
    match state.to_string() {
        Some(name) => {
            categories.push(name);
        },
        None => {},
    }
    proof {
        assert(texts(categories@) =~= seq![state_name(issue.state)->0]);
    }
    let labels = labels_of_issue(store, issue.repo, issue.number);
    let mut i: usize = 0;
    while i < labels.len()
        invariant
            0 <= i <= labels.len(),
            texts(categories@) == seq![state_name(issue.state)->0] + texts(labels@).take(i as int),
        decreases labels.len() - i,
    {
        let ghost before = texts(categories@);
        categories.push(labels[i].clone());
        proof {
            assert(texts(categories@) =~= before.push(labels@[i as int]@));
            assert(texts(labels@).take(i + 1) =~= texts(labels@).take(i as int).push(
                labels@[i as int]@,
            ));
        }
        i = i + 1;
    }
    proof {
        assert(texts(labels@).take(i as int) =~= texts(labels@));
    }
    Ok(categories)
}

/// The address of the profile of the account `login`.
pub open spec fn profile_url(login: Seq<char>) -> Seq<char> {
    "https://github.com/"@ + login
}

/// The values of the Atom entry of `issue` with the categories `categories`: the
/// escaped title, the escaped address of the issue as id, the update time, the
/// escaped login of the author and the escaped address of the profile, and the
/// escaped body as HTML content. The terms of the categories and the address of the
/// link, which are values of attributes, are the names and the address themselves.
pub open spec fn atom_entry_fields(issue: IssueView, categories: Seq<Seq<char>>) -> AtomEntryView {
    AtomEntryView {
        title: escaped(issue.title),
        id: escaped(issue.html_url),
        updated: issue.updated_at,
        author_name: escaped(issue.user_login),
        author_uri: escaped(profile_url(issue.user_login)),
        categories,
        link: issue.html_url,
        content_type: "html"@,
        content: escaped(issue.body),
    }
}

/// The escaped form of each text of `names`.
pub open spec fn all_escaped(names: Seq<Seq<char>>) -> Seq<Seq<char>> {
    names.map_values(|name: Seq<char>| escaped(name))
}

/// The values of the RSS item of `issue` with the categories `categories`, its
/// update time being written as `pub_date`: the escaped title, the escaped address
/// of the issue as link, the escaped names of the categories, and the escaped body
/// as content.
pub open spec fn rss_item_dated(
    issue: IssueView,
    categories: Seq<Seq<char>>,
    pub_date: Seq<char>,
) -> RssItemView {
    RssItemView {
        title: escaped(issue.title),
        link: escaped(issue.html_url),
        pub_date,
        categories: all_escaped(categories),
        content: escaped(issue.body),
    }
}

/// The values of the RSS item of `issue` with the categories `categories`; none
/// where the update time lies outside the years that RFC 2822 can write.
pub open spec fn rss_item_fields(issue: IssueView, categories: Seq<Seq<char>>) -> Option<
    RssItemView,
> {
    if rfc2822_writes(issue.updated_at) {
        Some(rss_item_dated(issue, categories, rfc2822_text(issue.updated_at)))
    } else {
        None
    }
}

/// A copy of `strings`.
pub fn clone_texts(strings: &Vec<String>) -> (copy: Vec<String>)
    ensures
        copy@ == strings@,
{
    let mut copy: Vec<String> = Vec::new();
    let mut i: usize = 0;
    while i < strings.len()
        invariant
            0 <= i <= strings.len(),
            copy@ == strings@.take(i as int),
        decreases strings.len() - i,
    {
        copy.push(strings[i].clone());
        proof {
            assert(strings@.take(i + 1) =~= strings@.take(i as int).push(strings@[i as int]));
        }
        i = i + 1;
    }
    proof {
        assert(strings@.take(i as int) =~= strings@);
    }
    copy
}

fn escape_texts(strings: &Vec<String>) -> (escaped_strings: Vec<String>)
    ensures
        texts(escaped_strings@) == all_escaped(texts(strings@)),
{
    let mut escaped_strings: Vec<String> = Vec::new();
    let mut i: usize = 0;
    while i < strings.len()
        invariant
            0 <= i <= strings.len(),
            escaped_strings@.len() == i,
            forall|k: int| 0 <= k < i ==> (#[trigger] escaped_strings@[k])@ == escaped(strings@[k]@),
        decreases strings.len() - i,
    {
        escaped_strings.push(xml_entity_escape(strings[i].as_str()));
        i = i + 1;
    }
    proof {
        assert(texts(escaped_strings@) =~= all_escaped(texts(strings@)));
    }
    escaped_strings
}

/// The values of the Atom entry of `issue` with the categories `labels`.
pub fn atom_entry(issue: &Issue, labels: &Vec<String>) -> (fields: AtomEntry)
    ensures
        fields@ == atom_entry_fields(issue@, texts(labels@)),
{
    let mut profile = "https://github.com/".to_owned();
    profile.append(issue.user_login.as_str());
    AtomEntry {
        title: xml_entity_escape(issue.title.as_str()),
        id: xml_entity_escape(issue.html_url.as_str()),
        updated: issue.updated_at,
        author_name: xml_entity_escape(issue.user_login.as_str()),
        author_uri: xml_entity_escape(profile.as_str()),
        categories: clone_texts(labels),
        link: issue.html_url.clone(),
        content_type: "html".to_owned(),
        content: xml_entity_escape(issue.body.as_str()),
    }
}

/// The values of the RSS item of `issue` with the categories `labels`, its update
/// time being written as `pub_date`.
pub fn rss_item_with_date(issue: &Issue, labels: &Vec<String>, pub_date: String) -> (fields:
    RssItem)
    ensures
        fields@ == rss_item_dated(issue@, texts(labels@), pub_date@),
{
    RssItem {
        title: xml_entity_escape(issue.title.as_str()),
        link: xml_entity_escape(issue.html_url.as_str()),
        pub_date,
        categories: escape_texts(labels),
        content: xml_entity_escape(issue.body.as_str()),
    }
}

/// The values of the RSS item of `issue` with the categories `labels`.
pub fn rss_item(issue: &Issue, labels: &Vec<String>) -> (fields: Option<RssItem>)
    ensures
        fields is Some == rss_item_fields(issue@, texts(labels@)) is Some,
        fields is Some ==> fields->0@ == rss_item_fields(issue@, texts(labels@))->0,
{
    match format_rfc2822(issue.updated_at) {
        Some(pub_date) => Some(rss_item_with_date(issue, labels, pub_date)),
        None => None,
    }
}

/// The Atom entry of `issue` with the categories `labels`; none where it cannot be
/// built.
pub open spec fn atom_entry_of(issue: IssueView, categories: Seq<Seq<char>>) -> Option<
    atom_syndication::Entry,
> {
    atom_entry_built(atom_entry_fields(issue, categories))
}

/// The RSS item of `issue` with the categories `labels`; none where it cannot be
/// built.
pub open spec fn rss_item_of(issue: IssueView, categories: Seq<Seq<char>>) -> Option<rss::Item> {
    match rss_item_fields(issue, categories) {
        Some(fields) => rss_item_built(fields),
        None => None,
    }
}

/// Renders `issue` as an Atom entry with the categories `labels`: escaped title, the
/// address of the issue as id and link, the update time, the author with the address
/// of the profile, and the escaped body as HTML content.
pub fn issue_to_atom_entry(issue: &Issue, labels: &Vec<String>) -> (entry: Result<
    atom_syndication::Entry,
    Error,
>)
    ensures
        match atom_entry_of(issue@, texts(labels@)) {
            Some(built) => entry == Ok::<atom_syndication::Entry, Error>(built),
            None => entry == Err::<atom_syndication::Entry, Error>(Error::UnbuildableFeed),
        },
{
    match build_atom_entry(atom_entry(issue, labels)) {
        Some(built) => Ok(built),
        None => Err(Error::UnbuildableFeed),
    }
}

/// Renders `issue` as an RSS item with the categories `labels`: escaped title and
/// link, the update time as publication date, and the escaped body as content.
pub fn issue_to_rss_item(issue: &Issue, labels: &Vec<String>) -> (item: Result<rss::Item, Error>)
    ensures
        match rss_item_of(issue@, texts(labels@)) {
            Some(built) => item == Ok::<rss::Item, Error>(built),
            None => item == Err::<rss::Item, Error>(Error::UnbuildableFeed),
        },
{
    let fields = match rss_item(issue, labels) {
        Some(fields) => fields,
        None => {
            return Err(Error::UnbuildableFeed);
        },
    };
    match build_rss_item(fields) {
        Some(built) => Ok(built),
        None => Err(Error::UnbuildableFeed),
    }
}

/// What is generated for one label: the directory of its feeds, and the documents
/// that were asked for.
#[derive(Debug)]
pub struct LabelFeed {
    pub label: String,
    /// The name of the directory, below the root of the output.
    pub directory: String,
    /// The Atom document, for `atom.xml`.
    pub atom: Option<String>,
    /// The RSS document, for `rss.xml`.
    pub rss: Option<String>,
}

/// What is generated for a label, with each text as the sequence of its characters.
pub struct LabelFeedView {
    pub label: Seq<char>,
    pub directory: Seq<char>,
    pub atom: Option<Seq<char>>,
    pub rss: Option<Seq<char>>,
}

impl View for LabelFeed {
    type V = LabelFeedView;

    open spec fn view(&self) -> LabelFeedView {
        LabelFeedView {
            label: self.label@,
            directory: self.directory@,
            atom: match self.atom {
                Some(document) => Some(document@),
                None => None,
            },
            rss: match self.rss {
                Some(document) => Some(document@),
                None => None,
            },
        }
    }
}

/// A file of a feed: its name in the directory of the feed, and the document that
/// it holds.
#[derive(Debug)]
pub struct FeedFile {
    pub name: String,
    pub document: String,
}

/// A file of a feed, with each text as the sequence of its characters.
pub struct FeedFileView {
    pub name: Seq<char>,
    pub document: Seq<char>,
}

impl View for FeedFile {
    type V = FeedFileView;

    open spec fn view(&self) -> FeedFileView {
        FeedFileView { name: self.name@, document: self.document@ }
    }
}

/// The files of a feed: `atom.xml` with the Atom document, then `rss.xml` with the
/// RSS document, each where the feed holds the document.
pub open spec fn feed_files(feed: LabelFeedView) -> Seq<FeedFileView> {
    (match feed.atom {
        Some(document) => seq![FeedFileView { name: "atom.xml"@, document }],
        None => Seq::empty(),
    }) + (match feed.rss {
        Some(document) => seq![FeedFileView { name: "rss.xml"@, document }],
        None => Seq::empty(),
    })
}

impl LabelFeed {
    /// The files that are written into the directory of the feed.
    pub fn files(&self) -> (files: Vec<FeedFile>)
        ensures
            files@.map_values(|file: FeedFile| file@) == feed_files(self@),
    {
        let mut files: Vec<FeedFile> = Vec::new();
        match &self.atom {
            Some(document) => {
                files.push(FeedFile { name: "atom.xml".to_owned(), document: document.clone() });
            },
            None => {},
        }
        match &self.rss {
            Some(document) => {
                files.push(FeedFile { name: "rss.xml".to_owned(), document: document.clone() });
            },
            None => {},
        }
        proof {
            assert(files@.map_values(|file: FeedFile| file@) =~= feed_files(self@));
        }
        files
    }
}

/// Each feed of `feeds` as its view.
pub open spec fn feed_views(feeds: Seq<LabelFeed>) -> Seq<LabelFeedView> {
    feeds.map_values(|feed: LabelFeed| feed@)
}

/// Whether `text`, by its length in bytes, is short enough for a segment of an
/// address.
pub open spec fn fits_segment(text: Seq<char>) -> bool {
    encode_utf8(text).len() as usize <= SEGMENT_LIMIT
}

/// The address of the list of the issues of `owner/name` that carry `label`; none
/// where one of the three is too long for a segment, or no such address can be
/// made.
pub open spec fn label_url(owner: Seq<char>, name: Seq<char>, label: Seq<char>) -> Option<
    Seq<char>,
> {
    if fits_segment(owner) && fits_segment(name) && fits_segment(label) {
        url_with_segments("https://github.com"@, owner, name, "labels"@, label)
    } else {
        None
    }
}

/// The address of the list of the issues of `owner/name` that carry `label`.
pub fn label_listing_url(owner: &str, name: &str, label: &str) -> (url: Option<String>)
    ensures
        url is Some == label_url(owner@, name@, label@) is Some,
        url is Some ==> url->0@ == label_url(owner@, name@, label@)->0,
{
    if owner.len() > SEGMENT_LIMIT || name.len() > SEGMENT_LIMIT || label.len() > SEGMENT_LIMIT {
        return None;
    }
    proof {
        reveal_strlit("https://github.com");
        reveal_strlit("labels");
        assert(is_ascii_chars("https://github.com"@));
        assert(is_ascii_chars("labels"@));
        is_ascii_chars_encode_utf8("https://github.com"@);
        is_ascii_chars_encode_utf8("labels"@);
    }
    build_url("https://github.com", owner, name, "labels", label)
}

/// The Atom entries and the RSS items of `issues`, in order, each kind where it is
/// asked for. The first issue whose state cannot be read, or whose entry or item
/// cannot be built, is an error.
pub open spec fn entries_built(store: StoreView, issues: Seq<IssueView>, atom: bool, rss: bool)
    -> Result<(Seq<atom_syndication::Entry>, Seq<rss::Item>), Error>
    decreases issues.len(),
{
    if issues.len() == 0 {
        Ok((Seq::empty(), Seq::empty()))
    } else {
        match entries_built(store, issues.drop_last(), atom, rss) {
            Err(e) => Err(e),
            Ok((entries, items)) => match issue_categories(store, issues.last()) {
                None => Err(Error::InvalidIssueState),
                Some(categories) => if atom && atom_entry_of(issues.last(), categories) is None {
                    Err(Error::UnbuildableFeed)
                } else if rss && rss_item_of(issues.last(), categories) is None {
                    Err(Error::UnbuildableFeed)
                } else {
                    Ok(
                        (
                            if atom {
                                entries.push(atom_entry_of(issues.last(), categories)->0)
                            } else {
                                entries
                            },
                            if rss {
                                items.push(rss_item_of(issues.last(), categories)->0)
                            } else {
                                items
                            },
                        ),
                    )
                },
            },
        }
    }
}

/// An error among the first `k` issues is the error of them all.
pub proof fn lemma_entries_error(
    store: StoreView,
    issues: Seq<IssueView>,
    atom: bool,
    rss: bool,
    k: int,
)
    requires
        0 <= k <= issues.len(),
        entries_built(store, issues.take(k), atom, rss) is Err,
    ensures
        entries_built(store, issues, atom, rss) == entries_built(store, issues.take(k), atom, rss),
    decreases issues.len() - k,
{
    if k < issues.len() {
        assert(issues.take(k + 1).drop_last() =~= issues.take(k));
        lemma_entries_error(store, issues, atom, rss, k + 1);
    } else {
        assert(issues.take(k) =~= issues);
    }
}

/// The head of the Atom feed of `label`, whose list of issues is at `url`: the
/// escaped label as title, the escaped address as id, and the address itself as the
/// address of the link.
pub open spec fn atom_head(label: Seq<char>, url: Seq<char>, generated_at: i64) -> AtomFeedView {
    AtomFeedView {
        title: escaped(label),
        id: escaped(url),
        updated: generated_at,
        link: url,
        link_rel: "alternate"@,
    }
}

/// The head of the RSS channel of `label`, whose list of issues is at `url`,
/// generated at the time that is written as `pub_date`: the escaped label as title,
/// and the address of the list as link.
pub open spec fn rss_head_dated(label: Seq<char>, url: Seq<char>, pub_date: Seq<char>)
    -> RssChannelView {
    RssChannelView { title: escaped(label), link: url, pub_date }
}

/// The head of the RSS channel of `label`, whose list of issues is at `url`.
pub open spec fn rss_head(label: Seq<char>, url: Seq<char>, generated_at: i64) -> RssChannelView {
    rss_head_dated(label, url, rfc2822_text(generated_at))
}

/// The head of the Atom feed of `label`, whose list of issues is at `url`.
pub fn atom_feed_head(label: &str, url: &str, generated_at: i64) -> (head: AtomFeed)
    ensures
        head@ == atom_head(label@, url@, generated_at),
{
    AtomFeed {
        title: xml_entity_escape(label),
        id: xml_entity_escape(url),
        updated: generated_at,
        link: url.to_owned(),
        link_rel: "alternate".to_owned(),
    }
}

/// The head of the RSS channel of `label`, whose list of issues is at `url`,
/// generated at the time that is written as `pub_date`.
pub fn rss_channel_head(label: &str, url: &str, pub_date: String) -> (head: RssChannel)
    ensures
        head@ == rss_head_dated(label@, url@, pub_date@),
{
    RssChannel { title: xml_entity_escape(label), link: url.to_owned(), pub_date }
}

/// What is generated for `label` of repository `repo`, which is `owner/name`: the
/// directory named after the label, and the documents that `opts` asks for, over the
/// issues that `opts` includes.
pub open spec fn label_feed(
    store: StoreView,
    repo: i64,
    owner: Seq<char>,
    name: Seq<char>,
    label: Seq<char>,
    opts: GenerateOpts,
    generated_at: i64,
) -> Result<LabelFeedView, Error> {
    match label_url(owner, name, label) {
        None => Err(Error::UnbuildableFeed),
        Some(url) => match entries_built(
            store,
            feed_issues(store, repo, label, !opts.without_open, !opts.without_closed),
            opts.atom,
            opts.rss,
        ) {
            Err(e) => Err(e),
            Ok((entries, items)) => {
                let atom = atom_document(atom_head(label, url, generated_at), entries);
                let rss = rss_document(rss_head(label, url, generated_at), items);
                if opts.atom && atom is None {
                    Err(Error::UnbuildableFeed)
                } else if opts.rss && (!rfc2822_writes(generated_at) || rss is None) {
                    Err(Error::UnbuildableFeed)
                } else {
                    Ok(
                        LabelFeedView {
                            label,
                            directory: path_escaped(label),
                            atom: if opts.atom {
                                atom
                            } else {
                                None
                            },
                            rss: if opts.rss {
                                rss
                            } else {
                                None
                            },
                        },
                    )
                }
            },
        },
    }
}

/// What is generated for each of `labels`, in order; the first error ends it.
pub open spec fn label_feeds(
    store: StoreView,
    repo: i64,
    owner: Seq<char>,
    name: Seq<char>,
    labels: Seq<Seq<char>>,
    opts: GenerateOpts,
    generated_at: i64,
) -> Result<Seq<LabelFeedView>, Error>
    decreases labels.len(),
{
    if labels.len() == 0 {
        Ok(Seq::empty())
    } else {
        match label_feeds(store, repo, owner, name, labels.drop_last(), opts, generated_at) {
            Err(e) => Err(e),
            Ok(feeds) => match label_feed(
                store,
                repo,
                owner,
                name,
                labels.last(),
                opts,
                generated_at,
            ) {
                Err(e) => Err(e),
                Ok(feed) => Ok(feeds.push(feed)),
            },
        }
    }
}

/// An error among the first `k` labels is the error of them all.
pub proof fn lemma_feeds_error(
    store: StoreView,
    repo: i64,
    owner: Seq<char>,
    name: Seq<char>,
    labels: Seq<Seq<char>>,
    opts: GenerateOpts,
    generated_at: i64,
    k: int,
)
    requires
        0 <= k <= labels.len(),
        label_feeds(store, repo, owner, name, labels.take(k), opts, generated_at) is Err,
    ensures
        label_feeds(store, repo, owner, name, labels, opts, generated_at) == label_feeds(
            store,
            repo,
            owner,
            name,
            labels.take(k),
            opts,
            generated_at,
        ),
    decreases labels.len() - k,
{
    if k < labels.len() {
        assert(labels.take(k + 1).drop_last() =~= labels.take(k));
        lemma_feeds_error(store, repo, owner, name, labels, opts, generated_at, k + 1);
    } else {
        assert(labels.take(k) =~= labels);
    }
}

/// The labels for which feeds are generated: those asked for, and every label of
/// `owner/name` in the store where none is asked for.
pub open spec fn labels_chosen(
    store: StoreView,
    owner: Seq<char>,
    name: Seq<char>,
    asked: Seq<Seq<char>>,
) -> Seq<Seq<char>> {
    if asked.len() > 0 {
        asked
    } else {
        match find_repository(store.repositories, owner, name) {
            Some(repo) => label_names(store.labels, repo),
            None => Seq::empty(),
        }
    }
}

/// The store after the `generate` command: the repository is resolved where `repo`
/// names one.
pub open spec fn store_generated(store: StoreView, repo: Seq<char>) -> StoreView {
    match repo_parts(repo) {
        Some((owner, name)) => store.with_resolved(owner, name),
        None => store,
    }
}

/// What the `generate` command generates at the time `generated_at`: the repository
/// is resolved, and each chosen label gets its feeds.
pub open spec fn generated(store: StoreView, opts: GenerateOpts, generated_at: i64) -> Result<
    Seq<LabelFeedView>,
    Error,
> {
    match repo_parts(opts.repo@) {
        None => Err(Error::InvalidRepoFormat),
        Some((owner, name)) => match store.resolved(owner, name) {
            Err(e) => Err(e),
            Ok((after, repo)) => label_feeds(
                after,
                repo,
                owner,
                name,
                labels_chosen(store, owner, name, texts(opts.labels@)),
                opts,
                generated_at,
            ),
        },
    }
}

fn names_of_labels(store: &Store, repo: i64) -> (names: Vec<String>)
    ensures
        texts(names@) == label_names(store@.labels, repo),
{
    let rows = store.labels();
    let ghost views = store@.labels;
    let mut names: Vec<String> = Vec::new();
    let mut i: usize = 0;
    proof {
        assert(views.take(0) =~= Seq::<LabelView>::empty());
        assert(texts(names@) =~= Seq::<Seq<char>>::empty());
    }
    while i < rows.len()
        invariant
            0 <= i <= rows.len(),
            label_views(rows@) == views,
            texts(names@) == label_names(views.take(i as int), repo),
        decreases rows.len() - i,
    {
        let row = &rows[i];
        proof {
            assert(views.take(i + 1).drop_last() =~= views.take(i as int));
            assert(views.take(i + 1).last() == row@);
        }
        if row.repo == repo {
            let ghost before = texts(names@);
            names.push(row.name.clone());
            proof {
                assert(texts(names@) =~= before.push(row@.name));
            }
        }
        i = i + 1;
    }
    proof {
        assert(views.take(i as int) =~= views);
    }
    names
}

fn generate_label(
    store: &Store,
    repo: i64,
    owner: &str,
    name: &str,
    label: &str,
    opts: &GenerateOpts,
    generated_at: i64,
) -> (feed: Result<LabelFeed, Error>)
    ensures
        match label_feed(store@, repo, owner@, name@, label@, *opts, generated_at) {
            Ok(expected) => feed is Ok && feed->Ok_0@ == expected,
            Err(e) => feed is Err && feed->Err_0 == e,
        },
{
    let directory = path_escape(label);
    let issues = query_issues_for_label(
        store,
        repo,
        label,
        !opts.without_open,
        !opts.without_closed,
    );
    let url = match label_listing_url(owner, name, label) {
        Some(url) => url,
        None => {
            return Err(Error::UnbuildableFeed);
        },
    };
    let ghost views = issue_views(issues@);
    let mut entries: Vec<atom_syndication::Entry> = Vec::new();
    let mut items: Vec<rss::Item> = Vec::new();
    let mut i: usize = 0;
    proof {
        assert(views.take(0) =~= Seq::<IssueView>::empty());
    }
    while i < issues.len()
        invariant
            0 <= i <= issues.len(),
            views == issue_views(issues@),
            views == feed_issues(store@, repo, label@, !opts.without_open, !opts.without_closed),
            label_url(owner@, name@, label@) == Some(url@),
            entries_built(store@, views.take(i as int), opts.atom, opts.rss) == Ok::<
                (Seq<atom_syndication::Entry>, Seq<rss::Item>),
                Error,
            >((entries@, items@)),
        decreases issues.len() - i,
    {
        let issue = &issues[i];
        proof {
            assert(views.take(i + 1).drop_last() =~= views.take(i as int));
            assert(views.take(i + 1).last() == issue@);
        }
        let categories = match categories_of(store, issue) {
            Ok(categories) => categories,
            Err(e) => {
                proof {
                    assert(entries_built(store@, views.take(i + 1), opts.atom, opts.rss) is Err);
                    lemma_entries_error(store@, views, opts.atom, opts.rss, i + 1);
                }
                return Err(e);
            },
        };
        if opts.atom {
            match issue_to_atom_entry(issue, &categories) {
                Ok(entry) => {
                    entries.push(entry);
                },
                Err(e) => {
                    proof {
                        assert(entries_built(store@, views.take(i + 1), opts.atom, opts.rss) is Err);
                        lemma_entries_error(store@, views, opts.atom, opts.rss, i + 1);
                    }
                    return Err(e);
                },
            }
        }
        if opts.rss {
            match issue_to_rss_item(issue, &categories) {
                Ok(item) => {
                    items.push(item);
                },
                Err(e) => {
                    proof {
                        assert(entries_built(store@, views.take(i + 1), opts.atom, opts.rss) is Err);
                        lemma_entries_error(store@, views, opts.atom, opts.rss, i + 1);
                    }
                    return Err(e);
                },
            }
        }
        i = i + 1;
    }
    proof {
        assert(views.take(i as int) =~= views);
    }
    let atom = if opts.atom {
        match write_atom_feed(atom_feed_head(label, url.as_str(), generated_at), entries) {
            Some(document) => Some(document),
            None => {
                return Err(Error::UnbuildableFeed);
            },
        }
    } else {
        None
    };
    let rss = if opts.rss {
        let pub_date = match format_rfc2822(generated_at) {
            Some(text) => text,
            None => {
                return Err(Error::UnbuildableFeed);
            },
        };
        match write_rss_channel(rss_channel_head(label, url.as_str(), pub_date), items) {
            Some(document) => Some(document),
            None => {
                return Err(Error::UnbuildableFeed);
            },
        }
    } else {
        None
    };
    Ok(LabelFeed { label: label.to_owned(), directory, atom, rss })
}

/// Generates the feeds of a repository at the time `generated_at`, in seconds since
/// the Unix epoch: one directory for each chosen label, with the Atom and the RSS
/// document as `opts` asks for them, over the issues whose state `opts` includes.
/// The repository is stored first where it is new.
pub fn run(store: &mut Store, opts: &GenerateOpts, generated_at: i64) -> (feeds: Result<
    Vec<LabelFeed>,
    Error,
>)
    ensures
        final(store)@ == store_generated(old(store)@, opts.repo@),
        match generated(old(store)@, *opts, generated_at) {
            Ok(expected) => feeds is Ok && feed_views(feeds->Ok_0@) == expected,
            Err(e) => feeds is Err && feeds->Err_0 == e,
        },
{
    let (owner, name) = match parse_repo(opts.repo.as_str()) {
        Ok(parts) => parts,
        Err(e) => {
            return Err(e);
        },
    };
    let labels = if opts.labels.len() > 0 {
        clone_texts(&opts.labels)
    } else {
        match store.repository_id(owner.as_str(), name.as_str()) {
            Some(repo) => names_of_labels(store, repo),
            None => Vec::new(),
        }
    };
    proof {
        assert(texts(labels@) =~= labels_chosen(old(store)@, owner@, name@, texts(opts.labels@)));
    }
    let repo = match crate::query::repo_id(store, owner.as_str(), name.as_str()) {
        Ok(repo) => repo,
        Err(e) => {
            return Err(e);
        },
    };
    let ghost chosen = texts(labels@);
    let mut feeds: Vec<LabelFeed> = Vec::new();
    let mut i: usize = 0;
    proof {
        assert(chosen.take(0) =~= Seq::<Seq<char>>::empty());
        assert(feed_views(feeds@) =~= Seq::<LabelFeedView>::empty());
    }
    while i < labels.len()
        invariant
            0 <= i <= labels.len(),
            chosen == texts(labels@),
            repo_parts(opts.repo@) == Some((owner@, name@)),
            old(store)@.resolved(owner@, name@) == Ok::<(StoreView, i64), Error>((store@, repo)),
            chosen == labels_chosen(old(store)@, owner@, name@, texts(opts.labels@)),
            label_feeds(store@, repo, owner@, name@, chosen.take(i as int), *opts, generated_at)
                == Ok::<Seq<LabelFeedView>, Error>(feed_views(feeds@)),
        decreases labels.len() - i,
    {
        proof {
            assert(chosen.take(i + 1).drop_last() =~= chosen.take(i as int));
            assert(chosen.take(i + 1).last() == labels@[i as int]@);
        }
        match generate_label(
            store,
            repo,
            owner.as_str(),
            name.as_str(),
            labels[i].as_str(),
            opts,
            generated_at,
        ) {
            Ok(feed) => {
                let ghost before = feed_views(feeds@);
                feeds.push(feed);
                proof {
                    assert(feed_views(feeds@) =~= before.push(feed@));
                }
            },
            Err(e) => {
                proof {
                    assert(label_feeds(
                        store@,
                        repo,
                        owner@,
                        name@,
                        chosen.take(i + 1),
                        *opts,
                        generated_at,
                    ) is Err);
                    lemma_feeds_error(store@, repo, owner@, name@, chosen, *opts, generated_at, i + 1);
                }
                return Err(e);
            },
        }
        i = i + 1;
    }
    proof {
        assert(chosen.take(i as int) =~= chosen);
    }
    Ok(feeds)
}

/// `backwards` holds exactly the rows that satisfy `keep`.
pub proof fn lemma_backwards_members(rows: Seq<IssueView>, keep: spec_fn(IssueView) -> bool)
    ensures
        forall|x: IssueView| #[trigger]
            backwards(rows, keep).contains(x) <==> rows.contains(x) && keep(x),
    decreases rows.len(),
{
    let back = backwards(rows, keep);
    if rows.len() > 0 {
        let rest = rows.drop_last();
        let before = backwards(rest, keep);
        lemma_backwards_members(rest, keep);
        assert forall|x: IssueView| #[trigger] back.contains(x) <==> rows.contains(x) && keep(x) by {
            if back.contains(x) {
                let k = choose|k: int| 0 <= k < back.len() && back[k] == x;
                if keep(rows.last()) && k == 0 {
                    assert(rows[rows.len() - 1] == x);
                } else {
                    let m = if keep(rows.last()) { k - 1 } else { k };
                    assert(before[m] == x);
                    assert(before.contains(x));
                    assert(rest.contains(x));
                    let j = choose|j: int| 0 <= j < rest.len() && rest[j] == x;
                    assert(rows[j] == x);
                }
            }
            if rows.contains(x) && keep(x) {
                let j = choose|j: int| 0 <= j < rows.len() && rows[j] == x;
                if j == rows.len() - 1 {
                    assert(back[0] == x);
                } else {
                    assert(rest[j] == x);
                    assert(rest.contains(x));
                    assert(before.contains(x));
                    let k = choose|k: int| 0 <= k < before.len() && before[k] == x;
                    let m = if keep(rows.last()) { k + 1 } else { k };
                    assert(back[m] == x);
                }
            }
        }
    } else {
        assert forall|x: IssueView| #[trigger] back.contains(x) <==> rows.contains(x) && keep(x) by {}
    }
}

/// `backwards` of a table in key order stands in the opposite order.
pub proof fn lemma_backwards_descending(rows: Seq<IssueView>, keep: spec_fn(IssueView) -> bool)
    requires
        issues_ascending(rows),
    ensures
        forall|a: int, b: int|
            0 <= a < b < backwards(rows, keep).len() ==> issue_lt(
                #[trigger] backwards(rows, keep)[b],
                #[trigger] backwards(rows, keep)[a],
            ),
    decreases rows.len(),
{
    let back = backwards(rows, keep);
    if rows.len() > 0 {
        let rest = rows.drop_last();
        let before = backwards(rest, keep);
        assert forall|i: int, j: int| 0 <= i < j < rest.len() implies issue_lt(
            #[trigger] rest[i],
            #[trigger] rest[j],
        ) by {
            assert(issue_lt(rows[i], rows[j]));
        }
        lemma_backwards_descending(rest, keep);
        lemma_backwards_members(rest, keep);
        assert forall|a: int, b: int| 0 <= a < b < back.len() implies issue_lt(
            #[trigger] back[b],
            #[trigger] back[a],
        ) by {
            if keep(rows.last()) {
                assert(back[b] == before[b - 1]);
                if a == 0 {
                    assert(before.contains(before[b - 1]));
                    assert(rest.contains(before[b - 1]));
                    let j = choose|j: int| 0 <= j < rest.len() && rest[j] == before[b - 1];
                    assert(issue_lt(rows[j], rows[rows.len() - 1]));
                } else {
                    assert(back[a] == before[a - 1]);
                }
            }
        }
    }
}

/// A feed from which open issues are left out and closed ones are
/// not holds no open issue, and holds every closed issue of the repository that
/// carries the label.
pub proof fn law_state_filter(store: StoreView, repo: i64, label: Seq<char>)
    ensures
        forall|i: int|
            0 <= i < feed_issues(store, repo, label, false, true).len() ==> (#[trigger] feed_issues(
                store,
                repo,
                label,
                false,
                true,
            )[i]).state != STATE_OPEN,
        forall|issue: IssueView| #[trigger]
            store.issues.contains(issue) && issue.repo == repo && issue.state == STATE_CLOSED
                && find_label(store.labels, repo, label) is Some && store.links.contains(
                IssueLabel {
                    repo,
                    issue: issue.number,
                    label: find_label(store.labels, repo, label)->0,
                },
            ) ==> feed_issues(store, repo, label, false, true).contains(issue),
{
    let feed = feed_issues(store, repo, label, false, true);
    match find_label(store.labels, repo, label) {
        Some(id) => {
            let keep = |issue: IssueView| selected(store, repo, id, false, true, issue);
            lemma_backwards_members(store.issues, keep);
            assert forall|i: int| 0 <= i < feed.len() implies (#[trigger] feed[i]).state
                != STATE_OPEN by {
                assert(feed.contains(feed[i]));
            }
        },
        None => {},
    }
}

/// The issues of a feed are issues of the repository that carry the label, each
/// once, the greatest number first.
pub proof fn law_feed_order(
    store: StoreView,
    repo: i64,
    label: Seq<char>,
    include_open: bool,
    include_closed: bool,
)
    requires
        store.wf(),
    ensures
        forall|a: int, b: int|
            0 <= a < b < feed_issues(store, repo, label, include_open, include_closed).len() ==> (
            #[trigger] feed_issues(store, repo, label, include_open, include_closed)[a]).number > (
            #[trigger] feed_issues(store, repo, label, include_open, include_closed)[b]).number,
{
    let feed = feed_issues(store, repo, label, include_open, include_closed);
    match find_label(store.labels, repo, label) {
        Some(id) => {
            let keep = |issue: IssueView|
                selected(store, repo, id, include_open, include_closed, issue);
            lemma_wf_order(store);
            lemma_backwards_members(store.issues, keep);
            lemma_backwards_descending(store.issues, keep);
            assert forall|a: int, b: int| 0 <= a < b < feed.len() implies (#[trigger] feed[a]).number
                > (#[trigger] feed[b]).number by {
                assert(feed.contains(feed[a]) && feed.contains(feed[b]));
                assert(issue_lt(feed[b], feed[a]));
            }
        },
        None => {},
    }
}

} // verus!
