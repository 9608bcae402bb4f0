//! Atom feeds alone: one feed for each label, over all issues that carry the
//! label or over the open ones.

use vstd::prelude::*;

use crate::documents::{atom_document, write_atom_feed};
use crate::error::Error;
use crate::escape::{escaped, path_escaped};
use crate::generate::{
    atom_entry_of, atom_feed_head, atom_head, clone_texts, feed_views, issue_to_atom_entry,
    label_listing_url, label_url, labels_chosen, labels_of_issue, path_escape, state_name,
    xml_entity_escape, LabelFeed, LabelFeedView,
};
use crate::query::issues::{IssueState, STATE_OPEN};
use crate::store::{
    backwards, find_label, issue_views, label_names, label_views, names_of_issue, Issue, IssueLabel,
    IssueView, LabelView, Store, StoreView,
};
use crate::text::texts;

verus! {

/// Replaces each of `& < > ' "` by its XML entity.
pub fn entity_escape(from: &str) -> (text: String)
    ensures
        text@ == escaped(from@),
{
    xml_entity_escape(from)
}

/// Whether `issue` goes into the Atom feed of the label with identifier `label` of
/// repository `repo`: it carries the label, and it is open where only open issues
/// are asked for.
pub open spec fn selected(
    store: StoreView,
    repo: i64,
    label: i64,
    only_open: bool,
    issue: IssueView,
) -> bool {
    issue.repo == repo && (!only_open || issue.state == STATE_OPEN) && store.links.contains(
        IssueLabel { repo, issue: issue.number, label },
    )
}

/// The issues of the Atom feed of label `label` of repository `repo`, the greatest
/// number first. None where the repository has no such label.
pub open spec fn feed_issues(store: StoreView, repo: i64, label: Seq<char>, only_open: bool) -> Seq<
    IssueView,
> {
    match find_label(store.labels, repo, label) {
        Some(id) => backwards(
            store.issues,
            |issue: IssueView| selected(store, repo, id, only_open, issue),
        ),
        None => Seq::empty(),
    }
}

/// The issues of the Atom feed of label `label` of repository `repo_id`, the
/// greatest number first.
pub fn query_issues_for_label(store: &Store, repo_id: i64, label: &str, only_open: bool) -> (issues:
    Vec<Issue>)
    ensures
        issue_views(issues@) == feed_issues(store@, repo_id, label@, only_open),
{
    let mut issues: Vec<Issue> = Vec::new();
    let id = match store.label_id(repo_id, label) {
        Some(id) => id,
        None => {
            proof {
                assert(issue_views(issues@) =~= Seq::<IssueView>::empty());
            }
            return issues;
        },
    };
    let rows = store.issues();
    let ghost views = store@.issues;
    let ghost keep = |issue: IssueView| selected(store@, repo_id, id, only_open, issue);
    let mut k: usize = rows.len();
    proof {
        assert(views.take(k as int) =~= views);
        assert(issue_views(issues@) =~= Seq::<IssueView>::empty());
        assert(Seq::<IssueView>::empty() + backwards(views, keep) =~= backwards(views, keep));
    }
    while k > 0
        invariant
            0 <= k <= rows.len(),
            issue_views(rows@) == views,
            views == store@.issues,
            keep == |issue: IssueView| selected(store@, repo_id, id, only_open, issue),
            backwards(views, keep) == issue_views(issues@) + backwards(views.take(k as int), keep),
        decreases k,
    {
        k = k - 1;
        let row = &rows[k];
        proof {
            let upto = views.take(k + 1);
            assert(upto.drop_last() =~= views.take(k as int));
            assert(upto.last() == row@);
        }
        if row.repo == repo_id && (!only_open || row.state == STATE_OPEN) && store.has_link(
            repo_id,
            row.number,
            id,
        ) {
            let ghost before = issue_views(issues@);
            issues.push(row.clone());
            proof {
                assert(issue_views(issues@) =~= before.push(row@));
                assert(before.push(row@) + backwards(views.take(k as int), keep) =~= before + (
                seq![row@] + backwards(views.take(k as int), keep)));
            }
        }
    }
    proof {
        assert(views.take(0) =~= Seq::<IssueView>::empty());
        assert(issue_views(issues@) + Seq::<IssueView>::empty() =~= issue_views(issues@));
    }
    issues
}

/// The categories of `issue` in the feed of repository `repo`: the name of its
/// state, then the names of its labels. None where the state cannot be read.
pub open spec fn issue_categories(store: StoreView, repo: i64, issue: IssueView) -> Option<
    Seq<Seq<char>>,
> {
    match state_name(issue.state) {
        Some(state) => Some(
            seq![state] + names_of_issue(store.links, store.labels, repo, issue.number),
        ),
        None => None,
    }
}

/// The Atom entry of `issue` in the feed of repository `repo`.
pub open spec fn entry_of(store: StoreView, repo: i64, issue: IssueView) -> Result<
    atom_syndication::Entry,
    Error,
> {
    match issue_categories(store, repo, issue) {
        None => Err(Error::InvalidIssueState),
        Some(categories) => match atom_entry_of(issue, categories) {
            Some(entry) => Ok(entry),
            None => Err(Error::UnbuildableFeed),
        },
    }
}

/// Renders `issue` as an Atom entry whose categories are the name of its state and
/// the names of its labels in repository `repo_id`.
pub fn issue_to_entry(store: &Store, repo_id: i64, issue: Issue) -> (entry: Result<
    atom_syndication::Entry,
    Error,
>)
    ensures
        entry == entry_of(store@, repo_id, issue@),
{
    let state = match IssueState::from_integer(issue.state) {
        Some(state) => state,
        None => {
            return Err(Error::InvalidIssueState);
        },
    };
    let mut categories: Vec<String> = Vec::new();
    match state.to_string() {
        Some(name) => {
            categories.push(name);
        },
        None => {},
    }
    proof {
        assert(texts(categories@) =~= seq![state_name(issue.state)->0]);
    }
    let labels = labels_of_issue(store, repo_id, issue.number);
    let mut i: usize = 0;
    while i < labels.len()
        invariant
            0 <= i <= labels.len(),
            texts(categories@) == seq![state_name(issue.state)->0] + texts(labels@).take(i as int),
        decreases labels.len() - i,
    {
        let ghost before = texts(categories@);
        categories.push(labels[i].clone());
        proof {
            assert(texts(categories@) =~= before.push(labels@[i as int]@));
            assert(texts(labels@).take(i + 1) =~= texts(labels@).take(i as int).push(
                labels@[i as int]@,
            ));
        }
        i = i + 1;
    }
    proof {
        assert(texts(labels@).take(i as int) =~= texts(labels@));
    }
    issue_to_atom_entry(&issue, &categories)
}

/// The Atom entries of `issues`, in order; the first issue whose entry cannot be
/// made is an error.
pub open spec fn entries_of(store: StoreView, repo: i64, issues: Seq<IssueView>) -> Result<
    Seq<atom_syndication::Entry>,
    Error,
>
    decreases issues.len(),
{
    if issues.len() == 0 {
        Ok(Seq::empty())
    } else {
        match entries_of(store, repo, issues.drop_last()) {
            Err(e) => Err(e),
            Ok(entries) => match entry_of(store, repo, issues.last()) {
                Err(e) => Err(e),
                Ok(entry) => Ok(entries.push(entry)),
            },
        }
    }
}

/// An error among the first `k` issues is the error of them all.
pub proof fn lemma_entries_error(store: StoreView, repo: i64, issues: Seq<IssueView>, k: int)
    requires
        0 <= k <= issues.len(),
        entries_of(store, repo, issues.take(k)) is Err,
    ensures
        entries_of(store, repo, issues) == entries_of(store, repo, issues.take(k)),
    decreases issues.len() - k,
{
    if k < issues.len() {
        assert(issues.take(k + 1).drop_last() =~= issues.take(k));
        lemma_entries_error(store, repo, issues, k + 1);
    } else {
        assert(issues.take(k) =~= issues);
    }
}

/// The Atom feed of `label` of repository `repo`, which is `owner/name`, in the
/// directory that is named after the label, with an underscore for each slash and
/// each white space character.
pub open spec fn label_feed(
    store: StoreView,
    repo: i64,
    owner: Seq<char>,
    name: Seq<char>,
    label: Seq<char>,
    only_open: bool,
    generated_at: i64,
) -> Result<LabelFeedView, Error> {
    match label_url(owner, name, label) {
        None => Err(Error::UnbuildableFeed),
        Some(url) => match entries_of(store, repo, feed_issues(store, repo, label, only_open)) {
            Err(e) => Err(e),
            Ok(entries) => match atom_document(atom_head(label, url, generated_at), entries) {
                Some(document) => Ok(
                    LabelFeedView {
                        label,
                        directory: path_escaped(label),
                        atom: Some(document),
                        rss: None,
                    },
                ),
                None => Err(Error::UnbuildableFeed),
            },
        },
    }
}

/// The Atom feed of each of `labels`, in order; the first error ends it.
pub open spec fn label_feeds(
    store: StoreView,
    repo: i64,
    owner: Seq<char>,
    name: Seq<char>,
    labels: Seq<Seq<char>>,
    only_open: bool,
    generated_at: i64,
) -> Result<Seq<LabelFeedView>, Error>
    decreases labels.len(),
{
    if labels.len() == 0 {
        Ok(Seq::empty())
    } else {
        match label_feeds(store, repo, owner, name, labels.drop_last(), only_open, generated_at) {
            Err(e) => Err(e),
            Ok(feeds) => match label_feed(
                store,
                repo,
                owner,
                name,
                labels.last(),
                only_open,
                generated_at,
            ) {
                Err(e) => Err(e),
                Ok(feed) => Ok(feeds.push(feed)),
            },
        }
    }
}

/// An error among the first `k` labels is the error of them all.
pub proof fn lemma_feeds_error(
    store: StoreView,
    repo: i64,
    owner: Seq<char>,
    name: Seq<char>,
    labels: Seq<Seq<char>>,
    only_open: bool,
    generated_at: i64,
    k: int,
)
    requires
        0 <= k <= labels.len(),
        label_feeds(store, repo, owner, name, labels.take(k), only_open, generated_at) is Err,
    ensures
        label_feeds(store, repo, owner, name, labels, only_open, generated_at) == label_feeds(
            store,
            repo,
            owner,
            name,
            labels.take(k),
            only_open,
            generated_at,
        ),
    decreases labels.len() - k,
{
    if k < labels.len() {
        assert(labels.take(k + 1).drop_last() =~= labels.take(k));
        lemma_feeds_error(store, repo, owner, name, labels, only_open, generated_at, k + 1);
    } else {
        assert(labels.take(k) =~= labels);
    }
}

/// The Atom feeds that are generated for `owner/name` at the time `generated_at`:
/// the repository is resolved, and each chosen label gets its feed.
pub open spec fn generated(
    store: StoreView,
    owner: Seq<char>,
    name: Seq<char>,
    labels: Seq<Seq<char>>,
    only_open: bool,
    generated_at: i64,
) -> Result<Seq<LabelFeedView>, Error> {
    match store.resolved(owner, name) {
        Err(e) => Err(e),
        Ok((after, repo)) => label_feeds(
            after,
            repo,
            owner,
            name,
            labels_chosen(store, owner, name, labels),
            only_open,
            generated_at,
        ),
    }
}

fn names_of_labels(store: &Store, repo: i64) -> (names: Vec<String>)
    ensures
        texts(names@) == label_names(store@.labels, repo),
{
    let rows = store.labels();
    let ghost views = store@.labels;
    let mut names: Vec<String> = Vec::new();
    let mut i: usize = 0;
    proof {
        assert(views.take(0) =~= Seq::<LabelView>::empty());
        assert(texts(names@) =~= Seq::<Seq<char>>::empty());
    }
    while i < rows.len()
        invariant
            0 <= i <= rows.len(),
            label_views(rows@) == views,
            texts(names@) == label_names(views.take(i as int), repo),
        decreases rows.len() - i,
    {
        let row = &rows[i];
        proof {
            assert(views.take(i + 1).drop_last() =~= views.take(i as int));
            assert(views.take(i + 1).last() == row@);
        }
        if row.repo == repo {
            let ghost before = texts(names@);
            names.push(row.name.clone());
            proof {
                assert(texts(names@) =~= before.push(row@.name));
            }
        }
        i = i + 1;
    }
    proof {
        assert(views.take(i as int) =~= views);
    }
    names
}

fn generate_label(
    store: &Store,
    repo: i64,
    owner: &str,
    name: &str,
    label: &str,
    only_open: bool,
    generated_at: i64,
) -> (feed: Result<LabelFeed, Error>)
    ensures
        match label_feed(store@, repo, owner@, name@, label@, only_open, generated_at) {
            Ok(expected) => feed is Ok && feed->Ok_0@ == expected,
            Err(e) => feed is Err && feed->Err_0 == e,
        },
{
    let url = match label_listing_url(owner, name, label) {
        Some(url) => url,
        None => {
            return Err(Error::UnbuildableFeed);
        },
    };
    let mut issues = query_issues_for_label(store, repo, label, only_open);
    let ghost views = issue_views(issues@);
    let count = issues.len();
    let mut entries: Vec<atom_syndication::Entry> = Vec::new();
    let mut i: usize = 0;
    proof {
        assert(views.take(0) =~= Seq::<IssueView>::empty());
    }
    while i < count
        invariant
            0 <= i <= count,
            count == issues.len(),
            views == issue_views(issues@),
            views == feed_issues(store@, repo, label@, only_open),
            label_url(owner@, name@, label@) == Some(url@),
            entries_of(store@, repo, views.take(i as int)) == Ok::<
                Seq<atom_syndication::Entry>,
                Error,
            >(entries@),
        decreases count - i,
    {
        proof {
            assert(views.take(i + 1).drop_last() =~= views.take(i as int));
            assert(views.take(i + 1).last() == issues@[i as int]@);
        }
        match issue_to_entry(store, repo, issues[i].clone()) {
            Ok(entry) => {
                entries.push(entry);
            },
            Err(e) => {
                proof {
                    assert(entries_of(store@, repo, views.take(i + 1)) is Err);
                    lemma_entries_error(store@, repo, views, i + 1);
                }
                return Err(e);
            },
        }
        i = i + 1;
    }
    proof {
        assert(views.take(i as int) =~= views);
    }
    match write_atom_feed(atom_feed_head(label, url.as_str(), generated_at), entries) {
        Some(document) => Ok(
            LabelFeed {
                label: label.to_owned(),
                directory: path_escape(label),
                atom: Some(document),
                rss: None,
            },
        ),
        None => Err(Error::UnbuildableFeed),
    }
}

/// Generates the Atom feeds of `owner/name` at the time `generated_at`, in seconds
/// since the Unix epoch: one for each of `labels`, or for every label of the
/// repository where `labels` is empty, over the issues that carry the label; only
/// over the open ones where `only_open` holds. The repository is stored first where
/// it is new.
pub fn generate(
    store: &mut Store,
    owner: &str,
    name: &str,
    labels: Vec<String>,
    only_open: bool,
    generated_at: i64,
) -> (feeds: Result<Vec<LabelFeed>, Error>)
    ensures
        final(store)@ == old(store)@.with_resolved(owner@, name@),
        match generated(old(store)@, owner@, name@, texts(labels@), only_open, generated_at) {
            Ok(expected) => feeds is Ok && feed_views(feeds->Ok_0@) == expected,
            Err(e) => feeds is Err && feeds->Err_0 == e,
        },
{
    let ghost asked = texts(labels@);
    let wanted = if labels.len() > 0 {
        clone_texts(&labels)
    } else {
        match store.repository_id(owner, name) {
            Some(repo) => names_of_labels(store, repo),
            None => Vec::new(),
        }
    };
    proof {
        assert(texts(wanted@) =~= labels_chosen(old(store)@, owner@, name@, asked));
    }
    let repo = match crate::query::repo_id(store, owner, name) {
        Ok(repo) => repo,
        Err(e) => {
            return Err(e);
        },
    };
    let ghost chosen = texts(wanted@);
    let mut feeds: Vec<LabelFeed> = Vec::new();
    let mut i: usize = 0;
    proof {
        assert(chosen.take(0) =~= Seq::<Seq<char>>::empty());
        assert(feed_views(feeds@) =~= Seq::<LabelFeedView>::empty());
    }
    while i < wanted.len()
        invariant
            0 <= i <= wanted.len(),
            chosen == texts(wanted@),
            asked == texts(labels@),
            old(store)@.resolved(owner@, name@) == Ok::<(StoreView, i64), Error>((store@, repo)),
            chosen == labels_chosen(old(store)@, owner@, name@, asked),
            label_feeds(store@, repo, owner@, name@, chosen.take(i as int), only_open, generated_at)
                == Ok::<Seq<LabelFeedView>, Error>(feed_views(feeds@)),
        decreases wanted.len() - i,
    {
        proof {
            assert(chosen.take(i + 1).drop_last() =~= chosen.take(i as int));
            assert(chosen.take(i + 1).last() == wanted@[i as int]@);
        }
        match generate_label(store, repo, owner, name, wanted[i].as_str(), only_open, generated_at) {
            Ok(feed) => {
                let ghost before = feed_views(feeds@);
                feeds.push(feed);
                proof {
                    assert(feed_views(feeds@) =~= before.push(feed@));
                }
            },
            Err(e) => {
                proof {
                    assert(label_feeds(
                        store@,
                        repo,
                        owner@,
                        name@,
                        chosen.take(i + 1),
                        only_open,
                        generated_at,
                    ) is Err);
                    lemma_feeds_error(store@, repo, owner@, name@, chosen, only_open, generated_at, i + 1);
                }
                return Err(e);
            },
        }
        i = i + 1;
    }
    proof {
        assert(chosen.take(i as int) =~= chosen);
    }
    Ok(feeds)
}

} // verus!
