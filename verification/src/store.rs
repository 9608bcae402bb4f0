//! The relational store: repositories, issues, labels, and the links between
//! issues and labels.
//!
//! Each table is a sequence of rows in the order of its key. A repository and a
//! label get their identifier from the store; an issue is known by repository and
//! number, a link by repository, issue and label.

use vstd::prelude::*;

use crate::error::Error;
use crate::seqs::{lemma_filter_ordered, lemma_filter_prefix, lemma_filter_suffix};
use crate::text::same_text;

verus! {

/// A repository row.
#[derive(Debug)]
pub struct Repository {
    pub id: i64,
    pub owner: String,
    pub name: String,
}

/// An issue row. Its key is `(repo, number)`.
#[derive(Debug)]
pub struct Issue {
    pub repo: i64,
    pub number: i64,
    pub state: i64,
    pub title: String,
    pub body: String,
    pub user_login: String,
    pub html_url: String,
    pub updated_at: i64,
}

/// A label row.
#[derive(Debug)]
pub struct Label {
    pub id: i64,
    pub repo: i64,
    pub name: String,
}

/// A row that attaches a label to an issue. The whole row is its key.
#[derive(Clone, Copy, Debug, PartialEq, Eq, Structural)]
pub struct IssueLabel {
    pub repo: i64,
    pub issue: i64,
    pub label: i64,
}

/// A repository row, with each text as the sequence of its characters.
pub struct RepositoryView {
    pub id: i64,
    pub owner: Seq<char>,
    pub name: Seq<char>,
}

/// An issue row, with each text as the sequence of its characters.
pub struct IssueView {
    pub repo: i64,
    pub number: i64,
    pub state: i64,
    pub title: Seq<char>,
    pub body: Seq<char>,
    pub user_login: Seq<char>,
    pub html_url: Seq<char>,
    pub updated_at: i64,
}

/// A label row, with each text as the sequence of its characters.
pub struct LabelView {
    pub id: i64,
    pub repo: i64,
    pub name: Seq<char>,
}

impl View for Repository {
    type V = RepositoryView;

    open spec fn view(&self) -> RepositoryView {
        RepositoryView { id: self.id, owner: self.owner@, name: self.name@ }
    }
}

impl View for Issue {
    type V = IssueView;

    open spec fn view(&self) -> IssueView {
        IssueView {
            repo: self.repo,
            number: self.number,
            state: self.state,
            title: self.title@,
            body: self.body@,
            user_login: self.user_login@,
            html_url: self.html_url@,
            updated_at: self.updated_at,
        }
    }
}

impl View for Label {
    type V = LabelView;

    open spec fn view(&self) -> LabelView {
        LabelView { id: self.id, repo: self.repo, name: self.name@ }
    }
}

impl Clone for Repository {
    fn clone(&self) -> (copy: Self)
        ensures
            copy == *self,
    {
        Repository { id: self.id, owner: self.owner.clone(), name: self.name.clone() }
    }
}

impl Clone for Issue {
    fn clone(&self) -> (copy: Self)
        ensures
            copy == *self,
    {
        Issue {
            repo: self.repo,
            number: self.number,
            state: self.state,
            title: self.title.clone(),
            body: self.body.clone(),
            user_login: self.user_login.clone(),
            html_url: self.html_url.clone(),
            updated_at: self.updated_at,
        }
    }
}

impl Clone for Label {
    fn clone(&self) -> (copy: Self)
        ensures
            copy == *self,
    {
        Label { id: self.id, repo: self.repo, name: self.name.clone() }
    }
}

/// Whether issue `a` sorts before issue `b`: by repository, then by number.
pub open spec fn issue_lt(a: IssueView, b: IssueView) -> bool {
    a.repo < b.repo || (a.repo == b.repo && a.number < b.number)
}

/// Whether link `a` sorts before link `b`: by repository, then issue, then label.
pub open spec fn link_lt(a: IssueLabel, b: IssueLabel) -> bool {
    a.repo < b.repo || (a.repo == b.repo && (a.issue < b.issue || (a.issue == b.issue && a.label
        < b.label)))
}

/// Whether `rows` holds a repository with identifier `id`.
pub open spec fn holds_repository(rows: Seq<RepositoryView>, id: i64) -> bool {
    exists|i: int| 0 <= i < rows.len() && (#[trigger] rows[i]).id == id
}

/// Whether `rows` holds issue `number` of repository `repo`.
pub open spec fn holds_issue(rows: Seq<IssueView>, repo: i64, number: i64) -> bool {
    exists|i: int| 0 <= i < rows.len() && (#[trigger] rows[i]).repo == repo && rows[i].number == number
}

/// Whether `rows` holds a label of repository `repo` with identifier `id`.
pub open spec fn holds_label(rows: Seq<LabelView>, repo: i64, id: i64) -> bool {
    exists|i: int| 0 <= i < rows.len() && (#[trigger] rows[i]).repo == repo && rows[i].id == id
}

/// Repositories stand in the order of their identifiers, and no two share owner and
/// name.
pub open spec fn repositories_wf(rows: Seq<RepositoryView>) -> bool {
    &&& forall|i: int, j: int|
        0 <= i < j < rows.len() ==> (#[trigger] rows[i]).id < (#[trigger] rows[j]).id
    &&& forall|i: int, j: int|
        0 <= i < j < rows.len() ==> !((#[trigger] rows[i]).owner == (#[trigger] rows[j]).owner
            && rows[i].name == rows[j].name)
}

/// Issues stand in the order of their keys, so no two share repository and number.
pub open spec fn issues_ascending(rows: Seq<IssueView>) -> bool {
    forall|i: int, j: int| 0 <= i < j < rows.len() ==> issue_lt(#[trigger] rows[i], #[trigger] rows[j])
}

/// Labels stand in the order of their identifiers, and no two of one repository share
/// a name.
pub open spec fn labels_wf(rows: Seq<LabelView>) -> bool {
    &&& forall|i: int, j: int|
        0 <= i < j < rows.len() ==> (#[trigger] rows[i]).id < (#[trigger] rows[j]).id
    &&& forall|i: int, j: int|
        0 <= i < j < rows.len() ==> !((#[trigger] rows[i]).repo == (#[trigger] rows[j]).repo
            && rows[i].name == rows[j].name)
}

/// Links stand in the order of their keys, so none occurs twice.
pub open spec fn links_ascending(rows: Seq<IssueLabel>) -> bool {
    forall|i: int, j: int| 0 <= i < j < rows.len() ==> link_lt(#[trigger] rows[i], #[trigger] rows[j])
}

/// The identifier of the first repository `owner/name` among `rows`.
pub open spec fn find_repository(rows: Seq<RepositoryView>, owner: Seq<char>, name: Seq<char>)
    -> Option<i64>
    decreases rows.len(),
{
    if rows.len() == 0 {
        None
    } else if rows[0].owner == owner && rows[0].name == name {
        Some(rows[0].id)
    } else {
        find_repository(rows.drop_first(), owner, name)
    }
}

/// The identifier of the first label `name` of repository `repo` among `rows`.
pub open spec fn find_label(rows: Seq<LabelView>, repo: i64, name: Seq<char>) -> Option<i64>
    decreases rows.len(),
{
    if rows.len() == 0 {
        None
    } else if rows[0].repo == repo && rows[0].name == name {
        Some(rows[0].id)
    } else {
        find_label(rows.drop_first(), repo, name)
    }
}

/// The name of the first label with identifier `id` among `rows`.
pub open spec fn label_name(rows: Seq<LabelView>, id: i64) -> Option<Seq<char>>
    decreases rows.len(),
{
    if rows.len() == 0 {
        None
    } else if rows[0].id == id {
        Some(rows[0].name)
    } else {
        label_name(rows.drop_first(), id)
    }
}

/// The identifier that a row appended to a table gets, where `last` is the greatest
/// identifier in use: one more, and 1 in an empty table. `None` where no greater
/// identifier exists.
pub open spec fn fresh_id(last: Option<i64>) -> Option<i64> {
    match last {
        None => Some(1i64),
        Some(id) => if id < i64::MAX {
            Some((id + 1) as i64)
        } else {
            None
        },
    }
}

/// The issues of `rows` that sort before `row`.
pub open spec fn issues_below(rows: Seq<IssueView>, row: IssueView) -> Seq<IssueView> {
    rows.filter(|r: IssueView| issue_lt(r, row))
}

/// The issues of `rows` that sort after `row`.
pub open spec fn issues_above(rows: Seq<IssueView>, row: IssueView) -> Seq<IssueView> {
    rows.filter(|r: IssueView| issue_lt(row, r))
}

/// `rows` with `row` in the place of its key: the issues before it, the row, the
/// issues after it. An issue with the same key is replaced.
pub open spec fn issues_placed(rows: Seq<IssueView>, row: IssueView) -> Seq<IssueView> {
    issues_below(rows, row) + seq![row] + issues_above(rows, row)
}

/// The links of `rows` that sort before `row`.
pub open spec fn links_below(rows: Seq<IssueLabel>, row: IssueLabel) -> Seq<IssueLabel> {
    rows.filter(|r: IssueLabel| link_lt(r, row))
}

/// The links of `rows` that sort after `row`.
pub open spec fn links_above(rows: Seq<IssueLabel>, row: IssueLabel) -> Seq<IssueLabel> {
    rows.filter(|r: IssueLabel| link_lt(row, r))
}

/// `rows` with `row` in the place of its key.
pub open spec fn links_placed(rows: Seq<IssueLabel>, row: IssueLabel) -> Seq<IssueLabel> {
    links_below(rows, row) + seq![row] + links_above(rows, row)
}

/// `rows` without the links of issue `number` of repository `repo`.
pub open spec fn links_without(rows: Seq<IssueLabel>, repo: i64, number: i64) -> Seq<IssueLabel> {
    rows.filter(|r: IssueLabel| !(r.repo == repo && r.issue == number))
}

/// The names of the labels of repository `repo`, in the order of the table.
pub open spec fn label_names(rows: Seq<LabelView>, repo: i64) -> Seq<Seq<char>>
    decreases rows.len(),
{
    if rows.len() == 0 {
        Seq::empty()
    } else if rows.last().repo == repo {
        label_names(rows.drop_last(), repo).push(rows.last().name)
    } else {
        label_names(rows.drop_last(), repo)
    }
}

/// How many labels repository `repo` has.
pub open spec fn label_count(rows: Seq<LabelView>, repo: i64) -> nat {
    rows.filter(|r: LabelView| r.repo == repo).len()
}

/// How many issues repository `repo` has.
pub open spec fn issue_count(rows: Seq<IssueView>, repo: i64) -> nat {
    rows.filter(|r: IssueView| r.repo == repo).len()
}

/// The latest update time among the issues of repository `repo`; `None` where it has
/// no issue.
pub open spec fn watermark(rows: Seq<IssueView>, repo: i64) -> Option<i64>
    decreases rows.len(),
{
    if rows.len() == 0 {
        None
    } else if rows.last().repo != repo {
        watermark(rows.drop_last(), repo)
    } else {
        match watermark(rows.drop_last(), repo) {
            Some(latest) if latest >= rows.last().updated_at => Some(latest),
            _ => Some(rows.last().updated_at),
        }
    }
}

/// The label names attached to issue `number` of repository `repo`, in the order of
/// the links. A link whose label is not stored contributes nothing.
pub open spec fn names_of_issue(
    links: Seq<IssueLabel>,
    labels: Seq<LabelView>,
    repo: i64,
    number: i64,
) -> Seq<Seq<char>>
    decreases links.len(),
{
    if links.len() == 0 {
        Seq::empty()
    } else {
        let rest = names_of_issue(links.drop_last(), labels, repo, number);
        let link = links.last();
        if link.repo == repo && link.issue == number {
            match label_name(labels, link.label) {
                Some(name) => rest.push(name),
                None => rest,
            }
        } else {
            rest
        }
    }
}

/// The rows of `rows` that satisfy `keep`, the last one first.
pub open spec fn backwards(rows: Seq<IssueView>, keep: spec_fn(IssueView) -> bool) -> Seq<IssueView>
    decreases rows.len(),
{
    if rows.len() == 0 {
        Seq::empty()
    } else if keep(rows.last()) {
        seq![rows.last()] + backwards(rows.drop_last(), keep)
    } else {
        backwards(rows.drop_last(), keep)
    }
}

/// The four tables, as sequences of rows.
pub struct StoreView {
    pub repositories: Seq<RepositoryView>,
    pub issues: Seq<IssueView>,
    pub labels: Seq<LabelView>,
    pub links: Seq<IssueLabel>,
}

impl StoreView {
    /// The store without rows.
    pub open spec fn empty() -> StoreView {
        StoreView {
            repositories: Seq::empty(),
            issues: Seq::empty(),
            labels: Seq::empty(),
            links: Seq::empty(),
        }
    }

    /// The invariants of the data model: identifiers and keys are unique, every table
    /// is kept in the order of its key, every issue and label belongs to a stored
    /// repository, and every link joins a stored issue and a stored label of the same
    /// repository.
    #[verifier::opaque]
    pub open spec fn wf(self) -> bool {
        &&& repositories_wf(self.repositories)
        &&& issues_ascending(self.issues)
        &&& labels_wf(self.labels)
        &&& links_ascending(self.links)
        &&& forall|i: int|
            0 <= i < self.issues.len() ==> holds_repository(
                self.repositories,
                (#[trigger] self.issues[i]).repo,
            )
        &&& forall|i: int|
            0 <= i < self.labels.len() ==> holds_repository(
                self.repositories,
                (#[trigger] self.labels[i]).repo,
            )
        &&& forall|i: int|
            0 <= i < self.links.len() ==> holds_issue(
                self.issues,
                (#[trigger] self.links[i]).repo,
                self.links[i].issue,
            ) && holds_label(self.labels, self.links[i].repo, self.links[i].label)
    }

    /// The greatest repository identifier in use.
    pub open spec fn last_repository_id(self) -> Option<i64> {
        if self.repositories.len() == 0 {
            None
        } else {
            Some(self.repositories.last().id)
        }
    }

    /// The greatest label identifier in use.
    pub open spec fn last_label_id(self) -> Option<i64> {
        if self.labels.len() == 0 {
            None
        } else {
            Some(self.labels.last().id)
        }
    }

    /// The store with one more repository.
    pub open spec fn with_repository(self, row: RepositoryView) -> StoreView {
        StoreView { repositories: self.repositories.push(row), ..self }
    }

    /// The store with one more label.
    pub open spec fn with_label(self, row: LabelView) -> StoreView {
        StoreView { labels: self.labels.push(row), ..self }
    }

    /// The store after repository `owner/name` was resolved, and its identifier: the
    /// store as it is where it holds the repository, else with a new row under the
    /// next identifier. Resolving fails where no identifier is left.
    pub open spec fn resolved(self, owner: Seq<char>, name: Seq<char>) -> Result<
        (StoreView, i64),
        Error,
    > {
        match find_repository(self.repositories, owner, name) {
            Some(id) => Ok((self, id)),
            None => match fresh_id(self.last_repository_id()) {
                Some(id) => Ok((self.with_repository(RepositoryView { id, owner, name }), id)),
                None => Err(Error::StoreFull),
            },
        }
    }

    /// The store after repository `owner/name` was resolved; the store as it is where
    /// resolving fails.
    pub open spec fn with_resolved(self, owner: Seq<char>, name: Seq<char>) -> StoreView {
        match self.resolved(owner, name) {
            Ok((after, _)) => after,
            Err(_) => self,
        }
    }

    /// The store after the repository `row` was inserted under its own identifier,
    /// which must be greater than those in use; its owner and name must be new.
    pub open spec fn repository_inserted(self, row: RepositoryView) -> Result<StoreView, Error> {
        if find_repository(self.repositories, row.owner, row.name) is Some {
            Err(Error::DuplicateKey)
        } else if self.repositories.len() > 0 && self.repositories.last().id >= row.id {
            Err(Error::IdentifierInUse)
        } else {
            Ok(self.with_repository(row))
        }
    }

    /// The store after the label `row` was inserted under its own identifier, which
    /// must be greater than those in use; its repository must be stored, and must
    /// not have a label of that name.
    pub open spec fn label_inserted(self, row: LabelView) -> Result<StoreView, Error> {
        if !holds_repository(self.repositories, row.repo) {
            Err(Error::UnknownRepository)
        } else if find_label(self.labels, row.repo, row.name) is Some {
            Err(Error::DuplicateKey)
        } else if self.labels.len() > 0 && self.labels.last().id >= row.id {
            Err(Error::IdentifierInUse)
        } else {
            Ok(self.with_label(row))
        }
    }

    /// The store after label `name` of repository `repo` was added: as it is where it
    /// holds that label, else with a new row under the next identifier. Adding fails
    /// where the repository is not stored, or no identifier is left.
    pub open spec fn label_added(self, repo: i64, name: Seq<char>) -> Result<StoreView, Error> {
        if find_label(self.labels, repo, name) is Some {
            Ok(self)
        } else if !holds_repository(self.repositories, repo) {
            Err(Error::UnknownRepository)
        } else {
            match fresh_id(self.last_label_id()) {
                Some(id) => Ok(self.with_label(LabelView { id, repo, name })),
                None => Err(Error::StoreFull),
            }
        }
    }

    /// The store with `row` inserted, or put in the place of the issue with its key.
    pub open spec fn with_issue(self, row: IssueView) -> StoreView {
        StoreView { issues: issues_placed(self.issues, row), ..self }
    }

    /// The store with one more link.
    pub open spec fn with_link(self, row: IssueLabel) -> StoreView {
        StoreView { links: links_placed(self.links, row), ..self }
    }

    /// The store without the links of issue `number` of repository `repo`.
    pub open spec fn without_links(self, repo: i64, number: i64) -> StoreView {
        StoreView { links: links_without(self.links, repo, number), ..self }
    }
}

/// Where no repository `owner/name` is found, no row has that owner and name.
pub proof fn lemma_find_repository_none(rows: Seq<RepositoryView>, owner: Seq<char>, name: Seq<char>)
    requires
        find_repository(rows, owner, name) is None,
    ensures
        forall|i: int|
            0 <= i < rows.len() ==> !((#[trigger] rows[i]).owner == owner && rows[i].name == name),
    decreases rows.len(),
{
    if rows.len() > 0 {
        lemma_find_repository_none(rows.drop_first(), owner, name);
        assert forall|i: int| 0 <= i < rows.len() implies !((#[trigger] rows[i]).owner == owner
            && rows[i].name == name) by {
            if i > 0 {
                assert(rows[i] == rows.drop_first()[i - 1]);
            }
        }
    }
}

/// Where no label `name` of `repo` is found, no row has that repository and name.
pub proof fn lemma_find_label_none(rows: Seq<LabelView>, repo: i64, name: Seq<char>)
    requires
        find_label(rows, repo, name) is None,
    ensures
        forall|i: int|
            0 <= i < rows.len() ==> !((#[trigger] rows[i]).repo == repo && rows[i].name == name),
    decreases rows.len(),
{
    if rows.len() > 0 {
        lemma_find_label_none(rows.drop_first(), repo, name);
        assert forall|i: int| 0 <= i < rows.len() implies !((#[trigger] rows[i]).repo == repo
            && rows[i].name == name) by {
            if i > 0 {
                assert(rows[i] == rows.drop_first()[i - 1]);
            }
        }
    }
}

/// A label that is found is a label of that repository in the table.
pub proof fn lemma_find_label_some(rows: Seq<LabelView>, repo: i64, name: Seq<char>)
    requires
        find_label(rows, repo, name) is Some,
    ensures
        exists|i: int|
            0 <= i < rows.len() && (#[trigger] rows[i]).repo == repo && rows[i].name == name
                && rows[i].id == find_label(rows, repo, name)->0,
        holds_label(rows, repo, find_label(rows, repo, name)->0),
    decreases rows.len(),
{
    if rows[0].repo == repo && rows[0].name == name {
        assert(rows[0].id == find_label(rows, repo, name)->0);
    } else {
        lemma_find_label_some(rows.drop_first(), repo, name);
        let w = choose|i: int|
            0 <= i < rows.drop_first().len() && (#[trigger] rows.drop_first()[i]).repo == repo
                && rows.drop_first()[i].name == name && rows.drop_first()[i].id == find_label(
                rows.drop_first(),
                repo,
                name,
            )->0;
        assert(rows[w + 1] == rows.drop_first()[w]);
    }
}

proof fn lemma_holds_repository_push(rows: Seq<RepositoryView>, row: RepositoryView)
    ensures
        forall|id: i64|
            holds_repository(rows, id) ==> #[trigger] holds_repository(rows.push(row), id),
        holds_repository(rows.push(row), row.id),
{
    assert forall|id: i64| holds_repository(rows, id) implies #[trigger] holds_repository(
        rows.push(row),
        id,
    ) by {
        let w = choose|i: int| 0 <= i < rows.len() && (#[trigger] rows[i]).id == id;
        assert(rows.push(row)[w].id == id);
    }
    assert(rows.push(row)[rows.len() as int].id == row.id);
}

proof fn lemma_holds_label_push(rows: Seq<LabelView>, row: LabelView)
    ensures
        forall|repo: i64, id: i64|
            holds_label(rows, repo, id) ==> #[trigger] holds_label(rows.push(row), repo, id),
{
    assert forall|repo: i64, id: i64| holds_label(rows, repo, id) implies #[trigger] holds_label(
        rows.push(row),
        repo,
        id,
    ) by {
        let w = choose|i: int|
            0 <= i < rows.len() && (#[trigger] rows[i]).repo == repo && rows[i].id == id;
        assert(rows.push(row)[w].repo == repo);
    }
}

/// What `issues_placed` is on a table in key order, given the place `at` where the
/// rows that sort before `row` end.
pub proof fn lemma_issue_placed(rows: Seq<IssueView>, row: IssueView, at: int)
    requires
        issues_ascending(rows),
        0 <= at <= rows.len(),
        forall|j: int| 0 <= j < at ==> issue_lt(#[trigger] rows[j], row),
        at < rows.len() ==> !issue_lt(rows[at], row),
    ensures
        issues_placed(rows, row) == if at < rows.len() && !issue_lt(row, rows[at]) {
            rows.update(at, row)
        } else {
            rows.insert(at, row)
        },
        issues_ascending(issues_placed(rows, row)),
        holds_issue(issues_placed(rows, row), row.repo, row.number),
        forall|repo: i64, number: i64|
            holds_issue(rows, repo, number) ==> #[trigger] holds_issue(
                issues_placed(rows, row),
                repo,
                number,
            ),
        forall|k: int|
            0 <= k < issues_placed(rows, row).len() ==> (#[trigger] issues_placed(rows, row)[k])
                == row || rows.contains(issues_placed(rows, row)[k]),
{
    let below = |r: IssueView| issue_lt(r, row);
    let above = |r: IssueView| issue_lt(row, r);
    let replace = at < rows.len() && !issue_lt(row, rows[at]);
    let next = if replace { at + 1 } else { at };
    assert forall|j: int| at <= j < rows.len() implies !below(#[trigger] rows[j]) by {
        if j > at {
            assert(issue_lt(rows[at], rows[j]));
        }
    }
    assert forall|j: int| next <= j < rows.len() implies above(#[trigger] rows[j]) by {
        if j > at {
            assert(issue_lt(rows[at], rows[j]));
        }
    }
    assert forall|j: int| 0 <= j < next implies !above(#[trigger] rows[j]) by {
        if j < at {
            assert(issue_lt(rows[j], row));
        }
    }
    lemma_filter_prefix(rows, below, at);
    lemma_filter_suffix(rows, above, next);
    let placed = issues_placed(rows, row);
    assert(placed == rows.take(at) + seq![row] + rows.skip(next));
    if replace {
        assert(placed =~= rows.update(at, row));
    } else {
        assert(placed =~= rows.insert(at, row));
    }
    assert forall|i: int, j: int| 0 <= i < j < placed.len() implies issue_lt(
        #[trigger] placed[i],
        #[trigger] placed[j],
    ) by {
        let a = if i < at { rows[i] } else if i == at { row } else { rows[i - 1 - at + next] };
        let b = if j < at { rows[j] } else if j == at { row } else { rows[j - 1 - at + next] };
        assert(placed[i] == a && placed[j] == b);
        if i < at && j > at {
            assert(issue_lt(rows[i], rows[j - 1 - at + next]));
        }
        if i > at {
            assert(issue_lt(rows[i - 1 - at + next], rows[j - 1 - at + next]));
        }
        if i == at && j > at {
            assert(above(rows[j - 1 - at + next]));
        }
    }
    assert(placed[at] == row);
    assert forall|repo: i64, number: i64| holds_issue(rows, repo, number) implies #[trigger] holds_issue(
        placed,
        repo,
        number,
    ) by {
        let w = choose|i: int|
            0 <= i < rows.len() && (#[trigger] rows[i]).repo == repo && rows[i].number == number;
        if w < at {
            assert(placed[w] == rows[w]);
        } else if w >= next {
            assert(placed[w - next + at + 1] == rows[w]);
        } else {
            assert(placed[at].repo == repo);
        }
    }
    assert forall|k: int| 0 <= k < placed.len() implies (#[trigger] placed[k]) == row
        || rows.contains(placed[k]) by {
        if k < at {
            assert(placed[k] == rows[k]);
        } else if k > at {
            assert(placed[k] == rows[k - 1 - at + next]);
        }
    }
}

/// What `links_placed` is on a table in key order that does not hold `row`, given the
/// place `at` where the rows that sort before `row` end.
pub proof fn lemma_link_placed(rows: Seq<IssueLabel>, row: IssueLabel, at: int)
    requires
        links_ascending(rows),
        !rows.contains(row),
        0 <= at <= rows.len(),
        forall|j: int| 0 <= j < at ==> link_lt(#[trigger] rows[j], row),
        at < rows.len() ==> !link_lt(rows[at], row),
    ensures
        links_placed(rows, row) == rows.insert(at, row),
        links_ascending(links_placed(rows, row)),
{
    let below = |r: IssueLabel| link_lt(r, row);
    let above = |r: IssueLabel| link_lt(row, r);
    assert forall|j: int| at <= j < rows.len() implies !below(#[trigger] rows[j]) && above(
        rows[j],
    ) by {
        assert(rows.contains(rows[j]));
        if j > at {
            assert(link_lt(rows[at], rows[j]));
        }
        assert(rows.contains(rows[at]));
    }
    assert forall|j: int| 0 <= j < at implies !above(#[trigger] rows[j]) by {
        assert(link_lt(rows[j], row));
    }
    lemma_filter_prefix(rows, below, at);
    lemma_filter_suffix(rows, above, at);
    let placed = links_placed(rows, row);
    assert(placed =~= rows.insert(at, row));
    assert forall|i: int, j: int| 0 <= i < j < placed.len() implies link_lt(
        #[trigger] placed[i],
        #[trigger] placed[j],
    ) by {
        let a = if i < at { rows[i] } else if i == at { row } else { rows[i - 1] };
        let b = if j < at { rows[j] } else if j == at { row } else { rows[j - 1] };
        assert(placed[i] == a && placed[j] == b);
        if i < at && j > at {
            assert(link_lt(rows[i], rows[j - 1]));
        }
        if i > at {
            assert(link_lt(rows[i - 1], rows[j - 1]));
        }
        if i == at && j > at {
            assert(above(rows[j - 1]));
        }
    }
}

/// Taking the links of one issue away keeps the key order, and leaves only links
/// that were there.
pub proof fn lemma_links_without(rows: Seq<IssueLabel>, repo: i64, number: i64)
    requires
        links_ascending(rows),
    ensures
        links_ascending(links_without(rows, repo, number)),
        forall|k: int|
            0 <= k < links_without(rows, repo, number).len() ==> rows.contains(
                #[trigger] links_without(rows, repo, number)[k],
            ) && !(links_without(rows, repo, number)[k].repo == repo && links_without(
                rows,
                repo,
                number,
            )[k].issue == number),
{
    lemma_filter_ordered(
        rows,
        |r: IssueLabel| !(r.repo == repo && r.issue == number),
        |a: IssueLabel, b: IssueLabel| link_lt(a, b),
    );
}

/// The rows of a repository table, each as its view.
pub open spec fn repository_views(rows: Seq<Repository>) -> Seq<RepositoryView> {
    rows.map_values(|r: Repository| r@)
}

/// The rows of an issue table, each as its view.
pub open spec fn issue_views(rows: Seq<Issue>) -> Seq<IssueView> {
    rows.map_values(|r: Issue| r@)
}

/// The rows of a label table, each as its view.
pub open spec fn label_views(rows: Seq<Label>) -> Seq<LabelView> {
    rows.map_values(|r: Label| r@)
}

/// The four tables themselves.
struct Tables {
    repositories: Vec<Repository>,
    issues: Vec<Issue>,
    labels: Vec<Label>,
    links: Vec<IssueLabel>,
}

impl View for Tables {
    type V = StoreView;

    closed spec fn view(&self) -> StoreView {
        StoreView {
            repositories: repository_views(self.repositories@),
            issues: issue_views(self.issues@),
            labels: label_views(self.labels@),
            links: self.links@,
        }
    }
}

impl Clone for Tables {
    fn clone(&self) -> (copy: Self)
        ensures
            copy@ == self@,
    {
        let mut repositories: Vec<Repository> = Vec::new();
        let mut i: usize = 0;
        while i < self.repositories.len()
            invariant
                0 <= i <= self.repositories.len(),
                repositories@ == self.repositories@.take(i as int),
            decreases self.repositories.len() - i,
        {
            repositories.push(self.repositories[i].clone());
            proof {
                assert(self.repositories@.take(i + 1) =~= self.repositories@.take(i as int).push(
                    self.repositories@[i as int],
                ));
            }
            i = i + 1;
        }
        let mut issues: Vec<Issue> = Vec::new();
        let mut j: usize = 0;
        while j < self.issues.len()
            invariant
                0 <= j <= self.issues.len(),
                issues@ == self.issues@.take(j as int),
            decreases self.issues.len() - j,
        {
            issues.push(self.issues[j].clone());
            proof {
                assert(self.issues@.take(j + 1) =~= self.issues@.take(j as int).push(
                    self.issues@[j as int],
                ));
            }
            j = j + 1;
        }
        let mut labels: Vec<Label> = Vec::new();
        let mut k: usize = 0;
        while k < self.labels.len()
            invariant
                0 <= k <= self.labels.len(),
                labels@ == self.labels@.take(k as int),
            decreases self.labels.len() - k,
        {
            labels.push(self.labels[k].clone());
            proof {
                assert(self.labels@.take(k + 1) =~= self.labels@.take(k as int).push(
                    self.labels@[k as int],
                ));
            }
            k = k + 1;
        }
        let mut links: Vec<IssueLabel> = Vec::new();
        let mut m: usize = 0;
        while m < self.links.len()
            invariant
                0 <= m <= self.links.len(),
                links@ == self.links@.take(m as int),
            decreases self.links.len() - m,
        {
            links.push(self.links[m]);
            proof {
                assert(self.links@.take(m + 1) =~= self.links@.take(m as int).push(
                    self.links@[m as int],
                ));
            }
            m = m + 1;
        }
        proof {
            assert(self.repositories@.take(i as int) =~= self.repositories@);
            assert(self.issues@.take(j as int) =~= self.issues@);
            assert(self.labels@.take(k as int) =~= self.labels@);
            assert(self.links@.take(m as int) =~= self.links@);
        }
        Tables { repositories, issues, labels, links }
    }
}

impl Tables {
    fn empty() -> (tables: Tables)
        ensures
            tables@ == StoreView::empty(),
            tables@.wf(),
    {
        let tables = Tables {
            repositories: Vec::new(),
            issues: Vec::new(),
            labels: Vec::new(),
            links: Vec::new(),
        };
        proof {
            reveal(StoreView::wf);
            assert(tables@.repositories =~= Seq::empty());
            assert(tables@.issues =~= Seq::empty());
            assert(tables@.labels =~= Seq::empty());
        }
        tables
    }

    fn push_repository(&mut self, row: Repository)
        requires
            old(self)@.wf(),
            forall|i: int|
                0 <= i < old(self)@.repositories.len() ==> (#[trigger] old(
                    self,
                )@.repositories[i]).id < row.id && !(old(self)@.repositories[i].owner
                    == row@.owner && old(self)@.repositories[i].name == row@.name),
        ensures
            final(self)@ == old(self)@.with_repository(row@),
            final(self)@.wf(),
    {
        proof {
            reveal(StoreView::wf);
            let before = self@;
            let after = before.with_repository(row@);
            assert(self.repositories@.push(row).map_values(|r: Repository| r@)
                =~= before.repositories.push(row@));
            lemma_holds_repository_push(before.repositories, row@);
            assert(after.wf());
        }
        self.repositories.push(row);
    }

    fn push_label(&mut self, row: Label)
        requires
            old(self)@.wf(),
            holds_repository(old(self)@.repositories, row.repo),
            forall|i: int|
                0 <= i < old(self)@.labels.len() ==> (#[trigger] old(self)@.labels[i]).id
                    < row.id && !(old(self)@.labels[i].repo == row.repo && old(
                    self,
                )@.labels[i].name == row@.name),
        ensures
            final(self)@ == old(self)@.with_label(row@),
            final(self)@.wf(),
    {
        proof {
            reveal(StoreView::wf);
            let before = self@;
            let after = before.with_label(row@);
            assert(self.labels@.push(row).map_values(|r: Label| r@) =~= before.labels.push(row@));
            lemma_holds_label_push(before.labels, row@);
            assert(after.wf());
        }
        self.labels.push(row);
    }

    fn place_issue(&mut self, row: Issue)
        requires
            old(self)@.wf(),
            holds_repository(old(self)@.repositories, row.repo),
        ensures
            final(self)@ == old(self)@.with_issue(row@),
            final(self)@.wf(),
    {
        let ghost before = self@;
        let mut at: usize = 0;
        while at < self.issues.len() && (self.issues[at].repo < row.repo || (self.issues[at].repo
            == row.repo && self.issues[at].number < row.number))
            invariant
                0 <= at <= self.issues.len(),
                self@ == before,
                forall|j: int| 0 <= j < at ==> issue_lt(#[trigger] before.issues[j], row@),
            decreases self.issues.len() - at,
        {
            at = at + 1;
        }
        proof {
            reveal(StoreView::wf);
            lemma_issue_placed(before.issues, row@, at as int);
            let placed = issues_placed(before.issues, row@);
            assert forall|k: int| 0 <= k < placed.len() implies holds_repository(
                before.repositories,
                (#[trigger] placed[k]).repo,
            ) by {
                if placed[k] != row@ {
                    let j = choose|j: int| 0 <= j < before.issues.len() && before.issues[j] == placed[k];
                    assert(holds_repository(before.repositories, before.issues[j].repo));
                }
            }
            assert(before.with_issue(row@).wf());
        }
        if at < self.issues.len() && self.issues[at].repo == row.repo && self.issues[at].number
            == row.number {
            proof {
                assert(self.issues@.update(at as int, row).map_values(|r: Issue| r@)
                    =~= before.issues.update(at as int, row@));
            }
            self.issues.set(at, row);
        } else {
            proof {
                assert(self.issues@.insert(at as int, row).map_values(|r: Issue| r@)
                    =~= before.issues.insert(at as int, row@));
            }
            self.issues.insert(at, row);
        }
    }

    fn place_link(&mut self, row: IssueLabel)
        requires
            old(self)@.wf(),
            holds_issue(old(self)@.issues, row.repo, row.issue),
            holds_label(old(self)@.labels, row.repo, row.label),
            !old(self)@.links.contains(row),
        ensures
            final(self)@ == old(self)@.with_link(row),
            final(self)@.wf(),
    {
        let ghost before = self@;
        let mut at: usize = 0;
        while at < self.links.len() && (self.links[at].repo < row.repo || (self.links[at].repo
            == row.repo && (self.links[at].issue < row.issue || (self.links[at].issue
            == row.issue && self.links[at].label < row.label))))
            invariant
                0 <= at <= self.links.len(),
                self@ == before,
                forall|j: int| 0 <= j < at ==> link_lt(#[trigger] before.links[j], row),
            decreases self.links.len() - at,
        {
            at = at + 1;
        }
        proof {
            reveal(StoreView::wf);
            lemma_link_placed(before.links, row, at as int);
            let placed = links_placed(before.links, row);
            assert forall|k: int| 0 <= k < placed.len() implies holds_issue(
                before.issues,
                (#[trigger] placed[k]).repo,
                placed[k].issue,
            ) && holds_label(before.labels, placed[k].repo, placed[k].label) by {
                if k < at {
                    assert(placed[k] == before.links[k]);
                } else if k > at {
                    assert(placed[k] == before.links[k - 1]);
                }
            }
            assert(before.with_link(row).wf());
        }
        self.links.insert(at, row);
    }

    fn drop_links(&mut self, repo: i64, number: i64)
        requires
            old(self)@.wf(),
        ensures
            final(self)@ == old(self)@.without_links(repo, number),
            final(self)@.wf(),
    {
        let ghost before = self@;
        let mut kept: Vec<IssueLabel> = Vec::new();
        let mut i: usize = 0;
        proof {
            reveal(Seq::filter);
            assert(before.links.take(0) =~= Seq::empty());
        }
        while i < self.links.len()
            invariant
                0 <= i <= self.links.len(),
                self@ == before,
                kept@ == links_without(before.links.take(i as int), repo, number),
            decreases self.links.len() - i,
        {
            let link = self.links[i];
            proof {
                reveal(Seq::filter);
                let next = before.links.take(i + 1);
                assert(next.drop_last() =~= before.links.take(i as int));
                assert(next.last() == link);
                assert(links_without(next, repo, number) == if !(link.repo == repo && link.issue
                    == number) {
                    links_without(next.drop_last(), repo, number).push(link)
                } else {
                    links_without(next.drop_last(), repo, number)
                });
            }
            if !(link.repo == repo && link.issue == number) {
                kept.push(link);
            }
            i = i + 1;
        }
        proof {
            reveal(StoreView::wf);
            assert(before.links.take(i as int) =~= before.links);
            lemma_links_without(before.links, repo, number);
            let after = before.without_links(repo, number);
            assert forall|k: int| 0 <= k < after.links.len() implies holds_issue(
                after.issues,
                (#[trigger] after.links[k]).repo,
                after.links[k].issue,
            ) && holds_label(after.labels, after.links[k].repo, after.links[k].label) by {
                assert(before.links.contains(after.links[k]));
                let j = choose|j: int| 0 <= j < before.links.len() && before.links[j] == after.links[k];
                assert(holds_issue(before.issues, before.links[j].repo, before.links[j].issue));
            }
            assert(after.wf());
        }
        self.links = kept;
    }
}

/// The relational store: repositories, issues, labels, and the links between issues
/// and labels.
pub struct Store {
    tables: Tables,
}

impl View for Store {
    type V = StoreView;

    closed spec fn view(&self) -> StoreView {
        self.tables@
    }
}

impl Clone for Store {
    /// A copy of the store, as it is taken before a transaction that may have to be
    /// undone.
    fn clone(&self) -> (copy: Self)
        ensures
            copy@ == self@,
    {
        proof {
            use_type_invariant(self);
        }
        Store { tables: self.tables.clone() }
    }
}

impl Store {
    /// What holds of every store at every time: the invariants of the data model.
    #[verifier::type_invariant]
    pub closed spec fn inv(self) -> bool {
        self@.wf()
    }

    /// The store always satisfies the invariants of the data model.
    pub fn well_formed(&self)
        ensures
            self@.wf(),
    {
        proof {
            use_type_invariant(self);
        }
    }

    /// A store without rows.
    pub fn new() -> (store: Store)
        ensures
            store@ == StoreView::empty(),
    {
        Store { tables: Tables::empty() }
    }

    /// The repository table.
    pub fn repositories(&self) -> (rows: &Vec<Repository>)
        ensures
            repository_views(rows@) == self@.repositories,
    {
        &self.tables.repositories
    }

    /// The issue table.
    pub fn issues(&self) -> (rows: &Vec<Issue>)
        ensures
            issue_views(rows@) == self@.issues,
    {
        &self.tables.issues
    }

    /// The label table.
    pub fn labels(&self) -> (rows: &Vec<Label>)
        ensures
            label_views(rows@) == self@.labels,
    {
        &self.tables.labels
    }

    /// The table of links between issues and labels.
    pub fn links(&self) -> (rows: &Vec<IssueLabel>)
        ensures
            rows@ == self@.links,
    {
        &self.tables.links
    }

    /// The identifier of repository `owner/name`, where the store holds it.
    pub fn repository_id(&self, owner: &str, name: &str) -> (id: Option<i64>)
        ensures
            id == find_repository(self@.repositories, owner@, name@),
    {
        let ghost rows = self@.repositories;
        proof {
            assert(rows.skip(0) =~= rows);
        }
        let mut i: usize = 0;
        while i < self.tables.repositories.len()
            invariant
                0 <= i <= self.tables.repositories.len(),
                rows == self@.repositories,
                find_repository(rows, owner@, name@) == find_repository(
                    rows.skip(i as int),
                    owner@,
                    name@,
                ),
            decreases self.tables.repositories.len() - i,
        {
            let row = &self.tables.repositories[i];
            proof {
                assert(rows.skip(i as int)[0] == row@);
                assert(rows.skip(i as int).drop_first() =~= rows.skip(i + 1));
            }
            if same_text(row.owner.as_str(), owner) && same_text(row.name.as_str(), name) {
                return Some(row.id);
            }
            i = i + 1;
        }
        None
    }

    /// Whether the store holds a repository with identifier `id`.
    pub fn has_repository(&self, id: i64) -> (held: bool)
        ensures
            held == holds_repository(self@.repositories, id),
    {
        let mut i: usize = 0;
        while i < self.tables.repositories.len()
            invariant
                0 <= i <= self.tables.repositories.len(),
                forall|j: int| 0 <= j < i ==> (#[trigger] self@.repositories[j]).id != id,
            decreases self.tables.repositories.len() - i,
        {
            if self.tables.repositories[i].id == id {
                assert(self@.repositories[i as int].id == id);
                return true;
            }
            i = i + 1;
        }
        false
    }

    /// Whether the store holds issue `number` of repository `repo`.
    pub fn has_issue(&self, repo: i64, number: i64) -> (held: bool)
        ensures
            held == holds_issue(self@.issues, repo, number),
    {
        let mut i: usize = 0;
        while i < self.tables.issues.len()
            invariant
                0 <= i <= self.tables.issues.len(),
                forall|j: int|
                    0 <= j < i ==> !((#[trigger] self@.issues[j]).repo == repo
                        && self@.issues[j].number == number),
            decreases self.tables.issues.len() - i,
        {
            if self.tables.issues[i].repo == repo && self.tables.issues[i].number == number {
                assert(self@.issues[i as int].repo == repo);
                return true;
            }
            i = i + 1;
        }
        false
    }

    /// Whether the store holds a label of repository `repo` with identifier `id`.
    pub fn has_label(&self, repo: i64, id: i64) -> (held: bool)
        ensures
            held == holds_label(self@.labels, repo, id),
    {
        let mut i: usize = 0;
        while i < self.tables.labels.len()
            invariant
                0 <= i <= self.tables.labels.len(),
                forall|j: int|
                    0 <= j < i ==> !((#[trigger] self@.labels[j]).repo == repo
                        && self@.labels[j].id == id),
            decreases self.tables.labels.len() - i,
        {
            if self.tables.labels[i].repo == repo && self.tables.labels[i].id == id {
                assert(self@.labels[i as int].repo == repo);
                return true;
            }
            i = i + 1;
        }
        false
    }

    /// Whether label `label` is attached to issue `number` of repository `repo`.
    pub fn has_link(&self, repo: i64, number: i64, label: i64) -> (held: bool)
        ensures
            held == self@.links.contains(IssueLabel { repo, issue: number, label }),
    {
        let wanted = IssueLabel { repo, issue: number, label };
        let mut i: usize = 0;
        while i < self.tables.links.len()
            invariant
                0 <= i <= self.tables.links.len(),
                wanted == (IssueLabel { repo, issue: number, label }),
                forall|j: int| 0 <= j < i ==> self@.links[j] != wanted,
            decreases self.tables.links.len() - i,
        {
            let link = self.tables.links[i];
            assert(link == self@.links[i as int]);
            if link.repo == repo && link.issue == number && link.label == label {
                return true;
            }
            i = i + 1;
        }
        false
    }

    /// The identifier of repository `owner/name`, which is stored first where the
    /// store does not hold it yet. A new repository gets the next identifier.
    pub fn resolve_repository(&mut self, owner: &str, name: &str) -> (id: Result<i64, Error>)
        ensures
            match old(self)@.resolved(owner@, name@) {
                Ok((after, found)) => id == Ok::<i64, Error>(found) && final(self)@ == after,
                Err(e) => id == Err::<i64, Error>(e) && final(self)@ == old(self)@,
            },
    {
        if let Some(found) = self.repository_id(owner, name) {
            return Ok(found);
        }
        let count = self.tables.repositories.len();
        let fresh: i64 = if count == 0 {
            1
        } else {
            let last = self.tables.repositories[count - 1].id;
            if last == i64::MAX {
                return Err(Error::StoreFull);
            }
            last + 1
        };
        let row = Repository { id: fresh, owner: owner.to_owned(), name: name.to_owned() };
        proof {
            use_type_invariant(&*self);
            reveal(StoreView::wf);
            lemma_find_repository_none(self@.repositories, owner@, name@);
        }
        let mut tables = Tables::empty();
        std::mem::swap(&mut tables, &mut self.tables);
        tables.push_repository(row);
        self.tables = tables;
        Ok(fresh)
    }

    /// Stores the repository `row` under the identifier that it carries, as when a
    /// store is read back. Rows are inserted in the order of their identifiers.
    pub fn insert_repository(&mut self, row: Repository) -> (inserted: Result<(), Error>)
        ensures
            match old(self)@.repository_inserted(row@) {
                Ok(after) => inserted == Ok::<(), Error>(()) && final(self)@ == after,
                Err(e) => inserted == Err::<(), Error>(e) && final(self)@ == old(self)@,
            },
    {
        if self.repository_id(row.owner.as_str(), row.name.as_str()).is_some() {
            return Err(Error::DuplicateKey);
        }
        let count = self.tables.repositories.len();
        if count > 0 && self.tables.repositories[count - 1].id >= row.id {
            return Err(Error::IdentifierInUse);
        }
        proof {
            use_type_invariant(&*self);
            reveal(StoreView::wf);
            lemma_find_repository_none(self@.repositories, row@.owner, row@.name);
        }
        let mut tables = Tables::empty();
        std::mem::swap(&mut tables, &mut self.tables);
        tables.push_repository(row);
        self.tables = tables;
        Ok(())
    }

    /// Stores the label `row` under the identifier that it carries, as when a store
    /// is read back. Rows are inserted in the order of their identifiers.
    pub fn insert_label(&mut self, row: Label) -> (inserted: Result<(), Error>)
        ensures
            match old(self)@.label_inserted(row@) {
                Ok(after) => inserted == Ok::<(), Error>(()) && final(self)@ == after,
                Err(e) => inserted == Err::<(), Error>(e) && final(self)@ == old(self)@,
            },
    {
        if !self.has_repository(row.repo) {
            return Err(Error::UnknownRepository);
        }
        if self.label_id(row.repo, row.name.as_str()).is_some() {
            return Err(Error::DuplicateKey);
        }
        let count = self.tables.labels.len();
        if count > 0 && self.tables.labels[count - 1].id >= row.id {
            return Err(Error::IdentifierInUse);
        }
        proof {
            use_type_invariant(&*self);
            reveal(StoreView::wf);
            lemma_find_label_none(self@.labels, row.repo, row@.name);
        }
        let mut tables = Tables::empty();
        std::mem::swap(&mut tables, &mut self.tables);
        tables.push_label(row);
        self.tables = tables;
        Ok(())
    }

    /// The identifier of label `name` of repository `repo`, where the store holds it.
    pub fn label_id(&self, repo: i64, name: &str) -> (id: Option<i64>)
        ensures
            id == find_label(self@.labels, repo, name@),
    {
        let ghost rows = self@.labels;
        proof {
            assert(rows.skip(0) =~= rows);
        }
        let mut i: usize = 0;
        while i < self.tables.labels.len()
            invariant
                0 <= i <= self.tables.labels.len(),
                rows == self@.labels,
                find_label(rows, repo, name@) == find_label(rows.skip(i as int), repo, name@),
            decreases self.tables.labels.len() - i,
        {
            let row = &self.tables.labels[i];
            proof {
                assert(rows.skip(i as int)[0] == row@);
                assert(rows.skip(i as int).drop_first() =~= rows.skip(i + 1));
            }
            if row.repo == repo && same_text(row.name.as_str(), name) {
                return Some(row.id);
            }
            i = i + 1;
        }
        None
    }

    /// Stores label `name` of repository `repo` unless the store holds it already. A
    /// new label gets the next identifier.
    pub fn add_label(&mut self, repo: i64, name: &str) -> (added: Result<(), Error>)
        ensures
            match old(self)@.label_added(repo, name@) {
                Ok(after) => added == Ok::<(), Error>(()) && final(self)@ == after,
                Err(e) => added == Err::<(), Error>(e) && final(self)@ == old(self)@,
            },
    {
        if self.label_id(repo, name).is_some() {
            return Ok(());
        }
        if !self.has_repository(repo) {
            return Err(Error::UnknownRepository);
        }
        let count = self.tables.labels.len();
        let fresh: i64 = if count == 0 {
            1
        } else {
            let last = self.tables.labels[count - 1].id;
            if last == i64::MAX {
                return Err(Error::StoreFull);
            }
            last + 1
        };
        let row = Label { id: fresh, repo, name: name.to_owned() };
        proof {
            use_type_invariant(&*self);
            reveal(StoreView::wf);
            lemma_find_label_none(self@.labels, repo, name@);
        }
        let mut tables = Tables::empty();
        std::mem::swap(&mut tables, &mut self.tables);
        tables.push_label(row);
        self.tables = tables;
        Ok(())
    }

    /// Stores `row`, in the place of the issue with the same repository and number
    /// where there is one.
    pub fn upsert_issue(&mut self, row: Issue) -> (stored: Result<(), Error>)
        ensures
            if holds_repository(old(self)@.repositories, row.repo) {
                stored == Ok::<(), Error>(()) && final(self)@ == old(self)@.with_issue(row@)
            } else {
                stored == Err::<(), Error>(Error::UnknownRepository) && final(self)@ == old(
                    self,
                )@
            },
    {
        if !self.has_repository(row.repo) {
            return Err(Error::UnknownRepository);
        }
        proof {
            use_type_invariant(&*self);
        }
        let mut tables = Tables::empty();
        std::mem::swap(&mut tables, &mut self.tables);
        tables.place_issue(row);
        self.tables = tables;
        Ok(())
    }

    /// Detaches every label from issue `number` of repository `repo`.
    pub fn clear_issue_labels(&mut self, repo: i64, number: i64)
        ensures
            final(self)@ == old(self)@.without_links(repo, number),
    {
        proof {
            use_type_invariant(&*self);
        }
        let mut tables = Tables::empty();
        std::mem::swap(&mut tables, &mut self.tables);
        tables.drop_links(repo, number);
        self.tables = tables;
    }

    /// Attaches label `label` to issue `number` of repository `repo`.
    pub fn link_label(&mut self, repo: i64, number: i64, label: i64) -> (linked: Result<
        (),
        Error,
    >)
        ensures
            final(self)@ == match linked {
                Ok(_) => old(self)@.with_link(IssueLabel { repo, issue: number, label }),
                Err(_) => old(self)@,
            },
            linked == if !holds_issue(old(self)@.issues, repo, number) || !holds_label(
                old(self)@.labels,
                repo,
                label,
            ) {
                Err::<(), Error>(Error::UnknownReference)
            } else if old(self)@.links.contains(IssueLabel { repo, issue: number, label }) {
                Err::<(), Error>(Error::DuplicateKey)
            } else {
                Ok::<(), Error>(())
            },
    {
        if !self.has_issue(repo, number) || !self.has_label(repo, label) {
            return Err(Error::UnknownReference);
        }
        if self.has_link(repo, number, label) {
            return Err(Error::DuplicateKey);
        }
        proof {
            use_type_invariant(&*self);
        }
        let mut tables = Tables::empty();
        std::mem::swap(&mut tables, &mut self.tables);
        tables.place_link(IssueLabel { repo, issue: number, label });
        self.tables = tables;
        Ok(())
    }
}

} // verus!
