//! Queries on the store, and the synchronisation of the store with the remote.

use vstd::prelude::*;

use crate::error::Error;
use crate::store::{
    issue_count, issue_views, label_count, label_views, repository_views, watermark, IssueView,
    LabelView, RepositoryView, Store, StoreView,
};
use crate::text::{decimal, decimal_text};

pub mod graphql;
pub mod issues;
pub mod labels;
pub mod theorems;

verus! {

/// A repository with the number of its labels and of its issues.
#[derive(Debug)]
pub struct RepositoryInfo {
    pub owner: String,
    pub name: String,
    pub label_count: usize,
    pub issue_count: usize,
}

/// A listed repository, with each text as the sequence of its characters.
pub struct RepositoryInfoView {
    pub owner: Seq<char>,
    pub name: Seq<char>,
    pub label_count: nat,
    pub issue_count: nat,
}

impl View for RepositoryInfo {
    type V = RepositoryInfoView;

    open spec fn view(&self) -> RepositoryInfoView {
        RepositoryInfoView {
            owner: self.owner@,
            name: self.name@,
            label_count: self.label_count as nat,
            issue_count: self.issue_count as nat,
        }
    }
}

/// What is listed of repository `row` in store `store`.
pub open spec fn repository_info(store: StoreView, row: RepositoryView) -> RepositoryInfoView {
    RepositoryInfoView {
        owner: row.owner,
        name: row.name,
        label_count: label_count(store.labels, row.id),
        issue_count: issue_count(store.issues, row.id),
    }
}

/// The line that lists a repository: `owner/name (N labels, M issues)`.
pub open spec fn listed_line(info: RepositoryInfoView) -> Seq<char> {
    info.owner + "/"@ + info.name + " ("@ + decimal(info.label_count) + " labels, "@ + decimal(
        info.issue_count,
    ) + " issues)"@
}

impl RepositoryInfo {
    /// The line that lists the repository: `owner/name (N labels, M issues)`.
    pub fn line(&self) -> (line: String)
        ensures
            line@ == listed_line(self@),
    {
        let mut line = self.owner.clone();
        line.append("/");
        line.append(self.name.as_str());
        line.append(" (");
        line.append(decimal_text(self.label_count).as_str());
        line.append(" labels, ");
        line.append(decimal_text(self.issue_count).as_str());
        line.append(" issues)");
        line
    }
}

/// The identifier of repository `owner/name`. Where the store does not hold the
/// repository, it is stored first, under the next identifier.
pub fn repo_id(store: &mut Store, owner: &str, name: &str) -> (id: Result<i64, Error>)
    ensures
        match old(store)@.resolved(owner@, name@) {
            Ok((after, found)) => id == Ok::<i64, Error>(found) && final(store)@ == after,
            Err(e) => id == Err::<i64, Error>(e) && final(store)@ == old(store)@,
        },
{
    store.resolve_repository(owner, name)
}

/// The latest update time among the stored issues of repository `repo`: the
/// watermark from which the next synchronisation resumes.
pub fn last_updated(store: &Store, repo: i64) -> (latest: Option<i64>)
    ensures
        latest == watermark(store@.issues, repo),
{
    let rows = store.issues();
    let ghost views = store@.issues;
    let mut latest: Option<i64> = None;
    let mut i: usize = 0;
    proof {
        assert(views.take(0) =~= Seq::<IssueView>::empty());
    }
    while i < rows.len()
        invariant
            0 <= i <= rows.len(),
            issue_views(rows@) == views,
            latest == watermark(views.take(i as int), repo),
        decreases rows.len() - i,
    {
        let row = &rows[i];
        proof {
            assert(views.take(i + 1).drop_last() =~= views.take(i as int));
            assert(views.take(i + 1).last() == row@);
        }
        if row.repo == repo {
            latest = match latest {
                Some(seen) if seen >= row.updated_at => Some(seen),
                _ => Some(row.updated_at),
            };
        }
        i = i + 1;
    }
    proof {
        assert(views.take(i as int) =~= views);
    }
    latest
}

/// The watermark is the greatest update time among the issues of the repository:
/// an issue of the repository carries it, none carries a later one, and there is
/// no watermark exactly when the repository has no issue.
pub proof fn law_watermark_is_latest(rows: Seq<IssueView>, repo: i64)
    ensures
        match watermark(rows, repo) {
            Some(latest) => (exists|i: int|
                0 <= i < rows.len() && (#[trigger] rows[i]).repo == repo && rows[i].updated_at
                    == latest) && (forall|i: int|
                0 <= i < rows.len() && (#[trigger] rows[i]).repo == repo ==> rows[i].updated_at
                    <= latest),
            None => forall|i: int| 0 <= i < rows.len() ==> (#[trigger] rows[i]).repo != repo,
        },
    decreases rows.len(),
{
    if rows.len() > 0 {
        let rest = rows.drop_last();
        let last = rows.len() - 1;
        law_watermark_is_latest(rest, repo);
        assert forall|i: int| 0 <= i < rest.len() implies rest[i] == rows[i] by {}
        match watermark(rest, repo) {
            Some(before) => {
                let w = choose|i: int|
                    0 <= i < rest.len() && (#[trigger] rest[i]).repo == repo && rest[i].updated_at
                        == before;
                assert(rows[w] == rest[w]);
                assert(rows[last] == rows.last());
                let latest = watermark(rows, repo)->0;
                assert(rows[w].updated_at == latest || rows[last].updated_at == latest);
                assert forall|i: int|
                    0 <= i < rows.len() && (#[trigger] rows[i]).repo == repo implies rows[i].updated_at
                    <= latest by {
                    if i < last {
                        assert(rest[i] == rows[i]);
                    }
                }
            },
            None => {
                assert(rows[last] == rows.last());
                assert forall|i: int| 0 <= i < rows.len() && i != last implies (
                #[trigger] rows[i]).repo != repo by {
                    assert(rest[i] == rows[i]);
                }
            },
        }
    }
}

fn count_labels(store: &Store, repo: i64) -> (count: usize)
    ensures
        count == label_count(store@.labels, repo),
{
    let rows = store.labels();
    let ghost views = store@.labels;
    let mut count: usize = 0;
    let mut i: usize = 0;
    proof {
        reveal(Seq::filter);
        assert(views.take(0) =~= Seq::<LabelView>::empty());
    }
    while i < rows.len()
        invariant
            0 <= i <= rows.len(),
            label_views(rows@) == views,
            count == label_count(views.take(i as int), repo),
            count <= i,
        decreases rows.len() - i,
    {
        proof {
            reveal(Seq::filter);
            let next = views.take(i + 1);
            assert(next.drop_last() =~= views.take(i as int));
            assert(next.last() == rows@[i as int]@);
            assert(label_count(next, repo) == if next.last().repo == repo {
                label_count(next.drop_last(), repo) + 1
            } else {
                label_count(next.drop_last(), repo)
            });
        }
        if rows[i].repo == repo {
            count = count + 1;
        }
        i = i + 1;
    }
    proof {
        assert(views.take(i as int) =~= views);
    }
    count
}

fn count_issues(store: &Store, repo: i64) -> (count: usize)
    ensures
        count == issue_count(store@.issues, repo),
{
    let rows = store.issues();
    let ghost views = store@.issues;
    let mut count: usize = 0;
    let mut i: usize = 0;
    proof {
        reveal(Seq::filter);
        assert(views.take(0) =~= Seq::<IssueView>::empty());
    }
    while i < rows.len()
        invariant
            0 <= i <= rows.len(),
            issue_views(rows@) == views,
            count == issue_count(views.take(i as int), repo),
            count <= i,
        decreases rows.len() - i,
    {
        proof {
            reveal(Seq::filter);
            let next = views.take(i + 1);
            assert(next.drop_last() =~= views.take(i as int));
            assert(next.last() == rows@[i as int]@);
            assert(issue_count(next, repo) == if next.last().repo == repo {
                issue_count(next.drop_last(), repo) + 1
            } else {
                issue_count(next.drop_last(), repo)
            });
        }
        if rows[i].repo == repo {
            count = count + 1;
        }
        i = i + 1;
    }
    proof {
        assert(views.take(i as int) =~= views);
    }
    count
}

/// Every stored repository, in the order of the table, with the number of its labels
/// and of its issues.
pub fn list_repositories(store: &Store) -> (listed: Vec<RepositoryInfo>)
    ensures
        listed@.len() == store@.repositories.len(),
        forall|i: int|
            0 <= i < listed@.len() ==> (#[trigger] listed@[i])@ == repository_info(
                store@,
                store@.repositories[i],
            ),
{
    let rows = store.repositories();
    let mut listed: Vec<RepositoryInfo> = Vec::new();
    let mut i: usize = 0;
    while i < rows.len()
        invariant
            0 <= i <= rows.len(),
            repository_views(rows@) == store@.repositories,
            listed@.len() == i,
            forall|k: int|
                0 <= k < i ==> (#[trigger] listed@[k])@ == repository_info(
                    store@,
                    store@.repositories[k],
                ),
        decreases rows.len() - i,
    {
        let row = &rows[i];
        let info = RepositoryInfo {
            owner: row.owner.clone(),
            name: row.name.clone(),
            label_count: count_labels(store, row.id),
            issue_count: count_issues(store, row.id),
        };
        proof {
            assert(store@.repositories[i as int] == row@);
        }
        listed.push(info);
        i = i + 1;
    }
    listed
}

} // verus!
