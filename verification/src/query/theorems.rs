//! What holds of a synchronisation as a whole: it is idempotent, it persists only
//! what the remote reports, and it stores for each issue exactly the labels that were
//! reported.

use vstd::prelude::*;

use crate::error::Error;
use crate::query::issues::{
    attachable, edges_synced, issue_row, labels_attached, node_stored, node_synced, IssueEdge,
    IssueNode,
};
use crate::query::labels::{labels_synced, LabelEdge};
use crate::relations::{
    lemma_issue_placed_again, lemma_issues_placed_members, lemma_label_added_wf,
    lemma_links_canonical, lemma_links_placed_members, lemma_links_without_members, lemma_wf_order,
    lemma_with_issue_wf, lemma_with_link_wf, lemma_without_links_wf,
};
use crate::seqs::lemma_filter_members;
use crate::store::{
    find_label, fresh_id, holds_issue, holds_repository, issues_placed, label_name, labels_wf,
    lemma_find_label_some, lemma_links_without, links_ascending, links_placed, links_without,
    names_of_issue, watermark, IssueLabel, IssueView, LabelView, StoreView,
};
use crate::text::texts;
use crate::time::rfc3339_seconds;

verus! {

/// Whether the label with identifier `id` is the label of one of `names` in
/// repository `repo`.
pub open spec fn attaches(labels: Seq<LabelView>, repo: i64, names: Seq<String>, id: i64) -> bool {
    exists|k: int|
        0 <= k < names.len() && #[trigger] find_label(labels, repo, names[k]@) == Some(id)
}

/// Whether `x` is a link of issue `number` of repository `repo`.
pub open spec fn of_issue(x: IssueLabel, repo: i64, number: i64) -> bool {
    x.repo == repo && x.issue == number
}

/// Whether `links` holds no link of issue `number` of repository `repo`.
pub open spec fn unlabelled(links: Seq<IssueLabel>, repo: i64, number: i64) -> bool {
    forall|x: IssueLabel| #[trigger] links.contains(x) ==> !of_issue(x, repo, number)
}

/// Whether `after` holds the links of `before` and, for issue `number` of repository
/// `repo`, a link to each label that one of `names` names.
pub open spec fn links_attached(
    before: Seq<IssueLabel>,
    after: Seq<IssueLabel>,
    labels: Seq<LabelView>,
    repo: i64,
    number: i64,
    names: Seq<String>,
) -> bool {
    forall|x: IssueLabel| #[trigger]
        after.contains(x) <==> before.contains(x) || (of_issue(x, repo, number) && attaches(
            labels,
            repo,
            names,
            x.label,
        ))
}

/// A label is named by one of `names` where it is named by one of all but the last,
/// or by the last.
pub proof fn lemma_attaches_step(labels: Seq<LabelView>, repo: i64, names: Seq<String>, id: i64)
    requires
        names.len() > 0,
    ensures
        attaches(labels, repo, names, id) <==> attaches(labels, repo, names.drop_last(), id)
            || find_label(labels, repo, names.last()@) == Some(id),
{
    let rest = names.drop_last();
    if attaches(labels, repo, rest, id) {
        let k = choose|k: int|
            0 <= k < rest.len() && #[trigger] find_label(labels, repo, rest[k]@) == Some(id);
        assert(rest[k] == names[k]);
        assert(find_label(labels, repo, names[k]@) == Some(id));
    }
    if find_label(labels, repo, names.last()@) == Some(id) {
        assert(find_label(labels, repo, names[names.len() - 1]@) == Some(id));
    }
    if attaches(labels, repo, names, id) {
        let k = choose|k: int|
            0 <= k < names.len() && #[trigger] find_label(labels, repo, names[k]@) == Some(id);
        if k < rest.len() {
            assert(rest[k] == names[k]);
            assert(find_label(labels, repo, rest[k]@) == Some(id));
        }
    }
}

/// Attaching labels changes the links only.
pub proof fn lemma_attached_frame(store: StoreView, repo: i64, number: i64, names: Seq<String>)
    requires
        labels_attached(store, repo, number, names) is Ok,
    ensures
        labels_attached(store, repo, number, names)->Ok_0.repositories == store.repositories,
        labels_attached(store, repo, number, names)->Ok_0.issues == store.issues,
        labels_attached(store, repo, number, names)->Ok_0.labels == store.labels,
    decreases names.len(),
{
    if names.len() > 0 {
        lemma_attached_frame(store, repo, number, names.drop_last());
    }
}

/// What attaching labels to an issue leaves: a store that satisfies the invariants,
/// and holds the links that were there and a link for each name that is the name of
/// a label of the repository.
pub proof fn lemma_attached(store: StoreView, repo: i64, number: i64, names: Seq<String>)
    requires
        store.wf(),
        holds_issue(store.issues, repo, number),
        labels_attached(store, repo, number, names) is Ok,
    ensures
        labels_attached(store, repo, number, names)->Ok_0.wf(),
        links_attached(
            store.links,
            labels_attached(store, repo, number, names)->Ok_0.links,
            store.labels,
            repo,
            number,
            names,
        ),
    decreases names.len(),
{
    let after = labels_attached(store, repo, number, names)->Ok_0;
    lemma_attached_frame(store, repo, number, names);
    if names.len() == 0 {
        assert(after == store);
    } else {
        let rest = names.drop_last();
        let before = labels_attached(store, repo, number, rest)->Ok_0;
        lemma_attached(store, repo, number, rest);
        lemma_attached_frame(store, repo, number, rest);
        let found = find_label(store.labels, repo, names.last()@);
        match found {
            None => {
                assert(after == before);
                assert forall|x: IssueLabel| #[trigger]
                    after.links.contains(x) <==> store.links.contains(x) || (of_issue(
                        x,
                        repo,
                        number,
                    ) && attaches(store.labels, repo, names, x.label)) by {
                    lemma_attaches_step(store.labels, repo, names, x.label);
                }
            },
            Some(id) => {
                let link = IssueLabel { repo, issue: number, label: id };
                assert(after.wf()) by {
                    lemma_find_label_some(store.labels, repo, names.last()@);
                    lemma_with_link_wf(before, link);
                }
                assert(after.links == links_placed(before.links, link));
                assert forall|x: IssueLabel| #[trigger]
                    after.links.contains(x) <==> store.links.contains(x) || (of_issue(
                        x,
                        repo,
                        number,
                    ) && attaches(store.labels, repo, names, x.label)) by {
                    lemma_links_placed_members(before.links, link);
                    lemma_attaches_step(store.labels, repo, names, x.label);
                    assert(links_placed(before.links, link).contains(x) <==> x == link
                        || before.links.contains(x));
                    assert(before.links.contains(x) <==> store.links.contains(x) || (of_issue(
                        x,
                        repo,
                        number,
                    ) && attaches(store.labels, repo, rest, x.label)));
                }
            },
        }
    }
}

/// Labels can be attached to an issue without links exactly when no two of the names
/// are names of one label.
pub proof fn lemma_attachable(store: StoreView, repo: i64, number: i64, names: Seq<String>)
    requires
        store.wf(),
        holds_issue(store.issues, repo, number),
        unlabelled(store.links, repo, number),
    ensures
        labels_attached(store, repo, number, names) is Ok <==> attachable(
            store.labels,
            repo,
            names,
        ),
    decreases names.len(),
{
    let labels = store.labels;
    if names.len() > 0 {
        let rest = names.drop_last();
        let n = names.len() - 1;
        lemma_attachable(store, repo, number, rest);
        let found = find_label(labels, repo, names.last()@);
        assert(names.last() == names[n]);
        assert(attachable(labels, repo, names) ==> attachable(labels, repo, rest)) by {
            if attachable(labels, repo, names) {
                assert forall|i: int, j: int| 0 <= i < j < rest.len() implies !(find_label(
                    labels,
                    repo,
                    rest[i]@,
                ) is Some && #[trigger] find_label(labels, repo, rest[i]@) == #[trigger] find_label(
                    labels,
                    repo,
                    rest[j]@,
                )) by {
                    assert(rest[i] == names[i] && rest[j] == names[j]);
                    assert(!(find_label(labels, repo, names[i]@) is Some && find_label(
                        labels,
                        repo,
                        names[i]@,
                    ) == find_label(labels, repo, names[j]@)));
                }
            }
        }
        if labels_attached(store, repo, number, rest) is Ok {
            let before = labels_attached(store, repo, number, rest)->Ok_0;
            lemma_attached(store, repo, number, rest);
            lemma_attached_frame(store, repo, number, rest);
            assert(before.labels == labels);
            match found {
                None => {
                    assert(labels_attached(store, repo, number, names) is Ok);
                    assert(attachable(labels, repo, names)) by {
                        assert forall|i: int, j: int| 0 <= i < j < names.len() implies !(
                        find_label(labels, repo, names[i]@) is Some && #[trigger] find_label(
                            labels,
                            repo,
                            names[i]@,
                        ) == #[trigger] find_label(labels, repo, names[j]@)) by {
                            if j < n {
                                assert(rest[i] == names[i] && rest[j] == names[j]);
                                assert(!(find_label(labels, repo, rest[i]@) is Some && find_label(
                                    labels,
                                    repo,
                                    rest[i]@,
                                ) == find_label(labels, repo, rest[j]@)));
                            }
                        }
                    }
                },
                Some(id) => {
                    let link = IssueLabel { repo, issue: number, label: id };
                    assert(of_issue(link, repo, number));
                    assert(before.links.contains(link) <==> attaches(labels, repo, rest, id)) by {
                        assert(before.links.contains(link) <==> store.links.contains(link) || (
                        of_issue(link, repo, number) && attaches(labels, repo, rest, link.label)));
                        assert(store.links.contains(link) ==> !of_issue(link, repo, number));
                    }
                    if attaches(labels, repo, rest, id) {
                        let k = choose|k: int|
                            0 <= k < rest.len() && #[trigger] find_label(labels, repo, rest[k]@)
                                == Some(id);
                        assert(rest[k] == names[k]);
                        assert(find_label(labels, repo, names[k]@) is Some && find_label(
                            labels,
                            repo,
                            names[k]@,
                        ) == find_label(labels, repo, names[n]@));
                        assert(!attachable(labels, repo, names));
                    } else {
                        assert(labels_attached(store, repo, number, names) is Ok);
                        assert(attachable(labels, repo, names)) by {
                            assert forall|i: int, j: int| 0 <= i < j < names.len() implies !(
                            find_label(labels, repo, names[i]@) is Some && #[trigger] find_label(
                                labels,
                                repo,
                                names[i]@,
                            ) == #[trigger] find_label(labels, repo, names[j]@)) by {
                                assert(rest[i] == names[i]);
                                if j < n {
                                    assert(rest[j] == names[j]);
                                    assert(!(find_label(labels, repo, rest[i]@) is Some
                                        && find_label(labels, repo, rest[i]@) == find_label(
                                        labels,
                                        repo,
                                        rest[j]@,
                                    )));
                                } else if find_label(labels, repo, names[i]@) == Some(id) {
                                    assert(find_label(labels, repo, rest[i]@) == Some(id));
                                    assert(attaches(labels, repo, rest, id));
                                }
                            }
                        }
                    }
                },
            }
        }
    } else {
        assert(attachable(labels, repo, names));
    }
}

/// The store of `store` in which `row` is stored and its issue has no link.
pub open spec fn cleared(store: StoreView, row: IssueView) -> StoreView {
    store.with_issue(row).without_links(row.repo, row.number)
}

/// What storing an issue and detaching its labels leaves: a store that satisfies the
/// invariants, and holds the issue without a link.
pub proof fn lemma_cleared(store: StoreView, row: IssueView)
    requires
        store.wf(),
        holds_repository(store.repositories, row.repo),
    ensures
        cleared(store, row).wf(),
        holds_issue(cleared(store, row).issues, row.repo, row.number),
        cleared(store, row).issues == issues_placed(store.issues, row),
        cleared(store, row).issues.contains(row),
        cleared(store, row).labels == store.labels,
        cleared(store, row).repositories == store.repositories,
        unlabelled(cleared(store, row).links, row.repo, row.number),
        forall|x: IssueLabel| #[trigger]
            cleared(store, row).links.contains(x) <==> store.links.contains(x) && !of_issue(
                x,
                row.repo,
                row.number,
            ),
{
    lemma_with_issue_wf(store, row);
    lemma_without_links_wf(store.with_issue(row), row.repo, row.number);
    lemma_links_without_members(store.links, row.repo, row.number);
    lemma_issues_placed_members(store.issues, row);
    assert(cleared(store, row).links == links_without(store.links, row.repo, row.number));
}

/// An error in attaching labels is that a label is attached already.
pub proof fn lemma_attached_error_kind(store: StoreView, repo: i64, number: i64, names: Seq<String>)
    requires
        labels_attached(store, repo, number, names) is Err,
    ensures
        labels_attached(store, repo, number, names)->Err_0 == Error::DuplicateKey,
    decreases names.len(),
{
    if names.len() > 0 && labels_attached(store, repo, number, names.drop_last()) is Err {
        lemma_attached_error_kind(store, repo, number, names.drop_last());
    }
}

/// An issue can be stored in a stored repository exactly when no two of the label
/// names that it carries are names of one label; else a label would be attached
/// twice.
pub proof fn lemma_node_stored(store: StoreView, repo: i64, node: IssueNode, seconds: i64)
    requires
        store.wf(),
        holds_repository(store.repositories, repo),
    ensures
        node_stored(store, repo, node, seconds) is Ok <==> attachable(
            store.labels,
            repo,
            node.labels@,
        ),
        node_stored(store, repo, node, seconds) is Err ==> node_stored(
            store,
            repo,
            node,
            seconds,
        )->Err_0 == Error::DuplicateKey,
{
    let row = issue_row(repo, node, seconds);
    lemma_cleared(store, row);
    lemma_attachable(cleared(store, row), repo, node.number, node.labels@);
    if node_stored(store, repo, node, seconds) is Err {
        lemma_attached_error_kind(cleared(store, row), repo, node.number, node.labels@);
    }
}

/// What synchronising an issue leaves: a store that satisfies the invariants, with
/// the same repositories and labels.
pub proof fn lemma_node_synced(store: StoreView, repo: i64, node: IssueNode)
    requires
        store.wf(),
        node_synced(store, repo, node) is Ok,
    ensures
        node_synced(store, repo, node)->Ok_0.wf(),
        node_synced(store, repo, node)->Ok_0.repositories == store.repositories,
        node_synced(store, repo, node)->Ok_0.labels == store.labels,
        node_synced(store, repo, node)->Ok_0.issues == issues_placed(
            store.issues,
            issue_row(repo, node, rfc3339_seconds(node.updated_at@)->0),
        ),
{
    let row = issue_row(repo, node, rfc3339_seconds(node.updated_at@)->0);
    lemma_cleared(store, row);
    lemma_attached(cleared(store, row), repo, node.number, node.labels@);
    lemma_attached_frame(cleared(store, row), repo, node.number, node.labels@);
}

/// Where `after` is `base` with the links of one issue attached, and `base` holds
/// no link of that issue, detaching them from `after` leaves the links of `base`.
pub proof fn lemma_detached(
    base: Seq<IssueLabel>,
    after: Seq<IssueLabel>,
    labels: Seq<LabelView>,
    repo: i64,
    number: i64,
    names: Seq<String>,
)
    requires
        links_ascending(base),
        links_ascending(after),
        unlabelled(base, repo, number),
        links_attached(base, after, labels, repo, number, names),
    ensures
        links_without(after, repo, number) == base,
{
    lemma_links_without_members(after, repo, number);
    lemma_links_without(after, repo, number);
    let left = links_without(after, repo, number);
    assert forall|x: IssueLabel| left.contains(x) <==> base.contains(x) by {
        assert(left.contains(x) <==> after.contains(x) && !(x.repo == repo && x.issue == number));
        assert(after.contains(x) <==> base.contains(x) || (of_issue(x, repo, number) && attaches(
            labels,
            repo,
            names,
            x.label,
        )));
        assert(base.contains(x) ==> !of_issue(x, repo, number));
    }
    lemma_links_canonical(left, base);
}

/// An issue that was synchronised is synchronised again without any change.
pub proof fn lemma_node_again(store: StoreView, repo: i64, node: IssueNode)
    requires
        store.wf(),
        node_synced(store, repo, node) is Ok,
    ensures
        node_synced(node_synced(store, repo, node)->Ok_0, repo, node) == node_synced(
            store,
            repo,
            node,
        ),
{
    let row = issue_row(repo, node, rfc3339_seconds(node.updated_at@)->0);
    let number = node.number;
    let after = node_synced(store, repo, node)->Ok_0;
    let base = cleared(store, row);
    assert(node_synced(store, repo, node) == labels_attached(base, repo, number, node.labels@));
    lemma_node_again_cleared(store, row, node.labels@);
    assert(node_synced(after, repo, node) == labels_attached(cleared(after, row), repo, number, node.labels@)) by {
        lemma_cleared(store, row);
        lemma_attached_frame(base, repo, number, node.labels@);
    }
}

/// Storing a row and detaching its links, after its labels were attached, leaves
/// what storing it and detaching its links left before.
pub proof fn lemma_node_again_cleared(store: StoreView, row: IssueView, names: Seq<String>)
    requires
        store.wf(),
        holds_repository(store.repositories, row.repo),
        labels_attached(cleared(store, row), row.repo, row.number, names) is Ok,
    ensures
        cleared(labels_attached(cleared(store, row), row.repo, row.number, names)->Ok_0, row)
            == cleared(store, row),
{
    let base = cleared(store, row);
    let after = labels_attached(base, row.repo, row.number, names)->Ok_0;
    lemma_cleared(store, row);
    lemma_attached(base, row.repo, row.number, names);
    lemma_attached_frame(base, row.repo, row.number, names);
    lemma_wf_order(after);
    lemma_wf_order(base);
    assert(issues_placed(after.issues, row) == after.issues) by {
        lemma_issue_placed_again(after.issues, row);
    }
    assert(links_without(after.links, row.repo, row.number) == base.links) by {
        lemma_detached(base.links, after.links, base.labels, row.repo, row.number, names);
    }
}

/// Where `before` and `after` hold the same links of issue `number`, and `before`
/// is its own links without those of the issue with the labels of `names` attached,
/// so is `after`.
pub proof fn lemma_reattached(
    before: Seq<IssueLabel>,
    after: Seq<IssueLabel>,
    last: Seq<IssueLabel>,
    labels: Seq<LabelView>,
    repo: i64,
    number: i64,
    names: Seq<String>,
)
    requires
        links_ascending(after),
        links_ascending(last),
        forall|x: IssueLabel|
            of_issue(x, repo, number) ==> (#[trigger] after.contains(x) <==> before.contains(x)),
        links_attached(
            links_without(before, repo, number),
            before,
            labels,
            repo,
            number,
            names,
        ),
        links_attached(links_without(after, repo, number), last, labels, repo, number, names),
    ensures
        last == after,
{
    lemma_links_without_members(before, repo, number);
    lemma_links_without_members(after, repo, number);
    let cut_before = links_without(before, repo, number);
    let cut_after = links_without(after, repo, number);
    assert forall|x: IssueLabel| last.contains(x) <==> after.contains(x) by {
        assert(last.contains(x) <==> cut_after.contains(x) || (of_issue(x, repo, number)
            && attaches(labels, repo, names, x.label)));
        assert(cut_after.contains(x) <==> after.contains(x) && !(x.repo == repo && x.issue
            == number));
        if of_issue(x, repo, number) {
            assert(after.contains(x) <==> before.contains(x));
            assert(before.contains(x) <==> cut_before.contains(x) || (of_issue(x, repo, number)
                && attaches(labels, repo, names, x.label)));
            assert(cut_before.contains(x) <==> before.contains(x) && !(x.repo == repo && x.issue
                == number));
        }
    }
    lemma_links_canonical(last, after);
}

/// The store after `row` was stored and the labels `names` took the place of the
/// links of its issue.
pub open spec fn row_synced(store: StoreView, row: IssueView, names: Seq<String>) -> Result<
    StoreView,
    Error,
> {
    labels_attached(cleared(store, row), row.repo, row.number, names)
}

/// Synchronising an issue leaves the links of every other issue as they were, and
/// keeps every other issue.
pub proof fn lemma_other_links(
    store: StoreView,
    row: IssueView,
    other: IssueView,
    other_names: Seq<String>,
)
    requires
        store.wf(),
        holds_repository(store.repositories, other.repo),
        row_synced(store, other, other_names) is Ok,
        other.repo == row.repo,
        other.number != row.number,
        store.issues.contains(row),
    ensures
        row_synced(store, other, other_names)->Ok_0.wf(),
        row_synced(store, other, other_names)->Ok_0.labels == store.labels,
        row_synced(store, other, other_names)->Ok_0.repositories == store.repositories,
        row_synced(store, other, other_names)->Ok_0.issues.contains(row),
        forall|x: IssueLabel|
            of_issue(x, row.repo, row.number) ==> (#[trigger] row_synced(
                store,
                other,
                other_names,
            )->Ok_0.links.contains(x) <==> store.links.contains(x)),
{
    let repo = row.repo;
    let base = cleared(store, other);
    let after = row_synced(store, other, other_names)->Ok_0;
    lemma_cleared(store, other);
    lemma_attached(base, repo, other.number, other_names);
    lemma_attached_frame(base, repo, other.number, other_names);
    assert(after.issues.contains(row)) by {
        lemma_issues_placed_members(store.issues, other);
    }
    assert forall|x: IssueLabel| of_issue(x, repo, row.number) implies (#[trigger] after.links.contains(
        x,
    ) <==> store.links.contains(x)) by {
        assert(after.links.contains(x) <==> base.links.contains(x) || (of_issue(
            x,
            repo,
            other.number,
        ) && attaches(base.labels, repo, other_names, x.label)));
        assert(base.links.contains(x) <==> store.links.contains(x) && !of_issue(
            x,
            repo,
            other.number,
        ));
    }
}

/// What a store holds of an issue that is synchronised without any change: its row,
/// and for its links those of its labels.
pub proof fn lemma_row_held(store: StoreView, row: IssueView, names: Seq<String>)
    requires
        store.wf(),
        holds_repository(store.repositories, row.repo),
        row_synced(store, row, names) == Ok::<StoreView, Error>(store),
    ensures
        store.issues.contains(row),
        attachable(store.labels, row.repo, names),
        links_attached(
            links_without(store.links, row.repo, row.number),
            store.links,
            store.labels,
            row.repo,
            row.number,
            names,
        ),
{
    let base = cleared(store, row);
    lemma_cleared(store, row);
    lemma_attached(base, row.repo, row.number, names);
    lemma_attached_frame(base, row.repo, row.number, names);
    lemma_attachable(base, row.repo, row.number, names);
    assert(base.links == links_without(store.links, row.repo, row.number));
}

/// A row that the store holds, with labels that can be attached, is synchronised
/// into a store that holds the links of the store without those of the issue, with
/// those of its labels.
pub proof fn lemma_row_resynced(store: StoreView, row: IssueView, names: Seq<String>)
    requires
        store.wf(),
        holds_repository(store.repositories, row.repo),
        store.issues.contains(row),
        attachable(store.labels, row.repo, names),
    ensures
        row_synced(store, row, names) is Ok,
        row_synced(store, row, names)->Ok_0.repositories == store.repositories,
        row_synced(store, row, names)->Ok_0.labels == store.labels,
        links_ascending(row_synced(store, row, names)->Ok_0.links),
        links_attached(
            links_without(store.links, row.repo, row.number),
            row_synced(store, row, names)->Ok_0.links,
            store.labels,
            row.repo,
            row.number,
            names,
        ),
{
    let base = cleared(store, row);
    let repo = row.repo;
    let number = row.number;
    assert(base.wf() && holds_issue(base.issues, repo, number) && unlabelled(
        base.links,
        repo,
        number,
    ) && base.labels == store.labels && base.repositories == store.repositories && base.issues
        == issues_placed(store.issues, row) && base.links == links_without(
        store.links,
        repo,
        number,
    )) by {
        lemma_cleared(store, row);
    }
    assert(labels_attached(base, repo, number, names) is Ok) by {
        lemma_attachable(base, repo, number, names);
    }
    let after = labels_attached(base, repo, number, names)->Ok_0;
    assert(after.repositories == base.repositories && after.issues == base.issues && after.labels
        == base.labels) by {
        lemma_attached_frame(base, repo, number, names);
    }
    assert(after.wf() && links_attached(base.links, after.links, base.labels, repo, number, names))
        by {
        lemma_attached(base, repo, number, names);
    }
    assert(links_ascending(after.links)) by {
        lemma_wf_order(after);
    }
}

/// Synchronising a row that the store holds leaves the issues as they are.
pub proof fn lemma_row_resynced_issues(store: StoreView, row: IssueView, names: Seq<String>)
    requires
        store.wf(),
        store.issues.contains(row),
        row_synced(store, row, names) is Ok,
    ensures
        row_synced(store, row, names)->Ok_0.issues == store.issues,
{
    lemma_attached_frame(cleared(store, row), row.repo, row.number, names);
    lemma_wf_order(store);
    lemma_issue_placed_again(store.issues, row);
}

/// An issue that is synchronised without any change stays so when an issue of
/// another number is synchronised.
pub proof fn lemma_row_kept(
    store: StoreView,
    row: IssueView,
    names: Seq<String>,
    other: IssueView,
    other_names: Seq<String>,
)
    requires
        store.wf(),
        holds_repository(store.repositories, row.repo),
        row.repo == other.repo,
        row.number != other.number,
        row_synced(store, row, names) == Ok::<StoreView, Error>(store),
        row_synced(store, other, other_names) is Ok,
    ensures
        row_synced(row_synced(store, other, other_names)->Ok_0, row, names) == row_synced(
            store,
            other,
            other_names,
        ),
{
    let after = row_synced(store, other, other_names)->Ok_0;
    lemma_row_held(store, row, names);
    lemma_other_links(store, row, other, other_names);
    lemma_row_resynced(after, row, names);
    lemma_row_resynced_issues(after, row, names);
    let last = row_synced(after, row, names)->Ok_0;
    lemma_wf_order(after);
    assert(last.links == after.links) by {
        lemma_reattached(store.links, after.links, last.links, store.labels, row.repo, row.number, names);
    }
    assert(last == after);
}

/// An issue that is synchronised without any change stays so when an issue of
/// another number is synchronised.
pub proof fn lemma_node_kept(store: StoreView, repo: i64, node: IssueNode, other: IssueNode)
    requires
        store.wf(),
        node_synced(store, repo, node) == Ok::<StoreView, Error>(store),
        node_synced(store, repo, other) is Ok,
        node.number != other.number,
    ensures
        node_synced(node_synced(store, repo, other)->Ok_0, repo, node) == node_synced(
            store,
            repo,
            other,
        ),
{
    let row = issue_row(repo, node, rfc3339_seconds(node.updated_at@)->0);
    let other_row = issue_row(repo, other, rfc3339_seconds(other.updated_at@)->0);
    assert(node_synced(store, repo, node) == row_synced(store, row, node.labels@));
    assert(node_synced(store, repo, other) == row_synced(store, other_row, other.labels@));
    lemma_row_kept(store, row, node.labels@, other_row, other.labels@);
    let after = row_synced(store, other_row, other.labels@)->Ok_0;
    assert(after.repositories == store.repositories) by {
        lemma_cleared(store, other_row);
        lemma_attached_frame(cleared(store, other_row), repo, other.number, other.labels@);
    }
    assert(node_synced(after, repo, node) == row_synced(after, row, node.labels@));
}

/// The issue at a place of a page; none where the place is empty or holds no issue.
pub open spec fn node_of(edge: Option<IssueEdge>) -> Option<IssueNode> {
    match edge {
        Some(IssueEdge { node: Some(node), .. }) => Some(node),
        _ => None,
    }
}

/// Whether no two issues of `edges` have the same number.
pub open spec fn distinct_numbers(edges: Seq<Option<IssueEdge>>) -> bool {
    forall|i: int, j: int|
        0 <= i < j < edges.len() && node_of(#[trigger] edges[i]) is Some && node_of(
            #[trigger] edges[j],
        ) is Some ==> node_of(edges[i])->0.number != node_of(edges[j])->0.number
}

/// Whether `node` is an issue of `edges`.
pub open spec fn reported(edges: Seq<Option<IssueEdge>>, node: IssueNode) -> bool {
    exists|i: int| 0 <= i < edges.len() && node_of(#[trigger] edges[i]) == Some(node)
}

/// After a synchronisation of issues with distinct numbers, the store satisfies the
/// invariants, and each of the issues is synchronised again without any change.
pub proof fn lemma_synced_reflects(store: StoreView, repo: i64, edges: Seq<Option<IssueEdge>>)
    requires
        store.wf(),
        distinct_numbers(edges),
        edges_synced(store, repo, edges) is Ok,
    ensures
        edges_synced(store, repo, edges)->Ok_0.wf(),
        edges_synced(store, repo, edges)->Ok_0.labels == store.labels,
        edges_synced(store, repo, edges)->Ok_0.repositories == store.repositories,
        forall|node: IssueNode| #[trigger]
            reported(edges, node) ==> node_synced(
                edges_synced(store, repo, edges)->Ok_0,
                repo,
                node,
            ) == edges_synced(store, repo, edges),
    decreases edges.len(),
{
    let after = edges_synced(store, repo, edges)->Ok_0;
    if edges.len() > 0 {
        let rest = edges.drop_last();
        let before = edges_synced(store, repo, rest)->Ok_0;
        assert forall|i: int, j: int|
            0 <= i < j < rest.len() && node_of(#[trigger] rest[i]) is Some && node_of(
                #[trigger] rest[j],
            ) is Some implies node_of(rest[i])->0.number != node_of(rest[j])->0.number by {
            assert(rest[i] == edges[i] && rest[j] == edges[j]);
        }
        lemma_synced_reflects(store, repo, rest);
        assert(edges[edges.len() - 1] == edges.last());
        assert forall|node: IssueNode| #[trigger] reported(edges, node) implies node_synced(
            after,
            repo,
            node,
        ) == Ok::<StoreView, Error>(after) by {
            let i = choose|i: int| 0 <= i < edges.len() && node_of(#[trigger] edges[i]) == Some(node);
            match node_of(edges.last()) {
                Some(last) => {
                    if i == edges.len() - 1 {
                        lemma_node_again(before, repo, last);
                    } else {
                        assert(rest[i] == edges[i]);
                        assert(reported(rest, node));
                        lemma_node_kept(before, repo, node, last);
                    }
                },
                None => {
                    assert(i < edges.len() - 1);
                    assert(rest[i] == edges[i]);
                    assert(reported(rest, node));
                },
            }
        }
        match node_of(edges.last()) {
            Some(last) => {
                lemma_node_synced(before, repo, last);
            },
            None => {},
        }
    } else {
        assert forall|node: IssueNode| #[trigger] reported(edges, node) implies node_synced(
            after,
            repo,
            node,
        ) == Ok::<StoreView, Error>(after) by {}
    }
}

/// Two synchronisations in a row against an unchanged remote leave
/// the store as the first one left it: after the issues of `edges`, whose numbers
/// are distinct, were synchronised, synchronising any of them again, in any order
/// and on any pages, changes nothing. This holds in particular of the issues that
/// the remote reports from the new watermark on.
pub proof fn law_issues_idempotent(
    store: StoreView,
    repo: i64,
    edges: Seq<Option<IssueEdge>>,
    again: Seq<Option<IssueEdge>>,
)
    requires
        store.wf(),
        distinct_numbers(edges),
        edges_synced(store, repo, edges) is Ok,
        forall|j: int|
            0 <= j < again.len() && node_of(#[trigger] again[j]) is Some ==> reported(
                edges,
                node_of(again[j])->0,
            ),
    ensures
        edges_synced(edges_synced(store, repo, edges)->Ok_0, repo, again) == edges_synced(
            store,
            repo,
            edges,
        ),
    decreases again.len(),
{
    let after = edges_synced(store, repo, edges)->Ok_0;
    if again.len() > 0 {
        let rest = again.drop_last();
        assert forall|j: int|
            0 <= j < rest.len() && node_of(#[trigger] rest[j]) is Some implies reported(
            edges,
            node_of(rest[j])->0,
        ) by {
            assert(rest[j] == again[j]);
        }
        law_issues_idempotent(store, repo, edges, rest);
        lemma_synced_reflects(store, repo, edges);
        assert(again[again.len() - 1] == again.last());
        match node_of(again.last()) {
            Some(last) => {
                assert(reported(edges, last));
            },
            None => {},
        }
    }
}

/// A synchronisation in which the remote reports only issues
/// updated at or after the watermark `since` persists only such issues: every issue
/// in the store afterwards was there before, or is an issue of the repository
/// updated at or after `since`.
pub proof fn law_resume(store: StoreView, repo: i64, edges: Seq<Option<IssueEdge>>, since: i64)
    requires
        edges_synced(store, repo, edges) is Ok,
        forall|i: int|
            0 <= i < edges.len() && node_of(#[trigger] edges[i]) is Some && rfc3339_seconds(
                node_of(edges[i])->0.updated_at@,
            ) is Some ==> rfc3339_seconds(node_of(edges[i])->0.updated_at@)->0 >= since,
    ensures
        forall|x: IssueView| #[trigger]
            edges_synced(store, repo, edges)->Ok_0.issues.contains(x) ==> store.issues.contains(x)
                || (x.repo == repo && x.updated_at >= since),
    decreases edges.len(),
{
    let after = edges_synced(store, repo, edges)->Ok_0;
    if edges.len() > 0 {
        let rest = edges.drop_last();
        let before = edges_synced(store, repo, rest)->Ok_0;
        assert forall|i: int|
            0 <= i < rest.len() && node_of(#[trigger] rest[i]) is Some && rfc3339_seconds(
                node_of(rest[i])->0.updated_at@,
            ) is Some implies rfc3339_seconds(node_of(rest[i])->0.updated_at@)->0 >= since by {
            assert(rest[i] == edges[i]);
        }
        law_resume(store, repo, rest, since);
        assert(edges[edges.len() - 1] == edges.last());
        match node_of(edges.last()) {
            Some(node) => {
                let row = issue_row(repo, node, rfc3339_seconds(node.updated_at@)->0);
                lemma_attached_frame(cleared(before, row), repo, node.number, node.labels@);
                lemma_issues_placed_members(before.issues, row);
                assert(after.issues == issues_placed(before.issues, row));
            },
            None => {},
        }
    }
}

/// The label names attached to an issue are exactly the names of the labels of its
/// links.
pub proof fn lemma_names_members(
    links: Seq<IssueLabel>,
    labels: Seq<LabelView>,
    repo: i64,
    number: i64,
)
    ensures
        forall|name: Seq<char>| #[trigger]
            names_of_issue(links, labels, repo, number).contains(name) <==> exists|x: IssueLabel|
                #[trigger] links.contains(x) && of_issue(x, repo, number) && label_name(
                    labels,
                    x.label,
                ) == Some(name),
    decreases links.len(),
{
    let names = names_of_issue(links, labels, repo, number);
    if links.len() > 0 {
        let rest = links.drop_last();
        let last = links.last();
        let before = names_of_issue(rest, labels, repo, number);
        lemma_names_members(rest, labels, repo, number);
        let adds = of_issue(last, repo, number) && label_name(labels, last.label) is Some;
        assert forall|name: Seq<char>| #[trigger]
            names.contains(name) <==> exists|x: IssueLabel| #[trigger]
                links.contains(x) && of_issue(x, repo, number) && label_name(labels, x.label)
                    == Some(name) by {
            if names.contains(name) {
                let k = choose|k: int| 0 <= k < names.len() && names[k] == name;
                if adds && k == names.len() - 1 {
                    assert(links[links.len() - 1] == last);
                    assert(links.contains(last));
                } else {
                    assert(before[k] == name);
                    assert(before.contains(name));
                    let x = choose|x: IssueLabel| #[trigger]
                        rest.contains(x) && of_issue(x, repo, number) && label_name(
                            labels,
                            x.label,
                        ) == Some(name);
                    let j = choose|j: int| 0 <= j < rest.len() && rest[j] == x;
                    assert(links[j] == x);
                    assert(links.contains(x));
                }
            }
            if exists|x: IssueLabel| #[trigger]
                links.contains(x) && of_issue(x, repo, number) && label_name(labels, x.label)
                    == Some(name) {
                let x = choose|x: IssueLabel| #[trigger]
                    links.contains(x) && of_issue(x, repo, number) && label_name(
                        labels,
                        x.label,
                    ) == Some(name);
                let j = choose|j: int| 0 <= j < links.len() && links[j] == x;
                if j == links.len() - 1 {
                    assert(names[names.len() - 1] == name);
                } else {
                    assert(rest[j] == x);
                    assert(rest.contains(x));
                    assert(before.contains(name));
                    let k = choose|k: int| 0 <= k < before.len() && before[k] == name;
                    assert(names[k] == name);
                }
            }
        }
    } else {
        assert forall|name: Seq<char>| #[trigger]
            names.contains(name) <==> exists|x: IssueLabel| #[trigger]
                links.contains(x) && of_issue(x, repo, number) && label_name(labels, x.label)
                    == Some(name) by {}
    }
}

/// In a label table that satisfies the invariants, the label that is found under a
/// name has that name.
pub proof fn lemma_label_named(labels: Seq<LabelView>, repo: i64, name: Seq<char>)
    requires
        labels_wf(labels),
        find_label(labels, repo, name) is Some,
    ensures
        label_name(labels, find_label(labels, repo, name)->0) == Some(name),
    decreases labels.len(),
{
    if !(labels[0].repo == repo && labels[0].name == name) {
        let rest = labels.drop_first();
        assert forall|i: int, j: int| 0 <= i < j < rest.len() implies (#[trigger] rest[i]).id < (
        #[trigger] rest[j]).id && !(rest[i].repo == rest[j].repo && rest[i].name
            == rest[j].name) by {
            assert(rest[i] == labels[i + 1] && rest[j] == labels[j + 1]);
        }
        lemma_label_named(rest, repo, name);
        lemma_find_label_some(rest, repo, name);
        let id = find_label(rest, repo, name)->0;
        let w = choose|w: int|
            0 <= w < rest.len() && (#[trigger] rest[w]).repo == repo && rest[w].name == name
                && rest[w].id == id;
        assert(rest[w] == labels[w + 1]);
        assert(labels[0].id < labels[w + 1].id);
    }
}

/// After an issue was synchronised, the names of the labels
/// attached to it in the store are exactly the label names that the remote reported
/// for it, provided that each of them is the name of a label of the repository in
/// the store. (A name that the store has no label for is passed over.)
pub proof fn law_association(store: StoreView, repo: i64, node: IssueNode)
    requires
        store.wf(),
        node_synced(store, repo, node) is Ok,
        forall|k: int|
            0 <= k < node.labels@.len() ==> #[trigger] find_label(
                store.labels,
                repo,
                node.labels@[k]@,
            ) is Some,
    ensures
        forall|name: Seq<char>|
            names_of_issue(
                node_synced(store, repo, node)->Ok_0.links,
                node_synced(store, repo, node)->Ok_0.labels,
                repo,
                node.number,
            ).contains(name) <==> #[trigger] texts(node.labels@).contains(name),
{
    let row = issue_row(repo, node, rfc3339_seconds(node.updated_at@)->0);
    let number = node.number;
    let names = node.labels@;
    let base = cleared(store, row);
    let after = node_synced(store, repo, node)->Ok_0;
    let labels = store.labels;
    lemma_cleared(store, row);
    lemma_attached(base, repo, number, names);
    lemma_attached_frame(base, repo, number, names);
    lemma_wf_order(store);
    lemma_names_members(after.links, labels, repo, number);
    let attached = names_of_issue(after.links, labels, repo, number);
    assert forall|name: Seq<char>| attached.contains(name) <==> #[trigger] texts(names).contains(
        name,
    ) by {
        if attached.contains(name) {
            let x = choose|x: IssueLabel| #[trigger]
                after.links.contains(x) && of_issue(x, repo, number) && label_name(
                    labels,
                    x.label,
                ) == Some(name);
            assert(after.links.contains(x) <==> base.links.contains(x) || (of_issue(
                x,
                repo,
                number,
            ) && attaches(labels, repo, names, x.label)));
            assert(base.links.contains(x) ==> !of_issue(x, repo, number));
            let k = choose|k: int|
                0 <= k < names.len() && #[trigger] find_label(labels, repo, names[k]@) == Some(
                    x.label,
                );
            lemma_label_named(labels, repo, names[k]@);
            assert(texts(names)[k] == name);
        }
        if texts(names).contains(name) {
            let k = choose|k: int| 0 <= k < texts(names).len() && texts(names)[k] == name;
            assert(names[k]@ == name);
            assert(find_label(labels, repo, names[k]@) is Some);
            let id = find_label(labels, repo, names[k]@)->0;
            let x = IssueLabel { repo, issue: number, label: id };
            lemma_label_named(labels, repo, name);
            assert(attaches(labels, repo, names, id));
            assert(after.links.contains(x) <==> base.links.contains(x) || (of_issue(
                x,
                repo,
                number,
            ) && attaches(labels, repo, names, x.label)));
            assert(after.links.contains(x) && of_issue(x, repo, number) && label_name(
                labels,
                x.label,
            ) == Some(name));
        }
    }
}

/// A label that is found is still found, under the same identifier, when a row is
/// added to the table.
pub proof fn lemma_found_after_push(
    labels: Seq<LabelView>,
    row: LabelView,
    repo: i64,
    name: Seq<char>,
)
    ensures
        find_label(labels, repo, name) is Some ==> find_label(labels.push(row), repo, name)
            == find_label(labels, repo, name),
        row.repo == repo && row.name == name ==> find_label(labels.push(row), repo, name) is Some,
    decreases labels.len(),
{
    if labels.len() > 0 {
        assert(labels.push(row).drop_first() =~= labels.drop_first().push(row));
        lemma_found_after_push(labels.drop_first(), row, repo, name);
    } else {
        assert(labels.push(row)[0] == row);
    }
}

/// Whether `name` is the name of a label at one of the places `edges`.
pub open spec fn label_reported(edges: Seq<Option<LabelEdge>>, name: Seq<char>) -> bool {
    exists|i: int| 0 <= i < edges.len() && #[trigger] label_at(edges[i]) == Some(name)
}

/// The name of the label at a place of a page; none where the place is empty or
/// holds no label.
pub open spec fn label_at(edge: Option<LabelEdge>) -> Option<Seq<char>> {
    match edge {
        Some(LabelEdge { node: Some(name), .. }) => Some(name@),
        _ => None,
    }
}

/// After a label was added, it is found, and so is every label that was found
/// before, under its identifier. No row is taken away.
pub proof fn lemma_label_added(store: StoreView, repo: i64, name: Seq<char>, other: Seq<char>)
    requires
        store.label_added(repo, name) is Ok,
    ensures
        find_label(store.label_added(repo, name)->Ok_0.labels, repo, name) is Some,
        find_label(store.labels, repo, other) is Some ==> find_label(
            store.label_added(repo, name)->Ok_0.labels,
            repo,
            other,
        ) == find_label(store.labels, repo, other),
        store.labels.is_prefix_of(store.label_added(repo, name)->Ok_0.labels),
        store.label_added(repo, name)->Ok_0.repositories == store.repositories,
        store.label_added(repo, name)->Ok_0.issues == store.issues,
        store.label_added(repo, name)->Ok_0.links == store.links,
{
    if find_label(store.labels, repo, name) is None {
        let id = fresh_id(store.last_label_id())->0;
        let row = LabelView { id, repo, name };
        lemma_found_after_push(store.labels, row, repo, name);
        lemma_found_after_push(store.labels, row, repo, other);
    }
}

/// After a synchronisation of labels, every label that the
/// store held is held as before, and each reported name is the name of a label of
/// the repository; issues, links and repositories are as they were.
pub proof fn law_labels_kept(store: StoreView, repo: i64, edges: Seq<Option<LabelEdge>>)
    requires
        labels_synced(store, repo, edges) is Ok,
    ensures
        store.labels.is_prefix_of(labels_synced(store, repo, edges)->Ok_0.labels),
        labels_synced(store, repo, edges)->Ok_0.repositories == store.repositories,
        labels_synced(store, repo, edges)->Ok_0.issues == store.issues,
        labels_synced(store, repo, edges)->Ok_0.links == store.links,
        forall|name: Seq<char>| #[trigger]
            find_label(store.labels, repo, name) is Some ==> find_label(
                labels_synced(store, repo, edges)->Ok_0.labels,
                repo,
                name,
            ) == find_label(store.labels, repo, name),
        forall|name: Seq<char>| #[trigger]
            label_reported(edges, name) ==> find_label(
                labels_synced(store, repo, edges)->Ok_0.labels,
                repo,
                name,
            ) is Some,
    decreases edges.len(),
{
    let after = labels_synced(store, repo, edges)->Ok_0;
    if edges.len() > 0 {
        let rest = edges.drop_last();
        let before = labels_synced(store, repo, rest)->Ok_0;
        law_labels_kept(store, repo, rest);
        assert(edges[edges.len() - 1] == edges.last());
        match label_at(edges.last()) {
            Some(last) => {
                assert(after == before.label_added(repo, last)->Ok_0);
                assert forall|name: Seq<char>| #[trigger]
                    find_label(store.labels, repo, name) is Some implies find_label(
                    after.labels,
                    repo,
                    name,
                ) == find_label(store.labels, repo, name) by {
                    lemma_label_added(before, repo, last, name);
                }
                assert forall|name: Seq<char>| #[trigger]
                    label_reported(edges, name) implies find_label(after.labels, repo, name)
                    is Some by {
                    let i = choose|i: int|
                        0 <= i < edges.len() && #[trigger] label_at(edges[i]) == Some(name);
                    lemma_label_added(before, repo, last, name);
                    if i < rest.len() {
                        assert(rest[i] == edges[i]);
                        assert(label_reported(rest, name));
                    }
                }
                lemma_label_added(before, repo, last, last);
            },
            None => {
                assert(after == before);
                assert forall|name: Seq<char>| #[trigger]
                    label_reported(edges, name) implies find_label(after.labels, repo, name)
                    is Some by {
                    let i = choose|i: int|
                        0 <= i < edges.len() && #[trigger] label_at(edges[i]) == Some(name);
                    assert(i < rest.len());
                    assert(rest[i] == edges[i]);
                    assert(label_reported(rest, name));
                }
            },
        }
    } else {
        assert forall|name: Seq<char>| #[trigger]
            label_reported(edges, name) implies find_label(after.labels, repo, name) is Some by {}
    }
}

/// After the labels of `edges` were synchronised,
/// synchronising any of them again changes nothing.
pub proof fn law_labels_idempotent(
    store: StoreView,
    repo: i64,
    edges: Seq<Option<LabelEdge>>,
    again: Seq<Option<LabelEdge>>,
)
    requires
        labels_synced(store, repo, edges) is Ok,
        forall|j: int|
            0 <= j < again.len() && (#[trigger] label_at(again[j])) is Some ==> label_reported(
                edges,
                label_at(again[j])->0,
            ),
    ensures
        labels_synced(labels_synced(store, repo, edges)->Ok_0, repo, again) == labels_synced(
            store,
            repo,
            edges,
        ),
    decreases again.len(),
{
    if again.len() > 0 {
        let rest = again.drop_last();
        assert forall|j: int|
            0 <= j < rest.len() && (#[trigger] label_at(rest[j])) is Some implies label_reported(
            edges,
            label_at(rest[j])->0,
        ) by {
            assert(rest[j] == again[j]);
        }
        law_labels_idempotent(store, repo, edges, rest);
        law_labels_kept(store, repo, edges);
        assert(again[again.len() - 1] == again.last());
        match label_at(again.last()) {
            Some(last) => {
                assert(label_reported(edges, last));
            },
            None => {},
        }
    }
}

/// Synchronising page after page is synchronising the places of all the pages in
/// order: what holds of one sequence of places holds of a synchronisation over any
/// number of pages.
pub proof fn law_issue_pages(
    store: StoreView,
    repo: i64,
    first: Seq<Option<IssueEdge>>,
    second: Seq<Option<IssueEdge>>,
)
    ensures
        edges_synced(store, repo, first + second) == match edges_synced(store, repo, first) {
            Ok(between) => edges_synced(between, repo, second),
            Err(e) => Err(e),
        },
    decreases second.len(),
{
    if second.len() == 0 {
        assert(first + second =~= first);
    } else {
        assert((first + second).drop_last() =~= first + second.drop_last());
        assert((first + second).last() == second.last());
        law_issue_pages(store, repo, first, second.drop_last());
    }
}

/// Synchronising the labels page after page is synchronising the places of all the
/// pages in order.
pub proof fn law_label_pages(
    store: StoreView,
    repo: i64,
    first: Seq<Option<LabelEdge>>,
    second: Seq<Option<LabelEdge>>,
)
    ensures
        labels_synced(store, repo, first + second) == match labels_synced(store, repo, first) {
            Ok(between) => labels_synced(between, repo, second),
            Err(e) => Err(e),
        },
    decreases second.len(),
{
    if second.len() == 0 {
        assert(first + second =~= first);
    } else {
        assert((first + second).drop_last() =~= first + second.drop_last());
        assert((first + second).last() == second.last());
        law_label_pages(store, repo, first, second.drop_last());
    }
}

/// The places of `edges` whose issue was updated at or after `since`: what an
/// unchanged remote reports when it is asked for the issues from `since` on.
pub open spec fn reported_since(edges: Seq<Option<IssueEdge>>, since: i64) -> Seq<
    Option<IssueEdge>,
> {
    edges.filter(
        |edge: Option<IssueEdge>|
            node_of(edge) is Some && rfc3339_seconds(node_of(edge)->0.updated_at@) is Some
                && rfc3339_seconds(node_of(edge)->0.updated_at@)->0 >= since,
    )
}

/// After the issues of `edges`, whose
/// numbers are distinct, were synchronised, a synchronisation that resumes from the
/// watermark of the store, and gets from the unchanged remote the issues updated at
/// or after it, leaves the store as it is.
pub proof fn law_resumed_sync_idempotent(
    store: StoreView,
    repo: i64,
    edges: Seq<Option<IssueEdge>>,
    since: i64,
)
    requires
        store.wf(),
        distinct_numbers(edges),
        edges_synced(store, repo, edges) is Ok,
        watermark(edges_synced(store, repo, edges)->Ok_0.issues, repo) == Some(since),
    ensures
        edges_synced(
            edges_synced(store, repo, edges)->Ok_0,
            repo,
            reported_since(edges, since),
        ) == edges_synced(store, repo, edges),
{
    let again = reported_since(edges, since);
    lemma_filter_members(
        edges,
        |edge: Option<IssueEdge>|
            node_of(edge) is Some && rfc3339_seconds(node_of(edge)->0.updated_at@) is Some
                && rfc3339_seconds(node_of(edge)->0.updated_at@)->0 >= since,
    );
    assert forall|j: int|
        0 <= j < again.len() && node_of(#[trigger] again[j]) is Some implies reported(
        edges,
        node_of(again[j])->0,
    ) by {
        assert(again.contains(again[j]));
        assert(edges.contains(again[j]));
        let i = choose|i: int| 0 <= i < edges.len() && edges[i] == again[j];
        assert(node_of(edges[i]) == Some(node_of(again[j])->0));
    }
    law_issues_idempotent(store, repo, edges, again);
}

/// The invariants of the data model hold after every synchronisation of issues of a
/// store in which they held, and the synchronisation leaves repositories and labels
/// as they were.
pub proof fn law_issues_keep_invariants(store: StoreView, repo: i64, edges: Seq<Option<IssueEdge>>)
    requires
        store.wf(),
        edges_synced(store, repo, edges) is Ok,
    ensures
        edges_synced(store, repo, edges)->Ok_0.wf(),
        edges_synced(store, repo, edges)->Ok_0.repositories == store.repositories,
        edges_synced(store, repo, edges)->Ok_0.labels == store.labels,
    decreases edges.len(),
{
    if edges.len() > 0 {
        law_issues_keep_invariants(store, repo, edges.drop_last());
        match node_of(edges.last()) {
            Some(node) => {
                lemma_node_synced(edges_synced(store, repo, edges.drop_last())->Ok_0, repo, node);
            },
            None => {},
        }
    }
}

/// The invariants of the data model hold after every synchronisation of labels of a
/// store in which they held.
pub proof fn law_labels_keep_invariants(store: StoreView, repo: i64, edges: Seq<Option<LabelEdge>>)
    requires
        store.wf(),
        labels_synced(store, repo, edges) is Ok,
    ensures
        labels_synced(store, repo, edges)->Ok_0.wf(),
    decreases edges.len(),
{
    if edges.len() > 0 {
        law_labels_keep_invariants(store, repo, edges.drop_last());
        match label_at(edges.last()) {
            Some(name) => {
                lemma_label_added_wf(labels_synced(store, repo, edges.drop_last())->Ok_0, repo, name);
            },
            None => {},
        }
    }
}

/// Where a synchronisation was ended behind the
/// first `k` places, and what it left was kept, synchronising all the places again
/// gives what an undisturbed synchronisation gives.
pub proof fn law_rerun_after_failure(
    store: StoreView,
    repo: i64,
    edges: Seq<Option<IssueEdge>>,
    k: int,
)
    requires
        store.wf(),
        distinct_numbers(edges),
        0 <= k <= edges.len(),
        edges_synced(store, repo, edges.take(k)) is Ok,
    ensures
        edges_synced(edges_synced(store, repo, edges.take(k))->Ok_0, repo, edges) == edges_synced(
            store,
            repo,
            edges,
        ),
{
    let first = edges.take(k);
    let rest = edges.skip(k);
    let between = edges_synced(store, repo, first)->Ok_0;
    assert(first + rest =~= edges);
    assert forall|i: int, j: int|
        0 <= i < j < first.len() && node_of(#[trigger] first[i]) is Some && node_of(
            #[trigger] first[j],
        ) is Some implies node_of(first[i])->0.number != node_of(first[j])->0.number by {
        assert(first[i] == edges[i] && first[j] == edges[j]);
    }
    assert forall|j: int|
        0 <= j < first.len() && node_of(#[trigger] first[j]) is Some implies reported(
        first,
        node_of(first[j])->0,
    ) by {}
    law_issues_idempotent(store, repo, first, first);
    law_issue_pages(store, repo, first, rest);
    law_issue_pages(between, repo, first, rest);
}

} // verus!
