//! Facts about the tables of the store: what a table holds after a row was placed
//! in it or taken from it, and that a table in key order is determined by what it
//! holds.

use vstd::prelude::*;

use crate::seqs::{lemma_add_members, lemma_filter_members};
use crate::store::{
    find_label, fresh_id, holds_issue, holds_label, holds_repository, issue_lt, issues_above,
    issues_ascending, issues_below, issues_placed, labels_wf, lemma_find_label_none,
    lemma_issue_placed, lemma_link_placed, lemma_links_without, link_lt, links_above,
    links_ascending, links_below, links_placed, links_without, IssueLabel, IssueView, LabelView,
    StoreView,
};

verus! {

/// `links_placed` holds the placed link and every link that was there.
pub proof fn lemma_links_placed_members(rows: Seq<IssueLabel>, row: IssueLabel)
    ensures
        forall|x: IssueLabel|
            #[trigger] links_placed(rows, row).contains(x) <==> x == row || rows.contains(x),
{
    let below = links_below(rows, row);
    let above = links_above(rows, row);
    lemma_filter_members(rows, |r: IssueLabel| link_lt(r, row));
    lemma_filter_members(rows, |r: IssueLabel| link_lt(row, r));
    lemma_add_members(below, seq![row]);
    lemma_add_members(below + seq![row], above);
    assert forall|x: IssueLabel| #[trigger]
        links_placed(rows, row).contains(x) <==> x == row || rows.contains(x) by {
        assert(seq![row].contains(x) <==> x == row) by {
            if x == row {
                assert(seq![row][0] == x);
            }
        }
        assert(below.contains(x) <==> rows.contains(x) && link_lt(x, row));
        assert(above.contains(x) <==> rows.contains(x) && link_lt(row, x));
    }
}

/// `links_without` holds every link that was there but those of the issue.
pub proof fn lemma_links_without_members(rows: Seq<IssueLabel>, repo: i64, number: i64)
    ensures
        forall|x: IssueLabel|
            #[trigger] links_without(rows, repo, number).contains(x) <==> rows.contains(x) && !(
            x.repo == repo && x.issue == number),
{
    lemma_filter_members(rows, |r: IssueLabel| !(r.repo == repo && r.issue == number));
}

/// `issues_placed` holds the placed issue and every issue of another key that was
/// there.
pub proof fn lemma_issues_placed_members(rows: Seq<IssueView>, row: IssueView)
    ensures
        forall|x: IssueView|
            #[trigger] issues_placed(rows, row).contains(x) <==> x == row || (rows.contains(x)
                && !(x.repo == row.repo && x.number == row.number)),
{
    let below = issues_below(rows, row);
    let above = issues_above(rows, row);
    lemma_filter_members(rows, |r: IssueView| issue_lt(r, row));
    lemma_filter_members(rows, |r: IssueView| issue_lt(row, r));
    lemma_add_members(below, seq![row]);
    lemma_add_members(below + seq![row], above);
    assert forall|x: IssueView| #[trigger]
        issues_placed(rows, row).contains(x) <==> x == row || (rows.contains(x) && !(x.repo
            == row.repo && x.number == row.number)) by {
        assert(seq![row].contains(x) <==> x == row) by {
            if x == row {
                assert(seq![row][0] == x);
            }
        }
        assert(below.contains(x) <==> rows.contains(x) && issue_lt(x, row));
        assert(above.contains(x) <==> rows.contains(x) && issue_lt(row, x));
    }
}

/// Two link tables in key order that hold the same links are the same table.
pub proof fn lemma_links_canonical(a: Seq<IssueLabel>, b: Seq<IssueLabel>)
    requires
        links_ascending(a),
        links_ascending(b),
        forall|x: IssueLabel|
            #![trigger a.contains(x)]
            #![trigger b.contains(x)]
            a.contains(x) <==> b.contains(x),
    ensures
        a == b,
    decreases a.len(),
{
    if a.len() == 0 {
        if b.len() > 0 {
            assert(b.contains(b[0]));
        }
        assert(a =~= b);
    } else {
        assert(a.contains(a.last()));
        assert(b.contains(a.last()));
        assert(b.len() > 0);
        assert(b.contains(b.last()));
        assert(a.contains(b.last()));
        let i = choose|i: int| 0 <= i < b.len() && b[i] == a.last();
        let j = choose|j: int| 0 <= j < a.len() && a[j] == b.last();
        if i < b.len() - 1 {
            assert(link_lt(b[i], b[b.len() - 1]));
        }
        if j < a.len() - 1 {
            assert(link_lt(a[j], a[a.len() - 1]));
        }
        assert(a.last() == b.last());
        let a0 = a.drop_last();
        let b0 = b.drop_last();
        assert forall|x: IssueLabel| a0.contains(x) <==> b0.contains(x) by {
            if a0.contains(x) {
                let k = choose|k: int| 0 <= k < a0.len() && a0[k] == x;
                assert(a[k] == x);
                assert(link_lt(a[k], a[a.len() - 1]));
                assert(a.contains(x));
                let m = choose|m: int| 0 <= m < b.len() && b[m] == x;
                assert(b0[m] == x);
            }
            if b0.contains(x) {
                let k = choose|k: int| 0 <= k < b0.len() && b0[k] == x;
                assert(b[k] == x);
                assert(link_lt(b[k], b[b.len() - 1]));
                assert(b.contains(x));
                let m = choose|m: int| 0 <= m < a.len() && a[m] == x;
                assert(a0[m] == x);
            }
        }
        lemma_links_canonical(a0, b0);
        assert(a =~= a0.push(a.last()));
        assert(b =~= b0.push(b.last()));
    }
}

/// How many of the first rows of `rows` sort before `row`, where `rows` stands in
/// key order.
pub open spec fn issue_rank(rows: Seq<IssueView>, row: IssueView) -> int
    decreases rows.len(),
{
    if rows.len() == 0 {
        0
    } else if issue_lt(rows.last(), row) {
        rows.len() as int
    } else {
        issue_rank(rows.drop_last(), row)
    }
}

/// In a table in key order, the rows before the rank of `row` sort before it, and
/// the row at its rank does not.
pub proof fn lemma_issue_rank(rows: Seq<IssueView>, row: IssueView)
    requires
        issues_ascending(rows),
    ensures
        0 <= issue_rank(rows, row) <= rows.len(),
        forall|j: int| 0 <= j < issue_rank(rows, row) ==> issue_lt(#[trigger] rows[j], row),
        issue_rank(rows, row) < rows.len() ==> !issue_lt(rows[issue_rank(rows, row)], row),
    decreases rows.len(),
{
    if rows.len() > 0 {
        if issue_lt(rows.last(), row) {
            assert forall|j: int| 0 <= j < rows.len() implies issue_lt(#[trigger] rows[j], row) by {
                if j < rows.len() - 1 {
                    assert(issue_lt(rows[j], rows[rows.len() - 1]));
                }
            }
        } else {
            let rest = rows.drop_last();
            assert forall|i: int, j: int| 0 <= i < j < rest.len() implies issue_lt(
                #[trigger] rest[i],
                #[trigger] rest[j],
            ) by {
                assert(issue_lt(rows[i], rows[j]));
            }
            lemma_issue_rank(rest, row);
            let at = issue_rank(rest, row);
            assert forall|j: int| 0 <= j < at implies issue_lt(#[trigger] rows[j], row) by {
                assert(rows[j] == rest[j]);
            }
            if at < rest.len() {
                assert(rows[at] == rest[at]);
            }
        }
    }
}

/// How many of the first rows of `rows` sort before `row`, where `rows` stands in
/// key order.
pub open spec fn link_rank(rows: Seq<IssueLabel>, row: IssueLabel) -> int
    decreases rows.len(),
{
    if rows.len() == 0 {
        0
    } else if link_lt(rows.last(), row) {
        rows.len() as int
    } else {
        link_rank(rows.drop_last(), row)
    }
}

/// In a table in key order, the rows before the rank of `row` sort before it, and
/// the row at its rank does not.
pub proof fn lemma_link_rank(rows: Seq<IssueLabel>, row: IssueLabel)
    requires
        links_ascending(rows),
    ensures
        0 <= link_rank(rows, row) <= rows.len(),
        forall|j: int| 0 <= j < link_rank(rows, row) ==> link_lt(#[trigger] rows[j], row),
        link_rank(rows, row) < rows.len() ==> !link_lt(rows[link_rank(rows, row)], row),
    decreases rows.len(),
{
    if rows.len() > 0 {
        if link_lt(rows.last(), row) {
            assert forall|j: int| 0 <= j < rows.len() implies link_lt(#[trigger] rows[j], row) by {
                if j < rows.len() - 1 {
                    assert(link_lt(rows[j], rows[rows.len() - 1]));
                }
            }
        } else {
            let rest = rows.drop_last();
            assert forall|i: int, j: int| 0 <= i < j < rest.len() implies link_lt(
                #[trigger] rest[i],
                #[trigger] rest[j],
            ) by {
                assert(link_lt(rows[i], rows[j]));
            }
            lemma_link_rank(rest, row);
            let at = link_rank(rest, row);
            assert forall|j: int| 0 <= j < at implies link_lt(#[trigger] rows[j], row) by {
                assert(rows[j] == rest[j]);
            }
            if at < rest.len() {
                assert(rows[at] == rest[at]);
            }
        }
    }
}

/// Storing an issue of a stored repository keeps the invariants of the data model.
pub proof fn lemma_with_issue_wf(store: StoreView, row: IssueView)
    requires
        store.wf(),
        holds_repository(store.repositories, row.repo),
    ensures
        store.with_issue(row).wf(),
        holds_issue(store.with_issue(row).issues, row.repo, row.number),
{
    reveal(StoreView::wf);
    lemma_issue_rank(store.issues, row);
    lemma_issue_placed(store.issues, row, issue_rank(store.issues, row));
    let placed = issues_placed(store.issues, row);
    assert forall|k: int| 0 <= k < placed.len() implies holds_repository(
        store.repositories,
        (#[trigger] placed[k]).repo,
    ) by {
        if placed[k] != row {
            let j = choose|j: int| 0 <= j < store.issues.len() && store.issues[j] == placed[k];
            assert(holds_repository(store.repositories, store.issues[j].repo));
        }
    }
}

/// Detaching the labels of an issue keeps the invariants of the data model.
pub proof fn lemma_without_links_wf(store: StoreView, repo: i64, number: i64)
    requires
        store.wf(),
    ensures
        store.without_links(repo, number).wf(),
{
    reveal(StoreView::wf);
    lemma_links_without(store.links, repo, number);
    let after = store.without_links(repo, number);
    assert forall|k: int| 0 <= k < after.links.len() implies holds_issue(
        after.issues,
        (#[trigger] after.links[k]).repo,
        after.links[k].issue,
    ) && holds_label(after.labels, after.links[k].repo, after.links[k].label) by {
        assert(store.links.contains(after.links[k]));
        let j = choose|j: int| 0 <= j < store.links.len() && store.links[j] == after.links[k];
        assert(holds_issue(store.issues, store.links[j].repo, store.links[j].issue));
    }
}

/// Attaching a stored label to a stored issue that does not carry it keeps the
/// invariants of the data model.
pub proof fn lemma_with_link_wf(store: StoreView, row: IssueLabel)
    requires
        store.wf(),
        holds_issue(store.issues, row.repo, row.issue),
        holds_label(store.labels, row.repo, row.label),
        !store.links.contains(row),
    ensures
        store.with_link(row).wf(),
{
    reveal(StoreView::wf);
    lemma_link_rank(store.links, row);
    let at = link_rank(store.links, row);
    lemma_link_placed(store.links, row, at);
    let placed = links_placed(store.links, row);
    assert forall|k: int| 0 <= k < placed.len() implies holds_issue(
        store.issues,
        (#[trigger] placed[k]).repo,
        placed[k].issue,
    ) && holds_label(store.labels, placed[k].repo, placed[k].label) by {
        if k < at {
            assert(placed[k] == store.links[k]);
        } else if k > at {
            assert(placed[k] == store.links[k - 1]);
        }
    }
}

/// Storing an issue that the table in key order holds already changes nothing.
pub proof fn lemma_issue_placed_again(rows: Seq<IssueView>, row: IssueView)
    requires
        issues_ascending(rows),
        rows.contains(row),
    ensures
        issues_placed(rows, row) == rows,
{
    lemma_issue_rank(rows, row);
    let at = issue_rank(rows, row);
    lemma_issue_placed(rows, row, at);
    let k = choose|k: int| 0 <= k < rows.len() && rows[k] == row;
    if k < at {
        assert(issue_lt(rows[k], row));
    }
    if k > at {
        assert(issue_lt(rows[at], rows[k]));
    }
    assert(k == at);
    assert(rows.update(at, row) =~= rows);
}

/// A store that satisfies the invariants keeps its tables in key order.
pub proof fn lemma_wf_order(store: StoreView)
    requires
        store.wf(),
    ensures
        issues_ascending(store.issues),
        links_ascending(store.links),
        labels_wf(store.labels),
{
    reveal(StoreView::wf);
}

/// Adding a label keeps the invariants of the data model.
pub proof fn lemma_label_added_wf(store: StoreView, repo: i64, name: Seq<char>)
    requires
        store.wf(),
        store.label_added(repo, name) is Ok,
    ensures
        store.label_added(repo, name)->Ok_0.wf(),
{
    reveal(StoreView::wf);
    if find_label(store.labels, repo, name) is None {
        let id = fresh_id(store.last_label_id())->0;
        let row = LabelView { id, repo, name };
        let after = store.with_label(row);
        lemma_find_label_none(store.labels, repo, name);
        assert forall|i: int, j: int| 0 <= i < j < after.labels.len() implies (
        #[trigger] after.labels[i]).id < (#[trigger] after.labels[j]).id && !(after.labels[i].repo
            == after.labels[j].repo && after.labels[i].name == after.labels[j].name) by {
            if j == store.labels.len() {
                if i < store.labels.len() - 1 {
                    assert(store.labels[i].id < store.labels[store.labels.len() - 1].id);
                }
            }
        }
        assert forall|i: int| 0 <= i < after.links.len() implies holds_issue(
            after.issues,
            (#[trigger] after.links[i]).repo,
            after.links[i].issue,
        ) && holds_label(after.labels, after.links[i].repo, after.links[i].label) by {
            let l = store.links[i];
            assert(holds_label(store.labels, l.repo, l.label));
            let w = choose|w: int|
                0 <= w < store.labels.len() && (#[trigger] store.labels[w]).repo == l.repo
                    && store.labels[w].id == l.label;
            assert(after.labels[w].repo == l.repo);
        }
    }
}

} // verus!
