//! The synchronisation of labels: every label of the remote is stored, and none is
//! ever removed.

use vstd::prelude::*;

use crate::error::Error;
use crate::query::issues::optional_text;
use crate::store::{Store, StoreView};

verus! {

/// One place in a page of labels: the cursor that leads past it, and the name of the
/// label, where the remote could give it.
#[derive(Debug)]
pub struct LabelEdge {
    pub cursor: String,
    pub node: Option<String>,
}

/// One page of the remote's answer.
#[derive(Debug)]
pub struct LabelPage {
    pub has_next_page: bool,
    pub edges: Vec<Option<LabelEdge>>,
}

/// The variables of one request for a page of labels.
#[derive(Debug)]
pub struct RepoLabels {
    pub owner: String,
    pub name: String,
    /// The cursor after which the page starts.
    pub after: Option<String>,
}

/// The variables of a request for labels, with each text as the sequence of its characters.
pub struct RepoLabelsView {
    pub owner: Seq<char>,
    pub name: Seq<char>,
    pub after: Option<Seq<char>>,
}

impl View for RepoLabels {
    type V = RepoLabelsView;

    open spec fn view(&self) -> RepoLabelsView {
        RepoLabelsView { owner: self.owner@, name: self.name@, after: optional_text(self.after) }
    }
}

/// How far the synchronisation of one repository's labels has come.
#[derive(Debug)]
pub struct LabelSync {
    pub repo: i64,
    pub owner: String,
    pub name: String,
    /// The cursor of the last place seen.
    pub cursor: Option<String>,
    /// Whether another page is to be asked for.
    pub has_next_page: bool,
}

/// The state of a synchronisation of labels, with each text as the sequence of its characters.
pub struct LabelSyncView {
    pub repo: i64,
    pub owner: Seq<char>,
    pub name: Seq<char>,
    pub cursor: Option<Seq<char>>,
    pub has_next_page: bool,
}

impl View for LabelSync {
    type V = LabelSyncView;

    open spec fn view(&self) -> LabelSyncView {
        LabelSyncView {
            repo: self.repo,
            owner: self.owner@,
            name: self.name@,
            cursor: optional_text(self.cursor),
            has_next_page: self.has_next_page,
        }
    }
}

/// The store after the labels of `edges` were added in order: each name that the
/// repository has no label for yet gets a row. A place without a label is passed
/// over; the first error ends the synchronisation.
pub open spec fn labels_synced(store: StoreView, repo: i64, edges: Seq<Option<LabelEdge>>)
    -> Result<StoreView, Error>
    decreases edges.len(),
{
    if edges.len() == 0 {
        Ok(store)
    } else {
        match labels_synced(store, repo, edges.drop_last()) {
            Err(e) => Err(e),
            Ok(before) => match edges.last() {
                Some(LabelEdge { node: Some(name), .. }) => before.label_added(repo, name@),
                _ => Ok(before),
            },
        }
    }
}

/// The cursor after the places `edges` were seen: that of the last place among them,
/// and `cursor` where there is none.
pub open spec fn cursor_after(cursor: Option<Seq<char>>, edges: Seq<Option<LabelEdge>>) -> Option<
    Seq<char>,
>
    decreases edges.len(),
{
    if edges.len() == 0 {
        cursor
    } else {
        match edges.last() {
            Some(edge) => Some(edge.cursor@),
            None => cursor_after(cursor, edges.drop_last()),
        }
    }
}

/// Whether `edges` holds a place.
pub open spec fn any_place(edges: Seq<Option<LabelEdge>>) -> bool {
    exists|i: int| 0 <= i < edges.len() && (#[trigger] edges[i]) is Some
}

impl LabelSyncView {
    /// The state in which the synchronisation of the labels of `owner/name` begins.
    pub open spec fn begun(repo: i64, owner: Seq<char>, name: Seq<char>) -> LabelSyncView {
        LabelSyncView { repo, owner, name, cursor: None, has_next_page: true }
    }

    /// The state after the remote's answer `page` was seen. Where the remote gave no
    /// page, or a page without a place, no other page is asked for.
    pub open spec fn advanced(self, page: Option<LabelPage>) -> LabelSyncView {
        match page {
            Some(page) => LabelSyncView {
                cursor: cursor_after(self.cursor, page.edges@),
                has_next_page: page.has_next_page && any_place(page.edges@),
                ..self
            },
            None => LabelSyncView { has_next_page: false, ..self },
        }
    }

    /// The request for the next page; none when the last page was seen.
    pub open spec fn request(self) -> Option<RepoLabelsView> {
        if self.has_next_page {
            Some(RepoLabelsView { owner: self.owner, name: self.name, after: self.cursor })
        } else {
            None
        }
    }
}

/// The places of the remote's answer; none where it gave no page.
pub open spec fn places(page: Option<LabelPage>) -> Seq<Option<LabelEdge>> {
    match page {
        Some(page) => page.edges@,
        None => Seq::empty(),
    }
}

impl LabelSync {
    /// The request for the next page; none when the last page was seen.
    pub fn query(&self) -> (request: Option<RepoLabels>)
        ensures
            request is Some == self@.request() is Some,
            request is Some ==> request->0@ == self@.request()->0,
    {
        if self.has_next_page {
            Some(
                RepoLabels {
                    owner: self.owner.clone(),
                    name: self.name.clone(),
                    after: match &self.cursor {
                        Some(cursor) => Some(cursor.clone()),
                        None => None,
                    },
                },
            )
        } else {
            None
        }
    }
}

/// Begins the synchronisation of the labels of `owner/name`: resolves the repository,
/// storing it where it is new. Every synchronisation asks for the whole list.
pub fn begin(store: &mut Store, owner: &str, name: &str) -> (begun: Result<LabelSync, Error>)
    ensures
        match old(store)@.resolved(owner@, name@) {
            Ok((after, repo)) => final(store)@ == after && begun is Ok && begun->Ok_0@
                == LabelSyncView::begun(repo, owner@, name@),
            Err(e) => final(store)@ == old(store)@ && begun is Err && begun->Err_0 == e,
        },
{
    match crate::query::repo_id(store, owner, name) {
        Ok(repo) => Ok(
            LabelSync {
                repo,
                owner: owner.to_owned(),
                name: name.to_owned(),
                cursor: None,
                has_next_page: true,
            },
        ),
        Err(e) => Err(e),
    }
}

/// An error in adding the labels of the first `k` places is the error in adding them
/// all.
pub proof fn lemma_synced_error(store: StoreView, repo: i64, edges: Seq<Option<LabelEdge>>, k: int)
    requires
        0 <= k <= edges.len(),
        labels_synced(store, repo, edges.take(k)) is Err,
    ensures
        labels_synced(store, repo, edges) == labels_synced(store, repo, edges.take(k)),
    decreases edges.len() - k,
{
    if k < edges.len() {
        assert(edges.take(k + 1).drop_last() =~= edges.take(k));
        lemma_synced_error(store, repo, edges, k + 1);
    } else {
        assert(edges.take(k) =~= edges);
    }
}

/// How many of the first places of `edges` are synchronised before an error ends the
/// synchronisation: all of them where there is no error.
pub open spec fn places_synced(store: StoreView, repo: i64, edges: Seq<Option<LabelEdge>>) -> nat
    decreases edges.len(),
{
    if edges.len() == 0 || labels_synced(store, repo, edges) is Ok {
        edges.len()
    } else {
        places_synced(store, repo, edges.drop_last())
    }
}

/// Where the first `k` places are synchronised and the next one is not, `k` places
/// are synchronised of any longer sequence.
pub proof fn lemma_places_synced(
    store: StoreView,
    repo: i64,
    edges: Seq<Option<LabelEdge>>,
    k: int,
    n: int,
)
    requires
        0 <= k < n <= edges.len(),
        labels_synced(store, repo, edges.take(k)) is Ok,
        labels_synced(store, repo, edges.take(k + 1)) is Err,
    ensures
        places_synced(store, repo, edges.take(n)) == k,
    decreases n,
{
    assert(edges.take(n).take(k + 1) =~= edges.take(k + 1));
    lemma_synced_error(store, repo, edges.take(n), k + 1);
    assert(edges.take(n).drop_last() =~= edges.take(n - 1));
    if n > k + 1 {
        lemma_places_synced(store, repo, edges, k, n - 1);
    } else {
        assert(places_synced(store, repo, edges.take(k)) == k);
    }
}

impl LabelSyncView {
    /// The state after an error ended the synchronisation of a page behind the places
    /// `kept`: the cursor stands behind them, and the page is still to be asked for.
    pub open spec fn held(self, kept: Seq<Option<LabelEdge>>) -> LabelSyncView {
        LabelSyncView { cursor: cursor_after(self.cursor, kept), ..self }
    }
}

/// Synchronises one answer of the remote into the store, and moves `sync` past it.
/// Each label of the page that the repository does not have yet is stored; no stored
/// label is ever removed. The first label that cannot be stored ends the
/// synchronisation with its error: the labels before it are stored, and nothing else
/// is changed.
pub fn update(store: &mut Store, sync: &mut LabelSync, page: &Option<LabelPage>) -> (updated:
    Result<(), Error>)
    ensures
        match labels_synced(old(store)@, old(sync).repo, places(*page)) {
            Ok(after) => updated == Ok::<(), Error>(()) && final(store)@ == after && final(sync)@
                == old(sync)@.advanced(*page),
            Err(e) => {
                let kept = places(*page).take(
                    places_synced(old(store)@, old(sync).repo, places(*page)) as int,
                );
                updated == Err::<(), Error>(e) && labels_synced(old(store)@, old(sync).repo, kept)
                    == Ok::<StoreView, Error>(final(store)@) && final(sync)@ == old(sync)@.held(
                    kept,
                )
            },
        },
{
    let answer = match page {
        Some(answer) => answer,
        None => {
            sync.has_next_page = false;
            return Ok(());
        },
    };
    let ghost start = store@;
    let ghost begun = sync@;
    let repo = sync.repo;
    let mut seen: bool = false;
    let mut i: usize = 0;
    proof {
        assert(answer.edges@.take(0) =~= Seq::<Option<LabelEdge>>::empty());
    }
    while i < answer.edges.len()
        invariant
            0 <= i <= answer.edges.len(),
            start == old(store)@,
            begun == old(sync)@,
            places(*page) == answer.edges@,
            repo == old(sync).repo,
            labels_synced(start, repo, answer.edges@.take(i as int)) == Ok::<StoreView, Error>(
                store@,
            ),
            sync@ == begun.held(answer.edges@.take(i as int)),
            seen == any_place(answer.edges@.take(i as int)),
        decreases answer.edges.len() - i,
    {
        proof {
            let next = answer.edges@.take(i + 1);
            assert(next.drop_last() =~= answer.edges@.take(i as int));
            assert(next.last() == answer.edges@[i as int]);
            if answer.edges@[i as int] is Some {
                assert(next[i as int] is Some);
            } else if any_place(next) {
                let w = choose|w: int| 0 <= w < next.len() && (#[trigger] next[w]) is Some;
                assert(answer.edges@.take(i as int)[w] is Some);
            } else if any_place(answer.edges@.take(i as int)) {
                let w = choose|w: int|
                    0 <= w < i && (#[trigger] answer.edges@.take(i as int)[w]) is Some;
                assert(next[w] is Some);
            }
        }
        match &answer.edges[i] {
            Some(edge) => {
                match &edge.node {
                    Some(name) => {
                        match store.add_label(repo, name.as_str()) {
                            Ok(_) => {},
                            Err(e) => {
                                proof {
                                    assert(labels_synced(start, repo, answer.edges@.take(i + 1))
                                        == Err::<StoreView, Error>(e));
                                    lemma_synced_error(start, repo, answer.edges@, i + 1);
                                    lemma_places_synced(
                                        start,
                                        repo,
                                        answer.edges@,
                                        i as int,
                                        answer.edges@.len() as int,
                                    );
                                    assert(answer.edges@.take(answer.edges@.len() as int)
                                        =~= answer.edges@);
                                }
                                return Err(e);
                            },
                        }
                    },
                    None => {},
                }
                seen = true;
                sync.cursor = Some(edge.cursor.clone());
            },
            None => {},
        }
        i = i + 1;
    }
    proof {
        assert(answer.edges@.take(i as int) =~= answer.edges@);
    }
    sync.has_next_page = answer.has_next_page && seen;
    Ok(())
}

} // verus!
