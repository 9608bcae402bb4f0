//! The synchronisation of issues: page by page, from the latest stored update time
//! on.

use vstd::prelude::*;

use crate::error::Error;
use crate::query::theorems::lemma_node_stored;
use crate::store::{
    find_label, holds_issue, holds_repository, issues_below, issues_placed, lemma_find_label_some,
    watermark, Issue, IssueLabel, IssueView, LabelView, Store, StoreView,
};
use crate::text::same_text;
use crate::time::{format_rfc3339, parse_rfc3339, rfc3339_seconds, rfc3339_text};

verus! {

/// Whether an issue is open or closed; `Other` holds a state that the remote may
/// come to report and that this library does not know.
#[allow(non_camel_case_types)]
#[derive(Debug)]
pub enum IssueState {
    OPEN,
    CLOSED,
    Other(String),
}

/// The integer under which an open issue is stored.
pub const STATE_OPEN: i64 = 0;

/// The integer under which a closed issue is stored.
pub const STATE_CLOSED: i64 = 1;

/// The integer under which an issue of any other state is stored.
pub const STATE_OTHER: i64 = 2;

impl IssueState {
    /// The integer under which the state is stored.
    pub open spec fn code(self) -> i64 {
        match self {
            IssueState::OPEN => STATE_OPEN,
            IssueState::CLOSED => STATE_CLOSED,
            IssueState::Other(_) => STATE_OTHER,
        }
    }

    /// The state that the remote names `name`: `OPEN` is open, `CLOSED` is closed,
    /// and any other name is kept as it is.
    pub fn from_name(name: String) -> (state: IssueState)
        ensures
            name@ == "OPEN"@ ==> state == IssueState::OPEN,
            name@ == "CLOSED"@ ==> state == IssueState::CLOSED,
            name@ != "OPEN"@ && name@ != "CLOSED"@ ==> state == IssueState::Other(name),
    {
        proof {
            reveal_strlit("OPEN");
            reveal_strlit("CLOSED");
            assert("OPEN"@.len() == 4 && "CLOSED"@.len() == 6);
        }
        if same_text(name.as_str(), "OPEN") {
            IssueState::OPEN
        } else if same_text(name.as_str(), "CLOSED") {
            IssueState::CLOSED
        } else {
            IssueState::Other(name)
        }
    }

    /// The state that is stored as `i`: open for 0, closed for 1, none for any other
    /// integer.
    pub fn from_integer(i: i64) -> (state: Option<IssueState>)
        ensures
            i == STATE_OPEN ==> state == Some(IssueState::OPEN),
            i == STATE_CLOSED ==> state == Some(IssueState::CLOSED),
            i != STATE_OPEN && i != STATE_CLOSED ==> state is None,
    {
        if i == STATE_OPEN {
            Some(IssueState::OPEN)
        } else if i == STATE_CLOSED {
            Some(IssueState::CLOSED)
        } else {
            None
        }
    }

    /// The integer under which the state is stored: 0 for open, 1 for closed, 2 for
    /// any other.
    pub fn to_integer(&self) -> (i: i64)
        ensures
            i == self.code(),
    {
        match self {
            IssueState::OPEN => STATE_OPEN,
            IssueState::CLOSED => STATE_CLOSED,
            IssueState::Other(_) => STATE_OTHER,
        }
    }

    /// The name of the state as a feed category: `open` or `closed`; none for any
    /// other state.
    pub fn to_string(&self) -> (name: Option<String>)
        ensures
            match *self {
                IssueState::OPEN => name is Some && name->0@ == "open"@,
                IssueState::CLOSED => name is Some && name->0@ == "closed"@,
                IssueState::Other(_) => name is None,
            },
    {
        match self {
            IssueState::OPEN => Some("open".to_owned()),
            IssueState::CLOSED => Some("closed".to_owned()),
            IssueState::Other(_) => None,
        }
    }
}

/// An issue as the remote reports it.
#[derive(Debug)]
pub struct IssueNode {
    pub number: i64,
    pub state: IssueState,
    pub title: String,
    pub body_html: String,
    pub url: String,
    /// The time of the last update, as an RFC 3339 date and time.
    pub updated_at: String,
    /// The login of the author; none where the account is gone.
    pub author: Option<String>,
    /// The names of the labels attached to the issue.
    pub labels: Vec<String>,
}

/// One place in a page: the cursor that leads past it, and the issue, where the
/// remote could give it.
#[derive(Debug)]
pub struct IssueEdge {
    pub cursor: String,
    pub node: Option<IssueNode>,
}

/// One page of the remote's answer.
#[derive(Debug)]
pub struct IssuePage {
    pub has_next_page: bool,
    pub edges: Vec<Option<IssueEdge>>,
}

/// The variables of one request for a page of issues.
#[derive(Debug)]
pub struct IssuesQuery {
    pub owner: String,
    pub name: String,
    /// Only issues updated at or after this RFC 3339 time are asked for.
    pub since: Option<String>,
    /// The cursor after which the page starts.
    pub after: Option<String>,
}

/// The characters of an optional string.
pub open spec fn optional_text(text: Option<String>) -> Option<Seq<char>> {
    match text {
        Some(text) => Some(text@),
        None => None,
    }
}

/// How far the synchronisation of one repository's issues has come.
#[derive(Debug)]
pub struct IssueSync {
    pub repo: i64,
    pub owner: String,
    pub name: String,
    /// The watermark with which the synchronisation began, as an RFC 3339 time.
    pub since: Option<String>,
    /// The cursor of the last place seen.
    pub cursor: Option<String>,
    /// Whether another page is to be asked for.
    pub has_next_page: bool,
}

/// The state of a synchronisation of issues, with each text as the sequence of its characters.
pub struct IssueSyncView {
    pub repo: i64,
    pub owner: Seq<char>,
    pub name: Seq<char>,
    pub since: Option<Seq<char>>,
    pub cursor: Option<Seq<char>>,
    pub has_next_page: bool,
}

impl View for IssueSync {
    type V = IssueSyncView;

    open spec fn view(&self) -> IssueSyncView {
        IssueSyncView {
            repo: self.repo,
            owner: self.owner@,
            name: self.name@,
            since: optional_text(self.since),
            cursor: optional_text(self.cursor),
            has_next_page: self.has_next_page,
        }
    }
}

/// The variables of a request for issues, with each text as the sequence of its characters.
pub struct IssuesQueryView {
    pub owner: Seq<char>,
    pub name: Seq<char>,
    pub since: Option<Seq<char>>,
    pub after: Option<Seq<char>>,
}

impl View for IssuesQuery {
    type V = IssuesQueryView;

    open spec fn view(&self) -> IssuesQueryView {
        IssuesQueryView {
            owner: self.owner@,
            name: self.name@,
            since: optional_text(self.since),
            after: optional_text(self.after),
        }
    }
}

/// The login stored for an issue whose author the remote does not name.
pub open spec fn unnamed_author() -> Seq<char> {
    "ghost"@
}

/// The row that is stored for `node` in repository `repo`, its update time being
/// `seconds` after the Unix epoch.
pub open spec fn issue_row(repo: i64, node: IssueNode, seconds: i64) -> IssueView {
    IssueView {
        repo,
        number: node.number,
        state: node.state.code(),
        title: node.title@,
        body: node.body_html@,
        user_login: match node.author {
            Some(login) => login@,
            None => unnamed_author(),
        },
        html_url: node.url@,
        updated_at: seconds,
    }
}

/// The store after the labels `names` were attached, one after the other, to issue
/// `number` of repository `repo`. A name that the repository has no label for is
/// passed over; a label that is attached already is an error.
pub open spec fn labels_attached(store: StoreView, repo: i64, number: i64, names: Seq<String>)
    -> Result<StoreView, Error>
    decreases names.len(),
{
    if names.len() == 0 {
        Ok(store)
    } else {
        match labels_attached(store, repo, number, names.drop_last()) {
            Err(e) => Err(e),
            Ok(before) => match find_label(before.labels, repo, names.last()@) {
                None => Ok(before),
                Some(label) => if before.links.contains(IssueLabel { repo, issue: number, label }) {
                    Err(Error::DuplicateKey)
                } else {
                    Ok(before.with_link(IssueLabel { repo, issue: number, label }))
                },
            },
        }
    }
}

/// The store after `node`, updated `seconds` after the Unix epoch, was stored in
/// repository `repo`: its row replaces the stored one, and its labels replace the
/// stored links. An error where the repository is not stored, or a label is reported
/// twice.
pub open spec fn node_stored(store: StoreView, repo: i64, node: IssueNode, seconds: i64) -> Result<
    StoreView,
    Error,
> {
    if !holds_repository(store.repositories, repo) {
        Err(Error::UnknownRepository)
    } else {
        labels_attached(
            store.with_issue(issue_row(repo, node, seconds)).without_links(repo, node.number),
            repo,
            node.number,
            node.labels@,
        )
    }
}

/// The store after `node` was synchronised into repository `repo`: it is stored
/// with the update time that it carries, which must be an RFC 3339 date and time.
pub open spec fn node_synced(store: StoreView, repo: i64, node: IssueNode) -> Result<
    StoreView,
    Error,
> {
    match rfc3339_seconds(node.updated_at@) {
        None => Err(Error::MalformedTimestamp),
        Some(seconds) => node_stored(store, repo, node, seconds),
    }
}

/// The store after the issues of `edges` were synchronised in order. A place without
/// an issue is passed over; the first error ends the synchronisation.
pub open spec fn edges_synced(store: StoreView, repo: i64, edges: Seq<Option<IssueEdge>>)
    -> Result<StoreView, Error>
    decreases edges.len(),
{
    if edges.len() == 0 {
        Ok(store)
    } else {
        match edges_synced(store, repo, edges.drop_last()) {
            Err(e) => Err(e),
            Ok(before) => match edges.last() {
                Some(IssueEdge { node: Some(node), .. }) => node_synced(before, repo, node),
                _ => Ok(before),
            },
        }
    }
}

/// The cursor after the places `edges` were seen: that of the last place among them,
/// and `cursor` where there is none.
pub open spec fn cursor_after(cursor: Option<Seq<char>>, edges: Seq<Option<IssueEdge>>) -> Option<
    Seq<char>,
>
    decreases edges.len(),
{
    if edges.len() == 0 {
        cursor
    } else {
        match edges.last() {
            Some(edge) => Some(edge.cursor@),
            None => cursor_after(cursor, edges.drop_last()),
        }
    }
}

/// Whether `edges` holds a place.
pub open spec fn any_place(edges: Seq<Option<IssueEdge>>) -> bool {
    exists|i: int| 0 <= i < edges.len() && (#[trigger] edges[i]) is Some
}

impl IssueSyncView {
    /// The state after `page` was seen: the cursor moves past its last place, and
    /// another page is asked for where the remote has one and this one held a place.
    pub open spec fn advanced(self, page: IssuePage) -> IssueSyncView {
        IssueSyncView {
            cursor: cursor_after(self.cursor, page.edges@),
            has_next_page: page.has_next_page && any_place(page.edges@),
            ..self
        }
    }

    /// The request for the next page; none when the last page was seen.
    pub open spec fn request(self) -> Option<IssuesQueryView> {
        if self.has_next_page {
            Some(
                IssuesQueryView {
                    owner: self.owner,
                    name: self.name,
                    since: self.since,
                    after: self.cursor,
                },
            )
        } else {
            None
        }
    }
}

fn clone_optional(text: &Option<String>) -> (copy: Option<String>)
    ensures
        copy == *text,
{
    match text {
        Some(text) => Some(text.clone()),
        None => None,
    }
}

impl IssueSync {
    /// The request for the next page; none when the last page was seen.
    pub fn query(&self) -> (request: Option<IssuesQuery>)
        ensures
            request is Some == self@.request() is Some,
            request is Some ==> request->0@ == self@.request()->0,
    {
        if self.has_next_page {
            Some(
                IssuesQuery {
                    owner: self.owner.clone(),
                    name: self.name.clone(),
                    since: clone_optional(&self.since),
                    after: clone_optional(&self.cursor),
                },
            )
        } else {
            None
        }
    }
}

/// The state in which the synchronisation of `owner/name` begins: the first page is
/// asked for, from the watermark `since` on.
pub open spec fn sync_begun(repo: i64, owner: Seq<char>, name: Seq<char>, since: Option<Seq<char>>)
    -> IssueSyncView {
    IssueSyncView { repo, owner, name, since, cursor: None, has_next_page: true }
}

/// The watermark of repository `repo` as it is sent to the remote: the latest stored
/// update time, written in RFC 3339; none where the repository has no issue yet, so
/// that every issue is asked for. An error where the time cannot be written.
pub open spec fn since_of(store: StoreView, repo: i64) -> Result<Option<Seq<char>>, Error> {
    match watermark(store.issues, repo) {
        None => Ok(None),
        Some(latest) => match rfc3339_text(latest) {
            Some(text) => Ok(Some(text)),
            None => Err(Error::TimeOutOfRange),
        },
    }
}

impl IssueSync {
    /// The state in which the synchronisation of `owner/name`, which is repository
    /// `repo`, begins from the watermark `since`.
    pub fn starting(repo: i64, owner: &str, name: &str, since: Option<String>) -> (sync: IssueSync)
        ensures
            sync@ == sync_begun(repo, owner@, name@, optional_text(since)),
    {
        IssueSync {
            repo,
            owner: owner.to_owned(),
            name: name.to_owned(),
            since,
            cursor: None,
            has_next_page: true,
        }
    }
}

/// Begins the synchronisation of the issues of `owner/name`: resolves the repository,
/// storing it where it is new, and takes the latest stored update time as the
/// watermark.
pub fn begin(store: &mut Store, owner: &str, name: &str) -> (begun: Result<IssueSync, Error>)
    ensures
        match old(store)@.resolved(owner@, name@) {
            Ok((after, repo)) => final(store)@ == after && match since_of(after, repo) {
                Ok(since) => begun is Ok && begun->Ok_0@ == sync_begun(repo, owner@, name@, since),
                Err(e) => begun is Err && begun->Err_0 == e,
            },
            Err(e) => final(store)@ == old(store)@ && begun is Err && begun->Err_0 == e,
        },
{
    let repo = match crate::query::repo_id(store, owner, name) {
        Ok(repo) => repo,
        Err(e) => {
            return Err(e);
        },
    };
    let since = match crate::query::last_updated(store, repo) {
        Some(latest) => match format_rfc3339(latest) {
            Some(since) => Some(since),
            None => {
                return Err(Error::TimeOutOfRange);
            },
        },
        None => None,
    };
    Ok(IssueSync::starting(repo, owner, name, since))
}

/// The row that `issues_placed` puts in place is held afterwards.
pub proof fn lemma_placed_holds(rows: Seq<IssueView>, row: IssueView)
    ensures
        holds_issue(issues_placed(rows, row), row.repo, row.number),
{
    let at = issues_below(rows, row).len() as int;
    assert(issues_placed(rows, row)[at] == row);
}

/// An error in attaching the first `k` names is the error in attaching them all.
pub proof fn lemma_attached_error(
    store: StoreView,
    repo: i64,
    number: i64,
    names: Seq<String>,
    k: int,
)
    requires
        0 <= k <= names.len(),
        labels_attached(store, repo, number, names.take(k)) is Err,
    ensures
        labels_attached(store, repo, number, names) == labels_attached(
            store,
            repo,
            number,
            names.take(k),
        ),
    decreases names.len() - k,
{
    if k < names.len() {
        assert(names.take(k + 1).drop_last() =~= names.take(k));
        lemma_attached_error(store, repo, number, names, k + 1);
    } else {
        assert(names.take(k) =~= names);
    }
}

/// An error in synchronising the first `k` places is the error in synchronising them
/// all.
pub proof fn lemma_synced_error(store: StoreView, repo: i64, edges: Seq<Option<IssueEdge>>, k: int)
    requires
        0 <= k <= edges.len(),
        edges_synced(store, repo, edges.take(k)) is Err,
    ensures
        edges_synced(store, repo, edges) == edges_synced(store, repo, edges.take(k)),
    decreases edges.len() - k,
{
    if k < edges.len() {
        assert(edges.take(k + 1).drop_last() =~= edges.take(k));
        lemma_synced_error(store, repo, edges, k + 1);
    } else {
        assert(edges.take(k) =~= edges);
    }
}

fn attach_labels(store: &mut Store, repo: i64, number: i64, names: &Vec<String>) -> (attached:
    Result<(), Error>)
    requires
        holds_issue(old(store)@.issues, repo, number),
    ensures
        match labels_attached(old(store)@, repo, number, names@) {
            Ok(after) => attached == Ok::<(), Error>(()) && final(store)@ == after,
            Err(e) => attached == Err::<(), Error>(e),
        },
{
    let ghost start = store@;
    let mut i: usize = 0;
    proof {
        assert(names@.take(0) =~= Seq::<String>::empty());
    }
    while i < names.len()
        invariant
            0 <= i <= names.len(),
            start == old(store)@,
            labels_attached(start, repo, number, names@.take(i as int)) == Ok::<StoreView, Error>(
                store@,
            ),
            holds_issue(store@.issues, repo, number),
        decreases names.len() - i,
    {
        let ghost before = store@;
        proof {
            assert(names@.take(i + 1).drop_last() =~= names@.take(i as int));
            assert(names@.take(i + 1).last() == names@[i as int]);
        }
        match store.label_id(repo, names[i].as_str()) {
            None => {},
            Some(label) => {
                proof {
                    lemma_find_label_some(before.labels, repo, names@[i as int]@);
                }
                match store.link_label(repo, number, label) {
                    Ok(_) => {},
                    Err(e) => {
                        proof {
                            assert(labels_attached(start, repo, number, names@.take(i + 1))
                                == Err::<StoreView, Error>(e));
                            lemma_attached_error(start, repo, number, names@, i + 1);
                        }
                        return Err(e);
                    },
                }
            },
        }
        i = i + 1;
    }
    proof {
        assert(names@.take(i as int) =~= names@);
    }
    Ok(())
}

/// Whether no two of `names` are names of one label of repository `repo`.
pub open spec fn attachable(labels: Seq<LabelView>, repo: i64, names: Seq<String>) -> bool {
    forall|i: int, j: int|
        0 <= i < j < names.len() ==> !(find_label(labels, repo, names[i]@) is Some
            && #[trigger] find_label(labels, repo, names[i]@) == #[trigger] find_label(
            labels,
            repo,
            names[j]@,
        ))
}

/// Whether no two of `names` are names of one label of repository `repo`.
pub fn names_attachable(store: &Store, repo: i64, names: &Vec<String>) -> (distinct: bool)
    ensures
        distinct == attachable(store@.labels, repo, names@),
{
    let ghost labels = store@.labels;
    let mut ids: Vec<Option<i64>> = Vec::new();
    let mut k: usize = 0;
    while k < names.len()
        invariant
            0 <= k <= names.len(),
            labels == store@.labels,
            ids@.len() == k,
            forall|j: int| 0 <= j < k ==> ids@[j] == #[trigger] find_label(labels, repo, names@[j]@),
        decreases names.len() - k,
    {
        ids.push(store.label_id(repo, names[k].as_str()));
        k = k + 1;
    }
    let mut j: usize = 0;
    while j < ids.len()
        invariant
            0 <= j <= ids.len(),
            labels == store@.labels,
            ids@.len() == names@.len(),
            forall|m: int|
                0 <= m < ids@.len() ==> ids@[m] == #[trigger] find_label(labels, repo, names@[m]@),
            forall|a: int, b: int|
                0 <= a < b < j ==> !(find_label(labels, repo, names@[a]@) is Some
                    && #[trigger] find_label(labels, repo, names@[a]@) == #[trigger] find_label(
                    labels,
                    repo,
                    names@[b]@,
                )),
        decreases ids.len() - j,
    {
        match ids[j] {
            Some(id) => {
                let mut i: usize = 0;
                while i < j
                    invariant
                        0 <= i <= j < ids.len(),
                        labels == store@.labels,
                        ids@.len() == names@.len(),
                        ids@[j as int] == Some(id),
                        forall|m: int|
                            0 <= m < ids@.len() ==> ids@[m] == #[trigger] find_label(
                                labels,
                                repo,
                                names@[m]@,
                            ),
                        forall|a: int|
                            0 <= a < i ==> #[trigger] find_label(labels, repo, names@[a]@) != Some(
                                id,
                            ),
                    decreases j - i,
                {
                    match ids[i] {
                        Some(other) => {
                            if other == id {
                                proof {
                                    assert(find_label(labels, repo, names@[i as int]@) == Some(id));
                                    assert(find_label(labels, repo, names@[j as int]@) == Some(id));
                                }
                                return false;
                            }
                        },
                        None => {},
                    }
                    i = i + 1;
                }
            },
            None => {
                proof {
                    assert(find_label(labels, repo, names@[j as int]@) is None);
                }
            },
        }
        proof {
            assert forall|a: int, b: int| 0 <= a < b < j + 1 implies !(find_label(
                labels,
                repo,
                names@[a]@,
            ) is Some && #[trigger] find_label(labels, repo, names@[a]@) == #[trigger] find_label(
                labels,
                repo,
                names@[b]@,
            )) by {
                if b == j {
                    assert(ids@[j as int] == find_label(labels, repo, names@[j as int]@));
                }
            }
        }
        j = j + 1;
    }
    true
}

/// Stores `node`, updated `seconds` after the Unix epoch, in repository `repo`: its
/// row replaces the stored one of its number, and its labels replace the stored
/// links of that issue. An author that the remote does not name is stored as
/// `ghost`; a label name that the repository has no label for is passed over. Where
/// the node cannot be stored, the store is left as it is.
pub fn store_node(store: &mut Store, repo: i64, node: &IssueNode, seconds: i64) -> (stored: Result<
    (),
    Error,
>)
    ensures
        match node_stored(old(store)@, repo, *node, seconds) {
            Ok(after) => stored == Ok::<(), Error>(()) && final(store)@ == after,
            Err(e) => stored == Err::<(), Error>(e) && final(store)@ == old(store)@,
        },
{
    if !store.has_repository(repo) {
        return Err(Error::UnknownRepository);
    }
    store.well_formed();
    proof {
        lemma_node_stored(store@, repo, *node, seconds);
    }
    if !names_attachable(store, repo, &node.labels) {
        return Err(Error::DuplicateKey);
    }
    let author = match &node.author {
        Some(login) => login.clone(),
        None => "ghost".to_owned(),
    };
    let row = Issue {
        repo,
        number: node.number,
        state: node.state.to_integer(),
        title: node.title.clone(),
        body: node.body_html.clone(),
        user_login: author,
        html_url: node.url.clone(),
        updated_at: seconds,
    };
    assert(row@ == issue_row(repo, *node, seconds));
    match store.upsert_issue(row) {
        Ok(_) => {},
        Err(e) => {
            return Err(e);
        },
    }
    store.clear_issue_labels(repo, node.number);
    proof {
        lemma_placed_holds(old(store)@.issues, issue_row(repo, *node, seconds));
    }
    attach_labels(store, repo, node.number, &node.labels)
}

/// Synchronises `node` into repository `repo`: reads its update time, and stores it.
/// Where the node cannot be synchronised, the store is left as it is.
pub fn sync_node(store: &mut Store, repo: i64, node: &IssueNode) -> (synced: Result<(), Error>)
    ensures
        match node_synced(old(store)@, repo, *node) {
            Ok(after) => synced == Ok::<(), Error>(()) && final(store)@ == after,
            Err(e) => synced == Err::<(), Error>(e) && final(store)@ == old(store)@,
        },
{
    match parse_rfc3339(node.updated_at.as_str()) {
        Some(seconds) => store_node(store, repo, node, seconds),
        None => Err(Error::MalformedTimestamp),
    }
}

/// How many of the first places of `edges` are synchronised before an error ends the
/// synchronisation: all of them where there is no error.
pub open spec fn places_synced(store: StoreView, repo: i64, edges: Seq<Option<IssueEdge>>) -> nat
    decreases edges.len(),
{
    if edges.len() == 0 || edges_synced(store, repo, edges) is Ok {
        edges.len()
    } else {
        places_synced(store, repo, edges.drop_last())
    }
}

/// Where the first `k` places are synchronised and the next one is not, `k` places
/// are synchronised of any longer sequence.
pub proof fn lemma_places_synced(
    store: StoreView,
    repo: i64,
    edges: Seq<Option<IssueEdge>>,
    k: int,
    n: int,
)
    requires
        0 <= k < n <= edges.len(),
        edges_synced(store, repo, edges.take(k)) is Ok,
        edges_synced(store, repo, edges.take(k + 1)) is Err,
    ensures
        places_synced(store, repo, edges.take(n)) == k,
    decreases n,
{
    assert(edges.take(n).take(k + 1) =~= edges.take(k + 1));
    lemma_synced_error(store, repo, edges.take(n), k + 1);
    assert(edges.take(n).drop_last() =~= edges.take(n - 1));
    if n > k + 1 {
        lemma_places_synced(store, repo, edges, k, n - 1);
    } else {
        assert(places_synced(store, repo, edges.take(k)) == k);
    }
}

impl IssueSyncView {
    /// The state after an error ended the synchronisation of a page behind the places
    /// `kept`: the cursor stands behind them, and the page is still to be asked for.
    pub open spec fn held(self, kept: Seq<Option<IssueEdge>>) -> IssueSyncView {
        IssueSyncView { cursor: cursor_after(self.cursor, kept), ..self }
    }
}

/// Synchronises one page of the remote's answer into the store, and moves `sync` past
/// it. Each issue of the page replaces the stored row of its number, and its labels
/// replace the stored links of that issue; a place without an issue is passed over.
/// The first issue that cannot be synchronised ends the synchronisation with its
/// error: the places before it are synchronised, and nothing else is changed.
pub fn update(store: &mut Store, sync: &mut IssueSync, page: &IssuePage) -> (updated: Result<
    (),
    Error,
>)
    ensures
        match edges_synced(old(store)@, old(sync).repo, page.edges@) {
            Ok(after) => updated == Ok::<(), Error>(()) && final(store)@ == after && final(sync)@
                == old(sync)@.advanced(*page),
            Err(e) => {
                let kept = page.edges@.take(
                    places_synced(old(store)@, old(sync).repo, page.edges@) as int,
                );
                updated == Err::<(), Error>(e) && edges_synced(old(store)@, old(sync).repo, kept)
                    == Ok::<StoreView, Error>(final(store)@) && final(sync)@ == old(sync)@.held(
                    kept,
                )
            },
        },
{
    let ghost start = store@;
    let ghost begun = sync@;
    let repo = sync.repo;
    let mut seen: bool = false;
    let mut i: usize = 0;
    proof {
        assert(page.edges@.take(0) =~= Seq::<Option<IssueEdge>>::empty());
    }
    while i < page.edges.len()
        invariant
            0 <= i <= page.edges.len(),
            start == old(store)@,
            begun == old(sync)@,
            repo == old(sync).repo,
            edges_synced(start, repo, page.edges@.take(i as int)) == Ok::<StoreView, Error>(
                store@,
            ),
            sync@ == begun.held(page.edges@.take(i as int)),
            seen == any_place(page.edges@.take(i as int)),
        decreases page.edges.len() - i,
    {
        proof {
            let next = page.edges@.take(i + 1);
            assert(next.drop_last() =~= page.edges@.take(i as int));
            assert(next.last() == page.edges@[i as int]);
            if page.edges@[i as int] is Some {
                assert(next[i as int] is Some);
            } else if any_place(next) {
                let w = choose|w: int| 0 <= w < next.len() && (#[trigger] next[w]) is Some;
                assert(page.edges@.take(i as int)[w] is Some);
            } else if any_place(page.edges@.take(i as int)) {
                let w = choose|w: int|
                    0 <= w < i && (#[trigger] page.edges@.take(i as int)[w]) is Some;
                assert(next[w] is Some);
            }
        }
        match &page.edges[i] {
            Some(edge) => {
                match &edge.node {
                    Some(node) => {
                        match sync_node(store, repo, node) {
                            Ok(_) => {},
                            Err(e) => {
                                proof {
                                    assert(edges_synced(start, repo, page.edges@.take(i + 1))
                                        == Err::<StoreView, Error>(e));
                                    lemma_synced_error(start, repo, page.edges@, i + 1);
                                    lemma_places_synced(
                                        start,
                                        repo,
                                        page.edges@,
                                        i as int,
                                        page.edges@.len() as int,
                                    );
                                    assert(page.edges@.take(page.edges@.len() as int)
                                        =~= page.edges@);
                                }
                                return Err(e);
                            },
                        }
                    },
                    None => {},
                }
                seen = true;
                sync.cursor = Some(edge.cursor.clone());
            },
            None => {},
        }
        i = i + 1;
    }
    proof {
        assert(page.edges@.take(i as int) =~= page.edges@);
    }
    sync.has_next_page = page.has_next_page && seen;
    Ok(())
}

} // verus!
