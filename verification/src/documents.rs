//! The documents, as the crates `atom_syndication`, `rss` and `url` make them.
//!
//! The library decides what goes into an entry, an item and the head of a feed;
//! these values stand in the plain types of this module. What the other crates
//! make of them is not proved here: each result has a name, and the contracts of
//! the library speak of these names.

use vstd::prelude::*;

use chrono::TimeZone;

use crate::text::texts;

verus! {

/// The values from which an Atom entry is built.
#[derive(Debug)]
pub struct AtomEntry {
    pub title: String,
    pub id: String,
    /// The time of the last update, in seconds since the Unix epoch.
    pub updated: i64,
    pub author_name: String,
    pub author_uri: String,
    /// The terms of the categories, in order.
    pub categories: Vec<String>,
    /// The address that the entry links to.
    pub link: String,
    pub content_type: String,
    pub content: String,
}

/// The values of an Atom entry, with each text as the sequence of its characters.
pub struct AtomEntryView {
    pub title: Seq<char>,
    pub id: Seq<char>,
    pub updated: i64,
    pub author_name: Seq<char>,
    pub author_uri: Seq<char>,
    pub categories: Seq<Seq<char>>,
    pub link: Seq<char>,
    pub content_type: Seq<char>,
    pub content: Seq<char>,
}

impl View for AtomEntry {
    type V = AtomEntryView;

    open spec fn view(&self) -> AtomEntryView {
        AtomEntryView {
            title: self.title@,
            id: self.id@,
            updated: self.updated,
            author_name: self.author_name@,
            author_uri: self.author_uri@,
            categories: texts(self.categories@),
            link: self.link@,
            content_type: self.content_type@,
            content: self.content@,
        }
    }
}

/// The values from which the head of an Atom feed is built.
#[derive(Debug)]
pub struct AtomFeed {
    pub title: String,
    pub id: String,
    /// The time of generation, in seconds since the Unix epoch.
    pub updated: i64,
    /// The address that the feed links to, and the relation of that link.
    pub link: String,
    pub link_rel: String,
}

/// The values of the head of an Atom feed, with each text as the sequence of its characters.
pub struct AtomFeedView {
    pub title: Seq<char>,
    pub id: Seq<char>,
    pub updated: i64,
    pub link: Seq<char>,
    pub link_rel: Seq<char>,
}

impl View for AtomFeed {
    type V = AtomFeedView;

    open spec fn view(&self) -> AtomFeedView {
        AtomFeedView {
            title: self.title@,
            id: self.id@,
            updated: self.updated,
            link: self.link@,
            link_rel: self.link_rel@,
        }
    }
}

/// The values from which an RSS item is built.
#[derive(Debug)]
pub struct RssItem {
    pub title: String,
    pub link: String,
    /// The time of the last update, as an RFC 2822 date and time.
    pub pub_date: String,
    /// The names of the categories, in order.
    pub categories: Vec<String>,
    pub content: String,
}

/// The values of an RSS item, with each text as the sequence of its characters.
pub struct RssItemView {
    pub title: Seq<char>,
    pub link: Seq<char>,
    pub pub_date: Seq<char>,
    pub categories: Seq<Seq<char>>,
    pub content: Seq<char>,
}

impl View for RssItem {
    type V = RssItemView;

    open spec fn view(&self) -> RssItemView {
        RssItemView {
            title: self.title@,
            link: self.link@,
            pub_date: self.pub_date@,
            categories: texts(self.categories@),
            content: self.content@,
        }
    }
}

/// The values from which the head of an RSS channel is built.
#[derive(Debug)]
pub struct RssChannel {
    pub title: String,
    pub link: String,
    /// The time of generation, as an RFC 2822 date and time.
    pub pub_date: String,
}

/// The values of the head of an RSS channel, with each text as the sequence of its characters.
pub struct RssChannelView {
    pub title: Seq<char>,
    pub link: Seq<char>,
    pub pub_date: Seq<char>,
}

impl View for RssChannel {
    type V = RssChannelView;

    open spec fn view(&self) -> RssChannelView {
        RssChannelView { title: self.title@, link: self.link@, pub_date: self.pub_date@ }
    }
}

/// `atom_syndication::Entry`, an entry of an Atom feed. Nothing is known of what
/// it holds but through [`atom_entry_built`]: the library makes every entry that it
/// writes with [`build_atom_entry`], and takes none from its callers.
#[verifier::external_type_specification]
#[verifier::external_body]
pub struct ExAtomEntry(atom_syndication::Entry);

/// `rss::Item`, an item of an RSS channel. Nothing is known of what it holds but
/// through [`rss_item_built`]: the library makes every item that it writes with
/// [`build_rss_item`], and takes none from its callers.
#[verifier::external_type_specification]
#[verifier::external_body]
pub struct ExRssItem(rss::Item);

/// The entry that `atom_syndication`'s builders make of `fields`; `None` where a
/// builder refuses, or chrono cannot represent the time.
pub uninterp spec fn atom_entry_built(fields: AtomEntryView) -> Option<atom_syndication::Entry>;

/// The document that `atom_syndication` writes for a feed with the head `feed` and
/// the entries `entries`; `None` where a builder or the writer refuses, or chrono
/// cannot represent the time.
pub uninterp spec fn atom_document(feed: AtomFeedView, entries: Seq<atom_syndication::Entry>)
    -> Option<Seq<char>>;

/// The item that `rss`'s builders make of `fields`; `None` where a builder refuses.
pub uninterp spec fn rss_item_built(fields: RssItemView) -> Option<rss::Item>;

/// The document that `rss` writes for a channel with the head `channel` and the
/// items `items`; `None` where a builder or the writer refuses.
pub uninterp spec fn rss_document(channel: RssChannelView, items: Seq<rss::Item>) -> Option<
    Seq<char>,
>;

/// The serialisation of the URL that the `url` crate makes of `base` with the path
/// segments `first`, `second`, `third` and `fourth` pushed onto it; `None` where it
/// cannot read `base`, or `base` cannot have path segments.
pub uninterp spec fn url_with_segments(
    base: Seq<char>,
    first: Seq<char>,
    second: Seq<char>,
    third: Seq<char>,
    fourth: Seq<char>,
) -> Option<Seq<char>>;

/// Builds an entry with `atom_syndication::EntryBuilder`: title, id, update time, one
/// author with name and URI, one category per term, one link, and content with its
/// type. The update time goes through `chrono::TimeZone::timestamp_opt` on `Utc`. The
/// entry is a function of the values alone and goes by the name
/// [`atom_entry_built`]; nothing else is claimed of it.
#[verifier::external_body]
pub(crate) fn build_atom_entry(fields: AtomEntry) -> (built: Option<atom_syndication::Entry>)
    ensures
        built == atom_entry_built(fields@),
{
    let categories: Vec<atom_syndication::Category> = fields.categories.into_iter().map(
        |term| atom_syndication::Category { term, scheme: None, label: None },
    ).collect();
    atom_syndication::EntryBuilder::default()
        .title(fields.title)
        .id(fields.id)
        .updated(chrono::Utc.timestamp_opt(fields.updated, 0).single()?)
        .authors(vec![atom_syndication::Person { name: fields.author_name, email: None, uri: Some(fields.author_uri) }])
        .categories(categories)
        .links(vec![atom_syndication::LinkBuilder::default().href(fields.link).build().ok()?])
        .content(atom_syndication::ContentBuilder::default().content_type(Some(fields.content_type)).value(fields.content).build().ok()?)
        .build()
        .ok()
}

/// Builds a feed with `atom_syndication::FeedBuilder` (title, id, update time, one
/// link with its relation, the entries) and writes it with `Feed::write_to` into a
/// buffer. The document is a function of the values alone and goes by the name
/// [`atom_document`]; nothing else is claimed of it.
#[verifier::external_body]
pub(crate) fn write_atom_feed(feed: AtomFeed, entries: Vec<atom_syndication::Entry>) -> (document:
    Option<String>)
    ensures
        document is Some == atom_document(feed@, entries@) is Some,
        document is Some ==> document->0@ == atom_document(feed@, entries@)->0,
{
    let link = atom_syndication::LinkBuilder::default().href(feed.link).rel(feed.link_rel).build().ok()?;
    let built = atom_syndication::FeedBuilder::default()
        .title(feed.title)
        .id(feed.id)
        .updated(chrono::Utc.timestamp_opt(feed.updated, 0).single()?)
        .links(vec![link])
        .entries(entries)
        .build()
        .ok()?;
    String::from_utf8(built.write_to(Vec::new()).ok()?).ok()
}

/// Builds an item with `rss::ItemBuilder`: title, link, publication date, one
/// category per name, and content. The item is a function of the values alone and
/// goes by the name [`rss_item_built`]; nothing else is claimed of it.
#[verifier::external_body]
pub(crate) fn build_rss_item(fields: RssItem) -> (built: Option<rss::Item>)
    ensures
        built == rss_item_built(fields@),
{
    let mut categories: Vec<rss::Category> = Vec::new();
    for name in fields.categories {
        categories.push(rss::CategoryBuilder::default().name(name).build().ok()?);
    }
    rss::ItemBuilder::default()
        .title(fields.title)
        .link(fields.link)
        .pub_date(fields.pub_date)
        .categories(categories)
        .content(fields.content)
        .build()
        .ok()
}

/// Builds a channel with `rss::ChannelBuilder` (title, link, publication date, the
/// items) and writes it with `Channel::write_to` into a buffer. The document is a
/// function of the values alone and goes by the name [`rss_document`]; nothing else
/// is claimed of it.
#[verifier::external_body]
pub(crate) fn write_rss_channel(channel: RssChannel, items: Vec<rss::Item>) -> (document: Option<
    String,
>)
    ensures
        document is Some == rss_document(channel@, items@) is Some,
        document is Some ==> document->0@ == rss_document(channel@, items@)->0,
{
    let built = rss::ChannelBuilder::default()
        .title(channel.title)
        .link(channel.link)
        .pub_date(channel.pub_date)
        .items(items)
        .build()
        .ok()?;
    String::from_utf8(built.write_to(Vec::new()).ok()?).ok()
}

/// The greatest length in bytes of a path segment that is handed to the `url` crate.
pub const SEGMENT_LIMIT: usize = 250_000_000;

/// The greatest length in bytes of a base that is handed to the `url` crate.
pub const BASE_LIMIT: usize = 1024;

/// Reads `base` with `url::Url::parse`, pushes the four segments with
/// `PathSegmentsMut::push`, and takes the serialisation. The `url` crate keeps
/// positions in 32 bits and panics where a serialisation outgrows them; the
/// precondition keeps base and segments so short that the serialisation, in which a
/// byte of a segment takes three bytes at most, cannot. The serialisation is a
/// function of the five texts alone and goes by the name [`url_with_segments`];
/// nothing else is claimed of it.
#[verifier::external_body]
pub(crate) fn build_url(base: &str, first: &str, second: &str, third: &str, fourth: &str) -> (url:
    Option<String>)
    requires
        base.len() <= BASE_LIMIT,
        first.len() <= SEGMENT_LIMIT,
        second.len() <= SEGMENT_LIMIT,
        third.len() <= SEGMENT_LIMIT,
        fourth.len() <= SEGMENT_LIMIT,
    ensures
        url is Some == url_with_segments(base@, first@, second@, third@, fourth@) is Some,
        url is Some ==> url->0@ == url_with_segments(base@, first@, second@, third@, fourth@)->0,
{
    let mut url = url::Url::parse(base).ok()?;
    url.path_segments_mut().ok()?.push(first).push(second).push(third).push(fourth);
    Some(url.into())
}

} // verus!
