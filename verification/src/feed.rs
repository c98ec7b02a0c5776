//! RSS feed items as plain values, and the errors met when turning them into
//! episodes.
use vstd::prelude::*;

verus! {

/// A media object attached to a feed item.
#[derive(Clone, Debug)]
pub struct Enclosure {
    pub url: String,
    /// Length of the media object in bytes, as the feed writes it.
    pub length: String,
    pub mime_type: String,
}

pub ghost struct EnclosureView {
    pub url: Seq<char>,
    pub length: Seq<char>,
    pub mime_type: Seq<char>,
}

impl View for Enclosure {
    type V = EnclosureView;

    open spec fn view(&self) -> EnclosureView {
        EnclosureView { url: self.url@, length: self.length@, mime_type: self.mime_type@ }
    }
}

/// The view of an optional string.
pub open spec fn opt_view(s: Option<String>) -> Option<Seq<char>> {
    match s {
        Some(t) => Some(t@),
        None => None,
    }
}

/// The view of an optional enclosure.
pub open spec fn opt_enclosure_view(e: Option<Enclosure>) -> Option<EnclosureView> {
    match e {
        Some(x) => Some(x@),
        None => None,
    }
}

/// The parts of an RSS item that episodes are made from.
#[derive(Clone, Debug)]
pub struct FeedItem {
    pub title: Option<String>,
    pub link: Option<String>,
    pub description: Option<String>,
    pub content: Option<String>,
    pub enclosure: Option<Enclosure>,
    /// Publication date, as the feed writes it (RFC 2822).
    pub pub_date: Option<String>,
}

pub ghost struct FeedItemView {
    pub title: Option<Seq<char>>,
    pub link: Option<Seq<char>>,
    pub description: Option<Seq<char>>,
    pub content: Option<Seq<char>>,
    pub enclosure: Option<EnclosureView>,
    pub pub_date: Option<Seq<char>>,
}

impl View for FeedItem {
    type V = FeedItemView;

    open spec fn view(&self) -> FeedItemView {
        FeedItemView {
            title: opt_view(self.title),
            link: opt_view(self.link),
            description: opt_view(self.description),
            content: opt_view(self.content),
            enclosure: opt_enclosure_view(self.enclosure),
            pub_date: opt_view(self.pub_date),
        }
    }
}

/// Why a feed, or one of its items, gave no episode.
#[derive(Clone, Copy, Debug, PartialEq, Eq, Structural)]
pub enum FeedError {
    /// The text is not an RSS channel.
    Rss,
    MissingTitle,
    MissingLink,
    MissingEnclosure,
    MissingPubDate,
    /// The publication date is not an RFC 2822 date.
    InvalidPubDate,
    /// Two episodes of the feed get the same identifier.
    DuplicateId,
}

/// The message for each error.
pub open spec fn feed_error_message(e: FeedError) -> Seq<char> {
    match e {
        FeedError::Rss => "invalid rss channel"@,
        FeedError::MissingTitle => "missing title"@,
        FeedError::MissingLink => "missing link!"@,
        FeedError::MissingEnclosure => "missing enclosure url"@,
        FeedError::MissingPubDate => "missing pubValue"@,
        FeedError::InvalidPubDate => "invalid pub date"@,
        FeedError::DuplicateId => "duplicate episode id"@,
    }
}

impl FeedError {
    /// A message for people.
    pub fn message(&self) -> (s: &'static str)
        ensures
            s@ == feed_error_message(*self),
    {
        match self {
            FeedError::Rss => "invalid rss channel",
            FeedError::MissingTitle => "missing title",
            FeedError::MissingLink => "missing link!",
            FeedError::MissingEnclosure => "missing enclosure url",
            FeedError::MissingPubDate => "missing pubValue",
            FeedError::InvalidPubDate => "invalid pub date",
            FeedError::DuplicateId => "duplicate episode id",
        }
    }
}

#[verifier::external_type_specification]
#[verifier::external_body]
pub struct ExRssError(rss::Error);

/// The items, as views, of the RSS channel that `xml` holds; `None` when `xml` is
/// not an RSS channel.
pub uninterp spec fn rss_channel_items(xml: Seq<char>) -> Option<Seq<FeedItemView>>;

/// `rss::Channel::read_from` on the bytes of `xml`, with each item of the channel
/// turned into a `FeedItem` field by field. The parse is a function of the text,
/// named by `rss_channel_items`.
#[verifier::external_body]
pub(crate) fn read_channel_items(xml: &str) -> (res: Result<Vec<FeedItem>, rss::Error>)
    ensures
        res is Ok <==> rss_channel_items(xml@) is Some,
        res matches Ok(items) ==> items@.map_values(|i: FeedItem| i@) == rss_channel_items(xml@).unwrap(),
{
    rss::Channel::read_from(xml.as_bytes()).map(|channel| {
        channel.items.into_iter().map(|i| FeedItem {
            title: i.title,
            link: i.link,
            description: i.description,
            content: i.content,
            enclosure: i.enclosure.map(|e| Enclosure { url: e.url, length: e.length, mime_type: e.mime_type }),
            pub_date: i.pub_date,
        }).collect()
    })
}

} // verus!
