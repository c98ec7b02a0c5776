//! Episodes of a podcast feed with the publication date parsed as an instant.
use vstd::prelude::*;
use crate::feed::{
    opt_view, read_channel_items, Enclosure, EnclosureView, FeedError, FeedItem, FeedItemView,
    rss_channel_items,
};

verus! {

/// A publication date: the instant as seconds since the Unix epoch plus
/// nanoseconds, and the offset from UTC, in seconds, that the feed wrote it with.
#[derive(Clone, Copy, Debug, PartialEq, Eq, Structural)]
pub struct PubDate {
    pub timestamp: i64,
    pub nanos: u32,
    pub offset_seconds: i32,
}

/// `a` is a strictly earlier instant than `b`; the offsets play no part.
pub open spec fn earlier(a: PubDate, b: PubDate) -> bool {
    a.timestamp < b.timestamp || (a.timestamp == b.timestamp && a.nanos < b.nanos)
}

impl PubDate {
    /// Whether `self` is a strictly earlier instant than `other`.
    pub fn is_earlier_than(&self, other: &PubDate) -> (b: bool)
        ensures
            b == earlier(*self, *other),
    {
        self.timestamp < other.timestamp || (self.timestamp == other.timestamp && self.nanos < other.nanos)
    }
}

#[verifier::external_type_specification]
#[verifier::external_body]
pub struct ExChronoParseError(chrono::ParseError);

/// The date that the RFC 2822 text `text` denotes; `None` when it is not one.
pub uninterp spec fn rfc2822_date(text: Seq<char>) -> Option<PubDate>;

/// `chrono::DateTime::parse_from_rfc2822`, with the result taken apart into its
/// instant (`timestamp`, `timestamp_subsec_nanos`) and its offset
/// (`offset().local_minus_utc()`). The parse is a function of the text, named by
/// `rfc2822_date`.
#[verifier::external_body]
fn parse_rfc2822(text: &str) -> (res: Result<PubDate, chrono::ParseError>)
    ensures
        res is Ok <==> rfc2822_date(text@) is Some,
        res matches Ok(d) ==> rfc2822_date(text@) == Some(d),
{
    chrono::DateTime::parse_from_rfc2822(text).map(|d| PubDate {
        timestamp: d.timestamp(),
        nanos: d.timestamp_subsec_nanos(),
        offset_seconds: d.offset().local_minus_utc(),
    })
}

/// An episode of the feed.
#[derive(Clone, Debug)]
pub struct Episode {
    pub title: String,
    pub description: Option<String>,
    pub content: Option<String>,
    pub link: String,
    pub enclosure: Enclosure,
    pub pub_date: PubDate,
}

pub ghost struct EpisodeView {
    pub title: Seq<char>,
    pub description: Option<Seq<char>>,
    pub content: Option<Seq<char>>,
    pub link: Seq<char>,
    pub enclosure: EnclosureView,
    pub pub_date: PubDate,
}

impl View for Episode {
    type V = EpisodeView;

    open spec fn view(&self) -> EpisodeView {
        EpisodeView {
            title: self.title@,
            description: opt_view(self.description),
            content: opt_view(self.content),
            link: self.link@,
            enclosure: self.enclosure@,
            pub_date: self.pub_date,
        }
    }
}

/// The episode that a feed item gives: the first missing field among title, link,
/// enclosure and publication date is the error, then a date that is not RFC 2822.
pub open spec fn episode_from_item(item: FeedItemView) -> Result<EpisodeView, FeedError> {
    if item.title is None {
        Err(FeedError::MissingTitle)
    } else if item.link is None {
        Err(FeedError::MissingLink)
    } else if item.enclosure is None {
        Err(FeedError::MissingEnclosure)
    } else if item.pub_date is None {
        Err(FeedError::MissingPubDate)
    } else if rfc2822_date(item.pub_date.unwrap()) is None {
        Err(FeedError::InvalidPubDate)
    } else {
        Ok(
            EpisodeView {
                title: item.title.unwrap(),
                description: item.description,
                content: item.content,
                link: item.link.unwrap(),
                enclosure: item.enclosure.unwrap(),
                pub_date: rfc2822_date(item.pub_date.unwrap()).unwrap(),
            },
        )
    }
}

/// A feed item gives an episode exactly when it has a title, a link, an enclosure
/// and a publication date that is an RFC 2822 date; the problems are reported in
/// that order. The episode keeps the item's fields as they are, with the date
/// parsed.
pub proof fn lemma_episode_from_item_fields(item: FeedItemView)
    ensures
        item.title is None ==> episode_from_item(item) == Err::<EpisodeView, FeedError>(FeedError::MissingTitle),
        item.title is Some && item.link is None ==> episode_from_item(item) == Err::<EpisodeView, FeedError>(
            FeedError::MissingLink,
        ),
        item.title is Some && item.link is Some && item.enclosure is None ==> episode_from_item(item)
            == Err::<EpisodeView, FeedError>(FeedError::MissingEnclosure),
        item.title is Some && item.link is Some && item.enclosure is Some && item.pub_date is None
            ==> episode_from_item(item) == Err::<EpisodeView, FeedError>(FeedError::MissingPubDate),
        item.title is Some && item.link is Some && item.enclosure is Some && item.pub_date is Some
            && rfc2822_date(item.pub_date.unwrap()) is None ==> episode_from_item(item) == Err::<
            EpisodeView,
            FeedError,
        >(FeedError::InvalidPubDate),
        episode_from_item(item) is Ok <==> (item.title is Some && item.link is Some && item.enclosure is Some
            && item.pub_date is Some && rfc2822_date(item.pub_date.unwrap()) is Some),
        episode_from_item(item) matches Ok(e) ==> {
            &&& e.title == item.title.unwrap()
            &&& e.description == item.description
            &&& e.content == item.content
            &&& e.link == item.link.unwrap()
            &&& e.enclosure == item.enclosure.unwrap()
            &&& Some(e.pub_date) == rfc2822_date(item.pub_date.unwrap())
        },
{
}

/// The episodes that the items give, in order, or the error of the first item
/// that gives none.
pub open spec fn episodes_from_items(items: Seq<FeedItemView>) -> Result<Seq<EpisodeView>, FeedError>
    decreases items.len(),
{
    if items.len() == 0 {
        Ok(Seq::empty())
    } else {
        match episodes_from_items(items.drop_last()) {
            Err(e) => Err(e),
            Ok(prev) => match episode_from_item(items.last()) {
                Err(e) => Err(e),
                Ok(ep) => Ok(prev.push(ep)),
            },
        }
    }
}

/// The episodes of the RSS channel in `xml`.
pub open spec fn episodes_from_xml(xml: Seq<char>) -> Result<Seq<EpisodeView>, FeedError> {
    match rss_channel_items(xml) {
        None => Err(FeedError::Rss),
        Some(items) => episodes_from_items(items),
    }
}

/// A feed gives episodes exactly when each of its items gives one, and then the
/// episodes are those of the items, one per item, in the feed's order.
pub proof fn lemma_episodes_itemwise(items: Seq<FeedItemView>)
    ensures
        episodes_from_items(items) is Ok <==> forall|k: int| 0 <= k < items.len() ==> #[trigger] episode_from_item(items[k]) is Ok,
        episodes_from_items(items) matches Ok(v) ==> v.len() == items.len() && forall|k: int|
            0 <= k < items.len() ==> episode_from_item(items[k]) == Ok::<EpisodeView, FeedError>(#[trigger] v[k]),
    decreases items.len(),
{
    if items.len() > 0 {
        let p = items.drop_last();
        lemma_episodes_itemwise(p);
        assert forall|k: int| 0 <= k < p.len() implies #[trigger] p[k] == items[k] by {}
        if episodes_from_items(items) is Ok {
            let v = episodes_from_items(items)->Ok_0;
            let vp = episodes_from_items(p)->Ok_0;
            assert forall|k: int| 0 <= k < items.len() implies episode_from_item(items[k]) == Ok::<EpisodeView, FeedError>(#[trigger] v[k]) by {
                if k < p.len() {
                    assert(p[k] == items[k]);
                    assert(v[k] == vp[k]);
                }
            }
            assert forall|k: int| 0 <= k < items.len() implies #[trigger] episode_from_item(items[k]) is Ok by {
                assert(episode_from_item(items[k]) == Ok::<EpisodeView, FeedError>(v[k]));
            }
        } else if episodes_from_items(p) is Ok {
            assert(episode_from_item(items[items.len() - 1]) is Err);
        } else {
            let k = choose|k: int| 0 <= k < p.len() && !(#[trigger] episode_from_item(p[k]) is Ok);
            assert(p[k] == items[k]);
        }
    }
}

/// Once a prefix of the items fails, the whole sequence fails with the same error.
pub proof fn lemma_episodes_error_sticks(items: Seq<FeedItemView>, k: int)
    requires
        0 <= k <= items.len(),
        episodes_from_items(items.take(k)) is Err,
    ensures
        episodes_from_items(items) == episodes_from_items(items.take(k)),
    decreases items.len() - k,
{
    if k < items.len() {
        assert(items.take(k + 1).drop_last() =~= items.take(k));
        lemma_episodes_error_sticks(items, k + 1);
    } else {
        assert(items.take(k) =~= items);
    }
}

impl Episode {
    /// The episode that `episode` gives; see `episode_from_item`.
    pub fn try_from(episode: FeedItem) -> (res: Result<Episode, FeedError>)
        ensures
            match res {
                Ok(e) => episode_from_item(episode@) == Ok::<EpisodeView, FeedError>(e@),
                Err(err) => episode_from_item(episode@) == Err::<EpisodeView, FeedError>(err),
            },
            res matches Ok(e) ==> e@.title == episode@.title.unwrap() && e@.description == episode@.description
                && e@.content == episode@.content && e@.link == episode@.link.unwrap() && e@.enclosure
                == episode@.enclosure.unwrap(),
            res matches Ok(e) ==> Some(e@.pub_date) == rfc2822_date(episode@.pub_date.unwrap()),
    {
        proof {
            lemma_episode_from_item_fields(episode@);
        }
        let title = match episode.title {
            Some(t) => t,
            None => return Err(FeedError::MissingTitle),
        };
        let link = match episode.link {
            Some(l) => l,
            None => return Err(FeedError::MissingLink),
        };
        let enclosure = match episode.enclosure {
            Some(e) => e,
            None => return Err(FeedError::MissingEnclosure),
        };
        let pub_date_text = match episode.pub_date {
            Some(d) => d,
            None => return Err(FeedError::MissingPubDate),
        };
        let pub_date = match parse_rfc2822(pub_date_text.as_str()) {
            Ok(d) => d,
            Err(_) => return Err(FeedError::InvalidPubDate),
        };
        Ok(
            Episode {
                title,
                description: episode.description,
                content: episode.content,
                link,
                enclosure,
                pub_date,
            },
        )
    }
}

/// All episodes of a feed.
pub struct AllEpisodes {
    pub episodes: Vec<Episode>,
}

impl AllEpisodes {
    /// The episodes of the RSS channel in `value`; see `episodes_from_xml`.
    pub fn try_from(value: String) -> (res: Result<AllEpisodes, FeedError>)
        ensures
            match res {
                Ok(all) => episodes_from_xml(value@) == Ok::<Seq<EpisodeView>, FeedError>(
                    all.episodes@.map_values(|e: Episode| e@),
                ),
                Err(err) => episodes_from_xml(value@) == Err::<Seq<EpisodeView>, FeedError>(err),
            },
    {
        let items = match read_channel_items(value.as_str()) {
            Ok(items) => items,
            Err(_) => return Err(FeedError::Rss),
        };
        let ghost item_views = items@.map_values(|i: FeedItem| i@);
        let mut episodes: Vec<Episode> = Vec::new();
        assert(item_views.take(0) =~= Seq::<FeedItemView>::empty());
        assert(episodes@.map_values(|e: Episode| e@) =~= Seq::<EpisodeView>::empty());
        for item in it: items
            invariant
                item_views == it.seq().map_values(|i: FeedItem| i@),
                rss_channel_items(value@) == Some(item_views),
                episodes_from_items(item_views.take(it.index() as int)) == Ok::<Seq<EpisodeView>, FeedError>(
                    episodes@.map_values(|e: Episode| e@),
                ),
        {
            let ghost k = it.index() as int;
            assert(item_views.take(k + 1).drop_last() =~= item_views.take(k));
            assert(item_views.take(k + 1).last() == item@);
            let ghost before = episodes@;
            match Episode::try_from(item) {
                Ok(e) => {
                    episodes.push(e);
                    assert(episodes@.map_values(|e: Episode| e@) =~= before.map_values(|e: Episode| e@).push(e@));
                },
                Err(err) => {
                    proof {
                        lemma_episodes_error_sticks(item_views, k + 1);
                    }
                    return Err(err);
                },
            }
        }
        assert(item_views.take(item_views.len() as int) =~= item_views);
        Ok(AllEpisodes { episodes })
    }
}

} // verus!
