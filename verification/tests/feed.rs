use jupiter_search::common;
use jupiter_search::feed::{Enclosure, FeedError, FeedItem};
use jupiter_search::jupiter_common;

const FEED: &str = r#"<?xml version="1.0" encoding="UTF-8"?>
<rss version="2.0">
<channel>
<title>Shows</title>
<link>https://example.com</link>
<description>All shows</description>
<item>
<title>Linux Action News 264!</title>
<link>https://example.com/264</link>
<description>News of the week</description>
<enclosure url="https://example.com/264.mp3" length="1234" type="audio/mpeg"/>
<pubDate>Wed, 18 Feb 2015 23:16:09 GMT</pubDate>
</item>
<item>
<title>Coder Radio: 500</title>
<link>https://example.com/500</link>
<enclosure url="https://example.com/500.mp3" length="99" type="audio/mpeg"/>
<pubDate>Thu, 19 Feb 2015 10:00:00 +0100</pubDate>
</item>
</channel>
</rss>"#;

fn item() -> FeedItem {
    FeedItem {
        title: Some("Linux Unplugged, #42".to_string()),
        link: Some("https://example.com/42".to_string()),
        description: Some("desc".to_string()),
        content: None,
        enclosure: Some(Enclosure {
            url: "https://example.com/42.mp3".to_string(),
            length: "10".to_string(),
            mime_type: "audio/mpeg".to_string(),
        }),
        pub_date: Some("Wed, 18 Feb 2015 23:16:09 GMT".to_string()),
    }
}

#[test]
fn episode_id_keeps_ascii_letters_and_digits() {
    let e = common::Episode::try_from(item()).unwrap();
    assert_eq!(e.id, "LinuxUnplugged42");
    assert_eq!(e.title, "Linux Unplugged, #42");
    assert_eq!(e.link, "https://example.com/42");
    assert_eq!(e.enclosure.url, "https://example.com/42.mp3");
    assert_eq!(e.pub_date, "Wed, 18 Feb 2015 23:16:09 GMT");
    assert_eq!(e.description.as_deref(), Some("desc"));
    assert_eq!(e.content, None);
}

#[test]
fn episode_id_drops_non_ascii_letters() {
    let mut i = item();
    i.title = Some("Zażółć 2".to_string());
    assert_eq!(common::Episode::try_from(i).unwrap().id, "Za2");
}

#[test]
fn episode_missing_fields_in_order() {
    let mut i = item();
    i.title = None;
    i.link = None;
    assert_eq!(common::Episode::try_from(i).unwrap_err(), FeedError::MissingTitle);
    let mut i = item();
    i.link = None;
    i.enclosure = None;
    assert_eq!(common::Episode::try_from(i).unwrap_err(), FeedError::MissingLink);
    let mut i = item();
    i.enclosure = None;
    assert_eq!(common::Episode::try_from(i).unwrap_err(), FeedError::MissingEnclosure);
    let mut i = item();
    i.pub_date = None;
    assert_eq!(common::Episode::try_from(i).unwrap_err(), FeedError::MissingPubDate);
    assert_eq!(FeedError::MissingLink.message(), "missing link!");
}

#[test]
fn all_episodes_from_feed() {
    let all = common::AllEpisodes::try_from(FEED.to_string()).unwrap();
    assert_eq!(all.episodes.len(), 2);
    assert_eq!(all.episodes[0].id, "LinuxActionNews264");
    assert_eq!(all.episodes[1].id, "CoderRadio500");
    assert_eq!(all.episodes[0].enclosure.length, "1234");
    assert_eq!(all.episodes[0].enclosure.mime_type, "audio/mpeg");
    assert_eq!(all.episodes[1].description, None);
}

#[test]
fn all_episodes_rejects_non_rss() {
    assert_eq!(
        common::AllEpisodes::try_from("not xml at all".to_string()).err(),
        Some(FeedError::Rss)
    );
    assert_eq!(
        jupiter_common::AllEpisodes::try_from("<html></html>".to_string()).err(),
        Some(FeedError::Rss)
    );
}

#[test]
fn all_episodes_first_bad_item_is_the_error() {
    let feed = FEED.replace("<link>https://example.com/500</link>", "");
    assert_eq!(
        common::AllEpisodes::try_from(feed).err(),
        Some(FeedError::MissingLink)
    );
}

#[test]
fn jupiter_episode_parses_date() {
    let e = jupiter_common::Episode::try_from(item()).unwrap();
    assert_eq!(e.pub_date.timestamp, 1424301369);
    assert_eq!(e.pub_date.nanos, 0);
    assert_eq!(e.pub_date.offset_seconds, 0);
    assert_eq!(e.title, "Linux Unplugged, #42");
}

#[test]
fn jupiter_episode_rejects_bad_date() {
    let mut i = item();
    i.pub_date = Some("yesterday".to_string());
    assert_eq!(jupiter_common::Episode::try_from(i).unwrap_err(), FeedError::InvalidPubDate);
    let mut i = item();
    i.pub_date = None;
    assert_eq!(jupiter_common::Episode::try_from(i).unwrap_err(), FeedError::MissingPubDate);
}

#[test]
fn jupiter_all_episodes_keep_offsets() {
    let all = jupiter_common::AllEpisodes::try_from(FEED.to_string()).unwrap();
    assert_eq!(all.episodes.len(), 2);
    assert_eq!(all.episodes[1].pub_date.offset_seconds, 3600);
    assert_eq!(all.episodes[1].pub_date.timestamp, 1424336400);
    assert!(all.episodes[0].pub_date.is_earlier_than(&all.episodes[1].pub_date));
}

#[test]
fn earliest_by_date_text() {
    let mut a = common::Episode::try_from(item()).unwrap();
    let mut b = a.clone();
    let mut c = a.clone();
    a.pub_date = "b".to_string();
    a.title = "first b".to_string();
    b.pub_date = "a".to_string();
    b.title = "a".to_string();
    c.pub_date = "a".to_string();
    c.title = "second a".to_string();
    let e = common::earliest_published(vec![a, b, c]).unwrap();
    assert_eq!(e.title, "a");
    assert!(common::earliest_published(vec![]).is_none());
    assert!(common::str_less("ab", "b"));
    assert!(common::str_less("a", "ab"));
    assert!(!common::str_less("ab", "ab"));
    assert!(!common::str_less("é", "z"));
}

#[test]
fn all_episodes_refuses_duplicate_ids() {
    let feed = FEED
        .replace("Linux Action News 264!", "A-B")
        .replace("Coder Radio: 500", "AB");
    assert_eq!(
        common::AllEpisodes::try_from(feed.clone()).err(),
        Some(FeedError::DuplicateId)
    );
    assert_eq!(FeedError::DuplicateId.message(), "duplicate episode id");
    // the dated episodes carry no identifier, so the same feed is accepted there
    assert_eq!(jupiter_common::AllEpisodes::try_from(feed).unwrap().episodes.len(), 2);
}

#[test]
fn item_error_comes_before_duplicate_ids() {
    let feed = FEED
        .replace("Linux Action News 264!", "AB")
        .replace("Coder Radio: 500", "A B")
        .replace("<link>https://example.com/500</link>", "");
    assert_eq!(
        common::AllEpisodes::try_from(feed).err(),
        Some(FeedError::MissingLink)
    );
}

#[test]
fn join_texts_puts_parts_together() {
    let parts = vec!["Li".to_string(), "".to_string(), "nux".to_string(), "4".to_string()];
    assert_eq!(common::join_texts(&parts), "Linux4");
    assert_eq!(common::join_texts(&vec![]), "");
}
