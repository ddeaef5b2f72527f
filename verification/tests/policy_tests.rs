use podsync::podcast::DownloadMode;
use podsync::podcast::FeedError;
use podsync::podcast::Podcast;

const T1: &str = "Mon, 01 Jan 2018 00:00:00 +0000";
const T2: &str = "Tue, 02 Jan 2018 00:00:00 +0000";
const T3: &str = "Wed, 03 Jan 2018 00:00:00 +0000";

fn item(guid: &str, date: &str) -> String {
    format!(
        "<item><title>ep {guid}</title><guid>{guid}</guid>\
         <enclosure url=\"http://example.com/{guid}.mp3\" length=\"1\" type=\"audio/mpeg\"/>\
         <pubDate>{date}</pubDate></item>"
    )
}

fn three_episode_feed() -> String {
    // Items in shuffled feed order; the model sorts by publish time.
    format!(
        "<rss><channel><title>Show</title>{}{}{}</channel></rss>",
        item("g2", T2),
        item("g1", T1),
        item("g3", T3)
    )
}

fn t(date: &str) -> u64 {
    chrono::DateTime::parse_from_rfc2822(date).unwrap().timestamp() as u64
}

#[test]
fn indexes_follow_publish_time() {
    let pod = Podcast::new(
        "show".to_string(),
        &three_episode_feed(),
        DownloadMode::Standard { limit: 2 },
        &vec![],
    )
    .expect("feed should decode");
    assert_eq!(pod.episodes.len(), 3);
    let published: Vec<u64> = pod.episodes.iter().map(|e| e.published).collect();
    assert_eq!(published, vec![t(T1), t(T2), t(T3)]);
    let indexes: Vec<usize> = pod.episodes.iter().map(|e| e.index).collect();
    assert_eq!(indexes, vec![0, 1, 2]);
    let guids: Vec<&str> = pod.episodes.iter().map(|e| e.guid.as_str()).collect();
    assert_eq!(guids, vec!["g1", "g2", "g3"]);
}

#[test]
fn standard_mode_takes_newest_first() {
    let pod = Podcast::new(
        "show".to_string(),
        &three_episode_feed(),
        DownloadMode::Standard { limit: 2 },
        &vec![],
    )
    .unwrap();
    let pending = pod.pending_episodes();
    let published: Vec<u64> = pending.iter().map(|e| e.published).collect();
    assert_eq!(published, vec![t(T3), t(T2)]);
}

#[test]
fn backlog_mode_takes_oldest_first_from_cutoff() {
    let pod = Podcast::new(
        "show".to_string(),
        &three_episode_feed(),
        DownloadMode::Backlog { cutoff: t(T1) },
        &vec![],
    )
    .unwrap();
    let pending = pod.pending_episodes();
    let published: Vec<u64> = pending.iter().map(|e| e.published).collect();
    assert_eq!(published, vec![t(T1), t(T2), t(T3)]);

    let later = Podcast::new(
        "show".to_string(),
        &three_episode_feed(),
        DownloadMode::Backlog { cutoff: t(T2) },
        &vec![],
    )
    .unwrap();
    let published: Vec<u64> = later.pending_episodes().iter().map(|e| e.published).collect();
    assert_eq!(published, vec![t(T2), t(T3)]);
}

#[test]
fn both_modes_skip_downloaded_episodes() {
    let downloaded = vec!["g3".to_string()];
    let pod = Podcast::new(
        "show".to_string(),
        &three_episode_feed(),
        DownloadMode::Standard { limit: 2 },
        &downloaded,
    )
    .unwrap();
    // g3 is marked downloaded: the two most recent undownloaded are g2 and g1.
    let published: Vec<u64> = pod.pending_episodes().iter().map(|e| e.published).collect();
    assert_eq!(published, vec![t(T2), t(T1)]);

    let pod = Podcast::new(
        "show".to_string(),
        &three_episode_feed(),
        DownloadMode::Backlog { cutoff: t(T1) },
        &downloaded,
    )
    .unwrap();
    let published: Vec<u64> = pod.pending_episodes().iter().map(|e| e.published).collect();
    assert_eq!(published, vec![t(T1), t(T2)]);
}

#[test]
fn malformed_feed_is_a_parse_error() {
    let r = Podcast::new(
        "show".to_string(),
        "<rss><nochannel/></rss>",
        DownloadMode::Standard { limit: 1 },
        &vec![],
    );
    match r {
        Err(e) => {
            assert!(matches!(e, FeedError::Parse));
            assert_eq!(e.message(), "failed to parse xml");
        }
        Ok(_) => panic!("a feed without a channel must not decode"),
    }
}

#[test]
fn item_without_guid_is_dropped() {
    let xml = format!(
        "<rss><channel><title>Show</title>{}<item><title>no guid</title>\
         <enclosure url=\"http://example.com/x.mp3\" length=\"1\" type=\"audio/mpeg\"/>\
         <pubDate>{}</pubDate></item>{}</channel></rss>",
        item("g1", T1),
        T2,
        item("g3", T3)
    );
    let pod = Podcast::new(
        "show".to_string(),
        &xml,
        DownloadMode::Standard { limit: 5 },
        &vec![],
    )
    .unwrap();
    // The malformed item is gone; the rest keep a contiguous index range.
    assert_eq!(pod.episodes.len(), 2);
    let guids: Vec<&str> = pod.episodes.iter().map(|e| e.guid.as_str()).collect();
    assert_eq!(guids, vec!["g1", "g3"]);
    let indexes: Vec<usize> = pod.episodes.iter().map(|e| e.index).collect();
    assert_eq!(indexes, vec![0, 1]);
}

#[test]
fn standard_limit_larger_than_feed_takes_all() {
    let pod = Podcast::new(
        "show".to_string(),
        &three_episode_feed(),
        DownloadMode::Standard { limit: 10 },
        &vec![],
    )
    .unwrap();
    let published: Vec<u64> = pod.pending_episodes().iter().map(|e| e.published).collect();
    assert_eq!(published, vec![t(T3), t(T2), t(T1)]);
}

#[test]
fn longest_name_of_podcasts() {
    let a = Podcast::new(
        "ab".to_string(),
        &three_episode_feed(),
        DownloadMode::Standard { limit: 1 },
        &vec![],
    )
    .unwrap();
    let b = Podcast::new(
        "abcd".to_string(),
        &three_episode_feed(),
        DownloadMode::Standard { limit: 1 },
        &vec![],
    )
    .unwrap();
    let pods = vec![a, b];
    assert_eq!(podsync::podcast::longest_podcast_name_len(&pods), Some(4));
    let empty: Vec<Podcast> = vec![];
    assert_eq!(podsync::podcast::longest_podcast_name_len(&empty), None);
}

#[test]
fn channel_accessors_read_the_decoded_attributes() {
    let xml = format!(
        "<rss><channel><title>Show</title><language>en</language>\
         <copyright>c 2020</copyright><itunes:author>Alice</itunes:author>\
         <image><url>http://example.com/art.png</url></image>\
         <itunes:category><a>1</a><b>2</b></itunes:category>\
         {}{}</channel></rss>",
        item("g1", T1),
        item("g2", T2)
    );
    let pod = Podcast::new(
        "show".to_string(),
        &xml,
        DownloadMode::Standard { limit: 1 },
        &vec![],
    )
    .unwrap();
    assert_eq!(pod.name(), "show");
    assert_eq!(pod.title(), "Show");
    assert_eq!(pod.language().map(|s| s.as_str()), Some("en"));
    assert_eq!(pod.copyright().map(|s| s.as_str()), Some("c 2020"));
    assert_eq!(pod.author().map(|s| s.as_str()), Some("Alice"));
    assert_eq!(
        pod.image().map(|s| s.as_str()),
        Some("http://example.com/art.png")
    );
    assert_eq!(pod.get_text_attribute("nothing"), None);
}
