use podsync::episode::Episode;
use podsync::podcast::DownloadMode;
use podsync::podcast::Podcast;
use podsync::tags::set_mp3_tags;
use podsync::tags::artwork_to_fetch;

// 2020-09-13T12:26:40 UTC.
const PUBLISHED: u64 = 1600000000;

fn feed() -> String {
    "<rss><channel><title>Show</title><language>en</language>\
     <copyright>c 2020</copyright><itunes:author>Alice</itunes:author>\
     <itunes:category><a>x</a></itunes:category>\
     <item><title>e</title><guid>g</guid>\
     <enclosure url=\"http://example.com/e.mp3\" length=\"1\" type=\"audio/mpeg\"/>\
     <pubDate>Mon, 01 Jan 2018 00:00:00 +0000</pubDate></item>\
     <item><title>f</title><guid>h</guid>\
     <enclosure url=\"http://example.com/f.mp3\" length=\"1\" type=\"audio/mpeg\"/>\
     <pubDate>Tue, 02 Jan 2018 00:00:00 +0000</pubDate></item></channel></rss>"
        .to_string()
}

fn podcast() -> Podcast {
    Podcast::new(
        "show".to_string(),
        &feed(),
        DownloadMode::Standard { limit: 1 },
        &vec![],
    )
    .unwrap()
}

fn episode() -> Episode {
    Episode {
        title: "An Episode".to_string(),
        guid: "guid-1".to_string(),
        url: "http://example.com/e.mp3".to_string(),
        published: PUBLISHED,
        author: Some("Bob".to_string()),
        image: None,
        description: Some("About things.".to_string()),
        itunes_episode: Some("007".to_string()),
        itunes_duration: Some("90".to_string()),
        index: 0,
        downloaded: false,
    }
}

fn value_of<'a>(tags: &'a [(String, String)], key: &str) -> Option<&'a str> {
    tags.iter().find(|p| p.0 == key).map(|p| p.1.as_str())
}

#[test]
fn derived_tags_come_from_feed_fields() {
    let tags = set_mp3_tags(&podcast(), &episode(), vec![], vec![]);
    assert_eq!(value_of(&tags, "TIT2"), Some("An Episode"));
    assert_eq!(value_of(&tags, "TPE1"), Some("Bob"));
    assert_eq!(value_of(&tags, "TALB"), Some("Show"));
    assert_eq!(value_of(&tags, "TCON"), Some("podcast"));
    assert_eq!(value_of(&tags, "TRCK"), Some("7"));
    assert_eq!(value_of(&tags, "TYER"), Some("2020"));
    assert_eq!(value_of(&tags, "TCOP"), Some("c 2020"));
    assert_eq!(value_of(&tags, "TDES"), Some("About things."));
    assert_eq!(value_of(&tags, "TDRL"), Some("2020-09-13T12:26:40"));
    assert_eq!(value_of(&tags, "TLAN"), Some("en"));
    assert_eq!(value_of(&tags, "TLEN"), Some("90000"));
    assert_eq!(value_of(&tags, "TPUB"), Some("Alice"));
    assert_eq!(value_of(&tags, "TGID"), Some("guid-1"));
}

#[test]
fn enrichment_never_overwrites_existing_tags() {
    let existing = vec![
        ("TIT2".to_string(), "My Own Title".to_string()),
        ("TLAN".to_string(), "fr".to_string()),
    ];
    let tags = set_mp3_tags(&podcast(), &episode(), vec![], existing);
    assert_eq!(value_of(&tags, "TIT2"), Some("My Own Title"));
    assert_eq!(value_of(&tags, "TLAN"), Some("fr"));
    // Free keys are still filled.
    assert_eq!(value_of(&tags, "TALB"), Some("Show"));
}

#[test]
fn enrichment_twice_equals_enrichment_once() {
    let pod = podcast();
    let ep = episode();
    let once = set_mp3_tags(&pod, &ep, vec![], vec![]);
    let twice = set_mp3_tags(&pod, &ep, vec![], once.clone());
    assert_eq!(twice, once);

    let existing = vec![("TCON".to_string(), "music".to_string())];
    let once = set_mp3_tags(&pod, &ep, vec![], existing);
    let twice = set_mp3_tags(&pod, &ep, vec![], once.clone());
    assert_eq!(twice, once);
}

#[test]
fn custom_tags_overwrite_and_block_derivation() {
    let custom = vec![("TIT2".to_string(), "Forced".to_string())];
    let existing = vec![("TIT2".to_string(), "Old".to_string())];
    let tags = set_mp3_tags(&podcast(), &episode(), custom, existing);
    assert_eq!(value_of(&tags, "TIT2"), Some("Forced"));
}

#[test]
fn unparsable_numeric_fields_are_skipped() {
    let mut ep = episode();
    ep.itunes_episode = Some("abc".to_string());
    ep.itunes_duration = None;
    let tags = set_mp3_tags(&podcast(), &ep, vec![], vec![]);
    assert_eq!(value_of(&tags, "TRCK"), None);
    assert_eq!(value_of(&tags, "TLEN"), None);
}

#[test]
fn artwork_is_fetched_only_when_cover_is_free() {
    let ep_art = Some("http://example.com/ep.png".to_string());
    let pod_art = Some("http://example.com/pod.png".to_string());
    assert_eq!(
        artwork_to_fetch(false, &ep_art, &pod_art),
        Some("http://example.com/ep.png".to_string())
    );
    assert_eq!(
        artwork_to_fetch(false, &None, &pod_art),
        Some("http://example.com/pod.png".to_string())
    );
    assert_eq!(artwork_to_fetch(false, &None, &None), None);
    assert_eq!(artwork_to_fetch(true, &ep_art, &pod_art), None);
}

#[test]
fn categories_join_into_the_category_tag() {
    let xml = "<rss><channel><title>Show</title>\
        <itunes:category>Arts</itunes:category><itunes:category>Comedy</itunes:category>\
        <item><title>e</title><guid>g</guid>\
        <enclosure url=\"http://example.com/e.mp3\" length=\"1\" type=\"audio/mpeg\"/>\
        <pubDate>Mon, 01 Jan 2018 00:00:00 +0000</pubDate></item>\
        <item><title>f</title><guid>h</guid>\
        <enclosure url=\"http://example.com/f.mp3\" length=\"1\" type=\"audio/mpeg\"/>\
        <pubDate>Tue, 02 Jan 2018 00:00:00 +0000</pubDate></item></channel></rss>";
    let pod = Podcast::new(
        "show".to_string(),
        xml,
        DownloadMode::Standard { limit: 1 },
        &vec![],
    )
    .unwrap();
    assert_eq!(pod.categories(), vec!["Arts".to_string(), "Comedy".to_string()]);
    let tags = set_mp3_tags(&pod, &episode(), vec![], vec![]);
    assert_eq!(value_of(&tags, "TCAT"), Some("Arts/Comedy"));
}
