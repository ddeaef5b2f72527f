use podsync::decode::decode;
use podsync::text::remove_xml_namespaces;
use podsync::value::get_guid;
use podsync::value::Node;

#[test]
fn test_modify_xml_tags() {
    let xml = r#"<root><foo:bar>Content</foo:bar><baz:qux>More Content</baz:qux></root>"#;
    let replacement = "___placeholder___";

    let expected = r#"<root><foo___placeholder___bar>Content</foo___placeholder___bar><baz___placeholder___qux>More Content</baz___placeholder___qux></root>"#;

    let modified_xml = remove_xml_namespaces(xml, replacement);

    assert_eq!(
        modified_xml, expected,
        "The modified XML does not match the expected output."
    );
}

fn feed_with_items(items: &str) -> String {
    format!(
        "<rss><channel><title>Show</title><language>en</language>\
         <copyright>c 2020</copyright><itunes:author>Alice</itunes:author>\
         <category>plain-cat</category><itunes:category>itunes-cat</itunes:category>\
         {}</channel></rss>",
        items
    )
}

fn item(guid: &str, date: &str) -> String {
    format!(
        "<item><title>ep {guid}</title><guid>{guid}</guid>\
         <enclosure url=\"http://example.com/{guid}.mp3\" length=\"1\" type=\"audio/mpeg\"/>\
         <pubDate>{date}</pubDate></item>"
    )
}

#[test]
fn decode_finds_channel_and_items() {
    let xml = feed_with_items(&format!(
        "{}{}",
        item("a", "Mon, 01 Jan 2018 00:00:00 +0000"),
        item("b", "Tue, 02 Jan 2018 00:00:00 +0000")
    ));
    let (channel, items) = decode(&xml).expect("feed should decode");
    assert_eq!(items.len(), 2);
    let title = channel.get("title").and_then(|v| v.as_text());
    assert_eq!(title.map(|s| s.as_str()), Some("Show"));
}

#[test]
fn decode_keeps_itunes_namespace_apart() {
    // A plain tag and an itunes tag of the same local name must stay two keys,
    // and their values must come back exactly as authored.
    let xml = feed_with_items(&format!(
        "{}{}",
        item("a", "Mon, 01 Jan 2018 00:00:00 +0000"),
        item("b", "Tue, 02 Jan 2018 00:00:00 +0000")
    ));
    let (channel, _) = decode(&xml).expect("feed should decode");
    let plain = channel.get("category").and_then(|v| v.as_text());
    assert_eq!(plain.map(|s| s.as_str()), Some("plain-cat"));
    let namespaced = channel.get("itunes:category").and_then(|v| v.as_text());
    assert_eq!(namespaced.map(|s| s.as_str()), Some("itunes-cat"));
    let author = channel.get("itunes:author").and_then(|v| v.as_text());
    assert_eq!(author.map(|s| s.as_str()), Some("Alice"));
}

#[test]
fn decode_rejects_feed_without_channel() {
    let xml = "<rss><chan><item></item></chan></rss>";
    assert!(decode(xml).is_none());
}

#[test]
fn decode_rejects_feed_without_item_list() {
    let xml = "<rss><channel><title>Show</title></channel></rss>";
    assert!(decode(xml).is_none());
}

#[test]
fn guid_reads_bare_and_structured_text() {
    let bare = Node::Text("abc".to_string());
    let item_bare = Node::Mapping(vec![("guid".to_string(), bare)]);
    assert_eq!(get_guid(&item_bare), Some("abc".to_string()));

    let structured = Node::Mapping(vec![
        ("@isPermaLink".to_string(), Node::Text("false".to_string())),
        ("#text".to_string(), Node::Text("xyz".to_string())),
    ]);
    let item_structured = Node::Mapping(vec![("guid".to_string(), structured)]);
    assert_eq!(get_guid(&item_structured), Some("xyz".to_string()));

    let missing = Node::Mapping(vec![("title".to_string(), Node::Text("t".to_string()))]);
    assert_eq!(get_guid(&missing), None);
}

#[test]
fn truncate_by_display_width() {
    assert_eq!(podsync::text::truncate_string("hello", 3), "hel");
    assert_eq!(podsync::text::truncate_string("hello", 10), "hello");
    assert_eq!(podsync::text::truncate_string("", 4), "");
    // Fullwidth characters take two columns: only two of them fit in five.
    assert_eq!(podsync::text::truncate_string("日本語", 5), "日本");
}
