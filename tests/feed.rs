use chokurei::feed::{disassemble_channel, parse_rfc822_date, Feed, Item};
use chokurei::key::Url;

fn item(link: Option<&str>, date: Option<&str>, title: Option<&str>) -> Item {
    Item {
        link: link.map(|s| s.to_string()),
        pub_date: date.map(|s| s.to_string()),
        title: title.map(|s| s.to_string()),
        description: None,
        content: None,
        author: None,
    }
}

fn feed(interval: u32, augmented: i64) -> Feed {
    Feed {
        source: Url::parse("http://unknown").unwrap(),
        url: Url::parse("http://example.com/rss").unwrap(),
        interval,
        augmented,
    }
}

#[test]
fn parses_rfc822_dates() {
    assert_eq!(parse_rfc822_date("Sun, 02 Oct 2016 07:06:22 -0700 (PDT)"), Some(1475417182));
    assert_eq!(parse_rfc822_date("Thu, 01 Jan 1970 00:00:10 GMT"), Some(10));
    assert_eq!(parse_rfc822_date("32 Jan 2016 00:00:00 GMT"), None);
    assert_eq!(parse_rfc822_date("01 Foo 2016 00:00:00 GMT"), None);
}

#[test]
fn keeps_new_complete_items() {
    let old_date = "Thu, 01 Jan 1970 00:00:10 GMT";
    let new_date = "Thu, 01 Jan 1970 01:00:00 GMT";
    let mut full = item(Some(" http://example.com/a "), Some(new_date), Some("  A title "));
    full.description = Some("a description".to_string());
    full.author = Some("   ".to_string());
    let mut with_content = item(Some("http://example.com/b"), Some(new_date), Some("B"));
    with_content.content = Some(" body ".to_string());
    with_content.description = Some("ignored".to_string());
    with_content.author = Some("Ann".to_string());
    let items = vec![
        full,
        item(None, Some(new_date), Some("no link")),
        item(Some("http://example.com/c"), Some("32 Jan 2016 00:00:00 GMT"), Some("C")),
        item(Some("http://example.com/d"), Some(new_date), Some("  ")),
        item(Some("http://example.com/e"), Some(old_date), Some("old")),
        with_content,
        item(Some("http://example.com/f"), Some(new_date), Some("F")),
    ];
    let (feed, entries) = disassemble_channel(feed(3600, 100), " http://example.com/ ", items);
    assert_eq!(feed.source.as_str(), "http://example.com/");
    assert_eq!(feed.augmented, 100);
    // 4 counted items, 3 of them new.
    assert_eq!(feed.interval, 3600);
    assert_eq!(entries.len(), 3);
    assert_eq!(entries[0].url, "http://example.com/a");
    assert_eq!(entries[0].title, "A title");
    assert_eq!(entries[0].published, 3600);
    assert_eq!(entries[0].source, "http://example.com/");
    assert_eq!(entries[0].author, None);
    assert_eq!(entries[0].content, "a description");
    assert_eq!(entries[1].url, "http://example.com/b");
    assert_eq!(entries[1].content, "body");
    assert_eq!(entries[1].author, Some("Ann".to_string()));
    assert_eq!(entries[2].url, "http://example.com/f");
    assert_eq!(entries[2].content, "");
}

#[test]
fn empty_channel_backs_off() {
    let (feed, entries) = disassemble_channel(feed(7200, 0), "not a url", vec![]);
    assert_eq!(feed.source.as_str(), "http://unknown/");
    assert_eq!(feed.interval, 10800);
    assert!(entries.is_empty());
}
