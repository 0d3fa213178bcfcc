//! Turning a polled feed into article records: which items are kept, what
//! each record holds, and the feed's next polling interval.

use vstd::prelude::*;

use crate::document::Entry;
use crate::interval::{estimate_interval, estimated_interval, parse_url, purify_text, trim_of, MIN_INTERVAL};
use crate::key::{opt_view, url_parts, Url};

verus! {

/// The seconds since the epoch of an RFC 822 date, or `None` when the text
/// is not one.
pub uninterp spec fn rfc822_seconds(date: Seq<char>) -> Option<i64>;

/// Relies on `mailparse::dateparse`: the timestamp depends on the text alone.
#[verifier::external_body]
fn dateparse(date: &str) -> (r: Option<i64>)
    ensures
        r == rfc822_seconds(date@),
{
    match mailparse::dateparse(date) {
        Ok(seconds) => Some(seconds),
        Err(_) => None,
    }
}

/// Parses an RFC 822 date into seconds since the epoch.
pub fn parse_rfc822_date(date: &str) -> (r: Option<i64>)
    ensures
        r == rfc822_seconds(date@),
{
    dateparse(date)
}

/// A polled feed.
pub struct Feed {
    pub source: Url,
    pub url: Url,
    /// Seconds until the next poll.
    pub interval: u32,
    /// Publish time of the newest item seen so far.
    pub augmented: i64,
}

/// An item of a feed, as the feed gives it.
pub struct Item {
    pub link: Option<String>,
    pub pub_date: Option<String>,
    pub title: Option<String>,
    pub description: Option<String>,
    pub content: Option<String>,
    pub author: Option<String>,
}

/// A text field without surrounding whitespace; `None` when absent or blank.
pub open spec fn purified(s: Option<String>) -> Option<Seq<char>> {
    match s {
        Some(t) => if trim_of(t@).len() > 0 {
            Some(trim_of(t@))
        } else {
            None
        },
        None => None,
    }
}

pub open spec fn item_url(item: Item) -> Option<(Seq<char>, Option<Seq<char>>, Option<u16>, Seq<char>)> {
    match item.link {
        Some(l) => url_parts(trim_of(l@)),
        None => None,
    }
}

pub open spec fn item_published(item: Item) -> Option<i64> {
    match item.pub_date {
        Some(d) => rfc822_seconds(d@),
        None => None,
    }
}

/// An item is counted when it has a url, a publish date and a title.
pub open spec fn counted(item: Item) -> bool {
    &&& item_url(item) is Some
    &&& item_published(item) is Some
    &&& purified(item.title) is Some
}

/// A counted item is new when published after `augmented`.
pub open spec fn is_new(item: Item, augmented: i64) -> bool {
    counted(item) && item_published(item)->0 > augmented
}

pub open spec fn count_counted(items: Seq<Item>) -> nat
    decreases items.len(),
{
    if items.len() == 0 {
        0
    } else {
        count_counted(items.drop_last()) + if counted(items.last()) {
            1nat
        } else {
            0nat
        }
    }
}

/// The new items, in order.
pub open spec fn new_items(items: Seq<Item>, augmented: i64) -> Seq<Item>
    decreases items.len(),
{
    if items.len() == 0 {
        Seq::empty()
    } else {
        let prev = new_items(items.drop_last(), augmented);
        if is_new(items.last(), augmented) {
            prev.push(items.last())
        } else {
            prev
        }
    }
}

/// The content of an item's record: its content, else its description,
/// else nothing.
pub open spec fn content_of(item: Item) -> Seq<char> {
    match purified(item.content) {
        Some(c) => c,
        None => match purified(item.description) {
            Some(d) => d,
            None => Seq::empty(),
        },
    }
}

/// `e` is the record of the new item `item` of a feed whose source is `source`.
pub open spec fn record_of(e: Entry, source: Seq<char>, item: Item) -> bool {
    &&& e.url@ == (item_url(item)->0).0
    &&& e.title@ == purified(item.title)->0
    &&& e.published == item_published(item)->0
    &&& e.source@ == source
    &&& opt_view(e.author) == purified(item.author)
    &&& e.content@ == content_of(item)
}

fn purify_field(s: &Option<String>) -> (r: Option<String>)
    ensures
        opt_view(r) == purified(*s),
{
    match s {
        Some(t) => purify_text(t.clone()),
        None => None,
    }
}

/// Splits a polled feed into the records of its new items. The feed's
/// source becomes the channel's link when that parses; the interval is
/// re-estimated from the counted and the new items.
pub fn disassemble_channel(feed: Feed, link: &str, items: Vec<Item>) -> (r: (Feed, Vec<Entry>))
    requires
        items.len() <= u32::MAX,
        feed.interval + MIN_INTERVAL <= u32::MAX,
    ensures
        match url_parts(trim_of(link@)) {
            Some(p) => r.0.source.parts() == p,
            None => r.0.source == feed.source,
        },
        r.0.url == feed.url,
        r.0.augmented == feed.augmented,
        r.0.interval == estimated_interval(
            feed.interval as int,
            count_counted(items@) as int,
            new_items(items@, feed.augmented).len() as int,
        ),
        r.1@.len() == new_items(items@, feed.augmented).len(),
        forall|j: int|
            0 <= j < r.1@.len() ==> #[trigger] record_of(
                r.1@[j],
                r.0.source.serialization@,
                new_items(items@, feed.augmented)[j],
            ),
{
    let Feed { source, url, interval, augmented } = feed;
    let source = match parse_url(link) {
        Some(u) => u,
        None => source,
    };
    let mut total: u32 = 0;
    let mut entries: Vec<Entry> = Vec::new();
    let mut i: usize = 0;
    while i < items.len()
        invariant
            items.len() <= u32::MAX,
            i <= items.len(),
            total == count_counted(items@.take(i as int)),
            total <= i,
            entries@.len() <= total,
            entries@.len() == new_items(items@.take(i as int), augmented).len(),
            forall|j: int|
                0 <= j < entries@.len() ==> #[trigger] record_of(
                    entries@[j],
                    source.serialization@,
                    new_items(items@.take(i as int), augmented)[j],
                ),
        decreases items.len() - i,
    {
        let item = &items[i];
        let ghost prefix = items@.take(i as int);
        proof {
            assert(items@.take(i as int + 1).drop_last() =~= prefix);
            assert(items@.take(i as int + 1).last() == *item);
        }
        let url = match &item.link {
            Some(l) => parse_url(l.as_str()),
            None => None,
        };
        let published = match &item.pub_date {
            Some(d) => parse_rfc822_date(d.as_str()),
            None => None,
        };
        let title = purify_field(&item.title);
        match (url, published, title) {
            (Some(url), Some(published), Some(title)) => {
                total = total + 1;
                if published > augmented {
                    let description = purify_field(&item.description);
                    let content = match purify_field(&item.content) {
                        Some(c) => c,
                        None => match description {
                            Some(d) => d,
                            None => String::new(),
                        },
                    };
                    let entry = Entry {
                        url: url.serialization,
                        title,
                        published,
                        source: source.serialization.clone(),
                        author: purify_field(&item.author),
                        content,
                    };
                    entries.push(entry);
                }
            },
            _ => {},
        }
        i = i + 1;
    }
    assert(items@.take(items.len() as int) =~= items@);
    let new = entries.len() as u32;
    let interval = estimate_interval(interval, total, new);
    (Feed { source, url, interval, augmented }, entries)
}

} // verus!
