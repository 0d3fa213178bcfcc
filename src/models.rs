//! Rows of the feed store.

use vstd::prelude::*;

use crate::key::{Key, Url};

verus! {

/// A feed to be stored: its key and its url.
pub struct NewFeed {
    pub key: Key,
    pub url: Url,
}

/// A user's subscription to a feed.
pub struct Subscription {
    pub user_id: i32,
    pub feed_id: i32,
}

} // verus!
