use vstd::prelude::*;

use crate::dedup::{
    fingerprint_of, fingerprints, fresh_entries, lemma_all_seen_nothing_fresh,
    lemma_refetch_nothing_fresh, fresh_of, fresh_prints, remember, remembered,
    views, Entry, SEEN_CAP,
};
use crate::interval::{next_interval, next_interval_spec, Limits, Outcome};
use crate::store::{feed_wf, has_feed, keeps, subscriber_list, Feed, Store};

verus! {

/// A feed whose consecutive failures exceed this count is given up.
pub const ERROR_LIMIT: u32 = 24;

/// A feed as fetched and parsed, with the cache validators that came with it.
#[derive(Debug)]
pub struct Page {
    pub title: String,
    pub etag: Option<String>,
    pub last_modified: Option<String>,
    pub entries: Vec<Entry>,
}

/// What one poll of a feed brought back.
#[derive(Debug)]
pub enum FetchResult {
    /// The server answered that nothing changed since the validators.
    NotModified,
    /// A body that parsed.
    Fetched(Page),
    /// A network error, a timeout, a bad status or a body that did not parse.
    Failed,
}

/// One message to send: entry `entry` of the page to chat `chat`.
#[derive(Clone, Copy, Debug, PartialEq, Eq, Structural)]
pub struct Delivery {
    pub chat: i64,
    pub entry: usize,
}

/// What the poll asks of the messaging side.
#[derive(Debug)]
pub enum FetchReport {
    /// No feed has that id (it was removed meanwhile); nothing changed.
    UnknownFeed,
    /// These messages are to be sent; the feed stays.
    Delivered(Vec<Delivery>),
    /// The feed failed too often and is gone; each of these chats gets one
    /// removal notice.
    Removed(Vec<i64>),
}

/// When a feed polled at `now` is next due.
pub open spec fn next_due(now: u64, interval: u32) -> u64 {
    if now as int + interval as int > u64::MAX as int {
        u64::MAX
    } else {
        (now + interval) as u64
    }
}

/// One message per chat for each new entry: entries in page order, and for
/// each entry the chats in subscription order.
pub open spec fn deliveries(fresh: Seq<int>, chats: Seq<i64>) -> Seq<Delivery>
    decreases fresh.len(),
{
    if fresh.len() == 0 {
        Seq::empty()
    } else {
        deliveries(fresh.drop_last(), chats) + chats.map_values(
            |c: i64| Delivery { chat: c, entry: fresh.last() as usize },
        )
    }
}

/// Interval, error count and due time after a poll with the given outcome;
/// identity unchanged.
pub open spec fn settled(before: Feed, after: Feed, outcome: Outcome, now: u64, limits: Limits) -> bool {
    &&& after.id == before.id
    &&& after.url == before.url
    &&& after.interval == next_interval_spec(before.interval as int, outcome, limits)
    &&& after.error_count == (if outcome == Outcome::Failed {
        before.error_count + 1
    } else {
        0
    })
    &&& after.next_fetch == next_due(now, after.interval)
}

pub open spec fn same_content(before: Feed, after: Feed) -> bool {
    &&& after.title == before.title
    &&& after.etag == before.etag
    &&& after.last_modified == before.last_modified
    &&& after.seen == before.seen
}

pub open spec fn page_prints(page: Page) -> Seq<Seq<char>> {
    page.entries@.map_values(|e: Entry| fingerprint_of(e))
}

/// The new entries of a page, by position, for a feed that has seen `seen`.
pub open spec fn page_fresh(seen: Seq<String>, page: Page) -> Seq<int> {
    fresh_of(views(seen), page_prints(page))
}

/// The feed after a page was read: content from the page, fingerprints of
/// the new entries remembered, interval halved on news and grown otherwise.
pub open spec fn page_applied(before: Feed, after: Feed, page: Page, now: u64, limits: Limits) -> bool {
    let fresh = page_fresh(before.seen@, page);
    &&& after.title == page.title
    &&& after.etag == page.etag
    &&& after.last_modified == page.last_modified
    &&& views(after.seen@) == remembered(
        views(before.seen@),
        fresh_prints(views(before.seen@), page_prints(page)),
        SEEN_CAP as nat,
    )
    &&& settled(
        before,
        after,
        if fresh.len() > 0 {
            Outcome::NewEntries
        } else {
            Outcome::NothingNew
        },
        now,
        limits,
    )
}

fn next_due_exec(now: u64, interval: u32) -> (r: u64)
    ensures
        r == next_due(now, interval),
{
    if now > u64::MAX - interval as u64 {
        u64::MAX
    } else {
        now + interval as u64
    }
}

/// One delivery per chat for each position in `fresh`.
pub fn fan_out(fresh: &Vec<usize>, chats: &Vec<i64>) -> (r: Vec<Delivery>)
    ensures
        r@ == deliveries(fresh@.map_values(|i: usize| i as int), chats@),
{
    let ghost f = fresh@.map_values(|i: usize| i as int);
    let mut r: Vec<Delivery> = Vec::new();
    let mut a: usize = 0;
    while a < fresh.len()
        invariant
            a <= fresh@.len(),
            f == fresh@.map_values(|i: usize| i as int),
            r@ == deliveries(f.take(a as int), chats@),
        decreases fresh@.len() - a,
    {
        let ghost start = r@;
        let mut b: usize = 0;
        while b < chats.len()
            invariant
                a < fresh@.len(),
                b <= chats@.len(),
                r@ == start + chats@.take(b as int).map_values(
                    |c: i64| Delivery { chat: c, entry: fresh@[a as int] },
                ),
            decreases chats@.len() - b,
        {
            r.push(Delivery { chat: chats[b], entry: fresh[a] });
            assert(r@ =~= start + chats@.take(b + 1).map_values(
                |c: i64| Delivery { chat: c, entry: fresh@[a as int] },
            ));
            b = b + 1;
        }
        assert(f.take(a + 1).drop_last() =~= f.take(a as int));
        assert(chats@.take(b as int) =~= chats@);
        assert(r@ =~= deliveries(f.take(a + 1), chats@));
        a = a + 1;
    }
    assert(f.take(a as int) =~= f);
    r
}

impl Store {
    /// Takes the result of one poll of feed `id` at `now` into the store and
    /// says which messages it calls for. Not modified, or a page with nothing
    /// new, grows the interval; a page with new entries remembers them,
    /// shrinks the interval and sends each to every subscriber; a failure
    /// backs off, and past `ERROR_LIMIT` consecutive failures removes the feed
    /// and its subscriptions.
    pub fn apply_fetch(&mut self, id: u64, result: FetchResult, now: u64) -> (r: FetchReport)
        requires
            old(self).wf(),
        ensures
            final(self).wf(),
            final(self).limits == old(self).limits,
            !has_feed(old(self).feeds@, id) ==> r is UnknownFeed && *final(self) == *old(self),
            forall|i: int|
                0 <= i < old(self).feeds@.len() && #[trigger] old(self).feeds@[i].id == id ==> {
                    let before = old(self).feeds@[i];
                    let chats = subscriber_list(old(self).subs@, id);
                    match result {
                        FetchResult::NotModified => {
                            &&& r matches FetchReport::Delivered(d) && d@.len() == 0
                            &&& final(self).subs == old(self).subs
                            &&& final(self).feeds@ == old(self).feeds@.update(i, final(self).feeds@[i])
                            &&& settled(before, final(self).feeds@[i], Outcome::NothingNew, now, old(self).limits)
                            &&& same_content(before, final(self).feeds@[i])
                        },
                        FetchResult::Fetched(page) => {
                            &&& r matches FetchReport::Delivered(d) && d@ == deliveries(
                                page_fresh(before.seen@, page),
                                chats,
                            )
                            &&& final(self).subs == old(self).subs
                            &&& final(self).feeds@ == old(self).feeds@.update(i, final(self).feeds@[i])
                            &&& page_applied(before, final(self).feeds@[i], page, now, old(self).limits)
                        },
                        FetchResult::Failed => if before.error_count >= ERROR_LIMIT {
                            &&& r matches FetchReport::Removed(c) && c@ == chats
                            &&& final(self).feeds@ == old(self).feeds@.remove(i)
                            &&& final(self).subs@ == old(self).subs@.filter(keeps(None, Some(id)))
                        } else {
                            &&& r matches FetchReport::Delivered(d) && d@.len() == 0
                            &&& final(self).subs == old(self).subs
                            &&& final(self).feeds@ == old(self).feeds@.update(i, final(self).feeds@[i])
                            &&& settled(before, final(self).feeds@[i], Outcome::Failed, now, old(self).limits)
                            &&& same_content(before, final(self).feeds@[i])
                        },
                    }
                },
    {
        let i = match self.find_feed(id) {
            Some(i) => i,
            None => return FetchReport::UnknownFeed,
        };
        let limits = self.limits;
        let ghost start = *self;
        match result {
            FetchResult::NotModified => {
                let f = &mut self.feeds[i];
                f.interval = next_interval(f.interval, Outcome::NothingNew, limits);
                f.error_count = 0;
                f.next_fetch = next_due_exec(now, f.interval);
                proof {
                    lemma_update_keeps_wf(start, *self, i as int);
                }
                FetchReport::Delivered(Vec::new())
            },
            FetchResult::Fetched(page) => {
                let fps = fingerprints(&page.entries);
                let fresh = fresh_entries(&self.feeds[i].seen, &fps);
                let chats = self.subscribers(id);
                let sends = fan_out(&fresh, &chats);
                let outcome = if fresh.len() > 0 {
                    Outcome::NewEntries
                } else {
                    Outcome::NothingNew
                };
                assert(fresh@.map_values(|k: usize| views(fps@)[k as int]) =~= fresh_prints(
                    views(start.feeds@[i as int].seen@),
                    page_prints(page),
                ));
                let f = &mut self.feeds[i];
                remember(&mut f.seen, &fps, &fresh);
                f.title = page.title;
                f.etag = page.etag;
                f.last_modified = page.last_modified;
                f.interval = next_interval(f.interval, outcome, limits);
                f.error_count = 0;
                f.next_fetch = next_due_exec(now, f.interval);
                proof {
                    lemma_update_keeps_wf(start, *self, i as int);
                }
                FetchReport::Delivered(sends)
            },
            FetchResult::Failed => {
                if self.feeds[i].error_count >= ERROR_LIMIT {
                    let chats = self.subscribers(id);
                    self.drop_feed_subs(id);
                    self.feeds.remove(i);
                    proof {
                        lemma_remove_keeps_wf(start, *self, i as int);
                    }
                    FetchReport::Removed(chats)
                } else {
                    let f = &mut self.feeds[i];
                    f.error_count = f.error_count + 1;
                    f.interval = next_interval(f.interval, Outcome::Failed, limits);
                    f.next_fetch = next_due_exec(now, f.interval);
                    proof {
                        lemma_update_keeps_wf(start, *self, i as int);
                    }
                    FetchReport::Delivered(Vec::new())
                }
            },
        }
    }
}

/// Changing one feed's polling state keeps the store well formed.
proof fn lemma_update_keeps_wf(a: Store, b: Store, i: int)
    requires
        a.wf(),
        0 <= i < a.feeds@.len(),
        b.limits == a.limits,
        b.next_id == a.next_id,
        b.subs == a.subs,
        b.feeds@ == a.feeds@.update(i, b.feeds@[i]),
        b.feeds@[i].id == a.feeds@[i].id,
        b.feeds@[i].url == a.feeds@[i].url,
        feed_wf(b.feeds@[i], b.limits),
    ensures
        b.wf(),
{
    assert forall|k: int| 0 <= k < b.subs@.len() implies has_feed(b.feeds@, (#[trigger] b.subs@[k]).feed) by {
        let j = choose|j: int| 0 <= j < a.feeds@.len() && a.feeds@[j].id == b.subs@[k].feed;
        assert(b.feeds@[j].id == a.feeds@[j].id);
    }
}

/// Removing a feed that no subscription names keeps the store well formed.
proof fn lemma_remove_keeps_wf(a: Store, b: Store, i: int)
    requires
        a.wf(),
        0 <= i < a.feeds@.len(),
        b.limits == a.limits,
        b.next_id == a.next_id,
        b.subs@.no_duplicates(),
        forall|k: int| 0 <= k < b.subs@.len() ==> has_feed(a.feeds@, (#[trigger] b.subs@[k]).feed)
            && b.subs@[k].feed != a.feeds@[i].id,
        b.feeds@ == a.feeds@.remove(i),
    ensures
        b.wf(),
{
    assert forall|k: int| 0 <= k < b.subs@.len() implies has_feed(b.feeds@, (#[trigger] b.subs@[k]).feed) by {
        let j = choose|j: int| 0 <= j < a.feeds@.len() && a.feeds@[j].id == b.subs@[k].feed;
        assert(j != i);
        if j < i {
            assert(b.feeds@[j] == a.feeds@[j]);
        } else {
            assert(b.feeds@[j - 1] == a.feeds@[j]);
        }
    }
}

/// A page whose entries were all seen before sends no message, to any chat.
pub proof fn lemma_seen_page_sends_nothing(seen: Seq<String>, page: Page, chats: Seq<i64>)
    requires
        forall|i: int|
            0 <= i < page_prints(page).len() ==> views(seen).contains(#[trigger] page_prints(page)[i]),
    ensures
        deliveries(page_fresh(seen, page), chats).len() == 0,
{
    lemma_all_seen_nothing_fresh(views(seen), page_prints(page));
}

/// The same page read twice in a row sends nothing the second time
/// (provided the first needed no eviction).
pub proof fn lemma_repeated_page_sends_nothing(seen: Seq<String>, page: Page, chats: Seq<i64>)
    requires
        seen.len() + page.entries@.len() <= SEEN_CAP,
    ensures
        deliveries(
            fresh_of(
                remembered(views(seen), fresh_prints(views(seen), page_prints(page)), SEEN_CAP as nat),
                page_prints(page),
            ),
            chats,
        ).len() == 0,
{
    lemma_refetch_nothing_fresh(views(seen), page_prints(page));
}

} // verus!
