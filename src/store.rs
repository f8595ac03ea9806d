use vstd::prelude::*;

use crate::dedup::SEEN_CAP;
use crate::interval::Limits;

verus! {

broadcast use vstd::seq_lib::group_filter_ensures;

/// A polled feed, shared by every chat subscribed to its URL.
#[derive(Debug)]
pub struct Feed {
    pub id: u64,
    pub url: String,
    pub title: String,
    pub etag: Option<String>,
    pub last_modified: Option<String>,
    /// Fingerprints of the entries already seen, oldest first.
    pub seen: Vec<String>,
    /// Seconds between two polls.
    pub interval: u32,
    /// Failed fetches since the last success.
    pub error_count: u32,
    /// When the feed is next due, in seconds.
    pub next_fetch: u64,
}

/// One chat following one feed. The store keeps subscriptions in one list, so
/// a chat's feeds and a feed's chats are two readings of the same pairs.
#[derive(Clone, Copy, Debug, PartialEq, Eq, Structural)]
pub struct Subscription {
    pub chat: i64,
    pub feed: u64,
}

/// Feeds and subscriptions.
#[derive(Debug)]
pub struct Store {
    pub limits: Limits,
    pub feeds: Vec<Feed>,
    pub subs: Vec<Subscription>,
    /// The id that the next new feed gets.
    pub next_id: u64,
}

pub open spec fn has_feed(feeds: Seq<Feed>, id: u64) -> bool {
    exists|i: int| 0 <= i < feeds.len() && feeds[i].id == id
}

pub open spec fn is_subscribed(subs: Seq<Subscription>, feed: u64) -> bool {
    exists|k: int| 0 <= k < subs.len() && subs[k].feed == feed
}

/// Whether a subscription is among those picked by a chat list (`None`: all
/// chats) and a feed (`None`: all feeds).
pub open spec fn picks(s: Subscription, chats: Option<Seq<i64>>, feed: Option<u64>) -> bool {
    (chats is None || chats->0.contains(s.chat)) && (feed is None || s.feed == feed->0)
}

pub open spec fn keeps(chats: Option<Seq<i64>>, feed: Option<u64>) -> spec_fn(Subscription) -> bool {
    |s: Subscription| !picks(s, chats, feed)
}

pub open spec fn for_feed(id: u64) -> spec_fn(Subscription) -> bool {
    |s: Subscription| s.feed == id
}

/// The chats subscribed to a feed, in subscription order.
pub open spec fn subscriber_list(subs: Seq<Subscription>, id: u64) -> Seq<i64> {
    subs.filter(for_feed(id)).map_values(|s: Subscription| s.chat)
}

pub open spec fn of_chat(chat: i64) -> spec_fn(Subscription) -> bool {
    |s: Subscription| s.chat == chat
}

/// The feeds that a chat follows, in subscription order.
pub open spec fn subscription_list(subs: Seq<Subscription>, chat: i64) -> Seq<u64> {
    subs.filter(of_chat(chat)).map_values(|s: Subscription| s.feed)
}

pub open spec fn followed(subs: Seq<Subscription>) -> spec_fn(Feed) -> bool {
    |f: Feed| is_subscribed(subs, f.id)
}

pub open spec fn orphaned(subs: Seq<Subscription>) -> spec_fn(Feed) -> bool {
    |f: Feed| !is_subscribed(subs, f.id)
}

/// A feed as the first subscription to its URL creates it.
pub open spec fn new_feed(f: Feed, id: u64, url: Seq<char>, now: u64, limits: Limits) -> bool {
    &&& f.id == id
    &&& f.url@ == url
    &&& f.title@.len() == 0
    &&& f.etag is None
    &&& f.last_modified is None
    &&& f.seen@.len() == 0
    &&& f.interval == limits.min_interval
    &&& f.error_count == 0
    &&& f.next_fetch == now
}

pub open spec fn is_due(now: u64) -> spec_fn(Feed) -> bool {
    |f: Feed| f.next_fetch <= now
}

/// The ids of the feeds due at `now`, in store order.
pub open spec fn due_ids(feeds: Seq<Feed>, now: u64) -> Seq<u64> {
    feeds.filter(is_due(now)).map_values(|f: Feed| f.id)
}

pub open spec fn feed_wf(f: Feed, limits: Limits) -> bool {
    &&& limits.min_interval <= f.interval <= limits.max_interval
    &&& f.error_count <= crate::scheduler::ERROR_LIMIT
    &&& f.seen@.len() <= SEEN_CAP
}

proof fn lemma_filter_no_duplicates<A>(s: Seq<A>, p: spec_fn(A) -> bool)
    requires
        s.no_duplicates(),
    ensures
        s.filter(p).no_duplicates(),
    decreases s.len(),
{
    reveal(Seq::filter);
    if s.len() > 0 {
        let rest = s.drop_last();
        assert(rest.no_duplicates());
        lemma_filter_no_duplicates(rest, p);
        if p(s.last()) {
            if rest.filter(p).contains(s.last()) {
                rest.lemma_filter_contains_rev(p, s.last());
                let j = choose|j: int| 0 <= j < rest.len() && rest[j] == s.last();
                assert(s[j] == s[s.len() - 1]);
            }
        }
    }
}

proof fn lemma_filter_take_step<A>(s: Seq<A>, i: int, p: spec_fn(A) -> bool)
    requires
        0 <= i < s.len(),
    ensures
        s.take(i + 1).filter(p) == if p(s[i]) {
            s.take(i).filter(p).push(s[i])
        } else {
            s.take(i).filter(p)
        },
{
    assert(s.take(i + 1) =~= s.take(i).push(s[i]));
    s.take(i).lemma_filter_push(s[i], p);
}

impl Store {
    pub open spec fn wf(&self) -> bool {
        &&& self.limits.wf()
        &&& forall|i: int| 0 <= i < self.feeds@.len() ==> feed_wf(#[trigger] self.feeds@[i], self.limits)
        &&& forall|i: int, j: int|
            0 <= i < self.feeds@.len() && 0 <= j < self.feeds@.len() && i != j ==> (
            #[trigger] self.feeds@[i]).id != (#[trigger] self.feeds@[j]).id && self.feeds@[i].url@
                != self.feeds@[j].url@
        &&& forall|i: int| 0 <= i < self.feeds@.len() ==> (#[trigger] self.feeds@[i]).id < self.next_id
        &&& self.subs@.no_duplicates()
        &&& forall|k: int| 0 <= k < self.subs@.len() ==> has_feed(self.feeds@, (#[trigger] self.subs@[k]).feed)
    }

    /// An empty store.
    pub fn new(limits: Limits) -> (r: Store)
        requires
            limits.wf(),
        ensures
            r.wf(),
            r.limits == limits,
            r.feeds@.len() == 0,
            r.subs@.len() == 0,
    {
        Store { limits, feeds: Vec::new(), subs: Vec::new(), next_id: 0 }
    }

    /// Where the feed with this id stands.
    pub fn find_feed(&self, id: u64) -> (r: Option<usize>)
        ensures
            match r {
                Some(i) => i < self.feeds@.len() && self.feeds@[i as int].id == id,
                None => !has_feed(self.feeds@, id),
            },
    {
        let mut i: usize = 0;
        while i < self.feeds.len()
            invariant
                i <= self.feeds@.len(),
                forall|j: int| 0 <= j < i ==> self.feeds@[j].id != id,
            decreases self.feeds@.len() - i,
        {
            if self.feeds[i].id == id {
                return Some(i);
            }
            i = i + 1;
        }
        None
    }

    /// Where the feed with this URL stands.
    pub fn find_url(&self, url: &String) -> (r: Option<usize>)
        ensures
            match r {
                Some(i) => i < self.feeds@.len() && self.feeds@[i as int].url@ == url@,
                None => forall|j: int| 0 <= j < self.feeds@.len() ==> self.feeds@[j].url@ != url@,
            },
    {
        let mut i: usize = 0;
        while i < self.feeds.len()
            invariant
                i <= self.feeds@.len(),
                forall|j: int| 0 <= j < i ==> self.feeds@[j].url@ != url@,
            decreases self.feeds@.len() - i,
        {
            if self.feeds[i].url == *url {
                return Some(i);
            }
            i = i + 1;
        }
        None
    }

    /// The chats subscribed to feed `id`, in subscription order.
    pub fn subscribers(&self, id: u64) -> (r: Vec<i64>)
        ensures
            r@ == subscriber_list(self.subs@, id),
    {
        let mut r: Vec<i64> = Vec::new();
        let mut k: usize = 0;
        while k < self.subs.len()
            invariant
                k <= self.subs@.len(),
                r@ == self.subs@.take(k as int).filter(for_feed(id)).map_values(
                    |s: Subscription| s.chat,
                ),
            decreases self.subs@.len() - k,
        {
            proof {
                lemma_filter_take_step(self.subs@, k as int, for_feed(id));
            }
            let s = self.subs[k];
            if s.feed == id {
                r.push(s.chat);
            }
            assert(r@ =~= self.subs@.take(k + 1).filter(for_feed(id)).map_values(
                |s: Subscription| s.chat,
            ));
            k = k + 1;
        }
        assert(self.subs@.take(k as int) =~= self.subs@);
        r
    }

    /// The feeds of one chat, in subscription order.
    pub fn subscriptions(&self, chat: i64) -> (r: Vec<u64>)
        ensures
            r@ == subscription_list(self.subs@, chat),
    {
        let mut r: Vec<u64> = Vec::new();
        let mut k: usize = 0;
        while k < self.subs.len()
            invariant
                k <= self.subs@.len(),
                r@ == self.subs@.take(k as int).filter(of_chat(chat)).map_values(
                    |s: Subscription| s.feed,
                ),
            decreases self.subs@.len() - k,
        {
            proof {
                lemma_filter_take_step(self.subs@, k as int, of_chat(chat));
            }
            let s = self.subs[k];
            if s.chat == chat {
                r.push(s.feed);
            }
            assert(r@ =~= self.subs@.take(k + 1).filter(of_chat(chat)).map_values(
                |s: Subscription| s.feed,
            ));
            k = k + 1;
        }
        assert(self.subs@.take(k as int) =~= self.subs@);
        r
    }

    /// The ids of the feeds due at `now`, in store order.
    pub fn list_due(&self, now: u64) -> (r: Vec<u64>)
        ensures
            r@ == due_ids(self.feeds@, now),
    {
        let mut r: Vec<u64> = Vec::new();
        let mut i: usize = 0;
        while i < self.feeds.len()
            invariant
                i <= self.feeds@.len(),
                r@ == due_ids(self.feeds@.take(i as int), now),
            decreases self.feeds@.len() - i,
        {
            proof {
                lemma_filter_take_step(self.feeds@, i as int, is_due(now));
            }
            if self.feeds[i].next_fetch <= now {
                r.push(self.feeds[i].id);
            }
            assert(r@ =~= due_ids(self.feeds@.take(i + 1), now));
            i = i + 1;
        }
        assert(self.feeds@.take(i as int) =~= self.feeds@);
        r
    }

    /// The first `max` feeds due at `now`, in store order: one tick's batch
    /// of polls; the others wait for a later tick.
    pub fn due_batch(&self, now: u64, max: usize) -> (r: Vec<u64>)
        ensures
            r@ == due_ids(self.feeds@, now).take(
                if max < due_ids(self.feeds@, now).len() {
                    max as int
                } else {
                    due_ids(self.feeds@, now).len() as int
                },
            ),
    {
        let mut r: Vec<u64> = Vec::new();
        let mut i: usize = 0;
        while i < self.feeds.len() && r.len() < max
            invariant
                i <= self.feeds@.len(),
                r@.len() <= max,
                r@ == due_ids(self.feeds@.take(i as int), now),
            decreases self.feeds@.len() - i,
        {
            proof {
                lemma_filter_take_step(self.feeds@, i as int, is_due(now));
            }
            if self.feeds[i].next_fetch <= now {
                r.push(self.feeds[i].id);
            }
            assert(r@ =~= due_ids(self.feeds@.take(i + 1), now));
            i = i + 1;
        }
        proof {
            let s = self.feeds@;
            assert(s =~= s.take(i as int) + s.skip(i as int));
            Seq::filter_distributes_over_add(s.take(i as int), s.skip(i as int), is_due(now));
            let all = due_ids(s, now);
            assert(all =~= r@ + due_ids(s.skip(i as int), now));
            if i == s.len() {
                assert(s.skip(i as int) =~= Seq::<Feed>::empty());
                assert(s.skip(i as int).filter(is_due(now)) =~= Seq::<Feed>::empty()) by {
                    reveal(Seq::filter);
                }
                assert(all =~= r@);
            }
            assert(r@ =~= all.take(r@.len() as int));
        }
        r
    }

    /// Drops the subscriptions that `chats` (`None`: all chats) and `feed`
    /// (`None`: all feeds) pick together.
    fn drop_subs(&mut self, chats: Option<&Vec<i64>>, feed: Option<u64>)
        requires
            old(self).wf(),
        ensures
            final(self).wf(),
            final(self).subs@ == old(self).subs@.filter(
                keeps(
                    match chats {
                        Some(c) => Some(c@),
                        None => None,
                    },
                    feed,
                ),
            ),
            final(self).feeds == old(self).feeds,
            final(self).limits == old(self).limits,
            final(self).next_id == old(self).next_id,
    {
        let ghost cs = match chats {
            Some(c) => Some(c@),
            None => None::<Seq<i64>>,
        };
        let mut kept: Vec<Subscription> = Vec::new();
        let mut k: usize = 0;
        while k < self.subs.len()
            invariant
                k <= self.subs@.len(),
                kept@ == self.subs@.take(k as int).filter(keeps(cs, feed)),
                cs == match chats {
                    Some(c) => Some(c@),
                    None => None::<Seq<i64>>,
                },
            decreases self.subs@.len() - k,
        {
            proof {
                lemma_filter_take_step(self.subs@, k as int, keeps(cs, feed));
            }
            let s = self.subs[k];
            let chat_hit = match chats {
                Some(c) => contains_chat(c, s.chat),
                None => true,
            };
            let feed_hit = match feed {
                Some(f) => s.feed == f,
                None => true,
            };
            assert(keeps(cs, feed)(s) == !(chat_hit && feed_hit));
            if !(chat_hit && feed_hit) {
                kept.push(s);
            }
            assert(kept@ =~= self.subs@.take(k + 1).filter(keeps(cs, feed)));
            k = k + 1;
        }
        assert(self.subs@.take(k as int) =~= self.subs@);
        proof {
            lemma_filter_no_duplicates(self.subs@, keeps(cs, feed));
            assert forall|k: int| 0 <= k < kept@.len() implies has_feed(
                self.feeds@,
                (#[trigger] kept@[k]).feed,
            ) by {
                assert(kept@.contains(kept@[k]));
                self.subs@.lemma_filter_contains_rev(keeps(cs, feed), kept@[k]);
            }
        }
        self.subs = kept;
    }

    /// Ends the subscription of `chat` to feed `id`; says whether there was one.
    /// The feed stays until the next sweep, even with no subscriber left.
    pub fn unsubscribe(&mut self, chat: i64, id: u64) -> (r: bool)
        requires
            old(self).wf(),
        ensures
            final(self).wf(),
            r == old(self).subs@.contains(Subscription { chat, feed: id }),
            final(self).subs@ == old(self).subs@.filter(keeps(Some(seq![chat]), Some(id))),
            final(self).feeds == old(self).feeds,
            final(self).limits == old(self).limits,
    {
        let mut found = false;
        let mut k: usize = 0;
        while k < self.subs.len()
            invariant
                k <= self.subs@.len(),
                found == exists|j: int|
                    0 <= j < k && self.subs@[j] == (Subscription { chat, feed: id }),
            decreases self.subs@.len() - k,
        {
            if self.subs[k].chat == chat && self.subs[k].feed == id {
                found = true;
            }
            k = k + 1;
        }
        let one = vec![chat];
        assert(one@ =~= seq![chat]);
        self.drop_subs(Some(&one), Some(id));
        found
    }

    /// Ends every subscription of `chat`, as when its messages can no longer
    /// be delivered.
    pub fn remove_chat(&mut self, chat: i64)
        requires
            old(self).wf(),
        ensures
            final(self).wf(),
            final(self).subs@ == old(self).subs@.filter(keeps(Some(seq![chat]), None)),
            forall|k: int| 0 <= k < final(self).subs@.len() ==> (#[trigger] final(self).subs@[k]).chat != chat,
            final(self).feeds == old(self).feeds,
            final(self).limits == old(self).limits,
    {
        let one = vec![chat];
        assert(one@ =~= seq![chat]);
        self.drop_subs(Some(&one), None);
        assert forall|k: int| 0 <= k < self.subs@.len() implies (#[trigger] self.subs@[k]).chat != chat by {
            assert(keeps(Some(seq![chat]), None)(self.subs@[k]));
            assert(seq![chat][0] == chat);
        }
    }

    /// Subscribes `chat` to the feed at `url`, creating the feed on the first
    /// subscription to that URL; gives the feed's id. Gives `None`, and changes
    /// nothing, only when a new feed is needed and the ids are spent.
    pub fn subscribe(&mut self, chat: i64, url: &String, now: u64) -> (r: Option<u64>)
        requires
            old(self).wf(),
        ensures
            final(self).wf(),
            final(self).limits == old(self).limits,
            match r {
                Some(id) => {
                    &&& forall|s: Subscription| #[trigger]
                        final(self).subs@.contains(s) <==> old(self).subs@.contains(s) || s == (
                        Subscription { chat, feed: id })
                    &&& exists|i: int|
                        0 <= i < final(self).feeds@.len() && final(self).feeds@[i].id == id
                            && final(self).feeds@[i].url@ == url@
                },
                None => *final(self) == *old(self),
            },
            (exists|i: int| 0 <= i < old(self).feeds@.len() && old(self).feeds@[i].url@ == url@)
                ==> r is Some && final(self).feeds == old(self).feeds,
            !(exists|i: int| 0 <= i < old(self).feeds@.len() && old(self).feeds@[i].url@ == url@)
                ==> {
                &&& r is Some <==> old(self).next_id < u64::MAX
                &&& r is Some ==> {
                    &&& r == Some(old(self).next_id)
                    &&& final(self).feeds@.drop_last() == old(self).feeds@
                    &&& new_feed(final(self).feeds@.last(), old(self).next_id, url@, now, old(self).limits)
                }
            },
    {
        let ghost mut at: int = 0;
        let id = match self.find_url(url) {
            Some(i) => {
                proof {
                    at = i as int;
                }
                self.feeds[i].id
            },
            None => {
                if self.next_id == u64::MAX {
                    return None;
                }
                let id = self.next_id;
                let f = Feed {
                    id,
                    url: url.clone(),
                    title: String::new(),
                    etag: None,
                    last_modified: None,
                    seen: Vec::new(),
                    interval: self.limits.min_interval,
                    error_count: 0,
                    next_fetch: now,
                };
                let ghost before = self.feeds@;
                self.feeds.push(f);
                self.next_id = id + 1;
                assert(self.feeds@.drop_last() =~= before);
                proof {
                    at = before.len() as int;
                }
                assert(forall|j: int| 0 <= j < before.len() ==> self.feeds@[j] == before[j]);
                assert forall|k: int| 0 <= k < self.subs@.len() implies has_feed(
                    self.feeds@,
                    (#[trigger] self.subs@[k]).feed,
                ) by {
                    let j = choose|j: int|
                        0 <= j < before.len() && before[j].id == self.subs@[k].feed;
                    assert(self.feeds@[j] == before[j]);
                }
                id
            },
        };
        assert(0 <= at < self.feeds@.len() && self.feeds@[at].id == id && self.feeds@[at].url@
            == url@);
        let sub = Subscription { chat, feed: id };
        if !contains_sub(&self.subs, sub) {
            let ghost before = self.subs@;
            self.subs.push(sub);
            assert(self.subs@.no_duplicates()) by {
                assert forall|a: int, b: int|
                    0 <= a < self.subs@.len() && 0 <= b < self.subs@.len() && a != b implies
                    self.subs@[a] != self.subs@[b] by {
                    if a == before.len() {
                        assert(self.subs@[b] == before[b]);
                        if before[b] == sub {
                            assert(before.contains(sub));
                        }
                    } else if b == before.len() {
                        assert(self.subs@[a] == before[a]);
                        if before[a] == sub {
                            assert(before.contains(sub));
                        }
                    } else {
                        assert(self.subs@[a] == before[a]);
                        assert(self.subs@[b] == before[b]);
                    }
                }
            }
            assert forall|k: int| 0 <= k < self.subs@.len() implies has_feed(
                self.feeds@,
                (#[trigger] self.subs@[k]).feed,
            ) by {
                if k < before.len() {
                    assert(self.subs@[k] == before[k]);
                }
            }
            assert forall|s: Subscription| #[trigger]
                self.subs@.contains(s) <==> before.contains(s) || s == sub by {
                if before.contains(s) {
                    let j = choose|j: int| 0 <= j < before.len() && before[j] == s;
                    assert(self.subs@[j] == s);
                }
                if s == sub {
                    assert(self.subs@[before.len() as int] == s);
                }
            }
        }
        Some(id)
    }

    /// The janitor's sweep: ends every subscription of the chats whose messages
    /// can no longer be delivered, then removes every feed that no chat
    /// follows. Gives the ids of the removed feeds.
    pub fn sweep(&mut self, undeliverable: &Vec<i64>) -> (r: Vec<u64>)
        requires
            old(self).wf(),
        ensures
            final(self).wf(),
            final(self).limits == old(self).limits,
            final(self).subs@ == old(self).subs@.filter(keeps(Some(undeliverable@), None)),
            final(self).feeds@ == old(self).feeds@.filter(followed(final(self).subs@)),
            r@ == old(self).feeds@.filter(orphaned(final(self).subs@)).map_values(|f: Feed| f.id),
    {
        self.drop_subs(Some(undeliverable), None);
        let ghost orig = self.feeds@;
        let ghost p = followed(self.subs@);
        let ghost q = orphaned(self.subs@);
        let ghost subs0 = self.subs@;
        let ghost lim = self.limits;
        let mut removed: Vec<u64> = Vec::new();
        let mut i: usize = 0;
        let ghost mut j: int = 0;
        while i < self.feeds.len()
            invariant
                self.wf(),
                0 <= j <= orig.len(),
                p == followed(self.subs@),
                self.subs@ == subs0,
                self.limits == lim,
                subs0 == old(self).subs@.filter(keeps(Some(undeliverable@), None)),
                lim == old(self).limits,
                q == orphaned(self.subs@),
                self.feeds@ == orig.take(j).filter(p) + orig.skip(j),
                i == orig.take(j).filter(p).len(),
                removed@ == orig.take(j).filter(q).map_values(|f: Feed| f.id),
            decreases self.feeds@.len() - i,
        {
            proof {
                lemma_filter_take_step(orig, j, p);
                lemma_filter_take_step(orig, j, q);
                assert(self.feeds@[i as int] == orig[j]);
            }
            let id = self.feeds[i].id;
            if is_followed(&self.subs, id) {
                i = i + 1;
            } else {
                let ghost before = self.feeds@;
                self.feeds.remove(i);
                removed.push(id);
                assert forall|k: int| 0 <= k < self.subs@.len() implies has_feed(
                    self.feeds@,
                    (#[trigger] self.subs@[k]).feed,
                ) by {
                    let w = choose|w: int|
                        0 <= w < before.len() && before[w].id == self.subs@[k].feed;
                    assert(w != i);
                    if w < i {
                        assert(self.feeds@[w] == before[w]);
                    } else {
                        assert(self.feeds@[w - 1] == before[w]);
                    }
                }
            }
            proof {
                assert(orig.skip(j + 1) =~= orig.skip(j).drop_first());
                j = j + 1;
                assert(self.feeds@ =~= orig.take(j).filter(p) + orig.skip(j));
                assert(removed@ =~= orig.take(j).filter(q).map_values(|f: Feed| f.id));
            }
        }
        assert(orig.take(j) =~= orig);
        assert(self.feeds@ =~= orig.filter(p));
        removed
    }

    /// Ends every subscription to feed `id`.
    pub(crate) fn drop_feed_subs(&mut self, id: u64)
        requires
            old(self).wf(),
        ensures
            final(self).wf(),
            final(self).subs@ == old(self).subs@.filter(keeps(None, Some(id))),
            forall|k: int| 0 <= k < final(self).subs@.len() ==> (#[trigger] final(self).subs@[k]).feed != id,
            final(self).feeds == old(self).feeds,
            final(self).limits == old(self).limits,
            final(self).next_id == old(self).next_id,
    {
        self.drop_subs(None, Some(id));
        assert forall|k: int| 0 <= k < self.subs@.len() implies (#[trigger] self.subs@[k]).feed != id by {
            assert(keeps(None, Some(id))(self.subs@[k]));
        }
    }

    /// Whether the store is well formed, as a store read back from disk must
    /// be before use.
    pub fn is_well_formed(&self) -> (r: bool)
        ensures
            r == self.wf(),
    {
        if !(1 <= self.limits.min_interval && self.limits.min_interval <= self.limits.max_interval) {
            return false;
        }
        let n = self.feeds.len();
        let mut i: usize = 0;
        while i < n
            invariant
                n == self.feeds@.len(),
                i <= n,
                self.limits.wf(),
                forall|a: int| 0 <= a < i ==> feed_wf(#[trigger] self.feeds@[a], self.limits),
                forall|a: int| 0 <= a < i ==> (#[trigger] self.feeds@[a]).id < self.next_id,
                forall|a: int, b: int|
                    0 <= a < i && 0 <= b < n && a != b ==> (#[trigger] self.feeds@[a]).id != (
                    #[trigger] self.feeds@[b]).id && self.feeds@[a].url@ != self.feeds@[b].url@,
            decreases n - i,
        {
            let f = &self.feeds[i];
            if !(self.limits.min_interval <= f.interval && f.interval <= self.limits.max_interval
                && f.error_count <= crate::scheduler::ERROR_LIMIT && f.seen.len() <= SEEN_CAP
                && f.id < self.next_id) {
                assert(!feed_wf(self.feeds@[i as int], self.limits) || !(self.feeds@[i as int].id
                    < self.next_id));
                return false;
            }
            let mut j: usize = 0;
            while j < n
                invariant
                    n == self.feeds@.len(),
                    i < n,
                    j <= n,
                    forall|b: int|
                        0 <= b < j && b != i ==> self.feeds@[i as int].id != (
                        #[trigger] self.feeds@[b]).id && self.feeds@[i as int].url@
                            != self.feeds@[b].url@,
                decreases n - j,
            {
                if j != i && (self.feeds[j].id == self.feeds[i].id || self.feeds[j].url
                    == self.feeds[i].url) {
                    return false;
                }
                j = j + 1;
            }
            i = i + 1;
        }
        let m = self.subs.len();
        let mut k: usize = 0;
        while k < m
            invariant
                m == self.subs@.len(),
                k <= m,
                forall|a: int, b: int|
                    0 <= a < k && 0 <= b < m && a != b ==> self.subs@[a] != self.subs@[b],
                forall|a: int| 0 <= a < k ==> has_feed(self.feeds@, (#[trigger] self.subs@[a]).feed),
            decreases m - k,
        {
            if self.find_feed(self.subs[k].feed).is_none() {
                return false;
            }
            let mut j: usize = 0;
            while j < m
                invariant
                    m == self.subs@.len(),
                    k < m,
                    j <= m,
                    forall|b: int| 0 <= b < j && b != k ==> self.subs@[k as int] != self.subs@[b],
                decreases m - j,
            {
                if j != k && self.subs[j] == self.subs[k] {
                    return false;
                }
                j = j + 1;
            }
            k = k + 1;
        }
        true
    }
}

/// Whether some subscription is to feed `id`.
fn is_followed(subs: &Vec<Subscription>, id: u64) -> (r: bool)
    ensures
        r == is_subscribed(subs@, id),
{
    let mut k: usize = 0;
    while k < subs.len()
        invariant
            k <= subs@.len(),
            forall|j: int| 0 <= j < k ==> subs@[j].feed != id,
        decreases subs@.len() - k,
    {
        if subs[k].feed == id {
            return true;
        }
        k = k + 1;
    }
    false
}

fn contains_sub(v: &Vec<Subscription>, s: Subscription) -> (r: bool)
    ensures
        r == v@.contains(s),
{
    let mut i: usize = 0;
    while i < v.len()
        invariant
            i <= v@.len(),
            forall|j: int| 0 <= j < i ==> v@[j] != s,
        decreases v@.len() - i,
    {
        if v[i] == s {
            return true;
        }
        i = i + 1;
    }
    false
}

fn contains_chat(v: &Vec<i64>, c: i64) -> (r: bool)
    ensures
        r == v@.contains(c),
{
    let mut i: usize = 0;
    while i < v.len()
        invariant
            i <= v@.len(),
            forall|j: int| 0 <= j < i ==> v@[j] != c,
        decreases v@.len() - i,
    {
        if v[i] == c {
            return true;
        }
        i = i + 1;
    }
    false
}

/// Every feed of a well-formed store polls within the configured bounds.
pub proof fn lemma_intervals_within_limits(s: Store)
    requires
        s.wf(),
    ensures
        forall|i: int|
            0 <= i < s.feeds@.len() ==> s.limits.min_interval <= (#[trigger] s.feeds@[i]).interval
                <= s.limits.max_interval,
{
    assert forall|i: int| 0 <= i < s.feeds@.len() implies s.limits.min_interval <= (
    #[trigger] s.feeds@[i]).interval <= s.limits.max_interval by {
        assert(feed_wf(s.feeds@[i], s.limits));
    }
}

/// After a sweep over the undeliverable chats `dead`, no subscription of a
/// dead chat is left, every feed left has a subscriber, and every feed that
/// lost its last subscriber is gone.
pub proof fn lemma_sweep_cascades(subs: Seq<Subscription>, feeds: Seq<Feed>, dead: Seq<i64>)
    ensures
        ({
            let left = subs.filter(keeps(Some(dead), None));
            let kept = feeds.filter(followed(left));
            &&& forall|k: int| 0 <= k < left.len() ==> !dead.contains(#[trigger] left[k].chat)
            &&& forall|i: int| 0 <= i < kept.len() ==> is_subscribed(left, #[trigger] kept[i].id)
            &&& forall|f: Feed| #[trigger] feeds.contains(f) ==> (kept.contains(f) <==> is_subscribed(left, f.id))
        }),
{
    let left = subs.filter(keeps(Some(dead), None));
    let kept = feeds.filter(followed(left));
    assert forall|k: int| 0 <= k < left.len() implies !dead.contains(#[trigger] left[k].chat) by {
        assert(keeps(Some(dead), None)(left[k]));
    }
    assert forall|i: int| 0 <= i < kept.len() implies is_subscribed(left, #[trigger] kept[i].id) by {
        assert(followed(left)(kept[i]));
    }
    assert forall|f: Feed| #[trigger] feeds.contains(f) implies (kept.contains(f) <==> is_subscribed(left, f.id)) by {
        let i = choose|i: int| 0 <= i < feeds.len() && feeds[i] == f;
        if is_subscribed(left, f.id) {
            feeds.lemma_filter_contains(followed(left), i);
        }
        if kept.contains(f) {
            let j = choose|j: int| 0 <= j < kept.len() && kept[j] == f;
            assert(followed(left)(kept[j]));
        }
    }
}

} // verus!
