use vstd::prelude::*;
use vstd::string::*;

verus! {

/// How many fingerprints a feed remembers; the oldest go first.
pub const SEEN_CAP: usize = 1000;

/// One entry of a parsed feed.
#[derive(Clone, Debug)]
pub struct Entry {
    pub id: Option<String>,
    pub link: Option<String>,
    pub title: String,
    pub published: Option<String>,
}

/// The text that identifies an entry: its id, else its link, else its title
/// with its publication date. Each form carries its own tag, so that forms
/// never collide with one another.
pub open spec fn fingerprint_of(e: Entry) -> Seq<char> {
    match e.id {
        Some(id) => "id:"@ + id@,
        None => match e.link {
            Some(link) => "link:"@ + link@,
            None => "title:"@ + e.title@ + "\n"@ + match e.published {
                Some(p) => p@,
                None => Seq::<char>::empty(),
            },
        },
    }
}

pub open spec fn views(v: Seq<String>) -> Seq<Seq<char>> {
    v.map_values(|s: String| s@)
}

/// The `i`-th fingerprint is new: not remembered, and not already met earlier
/// in the same fetch.
pub open spec fn is_fresh(seen: Seq<Seq<char>>, fps: Seq<Seq<char>>, i: int) -> bool {
    !seen.contains(fps[i]) && !fps.take(i).contains(fps[i])
}

/// The positions among the first `n` fingerprints that are new, in order.
pub open spec fn fresh_indices(seen: Seq<Seq<char>>, fps: Seq<Seq<char>>, n: nat) -> Seq<int>
    decreases n,
{
    if n == 0 {
        Seq::empty()
    } else {
        let p = fresh_indices(seen, fps, (n - 1) as nat);
        if is_fresh(seen, fps, n - 1) {
            p.push(n - 1)
        } else {
            p
        }
    }
}

pub open spec fn fresh_of(seen: Seq<Seq<char>>, fps: Seq<Seq<char>>) -> Seq<int> {
    fresh_indices(seen, fps, fps.len())
}

/// The new fingerprints themselves, in the order of the fetch.
pub open spec fn fresh_prints(seen: Seq<Seq<char>>, fps: Seq<Seq<char>>) -> Seq<Seq<char>> {
    fresh_of(seen, fps).map_values(|i: int| fps[i])
}

/// What is remembered after `added` joins `seen`: the newest `cap` of them.
pub open spec fn remembered(seen: Seq<Seq<char>>, added: Seq<Seq<char>>, cap: nat) -> Seq<
    Seq<char>,
> {
    let all = seen + added;
    if all.len() > cap {
        all.subrange(all.len() - cap, all.len() as int)
    } else {
        all
    }
}

pub fn fingerprint(e: &Entry) -> (r: String)
    ensures
        r@ == fingerprint_of(*e),
{
    match &e.id {
        Some(id) => String::from_str("id:").concat(id.as_str()),
        None => match &e.link {
            Some(link) => String::from_str("link:").concat(link.as_str()),
            None => {
                let head = String::from_str("title:").concat(e.title.as_str()).concat("\n");
                match &e.published {
                    Some(p) => head.concat(p.as_str()),
                    None => head,
                }
            },
        },
    }
}

/// The fingerprint of each entry, in order.
pub fn fingerprints(entries: &Vec<Entry>) -> (r: Vec<String>)
    ensures
        views(r@) == entries@.map_values(|e: Entry| fingerprint_of(e)),
{
    let mut r: Vec<String> = Vec::new();
    let mut i: usize = 0;
    while i < entries.len()
        invariant
            i <= entries@.len(),
            views(r@) == entries@.take(i as int).map_values(|e: Entry| fingerprint_of(e)),
        decreases entries@.len() - i,
    {
        let fp = fingerprint(&entries[i]);
        let ghost before = r@;
        r.push(fp);
        assert(views(r@) =~= views(before).push(fp@));
        assert(entries@.take(i + 1) =~= entries@.take(i as int).push(entries@[i as int]));
        assert(views(r@) =~= entries@.take(i + 1).map_values(|e: Entry| fingerprint_of(e)));
        i = i + 1;
    }
    assert(entries@.take(i as int) =~= entries@);
    r
}

/// Whether `x` is among `v[0..hi]`.
fn contains_before(v: &Vec<String>, hi: usize, x: &String) -> (r: bool)
    requires
        hi <= v@.len(),
    ensures
        r == views(v@).take(hi as int).contains(x@),
{
    let mut k: usize = 0;
    while k < hi
        invariant
            hi <= v@.len(),
            k <= hi,
            forall|j: int| 0 <= j < k ==> v@[j]@ != x@,
        decreases hi - k,
    {
        if v[k] == *x {
            assert(views(v@).take(hi as int)[k as int] == x@);
            return true;
        }
        k = k + 1;
    }
    assert(!views(v@).take(hi as int).contains(x@)) by {
        if views(v@).take(hi as int).contains(x@) {
            let j = choose|j: int| 0 <= j < hi && views(v@).take(hi as int)[j] == x@;
            assert(v@[j]@ == x@);
        }
    }
    false
}

/// The positions of the fingerprints in `fps` that are new with respect to
/// `seen` (and to those before them in `fps`), in order.
pub fn fresh_entries(seen: &Vec<String>, fps: &Vec<String>) -> (r: Vec<usize>)
    ensures
        r@.map_values(|i: usize| i as int) == fresh_of(views(seen@), views(fps@)),
        forall|k: int| 0 <= k < r@.len() ==> r@[k] < fps@.len(),
{
    let mut r: Vec<usize> = Vec::new();
    let mut i: usize = 0;
    while i < fps.len()
        invariant
            i <= fps@.len(),
            r@.map_values(|i: usize| i as int) == fresh_indices(
                views(seen@),
                views(fps@),
                i as nat,
            ),
            forall|k: int| 0 <= k < r@.len() ==> r@[k] < i,
        decreases fps@.len() - i,
    {
        let in_seen = contains_before(seen, seen.len(), &fps[i]);
        let earlier = contains_before(fps, i, &fps[i]);
        assert(views(seen@).take(seen@.len() as int) =~= views(seen@));
        if !in_seen && !earlier {
            r.push(i);
        }
        assert(r@.map_values(|i: usize| i as int) =~= fresh_indices(
            views(seen@),
            views(fps@),
            (i + 1) as nat,
        ));
        i = i + 1;
    }
    r
}

/// Adds the fingerprints at positions `fresh` of `fps` to `seen`, then drops
/// the oldest until at most `SEEN_CAP` remain.
pub fn remember(seen: &mut Vec<String>, fps: &Vec<String>, fresh: &Vec<usize>)
    requires
        forall|k: int| 0 <= k < fresh@.len() ==> fresh@[k] < fps@.len(),
    ensures
        views(final(seen)@) == remembered(
            views(old(seen)@),
            fresh@.map_values(|i: usize| views(fps@)[i as int]),
            SEEN_CAP as nat,
        ),
        final(seen)@.len() <= SEEN_CAP,
{
    let ghost start = views(seen@);
    let ghost added = fresh@.map_values(|i: usize| views(fps@)[i as int]);
    let mut k: usize = 0;
    while k < fresh.len()
        invariant
            k <= fresh@.len(),
            forall|k: int| 0 <= k < fresh@.len() ==> fresh@[k] < fps@.len(),
            added == fresh@.map_values(|i: usize| views(fps@)[i as int]),
            views(seen@) == start + added.take(k as int),
        decreases fresh@.len() - k,
    {
        let s = fps[fresh[k]].clone();
        let ghost before = seen@;
        seen.push(s);
        assert(views(seen@) =~= views(before).push(s@));
        assert(views(seen@) =~= start + added.take(k + 1));
        k = k + 1;
    }
    assert(added.take(k as int) =~= added);
    let ghost all = start + added;
    assert(views(seen@) =~= all);
    while seen.len() > SEEN_CAP
        invariant
            views(seen@).len() <= all.len(),
            all.len() > SEEN_CAP ==> views(seen@).len() >= SEEN_CAP,
            all.len() <= SEEN_CAP ==> views(seen@).len() == all.len(),
            views(seen@) == all.subrange(all.len() - views(seen@).len(), all.len() as int),
        decreases seen@.len(),
    {
        let ghost before = seen@;
        seen.remove(0);
        assert(views(seen@) =~= views(before).subrange(1, views(before).len() as int));
        assert(views(seen@) =~= all.subrange(all.len() - views(seen@).len(), all.len() as int));
    }
    assert(views(seen@) =~= remembered(start, added, SEEN_CAP as nat));
}

proof fn lemma_fresh_indices(seen: Seq<Seq<char>>, fps: Seq<Seq<char>>, n: nat)
    requires
        n <= fps.len(),
    ensures
        fresh_indices(seen, fps, n).len() <= n,
        forall|k: int|
            0 <= k < fresh_indices(seen, fps, n).len() ==> 0 <= #[trigger] fresh_indices(
                seen,
                fps,
                n,
            )[k] < n && is_fresh(seen, fps, fresh_indices(seen, fps, n)[k]),
        forall|j: int| 0 <= j < n && is_fresh(seen, fps, j) ==> #[trigger] fresh_indices(
            seen,
            fps,
            n,
        ).contains(j),
        forall|a: int, b: int|
            0 <= a < b < fresh_indices(seen, fps, n).len() ==> #[trigger] fresh_indices(
                seen,
                fps,
                n,
            )[a] < #[trigger] fresh_indices(seen, fps, n)[b],
    decreases n,
{
    if n > 0 {
        lemma_fresh_indices(seen, fps, (n - 1) as nat);
        let p = fresh_indices(seen, fps, (n - 1) as nat);
        let q = fresh_indices(seen, fps, n);
        assert forall|j: int| 0 <= j < n && is_fresh(seen, fps, j) implies q.contains(j) by {
            if j < n - 1 {
                assert(p.contains(j));
                let k = choose|k: int| 0 <= k < p.len() && p[k] == j;
                assert(q[k] == j);
            } else {
                assert(q[q.len() - 1] == j);
            }
        }
    }
}

/// Where `x` occurs in `fps`, it occurs a first time.
proof fn lemma_first_occurrence(fps: Seq<Seq<char>>, x: Seq<char>)
    requires
        fps.contains(x),
    ensures
        exists|j: int| 0 <= j < fps.len() && fps[j] == x && !fps.take(j).contains(x),
    decreases fps.len(),
{
    let rest = fps.drop_last();
    if rest.contains(x) {
        lemma_first_occurrence(rest, x);
        let j = choose|j: int| 0 <= j < rest.len() && rest[j] == x && !rest.take(j).contains(x);
        assert(fps.take(j) =~= rest.take(j));
        assert(fps[j] == x);
    } else {
        let j = fps.len() - 1;
        assert(fps.take(j) =~= rest);
        if fps[j] != x {
            let k = choose|k: int| 0 <= k < fps.len() && fps[k] == x;
            assert(rest[k] == x);
        }
    }
}

/// The new fingerprints of a fetch are exactly those of the fetch that are not
/// remembered, each once.
pub proof fn lemma_fresh_prints(seen: Seq<Seq<char>>, fps: Seq<Seq<char>>)
    ensures
        forall|x: Seq<char>| #[trigger]
            fresh_prints(seen, fps).contains(x) <==> fps.contains(x) && !seen.contains(x),
        fresh_prints(seen, fps).no_duplicates(),
        fresh_prints(seen, fps).len() <= fps.len(),
{
    lemma_fresh_indices(seen, fps, fps.len());
    let idx = fresh_of(seen, fps);
    let pr = fresh_prints(seen, fps);
    assert forall|x: Seq<char>| #[trigger] pr.contains(x) <==> fps.contains(x) && !seen.contains(x) by {
        if pr.contains(x) {
            let k = choose|k: int| 0 <= k < pr.len() && pr[k] == x;
            assert(idx[k] < fps.len() && is_fresh(seen, fps, idx[k]));
            assert(fps[idx[k]] == x);
        }
        if fps.contains(x) && !seen.contains(x) {
            lemma_first_occurrence(fps, x);
            let j = choose|j: int| 0 <= j < fps.len() && fps[j] == x && !fps.take(j).contains(x);
            assert(is_fresh(seen, fps, j));
            assert(idx.contains(j));
            let k = choose|k: int| 0 <= k < idx.len() && idx[k] == j;
            assert(pr[k] == x);
        }
    }
    assert forall|a: int, b: int| 0 <= a < pr.len() && 0 <= b < pr.len() && a != b implies pr[a]
        != pr[b] by {
        let (lo, hi) = if a < b {
            (a, b)
        } else {
            (b, a)
        };
        assert(idx[lo] < idx[hi]);
        assert(is_fresh(seen, fps, idx[hi]));
        if pr[lo] == pr[hi] {
            assert(fps.take(idx[hi])[idx[lo]] == fps[idx[hi]]);
        }
    }
}

proof fn lemma_remembered_no_eviction(seen: Seq<Seq<char>>, fps: Seq<Seq<char>>)
    requires
        seen.len() + fps.len() <= SEEN_CAP,
    ensures
        forall|x: Seq<char>| #[trigger]
            remembered(seen, fresh_prints(seen, fps), SEEN_CAP as nat).contains(x) <==> seen.contains(x)
                || fps.contains(x),
{
    lemma_fresh_prints(seen, fps);
    let added = fresh_prints(seen, fps);
    let all = seen + added;
    assert(remembered(seen, added, SEEN_CAP as nat) == all);
    assert forall|x: Seq<char>| #[trigger] all.contains(x) <==> seen.contains(x) || fps.contains(x) by {
        if all.contains(x) {
            let k = choose|k: int| 0 <= k < all.len() && all[k] == x;
            if k >= seen.len() {
                assert(added[k - seen.len()] == x);
                assert(added.contains(x));
            } else {
                assert(seen[k] == x);
            }
        }
        if seen.contains(x) {
            let k = choose|k: int| 0 <= k < seen.len() && seen[k] == x;
            assert(all[k] == x);
        } else if fps.contains(x) {
            assert(added.contains(x));
            let k = choose|k: int| 0 <= k < added.len() && added[k] == x;
            assert(all[seen.len() + k] == x);
        }
    }
}

/// A fetch whose entries were all seen before brings nothing new.
pub proof fn lemma_all_seen_nothing_fresh(seen: Seq<Seq<char>>, fps: Seq<Seq<char>>)
    requires
        forall|i: int| 0 <= i < fps.len() ==> seen.contains(#[trigger] fps[i]),
    ensures
        fresh_of(seen, fps).len() == 0,
{
    lemma_fresh_indices(seen, fps, fps.len());
    if fresh_of(seen, fps).len() > 0 {
        let j = fresh_of(seen, fps)[0];
        assert(is_fresh(seen, fps, j));
    }
}

/// Fetching the same entries again, once the first fetch has been
/// remembered, brings nothing new (provided nothing had to be evicted).
pub proof fn lemma_refetch_nothing_fresh(seen: Seq<Seq<char>>, fps: Seq<Seq<char>>)
    requires
        seen.len() + fps.len() <= SEEN_CAP,
    ensures
        fresh_of(remembered(seen, fresh_prints(seen, fps), SEEN_CAP as nat), fps).len() == 0,
{
    lemma_remembered_no_eviction(seen, fps);
    let seen1 = remembered(seen, fresh_prints(seen, fps), SEEN_CAP as nat);
    assert forall|i: int| 0 <= i < fps.len() implies seen1.contains(#[trigger] fps[i]) by {
        assert(fps.contains(fps[i]));
    }
    lemma_all_seen_nothing_fresh(seen1, fps);
}

/// Two fetches in a row, the second holding the entries of the first plus
/// some never seen before, in any order: the second finds exactly those
/// additions new, each once (provided the first needed no eviction).
pub proof fn lemma_second_fetch_finds_additions(
    seen: Seq<Seq<char>>,
    first: Seq<Seq<char>>,
    second: Seq<Seq<char>>,
)
    requires
        seen.len() + first.len() <= SEEN_CAP,
        forall|x: Seq<char>| first.contains(x) ==> #[trigger] second.contains(x),
        forall|x: Seq<char>| #[trigger] second.contains(x) && !first.contains(x) ==> !seen.contains(x),
    ensures
        ({
            let seen1 = remembered(seen, fresh_prints(seen, first), SEEN_CAP as nat);
            &&& forall|x: Seq<char>| #[trigger]
                fresh_prints(seen1, second).contains(x) <==> second.contains(x) && !first.contains(x)
            &&& fresh_prints(seen1, second).no_duplicates()
        }),
{
    lemma_remembered_no_eviction(seen, first);
    let seen1 = remembered(seen, fresh_prints(seen, first), SEEN_CAP as nat);
    lemma_fresh_prints(seen1, second);
}

} // verus!
