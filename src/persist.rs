use vstd::prelude::*;
use vstd::string::*;

use crate::dedup::views;
use crate::interval::Limits;
use crate::size::{chars_of, digit_value, is_digit};
use crate::store::{Feed, Store, Subscription};

verus! {

// The saved state is plain text made of a few tokens:
// a number is its decimal digits followed by `;`, a negative one has a leading `-`;
// a text is its length as a number followed by its characters;
// a missing optional text is `~`, a present one is `=` and the text;
// a list is its length as a number followed by its items.

pub open spec fn digit_char(d: int) -> char {
    ((d + 48) as u8) as char
}

pub open spec fn digits(n: nat) -> Seq<char>
    decreases n,
{
    if n < 10 {
        seq![digit_char(n as int)]
    } else {
        digits(n / 10).push(digit_char((n % 10) as int))
    }
}

pub open spec fn enc_nat(n: nat) -> Seq<char> {
    digits(n).push(';')
}

pub open spec fn enc_int(i: int) -> Seq<char> {
    if i < 0 {
        seq!['-'] + enc_nat((-i) as nat)
    } else {
        enc_nat(i as nat)
    }
}

pub open spec fn enc_text(s: Seq<char>) -> Seq<char> {
    enc_nat(s.len()) + s
}

pub open spec fn enc_opt(o: Option<Seq<char>>) -> Seq<char> {
    match o {
        None => seq!['~'],
        Some(s) => seq!['='] + enc_text(s),
    }
}

/// Reads digits from `pos` up to a `;`; at least one digit, and a value that
/// fits in 64 bits.
pub open spec fn read_digits(v: Seq<char>, pos: int, acc: int, any: bool) -> Option<(int, int)>
    decreases v.len() - pos,
{
    if pos < 0 || pos >= v.len() {
        None
    } else if v[pos] == ';' {
        if !any || acc > u64::MAX as int {
            None
        } else {
            Some((acc, pos + 1))
        }
    } else if is_digit(v[pos]) {
        read_digits(v, pos + 1, acc * 10 + digit_value(v[pos]), true)
    } else {
        None
    }
}

pub open spec fn read_nat(v: Seq<char>, pos: int) -> Option<(int, int)> {
    read_digits(v, pos, 0, false)
}

pub open spec fn read_int(v: Seq<char>, pos: int) -> Option<(int, int)> {
    if 0 <= pos < v.len() && v[pos] == '-' {
        match read_nat(v, pos + 1) {
            Some((n, p)) => if n <= 0x8000_0000_0000_0000 {
                Some((-n, p))
            } else {
                None
            },
            None => None,
        }
    } else {
        match read_nat(v, pos) {
            Some((n, p)) => if n <= i64::MAX as int {
                Some((n, p))
            } else {
                None
            },
            None => None,
        }
    }
}

pub open spec fn read_text(v: Seq<char>, pos: int) -> Option<(Seq<char>, int)> {
    match read_nat(v, pos) {
        Some((n, p)) => if p + n <= v.len() {
            Some((v.subrange(p, p + n), p + n))
        } else {
            None
        },
        None => None,
    }
}

pub open spec fn read_opt(v: Seq<char>, pos: int) -> Option<(Option<Seq<char>>, int)> {
    if 0 <= pos < v.len() && v[pos] == '~' {
        Some((None, pos + 1))
    } else if 0 <= pos < v.len() && v[pos] == '=' {
        match read_text(v, pos + 1) {
            Some((s, p)) => Some((Some(s), p)),
            None => None,
        }
    } else {
        None
    }
}

/// `w` stands in `v` at `pos`.
pub open spec fn at(v: Seq<char>, pos: int, w: Seq<char>) -> bool {
    0 <= pos && pos + w.len() <= v.len() && v.subrange(pos, pos + w.len()) == w
}

pub open spec fn fold_digits(acc: int, ds: Seq<char>) -> int
    decreases ds.len(),
{
    if ds.len() == 0 {
        acc
    } else {
        fold_digits(acc, ds.drop_last()) * 10 + digit_value(ds.last())
    }
}

proof fn lemma_digit_char(d: int)
    requires
        0 <= d < 10,
    ensures
        is_digit(digit_char(d)),
        digit_value(digit_char(d)) == d,
        digit_char(d) != ';',
        digit_char(d) != '-',
{
    assert(((d + 48) as u8) as char as int == d + 48);
}

proof fn lemma_digits(n: nat)
    ensures
        digits(n).len() >= 1,
        forall|j: int| 0 <= j < digits(n).len() ==> is_digit(#[trigger] digits(n)[j]),
        fold_digits(0, digits(n)) == n,
    decreases n,
{
    if n < 10 {
        lemma_digit_char(n as int);
        let ds = digits(n);
        assert(ds.drop_last() =~= Seq::<char>::empty());
        assert(fold_digits(0, ds.drop_last()) == 0);
        assert(fold_digits(0, ds) == digit_value(ds.last()));
    } else {
        lemma_digits(n / 10);
        lemma_digit_char((n % 10) as int);
        let ds = digits(n);
        assert(ds.drop_last() =~= digits(n / 10));
        assert(forall|j: int| 0 <= j < digits(n / 10).len() ==> ds[j] == digits(n / 10)[j]);
        assert(ds.last() == digit_char((n % 10) as int));
        assert(fold_digits(0, ds) == fold_digits(0, digits(n / 10)) * 10 + (n % 10));
        assert(n == (n / 10) * 10 + n % 10);
    }
}

proof fn lemma_read_digit_run(v: Seq<char>, pos: int, ds: Seq<char>, k: int, acc: int, any: bool)
    requires
        at(v, pos, ds),
        0 <= k <= ds.len(),
        forall|j: int| 0 <= j < ds.len() ==> is_digit(#[trigger] ds[j]),
    ensures
        read_digits(v, pos, acc, any) == read_digits(
            v,
            pos + k,
            fold_digits(acc, ds.take(k)),
            any || k > 0,
        ),
    decreases k,
{
    if k > 0 {
        lemma_read_digit_run(v, pos, ds, k - 1, acc, any);
        assert(ds.take(k).drop_last() =~= ds.take(k - 1));
        assert(v[pos + k - 1] == ds[k - 1]);
        assert(ds.take(k).last() == ds[k - 1]);
    } else {
        assert(ds.take(0) =~= Seq::<char>::empty());
    }
}

pub proof fn lemma_read_enc_nat(v: Seq<char>, pos: int, n: nat)
    requires
        at(v, pos, enc_nat(n)),
        n <= u64::MAX,
    ensures
        read_nat(v, pos) == Some((n as int, pos + enc_nat(n).len())),
{
    lemma_digits(n);
    let ds = digits(n);
    assert(at(v, pos, ds)) by {
        assert(v.subrange(pos, pos + ds.len()) =~= enc_nat(n).subrange(0, ds.len() as int));
        assert(enc_nat(n).subrange(0, ds.len() as int) =~= ds);
    }
    lemma_read_digit_run(v, pos, ds, ds.len() as int, 0, false);
    assert(ds.take(ds.len() as int) =~= ds);
    assert(v[pos + ds.len()] == enc_nat(n)[ds.len() as int]);
}

pub proof fn lemma_read_enc_int(v: Seq<char>, pos: int, i: int)
    requires
        at(v, pos, enc_int(i)),
        i64::MIN <= i <= i64::MAX,
    ensures
        read_int(v, pos) == Some((i, pos + enc_int(i).len())),
{
    if i < 0 {
        let w = enc_nat((-i) as nat);
        assert(v[pos] == enc_int(i)[0]);
        assert(v.subrange(pos + 1, pos + 1 + w.len()) =~= enc_int(i).subrange(1, enc_int(i).len() as int));
        assert(enc_int(i).subrange(1, enc_int(i).len() as int) =~= w);
        lemma_read_enc_nat(v, pos + 1, (-i) as nat);
    } else {
        lemma_digits(i as nat);
        assert(v[pos] == enc_int(i)[0]);
        assert(enc_int(i)[0] == digits(i as nat)[0]);
        lemma_read_enc_nat(v, pos, i as nat);
    }
}

pub proof fn lemma_read_enc_text(v: Seq<char>, pos: int, s: Seq<char>)
    requires
        at(v, pos, enc_text(s)),
        s.len() <= u64::MAX,
    ensures
        read_text(v, pos) == Some((s, pos + enc_text(s).len())),
{
    let w = enc_nat(s.len());
    assert(v.subrange(pos, pos + w.len()) =~= enc_text(s).subrange(0, w.len() as int));
    assert(enc_text(s).subrange(0, w.len() as int) =~= w);
    lemma_read_enc_nat(v, pos, s.len());
    assert(v.subrange(pos + w.len(), pos + w.len() + s.len()) =~= enc_text(s).subrange(
        w.len() as int,
        enc_text(s).len() as int,
    ));
}

pub proof fn lemma_read_enc_opt(v: Seq<char>, pos: int, o: Option<Seq<char>>)
    requires
        at(v, pos, enc_opt(o)),
        o matches Some(s) ==> s.len() <= u64::MAX,
    ensures
        read_opt(v, pos) == Some((o, pos + enc_opt(o).len())),
{
    assert(v[pos] == enc_opt(o)[0]);
    if let Some(s) = o {
        let w = enc_text(s);
        assert(v.subrange(pos + 1, pos + 1 + w.len()) =~= enc_opt(o).subrange(1, enc_opt(o).len() as int));
        assert(enc_opt(o).subrange(1, enc_opt(o).len() as int) =~= w);
        lemma_read_enc_text(v, pos + 1, s);
    }
}

fn digit_str(d: u64) -> (r: &'static str)
    requires
        d < 10,
    ensures
        r@ == seq![digit_char(d as int)],
{
    proof {
        reveal_strlit("0");
        reveal_strlit("1");
        reveal_strlit("2");
        reveal_strlit("3");
        reveal_strlit("4");
        reveal_strlit("5");
        reveal_strlit("6");
        reveal_strlit("7");
        reveal_strlit("8");
        reveal_strlit("9");
    }
    let r = if d == 0 {
        "0"
    } else if d == 1 {
        "1"
    } else if d == 2 {
        "2"
    } else if d == 3 {
        "3"
    } else if d == 4 {
        "4"
    } else if d == 5 {
        "5"
    } else if d == 6 {
        "6"
    } else if d == 7 {
        "7"
    } else if d == 8 {
        "8"
    } else {
        "9"
    };
    assert(r@ =~= seq![digit_char(d as int)]);
    r
}

fn write_digits(out: String, n: u64) -> (r: String)
    ensures
        r@ == out@ + digits(n as nat),
    decreases n,
{
    if n < 10 {
        out.concat(digit_str(n))
    } else {
        let r = write_digits(out, n / 10).concat(digit_str(n % 10));
        assert(r@ =~= out@ + digits(n as nat));
        r
    }
}

pub(crate) fn write_nat(out: String, n: u64) -> (r: String)
    ensures
        r@ == out@ + enc_nat(n as nat),
{
    proof {
        reveal_strlit(";");
    }
    let r = write_digits(out, n).concat(";");
    assert(r@ =~= out@ + enc_nat(n as nat));
    r
}

pub(crate) fn write_int(out: String, i: i64) -> (r: String)
    ensures
        r@ == out@ + enc_int(i as int),
{
    proof {
        reveal_strlit("-");
    }
    if i < 0 {
        let m: u64 = if i == i64::MIN {
            0x8000_0000_0000_0000
        } else {
            (-i) as u64
        };
        let r = write_nat(out.concat("-"), m);
        assert(r@ =~= out@ + enc_int(i as int));
        r
    } else {
        write_nat(out, i as u64)
    }
}

pub(crate) fn write_text(out: String, s: &String) -> (r: String)
    ensures
        r@ == out@ + enc_text(s@),
{
    let n = s.as_str().unicode_len();
    let r = write_nat(out, n as u64).concat(s.as_str());
    assert(r@ =~= out@ + enc_text(s@));
    r
}

pub(crate) fn write_opt(out: String, o: &Option<String>) -> (r: String)
    ensures
        r@ == out@ + enc_opt(opt_view(*o)),
{
    proof {
        reveal_strlit("~");
        reveal_strlit("=");
    }
    match o {
        None => {
            let r = out.concat("~");
            assert(r@ =~= out@ + enc_opt(opt_view(*o)));
            r
        },
        Some(s) => {
            let r = write_text(out.concat("="), s);
            assert(r@ =~= out@ + enc_opt(opt_view(*o)));
            r
        },
    }
}

pub open spec fn opt_view(o: Option<String>) -> Option<Seq<char>> {
    match o {
        Some(s) => Some(s@),
        None => None,
    }
}

proof fn lemma_read_digits_too_big(v: Seq<char>, pos: int, acc: int, any: bool)
    requires
        acc > u64::MAX as int,
    ensures
        read_digits(v, pos, acc, any) is None,
    decreases v.len() - pos,
{
    if 0 <= pos < v.len() && v[pos] != ';' && is_digit(v[pos]) {
        lemma_read_digits_too_big(v, pos + 1, acc * 10 + digit_value(v[pos]), true);
    }
}

pub(crate) fn read_nat_at(v: &Vec<char>, pos: usize) -> (r: Option<(u64, usize)>)
    ensures
        match read_nat(v@, pos as int) {
            Some((n, p)) => r matches Some((x, q)) && x == n && q == p && pos < p <= v@.len(),
            None => r is None,
        },
{
    let mut k: usize = pos;
    let mut acc: u64 = 0;
    let mut any = false;
    while k < v.len() && v[k] != ';'
        invariant
            pos <= k,
            acc <= u64::MAX,
            read_nat(v@, pos as int) == read_digits(v@, k as int, acc as int, any),
        decreases v@.len() - k,
    {
        let c = v[k];
        if !('0' <= c && c <= '9') {
            return None;
        }
        let next: u128 = (acc as u128) * 10 + ((c as u32) - ('0' as u32)) as u128;
        if next > u64::MAX as u128 {
            proof {
                lemma_read_digits_too_big(v@, k + 1, next as int, true);
            }
            return None;
        }
        acc = next as u64;
        any = true;
        k = k + 1;
    }
    if k >= v.len() || !any {
        return None;
    }
    Some((acc, k + 1))
}

pub(crate) fn read_int_at(v: &Vec<char>, pos: usize) -> (r: Option<(i64, usize)>)
    ensures
        match read_int(v@, pos as int) {
            Some((n, p)) => r matches Some((x, q)) && x == n && q == p && p <= v@.len(),
            None => r is None,
        },
{
    if pos < v.len() && v[pos] == '-' {
        match read_nat_at(v, pos + 1) {
            Some((n, p)) => if n <= 0x8000_0000_0000_0000 {
                let x: i64 = if n == 0x8000_0000_0000_0000 {
                    i64::MIN
                } else {
                    -(n as i64)
                };
                Some((x, p))
            } else {
                None
            },
            None => None,
        }
    } else {
        match read_nat_at(v, pos) {
            Some((n, p)) => if n <= i64::MAX as u64 {
                Some((n as i64, p))
            } else {
                None
            },
            None => None,
        }
    }
}

pub(crate) fn read_text_at(src: &str, v: &Vec<char>, pos: usize) -> (r: Option<(String, usize)>)
    requires
        v@ == src@,
    ensures
        match read_text(v@, pos as int) {
            Some((s, p)) => r matches Some((t, q)) && t@ == s && q == p && p <= v@.len(),
            None => r is None,
        },
{
    match read_nat_at(v, pos) {
        Some((n, p)) => if n <= (v.len() - p) as u64 {
            assert(p <= v@.len());
            let e = p + n as usize;
            let t = String::from_str(src.substring_char(p, e));
            Some((t, e))
        } else {
            None
        },
        None => None,
    }
}

pub(crate) fn read_opt_at(src: &str, v: &Vec<char>, pos: usize) -> (r: Option<(Option<String>, usize)>)
    requires
        v@ == src@,
    ensures
        match read_opt(v@, pos as int) {
            Some((o, p)) => r matches Some((t, q)) && opt_view(t) == o && q == p && p <= v@.len(),
            None => r is None,
        },
{
    if pos < v.len() && v[pos] == '~' {
        Some((None, pos + 1))
    } else if pos < v.len() && v[pos] == '=' {
        match read_text_at(src, v, pos + 1) {
            Some((s, p)) => Some((Some(s), p)),
            None => None,
        }
    } else {
        None
    }
}

/// What a feed holds, as plain values.
pub struct FeedModel {
    pub id: u64,
    pub url: Seq<char>,
    pub title: Seq<char>,
    pub etag: Option<Seq<char>>,
    pub last_modified: Option<Seq<char>>,
    pub seen: Seq<Seq<char>>,
    pub interval: u32,
    pub error_count: u32,
    pub next_fetch: u64,
}

/// What a store holds, as plain values.
pub struct StoreModel {
    pub limits: Limits,
    pub next_id: u64,
    pub feeds: Seq<FeedModel>,
    pub subs: Seq<Subscription>,
}

pub open spec fn feed_model(f: Feed) -> FeedModel {
    FeedModel {
        id: f.id,
        url: f.url@,
        title: f.title@,
        etag: opt_view(f.etag),
        last_modified: opt_view(f.last_modified),
        seen: views(f.seen@),
        interval: f.interval,
        error_count: f.error_count,
        next_fetch: f.next_fetch,
    }
}

pub open spec fn store_model(s: Store) -> StoreModel {
    StoreModel {
        limits: s.limits,
        next_id: s.next_id,
        feeds: s.feeds@.map_values(|f: Feed| feed_model(f)),
        subs: s.subs@,
    }
}

/// Every length in the model fits in 64 bits, as it does for any value in memory.
pub open spec fn fits(m: StoreModel) -> bool {
    &&& m.feeds.len() <= u64::MAX
    &&& m.subs.len() <= u64::MAX
    &&& forall|i: int| 0 <= i < m.feeds.len() ==> feed_fits(#[trigger] m.feeds[i])
}

pub open spec fn feed_fits(f: FeedModel) -> bool {
    &&& f.url.len() <= u64::MAX
    &&& f.title.len() <= u64::MAX
    &&& (f.etag matches Some(e) ==> e.len() <= u64::MAX)
    &&& (f.last_modified matches Some(e) ==> e.len() <= u64::MAX)
    &&& f.seen.len() <= u64::MAX
    &&& forall|k: int| 0 <= k < f.seen.len() ==> (#[trigger] f.seen[k]).len() <= u64::MAX
}

pub open spec fn enc_texts(ss: Seq<Seq<char>>) -> Seq<char>
    decreases ss.len(),
{
    if ss.len() == 0 {
        Seq::empty()
    } else {
        enc_texts(ss.drop_last()) + enc_text(ss.last())
    }
}

pub open spec fn enc_feed(f: FeedModel) -> Seq<char> {
    enc_nat(f.id as nat) + enc_text(f.url) + enc_text(f.title) + enc_opt(f.etag) + enc_opt(
        f.last_modified,
    ) + enc_nat(f.seen.len()) + enc_texts(f.seen) + enc_nat(f.interval as nat) + enc_nat(
        f.error_count as nat,
    ) + enc_nat(f.next_fetch as nat)
}

pub open spec fn enc_feeds(fs: Seq<FeedModel>) -> Seq<char>
    decreases fs.len(),
{
    if fs.len() == 0 {
        Seq::empty()
    } else {
        enc_feeds(fs.drop_last()) + enc_feed(fs.last())
    }
}

pub open spec fn enc_sub(s: Subscription) -> Seq<char> {
    enc_int(s.chat as int) + enc_nat(s.feed as nat)
}

pub open spec fn enc_subs(ss: Seq<Subscription>) -> Seq<char>
    decreases ss.len(),
{
    if ss.len() == 0 {
        Seq::empty()
    } else {
        enc_subs(ss.drop_last()) + enc_sub(ss.last())
    }
}

/// The saved text of a store.
pub open spec fn enc_store(m: StoreModel) -> Seq<char> {
    enc_nat(m.limits.min_interval as nat) + enc_nat(m.limits.max_interval as nat) + enc_nat(
        m.next_id as nat,
    ) + enc_nat(m.feeds.len()) + enc_feeds(m.feeds) + enc_nat(m.subs.len()) + enc_subs(m.subs)
}

pub open spec fn read_texts(v: Seq<char>, pos: int, n: nat) -> Option<(Seq<Seq<char>>, int)>
    decreases n,
{
    if n == 0 {
        Some((Seq::empty(), pos))
    } else {
        match read_texts(v, pos, (n - 1) as nat) {
            Some((xs, p)) => match read_text(v, p) {
                Some((x, q)) => Some((xs.push(x), q)),
                None => None,
            },
            None => None,
        }
    }
}

pub open spec fn small(n: int) -> bool {
    n <= u32::MAX
}

pub open spec fn read_feed(v: Seq<char>, off0: int) -> Option<(FeedModel, int)> {
    match read_nat(v, off0) {
        None => None,
        Some((id, off1)) => match read_text(v, off1) {
            None => None,
            Some((url, off2)) => match read_text(v, off2) {
                None => None,
                Some((title, off3)) => match read_opt(v, off3) {
                    None => None,
                    Some((etag, off4)) => match read_opt(v, off4) {
                        None => None,
                        Some((lm, off5)) => match read_nat(v, off5) {
                            None => None,
                            Some((n, off6)) => match read_texts(v, off6, n as nat) {
                                None => None,
                                Some((seen, off7)) => match read_nat(v, off7) {
                                    None => None,
                                    Some((iv, off8)) => match read_nat(v, off8) {
                                        None => None,
                                        Some((ec, off9)) => match read_nat(v, off9) {
                                            None => None,
                                            Some((nf, off10)) => if small(iv) && small(ec) {
                                                Some(
                                                    (
                                                        FeedModel {
                                                            id: id as u64,
                                                            url,
                                                            title,
                                                            etag,
                                                            last_modified: lm,
                                                            seen,
                                                            interval: iv as u32,
                                                            error_count: ec as u32,
                                                            next_fetch: nf as u64,
                                                        },
                                                        off10,
                                                    ),
                                                )
                                            } else {
                                                None
                                            },
                                        },
                                    },
                                },
                            },
                        },
                    },
                },
            },
        },
    }
}

pub open spec fn read_feeds(v: Seq<char>, pos: int, n: nat) -> Option<(Seq<FeedModel>, int)>
    decreases n,
{
    if n == 0 {
        Some((Seq::empty(), pos))
    } else {
        match read_feeds(v, pos, (n - 1) as nat) {
            Some((xs, p)) => match read_feed(v, p) {
                Some((x, q)) => Some((xs.push(x), q)),
                None => None,
            },
            None => None,
        }
    }
}

pub open spec fn read_sub(v: Seq<char>, pos: int) -> Option<(Subscription, int)> {
    match read_int(v, pos) {
        Some((c, p)) => match read_nat(v, p) {
            Some((f, q)) => Some((Subscription { chat: c as i64, feed: f as u64 }, q)),
            None => None,
        },
        None => None,
    }
}

pub open spec fn read_subs(v: Seq<char>, pos: int, n: nat) -> Option<(Seq<Subscription>, int)>
    decreases n,
{
    if n == 0 {
        Some((Seq::empty(), pos))
    } else {
        match read_subs(v, pos, (n - 1) as nat) {
            Some((xs, p)) => match read_sub(v, p) {
                Some((x, q)) => Some((xs.push(x), q)),
                None => None,
            },
            None => None,
        }
    }
}

/// The store that a saved text describes, if the text is one whole store.
pub open spec fn read_store(v: Seq<char>) -> Option<StoreModel> {
    match read_nat(v, 0) {
        None => None,
        Some((lo, off1)) => match read_nat(v, off1) {
            None => None,
            Some((hi, off2)) => match read_nat(v, off2) {
                None => None,
                Some((next, off3)) => match read_nat(v, off3) {
                    None => None,
                    Some((nf, off4)) => match read_feeds(v, off4, nf as nat) {
                        None => None,
                        Some((feeds, off5)) => match read_nat(v, off5) {
                            None => None,
                            Some((ns, off6)) => match read_subs(v, off6, ns as nat) {
                                None => None,
                                Some((subs, off7)) => if small(lo) && small(hi) && off7 == v.len() {
                                    Some(
                                        StoreModel {
                                            limits: Limits {
                                                min_interval: lo as u32,
                                                max_interval: hi as u32,
                                            },
                                            next_id: next as u64,
                                            feeds,
                                            subs,
                                        },
                                    )
                                } else {
                                    None
                                },
                            },
                        },
                    },
                },
            },
        },
    }
}

proof fn lemma_at_split(v: Seq<char>, pos: int, a: Seq<char>, b: Seq<char>)
    requires
        at(v, pos, a + b),
    ensures
        at(v, pos, a),
        at(v, pos + a.len(), b),
{
    let w = v.subrange(pos, pos + (a + b).len());
    assert(w == a + b);
    assert(v.subrange(pos, pos + a.len()) =~= w.subrange(0, a.len() as int));
    assert(w.subrange(0, a.len() as int) =~= a);
    assert(v.subrange(pos + a.len(), pos + a.len() + b.len()) =~= w.subrange(
        a.len() as int,
        w.len() as int,
    ));
    assert(w.subrange(a.len() as int, w.len() as int) =~= b);
}

proof fn lemma_read_enc_texts(v: Seq<char>, pos: int, ss: Seq<Seq<char>>)
    requires
        at(v, pos, enc_texts(ss)),
        forall|k: int| 0 <= k < ss.len() ==> (#[trigger] ss[k]).len() <= u64::MAX,
    ensures
        read_texts(v, pos, ss.len()) == Some((ss, pos + enc_texts(ss).len())),
    decreases ss.len(),
{
    if ss.len() > 0 {
        let init = ss.drop_last();
        lemma_at_split(v, pos, enc_texts(init), enc_text(ss.last()));
        lemma_read_enc_texts(v, pos, init);
        lemma_read_enc_text(v, pos + enc_texts(init).len(), ss.last());
        assert(init.push(ss.last()) =~= ss);
    }
}

proof fn lemma_read_enc_feed(v: Seq<char>, pos: int, f: FeedModel)
    requires
        at(v, pos, enc_feed(f)),
        feed_fits(f),
    ensures
        read_feed(v, pos) == Some((f, pos + enc_feed(f).len())),
{
    let a1 = enc_nat(f.id as nat);
    let a2 = a1 + enc_text(f.url);
    let a3 = a2 + enc_text(f.title);
    let a4 = a3 + enc_opt(f.etag);
    let a5 = a4 + enc_opt(f.last_modified);
    let a6 = a5 + enc_nat(f.seen.len());
    let a7 = a6 + enc_texts(f.seen);
    let a8 = a7 + enc_nat(f.interval as nat);
    let a9 = a8 + enc_nat(f.error_count as nat);
    lemma_at_split(v, pos, a9, enc_nat(f.next_fetch as nat));
    lemma_at_split(v, pos, a8, enc_nat(f.error_count as nat));
    lemma_at_split(v, pos, a7, enc_nat(f.interval as nat));
    lemma_at_split(v, pos, a6, enc_texts(f.seen));
    lemma_at_split(v, pos, a5, enc_nat(f.seen.len()));
    lemma_at_split(v, pos, a4, enc_opt(f.last_modified));
    lemma_at_split(v, pos, a3, enc_opt(f.etag));
    lemma_at_split(v, pos, a2, enc_text(f.title));
    lemma_at_split(v, pos, a1, enc_text(f.url));
    lemma_read_enc_nat(v, pos, f.id as nat);
    lemma_read_enc_text(v, pos + a1.len(), f.url);
    lemma_read_enc_text(v, pos + a2.len(), f.title);
    lemma_read_enc_opt(v, pos + a3.len(), f.etag);
    lemma_read_enc_opt(v, pos + a4.len(), f.last_modified);
    lemma_read_enc_nat(v, pos + a5.len(), f.seen.len());
    lemma_read_enc_texts(v, pos + a6.len(), f.seen);
    lemma_read_enc_nat(v, pos + a7.len(), f.interval as nat);
    lemma_read_enc_nat(v, pos + a8.len(), f.error_count as nat);
    lemma_read_enc_nat(v, pos + a9.len(), f.next_fetch as nat);
}

proof fn lemma_read_enc_feeds(v: Seq<char>, pos: int, fs: Seq<FeedModel>)
    requires
        at(v, pos, enc_feeds(fs)),
        forall|i: int| 0 <= i < fs.len() ==> feed_fits(#[trigger] fs[i]),
    ensures
        read_feeds(v, pos, fs.len()) == Some((fs, pos + enc_feeds(fs).len())),
    decreases fs.len(),
{
    if fs.len() > 0 {
        let init = fs.drop_last();
        lemma_at_split(v, pos, enc_feeds(init), enc_feed(fs.last()));
        lemma_read_enc_feeds(v, pos, init);
        lemma_read_enc_feed(v, pos + enc_feeds(init).len(), fs.last());
        assert(init.push(fs.last()) =~= fs);
    }
}

proof fn lemma_read_enc_subs(v: Seq<char>, pos: int, ss: Seq<Subscription>)
    requires
        at(v, pos, enc_subs(ss)),
    ensures
        read_subs(v, pos, ss.len()) == Some((ss, pos + enc_subs(ss).len())),
    decreases ss.len(),
{
    if ss.len() > 0 {
        let init = ss.drop_last();
        let s = ss.last();
        lemma_at_split(v, pos, enc_subs(init), enc_sub(s));
        lemma_read_enc_subs(v, pos, init);
        let p = pos + enc_subs(init).len();
        lemma_at_split(v, p, enc_int(s.chat as int), enc_nat(s.feed as nat));
        lemma_read_enc_int(v, p, s.chat as int);
        lemma_read_enc_nat(v, p + enc_int(s.chat as int).len(), s.feed as nat);
        assert(init.push(s) =~= ss);
    }
}

/// Reading back the saved text of a store gives the same store: the same
/// limits, feeds (fingerprints, intervals, error counts, due times included)
/// and subscriptions.
#[verifier::rlimit(60)]
pub proof fn lemma_round_trip(m: StoreModel)
    requires
        fits(m),
    ensures
        read_store(enc_store(m)) == Some(m),
{
    let v = enc_store(m);
    let a1 = enc_nat(m.limits.min_interval as nat);
    let a2 = a1 + enc_nat(m.limits.max_interval as nat);
    let a3 = a2 + enc_nat(m.next_id as nat);
    let a4 = a3 + enc_nat(m.feeds.len());
    let a5 = a4 + enc_feeds(m.feeds);
    let a6 = a5 + enc_nat(m.subs.len());
    assert(at(v, 0, v)) by {
        assert(v.subrange(0, v.len() as int) =~= v);
    }
    lemma_at_split(v, 0, a6, enc_subs(m.subs));
    lemma_at_split(v, 0, a5, enc_nat(m.subs.len()));
    lemma_at_split(v, 0, a4, enc_feeds(m.feeds));
    lemma_at_split(v, 0, a3, enc_nat(m.feeds.len()));
    lemma_at_split(v, 0, a2, enc_nat(m.next_id as nat));
    lemma_at_split(v, 0, a1, enc_nat(m.limits.max_interval as nat));
    lemma_read_enc_nat(v, 0, m.limits.min_interval as nat);
    lemma_read_enc_nat(v, a1.len() as int, m.limits.max_interval as nat);
    lemma_read_enc_nat(v, a2.len() as int, m.next_id as nat);
    lemma_read_enc_nat(v, a3.len() as int, m.feeds.len());
    lemma_read_enc_feeds(v, a4.len() as int, m.feeds);
    lemma_read_enc_nat(v, a5.len() as int, m.subs.len());
    lemma_read_enc_subs(v, a6.len() as int, m.subs);
}

fn write_feed(out: String, f: &Feed) -> (r: String)
    ensures
        r@ == out@ + enc_feed(feed_model(*f)),
{
    let ghost m = feed_model(*f);
    let mut o = write_nat(out, f.id);
    o = write_text(o, &f.url);
    o = write_text(o, &f.title);
    o = write_opt(o, &f.etag);
    o = write_opt(o, &f.last_modified);
    o = write_nat(o, f.seen.len() as u64);
    let ghost start = o@;
    let mut k: usize = 0;
    while k < f.seen.len()
        invariant
            k <= f.seen@.len(),
            m == feed_model(*f),
            o@ == start + enc_texts(m.seen.take(k as int)),
        decreases f.seen@.len() - k,
    {
        o = write_text(o, &f.seen[k]);
        assert(m.seen.take(k + 1).drop_last() =~= m.seen.take(k as int));
        assert(o@ =~= start + enc_texts(m.seen.take(k + 1)));
        k = k + 1;
    }
    assert(m.seen.take(k as int) =~= m.seen);
    o = write_nat(o, f.interval as u64);
    o = write_nat(o, f.error_count as u64);
    o = write_nat(o, f.next_fetch);
    assert(o@ =~= out@ + enc_feed(m));
    o
}

/// The saved text of a store.
pub fn encode(s: &Store) -> (r: String)
    ensures
        r@ == enc_store(store_model(*s)),
{
    let ghost m = store_model(*s);
    let mut o = write_nat(String::new(), s.limits.min_interval as u64);
    o = write_nat(o, s.limits.max_interval as u64);
    o = write_nat(o, s.next_id);
    o = write_nat(o, s.feeds.len() as u64);
    let ghost start = o@;
    let mut k: usize = 0;
    while k < s.feeds.len()
        invariant
            k <= s.feeds@.len(),
            m == store_model(*s),
            o@ == start + enc_feeds(m.feeds.take(k as int)),
        decreases s.feeds@.len() - k,
    {
        o = write_feed(o, &s.feeds[k]);
        assert(m.feeds.take(k + 1).drop_last() =~= m.feeds.take(k as int));
        assert(o@ =~= start + enc_feeds(m.feeds.take(k + 1)));
        k = k + 1;
    }
    assert(m.feeds.take(k as int) =~= m.feeds);
    o = write_nat(o, s.subs.len() as u64);
    let ghost mid = o@;
    let mut j: usize = 0;
    while j < s.subs.len()
        invariant
            j <= s.subs@.len(),
            m == store_model(*s),
            o@ == mid + enc_subs(m.subs.take(j as int)),
        decreases s.subs@.len() - j,
    {
        let sub = s.subs[j];
        o = write_int(o, sub.chat);
        o = write_nat(o, sub.feed);
        assert(m.subs.take(j + 1).drop_last() =~= m.subs.take(j as int));
        assert(o@ =~= mid + enc_subs(m.subs.take(j + 1)));
        j = j + 1;
    }
    assert(m.subs.take(j as int) =~= m.subs);
    assert(o@ =~= enc_store(m));
    o
}

proof fn lemma_read_texts_stops(v: Seq<char>, pos: int, k: nat, n: nat)
    requires
        k <= n,
        read_texts(v, pos, k) is None,
    ensures
        read_texts(v, pos, n) is None,
    decreases n - k,
{
    if k < n {
        lemma_read_texts_stops(v, pos, k + 1, n);
    }
}

proof fn lemma_read_feeds_stops(v: Seq<char>, pos: int, k: nat, n: nat)
    requires
        k <= n,
        read_feeds(v, pos, k) is None,
    ensures
        read_feeds(v, pos, n) is None,
    decreases n - k,
{
    if k < n {
        lemma_read_feeds_stops(v, pos, k + 1, n);
    }
}

proof fn lemma_read_subs_stops(v: Seq<char>, pos: int, k: nat, n: nat)
    requires
        k <= n,
        read_subs(v, pos, k) is None,
    ensures
        read_subs(v, pos, n) is None,
    decreases n - k,
{
    if k < n {
        lemma_read_subs_stops(v, pos, k + 1, n);
    }
}

fn read_texts_at(src: &str, v: &Vec<char>, pos: usize, n: u64) -> (r: Option<(Vec<String>, usize)>)
    requires
        v@ == src@,
        pos <= v@.len(),
    ensures
        match read_texts(v@, pos as int, n as nat) {
            Some((xs, p)) => r matches Some((t, q)) && views(t@) == xs && q == p && p <= v@.len(),
            None => r is None,
        },
{
    let mut out: Vec<String> = Vec::new();
    let mut p: usize = pos;
    let mut k: u64 = 0;
    while k < n
        invariant
            v@ == src@,
            k <= n,
            p <= v@.len(),
            read_texts(v@, pos as int, k as nat) == Some((views(out@), p as int)),
        decreases n - k,
    {
        match read_text_at(src, v, p) {
            Some((t, q)) => {
                let ghost before = out@;
                out.push(t);
                assert(views(out@) =~= views(before).push(t@));
                p = q;
            },
            None => {
                proof {
                    lemma_read_texts_stops(v@, pos as int, (k + 1) as nat, n as nat);
                }
                return None;
            },
        }
        k = k + 1;
    }
    Some((out, p))
}

fn read_feed_at(src: &str, v: &Vec<char>, off0: usize) -> (r: Option<(Feed, usize)>)
    requires
        v@ == src@,
    ensures
        match read_feed(v@, off0 as int) {
            Some((m, p)) => r matches Some((f, q)) && feed_model(f) == m && q == p && p <= v@.len(),
            None => r is None,
        },
{
    let (id, off1) = match read_nat_at(v, off0) {
        Some(x) => x,
        None => return None,
    };
    assert(read_nat(v@, off0 as int) == Some((id as int, off1 as int)));
    let (url, off2) = match read_text_at(src, v, off1) {
        Some(x) => x,
        None => return None,
    };
    assert(read_text(v@, off1 as int) == Some((url@, off2 as int)));
    let (title, off3) = match read_text_at(src, v, off2) {
        Some(x) => x,
        None => return None,
    };
    assert(read_text(v@, off2 as int) == Some((title@, off3 as int)));
    let (etag, off4) = match read_opt_at(src, v, off3) {
        Some(x) => x,
        None => return None,
    };
    assert(read_opt(v@, off3 as int) == Some((opt_view(etag), off4 as int)));
    let (last_modified, off5) = match read_opt_at(src, v, off4) {
        Some(x) => x,
        None => return None,
    };
    assert(read_opt(v@, off4 as int) == Some((opt_view(last_modified), off5 as int)));
    let (n, off6) = match read_nat_at(v, off5) {
        Some(x) => x,
        None => return None,
    };
    assert(read_nat(v@, off5 as int) == Some((n as int, off6 as int)));
    let (seen, off7) = match read_texts_at(src, v, off6, n) {
        Some(x) => x,
        None => return None,
    };
    assert(read_texts(v@, off6 as int, n as nat) == Some((views(seen@), off7 as int)));
    let (iv, off8) = match read_nat_at(v, off7) {
        Some(x) => x,
        None => return None,
    };
    assert(read_nat(v@, off7 as int) == Some((iv as int, off8 as int)));
    let (ec, off9) = match read_nat_at(v, off8) {
        Some(x) => x,
        None => return None,
    };
    assert(read_nat(v@, off8 as int) == Some((ec as int, off9 as int)));
    let (nf, off10) = match read_nat_at(v, off9) {
        Some(x) => x,
        None => return None,
    };
    assert(read_nat(v@, off9 as int) == Some((nf as int, off10 as int)));
    if iv > u32::MAX as u64 || ec > u32::MAX as u64 {
        return None;
    }
    let f = Feed {
        id,
        url,
        title,
        etag,
        last_modified,
        seen,
        interval: iv as u32,
        error_count: ec as u32,
        next_fetch: nf,
    };
    Some((f, off10))
}

/// Reads a store back from its saved text; `None` where the text is not the
/// saved text of a store.
pub fn decode(text: &str) -> (r: Option<Store>)
    ensures
        match read_store(text@) {
            Some(m) => r matches Some(s) && store_model(s) == m,
            None => r is None,
        },
{
    let v = chars_of(text);
    let (lo, off1) = match read_nat_at(&v, 0) {
        Some(x) => x,
        None => return None,
    };
    let (hi, off2) = match read_nat_at(&v, off1) {
        Some(x) => x,
        None => return None,
    };
    let (next_id, off3) = match read_nat_at(&v, off2) {
        Some(x) => x,
        None => return None,
    };
    let (nf, off4) = match read_nat_at(&v, off3) {
        Some(x) => x,
        None => return None,
    };
    let mut feeds: Vec<Feed> = Vec::new();
    let mut p: usize = off4;
    let mut k: u64 = 0;
    while k < nf
        invariant
            v@ == text@,
            k <= nf,
            p <= v@.len(),
            read_nat(v@, 0) == Some((lo as int, off1 as int)),
            read_nat(v@, off1 as int) == Some((hi as int, off2 as int)),
            read_nat(v@, off2 as int) == Some((next_id as int, off3 as int)),
            read_nat(v@, off3 as int) == Some((nf as int, off4 as int)),
            read_feeds(v@, off4 as int, k as nat) == Some(
                (feeds@.map_values(|f: Feed| feed_model(f)), p as int),
            ),
        decreases nf - k,
    {
        match read_feed_at(text, &v, p) {
            Some((f, q)) => {
                let ghost before = feeds@;
                feeds.push(f);
                assert(feeds@.map_values(|f: Feed| feed_model(f)) =~= before.map_values(
                    |f: Feed| feed_model(f),
                ).push(feed_model(f)));
                p = q;
            },
            None => {
                proof {
                    lemma_read_feeds_stops(v@, off4 as int, (k + 1) as nat, nf as nat);
                }
                return None;
            },
        }
        k = k + 1;
    }
    let off5 = p;
    let (ns, off6) = match read_nat_at(&v, off5) {
        Some(x) => x,
        None => return None,
    };
    let mut subs: Vec<Subscription> = Vec::new();
    p = off6;
    k = 0;
    while k < ns
        invariant
            v@ == text@,
            k <= ns,
            p <= v@.len(),
            read_nat(v@, 0) == Some((lo as int, off1 as int)),
            read_nat(v@, off1 as int) == Some((hi as int, off2 as int)),
            read_nat(v@, off2 as int) == Some((next_id as int, off3 as int)),
            read_nat(v@, off3 as int) == Some((nf as int, off4 as int)),
            read_feeds(v@, off4 as int, nf as nat) == Some((feeds@.map_values(|f: Feed| feed_model(f)), off5 as int)),
            read_nat(v@, off5 as int) == Some((ns as int, off6 as int)),
            read_subs(v@, off6 as int, k as nat) == Some((subs@, p as int)),
        decreases ns - k,
    {
        let (chat, q) = match read_int_at(&v, p) {
            Some(x) => x,
            None => {
                proof {
                    lemma_read_subs_stops(v@, off6 as int, (k + 1) as nat, ns as nat);
                }
                return None;
            },
        };
        let (feed, q2) = match read_nat_at(&v, q) {
            Some(x) => x,
            None => {
                proof {
                    lemma_read_subs_stops(v@, off6 as int, (k + 1) as nat, ns as nat);
                }
                return None;
            },
        };
        subs.push(Subscription { chat, feed });
        p = q2;
        k = k + 1;
    }
    if lo > u32::MAX as u64 || hi > u32::MAX as u64 || p != v.len() {
        return None;
    }
    let s = Store {
        limits: Limits { min_interval: lo as u32, max_interval: hi as u32 },
        feeds,
        subs,
        next_id,
    };
    assert(store_model(s).feeds == feeds@.map_values(|f: Feed| feed_model(f)));
    Some(s)
}

} // verus!
