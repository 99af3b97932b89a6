//! The aggregation engine: one candle per (token, granularity, bucket start),
//! created by the first trade of its bucket, extended by later ones, and
//! closed lazily once a trade of the same token lands in a later bucket.

use vstd::prelude::*;

use crate::kline::{bar_closed, bar_extended, bar_opened, Bar, KLine};
use crate::store::{
    key_view, stored, table_entries, table_get, table_insert, table_new, KeyView, Table,
};
use crate::time_interval::{interval_seconds, str_eq, TimeInterval, Timestamp};
use crate::closing::lemma_after_transaction_at;
use crate::transaction::Transaction;

verus! {

/// Whether bucket `k` of `token` under `iv` has ended by `start`.
pub open spec fn expired(k: KeyView, token: Seq<char>, iv: TimeInterval, start: Timestamp) -> bool {
    k.0 == token && k.1 == iv && k.2.unix_secs() + interval_seconds(iv) <= start.unix_secs()
}

/// The table after the closing sweep for a trade of `token` whose bucket
/// under `iv` starts at `start`.
pub open spec fn swept(m: Map<KeyView, Bar>, token: Seq<char>, iv: TimeInterval, start: Timestamp) -> Map<
    KeyView,
    Bar,
> {
    Map::new(
        |k: KeyView| m.contains_key(k),
        |k: KeyView|
            if expired(k, token, iv, start) {
                bar_closed(m[k])
            } else {
                m[k]
            },
    )
}

/// The table after a trade of `token` at `t` is taken into its bucket under
/// `iv`: the sweep, then the bucket is opened or extended.
pub open spec fn traded(
    m: Map<KeyView, Bar>,
    token: Seq<char>,
    iv: TimeInterval,
    t: Timestamp,
    price: i64,
    volume: i64,
) -> Map<KeyView, Bar> {
    let start = t.bucket_of(iv);
    let s = swept(m, token, iv, start);
    let k = (token, iv, start);
    if s.contains_key(k) {
        s.insert(k, bar_extended(s[k], price, volume))
    } else {
        s.insert(k, bar_opened(price, volume))
    }
}

/// The table after a trade, taken into every granularity in turn.
pub open spec fn after_transaction(m: Map<KeyView, Bar>, tx: Transaction) -> Map<KeyView, Bar> {
    let tok = tx.token@;
    let t = tx.timestamp;
    let m1 = traded(m, tok, TimeInterval::Second1, t, tx.price, tx.volume);
    let m2 = traded(m1, tok, TimeInterval::Minute1, t, tx.price, tx.volume);
    let m3 = traded(m2, tok, TimeInterval::Minute5, t, tx.price, tx.volume);
    let m4 = traded(m3, tok, TimeInterval::Minute15, t, tx.price, tx.volume);
    traded(m4, tok, TimeInterval::Hour1, t, tx.price, tx.volume)
}

/// Whether `k` belongs to the candle series of `token` under `iv`.
pub open spec fn in_series(k: KeyView, token: Seq<char>, iv: TimeInterval) -> bool {
    k.0 == token && k.1 == iv
}

/// Whether `k` belongs to that series and starts within `[start, end]`.
pub open spec fn in_window(
    k: KeyView,
    token: Seq<char>,
    iv: TimeInterval,
    start: Timestamp,
    end: Timestamp,
) -> bool {
    in_series(k, token, iv) && start.not_after(k.2) && k.2.not_after(end)
}

/// The bucket that a trade falls in under `iv`.
pub open spec fn bucket_key(tx: Transaction, iv: TimeInterval) -> KeyView {
    (tx.token@, iv, tx.timestamp.bucket_of(iv))
}

/// Whether a trade is taken into its bucket under `iv`: the bucket holds no
/// candle yet, or an open one.
pub open spec fn takes(m: Map<KeyView, Bar>, tx: Transaction, iv: TimeInterval) -> bool {
    !(m.contains_key(bucket_key(tx, iv)) && m[bucket_key(tx, iv)].is_closed)
}

/// The bar that a trade leaves in its bucket under `iv` of table `m`: the
/// bucket's bar extended by it, or a bar opened by it.
pub open spec fn taken_bar(m: Map<KeyView, Bar>, tx: Transaction, iv: TimeInterval) -> Bar {
    if m.contains_key(bucket_key(tx, iv)) {
        bar_extended(m[bucket_key(tx, iv)], tx.price, tx.volume)
    } else {
        bar_opened(tx.price, tx.volume)
    }
}

/// Whether `c` is a candle that a trade produced in table `m2`, taken from
/// table `m`: the trade's bucket under `c.interval`, which took the trade,
/// now holding the bar the trade left there.
pub open spec fn emitted(m: Map<KeyView, Bar>, m2: Map<KeyView, Bar>, tx: Transaction, c: KLine) -> bool {
    &&& c.token@ == tx.token@
    &&& c.timestamp == bucket_key(tx, c.interval).2
    &&& takes(m, tx, c.interval)
    &&& m2.contains_key(bucket_key(tx, c.interval))
    &&& c.bar() == m2[bucket_key(tx, c.interval)]
    &&& c.bar() == taken_bar(m, tx, c.interval)
}

/// The position of a granularity in the order in which a trade updates them.
pub open spec fn interval_index(iv: TimeInterval) -> int {
    match iv {
        TimeInterval::Second1 => 0,
        TimeInterval::Minute1 => 1,
        TimeInterval::Minute5 => 2,
        TimeInterval::Minute15 => 3,
        TimeInterval::Hour1 => 4,
    }
}

/// The bucket starts held in `m` for `token` under `iv` within
/// `[start, end]`.
pub open spec fn window(
    m: Map<KeyView, Bar>,
    token: Seq<char>,
    iv: TimeInterval,
    start: Timestamp,
    end: Timestamp,
) -> Set<Timestamp> {
    Set::new(
        |b: Timestamp| m.contains_key((token, iv, b)) && in_window((token, iv, b), token, iv, start, end),
    )
}

/// Whether bucket `k` is held in `m`, belongs to the series of `token` under
/// `iv`, and, when `open_only`, is still open.
pub open spec fn eligible(
    m: Map<KeyView, Bar>,
    k: KeyView,
    token: Seq<char>,
    iv: TimeInterval,
    open_only: bool,
) -> bool {
    m.contains_key(k) && in_series(k, token, iv) && (!open_only || !m[k].is_closed)
}

/// Whether `r` is the eligible candle with the latest bucket start, or
/// `None` where no candle is eligible.
pub open spec fn is_latest(
    m: Map<KeyView, Bar>,
    token: Seq<char>,
    iv: TimeInterval,
    open_only: bool,
    r: Option<KLine>,
) -> bool {
    match r {
        None => forall|k: KeyView|
            #![trigger eligible(m, k, token, iv, open_only)]
            !eligible(m, k, token, iv, open_only),
        Some(kl) => {
            &&& kl.token@ == token
            &&& kl.interval == iv
            &&& eligible(m, (token, iv, kl.timestamp), token, iv, open_only)
            &&& kl.bar() == m[(token, iv, kl.timestamp)]
            &&& forall|k: KeyView|
                #![trigger eligible(m, k, token, iv, open_only)]
                eligible(m, k, token, iv, open_only) ==> k.2.not_after(kl.timestamp)
        },
    }
}

/// The tokens that have at least one candle in `m`.
#[verifier::opaque]
pub open spec fn tokens_of(m: Map<KeyView, Bar>) -> Set<Seq<char>> {
    m.dom().map(|k: KeyView| k.0)
}

/// The token of every held bucket is among the tokens of the table.
pub proof fn lemma_tokens_of(m: Map<KeyView, Bar>, k: KeyView)
    requires
        m.contains_key(k),
    ensures
        tokens_of(m).contains(k.0),
{
    reveal(tokens_of);
    assert(m.dom().contains(k) && k.0 == k.0);
}

/// Whether `r` names each token of `m` exactly once.
pub open spec fn lists_tokens(m: Map<KeyView, Bar>, r: Seq<String>) -> bool {
    &&& forall|i: int| #![trigger r[i]] 0 <= i < r.len() ==> tokens_of(m).contains(r[i]@)
    &&& forall|k: KeyView|
        #![trigger m.contains_key(k)]
        m.contains_key(k) ==> exists|i: int| #![trigger r[i]] 0 <= i < r.len() && r[i]@ == k.0
    &&& forall|i: int, j: int| #![trigger r[i], r[j]] 0 <= i < j < r.len() ==> r[i]@ != r[j]@
}

/// Whether one of `v` holds the characters of `s`.
fn holds_token(v: &Vec<String>, s: &String) -> (r: bool)
    ensures
        r == exists|i: int| #![trigger v@[i]] 0 <= i < v@.len() && v@[i]@ == s@,
{
    let mut i: usize = 0;
    while i < v.len()
        invariant
            0 <= i <= v@.len(),
            forall|j: int| #![trigger v@[j]] 0 <= j < i ==> v@[j]@ != s@,
        decreases v@.len() - i,
    {
        if v[i] == *s {
            return true;
        }
        i = i + 1;
    }
    false
}

/// The candle engine. Its view maps each bucket's identity to its bar.
pub struct KLineService {
    klines: Table,
}

impl View for KLineService {
    type V = Map<KeyView, Bar>;

    closed spec fn view(&self) -> Map<KeyView, Bar> {
        stored(self.klines)
    }
}

impl KLineService {
    /// An engine that holds no candle.
    pub fn new() -> (r: KLineService)
        ensures
            r@.dom() == Set::<KeyView>::empty(),
    {
        KLineService { klines: table_new() }
    }

    /// Takes a trade into its bucket under every granularity.
    pub fn process_transaction(&mut self, transaction: &Transaction)
        ensures
            final(self)@ == after_transaction(old(self)@, *transaction),
    {
        self.update_kline_for_interval(transaction, TimeInterval::Second1);
        self.update_kline_for_interval(transaction, TimeInterval::Minute1);
        self.update_kline_for_interval(transaction, TimeInterval::Minute5);
        self.update_kline_for_interval(transaction, TimeInterval::Minute15);
        self.update_kline_for_interval(transaction, TimeInterval::Hour1);
    }

    /// Takes a trade into its bucket under every granularity, and gives back
    /// the candle that each update produced, in the order of the
    /// granularities. A granularity whose bucket was already closed drops the
    /// trade and gives nothing.
    pub fn submit(&mut self, transaction: &Transaction) -> (r: Vec<KLine>)
        ensures
            final(self)@ == after_transaction(old(self)@, *transaction),
            forall|i: int|
                #![trigger r@[i]]
                0 <= i < r@.len() ==> emitted(old(self)@, final(self)@, *transaction, r@[i]),
            forall|iv: TimeInterval|
                takes(old(self)@, *transaction, iv) ==> exists|i: int|
                    #![trigger r@[i]]
                    0 <= i < r@.len() && r@[i].interval == iv,
            forall|i: int, j: int|
                #![trigger r@[i], r@[j]]
                0 <= i < j < r@.len() ==> r@[i].interval != r@[j].interval,
    {
        let ghost m0 = self@;
        let ivs: Vec<TimeInterval> = vec![
            TimeInterval::Second1,
            TimeInterval::Minute1,
            TimeInterval::Minute5,
            TimeInterval::Minute15,
            TimeInterval::Hour1,
        ];
        assert(forall|j: int| #![trigger ivs@[j]] 0 <= j < 5 ==> interval_index(ivs@[j]) == j);
        let mut taken: Vec<bool> = Vec::new();
        let mut i: usize = 0;
        while i < ivs.len()
            invariant
                0 <= i <= ivs@.len(),
                ivs@.len() == 5,
                self@ == m0,
                taken@.len() == i,
                forall|j: int|
                    #![trigger taken@[j]]
                    0 <= j < i ==> taken@[j] == takes(m0, *transaction, ivs@[j]),
            decreases ivs@.len() - i,
        {
            let t = self.takes_trade(transaction, ivs[i]);
            taken.push(t);
            i = i + 1;
        }
        self.process_transaction(transaction);
        assert forall|iv: TimeInterval|
            #![trigger bucket_key(*transaction, iv)]
            self@.contains_key(bucket_key(*transaction, iv)) && self@[bucket_key(*transaction, iv)]
                == taken_bar(m0, *transaction, iv) by {
            lemma_after_transaction_at(m0, *transaction, iv);
        }
        let mut out: Vec<KLine> = Vec::new();
        let mut i: usize = 0;
        while i < ivs.len()
            invariant
                0 <= i <= ivs@.len(),
                ivs@.len() == 5,
                forall|j: int| #![trigger ivs@[j]] 0 <= j < 5 ==> interval_index(ivs@[j]) == j,
                taken@.len() == 5,
                self@ == after_transaction(m0, *transaction),
                forall|j: int|
                    #![trigger taken@[j]]
                    0 <= j < 5 ==> taken@[j] == takes(m0, *transaction, ivs@[j]),
                forall|iv: TimeInterval|
                    #![trigger bucket_key(*transaction, iv)]
                    self@.contains_key(bucket_key(*transaction, iv)) && self@[bucket_key(
                        *transaction,
                        iv,
                    )] == taken_bar(m0, *transaction, iv),
                forall|t: int|
                    #![trigger out@[t]]
                    0 <= t < out@.len() ==> emitted(m0, self@, *transaction, out@[t])
                        && interval_index(out@[t].interval) < i,
                forall|j: int|
                    #![trigger ivs@[j]]
                    0 <= j < i && taken@[j] ==> exists|t: int|
                        #![trigger out@[t]]
                        0 <= t < out@.len() && out@[t].interval == ivs@[j],
                forall|a: int, b: int|
                    #![trigger out@[a], out@[b]]
                    0 <= a < b < out@.len() ==> out@[a].interval != out@[b].interval,
            decreases ivs@.len() - i,
        {
            let iv = ivs[i];
            let ghost before = out@;
            if taken[i] {
                let kl = self.candle_of(transaction, iv);
                out.push(kl);
                proof {
                    assert(out@[before.len() as int] == kl);
                    assert(bucket_key(*transaction, iv) == (transaction.token@, iv, transaction.timestamp.bucket_of(iv)));
                    assert(emitted(m0, self@, *transaction, kl));
                    assert forall|t: int|
                        #![trigger out@[t]]
                        0 <= t < out@.len() implies emitted(m0, self@, *transaction, out@[t])
                            && interval_index(out@[t].interval) < i + 1 by {
                        if t < before.len() {
                            assert(out@[t] == before[t]);
                        }
                    }
                    assert forall|a: int, b: int|
                        #![trigger out@[a], out@[b]]
                        0 <= a < b < out@.len() implies out@[a].interval != out@[b].interval by {
                        assert(out@[a] == before[a]);
                        if b < before.len() {
                            assert(out@[b] == before[b]);
                        }
                    }
                    assert forall|j: int|
                        #![trigger ivs@[j]]
                        0 <= j < i + 1 && taken@[j] implies exists|t: int|
                            #![trigger out@[t]]
                            0 <= t < out@.len() && out@[t].interval == ivs@[j] by {
                        if j < i {
                            let t = choose|t: int|
                                #![trigger before[t]]
                                0 <= t < before.len() && before[t].interval == ivs@[j];
                            assert(out@[t] == before[t]);
                        } else {
                            assert(out@[before.len() as int].interval == ivs@[j]);
                        }
                    }
                }
            }
            i = i + 1;
        }
        proof {
            assert forall|iv: TimeInterval|
                takes(m0, *transaction, iv) implies exists|t: int|
                    #![trigger out@[t]]
                    0 <= t < out@.len() && out@[t].interval == iv by {
                let j = interval_index(iv);
                assert(ivs@[j] == iv) by {
                    assert(interval_index(ivs@[j]) == j);
                }
                assert(taken@[j]);
            }
        }
        out
    }

    /// Whether a trade would be taken into its bucket under `interval`.
    fn takes_trade(&self, transaction: &Transaction, interval: TimeInterval) -> (r: bool)
        ensures
            r == takes(self@, *transaction, interval),
    {
        let start = transaction.timestamp.bucket_start(interval);
        let key = (transaction.token.clone(), interval, start);
        match table_get(&self.klines, &key) {
            Some(bar) => !bar.is_closed,
            None => true,
        }
    }

    /// The candle held for the trade's bucket under `interval`.
    fn candle_of(&self, transaction: &Transaction, interval: TimeInterval) -> (r: KLine)
        requires
            self@.contains_key((transaction.token@, interval, transaction.timestamp.bucket_of(interval))),
        ensures
            r.token@ == transaction.token@,
            r.interval == interval,
            r.timestamp == transaction.timestamp.bucket_of(interval),
            r.bar() == self@[(transaction.token@, interval, transaction.timestamp.bucket_of(interval))],
    {
        let start = transaction.timestamp.bucket_start(interval);
        let key = (transaction.token.clone(), interval, start);
        let bar = table_get(&self.klines, &key).unwrap();
        KLine::from_bar(transaction.token.clone(), start, interval, bar)
    }

    /// Takes a trade into its bucket under `interval`.
    fn update_kline_for_interval(&mut self, transaction: &Transaction, interval: TimeInterval)
        ensures
            final(self)@ == traded(
                old(self)@,
                transaction.token@,
                interval,
                transaction.timestamp,
                transaction.price,
                transaction.volume,
            ),
    {
        let start = transaction.timestamp.bucket_start(interval);
        self.close_expired_klines(&transaction.token, start, interval);
        let key = (transaction.token.clone(), interval, start);
        match table_get(&self.klines, &key) {
            Some(bar) => {
                let mut b = bar;
                b.extend(transaction.price, transaction.volume);
                table_insert(&mut self.klines, key, b);
            },
            None => {
                table_insert(
                    &mut self.klines,
                    key,
                    Bar::opened(transaction.price, transaction.volume),
                );
            },
        }
    }

    /// The candles of `token` under `interval` whose buckets start within
    /// `[start, end]`, in ascending order of bucket start, cut to the first
    /// `limit` of them when a limit is given.
    pub fn get_klines(
        &self,
        token: &str,
        interval: TimeInterval,
        start: Timestamp,
        end: Timestamp,
        limit: Option<usize>,
    ) -> (r: Vec<KLine>)
        ensures
            forall|i: int|
                #![trigger r@[i]]
                0 <= i < r@.len() ==> r@[i].token@ == token@ && r@[i].interval == interval
                    && in_window((token@, interval, r@[i].timestamp), token@, interval, start, end)
                    && self@.contains_key((token@, interval, r@[i].timestamp))
                    && r@[i].bar() == self@[(token@, interval, r@[i].timestamp)],
            forall|i: int, j: int|
                #![trigger r@[i], r@[j]]
                0 <= i < j < r@.len() ==> r@[i].timestamp.before(r@[j].timestamp),
            limit is Some ==> r@.len() <= limit->0,
            r@.len() == (match limit {
                Some(n) => if n < window(self@, token@, interval, start, end).len() {
                    n as nat
                } else {
                    window(self@, token@, interval, start, end).len()
                },
                None => window(self@, token@, interval, start, end).len(),
            }),
            forall|k: KeyView|
                #![trigger self@.contains_key(k)]
                self@.contains_key(k) && in_window(k, token@, interval, start, end) ==> (exists|
                    i: int,
                |
                    #![trigger r@[i]]
                    0 <= i < r@.len() && r@[i].timestamp == k.2) || (limit is Some && r@.len()
                    == limit->0 && forall|i: int|
                    #![trigger r@[i]]
                    0 <= i < r@.len() ==> r@[i].timestamp.before(k.2)),
    {
        let sel = self.select_window(token, interval, start, end);
        let ghost full = sel@;
        let mut sel = sel;
        if let Some(n) = limit {
            sel.truncate(n);
        }
        proof {
            assert forall|k: KeyView|
                #![trigger self@.contains_key(k)]
                self@.contains_key(k) && in_window(k, token@, interval, start, end) implies (exists|
                    q: int,
                |
                    #![trigger sel@[q]]
                    0 <= q < sel@.len() && sel@[q].0 == k.2) || (limit is Some && sel@.len()
                    == limit->0 && forall|q: int|
                    #![trigger sel@[q]]
                    0 <= q < sel@.len() ==> sel@[q].0.before(k.2)) by {
                let q = choose|q: int| #![trigger full[q]] 0 <= q < full.len() && full[q].0 == k.2;
                if q < sel@.len() {
                    assert(sel@[q] == full[q]);
                } else {
                    assert forall|t: int| #![trigger sel@[t]] 0 <= t < sel@.len() implies sel@[t].0.before(
                        k.2,
                    ) by {
                        assert(sel@[t] == full[t]);
                        assert(full[t].0.before(full[q].0));
                    }
                }
            }
        }
        let mut out: Vec<KLine> = Vec::new();
        let mut i: usize = 0;
        while i < sel.len()
            invariant
                0 <= i <= sel@.len(),
                out@.len() == i,
                forall|t: int|
                    #![trigger out@[t]]
                    0 <= t < i ==> out@[t].token@ == token@ && out@[t].interval == interval
                        && out@[t].timestamp == sel@[t].0 && out@[t].bar() == sel@[t].1,
            decreases sel@.len() - i,
        {
            let (ts, bar) = sel[i];
            let kl = KLine::from_bar(token.to_owned(), ts, interval, bar);
            out.push(kl);
            i = i + 1;
        }
        proof {
            assert forall|k: KeyView|
                #![trigger self@.contains_key(k)]
                self@.contains_key(k) && in_window(k, token@, interval, start, end) implies (exists|
                    t: int,
                |
                    #![trigger out@[t]]
                    0 <= t < out@.len() && out@[t].timestamp == k.2) || (limit is Some
                    && out@.len() == limit->0 && forall|t: int|
                    #![trigger out@[t]]
                    0 <= t < out@.len() ==> out@[t].timestamp.before(k.2)) by {
                if exists|q: int| #![trigger sel@[q]] 0 <= q < sel@.len() && sel@[q].0 == k.2 {
                    let q = choose|q: int| #![trigger sel@[q]] 0 <= q < sel@.len() && sel@[q].0 == k.2;
                    assert(out@[q].timestamp == k.2);
                } else {
                    assert forall|t: int| #![trigger out@[t]] 0 <= t < out@.len() implies out@[t].timestamp.before(
                        k.2,
                    ) by {
                        assert(sel@[t].0.before(k.2));
                    }
                }
            }
            assert forall|a: int, b: int|
                #![trigger out@[a], out@[b]]
                0 <= a < b < out@.len() implies out@[a].timestamp.before(out@[b].timestamp) by {
                assert(sel@[a].0.before(sel@[b].0));
            }
        }
        out
    }

    /// The candle of `token` under `interval` with the latest bucket start,
    /// closed or not; `None` when there is none.
    pub fn get_latest_kline(&self, token: &str, interval: TimeInterval) -> (r: Option<KLine>)
        ensures
            is_latest(self@, token@, interval, false, r),
    {
        self.latest(token, interval, false)
    }

    /// The open candle of `token` under `interval` with the latest bucket
    /// start; `None` when none is open.
    pub fn get_current_kline(&self, token: &str, interval: TimeInterval) -> (r: Option<KLine>)
        ensures
            is_latest(self@, token@, interval, true, r),
    {
        self.latest(token, interval, true)
    }

    fn latest(&self, token: &str, interval: TimeInterval, open_only: bool) -> (r: Option<KLine>)
        ensures
            is_latest(self@, token@, interval, open_only, r),
    {
        let entries = table_entries(&self.klines);
        let ghost m0 = self@;
        let mut best: Option<(Timestamp, Bar)> = None;
        let mut i: usize = 0;
        while i < entries.len()
            invariant
                0 <= i <= entries@.len(),
                m0 == self@,
                forall|j: int|
                    #![trigger entries@[j]]
                    0 <= j < entries@.len() ==> m0.contains_key(key_view(entries@[j].0))
                        && m0[key_view(entries@[j].0)] == entries@[j].1,
                match best {
                    None => forall|j: int|
                        #![trigger entries@[j]]
                        0 <= j < i ==> !eligible(m0, key_view(entries@[j].0), token@, interval, open_only),
                    Some(b) => {
                        &&& eligible(m0, (token@, interval, b.0), token@, interval, open_only)
                        &&& m0[(token@, interval, b.0)] == b.1
                        &&& forall|j: int|
                            #![trigger entries@[j]]
                            0 <= j < i && eligible(m0, key_view(entries@[j].0), token@, interval, open_only)
                                ==> entries@[j].0.2.not_after(b.0)
                    },
                },
            decreases entries@.len() - i,
        {
            let k = &entries[i].0;
            let bar = entries[i].1;
            let ts = k.2;
            if str_eq(k.0.as_str(), token) && k.1 == interval && (!open_only || !bar.is_closed) {
                let take = match best {
                    None => true,
                    Some(b) => b.0.is_before(&ts),
                };
                if take {
                    best = Some((ts, bar));
                }
            }
            i = i + 1;
        }
        proof {
            assert forall|k: KeyView|
                #![trigger eligible(m0, k, token@, interval, open_only)]
                eligible(m0, k, token@, interval, open_only) implies match best {
                    None => false,
                    Some(b) => k.2.not_after(b.0),
                } by {
                let j = choose|j: int| #![trigger entries@[j]] 0 <= j < entries@.len() && key_view(entries@[j].0) == k;
            }
        }
        match best {
            None => None,
            Some(b) => Some(KLine::from_bar(token.to_owned(), b.0, interval, b.1)),
        }
    }

    /// Every token that has at least one candle, each once.
    pub fn get_available_tokens(&self) -> (r: Vec<String>)
        ensures
            lists_tokens(self@, r@),
    {
        let entries = table_entries(&self.klines);
        let ghost m0 = self@;
        let mut out: Vec<String> = Vec::new();
        let ghost mut src: Seq<KeyView> = Seq::empty();
        let mut i: usize = 0;
        while i < entries.len()
            invariant
                0 <= i <= entries@.len(),
                m0 == self@,
                forall|j: int|
                    #![trigger entries@[j]]
                    0 <= j < entries@.len() ==> m0.contains_key(key_view(entries@[j].0))
                        && m0[key_view(entries@[j].0)] == entries@[j].1,
                src.len() == out@.len(),
                forall|t: int|
                    #![trigger src[t]]
                    #![trigger out@[t]]
                    0 <= t < out@.len() ==> m0.contains_key(src[t]) && src[t].0 == out@[t]@,
                forall|j: int|
                    #![trigger entries@[j]]
                    0 <= j < i ==> exists|t: int|
                        #![trigger out@[t]]
                        0 <= t < out@.len() && out@[t]@ == entries@[j].0.0@,
                forall|a: int, b: int|
                    #![trigger out@[a], out@[b]]
                    0 <= a < b < out@.len() ==> out@[a]@ != out@[b]@,
            decreases entries@.len() - i,
        {
            let tok = &entries[i].0.0;
            let ghost before_push = out@;
            if !holds_token(&out, tok) {
                out.push(tok.clone());
                proof {
                    src = src.push(key_view(entries@[i as int].0));
                    assert(m0.contains_key(key_view(entries@[i as int].0)));
                    assert forall|j: int|
                        #![trigger entries@[j]]
                        0 <= j < i ==> exists|t: int|
                            #![trigger out@[t]]
                            0 <= t < out@.len() && out@[t]@ == entries@[j].0.0@ by {
                        if 0 <= j < i {
                            let t = choose|t: int| #![trigger before_push[t]] 0 <= t < before_push.len() && before_push[t]@ == entries@[j].0.0@;
                            assert(out@[t] == before_push[t]);
                        }
                    }
                    assert(out@[before_push.len() as int]@ == entries@[i as int].0.0@);
                    assert forall|t: int|
                        #![trigger out@[t]]
                        0 <= t < out@.len() implies m0.contains_key(src[t]) && src[t].0
                            == out@[t]@ by {
                        if t < before_push.len() {
                            assert(out@[t] == before_push[t]);
                        }
                    }
                    assert forall|a: int, b: int|
                        #![trigger out@[a], out@[b]]
                        0 <= a < b < out@.len() implies out@[a]@ != out@[b]@ by {
                        assert(out@[a] == before_push[a]);
                        if b < before_push.len() {
                            assert(out@[b] == before_push[b]);
                        }
                    }
                }
            }
            i = i + 1;
        }
        assert(lists_tokens(m0, out@)) by {
            assert forall|k: KeyView|
                #![trigger m0.contains_key(k)]
                m0.contains_key(k) implies exists|t: int|
                    #![trigger out@[t]]
                    0 <= t < out@.len() && out@[t]@ == k.0 by {
                let j = choose|j: int|
                    #![trigger entries@[j]]
                    0 <= j < entries@.len() && key_view(entries@[j].0) == k;
                assert(exists|t: int|
                    #![trigger out@[t]]
                    0 <= t < out@.len() && out@[t]@ == entries@[j].0.0@);
            }
            assert forall|t: int|
                #![trigger out@[t]]
                0 <= t < out@.len() implies tokens_of(m0).contains(out@[t]@) by {
                lemma_tokens_of(m0, src[t]);
            }
        }
        out
    }

    /// The (bucket start, bar) pairs of `token` under `interval` whose
    /// buckets start within `[start, end]`, in ascending order of start.
    fn select_window(&self, token: &str, interval: TimeInterval, start: Timestamp, end: Timestamp) -> (r: Vec<(Timestamp, Bar)>)
        ensures
            forall|q: int|
                #![trigger r@[q]]
                0 <= q < r@.len() ==> in_window((token@, interval, r@[q].0), token@, interval, start, end)
                    && self@.contains_key((token@, interval, r@[q].0))
                    && self@[(token@, interval, r@[q].0)] == r@[q].1,
            forall|p: int, q: int|
                #![trigger r@[p], r@[q]]
                0 <= p < q < r@.len() ==> r@[p].0.before(r@[q].0),
            forall|k: KeyView|
                #![trigger self@.contains_key(k)]
                self@.contains_key(k) && in_window(k, token@, interval, start, end) ==> exists|q: int|
                    #![trigger r@[q]]
                    0 <= q < r@.len() && r@[q].0 == k.2,
            window(self@, token@, interval, start, end).finite(),
            r@.len() == window(self@, token@, interval, start, end).len(),
    {
        let entries = table_entries(&self.klines);
        let ghost m0 = self@;
        let mut sel: Vec<(Timestamp, Bar)> = Vec::new();
        let mut i: usize = 0;
        while i < entries.len()
            invariant
                0 <= i <= entries@.len(),
                m0 == self@,
                forall|j: int|
                    #![trigger entries@[j]]
                    0 <= j < entries@.len() ==> m0.contains_key(key_view(entries@[j].0))
                        && m0[key_view(entries@[j].0)] == entries@[j].1,
                forall|j: int, l: int|
                    #![trigger entries@[j], entries@[l]]
                    0 <= j < l < entries@.len() ==> key_view(entries@[j].0) != key_view(
                        entries@[l].0,
                    ),
                forall|q: int|
                    #![trigger sel@[q]]
                    0 <= q < sel@.len() ==> in_window((token@, interval, sel@[q].0), token@, interval, start, end)
                        && m0.contains_key((token@, interval, sel@[q].0))
                        && m0[(token@, interval, sel@[q].0)] == sel@[q].1,
                forall|p: int, q: int|
                    #![trigger sel@[p], sel@[q]]
                    0 <= p < q < sel@.len() ==> sel@[p].0.before(sel@[q].0),
                forall|q: int, j: int|
                    #![trigger sel@[q], entries@[j]]
                    0 <= q < sel@.len() && i <= j < entries@.len() ==> key_view(entries@[j].0)
                        != (token@, interval, sel@[q].0),
                forall|j: int|
                    #![trigger entries@[j]]
                    0 <= j < i && in_window(key_view(entries@[j].0), token@, interval, start, end)
                        ==> exists|q: int|
                        #![trigger sel@[q]]
                        0 <= q < sel@.len() && sel@[q].0 == entries@[j].0.2,
            decreases entries@.len() - i,
        {
            let k = &entries[i].0;
            let bar = entries[i].1;
            let ts = k.2;
            if str_eq(k.0.as_str(), token) && k.1 == interval && start.at_or_before(&ts)
                && ts.at_or_before(&end) {
                let mut p: usize = 0;
                while p < sel.len() && sel[p].0.is_before(&ts)
                    invariant
                        0 <= p <= sel@.len(),
                        forall|q: int| #![trigger sel@[q]] 0 <= q < p ==> sel@[q].0.before(ts),
                    decreases sel@.len() - p,
                {
                    p = p + 1;
                }
                let ghost before_ins = sel@;
                proof {
                    assert(key_view(entries@[i as int].0) == (token@, interval, ts));
                    if p < before_ins.len() {
                        assert(before_ins[p as int].0 != ts);
                        ts.lemma_total(before_ins[p as int].0);
                    }
                }
                sel.insert(p, (ts, bar));
                proof {
                    assert forall|a: int, b: int|
                        #![trigger sel@[a], sel@[b]]
                        0 <= a < b < sel@.len() implies sel@[a].0.before(sel@[b].0) by {
                        if b < p {
                            assert(sel@[a] == before_ins[a]);
                            assert(sel@[b] == before_ins[b]);
                        } else if b == p {
                            assert(sel@[a] == before_ins[a]);
                        } else if a < p {
                            assert(sel@[a] == before_ins[a]);
                            assert(sel@[b] == before_ins[b - 1]);
                        } else if a == p {
                            assert(sel@[b] == before_ins[b - 1]);
                            if b - 1 > p {
                                assert(before_ins[p as int].0.before(before_ins[b - 1].0));
                            }
                        } else {
                            assert(sel@[a] == before_ins[a - 1]);
                            assert(sel@[b] == before_ins[b - 1]);
                        }
                    }
                    assert forall|q: int|
                        #![trigger sel@[q]]
                        0 <= q < sel@.len() implies in_window((token@, interval, sel@[q].0), token@, interval, start, end)
                            && m0.contains_key((token@, interval, sel@[q].0))
                            && m0[(token@, interval, sel@[q].0)] == sel@[q].1 by {
                        if q < p {
                            assert(sel@[q] == before_ins[q]);
                        } else if q > p {
                            assert(sel@[q] == before_ins[q - 1]);
                        }
                    }
                    assert forall|q: int, j: int|
                        #![trigger sel@[q], entries@[j]]
                        0 <= q < sel@.len() && i + 1 <= j < entries@.len() implies key_view(entries@[j].0)
                            != (token@, interval, sel@[q].0) by {
                        if q < p {
                            assert(sel@[q] == before_ins[q]);
                        } else if q > p {
                            assert(sel@[q] == before_ins[q - 1]);
                        } else {
                            assert(key_view(entries@[i as int].0) != key_view(entries@[j].0));
                        }
                    }
                    assert forall|j: int|
                        #![trigger entries@[j]]
                        0 <= j < i + 1 && in_window(key_view(entries@[j].0), token@, interval, start, end)
                            implies exists|q: int|
                            #![trigger sel@[q]]
                            0 <= q < sel@.len() && sel@[q].0 == entries@[j].0.2 by {
                        if j == i {
                            assert(sel@[p as int].0 == ts);
                        } else {
                            let q = choose|q: int|
                                #![trigger before_ins[q]]
                                0 <= q < before_ins.len() && before_ins[q].0 == entries@[j].0.2;
                            if q < p {
                                assert(sel@[q] == before_ins[q]);
                            } else {
                                assert(sel@[q + 1] == before_ins[q]);
                            }
                        }
                    }
                }
            } else {
                proof {
                    assert(!in_window(key_view(entries@[i as int].0), token@, interval, start, end));
                    assert forall|q: int, j: int|
                        #![trigger sel@[q], entries@[j]]
                        0 <= q < sel@.len() && i + 1 <= j < entries@.len() implies key_view(entries@[j].0)
                            != (token@, interval, sel@[q].0) by {
                    }
                }
            }
            i = i + 1;
        }
        proof {
            assert forall|k: KeyView|
                #![trigger self@.contains_key(k)]
                self@.contains_key(k) && in_window(k, token@, interval, start, end) implies exists|q: int|
                    #![trigger sel@[q]]
                    0 <= q < sel@.len() && sel@[q].0 == k.2 by {
                let j = choose|j: int| #![trigger entries@[j]] 0 <= j < entries@.len() && key_view(entries@[j].0) == k;
            }
            let ts = sel@.map_values(|p: (Timestamp, Bar)| p.0);
            let w = window(self@, token@, interval, start, end);
            assert forall|b: Timestamp| ts.to_set().contains(b) == w.contains(b) by {
                if ts.to_set().contains(b) {
                    let q = choose|q: int| 0 <= q < ts.len() && ts[q] == b;
                    assert(sel@[q].0 == b);
                }
                if w.contains(b) {
                    assert(self@.contains_key((token@, interval, b)));
                    let q = choose|q: int| #![trigger sel@[q]] 0 <= q < sel@.len() && sel@[q].0 == b;
                    assert(ts[q] == b);
                }
            }
            assert(ts.to_set() =~= w);
            assert forall|a: int, b: int| 0 <= a < ts.len() && 0 <= b < ts.len() && a != b implies ts[a]
                != ts[b] by {
                if a < b {
                    assert(sel@[a].0.before(sel@[b].0));
                } else {
                    assert(sel@[b].0.before(sel@[a].0));
                }
            }
            ts.unique_seq_to_set();
            vstd::seq_lib::seq_to_set_is_finite(ts);
        }
        sel
    }

    /// Closes every open bucket of `token` under `interval` that ended by
    /// `current_start`.
    fn close_expired_klines(&mut self, token: &String, current_start: Timestamp, interval: TimeInterval)
        ensures
            final(self)@ == swept(old(self)@, token@, interval, current_start),
    {
        let entries = table_entries(&self.klines);
        let ghost m0 = stored(self.klines);
        let d = interval.duration_seconds() as i64;
        let now_secs = current_start.secs();
        let mut i: usize = 0;
        while i < entries.len()
            invariant
                0 <= i <= entries@.len(),
                d == interval_seconds(interval),
                now_secs == current_start.unix_secs(),
                forall|j: int|
                    #![trigger entries@[j]]
                    0 <= j < entries@.len() ==> m0.contains_key(key_view(entries@[j].0))
                        && m0[key_view(entries@[j].0)] == entries@[j].1,
                forall|j: int, l: int|
                    #![trigger entries@[j], entries@[l]]
                    0 <= j < l < entries@.len() ==> key_view(entries@[j].0) != key_view(
                        entries@[l].0,
                    ),
                self@.dom() == m0.dom(),
                forall|j: int|
                    0 <= j < i ==> #[trigger] self@[key_view(entries@[j].0)] == swept(
                        m0,
                        token@,
                        interval,
                        current_start,
                    )[key_view(entries@[j].0)],
                forall|j: int|
                    i <= j < entries@.len() ==> #[trigger] self@[key_view(entries@[j].0)]
                        == m0[key_view(entries@[j].0)],
            decreases entries@.len() - i,
        {
            let k = &entries[i].0;
            let bar = entries[i].1;
            let ghost kv = key_view(*k);
            let ks = k.2.secs();
            if k.0 == *token && k.1 == interval && ks + d <= now_secs && !bar.is_closed {
                let mut b = bar;
                b.is_closed = true;
                let key = (k.0.clone(), k.1, k.2);
                table_insert(&mut self.klines, key, b);
            }
            proof {
                assert forall|j: int| 0 <= j < entries@.len() && j != i implies key_view(
                    entries@[j].0,
                ) != kv by {
                    if j < i {
                        assert(key_view(entries@[j].0) != key_view(entries@[i as int].0));
                    } else {
                        assert(key_view(entries@[i as int].0) != key_view(entries@[j].0));
                    }
                }
            }
            i = i + 1;
        }
        proof {
            let target = swept(m0, token@, interval, current_start);
            assert forall|k: KeyView| #[trigger] self@.contains_key(k) implies self@[k]
                == target[k] by {
                assert(m0.contains_key(k));
                let j = choose|j: int| 0 <= j < entries@.len() && key_view(entries@[j].0) == k;
                assert(self@[key_view(entries@[j].0)] == target[key_view(entries@[j].0)]);
            }
            assert(self@ =~= target);
        }
    }
}

impl Default for KLineService {
    fn default() -> (r: KLineService)
        ensures
            r@.dom() == Set::<KeyView>::empty(),
    {
        KLineService::new()
    }
}

} // verus!
