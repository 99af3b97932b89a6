//! Laws over a whole stream of trades, stated over the engine's model of
//! one trade: which candles exist, which are closed, and what each records.

use vstd::prelude::*;

use crate::kline::{
    bar_after, bar_extended, bar_opened, lemma_ohlc, max_price, min_price, volume_sum, Bar,
};
use crate::service::{after_transaction, expired, swept, traded};
use crate::store::KeyView;
use crate::time_interval::{
    interval_seconds, lemma_bucket_monotonic, TimeInterval, Timestamp, MAX_SECS, MIN_SECS,
};
use crate::transaction::Transaction;

verus! {

/// The table after each trade of `txs`, first to last.
pub open spec fn after_all(m: Map<KeyView, Bar>, txs: Seq<Transaction>) -> Map<KeyView, Bar>
    decreases txs.len(),
{
    if txs.len() == 0 {
        m
    } else {
        after_transaction(after_all(m, txs.drop_last()), txs.last())
    }
}

/// The bucket starts of `token` under `iv` that some trade of `txs` falls in.
pub open spec fn touched(txs: Seq<Transaction>, token: Seq<char>, iv: TimeInterval) -> Set<Timestamp> {
    Set::new(
        |b: Timestamp|
            exists|i: int|
                #![trigger txs[i]]
                0 <= i < txs.len() && txs[i].token@ == token && txs[i].timestamp.bucket_of(iv) == b,
    )
}

/// Whether some trade of `token` in `txs` falls in a bucket under `iv` that
/// starts at or after the end of the bucket starting at `b`.
pub open spec fn passed(txs: Seq<Transaction>, token: Seq<char>, iv: TimeInterval, b: Timestamp) -> bool {
    exists|i: int|
        #![trigger txs[i]]
        0 <= i < txs.len() && txs[i].token@ == token && b.unix_secs() + interval_seconds(iv)
            <= txs[i].timestamp.bucket_of(iv).unix_secs()
}

/// The bucket starts held in `m` for `token` under `iv`.
pub open spec fn series_keys(m: Map<KeyView, Bar>, token: Seq<char>, iv: TimeInterval) -> Set<
    Timestamp,
> {
    Set::new(|b: Timestamp| m.contains_key((token, iv, b)))
}

/// Whether `m1` and `m2` agree on every bucket of `token` under `iv`.
pub open spec fn same_series(
    m1: Map<KeyView, Bar>,
    m2: Map<KeyView, Bar>,
    token: Seq<char>,
    iv: TimeInterval,
) -> bool {
    forall|b: Timestamp|
        #![trigger m1.contains_key((token, iv, b))]
        #![trigger m2.contains_key((token, iv, b))]
        (m1.contains_key((token, iv, b)) <==> m2.contains_key((token, iv, b))) && (m1.contains_key(
            (token, iv, b),
        ) ==> m1[(token, iv, b)] == m2[(token, iv, b)])
}

proof fn lemma_same_series_trans(
    m1: Map<KeyView, Bar>,
    m2: Map<KeyView, Bar>,
    m3: Map<KeyView, Bar>,
    token: Seq<char>,
    iv: TimeInterval,
)
    requires
        same_series(m1, m2, token, iv),
        same_series(m2, m3, token, iv),
    ensures
        same_series(m1, m3, token, iv),
{
    assert forall|b: Timestamp|
        #![trigger m1.contains_key((token, iv, b))]
        #![trigger m3.contains_key((token, iv, b))]
        (m1.contains_key((token, iv, b)) <==> m3.contains_key((token, iv, b))) && (m1.contains_key(
            (token, iv, b),
        ) ==> m1[(token, iv, b)] == m3[(token, iv, b)]) by {
        assert(m2.contains_key((token, iv, b)) == m1.contains_key((token, iv, b)));
    }
}

/// A trade of another token, or under another granularity, leaves the
/// series of `token` under `iv` as it is.
proof fn lemma_traded_frame(
    m: Map<KeyView, Bar>,
    tok2: Seq<char>,
    iv2: TimeInterval,
    t: Timestamp,
    price: i64,
    volume: i64,
    token: Seq<char>,
    iv: TimeInterval,
)
    requires
        tok2 != token || iv2 != iv,
    ensures
        same_series(traded(m, tok2, iv2, t, price, volume), m, token, iv),
{
    let start = t.bucket_of(iv2);
    let s = swept(m, tok2, iv2, start);
    let r = traded(m, tok2, iv2, t, price, volume);
    assert forall|b: Timestamp|
        #![trigger r.contains_key((token, iv, b))]
        #![trigger m.contains_key((token, iv, b))]
        (r.contains_key((token, iv, b)) <==> m.contains_key((token, iv, b))) && (r.contains_key(
            (token, iv, b),
        ) ==> r[(token, iv, b)] == m[(token, iv, b)]) by {
        let k = (token, iv, b);
        assert(!expired(k, tok2, iv2, start));
        assert(k != (tok2, iv2, start));
        assert(s.contains_key(k) == m.contains_key(k));
    }
}

/// The series of `token` under `iv` after a trade under `iv` depends on
/// that series alone.
proof fn lemma_traded_congruent(
    m1: Map<KeyView, Bar>,
    m2: Map<KeyView, Bar>,
    tok: Seq<char>,
    iv: TimeInterval,
    t: Timestamp,
    price: i64,
    volume: i64,
    token: Seq<char>,
)
    requires
        same_series(m1, m2, token, iv),
    ensures
        same_series(traded(m1, tok, iv, t, price, volume), traded(m2, tok, iv, t, price, volume), token, iv),
{
    if tok != token {
        lemma_traded_frame(m1, tok, iv, t, price, volume, token, iv);
        lemma_traded_frame(m2, tok, iv, t, price, volume, token, iv);
        lemma_same_series_trans(traded(m1, tok, iv, t, price, volume), m1, m2, token, iv);
        assert forall|b: Timestamp|
            #![trigger m2.contains_key((token, iv, b))]
            #![trigger traded(m2, tok, iv, t, price, volume).contains_key((token, iv, b))]
            (m2.contains_key((token, iv, b)) <==> traded(m2, tok, iv, t, price, volume).contains_key((token, iv, b)))
            && (m2.contains_key((token, iv, b)) ==> m2[(token, iv, b)] == traded(m2, tok, iv, t, price, volume)[(token, iv, b)]) by {
        }
        lemma_same_series_trans(
            traded(m1, tok, iv, t, price, volume),
            m2,
            traded(m2, tok, iv, t, price, volume),
            token,
            iv,
        );
    } else {
        let start = t.bucket_of(iv);
        let s1 = swept(m1, tok, iv, start);
        let s2 = swept(m2, tok, iv, start);
        let r1 = traded(m1, tok, iv, t, price, volume);
        let r2 = traded(m2, tok, iv, t, price, volume);
        assert(m1.contains_key((token, iv, start)) == m2.contains_key((token, iv, start)));
        assert forall|b: Timestamp|
            #![trigger r1.contains_key((token, iv, b))]
            #![trigger r2.contains_key((token, iv, b))]
            (r1.contains_key((token, iv, b)) <==> r2.contains_key((token, iv, b))) && (r1.contains_key(
                (token, iv, b),
            ) ==> r1[(token, iv, b)] == r2[(token, iv, b)]) by {
            assert(m1.contains_key((token, iv, b)) == m2.contains_key((token, iv, b)));
        }
    }
}

/// A step under another granularity keeps a series that agreed with
/// `target` in agreement with it.
proof fn lemma_step_frame(
    a: Map<KeyView, Bar>,
    tok: Seq<char>,
    iv2: TimeInterval,
    t: Timestamp,
    price: i64,
    volume: i64,
    target: Map<KeyView, Bar>,
    token: Seq<char>,
    iv: TimeInterval,
)
    requires
        iv2 != iv,
        same_series(a, target, token, iv),
    ensures
        same_series(traded(a, tok, iv2, t, price, volume), target, token, iv),
{
    lemma_traded_frame(a, tok, iv2, t, price, volume, token, iv);
    lemma_same_series_trans(traded(a, tok, iv2, t, price, volume), a, target, token, iv);
}

/// Of a whole trade, the series of its token under `iv` sees only the step
/// under `iv`.
proof fn lemma_after_transaction_series(m: Map<KeyView, Bar>, tx: Transaction, token: Seq<char>, iv: TimeInterval)
    ensures
        same_series(
            after_transaction(m, tx),
            traded(m, tx.token@, iv, tx.timestamp, tx.price, tx.volume),
            token,
            iv,
        ),
{
    let tok = tx.token@;
    let t = tx.timestamp;
    let p = tx.price;
    let v = tx.volume;
    let m1 = traded(m, tok, TimeInterval::Second1, t, p, v);
    let m2 = traded(m1, tok, TimeInterval::Minute1, t, p, v);
    let m3 = traded(m2, tok, TimeInterval::Minute5, t, p, v);
    let m4 = traded(m3, tok, TimeInterval::Minute15, t, p, v);
    let m5 = traded(m4, tok, TimeInterval::Hour1, t, p, v);
    assert(m5 == after_transaction(m, tx));
    let goal = traded(m, tok, iv, t, p, v);
    assert(same_series(m, m, token, iv));
    match iv {
        TimeInterval::Second1 => {
            lemma_traded_congruent(m, m, tok, iv, t, p, v, token);
            lemma_step_frame(m1, tok, TimeInterval::Minute1, t, p, v, goal, token, iv);
            lemma_step_frame(m2, tok, TimeInterval::Minute5, t, p, v, goal, token, iv);
            lemma_step_frame(m3, tok, TimeInterval::Minute15, t, p, v, goal, token, iv);
            lemma_step_frame(m4, tok, TimeInterval::Hour1, t, p, v, goal, token, iv);
        },
        TimeInterval::Minute1 => {
            lemma_step_frame(m, tok, TimeInterval::Second1, t, p, v, m, token, iv);
            lemma_traded_congruent(m1, m, tok, iv, t, p, v, token);
            lemma_step_frame(m2, tok, TimeInterval::Minute5, t, p, v, goal, token, iv);
            lemma_step_frame(m3, tok, TimeInterval::Minute15, t, p, v, goal, token, iv);
            lemma_step_frame(m4, tok, TimeInterval::Hour1, t, p, v, goal, token, iv);
        },
        TimeInterval::Minute5 => {
            lemma_step_frame(m, tok, TimeInterval::Second1, t, p, v, m, token, iv);
            lemma_step_frame(m1, tok, TimeInterval::Minute1, t, p, v, m, token, iv);
            lemma_traded_congruent(m2, m, tok, iv, t, p, v, token);
            lemma_step_frame(m3, tok, TimeInterval::Minute15, t, p, v, goal, token, iv);
            lemma_step_frame(m4, tok, TimeInterval::Hour1, t, p, v, goal, token, iv);
        },
        TimeInterval::Minute15 => {
            lemma_step_frame(m, tok, TimeInterval::Second1, t, p, v, m, token, iv);
            lemma_step_frame(m1, tok, TimeInterval::Minute1, t, p, v, m, token, iv);
            lemma_step_frame(m2, tok, TimeInterval::Minute5, t, p, v, m, token, iv);
            lemma_traded_congruent(m3, m, tok, iv, t, p, v, token);
            lemma_step_frame(m4, tok, TimeInterval::Hour1, t, p, v, goal, token, iv);
        },
        TimeInterval::Hour1 => {
            lemma_step_frame(m, tok, TimeInterval::Second1, t, p, v, m, token, iv);
            lemma_step_frame(m1, tok, TimeInterval::Minute1, t, p, v, m, token, iv);
            lemma_step_frame(m2, tok, TimeInterval::Minute5, t, p, v, m, token, iv);
            lemma_step_frame(m3, tok, TimeInterval::Minute15, t, p, v, m, token, iv);
            lemma_traded_congruent(m4, m, tok, iv, t, p, v, token);
        },
    }
}

/// Lazy closing. Take any trades in time order, from an empty engine, and
/// look at one token under one granularity: it has exactly one candle for
/// each bucket that a trade of that token touched, and a candle is closed
/// exactly when a trade of that token landed in a bucket starting at or
/// after the candle's bucket end.
pub proof fn lemma_lazy_closing(txs: Seq<Transaction>, token: Seq<char>, iv: TimeInterval)
    requires
        forall|i: int|
            #![trigger txs[i]]
            0 <= i < txs.len() ==> MIN_SECS <= txs[i].timestamp.unix_secs() <= MAX_SECS,
        forall|i: int, j: int|
            #![trigger txs[i], txs[j]]
            0 <= i < j < txs.len() ==> txs[i].timestamp.not_after(txs[j].timestamp),
    ensures
        series_keys(after_all(Map::empty(), txs), token, iv) == touched(txs, token, iv),
        forall|b: Timestamp|
            #![trigger after_all(Map::empty(), txs).contains_key((token, iv, b))]
            after_all(Map::empty(), txs).contains_key((token, iv, b)) ==> (after_all(
                Map::empty(),
                txs,
            )[(token, iv, b)].is_closed <==> passed(txs, token, iv, b)),
    decreases txs.len(),
{
    let m = after_all(Map::empty(), txs);
    if txs.len() == 0 {
        assert(series_keys(m, token, iv) =~= touched(txs, token, iv));
        return;
    }
    let p = txs.drop_last();
    let tx = txs.last();
    let n = p.len() as int;
    assert(tx == txs[n]);
    assert forall|i: int| #![trigger p[i]] 0 <= i < p.len() implies p[i] == txs[i] by {}
    assert forall|i: int|
        #![trigger p[i]]
        0 <= i < p.len() implies MIN_SECS <= p[i].timestamp.unix_secs() <= MAX_SECS by {
        assert(p[i] == txs[i]);
    }
    assert forall|i: int, j: int|
        #![trigger p[i], p[j]]
        0 <= i < j < p.len() implies p[i].timestamp.not_after(p[j].timestamp) by {
        assert(p[i] == txs[i]);
        assert(p[j] == txs[j]);
    }
    lemma_lazy_closing(p, token, iv);
    let mp = after_all(Map::empty(), p);
    assert(m == after_transaction(mp, tx));
    lemma_after_transaction_series(mp, tx, token, iv);
    let r = traded(mp, tx.token@, iv, tx.timestamp, tx.price, tx.volume);
    let d = interval_seconds(iv);
    if tx.token@ != token {
        lemma_traded_frame(mp, tx.token@, iv, tx.timestamp, tx.price, tx.volume, token, iv);
        lemma_same_series_trans(m, r, mp, token, iv);
        assert forall|b: Timestamp| #![trigger touched(txs, token, iv).contains(b)]
            touched(txs, token, iv).contains(b) == touched(p, token, iv).contains(b) by {
            if touched(txs, token, iv).contains(b) {
                let i = choose|i: int|
                    #![trigger txs[i]]
                    0 <= i < txs.len() && txs[i].token@ == token && txs[i].timestamp.bucket_of(iv) == b;
                assert(i != n);
                assert(p[i] == txs[i]);
            }
            if touched(p, token, iv).contains(b) {
                let i = choose|i: int|
                    #![trigger p[i]]
                    0 <= i < p.len() && p[i].token@ == token && p[i].timestamp.bucket_of(iv) == b;
                assert(p[i] == txs[i]);
            }
        }
        assert(series_keys(m, token, iv) =~= touched(txs, token, iv)) by {
            assert forall|b: Timestamp| series_keys(m, token, iv).contains(b) == touched(txs, token, iv).contains(b) by {
                assert(m.contains_key((token, iv, b)) == mp.contains_key((token, iv, b)));
                assert(series_keys(mp, token, iv).contains(b) == touched(p, token, iv).contains(b));
            }
        }
        assert forall|b: Timestamp|
            #![trigger m.contains_key((token, iv, b))]
            m.contains_key((token, iv, b)) implies (m[(token, iv, b)].is_closed <==> passed(txs, token, iv, b)) by {
            assert(mp.contains_key((token, iv, b)));
            assert(m[(token, iv, b)] == mp[(token, iv, b)]);
            if passed(txs, token, iv, b) {
                let i = choose|i: int|
                    #![trigger txs[i]]
                    0 <= i < txs.len() && txs[i].token@ == token && b.unix_secs() + d
                        <= txs[i].timestamp.bucket_of(iv).unix_secs();
                assert(i != n);
                assert(p[i] == txs[i]);
            }
            if passed(p, token, iv, b) {
                let i = choose|i: int|
                    #![trigger p[i]]
                    0 <= i < p.len() && p[i].token@ == token && b.unix_secs() + d
                        <= p[i].timestamp.bucket_of(iv).unix_secs();
                assert(p[i] == txs[i]);
            }
        }
    } else {
        let start = tx.timestamp.bucket_of(iv);
        let sw = swept(mp, token, iv, start);
        tx.timestamp.lemma_bucket_of(iv);
        assert forall|i: int|
            #![trigger p[i]]
            0 <= i < p.len() implies p[i].timestamp.bucket_of(iv).unix_secs() <= start.unix_secs() by {
            assert(p[i] == txs[i]);
            assert(txs[i].timestamp.not_after(txs[n].timestamp));
            p[i].timestamp.lemma_bucket_of(iv);
            lemma_bucket_monotonic(p[i].timestamp.unix_secs(), tx.timestamp.unix_secs(), iv);
        }
        // No earlier trade passed the bucket of the last one.
        assert(!passed(p, token, iv, start)) by {
            if passed(p, token, iv, start) {
                let i = choose|i: int|
                    #![trigger p[i]]
                    0 <= i < p.len() && p[i].token@ == token && start.unix_secs() + d
                        <= p[i].timestamp.bucket_of(iv).unix_secs();
            }
        }
        assert(!passed(txs, token, iv, start)) by {
            if passed(txs, token, iv, start) {
                let i = choose|i: int|
                    #![trigger txs[i]]
                    0 <= i < txs.len() && txs[i].token@ == token && start.unix_secs() + d
                        <= txs[i].timestamp.bucket_of(iv).unix_secs();
                if i < n {
                    assert(p[i] == txs[i]);
                }
            }
        }
        assert forall|b: Timestamp| #![trigger touched(txs, token, iv).contains(b)]
            touched(txs, token, iv).contains(b) == (touched(p, token, iv).contains(b) || b == start) by {
            if touched(txs, token, iv).contains(b) {
                let i = choose|i: int|
                    #![trigger txs[i]]
                    0 <= i < txs.len() && txs[i].token@ == token && txs[i].timestamp.bucket_of(iv) == b;
                if i < n {
                    assert(p[i] == txs[i]);
                }
            }
            if touched(p, token, iv).contains(b) {
                let i = choose|i: int|
                    #![trigger p[i]]
                    0 <= i < p.len() && p[i].token@ == token && p[i].timestamp.bucket_of(iv) == b;
                assert(p[i] == txs[i]);
            }
            if b == start {
                assert(txs[n].token@ == token && txs[n].timestamp.bucket_of(iv) == b);
            }
        }
        assert(series_keys(m, token, iv) =~= touched(txs, token, iv)) by {
            assert forall|b: Timestamp| series_keys(m, token, iv).contains(b) == touched(txs, token, iv).contains(b) by {
                assert(m.contains_key((token, iv, b)) == r.contains_key((token, iv, b)));
                assert(series_keys(mp, token, iv).contains(b) == touched(p, token, iv).contains(b));
                assert(sw.contains_key((token, iv, b)) == mp.contains_key((token, iv, b)));
            }
        }
        assert forall|b: Timestamp|
            #![trigger m.contains_key((token, iv, b))]
            m.contains_key((token, iv, b)) implies (m[(token, iv, b)].is_closed <==> passed(txs, token, iv, b)) by {
            let k = (token, iv, b);
            assert(r.contains_key(k));
            assert(m[k] == r[k]);
            if b == start {
                assert(!expired(k, token, iv, start));
                if mp.contains_key(k) {
                    assert(!mp[k].is_closed);
                    assert(sw[k] == mp[k]);
                }
            } else {
                assert(mp.contains_key(k));
                assert(r[k] == sw[k]);
                if passed(txs, token, iv, b) {
                    let i = choose|i: int|
                        #![trigger txs[i]]
                        0 <= i < txs.len() && txs[i].token@ == token && b.unix_secs() + d
                            <= txs[i].timestamp.bucket_of(iv).unix_secs();
                    if i < n {
                        assert(p[i] == txs[i]);
                        assert(passed(p, token, iv, b));
                    } else {
                        assert(expired(k, token, iv, start));
                    }
                }
                if passed(p, token, iv, b) {
                    let i = choose|i: int|
                        #![trigger p[i]]
                        0 <= i < p.len() && p[i].token@ == token && b.unix_secs() + d
                            <= p[i].timestamp.bucket_of(iv).unix_secs();
                    assert(p[i] == txs[i]);
                }
                if expired(k, token, iv, start) {
                    assert(txs[n].token@ == token && b.unix_secs() + d <= txs[n].timestamp.bucket_of(iv).unix_secs());
                }
            }
        }
    }
}


/// The next bucket closes the previous one. Take any table holding the
/// candle of a token at bucket `b1` under `iv`, and a trade of that token
/// whose bucket starts where `b1` ends and holds no candle yet: afterwards
/// the candle at `b1` is closed, and the trade's bucket holds a new candle
/// opened at the trade's price and volume.
pub proof fn lemma_next_bucket(m: Map<KeyView, Bar>, tx: Transaction, iv: TimeInterval, b1: Timestamp)
    requires
        m.contains_key((tx.token@, iv, b1)),
        tx.timestamp.bucket_of(iv).unix_secs() == b1.unix_secs() + interval_seconds(iv),
        !m.contains_key((tx.token@, iv, tx.timestamp.bucket_of(iv))),
    ensures
        after_transaction(m, tx).contains_key((tx.token@, iv, b1)),
        after_transaction(m, tx)[(tx.token@, iv, b1)].is_closed,
        after_transaction(m, tx).contains_key((tx.token@, iv, tx.timestamp.bucket_of(iv))),
        after_transaction(m, tx)[(tx.token@, iv, tx.timestamp.bucket_of(iv))] == bar_opened(
            tx.price,
            tx.volume,
        ),
{
    let tok = tx.token@;
    let start = tx.timestamp.bucket_of(iv);
    let m2 = after_transaction(m, tx);
    let r = traded(m, tok, iv, tx.timestamp, tx.price, tx.volume);
    let sw = swept(m, tok, iv, start);
    lemma_after_transaction_series(m, tx, tok, iv);
    assert(start != b1);
    assert(expired((tok, iv, b1), tok, iv, start));
    assert(!sw.contains_key((tok, iv, start)));
    assert(r.contains_key((tok, iv, b1)));
    assert(m2.contains_key((tok, iv, b1)) == r.contains_key((tok, iv, b1)));
    assert(r.contains_key((tok, iv, start)));
    assert(m2.contains_key((tok, iv, start)) == r.contains_key((tok, iv, start)));
}

/// The trades `(price, volume)` of `txs` that fall, for `token` under `iv`,
/// in the bucket starting at `b`, in arrival order.
pub open spec fn bucket_trades(txs: Seq<Transaction>, token: Seq<char>, iv: TimeInterval, b: Timestamp) -> Seq<
    (i64, i64),
>
    decreases txs.len(),
{
    if txs.len() == 0 {
        Seq::empty()
    } else {
        let earlier = bucket_trades(txs.drop_last(), token, iv, b);
        let t = txs.last();
        if t.token@ == token && t.timestamp.bucket_of(iv) == b {
            earlier.push((t.price, t.volume))
        } else {
            earlier
        }
    }
}

/// A bucket's bar built from its trades is never closed.
proof fn lemma_bar_after_open(trades: Seq<(i64, i64)>)
    requires
        trades.len() > 0,
    ensures
        !bar_after(trades).is_closed,
    decreases trades.len(),
{
    if trades.len() > 1 {
        lemma_bar_after_open(trades.drop_last());
    }
}

/// From an empty engine and trades in time order, every stored candle of
/// `token` under `iv` is, but for its closed flag, the bar built from the
/// trades of its bucket in arrival order; a bucket with no candle had no
/// trade.
pub proof fn lemma_stored_bars(txs: Seq<Transaction>, token: Seq<char>, iv: TimeInterval)
    requires
        forall|i: int|
            #![trigger txs[i]]
            0 <= i < txs.len() ==> MIN_SECS <= txs[i].timestamp.unix_secs() <= MAX_SECS,
        forall|i: int, j: int|
            #![trigger txs[i], txs[j]]
            0 <= i < j < txs.len() ==> txs[i].timestamp.not_after(txs[j].timestamp),
    ensures
        forall|b: Timestamp|
            #![trigger after_all(Map::empty(), txs).contains_key((token, iv, b))]
            after_all(Map::empty(), txs).contains_key((token, iv, b)) ==> bucket_trades(
                txs,
                token,
                iv,
                b,
            ).len() > 0 && (Bar { is_closed: false, ..after_all(Map::empty(), txs)[(token, iv, b)] })
                == bar_after(bucket_trades(txs, token, iv, b)),
        forall|b: Timestamp|
            #![trigger bucket_trades(txs, token, iv, b)]
            !after_all(Map::empty(), txs).contains_key((token, iv, b)) ==> bucket_trades(
                txs,
                token,
                iv,
                b,
            ).len() == 0,
    decreases txs.len(),
{
    let m = after_all(Map::empty(), txs);
    if txs.len() == 0 {
        return;
    }
    let p = txs.drop_last();
    let tx = txs.last();
    let n = p.len() as int;
    assert(tx == txs[n]);
    assert forall|i: int| #![trigger p[i]] 0 <= i < p.len() implies p[i] == txs[i] by {}
    assert forall|i: int|
        #![trigger p[i]]
        0 <= i < p.len() implies MIN_SECS <= p[i].timestamp.unix_secs() <= MAX_SECS by {
        assert(p[i] == txs[i]);
    }
    assert forall|i: int, j: int|
        #![trigger p[i], p[j]]
        0 <= i < j < p.len() implies p[i].timestamp.not_after(p[j].timestamp) by {
        assert(p[i] == txs[i]);
        assert(p[j] == txs[j]);
    }
    lemma_stored_bars(p, token, iv);
    lemma_lazy_closing(p, token, iv);
    let mp = after_all(Map::empty(), p);
    assert(m == after_transaction(mp, tx));
    lemma_after_transaction_series(mp, tx, token, iv);
    let r = traded(mp, tx.token@, iv, tx.timestamp, tx.price, tx.volume);
    let d = interval_seconds(iv);
    if tx.token@ != token {
        lemma_traded_frame(mp, tx.token@, iv, tx.timestamp, tx.price, tx.volume, token, iv);
        lemma_same_series_trans(m, r, mp, token, iv);
        assert forall|b: Timestamp|
            #![trigger m.contains_key((token, iv, b))]
            m.contains_key((token, iv, b)) implies bucket_trades(txs, token, iv, b).len() > 0
                && (Bar { is_closed: false, ..m[(token, iv, b)] }) == bar_after(
                bucket_trades(txs, token, iv, b),
            ) by {
            assert(bucket_trades(txs, token, iv, b) == bucket_trades(p, token, iv, b));
            assert(mp.contains_key((token, iv, b)));
        }
        assert forall|b: Timestamp|
            #![trigger bucket_trades(txs, token, iv, b)]
            !m.contains_key((token, iv, b)) implies bucket_trades(txs, token, iv, b).len() == 0 by {
            assert(bucket_trades(txs, token, iv, b) == bucket_trades(p, token, iv, b));
            assert(!mp.contains_key((token, iv, b)));
        }
    } else {
        let start = tx.timestamp.bucket_of(iv);
        let sw = swept(mp, token, iv, start);
        tx.timestamp.lemma_bucket_of(iv);
        assert forall|i: int|
            #![trigger p[i]]
            0 <= i < p.len() implies p[i].timestamp.bucket_of(iv).unix_secs() <= start.unix_secs() by {
            assert(p[i] == txs[i]);
            assert(txs[i].timestamp.not_after(txs[n].timestamp));
            p[i].timestamp.lemma_bucket_of(iv);
            lemma_bucket_monotonic(p[i].timestamp.unix_secs(), tx.timestamp.unix_secs(), iv);
        }
        assert(!passed(p, token, iv, start)) by {
            if passed(p, token, iv, start) {
                let i = choose|i: int|
                    #![trigger p[i]]
                    0 <= i < p.len() && p[i].token@ == token && start.unix_secs() + d
                        <= p[i].timestamp.bucket_of(iv).unix_secs();
            }
        }
        assert forall|b: Timestamp|
            #![trigger m.contains_key((token, iv, b))]
            m.contains_key((token, iv, b)) implies bucket_trades(txs, token, iv, b).len() > 0
                && (Bar { is_closed: false, ..m[(token, iv, b)] }) == bar_after(
                bucket_trades(txs, token, iv, b),
            ) by {
            let k = (token, iv, b);
            assert(r.contains_key(k));
            assert(m[k] == r[k]);
            if b == start {
                let h = bucket_trades(p, token, iv, b);
                assert(bucket_trades(txs, token, iv, b) == h.push((tx.price, tx.volume)));
                assert(!expired(k, token, iv, start));
                if mp.contains_key(k) {
                    assert(!mp[k].is_closed);
                    assert(sw[k] == mp[k]);
                    assert(h.push((tx.price, tx.volume)).drop_last() =~= h);
                    lemma_bar_after_open(h);
                } else {
                    assert(bucket_trades(p, token, iv, b).len() == 0);
                    assert(h.push((tx.price, tx.volume)) =~= seq![(tx.price, tx.volume)]);
                }
            } else {
                assert(bucket_trades(txs, token, iv, b) == bucket_trades(p, token, iv, b));
                assert(mp.contains_key(k));
                assert(r[k] == sw[k]);
            }
        }
        assert forall|b: Timestamp|
            #![trigger bucket_trades(txs, token, iv, b)]
            !m.contains_key((token, iv, b)) implies bucket_trades(txs, token, iv, b).len() == 0 by {
            let k = (token, iv, b);
            assert(!r.contains_key(k));
            assert(b != start);
            assert(bucket_trades(txs, token, iv, b) == bucket_trades(p, token, iv, b));
            assert(!mp.contains_key(k));
        }
    }
}

/// OHLC correctness of the engine. From an empty engine and trades in time
/// order, the candle of any bucket opens at the first price of its trades,
/// closes at the last, and records their highest and lowest price and the
/// sum of their volumes. Volumes are fixed-width, so every running total of
/// the bucket's volumes must fit in `i64`.
pub proof fn lemma_stored_ohlc(txs: Seq<Transaction>, token: Seq<char>, iv: TimeInterval, b: Timestamp)
    requires
        forall|i: int|
            #![trigger txs[i]]
            0 <= i < txs.len() ==> MIN_SECS <= txs[i].timestamp.unix_secs() <= MAX_SECS,
        forall|i: int, j: int|
            #![trigger txs[i], txs[j]]
            0 <= i < j < txs.len() ==> txs[i].timestamp.not_after(txs[j].timestamp),
        after_all(Map::empty(), txs).contains_key((token, iv, b)),
        forall|k: int|
            #![trigger bucket_trades(txs, token, iv, b).subrange(0, k)]
            1 <= k <= bucket_trades(txs, token, iv, b).len() ==> i64::MIN <= volume_sum(
                bucket_trades(txs, token, iv, b).subrange(0, k),
            ) <= i64::MAX,
    ensures
        ({
            let c = after_all(Map::empty(), txs)[(token, iv, b)];
            let h = bucket_trades(txs, token, iv, b);
            &&& h.len() > 0
            &&& c.open == h[0].0
            &&& c.close == h.last().0
            &&& c.high == max_price(h)
            &&& c.low == min_price(h)
            &&& c.volume == volume_sum(h)
        }),
{
    lemma_stored_bars(txs, token, iv);
    let m = after_all(Map::empty(), txs);
    let h = bucket_trades(txs, token, iv, b);
    let c = m[(token, iv, b)];
    assert(m.contains_key((token, iv, b)));
    assert(h.len() > 0 && (Bar { is_closed: false, ..c }) == bar_after(h));
    lemma_ohlc(h);
    assert(h.subrange(0, h.len() as int) =~= h);
    assert(i64::MIN <= volume_sum(h.subrange(0, h.len() as int)) <= i64::MAX);
}


/// What a whole trade leaves in its own bucket under `iv`: the bucket's
/// candle extended by the trade (unchanged if it was closed), or a new one
/// opened by it.
pub proof fn lemma_after_transaction_at(m: Map<KeyView, Bar>, tx: Transaction, iv: TimeInterval)
    ensures
        after_transaction(m, tx).contains_key((tx.token@, iv, tx.timestamp.bucket_of(iv))),
        after_transaction(m, tx)[(tx.token@, iv, tx.timestamp.bucket_of(iv))] == (if m.contains_key(
            (tx.token@, iv, tx.timestamp.bucket_of(iv)),
        ) {
            bar_extended(m[(tx.token@, iv, tx.timestamp.bucket_of(iv))], tx.price, tx.volume)
        } else {
            bar_opened(tx.price, tx.volume)
        }),
{
    let tok = tx.token@;
    let start = tx.timestamp.bucket_of(iv);
    let k = (tok, iv, start);
    let r = traded(m, tok, iv, tx.timestamp, tx.price, tx.volume);
    let sw = swept(m, tok, iv, start);
    lemma_after_transaction_series(m, tx, tok, iv);
    assert(!expired(k, tok, iv, start));
    assert(sw.contains_key(k) == m.contains_key(k));
    assert(r.contains_key(k));
    assert(after_transaction(m, tx).contains_key(k) == r.contains_key(k));
}

} // verus!
