use vstd::prelude::*;

use crate::time_interval::{TimeInterval, Timestamp};

verus! {

/// Prices and volumes are fixed-point numbers: integer counts of this
/// fraction of one whole unit (10^-8).
pub const UNITS_PER_WHOLE: i64 = 100_000_000;

/// `a + b`, held to the range of `i64`.
pub open spec fn sat_add(a: int, b: int) -> int {
    if a + b > i64::MAX {
        i64::MAX as int
    } else if a + b < i64::MIN {
        i64::MIN as int
    } else {
        a + b
    }
}

pub open spec fn max_of(a: i64, b: i64) -> i64 {
    if a >= b {
        a
    } else {
        b
    }
}

pub open spec fn min_of(a: i64, b: i64) -> i64 {
    if a <= b {
        a
    } else {
        b
    }
}

/// What one candle records: prices, traded volume and whether its bucket
/// has closed.
#[derive(Debug, Clone, Copy, PartialEq, Eq, Structural)]
pub struct Bar {
    pub open: i64,
    pub high: i64,
    pub low: i64,
    pub close: i64,
    pub volume: i64,
    pub is_closed: bool,
}

/// The bar that the first trade of a bucket opens.
pub open spec fn bar_opened(price: i64, volume: i64) -> Bar {
    Bar { open: price, high: price, low: price, close: price, volume, is_closed: false }
}

/// A bar after one more trade; a closed bar does not change.
pub open spec fn bar_extended(b: Bar, price: i64, volume: i64) -> Bar {
    if b.is_closed {
        b
    } else {
        Bar {
            high: max_of(b.high, price),
            low: min_of(b.low, price),
            close: price,
            volume: sat_add(b.volume as int, volume as int) as i64,
            ..b
        }
    }
}

/// A bar marked closed.
pub open spec fn bar_closed(b: Bar) -> Bar {
    Bar { is_closed: true, ..b }
}

impl Bar {
    pub fn opened(price: i64, volume: i64) -> (r: Bar)
        ensures
            r == bar_opened(price, volume),
    {
        Bar { open: price, high: price, low: price, close: price, volume, is_closed: false }
    }

    /// Takes one more trade into an open bar; a closed bar stays as it is.
    pub fn extend(&mut self, price: i64, volume: i64)
        ensures
            *final(self) == bar_extended(*old(self), price, volume),
    {
        if !self.is_closed {
            if price > self.high {
                self.high = price;
            }
            if price < self.low {
                self.low = price;
            }
            self.close = price;
            self.volume = match self.volume.checked_add(volume) {
                Some(v) => v,
                None => if volume > 0 {
                    i64::MAX
                } else {
                    i64::MIN
                },
            };
        }
    }
}

/// One candle: the bar of `token` for the bucket starting at `timestamp`
/// under `interval`.
#[derive(Debug, Clone)]
pub struct KLine {
    pub token: String,
    pub timestamp: Timestamp,
    pub interval: TimeInterval,
    pub open: i64,
    pub high: i64,
    pub low: i64,
    pub close: i64,
    pub volume: i64,
    pub is_closed: bool,
}

impl KLine {
    /// The recorded figures of this candle.
    pub open spec fn bar(self) -> Bar {
        Bar {
            open: self.open,
            high: self.high,
            low: self.low,
            close: self.close,
            volume: self.volume,
            is_closed: self.is_closed,
        }
    }

    /// A candle opened by a first trade at `price`.
    pub fn new(
        token: String,
        timestamp: Timestamp,
        interval: TimeInterval,
        price: i64,
        volume: i64,
    ) -> (r: KLine)
        ensures
            r.token == token,
            r.timestamp == timestamp,
            r.interval == interval,
            r.bar() == bar_opened(price, volume),
    {
        KLine::from_bar(token, timestamp, interval, Bar::opened(price, volume))
    }

    /// The candle with the given identity and figures.
    pub fn from_bar(token: String, timestamp: Timestamp, interval: TimeInterval, bar: Bar) -> (r:
        KLine)
        ensures
            r.token == token,
            r.timestamp == timestamp,
            r.interval == interval,
            r.bar() == bar,
    {
        KLine {
            token,
            timestamp,
            interval,
            open: bar.open,
            high: bar.high,
            low: bar.low,
            close: bar.close,
            volume: bar.volume,
            is_closed: bar.is_closed,
        }
    }

    /// Takes one more trade; a closed candle does not change.
    pub fn update(&mut self, price: i64, volume: i64)
        ensures
            final(self).token == old(self).token,
            final(self).timestamp == old(self).timestamp,
            final(self).interval == old(self).interval,
            final(self).bar() == bar_extended(old(self).bar(), price, volume),
    {
        let mut b = Bar {
            open: self.open,
            high: self.high,
            low: self.low,
            close: self.close,
            volume: self.volume,
            is_closed: self.is_closed,
        };
        b.extend(price, volume);
        self.high = b.high;
        self.low = b.low;
        self.close = b.close;
        self.volume = b.volume;
    }

    /// Marks the candle as completed.
    pub fn close(&mut self)
        ensures
            final(self).token == old(self).token,
            final(self).timestamp == old(self).timestamp,
            final(self).interval == old(self).interval,
            final(self).bar() == bar_closed(old(self).bar()),
    {
        self.is_closed = true;
    }
}

/// The bar of a bucket after its trades `(price, volume)`, first to last:
/// the first opens it and each later one extends it.
pub open spec fn bar_after(trades: Seq<(i64, i64)>) -> Bar
    decreases trades.len(),
{
    if trades.len() <= 1 {
        bar_opened(trades[0].0, trades[0].1)
    } else {
        bar_extended(bar_after(trades.drop_last()), trades.last().0, trades.last().1)
    }
}

/// The highest price among `trades`.
pub open spec fn max_price(trades: Seq<(i64, i64)>) -> i64
    decreases trades.len(),
{
    if trades.len() <= 1 {
        trades[0].0
    } else {
        max_of(max_price(trades.drop_last()), trades.last().0)
    }
}

/// The lowest price among `trades`.
pub open spec fn min_price(trades: Seq<(i64, i64)>) -> i64
    decreases trades.len(),
{
    if trades.len() <= 1 {
        trades[0].0
    } else {
        min_of(min_price(trades.drop_last()), trades.last().0)
    }
}

/// The total volume of `trades`.
pub open spec fn volume_sum(trades: Seq<(i64, i64)>) -> int
    decreases trades.len(),
{
    if trades.len() == 0 {
        0
    } else {
        volume_sum(trades.drop_last()) + trades.last().1
    }
}

/// A bucket's bar after any trades: open is the first price, close the
/// last, high the highest, low the lowest, volume the sum of the volumes,
/// and the bar is still open. Volumes are fixed-width, so every running
/// total must fit in `i64`.
pub proof fn lemma_ohlc(trades: Seq<(i64, i64)>)
    requires
        trades.len() > 0,
        forall|k: int|
            #![trigger trades.subrange(0, k)]
            1 <= k <= trades.len() ==> i64::MIN <= volume_sum(trades.subrange(0, k)) <= i64::MAX,
    ensures
        bar_after(trades) == (Bar {
            open: trades[0].0,
            high: max_price(trades),
            low: min_price(trades),
            close: trades.last().0,
            volume: volume_sum(trades) as i64,
            is_closed: false,
        }),
    decreases trades.len(),
{
    assert(trades.subrange(0, trades.len() as int) =~= trades);
    assert(i64::MIN <= volume_sum(trades.subrange(0, trades.len() as int)) <= i64::MAX);
    if trades.len() == 1 {
        assert(trades.drop_last() =~= Seq::<(i64, i64)>::empty());
        assert(trades.last() == trades[0]);
        assert(volume_sum(trades.drop_last()) == 0);
        assert(volume_sum(trades) == trades[0].1);
    } else {
        let p = trades.drop_last();
        assert forall|k: int| #![trigger p.subrange(0, k)] 1 <= k <= p.len() implies i64::MIN
            <= volume_sum(p.subrange(0, k)) <= i64::MAX by {
            assert(p.subrange(0, k) =~= trades.subrange(0, k));
        }
        lemma_ohlc(p);
        assert(p[0] == trades[0]);
        assert(p.subrange(0, p.len() as int) =~= p);
        assert(i64::MIN <= volume_sum(p.subrange(0, p.len() as int)) <= i64::MAX);
        assert(volume_sum(trades) == volume_sum(p) + trades.last().1);
    }
}

} // verus!
