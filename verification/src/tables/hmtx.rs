//! The horizontal metrics table.

use vstd::prelude::*;
use crate::encode::be_i16;
use crate::encode::be_u16;
use crate::encode::write_i16;
use crate::encode::write_u16;
use crate::writeutils::TableWriter;
use crate::FontTable;

verus! {

/// The horizontal metrics of one glyph.
#[derive(Debug, Clone, Copy, PartialEq, Eq, Structural)]
pub struct HorizontalMetric {
    pub advance_width: u16,
    pub left_side_bearing: i16,
}

/// The horizontal metrics of the glyphs, in glyph-id order.
pub struct HMtx {
    horizontal_metrics: Vec<HorizontalMetric>,
}

/// The number of metrics to write in full: the last glyph's advance width
/// stands for all the glyphs at the end that share it, so the long metrics
/// end with the first glyph of that tail. `k` is how many metrics are still
/// to be looked at, from the end.
pub open spec fn long_metrics_within(metrics: Seq<HorizontalMetric>, k: nat) -> nat
    decreases k,
{
    if k == 0 {
        1
    } else if metrics[k - 1].advance_width != metrics.last().advance_width {
        k + 1
    } else {
        long_metrics_within(metrics, (k - 1) as nat)
    }
}

/// The first `n` metrics in full: advance width and left side bearing.
pub open spec fn long_metrics(metrics: Seq<HorizontalMetric>, n: nat) -> Seq<u8>
    decreases n,
{
    if n == 0 {
        Seq::empty()
    } else {
        long_metrics(metrics, (n - 1) as nat) + be_u16(metrics[n - 1].advance_width) + be_i16(
            metrics[n - 1].left_side_bearing,
        )
    }
}

/// The left side bearings of the metrics from `from` up to `n`.
pub open spec fn bearings(metrics: Seq<HorizontalMetric>, from: nat, n: nat) -> Seq<u8>
    decreases n,
{
    if n <= from {
        Seq::empty()
    } else {
        bearings(metrics, from, (n - 1) as nat) + be_i16(metrics[n - 1].left_side_bearing)
    }
}

/// The count of long metrics lies between 1 and the number of metrics,
/// every glyph behind the long metrics has the advance width of the last
/// one, and with more than one long metric, the glyph before the last of
/// them has another.
pub proof fn lemma_long_metrics_within(metrics: Seq<HorizontalMetric>, k: nat)
    requires
        1 <= k <= metrics.len(),
        forall|i: int| k <= i < metrics.len() ==> (#[trigger] metrics[i]).advance_width
            == metrics.last().advance_width,
    ensures
        1 <= long_metrics_within(metrics, k) <= metrics.len(),
        long_metrics_within(metrics, k) <= k + 1,
        forall|i: int|
            long_metrics_within(metrics, k) - 1 <= i < metrics.len() ==> (#[trigger] metrics[i]).advance_width
                == metrics.last().advance_width,
        long_metrics_within(metrics, k) > 1 ==> metrics[long_metrics_within(metrics, k)
            - 2].advance_width != metrics.last().advance_width,
    decreases k,
{
    if metrics[k - 1].advance_width != metrics.last().advance_width {
    } else if k > 1 {
        lemma_long_metrics_within(metrics, (k - 1) as nat);
    } else {
    }
}

impl HMtx {
    /// The metrics, in glyph-id order.
    pub closed spec fn metrics(&self) -> Seq<HorizontalMetric> {
        self.horizontal_metrics@
    }

    /// The number of metrics that are written in full.
    pub open spec fn spec_num_of_long_hor_metrics(&self) -> nat {
        long_metrics_within(self.metrics(), self.metrics().len())
    }

    /// The table: the long metrics in full, then the left side bearings of
    /// the other glyphs.
    pub open spec fn spec_bytes(&self) -> Seq<u8> {
        let n = self.spec_num_of_long_hor_metrics();
        long_metrics(self.metrics(), n) + bearings(self.metrics(), n, self.metrics().len())
    }

    /// The metrics of glyphs that all advance by `advance_width`, one glyph
    /// for each of the left side bearings.
    pub fn monospace(advance_width: u16, lsbs: Vec<i16>) -> (r: Self)
        ensures
            r.metrics().len() == lsbs@.len(),
            forall|i: int|
                0 <= i < lsbs@.len() ==> #[trigger] r.metrics()[i] == (HorizontalMetric {
                    advance_width,
                    left_side_bearing: lsbs@[i],
                }),
    {
        let mut horizontal_metrics: Vec<HorizontalMetric> = Vec::new();
        let mut i: usize = 0;
        while i < lsbs.len()
            invariant
                i <= lsbs.len(),
                horizontal_metrics@.len() == i,
                forall|j: int|
                    0 <= j < i ==> #[trigger] horizontal_metrics@[j] == (HorizontalMetric {
                        advance_width,
                        left_side_bearing: lsbs@[j],
                    }),
            decreases lsbs.len() - i,
        {
            horizontal_metrics.push(
                HorizontalMetric { advance_width, left_side_bearing: lsbs[i] },
            );
            i = i + 1;
        }
        HMtx { horizontal_metrics }
    }

    /// The number of metrics to write in full: up to the first of the
    /// glyphs at the end that share the last advance width.
    pub fn num_of_long_hor_metrics(&self) -> (n: usize)
        requires
            self.metrics().len() > 0,
        ensures
            n == self.spec_num_of_long_hor_metrics(),
            1 <= n <= self.metrics().len(),
    {
        let len = self.horizontal_metrics.len();
        let advance_width = self.horizontal_metrics[len - 1].advance_width;
        let mut k: usize = len;
        proof {
            lemma_long_metrics_within(self.metrics(), len as nat);
        }
        while k > 0
            invariant
                0 <= k <= len,
                len == self.horizontal_metrics@.len(),
                len > 0,
                advance_width == self.horizontal_metrics@.last().advance_width,
                long_metrics_within(self.horizontal_metrics@, k as nat) == long_metrics_within(
                    self.horizontal_metrics@,
                    len as nat,
                ),
                1 <= long_metrics_within(self.horizontal_metrics@, len as nat) <= len,
            decreases k,
        {
            if self.horizontal_metrics[k - 1].advance_width != advance_width {
                return k + 1;
            }
            k = k - 1;
        }
        1
    }

    /// The number of glyphs that the table holds metrics for.
    pub fn len(&self) -> (n: usize)
        ensures
            n == self.metrics().len(),
    {
        self.horizontal_metrics.len()
    }

    /// Appends the table to `buf`.
    pub fn encode(&self, buf: &mut Vec<u8>)
        requires
            self.metrics().len() > 0,
        ensures
            final(buf)@ == old(buf)@ + self.spec_bytes(),
    {
        let idx = self.num_of_long_hor_metrics();
        let mut i: usize = 0;
        while i < idx
            invariant
                i <= idx <= self.horizontal_metrics@.len(),
                buf@ == old(buf)@ + long_metrics(self.horizontal_metrics@, i as nat),
            decreases idx - i,
        {
            let hmtx = &self.horizontal_metrics[i];
            write_u16(buf, hmtx.advance_width);
            write_i16(buf, hmtx.left_side_bearing);
            i = i + 1;
            assert(buf@ =~= old(buf)@ + long_metrics(self.horizontal_metrics@, i as nat));
        }
        let ghost head = buf@;
        while i < self.horizontal_metrics.len()
            invariant
                idx <= i <= self.horizontal_metrics@.len(),
                buf@ == head + bearings(self.horizontal_metrics@, idx as nat, i as nat),
            decreases self.horizontal_metrics.len() - i,
        {
            write_i16(buf, self.horizontal_metrics[i].left_side_bearing);
            i = i + 1;
            assert(buf@ =~= head + bearings(self.horizontal_metrics@, idx as nat, i as nat));
        }
        assert(buf@ =~= old(buf)@ + self.spec_bytes());
    }
}

impl FontTable for HMtx {
    open spec fn spec_tag() -> Seq<u8> {
        seq![0x68u8, 0x6du8, 0x74u8, 0x78u8]
    }

    /// There is at least one glyph.
    open spec fn wf(&self) -> bool {
        self.metrics().len() > 0
    }

    open spec fn table_bytes(&self) -> Seq<u8> {
        self.spec_bytes()
    }

    fn tag() -> (tag: [u8; 4]) {
        [0x68, 0x6d, 0x74, 0x78]
    }

    fn write(&self, writer: &mut TableWriter) {
        let mut buf: Vec<u8> = Vec::new();
        self.encode(&mut buf);
        writer.write(buf.as_slice());
    }
}

} // verus!
