//! Wall-clock timings per layer.

use vstd::prelude::*;

verus! {

/// Timing of one block.
#[derive(Clone, Copy, Debug, PartialEq, Eq)]
pub struct LayerTiming {
    /// Nanoseconds spent in attention.
    pub attention_ns: u64,
    /// Nanoseconds spent in the feed-forward part.
    pub ffn_ns: u64,
}

/// Receives the timings of a forward pass. A receiver that says nothing else ignores them.
pub trait ProfilerSink: Sized {
    /// Whether it is worth measuring.
    fn enabled(&self) -> (on: bool)
        default_ensures
            !on,
    {
        false
    }

    /// A new token begins.
    fn begin_token(&mut self)
        default_ensures
            *final(self) == *old(self),
    {
    }

    /// Attention of `layer` took `nanos` nanoseconds.
    fn record_attention(&mut self, layer: usize, nanos: u128)
        default_ensures
            *final(self) == *old(self),
    {
    }

    /// The feed-forward part of `layer` took `nanos` nanoseconds.
    fn record_ffn(&mut self, layer: usize, nanos: u128)
        default_ensures
            *final(self) == *old(self),
    {
    }
}

/// Ignores all timings.
pub struct NullProfiler;

impl ProfilerSink for NullProfiler {

}

/// Adds up the timings of each block.
#[derive(Debug)]
pub struct LayerProfiler {
    layers: Vec<LayerTiming>,
    tokens: u64,
}

/// Sum of two numbers, at most the largest that fits.
pub open spec fn capped_sum(a: int, b: int) -> int {
    if a + b > u64::MAX {
        u64::MAX as int
    } else {
        a + b
    }
}

impl LayerProfiler {
    /// Timings so far.
    pub closed spec fn layers_view(&self) -> Seq<LayerTiming> {
        self.layers@
    }

    /// Tokens so far.
    pub closed spec fn tokens_view(&self) -> u64 {
        self.tokens
    }

    /// Counters for `num_layers` blocks.
    pub fn new(num_layers: usize) -> (profiler: LayerProfiler)
        ensures
            profiler.tokens_view() == 0,
            profiler.layers_view() == Seq::new(
                num_layers as nat,
                |i: int| LayerTiming { attention_ns: 0, ffn_ns: 0 },
            ),
    {
        let mut layers: Vec<LayerTiming> = Vec::new();
        while layers.len() < num_layers
            invariant
                layers@.len() <= num_layers,
                forall|i: int|
                    0 <= i < layers@.len() ==> #[trigger] layers@[i] == (LayerTiming {
                        attention_ns: 0,
                        ffn_ns: 0,
                    }),
            decreases num_layers - layers@.len(),
        {
            layers.push(LayerTiming { attention_ns: 0, ffn_ns: 0 });
        }
        let profiler = LayerProfiler { layers, tokens: 0 };
        proof {
            assert(profiler.layers_view() =~= Seq::new(
                num_layers as nat,
                |i: int| LayerTiming { attention_ns: 0, ffn_ns: 0 },
            ));
        }
        profiler
    }

    /// Forgets all tokens and timings.
    pub fn reset(&mut self)
        ensures
            final(self).tokens_view() == 0,
            final(self).layers_view() == Seq::new(
                old(self).layers_view().len(),
                |i: int| LayerTiming { attention_ns: 0, ffn_ns: 0 },
            ),
    {
        *self = LayerProfiler::new(self.layers.len());
    }

    /// Number of tokens.
    pub fn tokens(&self) -> (n: u64)
        ensures
            n == self.tokens_view(),
    {
        self.tokens
    }

    /// Timings of each block.
    pub fn timings(&self) -> (t: &[LayerTiming])
        ensures
            t@ == self.layers_view(),
    {
        self.layers.as_slice()
    }
}

/// `nanos` nanoseconds more, at most the largest number that fits.
fn accumulate(target: u64, nanos: u128) -> (sum: u64)
    ensures
        sum == capped_sum(target as int, nanos as int),
{
    if nanos > (u64::MAX - target) as u128 {
        u64::MAX
    } else {
        target + nanos as u64
    }
}

impl ProfilerSink for LayerProfiler {
    fn enabled(&self) -> (on: bool)
        ensures
            on,
    {
        true
    }

    fn begin_token(&mut self)
        ensures
            final(self).layers_view() == old(self).layers_view(),
            final(self).tokens_view() == capped_sum(old(self).tokens_view() as int, 1),
    {
        self.tokens = accumulate(self.tokens, 1);
    }

    fn record_attention(&mut self, layer: usize, nanos: u128)
        ensures
            final(self).tokens_view() == old(self).tokens_view(),
            final(self).layers_view() == (if layer < old(self).layers_view().len() {
                let t = old(self).layers_view()[layer as int];
                old(self).layers_view().update(
                    layer as int,
                    LayerTiming {
                        attention_ns: capped_sum(t.attention_ns as int, nanos as int) as u64,
                        ..t
                    },
                )
            } else {
                old(self).layers_view()
            }),
    {
        if layer < self.layers.len() {
            let t = self.layers[layer];
            self.layers.set(
                layer,
                LayerTiming {
                    attention_ns: accumulate(t.attention_ns, nanos),
                    ffn_ns: t.ffn_ns,
                },
            );
        }
    }

    fn record_ffn(&mut self, layer: usize, nanos: u128)
        ensures
            final(self).tokens_view() == old(self).tokens_view(),
            final(self).layers_view() == (if layer < old(self).layers_view().len() {
                let t = old(self).layers_view()[layer as int];
                old(self).layers_view().update(
                    layer as int,
                    LayerTiming {
                        ffn_ns: capped_sum(t.ffn_ns as int, nanos as int) as u64,
                        ..t
                    },
                )
            } else {
                old(self).layers_view()
            }),
    {
        if layer < self.layers.len() {
            let t = self.layers[layer];
            self.layers.set(
                layer,
                LayerTiming {
                    attention_ns: t.attention_ns,
                    ffn_ns: accumulate(t.ffn_ns, nanos),
                },
            );
        }
    }
}

} // verus!
