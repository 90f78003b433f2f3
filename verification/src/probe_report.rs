//! Layered probe report: the output of each probe layer that succeeded,
//! the failures collected on the way, and how deep the probe got.
use vstd::prelude::*;

verus! {

/// Full probe report. Each layer's output is present when that layer
/// succeeded: BAR access, identity, power, engines, memory, DMA, channel,
/// dispatch.
#[derive(Debug)]
pub struct ProbeReport<Bar, Identity, Power, Engines, Memory, Dma, Channel, Dispatch, Failure> {
    pub bar: Option<Bar>,
    pub identity: Option<Identity>,
    pub power: Option<Power>,
    pub engines: Option<Engines>,
    pub memory: Option<Memory>,
    pub dma: Option<Dma>,
    pub channel: Option<Channel>,
    pub dispatch: Option<Dispatch>,
    pub failures: Vec<Failure>,
    pub elapsed_ms: u128,
}

impl<Bar, Identity, Power, Engines, Memory, Dma, Channel, Dispatch, Failure> ProbeReport<
    Bar,
    Identity,
    Power,
    Engines,
    Memory,
    Dma,
    Channel,
    Dispatch,
    Failure,
> {
    /// The highest layer present, counted from the top (dispatch = 8)
    /// down to BAR access (1); 0 when no layer is present.
    pub open spec fn spec_depth(&self) -> u8 {
        if self.dispatch is Some {
            8
        } else if self.channel is Some {
            7
        } else if self.dma is Some {
            6
        } else if self.memory is Some {
            5
        } else if self.engines is Some {
            4
        } else if self.power is Some {
            3
        } else if self.identity is Some {
            2
        } else if self.bar is Some {
            1
        } else {
            0
        }
    }

    /// Highest layer reached successfully.
    pub fn depth(&self) -> (r: u8)
        ensures
            r == self.spec_depth(),
            r <= 8,
    {
        if self.dispatch.is_some() {
            8
        } else if self.channel.is_some() {
            7
        } else if self.dma.is_some() {
            6
        } else if self.memory.is_some() {
            5
        } else if self.engines.is_some() {
            4
        } else if self.power.is_some() {
            3
        } else if self.identity.is_some() {
            2
        } else if self.bar.is_some() {
            1
        } else {
            0
        }
    }
}

} // verus!
