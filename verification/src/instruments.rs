//! Instrument modules built from several rack modules.
use crate::rack::{Control, Tag};
use vstd::prelude::*;

verus! {

/// Default inverse frequency of a waveguide: 1 / 440.
pub const HZ_INV_DEFAULT: u32 = 0x3b14_f209;

/// Default cut-off of a waveguide's loop filter: 2000.0.
pub const WAVEGUIDE_CUTOFF_DEFAULT: u32 = 0x44fa_0000;

/// Default decay of a waveguide's loop: 0.95.
pub const DECAY_DEFAULT: u32 = 0x3f73_3333;

/// Builder of a plucked-string waveguide excited by module `burst`: inverse
/// frequency 1/440, loop cut-off 2000 and decay 0.95 unless set otherwise.
#[derive(Clone)]
pub struct WaveGuideBuilder {
    burst: Tag,
    hz_inv: Control,
    cutoff: Control,
    decay: Control,
}

impl WaveGuideBuilder {
    pub fn new(burst: Tag) -> (r: Self)
        ensures
            r.burst_spec() == burst,
            r.hz_inv_spec() == Control::V(HZ_INV_DEFAULT),
            r.cutoff_spec() == Control::V(WAVEGUIDE_CUTOFF_DEFAULT),
            r.decay_spec() == Control::V(DECAY_DEFAULT),
    {
        Self {
            burst,
            hz_inv: Control::V(HZ_INV_DEFAULT),
            cutoff: Control::V(WAVEGUIDE_CUTOFF_DEFAULT),
            decay: Control::V(DECAY_DEFAULT),
        }
    }

    pub closed spec fn burst_spec(&self) -> Tag {
        self.burst
    }

    pub closed spec fn hz_inv_spec(&self) -> Control {
        self.hz_inv
    }

    pub closed spec fn cutoff_spec(&self) -> Control {
        self.cutoff
    }

    pub closed spec fn decay_spec(&self) -> Control {
        self.decay
    }

    /// The builder with inverse-frequency control `value`.
    pub fn hz_inv(self, value: Control) -> (r: Self)
        ensures
            r.hz_inv_spec() == value,
            r.burst_spec() == self.burst_spec(),
            r.cutoff_spec() == self.cutoff_spec(),
            r.decay_spec() == self.decay_spec(),
    {
        Self { hz_inv: value, ..self }
    }

    /// The builder with cut-off control `value`.
    pub fn cutoff(self, value: Control) -> (r: Self)
        ensures
            r.cutoff_spec() == value,
            r.burst_spec() == self.burst_spec(),
            r.hz_inv_spec() == self.hz_inv_spec(),
            r.decay_spec() == self.decay_spec(),
    {
        Self { cutoff: value, ..self }
    }

    /// The builder with decay control `value`.
    pub fn decay(self, value: Control) -> (r: Self)
        ensures
            r.decay_spec() == value,
            r.burst_spec() == self.burst_spec(),
            r.hz_inv_spec() == self.hz_inv_spec(),
            r.cutoff_spec() == self.cutoff_spec(),
    {
        Self { decay: value, ..self }
    }
}

} // verus!
