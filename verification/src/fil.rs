//! Biquad filter modules whose controls live in a separate control table.
use crate::rack::{Control, Controls, Module, ModuleKind, Rack, Tag};
use crate::rack::{CUT_OFF_DEFAULT, Q_DEFAULT};
use std::sync::Arc;
use vstd::prelude::*;

verus! {
/// Two-pole low-pass filter: reads the output of module `wave`; its controls are the cut-off
/// (slot 0), the resonance `q` (slot 1) and the bypass switch `off` (slot 2).
#[derive(Debug, Copy, Clone)]
pub struct Lpf {
    tag: Tag,
    wave: Tag,
}

impl Lpf {
    pub fn new(tag: Tag, wave: Tag) -> (r: Self)
        ensures
            r.tag() == tag,
            r.wave() == wave,
    {
        Self { tag, wave }
    }

    pub closed spec fn spec_tag(&self) -> Tag {
        self.tag
    }

    /// The tag of this module.
    #[verifier::when_used_as_spec(spec_tag)]
    pub fn tag(&self) -> (t: Tag)
        ensures
            t == self.spec_tag(),
    {
        self.tag
    }

    pub closed spec fn spec_wave(&self) -> Tag {
        self.wave
    }

    /// The tag of the module whose output this one reads.
    #[verifier::when_used_as_spec(spec_wave)]
    pub fn wave(&self) -> (t: Tag)
        ensures
            t == self.spec_wave(),
    {
        self.wave
    }

    /// The rack entry describing this module.
    pub fn module(&self) -> (m: Module)
        ensures
            m == (Module { tag: self.tag(), wave: self.wave(), kind: ModuleKind::Lpf }),
    {
        Module { tag: self.tag, wave: self.wave, kind: ModuleKind::Lpf }
    }

    /// Whether the filter is bypassed; the `off` control must be a switch.
    pub fn off(&self, controls: &Controls) -> (b: bool)
        requires
            controls.at(self.tag(), 2) is B,
        ensures
            b == controls.at(self.tag(), 2)->B_0,
    {
        let ctrl = controls.get(self.tag, 2);
        match ctrl {
            Control::B(b) => b,
            _ => {
                assert(false);
                false
            },
        }
    }

    /// Sets the bypass switch; every other control keeps its value.
    pub fn set_off(&self, controls: &mut Controls, value: bool)
        ensures
            final(controls).at(self.tag(), 2) == Control::B(value),
            forall|t: Tag, i: usize|
                !(t == self.tag() && i == 2) ==> #[trigger] final(controls).at(t, i) == old(
                    controls,
                ).at(t, i),
    {
        controls.set(self.tag, 2, value.into());
    }
}

/// Builder of a [`Lpf`]: cut-off 25 000 Hz, `q` 0.707 and not bypassed
/// unless set otherwise.
#[derive(Debug, Copy, Clone)]
pub struct LpfBuilder {
    wave: Tag,
    cut_off: Control,
    q: Control,
    off: Control,
}

impl LpfBuilder {
    pub fn new(wave: Tag) -> (r: Self)
        ensures
            r.wave_spec() == wave,
            r.cut_off_spec() == Control::V(CUT_OFF_DEFAULT),
            r.q_spec() == Control::V(Q_DEFAULT),
            r.off_spec() == Control::B(false),
    {
        Self { wave, cut_off: Control::V(CUT_OFF_DEFAULT), q: Control::V(Q_DEFAULT), off: false.into() }
    }

    pub closed spec fn wave_spec(&self) -> Tag {
        self.wave
    }

    pub closed spec fn cut_off_spec(&self) -> Control {
        self.cut_off
    }

    pub closed spec fn q_spec(&self) -> Control {
        self.q
    }

    pub closed spec fn off_spec(&self) -> Control {
        self.off
    }

    /// The builder with cut-off control `value`.
    pub fn cut_off(self, value: Control) -> (r: Self)
        ensures
            r.cut_off_spec() == value,
            r.wave_spec() == self.wave_spec(),
            r.q_spec() == self.q_spec(),
            r.off_spec() == self.off_spec(),
    {
        Self { cut_off: value, ..self }
    }

    /// The builder with resonance control `value`.
    pub fn q(self, value: Control) -> (r: Self)
        ensures
            r.q_spec() == value,
            r.wave_spec() == self.wave_spec(),
            r.cut_off_spec() == self.cut_off_spec(),
            r.off_spec() == self.off_spec(),
    {
        Self { q: value, ..self }
    }

    /// The builder with bypass control `value`.
    pub fn off(self, value: Control) -> (r: Self)
        ensures
            r.off_spec() == value,
            r.wave_spec() == self.wave_spec(),
            r.cut_off_spec() == self.cut_off_spec(),
            r.q_spec() == self.q_spec(),
    {
        Self { off: value, ..self }
    }

    /// Adds the module to `rack` under the next free tag, writing its three
    /// controls to `controls`.
    pub fn rack(&self, rack: &mut Rack, controls: &mut Controls) -> (m: Arc<Lpf>)
        ensures
            m.tag() == Tag(old(rack).modules@.len() as usize),
            m.wave() == self.wave_spec(),
            final(rack).modules@ == old(rack).modules@.push(
                Module { tag: m.tag(), wave: m.wave(), kind: ModuleKind::Lpf },
            ),
            final(rack).controls == old(rack).controls,
            final(rack).buffers == old(rack).buffers,
            final(controls).at(m.tag(), 0) == self.cut_off_spec(),
            final(controls).at(m.tag(), 1) == self.q_spec(),
            final(controls).at(m.tag(), 2) == self.off_spec(),
            forall|t: Tag, i: usize|
                !(t == m.tag() && i < 3) ==> #[trigger] final(controls).at(t, i) == old(
                    controls,
                ).at(t, i),
    {
        let n = rack.num_modules();
        let tag = Tag(n);
        controls.set(tag, 0, self.cut_off);
        controls.set(tag, 1, self.q);
        controls.set(tag, 2, self.off);
        let f = Arc::new(Lpf::new(n.into(), self.wave));
        rack.push(f.module());
        f
    }
}

/// Two-pole high-pass filter: reads the output of module `wave`; its controls are the cut-off
/// (slot 0), the resonance `q` (slot 1) and the bypass switch `off` (slot 2).
#[derive(Debug, Copy, Clone)]
pub struct Hpf {
    tag: Tag,
    wave: Tag,
}

impl Hpf {
    pub fn new(tag: Tag, wave: Tag) -> (r: Self)
        ensures
            r.tag() == tag,
            r.wave() == wave,
    {
        Self { tag, wave }
    }

    pub closed spec fn spec_tag(&self) -> Tag {
        self.tag
    }

    /// The tag of this module.
    #[verifier::when_used_as_spec(spec_tag)]
    pub fn tag(&self) -> (t: Tag)
        ensures
            t == self.spec_tag(),
    {
        self.tag
    }

    pub closed spec fn spec_wave(&self) -> Tag {
        self.wave
    }

    /// The tag of the module whose output this one reads.
    #[verifier::when_used_as_spec(spec_wave)]
    pub fn wave(&self) -> (t: Tag)
        ensures
            t == self.spec_wave(),
    {
        self.wave
    }

    /// The rack entry describing this module.
    pub fn module(&self) -> (m: Module)
        ensures
            m == (Module { tag: self.tag(), wave: self.wave(), kind: ModuleKind::Hpf }),
    {
        Module { tag: self.tag, wave: self.wave, kind: ModuleKind::Hpf }
    }

    /// Whether the filter is bypassed; the `off` control must be a switch.
    pub fn off(&self, controls: &Controls) -> (b: bool)
        requires
            controls.at(self.tag(), 2) is B,
        ensures
            b == controls.at(self.tag(), 2)->B_0,
    {
        let ctrl = controls.get(self.tag, 2);
        match ctrl {
            Control::B(b) => b,
            _ => {
                assert(false);
                false
            },
        }
    }

    /// Sets the bypass switch; every other control keeps its value.
    pub fn set_off(&self, controls: &mut Controls, value: bool)
        ensures
            final(controls).at(self.tag(), 2) == Control::B(value),
            forall|t: Tag, i: usize|
                !(t == self.tag() && i == 2) ==> #[trigger] final(controls).at(t, i) == old(
                    controls,
                ).at(t, i),
    {
        controls.set(self.tag, 2, value.into());
    }
}

/// Builder of a [`Hpf`]: cut-off 25 000 Hz, `q` 0.707 and not bypassed
/// unless set otherwise.
#[derive(Debug, Copy, Clone)]
pub struct HpfBuilder {
    wave: Tag,
    cut_off: Control,
    q: Control,
    off: Control,
}

impl HpfBuilder {
    pub fn new(wave: Tag) -> (r: Self)
        ensures
            r.wave_spec() == wave,
            r.cut_off_spec() == Control::V(CUT_OFF_DEFAULT),
            r.q_spec() == Control::V(Q_DEFAULT),
            r.off_spec() == Control::B(false),
    {
        Self { wave, cut_off: Control::V(CUT_OFF_DEFAULT), q: Control::V(Q_DEFAULT), off: false.into() }
    }

    pub closed spec fn wave_spec(&self) -> Tag {
        self.wave
    }

    pub closed spec fn cut_off_spec(&self) -> Control {
        self.cut_off
    }

    pub closed spec fn q_spec(&self) -> Control {
        self.q
    }

    pub closed spec fn off_spec(&self) -> Control {
        self.off
    }

    /// The builder with cut-off control `value`.
    pub fn cut_off(self, value: Control) -> (r: Self)
        ensures
            r.cut_off_spec() == value,
            r.wave_spec() == self.wave_spec(),
            r.q_spec() == self.q_spec(),
            r.off_spec() == self.off_spec(),
    {
        Self { cut_off: value, ..self }
    }

    /// The builder with resonance control `value`.
    pub fn q(self, value: Control) -> (r: Self)
        ensures
            r.q_spec() == value,
            r.wave_spec() == self.wave_spec(),
            r.cut_off_spec() == self.cut_off_spec(),
            r.off_spec() == self.off_spec(),
    {
        Self { q: value, ..self }
    }

    /// The builder with bypass control `value`.
    pub fn off(self, value: Control) -> (r: Self)
        ensures
            r.off_spec() == value,
            r.wave_spec() == self.wave_spec(),
            r.cut_off_spec() == self.cut_off_spec(),
            r.q_spec() == self.q_spec(),
    {
        Self { off: value, ..self }
    }

    /// Adds the module to `rack` under the next free tag, writing its three
    /// controls to `controls`.
    pub fn rack(&self, rack: &mut Rack, controls: &mut Controls) -> (m: Arc<Hpf>)
        ensures
            m.tag() == Tag(old(rack).modules@.len() as usize),
            m.wave() == self.wave_spec(),
            final(rack).modules@ == old(rack).modules@.push(
                Module { tag: m.tag(), wave: m.wave(), kind: ModuleKind::Hpf },
            ),
            final(rack).controls == old(rack).controls,
            final(rack).buffers == old(rack).buffers,
            final(controls).at(m.tag(), 0) == self.cut_off_spec(),
            final(controls).at(m.tag(), 1) == self.q_spec(),
            final(controls).at(m.tag(), 2) == self.off_spec(),
            forall|t: Tag, i: usize|
                !(t == m.tag() && i < 3) ==> #[trigger] final(controls).at(t, i) == old(
                    controls,
                ).at(t, i),
    {
        let n = rack.num_modules();
        let tag = Tag(n);
        controls.set(tag, 0, self.cut_off);
        controls.set(tag, 1, self.q);
        controls.set(tag, 2, self.off);
        let f = Arc::new(Hpf::new(n.into(), self.wave));
        rack.push(f.module());
        f
    }
}

/// Two-pole band-pass filter: reads the output of module `wave`; its controls are the cut-off
/// (slot 0), the resonance `q` (slot 1) and the bypass switch `off` (slot 2).
#[derive(Debug, Copy, Clone)]
pub struct Bpf {
    tag: Tag,
    wave: Tag,
}

impl Bpf {
    pub fn new(tag: Tag, wave: Tag) -> (r: Self)
        ensures
            r.tag() == tag,
            r.wave() == wave,
    {
        Self { tag, wave }
    }

    pub closed spec fn spec_tag(&self) -> Tag {
        self.tag
    }

    /// The tag of this module.
    #[verifier::when_used_as_spec(spec_tag)]
    pub fn tag(&self) -> (t: Tag)
        ensures
            t == self.spec_tag(),
    {
        self.tag
    }

    pub closed spec fn spec_wave(&self) -> Tag {
        self.wave
    }

    /// The tag of the module whose output this one reads.
    #[verifier::when_used_as_spec(spec_wave)]
    pub fn wave(&self) -> (t: Tag)
        ensures
            t == self.spec_wave(),
    {
        self.wave
    }

    /// The rack entry describing this module.
    pub fn module(&self) -> (m: Module)
        ensures
            m == (Module { tag: self.tag(), wave: self.wave(), kind: ModuleKind::Bpf }),
    {
        Module { tag: self.tag, wave: self.wave, kind: ModuleKind::Bpf }
    }

    /// Whether the filter is bypassed; the `off` control must be a switch.
    pub fn off(&self, controls: &Controls) -> (b: bool)
        requires
            controls.at(self.tag(), 2) is B,
        ensures
            b == controls.at(self.tag(), 2)->B_0,
    {
        let ctrl = controls.get(self.tag, 2);
        match ctrl {
            Control::B(b) => b,
            _ => {
                assert(false);
                false
            },
        }
    }

    /// Sets the bypass switch; every other control keeps its value.
    pub fn set_off(&self, controls: &mut Controls, value: bool)
        ensures
            final(controls).at(self.tag(), 2) == Control::B(value),
            forall|t: Tag, i: usize|
                !(t == self.tag() && i == 2) ==> #[trigger] final(controls).at(t, i) == old(
                    controls,
                ).at(t, i),
    {
        controls.set(self.tag, 2, value.into());
    }
}

/// Builder of a [`Bpf`]: cut-off 25 000 Hz, `q` 0.707 and not bypassed
/// unless set otherwise.
#[derive(Debug, Copy, Clone)]
pub struct BpfBuilder {
    wave: Tag,
    cut_off: Control,
    q: Control,
    off: Control,
}

impl BpfBuilder {
    pub fn new(wave: Tag) -> (r: Self)
        ensures
            r.wave_spec() == wave,
            r.cut_off_spec() == Control::V(CUT_OFF_DEFAULT),
            r.q_spec() == Control::V(Q_DEFAULT),
            r.off_spec() == Control::B(false),
    {
        Self { wave, cut_off: Control::V(CUT_OFF_DEFAULT), q: Control::V(Q_DEFAULT), off: false.into() }
    }

    pub closed spec fn wave_spec(&self) -> Tag {
        self.wave
    }

    pub closed spec fn cut_off_spec(&self) -> Control {
        self.cut_off
    }

    pub closed spec fn q_spec(&self) -> Control {
        self.q
    }

    pub closed spec fn off_spec(&self) -> Control {
        self.off
    }

    /// The builder with cut-off control `value`.
    pub fn cut_off(self, value: Control) -> (r: Self)
        ensures
            r.cut_off_spec() == value,
            r.wave_spec() == self.wave_spec(),
            r.q_spec() == self.q_spec(),
            r.off_spec() == self.off_spec(),
    {
        Self { cut_off: value, ..self }
    }

    /// The builder with resonance control `value`.
    pub fn q(self, value: Control) -> (r: Self)
        ensures
            r.q_spec() == value,
            r.wave_spec() == self.wave_spec(),
            r.cut_off_spec() == self.cut_off_spec(),
            r.off_spec() == self.off_spec(),
    {
        Self { q: value, ..self }
    }

    /// The builder with bypass control `value`.
    pub fn off(self, value: Control) -> (r: Self)
        ensures
            r.off_spec() == value,
            r.wave_spec() == self.wave_spec(),
            r.cut_off_spec() == self.cut_off_spec(),
            r.q_spec() == self.q_spec(),
    {
        Self { off: value, ..self }
    }

    /// Adds the module to `rack` under the next free tag, writing its three
    /// controls to `controls`.
    pub fn rack(&self, rack: &mut Rack, controls: &mut Controls) -> (m: Arc<Bpf>)
        ensures
            m.tag() == Tag(old(rack).modules@.len() as usize),
            m.wave() == self.wave_spec(),
            final(rack).modules@ == old(rack).modules@.push(
                Module { tag: m.tag(), wave: m.wave(), kind: ModuleKind::Bpf },
            ),
            final(rack).controls == old(rack).controls,
            final(rack).buffers == old(rack).buffers,
            final(controls).at(m.tag(), 0) == self.cut_off_spec(),
            final(controls).at(m.tag(), 1) == self.q_spec(),
            final(controls).at(m.tag(), 2) == self.off_spec(),
            forall|t: Tag, i: usize|
                !(t == m.tag() && i < 3) ==> #[trigger] final(controls).at(t, i) == old(
                    controls,
                ).at(t, i),
    {
        let n = rack.num_modules();
        let tag = Tag(n);
        controls.set(tag, 0, self.cut_off);
        controls.set(tag, 1, self.q);
        controls.set(tag, 2, self.off);
        let f = Arc::new(Bpf::new(n.into(), self.wave));
        rack.push(f.module());
        f
    }
}

/// Two-pole band-reject filter: reads the output of module `wave`; its controls are the cut-off
/// (slot 0), the resonance `q` (slot 1) and the bypass switch `off` (slot 2).
#[derive(Debug, Copy, Clone)]
pub struct Notch {
    tag: Tag,
    wave: Tag,
}

impl Notch {
    pub fn new(tag: Tag, wave: Tag) -> (r: Self)
        ensures
            r.tag() == tag,
            r.wave() == wave,
    {
        Self { tag, wave }
    }

    pub closed spec fn spec_tag(&self) -> Tag {
        self.tag
    }

    /// The tag of this module.
    #[verifier::when_used_as_spec(spec_tag)]
    pub fn tag(&self) -> (t: Tag)
        ensures
            t == self.spec_tag(),
    {
        self.tag
    }

    pub closed spec fn spec_wave(&self) -> Tag {
        self.wave
    }

    /// The tag of the module whose output this one reads.
    #[verifier::when_used_as_spec(spec_wave)]
    pub fn wave(&self) -> (t: Tag)
        ensures
            t == self.spec_wave(),
    {
        self.wave
    }

    /// The rack entry describing this module.
    pub fn module(&self) -> (m: Module)
        ensures
            m == (Module { tag: self.tag(), wave: self.wave(), kind: ModuleKind::Notch }),
    {
        Module { tag: self.tag, wave: self.wave, kind: ModuleKind::Notch }
    }

    /// Whether the filter is bypassed; the `off` control must be a switch.
    pub fn off(&self, controls: &Controls) -> (b: bool)
        requires
            controls.at(self.tag(), 2) is B,
        ensures
            b == controls.at(self.tag(), 2)->B_0,
    {
        let ctrl = controls.get(self.tag, 2);
        match ctrl {
            Control::B(b) => b,
            _ => {
                assert(false);
                false
            },
        }
    }

    /// Sets the bypass switch; every other control keeps its value.
    pub fn set_off(&self, controls: &mut Controls, value: bool)
        ensures
            final(controls).at(self.tag(), 2) == Control::B(value),
            forall|t: Tag, i: usize|
                !(t == self.tag() && i == 2) ==> #[trigger] final(controls).at(t, i) == old(
                    controls,
                ).at(t, i),
    {
        controls.set(self.tag, 2, value.into());
    }
}

/// Builder of a [`Notch`]: cut-off 25 000 Hz, `q` 0.707 and not bypassed
/// unless set otherwise.
#[derive(Debug, Copy, Clone)]
pub struct NotchBuilder {
    wave: Tag,
    cut_off: Control,
    q: Control,
    off: Control,
}

impl NotchBuilder {
    pub fn new(wave: Tag) -> (r: Self)
        ensures
            r.wave_spec() == wave,
            r.cut_off_spec() == Control::V(CUT_OFF_DEFAULT),
            r.q_spec() == Control::V(Q_DEFAULT),
            r.off_spec() == Control::B(false),
    {
        Self { wave, cut_off: Control::V(CUT_OFF_DEFAULT), q: Control::V(Q_DEFAULT), off: false.into() }
    }

    pub closed spec fn wave_spec(&self) -> Tag {
        self.wave
    }

    pub closed spec fn cut_off_spec(&self) -> Control {
        self.cut_off
    }

    pub closed spec fn q_spec(&self) -> Control {
        self.q
    }

    pub closed spec fn off_spec(&self) -> Control {
        self.off
    }

    /// The builder with cut-off control `value`.
    pub fn cut_off(self, value: Control) -> (r: Self)
        ensures
            r.cut_off_spec() == value,
            r.wave_spec() == self.wave_spec(),
            r.q_spec() == self.q_spec(),
            r.off_spec() == self.off_spec(),
    {
        Self { cut_off: value, ..self }
    }

    /// The builder with resonance control `value`.
    pub fn q(self, value: Control) -> (r: Self)
        ensures
            r.q_spec() == value,
            r.wave_spec() == self.wave_spec(),
            r.cut_off_spec() == self.cut_off_spec(),
            r.off_spec() == self.off_spec(),
    {
        Self { q: value, ..self }
    }

    /// The builder with bypass control `value`.
    pub fn off(self, value: Control) -> (r: Self)
        ensures
            r.off_spec() == value,
            r.wave_spec() == self.wave_spec(),
            r.cut_off_spec() == self.cut_off_spec(),
            r.q_spec() == self.q_spec(),
    {
        Self { off: value, ..self }
    }

    /// Adds the module to `rack` under the next free tag, writing its three
    /// controls to `controls`.
    pub fn rack(&self, rack: &mut Rack, controls: &mut Controls) -> (m: Arc<Notch>)
        ensures
            m.tag() == Tag(old(rack).modules@.len() as usize),
            m.wave() == self.wave_spec(),
            final(rack).modules@ == old(rack).modules@.push(
                Module { tag: m.tag(), wave: m.wave(), kind: ModuleKind::Notch },
            ),
            final(rack).controls == old(rack).controls,
            final(rack).buffers == old(rack).buffers,
            final(controls).at(m.tag(), 0) == self.cut_off_spec(),
            final(controls).at(m.tag(), 1) == self.q_spec(),
            final(controls).at(m.tag(), 2) == self.off_spec(),
            forall|t: Tag, i: usize|
                !(t == m.tag() && i < 3) ==> #[trigger] final(controls).at(t, i) == old(
                    controls,
                ).at(t, i),
    {
        let n = rack.num_modules();
        let tag = Tag(n);
        controls.set(tag, 0, self.cut_off);
        controls.set(tag, 1, self.q);
        controls.set(tag, 2, self.off);
        let f = Arc::new(Notch::new(n.into(), self.wave));
        rack.push(f.module());
        f
    }
}

} // verus!
