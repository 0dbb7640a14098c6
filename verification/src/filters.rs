//! Biquad, comb and all-pass filter modules of a rack.
use crate::rack::{Buffers, Control, Controls, Module, ModuleKind, Rack, RingBuffer, Tag};
use crate::rack::{CUT_OFF_DEFAULT, Q_DEFAULT, COMB_DEFAULT};
use std::sync::Arc;
use vstd::prelude::*;
use vstd::std_specs::convert::IntoSpec;

verus! {
/// Two-pole low-pass filter: reads the output of module `wave`; its controls are the cut-off
/// (slot 0), the resonance `q` (slot 1) and the bypass switch `off` (slot 2).
#[derive(Debug, Copy, Clone)]
pub struct Lpf {
    tag: Tag,
    wave: Tag,
}

impl Lpf {
    pub fn new(tag: Tag, wave: Tag) -> (r: Self)
        ensures
            r.tag() == tag,
            r.wave() == wave,
    {
        Self { tag, wave }
    }

    pub closed spec fn spec_tag(&self) -> Tag {
        self.tag
    }

    /// The tag of this module.
    #[verifier::when_used_as_spec(spec_tag)]
    pub fn tag(&self) -> (t: Tag)
        ensures
            t == self.spec_tag(),
    {
        self.tag
    }

    pub closed spec fn spec_wave(&self) -> Tag {
        self.wave
    }

    /// The tag of the module whose output this one reads.
    #[verifier::when_used_as_spec(spec_wave)]
    pub fn wave(&self) -> (t: Tag)
        ensures
            t == self.spec_wave(),
    {
        self.wave
    }

    /// The rack entry describing this module.
    pub fn module(&self) -> (m: Module)
        ensures
            m == (Module { tag: self.tag(), wave: self.wave(), kind: ModuleKind::Lpf }),
    {
        Module { tag: self.tag, wave: self.wave, kind: ModuleKind::Lpf }
    }

    /// Whether the filter is bypassed; the `off` control must be a switch.
    pub fn off(&self, rack: &Rack) -> (b: bool)
        requires
            rack.controls.at(self.tag(), 2) is B,
        ensures
            b == rack.controls.at(self.tag(), 2)->B_0,
    {
        let ctrl = rack.controls.get(self.tag, 2);
        match ctrl {
            Control::B(b) => b,
            _ => {
                assert(false);
                false
            },
        }
    }

    /// Sets the bypass switch; every other control keeps its value.
    pub fn set_off(&self, controls: &mut Controls, value: bool)
        ensures
            final(controls).at(self.tag(), 2) == Control::B(value),
            forall|t: Tag, i: usize|
                !(t == self.tag() && i == 2) ==> #[trigger] final(controls).at(t, i) == old(
                    controls,
                ).at(t, i),
    {
        controls.set(self.tag, 2, value.into());
    }
}

/// Builder of a [`Lpf`]: cut-off 25 000 Hz, `q` 0.707 and not bypassed
/// unless set otherwise.
#[derive(Debug, Copy, Clone)]
pub struct LpfBuilder {
    wave: Tag,
    cut_off: Control,
    q: Control,
    off: Control,
}

impl LpfBuilder {
    pub fn new(wave: Tag) -> (r: Self)
        ensures
            r.wave_spec() == wave,
            r.cut_off_spec() == Control::V(CUT_OFF_DEFAULT),
            r.q_spec() == Control::V(Q_DEFAULT),
            r.off_spec() == Control::B(false),
    {
        Self { wave, cut_off: Control::V(CUT_OFF_DEFAULT), q: Control::V(Q_DEFAULT), off: false.into() }
    }

    pub closed spec fn wave_spec(&self) -> Tag {
        self.wave
    }

    pub closed spec fn cut_off_spec(&self) -> Control {
        self.cut_off
    }

    pub closed spec fn q_spec(&self) -> Control {
        self.q
    }

    pub closed spec fn off_spec(&self) -> Control {
        self.off
    }

    /// The builder with cut-off control `value`.
    pub fn cut_off(self, value: Control) -> (r: Self)
        ensures
            r.cut_off_spec() == value,
            r.wave_spec() == self.wave_spec(),
            r.q_spec() == self.q_spec(),
            r.off_spec() == self.off_spec(),
    {
        Self { cut_off: value, ..self }
    }

    /// The builder with resonance control `value`.
    pub fn q(self, value: Control) -> (r: Self)
        ensures
            r.q_spec() == value,
            r.wave_spec() == self.wave_spec(),
            r.cut_off_spec() == self.cut_off_spec(),
            r.off_spec() == self.off_spec(),
    {
        Self { q: value, ..self }
    }

    /// The builder with bypass control `value`.
    pub fn off(self, value: Control) -> (r: Self)
        ensures
            r.off_spec() == value,
            r.wave_spec() == self.wave_spec(),
            r.cut_off_spec() == self.cut_off_spec(),
            r.q_spec() == self.q_spec(),
    {
        Self { off: value, ..self }
    }

    /// Adds the module to `rack` under the next free tag, writing its three
    /// controls to the rack's control table.
    pub fn rack(&self, rack: &mut Rack) -> (m: Arc<Lpf>)
        ensures
            m.tag() == Tag(old(rack).modules@.len() as usize),
            m.wave() == self.wave_spec(),
            final(rack).modules@ == old(rack).modules@.push(
                Module { tag: m.tag(), wave: m.wave(), kind: ModuleKind::Lpf },
            ),
            final(rack).buffers == old(rack).buffers,
            final(rack).controls.at(m.tag(), 0) == self.cut_off_spec(),
            final(rack).controls.at(m.tag(), 1) == self.q_spec(),
            final(rack).controls.at(m.tag(), 2) == self.off_spec(),
            forall|t: Tag, i: usize|
                !(t == m.tag() && i < 3) ==> #[trigger] final(rack).controls.at(t, i) == old(
                    rack,
                ).controls.at(t, i),
    {
        let n = rack.num_modules();
        let tag = Tag(n);
        rack.controls.set(tag, 0, self.cut_off);
        rack.controls.set(tag, 1, self.q);
        rack.controls.set(tag, 2, self.off);
        let f = Arc::new(Lpf::new(n.into(), self.wave));
        rack.push(f.module());
        f
    }
}

/// Two-pole high-pass filter: reads the output of module `wave`; its controls are the cut-off
/// (slot 0), the resonance `q` (slot 1) and the bypass switch `off` (slot 2).
#[derive(Debug, Copy, Clone)]
pub struct Hpf {
    tag: Tag,
    wave: Tag,
}

impl Hpf {
    pub fn new(tag: Tag, wave: Tag) -> (r: Self)
        ensures
            r.tag() == tag,
            r.wave() == wave,
    {
        Self { tag, wave }
    }

    pub closed spec fn spec_tag(&self) -> Tag {
        self.tag
    }

    /// The tag of this module.
    #[verifier::when_used_as_spec(spec_tag)]
    pub fn tag(&self) -> (t: Tag)
        ensures
            t == self.spec_tag(),
    {
        self.tag
    }

    pub closed spec fn spec_wave(&self) -> Tag {
        self.wave
    }

    /// The tag of the module whose output this one reads.
    #[verifier::when_used_as_spec(spec_wave)]
    pub fn wave(&self) -> (t: Tag)
        ensures
            t == self.spec_wave(),
    {
        self.wave
    }

    /// The rack entry describing this module.
    pub fn module(&self) -> (m: Module)
        ensures
            m == (Module { tag: self.tag(), wave: self.wave(), kind: ModuleKind::Hpf }),
    {
        Module { tag: self.tag, wave: self.wave, kind: ModuleKind::Hpf }
    }

    /// Whether the filter is bypassed; the `off` control must be a switch.
    pub fn off(&self, rack: &Rack) -> (b: bool)
        requires
            rack.controls.at(self.tag(), 2) is B,
        ensures
            b == rack.controls.at(self.tag(), 2)->B_0,
    {
        let ctrl = rack.controls.get(self.tag, 2);
        match ctrl {
            Control::B(b) => b,
            _ => {
                assert(false);
                false
            },
        }
    }

    /// Sets the bypass switch; every other control, the modules and the
    /// buffers keep their values.
    pub fn set_off(&self, rack: &mut Rack, value: bool)
        ensures
            final(rack).controls.at(self.tag(), 2) == Control::B(value),
            forall|t: Tag, i: usize|
                !(t == self.tag() && i == 2) ==> #[trigger] final(rack).controls.at(t, i) == old(
                    rack,
                ).controls.at(t, i),
            final(rack).modules@ == old(rack).modules@,
            final(rack).buffers == old(rack).buffers,
    {
        rack.controls.set(self.tag, 2, value.into());
    }
}

/// Builder of a [`Hpf`]: cut-off 25 000 Hz, `q` 0.707 and not bypassed
/// unless set otherwise.
#[derive(Debug, Copy, Clone)]
pub struct HpfBuilder {
    wave: Tag,
    cut_off: Control,
    q: Control,
    off: Control,
}

impl HpfBuilder {
    pub fn new(wave: Tag) -> (r: Self)
        ensures
            r.wave_spec() == wave,
            r.cut_off_spec() == Control::V(CUT_OFF_DEFAULT),
            r.q_spec() == Control::V(Q_DEFAULT),
            r.off_spec() == Control::B(false),
    {
        Self { wave, cut_off: Control::V(CUT_OFF_DEFAULT), q: Control::V(Q_DEFAULT), off: false.into() }
    }

    pub closed spec fn wave_spec(&self) -> Tag {
        self.wave
    }

    pub closed spec fn cut_off_spec(&self) -> Control {
        self.cut_off
    }

    pub closed spec fn q_spec(&self) -> Control {
        self.q
    }

    pub closed spec fn off_spec(&self) -> Control {
        self.off
    }

    /// The builder with cut-off control `value`.
    pub fn cut_off(self, value: Control) -> (r: Self)
        ensures
            r.cut_off_spec() == value,
            r.wave_spec() == self.wave_spec(),
            r.q_spec() == self.q_spec(),
            r.off_spec() == self.off_spec(),
    {
        Self { cut_off: value, ..self }
    }

    /// The builder with resonance control `value`.
    pub fn q(self, value: Control) -> (r: Self)
        ensures
            r.q_spec() == value,
            r.wave_spec() == self.wave_spec(),
            r.cut_off_spec() == self.cut_off_spec(),
            r.off_spec() == self.off_spec(),
    {
        Self { q: value, ..self }
    }

    /// The builder with bypass control `value`.
    pub fn off(self, value: Control) -> (r: Self)
        ensures
            r.off_spec() == value,
            r.wave_spec() == self.wave_spec(),
            r.cut_off_spec() == self.cut_off_spec(),
            r.q_spec() == self.q_spec(),
    {
        Self { off: value, ..self }
    }

    /// Adds the module to `rack` under the next free tag, writing its three
    /// controls to the rack's control table.
    pub fn rack(&self, rack: &mut Rack) -> (m: Arc<Hpf>)
        ensures
            m.tag() == Tag(old(rack).modules@.len() as usize),
            m.wave() == self.wave_spec(),
            final(rack).modules@ == old(rack).modules@.push(
                Module { tag: m.tag(), wave: m.wave(), kind: ModuleKind::Hpf },
            ),
            final(rack).buffers == old(rack).buffers,
            final(rack).controls.at(m.tag(), 0) == self.cut_off_spec(),
            final(rack).controls.at(m.tag(), 1) == self.q_spec(),
            final(rack).controls.at(m.tag(), 2) == self.off_spec(),
            forall|t: Tag, i: usize|
                !(t == m.tag() && i < 3) ==> #[trigger] final(rack).controls.at(t, i) == old(
                    rack,
                ).controls.at(t, i),
    {
        let n = rack.num_modules();
        let tag = Tag(n);
        rack.controls.set(tag, 0, self.cut_off);
        rack.controls.set(tag, 1, self.q);
        rack.controls.set(tag, 2, self.off);
        let f = Arc::new(Hpf::new(n.into(), self.wave));
        rack.push(f.module());
        f
    }
}

/// Two-pole band-pass filter: reads the output of module `wave`; its controls are the cut-off
/// (slot 0), the resonance `q` (slot 1) and the bypass switch `off` (slot 2).
#[derive(Debug, Copy, Clone)]
pub struct Bpf {
    tag: Tag,
    wave: Tag,
}

impl Bpf {
    pub fn new(tag: Tag, wave: Tag) -> (r: Self)
        ensures
            r.tag() == tag,
            r.wave() == wave,
    {
        Self { tag, wave }
    }

    pub closed spec fn spec_tag(&self) -> Tag {
        self.tag
    }

    /// The tag of this module.
    #[verifier::when_used_as_spec(spec_tag)]
    pub fn tag(&self) -> (t: Tag)
        ensures
            t == self.spec_tag(),
    {
        self.tag
    }

    pub closed spec fn spec_wave(&self) -> Tag {
        self.wave
    }

    /// The tag of the module whose output this one reads.
    #[verifier::when_used_as_spec(spec_wave)]
    pub fn wave(&self) -> (t: Tag)
        ensures
            t == self.spec_wave(),
    {
        self.wave
    }

    /// The rack entry describing this module.
    pub fn module(&self) -> (m: Module)
        ensures
            m == (Module { tag: self.tag(), wave: self.wave(), kind: ModuleKind::Bpf }),
    {
        Module { tag: self.tag, wave: self.wave, kind: ModuleKind::Bpf }
    }

    /// Whether the filter is bypassed; the `off` control must be a switch.
    pub fn off(&self, rack: &Rack) -> (b: bool)
        requires
            rack.controls.at(self.tag(), 2) is B,
        ensures
            b == rack.controls.at(self.tag(), 2)->B_0,
    {
        let ctrl = rack.controls.get(self.tag, 2);
        match ctrl {
            Control::B(b) => b,
            _ => {
                assert(false);
                false
            },
        }
    }

    /// Sets the bypass switch; every other control keeps its value.
    pub fn set_off(&self, controls: &mut Controls, value: bool)
        ensures
            final(controls).at(self.tag(), 2) == Control::B(value),
            forall|t: Tag, i: usize|
                !(t == self.tag() && i == 2) ==> #[trigger] final(controls).at(t, i) == old(
                    controls,
                ).at(t, i),
    {
        controls.set(self.tag, 2, value.into());
    }
}

/// Builder of a [`Bpf`]: cut-off 25 000 Hz, `q` 0.707 and not bypassed
/// unless set otherwise.
#[derive(Debug, Copy, Clone)]
pub struct BpfBuilder {
    wave: Tag,
    cut_off: Control,
    q: Control,
    off: Control,
}

impl BpfBuilder {
    pub fn new(wave: Tag) -> (r: Self)
        ensures
            r.wave_spec() == wave,
            r.cut_off_spec() == Control::V(CUT_OFF_DEFAULT),
            r.q_spec() == Control::V(Q_DEFAULT),
            r.off_spec() == Control::B(false),
    {
        Self { wave, cut_off: Control::V(CUT_OFF_DEFAULT), q: Control::V(Q_DEFAULT), off: false.into() }
    }

    pub closed spec fn wave_spec(&self) -> Tag {
        self.wave
    }

    pub closed spec fn cut_off_spec(&self) -> Control {
        self.cut_off
    }

    pub closed spec fn q_spec(&self) -> Control {
        self.q
    }

    pub closed spec fn off_spec(&self) -> Control {
        self.off
    }

    /// The builder with cut-off control `value`.
    pub fn cut_off(self, value: Control) -> (r: Self)
        ensures
            r.cut_off_spec() == value,
            r.wave_spec() == self.wave_spec(),
            r.q_spec() == self.q_spec(),
            r.off_spec() == self.off_spec(),
    {
        Self { cut_off: value, ..self }
    }

    /// The builder with resonance control `value`.
    pub fn q(self, value: Control) -> (r: Self)
        ensures
            r.q_spec() == value,
            r.wave_spec() == self.wave_spec(),
            r.cut_off_spec() == self.cut_off_spec(),
            r.off_spec() == self.off_spec(),
    {
        Self { q: value, ..self }
    }

    /// The builder with bypass control `value`.
    pub fn off(self, value: Control) -> (r: Self)
        ensures
            r.off_spec() == value,
            r.wave_spec() == self.wave_spec(),
            r.cut_off_spec() == self.cut_off_spec(),
            r.q_spec() == self.q_spec(),
    {
        Self { off: value, ..self }
    }

    /// Adds the module to `rack` under the next free tag, writing its three
    /// controls to the rack's control table.
    pub fn rack(&self, rack: &mut Rack) -> (m: Arc<Bpf>)
        ensures
            m.tag() == Tag(old(rack).modules@.len() as usize),
            m.wave() == self.wave_spec(),
            final(rack).modules@ == old(rack).modules@.push(
                Module { tag: m.tag(), wave: m.wave(), kind: ModuleKind::Bpf },
            ),
            final(rack).buffers == old(rack).buffers,
            final(rack).controls.at(m.tag(), 0) == self.cut_off_spec(),
            final(rack).controls.at(m.tag(), 1) == self.q_spec(),
            final(rack).controls.at(m.tag(), 2) == self.off_spec(),
            forall|t: Tag, i: usize|
                !(t == m.tag() && i < 3) ==> #[trigger] final(rack).controls.at(t, i) == old(
                    rack,
                ).controls.at(t, i),
    {
        let n = rack.num_modules();
        let tag = Tag(n);
        rack.controls.set(tag, 0, self.cut_off);
        rack.controls.set(tag, 1, self.q);
        rack.controls.set(tag, 2, self.off);
        let f = Arc::new(Bpf::new(n.into(), self.wave));
        rack.push(f.module());
        f
    }
}

/// Two-pole band-reject filter: reads the output of module `wave`; its controls are the cut-off
/// (slot 0), the resonance `q` (slot 1) and the bypass switch `off` (slot 2).
#[derive(Debug, Copy, Clone)]
pub struct Notch {
    tag: Tag,
    wave: Tag,
}

impl Notch {
    pub fn new(tag: Tag, wave: Tag) -> (r: Self)
        ensures
            r.tag() == tag,
            r.wave() == wave,
    {
        Self { tag, wave }
    }

    pub closed spec fn spec_tag(&self) -> Tag {
        self.tag
    }

    /// The tag of this module.
    #[verifier::when_used_as_spec(spec_tag)]
    pub fn tag(&self) -> (t: Tag)
        ensures
            t == self.spec_tag(),
    {
        self.tag
    }

    pub closed spec fn spec_wave(&self) -> Tag {
        self.wave
    }

    /// The tag of the module whose output this one reads.
    #[verifier::when_used_as_spec(spec_wave)]
    pub fn wave(&self) -> (t: Tag)
        ensures
            t == self.spec_wave(),
    {
        self.wave
    }

    /// The rack entry describing this module.
    pub fn module(&self) -> (m: Module)
        ensures
            m == (Module { tag: self.tag(), wave: self.wave(), kind: ModuleKind::Notch }),
    {
        Module { tag: self.tag, wave: self.wave, kind: ModuleKind::Notch }
    }

    /// Whether the filter is bypassed; the `off` control must be a switch.
    pub fn off(&self, rack: &Rack) -> (b: bool)
        requires
            rack.controls.at(self.tag(), 2) is B,
        ensures
            b == rack.controls.at(self.tag(), 2)->B_0,
    {
        let ctrl = rack.controls.get(self.tag, 2);
        match ctrl {
            Control::B(b) => b,
            _ => {
                assert(false);
                false
            },
        }
    }

    /// Sets the bypass switch; every other control, the modules and the
    /// buffers keep their values.
    pub fn set_off(&self, rack: &mut Rack, value: bool)
        ensures
            final(rack).controls.at(self.tag(), 2) == Control::B(value),
            forall|t: Tag, i: usize|
                !(t == self.tag() && i == 2) ==> #[trigger] final(rack).controls.at(t, i) == old(
                    rack,
                ).controls.at(t, i),
            final(rack).modules@ == old(rack).modules@,
            final(rack).buffers == old(rack).buffers,
    {
        rack.controls.set(self.tag, 2, value.into());
    }
}

/// Builder of a [`Notch`]: cut-off 25 000 Hz, `q` 0.707 and not bypassed
/// unless set otherwise.
#[derive(Debug, Copy, Clone)]
pub struct NotchBuilder {
    wave: Tag,
    cut_off: Control,
    q: Control,
    off: Control,
}

impl NotchBuilder {
    pub fn new(wave: Tag) -> (r: Self)
        ensures
            r.wave_spec() == wave,
            r.cut_off_spec() == Control::V(CUT_OFF_DEFAULT),
            r.q_spec() == Control::V(Q_DEFAULT),
            r.off_spec() == Control::B(false),
    {
        Self { wave, cut_off: Control::V(CUT_OFF_DEFAULT), q: Control::V(Q_DEFAULT), off: false.into() }
    }

    pub closed spec fn wave_spec(&self) -> Tag {
        self.wave
    }

    pub closed spec fn cut_off_spec(&self) -> Control {
        self.cut_off
    }

    pub closed spec fn q_spec(&self) -> Control {
        self.q
    }

    pub closed spec fn off_spec(&self) -> Control {
        self.off
    }

    /// The builder with cut-off control `value`.
    pub fn cut_off(self, value: Control) -> (r: Self)
        ensures
            r.cut_off_spec() == value,
            r.wave_spec() == self.wave_spec(),
            r.q_spec() == self.q_spec(),
            r.off_spec() == self.off_spec(),
    {
        Self { cut_off: value, ..self }
    }

    /// The builder with resonance control `value`.
    pub fn q(self, value: Control) -> (r: Self)
        ensures
            r.q_spec() == value,
            r.wave_spec() == self.wave_spec(),
            r.cut_off_spec() == self.cut_off_spec(),
            r.off_spec() == self.off_spec(),
    {
        Self { q: value, ..self }
    }

    /// The builder with bypass control `value`.
    pub fn off(self, value: Control) -> (r: Self)
        ensures
            r.off_spec() == value,
            r.wave_spec() == self.wave_spec(),
            r.cut_off_spec() == self.cut_off_spec(),
            r.q_spec() == self.q_spec(),
    {
        Self { off: value, ..self }
    }

    /// Adds the module to `rack` under the next free tag, writing its three
    /// controls to `controls`.
    pub fn rack(&self, rack: &mut Rack, controls: &mut Controls) -> (m: Arc<Notch>)
        ensures
            m.tag() == Tag(old(rack).modules@.len() as usize),
            m.wave() == self.wave_spec(),
            final(rack).modules@ == old(rack).modules@.push(
                Module { tag: m.tag(), wave: m.wave(), kind: ModuleKind::Notch },
            ),
            final(rack).controls == old(rack).controls,
            final(rack).buffers == old(rack).buffers,
            final(controls).at(m.tag(), 0) == self.cut_off_spec(),
            final(controls).at(m.tag(), 1) == self.q_spec(),
            final(controls).at(m.tag(), 2) == self.off_spec(),
            forall|t: Tag, i: usize|
                !(t == m.tag() && i < 3) ==> #[trigger] final(controls).at(t, i) == old(
                    controls,
                ).at(t, i),
    {
        let n = rack.num_modules();
        let tag = Tag(n);
        controls.set(tag, 0, self.cut_off);
        controls.set(tag, 1, self.q);
        controls.set(tag, 2, self.off);
        let f = Arc::new(Notch::new(n.into(), self.wave));
        rack.push(f.module());
        f
    }
}

/// Low-pass-feedback comb filter: reads module `wave` through its delay
/// line; its controls are the feedback (slot 0), the dampening (slot 1) and
/// the dampening inverse (slot 2).
#[derive(Clone)]
pub struct Comb {
    tag: Tag,
    wave: Tag,
}

impl Comb {
    pub fn new<T: Into<Tag>>(tag: T, wave: Tag) -> (r: Self)
        ensures
            T::obeys_into_spec() ==> r.tag() == tag.into_spec(),
            r.wave() == wave,
    {
        Self { tag: tag.into(), wave }
    }

    pub closed spec fn spec_tag(&self) -> Tag {
        self.tag
    }

    /// The tag of this module.
    #[verifier::when_used_as_spec(spec_tag)]
    pub fn tag(&self) -> (t: Tag)
        ensures
            t == self.spec_tag(),
    {
        self.tag
    }

    pub closed spec fn spec_wave(&self) -> Tag {
        self.wave
    }

    /// The tag of the module whose output this one reads.
    #[verifier::when_used_as_spec(spec_wave)]
    pub fn wave(&self) -> (t: Tag)
        ensures
            t == self.spec_wave(),
    {
        self.wave
    }

    /// The rack entry describing this module.
    pub fn module(&self) -> (m: Module)
        ensures
            m == (Module { tag: self.tag(), wave: self.wave(), kind: ModuleKind::Comb }),
    {
        Module { tag: self.tag, wave: self.wave, kind: ModuleKind::Comb }
    }
}

/// Builder of a [`Comb`] with a delay line of `length` samples; feedback,
/// dampening and dampening inverse are 0.5 unless set otherwise.
#[derive(Clone)]
pub struct CombBuilder {
    wave: Tag,
    length: usize,
    feedback: Control,
    dampening: Control,
    dampening_inverse: Control,
}

impl CombBuilder {
    pub fn new(wave: Tag, length: usize) -> (r: Self)
        ensures
            r.wave_spec() == wave,
            r.length_spec() == length,
            r.feedback_spec() == Control::V(COMB_DEFAULT),
            r.dampening_spec() == Control::V(COMB_DEFAULT),
            r.dampening_inverse_spec() == Control::V(COMB_DEFAULT),
    {
        Self {
            wave,
            length,
            feedback: Control::V(COMB_DEFAULT),
            dampening: Control::V(COMB_DEFAULT),
            dampening_inverse: Control::V(COMB_DEFAULT),
        }
    }

    pub closed spec fn wave_spec(&self) -> Tag {
        self.wave
    }

    pub closed spec fn length_spec(&self) -> usize {
        self.length
    }

    pub closed spec fn feedback_spec(&self) -> Control {
        self.feedback
    }

    pub closed spec fn dampening_spec(&self) -> Control {
        self.dampening
    }

    pub closed spec fn dampening_inverse_spec(&self) -> Control {
        self.dampening_inverse
    }

    /// The builder with feedback control `value`.
    pub fn feedback(self, value: Control) -> (r: Self)
        ensures
            r.feedback_spec() == value,
            r.wave_spec() == self.wave_spec(),
            r.length_spec() == self.length_spec(),
            r.dampening_spec() == self.dampening_spec(),
            r.dampening_inverse_spec() == self.dampening_inverse_spec(),
    {
        Self { feedback: value, ..self }
    }

    /// The builder with dampening control `value`.
    pub fn dampening(self, value: Control) -> (r: Self)
        ensures
            r.dampening_spec() == value,
            r.wave_spec() == self.wave_spec(),
            r.length_spec() == self.length_spec(),
            r.feedback_spec() == self.feedback_spec(),
            r.dampening_inverse_spec() == self.dampening_inverse_spec(),
    {
        Self { dampening: value, ..self }
    }

    /// The builder with dampening-inverse control `value`.
    pub fn dampening_inverse(self, value: Control) -> (r: Self)
        ensures
            r.dampening_inverse_spec() == value,
            r.wave_spec() == self.wave_spec(),
            r.length_spec() == self.length_spec(),
            r.feedback_spec() == self.feedback_spec(),
            r.dampening_spec() == self.dampening_spec(),
    {
        Self { dampening_inverse: value, ..self }
    }

    /// Adds the comb to `rack` under the next free tag, writes its three
    /// controls and gives it a silent delay line of `length` samples.
    pub fn rack(&mut self, rack: &mut Rack) -> (m: Arc<Comb>)
        ensures
            *final(self) == *old(self),
            m.tag() == Tag(old(rack).modules@.len() as usize),
            m.wave() == old(self).wave_spec(),
            final(rack).modules@ == old(rack).modules@.push(
                Module { tag: m.tag(), wave: m.wave(), kind: ModuleKind::Comb },
            ),
            final(rack).controls.at(m.tag(), 0) == old(self).feedback_spec(),
            final(rack).controls.at(m.tag(), 1) == old(self).dampening_spec(),
            final(rack).controls.at(m.tag(), 2) == old(self).dampening_inverse_spec(),
            forall|t: Tag, i: usize|
                !(t == m.tag() && i < 3) ==> #[trigger] final(rack).controls.at(t, i) == old(
                    rack,
                ).controls.at(t, i),
            final(rack).buffers.at(m.tag()) matches Some(b) && b.contents()
                =~= Seq::new(old(self).length_spec() as nat, |i: int| 0u32),
            forall|t: Tag| t != m.tag() ==> #[trigger] final(rack).buffers.at(t) == old(
                rack,
            ).buffers.at(t),
    {
        let n = rack.num_modules();
        let tag = Tag(n);
        rack.controls.set(tag, 0, self.feedback);
        rack.controls.set(tag, 1, self.dampening);
        rack.controls.set(tag, 2, self.dampening_inverse);
        let comb = Arc::new(Comb::new(n, self.wave));
        let buffer = RingBuffer::new(1, silence(self.length));
        rack.buffers.set_buffer(comb.tag, buffer);
        rack.push(comb.module());
        comb
    }
}

/// All-pass filter over a delay line, reading module `wave`.
#[derive(Debug, Copy, Clone)]
pub struct AllPass {
    tag: Tag,
    wave: Tag,
}

impl AllPass {
    pub fn new<T: Into<Tag>>(tag: T, wave: Tag) -> (r: Self)
        ensures
            T::obeys_into_spec() ==> r.tag() == tag.into_spec(),
            r.wave() == wave,
    {
        Self { tag: tag.into(), wave }
    }

    pub closed spec fn spec_tag(&self) -> Tag {
        self.tag
    }

    /// The tag of this module.
    #[verifier::when_used_as_spec(spec_tag)]
    pub fn tag(&self) -> (t: Tag)
        ensures
            t == self.spec_tag(),
    {
        self.tag
    }

    pub closed spec fn spec_wave(&self) -> Tag {
        self.wave
    }

    /// The tag of the module whose output this one reads.
    #[verifier::when_used_as_spec(spec_wave)]
    pub fn wave(&self) -> (t: Tag)
        ensures
            t == self.spec_wave(),
    {
        self.wave
    }

    /// The rack entry describing this module.
    pub fn module(&self) -> (m: Module)
        ensures
            m == (Module { tag: self.tag(), wave: self.wave(), kind: ModuleKind::AllPass }),
    {
        Module { tag: self.tag, wave: self.wave, kind: ModuleKind::AllPass }
    }
}

/// Builder of an [`AllPass`] with a delay line of `length` samples.
#[derive(Clone)]
pub struct AllPassBuilder {
    wave: Tag,
    length: usize,
}

impl AllPassBuilder {
    pub fn new(wave: Tag, length: usize) -> (r: Self)
        ensures
            r.wave_spec() == wave,
            r.length_spec() == length,
    {
        Self { wave, length }
    }

    pub closed spec fn wave_spec(&self) -> Tag {
        self.wave
    }

    pub closed spec fn length_spec(&self) -> usize {
        self.length
    }

    /// Adds the all-pass filter to `rack` under the next free tag and gives
    /// it a silent delay line of `length` samples in `buffers`.
    pub fn rack(&mut self, rack: &mut Rack, buffers: &mut Buffers) -> (m: Arc<AllPass>)
        ensures
            *final(self) == *old(self),
            m.tag() == Tag(old(rack).modules@.len() as usize),
            m.wave() == old(self).wave_spec(),
            final(rack).modules@ == old(rack).modules@.push(
                Module { tag: m.tag(), wave: m.wave(), kind: ModuleKind::AllPass },
            ),
            final(rack).controls == old(rack).controls,
            final(rack).buffers == old(rack).buffers,
            final(buffers).at(m.tag()) matches Some(b) && b.contents()
                =~= Seq::new(old(self).length_spec() as nat, |i: int| 0u32),
            forall|t: Tag| t != m.tag() ==> #[trigger] final(buffers).at(t) == old(buffers).at(t),
    {
        let n = rack.num_modules();
        let allpass = Arc::new(AllPass::new(n, self.wave));
        let buffer = RingBuffer::new(1, silence(self.length));
        buffers.set_buffer(allpass.tag, buffer);
        rack.push(allpass.module());
        allpass
    }
}

/// `length` silent samples.
fn silence(length: usize) -> (v: Vec<u32>)
    ensures
        v@ =~= Seq::new(length as nat, |i: int| 0u32),
{
    let mut v: Vec<u32> = Vec::with_capacity(length);
    let mut i: usize = 0;
    while i < length
        invariant
            i <= length,
            v@ =~= Seq::new(i as nat, |k: int| 0u32),
        decreases length - i,
    {
        v.push(0);
        i += 1;
    }
    v
}

} // verus!
