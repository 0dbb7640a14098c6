use oscen::fil;
use oscen::filters::{AllPassBuilder, CombBuilder, HpfBuilder, Lpf, LpfBuilder, NotchBuilder};
use oscen::instruments::{WaveGuideBuilder, DECAY_DEFAULT, HZ_INV_DEFAULT, WAVEGUIDE_CUTOFF_DEFAULT};
use oscen::rack::{
    Buffers, Control, Controls, Module, ModuleKind, Rack, RingBuffer, Tag, COMB_DEFAULT,
    CUT_OFF_DEFAULT, Q_DEFAULT,
};

#[test]
fn default_control_patterns_are_the_documented_values() {
    assert_eq!(CUT_OFF_DEFAULT, 25_000.0f32.to_bits());
    assert_eq!(Q_DEFAULT, 0.707f32.to_bits());
    assert_eq!(COMB_DEFAULT, 0.5f32.to_bits());
    assert_eq!(HZ_INV_DEFAULT, (1.0f32 / 440.0).to_bits());
    assert_eq!(WAVEGUIDE_CUTOFF_DEFAULT, 2000.0f32.to_bits());
    assert_eq!(DECAY_DEFAULT, 0.95f32.to_bits());
}

#[test]
fn conversions_into_tag_and_control() {
    let t: Tag = 3usize.into();
    assert_eq!(t, Tag(3));
    let c: Control = true.into();
    assert_eq!(c, Control::B(true));
}

#[test]
fn controls_read_back_what_was_written() {
    let mut c = Controls::new();
    assert_eq!(c.get(Tag(4), 1), Control::V(0));
    c.set(Tag(4), 1, Control::I(Tag(2)));
    c.set(Tag(0), 0, Control::B(true));
    assert_eq!(c.get(Tag(4), 1), Control::I(Tag(2)));
    assert_eq!(c.get(Tag(0), 0), Control::B(true));
    assert_eq!(c.get(Tag(4), 0), Control::V(0));
    assert_eq!(c.get(Tag(2), 7), Control::V(0));
    c.set(Tag(4), 1, Control::V(7));
    assert_eq!(c.get(Tag(4), 1), Control::V(7));
}

#[test]
fn ring_buffer_delays_by_its_length() {
    let mut r = RingBuffer::new(0, vec![1, 2, 3]);
    assert_eq!(r.len(), 3);
    assert_eq!(r.get_max_delay(), 1);
    r.push(10);
    assert_eq!(r.get_max_delay(), 2);
    r.push(11);
    r.push(12);
    // After as many pushes as slots, the oldest sample is the first pushed.
    assert_eq!(r.get_max_delay(), 10);
    r.push(13);
    assert_eq!(r.get_max_delay(), 11);
}

#[test]
fn ring_buffer_start_index_wraps() {
    let r = RingBuffer::new(4, vec![1, 2, 3]);
    assert_eq!(r.get_max_delay(), 2);
}

#[test]
fn buffers_hold_one_ring_per_tag() {
    let mut b = Buffers::new();
    assert!(b.buffer(Tag(1)).is_none());
    b.set_buffer(Tag(1), RingBuffer::new(0, vec![5, 6]));
    assert!(b.buffer(Tag(0)).is_none());
    assert_eq!(b.buffer(Tag(1)).unwrap().get_max_delay(), 5);
    b.push(Tag(1), 9);
    assert_eq!(b.buffer(Tag(1)).unwrap().get_max_delay(), 6);
    b.push(Tag(1), 10);
    assert_eq!(b.buffer(Tag(1)).unwrap().get_max_delay(), 9);
}

#[test]
fn rack_push_appends_modules() {
    let mut rack = Rack::new();
    assert_eq!(rack.num_modules(), 0);
    let m = Module { tag: Tag(0), wave: Tag(0), kind: ModuleKind::Lpf };
    rack.push(m);
    assert_eq!(rack.num_modules(), 1);
    assert_eq!(rack.modules[0], m);
}

#[test]
fn lpf_builder_writes_defaults_and_takes_next_tag() {
    let mut rack = Rack::new();
    let first = LpfBuilder::new(Tag(7)).rack(&mut rack);
    assert_eq!(first.tag(), Tag(0));
    assert_eq!(first.wave(), Tag(7));
    let second = LpfBuilder::new(Tag(0)).cut_off(Control::V(1)).q(Control::V(2)).rack(&mut rack);
    assert_eq!(second.tag(), Tag(1));
    assert_eq!(rack.controls.get(Tag(0), 0), Control::V(CUT_OFF_DEFAULT));
    assert_eq!(rack.controls.get(Tag(0), 1), Control::V(Q_DEFAULT));
    assert_eq!(rack.controls.get(Tag(0), 2), Control::B(false));
    assert_eq!(rack.controls.get(Tag(1), 0), Control::V(1));
    assert_eq!(rack.controls.get(Tag(1), 1), Control::V(2));
    assert!(!second.off(&rack));
    assert_eq!(
        rack.modules,
        vec![
            Module { tag: Tag(0), wave: Tag(7), kind: ModuleKind::Lpf },
            Module { tag: Tag(1), wave: Tag(0), kind: ModuleKind::Lpf },
        ]
    );
}

#[test]
fn bypass_switch_round_trip() {
    let mut rack = Rack::new();
    let lpf = LpfBuilder::new(Tag(0)).off(Control::B(true)).rack(&mut rack);
    assert!(lpf.off(&rack));
    lpf.set_off(&mut rack.controls, false);
    assert!(!lpf.off(&rack));
    assert_eq!(rack.controls.get(Tag(0), 0), Control::V(CUT_OFF_DEFAULT));

    let hpf = HpfBuilder::new(Tag(0)).rack(&mut rack);
    assert_eq!(hpf.tag(), Tag(1));
    hpf.set_off(&mut rack, true);
    assert!(hpf.off(&rack));
    assert!(!lpf.off(&rack));
}

#[test]
fn lpf_new_and_module() {
    let f = Lpf::new(Tag(2), Tag(1));
    assert_eq!(f.module(), Module { tag: Tag(2), wave: Tag(1), kind: ModuleKind::Lpf });
}

#[test]
fn separate_control_table_builders() {
    let mut rack = Rack::new();
    let mut controls = Controls::new();
    let f = fil::BpfBuilder::new(Tag(3)).q(Control::V(5)).rack(&mut rack, &mut controls);
    assert_eq!(f.tag(), Tag(0));
    assert_eq!(controls.get(Tag(0), 0), Control::V(CUT_OFF_DEFAULT));
    assert_eq!(controls.get(Tag(0), 1), Control::V(5));
    assert!(!f.off(&controls));
    f.set_off(&mut controls, true);
    assert!(f.off(&controls));
    // The rack's own table is untouched.
    assert_eq!(rack.controls.get(Tag(0), 1), Control::V(0));
    assert_eq!(rack.modules[0].kind, ModuleKind::Bpf);
}

#[test]
fn notch_builder_uses_given_table() {
    let mut rack = Rack::new();
    let mut controls = Controls::new();
    let n = NotchBuilder::new(Tag(0)).rack(&mut rack, &mut controls);
    assert_eq!(n.tag(), Tag(0));
    assert_eq!(controls.get(Tag(0), 2), Control::B(false));
    assert_eq!(rack.modules[0].kind, ModuleKind::Notch);
}

#[test]
fn comb_builder_sets_controls_and_silent_delay_line() {
    let mut rack = Rack::new();
    let _lpf = LpfBuilder::new(Tag(0)).rack(&mut rack);
    let mut builder = CombBuilder::new(Tag(0), 4).dampening(Control::V(3));
    let comb = builder.rack(&mut rack);
    assert_eq!(comb.tag(), Tag(1));
    assert_eq!(comb.wave(), Tag(0));
    assert_eq!(rack.controls.get(Tag(1), 0), Control::V(COMB_DEFAULT));
    assert_eq!(rack.controls.get(Tag(1), 1), Control::V(3));
    assert_eq!(rack.controls.get(Tag(1), 2), Control::V(COMB_DEFAULT));
    let line = rack.buffers.buffer(Tag(1)).unwrap();
    assert_eq!(line.len(), 4);
    assert_eq!(line.get_max_delay(), 0);
    assert!(rack.buffers.buffer(Tag(0)).is_none());
    assert_eq!(rack.modules[1].kind, ModuleKind::Comb);
}

#[test]
fn allpass_builder_uses_given_buffers() {
    let mut rack = Rack::new();
    let mut buffers = Buffers::new();
    let ap = AllPassBuilder::new(Tag(0), 3).rack(&mut rack, &mut buffers);
    assert_eq!(ap.tag(), Tag(0));
    assert_eq!(buffers.buffer(Tag(0)).unwrap().len(), 3);
    assert!(rack.buffers.buffer(Tag(0)).is_none());
    assert_eq!(rack.modules[0].kind, ModuleKind::AllPass);
}

#[test]
fn waveguide_builder_chains_setters() {
    let _w = WaveGuideBuilder::new(Tag(1)).hz_inv(Control::V(1)).cutoff(Control::V(2)).decay(Control::V(3));
}

#[test]
fn a_ring_of_no_slots_is_empty() {
    let r = RingBuffer::new(3, vec![]);
    assert_eq!(r.len(), 0);
}

#[test]
fn builders_accept_a_delay_line_of_no_samples() {
    let mut rack = Rack::new();
    let comb = CombBuilder::new(Tag(0), 0).rack(&mut rack);
    assert_eq!(rack.buffers.buffer(comb.tag()).unwrap().len(), 0);
    let mut buffers = Buffers::new();
    let ap = AllPassBuilder::new(Tag(0), 0).rack(&mut rack, &mut buffers);
    assert_eq!(buffers.buffer(ap.tag()).unwrap().len(), 0);
    assert_eq!(rack.num_modules(), 2);
}
