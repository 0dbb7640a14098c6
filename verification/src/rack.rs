//! The module rack: the list of modules, their control table and their
//! sample buffers.
//!
//! Real-valued controls and samples are held as their IEEE-754 binary32 bit
//! patterns (`f32::to_bits`). The rack stores, copies and reorders them; the
//! arithmetic on them belongs to the signal code that reads them back.
use vstd::prelude::*;
use vstd::std_specs::convert::FromSpecImpl;

verus! {

/// Index of a module in a rack.
#[derive(Copy, Clone, Debug, PartialEq, Eq, Structural)]
pub struct Tag(pub usize);

impl From<usize> for Tag {
    fn from(n: usize) -> (t: Tag) {
        Tag(n)
    }
}

impl FromSpecImpl<usize> for Tag {
    open spec fn obeys_from_spec() -> bool {
        true
    }

    open spec fn from_spec(v: usize) -> Tag {
        Tag(v)
    }
}

/// A module control: a real value (its binary32 bit pattern), the output of
/// another module, or a switch.
#[derive(Copy, Clone, Debug, PartialEq, Eq, Structural)]
pub enum Control {
    V(u32),
    I(Tag),
    B(bool),
}

impl From<bool> for Control {
    fn from(b: bool) -> (c: Control) {
        Control::B(b)
    }
}

impl FromSpecImpl<bool> for Control {
    open spec fn obeys_from_spec() -> bool {
        true
    }

    open spec fn from_spec(v: bool) -> Control {
        Control::B(v)
    }
}

/// Default cut-off control of the two-pole filters: 25 000.0.
pub const CUT_OFF_DEFAULT: u32 = 0x46c3_5000;

/// Default resonance control of the two-pole filters: 0.707.
pub const Q_DEFAULT: u32 = 0x3f34_fdf4;

/// Default feedback and dampening controls of the comb filter: 0.5.
pub const COMB_DEFAULT: u32 = 0x3f00_0000;

/// The value a control slot holds before anything is written to it: the real
/// value `0.0`.
pub open spec fn unset_control() -> Control {
    Control::V(0)
}

/// Table of controls, addressed by module tag and control index. Every slot
/// exists; slots never written hold [`unset_control`].
pub struct Controls {
    rows: Vec<Vec<Control>>,
}

impl Controls {
    /// The control at slot `index` of module `tag`.
    pub closed spec fn at(&self, tag: Tag, index: usize) -> Control {
        if tag.0 < self.rows@.len() && index < self.rows@[tag.0 as int]@.len() {
            self.rows@[tag.0 as int]@[index as int]
        } else {
            unset_control()
        }
    }

    pub fn new() -> (c: Controls)
        ensures
            forall|t: Tag, i: usize| #[trigger] c.at(t, i) == unset_control(),
    {
        Controls { rows: Vec::new() }
    }

    /// Reads the control at slot `index` of module `tag`.
    pub fn get(&self, tag: Tag, index: usize) -> (c: Control)
        ensures
            c == self.at(tag, index),
    {
        if tag.0 < self.rows.len() && index < self.rows[tag.0].len() {
            self.rows[tag.0][index]
        } else {
            Control::V(0)
        }
    }

    /// Writes `value` to slot `index` of module `tag`; every other slot keeps
    /// its control.
    pub fn set(&mut self, tag: Tag, index: usize, value: Control)
        ensures
            final(self).at(tag, index) == value,
            forall|t: Tag, i: usize|
                !(t == tag && i == index) ==> #[trigger] final(self).at(t, i) == old(self).at(t, i),
    {
        let ghost old_self = *self;
        while self.rows.len() <= tag.0
            invariant
                forall|t: Tag, i: usize| #[trigger] self.at(t, i) == old_self.at(t, i),
            decreases tag.0 + 1 - self.rows@.len(),
        {
            let ghost before = *self;
            self.rows.push(Vec::new());
            assert forall|t: Tag, i: usize| #[trigger] self.at(t, i) == before.at(t, i) by {
                if t.0 < before.rows@.len() {
                    assert(self.rows@[t.0 as int] == before.rows@[t.0 as int]);
                }
            }
        }
        while self.rows[tag.0].len() <= index
            invariant
                tag.0 < self.rows@.len(),
                forall|t: Tag, i: usize| #[trigger] self.at(t, i) == old_self.at(t, i),
            decreases index + 1 - self.rows@[tag.0 as int]@.len(),
        {
            let ghost before = *self;
            self.rows[tag.0].push(Control::V(0));
            assert(self.rows@[tag.0 as int]@ == before.rows@[tag.0 as int]@.push(Control::V(0)));
            assert forall|t: Tag, i: usize| #[trigger] self.at(t, i) == before.at(t, i) by {
                if t.0 != tag.0 && t.0 < self.rows@.len() {
                    assert(self.rows@[t.0 as int] == before.rows@[t.0 as int]);
                } else if t.0 == tag.0 && i < before.rows@[tag.0 as int]@.len() {
                    assert(self.rows@[tag.0 as int]@[i as int] == before.rows@[tag.0 as int]@[i as int]);
                }
            }
        }
        let ghost before = *self;
        self.rows[tag.0][index] = value;
        assert(self.rows@[tag.0 as int]@ == before.rows@[tag.0 as int]@.update(index as int, value));
        assert forall|t: Tag, i: usize|
            !(t == tag && i == index) implies #[trigger] self.at(t, i) == old_self.at(t, i) by {
            assert(self.at(t, i) == before.at(t, i)) by {
                if t.0 != tag.0 && t.0 < self.rows@.len() {
                    assert(self.rows@[t.0 as int] == before.rows@[t.0 as int]);
                } else if t.0 == tag.0 && i != index && i < before.rows@[tag.0 as int]@.len() {
                    assert(self.rows@[tag.0 as int]@[i as int] == before.rows@[tag.0 as int]@[i as int]);
                }
            }
        }
    }
}

/// A delay line of samples (binary32 bit patterns). `index` is the slot the
/// next sample is written to, which also holds the oldest sample.
pub struct RingBuffer {
    buffer: Vec<u32>,
    index: usize,
}

impl RingBuffer {
    /// The buffered samples from oldest to newest.
    pub closed spec fn contents(&self) -> Seq<u32> {
        self.buffer@.subrange(self.index as int, self.buffer@.len() as int) + self.buffer@.subrange(
            0,
            self.index as int,
        )
    }

    /// The next write position is a slot of the buffer, or 0 for a buffer
    /// with no slots.
    #[verifier::type_invariant]
    spec fn inv(&self) -> bool {
        self.index < self.buffer@.len() || (self.buffer@.len() == 0 && self.index == 0)
    }

    /// A ring over `buffer` whose next write goes to slot `index` (taken
    /// modulo the buffer's length); a ring of no slots when `buffer` is empty.
    pub fn new(index: usize, buffer: Vec<u32>) -> (r: RingBuffer)
        ensures
            buffer@.len() > 0 ==> r.contents() == buffer@.subrange(
                index as int % buffer@.len() as int,
                buffer@.len() as int,
            ) + buffer@.subrange(0, index as int % buffer@.len() as int),
            buffer@.len() == 0 ==> r.contents().len() == 0,
    {
        let n = buffer.len();
        if n == 0 {
            return RingBuffer { buffer, index: 0 };
        }
        RingBuffer { buffer, index: index % n }
    }

    /// Number of sample slots, which is the delay in samples.
    pub fn len(&self) -> (n: usize)
        ensures
            n == self.contents().len(),
    {
        proof {
            use_type_invariant(self);
        }
        self.buffer.len()
    }

    /// The oldest sample, written `len()` pushes ago.
    pub fn get_max_delay(&self) -> (x: u32)
        requires
            self.contents().len() > 0,
        ensures
            x == self.contents()[0],
    {
        proof {
            use_type_invariant(self);
        }
        self.buffer[self.index]
    }

    /// Writes `x` in place of the oldest sample.
    pub fn push(&mut self, x: u32)
        requires
            old(self).contents().len() > 0,
        ensures
            final(self).contents() == old(self).contents().drop_first().push(x),
    {
        proof {
            use_type_invariant(&*self);
        }
        let ghost c0 = self.contents();
        let ghost i0 = self.index as int;
        let ghost b0 = self.buffer@;
        self.buffer[self.index] = x;
        let n = self.buffer.len();
        if self.index + 1 == n {
            self.index = 0;
        } else {
            self.index = self.index + 1;
        }
        assert(self.contents() =~= c0.drop_first().push(x)) by {
            let n = b0.len() as int;
            assert forall|k: int| 0 <= k < n implies #[trigger] self.contents()[k] == c0.drop_first().push(x)[k] by {
                if k < n - 1 {
                    assert(c0.drop_first()[k] == c0[k + 1]);
                    if i0 + 1 + k < n {
                        assert(c0[k + 1] == b0[i0 + 1 + k]);
                    } else {
                        assert(c0[k + 1] == b0[i0 + 1 + k - n]);
                    }
                }
            }
        }
    }
}

/// Sample buffers of the modules that need one, by module tag.
pub struct Buffers {
    slots: Vec<Option<RingBuffer>>,
}

impl Buffers {
    /// The buffer of module `tag`, if one was set.
    pub closed spec fn at(&self, tag: Tag) -> Option<RingBuffer> {
        if tag.0 < self.slots@.len() {
            self.slots@[tag.0 as int]
        } else {
            None
        }
    }

    pub fn new() -> (b: Buffers)
        ensures
            forall|t: Tag| #[trigger] b.at(t) is None,
    {
        Buffers { slots: Vec::new() }
    }

    /// Gives module `tag` the buffer `buffer`, replacing any earlier one.
    pub fn set_buffer(&mut self, tag: Tag, buffer: RingBuffer)
        ensures
            final(self).at(tag) == Some(buffer),
            forall|t: Tag| t != tag ==> #[trigger] final(self).at(t) == old(self).at(t),
    {
        let ghost old_self = *self;
        while self.slots.len() <= tag.0
            invariant
                forall|t: Tag| #[trigger] self.at(t) == old_self.at(t),
            decreases tag.0 + 1 - self.slots@.len(),
        {
            let ghost before = *self;
            self.slots.push(None);
            assert forall|t: Tag| #[trigger] self.at(t) == before.at(t) by {
                if t.0 < before.slots@.len() {
                    assert(self.slots@[t.0 as int] == before.slots@[t.0 as int]);
                }
            }
        }
        let ghost before = *self;
        self.slots[tag.0] = Some(buffer);
        assert forall|t: Tag| t != tag implies #[trigger] self.at(t) == before.at(t) by {
            if t.0 < before.slots@.len() {
                assert(self.slots@[t.0 as int] == before.slots@[t.0 as int]);
            }
        }
    }

    /// The buffer of module `tag`, if one was set.
    pub fn buffer(&self, tag: Tag) -> (b: Option<&RingBuffer>)
        ensures
            match b {
                Some(r) => self.at(tag) == Some(*r),
                None => self.at(tag) is None,
            },
    {
        if tag.0 < self.slots.len() {
            match &self.slots[tag.0] {
                Some(r) => Some(r),
                None => None,
            }
        } else {
            None
        }
    }

    /// Writes `x` in place of the oldest sample of module `tag`'s buffer.
    pub fn push(&mut self, tag: Tag, x: u32)
        requires
            old(self).at(tag) is Some,
            old(self).at(tag)->Some_0.contents().len() > 0,
        ensures
            final(self).at(tag) matches Some(r) && r.contents() == old(
                self,
            ).at(tag)->Some_0.contents().drop_first().push(x),
            forall|t: Tag| t != tag ==> #[trigger] final(self).at(t) == old(self).at(t),
    {
        let ghost before = *self;
        let mut slot: Option<RingBuffer> = None;
        std::mem::swap(&mut slot, &mut self.slots[tag.0]);
        match slot {
            Some(mut r) => {
                r.push(x);
                self.slots[tag.0] = Some(r);
            },
            None => {},
        }
        assert forall|t: Tag| t != tag implies #[trigger] self.at(t) == before.at(t) by {
            if t.0 < before.slots@.len() {
                assert(self.slots@[t.0 as int] == before.slots@[t.0 as int]);
            }
        }
    }
}

/// What a module computes.
#[derive(Copy, Clone, Debug, PartialEq, Eq, Structural)]
pub enum ModuleKind {
    Lpf,
    Hpf,
    Bpf,
    Notch,
    Comb,
    AllPass,
}

/// A module of a rack: its own tag, the tag of the module whose output it
/// reads, and what it computes.
#[derive(Copy, Clone, Debug, PartialEq, Eq, Structural)]
pub struct Module {
    pub tag: Tag,
    pub wave: Tag,
    pub kind: ModuleKind,
}

/// A rack: the modules in processing order, their controls and their
/// sample buffers. A module's tag is its position in `modules`.
pub struct Rack {
    pub modules: Vec<Module>,
    pub controls: Controls,
    pub buffers: Buffers,
}

impl Rack {
    pub fn new() -> (r: Rack)
        ensures
            r.modules@.len() == 0,
            forall|t: Tag, i: usize| #[trigger] r.controls.at(t, i) == unset_control(),
            forall|t: Tag| #[trigger] r.buffers.at(t) is None,
    {
        Rack { modules: Vec::new(), controls: Controls::new(), buffers: Buffers::new() }
    }

    /// Number of modules in the rack; the tag the next module gets.
    pub fn num_modules(&self) -> (n: usize)
        ensures
            n == self.modules@.len(),
    {
        self.modules.len()
    }

    /// Appends `module` to the rack.
    pub fn push(&mut self, module: Module)
        ensures
            final(self).modules@ == old(self).modules@.push(module),
            final(self).controls == old(self).controls,
            final(self).buffers == old(self).buffers,
    {
        self.modules.push(module);
    }
}

/// Every module's tag is its position in the rack.
pub open spec fn tags_are_positions(modules: Seq<Module>) -> bool {
    forall|i: int| 0 <= i < modules.len() ==> (#[trigger] modules[i]).tag == Tag(i as usize)
}

/// Adding a module under the next free tag (as every builder's `rack` does)
/// keeps each module's tag equal to its position in the rack.
pub proof fn lemma_next_tag_keeps_positions(modules: Seq<Module>, m: Module)
    requires
        tags_are_positions(modules),
        m.tag == Tag(modules.len() as usize),
    ensures
        tags_are_positions(modules.push(m)),
{
    assert forall|i: int| 0 <= i < modules.push(m).len() implies (#[trigger] modules.push(m)[i]).tag
        == Tag(i as usize) by {
        if i < modules.len() {
            assert(modules.push(m)[i] == modules[i]);
        }
    }
}

/// The contents of a delay line after pushing the samples `xs` in order.
pub open spec fn after_pushes(contents: Seq<u32>, xs: Seq<u32>) -> Seq<u32>
    decreases xs.len(),
{
    if xs.len() == 0 {
        contents
    } else {
        after_pushes(contents.drop_first().push(xs[0]), xs.drop_first())
    }
}

/// A delay line of `n` slots holds the last `n` samples pushed; in
/// particular, after `n` pushes it holds exactly those samples, so each
/// sample comes out of `get_max_delay` `n` pushes after it went in.
pub proof fn lemma_delay_line_holds_last_pushes(contents: Seq<u32>, xs: Seq<u32>)
    requires
        contents.len() > 0,
    ensures
        after_pushes(contents, xs) == (contents + xs).skip(xs.len() as int),
        xs.len() == contents.len() ==> after_pushes(contents, xs) == xs,
    decreases xs.len(),
{
    if xs.len() > 0 {
        let next = contents.drop_first().push(xs[0]);
        lemma_delay_line_holds_last_pushes(next, xs.drop_first());
        assert((next + xs.drop_first()).skip(xs.drop_first().len() as int) =~= (contents + xs).skip(
            xs.len() as int,
        ));
    } else {
        assert((contents + xs).skip(0) =~= contents);
    }
    if xs.len() == contents.len() {
        assert((contents + xs).skip(xs.len() as int) =~= xs);
    }
}

} // verus!
