//! Memory layout computation for compiled graphs: offsets and sizes of each
//! node's state, IO struct and parameters.
use crate::graph::{NodeKey, MAX_NODE_ENDPOINTS};
use std::collections::HashMap;
use vstd::prelude::*;

verus! {

/// `offset` rounded up to a multiple of four (the alignment of a sample).
pub open spec fn align4(offset: int) -> int {
    offset + (4 - offset % 4) % 4
}

proof fn lemma_align4(offset: int, r: int)
    requires
        offset >= 0,
        r % 4 == 0,
        offset <= r < offset + 4,
    ensures
        r == align4(offset),
{
}

/// `offset` rounded up to a multiple of four.
fn align4_exec(offset: usize) -> (r: usize)
    requires
        offset + 3 <= usize::MAX,
    ensures
        r == align4(offset as int),
{
    assert(4usize & 3usize == 0) by (bit_vector);
    let r = MemoryLayout::align_to(offset, 4);
    assert(r % 4 == 0) by (bit_vector)
        requires
            r & 3usize == 0,
    ;
    proof {
        lemma_align4(offset as int, r as int);
    }
    r
}

/// `h` contains `n` as a contiguous run.
pub open spec fn has_substring(h: Seq<u8>, n: Seq<u8>) -> bool {
    exists|i: int| 0 <= i && i + n.len() <= h.len() && #[trigger] h.subrange(i, i + n.len()) == n
}

/// Whether `needle` occurs in `haystack`.
pub fn contains_bytes(haystack: &[u8], needle: &[u8]) -> (r: bool)
    ensures
        r == has_substring(haystack@, needle@),
{
    let n = needle.len();
    if n > haystack.len() {
        return false;
    }
    if n == 0 {
        assert(haystack@.subrange(0, 0 + needle@.len() as int) =~= needle@);
        return true;
    }
    let last = haystack.len() - n;
    let mut i: usize = 0;
    while i <= last
        invariant
            n == needle@.len(),
            0 < n <= haystack@.len(),
            haystack@.len() <= usize::MAX,
            last == haystack@.len() - n,
            i <= last + 1,
            forall|k: int| 0 <= k < i ==> #[trigger] haystack@.subrange(k, k + n) != needle@,
        decreases last + 1 - i,
    {
        let mut j: usize = 0;
        let mut same = true;
        while j < n
            invariant
                n == needle@.len(),
                i + n <= haystack@.len(),
                haystack@.len() <= usize::MAX,
                j <= n,
                same == (forall|t: int| 0 <= t < j ==> haystack@[i + t] == needle@[t]),
            decreases n - j,
        {
            if haystack[i + j] != needle[j] {
                same = false;
            }
            j += 1;
        }
        if same {
            assert(haystack@.subrange(i as int, i + needle@.len() as int) =~= needle@);
            return true;
        }
        assert(haystack@.subrange(i as int, i + n) != needle@) by {
            let t = choose|t: int| 0 <= t < n && haystack@[i + t] != needle@[t];
            assert(haystack@.subrange(i as int, i + n)[t] == haystack@[i + t]);
        }
        i += 1;
    }
    assert forall|k: int| 0 <= k && k + n <= haystack@.len() implies #[trigger] haystack@.subrange(
        k,
        k + n,
    ) != needle@ by {}
    false
}

/// `"Gain"`.
pub open spec fn gain_name() -> Seq<u8> {
    seq![71u8, 97u8, 105u8, 110u8]
}

/// `"Oscillator"`.
pub open spec fn oscillator_name() -> Seq<u8> {
    seq![79u8, 115u8, 99u8, 105u8, 108u8, 108u8, 97u8, 116u8, 111u8, 114u8]
}

/// `"TptFilter"`.
pub open spec fn tpt_filter_name() -> Seq<u8> {
    seq![84u8, 112u8, 116u8, 70u8, 105u8, 108u8, 116u8, 101u8, 114u8]
}

/// `(state_size, io_size, param_count)` of a node whose debug representation
/// is `repr`, recognised by the node type's name.
pub open spec fn node_sizes(repr: Seq<u8>) -> (usize, usize, usize) {
    if has_substring(repr, gain_name()) {
        (0, 8, 1)
    } else if has_substring(repr, oscillator_name()) {
        (8, 4, 2)
    } else if has_substring(repr, tpt_filter_name()) {
        (32, 12, 2)
    } else {
        (16, 8, 2)
    }
}

/// What the layout needs to know about one node.
pub struct NodeShape {
    /// Bytes of the node processor's debug representation.
    pub debug_repr: Vec<u8>,
    pub num_inputs: usize,
    pub num_outputs: usize,
}

/// Memory offsets for a single node.
#[derive(Debug, Clone)]
pub struct NodeOffsets {
    /// Offset into the state buffer (persistent node state).
    pub state_offset: usize,
    /// Size of the state data.
    pub state_size: usize,
    /// Offset into the IO buffer (per-sample IO).
    pub io_offset: usize,
    /// Size of the IO struct.
    pub io_size: usize,
    /// Offset of each parameter in the parameter buffer.
    pub param_offsets: Vec<usize>,
    /// Offset of each endpoint's field within the IO struct, by endpoint
    /// index.
    pub io_field_offsets: HashMap<usize, usize>,
}

/// Computed memory layout of a graph.
#[derive(Debug, Clone)]
pub struct MemoryLayout {
    /// Offsets of each node's data.
    pub node_offsets: HashMap<NodeKey, NodeOffsets>,
    /// Total size of the state buffer.
    pub state_size: usize,
    /// Total size of the IO buffer.
    pub io_size: usize,
    /// Total size of the parameter buffer.
    pub params_size: usize,
    /// Offset of the final output value in the IO buffer.
    pub final_output_offset: usize,
}

pub open spec fn sizes_at(shapes: Seq<NodeShape>, k: int) -> (usize, usize, usize) {
    node_sizes(shapes[k].debug_repr@)
}

/// End of the state data of the first `k` nodes.
pub open spec fn state_end(shapes: Seq<NodeShape>, k: nat) -> int
    decreases k,
{
    if k == 0 {
        0
    } else {
        align4(state_end(shapes, (k - 1) as nat)) + sizes_at(shapes, k - 1).0
    }
}

/// End of the IO structs of the first `k` nodes.
pub open spec fn io_end(shapes: Seq<NodeShape>, k: nat) -> int
    decreases k,
{
    if k == 0 {
        0
    } else {
        align4(io_end(shapes, (k - 1) as nat)) + sizes_at(shapes, k - 1).1
    }
}

/// End of the parameters of the first `k` nodes (one sample each).
pub open spec fn params_end(shapes: Seq<NodeShape>, k: nat) -> int
    decreases k,
{
    if k == 0 {
        0
    } else {
        params_end(shapes, (k - 1) as nat) + 4 * sizes_at(shapes, k - 1).2
    }
}

/// `o` holds the offsets of the node at position `k` of the processing order.
pub open spec fn offsets_of(o: NodeOffsets, shapes: Seq<NodeShape>, k: int) -> bool {
    let sizes = sizes_at(shapes, k);
    &&& o.state_offset == align4(state_end(shapes, k as nat))
    &&& o.state_size == sizes.0
    &&& o.io_offset == align4(io_end(shapes, k as nat))
    &&& o.io_size == sizes.1
    &&& o.param_offsets@ == Seq::new(
        sizes.2 as nat,
        |j: int| (params_end(shapes, k as nat) + 4 * j) as usize,
    )
    &&& o.io_field_offsets@ == Map::new(
        |i: usize| i < shapes[k].num_inputs + shapes[k].num_outputs,
        |i: usize| (4 * i) as usize,
    )
}

proof fn lemma_ends_bounded(shapes: Seq<NodeShape>, k: nat)
    requires
        k <= shapes.len(),
    ensures
        0 <= state_end(shapes, k) <= 36 * k,
        0 <= io_end(shapes, k) <= 16 * k,
        0 <= params_end(shapes, k) <= 8 * k,
        params_end(shapes, k) % 4 == 0,
    decreases k,
{
    if k > 0 {
        lemma_ends_bounded(shapes, (k - 1) as nat);
    }
}

impl MemoryLayout {
    /// Rounds `offset` up to the next multiple of `align`, a power of two: the
    /// result has no bits below `align` set and lies in `offset..offset + align`.
    pub fn align_to(offset: usize, align: usize) -> (r: usize)
        requires
            align > 0,
            align & ((align - 1) as usize) == 0,
            offset + align - 1 <= usize::MAX,
        ensures
            r & ((align - 1) as usize) == 0,
            offset <= r < offset + align,
    {
        let m = align - 1;
        let x = offset + m;
        let r = x & !m;
        assert(r & m == 0) by (bit_vector)
            requires
                r == x & !m,
        ;
        assert(r <= x && x - r == x & m) by (bit_vector)
            requires
                r == x & !m,
        ;
        assert(x & m <= m) by (bit_vector);
        r
    }

    /// Returns `(state_size, io_size, param_count)` for a node, given the bytes
    /// of its debug representation: a gain keeps no state and has one
    /// parameter, an oscillator keeps phase and increment, a TPT filter keeps its
    /// integrator state and coefficients; other nodes get a default size.
    pub fn get_node_sizes(debug_repr: &[u8]) -> (r: (usize, usize, usize))
        ensures
            r == node_sizes(debug_repr@),
    {
        let gain: [u8; 4] = [71, 97, 105, 110];
        let oscillator: [u8; 10] = [79, 115, 99, 105, 108, 108, 97, 116, 111, 114];
        let tpt: [u8; 9] = [84, 112, 116, 70, 105, 108, 116, 101, 114];
        assert(gain@ =~= gain_name());
        assert(oscillator@ =~= oscillator_name());
        assert(tpt@ =~= tpt_filter_name());
        if contains_bytes(debug_repr, gain.as_slice()) {
            (0, 8, 1)
        } else if contains_bytes(debug_repr, oscillator.as_slice()) {
            (8, 4, 2)
        } else if contains_bytes(debug_repr, tpt.as_slice()) {
            (32, 12, 2)
        } else {
            (16, 8, 2)
        }
    }

    /// Byte offsets of the fields of a node's IO struct: inputs first, then
    /// outputs, one sample each, keyed by endpoint index.
    pub fn compute_io_field_offsets(num_inputs: usize, num_outputs: usize) -> (offsets: HashMap<
        usize,
        usize,
    >)
        requires
            num_inputs <= MAX_NODE_ENDPOINTS,
            num_outputs <= MAX_NODE_ENDPOINTS,
        ensures
            offsets@ == Map::new(
                |i: usize| i < num_inputs + num_outputs,
                |i: usize| (4 * i) as usize,
            ),
    {
        let mut offsets: HashMap<usize, usize> = HashMap::new();
        let mut current_offset: usize = 0;
        let mut idx: usize = 0;
        while idx < num_inputs
            invariant
                idx <= num_inputs <= MAX_NODE_ENDPOINTS,
                current_offset == 4 * idx,
                offsets@ == Map::new(|i: usize| i < idx, |i: usize| (4 * i) as usize),
            decreases num_inputs - idx,
        {
            offsets.insert(idx, current_offset);
            current_offset += 4;
            idx += 1;
            assert(offsets@ =~= Map::new(|i: usize| i < idx, |i: usize| (4 * i) as usize));
        }
        let mut idx: usize = 0;
        while idx < num_outputs
            invariant
                idx <= num_outputs <= MAX_NODE_ENDPOINTS,
                num_inputs <= MAX_NODE_ENDPOINTS,
                current_offset == 4 * (num_inputs + idx),
                offsets@ == Map::new(|i: usize| i < num_inputs + idx, |i: usize| (4 * i) as usize),
            decreases num_outputs - idx,
        {
            offsets.insert(num_inputs + idx, current_offset);
            current_offset += 4;
            idx += 1;
            assert(offsets@ =~= Map::new(
                |i: usize| i < num_inputs + idx,
                |i: usize| (4 * i) as usize,
            ));
        }
        offsets
    }

    /// Lays out the nodes of `topology` in order; `shapes[k]` describes the
    /// node `topology[k]`. Each node's state and IO start at the next
    /// sample-aligned offset after the previous node's; parameters are
    /// consecutive samples. A node listed twice keeps the offsets of its
    /// last position. The final output is the first IO field of the last
    /// node (offset 0 for an empty graph).
    pub fn compute(topology: &[NodeKey], shapes: &[NodeShape]) -> (layout: Self)
        requires
            shapes@.len() == topology@.len(),
            topology@.len() <= usize::MAX / 64,
            forall|k: int|
                0 <= k < shapes@.len() ==> (#[trigger] shapes@[k]).num_inputs <= MAX_NODE_ENDPOINTS
                    && shapes@[k].num_outputs <= MAX_NODE_ENDPOINTS,
        ensures
            layout.state_size == state_end(shapes@, shapes@.len()),
            layout.io_size == io_end(shapes@, shapes@.len()),
            layout.params_size == params_end(shapes@, shapes@.len()),
            layout.final_output_offset == if topology@.len() == 0 {
                0
            } else {
                align4(io_end(shapes@, (shapes@.len() - 1) as nat))
            },
            forall|key: NodeKey|
                #[trigger] layout.node_offsets@.contains_key(key) <==> topology@.contains(key),
            forall|k: int|
                0 <= k < topology@.len() && (forall|k2: int|
                    k < k2 < topology@.len() ==> topology@[k2] != topology@[k]) ==> offsets_of(
                    #[trigger] layout.node_offsets@[topology@[k]],
                    shapes@,
                    k,
                ),
    {
        let n = topology.len();
        let mut node_offsets: HashMap<NodeKey, NodeOffsets> = HashMap::new();
        let mut state_offset: usize = 0;
        let mut io_offset: usize = 0;
        let mut params_offset: usize = 0;
        let mut k: usize = 0;
        while k < n
            invariant
                n == topology@.len(),
                n == shapes@.len(),
                n <= usize::MAX / 64,
                k <= n,
                forall|kk: int|
                    0 <= kk < shapes@.len() ==> (#[trigger] shapes@[kk]).num_inputs
                        <= MAX_NODE_ENDPOINTS && shapes@[kk].num_outputs <= MAX_NODE_ENDPOINTS,
                state_offset == state_end(shapes@, k as nat),
                io_offset == io_end(shapes@, k as nat),
                params_offset == params_end(shapes@, k as nat),
                forall|key: NodeKey|
                    #[trigger] node_offsets@.contains_key(key) <==> topology@.subrange(
                        0,
                        k as int,
                    ).contains(key),
                forall|kk: int|
                    0 <= kk < k && (forall|k2: int|
                        kk < k2 < k ==> topology@[k2] != topology@[kk]) ==> offsets_of(
                        #[trigger] node_offsets@[topology@[kk]],
                        shapes@,
                        kk,
                    ),
            decreases n - k,
        {
            proof {
                lemma_ends_bounded(shapes@, k as nat);
                lemma_ends_bounded(shapes@, (k + 1) as nat);
            }
            let (state_size, io_size, param_count) = Self::get_node_sizes(shapes[k].debug_repr.as_slice());
            state_offset = align4_exec(state_offset);
            io_offset = align4_exec(io_offset);
            let mut param_offsets: Vec<usize> = Vec::new();
            let mut j: usize = 0;
            while j < param_count
                invariant
                    j <= param_count <= 2,
                    params_offset == params_end(shapes@, k as nat) + 4 * j,
                    params_end(shapes@, k as nat) % 4 == 0,
                    params_end(shapes@, k as nat) <= 8 * k,
                    k < n <= usize::MAX / 64,
                    param_offsets@ == Seq::new(
                        j as nat,
                        |jj: int| (params_end(shapes@, k as nat) + 4 * jj) as usize,
                    ),
                decreases param_count - j,
            {
                params_offset = align4_exec(params_offset);
                param_offsets.push(params_offset);
                params_offset += 4;
                j += 1;
                assert(param_offsets@ =~= Seq::new(
                    j as nat,
                    |jj: int| (params_end(shapes@, k as nat) + 4 * jj) as usize,
                ));
            }
            let io_field_offsets = Self::compute_io_field_offsets(
                shapes[k].num_inputs,
                shapes[k].num_outputs,
            );
            let key = topology[k];
            let ghost map0 = node_offsets@;
            let offsets = NodeOffsets {
                state_offset,
                state_size,
                io_offset,
                io_size,
                param_offsets,
                io_field_offsets,
            };
            assert(offsets_of(offsets, shapes@, k as int));
            node_offsets.insert(key, offsets);
            proof {
                assert forall|key2: NodeKey|
                    #[trigger] node_offsets@.contains_key(key2) <==> topology@.subrange(
                        0,
                        k + 1,
                    ).contains(key2) by {
                    if topology@.subrange(0, k + 1).contains(key2) {
                        let t = choose|t: int| 0 <= t < k + 1 && #[trigger] topology@.subrange(0, k + 1)[t] == key2;
                        if t < k {
                            assert(topology@.subrange(0, k as int)[t] == key2);
                        }
                    }
                    if map0.contains_key(key2) {
                        let t = choose|t: int| 0 <= t < k && #[trigger] topology@.subrange(0, k as int)[t] == key2;
                        assert(topology@.subrange(0, k + 1)[t] == key2);
                    }
                    if key2 == key {
                        assert(topology@.subrange(0, k + 1)[k as int] == key2);
                    }
                }
            }
            state_offset = state_offset + state_size;
            io_offset = io_offset + io_size;
            k += 1;
        }
        assert(topology@.subrange(0, n as int) =~= topology@);
        let final_output_offset = if n > 0 {
            let last = topology[n - 1];
            match node_offsets.get(&last) {
                Some(o) => o.io_offset,
                None => {
                    assert(topology@.contains(last));
                    0
                },
            }
        } else {
            0
        };
        MemoryLayout {
            node_offsets,
            state_size: state_offset,
            io_size: io_offset,
            params_size: params_offset,
            final_output_offset,
        }
    }
}

proof fn lemma_ends_step(shapes: Seq<NodeShape>, k: nat)
    requires
        k < shapes.len(),
    ensures
        align4(state_end(shapes, k)) + sizes_at(shapes, k as int).0 == state_end(shapes, k + 1),
        align4(io_end(shapes, k)) + sizes_at(shapes, k as int).1 == io_end(shapes, k + 1),
        params_end(shapes, k) + 4 * sizes_at(shapes, k as int).2 == params_end(shapes, k + 1),
{
}

proof fn lemma_ends_monotone(shapes: Seq<NodeShape>, k1: nat, k2: nat)
    requires
        k1 <= k2 <= shapes.len(),
    ensures
        state_end(shapes, k1) <= state_end(shapes, k2),
        io_end(shapes, k1) <= io_end(shapes, k2),
        params_end(shapes, k1) <= params_end(shapes, k2),
    decreases k2 - k1,
{
    if k1 < k2 {
        lemma_ends_monotone(shapes, k1, (k2 - 1) as nat);
        lemma_ends_bounded(shapes, (k2 - 1) as nat);
    }
}

/// The layout puts each node's state, IO and parameters at sample-aligned
/// offsets, and the regions of an earlier node end before those of a later
/// node begin: no two nodes share memory.
pub proof fn lemma_layout_regions_disjoint(shapes: Seq<NodeShape>, k1: nat, k2: nat)
    requires
        k1 < k2 < shapes.len(),
    ensures
        align4(state_end(shapes, k1)) % 4 == 0,
        align4(io_end(shapes, k1)) % 4 == 0,
        params_end(shapes, k1) % 4 == 0,
        align4(state_end(shapes, k1)) + sizes_at(shapes, k1 as int).0 <= align4(
            state_end(shapes, k2),
        ),
        align4(io_end(shapes, k1)) + sizes_at(shapes, k1 as int).1 <= align4(io_end(shapes, k2)),
        params_end(shapes, k1) + 4 * sizes_at(shapes, k1 as int).2 <= params_end(shapes, k2),
{
    lemma_ends_bounded(shapes, k1);
    lemma_ends_step(shapes, k1);
    lemma_ends_monotone(shapes, k1 + 1, k2);
    lemma_ends_bounded(shapes, k2);
}

} // verus!
