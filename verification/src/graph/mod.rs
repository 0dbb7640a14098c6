//! Graph structure: node and value keys, endpoints, connections and the
//! dependency ordering of processing nodes.
use arrayvec::ArrayVec;
use std::ops::Shr;
use vstd::prelude::*;
use vstd::string::StrSliceExecFns;
use vstd::std_specs::convert::FromSpecImpl;
use vstd::std_specs::ops::ShrSpecImpl;

pub mod topology;
pub mod types;
pub mod jit;
pub mod static_context;
pub mod offline;
pub mod graph_impl;
pub mod connections;
pub mod ramps;
pub mod state;
pub mod slots;

pub use static_context::ConnectEndpoints;

pub use topology::TopologyError;

verus! {

pub const MAX_EVENTS: usize = 256;

pub const MAX_CONNECTIONS_PER_OUTPUT: usize = 1024;

pub const MAX_NODE_ENDPOINTS: usize = 32;

/// Key of a node in a graph (the node key's `as_ffi` form).
pub type NodeKey = u64;

/// Key of a value slot in a graph (the value key's `as_ffi` form).
pub type ValueKey = u64;

/// Error of a graph operation.
#[derive(Debug, Clone)]
pub enum GraphError {
    /// A cycle none of whose nodes allows feedback.
    CycleDetected(Vec<NodeKey>),
}


/// How a value slot is driven.
#[derive(Debug)]
pub enum EndpointType {
    Stream(ValueKey),
    Value,
    Event,
}

/// The input side of a connection.
#[derive(Copy, Clone, Debug)]
pub struct InputEndpoint {
    key: ValueKey,
}

impl InputEndpoint {
    pub fn new(key: ValueKey) -> (r: Self)
        ensures
            r.key() == key,
    {
        Self { key }
    }

    pub closed spec fn spec_key(&self) -> ValueKey {
        self.key
    }

    #[verifier::when_used_as_spec(spec_key)]
    pub fn key(&self) -> (k: ValueKey)
        ensures
            k == self.spec_key(),
    {
        self.key
    }
}

/// The output side of a connection.
#[derive(Copy, Clone, Debug)]
pub struct OutputEndpoint {
    key: ValueKey,
}

/// One connection from an output to an input.
pub struct Connection {
    pub from: OutputEndpoint,
    pub to: InputEndpoint,
}

/// Several connections from one output.
pub struct ConnectionBuilder {
    pub from: OutputEndpoint,
    pub connections: ArrayVec<Connection, MAX_CONNECTIONS_PER_OUTPUT>,
}

#[verifier::external_type_specification]
#[verifier::external_body]
#[verifier::reject_recursive_types(T)]
pub struct ExArrayVec<T, const CAP: usize>(ArrayVec<T, CAP>);

/// The connections a connection list holds, in order.
pub uninterp spec fn connection_items(
    v: ArrayVec<Connection, MAX_CONNECTIONS_PER_OUTPUT>,
) -> Seq<Connection>;

/// Calls `ArrayVec::new`, which creates an empty list.
#[verifier::external_body]
fn new_connection_list() -> (v: ArrayVec<Connection, MAX_CONNECTIONS_PER_OUTPUT>)
    ensures
        connection_items(v) == Seq::<Connection>::empty(),
{
    ArrayVec::new()
}

/// Calls `ArrayVec::push`, which appends `c` (and panics on a full list,
/// which the precondition excludes).
#[verifier::external_body]
fn push_connection(v: &mut ArrayVec<Connection, MAX_CONNECTIONS_PER_OUTPUT>, c: Connection)
    requires
        connection_items(*old(v)).len() < MAX_CONNECTIONS_PER_OUTPUT,
    ensures
        connection_items(*final(v)) == connection_items(*old(v)).push(c),
{
    v.push(c)
}

impl OutputEndpoint {
    pub fn new(key: ValueKey) -> (r: Self)
        ensures
            r.key() == key,
    {
        Self { key }
    }

    pub closed spec fn spec_key(&self) -> ValueKey {
        self.key
    }

    /// Starts a set of connections from this output with one to `input`.
    pub fn to(self, input: InputEndpoint) -> (b: ConnectionBuilder)
        ensures
            b.from == self,
            connection_items(b.connections) == seq![Connection { from: self, to: input }],
    {
        self.shr(input)
    }

    #[verifier::when_used_as_spec(spec_key)]
    pub fn key(&self) -> (k: ValueKey)
        ensures
            k == self.spec_key(),
    {
        self.key
    }
}

impl ConnectionBuilder {
    /// Adds a connection from the same output to `to`.
    pub fn and(self, to: InputEndpoint) -> (b: Self)
        requires
            connection_items(self.connections).len() < MAX_CONNECTIONS_PER_OUTPUT,
        ensures
            b.from == self.from,
            connection_items(b.connections) == connection_items(self.connections).push(
                Connection { from: self.from, to },
            ),
    {
        let mut b = self;
        push_connection(&mut b.connections, Connection { from: b.from, to });
        b
    }
}

impl Shr<InputEndpoint> for OutputEndpoint {
    type Output = ConnectionBuilder;

    fn shr(self, to: InputEndpoint) -> (b: ConnectionBuilder)
        ensures
            b.from == self,
            connection_items(b.connections) == seq![Connection { from: self, to }],
    {
        let mut builder = ConnectionBuilder { from: self, connections: new_connection_list() };
        push_connection(&mut builder.connections, Connection { from: self, to });
        builder
    }
}

impl ShrSpecImpl<InputEndpoint> for OutputEndpoint {
    open spec fn obeys_shr_spec() -> bool {
        false
    }

    open spec fn shr_req(self, rhs: InputEndpoint) -> bool {
        true
    }

    open spec fn shr_spec(self, rhs: InputEndpoint) -> ConnectionBuilder {
        arbitrary()
    }
}

impl From<ConnectionBuilder> for ArrayVec<Connection, MAX_CONNECTIONS_PER_OUTPUT> {
    fn from(builder: ConnectionBuilder) -> (v: Self) {
        builder.connections
    }
}

impl FromSpecImpl<ConnectionBuilder> for ArrayVec<Connection, MAX_CONNECTIONS_PER_OUTPUT> {
    open spec fn obeys_from_spec() -> bool {
        true
    }

    open spec fn from_spec(builder: ConnectionBuilder) -> Self {
        builder.connections
    }
}

/// Name and index of a node endpoint.
#[derive(Debug, Default)]
pub struct EndpointMetadata {
    pub name: &'static str,
    pub index: usize,
}

/// Whether `a` and `b` hold the same characters.
fn same_name(a: &str, b: &str) -> (r: bool)
    ensures
        r == (a@ == b@),
{
    let n = a.unicode_len();
    if n != b.unicode_len() {
        return false;
    }
    let mut i: usize = 0;
    while i < n
        invariant
            n == a@.len(),
            n == b@.len(),
            i <= n,
            forall|j: int| 0 <= j < i ==> a@[j] == b@[j],
        decreases n - i,
    {
        if a.get_char(i) != b.get_char(i) {
            return false;
        }
        i += 1;
    }
    assert(a@ =~= b@);
    true
}

/// The `index` of the first endpoint of `endpoints` called `name`.
pub open spec fn index_named(endpoints: Seq<EndpointMetadata>, name: Seq<char>) -> Option<usize>
    decreases endpoints.len(),
{
    if endpoints.len() == 0 {
        None
    } else if endpoints[0].name@ == name {
        Some(endpoints[0].index)
    } else {
        index_named(endpoints.drop_first(), name)
    }
}

/// A name lookup finds an endpoint whose name equals the query exactly, the
/// first such endpoint, and finds nothing exactly when no endpoint has that
/// name: a prefix or any other near match never counts.
pub proof fn lemma_index_named_is_first_exact_match(endpoints: Seq<EndpointMetadata>, name: Seq<char>)
    ensures
        index_named(endpoints, name) is None <==> (forall|i: int|
            0 <= i < endpoints.len() ==> #[trigger] endpoints[i].name@ != name),
        index_named(endpoints, name) matches Some(x) ==> exists|i: int|
            0 <= i < endpoints.len() && #[trigger] endpoints[i].name@ == name && endpoints[i].index == x
                && forall|j: int| 0 <= j < i ==> #[trigger] endpoints[j].name@ != name,
    decreases endpoints.len(),
{
    if endpoints.len() == 0 {
    } else if endpoints[0].name@ == name {
        assert(endpoints[0].name@ == name);
    } else {
        let tail = endpoints.drop_first();
        lemma_index_named_is_first_exact_match(tail, name);
        assert forall|i: int| 0 <= i < tail.len() implies #[trigger] tail[i] == endpoints[i + 1] by {}
        if index_named(endpoints, name) is None {
            assert forall|i: int| 0 <= i < endpoints.len() implies #[trigger] endpoints[i].name@ != name by {
                if i > 0 {
                    assert(tail[i - 1] == endpoints[i]);
                }
            }
        } else {
            assert(tail[0] == endpoints[1]);
            let x = index_named(endpoints, name)->Some_0;
            let k = choose|k: int|
                0 <= k < tail.len() && #[trigger] tail[k].name@ == name && tail[k].index == x
                    && forall|j: int| 0 <= j < k ==> #[trigger] tail[j].name@ != name;
            assert(tail[k] == endpoints[k + 1]);
            assert forall|j: int| 0 <= j < k + 1 implies #[trigger] endpoints[j].name@ != name by {
                if j > 0 {
                    assert(tail[j - 1] == endpoints[j]);
                }
            }
            assert(endpoints[k + 1].name@ == name);
        }
        if forall|i: int| 0 <= i < endpoints.len() ==> #[trigger] endpoints[i].name@ != name {
            assert forall|i: int| 0 <= i < tail.len() implies #[trigger] tail[i].name@ != name by {
                assert(tail[i] == endpoints[i + 1]);
                assert(endpoints[i + 1].name@ != name);
            }
        }
    }
}

/// Looks up the `index` of the first endpoint called `name`.
pub fn find_index(endpoints: &[EndpointMetadata], name: &str) -> (r: Option<usize>)
    ensures
        r == index_named(endpoints@, name@),
        r is None <==> (forall|i: int|
            0 <= i < endpoints@.len() ==> #[trigger] endpoints@[i].name@ != name@),
        r matches Some(x) ==> exists|i: int|
            0 <= i < endpoints@.len() && #[trigger] endpoints@[i].name@ == name@ && endpoints@[i].index
                == x && forall|j: int| 0 <= j < i ==> #[trigger] endpoints@[j].name@ != name@,
{
    proof {
        lemma_index_named_is_first_exact_match(endpoints@, name@);
    }
    let mut i: usize = 0;
    assert(endpoints@.skip(0) =~= endpoints@);
    while i < endpoints.len()
        invariant
            0 <= i <= endpoints@.len(),
            index_named(endpoints@, name@) == index_named(endpoints@.skip(i as int), name@),
        decreases endpoints@.len() - i,
    {
        assert(endpoints@.skip(i as int).drop_first() =~= endpoints@.skip(i + 1));
        if same_name(endpoints[i].name, name) {
            proof {
                lemma_index_named_is_first_exact_match(endpoints@, name@);
            }
            return Some(endpoints[i].index);
        }
        i += 1;
    }
    assert(endpoints@.skip(i as int).len() == 0);
    None
}

/// The named input and output endpoints of a node.
pub trait EndpointDefinition {
    fn input_endpoints(&self) -> &'static [EndpointMetadata];

    fn output_endpoints(&self) -> &'static [EndpointMetadata];

    /// The index of the first input endpoint called `name`, among the
    /// endpoints `input_endpoints` reports.
    fn input_index(&self, name: &str) -> (r: Option<usize>)
        ensures
            exists|e: &'static [EndpointMetadata]|
                call_ensures(Self::input_endpoints, (self,), e) && r == index_named(e@, name@) && (r
                    is None <==> (forall|i: int| 0 <= i < e@.len() ==> #[trigger] e@[i].name@ != name@))
                    && (r matches Some(x) ==> exists|i: int|
                    0 <= i < e@.len() && #[trigger] e@[i].name@ == name@ && e@[i].index == x && forall|
                        j: int,
                    | 0 <= j < i ==> #[trigger] e@[j].name@ != name@),
    {
        let e = self.input_endpoints();
        find_index(e, name)
    }

    /// The index of the first output endpoint called `name`, among the
    /// endpoints `output_endpoints` reports.
    fn output_index(&self, name: &str) -> (r: Option<usize>)
        ensures
            exists|e: &'static [EndpointMetadata]|
                call_ensures(Self::output_endpoints, (self,), e) && r == index_named(e@, name@) && (r
                    is None <==> (forall|i: int| 0 <= i < e@.len() ==> #[trigger] e@[i].name@ != name@))
                    && (r matches Some(x) ==> exists|i: int|
                    0 <= i < e@.len() && #[trigger] e@[i].name@ == name@ && e@[i].index == x && forall|
                        j: int,
                    | 0 <= j < i ==> #[trigger] e@[j].name@ != name@),
    {
        let e = self.output_endpoints();
        find_index(e, name)
    }
}

} // verus!
