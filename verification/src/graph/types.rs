//! Endpoint descriptions shared by graph nodes.
use vstd::prelude::*;

verus! {

/// Rate class of an endpoint.
#[derive(Copy, Clone, Debug, PartialEq, Eq, Structural)]
pub enum EndpointType {
    Stream,
    Value,
    Event,
}

#[derive(Copy, Clone, Debug, PartialEq, Eq, Structural)]
pub enum EndpointDirection {
    Input,
    Output,
}

/// Placeholder for future UI and validation metadata.
#[derive(Clone, Debug, Default)]
pub struct EndpointAnnotations {}

/// Name, type and direction of an endpoint.
#[derive(Clone, Debug)]
pub struct EndpointDescriptor {
    pub name: &'static str,
    pub endpoint_type: EndpointType,
    pub direction: EndpointDirection,
    pub annotations: EndpointAnnotations,
}

impl EndpointDescriptor {
    pub fn new(
        name: &'static str,
        endpoint_type: EndpointType,
        direction: EndpointDirection,
    ) -> (d: Self)
        ensures
            d.name == name,
            d.endpoint_type == endpoint_type,
            d.direction == direction,
    {
        Self { name, endpoint_type, direction, annotations: EndpointAnnotations {} }
    }
}

} // verus!
