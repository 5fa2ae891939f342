use vstd::prelude::*;

mod bytes;
pub mod model;
pub mod params;
pub mod frozen;
pub mod tree;

verus! {

/// HTTP methods that a route declaration can carry.
#[derive(Clone, Copy, PartialEq, Eq, Structural, Debug)]
pub enum RouteMethod {
    GET,
    POST,
    PUT,
    DELETE,
    HEAD,
    OPTIONS,
    PATCH,
}

} // verus!
