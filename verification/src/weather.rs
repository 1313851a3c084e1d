//! The weather client's data model. The observation fetch itself is
//! plain HTTP and JSON outside this crate's concern; only the shapes
//! that other components name live here.

use vstd::prelude::*;

verus! {

/// A client for the weather feed.
pub struct Client;

/// A compass wind direction as the feed reports it.
#[derive(Debug, PartialEq, Eq, Structural, Clone, Copy)]
pub enum WindDirection {
    CALM,
    N,
    NE,
    E,
    SE,
    S,
    SW,
    W,
    NW,
    NNE,
    ENE,
    ESE,
    SSE,
    SSW,
    WSW,
    WNW,
    NNW,
}

/// A forecast; the feed's forecast product carries no fields yet.
pub struct Forecast;

impl Client {
    /// A new weather client.
    pub fn new() -> Self {
        Client {  }
    }
}

} // verus!
