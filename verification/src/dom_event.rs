//! The synthesized event handed to the external dispatcher: the event
//! name, a snapshot of the native event's data, and a logical propagation
//! flag the handler may clear.

use vstd::prelude::*;
use crate::prop::{Props, PropsM};

verus! {

/// A synthesized event. The propagation flag starts raised; a handler may
/// clear it to suppress further framework-level propagation.
pub struct DOMEvent {
    name: String,
    data: Props,
    propagation: bool,
}

impl DOMEvent {
    /// A fresh event named `name` carrying `data`, with propagation on.
    pub fn new(name: String, data: Props) -> (r: DOMEvent)
        ensures
            r.spec_name() == name@,
            r.spec_data() == data@,
            r.spec_propagation(),
    {
        DOMEvent { name: name, data: data, propagation: true }
    }

    /// The name of the event.
    pub closed spec fn spec_name(self) -> Seq<char> {
        self.name@
    }

    /// The data snapshot of the event.
    pub closed spec fn spec_data(self) -> PropsM {
        self.data@
    }

    /// Whether framework-level propagation is still on.
    pub closed spec fn spec_propagation(self) -> bool {
        self.propagation
    }

    /// The name of the event.
    pub fn name(&self) -> (r: &String)
        ensures
            r@ == self.spec_name(),
    {
        &self.name
    }

    /// The data snapshot of the event.
    pub fn data(&self) -> (r: &Props)
        ensures
            r@ == self.spec_data(),
    {
        &self.data
    }

    /// Whether framework-level propagation is still on.
    pub fn propagation(&self) -> (r: bool)
        ensures
            r == self.spec_propagation(),
    {
        self.propagation
    }

    /// Clears the propagation flag; the name and data stay as they are.
    pub fn stop_propagation(&mut self)
        ensures
            !final(self).spec_propagation(),
            final(self).spec_name() == old(self).spec_name(),
            final(self).spec_data() == old(self).spec_data(),
    {
        self.propagation = false;
    }
}

} // verus!
