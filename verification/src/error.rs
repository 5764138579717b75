use vstd::prelude::*;

verus! {

/// The two error kinds of the engine. `InvalidConfig` reports a malformed
/// or empty policy set, or a match rule that does not parse; `Serialization`
/// reports a snapshot payload that cannot be decoded. Both carry a
/// descriptive message.
#[derive(Debug)]
pub enum FluxgateError {
    InvalidConfig(String),
    Serialization(String),
}

impl FluxgateError {
    /// A human-readable description of the error.
    pub fn message(&self) -> (r: String)
        ensures
            r@ == self.message_view(),
    {
        match self {
            FluxgateError::InvalidConfig(m) => "invalid configuration: ".to_owned().concat(
                m.as_str(),
            ),
            FluxgateError::Serialization(m) => "serialization error: ".to_owned().concat(
                m.as_str(),
            ),
        }
    }

    pub open spec fn message_view(&self) -> Seq<char> {
        match self {
            FluxgateError::InvalidConfig(m) => "invalid configuration: "@ + m@,
            FluxgateError::Serialization(m) => "serialization error: "@ + m@,
        }
    }
}

} // verus!
