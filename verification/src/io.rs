//! The contract an external-I/O atom carries in its payload.

use vstd::prelude::*;
use crate::json::{JModel, JsonValue, jview};

verus! {

/// What an external-I/O atom promises about its fetch: where it reads from,
/// the shape the response must have, and how sensitive the data is
/// (`0` public, `1` private, `2` sovereign: the endpoint must stay local or
/// on a designated sovereign domain).
#[derive(Debug)]
pub struct IOContract {
    pub endpoint: String,
    pub schema: JsonValue,
    pub sensitivity: u8,
}

/// Mathematical model of an [`IOContract`].
pub ghost struct ContractModel {
    pub endpoint: Seq<char>,
    pub schema: JModel,
    pub sensitivity: u8,
}

impl View for IOContract {
    type V = ContractModel;

    open spec fn view(&self) -> ContractModel {
        ContractModel {
            endpoint: self.endpoint@,
            schema: jview(self.schema),
            sensitivity: self.sensitivity,
        }
    }
}

} // verus!
