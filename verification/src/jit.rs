//! The machine code that the execution engine runs. Mapping memory and
//! running code are the program's edge; what the library decides is whether
//! there is a payload to run, and what it is.

use vstd::prelude::*;
use vstd::string::*;

verus! {

broadcast use vstd::string::group_string_axioms;

/// An execution engine for a payload of raw opcodes (write, then execute:
/// never both).
pub struct SovereignJitEngine {
    opcodes: Vec<u8>,
}

impl View for SovereignJitEngine {
    type V = Seq<u8>;

    /// The opcodes the engine holds.
    closed spec fn view(&self) -> Seq<u8> {
        self.opcodes@
    }
}

impl SovereignJitEngine {
    /// An engine holding `opcodes`.
    pub fn new(opcodes: Vec<u8>) -> (r: Self)
        ensures
            r@ == opcodes@,
    {
        Self { opcodes }
    }

    /// The payload to map and run: the opcodes, or an error when there are none.
    pub fn payload(&self) -> (r: Result<&[u8], String>)
        ensures
            r is Err <==> self@.len() == 0,
            r matches Ok(p) ==> p@ == self@,
            r matches Err(m) ==> m@ == "No opcodes to execute"@,
    {
        if self.opcodes.len() == 0 {
            return Err(String::from_str("No opcodes to execute"));
        }
        Ok(self.opcodes.as_slice())
    }
}

} // verus!
