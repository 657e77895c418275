//! Architecture description: register-file codec and pointer-width traits.
//!
//! An architecture is described at the type level: its address-sized word
//! type, its register-file type, and an optional target-description document
//! that lets the debugger detect the architecture automatically.

use vstd::prelude::*;

use crate::bytes::ArchWord;

verus! {

/// Methods to read/write architecture-specific registers.
///
/// Registers are de/serialized in the exact order mandated by the
/// architecture's externally maintained description document; that order is
/// part of the wire contract. Each position of the wire image is either a
/// concrete byte or an explicit "unknown/uncollected" marker — an unknown
/// value is a distinct wire state from a zero byte.
pub trait Registers: Default {
    /// The wire image of this register file: one byte-or-unknown entry per
    /// byte position, in architecture order.
    spec fn wire(&self) -> Seq<Option<u8>>;

    /// The architecture's declared total register width in bytes.
    spec fn wire_width() -> nat;

    /// Well-formedness of the register file.
    spec fn inv(&self) -> bool;

    /// Which well-sized byte buffers this architecture can decode: a buffer
    /// is rejected exactly when some positional value cannot be represented
    /// in the target field.
    spec fn decodable(bytes: Seq<u8>) -> bool;

    /// Serialize `self` into a GDB register bytestream.
    ///
    /// Unknown registers appear as `None` entries; the protocol engine
    /// renders them as unencoded placeholders, never as literal bytes. The
    /// output always holds exactly `wire_width()` entries, whatever is
    /// unknown.
    fn gdb_serialize(&self) -> (out: Vec<Option<u8>>)
        requires
            self.inv(),
        ensures
            out@ == self.wire(),
            out@.len() == Self::wire_width(),
    ;

    /// Deserialize a GDB register bytestream into `self`, positionally, in
    /// the same architecture order.
    ///
    /// `Err(())` is the malformed-input condition: the buffer length does
    /// not equal the architecture's total register width, or a positional
    /// value cannot be represented. Failure is all-or-nothing: the file is
    /// left unchanged.
    fn gdb_deserialize(&mut self, bytes: &[u8]) -> (r: Result<(), ()>)
        requires
            old(self).inv(),
        ensures
            final(self).inv(),
            r is Ok <==> (bytes@.len() == Self::wire_width() && Self::decodable(bytes@)),
            r is Ok ==> final(self).wire() == Seq::new(bytes@.len(), |i: int| Some(bytes@[i])),
            r is Err ==> *final(self) == *old(self),
    ;
}

/// Encodes architecture-specific information, such as pointer size and
/// register layout, resolved entirely at compile time.
pub trait Arch: Eq + PartialEq {
    /// The architecture's pointer size (e.g. `u32` on a 32-bit system): an
    /// unsigned machine word with arithmetic, ordering, and the big-endian
    /// byte view the wire protocol transports addresses in.
    type Usize: ArchWord;

    /// The architecture's register file.
    type Registers: Registers;

    /// Whether this architecture offers a target-description document. An
    /// architecture that opts out defines this as `false` (and
    /// `target_description_xml` then returns `None`).
    spec fn has_description() -> bool;

    /// The text of the document, character for character, for an
    /// architecture that offers one.
    spec fn description() -> Seq<char>;

    /// (optional) Return the platform's target-description document.
    ///
    /// Returning a document enables the debugger to detect the target's
    /// architecture automatically; returning `None` opts out, and the user
    /// must then set the architecture manually. A pure constant lookup with
    /// no failure mode: the result is fixed per architecture — `Some`
    /// exactly when the architecture offers a document, and then the
    /// document's text verbatim — and the call touches no other state.
    fn target_description_xml() -> (r: Option<&'static str>)
        ensures
            r is Some <==> Self::has_description(),
            r matches Some(s) ==> s@ == Self::description(),
    ;
}

} // verus!
