use vstd::prelude::*;

verus! {

/// Every way in which building or reading a DNS message can fail.
#[derive(Clone, Copy, Debug, PartialEq, Eq, Structural)]
pub enum DnsError {
    /// A name to encode has an empty label, a label over 63 bytes, or is too long
    /// in its wire form; or a decoded name is not valid UTF-8 text.
    InvalidName,
    /// The buffer ends inside a name.
    TruncatedName,
    /// A compression pointer targets an offset at or past the buffer end.
    MalformedPointer,
    /// A name follows more compression pointers than the decoder allows.
    PointerLoop,
    /// A label length byte uses one of the reserved prefixes `01` or `10`.
    UnsupportedLabel,
    /// The buffer ends inside the header, a question or a record.
    TruncatedMessage,
    /// A type tag other than `A`.
    UnsupportedRecordType,
    /// A class tag other than `IN`.
    UnsupportedClass,
    /// An `A` record whose RDLENGTH is not 4.
    InvalidRecordLength,
    /// The resolver configuration holds no usable nameserver entry.
    ConfigurationError,
}

} // verus!
