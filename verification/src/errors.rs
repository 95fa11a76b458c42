use vstd::prelude::*;

verus! {

/// Error kinds of the boot-variable core and of the firmware plumbing
/// around it.
///
/// The codec and boot-manager functions in this crate produce the first
/// five kinds themselves. The remaining kinds exist so that callers which
/// drive the firmware services (variable store, handle database, image
/// loader) can map each failure of that surface into this crate's error
/// type.
#[derive(Clone, Copy, Debug, PartialEq, Eq, Structural)]
pub enum BootVarError {
    /// A load-option record shorter than its fixed six-byte header.
    RecordTooShort,
    /// A load-option description with no null terminator inside the record.
    MalformedRecord,
    /// A device-path section whose declared length does not agree with the
    /// node boundaries actually found in the record.
    TruncatedDevicePath,
    /// A boot-order buffer of odd byte length.
    OddLengthBuffer,
    /// No free boot index was found even though the entries are not dense.
    NoAvailableIndex,
    /// A firmware variable was absent from the store.
    VariableNotFound,
    /// A handle did not carry the requested protocol.
    ProtocolUnsupported,
    /// Connecting a handle to a driver failed for a reason other than
    /// "no applicable driver".
    ConnectFailed,
    /// The image loader refused to load an image.
    LoadFailed,
    /// A loaded image failed to start.
    StartFailed,
}

} // verus!
