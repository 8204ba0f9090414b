use vstd::prelude::*;

verus! {

/// Why an operation of the driver failed.
#[derive(Debug)]
pub enum Error {
    /// The block device reported a failure.
    Io(std::io::Error),
    /// The master boot record could not be read or was invalid.
    Mbr(crate::mbr::Error),
    /// The BIOS parameter block does not carry the boot signature.
    BadSignature,
    /// There is no FAT32 partition, no entry of the given name, or the
    /// cluster lies outside the file allocation table.
    NotFound,
    /// A cluster chain runs into a free, reserved or bad entry, or a
    /// structure on the volume is malformed.
    InvalidData,
    /// A path does not start at the root, or a seek leaves the file.
    InvalidInput,
    /// The operation would change the volume, which is read-only.
    Unsupported,
}

/// The kinds of failure, without what the device reported.
///
/// The model of the read path answers `Io` where it would need a sector
/// that the cache does not hold: at that point the device decides.
#[derive(PartialEq, Eq, Structural, Debug, Copy, Clone)]
pub enum ErrorKind {
    Io,
    BadSignature,
    UnknownBootIndicator(u8),
    NotFound,
    InvalidData,
    InvalidInput,
    Unsupported,
}

impl Error {
    /// The kind of this error. An error of the master boot record counts
    /// as the kind it wraps.
    pub open spec fn spec_kind(&self) -> ErrorKind {
        match *self {
            Error::Io(_) => ErrorKind::Io,
            Error::Mbr(crate::mbr::Error::Io(_)) => ErrorKind::Io,
            Error::Mbr(crate::mbr::Error::UnknownBootIndicator(i)) => {
                ErrorKind::UnknownBootIndicator(i)
            },
            Error::Mbr(crate::mbr::Error::BadSignature) => ErrorKind::BadSignature,
            Error::BadSignature => ErrorKind::BadSignature,
            Error::NotFound => ErrorKind::NotFound,
            Error::InvalidData => ErrorKind::InvalidData,
            Error::InvalidInput => ErrorKind::InvalidInput,
            Error::Unsupported => ErrorKind::Unsupported,
        }
    }

    /// The kind of this error.
    #[verifier::when_used_as_spec(spec_kind)]
    pub fn kind(&self) -> (k: ErrorKind)
        ensures
            k == self.spec_kind(),
    {
        match self {
            Error::Io(_) => ErrorKind::Io,
            Error::Mbr(crate::mbr::Error::Io(_)) => ErrorKind::Io,
            Error::Mbr(crate::mbr::Error::UnknownBootIndicator(i)) => {
                ErrorKind::UnknownBootIndicator(*i)
            },
            Error::Mbr(crate::mbr::Error::BadSignature) => ErrorKind::BadSignature,
            Error::BadSignature => ErrorKind::BadSignature,
            Error::NotFound => ErrorKind::NotFound,
            Error::InvalidData => ErrorKind::InvalidData,
            Error::InvalidInput => ErrorKind::InvalidInput,
            Error::Unsupported => ErrorKind::Unsupported,
        }
    }
}

/// The kind of the error in a result, and its value otherwise.
pub open spec fn kind_of<T>(r: Result<T, Error>) -> Result<T, ErrorKind> {
    match r {
        Ok(v) => Ok(v),
        Err(e) => Err(e.spec_kind()),
    }
}

} // verus!
