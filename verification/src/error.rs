//! The ways in which reading or writing an archive can fail.
use vstd::prelude::*;

verus! {

/// Why an archive could not be written or read.
#[derive(Clone, Copy, Debug, PartialEq, Eq, Structural)]
pub enum Error {
    /// A range-coded payload ended before all of its symbols were decoded.
    TruncatedRangePayload,
    /// A range-coded container is too short or does not start with its magic.
    InvalidRangeHeader,
    /// A range-coded container has a version this library does not know.
    UnsupportedRangeVersion,
    /// A range-coded container declares more bytes than memory can address.
    PayloadTooLarge,
    /// The number of pixels does not fit in `usize`.
    DimensionsTooLarge,
    /// A legacy payload is too short or does not start with its magic.
    InvalidLegacyHeader,
    /// A legacy payload does not hold one residual per pixel.
    LegacyLengthMismatch,
    /// A versioned payload is too short or does not start with its magic.
    InvalidVersionedHeader,
    /// A versioned payload has a version this library does not know.
    UnsupportedVersion,
    /// A raw payload does not hold one byte per pixel.
    RawLengthMismatch,
    /// The filter table of an adaptive payload ends beyond `usize`.
    FilterMetadataTooLarge,
    /// An adaptive payload ends inside its filter table.
    MissingFilterMetadata,
    /// A filtered payload does not hold one residual per pixel.
    FilteredLengthMismatch,
    /// A versioned payload has a mode this library does not know.
    UnknownMode,
    /// A payload starts with none of the known magics.
    UnrecognizedArchive,
    /// There was no candidate to choose an archive from.
    NoCandidates,
    /// The DEFLATE compressor reported a failure.
    DeflateFailed,
    /// A DEFLATE stream is malformed.
    CorruptDeflate,
    /// A DEFLATE stream ends too early.
    IncompleteDeflate,
}

impl Error {
    /// The text shown to a user for this error.
    pub open spec fn text(self) -> Seq<char> {
        match self {
            Error::TruncatedRangePayload => "Range-coded payload is truncated"@,
            Error::InvalidRangeHeader => "Invalid range-coded file header"@,
            Error::UnsupportedRangeVersion => "Unsupported range-coded format version"@,
            Error::PayloadTooLarge => "Payload is too large"@,
            Error::DimensionsTooLarge => "Image dimensions are too large"@,
            Error::InvalidLegacyHeader => "Invalid legacy file header"@,
            Error::LegacyLengthMismatch => "Legacy pixel data has an invalid length"@,
            Error::InvalidVersionedHeader => "Invalid versioned file header"@,
            Error::UnsupportedVersion => "Unsupported .bhol format version"@,
            Error::RawLengthMismatch => "Raw pixel data has an invalid length"@,
            Error::FilterMetadataTooLarge => "Filter metadata is too large"@,
            Error::MissingFilterMetadata => "Missing filter metadata"@,
            Error::FilteredLengthMismatch => "Filtered pixel data has an invalid length"@,
            Error::UnknownMode => "Unknown .bhol compression mode"@,
            Error::UnrecognizedArchive => "Invalid file header: Not a recognized .bhol archive"@,
            Error::NoCandidates => "No compression candidates were generated"@,
            Error::DeflateFailed => "deflate compression error"@,
            Error::CorruptDeflate => "corrupt deflate stream"@,
            Error::IncompleteDeflate => "incomplete deflate stream"@,
        }
    }

    /// Returns the text shown to a user for this error.
    pub fn message(self) -> (message: &'static str)
        ensures
            message@ == self.text(),
    {
        match self {
            Error::TruncatedRangePayload => "Range-coded payload is truncated",
            Error::InvalidRangeHeader => "Invalid range-coded file header",
            Error::UnsupportedRangeVersion => "Unsupported range-coded format version",
            Error::PayloadTooLarge => "Payload is too large",
            Error::DimensionsTooLarge => "Image dimensions are too large",
            Error::InvalidLegacyHeader => "Invalid legacy file header",
            Error::LegacyLengthMismatch => "Legacy pixel data has an invalid length",
            Error::InvalidVersionedHeader => "Invalid versioned file header",
            Error::UnsupportedVersion => "Unsupported .bhol format version",
            Error::RawLengthMismatch => "Raw pixel data has an invalid length",
            Error::FilterMetadataTooLarge => "Filter metadata is too large",
            Error::MissingFilterMetadata => "Missing filter metadata",
            Error::FilteredLengthMismatch => "Filtered pixel data has an invalid length",
            Error::UnknownMode => "Unknown .bhol compression mode",
            Error::UnrecognizedArchive => "Invalid file header: Not a recognized .bhol archive",
            Error::NoCandidates => "No compression candidates were generated",
            Error::DeflateFailed => "deflate compression error",
            Error::CorruptDeflate => "corrupt deflate stream",
            Error::IncompleteDeflate => "incomplete deflate stream",
        }
    }
}

} // verus!
