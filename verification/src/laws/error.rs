//! Laws of the errors.
use vstd::prelude::*;

use crate::error::Error;

verus! {

/// What a user is told, for every error.
pub proof fn texts_of_errors()
    ensures
        Error::TruncatedRangePayload.text() == "Range-coded payload is truncated"@,
        Error::InvalidRangeHeader.text() == "Invalid range-coded file header"@,
        Error::UnsupportedRangeVersion.text() == "Unsupported range-coded format version"@,
        Error::PayloadTooLarge.text() == "Payload is too large"@,
        Error::DimensionsTooLarge.text() == "Image dimensions are too large"@,
        Error::InvalidLegacyHeader.text() == "Invalid legacy file header"@,
        Error::LegacyLengthMismatch.text() == "Legacy pixel data has an invalid length"@,
        Error::InvalidVersionedHeader.text() == "Invalid versioned file header"@,
        Error::UnsupportedVersion.text() == "Unsupported .bhol format version"@,
        Error::RawLengthMismatch.text() == "Raw pixel data has an invalid length"@,
        Error::FilterMetadataTooLarge.text() == "Filter metadata is too large"@,
        Error::MissingFilterMetadata.text() == "Missing filter metadata"@,
        Error::FilteredLengthMismatch.text() == "Filtered pixel data has an invalid length"@,
        Error::UnknownMode.text() == "Unknown .bhol compression mode"@,
        Error::UnrecognizedArchive.text() == "Invalid file header: Not a recognized .bhol archive"@,
        Error::NoCandidates.text() == "No compression candidates were generated"@,
        Error::DeflateFailed.text() == "deflate compression error"@,
        Error::CorruptDeflate.text() == "corrupt deflate stream"@,
        Error::IncompleteDeflate.text() == "incomplete deflate stream"@,
{
}

} // verus!
