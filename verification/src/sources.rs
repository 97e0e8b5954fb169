//! The error vocabulary shared with result-source extractors: a
//! closed set of failure kinds an extractor can report when turning a
//! source document into a competition record.  Extraction itself is
//! an external collaborator's job; this crate only consumes its
//! output.

use vstd::prelude::*;

verus! {

/// Error kinds of the scraping and parsing process.
#[derive(Clone, Debug)]
pub enum ParsingError {
    /// Network-related failures.
    NetworkError(String),
    /// Required data elements are missing from the source.
    MissingRequiredData(String),
    /// General parsing failures or structural changes in the source.
    ParsingError(String),
    /// Required metadata is missing from the source.
    MissingRequiredMetadata(String),
    /// The extracted record failed validation.
    ValidationError(String),
}

impl ParsingError {
    /// The message prefix of each error kind.
    pub open spec fn spec_prefix(self) -> Seq<char> {
        match self {
            ParsingError::NetworkError(_) => "NETWORK_ERROR: "@,
            ParsingError::MissingRequiredData(_) => "MISSING_REQUIRED_DATA: "@,
            ParsingError::ParsingError(_) => "PARSING_ERROR: "@,
            ParsingError::MissingRequiredMetadata(_) => "Missing required metadata: "@,
            ParsingError::ValidationError(_) => "Validation error: "@,
        }
    }

    /// The detail text the error carries.
    pub open spec fn spec_detail(self) -> Seq<char> {
        match self {
            ParsingError::NetworkError(d) => d@,
            ParsingError::MissingRequiredData(d) => d@,
            ParsingError::ParsingError(d) => d@,
            ParsingError::MissingRequiredMetadata(d) => d@,
            ParsingError::ValidationError(d) => d@,
        }
    }

    /// The error's display text: its kind's prefix followed by the
    /// detail.
    pub fn message(&self) -> (r: String)
        ensures
            r@ == self.spec_prefix() + self.spec_detail(),
    {
        match self {
            ParsingError::NetworkError(d) => String::from_str("NETWORK_ERROR: ").concat(
                d.as_str(),
            ),
            ParsingError::MissingRequiredData(d) => String::from_str(
                "MISSING_REQUIRED_DATA: ",
            ).concat(d.as_str()),
            ParsingError::ParsingError(d) => String::from_str("PARSING_ERROR: ").concat(
                d.as_str(),
            ),
            ParsingError::MissingRequiredMetadata(d) => String::from_str(
                "Missing required metadata: ",
            ).concat(d.as_str()),
            ParsingError::ValidationError(d) => String::from_str("Validation error: ").concat(
                d.as_str(),
            ),
        }
    }
}

} // verus!
