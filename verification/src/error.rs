//! What can go wrong while building datasets, configuring, training or
//! reading models.

use vstd::prelude::*;

verus! {

/// The error of `serde_json`, carried along unopened.
#[verifier::external_type_specification]
#[verifier::external_body]
pub struct ExJsonError(serde_json::Error);

/// Errors of building datasets, configuring, training, or reading models.
#[derive(Debug)]
#[allow(inconsistent_fields)]
pub enum SequoiaError {
    /// Shapes do not fit together, such as a label vector whose length is not
    /// the number of rows.
    DimensionMismatch {
        /// Name of the quantity that mismatched.
        what: &'static str,
        /// The value that was expected.
        expected: usize,
        /// The value that was provided.
        got: usize,
    },
    /// A configuration parameter was outside its valid range.
    InvalidParameter {
        /// The parameter name.
        name: &'static str,
        /// Why the value was rejected.
        reason: String,
    },
    /// The dataset was empty where at least one row or column was required.
    EmptyDataset(&'static str),
    /// A feature index does not exist in the dataset.
    FeatureOutOfBounds {
        /// The offending feature index.
        index: usize,
        /// The number of features available.
        num_features: usize,
    },
    /// An objective, metric or booster name is not recognized.
    Unknown {
        /// What kind of item was being looked up.
        kind: &'static str,
        /// The name that failed to resolve.
        name: String,
    },
    /// A line of a data file could not be parsed.
    Parse {
        /// 1-based line number where parsing failed.
        line: usize,
        /// Description of the failure.
        reason: String,
    },
    /// A model document does not have the expected shape.
    ModelFormat(String),
    /// A document is not JSON.
    Json(serde_json::Error),
}

impl SequoiaError {
    /// An [`SequoiaError::InvalidParameter`].
    pub fn invalid_param(name: &'static str, reason: String) -> (r: Self)
        ensures
            r == (SequoiaError::InvalidParameter { name, reason }),
    {
        SequoiaError::InvalidParameter { name, reason }
    }

    /// An [`SequoiaError::Unknown`].
    pub fn unknown(kind: &'static str, name: String) -> (r: Self)
        ensures
            r == (SequoiaError::Unknown { kind, name }),
    {
        SequoiaError::Unknown { kind, name }
    }
}

} // verus!
