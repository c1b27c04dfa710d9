//! Error kinds produced by the set algebra and the script front end.

use vstd::prelude::*;
use vstd::string::StringExecFns;

verus! {

/// Every failure the library can report. Set operations themselves are
/// total; errors come from range construction, bit-string conversions and
/// the script / address grammars. An unrecognized script line carries the
/// offending line.
#[derive(Clone, Debug, PartialEq, Eq)]
pub enum Error {
    /// `Tree::from_range` called with `start > end`.
    RangeInverted,
    /// A CIDR whose stated length exceeds the family width.
    PrefixTooLong,
    /// An address literal that does not match the family's grammar.
    MalformedAddress,
    /// The wrong number of segments around `/`.
    MalformedCidr,
    /// The wrong number of segments around `-`.
    MalformedRange,
    /// A script line that does not begin with `+`, `-` or `#`; holds that
    /// line, trimmed.
    UnrecognizedLine(String),
    /// `Prefix::chunks` or `Prefix::to_u64` asked to build an integer from
    /// a chunk that is empty, longer than 64 bits, or of uneven size.
    ChunkSizeInvalid,
    /// `Prefix::split` called on an empty bit-string.
    EmptyPrefix,
    /// `convert` called with a version other than `"4"` or `"6"`.
    UnknownVersion,
}

/// The mathematical content of an error: the kind, and for an
/// unrecognized line the line's characters.
pub enum ErrorModel {
    RangeInverted,
    PrefixTooLong,
    MalformedAddress,
    MalformedCidr,
    MalformedRange,
    UnrecognizedLine(Seq<char>),
    ChunkSizeInvalid,
    EmptyPrefix,
    UnknownVersion,
}

impl Error {
    /// The error's mathematical content.
    pub open spec fn model(self) -> ErrorModel {
        match self {
            Error::RangeInverted => ErrorModel::RangeInverted,
            Error::PrefixTooLong => ErrorModel::PrefixTooLong,
            Error::MalformedAddress => ErrorModel::MalformedAddress,
            Error::MalformedCidr => ErrorModel::MalformedCidr,
            Error::MalformedRange => ErrorModel::MalformedRange,
            Error::UnrecognizedLine(line) => ErrorModel::UnrecognizedLine(line@),
            Error::ChunkSizeInvalid => ErrorModel::ChunkSizeInvalid,
            Error::EmptyPrefix => ErrorModel::EmptyPrefix,
            Error::UnknownVersion => ErrorModel::UnknownVersion,
        }
    }

    /// The human-readable text of each error; an unrecognized line's
    /// message includes the offending line.
    pub open spec fn spec_message(self) -> Seq<char> {
        match self {
            Error::RangeInverted => "In a range, start must be <= end"@,
            Error::PrefixTooLong => "Invalid CIDR prefix length"@,
            Error::MalformedAddress => "Invalid address"@,
            Error::MalformedCidr => "Invalid CIDR"@,
            Error::MalformedRange => "Invalid range"@,
            Error::UnrecognizedLine(line) => "Unrecognized line: "@ + line@,
            Error::ChunkSizeInvalid => "Cannot chunk bits into integers of that size"@,
            Error::EmptyPrefix => "Cannot split on empty prefix"@,
            Error::UnknownVersion => "Unrecognized version"@,
        }
    }

    /// A human-readable message for the error.
    pub fn message(&self) -> (r: String)
        ensures
            r@ == self.spec_message(),
    {
        match self {
            Error::RangeInverted => String::from_str("In a range, start must be <= end"),
            Error::PrefixTooLong => String::from_str("Invalid CIDR prefix length"),
            Error::MalformedAddress => String::from_str("Invalid address"),
            Error::MalformedCidr => String::from_str("Invalid CIDR"),
            Error::MalformedRange => String::from_str("Invalid range"),
            Error::UnrecognizedLine(line) => {
                let mut m = String::from_str("Unrecognized line: ");
                m.append(line.as_str());
                m
            },
            Error::ChunkSizeInvalid => String::from_str(
                "Cannot chunk bits into integers of that size",
            ),
            Error::EmptyPrefix => String::from_str("Cannot split on empty prefix"),
            Error::UnknownVersion => String::from_str("Unrecognized version"),
        }
    }
}

} // verus!
