use vstd::prelude::*;

verus! {

/// `core::str::Utf8Error`, carried opaquely inside [`ErrorType::Utf8`].
#[verifier::external_type_specification]
#[verifier::external_body]
pub struct ExUtf8Error(core::str::Utf8Error);

/// An error raised while validating or decoding a device tree blob.
///
/// `Typed` errors carry the absolute byte offset at which the fault was
/// detected; `Custom` errors come from the consumer side of decoding.
#[derive(Clone, Debug, PartialEq, Eq)]
pub enum Error {
    Typed { error_type: ErrorType, file_index: usize },
    Custom(String),
}

/// The closed set of structural faults.
#[derive(Debug, Clone, Copy, PartialEq, Eq)]
pub enum ErrorType {
    InvalidMagic { wrong_magic: u32 },
    IncompatibleVersion { last_comp_version: u32, library_supported_version: u32 },
    HeaderTooShort { header_length: u32, at_least_length: u32 },
    StructureIndex {
        current_index: u32,
        bound_index: u32,
        structure_or_string: bool,
        overflow_or_underflow: bool,
    },
    StringEofUnexpected,
    SliceEofUnexpected { expected_length: u32, remaining_length: u32 },
    TableStringOffset { given_offset: u32, bound_offset: u32 },
    TagEofUnexpected { current_index: u32, bound_index: u32 },
    InvalidTagId { wrong_id: u32 },
    ExpectStructBegin,
    ExpectStructEnd,
    NoRemainingTags,
    /// A token of another kind than the hook can read stands next.
    UnexpectedTag,
    InvalidSerdeTypeLength { expected_length: u8 },
    Utf8(core::str::Utf8Error),
}

pub type Result<T> = core::result::Result<T, Error>;

/// A typed error of kind `error_type` detected at `file_index`.
pub open spec fn typed(error_type: ErrorType, file_index: usize) -> Error {
    Error::Typed { error_type, file_index }
}

impl Error {
    pub fn invalid_magic(wrong_magic: u32, file_index: usize) -> (r: Error)
        ensures
            r == typed(ErrorType::InvalidMagic { wrong_magic }, file_index),
    {
        Error::Typed { error_type: ErrorType::InvalidMagic { wrong_magic }, file_index }
    }

    pub fn incompatible_version(
        last_comp_version: u32,
        library_supported_version: u32,
        file_index: usize,
    ) -> (r: Error)
        ensures
            r == typed(
                ErrorType::IncompatibleVersion { last_comp_version, library_supported_version },
                file_index,
            ),
    {
        Error::Typed {
            error_type: ErrorType::IncompatibleVersion {
                last_comp_version,
                library_supported_version,
            },
            file_index,
        }
    }

    pub fn header_too_short(header_length: u32, at_least_length: u32, file_index: usize) -> (r:
        Error)
        ensures
            r == typed(ErrorType::HeaderTooShort { header_length, at_least_length }, file_index),
    {
        Error::Typed {
            error_type: ErrorType::HeaderTooShort { header_length, at_least_length },
            file_index,
        }
    }

    pub fn structure_index_underflow(begin_index: u32, at_least_index: u32, file_index: usize) -> (r:
        Error)
        ensures
            r == typed(
                ErrorType::StructureIndex {
                    current_index: begin_index,
                    bound_index: at_least_index,
                    structure_or_string: true,
                    overflow_or_underflow: false,
                },
                file_index,
            ),
    {
        Error::Typed {
            error_type: ErrorType::StructureIndex {
                current_index: begin_index,
                bound_index: at_least_index,
                structure_or_string: true,
                overflow_or_underflow: false,
            },
            file_index,
        }
    }

    pub fn structure_index_overflow(end_index: u32, at_most_index: u32, file_index: usize) -> (r:
        Error)
        ensures
            r == typed(
                ErrorType::StructureIndex {
                    current_index: end_index,
                    bound_index: at_most_index,
                    structure_or_string: true,
                    overflow_or_underflow: true,
                },
                file_index,
            ),
    {
        Error::Typed {
            error_type: ErrorType::StructureIndex {
                current_index: end_index,
                bound_index: at_most_index,
                structure_or_string: true,
                overflow_or_underflow: true,
            },
            file_index,
        }
    }

    pub fn string_index_underflow(begin_index: u32, at_least_index: u32, file_index: usize) -> (r:
        Error)
        ensures
            r == typed(
                ErrorType::StructureIndex {
                    current_index: begin_index,
                    bound_index: at_least_index,
                    structure_or_string: false,
                    overflow_or_underflow: false,
                },
                file_index,
            ),
    {
        Error::Typed {
            error_type: ErrorType::StructureIndex {
                current_index: begin_index,
                bound_index: at_least_index,
                structure_or_string: false,
                overflow_or_underflow: false,
            },
            file_index,
        }
    }

    pub fn string_index_overflow(end_index: u32, at_most_index: u32, file_index: usize) -> (r:
        Error)
        ensures
            r == typed(
                ErrorType::StructureIndex {
                    current_index: end_index,
                    bound_index: at_most_index,
                    structure_or_string: false,
                    overflow_or_underflow: true,
                },
                file_index,
            ),
    {
        Error::Typed {
            error_type: ErrorType::StructureIndex {
                current_index: end_index,
                bound_index: at_most_index,
                structure_or_string: false,
                overflow_or_underflow: true,
            },
            file_index,
        }
    }

    pub fn string_eof_unpexpected(file_index: usize) -> (r: Error)
        ensures
            r == typed(ErrorType::StringEofUnexpected, file_index),
    {
        Error::Typed { error_type: ErrorType::StringEofUnexpected, file_index }
    }

    pub fn slice_eof_unpexpected(expected_length: u32, remaining_length: u32, file_index: usize) -> (r:
        Error)
        ensures
            r == typed(
                ErrorType::SliceEofUnexpected { expected_length, remaining_length },
                file_index,
            ),
    {
        Error::Typed {
            error_type: ErrorType::SliceEofUnexpected { expected_length, remaining_length },
            file_index,
        }
    }

    pub fn table_string_offset(given_offset: u32, bound_offset: u32, file_index: usize) -> (r:
        Error)
        ensures
            r == typed(ErrorType::TableStringOffset { given_offset, bound_offset }, file_index),
    {
        Error::Typed {
            error_type: ErrorType::TableStringOffset { given_offset, bound_offset },
            file_index,
        }
    }

    pub fn tag_eof_unexpected(current_index: u32, bound_index: u32, file_index: usize) -> (r:
        Error)
        ensures
            r == typed(ErrorType::TagEofUnexpected { current_index, bound_index }, file_index),
    {
        Error::Typed {
            error_type: ErrorType::TagEofUnexpected { current_index, bound_index },
            file_index,
        }
    }

    pub fn invalid_tag_id(wrong_id: u32, file_index: usize) -> (r: Error)
        ensures
            r == typed(ErrorType::InvalidTagId { wrong_id }, file_index),
    {
        Error::Typed { error_type: ErrorType::InvalidTagId { wrong_id }, file_index }
    }

    pub fn invalid_serde_type_length(expected_length: u8, file_index: usize) -> (r: Error)
        ensures
            r == typed(ErrorType::InvalidSerdeTypeLength { expected_length }, file_index),
    {
        Error::Typed { error_type: ErrorType::InvalidSerdeTypeLength { expected_length }, file_index }
    }

    pub fn utf8(error: core::str::Utf8Error, file_index: usize) -> (r: Error)
        ensures
            r == typed(ErrorType::Utf8(error), file_index),
    {
        Error::Typed { error_type: ErrorType::Utf8(error), file_index }
    }

    pub fn expected_struct_begin() -> (r: Error)
        ensures
            r == typed(ErrorType::ExpectStructBegin, 0),
    {
        Error::Typed { error_type: ErrorType::ExpectStructBegin, file_index: 0 }
    }

    pub fn expected_struct_end() -> (r: Error)
        ensures
            r == typed(ErrorType::ExpectStructEnd, 0),
    {
        Error::Typed { error_type: ErrorType::ExpectStructEnd, file_index: 0 }
    }

    pub fn no_remaining_tags() -> (r: Error)
        ensures
            r == typed(ErrorType::NoRemainingTags, 0),
    {
        Error::Typed { error_type: ErrorType::NoRemainingTags, file_index: 0 }
    }

    pub fn unexpected_tag(file_index: usize) -> (r: Error)
        ensures
            r == typed(ErrorType::UnexpectedTag, file_index),
    {
        Error::Typed { error_type: ErrorType::UnexpectedTag, file_index }
    }

    /// A free-text error raised by consumer-side decoding logic.
    pub fn custom(msg: String) -> (r: Error)
        ensures
            r == Error::Custom(msg),
    {
        Error::Custom(msg)
    }

    /// A copy of this error, equal to it.
    pub fn duplicate(&self) -> (r: Error)
        ensures
            r == *self,
    {
        match self {
            Error::Typed { error_type, file_index } => Error::Typed {
                error_type: *error_type,
                file_index: *file_index,
            },
            Error::Custom(s) => Error::Custom(s.clone()),
        }
    }
}

} // verus!
