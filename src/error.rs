use vstd::prelude::*;

verus! {

/// Error codes of the storage engine; `Success` reports that an operation
/// completed.
#[derive(Debug, Clone, Copy, PartialEq, Eq, Structural)]
pub enum ErrorCode {
    Success,
    CantOpen,
    Schema,
    NoFreeBlocks,
    InvalidBlockSize,
    DuplicateStreamTag,
    UnableToCreateSegment,
    UnableToCreateSegmentBlock,
    NonMonotonicTimestamp,
    RowSizeTooBig,
    UnableToAllocateFile,
    InvalidArgument,
    Unknown,
}

/// The code carried by each numeric value of the boundary.
pub open spec fn code_of(code: u32) -> ErrorCode {
    if code == 0 {
        ErrorCode::Success
    } else if code == 1 {
        ErrorCode::CantOpen
    } else if code == 2 {
        ErrorCode::Schema
    } else if code == 3 {
        ErrorCode::NoFreeBlocks
    } else if code == 4 {
        ErrorCode::InvalidBlockSize
    } else if code == 5 {
        ErrorCode::DuplicateStreamTag
    } else if code == 6 {
        ErrorCode::UnableToCreateSegment
    } else if code == 7 {
        ErrorCode::UnableToCreateSegmentBlock
    } else if code == 8 {
        ErrorCode::NonMonotonicTimestamp
    } else if code == 9 {
        ErrorCode::RowSizeTooBig
    } else if code == 10 {
        ErrorCode::UnableToAllocateFile
    } else if code == 11 {
        ErrorCode::InvalidArgument
    } else {
        ErrorCode::Unknown
    }
}

/// The human-readable message of each code.
pub open spec fn message_of(e: ErrorCode) -> Seq<char> {
    match e {
        ErrorCode::Success => "Success"@,
        ErrorCode::CantOpen => "Cannot open file"@,
        ErrorCode::Schema => "Schema error"@,
        ErrorCode::NoFreeBlocks => "No free blocks available"@,
        ErrorCode::InvalidBlockSize => "Invalid block size"@,
        ErrorCode::DuplicateStreamTag => "Duplicate stream tag"@,
        ErrorCode::UnableToCreateSegment => "Unable to create segment"@,
        ErrorCode::UnableToCreateSegmentBlock => "Unable to create segment block"@,
        ErrorCode::NonMonotonicTimestamp => "Non-monotonic timestamp"@,
        ErrorCode::RowSizeTooBig => "Row size too big"@,
        ErrorCode::UnableToAllocateFile => "Unable to allocate file"@,
        ErrorCode::InvalidArgument => "Invalid argument"@,
        ErrorCode::Unknown => "Unknown error"@,
    }
}

impl ErrorCode {
    /// Decodes a numeric code; values outside the table become `Unknown`.
    pub fn from_c(code: u32) -> (r: ErrorCode)
        ensures
            r == code_of(code),
    {
        match code {
            0 => ErrorCode::Success,
            1 => ErrorCode::CantOpen,
            2 => ErrorCode::Schema,
            3 => ErrorCode::NoFreeBlocks,
            4 => ErrorCode::InvalidBlockSize,
            5 => ErrorCode::DuplicateStreamTag,
            6 => ErrorCode::UnableToCreateSegment,
            7 => ErrorCode::UnableToCreateSegmentBlock,
            8 => ErrorCode::NonMonotonicTimestamp,
            9 => ErrorCode::RowSizeTooBig,
            10 => ErrorCode::UnableToAllocateFile,
            11 => ErrorCode::InvalidArgument,
            _ => ErrorCode::Unknown,
        }
    }

    /// The message of this code, as shown to users.
    pub fn to_string(&self) -> (r: String)
        ensures
            r@ == message_of(*self),
    {
        let s: &str = match self {
            ErrorCode::Success => "Success",
            ErrorCode::CantOpen => "Cannot open file",
            ErrorCode::Schema => "Schema error",
            ErrorCode::NoFreeBlocks => "No free blocks available",
            ErrorCode::InvalidBlockSize => "Invalid block size",
            ErrorCode::DuplicateStreamTag => "Duplicate stream tag",
            ErrorCode::UnableToCreateSegment => "Unable to create segment",
            ErrorCode::UnableToCreateSegmentBlock => "Unable to create segment block",
            ErrorCode::NonMonotonicTimestamp => "Non-monotonic timestamp",
            ErrorCode::RowSizeTooBig => "Row size too big",
            ErrorCode::UnableToAllocateFile => "Unable to allocate file",
            ErrorCode::InvalidArgument => "Invalid argument",
            ErrorCode::Unknown => "Unknown error",
        };
        s.to_owned()
    }
}

} // verus!
