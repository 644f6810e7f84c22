use vstd::prelude::*;
use vstd::string::StringExecFns;

verus! {

/// Why an archive could not be built.
#[derive(Clone, Copy, Debug, PartialEq, Eq, Structural)]
pub enum BuildError {
    /// The source does not exist or is no directory.
    SourceNotFound,
    /// The walk over the source was not complete, a file of it could not
    /// be read, or the writer refused an entry.
    Io,
}

/// Why an archive could not be read or unpacked.
#[derive(Clone, Debug, PartialEq, Eq)]
pub enum ArchiveError {
    /// The bytes are no well-formed archive.
    MalformedArchive,
    /// The entry at `path` cannot be written below the destination.
    ExtractionFailed { path: String },
}

/// Why a pairing credential could not be brought to work.
#[derive(Clone, Copy, Debug, PartialEq, Eq, Structural)]
pub enum ValidationError {
    /// Wireless debugging could not be switched on, most often because the
    /// device has no passcode.
    EnableDebugFailed,
    /// The device refused to pair.
    PairingFailed,
    /// The probe still failed after the last round of corrections allowed.
    ValidationExhausted,
}

/// Why bytes could not be read as a binary property list.
#[derive(Clone, Copy, Debug, PartialEq, Eq, Structural)]
pub enum DecodeError {
    /// The bytes do not begin with the header of a binary property list.
    NotAPropertyList,
    /// A part of the list, at the place and of the length that the list
    /// itself gives, runs past the end of the bytes.
    TruncatedData,
    /// The list contradicts itself: a size, a reference or a marker that the
    /// format has no place for, a string that is no text, a dictionary with
    /// a key twice, or values nested deeper than lists are read.
    Malformed,
    /// The list holds a kind of value that this library leaves aside: a
    /// real number, a date, a unique identifier, an integer of 16 bytes.
    Unsupported,
}

/// Why a dictionary item could not be read or written.
#[derive(Clone, Copy, Debug, PartialEq, Eq, Structural)]
pub enum DocumentError {
    /// The root of the document is no dictionary.
    WrongRootType,
}

/// Why a package could not be personalized.
#[derive(Clone, Debug, PartialEq, Eq)]
pub enum PipelineError {
    /// The package could not be read or unpacked.
    Archive(ArchiveError),
    /// The package has no configuration document at the expected place.
    ConfigurationNotFound,
    /// The configuration document is no property list, or its root is no
    /// dictionary.
    InvalidConfiguration,
    /// The pairing record of the device is no property list, or its root is
    /// no dictionary.
    InvalidPairingRecord,
    /// The new package could not be built.
    Build(BuildError),
    /// The file operation `operation` failed at `path`.
    Io { operation: FileOperation, path: String },
    /// An event came after the run had ended.
    Ended,
}

/// The operations on files that a run of the pipeline asks for.
#[derive(Clone, Copy, Debug, PartialEq, Eq, Structural)]
pub enum FileOperation {
    /// Reading the configuration document.
    Read,
    /// Putting the new configuration document in its place.
    Replace,
    /// Walking the temporary directory.
    List,
    /// Writing the new package.
    Write,
    /// Removing the temporary directory.
    Remove,
}

/// What a file operation is called in a message.
pub open spec fn operation_name(operation: FileOperation) -> Seq<char> {
    match operation {
        FileOperation::Read => "read configuration"@,
        FileOperation::Replace => "replace configuration"@,
        FileOperation::List => "list temporary directory"@,
        FileOperation::Write => "write package"@,
        FileOperation::Remove => "remove temporary directory"@,
    }
}

/// The kinds of failure that a caller tells apart.
#[derive(Clone, Copy, Debug, PartialEq, Eq, Structural)]
pub enum ErrorKind {
    /// Reading or writing files failed.
    Io,
    /// An archive or a property list is malformed.
    Format,
    /// The configuration document is missing or of the wrong shape.
    Configuration,
    /// A call to the device failed, or what the device gave is unusable.
    Device,
    /// The pairing credential could not be brought to work in the rounds
    /// allowed.
    ValidationExhausted,
}

/// The kind of a failure of the pipeline.
pub open spec fn pipeline_kind(error: PipelineError) -> ErrorKind {
    match error {
        PipelineError::Archive(ArchiveError::MalformedArchive) => ErrorKind::Format,
        PipelineError::Archive(ArchiveError::ExtractionFailed { .. }) => ErrorKind::Io,
        PipelineError::ConfigurationNotFound => ErrorKind::Configuration,
        PipelineError::InvalidConfiguration => ErrorKind::Configuration,
        PipelineError::InvalidPairingRecord => ErrorKind::Device,
        PipelineError::Build(_) => ErrorKind::Io,
        PipelineError::Io { .. } => ErrorKind::Io,
        PipelineError::Ended => ErrorKind::Io,
    }
}

/// The kind of a failure of the validation.
pub open spec fn validation_kind(error: ValidationError) -> ErrorKind {
    match error {
        ValidationError::EnableDebugFailed => ErrorKind::Device,
        ValidationError::PairingFailed => ErrorKind::Device,
        ValidationError::ValidationExhausted => ErrorKind::ValidationExhausted,
    }
}

/// What a failure of the pipeline says to the user.
pub open spec fn pipeline_message(error: PipelineError) -> Seq<char> {
    match error {
        PipelineError::Archive(ArchiveError::MalformedArchive) =>
            "open package: not a well-formed archive"@,
        PipelineError::Archive(ArchiveError::ExtractionFailed { path }) =>
            "extract package: cannot write "@
            + path@,
        PipelineError::ConfigurationNotFound =>
            "locate configuration: the package has no Info.plist"@,
        PipelineError::InvalidConfiguration =>
            "read configuration: Info.plist is not a dictionary property list"@,
        PipelineError::InvalidPairingRecord =>
            "read pairing record: not a dictionary property list"@,
        PipelineError::Build(BuildError::SourceNotFound) =>
            "build package: the source directory was not found"@,
        PipelineError::Build(BuildError::Io) => "build package: reading or packing a file failed"@,
        PipelineError::Io { operation, path } => operation_name(operation) + ": failed at "@
            + path@,
        PipelineError::Ended => "advance: the run has already ended"@,
    }
}

/// What a failure of the validation says to the user.
pub open spec fn validation_message(error: ValidationError) -> Seq<char> {
    match error {
        ValidationError::EnableDebugFailed =>
            "enable wireless debugging: the device refused; make sure a passcode is set"@,
        ValidationError::PairingFailed => "pair: the device refused to pair"@,
        ValidationError::ValidationExhausted =>
            "probe: the pairing credential still fails after the last round of corrections"@,
    }
}

impl PipelineError {
    /// The kind of the failure.
    pub fn kind(&self) -> (kind: ErrorKind)
        ensures
            kind == pipeline_kind(*self),
    {
        match self {
            PipelineError::Archive(ArchiveError::MalformedArchive) => ErrorKind::Format,
            PipelineError::Archive(ArchiveError::ExtractionFailed { .. }) => ErrorKind::Io,
            PipelineError::ConfigurationNotFound => ErrorKind::Configuration,
            PipelineError::InvalidConfiguration => ErrorKind::Configuration,
            PipelineError::InvalidPairingRecord => ErrorKind::Device,
            PipelineError::Build(_) => ErrorKind::Io,
            PipelineError::Io { .. } => ErrorKind::Io,
            PipelineError::Ended => ErrorKind::Io,
        }
    }

    /// What the failure says to the user: the step that failed and, where
    /// there is one, the path at which it failed.
    pub fn message(&self) -> (text: String)
        ensures
            text@ == pipeline_message(*self),
    {
        match self {
            PipelineError::Archive(ArchiveError::MalformedArchive) => {
                "open package: not a well-formed archive".to_owned()
            },
            PipelineError::Archive(ArchiveError::ExtractionFailed { path }) => {
                let mut text = "extract package: cannot write ".to_owned();
                text.append(path.as_str());
                text
            },
            PipelineError::ConfigurationNotFound => {
                "locate configuration: the package has no Info.plist".to_owned()
            },
            PipelineError::InvalidConfiguration => {
                "read configuration: Info.plist is not a dictionary property list".to_owned()
            },
            PipelineError::InvalidPairingRecord => {
                "read pairing record: not a dictionary property list".to_owned()
            },
            PipelineError::Build(BuildError::SourceNotFound) => {
                "build package: the source directory was not found".to_owned()
            },
            PipelineError::Build(BuildError::Io) => {
                "build package: reading or packing a file failed".to_owned()
            },
            PipelineError::Io { operation, path } => {
                let mut text = match operation {
                    FileOperation::Read => "read configuration".to_owned(),
                    FileOperation::Replace => "replace configuration".to_owned(),
                    FileOperation::List => "list temporary directory".to_owned(),
                    FileOperation::Write => "write package".to_owned(),
                    FileOperation::Remove => "remove temporary directory".to_owned(),
                };
                text.append(": failed at ");
                text.append(path.as_str());
                text
            },
            PipelineError::Ended => "advance: the run has already ended".to_owned(),
        }
    }
}

impl ValidationError {
    /// The kind of the failure.
    pub fn kind(&self) -> (kind: ErrorKind)
        ensures
            kind == validation_kind(*self),
    {
        match self {
            ValidationError::EnableDebugFailed => ErrorKind::Device,
            ValidationError::PairingFailed => ErrorKind::Device,
            ValidationError::ValidationExhausted => ErrorKind::ValidationExhausted,
        }
    }

    /// What the failure says to the user: the device call that failed and
    /// what to do about it.
    pub fn message(&self) -> (text: String)
        ensures
            text@ == validation_message(*self),
    {
        match self {
            ValidationError::EnableDebugFailed => {
                "enable wireless debugging: the device refused; make sure a passcode is set".to_owned()
            },
            ValidationError::PairingFailed => "pair: the device refused to pair".to_owned(),
            ValidationError::ValidationExhausted => {
                "probe: the pairing credential still fails after the last round of corrections".to_owned()
            },
        }
    }
}

} // verus!
