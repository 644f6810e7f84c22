use vstd::prelude::*;
use vstd::string::StringExecFns;
use crate::archive::{paths_unique, ArchiveEntry, Compression, EntryView};
use crate::bplist::decoded;
use crate::bplist_write::encoded;
use crate::builder::{
    is_complete, packs, planned_entries, records_for, sorted_nodes, ArchiveBuilder, SourceTree,
};
use crate::container::zip_image;
use crate::error::{ArchiveError, BuildError, DecodeError, FileOperation, PipelineError};
use crate::naming::{
    configuration_path, configuration_path_of, output_file_name, output_name,
};
use crate::personalize::{personalize_configuration, personalized, PersonalizationInputs};
use crate::plist::Plist;
use crate::reader::{
    entries_of_records, first_unsafe, target_path, zip_listing, ArchiveReader,
};

verus! {

/// Where a run of the pipeline stands: what the caller is doing for it.
#[derive(Clone, Copy, Debug, PartialEq, Eq, Structural)]
pub enum PipelineStage {
    /// The entries of the package are written below the temporary
    /// directory.
    Extracting,
    /// The configuration document is read from there.
    ReadingConfiguration,
    /// The new configuration document is written in its place.
    WritingConfiguration,
    /// The temporary directory is walked.
    Listing,
    /// The new package is written.
    WritingArchive,
    /// The temporary directory is removed.
    Cleaning,
    /// The run has ended.
    Done,
}

/// What the caller has to do next.
#[derive(Debug, PartialEq, Eq)]
pub enum PipelineAction {
    /// Write the entries, whose paths lie below `directory`: create each
    /// directory, and each file with its content, with the directories
    /// above it.
    Extract { directory: String, entries: Vec<ArchiveEntry> },
    /// Read the file at `path`, or find it missing.
    ReadFile { path: String },
    /// Put `content` in the place of the file at `path`, so that the file
    /// holds nothing else.
    ReplaceFile { path: String, content: Vec<u8> },
    /// Walk the directory at `path`: every node below and including it,
    /// each file with its content.
    ListDirectory { path: String },
    /// Write `content` to a new file at `path`.
    WriteFile { path: String, content: Vec<u8> },
    /// Remove the directory at `path` with all that is in it.
    RemoveDirectory { path: String },
    /// Nothing more: the run has ended with `outcome`, the path of the new
    /// package or the failure.
    Finish { outcome: Result<String, PipelineError> },
}

/// What came of the action that the caller was asked for.
#[derive(Debug, PartialEq, Eq)]
pub enum PipelineEvent {
    /// It was done.
    Succeeded,
    /// It failed at `path`.
    Failed { path: String },
    /// The file was read and holds `bytes`.
    Content { bytes: Vec<u8> },
    /// There is no file to read.
    Missing,
    /// The directory was walked and holds `tree`.
    Listed { tree: SourceTree },
}

/// One run of the pipeline.
///
/// `failure` holds the first failure of the run until the temporary
/// directory is removed and the run can end with it.
#[derive(Debug, PartialEq, Eq)]
pub struct PersonalizationPipeline {
    pub stage: PipelineStage,
    pub failure: Option<PipelineError>,
    pub inputs: PersonalizationInputs,
    pub temp_directory: String,
    pub configuration_file: String,
    pub output_file: String,
    pub compression: Compression,
}

/// The temporary directory of a run that writes to `output_directory`.
pub open spec fn temp_directory_of(output_directory: Seq<char>) -> Seq<char> {
    output_directory + "/temp"@
}

/// The place of an event's failure: the path that the event names, or
/// `fallback` where the event names none.
pub open spec fn failure_path(event: PipelineEvent, fallback: String) -> String {
    match event {
        PipelineEvent::Failed { path } => path,
        _ => fallback,
    }
}

/// The run has failed with `error` and goes on to remove its temporary
/// directory.
pub open spec fn fails_with(
    before: PersonalizationPipeline,
    after: PersonalizationPipeline,
    action: PipelineAction,
    error: PipelineError,
) -> bool {
    &&& after.stage == PipelineStage::Cleaning
    &&& after.failure == Some(error)
    &&& action == (PipelineAction::RemoveDirectory { path: before.temp_directory })
}

/// The run goes on to `stage`.
pub open spec fn goes_on(
    before: PersonalizationPipeline,
    after: PersonalizationPipeline,
    stage: PipelineStage,
) -> bool {
    after.stage == stage && after.failure == before.failure
}

/// What holds of every run that `begin` and `advance` produce: a failure is
/// on record only while the temporary directory is being removed.
pub open spec fn is_consistent(pipeline: PersonalizationPipeline) -> bool {
    pipeline.failure is Some ==> pipeline.stage == PipelineStage::Cleaning
}

/// What `advance` does: how the run `after` and the action that is asked
/// for next answer the event `event` in the run `before`.
pub open spec fn answers(
    before: PersonalizationPipeline,
    event: PipelineEvent,
    after: PersonalizationPipeline,
    action: PipelineAction,
) -> bool {
    &&& after.inputs == before.inputs
    &&& after.temp_directory == before.temp_directory
    &&& after.configuration_file == before.configuration_file
    &&& after.output_file == before.output_file
    &&& after.compression == before.compression
    &&& match before.stage {
        PipelineStage::Extracting => match event {
            PipelineEvent::Succeeded => goes_on(before, after, PipelineStage::ReadingConfiguration)
                && action == (PipelineAction::ReadFile { path: before.configuration_file }),
            _ => fails_with(
                before,
                after,
                action,
                PipelineError::Archive(
                    ArchiveError::ExtractionFailed {
                        path: failure_path(event, before.temp_directory),
                    },
                ),
            ),
        },
        PipelineStage::ReadingConfiguration => match event {
            PipelineEvent::Content { bytes } => {
                let wanted = personalized(
                    bytes@,
                    before.inputs.device.udid@,
                    before.inputs.pairing_record@,
                    before.inputs.anisette_url@,
                );
                match wanted {
                    Ok(document) => {
                        &&& goes_on(before, after, PipelineStage::WritingConfiguration)
                        &&& action is ReplaceFile
                        &&& action->ReplaceFile_path == before.configuration_file
                        &&& action->ReplaceFile_content@ == encoded(document)
                        &&& decoded(action->ReplaceFile_content@) == Ok::<Plist, DecodeError>(
                            document,
                        )
                    },
                    Err(e) => fails_with(before, after, action, e),
                }
            },
            PipelineEvent::Missing => fails_with(
                before,
                after,
                action,
                PipelineError::ConfigurationNotFound,
            ),
            _ => fails_with(
                before,
                after,
                action,
                PipelineError::Io {
                    operation: FileOperation::Read,
                    path: failure_path(event, before.configuration_file),
                },
            ),
        },
        PipelineStage::WritingConfiguration => match event {
            PipelineEvent::Succeeded => goes_on(before, after, PipelineStage::Listing) && action == (
            PipelineAction::ListDirectory { path: before.temp_directory }),
            _ => fails_with(
                before,
                after,
                action,
                PipelineError::Io {
                    operation: FileOperation::Replace,
                    path: failure_path(event, before.configuration_file),
                },
            ),
        },
        PipelineStage::Listing => match event {
            PipelineEvent::Listed { tree } => {
                let planned = planned_entries(sorted_nodes(tree.nodes@));
                if !tree.is_directory {
                    fails_with(
                        before,
                        after,
                        action,
                        PipelineError::Build(BuildError::SourceNotFound),
                    )
                } else if is_complete(tree) && packs(planned, before.compression) {
                    &&& goes_on(before, after, PipelineStage::WritingArchive)
                    &&& action is WriteFile
                    &&& action->WriteFile_path == before.output_file
                    &&& action->WriteFile_content@ == zip_image(
                        records_for(planned, before.compression),
                    )
                } else {
                    fails_with(before, after, action, PipelineError::Build(BuildError::Io))
                }
            },
            _ => fails_with(
                before,
                after,
                action,
                PipelineError::Io {
                    operation: FileOperation::List,
                    path: failure_path(event, before.temp_directory),
                },
            ),
        },
        PipelineStage::WritingArchive => match event {
            PipelineEvent::Succeeded => goes_on(before, after, PipelineStage::Cleaning) && action == (
            PipelineAction::RemoveDirectory { path: before.temp_directory }),
            _ => fails_with(
                before,
                after,
                action,
                PipelineError::Io {
                    operation: FileOperation::Write,
                    path: failure_path(event, before.output_file),
                },
            ),
        },
        PipelineStage::Cleaning => {
            &&& after.stage == PipelineStage::Done
            &&& after.failure is None
            &&& action == (PipelineAction::Finish {
                outcome: match before.failure {
                    Some(error) => Err(error),
                    None => match event {
                        PipelineEvent::Succeeded => Ok(before.output_file),
                        _ => Err(
                            PipelineError::Io {
                    operation: FileOperation::Remove,
                    path: failure_path(event, before.temp_directory),
                },
                        ),
                    },
                },
            })
        },
        PipelineStage::Done => {
            &&& after.stage == PipelineStage::Done
            &&& after.failure == before.failure
            &&& action == (PipelineAction::Finish {
                outcome: Err(PipelineError::Ended),
            })
        },
    }
}

/// How far a stage is from the beginning of a run.
pub open spec fn rank(stage: PipelineStage) -> nat {
    match stage {
        PipelineStage::Extracting => 0,
        PipelineStage::ReadingConfiguration => 1,
        PipelineStage::WritingConfiguration => 2,
        PipelineStage::Listing => 3,
        PipelineStage::WritingArchive => 4,
        PipelineStage::Cleaning => 5,
        PipelineStage::Done => 6,
    }
}

/// Law: a run that has begun to write below its temporary directory ends
/// only after it has asked for the directory to be removed, whether it
/// fails or not; and every failure asks for that at once.
pub proof fn lemma_cleanup_on_every_path(
    before: PersonalizationPipeline,
    event: PipelineEvent,
    after: PersonalizationPipeline,
    action: PipelineAction,
)
    requires
        is_consistent(before),
        answers(before, event, after, action),
    ensures
        is_consistent(after),
        after.stage == PipelineStage::Done ==> before.stage == PipelineStage::Cleaning
            || before.stage == PipelineStage::Done,
        after.stage == PipelineStage::Cleaning ==> action == (PipelineAction::RemoveDirectory {
            path: before.temp_directory,
        }),
        action is Finish ==> after.stage == PipelineStage::Done,
{
}

/// Law: every event moves the run forward, so that a run ends after at
/// most six events.
pub proof fn lemma_run_moves_forward(
    before: PersonalizationPipeline,
    event: PipelineEvent,
    after: PersonalizationPipeline,
    action: PipelineAction,
)
    requires
        answers(before, event, after, action),
        before.stage != PipelineStage::Done,
    ensures
        rank(after.stage) > rank(before.stage),
{
}

/// Law: a run that has failed ends with its first failure, whatever comes
/// of removing the temporary directory; a run that has not failed ends
/// with the path of the new package once the directory is removed.
pub proof fn lemma_failure_is_reported(
    before: PersonalizationPipeline,
    event: PipelineEvent,
    after: PersonalizationPipeline,
    action: PipelineAction,
)
    requires
        answers(before, event, after, action),
        before.stage == PipelineStage::Cleaning,
    ensures
        before.failure is Some ==> action == (PipelineAction::Finish {
            outcome: Err(before.failure->Some_0),
        }),
        before.failure is None && event is Succeeded ==> action == (PipelineAction::Finish {
            outcome: Ok(before.output_file),
        }),
{
}

/// Law: a package without a configuration document at the expected place
/// fails with `ConfigurationNotFound` and asks for the temporary directory
/// to be removed.
pub proof fn lemma_missing_configuration(
    before: PersonalizationPipeline,
    after: PersonalizationPipeline,
    action: PipelineAction,
)
    requires
        before.stage == PipelineStage::ReadingConfiguration,
        answers(before, PipelineEvent::Missing, after, action),
    ensures
        after.failure == Some(PipelineError::ConfigurationNotFound),
        action == (PipelineAction::RemoveDirectory { path: before.temp_directory }),
{
}

impl PersonalizationPipeline {
    /// Begins a run on the bytes of a package.
    ///
    /// The package is opened and its unpacking below the temporary
    /// directory is planned. A package that is malformed, or that holds an
    /// entry with an unsafe path, ends the run at once, with nothing
    /// written. Otherwise the caller is asked to write the entries.
    pub fn begin(
        package: Vec<u8>,
        inputs: PersonalizationInputs,
        package_name: &str,
        output_directory: &str,
        device_name: &str,
    ) -> (begun: (PersonalizationPipeline, PipelineAction))
        ensures
            begun.0.inputs == inputs,
            begun.0.failure is None,
            is_consistent(begun.0),
            begun.0.compression == Compression::Deflated,
            begun.0.temp_directory@ == temp_directory_of(output_directory@),
            begun.0.configuration_file@ == target_path(
                temp_directory_of(output_directory@),
                configuration_path_of(package_name@),
            ),
            begun.0.output_file@ == target_path(
                output_directory@,
                output_name(package_name@, device_name@),
            ),
            match zip_listing(package@) {
                None => begun.0.stage == PipelineStage::Done && begun.1 == (PipelineAction::Finish {
                    outcome: Err(PipelineError::Archive(ArchiveError::MalformedArchive)),
                }),
                Some(records) => {
                    let entries = entries_of_records(records);
                    if !paths_unique(entries) {
                        begun.0.stage == PipelineStage::Done && begun.1 == (PipelineAction::Finish {
                            outcome: Err(PipelineError::Archive(ArchiveError::MalformedArchive)),
                        })
                    } else {
                        match first_unsafe(entries) {
                            Some(i) => {
                                &&& begun.0.stage == PipelineStage::Done
                                &&& begun.1 is Finish
                                &&& begun.1->Finish_outcome is Err
                                &&& begun.1->Finish_outcome->Err_0 is Archive
                                &&& begun.1->Finish_outcome->Err_0->Archive_0 is ExtractionFailed
                                &&& begun.1->Finish_outcome->Err_0->Archive_0->ExtractionFailed_path@
                                    == entries[i].path
                            },
                            None => {
                                &&& begun.0.stage == PipelineStage::Extracting
                                &&& begun.1 is Extract
                                &&& begun.1->Extract_directory == begun.0.temp_directory
                                &&& begun.1->Extract_entries.len() == entries.len()
                                &&& forall|i: int|
                                    0 <= i < entries.len() ==> (
                                    #[trigger] begun.1->Extract_entries[i])@ == (EntryView {
                                        path: target_path(
                                            temp_directory_of(output_directory@),
                                            entries[i].path,
                                        ),
                                        ..entries[i]
                                    })
                            },
                        }
                    }
                },
            },
    {
        let mut temp_directory = output_directory.to_owned();
        temp_directory.append("/temp");
        let relative = configuration_path(package_name);
        let mut configuration_file = temp_directory.clone();
        configuration_file.push('/');
        configuration_file.append(relative.as_str());
        let name = output_file_name(package_name, device_name);
        let mut output_file = output_directory.to_owned();
        output_file.push('/');
        output_file.append(name.as_str());
        let mut pipeline = PersonalizationPipeline {
            stage: PipelineStage::Done,
            failure: None,
            inputs,
            temp_directory,
            configuration_file,
            output_file,
            compression: Compression::Deflated,
        };
        let reader = match ArchiveReader::open(package) {
            Ok(reader) => reader,
            Err(e) => {
                let outcome = Err(PipelineError::Archive(e));
                return (pipeline, PipelineAction::Finish { outcome });
            },
        };
        match reader.extract(pipeline.temp_directory.as_str()) {
            Ok(entries) => {
                pipeline.stage = PipelineStage::Extracting;
                let directory = pipeline.temp_directory.clone();
                (pipeline, PipelineAction::Extract { directory, entries })
            },
            Err(e) => {
                let outcome = Err(PipelineError::Archive(e));
                (pipeline, PipelineAction::Finish { outcome })
            },
        }
    }

    /// Whether the run has ended.
    pub fn is_done(&self) -> (done: bool)
        ensures
            done == (self.stage == PipelineStage::Done),
    {
        match self.stage {
            PipelineStage::Done => true,
            _ => false,
        }
    }

    /// Records `error` as the failure of the run and asks for the temporary
    /// directory to be removed.
    fn fail(&mut self, error: PipelineError) -> (action: PipelineAction)
        ensures
            final(self).stage == PipelineStage::Cleaning,
            final(self).failure == Some(error),
            final(self).inputs == old(self).inputs,
            final(self).temp_directory == old(self).temp_directory,
            final(self).configuration_file == old(self).configuration_file,
            final(self).output_file == old(self).output_file,
            final(self).compression == old(self).compression,
            action == (PipelineAction::RemoveDirectory { path: old(self).temp_directory }),
    {
        self.stage = PipelineStage::Cleaning;
        self.failure = Some(error);
        PipelineAction::RemoveDirectory { path: self.temp_directory.clone() }
    }

    /// The place of an event's failure.
    fn place(event: PipelineEvent, fallback: &String) -> (path: String)
        ensures
            path == failure_path(event, *fallback),
    {
        match event {
            PipelineEvent::Failed { path } => path,
            _ => fallback.clone(),
        }
    }

    /// Takes in what came of the action that was asked for last, and says
    /// what to do next.
    ///
    /// The run goes through its steps in order: the entries are written,
    /// the configuration document is read, the new one is made and put in
    /// its place, the directory is walked, the new package is built and
    /// written, the temporary directory is removed. The first failure,
    /// and any event that does not answer the action, ends these steps:
    /// the temporary directory is removed, and the run ends with that
    /// failure. `answers` says all of it.
    pub fn advance(&mut self, event: PipelineEvent) -> (action: PipelineAction)
        ensures
            answers(*old(self), event, *final(self), action),
    {
        match self.stage {
            PipelineStage::Extracting => match event {
                PipelineEvent::Succeeded => {
                    self.stage = PipelineStage::ReadingConfiguration;
                    PipelineAction::ReadFile { path: self.configuration_file.clone() }
                },
                other => {
                    let path = Self::place(other, &self.temp_directory);
                    self.fail(PipelineError::Archive(ArchiveError::ExtractionFailed { path }))
                },
            },
            PipelineStage::ReadingConfiguration => match event {
                PipelineEvent::Content { bytes } => {
                    match personalize_configuration(&bytes, &self.inputs) {
                        Ok(content) => {
                            self.stage = PipelineStage::WritingConfiguration;
                            PipelineAction::ReplaceFile {
                                path: self.configuration_file.clone(),
                                content,
                            }
                        },
                        Err(e) => self.fail(e),
                    }
                },
                PipelineEvent::Missing => self.fail(PipelineError::ConfigurationNotFound),
                other => {
                    let path = Self::place(other, &self.configuration_file);
                    self.fail(PipelineError::Io { operation: FileOperation::Read, path })
                },
            },
            PipelineStage::WritingConfiguration => match event {
                PipelineEvent::Succeeded => {
                    self.stage = PipelineStage::Listing;
                    PipelineAction::ListDirectory { path: self.temp_directory.clone() }
                },
                other => {
                    let path = Self::place(other, &self.configuration_file);
                    self.fail(PipelineError::Io { operation: FileOperation::Replace, path })
                },
            },
            PipelineStage::Listing => match event {
                PipelineEvent::Listed { tree } => {
                    match ArchiveBuilder::build(&tree, self.compression) {
                        Ok(content) => {
                            self.stage = PipelineStage::WritingArchive;
                            PipelineAction::WriteFile { path: self.output_file.clone(), content }
                        },
                        Err(e) => self.fail(PipelineError::Build(e)),
                    }
                },
                other => {
                    let path = Self::place(other, &self.temp_directory);
                    self.fail(PipelineError::Io { operation: FileOperation::List, path })
                },
            },
            PipelineStage::WritingArchive => match event {
                PipelineEvent::Succeeded => {
                    self.stage = PipelineStage::Cleaning;
                    PipelineAction::RemoveDirectory { path: self.temp_directory.clone() }
                },
                other => {
                    let path = Self::place(other, &self.output_file);
                    self.fail(PipelineError::Io { operation: FileOperation::Write, path })
                },
            },
            PipelineStage::Cleaning => {
                self.stage = PipelineStage::Done;
                let outcome = match self.failure.take() {
                    Some(error) => Err(error),
                    None => match event {
                        PipelineEvent::Succeeded => Ok(self.output_file.clone()),
                        other => {
                            let path = Self::place(other, &self.temp_directory);
                            Err(PipelineError::Io { operation: FileOperation::Remove, path })
                        },
                    },
                };
                PipelineAction::Finish { outcome }
            },
            PipelineStage::Done => PipelineAction::Finish { outcome: Err(PipelineError::Ended) },
        }
    }
}

} // verus!
