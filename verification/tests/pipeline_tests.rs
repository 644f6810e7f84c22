use std::collections::BTreeMap;
use std::collections::BTreeSet;
use std::io::Cursor;
use std::io::Write;

use ipa_personalizer::archive::Compression;
use ipa_personalizer::builder::{SourceNode, SourceTree};
use ipa_personalizer::error::{
    ArchiveError, BuildError, ErrorKind, FileOperation, PipelineError,
};
use ipa_personalizer::personalize::{
    pairing_file, personalize_configuration, personalize_document, DeviceIdentity,
    PersonalizationInputs, DEVICE_KEY, PAIRING_KEY, RECORD_DEVICE_KEY, SERVER_KEY,
};
use ipa_personalizer::pipeline::{
    PersonalizationPipeline, PipelineAction, PipelineEvent, PipelineStage,
};
use ipa_personalizer::plist::{PropertyListDocument, PropertyListValue};
use ipa_personalizer::reader::ArchiveReader;

const PIPELINE_PAIRING_TEXT: &str = "<?xml version=\"1.0\" encoding=\"UTF-8\"?>\n<!DOCTYPE plist PUBLIC \"-//Apple//DTD PLIST 1.0//EN\" \"http://www.apple.com/DTDs/PropertyList-1.0.dtd\">\n<plist version=\"1.0\">\n<dict>\n\t<key>UDID</key>\n\t<string>ABCD1234</string>\n</dict>\n</plist>\n";

/// A file system held in memory, which performs what the pipeline asks for.
struct PipelineDisk {
    files: BTreeMap<String, Vec<u8>>,
    directories: BTreeSet<String>,
    fail_on: Option<&'static str>,
    log: Vec<String>,
}

impl PipelineDisk {
    fn new() -> PipelineDisk {
        let mut directories = BTreeSet::new();
        directories.insert("out".to_string());
        PipelineDisk { files: BTreeMap::new(), directories, fail_on: None, log: vec![] }
    }

    fn add_parents(&mut self, path: &str) {
        let mut at = 0;
        while let Some(next) = path[at..].find('/') {
            self.directories.insert(path[..at + next].to_string());
            at += next + 1;
        }
    }

    fn below(path: &str, root: &str) -> bool {
        path.len() > root.len() && path.starts_with(root) && path.as_bytes()[root.len()] == b'/'
    }

    fn perform(&mut self, action: PipelineAction) -> Option<PipelineEvent> {
        let (name, target) = match &action {
            PipelineAction::Extract { directory, .. } => ("extract", directory.clone()),
            PipelineAction::ReadFile { path } => ("read", path.clone()),
            PipelineAction::ReplaceFile { path, .. } => ("replace", path.clone()),
            PipelineAction::ListDirectory { path } => ("list", path.clone()),
            PipelineAction::WriteFile { path, .. } => ("write", path.clone()),
            PipelineAction::RemoveDirectory { path } => ("remove", path.clone()),
            PipelineAction::Finish { .. } => ("finish", String::new()),
        };
        self.log.push(name.to_string());
        if self.fail_on == Some(name) {
            return Some(PipelineEvent::Failed { path: target });
        }
        match action {
            PipelineAction::Extract { directory, entries } => {
                self.directories.insert(directory);
                for entry in entries {
                    self.add_parents(&entry.path);
                    if entry.is_directory {
                        self.directories.insert(entry.path);
                    } else {
                        self.files.insert(entry.path, entry.content);
                    }
                }
                Some(PipelineEvent::Succeeded)
            }
            PipelineAction::ReadFile { path } => match self.files.get(&path) {
                Some(bytes) => Some(PipelineEvent::Content { bytes: bytes.clone() }),
                None => Some(PipelineEvent::Missing),
            },
            PipelineAction::ReplaceFile { path, content } => {
                self.files.remove(&path);
                self.files.insert(path, content);
                Some(PipelineEvent::Succeeded)
            }
            PipelineAction::ListDirectory { path } => {
                let mut nodes = vec![SourceNode {
                    relative_path: String::new(),
                    is_file: false,
                    content: None,
                }];
                for directory in &self.directories {
                    if PipelineDisk::below(directory, &path) {
                        nodes.push(SourceNode {
                            relative_path: directory[path.len() + 1..].to_string(),
                            is_file: false,
                            content: None,
                        });
                    }
                }
                for (file, content) in &self.files {
                    if PipelineDisk::below(file, &path) {
                        nodes.push(SourceNode {
                            relative_path: file[path.len() + 1..].to_string(),
                            is_file: true,
                            content: Some(content.clone()),
                        });
                    }
                }
                let is_directory = self.directories.contains(&path);
                Some(PipelineEvent::Listed { tree: SourceTree { is_directory, nodes, failed: vec![] } })
            }
            PipelineAction::WriteFile { path, content } => {
                self.files.insert(path, content);
                Some(PipelineEvent::Succeeded)
            }
            PipelineAction::RemoveDirectory { path } => {
                self.files.retain(|file, _| !PipelineDisk::below(file, &path));
                self.directories.retain(|dir| dir != &path && !PipelineDisk::below(dir, &path));
                Some(PipelineEvent::Succeeded)
            }
            PipelineAction::Finish { .. } => None,
        }
    }

    fn holds_anything_below(&self, root: &str) -> bool {
        self.directories.contains(root)
            || self.directories.iter().any(|d| PipelineDisk::below(d, root))
            || self.files.keys().any(|f| PipelineDisk::below(f, root))
    }
}

fn pipeline_inputs() -> PersonalizationInputs {
    PersonalizationInputs {
        device: DeviceIdentity { udid: "ABCD1234".to_string(), network: false, address: Some((192, 168, 1, 20)) },
        pairing_record: PropertyListDocument::new().encode(),
        anisette_url: "https://example.com/".to_string(),
    }
}

fn pipeline_package(records: &[(&str, Vec<u8>)]) -> Vec<u8> {
    let mut writer = zip::ZipWriter::new(Cursor::new(Vec::new()));
    for (name, content) in records {
        let options = zip::write::FileOptions::default();
        if name.ends_with('/') {
            writer.add_directory(*name, options).unwrap();
        } else {
            writer.start_file(*name, options).unwrap();
            writer.write_all(content).unwrap();
        }
    }
    writer.finish().unwrap().into_inner()
}

fn pipeline_run(
    package: Vec<u8>,
    disk: &mut PipelineDisk,
) -> (Result<String, PipelineError>, PersonalizationPipeline) {
    let (mut pipeline, mut action) =
        PersonalizationPipeline::begin(package, pipeline_inputs(), "App", "out", "Test's iPhone (USB)");
    let mut steps = 0;
    loop {
        if let PipelineAction::Finish { outcome } = action {
            assert!(pipeline.is_done());
            return (outcome, pipeline);
        }
        assert!(!pipeline.is_done());
        let event = disk.perform(action).unwrap();
        action = pipeline.advance(event);
        steps += 1;
        assert!(steps <= 6);
    }
}

fn pipeline_text(s: &str) -> PropertyListValue {
    PropertyListValue::String(s.to_string())
}

#[test]
fn pipeline_personalizes_a_minimal_package() {
    let binary = vec![0xCAu8, 0xFE, 0xBA, 0xBE, 0, 1, 2, 3];
    let package = pipeline_package(&[
        ("Payload/", vec![]),
        ("Payload/App.app/", vec![]),
        ("Payload/App.app/Info.plist", PropertyListDocument::new().encode()),
        ("Payload/App.app/App", binary.clone()),
        ("Payload/App.app/Frameworks/", vec![]),
    ]);
    let mut disk = PipelineDisk::new();
    let (outcome, _) = pipeline_run(package, &mut disk);
    assert_eq!(outcome, Ok("out/App-Tests_iPhone_USB.ipa".to_string()));
    assert_eq!(disk.log, vec!["extract", "read", "replace", "list", "write", "remove"]);
    assert!(!disk.holds_anything_below("out/temp"));
    let output = disk.files.get("out/App-Tests_iPhone_USB.ipa").unwrap().clone();
    let reader = ArchiveReader::open(output).unwrap();
    let paths: Vec<&str> = reader.entries().iter().map(|e| e.path.as_str()).collect();
    assert_eq!(
        paths,
        vec![
            "Payload",
            "Payload/App.app",
            "Payload/App.app/App",
            "Payload/App.app/Frameworks",
            "Payload/App.app/Info.plist",
        ]
    );
    assert_eq!(reader.entries()[2].content, binary);
    assert!(reader.entries()[3].is_directory);
    let at = reader.find("Payload/App.app/Info.plist").unwrap();
    let document = PropertyListDocument::decode(&reader.entries()[at].content).unwrap();
    assert_eq!(
        document.root,
        PropertyListValue::Dictionary(vec![
            ("ALTDeviceID".to_string(), pipeline_text("ABCD1234")),
            ("ALTPairingFile".to_string(), pipeline_text(PIPELINE_PAIRING_TEXT)),
            ("customAnisetteURL".to_string(), pipeline_text("https://example.com/")),
        ])
    );
}

#[test]
fn pipeline_overwrites_values_that_were_there() {
    let mut configuration = PropertyListDocument::new();
    configuration.set_dictionary_item("CFBundleName", pipeline_text("App")).unwrap();
    configuration.set_dictionary_item("ALTDeviceID", pipeline_text("old")).unwrap();
    configuration.set_dictionary_item("customAnisetteURL", PropertyListValue::Integer(3)).unwrap();
    let made = personalize_configuration(&configuration.encode(), &pipeline_inputs()).unwrap();
    let document = PropertyListDocument::decode(&made).unwrap();
    assert_eq!(
        document.root,
        PropertyListValue::Dictionary(vec![
            ("CFBundleName".to_string(), pipeline_text("App")),
            ("ALTDeviceID".to_string(), pipeline_text("ABCD1234")),
            ("customAnisetteURL".to_string(), pipeline_text("https://example.com/")),
            ("ALTPairingFile".to_string(), pipeline_text(PIPELINE_PAIRING_TEXT)),
        ])
    );
    assert_eq!(document.get_dictionary_item(DEVICE_KEY), Ok(Some(&pipeline_text("ABCD1234"))));
    assert_eq!(document.get_dictionary_item(PAIRING_KEY), Ok(Some(&pipeline_text(PIPELINE_PAIRING_TEXT))));
    assert_eq!(document.get_dictionary_item(SERVER_KEY), Ok(Some(&pipeline_text("https://example.com/"))));
    assert_eq!(personalize_document(&configuration.encode(), &pipeline_inputs()).unwrap(), document);
}

#[test]
fn pairing_file_adds_the_device_to_the_record() {
    assert_eq!(pairing_file(&pipeline_inputs()), Some(PIPELINE_PAIRING_TEXT.to_string()));
    let mut record = PropertyListDocument::new();
    record.set_dictionary_item("HostID", pipeline_text("host")).unwrap();
    record.set_dictionary_item(RECORD_DEVICE_KEY, pipeline_text("stale")).unwrap();
    let mut inputs = pipeline_inputs();
    inputs.pairing_record = record.encode();
    let text = pairing_file(&inputs).unwrap();
    assert!(text.contains("<key>HostID</key>\n\t<string>host</string>\n\t<key>UDID</key>\n\t<string>ABCD1234</string>\n"));
    assert!(!text.contains("stale"));
}

#[test]
fn personalize_refuses_a_configuration_that_is_no_dictionary() {
    let inputs = pipeline_inputs();
    assert_eq!(personalize_configuration(&b"not a list".to_vec(), &inputs), Err(PipelineError::InvalidConfiguration));
    let array = PropertyListDocument { root: PropertyListValue::Array(vec![]) };
    assert_eq!(personalize_configuration(&array.encode(), &inputs), Err(PipelineError::InvalidConfiguration));
    assert_eq!(
        personalize_document(&array.encode(), &inputs).err(),
        Some(PipelineError::InvalidConfiguration)
    );
}

#[test]
fn personalize_refuses_a_pairing_record_that_is_no_dictionary() {
    let mut inputs = pipeline_inputs();
    inputs.pairing_record = b"garbage".to_vec();
    let configuration = PropertyListDocument::new().encode();
    assert_eq!(personalize_configuration(&configuration, &inputs), Err(PipelineError::InvalidPairingRecord));
    assert_eq!(pairing_file(&inputs), None);
    inputs.pairing_record = PropertyListDocument { root: pipeline_text("x") }.encode();
    assert_eq!(personalize_configuration(&configuration, &inputs), Err(PipelineError::InvalidPairingRecord));
    assert_eq!(
        personalize_configuration(&b"garbage".to_vec(), &inputs),
        Err(PipelineError::InvalidConfiguration)
    );
}

#[test]
fn pipeline_fails_without_a_configuration_and_cleans_up() {
    let package = pipeline_package(&[
        ("Payload/App.app/App", vec![1, 2, 3]),
        ("Payload/Other.app/Info.plist", PropertyListDocument::new().encode()),
    ]);
    let mut disk = PipelineDisk::new();
    let (outcome, _) = pipeline_run(package, &mut disk);
    assert_eq!(outcome, Err(PipelineError::ConfigurationNotFound));
    assert_eq!(disk.log, vec!["extract", "read", "remove"]);
    assert!(!disk.holds_anything_below("out/temp"));
    assert!(disk.files.is_empty());
}

#[test]
fn pipeline_fails_on_an_invalid_configuration_and_cleans_up() {
    let package = pipeline_package(&[("Payload/App.app/Info.plist", b"<plist/>".to_vec())]);
    let mut disk = PipelineDisk::new();
    let (outcome, _) = pipeline_run(package, &mut disk);
    assert_eq!(outcome, Err(PipelineError::InvalidConfiguration));
    assert_eq!(disk.log, vec!["extract", "read", "remove"]);
    assert!(!disk.holds_anything_below("out/temp"));
}

#[test]
fn pipeline_refuses_a_malformed_package_before_writing() {
    let mut disk = PipelineDisk::new();
    let (outcome, pipeline) = pipeline_run(b"no archive".to_vec(), &mut disk);
    assert_eq!(outcome, Err(PipelineError::Archive(ArchiveError::MalformedArchive)));
    assert_eq!(pipeline.stage, PipelineStage::Done);
    assert!(disk.log.is_empty());
}

#[test]
fn pipeline_refuses_path_traversal_before_writing() {
    let package = pipeline_package(&[
        ("Payload/App.app/Info.plist", PropertyListDocument::new().encode()),
        ("../outside", vec![1]),
    ]);
    let mut disk = PipelineDisk::new();
    let (outcome, _) = pipeline_run(package, &mut disk);
    assert_eq!(
        outcome,
        Err(PipelineError::Archive(ArchiveError::ExtractionFailed { path: "../outside".to_string() }))
    );
    assert!(disk.log.is_empty());
    assert!(disk.files.is_empty());
}

#[test]
fn pipeline_cleans_up_after_every_failure() {
    let cases: Vec<(&'static str, PipelineError, Vec<&str>)> = vec![
        (
            "extract",
            PipelineError::Archive(ArchiveError::ExtractionFailed { path: "out/temp".to_string() }),
            vec!["extract", "remove"],
        ),
        (
            "read",
            PipelineError::Io {
                operation: FileOperation::Read,
                path: "out/temp/Payload/App.app/Info.plist".to_string(),
            },
            vec!["extract", "read", "remove"],
        ),
        (
            "replace",
            PipelineError::Io {
                operation: FileOperation::Replace,
                path: "out/temp/Payload/App.app/Info.plist".to_string(),
            },
            vec!["extract", "read", "replace", "remove"],
        ),
        (
            "list",
            PipelineError::Io { operation: FileOperation::List, path: "out/temp".to_string() },
            vec!["extract", "read", "replace", "list", "remove"],
        ),
        (
            "write",
            PipelineError::Io {
                operation: FileOperation::Write,
                path: "out/App-Tests_iPhone_USB.ipa".to_string(),
            },
            vec!["extract", "read", "replace", "list", "write", "remove"],
        ),
    ];
    for (fail_on, expected, log) in cases {
        let package =
            pipeline_package(&[("Payload/App.app/Info.plist", PropertyListDocument::new().encode())]);
        let mut disk = PipelineDisk::new();
        disk.fail_on = Some(fail_on);
        let (outcome, _) = pipeline_run(package, &mut disk);
        assert_eq!(outcome, Err(expected));
        assert_eq!(disk.log, log);
    }
}

#[test]
fn pipeline_reports_a_cleanup_that_failed() {
    let package = pipeline_package(&[("Payload/App.app/Info.plist", PropertyListDocument::new().encode())]);
    let mut disk = PipelineDisk::new();
    disk.fail_on = Some("remove");
    let (outcome, _) = pipeline_run(package, &mut disk);
    assert_eq!(
        outcome,
        Err(PipelineError::Io { operation: FileOperation::Remove, path: "out/temp".to_string() })
    );
    // the first failure wins over the failure to clean up
    let package = pipeline_package(&[("Payload/App.app/App", vec![1])]);
    let mut disk = PipelineDisk::new();
    disk.fail_on = Some("remove");
    let (outcome, _) = pipeline_run(package, &mut disk);
    assert_eq!(outcome, Err(PipelineError::ConfigurationNotFound));
}

#[test]
fn pipeline_reports_a_source_that_is_gone() {
    let (mut pipeline, action) = PersonalizationPipeline::begin(
        pipeline_package(&[("Payload/App.app/Info.plist", PropertyListDocument::new().encode())]),
        pipeline_inputs(),
        "App",
        "out",
        "Phone",
    );
    assert!(matches!(action, PipelineAction::Extract { .. }));
    assert_eq!(pipeline.compression, Compression::Deflated);
    assert_eq!(pipeline.temp_directory, "out/temp");
    assert_eq!(pipeline.configuration_file, "out/temp/Payload/App.app/Info.plist");
    assert_eq!(pipeline.output_file, "out/App-Phone.ipa");
    let action = pipeline.advance(PipelineEvent::Succeeded);
    assert_eq!(action, PipelineAction::ReadFile { path: "out/temp/Payload/App.app/Info.plist".to_string() });
    let action = pipeline.advance(PipelineEvent::Content { bytes: PropertyListDocument::new().encode() });
    assert!(matches!(action, PipelineAction::ReplaceFile { .. }));
    let action = pipeline.advance(PipelineEvent::Succeeded);
    assert_eq!(action, PipelineAction::ListDirectory { path: "out/temp".to_string() });
    let action = pipeline.advance(PipelineEvent::Listed {
        tree: SourceTree { is_directory: false, nodes: vec![], failed: vec![] },
    });
    assert_eq!(action, PipelineAction::RemoveDirectory { path: "out/temp".to_string() });
    assert_eq!(pipeline.stage, PipelineStage::Cleaning);
    assert_eq!(pipeline.failure, Some(PipelineError::Build(BuildError::SourceNotFound)));
    let action = pipeline.advance(PipelineEvent::Succeeded);
    assert_eq!(
        action,
        PipelineAction::Finish { outcome: Err(PipelineError::Build(BuildError::SourceNotFound)) }
    );
    let action = pipeline.advance(PipelineEvent::Succeeded);
    assert_eq!(
        action,
        PipelineAction::Finish { outcome: Err(PipelineError::Ended) }
    );
}

#[test]
fn pipeline_reports_a_file_that_could_not_be_read_again() {
    let (mut pipeline, _) = PersonalizationPipeline::begin(
        pipeline_package(&[("Payload/App.app/Info.plist", PropertyListDocument::new().encode())]),
        pipeline_inputs(),
        "App",
        "out",
        "Phone",
    );
    pipeline.advance(PipelineEvent::Succeeded);
    pipeline.advance(PipelineEvent::Content { bytes: PropertyListDocument::new().encode() });
    pipeline.advance(PipelineEvent::Succeeded);
    let tree = SourceTree {
        is_directory: true,
        nodes: vec![
            SourceNode { relative_path: String::new(), is_file: false, content: None },
            SourceNode { relative_path: "locked".to_string(), is_file: true, content: None },
        ],
        failed: vec![],
    };
    let action = pipeline.advance(PipelineEvent::Listed { tree });
    assert_eq!(action, PipelineAction::RemoveDirectory { path: "out/temp".to_string() });
    assert_eq!(pipeline.failure, Some(PipelineError::Build(BuildError::Io)));
    assert_eq!(
        pipeline.advance(PipelineEvent::Failed { path: "out/temp".to_string() }),
        PipelineAction::Finish { outcome: Err(PipelineError::Build(BuildError::Io)) }
    );
    assert!(pipeline.is_done());
}

#[test]
fn pipeline_reports_a_directory_that_could_not_be_read() {
    let (mut pipeline, _) = PersonalizationPipeline::begin(
        pipeline_package(&[("Payload/App.app/Info.plist", PropertyListDocument::new().encode())]),
        pipeline_inputs(),
        "App",
        "out",
        "Phone",
    );
    pipeline.advance(PipelineEvent::Succeeded);
    pipeline.advance(PipelineEvent::Content { bytes: PropertyListDocument::new().encode() });
    pipeline.advance(PipelineEvent::Succeeded);
    let tree = SourceTree {
        is_directory: true,
        nodes: vec![
            SourceNode { relative_path: String::new(), is_file: false, content: None },
            SourceNode { relative_path: "Payload".to_string(), is_file: false, content: None },
        ],
        failed: vec!["out/temp/Payload".to_string()],
    };
    let action = pipeline.advance(PipelineEvent::Listed { tree });
    assert_eq!(action, PipelineAction::RemoveDirectory { path: "out/temp".to_string() });
    assert_eq!(pipeline.failure, Some(PipelineError::Build(BuildError::Io)));
}

#[test]
fn pipeline_takes_an_event_that_answers_nothing_as_a_failure() {
    let (mut pipeline, _) = PersonalizationPipeline::begin(
        pipeline_package(&[("Payload/App.app/Info.plist", PropertyListDocument::new().encode())]),
        pipeline_inputs(),
        "App",
        "out",
        "Phone",
    );
    let action = pipeline.advance(PipelineEvent::Missing);
    assert_eq!(action, PipelineAction::RemoveDirectory { path: "out/temp".to_string() });
    assert_eq!(
        pipeline.failure,
        Some(PipelineError::Archive(ArchiveError::ExtractionFailed { path: "out/temp".to_string() }))
    );
}

#[test]
fn pipeline_errors_have_kinds_and_messages() {
    let cases = vec![
        (
            PipelineError::Archive(ArchiveError::MalformedArchive),
            ErrorKind::Format,
            "open package: not a well-formed archive",
        ),
        (
            PipelineError::Archive(ArchiveError::ExtractionFailed { path: "../x".to_string() }),
            ErrorKind::Io,
            "extract package: cannot write ../x",
        ),
        (
            PipelineError::ConfigurationNotFound,
            ErrorKind::Configuration,
            "locate configuration: the package has no Info.plist",
        ),
        (
            PipelineError::InvalidConfiguration,
            ErrorKind::Configuration,
            "read configuration: Info.plist is not a dictionary property list",
        ),
        (
            PipelineError::InvalidPairingRecord,
            ErrorKind::Device,
            "read pairing record: not a dictionary property list",
        ),
        (
            PipelineError::Build(BuildError::SourceNotFound),
            ErrorKind::Io,
            "build package: the source directory was not found",
        ),
        (
            PipelineError::Build(BuildError::Io),
            ErrorKind::Io,
            "build package: reading or packing a file failed",
        ),
        (
            PipelineError::Io { operation: FileOperation::Read, path: "out/a".to_string() },
            ErrorKind::Io,
            "read configuration: failed at out/a",
        ),
        (
            PipelineError::Io { operation: FileOperation::Replace, path: "out/a".to_string() },
            ErrorKind::Io,
            "replace configuration: failed at out/a",
        ),
        (
            PipelineError::Io { operation: FileOperation::List, path: "out/temp".to_string() },
            ErrorKind::Io,
            "list temporary directory: failed at out/temp",
        ),
        (
            PipelineError::Io { operation: FileOperation::Write, path: "out/x.ipa".to_string() },
            ErrorKind::Io,
            "write package: failed at out/x.ipa",
        ),
        (
            PipelineError::Io { operation: FileOperation::Remove, path: "out/temp".to_string() },
            ErrorKind::Io,
            "remove temporary directory: failed at out/temp",
        ),
        (PipelineError::Ended, ErrorKind::Io, "advance: the run has already ended"),
    ];
    for (error, kind, message) in cases {
        assert_eq!(error.kind(), kind);
        assert_eq!(error.message(), message);
    }
}
