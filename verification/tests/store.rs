use std::collections::{BTreeMap, BTreeSet};

use registry_store::error::{ReadOutcome, RegistryError};
use registry_store::files::FileOp;
use registry_store::index::split_records;
use registry_store::layout::StorePath;
use registry_store::name::PackageName;
use registry_store::package::{Manifest, PackageContents, PackageId};
use registry_store::registry::TestRegistry;
use registry_store::req::{Bound, Comparator, PackageReq};
use registry_store::snapshot::{capture, Child, Entry, RawChild, RawEntry};
use registry_store::version::PackageVersion;

/// Files and directories kept in memory, by the segments of their place.
struct MemoryFiles {
    dirs: BTreeSet<Vec<String>>,
    files: BTreeMap<Vec<String>, Vec<u8>>,
}

impl MemoryFiles {
    fn new() -> Self {
        MemoryFiles { dirs: BTreeSet::new(), files: BTreeMap::new() }
    }

    fn has_parent(&self, path: &StorePath) -> bool {
        let parent = &path.segments[..path.segments.len() - 1];
        parent.is_empty() || self.dirs.contains(parent)
    }

    fn perform(&mut self, op: &FileOp) -> Result<(), RegistryError> {
        match op {
            FileOp::CreateDirAll { path } => {
                for end in 1..=path.segments.len() {
                    self.dirs.insert(path.segments[..end].to_vec());
                }
                Ok(())
            }
            FileOp::Append { path, bytes } if self.has_parent(path) => {
                self.files.entry(path.segments.clone()).or_default().extend_from_slice(bytes);
                Ok(())
            }
            FileOp::Write { path, bytes } if self.has_parent(path) => {
                self.files.insert(path.segments.clone(), bytes.clone());
                Ok(())
            }
            failed => Err(RegistryError::of_operation(failed)),
        }
    }

    fn perform_all(&mut self, ops: &[FileOp]) -> Result<(), RegistryError> {
        for op in ops {
            self.perform(op)?;
        }
        Ok(())
    }

    fn read(&self, path: &StorePath) -> ReadOutcome<Vec<u8>> {
        match self.files.get(&path.segments) {
            Some(bytes) => ReadOutcome::Found(bytes.clone()),
            None => ReadOutcome::Missing,
        }
    }

    fn listing(&self, dir: &[String]) -> RawEntry {
        let mut children = Vec::new();
        for (path, bytes) in self.files.iter().rev() {
            if path.len() == dir.len() + 1 && path.starts_with(dir) {
                children.push(RawChild {
                    name: path[dir.len()].clone(),
                    entry: RawEntry::File(bytes.clone()),
                });
            }
        }
        for path in self.dirs.iter().rev() {
            if path.len() == dir.len() + 1 && path.starts_with(dir) {
                children.push(RawChild { name: path[dir.len()].clone(), entry: self.listing(path) });
            }
        }
        RawEntry::Dir(children)
    }
}

fn record_of(name: &str, version: &str, description: &str) -> Vec<u8> {
    let mut package = serde_json::Map::new();
    package.insert("name".to_string(), serde_json::Value::String(name.to_string()));
    package.insert("version".to_string(), serde_json::Value::String(version.to_string()));
    package.insert("description".to_string(), serde_json::Value::String(description.to_string()));
    let mut manifest = serde_json::Map::new();
    manifest.insert("package".to_string(), serde_json::Value::Object(package));
    serde_json::to_vec(&serde_json::Value::Object(manifest)).unwrap()
}

fn manifest_of(name: &str, version: &str, description: &str) -> Manifest {
    Manifest::new(
        PackageName::parse(name).unwrap(),
        PackageVersion::parse(version).unwrap(),
        record_of(name, version, description),
    )
    .unwrap()
}

fn decode(line: &[u8]) -> Option<Manifest> {
    let value: serde_json::Value = serde_json::from_slice(line).ok()?;
    let package = value.get("package")?;
    let name = PackageName::parse(package.get("name")?.as_str()?)?;
    let version = PackageVersion::parse(package.get("version")?.as_str()?)?;
    Manifest::new(name, version, line.to_vec())
}

fn query(
    registry: &TestRegistry,
    files: &MemoryFiles,
    req: &PackageReq,
) -> Result<Vec<Manifest>, RegistryError> {
    let index = match files.read(&registry.index_path(req.name())) {
        ReadOutcome::Found(bytes) => {
            ReadOutcome::Found(split_records(&bytes).iter().map(|line| decode(line)).collect())
        }
        ReadOutcome::Missing => ReadOutcome::Missing,
        ReadOutcome::Failed => ReadOutcome::Failed,
    };
    registry.query(req, &index)
}

fn any_version(name: &str) -> PackageReq {
    PackageReq::new(PackageName::parse(name).unwrap(), vec![])
}

#[test]
fn index_is_the_published_lines_in_call_order() {
    let registry = TestRegistry::new("registry");
    let mut files = MemoryFiles::new();
    let versions = ["0.1.0", "0.2.0", "0.1.0", "1.0.0"];
    let mut expected: Vec<u8> = Vec::new();
    for (k, version) in versions.iter().enumerate() {
        let manifest = manifest_of("biff/minimal", version, &format!("publish {}", k));
        let ops = registry.publish(&manifest, &PackageContents::from_buffer(vec![k as u8]));
        assert_eq!(files.perform_all(&ops), Ok(()));
        expected.extend_from_slice(manifest.record());
        expected.push(b'\n');
        let index = files.read(&registry.index_path(manifest.name()));
        assert_eq!(index, ReadOutcome::Found(expected.clone()));
    }
}

#[test]
fn publishing_another_package_leaves_an_index_alone() {
    let registry = TestRegistry::new("registry");
    let mut files = MemoryFiles::new();
    let first = manifest_of("biff/minimal", "0.1.0", "first");
    let other = manifest_of("biff/other", "0.1.0", "other");
    let stranger = manifest_of("minimal/biff", "0.1.0", "stranger");
    for manifest in [&first, &other, &stranger] {
        let ops = registry.publish(manifest, &PackageContents::from_buffer(vec![]));
        assert_eq!(files.perform_all(&ops), Ok(()));
    }
    let mut line = first.record().clone();
    line.push(b'\n');
    assert_eq!(files.read(&registry.index_path(first.name())), ReadOutcome::Found(line));
}

#[test]
fn published_contents_are_fetched_byte_for_byte() {
    let registry = TestRegistry::new("registry");
    let mut files = MemoryFiles::new();
    let manifest = manifest_of("biff/minimal", "0.1.0", "bytes");
    let bytes: Vec<u8> = (0..=255).collect();
    let ops = registry.publish(&manifest, &PackageContents::from_buffer(bytes.clone()));
    assert_eq!(files.perform_all(&ops), Ok(()));
    let id = manifest.package_id();
    let fetched = registry.download_package(&id, files.read(&registry.contents_path(&id)));
    assert_eq!(fetched, Ok(PackageContents::from_buffer(bytes)));
}

#[test]
fn republishing_a_version_overwrites_its_contents_only() {
    let registry = TestRegistry::new("registry");
    let mut files = MemoryFiles::new();
    let name = "biff/minimal";
    let publish = |files: &mut MemoryFiles, version: &str, bytes: &[u8]| {
        let manifest = manifest_of(name, version, "again");
        let ops = registry.publish(&manifest, &PackageContents::from_buffer(bytes.to_vec()));
        assert_eq!(files.perform_all(&ops), Ok(()));
        manifest.package_id()
    };
    let one = publish(&mut files, "1.0.0", b"old");
    let two = publish(&mut files, "2.0.0", b"two");
    let again = publish(&mut files, "1.0.0", b"new");
    assert_eq!(one, again);
    let fetch = |id: &PackageId| registry.download_package(id, files.read(&registry.contents_path(id)));
    assert_eq!(fetch(&one), Ok(PackageContents::from_buffer(b"new".to_vec())));
    assert_eq!(fetch(&two), Ok(PackageContents::from_buffer(b"two".to_vec())));
    let all = query(&registry, &files, &any_version(name)).unwrap();
    let versions: Vec<String> = all.iter().map(|m| m.version().to_text()).collect();
    assert_eq!(versions, vec!["1.0.0", "2.0.0", "1.0.0"]);
}

#[test]
fn contents_that_were_never_published_are_not_found() {
    let registry = TestRegistry::new("registry");
    let mut files = MemoryFiles::new();
    let manifest = manifest_of("biff/minimal", "0.1.0", "");
    let ops = registry.publish(&manifest, &PackageContents::from_buffer(vec![1]));
    assert_eq!(files.perform_all(&ops), Ok(()));
    let absent = PackageId::new(PackageName::parse("biff/minimal").unwrap(), PackageVersion::new(0, 1, 1));
    assert_eq!(
        registry.download_package(&absent, files.read(&registry.contents_path(&absent))),
        Err(RegistryError::ContentsNotFound { id: absent.clone() })
    );
}

#[test]
fn query_sees_what_was_published_oldest_first() {
    let registry = TestRegistry::new("registry");
    let mut files = MemoryFiles::new();
    for version in ["1.0.0", "1.2.0", "2.0.0"] {
        let manifest = manifest_of("biff/minimal", version, "x");
        let ops = registry.publish(&manifest, &PackageContents::from_buffer(vec![]));
        assert_eq!(files.perform_all(&ops), Ok(()));
    }
    let req = PackageReq::new(
        PackageName::parse("biff/minimal").unwrap(),
        vec![
            Comparator::new(Bound::GreaterEq, PackageVersion::new(1, 0, 0)),
            Comparator::new(Bound::Less, PackageVersion::new(2, 0, 0)),
        ],
    );
    assert_eq!(
        query(&registry, &files, &req),
        Ok(vec![manifest_of("biff/minimal", "1.0.0", "x"), manifest_of("biff/minimal", "1.2.0", "x")])
    );
    assert_eq!(
        query(&registry, &files, &any_version("biff/absent")),
        Err(RegistryError::PackageNotFound { name: PackageName::parse("biff/absent").unwrap() })
    );
}

#[test]
fn corrupted_line_fails_the_query() {
    let registry = TestRegistry::new("registry");
    let mut files = MemoryFiles::new();
    for version in ["1.0.0", "1.2.0"] {
        let manifest = manifest_of("biff/minimal", version, "x");
        let ops = registry.publish(&manifest, &PackageContents::from_buffer(vec![]));
        assert_eq!(files.perform_all(&ops), Ok(()));
    }
    let name = PackageName::parse("biff/minimal").unwrap();
    let index = registry.index_path(&name);
    let torn = FileOp::Append { path: index.clone(), bytes: b"{\"package\":{\"name\":\"biff/mi\n".to_vec() };
    assert_eq!(files.perform(&torn), Ok(()));
    let more = registry.publish(&manifest_of("biff/minimal", "1.3.0", "x"), &PackageContents::from_buffer(vec![]));
    assert_eq!(files.perform_all(&more), Ok(()));
    assert_eq!(
        query(&registry, &files, &any_version("biff/minimal")),
        Err(RegistryError::MalformedEntry { name })
    );
}

#[test]
fn operation_that_fails_ends_the_publishing() {
    let registry = TestRegistry::new("registry");
    let mut files = MemoryFiles::new();
    let manifest = manifest_of("biff/minimal", "0.1.0", "");
    let ops = registry.publish(&manifest, &PackageContents::from_buffer(vec![1]));
    let without_directories: Vec<FileOp> =
        ops.into_iter().filter(|op| !matches!(op, FileOp::CreateDirAll { .. })).collect();
    assert_eq!(
        files.perform_all(&without_directories),
        Err(RegistryError::of_operation(&without_directories[0]))
    );
    assert!(files.files.is_empty());
}

#[test]
fn picture_of_the_registry_after_publishing() {
    let registry = TestRegistry::new("registry");
    let mut files = MemoryFiles::new();
    let mut lines = String::new();
    for version in ["0.2.0", "0.1.0"] {
        let manifest = manifest_of("biff/minimal", version, "x");
        let ops = registry.publish(&manifest, &PackageContents::from_buffer(version.as_bytes().to_vec()));
        assert_eq!(files.perform_all(&ops), Ok(()));
        lines.push_str(std::str::from_utf8(manifest.record()).unwrap());
        lines.push('\n');
    }
    let file = |name: &str, text: &str| Child { name: name.to_string(), entry: Entry::File(text.to_string()) };
    let dir = |name: &str, children: Vec<Child>| Child { name: name.to_string(), entry: Entry::Dir(children) };
    assert_eq!(
        capture(&files.listing(&[])),
        Ok(Entry::Dir(vec![
            dir("contents", vec![dir("biff", vec![dir("minimal", vec![
                file("0.1.0.blob", "0.1.0"),
                file("0.2.0.blob", "0.2.0"),
            ])])]),
            dir("index", vec![dir("biff", vec![file("minimal", &lines)])]),
        ]))
    );
}
