use std::path::{Component, Path};
use syncd::path::{PartKind, PartName, PathPart, SyncPath};
use syncd::util::{
    atomic_copy_steps, hash_chunks, tmp_path_for, ContentHasher, CopyError, CopyStep, Digest,
};

fn part(component: Component) -> PathPart {
    let kind = match component {
        Component::Prefix(_) => PartKind::Prefix,
        Component::RootDir => PartKind::Root,
        Component::CurDir => PartKind::CurDir,
        Component::ParentDir => PartKind::ParentDir,
        Component::Normal(_) => PartKind::Normal,
    };
    let written = component.as_os_str();
    let name = match written.to_str() {
        Some(text) => PartName::Text(text.to_string()),
        None => PartName::Bytes {
            raw: written.as_encoded_bytes().to_vec(),
            shown: written.to_string_lossy().into_owned(),
        },
    };
    PathPart { kind, name }
}

fn path(text: &str) -> SyncPath {
    SyncPath::from_parts(Path::new(text).components().map(part).collect())
}

fn hex(digest: &Digest) -> String {
    digest.bytes.iter().map(|b| format!("{:02x}", b)).collect()
}

#[test]
fn digest_of_no_bytes() {
    let hasher = ContentHasher::new();

    assert_eq!(
        hex(&hasher.finalize()),
        "af1349b9f5f9a1a6a0404dea36dcc9499bcb25c9adc112b7cc9a93cae41f3262"
    );
}

#[test]
fn digest_is_the_blake3_hash() {
    let mut hasher = ContentHasher::new();
    assert!(hasher.update(b"v1").is_ok());

    assert_eq!(hasher.finalize().bytes, *blake3::hash(b"v1").as_bytes());
    assert_ne!(hasher.finalize().bytes, *blake3::hash(b"").as_bytes());
}

#[test]
fn digest_does_not_depend_on_chunking() {
    let data: Vec<u8> = (0..20000u32).map(|i| (i % 251) as u8).collect();
    let whole = hash_chunks(&vec![data.clone()]).unwrap();

    let mut hasher = ContentHasher::new();
    for chunk in data.chunks(8192) {
        hasher.update(chunk).unwrap();
    }
    assert_eq!(hasher.finalize(), whole);
    assert_eq!(whole.bytes, *blake3::hash(&data).as_bytes());

    let pieces: Vec<Vec<u8>> = data.chunks(7).map(|c| c.to_vec()).collect();
    assert_eq!(hash_chunks(&pieces).unwrap(), whole);
}

#[test]
fn finalize_leaves_the_hasher_usable() {
    let mut hasher = ContentHasher::new();
    hasher.update(b"foo").unwrap();
    let first = hasher.finalize();
    assert_eq!(hasher.finalize(), first);

    hasher.update(b"bar").unwrap();
    assert_eq!(hasher.finalize().bytes, *blake3::hash(b"foobar").as_bytes());
    assert_ne!(hasher.finalize(), first);
}

#[test]
fn hash_of_no_chunks_is_hash_of_nothing() {
    assert_eq!(hash_chunks(&Vec::new()).unwrap(), ContentHasher::new().finalize());
    assert_eq!(hash_chunks(&vec![Vec::new(), Vec::new()]).unwrap(), ContentHasher::new().finalize());
}

#[test]
fn digests_match_when_all_bytes_agree() {
    let a = Digest { bytes: [7u8; 32] };
    let mut other = [7u8; 32];
    assert!(a.matches(&Digest { bytes: other }));

    other[31] = 8;
    assert!(!a.matches(&Digest { bytes: other }));
    other[31] = 7;
    other[0] = 6;
    assert!(!a.matches(&Digest { bytes: other }));
}

#[test]
fn temporary_file_lies_beside_the_destination() {
    assert_eq!(tmp_path_for(&path("/dst/a/b/file.txt")), path("/dst/a/b/file.txt.syncd.tmp"));
    assert_eq!(tmp_path_for(&path("notes")), path("notes.syncd.tmp"));
}

#[test]
fn temporary_file_of_the_empty_path() {
    assert_eq!(tmp_path_for(&SyncPath::from_parts(Vec::new())), path("file.syncd.tmp"));
}

#[test]
fn temporary_file_where_the_destination_names_no_file() {
    assert_eq!(tmp_path_for(&path("/")), path("/file.syncd.tmp"));
    assert_eq!(tmp_path_for(&path("a/..")), path("a/../file.syncd.tmp"));
    assert_eq!(tmp_path_for(&path("..")), path("../file.syncd.tmp"));
    assert_eq!(tmp_path_for(&path(".")), path("./file.syncd.tmp"));
}

#[test]
fn temporary_file_agrees_with_the_platform() {
    for text in ["/dst/a/file.txt", "notes", "/", "", "a/..", "..", "/a/b/"] {
        let dst = Path::new(text);
        let name = dst
            .file_name()
            .map(|s| s.to_string_lossy().to_string())
            .unwrap_or_else(|| "file".to_string());
        let theirs = dst.with_file_name(format!("{name}.syncd.tmp"));
        assert_eq!(tmp_path_for(&path(text)), path(theirs.to_str().unwrap()));
    }
}

#[test]
fn temporary_file_of_a_name_that_is_not_text() {
    let odd = PathPart {
        kind: PartKind::Normal,
        name: PartName::Bytes { raw: vec![b'f', 0xff], shown: "f\u{fffd}".to_string() },
    };
    let mut dst = path("/dst");
    dst.parts.push(odd);

    assert_eq!(tmp_path_for(&dst), path("/dst/f\u{fffd}.syncd.tmp"));
}

#[test]
fn temporary_file_depends_on_the_destination_alone() {
    let dst = path("/dst/report.pdf");

    assert_eq!(tmp_path_for(&dst), tmp_path_for(&dst.clone()));
}

#[test]
fn atomic_copy_writes_beside_and_renames_last() {
    let src = path("/src/a/file.txt");
    let dst = path("/dst/a/file.txt");

    let steps = atomic_copy_steps(&src, &dst).unwrap();

    assert_eq!(
        steps,
        vec![
            CopyStep::CreateDirs(path("/dst/a")),
            CopyStep::WriteTemp { from: path("/src/a/file.txt"), to: path("/dst/a/file.txt.syncd.tmp") },
            CopyStep::RemoveExisting(path("/dst/a/file.txt")),
            CopyStep::Rename { from: path("/dst/a/file.txt.syncd.tmp"), to: path("/dst/a/file.txt") },
        ]
    );
}

#[test]
fn atomic_copy_needs_a_parent() {
    let src = path("/src/file.txt");

    assert_eq!(atomic_copy_steps(&src, &SyncPath::from_parts(Vec::new())), Err(CopyError::NoParent));
}

#[test]
fn atomic_copy_to_the_root_is_refused() {
    let src = path("/s/a.txt");

    assert_eq!(atomic_copy_steps(&src, &path("/")), Err(CopyError::NoParent));
    let volume = PathPart { kind: PartKind::Prefix, name: PartName::Text("C:".to_string()) };
    assert_eq!(
        atomic_copy_steps(&src, &SyncPath::from_parts(vec![volume])),
        Err(CopyError::NoParent)
    );
}

#[test]
fn atomic_copy_to_a_path_that_ends_in_dots() {
    let steps = atomic_copy_steps(&path("/s/a.txt"), &path("/dst/..")).unwrap();

    assert_eq!(
        steps,
        vec![
            CopyStep::CreateDirs(path("/dst")),
            CopyStep::WriteTemp { from: path("/s/a.txt"), to: path("/dst/../file.syncd.tmp") },
            CopyStep::RemoveExisting(path("/dst/..")),
            CopyStep::Rename { from: path("/dst/../file.syncd.tmp"), to: path("/dst/..") },
        ]
    );
}

#[test]
fn atomic_copy_of_a_bare_name() {
    let steps = atomic_copy_steps(&path("/src/f"), &path("f")).unwrap();

    assert_eq!(steps[0], CopyStep::CreateDirs(SyncPath::from_parts(Vec::new())));
    assert_eq!(steps[3], CopyStep::Rename { from: path("f.syncd.tmp"), to: path("f") });
}
