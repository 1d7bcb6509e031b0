use apk_rs::download::{
    decode, get_file_url, layer_count, resume_offset, DecodeError, DEFAULT_MIRROR, INDEX_LAYERS,
    PACKAGE_LAYERS,
};
use std::io::{Read, Write};

fn gzip(data: &[u8]) -> Vec<u8> {
    let mut encoder = flate2::write::GzEncoder::new(Vec::new(), flate2::Compression::default());
    encoder.write_all(data).unwrap();
    encoder.finish().unwrap()
}

fn tar_of(files: &[(&str, &[u8])]) -> Vec<u8> {
    let mut builder = tar::Builder::new(Vec::new());
    for (path, content) in files {
        let mut header = tar::Header::new_gnu();
        header.set_size(content.len() as u64);
        header.set_mode(0o644);
        header.set_cksum();
        builder.append_data(&mut header, path, *content).unwrap();
    }
    builder.into_inner().unwrap()
}

fn files_of(layer: &[u8]) -> Vec<(String, Vec<u8>)> {
    let mut archive = tar::Archive::new(layer);
    let mut files = Vec::new();
    for entry in archive.entries().unwrap() {
        let mut entry = entry.unwrap();
        let path = entry.path().unwrap().to_string_lossy().into_owned();
        let mut content = Vec::new();
        entry.read_to_end(&mut content).unwrap();
        files.push((path, content));
    }
    files
}

#[test]
fn url_below_default_mirror() {
    assert_eq!(
        get_file_url("APKINDEX.tar.gz", None),
        "https://dl-cdn.alpinelinux.org/edge/main/x86_64/APKINDEX.tar.gz"
    );
    assert_eq!(DEFAULT_MIRROR, "https://dl-cdn.alpinelinux.org/edge/main/x86_64");
}

#[test]
fn url_below_given_mirror() {
    assert_eq!(
        get_file_url("foo-1.0.apk", Some("http://mirror.test/alpine".to_string())),
        "http://mirror.test/alpine/foo-1.0.apk"
    );
}

#[test]
fn url_of_empty_parts() {
    assert_eq!(get_file_url("", Some(String::new())), "/");
}

#[test]
fn layer_counts() {
    assert_eq!(layer_count(false), 2);
    assert_eq!(layer_count(true), 3);
    assert_eq!(INDEX_LAYERS, 2);
    assert_eq!(PACKAGE_LAYERS, 3);
}

#[test]
fn resume_right_behind_the_member() {
    assert_eq!(resume_offset(10, 2, 3), Some(7));
    assert_eq!(resume_offset(10, 0, 0), Some(10));
    assert_eq!(resume_offset(10, 4, 6), Some(4));
    assert_eq!(resume_offset(0, 0, 0), Some(0));
}

#[test]
fn resume_refuses_more_unread_than_given() {
    assert_eq!(resume_offset(10, 8, 3), None);
    assert_eq!(resume_offset(10, 11, 0), None);
    assert_eq!(resume_offset(0, 0, 1), None);
}

#[test]
fn decodes_three_members_in_order() {
    let first = b"signature".to_vec();
    let second = b"control data".to_vec();
    let third = vec![7u8; 100_000];
    let mut container = gzip(&first);
    container.extend(gzip(&second));
    container.extend(gzip(&third));
    let layers = decode(&container, 3).unwrap();
    assert_eq!(layers, vec![first, second, third]);
}

#[test]
fn decodes_only_as_many_members_as_asked() {
    let mut container = gzip(b"one");
    container.extend(gzip(b"two"));
    container.extend(gzip(b"three"));
    let layers = decode(&container, 2).unwrap();
    assert_eq!(layers, vec![b"one".to_vec(), b"two".to_vec()]);
}

#[test]
fn decodes_nothing_when_no_member_is_asked() {
    assert_eq!(decode(b"not gzip at all", 0).unwrap(), Vec::<Vec<u8>>::new());
    assert_eq!(decode(b"", 0).unwrap(), Vec::<Vec<u8>>::new());
}

#[test]
fn decoded_member_differs_from_its_compressed_form() {
    let payload = b"plain payload".to_vec();
    let container = gzip(&payload);
    let layers = decode(&container, 1).unwrap();
    assert_eq!(layers.len(), 1);
    assert_eq!(layers[0], payload);
    assert_ne!(layers[0], container);
}

#[test]
fn empty_member_decodes_to_empty_data() {
    let mut container = gzip(b"");
    container.extend(gzip(b"x"));
    assert_eq!(decode(&container, 2).unwrap(), vec![Vec::new(), b"x".to_vec()]);
}

#[test]
fn missing_member_is_reported_with_its_position() {
    let mut container = gzip(b"one");
    container.extend(gzip(b"two"));
    assert_eq!(decode(&container, 3), Err(DecodeError { layer: 2 }));
}

#[test]
fn empty_container_has_no_first_member() {
    assert_eq!(decode(b"", 1), Err(DecodeError { layer: 0 }));
}

#[test]
fn malformed_member_is_reported_with_its_position() {
    let mut container = gzip(b"one");
    container.extend(b"this is no gzip member".iter());
    assert_eq!(decode(&container, 2), Err(DecodeError { layer: 1 }));
    assert_eq!(decode(b"garbage", 1), Err(DecodeError { layer: 0 }));
}

#[test]
fn truncated_member_is_malformed() {
    let whole = gzip(&vec![3u8; 5000]);
    let cut = &whole[..whole.len() - 4];
    assert_eq!(decode(cut, 1), Err(DecodeError { layer: 0 }));
}

#[test]
fn corrupted_checksum_is_malformed() {
    let mut member = gzip(b"some data that is checked");
    let n = member.len();
    member[n - 8] ^= 0xff;
    assert_eq!(decode(&member, 1), Err(DecodeError { layer: 0 }));
}

#[test]
fn layers_hold_the_tar_streams_of_a_package() {
    let signature = tar_of(&[(".SIGN.RSA.key.pub", b"sig")]);
    let control = tar_of(&[(".PKGINFO", b"pkgname = foo\n")]);
    let payload = tar_of(&[("etc/foo", b"payload"), ("bin/foo", b"#!/bin/sh\n")]);
    let mut container = gzip(&signature);
    container.extend(gzip(&control));
    container.extend(gzip(&payload));
    let layers = decode(&container, 3).unwrap();
    assert_eq!(layers.len(), 3);
    assert_eq!(files_of(&layers[0]), vec![(".SIGN.RSA.key.pub".to_string(), b"sig".to_vec())]);
    assert_eq!(files_of(&layers[1]), vec![(".PKGINFO".to_string(), b"pkgname = foo\n".to_vec())]);
    assert_eq!(
        files_of(&layers[2]),
        vec![
            ("etc/foo".to_string(), b"payload".to_vec()),
            ("bin/foo".to_string(), b"#!/bin/sh\n".to_vec()),
        ]
    );
}

#[test]
fn later_layer_overwrites_earlier_one_when_unpacked_in_order() {
    let first = tar_of(&[("etc/foo", b"old"), ("etc/only-first", b"1")]);
    let second = tar_of(&[("etc/foo", b"new"), ("etc/only-second", b"2")]);
    let mut container = gzip(&first);
    container.extend(gzip(&second));
    let layers = decode(&container, 2).unwrap();
    let mut tree = std::collections::BTreeMap::new();
    for layer in &layers {
        for (path, content) in files_of(layer) {
            tree.insert(path, content);
        }
    }
    let expected: std::collections::BTreeMap<String, Vec<u8>> = [
        ("etc/foo".to_string(), b"new".to_vec()),
        ("etc/only-first".to_string(), b"1".to_vec()),
        ("etc/only-second".to_string(), b"2".to_vec()),
    ]
    .into_iter()
    .collect();
    assert_eq!(tree, expected);
}
