use gitreg::error::GitregError;
use gitreg::upgrade::{
    archive_url, check_digest, check_platform, extract_binary, extract_tag_name,
    latest_tag_from_response, parse_sha256_sidecar, parse_version, sidecar_splits_char,
    sidecar_url, upgrade_needed, user_agent, verify_archive_sha256, ArchiveKind,
};
use std::io::Write;

fn upgrade_message(e: GitregError) -> String {
    match e {
        GitregError::Upgrade(m) => m,
        other => panic!("unexpected error {:?}", other),
    }
}

#[test]
fn parse_version_v_prefix() {
    assert_eq!(parse_version("v1.2.3"), Some((1, 2, 3)));
}

#[test]
fn parse_version_no_prefix() {
    assert_eq!(parse_version("0.2.0"), Some((0, 2, 0)));
}

#[test]
fn parse_version_with_suffix() {
    assert_eq!(parse_version("v1.0.0-rc.1"), Some((1, 0, 0)));
}

#[test]
fn extract_tag_compact() {
    let json = r#"{"tag_name":"v0.2.0","name":"v0.2.0"}"#;
    assert_eq!(extract_tag_name(json), Some("v0.2.0".into()));
}

#[test]
fn extract_tag_spaced() {
    let json = r#"{ "tag_name" : "v1.0.0" }"#;
    assert_eq!(extract_tag_name(json), Some("v1.0.0".into()));
}

#[test]
fn extract_tag_missing() {
    let json = r#"{"name":"v1.0.0"}"#;
    assert_eq!(extract_tag_name(json), None);
}

#[test]
fn parse_version_rejects_incomplete_and_extra_parts() {
    assert_eq!(parse_version("1.2"), None);
    assert_eq!(parse_version("1.2.3.4"), None);
    assert_eq!(parse_version("v1.x.3"), None);
    assert_eq!(parse_version(""), None);
    assert_eq!(parse_version("1.2.4294967296"), None);
}

#[test]
fn parse_version_accepts_plus_signs() {
    assert_eq!(parse_version("+1.+2.+3"), Some((1, 2, 3)));
}

#[test]
fn upgrade_needed_compares_versions() {
    assert_eq!(upgrade_needed("0.2.0", "v0.3.0").unwrap(), true);
    assert_eq!(upgrade_needed("1.0.0", "v1.0.0").unwrap(), false);
    assert_eq!(upgrade_needed("1.10.0", "v1.9.9").unwrap(), false);
    assert_eq!(upgrade_needed("1.0.0", "v1.0.1-rc.1").unwrap(), true);
}

#[test]
fn upgrade_needed_reports_unparsable_versions() {
    assert_eq!(
        upgrade_message(upgrade_needed("dev", "v1.0.0").unwrap_err()),
        "could not parse current version"
    );
    assert_eq!(
        upgrade_message(upgrade_needed("1.0.0", "nightly").unwrap_err()),
        "could not parse latest tag: nightly"
    );
}

#[test]
fn latest_tag_from_api_answer() {
    assert_eq!(
        latest_tag_from_response(r#"{"tag_name": "v2.0.0"}"#).unwrap(),
        "v2.0.0"
    );
    assert_eq!(
        upgrade_message(latest_tag_from_response("{}").unwrap_err()),
        "could not parse tag_name from GitHub API response"
    );
}

#[test]
fn extract_tag_unterminated_is_none() {
    assert_eq!(extract_tag_name(r#"{"tag_name": "v1"#), None);
    assert_eq!(extract_tag_name(r#"{"tag_name" v1}"#), None);
}

#[test]
fn download_locations() {
    assert_eq!(
        archive_url("x86_64-unknown-linux-musl", "tar.gz"),
        "https://github.com/dpkay-io/gitreg/releases/latest/download/gitreg-latest-x86_64-unknown-linux-musl.tar.gz"
    );
    assert_eq!(
        sidecar_url("x86_64-pc-windows-msvc", "zip"),
        "https://github.com/dpkay-io/gitreg/releases/latest/download/gitreg-latest-x86_64-pc-windows-msvc.zip.sha256"
    );
    assert_eq!(user_agent("0.3.1"), "gitreg/0.3.1");
}

#[test]
fn unsupported_platform_is_refused() {
    assert!(check_platform("aarch64-apple-darwin").is_ok());
    assert_eq!(
        upgrade_message(check_platform("").unwrap_err()),
        "unsupported platform — no pre-built binary available"
    );
}

const ABC_SHA256: &str = "ba7816bf8f01cfea414140de5dae2223b00361a396177a9cb410ff61f20015ad";

fn abc_digest() -> Vec<u8> {
    (0..32)
        .map(|i| u8::from_str_radix(&ABC_SHA256[2 * i..2 * i + 2], 16).unwrap())
        .collect()
}

#[test]
fn sidecar_with_file_name_and_bom() {
    let text = format!("\u{FEFF}{}  gitreg-latest.tar.gz\n", ABC_SHA256);
    assert_eq!(parse_sha256_sidecar(&text).unwrap(), abc_digest());
}

#[test]
fn sidecar_errors() {
    assert_eq!(
        upgrade_message(parse_sha256_sidecar("  \n").unwrap_err()),
        "sha256 sidecar file is empty"
    );
    assert_eq!(
        upgrade_message(parse_sha256_sidecar("abc").unwrap_err()),
        "unexpected sha256 format (3 chars, want 64)"
    );
    let bad = format!("{}g", &ABC_SHA256[..63]);
    assert_eq!(
        upgrade_message(parse_sha256_sidecar(&bad).unwrap_err()),
        "invalid hex in sha256 sidecar"
    );
}

#[test]
fn sidecar_length_counts_bytes() {
    let text = "é".repeat(32);
    assert!(!sidecar_splits_char(&text));
    assert_eq!(
        upgrade_message(parse_sha256_sidecar(&text).unwrap_err()),
        "invalid hex in sha256 sidecar"
    );
    let text = "€".repeat(21) + "a";
    assert!(sidecar_splits_char(&text));
    let text = "ab".repeat(10) + "é" + &"c".repeat(42);
    assert!(!sidecar_splits_char(&text));
    assert_eq!(
        upgrade_message(parse_sha256_sidecar(&text).unwrap_err()),
        "invalid hex in sha256 sidecar"
    );
    let text = "ab".repeat(10) + "cé" + &"c".repeat(41);
    assert!(sidecar_splits_char(&text));
}

#[test]
fn sidecar_accepts_plus_prefixed_pairs() {
    let text = "+f".repeat(32);
    assert_eq!(parse_sha256_sidecar(&text).unwrap(), vec![15u8; 32]);
}

#[test]
fn digest_of_known_input() {
    assert!(verify_archive_sha256(b"abc", &abc_digest()).is_ok());
    assert_eq!(
        upgrade_message(verify_archive_sha256(b"abd", &abc_digest()).unwrap_err()),
        "SHA256 mismatch — archive may be corrupted or tampered with"
    );
}

#[test]
fn check_digest_compares_bytes() {
    assert!(check_digest(&[1, 2, 3], &[1, 2, 3]).is_ok());
    assert!(check_digest(&[1, 2, 3], &[1, 2]).is_err());
    assert!(check_digest(&[1, 2, 3], &[1, 2, 4]).is_err());
}

fn tar_gz(entries: &[(&str, &[u8])]) -> Vec<u8> {
    let enc = flate2::write::GzEncoder::new(Vec::new(), flate2::Compression::default());
    let mut builder = tar::Builder::new(enc);
    for (name, data) in entries {
        let mut header = tar::Header::new_gnu();
        header.set_size(data.len() as u64);
        header.set_mode(0o755);
        header.set_cksum();
        builder.append_data(&mut header, name, *data).unwrap();
    }
    builder.into_inner().unwrap().finish().unwrap()
}

fn zip_of(entries: &[(&str, &[u8])]) -> Vec<u8> {
    let mut w = zip::ZipWriter::new(std::io::Cursor::new(Vec::new()));
    for (name, data) in entries {
        w.start_file(
            *name,
            zip::write::SimpleFileOptions::default()
                .compression_method(zip::CompressionMethod::Stored),
        )
        .unwrap();
        w.write_all(data).unwrap();
    }
    w.finish().unwrap().into_inner()
}

#[test]
fn binary_taken_from_tar_gz() {
    let archive = tar_gz(&[
        ("gitreg-x86_64/README.md", b"readme"),
        ("gitreg-x86_64/gitreg", b"\x7fELF binary"),
    ]);
    assert_eq!(
        extract_binary(&archive, ArchiveKind::TarGz, "gitreg").unwrap(),
        b"\x7fELF binary".to_vec()
    );
}

#[test]
fn binary_missing_from_tar_gz() {
    let archive = tar_gz(&[("docs/gitreg.txt", b"x")]);
    assert_eq!(
        upgrade_message(extract_binary(&archive, ArchiveKind::TarGz, "gitreg").unwrap_err()),
        "binary 'gitreg' not found in archive"
    );
}

#[test]
fn corrupt_archive_is_an_upgrade_error() {
    let r = extract_binary(b"not an archive at all", ArchiveKind::TarGz, "gitreg");
    assert!(matches!(r, Err(GitregError::Upgrade(_))));
    let r = extract_binary(b"not an archive at all", ArchiveKind::Zip, "gitreg.exe");
    assert!(matches!(r, Err(GitregError::Upgrade(_))));
}

#[test]
fn binary_taken_from_zip_by_name_suffix() {
    let archive = zip_of(&[("LICENSE", b"mit"), ("dist/gitreg.exe", b"MZ binary")]);
    assert_eq!(
        extract_binary(&archive, ArchiveKind::Zip, "gitreg.exe").unwrap(),
        b"MZ binary".to_vec()
    );
    assert_eq!(
        upgrade_message(extract_binary(&archive, ArchiveKind::Zip, "other.exe").unwrap_err()),
        "binary 'other.exe' not found in archive"
    );
}

fn tar_gz_raw(entries: &[(&[u8], &[u8])]) -> Vec<u8> {
    let enc = flate2::write::GzEncoder::new(Vec::new(), flate2::Compression::default());
    let mut builder = tar::Builder::new(enc);
    for (name, data) in entries {
        let mut header = tar::Header::new_old();
        header.as_old_mut().name[..name.len()].copy_from_slice(name);
        header.set_size(data.len() as u64);
        header.set_mode(0o755);
        header.set_cksum();
        builder.append(&header, *data).unwrap();
    }
    builder.into_inner().unwrap().finish().unwrap()
}

#[test]
fn tar_entry_names_follow_unix_path_rules_on_every_platform() {
    let archive = tar_gz_raw(&[
        (b"a\\gitreg", b"backslash"),
        (b"\xff\xfe/gitreg.txt", b"not it"),
        (b"\xff\xfe/gitreg", b"raw bytes dir"),
    ]);
    assert_eq!(
        extract_binary(&archive, ArchiveKind::TarGz, "gitreg").unwrap(),
        b"raw bytes dir".to_vec()
    );
    let archive = tar_gz_raw(&[(b"a\\gitreg", b"backslash")]);
    assert_eq!(
        upgrade_message(extract_binary(&archive, ArchiveKind::TarGz, "gitreg").unwrap_err()),
        "binary 'gitreg' not found in archive"
    );
    let archive = tar_gz_raw(&[(b"./dist/gitreg/.", b"trailing dot")]);
    assert_eq!(
        extract_binary(&archive, ArchiveKind::TarGz, "gitreg").unwrap(),
        b"trailing dot".to_vec()
    );
}
