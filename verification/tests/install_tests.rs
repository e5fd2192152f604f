use sbpm::install::{
    cache_dir, cached_archive_path, download_file_name, extract_dir, is_swell_archive,
    sha256_hex, verify_sha256,
};

const ABC_DIGEST: &str = "ba7816bf8f01cfea414140de5dae2223b00361a396177a9cb410ff61f20015ad";

#[test]
fn sha256_of_abc() {
    assert_eq!(sha256_hex(b"abc"), ABC_DIGEST);
    assert_eq!(
        sha256_hex(b""),
        "e3b0c44298fc1c149afbf4c8996fb92427ae41e4649b934ca495991b7852b855"
    );
}

#[test]
fn verify_accepts_either_case() {
    assert!(verify_sha256(b"abc", ABC_DIGEST));
    assert!(verify_sha256(b"abc", &ABC_DIGEST.to_uppercase()));
    assert!(!verify_sha256(b"abd", ABC_DIGEST));
    assert!(!verify_sha256(b"abc", ""));
    assert!(!verify_sha256(b"abc", &format!(" {}", ABC_DIGEST)));
}

#[test]
fn file_name_is_last_url_piece() {
    assert_eq!(download_file_name("https://example.org/pkgs/vim-9.1-1.swell"), "vim-9.1-1.swell");
    assert_eq!(download_file_name("vim.swell"), "vim.swell");
    assert_eq!(download_file_name("https://example.org/dir/"), "");
}

#[test]
fn cache_and_extract_locations() {
    assert_eq!(cache_dir(), "/var/cache/sbpm");
    assert_eq!(
        cached_archive_path("https://example.org/pkgs/vim-9.1-1.swell"),
        "/var/cache/sbpm/vim-9.1-1.swell"
    );
    assert_eq!(extract_dir("vim"), "/tmp/sbpm-extract/vim");
}

#[test]
fn swell_extension() {
    assert!(is_swell_archive("vim-9.1-1-x86_64.swell"));
    assert!(is_swell_archive("a.tar.swell"));
    assert!(!is_swell_archive(".swell"));
    assert!(!is_swell_archive("swell"));
    assert!(!is_swell_archive("vim.tar"));
    assert!(!is_swell_archive(".."));
    assert!(is_swell_archive("..swell"));
}
