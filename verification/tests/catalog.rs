use sha2::Digest;
use supermd::catalog::{
    catalog_plugins, check_download, entry_by_name, install_plugin, install_preflight,
    parse_install_url,
    url_allowed, CatalogEntry,
};

fn sha256_hex(bytes: &[u8]) -> String {
    format!("{:x}", sha2::Sha256::digest(bytes))
}

fn entry_for(bytes: &[u8]) -> CatalogEntry {
    CatalogEntry {
        name: "demo".into(),
        description: "d".into(),
        version: "0.1.0".into(),
        capabilities: vec![],
        download: "https://github.com/SuperJackfruitLabs/supermd/releases/download/v0/plugin-demo.zip".into(),
        sha256: sha256_hex(bytes),
    }
}

#[test]
fn parses_a_plugin_name_out_of_an_install_url() {
    assert_eq!(
        parse_install_url("supermd://install-plugin?name=calc"),
        Some("calc".into())
    );
}

#[test]
fn rejects_install_urls_that_are_not_ours() {
    assert_eq!(parse_install_url("https://evil.example.com/?name=calc"), None);
    assert_eq!(parse_install_url("supermd://open?name=calc"), None);
    assert_eq!(parse_install_url("supermd://install-plugin"), None);
}

#[test]
fn rejects_a_name_with_path_separators() {
    assert_eq!(parse_install_url("supermd://install-plugin?name=../evil"), None);
    assert_eq!(parse_install_url("supermd://install-plugin?name=a/b"), None);
}

#[test]
fn finds_a_catalog_entry_by_name() {
    let entries = vec![entry_for(b"plugin archive")];
    assert!(entry_by_name(&entries, "demo").is_some());
    assert!(entry_by_name(&entries, "nope").is_none());
}

#[test]
fn urls_are_org_pinned() {
    assert!(url_allowed(
        "https://github.com/SuperJackfruitLabs/supermd/releases/download/v1/x.zip"
    ));
    assert!(url_allowed(
        "https://raw.githubusercontent.com/SuperJackfruitLabs/supermd/master/plugins/catalog.json"
    ));
    assert!(!url_allowed("https://github.com/evil/supermd/x.zip"));
    assert!(!url_allowed("http://github.com/SuperJackfruitLabs/supermd/x.zip"));
    assert!(!url_allowed("https://github.com.evil.com/SuperJackfruitLabs/supermd/x.zip"));
    assert!(!url_allowed("https://github.com/SuperJackfruitLabs/supermd-evil/x.zip"));
}

#[test]
fn the_name_is_the_first_name_field_trimmed() {
    assert_eq!(
        parse_install_url("supermd://install-plugin?x=1&name=%20&name=b"),
        None
    );
    assert_eq!(
        parse_install_url("supermd://install-plugin?x=1&name= toc \t&name=b"),
        Some("toc".into())
    );
    assert_eq!(parse_install_url("supermd://install-plugin?name="), None);
    assert_eq!(parse_install_url("supermd://install-plugin?name=word_count-2"), Some("word_count-2".into()));
}

#[test]
fn the_first_matching_entry_wins() {
    let mut second = entry_for(b"x");
    second.version = "0.2.0".into();
    let entries = vec![entry_for(b"x"), second];
    assert_eq!(entry_by_name(&entries, "demo").unwrap().version, "0.1.0");
}

#[test]
fn a_foreign_url_fails_before_any_fetch() {
    let mut entry = entry_for(b"zip");
    entry.download = "https://evil.example.com/plugin-demo.zip".into();
    let err = install_preflight(&entry, false).unwrap_err();
    assert_eq!(err, "download URL is not from the SuperMD repo: https://evil.example.com/plugin-demo.zip");
}

#[test]
fn an_installed_plugin_is_never_overwritten() {
    let entry = entry_for(b"zip");
    assert_eq!(install_preflight(&entry, true).unwrap_err(), "demo is already installed");
    assert!(install_preflight(&entry, false).is_ok());
}

#[test]
fn the_download_must_match_the_pinned_checksum() {
    let mut entry = entry_for(b"the archive");
    assert!(check_download(&entry, b"the archive").is_ok());
    assert_eq!(
        check_download(&entry, b"another archive").unwrap_err(),
        "download did not match the catalog checksum"
    );
    entry.sha256 = "0000".into();
    assert!(check_download(&entry, b"the archive").is_err());
}

#[test]
fn only_the_first_catalog_version_is_understood() {
    let plugins = vec![entry_for(b"a")];
    assert_eq!(catalog_plugins(1, plugins.clone()).unwrap(), plugins);
    assert_eq!(
        catalog_plugins(9, plugins).unwrap_err(),
        "catalog version 9 is newer than this SuperMD understands"
    );
}

#[test]
fn safe_names_survive_their_own_install_url() {
    for name in ["demo", "mermaid-plus", "a_b9", "X"] {
        let url = format!("supermd://install-plugin?name={name}");
        assert_eq!(parse_install_url(&url).as_deref(), Some(name));
    }
}

#[test]
fn sha_mismatch_and_bad_urls_are_rejected() {
    let zip_bytes = b"plugin archive".to_vec();
    let calls = std::cell::Cell::new(0usize);
    let fetch = |_: &str| {
        calls.set(calls.get() + 1);
        Ok(zip_bytes.clone())
    };
    // altered checksum → mismatch, nothing handed back
    let mut entry = entry_for(&zip_bytes);
    entry.sha256 = "0000".into();
    assert_eq!(
        install_plugin(&entry, false, &fetch).unwrap_err(),
        "download did not match the catalog checksum"
    );
    assert_eq!(calls.get(), 1);
    // foreign URL → fetcher never invoked
    let mut entry = entry_for(&zip_bytes);
    entry.download = "https://evil.example.com/plugin-demo.zip".into();
    assert!(install_plugin(&entry, false, &fetch).is_err());
    assert_eq!(calls.get(), 1, "fetcher must not be called");
}

#[test]
fn happy_path_hands_back_the_pinned_archive() {
    let zip_bytes = b"plugin archive".to_vec();
    let entry = entry_for(&zip_bytes);
    let seen = std::cell::RefCell::new(String::new());
    let got = install_plugin(&entry, false, |url: &str| {
        *seen.borrow_mut() = url.to_string();
        Ok(zip_bytes.clone())
    });
    assert_eq!(got.unwrap(), zip_bytes);
    assert_eq!(*seen.borrow(), entry.download);
}

#[test]
fn existing_destination_is_never_fetched_over() {
    let entry = entry_for(b"zip");
    let calls = std::cell::Cell::new(0usize);
    let got = install_plugin(&entry, true, |_: &str| {
        calls.set(calls.get() + 1);
        Ok(b"zip".to_vec())
    });
    assert_eq!(got.unwrap_err(), "demo is already installed");
    assert_eq!(calls.get(), 0);
}

#[test]
fn a_failed_fetch_is_reported_as_it_came() {
    let entry = entry_for(b"zip");
    let got = install_plugin(&entry, false, |_: &str| Err("timed out".to_string()));
    assert_eq!(got.unwrap_err(), "timed out");
}
