use std::io::Write as _;
use supermd::catalog::{plugin_name_from_names, plugin_name_from_zip};

/// Build an in-memory plugin zip: entries are (path, bytes).
fn make_zip(entries: &[(&str, &[u8])]) -> Vec<u8> {
    let mut buf = std::io::Cursor::new(Vec::new());
    {
        let mut writer = zip::ZipWriter::new(&mut buf);
        let opts = zip::write::SimpleFileOptions::default();
        for (path, bytes) in entries {
            writer.start_file(*path, opts).unwrap();
            writer.write_all(bytes).unwrap();
        }
        writer.finish().unwrap();
    }
    buf.into_inner()
}

fn good_zip() -> Vec<u8> {
    make_zip(&[
        ("demo/plugin.toml", b"name=\"demo\"\nversion=\"0.1.0\"\nformats=true\n"),
        ("demo/plugin.wasm", b"\0asm-stub"),
    ])
}

#[test]
fn reads_the_plugin_name_out_of_the_zip() {
    assert_eq!(plugin_name_from_zip(&good_zip()).unwrap(), "demo");
}

#[test]
fn two_top_level_folders_are_not_one_plugin() {
    let bytes = make_zip(&[("a/plugin.toml", b"x"), ("b/plugin.toml", b"y")]);
    assert_eq!(
        plugin_name_from_zip(&bytes),
        Err("archive must contain exactly one plugin directory".to_string())
    );
}

#[test]
fn bytes_that_are_not_a_zip_are_an_error() {
    assert!(plugin_name_from_zip(b"definitely not a zip").is_err());
}

#[test]
fn the_root_is_the_part_before_the_first_slash() {
    let names = vec!["p/a.txt".to_string(), "p/sub/b.txt".to_string(), "p".to_string()];
    assert_eq!(plugin_name_from_names(&names), Ok("p".to_string()));
    let names = vec!["/abs".to_string()];
    assert!(plugin_name_from_names(&names).is_err());
    let none: Vec<String> = Vec::new();
    assert!(plugin_name_from_names(&none).is_err());
}
