use gisaid_dupes::io::compression::{
    get_comp_level, get_signed_comp_level, guess_compression_from_filepath, CompressionType,
    Compressor, Decompressor,
};
use gisaid_dupes::io::fs::extension;

#[test]
fn extension_is_what_follows_the_last_dot_of_the_file_name() {
    assert_eq!(extension("data.ndjson"), Some("ndjson".to_string()));
    assert_eq!(extension("data.ndjson.zst"), Some("zst".to_string()));
    assert_eq!(extension("/a/b.c/data.tar.GZ"), Some("GZ".to_string()));
    assert_eq!(extension("data."), Some(String::new()));
    assert_eq!(extension("a/\u{e9}t\u{e9}.\u{4e2d}\u{6587}"), Some("\u{4e2d}\u{6587}".to_string()));
}

#[test]
fn extension_is_missing_without_a_dot_in_the_file_name() {
    assert_eq!(extension(""), None);
    assert_eq!(extension("data"), None);
    assert_eq!(extension("/a/b.c/data"), None);
    assert_eq!(extension(".hidden"), None);
    assert_eq!(extension("dir/.hidden"), None);
    assert_eq!(extension("dir.d/"), None);
}

#[test]
fn guess_compression_knows_the_four_extensions() {
    let cases = [
        ("a.bz2", CompressionType::Bzip2, "bz2"),
        ("a.xz", CompressionType::Xz, "xz"),
        ("a.zst", CompressionType::Zstandard, "zst"),
        ("a.gz", CompressionType::Gzip, "gz"),
        ("dir/a.ndjson.gz", CompressionType::Gzip, "gz"),
        ("a.ndjson", CompressionType::Uncompressed, "ndjson"),
        ("a.gzip", CompressionType::Uncompressed, "gzip"),
        ("a.zip", CompressionType::Uncompressed, "zip"),
        ("a.", CompressionType::Uncompressed, ""),
    ];
    for (path, compression_type, ext) in cases {
        assert_eq!(
            guess_compression_from_filepath(path),
            (compression_type, ext.to_string()),
            "{path}"
        );
    }
}

#[test]
fn guess_compression_does_not_mind_the_case() {
    assert_eq!(
        guess_compression_from_filepath("A.GZ"),
        (CompressionType::Gzip, "gz".to_string())
    );
    assert_eq!(
        guess_compression_from_filepath("a.Bz2"),
        (CompressionType::Bzip2, "bz2".to_string())
    );
    assert_eq!(
        guess_compression_from_filepath("a.ZsT"),
        (CompressionType::Zstandard, "zst".to_string())
    );
    assert_eq!(
        guess_compression_from_filepath("a.NDJSON"),
        (CompressionType::Uncompressed, "ndjson".to_string())
    );
}

#[test]
fn guess_compression_without_an_extension() {
    for path in ["", "data", "-", ".gz", "dir.gz/data"] {
        assert_eq!(
            guess_compression_from_filepath(path),
            (CompressionType::Uncompressed, String::new()),
            "{path}"
        );
    }
}

#[test]
fn from_extension_wants_lowercase() {
    assert_eq!(CompressionType::from_extension("gz"), CompressionType::Gzip);
    assert_eq!(CompressionType::from_extension("GZ"), CompressionType::Uncompressed);
    assert_eq!(CompressionType::from_extension("xz"), CompressionType::Xz);
    assert_eq!(CompressionType::from_extension("bz2"), CompressionType::Bzip2);
    assert_eq!(CompressionType::from_extension("zst"), CompressionType::Zstandard);
    assert_eq!(CompressionType::from_extension(""), CompressionType::Uncompressed);
    assert_eq!(CompressionType::from_extension("gz "), CompressionType::Uncompressed);
}

#[test]
fn names_and_level_variables() {
    assert_eq!(CompressionType::Bzip2.name(), "Bzip2");
    assert_eq!(CompressionType::Xz.name(), "Xz");
    assert_eq!(CompressionType::Zstandard.name(), "Zstandard");
    assert_eq!(CompressionType::Gzip.name(), "Gzip");
    assert_eq!(CompressionType::Uncompressed.name(), "None");
    assert_eq!(CompressionType::Bzip2.level_variable(), Some("BZ2_COMPRESSION"));
    assert_eq!(CompressionType::Xz.level_variable(), Some("XZ_COMPRESSION"));
    assert_eq!(CompressionType::Zstandard.level_variable(), Some("ZST_COMPRESSION"));
    assert_eq!(CompressionType::Gzip.level_variable(), Some("GZ_COMPRESSION"));
    assert_eq!(CompressionType::Uncompressed.level_variable(), None);
}

#[test]
fn decompressor_from_path_guesses_the_compression() {
    let source: &[u8] = b"bytes";
    let decompressor = Decompressor::from_path(source, "in.ndjson.xz");
    assert_eq!(decompressor.compression_type(), CompressionType::Xz);
    let (reader, compression_type) = decompressor.into_parts();
    assert_eq!(reader, b"bytes");
    assert_eq!(compression_type, CompressionType::Xz);
    let plain = Decompressor::from_path(source, "in.ndjson");
    assert_eq!(plain.compression_type(), CompressionType::Uncompressed);
}

#[test]
fn decompressor_from_str_and_path_reads_the_bytes_of_the_text() {
    let decompressor = Decompressor::from_str_and_path("{\"a\": \"\u{e9}\"}", "in.GZ");
    assert_eq!(decompressor.compression_type(), CompressionType::Gzip);
    let (reader, _) = decompressor.into_parts();
    assert_eq!(reader, "{\"a\": \"\u{e9}\"}".as_bytes());
}

#[test]
fn decompressor_new_takes_the_compression_as_given() {
    let decompressor = Decompressor::new(7u8, &CompressionType::Bzip2);
    assert_eq!(decompressor.compression_type(), CompressionType::Bzip2);
    let note = decompressor.failure_note();
    assert_eq!(note.message, "While decompressing file");
    assert_eq!(note.filename, "None");
    assert_eq!(note.algorithm, "Bzip2");
}

#[test]
fn compressor_from_path_guesses_the_compression() {
    let sink: Vec<u8> = vec![1, 2];
    let compressor = Compressor::from_path(sink, "out.tsv.zst");
    assert_eq!(compressor.compression_type(), CompressionType::Zstandard);
    let note = compressor.write_failure_note();
    assert_eq!(note.message, "While compressing file");
    assert_eq!(note.filename, "None");
    assert_eq!(note.algorithm, "Zstandard");
    let note = compressor.flush_failure_note();
    assert_eq!(note.message, "While flushing compressed file");
    let (writer, compression_type) = compressor.into_parts();
    assert_eq!(writer, vec![1, 2]);
    assert_eq!(compression_type, CompressionType::Zstandard);
    let plain = Compressor::new((), &CompressionType::Uncompressed);
    assert_eq!(plain.write_failure_note().algorithm, "None");
}

#[test]
fn level_is_the_number_that_the_setting_spells() {
    assert_eq!(get_comp_level(Some("0")), 0);
    assert_eq!(get_comp_level(Some("9")), 9);
    assert_eq!(get_comp_level(Some("+7")), 7);
    assert_eq!(get_comp_level(Some("007")), 7);
    assert_eq!(get_comp_level(Some("19")), 19);
    assert_eq!(get_comp_level(Some("4294967295")), 4294967295);
    assert_eq!(get_comp_level(Some("00000000004294967295")), 4294967295);
}

#[test]
fn level_is_two_without_a_number_that_fits() {
    assert_eq!(get_comp_level(None), 2);
    for text in ["", "+", "-", "-1", "-0", "fast", "5x", " 5", "5 ", "4294967296", "99999999999999999999", "1.5", "\u{663}"] {
        assert_eq!(get_comp_level(Some(text)), 2, "{text:?}");
    }
}

#[test]
fn unsigned_level_agrees_with_the_parsing_of_integers() {
    for text in ["0", "12", "+12", "-12", "", "+", "00", "4294967295", "4294967296", "a", "1a", "+-1"] {
        assert_eq!(
            get_comp_level(Some(text)),
            text.parse::<u32>().unwrap_or(2),
            "{text:?}"
        );
        assert_eq!(
            get_signed_comp_level(Some(text)),
            text.parse::<i32>().unwrap_or(2),
            "{text:?}"
        );
    }
}

#[test]
fn signed_level_takes_a_sign() {
    assert_eq!(get_signed_comp_level(None), 2);
    assert_eq!(get_signed_comp_level(Some("19")), 19);
    assert_eq!(get_signed_comp_level(Some("+3")), 3);
    assert_eq!(get_signed_comp_level(Some("-5")), -5);
    assert_eq!(get_signed_comp_level(Some("-0")), 0);
    assert_eq!(get_signed_comp_level(Some("2147483647")), 2147483647);
    assert_eq!(get_signed_comp_level(Some("-2147483648")), -2147483648);
    assert_eq!(get_signed_comp_level(Some("2147483648")), 2);
    assert_eq!(get_signed_comp_level(Some("-2147483649")), 2);
    assert_eq!(get_signed_comp_level(Some("--1")), 2);
    assert_eq!(get_signed_comp_level(Some("-")), 2);
    assert_eq!(get_signed_comp_level(Some("")), 2);
}
