use shadow::wheel_writer::Tag;

#[test]
fn test_tag_to_string() {
    let tag = Tag::new(
        None,
        None,
        "dist".to_owned(),
        None,
        "cp36".to_owned(),
        "0.0.0".to_owned(),
    );
    assert_eq!(tag.to_string(), "dist-0.0.0-cp36-none-any.whl".to_owned());
    let tag = Tag::new(
        Some("abi3".to_owned()),
        Some("1".to_owned()),
        "dist".to_owned(),
        Some("manylinux_2_28_x86_64".to_owned()),
        "cp36".to_owned(),
        "0.0.0".to_owned(),
    );
    assert_eq!(
        tag.to_string(),
        "dist-0.0.0-1-cp36-abi3-manylinux_2_28_x86_64.whl".to_owned()
    );
}

use shadow::wheel_writer::{
    content_hash, fold_header, push_decimal, Metadata21, RecordEntry, WheelDistInfo, WheelWriter,
};

fn metadata() -> Metadata21 {
    Metadata21 {
        metadata_version: Metadata21::metadata_version(),
        name: "dist".to_owned(),
        version: "1.0.0-beta 1".to_owned(),
        platform: vec!["linux".to_owned(), "macos".to_owned()],
        supported_platform: vec![],
        summary: Some("A distribution".to_owned()),
        description: None,
        description_content_type: None,
        keywords: None,
        home_page: Some("https://example.com".to_owned()),
        download_url: None,
        author: None,
        author_email: None,
        maintainer: None,
        maintainer_email: None,
        license: None,
        classifiers: vec!["Topic :: Software".to_owned()],
        requires_dist: vec![],
        provides_dist: vec![],
        obsoletes_dist: vec![],
        requires_python: Some(">=3.6".to_owned()),
        requires_external: vec![],
        project_url: vec![("Docs".to_owned(), "https://docs.example.com".to_owned())],
        provides_extra: vec![],
    }
}

fn pairs(fields: &[(&str, &str)]) -> Vec<(String, String)> {
    fields
        .iter()
        .map(|(name, value)| (name.to_string(), value.to_string()))
        .collect()
}

#[test]
fn metadata_fields_come_in_their_order() {
    assert_eq!(
        metadata().to_vec(),
        pairs(&[
            ("Metadata-Version", "2.1"),
            ("Name", "dist"),
            ("Version", "1.0.0_beta_1"),
            ("Platform", "linux"),
            ("Platform", "macos"),
            ("Classifier", "Topic :: Software"),
            ("Summary", "A distribution"),
            ("Home-Page", "https://example.com"),
            ("Requires-Python", ">=3.6"),
            ("Project-URL", "Docs, https://docs.example.com"),
        ])
    );
}

#[test]
fn metadata_file_has_the_description_as_its_body() {
    let mut with_description = metadata();
    with_description.description = Some("Long\ntext".to_owned());
    with_description.platform = vec![];
    with_description.classifiers = vec![];
    with_description.project_url = vec![];
    with_description.home_page = None;
    with_description.requires_python = None;
    assert_eq!(
        with_description.to_file_contents(),
        "Metadata-Version: 2.1\nName: dist\nVersion: 1.0.0_beta_1\nSummary: A distribution\n\nLong\ntext\n"
    );
    let mut without = with_description.clone();
    without.description = None;
    assert_eq!(
        without.to_file_contents(),
        "Metadata-Version: 2.1\nName: dist\nVersion: 1.0.0_beta_1\nSummary: A distribution\n"
    );
}

#[test]
fn versions_are_escaped() {
    let mut metadata = metadata();
    assert_eq!(metadata.get_version_escaped(), "1.0.0_beta_1");
    metadata.version = "2.0.1".to_owned();
    assert_eq!(metadata.get_version_escaped(), "2.0.1");
    metadata.version = "1+local~~x".to_owned();
    assert_eq!(metadata.get_version_escaped(), "1_local_x");
}

#[test]
fn headers_are_folded() {
    assert_eq!(fold_header("short"), "short");
    assert_eq!(fold_header(""), "\t");
    let long = "word ".repeat(30);
    let folded = fold_header(&long);
    let lines: Vec<&str> = folded.split("\r\n").collect();
    assert!(lines.len() > 1);
    assert!(lines[0].len() <= 78 && !lines[0].starts_with('\t'));
    for line in &lines[1..] {
        assert!(line.starts_with('\t'));
    }
    assert_eq!(fold_header("first\n\nthird"), "first\r\n\t\r\n\tthird");
}

#[test]
fn license_text_is_folded_in_the_fields() {
    let mut metadata = metadata();
    metadata.license = Some("first\n\nthird".to_owned());
    let fields = metadata.to_vec();
    let license = fields.iter().find(|field| field.0 == "License").unwrap();
    assert_eq!(license.1, "first\r\n\t\r\n\tthird");
}

#[test]
fn numbers_are_written_in_decimal() {
    for (n, expected) in [(0usize, "0"), (7, "7"), (10, "10"), (1234567890, "1234567890")] {
        let mut text = "n=".to_owned();
        push_decimal(&mut text, n);
        assert_eq!(text, format!("n={expected}"));
    }
    let mut text = String::new();
    push_decimal(&mut text, usize::MAX);
    assert_eq!(text, usize::MAX.to_string());
}

#[test]
fn record_entries_name_the_digest_of_the_contents() {
    assert_eq!(
        content_hash(b""),
        "47DEQpj8HBSa-_TImW-5JCeuQeRkm5NMpJWZG3hSuFU"
    );
    assert_eq!(
        content_hash(b"hello world"),
        "uU0nuZNNPgilLlLX2n2r-sSE7-N6U4DukIj3rOLvzek"
    );
    let entry = RecordEntry::of_file("pkg/__init__.py".to_owned(), b"hello world");
    assert_eq!(entry.size, 11);
    assert_eq!(
        entry.to_line(),
        "pkg/__init__.py,sha256-uU0nuZNNPgilLlLX2n2r-sSE7-N6U4DukIj3rOLvzek,11\n"
    );
    let entry = RecordEntry::new("a".to_owned(), "h".to_owned(), 0);
    assert_eq!(entry.to_line(), "a,sha256-h,0\n");
}

#[test]
fn dist_info_gives_the_files_of_a_wheel() {
    let writer = WheelWriter {
        abi: None,
        build_tag: None,
        distribution: "dist".to_owned(),
        metadata_toml_path: "metadata.toml".to_owned(),
        packages: vec![],
        platform: None,
        python_tag: "cp36".to_owned(),
        version: "0.0.0".to_owned(),
    };
    assert_eq!(writer.dist_info_path(), "dist-0.0.0.dist-info");
    let mut info = WheelDistInfo::new(metadata(), writer.tag());
    assert_eq!(info.wheel_name(), "dist-0.0.0-cp36-none-any.whl");
    assert_eq!(info.license(), "Unlicensed");
    assert_eq!(
        info.wheel_file("writer", "1.2.3"),
        "Wheel-Version: 1.0\nGenerator: writer (1.2.3)\nRoot-Is-Purelib: false\nTag: dist-0.0.0-cp36-none-any.whl\n"
    );
    info.metadata.license = Some("MIT".to_owned());
    assert_eq!(info.license(), "MIT");
}
