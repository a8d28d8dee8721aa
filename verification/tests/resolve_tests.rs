use countme::resolve::{classify_source, extension_of, zip_mount_path};
use countme::{PathMeta, SourceKind};

#[test]
fn zip_file_routes_through_the_zip_mount() {
    // The zip branch, never the CSV-parse branch.
    assert_eq!(
        classify_source("data.zip", &PathMeta::RegularFile),
        SourceKind::ZipMount
    );
    assert_eq!(
        classify_source("/srv/data/batch.zip", &PathMeta::RegularFile),
        SourceKind::ZipMount
    );
    assert_ne!(
        classify_source("data.zip", &PathMeta::RegularFile),
        SourceKind::CsvThenDriver
    );
}

#[test]
fn other_extensions_try_csv_first() {
    assert_eq!(
        classify_source("counts.csv", &PathMeta::RegularFile),
        SourceKind::CsvThenDriver
    );
    assert_eq!(
        classify_source("data.gpkg", &PathMeta::RegularFile),
        SourceKind::CsvThenDriver
    );
}

#[test]
fn no_extension_opens_directly() {
    assert_eq!(
        classify_source("data", &PathMeta::RegularFile),
        SourceKind::DirectOpen
    );
    // A leading dot with nothing before it counts as no extension.
    assert_eq!(
        classify_source(".zip", &PathMeta::RegularFile),
        SourceKind::DirectOpen
    );
}

#[test]
fn non_files_open_directly() {
    assert_eq!(
        classify_source("some.dir.zip", &PathMeta::OtherNode),
        SourceKind::DirectOpen
    );
    assert_eq!(
        classify_source("PG:dbname=gis", &PathMeta::NoMetadata),
        SourceKind::DirectOpen
    );
}

#[test]
fn extension_is_read_from_the_final_component() {
    assert_eq!(extension_of("a.tar.gz"), Some("gz"));
    assert_eq!(extension_of("dir.zip/file"), None);
    assert_eq!(extension_of("dir/file.csv"), Some("csv"));
    assert_eq!(extension_of("noext"), None);
}

#[test]
fn zip_mount_path_prefixes_once() {
    assert_eq!(zip_mount_path("/data/x.zip"), "/vsizip/data/x.zip");
    assert_eq!(zip_mount_path("x.zip"), "/vsizip/x.zip");
}
