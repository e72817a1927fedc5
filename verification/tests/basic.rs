use taxon_scan::cache::{fingerprint_string, load_cache, make_cache_file, CacheIndex};
use taxon_scan::ioc::{DbError, IocDatabase};
use taxon_scan::strutil::{to_lower, trim, u64_to_string};
use taxon_scan::types::CacheEntry;

fn cell(s: &str) -> Option<String> {
    Some(s.to_string())
}

fn header_row() -> Vec<Option<String>> {
    vec![cell("Order"), cell("Family"), cell("IOC_15.1"), cell("Chinese")]
}

fn data_row(order: &str, family: &str, latin: &str, chinese: &str) -> Vec<Option<String>> {
    vec![cell(order), cell(family), cell(latin), cell(chinese)]
}

#[test]
fn lowercase_is_ascii_only() {
    assert_eq!(to_lower("Turdus MERULA"), "turdus merula");
    assert_eq!(to_lower("already low"), "already low");
}

#[test]
fn trim_strips_edges() {
    assert_eq!(trim("  Turdus merula \t"), "Turdus merula");
    assert_eq!(trim("   \t "), "");
    assert_eq!(trim("x"), "x");
}

#[test]
fn decimal_rendering() {
    assert_eq!(u64_to_string(0), "0");
    assert_eq!(u64_to_string(907), "907");
    assert_eq!(u64_to_string(18446744073709551615), "18446744073709551615");
}

#[test]
fn fingerprint_format_and_sensitivity() {
    assert_eq!(fingerprint_string(456, 123), "{\"mtime\":123,\"size\":456}");
    assert_ne!(fingerprint_string(456, 123), fingerprint_string(456, 124));
    assert_ne!(fingerprint_string(456, 123), fingerprint_string(457, 123));
}

#[test]
fn load_skips_incomplete_rows() {
    let rows = vec![
        header_row(),
        data_row("Passeriformes", "Turdidae", "Turdus merula", "A"),
        data_row("", "Turdidae", "Turdus pilaris", "B"),
        data_row("Passeriformes", "   ", "Turdus iliacus", "C"),
        data_row("Passeriformes", "Turdidae", "  ", "D"),
        data_row("Passeriformes", "Turdidae", "Turdus philomelos", ""),
    ];
    let db = IocDatabase::load_from_rows(&rows).unwrap();
    assert_eq!(db.entries.len(), 2);
    assert_eq!(db.entries[0].latin, "Turdus merula");
    assert_eq!(db.entries[1].latin, "Turdus philomelos");
    assert_eq!(db.entries[1].chinese, "");
}

#[test]
fn load_trims_fields() {
    let rows = vec![
        header_row(),
        data_row(" Passeriformes ", "\tTurdidae", " Turdus merula ", "  X "),
    ];
    let db = IocDatabase::load_from_rows(&rows).unwrap();
    assert_eq!(db.entries[0].order, "Passeriformes");
    assert_eq!(db.entries[0].family, "Turdidae");
    assert_eq!(db.entries[0].latin, "Turdus merula");
    assert_eq!(db.entries[0].chinese, "X");
}

#[test]
fn load_reports_missing_column() {
    let rows = vec![vec![cell("Order"), cell("Family"), cell("Chinese")]];
    match IocDatabase::load_from_rows(&rows) {
        Err(DbError::MissingColumn(name)) => assert_eq!(name, "IOC_15.1"),
        other => panic!("unexpected result: {:?}", other),
    }
}

#[test]
fn load_reports_empty_sheet() {
    let rows: Vec<Vec<Option<String>>> = Vec::new();
    match IocDatabase::load_from_rows(&rows) {
        Err(DbError::EmptySheet) => {}
        other => panic!("unexpected result: {:?}", other),
    }
    assert_eq!(DbError::EmptySheet.message(), "worksheet is empty");
}

#[test]
fn header_last_duplicate_wins() {
    let rows = vec![
        vec![cell("IOC_15.1"), cell("Order"), cell("Family"), cell("IOC_15.1"), cell("Chinese")],
        vec![cell("ignored"), cell("O"), cell("F"), cell("Latin name"), cell("C")],
    ];
    let db = IocDatabase::load_from_rows(&rows).unwrap();
    assert_eq!(db.entries[0].latin, "Latin name");
}

#[test]
fn latin_lookup_is_case_insensitive() {
    let rows = vec![
        header_row(),
        data_row("Passeriformes", "Turdidae", "Turdus merula", "A"),
        data_row("Passeriformes", "Paridae", "Parus major", "B"),
    ];
    let db = IocDatabase::load_from_rows(&rows).unwrap();
    assert_eq!(db.lookup_latin("turdus merula"), Some(0));
    assert_eq!(db.lookup_latin("TURDUS MERULA"), Some(0));
    assert_eq!(db.lookup_latin("Parus Major"), Some(1));
    assert_eq!(db.lookup_latin("Corvus corax"), None);
}

#[test]
fn latin_lookup_last_write_wins() {
    let rows = vec![
        header_row(),
        data_row("O1", "F1", "Parus major", "first"),
        data_row("O2", "F2", "PARUS MAJOR", "second"),
    ];
    let db = IocDatabase::load_from_rows(&rows).unwrap();
    assert_eq!(db.lookup_latin("parus major"), Some(1));
}

#[test]
fn cache_index_lookup() {
    let entries = vec![
        CacheEntry { path: "/a.jpg".to_string(), mtime: 1, species_latin: None },
        CacheEntry {
            path: "/b.jpg".to_string(),
            mtime: 2,
            species_latin: Some("Turdus merula".to_string()),
        },
        CacheEntry { path: "/a.jpg".to_string(), mtime: 9, species_latin: None },
    ];
    let idx = CacheIndex { entries };
    assert_eq!(idx.get("/a.jpg").unwrap().mtime, 9);
    assert_eq!(idx.get("/b.jpg").unwrap().species_latin.as_deref(), Some("Turdus merula"));
    assert!(idx.get("/c.jpg").is_none());
    assert!(CacheIndex::empty().get("/a.jpg").is_none());
}

#[test]
fn cache_load_checks_fingerprint() {
    let records = vec![CacheEntry { path: "/a.jpg".to_string(), mtime: 1, species_latin: None }];
    let good = fingerprint_string(10, 20);
    let file = make_cache_file(good.as_str(), records.clone());
    assert_eq!(file.version, 1);
    assert_eq!(file.ioc_fingerprint, good);

    let accepted = load_cache(Some(file.clone()), good.as_str());
    assert_eq!(accepted.entries.len(), 1);

    let other = fingerprint_string(10, 21);
    let rejected = load_cache(Some(file), other.as_str());
    assert_eq!(rejected.entries.len(), 0);

    let absent = load_cache(None, good.as_str());
    assert_eq!(absent.entries.len(), 0);
}
