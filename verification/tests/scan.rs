use taxon_scan::cache::fingerprint_string;
use taxon_scan::ioc::IocDatabase;
use taxon_scan::matcher::NameMatcher;
use taxon_scan::scanner::{is_supported, scan_paths, FileMeta};
use taxon_scan::tree::{build_tree, genus_name};
use taxon_scan::types::{CacheEntry, CacheFile, IocEntry, MatchedPhoto, TaxonTree};
use taxon_scan::scan_and_build;

fn cell(s: &str) -> Option<String> {
    Some(s.to_string())
}

fn rows_with(data: &[(&str, &str, &str, &str)]) -> Vec<Vec<Option<String>>> {
    let mut rows = vec![vec![cell("Order"), cell("Family"), cell("IOC_15.1"), cell("Chinese")]];
    for (o, f, l, c) in data {
        rows.push(vec![cell(o), cell(f), cell(l), cell(c)]);
    }
    rows
}

fn file(path: &str, name: &str, mtime: i64) -> FileMeta {
    FileMeta { path: path.to_string(), file_name: name.to_string(), mtime }
}

fn tree_text(t: &TaxonTree) -> String {
    format!("{:?}", t)
}

#[test]
fn supported_extensions() {
    assert!(is_supported("bird.jpg"));
    assert!(is_supported("bird.JPEG"));
    assert!(is_supported("bird.Png"));
    assert!(is_supported("bird.HEIC"));
    assert!(!is_supported("bird.txt"));
    assert!(!is_supported("bird"));
    assert!(!is_supported(".jpg"));
    assert!(!is_supported("archive.jpg.zip"));
}

#[test]
fn genus_is_first_token() {
    assert_eq!(genus_name("Turdus merula"), "Turdus");
    assert_eq!(genus_name("  Parus   major"), "Parus");
    assert_eq!(genus_name("Corvus"), "Corvus");
    assert_eq!(genus_name("   "), "Unknown");
    assert_eq!(genus_name(""), "Unknown");
}

#[test]
fn matcher_finds_latin_substring() {
    let db = IocDatabase::load_from_rows(&rows_with(&[(
        "Passeriformes",
        "Turdidae",
        "Turdus merula",
        "X",
    )]))
    .unwrap();
    let matcher = NameMatcher::new(&db.entries);
    assert_eq!(matcher.match_name("IMG_Turdus_merula_2020"), Some(0));
    assert_eq!(matcher.match_name("turdus merula at dawn"), Some(0));
    assert_eq!(matcher.match_name("TURDUS MERULA"), Some(0));
    assert_eq!(matcher.match_name("nothing here"), None);
}

#[test]
fn matcher_prefers_latin_over_localized() {
    let db = IocDatabase::load_from_rows(&rows_with(&[
        ("O1", "F1", "Parus major", "AAA"),
        ("O2", "F2", "Corvus corax", "BBB"),
    ]))
    .unwrap();
    let matcher = NameMatcher::new(&db.entries);
    // The latin automaton is probed first even when a localized name
    // starts earlier in the text.
    assert_eq!(matcher.match_name("bbb then parus major"), Some(0));
    // Only the localized automaton hits.
    assert_eq!(matcher.match_name("photo of BBB bird"), Some(1));
}

#[test]
fn matcher_leftmost_first() {
    let db = IocDatabase::load_from_rows(&rows_with(&[
        ("O1", "F1", "Parus major", "A"),
        ("O1", "F1", "Parus", "B"),
        ("O1", "F1", "major", "C"),
    ]))
    .unwrap();
    let matcher = NameMatcher::new(&db.entries);
    // Both "parus major" and "parus" match at the start; the earlier
    // registered pattern wins.
    assert_eq!(matcher.match_name("parus major 01"), Some(0));
    // "major" alone occurs earliest here.
    assert_eq!(matcher.match_name("major parus sighting"), Some(2));
}

#[test]
fn scan_reuses_cache_only_on_exact_mtime() {
    let db = IocDatabase::load_from_rows(&rows_with(&[(
        "Passeriformes",
        "Turdidae",
        "Turdus merula",
        "X",
    )]))
    .unwrap();
    let matcher = NameMatcher::new(&db.entries);
    // The cached record says this file was unmatched, although its name
    // would match: an exact mtime hit must reuse the record unchanged.
    let cache = taxon_scan::cache::CacheIndex {
        entries: vec![CacheEntry {
            path: "/p/turdus_merula.jpg".to_string(),
            mtime: 5,
            species_latin: None,
        }],
    };
    let files = vec![file("/p/turdus_merula.jpg", "turdus_merula.jpg", 5)];
    let out = scan_paths(&db, &matcher, &cache, &files);
    assert_eq!(out.stats.total_files, 1);
    assert_eq!(out.stats.matched_files, 0);
    assert_eq!(out.stats.unmatched_files, 1);

    // Any mtime difference forces a re-match.
    let files2 = vec![file("/p/turdus_merula.jpg", "turdus_merula.jpg", 6)];
    let out2 = scan_paths(&db, &matcher, &cache, &files2);
    assert_eq!(out2.stats.matched_files, 1);
    assert_eq!(out2.cache_entries[0].species_latin.as_deref(), Some("Turdus merula"));
}

#[test]
fn scan_drops_stale_species_reference() {
    let db = IocDatabase::load_from_rows(&rows_with(&[(
        "Passeriformes",
        "Turdidae",
        "Turdus merula",
        "X",
    )]))
    .unwrap();
    let matcher = NameMatcher::new(&db.entries);
    // The cached species no longer resolves in the latin index, so the
    // file is re-matched even though the mtime is unchanged.
    let cache = taxon_scan::cache::CacheIndex {
        entries: vec![CacheEntry {
            path: "/p/a.jpg".to_string(),
            mtime: 5,
            species_latin: Some("Gone species".to_string()),
        }],
    };
    let files = vec![file("/p/a.jpg", "a.jpg", 5)];
    let out = scan_paths(&db, &matcher, &cache, &files);
    assert_eq!(out.stats.matched_files, 0);
    assert_eq!(out.cache_entries[0].species_latin, None);
}

#[test]
fn scan_ignores_unsupported_entries() {
    let db = IocDatabase::load_from_rows(&rows_with(&[(
        "Passeriformes",
        "Turdidae",
        "Turdus merula",
        "X",
    )]))
    .unwrap();
    let matcher = NameMatcher::new(&db.entries);
    let cache = taxon_scan::cache::CacheIndex { entries: Vec::new() };
    let files = vec![
        file("/p/turdus merula.txt", "turdus merula.txt", 1),
        file("/p/turdus merula", "turdus merula", 1),
        file("/p/turdus merula.jpg", "turdus merula.jpg", 1),
    ];
    let out = scan_paths(&db, &matcher, &cache, &files);
    assert_eq!(out.stats.total_files, 1);
    assert_eq!(out.stats.matched_files, 1);
    assert_eq!(out.cache_entries.len(), 1);
    assert_eq!(out.matches.len(), 1);
    assert_eq!(out.matches[0].file_name, "turdus merula.jpg");
}

#[test]
fn tree_counts_and_sorting() {
    let entries = vec![
        IocEntry {
            order: "Passeriformes".to_string(),
            family: "Turdidae".to_string(),
            latin: "Turdus merula".to_string(),
            chinese: "A".to_string(),
        },
        IocEntry {
            order: "Passeriformes".to_string(),
            family: "Paridae".to_string(),
            latin: "Parus major".to_string(),
            chinese: "B".to_string(),
        },
        IocEntry {
            order: "Anseriformes".to_string(),
            family: "Anatidae".to_string(),
            latin: "Anas platyrhynchos".to_string(),
            chinese: "C".to_string(),
        },
    ];
    let matches = vec![
        MatchedPhoto { path: "/z.jpg".to_string(), file_name: "z.jpg".to_string(), species_idx: 0 },
        MatchedPhoto { path: "/a.jpg".to_string(), file_name: "a.jpg".to_string(), species_idx: 0 },
        MatchedPhoto { path: "/b.jpg".to_string(), file_name: "b.jpg".to_string(), species_idx: 1 },
        MatchedPhoto { path: "/c.jpg".to_string(), file_name: "c.jpg".to_string(), species_idx: 2 },
    ];
    let tree = build_tree(&entries, &matches);
    assert_eq!(tree.orders.len(), 2);
    // Orders sorted ascending.
    assert_eq!(tree.orders[0].name, "Anseriformes");
    assert_eq!(tree.orders[1].name, "Passeriformes");
    assert_eq!(tree.orders[0].count, 1);
    assert_eq!(tree.orders[1].count, 3);
    // Families sorted inside the order.
    let pass = &tree.orders[1];
    assert_eq!(pass.families[0].name, "Paridae");
    assert_eq!(pass.families[1].name, "Turdidae");
    let turdidae = &pass.families[1];
    assert_eq!(turdidae.count, 2);
    assert_eq!(turdidae.genera[0].name, "Turdus");
    let species = &turdidae.genera[0].species[0];
    assert_eq!(species.latin, "Turdus merula");
    assert_eq!(species.chinese, "A");
    assert_eq!(species.count, 2);
    // Photos sorted by file name.
    assert_eq!(species.photos[0].file_name, "a.jpg");
    assert_eq!(species.photos[1].file_name, "z.jpg");
    // The top-level counts add up to the number of matches.
    let total: usize = tree.orders.iter().map(|o| o.count).sum();
    assert_eq!(total, matches.len());
}

#[test]
fn tree_is_order_insensitive() {
    let entries = vec![
        IocEntry {
            order: "Passeriformes".to_string(),
            family: "Turdidae".to_string(),
            latin: "Turdus merula".to_string(),
            chinese: "A".to_string(),
        },
        IocEntry {
            order: "Anseriformes".to_string(),
            family: "Anatidae".to_string(),
            latin: "Anas platyrhynchos".to_string(),
            chinese: "C".to_string(),
        },
    ];
    let forward = vec![
        MatchedPhoto { path: "/z.jpg".to_string(), file_name: "z.jpg".to_string(), species_idx: 0 },
        MatchedPhoto { path: "/a.jpg".to_string(), file_name: "a.jpg".to_string(), species_idx: 1 },
        MatchedPhoto { path: "/m.jpg".to_string(), file_name: "m.jpg".to_string(), species_idx: 0 },
    ];
    let mut backward = forward.clone();
    backward.reverse();
    let t1 = build_tree(&entries, &forward);
    let t2 = build_tree(&entries, &backward);
    assert_eq!(tree_text(&t1), tree_text(&t2));
}

#[test]
fn full_scan_example() {
    let rows = rows_with(&[("Passeriformes", "Turdidae", "Turdus merula", "\u{4e4c}\u{9e2b}")]);
    let files = vec![
        file("/photos/turdus_merula_01.jpg", "turdus_merula_01.jpg", 100),
        file("/photos/unknown.jpg", "unknown.jpg", 100),
    ];
    let (resp, cache_out) = scan_and_build(&rows, 1000, 2000, None, &files).unwrap();
    assert_eq!(resp.stats.total_files, 2);
    assert_eq!(resp.stats.matched_files, 1);
    assert_eq!(resp.stats.unmatched_files, 1);
    assert_eq!(resp.total_species, 1);
    assert_eq!(resp.tree.orders.len(), 1);
    let order = &resp.tree.orders[0];
    assert_eq!(order.name, "Passeriformes");
    assert_eq!(order.count, 1);
    assert_eq!(order.families.len(), 1);
    assert_eq!(order.families[0].name, "Turdidae");
    let genus = &order.families[0].genera[0];
    assert_eq!(genus.name, "Turdus");
    let species = &genus.species[0];
    assert_eq!(species.latin, "Turdus merula");
    assert_eq!(species.count, 1);
    assert_eq!(species.photos.len(), 1);
    assert_eq!(species.photos[0].file_name, "turdus_merula_01.jpg");
    assert_eq!(cache_out.version, 1);
    assert_eq!(cache_out.ioc_fingerprint, fingerprint_string(1000, 2000));
    assert_eq!(cache_out.entries.len(), 2);
}

#[test]
fn rescan_with_same_inputs_is_identical() {
    let rows = rows_with(&[("Passeriformes", "Turdidae", "Turdus merula", "X")]);
    let files = vec![
        file("/photos/turdus_merula_01.jpg", "turdus_merula_01.jpg", 100),
        file("/photos/unknown.jpg", "unknown.jpg", 100),
    ];
    let (resp1, cache1) = scan_and_build(&rows, 1000, 2000, None, &files).unwrap();
    // Warm re-scan: prior snapshot accepted, files unchanged, files
    // delivered in another order.
    let mut files2 = files.clone();
    files2.reverse();
    let (resp2, cache2) = scan_and_build(&rows, 1000, 2000, Some(cache1.clone()), &files2)
        .unwrap();
    assert_eq!(tree_text(&resp1.tree), tree_text(&resp2.tree));
    assert_eq!(resp1.stats.matched_files, resp2.stats.matched_files);
    assert_eq!(cache1.ioc_fingerprint, cache2.ioc_fingerprint);
    // Per-path records are unchanged, whatever their order.
    for e in &cache1.entries {
        let other = cache2.entries.iter().find(|x| x.path == e.path).unwrap();
        assert_eq!(other.mtime, e.mtime);
        assert_eq!(other.species_latin, e.species_latin);
    }
}

#[test]
fn reference_change_invalidates_whole_cache() {
    let rows = rows_with(&[("Passeriformes", "Turdidae", "Turdus merula", "X")]);
    // A snapshot claiming this path was unmatched, under the fingerprint
    // of the old reference source.
    let stale = CacheFile {
        version: 1,
        ioc_fingerprint: fingerprint_string(1000, 2000),
        entries: vec![CacheEntry {
            path: "/p/turdus_merula.jpg".to_string(),
            mtime: 5,
            species_latin: None,
        }],
    };
    let files = vec![file("/p/turdus_merula.jpg", "turdus_merula.jpg", 5)];
    // Same size, later mtime: every record is invalid and the file is
    // re-matched although nothing on disk changed.
    let (resp, _) = scan_and_build(&rows, 1000, 2001, Some(stale.clone()), &files).unwrap();
    assert_eq!(resp.stats.matched_files, 1);
    // With the fingerprint intact the record is reused as unmatched.
    let (resp2, _) = scan_and_build(&rows, 1000, 2000, Some(stale), &files).unwrap();
    assert_eq!(resp2.stats.matched_files, 0);
}
