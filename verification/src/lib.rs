//! Classifies photo files by biological species: filenames are matched
//! against a reference taxonomy, results are cached per file and rendered
//! as a sorted order/family/genus/species hierarchy.

use vstd::prelude::*;

pub mod cache;
pub mod ioc;
pub mod matcher;
pub mod scanner;
pub mod strutil;
pub mod tree;
pub mod types;

use crate::cache::{fingerprint_spec, fingerprint_string, load_cache, make_cache_file};
use crate::ioc::{col_of, rows_entries, rows_view, DbError, IocDatabase};
use crate::matcher::{chinese_pairs, latin_pairs, within_build_limits, NameMatcher};
use crate::scanner::{files_path_consistent, lemma_rescan_reproduces, matches_spec, matches_view,
    records_spec, records_view, scan_paths, supported_count, FileMeta};
use crate::strutil::lower;
use crate::tree::{build_tree, contents_of_tuples, lemma_tree_unique, sum_orders, tree_ok};
use crate::types::{CacheEntry, CacheFile, EntryV, ScanResponse};

verus! {

/// What a successful scan settles, for given automaton availability:
/// the cache snapshot holds one record per supported file under the
/// current reference fingerprint, the counts add up, and the tree is
/// the sorted aggregation of exactly the classified photos. For
/// reference entries within the build limits, availability is pinned:
/// an automaton exists exactly when it has patterns.
pub open spec fn scan_ok_post(
    es: Seq<EntryV>,
    cacheseq: Seq<CacheEntry>,
    use_l: bool,
    use_c: bool,
    files: Seq<FileMeta>,
    fp: Seq<char>,
    resp: ScanResponse,
    cf: CacheFile,
) -> bool {
    &&& cf.version == 1
    &&& cf.ioc_fingerprint@ == fp
    &&& records_view(cf.entries@) == records_spec(es, cacheseq, use_l, use_c, files)
    &&& resp.stats.total_files == supported_count(files)
    &&& resp.stats.matched_files == matches_spec(es, cacheseq, use_l, use_c, files).len()
    &&& resp.stats.unmatched_files == resp.stats.total_files - resp.stats.matched_files
    &&& tree_ok(
        es,
        contents_of_tuples(es, matches_spec(es, cacheseq, use_l, use_c, files)),
        resp.tree@,
    )
    &&& sum_orders(resp.tree@) == resp.stats.matched_files
    &&& resp.total_species == es.len()
}

/// A successful scan settles `scan_ok_post` for whichever automatons
/// the matcher could build.
pub open spec fn scan_ok_post_any(
    es: Seq<EntryV>,
    cacheseq: Seq<CacheEntry>,
    files: Seq<FileMeta>,
    fp: Seq<char>,
    resp: ScanResponse,
    cf: CacheFile,
) -> bool {
    exists|use_l: bool, use_c: bool|
        #[trigger] scan_ok_post(es, cacheseq, use_l, use_c, files, fp, resp, cf)
}

/// Re-running a scan with nothing changed reproduces the result: when a
/// second scan reads the snapshot the first one wrote, over files
/// unchanged in path, name and modification time, it returns the same
/// statistics, the same records, and the very same tree. Lower-cased
/// latin names must be pairwise distinct, and both runs must have built
/// the same automatons — which `scan_and_build` pins whenever the
/// entries are within the build limits.
pub proof fn lemma_rescan_identical(
    es: Seq<EntryV>,
    cacheseq: Seq<CacheEntry>,
    use_l: bool,
    use_c: bool,
    files: Seq<FileMeta>,
    fp: Seq<char>,
    resp1: ScanResponse,
    cf1: CacheFile,
    resp2: ScanResponse,
    cf2: CacheFile,
)
    requires
        forall|a: int, b: int|
            0 <= a < b < es.len() ==> lower((#[trigger] es[a]).latin) != lower(
                (#[trigger] es[b]).latin,
            ),
        files_path_consistent(files),
        scan_ok_post(es, cacheseq, use_l, use_c, files, fp, resp1, cf1),
        scan_ok_post(es, cf1.entries@, use_l, use_c, files, fp, resp2, cf2),
    ensures
        resp2.tree@ == resp1.tree@,
        resp2.stats.total_files == resp1.stats.total_files,
        resp2.stats.matched_files == resp1.stats.matched_files,
        resp2.stats.unmatched_files == resp1.stats.unmatched_files,
        resp2.total_species == resp1.total_species,
        records_view(cf2.entries@) == records_view(cf1.entries@),
{
    lemma_rescan_reproduces(es, cacheseq, cf1.entries@, use_l, use_c, files);
    lemma_tree_unique(
        es,
        contents_of_tuples(es, matches_spec(es, cacheseq, use_l, use_c, files)),
        resp1.tree@,
        resp2.tree@,
    );
    assert(resp2.tree@ =~= resp1.tree@);
}

/// The records a prior snapshot contributes: its own when its stored
/// fingerprint equals the current one, none otherwise.
pub open spec fn effective_cache(cache_file: Option<CacheFile>, fp: Seq<char>) -> Seq<CacheEntry> {
    match cache_file {
        Some(cf) => if cf.ioc_fingerprint@ == fp {
            cf.entries@
        } else {
            Seq::empty()
        },
        None => Seq::empty(),
    }
}

/// One scan cycle over already-gathered inputs: loads the reference
/// database from worksheet cells, fingerprints the reference source by
/// size and modification time, accepts or discards the prior cache
/// snapshot, classifies the discovered files, and aggregates the tree.
pub fn scan_and_build(
    rows: &Vec<Vec<Option<String>>>,
    ref_size: u64,
    ref_mtime: u64,
    cache_file: Option<CacheFile>,
    files: &Vec<FileMeta>,
) -> (r: Result<(ScanResponse, CacheFile), DbError>)
    ensures
        rows@.len() == 0 ==> (r matches Err(e) && e is EmptySheet),
        ({
            let rv = rows_view(rows@);
            rows@.len() > 0 ==> {
                let header = rv[0];
                if col_of(header, "Order"@) is None {
                    r matches Err(e) && e matches DbError::MissingColumn(n) && n@ == "Order"@
                } else if col_of(header, "Family"@) is None {
                    r matches Err(e) && e matches DbError::MissingColumn(n) && n@ == "Family"@
                } else if col_of(header, "IOC_15.1"@) is None {
                    r matches Err(e) && e matches DbError::MissingColumn(n) && n@ == "IOC_15.1"@
                } else if col_of(header, "Chinese"@) is None {
                    r matches Err(e) && e matches DbError::MissingColumn(n) && n@ == "Chinese"@
                } else {
                    r matches Ok(p) && {
                        let es = rows_entries(
                            rv.skip(1),
                            col_of(header, "Order"@)->0,
                            col_of(header, "Family"@)->0,
                            col_of(header, "IOC_15.1"@)->0,
                            col_of(header, "Chinese"@)->0,
                        );
                        let fp = fingerprint_spec(ref_size, ref_mtime);
                        &&& (within_build_limits(es) ==> scan_ok_post(
                            es,
                            effective_cache(cache_file, fp),
                            latin_pairs(es).len() > 0,
                            chinese_pairs(es).len() > 0,
                            files@,
                            fp,
                            p.0,
                            p.1,
                        ))
                        &&& scan_ok_post_any(
                            es,
                            effective_cache(cache_file, fp),
                            files@,
                            fp,
                            p.0,
                            p.1,
                        )
                    }
                }
            }
        }),
{
    let db = match IocDatabase::load_from_rows(rows) {
        Ok(db) => db,
        Err(e) => {
            return Err(e);
        },
    };
    let fp = fingerprint_string(ref_size, ref_mtime);
    let ghost cache_file0 = cache_file;
    let cache = load_cache(cache_file, fp.as_str());
    proof {
        assert(cache.entries@ == effective_cache(
            cache_file0,
            fingerprint_spec(ref_size, ref_mtime),
        ));
    }
    let matcher = NameMatcher::new(&db.entries);
    let out = scan_paths(&db, &matcher, &cache, files);
    proof {
        scanner::lemma_matches_idx_range(
            db.view_entries(),
            cache.entries@,
            matcher.has_latin(),
            matcher.has_chinese(),
            files@,
        );
        assert forall|k: int| 0 <= k < out.matches@.len() implies (
        #[trigger] out.matches@[k]).species_idx < db.entries@.len() by {
            assert(matches_view(out.matches@)[k] == scanner::matched_view(out.matches@[k]));
        }
    }
    let tree = build_tree(&db.entries, &out.matches);
    proof {
        tree::lemma_contents_views(db.view_entries(), out.matches@);
    }
    let stats = out.stats;
    let total_species = db.entries.len();
    let cf = make_cache_file(fp.as_str(), out.cache_entries);
    let resp = ScanResponse { tree, stats, total_species };
    proof {
        let rv = rows_view(rows@);
        let header = rv[0];
        let es2 = rows_entries(
            rv.skip(1),
            col_of(header, "Order"@)->0,
            col_of(header, "Family"@)->0,
            col_of(header, "IOC_15.1"@)->0,
            col_of(header, "Chinese"@)->0,
        );
        let fps = fingerprint_spec(ref_size, ref_mtime);
        assert(es2 == db.view_entries());
        assert(scan_ok_post(
            es2,
            effective_cache(cache_file0, fps),
            matcher.has_latin(),
            matcher.has_chinese(),
            files@,
            fps,
            resp,
            cf,
        ));
        assert(scan_ok_post_any(es2, effective_cache(cache_file0, fps), files@, fps, resp, cf));
        if within_build_limits(es2) {
            assert(matcher.has_latin() == (latin_pairs(es2).len() > 0));
            assert(matcher.has_chinese() == (chinese_pairs(es2).len() > 0));
            assert(scan_ok_post(
                es2,
                effective_cache(cache_file0, fps),
                latin_pairs(es2).len() > 0,
                chinese_pairs(es2).len() > 0,
                files@,
                fps,
                resp,
                cf,
            ));
        }
    }
    Ok((resp, cf))
}

} // verus!
