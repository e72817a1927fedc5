//! The scan over discovered files: keeps regular files with a supported
//! image extension, reuses cache records whose stored modification time
//! matches exactly, falls back to name matching otherwise, and counts
//! totals.

use vstd::prelude::*;

use crate::cache::{index_get, CacheIndex};
use crate::ioc::{latin_lookup, IocDatabase};
use crate::matcher::{match_spec, NameMatcher};
use crate::strutil::{canon, lower, to_lower};
use crate::types::{cache_entry_view, CacheEntry, EntryV, MatchedPhoto, ScanStats};

verus! {

/// One filesystem entry handed to the scan: its path, its final name
/// component, and its modification time in seconds.
#[derive(Debug, Clone)]
pub struct FileMeta {
    pub path: String,
    pub file_name: String,
    pub mtime: i64,
}

/// What one scan pass produces.
#[derive(Debug)]
pub struct ScanOutput {
    pub matches: Vec<MatchedPhoto>,
    pub cache_entries: Vec<CacheEntry>,
    pub stats: ScanStats,
}

/// The position of the last dot in a name.
pub open spec fn last_dot(name: Seq<char>) -> Option<int>
    decreases name.len(),
{
    if name.len() == 0 {
        None
    } else if name[name.len() - 1] == '.' {
        Some(name.len() - 1)
    } else {
        last_dot(name.drop_last())
    }
}

/// The extension of a file name: what follows the last dot, unless the
/// only dot is the leading character.
pub open spec fn ext_spec(name: Seq<char>) -> Option<Seq<char>> {
    match last_dot(name) {
        Some(d) => if d > 0 {
            Some(name.subrange(d + 1, name.len() as int))
        } else {
            None
        },
        None => None,
    }
}

/// The stem of a file name: what precedes the last dot, or the whole
/// name when there is no extension.
pub open spec fn stem_spec(name: Seq<char>) -> Seq<char> {
    match last_dot(name) {
        Some(d) => if d > 0 {
            name.subrange(0, d)
        } else {
            name
        },
        None => name,
    }
}

/// A file name with one of the supported image extensions,
/// case-insensitively.
pub open spec fn is_supported_name(name: Seq<char>) -> bool {
    match ext_spec(name) {
        Some(e) => {
            let le = lower(e);
            le == "jpg"@ || le == "jpeg"@ || le == "png"@ || le == "heic"@
        },
        None => false,
    }
}

/// Splits a file name into its stem and extension.
fn split_name(name: &str) -> (r: (String, Option<String>))
    ensures
        r.0@ == stem_spec(name@),
        match r.1 {
            Some(e) => ext_spec(name@) == Some(e@),
            None => ext_spec(name@) is None,
        },
{
    let n = name.unicode_len();
    let ghost nv = name@;
    proof {
        assert(nv.subrange(0, nv.len() as int) =~= nv);
    }
    let mut j: usize = n;
    while j > 0
        invariant
            j <= n,
            n == nv.len(),
            nv == name@,
            last_dot(nv) == last_dot(nv.subrange(0, j as int)),
            forall|k: int| j <= k < nv.len() ==> nv[k] != '.',
        decreases j,
    {
        proof {
            assert(nv.subrange(0, j as int).last() == nv[j - 1]);
            assert(nv.subrange(0, j as int).drop_last() =~= nv.subrange(0, j - 1));
        }
        if name.get_char(j - 1) == '.' {
            if j - 1 > 0 {
                let stem = name.substring_char(0, j - 1).to_owned();
                let ext = name.substring_char(j, n).to_owned();
                return (stem, Some(ext));
            } else {
                return (name.to_owned(), None);
            }
        }
        j = j - 1;
    }
    proof {
        assert(nv.subrange(0, 0) =~= Seq::<char>::empty());
        assert(last_dot(nv) is None);
    }
    (name.to_owned(), None)
}

/// Tests a file name for a supported image extension.
pub fn is_supported(file_name: &str) -> (r: bool)
    ensures
        r == is_supported_name(file_name@),
{
    let (_stem, ext) = split_name(file_name);
    match ext {
        Some(e) => {
            let le = to_lower(e.as_str());
            le.eq(&String::from_str("jpg")) || le.eq(&String::from_str("jpeg")) || le.eq(
                &String::from_str("png"),
            ) || le.eq(&String::from_str("heic"))
        },
        None => false,
    }
}

/// What a fresh classification of one file decides: the leftmost-first
/// name match on the lower-cased stem, and the latin name recorded for
/// the cache when it hits.
pub open spec fn fresh_decision(
    entries: Seq<EntryV>,
    use_l: bool,
    use_c: bool,
    f: FileMeta,
) -> (Option<int>, Option<Seq<char>>) {
    match match_spec(entries, use_l, use_c, canon(stem_spec(f.file_name@))) {
        Some(i) => (Some(i), Some(entries[i].latin)),
        None => (None, None),
    }
}

/// What scanning one file decides: a cache record for the same path is
/// reused only when its stored modification time equals the file's
/// current one exactly; a stored species must still resolve in the
/// current latin index, else the file is re-matched; everything else is
/// a fresh classification.
pub open spec fn decide(
    entries: Seq<EntryV>,
    cache: Seq<CacheEntry>,
    use_l: bool,
    use_c: bool,
    f: FileMeta,
) -> (Option<int>, Option<Seq<char>>) {
    match index_get(cache, f.path@) {
        Some(ce) => {
            if ce.mtime == f.mtime {
                match ce.species_latin {
                    Some(l) => match latin_lookup(entries, lower(l@)) {
                        Some(i) => (Some(i), Some(l@)),
                        None => fresh_decision(entries, use_l, use_c, f),
                    },
                    None => (None, None),
                }
            } else {
                fresh_decision(entries, use_l, use_c, f)
            }
        },
        None => fresh_decision(entries, use_l, use_c, f),
    }
}

/// A cached record is bypassed in favour of a fresh match whenever the
/// stored modification time differs from the file's current one.
pub proof fn lemma_stale_mtime_rematches(
    entries: Seq<EntryV>,
    cache: Seq<CacheEntry>,
    use_l: bool,
    use_c: bool,
    f: FileMeta,
)
    requires
        index_get(cache, f.path@) matches Some(ce) && ce.mtime != f.mtime,
    ensures
        decide(entries, cache, use_l, use_c, f) == fresh_decision(entries, use_l, use_c, f),
{
}

/// A decision that differs from the fresh one can only come from a
/// record for that path whose stored modification time equals the
/// file's current one exactly.
pub proof fn lemma_reuse_needs_exact_mtime(
    entries: Seq<EntryV>,
    cache: Seq<CacheEntry>,
    use_l: bool,
    use_c: bool,
    f: FileMeta,
)
    requires
        decide(entries, cache, use_l, use_c, f) != fresh_decision(entries, use_l, use_c, f),
    ensures
        index_get(cache, f.path@) matches Some(ce) && ce.mtime == f.mtime,
{
}

/// The cache record written for one scanned file.
pub open spec fn record_of(
    entries: Seq<EntryV>,
    cache: Seq<CacheEntry>,
    use_l: bool,
    use_c: bool,
    f: FileMeta,
) -> (Seq<char>, int, Option<Seq<char>>) {
    (f.path@, f.mtime as int, decide(entries, cache, use_l, use_c, f).1)
}

/// The view of a matched photo: path, file name, species index.
pub open spec fn matched_view(m: MatchedPhoto) -> (Seq<char>, Seq<char>, int) {
    (m.path@, m.file_name@, m.species_idx as int)
}

/// The views of a list of matched photos.
pub open spec fn matches_view(v: Seq<MatchedPhoto>) -> Seq<(Seq<char>, Seq<char>, int)> {
    v.map_values(|m: MatchedPhoto| matched_view(m))
}

/// The views of a list of cache records.
pub open spec fn records_view(v: Seq<CacheEntry>) -> Seq<(Seq<char>, int, Option<Seq<char>>)> {
    v.map_values(|e: CacheEntry| cache_entry_view(e))
}

/// How many of the given files carry a supported extension.
pub open spec fn supported_count(files: Seq<FileMeta>) -> int
    decreases files.len(),
{
    if files.len() == 0 {
        0
    } else {
        supported_count(files.drop_last()) + if is_supported_name(files.last().file_name@) {
            1int
        } else {
            0int
        }
    }
}

/// The cache records a scan writes, one per supported file, in input
/// order.
pub open spec fn records_spec(
    entries: Seq<EntryV>,
    cache: Seq<CacheEntry>,
    use_l: bool,
    use_c: bool,
    files: Seq<FileMeta>,
) -> Seq<(Seq<char>, int, Option<Seq<char>>)>
    decreases files.len(),
{
    if files.len() == 0 {
        Seq::empty()
    } else {
        records_spec(entries, cache, use_l, use_c, files.drop_last()) + if is_supported_name(
            files.last().file_name@,
        ) {
            seq![record_of(entries, cache, use_l, use_c, files.last())]
        } else {
            Seq::empty()
        }
    }
}

/// The matched photos a scan produces: one per supported file whose
/// decision resolves a species, in input order.
pub open spec fn matches_spec(
    entries: Seq<EntryV>,
    cache: Seq<CacheEntry>,
    use_l: bool,
    use_c: bool,
    files: Seq<FileMeta>,
) -> Seq<(Seq<char>, Seq<char>, int)>
    decreases files.len(),
{
    if files.len() == 0 {
        Seq::empty()
    } else {
        matches_spec(entries, cache, use_l, use_c, files.drop_last()) + {
            let f = files.last();
            if is_supported_name(f.file_name@) && decide(entries, cache, use_l, use_c, f).0
                is Some {
                seq![(f.path@, f.file_name@, decide(entries, cache, use_l, use_c, f).0->0)]
            } else {
                Seq::empty()
            }
        }
    }
}

/// A record that some supported file accounts for.
pub open spec fn record_from_supported(
    entries: Seq<EntryV>,
    cache: Seq<CacheEntry>,
    use_l: bool,
    use_c: bool,
    files: Seq<FileMeta>,
    t: (Seq<char>, int, Option<Seq<char>>),
) -> bool {
    exists|j: int|
        0 <= j < files.len() && is_supported_name(#[trigger] files[j].file_name@) && t
            == record_of(entries, cache, use_l, use_c, files[j])
}

/// A matched photo that some supported file accounts for.
pub open spec fn match_from_supported(
    entries: Seq<EntryV>,
    cache: Seq<CacheEntry>,
    use_l: bool,
    use_c: bool,
    files: Seq<FileMeta>,
    t: (Seq<char>, Seq<char>, int),
) -> bool {
    exists|j: int|
        0 <= j < files.len() && is_supported_name(#[trigger] files[j].file_name@) && decide(
            entries,
            cache,
            use_l,
            use_c,
            files[j],
        ).0 is Some && t == (
            files[j].path@,
            files[j].file_name@,
            decide(entries, cache, use_l, use_c, files[j]).0->0,
        )
}

/// Every record a scan writes, and every photo it matches, comes from a
/// file with a supported extension; no other filesystem entry reaches
/// the output.
pub proof fn lemma_outputs_only_supported(
    entries: Seq<EntryV>,
    cache: Seq<CacheEntry>,
    use_l: bool,
    use_c: bool,
    files: Seq<FileMeta>,
)
    ensures
        records_spec(entries, cache, use_l, use_c, files).len() == supported_count(files),
        forall|k: int|
            0 <= k < records_spec(entries, cache, use_l, use_c, files).len()
                ==> record_from_supported(
                entries,
                cache,
                use_l,
                use_c,
                files,
                #[trigger] records_spec(entries, cache, use_l, use_c, files)[k],
            ),
        forall|k: int|
            0 <= k < matches_spec(entries, cache, use_l, use_c, files).len()
                ==> match_from_supported(
                entries,
                cache,
                use_l,
                use_c,
                files,
                #[trigger] matches_spec(entries, cache, use_l, use_c, files)[k],
            ),
    decreases files.len(),
{
    if files.len() > 0 {
        let pre = files.drop_last();
        lemma_outputs_only_supported(entries, cache, use_l, use_c, pre);
        let rpre = records_spec(entries, cache, use_l, use_c, pre);
        let rall = records_spec(entries, cache, use_l, use_c, files);
        let mpre = matches_spec(entries, cache, use_l, use_c, pre);
        let mall = matches_spec(entries, cache, use_l, use_c, files);
        assert forall|k: int| 0 <= k < rall.len() implies record_from_supported(
            entries,
            cache,
            use_l,
            use_c,
            files,
            #[trigger] rall[k],
        ) by {
            if k < rpre.len() {
                assert(rall[k] == rpre[k]);
                assert(record_from_supported(entries, cache, use_l, use_c, pre, rpre[k]));
                let j = choose|j: int|
                    0 <= j < pre.len() && is_supported_name(#[trigger] pre[j].file_name@)
                        && rpre[k] == record_of(entries, cache, use_l, use_c, pre[j]);
                assert(files[j] == pre[j]);
                assert(is_supported_name(files[j].file_name@));
                assert(rall[k] == record_of(entries, cache, use_l, use_c, files[j]));
            } else {
                let j = files.len() - 1;
                assert(files[j] == files.last());
                assert(is_supported_name(files[j].file_name@));
                assert(rall[k] == record_of(entries, cache, use_l, use_c, files[j]));
            }
        }
        assert forall|k: int| 0 <= k < mall.len() implies match_from_supported(
            entries,
            cache,
            use_l,
            use_c,
            files,
            #[trigger] mall[k],
        ) by {
            if k < mpre.len() {
                assert(mall[k] == mpre[k]);
                assert(match_from_supported(entries, cache, use_l, use_c, pre, mpre[k]));
                let j = choose|j: int|
                    0 <= j < pre.len() && is_supported_name(#[trigger] pre[j].file_name@)
                        && decide(entries, cache, use_l, use_c, pre[j]).0 is Some && mpre[k] == (
                    pre[j].path@,
                    pre[j].file_name@,
                    decide(entries, cache, use_l, use_c, pre[j]).0->0,
                );
                assert(files[j] == pre[j]);
                assert(is_supported_name(files[j].file_name@));
                assert(decide(entries, cache, use_l, use_c, files[j]).0 is Some);
                assert(mall[k] == (
                    files[j].path@,
                    files[j].file_name@,
                    decide(entries, cache, use_l, use_c, files[j]).0->0,
                ));
            } else {
                let j = files.len() - 1;
                assert(files[j] == files.last());
                assert(is_supported_name(files[j].file_name@));
                assert(decide(entries, cache, use_l, use_c, files[j]).0 is Some);
                assert(mall[k] == (
                    files[j].path@,
                    files[j].file_name@,
                    decide(entries, cache, use_l, use_c, files[j]).0->0,
                ));
            }
        }
    }
}

/// Scans the given files: filters by supported extension, decides each
/// file against the cache and the matcher, and accumulates counts.
pub fn scan_paths(
    db: &IocDatabase,
    matcher: &NameMatcher,
    cache: &CacheIndex,
    files: &Vec<FileMeta>,
) -> (out: ScanOutput)
    requires
        matcher.wf(),
        matcher.entries() == db.view_entries(),
    ensures
        records_view(out.cache_entries@) == records_spec(
            db.view_entries(),
            cache.entries@,
            matcher.has_latin(),
            matcher.has_chinese(),
            files@,
        ),
        matches_view(out.matches@) == matches_spec(
            db.view_entries(),
            cache.entries@,
            matcher.has_latin(),
            matcher.has_chinese(),
            files@,
        ),
        out.stats.total_files == supported_count(files@),
        out.stats.matched_files == out.matches@.len(),
        out.stats.unmatched_files == out.stats.total_files - out.stats.matched_files,
{
    let ghost es = db.view_entries();
    let ghost cs = cache.entries@;
    let ghost ul = matcher.has_latin();
    let ghost uc = matcher.has_chinese();
    let mut matches: Vec<MatchedPhoto> = Vec::new();
    let mut cache_entries: Vec<CacheEntry> = Vec::new();
    let mut total_files: usize = 0;
    let mut matched_files: usize = 0;
    let mut i: usize = 0;
    proof {
        assert(files@.subrange(0, 0) =~= Seq::<FileMeta>::empty());
    }
    while i < files.len()
        invariant
            i <= files.len(),
            es == db.view_entries(),
            cs == cache.entries@,
            ul == matcher.has_latin(),
            uc == matcher.has_chinese(),
            matcher.wf(),
            matcher.entries() == es,
            records_view(cache_entries@) == records_spec(es, cs, ul, uc, files@.subrange(0, i as int)),
            matches_view(matches@) == matches_spec(es, cs, ul, uc, files@.subrange(0, i as int)),
            total_files == supported_count(files@.subrange(0, i as int)),
            matched_files == matches@.len(),
            total_files <= i,
            matched_files <= total_files,
        decreases files.len() - i,
    {
        let ghost pre = files@.subrange(0, i as int);
        let ghost post = files@.subrange(0, i + 1);
        let ghost f = files@[i as int];
        proof {
            assert(post.drop_last() =~= pre);
            assert(post.last() == f);
        }
        let ghost rpre = records_spec(es, cs, ul, uc, pre);
        let ghost mpre = matches_spec(es, cs, ul, uc, pre);
        let ghost recs0 = cache_entries@;
        let ghost mats0 = matches@;
        let supported = is_supported(files[i].file_name.as_str());
        if supported {
            total_files = total_files + 1;
            let (stem, _ext) = split_name(files[i].file_name.as_str());
            let cached = cache.get(files[i].path.as_str());
            let mut handled = false;
            match cached {
                Some(ce) => {
                    if ce.mtime == files[i].mtime {
                        match &ce.species_latin {
                            Some(l) => {
                                match db.lookup_latin(l.as_str()) {
                                    Some(idx) => {
                                        matches.push(
                                            MatchedPhoto {
                                                path: files[i].path.clone(),
                                                file_name: files[i].file_name.clone(),
                                                species_idx: idx,
                                            },
                                        );
                                        matched_files = matched_files + 1;
                                        cache_entries.push(
                                            CacheEntry {
                                                path: files[i].path.clone(),
                                                mtime: files[i].mtime,
                                                species_latin: Some(l.clone()),
                                            },
                                        );
                                        handled = true;
                                    },
                                    None => {},
                                }
                            },
                            None => {
                                cache_entries.push(
                                    CacheEntry {
                                        path: files[i].path.clone(),
                                        mtime: files[i].mtime,
                                        species_latin: None,
                                    },
                                );
                                handled = true;
                            },
                        }
                    }
                },
                None => {},
            }
            if !handled {
                proof {
                    assert(decide(es, cs, ul, uc, f) == fresh_decision(es, ul, uc, f));
                }
                match matcher.match_name(stem.as_str()) {
                    Some(idx) => {
                        proof {
                            crate::matcher::lemma_match_spec_range(
                                es,
                                ul,
                                uc,
                                canon(stem_spec(f.file_name@)),
                            );
                        }
                        matches.push(
                            MatchedPhoto {
                                path: files[i].path.clone(),
                                file_name: files[i].file_name.clone(),
                                species_idx: idx,
                            },
                        );
                        matched_files = matched_files + 1;
                        cache_entries.push(
                            CacheEntry {
                                path: files[i].path.clone(),
                                mtime: files[i].mtime,
                                species_latin: Some(db.entries[idx].latin.clone()),
                            },
                        );
                    },
                    None => {
                        cache_entries.push(
                            CacheEntry {
                                path: files[i].path.clone(),
                                mtime: files[i].mtime,
                                species_latin: None,
                            },
                        );
                    },
                }
            }
            proof {
                assert(records_spec(es, cs, ul, uc, post) =~= rpre.push(
                    record_of(es, cs, ul, uc, f),
                ));
                assert(matches_spec(es, cs, ul, uc, post) =~= mpre + (
                if decide(es, cs, ul, uc, f).0 is Some {
                    seq![(f.path@, f.file_name@, decide(es, cs, ul, uc, f).0->0)]
                } else {
                    Seq::empty()
                }));
                assert(cache_entries@ == recs0.push(cache_entries@.last()));
                assert(cache_entry_view(cache_entries@.last()) == record_of(es, cs, ul, uc, f));
                assert(records_view(cache_entries@) =~= records_spec(es, cs, ul, uc, post)) by {
                    assert forall|k: int|
                        #![trigger records_view(cache_entries@)[k]]
                        0 <= k < cache_entries@.len() implies records_view(cache_entries@)[k]
                        == records_spec(es, cs, ul, uc, post)[k] by {
                        if k < recs0.len() {
                            assert(cache_entries@[k] == recs0[k]);
                            assert(records_view(recs0)[k] == cache_entry_view(recs0[k]));
                        }
                    }
                }
                if decide(es, cs, ul, uc, f).0 is Some {
                    assert(matches@ == mats0.push(matches@.last()));
                    assert(matched_view(matches@.last()) == (
                        f.path@,
                        f.file_name@,
                        decide(es, cs, ul, uc, f).0->0,
                    ));
                } else {
                    assert(matches@ == mats0);
                }
                assert(matches_view(matches@) =~= matches_spec(es, cs, ul, uc, post)) by {
                    assert forall|k: int|
                        #![trigger matches_view(matches@)[k]]
                        0 <= k < matches@.len() implies matches_view(matches@)[k] == matches_spec(
                        es,
                        cs,
                        ul,
                        uc,
                        post,
                    )[k] by {
                        if k < mats0.len() {
                            assert(matches@[k] == mats0[k]);
                            assert(matches_view(mats0)[k] == matched_view(mats0[k]));
                        }
                    }
                }
                assert(supported_count(post) == supported_count(pre) + 1);
            }
        } else {
            proof {
                assert(records_spec(es, cs, ul, uc, post) =~= rpre);
                assert(matches_spec(es, cs, ul, uc, post) =~= mpre);
                assert(supported_count(post) == supported_count(pre));
            }
        }
        i = i + 1;
    }
    proof {
        assert(files@.subrange(0, files@.len() as int) =~= files@);
    }
    let unmatched_files = total_files - matched_files;
    ScanOutput {
        matches,
        cache_entries,
        stats: ScanStats { total_files, matched_files, unmatched_files },
    }
}

/// A resolved decision always names an entry in range.
pub proof fn lemma_decide_range(
    entries: Seq<EntryV>,
    cache: Seq<CacheEntry>,
    use_l: bool,
    use_c: bool,
    f: FileMeta,
)
    ensures
        decide(entries, cache, use_l, use_c, f).0 matches Some(i) ==> 0 <= i < entries.len(),
{
    crate::matcher::lemma_match_spec_range(entries, use_l, use_c, canon(stem_spec(f.file_name@)));
    match index_get(cache, f.path@) {
        Some(ce) => {
            match ce.species_latin {
                Some(l) => {
                    crate::ioc::lemma_latin_lookup_characterizes(entries, lower(l@));
                },
                None => {},
            }
        },
        None => {},
    }
}

/// Every matched photo a scan produces names an entry in range.
pub proof fn lemma_matches_idx_range(
    entries: Seq<EntryV>,
    cache: Seq<CacheEntry>,
    use_l: bool,
    use_c: bool,
    files: Seq<FileMeta>,
)
    ensures
        forall|k: int|
            0 <= k < matches_spec(entries, cache, use_l, use_c, files).len() ==> 0 <= (
            #[trigger] matches_spec(entries, cache, use_l, use_c, files)[k]).2 < entries.len(),
{
    lemma_outputs_only_supported(entries, cache, use_l, use_c, files);
    let mall = matches_spec(entries, cache, use_l, use_c, files);
    assert forall|k: int| 0 <= k < mall.len() implies 0 <= (#[trigger] mall[k]).2
        < entries.len() by {
        assert(match_from_supported(entries, cache, use_l, use_c, files, mall[k]));
        let j = choose|j: int|
            0 <= j < files.len() && is_supported_name(#[trigger] files[j].file_name@) && decide(
                entries,
                cache,
                use_l,
                use_c,
                files[j],
            ).0 is Some && mall[k] == (
                files[j].path@,
                files[j].file_name@,
                decide(entries, cache, use_l, use_c, files[j]).0->0,
            );
        lemma_decide_range(entries, cache, use_l, use_c, files[j]);
    }
}

/// Warm reuse reproduces the cold classification: when the record found
/// for a file stores exactly what a fresh classification of that file
/// would store, and its modification time matches, the decision taken
/// equals the fresh one. Lower-cased latin names must be pairwise
/// distinct: with duplicates the stored name can resolve to a later
/// entry than the fresh match found.
pub proof fn lemma_warm_reuse_matches_fresh(
    entries: Seq<EntryV>,
    cache: Seq<CacheEntry>,
    use_l: bool,
    use_c: bool,
    f: FileMeta,
)
    requires
        forall|a: int, b: int|
            0 <= a < b < entries.len() ==> lower((#[trigger] entries[a]).latin) != lower(
                (#[trigger] entries[b]).latin,
            ),
        index_get(cache, f.path@) matches Some(ce) && ce.mtime == f.mtime && (match ce
            .species_latin {
            Some(l) => Some(l@),
            None => None,
        }) == fresh_decision(entries, use_l, use_c, f).1,
    ensures
        decide(entries, cache, use_l, use_c, f) == fresh_decision(entries, use_l, use_c, f),
{
    let fd = fresh_decision(entries, use_l, use_c, f);
    let ce = index_get(cache, f.path@)->0;
    crate::matcher::lemma_match_spec_range(entries, use_l, use_c, canon(stem_spec(f.file_name@)));
    match ce.species_latin {
        None => {
            assert(fd.1 is None);
            assert(fd == (None::<int>, None::<Seq<char>>));
        },
        Some(l) => {
            assert(fd.1 == Some(l@));
            let i = match_spec(entries, use_l, use_c, canon(stem_spec(f.file_name@)))->0;
            assert(fd == (Some(i), Some(entries[i].latin)));
            assert(l@ == entries[i].latin);
            crate::ioc::lemma_latin_lookup_unique(entries, i, l@);
            assert(latin_lookup(entries, lower(l@)) == Some(i));
        },
    }
}

/// The record a path resolves to in a list of record views: the last
/// one with that path.
pub open spec fn records_get(
    rs: Seq<(Seq<char>, int, Option<Seq<char>>)>,
    path: Seq<char>,
) -> Option<(Seq<char>, int, Option<Seq<char>>)>
    decreases rs.len(),
{
    if rs.len() == 0 {
        None
    } else if rs.last().0 == path {
        Some(rs.last())
    } else {
        records_get(rs.drop_last(), path)
    }
}

/// Looking a path up in a record list is looking it up in its views.
pub proof fn lemma_index_get_views(c: Seq<CacheEntry>, p: Seq<char>)
    ensures
        match index_get(c, p) {
            Some(ce) => records_get(records_view(c), p) == Some(cache_entry_view(ce)),
            None => records_get(records_view(c), p) is None,
        },
    decreases c.len(),
{
    if c.len() > 0 {
        assert(records_view(c).len() == c.len());
        assert(records_view(c).last() == cache_entry_view(c.last()));
        assert(records_view(c.drop_last()) =~= records_view(c).drop_last()) by {
            assert forall|k: int| 0 <= k < c.len() - 1 implies records_view(c.drop_last())[k]
                == records_view(c).drop_last()[k] by {
                assert(c.drop_last()[k] == c[k]);
                assert(records_view(c.drop_last())[k] == cache_entry_view(c.drop_last()[k]));
                assert(records_view(c)[k] == cache_entry_view(c[k]));
            }
        }
        lemma_index_get_views(c.drop_last(), p);
    }
}

/// The same path, file name and modification time decide the same way.
pub proof fn lemma_decide_views(
    entries: Seq<EntryV>,
    cache: Seq<CacheEntry>,
    use_l: bool,
    use_c: bool,
    f1: FileMeta,
    f2: FileMeta,
)
    requires
        f1.path@ == f2.path@,
        f1.file_name@ == f2.file_name@,
        f1.mtime == f2.mtime,
    ensures
        decide(entries, cache, use_l, use_c, f1) == decide(entries, cache, use_l, use_c, f2),
{
    assert(fresh_decision(entries, use_l, use_c, f1) == fresh_decision(entries, use_l, use_c, f2));
}

/// Files that agree on path agree on file name and modification time —
/// what holds of any one walk of a filesystem.
pub open spec fn files_path_consistent(files: Seq<FileMeta>) -> bool {
    forall|i: int, j: int|
        0 <= i < files.len() && 0 <= j < files.len() && (#[trigger] files[i]).path@ == (
        #[trigger] files[j]).path@ ==> files[i].mtime == files[j].mtime && files[i].file_name@
            == files[j].file_name@
}

/// What a scan's record list resolves a scanned file's path to: a
/// record carrying that file's modification time and its own decision.
pub proof fn lemma_records_get_of_scan(
    entries: Seq<EntryV>,
    cache: Seq<CacheEntry>,
    use_l: bool,
    use_c: bool,
    files: Seq<FileMeta>,
    f: FileMeta,
)
    requires
        files_path_consistent(files),
        exists|k: int| 0 <= k < files.len() && files[k] == f,
        is_supported_name(f.file_name@),
    ensures
        records_get(records_spec(entries, cache, use_l, use_c, files), f.path@) matches Some(t)
            && t.0 == f.path@ && t.1 == f.mtime as int && t.2 == decide(
            entries,
            cache,
            use_l,
            use_c,
            f,
        ).1,
    decreases files.len(),
{
    let k = choose|k: int| 0 <= k < files.len() && files[k] == f;
    let pre = files.drop_last();
    let last = files.last();
    let rs = records_spec(entries, cache, use_l, use_c, files);
    let rpre = records_spec(entries, cache, use_l, use_c, pre);
    if is_supported_name(last.file_name@) && last.path@ == f.path@ {
        assert(rs.last() == record_of(entries, cache, use_l, use_c, last));
        assert(last.mtime == f.mtime && last.file_name@ == f.file_name@);
        lemma_decide_views(entries, cache, use_l, use_c, last, f);
        assert(records_get(rs, f.path@) == Some(rs.last()));
    } else {
        if is_supported_name(last.file_name@) {
            assert(rs.last() == record_of(entries, cache, use_l, use_c, last));
            assert(rs.last().0 != f.path@);
            assert(rs.drop_last() =~= rpre);
            assert(records_get(rs, f.path@) == records_get(rpre, f.path@));
        } else {
            assert(rs =~= rpre);
        }
        assert(k < files.len() - 1) by {
            if k == files.len() - 1 {
                assert(files[k] == last);
            }
        }
        assert(pre[k] == f);
        assert(files_path_consistent(pre)) by {
            assert forall|i: int, j: int|
                0 <= i < pre.len() && 0 <= j < pre.len() && (#[trigger] pre[i]).path@ == (
                #[trigger] pre[j]).path@ implies pre[i].mtime == pre[j].mtime && pre[i].file_name@
                == pre[j].file_name@ by {
                assert(pre[i] == files[i]);
                assert(pre[j] == files[j]);
            }
        }
        lemma_records_get_of_scan(entries, cache, use_l, use_c, pre, f);
    }
}

/// A record that stores a file's own decision, at its own modification
/// time, decides the same way again: classifications stabilize after
/// one scan. Lower-cased latin names must be pairwise distinct: with
/// duplicates a freshly matched name can resolve to a later entry on
/// the next scan.
pub proof fn lemma_decide_idempotent(
    entries: Seq<EntryV>,
    cache1: Seq<CacheEntry>,
    cache2: Seq<CacheEntry>,
    use_l: bool,
    use_c: bool,
    f: FileMeta,
)
    requires
        forall|a: int, b: int|
            0 <= a < b < entries.len() ==> lower((#[trigger] entries[a]).latin) != lower(
                (#[trigger] entries[b]).latin,
            ),
        index_get(cache2, f.path@) matches Some(ce) && ce.mtime == f.mtime && (match ce
            .species_latin {
            Some(l) => Some(l@),
            None => None,
        }) == decide(entries, cache1, use_l, use_c, f).1,
    ensures
        decide(entries, cache2, use_l, use_c, f) == decide(entries, cache1, use_l, use_c, f),
{
    let d1 = decide(entries, cache1, use_l, use_c, f);
    let ce = index_get(cache2, f.path@)->0;
    crate::matcher::lemma_match_spec_range(entries, use_l, use_c, canon(stem_spec(f.file_name@)));
    match ce.species_latin {
        None => {
            assert(d1.1 is None);
            assert(d1.0 is None);
            assert(decide(entries, cache2, use_l, use_c, f) == (
                None::<int>,
                None::<Seq<char>>,
            ));
        },
        Some(l) => {
            assert(d1.1 == Some(l@));
            match index_get(cache1, f.path@) {
                Some(ce1) => {
                    if ce1.mtime == f.mtime && ce1.species_latin is Some && latin_lookup(
                        entries,
                        lower(ce1.species_latin->0@),
                    ) is Some {
                        // the first decision was itself a reuse
                        assert(l@ == ce1.species_latin->0@);
                        assert(decide(entries, cache2, use_l, use_c, f) == d1);
                    } else {
                        lemma_fresh_then_resolves(entries, use_l, use_c, f, l@);
                    }
                },
                None => {
                    lemma_fresh_then_resolves(entries, use_l, use_c, f, l@);
                },
            }
        },
    }
}

/// A freshly matched latin name resolves back to the matched entry,
/// under pairwise-distinct lower-cased latin names.
proof fn lemma_fresh_then_resolves(
    entries: Seq<EntryV>,
    use_l: bool,
    use_c: bool,
    f: FileMeta,
    lv: Seq<char>,
)
    requires
        forall|a: int, b: int|
            0 <= a < b < entries.len() ==> lower((#[trigger] entries[a]).latin) != lower(
                (#[trigger] entries[b]).latin,
            ),
        fresh_decision(entries, use_l, use_c, f).1 == Some(lv),
    ensures
        fresh_decision(entries, use_l, use_c, f).0 matches Some(i) && latin_lookup(
            entries,
            lower(lv),
        ) == Some(i),
{
    crate::matcher::lemma_match_spec_range(entries, use_l, use_c, canon(stem_spec(f.file_name@)));
    let i = match_spec(entries, use_l, use_c, canon(stem_spec(f.file_name@)))->0;
    assert(lv == entries[i].latin);
    crate::ioc::lemma_latin_lookup_unique(entries, i, lv);
}

proof fn lemma_rescan_prefix(
    entries: Seq<EntryV>,
    cache1: Seq<CacheEntry>,
    cache2: Seq<CacheEntry>,
    use_l: bool,
    use_c: bool,
    files: Seq<FileMeta>,
    n: int,
)
    requires
        forall|a: int, b: int|
            0 <= a < b < entries.len() ==> lower((#[trigger] entries[a]).latin) != lower(
                (#[trigger] entries[b]).latin,
            ),
        files_path_consistent(files),
        records_view(cache2) == records_spec(entries, cache1, use_l, use_c, files),
        0 <= n <= files.len(),
    ensures
        records_spec(entries, cache2, use_l, use_c, files.subrange(0, n)) == records_spec(
            entries,
            cache1,
            use_l,
            use_c,
            files.subrange(0, n),
        ),
        matches_spec(entries, cache2, use_l, use_c, files.subrange(0, n)) == matches_spec(
            entries,
            cache1,
            use_l,
            use_c,
            files.subrange(0, n),
        ),
    decreases n,
{
    if n == 0 {
        assert(files.subrange(0, 0) =~= Seq::<FileMeta>::empty());
    } else {
        lemma_rescan_prefix(entries, cache1, cache2, use_l, use_c, files, n - 1);
        let sub = files.subrange(0, n);
        let pre = files.subrange(0, n - 1);
        assert(sub.drop_last() =~= pre);
        let f = files[n - 1];
        assert(sub.last() == f);
        if is_supported_name(f.file_name@) {
            assert(exists|k: int| 0 <= k < files.len() && files[k] == f) by {
                assert(files[n - 1] == f);
            }
            lemma_records_get_of_scan(entries, cache1, use_l, use_c, files, f);
            lemma_index_get_views(cache2, f.path@);
            let t = records_get(
                records_spec(entries, cache1, use_l, use_c, files),
                f.path@,
            )->0;
            match index_get(cache2, f.path@) {
                Some(ce) => {
                    assert(cache_entry_view(ce) == t);
                    assert(ce.mtime == f.mtime);
                    assert((match ce.species_latin {
                        Some(l) => Some(l@),
                        None => None,
                    }) == decide(entries, cache1, use_l, use_c, f).1);
                    lemma_decide_idempotent(entries, cache1, cache2, use_l, use_c, f);
                },
                None => {
                    assert(false);
                },
            }
            assert(record_of(entries, cache2, use_l, use_c, f) == record_of(
                entries,
                cache1,
                use_l,
                use_c,
                f,
            ));
        }
    }
}

/// A second scan of unchanged files against the records a first scan
/// wrote reproduces the first scan's records and matches exactly, so
/// the warm pass rebuilds the same statistics and the same tree. Needs
/// pairwise-distinct lower-cased latin names, and files that agree on
/// name and modification time wherever they agree on path — what any
/// single walk of an unchanged filesystem delivers.
pub proof fn lemma_rescan_reproduces(
    entries: Seq<EntryV>,
    cache1: Seq<CacheEntry>,
    cache2: Seq<CacheEntry>,
    use_l: bool,
    use_c: bool,
    files: Seq<FileMeta>,
)
    requires
        forall|a: int, b: int|
            0 <= a < b < entries.len() ==> lower((#[trigger] entries[a]).latin) != lower(
                (#[trigger] entries[b]).latin,
            ),
        files_path_consistent(files),
        records_view(cache2) == records_spec(entries, cache1, use_l, use_c, files),
    ensures
        records_spec(entries, cache2, use_l, use_c, files) == records_spec(
            entries,
            cache1,
            use_l,
            use_c,
            files,
        ),
        matches_spec(entries, cache2, use_l, use_c, files) == matches_spec(
            entries,
            cache1,
            use_l,
            use_c,
            files,
        ),
{
    lemma_rescan_prefix(entries, cache1, cache2, use_l, use_c, files, files.len() as int);
    assert(files.subrange(0, files.len() as int) =~= files);
}

} // verus!
