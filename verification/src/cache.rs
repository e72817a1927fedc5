//! Per-file classification cache: a path-keyed index over the records of
//! one snapshot, and the reference-source fingerprint that guards the
//! whole snapshot.

use vstd::prelude::*;

use crate::strutil::{dec_spec, digit_char, u64_to_string};
use crate::types::{CacheEntry, CacheFile};

verus! {

/// The record a path resolves to: the last record with that path, as
/// later records shadow earlier ones.
pub open spec fn index_get(entries: Seq<CacheEntry>, path: Seq<char>) -> Option<CacheEntry>
    decreases entries.len(),
{
    if entries.len() == 0 {
        None
    } else if entries[entries.len() - 1].path@ == path {
        Some(entries[entries.len() - 1])
    } else {
        index_get(entries.drop_last(), path)
    }
}

/// The loaded cache: records of the prior scan, looked up by path.
pub struct CacheIndex {
    pub entries: Vec<CacheEntry>,
}

impl CacheIndex {
    /// The cache with no records.
    pub fn empty() -> (r: CacheIndex)
        ensures
            r.entries@.len() == 0,
    {
        CacheIndex { entries: Vec::new() }
    }

    /// Looks one path up; later records shadow earlier ones with the
    /// same path.
    pub fn get(&self, path: &str) -> (r: Option<&CacheEntry>)
        ensures
            match r {
                Some(e) => index_get(self.entries@, path@) == Some(*e),
                None => index_get(self.entries@, path@) is None,
            },
    {
        let key = path.to_owned();
        let ghost es = self.entries@;
        proof {
            assert(es.subrange(0, es.len() as int) =~= es);
        }
        let mut i: usize = self.entries.len();
        while i > 0
            invariant
                i <= self.entries.len(),
                es == self.entries@,
                key@ == path@,
                index_get(es, path@) == index_get(es.subrange(0, i as int), path@),
            decreases i,
        {
            proof {
                assert(es.subrange(0, i as int).last() == es[i - 1]);
                assert(es.subrange(0, i as int).drop_last() =~= es.subrange(0, i - 1));
            }
            if self.entries[i - 1].path.eq(&key) {
                return Some(&self.entries[i - 1]);
            }
            i = i - 1;
        }
        proof {
            assert(es.subrange(0, 0) =~= Seq::<CacheEntry>::empty());
        }
        None
    }
}

/// Builds the index from a parsed snapshot, when there is one. An absent
/// or unreadable snapshot, and one whose stored fingerprint differs from
/// the current reference fingerprint, degrade to the empty cache.
pub fn load_cache(file: Option<CacheFile>, expected_fingerprint: &str) -> (r: CacheIndex)
    ensures
        match file {
            Some(cf) => {
                if cf.ioc_fingerprint@ == expected_fingerprint@ {
                    r.entries@ == cf.entries@
                } else {
                    r.entries@.len() == 0
                }
            },
            None => r.entries@.len() == 0,
        },
{
    match file {
        Some(cf) => {
            let expected = expected_fingerprint.to_owned();
            if cf.ioc_fingerprint.eq(&expected) {
                CacheIndex { entries: cf.entries }
            } else {
                CacheIndex::empty()
            }
        },
        None => CacheIndex::empty(),
    }
}

/// The snapshot to persist: the given records under the given reference
/// fingerprint, with the format version.
pub fn make_cache_file(fingerprint: &str, entries: Vec<CacheEntry>) -> (r: CacheFile)
    ensures
        r.version == 1,
        r.ioc_fingerprint@ == fingerprint@,
        r.entries@ == entries@,
{
    CacheFile { version: 1, ioc_fingerprint: fingerprint.to_owned(), entries }
}

/// The fingerprint of a reference source with the given byte size and
/// modification time (seconds): a digest string that changes whenever
/// either does.
pub open spec fn fingerprint_spec(size: u64, mtime: u64) -> Seq<char> {
    "{\"mtime\":"@ + dec_spec(mtime as nat) + ",\"size\":"@ + dec_spec(size as nat) + "}"@
}

/// Renders the fingerprint of a reference source from its byte size and
/// modification time.
pub fn fingerprint_string(size: u64, mtime: u64) -> (r: String)
    ensures
        r@ == fingerprint_spec(size, mtime),
{
    let mut s = String::from_str("{\"mtime\":");
    let m = u64_to_string(mtime);
    s.append(m.as_str());
    s.append(",\"size\":");
    let z = u64_to_string(size);
    s.append(z.as_str());
    s.append("}");
    proof {
        assert(s@ =~= fingerprint_spec(size, mtime));
    }
    s
}

/// A decimal digit character.
pub open spec fn is_dec_digit(c: char) -> bool {
    c == '0' || c == '1' || c == '2' || c == '3' || c == '4' || c == '5' || c == '6' || c == '7'
        || c == '8' || c == '9'
}

proof fn lemma_dec_all_digits(n: nat)
    ensures
        dec_spec(n).len() >= 1,
        n >= 10 ==> dec_spec(n).len() >= 2,
        forall|k: int| 0 <= k < dec_spec(n).len() ==> is_dec_digit(#[trigger] dec_spec(n)[k]),
    decreases n,
{
    if n >= 10 {
        lemma_dec_all_digits(n / 10);
        assert(is_dec_digit(digit_char((n % 10) as int)));
    } else {
        assert(is_dec_digit(digit_char(n as int)));
    }
}

proof fn lemma_dec_injective(a: nat, b: nat)
    requires
        dec_spec(a) == dec_spec(b),
    ensures
        a == b,
    decreases a,
{
    lemma_dec_all_digits(a);
    lemma_dec_all_digits(b);
    if a < 10 && b < 10 {
        assert(dec_spec(a)[0] == digit_char(a as int));
        assert(dec_spec(b)[0] == digit_char(b as int));
    } else if a >= 10 && b >= 10 {
        assert(dec_spec(a).last() == digit_char((a % 10) as int));
        assert(dec_spec(b).last() == digit_char((b % 10) as int));
        assert(a % 10 == b % 10);
        assert(dec_spec(a).drop_last() == dec_spec(a / 10));
        assert(dec_spec(b).drop_last() == dec_spec(b / 10));
        lemma_dec_injective(a / 10, b / 10);
    } else {
        assert(dec_spec(a).len() != dec_spec(b).len());
    }
}

/// Distinct size or modification time always gives a distinct
/// fingerprint, so any change to the reference source's size or
/// modification time invalidates every record of a cached snapshot.
pub proof fn lemma_fingerprint_injective(s1: u64, m1: u64, s2: u64, m2: u64)
    requires
        fingerprint_spec(s1, m1) == fingerprint_spec(s2, m2),
    ensures
        s1 == s2,
        m1 == m2,
{
    reveal_strlit("{\"mtime\":");
    reveal_strlit(",\"size\":");
    reveal_strlit("}");
    lemma_dec_all_digits(m1 as nat);
    lemma_dec_all_digits(m2 as nat);
    lemma_dec_all_digits(s1 as nat);
    lemma_dec_all_digits(s2 as nat);
    let p: Seq<char> = "{\"mtime\":"@;
    let q: Seq<char> = ",\"size\":"@;
    let t: Seq<char> = "}"@;
    let a1 = dec_spec(m1 as nat);
    let a2 = dec_spec(m2 as nat);
    let b1 = dec_spec(s1 as nat);
    let b2 = dec_spec(s2 as nat);
    let f1 = fingerprint_spec(s1, m1);
    let f2 = fingerprint_spec(s2, m2);
    let la1 = a1.len() as int;
    let la2 = a2.len() as int;
    let lb1 = b1.len() as int;
    let lb2 = b2.len() as int;
    assert(p.len() == 9);
    assert(q.len() == 8);
    assert(!is_dec_digit(q[0]));
    assert(!is_dec_digit(t[0]));
    // The two mtime digit runs have the same length: a comma would
    // otherwise stand where the longer run still has a digit.
    assert(a1.len() == a2.len()) by {
        if la1 < la2 {
            assert(f1[9 + la1] == q[0]);
            assert(f2[9 + la1] == a2[la1]);
            assert(is_dec_digit(a2[la1]));
        }
        if la2 < la1 {
            assert(f2[9 + la2] == q[0]);
            assert(f1[9 + la2] == a1[la2]);
            assert(is_dec_digit(a1[la2]));
        }
    }
    assert(a1 =~= a2) by {
        assert forall|k: int| 0 <= k < a1.len() implies a1[k] == a2[k] by {
            assert(f1[9 + k] == a1[k]);
            assert(f2[9 + k] == a2[k]);
        }
    }
    lemma_dec_injective(m1 as nat, m2 as nat);
    let off = 9 + la1 + 8;
    assert(b1.len() == b2.len()) by {
        if lb1 < lb2 {
            assert(f1[off + lb1] == t[0]);
            assert(f2[off + lb1] == b2[lb1]);
            assert(is_dec_digit(b2[lb1]));
        }
        if lb2 < lb1 {
            assert(f2[off + lb2] == t[0]);
            assert(f1[off + lb2] == b1[lb2]);
            assert(is_dec_digit(b1[lb2]));
        }
    }
    assert(b1 =~= b2) by {
        assert forall|k: int| 0 <= k < b1.len() implies b1[k] == b2[k] by {
            assert(f1[off + k] == b1[k]);
            assert(f2[off + k] == b2[k]);
        }
    }
    lemma_dec_injective(s1 as nat, s2 as nat);
}

} // verus!
