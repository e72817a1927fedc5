//! Multi-pattern name matching: two automatons over the matching form
//! of the latin and localized names, probed in that fixed precedence, under
//! leftmost-first semantics — the match starting earliest in the text
//! wins, ties going to the earliest-registered pattern.

use vstd::prelude::*;

use crate::strutil::{canon, occurs_at, to_canon, trim, trim_spec};
use crate::types::{entries_view, EntryV, IocEntry};

verus! {

#[verifier::external_type_specification]
#[verifier::external_body]
pub struct ExAhoCorasick(aho_corasick::AhoCorasick);

/// The patterns a built automaton searches for, in registration order.
pub uninterp spec fn ac_patterns(ac: aho_corasick::AhoCorasick) -> Seq<Seq<char>>;

/// Relies on `AhoCorasickBuilder::build` with `MatchKind::LeftmostFirst`:
/// on success the automaton holds exactly the given patterns, in
/// registration order. With the default automatic implementation choice
/// the only fallible step is building the initial automaton, and that
/// fails only when one of its 32-bit identifier spaces would overflow:
/// trie states are bounded by the total pattern bytes, and the
/// suffix-match links filled in behind them by states times the longest
/// pattern's bytes. For twenty thousand patterns of at most forty
/// characters each, both counts stay a comfortable factor below the
/// identifier space, so the build succeeds. A failure beyond such
/// bounds is reported as absence, as callers then skip this automaton.
#[verifier::external_body]
fn ac_build(patterns: &Vec<String>) -> (r: Option<aho_corasick::AhoCorasick>)
    ensures
        r matches Some(ac) ==> ac_patterns(ac) == strs_view(patterns@),
        (patterns@.len() <= 20000 && (forall|i: int|
            0 <= i < patterns@.len() ==> (#[trigger] patterns@[i])@.len() <= 40)) ==> r
            is Some,
{
    aho_corasick::AhoCorasickBuilder::new()
        .match_kind(aho_corasick::MatchKind::LeftmostFirst)
        .build(patterns)
        .ok()
}

/// The views of a list of pattern strings.
pub open spec fn strs_view(v: Seq<String>) -> Seq<Seq<char>> {
    v.map_values(|p: String| p@)
}

/// A list of indices, as mathematical integers.
pub open spec fn usizes_int(v: Seq<usize>) -> Seq<int> {
    v.map_values(|u: usize| u as int)
}

/// Some pattern occurs somewhere in the text.
pub open spec fn pats_occur(pats: Seq<Seq<char>>, hay: Seq<char>) -> bool {
    exists|i: int, pos: int| 0 <= i < pats.len() && occurs_at(hay, pats[i], pos)
}

/// Pattern `i` at position `pos` is the leftmost-first match: no pattern
/// occurs earlier, and none with a smaller index at the same position.
pub open spec fn is_leftmost_first(
    pats: Seq<Seq<char>>,
    hay: Seq<char>,
    i: int,
    pos: int,
) -> bool {
    &&& 0 <= i < pats.len()
    &&& occurs_at(hay, pats[i], pos)
    &&& forall|j: int, q: int|
        0 <= j < pats.len() && occurs_at(hay, pats[j], q) ==> pos < q || (pos == q && i <= j)
}

/// Relies on `AhoCorasick::find` under the leftmost-first match kind, as
/// built above: the reported match is the one starting earliest in the
/// text, ties going to the earliest-registered pattern, and absence
/// means no pattern occurs at all. Positions of whole-character patterns
/// in valid text are character-aligned, so the statement is over
/// characters. Callers register only non-empty patterns, keeping the
/// empty-pattern corner out of this statement.
#[verifier::external_body]
fn ac_find(ac: &aho_corasick::AhoCorasick, hay: &str) -> (r: Option<usize>)
    requires
        forall|i: int| 0 <= i < ac_patterns(*ac).len() ==> ac_patterns(*ac)[i].len() > 0,
    ensures
        match r {
            Some(i) => exists|pos: int| is_leftmost_first(ac_patterns(*ac), hay@, i as int, pos),
            None => !pats_occur(ac_patterns(*ac), hay@),
        },
{
    ac.find(hay).map(|m| m.pattern().as_usize())
}

/// At most one pattern index is the leftmost-first match.
pub proof fn lemma_lmf_unique(
    pats: Seq<Seq<char>>,
    hay: Seq<char>,
    i1: int,
    p1: int,
    i2: int,
    p2: int,
)
    requires
        is_leftmost_first(pats, hay, i1, p1),
        is_leftmost_first(pats, hay, i2, p2),
    ensures
        i1 == i2,
        p1 == p2,
{
}

/// Wherever some pattern occurs, a leftmost-first match exists.
pub proof fn lemma_lmf_exists(pats: Seq<Seq<char>>, hay: Seq<char>)
    requires
        pats_occur(pats, hay),
    ensures
        exists|i: int, pos: int| #[trigger] is_leftmost_first(pats, hay, i, pos),
{
    let (i0, pos0) = choose|i: int, pos: int| 0 <= i < pats.len() && occurs_at(hay, pats[i], pos);
    lemma_lmf_from_witness(pats, hay, i0, pos0);
}

proof fn lemma_lmf_from_witness(pats: Seq<Seq<char>>, hay: Seq<char>, i0: int, pos0: int)
    requires
        0 <= i0 < pats.len(),
        occurs_at(hay, pats[i0], pos0),
    ensures
        exists|i: int, pos: int| #[trigger] is_leftmost_first(pats, hay, i, pos),
    decreases pos0, i0,
{
    if exists|j: int, q: int|
        0 <= j < pats.len() && occurs_at(hay, pats[j], q) && (q < pos0 || (q == pos0 && j < i0)) {
        let (j, q) = choose|j: int, q: int|
            0 <= j < pats.len() && occurs_at(hay, pats[j], q) && (q < pos0 || (q == pos0 && j
                < i0));
        lemma_lmf_from_witness(pats, hay, j, q);
    } else {
        assert(is_leftmost_first(pats, hay, i0, pos0));
    }
}

/// The index of the leftmost-first matching pattern.
pub open spec fn lmf_idx(pats: Seq<Seq<char>>, hay: Seq<char>) -> int {
    (choose|i: int, pos: int| is_leftmost_first(pats, hay, i, pos)).0
}

/// Entry-name sizes under which building both automatons is guaranteed
/// to succeed, comfortably below the search crate's machine limits:
/// room for twenty thousand taxonomy rows whose names stay within
/// forty characters.
pub open spec fn within_build_limits(es: Seq<EntryV>) -> bool {
    &&& es.len() <= 20000
    &&& forall|i: int|
        0 <= i < es.len() ==> ((#[trigger] es[i]).latin.len() <= 40 && es[i].chinese.len()
            <= 40)
}

/// The latin patterns and the entry index each one stands for: the
/// matching form of every entry's trimmed latin name where that is
/// non-empty, in entry order.
pub open spec fn latin_pairs(entries: Seq<EntryV>) -> Seq<(Seq<char>, int)>
    decreases entries.len(),
{
    if entries.len() == 0 {
        Seq::empty()
    } else {
        latin_pairs(entries.drop_last()) + if trim_spec(entries.last().latin).len() > 0 {
            seq![(canon(trim_spec(entries.last().latin)), entries.len() - 1)]
        } else {
            Seq::empty()
        }
    }
}

/// The localized-name patterns, likewise.
pub open spec fn chinese_pairs(entries: Seq<EntryV>) -> Seq<(Seq<char>, int)>
    decreases entries.len(),
{
    if entries.len() == 0 {
        Seq::empty()
    } else {
        chinese_pairs(entries.drop_last()) + if trim_spec(entries.last().chinese).len() > 0 {
            seq![(canon(trim_spec(entries.last().chinese)), entries.len() - 1)]
        } else {
            Seq::empty()
        }
    }
}

/// The patterns of a pair list.
pub open spec fn pair_pats(pairs: Seq<(Seq<char>, int)>) -> Seq<Seq<char>> {
    pairs.map_values(|p: (Seq<char>, int)| p.0)
}

/// The entry indices of a pair list.
pub open spec fn pair_idxs(pairs: Seq<(Seq<char>, int)>) -> Seq<int> {
    pairs.map_values(|p: (Seq<char>, int)| p.1)
}

/// Every registered pattern is non-empty and stands for an entry in
/// range.
pub proof fn lemma_latin_pairs_wf(entries: Seq<EntryV>)
    ensures
        latin_pairs(entries).len() <= entries.len(),
        forall|k: int|
            0 <= k < latin_pairs(entries).len() ==> (#[trigger] latin_pairs(entries)[k]).0.len()
                > 0 && 0 <= latin_pairs(entries)[k].1 < entries.len() && latin_pairs(entries)[k].0
                == canon(trim_spec(entries[latin_pairs(entries)[k].1].latin)),
    decreases entries.len(),
{
    if entries.len() > 0 {
        lemma_latin_pairs_wf(entries.drop_last());
        let prev = latin_pairs(entries.drop_last());
        assert forall|k: int| 0 <= k < latin_pairs(entries).len() implies (
        #[trigger] latin_pairs(entries)[k]).0.len() > 0 && 0 <= latin_pairs(entries)[k].1
            < entries.len() && latin_pairs(entries)[k].0 == canon(
            trim_spec(entries[latin_pairs(entries)[k].1].latin),
        ) by {
            if k < prev.len() {
                assert(latin_pairs(entries)[k] == prev[k]);
                assert(entries.drop_last()[prev[k].1] == entries[prev[k].1]);
            } else {
                assert(trim_spec(entries.last().latin).len() > 0);
            }
        }
    }
}

/// Every registered localized pattern is non-empty and in range.
pub proof fn lemma_chinese_pairs_wf(entries: Seq<EntryV>)
    ensures
        chinese_pairs(entries).len() <= entries.len(),
        forall|k: int|
            0 <= k < chinese_pairs(entries).len() ==> (#[trigger] chinese_pairs(entries)[k]).0.len()
                > 0 && 0 <= chinese_pairs(entries)[k].1 < entries.len() && chinese_pairs(
                entries,
            )[k].0 == canon(trim_spec(entries[chinese_pairs(entries)[k].1].chinese)),
    decreases entries.len(),
{
    if entries.len() > 0 {
        lemma_chinese_pairs_wf(entries.drop_last());
        let prev = chinese_pairs(entries.drop_last());
        assert forall|k: int| 0 <= k < chinese_pairs(entries).len() implies (
        #[trigger] chinese_pairs(entries)[k]).0.len() > 0 && 0 <= chinese_pairs(entries)[k].1
            < entries.len() && chinese_pairs(entries)[k].0 == canon(
            trim_spec(entries[chinese_pairs(entries)[k].1].chinese),
        ) by {
            if k < prev.len() {
                assert(chinese_pairs(entries)[k] == prev[k]);
                assert(entries.drop_last()[prev[k].1] == entries[prev[k].1]);
            } else {
                assert(trim_spec(entries.last().chinese).len() > 0);
            }
        }
    }
}

/// Every entry with a non-empty trimmed latin name has its pattern
/// registered.
pub proof fn lemma_latin_pairs_complete(entries: Seq<EntryV>, i: int)
    requires
        0 <= i < entries.len(),
        trim_spec(entries[i].latin).len() > 0,
    ensures
        exists|k: int|
            0 <= k < latin_pairs(entries).len() && #[trigger] latin_pairs(entries)[k] == (
            canon(trim_spec(entries[i].latin)),
            i,
        ),
    decreases entries.len(),
{
    if i == entries.len() - 1 {
        let lp = latin_pairs(entries);
        assert(lp[lp.len() - 1] == (canon(trim_spec(entries[i].latin)), i));
    } else {
        assert(entries.drop_last()[i] == entries[i]);
        lemma_latin_pairs_complete(entries.drop_last(), i);
        let prev = latin_pairs(entries.drop_last());
        let k = choose|k: int|
            0 <= k < prev.len() && #[trigger] prev[k] == (canon(trim_spec(entries[i].latin)), i);
        assert(latin_pairs(entries)[k] == prev[k]);
    }
}

/// What matching resolves to: the leftmost-first latin hit when the
/// latin automaton is present and hits, else the leftmost-first
/// localized hit under the same rule, else nothing.
pub open spec fn match_spec(
    entries: Seq<EntryV>,
    use_latin: bool,
    use_chinese: bool,
    hay: Seq<char>,
) -> Option<int> {
    let lp = latin_pairs(entries);
    let cp = chinese_pairs(entries);
    if use_latin && pats_occur(pair_pats(lp), hay) {
        Some(lp[lmf_idx(pair_pats(lp), hay)].1)
    } else if use_chinese && pats_occur(pair_pats(cp), hay) {
        Some(cp[lmf_idx(pair_pats(cp), hay)].1)
    } else {
        None
    }
}

/// The matcher: one automaton per name column, with the entry index
/// each pattern stands for.
pub struct NameMatcher {
    pub latin: Option<aho_corasick::AhoCorasick>,
    pub latin_map: Vec<usize>,
    pub chinese: Option<aho_corasick::AhoCorasick>,
    pub chinese_map: Vec<usize>,
    pub entries_view: Ghost<Seq<EntryV>>,
}

impl NameMatcher {
    /// The views of the entries this matcher was built from.
    pub open spec fn entries(&self) -> Seq<EntryV> {
        self.entries_view@
    }

    /// The latin automaton was built and is probed first.
    pub open spec fn has_latin(&self) -> bool {
        self.latin is Some
    }

    /// The localized automaton was built and is probed second.
    pub open spec fn has_chinese(&self) -> bool {
        self.chinese is Some
    }

    /// The automatons and index maps agree with the entries.
    pub open spec fn wf(&self) -> bool {
        &&& usizes_int(self.latin_map@) == pair_idxs(latin_pairs(self.entries()))
        &&& usizes_int(self.chinese_map@) == pair_idxs(chinese_pairs(self.entries()))
        &&& (self.latin matches Some(ac) ==> ac_patterns(ac) == pair_pats(
            latin_pairs(self.entries()),
        ))
        &&& (self.chinese matches Some(ac) ==> ac_patterns(ac) == pair_pats(
            chinese_pairs(self.entries()),
        ))
    }

    /// Builds the matcher: registers the matching form of each entry's
    /// trimmed latin and localized name, skipping empty ones, in entry
    /// order.
    pub fn new(entries: &Vec<IocEntry>) -> (r: NameMatcher)
        ensures
            r.wf(),
            r.entries() == entries_view(entries@),
            latin_pairs(entries_view(entries@)).len() == 0 ==> !r.has_latin(),
            chinese_pairs(entries_view(entries@)).len() == 0 ==> !r.has_chinese(),
            within_build_limits(entries_view(entries@)) ==> ((r.has_latin()
                <==> latin_pairs(entries_view(entries@)).len() > 0) && (r.has_chinese()
                <==> chinese_pairs(entries_view(entries@)).len() > 0)),
    {
        let ghost ev = entries_view(entries@);
        let mut latin_patterns: Vec<String> = Vec::new();
        let mut latin_map: Vec<usize> = Vec::new();
        let mut chinese_patterns: Vec<String> = Vec::new();
        let mut chinese_map: Vec<usize> = Vec::new();
        let mut i: usize = 0;
        while i < entries.len()
            invariant
                i <= entries.len(),
                ev == entries_view(entries@),
                ev.len() == entries@.len(),
                strs_view(latin_patterns@) == pair_pats(latin_pairs(ev.subrange(0, i as int))),
                usizes_int(latin_map@) == pair_idxs(latin_pairs(ev.subrange(0, i as int))),
                strs_view(chinese_patterns@) == pair_pats(
                    chinese_pairs(ev.subrange(0, i as int)),
                ),
                usizes_int(chinese_map@) == pair_idxs(chinese_pairs(ev.subrange(0, i as int))),
            decreases entries.len() - i,
        {
            let ghost pre = ev.subrange(0, i as int);
            let ghost post = ev.subrange(0, i + 1);
            let ghost e = ev[i as int];
            proof {
                assert(post.drop_last() =~= pre);
                assert(post.last() == e);
                assert(e == entries@[i as int]@);
            }
            let ghost lpats0 = latin_patterns@;
            let ghost lmap0 = latin_map@;
            let ghost cpats0 = chinese_patterns@;
            let ghost cmap0 = chinese_map@;
            let lt = trim(entries[i].latin.as_str());
            if lt.as_str().unicode_len() > 0 {
                latin_patterns.push(to_canon(lt.as_str()));
                latin_map.push(i);
            }
            let ct = trim(entries[i].chinese.as_str());
            if ct.as_str().unicode_len() > 0 {
                chinese_patterns.push(to_canon(ct.as_str()));
                chinese_map.push(i);
            }
            proof {
                let lpre = latin_pairs(pre);
                let lpost = latin_pairs(post);
                let cpre = chinese_pairs(pre);
                let cpost = chinese_pairs(post);
                if trim_spec(e.latin).len() > 0 {
                    assert(lpost =~= lpre.push((canon(trim_spec(e.latin)), i as int)));
                } else {
                    assert(lpost =~= lpre);
                }
                if trim_spec(e.chinese).len() > 0 {
                    assert(cpost =~= cpre.push((canon(trim_spec(e.chinese)), i as int)));
                } else {
                    assert(cpost =~= cpre);
                }
                assert(strs_view(latin_patterns@) =~= pair_pats(lpost)) by {
                    assert(strs_view(lpats0).len() == lpats0.len());
                    assert(pair_pats(lpre).len() == lpre.len());
                    assert(pair_pats(lpost).len() == lpost.len());
                    assert(strs_view(latin_patterns@).len() == latin_patterns@.len());
                    assert(latin_patterns@.len() == lpost.len());
                    assert forall|k: int| #![trigger lpost[k]] 0 <= k < latin_patterns@.len() implies strs_view(
                        latin_patterns@,
                    )[k] == pair_pats(lpost)[k] by {
                        if k < lpats0.len() {
                            assert(latin_patterns@[k] == lpats0[k]);
                            assert(strs_view(lpats0)[k] == lpats0[k]@);
                            assert(lpost[k] == lpre[k]);
                        }
                    }
                }
                assert(usizes_int(latin_map@) =~= pair_idxs(lpost)) by {
                    assert(usizes_int(lmap0).len() == lmap0.len());
                    assert(pair_idxs(lpre).len() == lpre.len());
                    assert(pair_idxs(lpost).len() == lpost.len());
                    assert(usizes_int(latin_map@).len() == latin_map@.len());
                    assert(latin_map@.len() == lpost.len());
                    assert forall|k: int| #![trigger lpost[k]] 0 <= k < latin_map@.len() implies usizes_int(
                        latin_map@,
                    )[k] == pair_idxs(lpost)[k] by {
                        if k < lmap0.len() {
                            assert(latin_map@[k] == lmap0[k]);
                            assert(usizes_int(lmap0)[k] == lmap0[k] as int);
                            assert(lpost[k] == lpre[k]);
                        }
                    }
                }
                assert(strs_view(chinese_patterns@) =~= pair_pats(cpost)) by {
                    assert(strs_view(cpats0).len() == cpats0.len());
                    assert(pair_pats(cpre).len() == cpre.len());
                    assert(pair_pats(cpost).len() == cpost.len());
                    assert(strs_view(chinese_patterns@).len() == chinese_patterns@.len());
                    assert(chinese_patterns@.len() == cpost.len());
                    assert forall|k: int| #![trigger cpost[k]] 0 <= k < chinese_patterns@.len() implies strs_view(
                        chinese_patterns@,
                    )[k] == pair_pats(cpost)[k] by {
                        if k < cpats0.len() {
                            assert(chinese_patterns@[k] == cpats0[k]);
                            assert(strs_view(cpats0)[k] == cpats0[k]@);
                            assert(cpost[k] == cpre[k]);
                        }
                    }
                }
                assert(usizes_int(chinese_map@) =~= pair_idxs(cpost)) by {
                    assert(usizes_int(cmap0).len() == cmap0.len());
                    assert(pair_idxs(cpre).len() == cpre.len());
                    assert(pair_idxs(cpost).len() == cpost.len());
                    assert(usizes_int(chinese_map@).len() == chinese_map@.len());
                    assert(chinese_map@.len() == cpost.len());
                    assert forall|k: int| #![trigger cpost[k]] 0 <= k < chinese_map@.len() implies usizes_int(
                        chinese_map@,
                    )[k] == pair_idxs(cpost)[k] by {
                        if k < cmap0.len() {
                            assert(chinese_map@[k] == cmap0[k]);
                            assert(usizes_int(cmap0)[k] == cmap0[k] as int);
                            assert(cpost[k] == cpre[k]);
                        }
                    }
                }
            }
            i = i + 1;
        }
        proof {
            assert(ev.subrange(0, ev.len() as int) =~= ev);
        }
        let latin = if latin_patterns.len() == 0 {
            None
        } else {
            ac_build(&latin_patterns)
        };
        let chinese = if chinese_patterns.len() == 0 {
            None
        } else {
            ac_build(&chinese_patterns)
        };
        proof {
            assert(pair_pats(latin_pairs(ev)) =~= strs_view(latin_patterns@));
            assert(pair_pats(chinese_pairs(ev)) =~= strs_view(chinese_patterns@));
            assert(strs_view(latin_patterns@).len() == latin_patterns@.len());
            assert(strs_view(chinese_patterns@).len() == chinese_patterns@.len());
            assert(pair_pats(latin_pairs(ev)).len() == latin_pairs(ev).len());
            assert(pair_pats(chinese_pairs(ev)).len() == chinese_pairs(ev).len());
            if within_build_limits(ev) {
                lemma_latin_pairs_wf(ev);
                lemma_chinese_pairs_wf(ev);
                assert(latin_patterns@.len() <= 20000);
                assert(chinese_patterns@.len() <= 20000);
                assert forall|k: int| 0 <= k < latin_patterns@.len() implies (
                #[trigger] latin_patterns@[k])@.len() <= 40 by {
                    assert(strs_view(latin_patterns@)[k] == latin_patterns@[k]@);
                    assert(strs_view(latin_patterns@)[k] == pair_pats(latin_pairs(ev))[k]);
                    assert(pair_pats(latin_pairs(ev))[k] == latin_pairs(ev)[k].0);
                    let j = latin_pairs(ev)[k].1;
                    assert(latin_pairs(ev)[k].0 == canon(trim_spec(ev[j].latin)));
                    crate::strutil::lemma_trim_spec_len(ev[j].latin);
                    assert(canon(trim_spec(ev[j].latin)).len() == trim_spec(ev[j].latin).len());
                }
                assert forall|k: int| 0 <= k < chinese_patterns@.len() implies (
                #[trigger] chinese_patterns@[k])@.len() <= 40 by {
                    assert(strs_view(chinese_patterns@)[k] == chinese_patterns@[k]@);
                    assert(strs_view(chinese_patterns@)[k] == pair_pats(chinese_pairs(ev))[k]);
                    assert(pair_pats(chinese_pairs(ev))[k] == chinese_pairs(ev)[k].0);
                    let j = chinese_pairs(ev)[k].1;
                    assert(chinese_pairs(ev)[k].0 == canon(trim_spec(ev[j].chinese)));
                    crate::strutil::lemma_trim_spec_len(ev[j].chinese);
                    assert(canon(trim_spec(ev[j].chinese)).len() == trim_spec(
                        ev[j].chinese,
                    ).len());
                }
            }
        }
        NameMatcher { latin, latin_map, chinese, chinese_map, entries_view: Ghost(ev) }
    }

    /// Matches a candidate string, in matching form, against the latin
    /// automaton first and the localized automaton only when the latin
    /// one does not hit.
    pub fn match_name(&self, file_name: &str) -> (r: Option<usize>)
        requires
            self.wf(),
        ensures
            match r {
                Some(u) => match_spec(
                    self.entries(),
                    self.has_latin(),
                    self.has_chinese(),
                    canon(file_name@),
                ) == Some(u as int),
                None => match_spec(
                    self.entries(),
                    self.has_latin(),
                    self.has_chinese(),
                    canon(file_name@),
                ) is None,
            },
    {
        let name = to_canon(file_name);
        let ghost hay = canon(file_name@);
        let ghost lp = latin_pairs(self.entries());
        let ghost cp = chinese_pairs(self.entries());
        proof {
            lemma_latin_pairs_wf(self.entries());
            lemma_chinese_pairs_wf(self.entries());
        }
        match &self.latin {
            Some(ac) => {
                proof {
                    assert(forall|k: int|
                        0 <= k < pair_pats(lp).len() ==> (#[trigger] pair_pats(lp)[k]).len() > 0)
                }
                match ac_find(ac, name.as_str()) {
                    Some(pi) => {
                        proof {
                            let pos = choose|pos: int|
                                is_leftmost_first(pair_pats(lp), hay, pi as int, pos);
                            lemma_lmf_exists(pair_pats(lp), hay);
                            let ci = lmf_idx(pair_pats(lp), hay);
                            let cpos = choose|p: int|
                                is_leftmost_first(pair_pats(lp), hay, ci, p);
                            lemma_lmf_unique(pair_pats(lp), hay, pi as int, pos, ci, cpos);
                            assert(pair_pats(lp).len() == lp.len());
                            assert(pair_idxs(lp).len() == lp.len());
                            assert(usizes_int(self.latin_map@).len() == self.latin_map@.len());
                            assert(pi < self.latin_map@.len());
                            assert(usizes_int(self.latin_map@)[pi as int] == pair_idxs(lp)[pi as int]);
                        }
                        return Some(self.latin_map[pi]);
                    },
                    None => {
                        proof {
                            assert(!pats_occur(pair_pats(lp), hay));
                        }
                    },
                }
            },
            None => {},
        }
        match &self.chinese {
            Some(ac) => {
                proof {
                    assert(forall|k: int|
                        0 <= k < pair_pats(cp).len() ==> (#[trigger] pair_pats(cp)[k]).len() > 0)
                }
                match ac_find(ac, name.as_str()) {
                    Some(pi) => {
                        proof {
                            let pos = choose|pos: int|
                                is_leftmost_first(pair_pats(cp), hay, pi as int, pos);
                            lemma_lmf_exists(pair_pats(cp), hay);
                            let ci = lmf_idx(pair_pats(cp), hay);
                            let cpos = choose|p: int|
                                is_leftmost_first(pair_pats(cp), hay, ci, p);
                            lemma_lmf_unique(pair_pats(cp), hay, pi as int, pos, ci, cpos);
                            assert(pair_pats(cp).len() == cp.len());
                            assert(pair_idxs(cp).len() == cp.len());
                            assert(usizes_int(self.chinese_map@).len() == self.chinese_map@.len());
                            assert(pi < self.chinese_map@.len());
                            assert(usizes_int(self.chinese_map@)[pi as int] == pair_idxs(cp)[pi as int]);
                        }
                        return Some(self.chinese_map[pi]);
                    },
                    None => {
                        proof {
                            assert(!pats_occur(pair_pats(cp), hay));
                        }
                    },
                }
            },
            None => {},
        }
        None
    }
}

/// A resolved match always names an entry in range.
pub proof fn lemma_match_spec_range(
    entries: Seq<EntryV>,
    use_latin: bool,
    use_chinese: bool,
    hay: Seq<char>,
)
    ensures
        match_spec(entries, use_latin, use_chinese, hay) matches Some(i) ==> 0 <= i
            < entries.len(),
{
    let lp = latin_pairs(entries);
    let cp = chinese_pairs(entries);
    lemma_latin_pairs_wf(entries);
    lemma_chinese_pairs_wf(entries);
    if use_latin && pats_occur(pair_pats(lp), hay) {
        lemma_lmf_exists(pair_pats(lp), hay);
        let ci = lmf_idx(pair_pats(lp), hay);
        assert(pair_pats(lp).len() == lp.len());
        assert(0 <= ci < lp.len());
    } else if use_chinese && pats_occur(pair_pats(cp), hay) {
        lemma_lmf_exists(pair_pats(cp), hay);
        let ci = lmf_idx(pair_pats(cp), hay);
        assert(pair_pats(cp).len() == cp.len());
        assert(0 <= ci < cp.len());
    }
}

/// A candidate string that contains some entry's trimmed latin name in
/// matching form — case-insensitively, underscores read as spaces — is
/// always matched to some entry when the latin automaton is present.
pub proof fn lemma_latin_substring_matches(
    entries: Seq<EntryV>,
    use_chinese: bool,
    i: int,
    stem: Seq<char>,
)
    requires
        0 <= i < entries.len(),
        trim_spec(entries[i].latin).len() > 0,
        crate::strutil::occurs(canon(stem), canon(trim_spec(entries[i].latin))),
    ensures
        latin_pairs(entries).len() > 0,
        match_spec(entries, true, use_chinese, canon(stem)) is Some,
{
    lemma_latin_pairs_complete(entries, i);
    let lp = latin_pairs(entries);
    let k = choose|k: int|
        0 <= k < lp.len() && #[trigger] lp[k] == (canon(trim_spec(entries[i].latin)), i);
    let pos = choose|pos: int| occurs_at(canon(stem), canon(trim_spec(entries[i].latin)), pos);
    assert(pair_pats(lp)[k] == canon(trim_spec(entries[i].latin)));
    assert(occurs_at(canon(stem), pair_pats(lp)[k], pos));
    assert(pats_occur(pair_pats(lp), canon(stem)));
}

} // verus!
