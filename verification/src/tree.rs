//! Deterministic aggregation of matched photos into the sorted
//! order/family/genus/species hierarchy with rollup counts. The tree is
//! characterized against the multiset of classified photos, so its shape
//! does not depend on the order in which an unordered scan delivered
//! them.

use vstd::prelude::*;
use vstd::multiset::Multiset;

use crate::strutil::{is_space, is_space_exec, lex_le, lex_lt, lex_le_exec, lemma_lex_le_total,
    lemma_lex_le_trans, trim_left, lemma_trim_left_step};
use crate::types::{entries_view, EntryV, IocEntry, MatchedPhoto, PhotoItem, PhotoV, SpeciesNode,
    SpeciesV, GenusNode, GenusV, FamilyNode, FamilyV, OrderNode, OrderV, TaxonTree, photos_view,
    species_list_view, genera_view, families_view, orders_view};

verus! {

broadcast use vstd::multiset::group_multiset_axioms, vstd::seq_lib::to_multiset_build,
    vstd::seq_lib::to_multiset_insert, vstd::seq_lib::to_multiset_remove,
    vstd::seq_lib::to_multiset_len, vstd::seq_lib::group_to_multiset_ensures;

/// The leading run of non-whitespace characters.
pub open spec fn take_token(s: Seq<char>) -> Seq<char>
    decreases s.len(),
{
    if s.len() > 0 && !is_space(s[0]) {
        seq![s[0]] + take_token(s.drop_first())
    } else {
        Seq::empty()
    }
}

/// The genus a latin name belongs to: its first whitespace-delimited
/// token, or a fixed placeholder when there is none.
pub open spec fn genus_spec(latin: Seq<char>) -> Seq<char> {
    let t = take_token(trim_left(latin));
    if t.len() == 0 {
        "Unknown"@
    } else {
        t
    }
}

proof fn lemma_take_token_range(s: Seq<char>, b: int)
    requires
        0 <= b <= s.len(),
        forall|k: int| 0 <= k < b ==> !is_space(s[k]),
        b == s.len() || is_space(s[b]),
    ensures
        take_token(s) =~= s.subrange(0, b),
    decreases s.len(),
{
    if b == 0 {
    } else {
        let t = s.drop_first();
        assert(forall|k: int| 0 <= k < b - 1 ==> !is_space(#[trigger] t[k]));
        assert(b - 1 == t.len() || is_space(t[b - 1]));
        lemma_take_token_range(t, b - 1);
        assert(take_token(s) == seq![s[0]] + take_token(t));
        assert(t.subrange(0, b - 1) =~= s.subrange(1, b));
        assert(seq![s[0]] + s.subrange(1, b) =~= s.subrange(0, b));
    }
}

/// Extracts the genus from a latin name.
pub fn genus_name(latin: &str) -> (r: String)
    ensures
        r@ == genus_spec(latin@),
{
    let n = latin.unicode_len();
    let ghost lv = latin@;
    let mut a: usize = 0;
    while a < n && is_space_exec(latin.get_char(a))
        invariant
            a <= n,
            n == lv.len(),
            lv == latin@,
            forall|k: int| 0 <= k < a ==> is_space(lv[k]),
        decreases n - a,
    {
        a = a + 1;
    }
    if a == n {
        proof {
            if n > 0 {
                lemma_trim_left_step(lv, n - 1);
            }
            assert(trim_left(lv) =~= Seq::<char>::empty());
            assert(take_token(trim_left(lv)).len() == 0);
        }
        return String::from_str("Unknown");
    }
    proof {
        lemma_trim_left_step(lv, a as int);
        assert(trim_left(lv) =~= lv.subrange(a as int, n as int));
    }
    let mut b: usize = a;
    while b < n && !is_space_exec(latin.get_char(b))
        invariant
            a <= b <= n,
            n == lv.len(),
            lv == latin@,
            forall|k: int| a <= k < b ==> !is_space(lv[k]),
        decreases n - b,
    {
        b = b + 1;
    }
    proof {
        let t = lv.subrange(a as int, n as int);
        assert(forall|k: int| 0 <= k < b - a ==> !is_space(#[trigger] t[k]));
        assert(b - a == t.len() || is_space(t[b - a]));
        lemma_take_token_range(t, b - a);
        assert(t.subrange(0, b - a) =~= lv.subrange(a as int, b as int));
        assert(!is_space(lv[a as int]));
        assert(b > a);
        assert(take_token(trim_left(lv)) =~= lv.subrange(a as int, b as int));
        assert(take_token(trim_left(lv)).len() > 0);
    }
    latin.substring_char(a, b).to_owned()
}

/// The canonical view of one classified photo: the taxonomic key it
/// files under and the photo itself.
#[verifier::ext_equal]
pub ghost struct MV {
    pub order: Seq<char>,
    pub family: Seq<char>,
    pub genus: Seq<char>,
    pub latin: Seq<char>,
    pub path: Seq<char>,
    pub name: Seq<char>,
}

/// The canonical view of one matched photo.
pub open spec fn mv_of(entries: Seq<EntryV>, m: MatchedPhoto) -> MV {
    MV {
        order: entries[m.species_idx as int].order,
        family: entries[m.species_idx as int].family,
        genus: genus_spec(entries[m.species_idx as int].latin),
        latin: entries[m.species_idx as int].latin,
        path: m.path@,
        name: m.file_name@,
    }
}

/// The canonical views of a list of matched photos.
pub open spec fn match_mvs(entries: Seq<EntryV>, ms: Seq<MatchedPhoto>) -> Seq<MV> {
    ms.map_values(|m: MatchedPhoto| mv_of(entries, m))
}

/// The content of a scan: the multiset of classified photos, order
/// forgotten.
pub open spec fn contents(entries: Seq<EntryV>, ms: Seq<MatchedPhoto>) -> Multiset<MV> {
    match_mvs(entries, ms).to_multiset()
}

/// The order photos stand in inside one species: by file name, ties by
/// path.
pub open spec fn photo_le(a: PhotoV, b: PhotoV) -> bool {
    lex_lt(a.name, b.name) || (a.name == b.name && lex_le(a.path, b.path))
}

/// `photo_le` holds in at least one direction, and in both only for
/// equal photos.
pub proof fn lemma_photo_le_total(a: PhotoV, b: PhotoV)
    ensures
        photo_le(a, b) || photo_le(b, a),
        photo_le(a, b) && photo_le(b, a) ==> a == b,
{
    lemma_lex_le_total(a.name, b.name);
    lemma_lex_le_total(a.path, b.path);
    if photo_le(a, b) && photo_le(b, a) {
        assert(a =~= b);
    }
}

/// `photo_le` is transitive.
pub proof fn lemma_photo_le_trans(a: PhotoV, b: PhotoV, c: PhotoV)
    requires
        photo_le(a, b),
        photo_le(b, c),
    ensures
        photo_le(a, c),
{
    lemma_lex_le_total(a.name, b.name);
    lemma_lex_le_total(b.name, c.name);
    lemma_lex_le_total(a.name, c.name);
    lemma_lex_le_trans(a.name, b.name, c.name);
    if a.name == b.name && b.name == c.name {
        lemma_lex_le_trans(a.path, b.path, c.path);
    } else if lex_lt(a.name, b.name) && lex_lt(b.name, c.name) {
        if a.name == c.name {
            lemma_lex_le_trans(b.name, c.name, a.name);
            assert(lex_le(b.name, a.name));
            assert(a.name =~= b.name);
        }
    } else if lex_lt(a.name, b.name) && b.name == c.name {
        if a.name == c.name {
            assert(a.name =~= b.name);
        }
    } else {
        if a.name == c.name {
            lemma_lex_le_trans(c.name, a.name, b.name);
            assert(lex_le(c.name, b.name));
            assert(b.name =~= c.name);
        }
    }
}

/// Strict lexicographic order is transitive.
pub proof fn lemma_lex_lt_trans(a: Seq<char>, b: Seq<char>, c: Seq<char>)
    requires
        lex_lt(a, b),
        lex_lt(b, c),
    ensures
        lex_lt(a, c),
{
    lemma_lex_le_trans(a, b, c);
    if a == c {
        lemma_lex_le_total(a, b);
        assert(a =~= b);
    }
}

/// Compares two strings strictly.
pub fn str_lt_exec(a: &str, b: &str) -> (r: bool)
    ensures
        r == lex_lt(a@, b@),
{
    let ab = lex_le_exec(a, b);
    let ba = lex_le_exec(b, a);
    proof {
        lemma_lex_le_total(a@, b@);
    }
    ab && !ba
}

/// Compares two photos in the order they stand in inside a species.
pub fn photo_le_exec(a: &PhotoItem, b: &PhotoItem) -> (r: bool)
    ensures
        r == photo_le(a@, b@),
{
    let nab = lex_le_exec(a.file_name.as_str(), b.file_name.as_str());
    let nba = lex_le_exec(b.file_name.as_str(), a.file_name.as_str());
    proof {
        lemma_lex_le_total(a.file_name@, b.file_name@);
    }
    if nab && nba {
        lex_le_exec(a.path.as_str(), b.path.as_str())
    } else {
        nab
    }
}

/// Some classified photo files under this order.
pub open spec fn order_present(m: Multiset<MV>, o: Seq<char>) -> bool {
    exists|x: MV| #[trigger] m.count(x) > 0 && x.order == o
}

/// Some classified photo files under this family.
pub open spec fn family_present(m: Multiset<MV>, o: Seq<char>, f: Seq<char>) -> bool {
    exists|x: MV| #[trigger] m.count(x) > 0 && x.order == o && x.family == f
}

/// Some classified photo files under this genus.
pub open spec fn genus_present(m: Multiset<MV>, o: Seq<char>, f: Seq<char>, g: Seq<char>) -> bool {
    exists|x: MV| #[trigger] m.count(x) > 0 && x.order == o && x.family == f && x.genus == g
}

/// Some classified photo files under this species.
pub open spec fn species_present(
    m: Multiset<MV>,
    o: Seq<char>,
    f: Seq<char>,
    g: Seq<char>,
    l: Seq<char>,
) -> bool {
    exists|x: MV|
        #[trigger] m.count(x) > 0 && x.order == o && x.family == f && x.genus == g && x.latin == l
}

/// How adding one classified photo changes what is present.
pub proof fn lemma_presence_insert(m: Multiset<MV>, x0: MV)
    ensures
        forall|o: Seq<char>|
            #[trigger] order_present(m.insert(x0), o) <==> (order_present(m, o) || x0.order == o),
        forall|o: Seq<char>, f: Seq<char>|
            #[trigger] family_present(m.insert(x0), o, f) <==> (family_present(m, o, f) || (
            x0.order == o && x0.family == f)),
        forall|o: Seq<char>, f: Seq<char>, g: Seq<char>|
            #[trigger] genus_present(m.insert(x0), o, f, g) <==> (genus_present(m, o, f, g) || (
            x0.order == o && x0.family == f && x0.genus == g)),
        forall|o: Seq<char>, f: Seq<char>, g: Seq<char>, l: Seq<char>|
            #[trigger] species_present(m.insert(x0), o, f, g, l) <==> (species_present(
                m,
                o,
                f,
                g,
                l,
            ) || (x0.order == o && x0.family == f && x0.genus == g && x0.latin == l)),
{
    assert forall|o: Seq<char>| #[trigger]
        order_present(m.insert(x0), o) <==> (order_present(m, o) || x0.order == o) by {
        if order_present(m.insert(x0), o) {
            let x = choose|x: MV| #[trigger] m.insert(x0).count(x) > 0 && x.order == o;
            if x != x0 {
                assert(m.count(x) > 0 && x.order == o);
            }
        }
        if order_present(m, o) {
            let x = choose|x: MV| #[trigger] m.count(x) > 0 && x.order == o;
            assert(m.insert(x0).count(x) > 0 && x.order == o);
        }
        if x0.order == o {
            assert(m.insert(x0).count(x0) > 0 && x0.order == o);
        }
    }
    assert forall|o: Seq<char>, f: Seq<char>| #[trigger]
        family_present(m.insert(x0), o, f) <==> (family_present(m, o, f) || (x0.order == o
            && x0.family == f)) by {
        if family_present(m.insert(x0), o, f) {
            let x = choose|x: MV|
                #[trigger] m.insert(x0).count(x) > 0 && x.order == o && x.family == f;
            if x != x0 {
                assert(m.count(x) > 0 && x.order == o && x.family == f);
            }
        }
        if family_present(m, o, f) {
            let x = choose|x: MV| #[trigger] m.count(x) > 0 && x.order == o && x.family == f;
            assert(m.insert(x0).count(x) > 0 && x.order == o && x.family == f);
        }
        if x0.order == o && x0.family == f {
            assert(m.insert(x0).count(x0) > 0);
        }
    }
    assert forall|o: Seq<char>, f: Seq<char>, g: Seq<char>| #[trigger]
        genus_present(m.insert(x0), o, f, g) <==> (genus_present(m, o, f, g) || (x0.order == o
            && x0.family == f && x0.genus == g)) by {
        if genus_present(m.insert(x0), o, f, g) {
            let x = choose|x: MV|
                #[trigger] m.insert(x0).count(x) > 0 && x.order == o && x.family == f && x.genus
                    == g;
            if x != x0 {
                assert(m.count(x) > 0 && x.order == o && x.family == f && x.genus == g);
            }
        }
        if genus_present(m, o, f, g) {
            let x = choose|x: MV|
                #[trigger] m.count(x) > 0 && x.order == o && x.family == f && x.genus == g;
            assert(m.insert(x0).count(x) > 0 && x.order == o && x.family == f && x.genus == g);
        }
        if x0.order == o && x0.family == f && x0.genus == g {
            assert(m.insert(x0).count(x0) > 0);
        }
    }
    assert forall|o: Seq<char>, f: Seq<char>, g: Seq<char>, l: Seq<char>| #[trigger]
        species_present(m.insert(x0), o, f, g, l) <==> (species_present(m, o, f, g, l) || (
        x0.order == o && x0.family == f && x0.genus == g && x0.latin == l)) by {
        if species_present(m.insert(x0), o, f, g, l) {
            let x = choose|x: MV|
                #[trigger] m.insert(x0).count(x) > 0 && x.order == o && x.family == f && x.genus
                    == g && x.latin == l;
            if x != x0 {
                assert(m.count(x) > 0 && x.order == o && x.family == f && x.genus == g && x.latin
                    == l);
            }
        }
        if species_present(m, o, f, g, l) {
            let x = choose|x: MV|
                #[trigger] m.count(x) > 0 && x.order == o && x.family == f && x.genus == g
                    && x.latin == l;
            assert(m.insert(x0).count(x) > 0 && x.order == o && x.family == f && x.genus == g
                && x.latin == l);
        }
        if x0.order == o && x0.family == f && x0.genus == g && x0.latin == l {
            assert(m.insert(x0).count(x0) > 0);
        }
    }
}

/// How many classified photos with this key are this very photo.
pub open spec fn key_photo_count(
    m: Multiset<MV>,
    o: Seq<char>,
    f: Seq<char>,
    g: Seq<char>,
    l: Seq<char>,
    p: PhotoV,
) -> nat {
    m.count(MV { order: o, family: f, genus: g, latin: l, path: p.path, name: p.name })
}

/// The localized name carried by the first entry with this order,
/// family and latin name.
pub open spec fn chinese_of(entries: Seq<EntryV>, o: Seq<char>, f: Seq<char>, l: Seq<char>) -> Seq<
    char,
>
    decreases entries.len(),
{
    if entries.len() == 0 {
        Seq::empty()
    } else if entries[0].order == o && entries[0].family == f && entries[0].latin == l {
        entries[0].chinese
    } else {
        chinese_of(entries.drop_first(), o, f, l)
    }
}

/// Finds the localized name of the first entry that carries the same
/// order, family and latin name as the given entry.
fn find_first_chinese(entries: &Vec<IocEntry>, key: &IocEntry) -> (r: String)
    requires
        exists|j: int|
            0 <= j < entries@.len() && (#[trigger] entries_view(entries@)[j]).order == key@.order
                && entries_view(entries@)[j].family == key@.family && entries_view(
                entries@,
            )[j].latin == key@.latin,
    ensures
        r@ == chinese_of(entries_view(entries@), key@.order, key@.family, key@.latin),
{
    let ghost ev = entries_view(entries@);
    let mut i: usize = 0;
    proof {
        assert(ev.skip(0) =~= ev);
    }
    while i < entries.len()
        invariant
            i <= entries.len(),
            ev == entries_view(entries@),
            ev.len() == entries@.len(),
            chinese_of(ev, key@.order, key@.family, key@.latin) == chinese_of(
                ev.skip(i as int),
                key@.order,
                key@.family,
                key@.latin,
            ),
            exists|j: int|
                i <= j < ev.len() && (#[trigger] ev[j]).order == key@.order && ev[j].family
                    == key@.family && ev[j].latin == key@.latin,
        decreases entries.len() - i,
    {
        proof {
            assert(ev[i as int] == entries@[i as int]@);
            assert(ev.skip(i as int)[0] == ev[i as int]);
            assert(ev.skip(i as int).drop_first() =~= ev.skip(i + 1));
        }
        if entries[i].order.eq(&key.order) && entries[i].family.eq(&key.family)
            && entries[i].latin.eq(&key.latin) {
            return entries[i].chinese.clone();
        }
        proof {
            let j = choose|j: int|
                i <= j < ev.len() && (#[trigger] ev[j]).order == key@.order && ev[j].family
                    == key@.family && ev[j].latin == key@.latin;
            assert(j != i);
            assert(i + 1 <= j < ev.len());
        }
        i = i + 1;
    }
    proof {
        assert(false);
    }
    String::new()
}

/// The photos beneath a list of species.
pub open spec fn sum_species(s: Seq<SpeciesV>) -> int
    decreases s.len(),
{
    if s.len() == 0 {
        0
    } else {
        sum_species(s.drop_last()) + s.last().count
    }
}

/// The photos beneath a list of genera.
pub open spec fn sum_genera(s: Seq<GenusV>) -> int
    decreases s.len(),
{
    if s.len() == 0 {
        0
    } else {
        sum_genera(s.drop_last()) + s.last().count
    }
}

/// The photos beneath a list of families.
pub open spec fn sum_families(s: Seq<FamilyV>) -> int
    decreases s.len(),
{
    if s.len() == 0 {
        0
    } else {
        sum_families(s.drop_last()) + s.last().count
    }
}

/// The photos beneath a list of orders.
pub open spec fn sum_orders(s: Seq<OrderV>) -> int
    decreases s.len(),
{
    if s.len() == 0 {
        0
    } else {
        sum_orders(s.drop_last()) + s.last().count
    }
}

/// A species with this latin name stands in the list.
pub open spec fn species_in(s: Seq<SpeciesV>, l: Seq<char>) -> bool {
    exists|i: int| 0 <= i < s.len() && (#[trigger] s[i]).latin == l
}

/// A genus with this name stands in the list.
pub open spec fn genus_in(s: Seq<GenusV>, g: Seq<char>) -> bool {
    exists|i: int| 0 <= i < s.len() && (#[trigger] s[i]).name == g
}

/// A family with this name stands in the list.
pub open spec fn family_in(s: Seq<FamilyV>, f: Seq<char>) -> bool {
    exists|i: int| 0 <= i < s.len() && (#[trigger] s[i]).name == f
}

/// An order with this name stands in the list.
pub open spec fn order_in(s: Seq<OrderV>, o: Seq<char>) -> bool {
    exists|i: int| 0 <= i < s.len() && (#[trigger] s[i]).name == o
}

/// A species node is correct for its place: its photos are exactly the
/// classified photos with its key, sorted; its count is their number;
/// its localized name is the one its first matching entry carries.
pub open spec fn species_ok(
    entries: Seq<EntryV>,
    m: Multiset<MV>,
    o: Seq<char>,
    f: Seq<char>,
    g: Seq<char>,
    sv: SpeciesV,
) -> bool {
    &&& sv.count == sv.photos.len()
    &&& sv.photos.len() > 0
    &&& forall|i: int, j: int|
        0 <= i < j < sv.photos.len() ==> photo_le(#[trigger] sv.photos[i], #[trigger] sv.photos[j])
    &&& forall|p: PhotoV| #[trigger]
        sv.photos.to_multiset().count(p) == key_photo_count(m, o, f, g, sv.latin, p)
    &&& g == genus_spec(sv.latin)
    &&& sv.chinese == chinese_of(entries, o, f, sv.latin)
}

/// A genus node is correct: species strictly sorted by latin name,
/// exactly the species present beneath this genus, each correct, the
/// count their sum.
pub open spec fn genus_ok(
    entries: Seq<EntryV>,
    m: Multiset<MV>,
    o: Seq<char>,
    f: Seq<char>,
    gv: GenusV,
) -> bool {
    &&& gv.count == sum_species(gv.species)
    &&& forall|i: int, j: int|
        0 <= i < j < gv.species.len() ==> lex_lt(
            (#[trigger] gv.species[i]).latin,
            (#[trigger] gv.species[j]).latin,
        )
    &&& forall|i: int|
        0 <= i < gv.species.len() ==> species_ok(entries, m, o, f, gv.name, #[trigger] gv.species[i])
    &&& forall|l: Seq<char>| #[trigger]
        species_present(m, o, f, gv.name, l) <==> species_in(gv.species, l)
}

/// A family node is correct, one level up.
pub open spec fn family_ok(
    entries: Seq<EntryV>,
    m: Multiset<MV>,
    o: Seq<char>,
    fv: FamilyV,
) -> bool {
    &&& fv.count == sum_genera(fv.genera)
    &&& forall|i: int, j: int|
        0 <= i < j < fv.genera.len() ==> lex_lt(
            (#[trigger] fv.genera[i]).name,
            (#[trigger] fv.genera[j]).name,
        )
    &&& forall|i: int|
        0 <= i < fv.genera.len() ==> genus_ok(entries, m, o, fv.name, #[trigger] fv.genera[i])
    &&& forall|g: Seq<char>| #[trigger] genus_present(m, o, fv.name, g) <==> genus_in(fv.genera, g)
}

/// An order node is correct, one level up.
pub open spec fn order_ok(entries: Seq<EntryV>, m: Multiset<MV>, ov: OrderV) -> bool {
    &&& ov.count == sum_families(ov.families)
    &&& forall|i: int, j: int|
        0 <= i < j < ov.families.len() ==> lex_lt(
            (#[trigger] ov.families[i]).name,
            (#[trigger] ov.families[j]).name,
        )
    &&& forall|i: int|
        0 <= i < ov.families.len() ==> family_ok(entries, m, ov.name, #[trigger] ov.families[i])
    &&& forall|f: Seq<char>| #[trigger] family_present(m, ov.name, f) <==> family_in(ov.families, f)
}

/// The whole tree is correct for a content multiset: orders strictly
/// sorted, exactly those present, each correct.
pub open spec fn tree_ok(entries: Seq<EntryV>, m: Multiset<MV>, t: Seq<OrderV>) -> bool {
    &&& forall|i: int, j: int|
        0 <= i < j < t.len() ==> lex_lt((#[trigger] t[i]).name, (#[trigger] t[j]).name)
    &&& forall|i: int| 0 <= i < t.len() ==> order_ok(entries, m, #[trigger] t[i])
    &&& forall|o: Seq<char>| #[trigger] order_present(m, o) <==> order_in(t, o)
}

/// Adding a photo with another species key leaves a species node
/// correct.
pub proof fn lemma_species_ok_frame(
    entries: Seq<EntryV>,
    m: Multiset<MV>,
    x0: MV,
    o: Seq<char>,
    f: Seq<char>,
    g: Seq<char>,
    sv: SpeciesV,
)
    requires
        species_ok(entries, m, o, f, g, sv),
        !(x0.order == o && x0.family == f && x0.genus == g && x0.latin == sv.latin),
    ensures
        species_ok(entries, m.insert(x0), o, f, g, sv),
{
    assert forall|p: PhotoV| #[trigger]
        sv.photos.to_multiset().count(p) == key_photo_count(m.insert(x0), o, f, g, sv.latin, p) by {
        let y = MV { order: o, family: f, genus: g, latin: sv.latin, path: p.path, name: p.name };
        assert(y != x0);
        assert(m.insert(x0).count(y) == m.count(y));
    }
}

/// Adding a photo with another genus key leaves a genus node correct.
pub proof fn lemma_genus_ok_frame(
    entries: Seq<EntryV>,
    m: Multiset<MV>,
    x0: MV,
    o: Seq<char>,
    f: Seq<char>,
    gv: GenusV,
)
    requires
        genus_ok(entries, m, o, f, gv),
        !(x0.order == o && x0.family == f && x0.genus == gv.name),
    ensures
        genus_ok(entries, m.insert(x0), o, f, gv),
{
    lemma_presence_insert(m, x0);
    assert forall|i: int| 0 <= i < gv.species.len() implies species_ok(
        entries,
        m.insert(x0),
        o,
        f,
        gv.name,
        #[trigger] gv.species[i],
    ) by {
        lemma_species_ok_frame(entries, m, x0, o, f, gv.name, gv.species[i]);
    }
}

/// Adding a photo with another family key leaves a family node correct.
pub proof fn lemma_family_ok_frame(
    entries: Seq<EntryV>,
    m: Multiset<MV>,
    x0: MV,
    o: Seq<char>,
    fv: FamilyV,
)
    requires
        family_ok(entries, m, o, fv),
        !(x0.order == o && x0.family == fv.name),
    ensures
        family_ok(entries, m.insert(x0), o, fv),
{
    lemma_presence_insert(m, x0);
    assert forall|i: int| 0 <= i < fv.genera.len() implies genus_ok(
        entries,
        m.insert(x0),
        o,
        fv.name,
        #[trigger] fv.genera[i],
    ) by {
        lemma_genus_ok_frame(entries, m, x0, o, fv.name, fv.genera[i]);
    }
}

/// Adding a photo with another order leaves an order node correct.
pub proof fn lemma_order_ok_frame(entries: Seq<EntryV>, m: Multiset<MV>, x0: MV, ov: OrderV)
    requires
        order_ok(entries, m, ov),
        x0.order != ov.name,
    ensures
        order_ok(entries, m.insert(x0), ov),
{
    lemma_presence_insert(m, x0);
    assert forall|i: int| 0 <= i < ov.families.len() implies family_ok(
        entries,
        m.insert(x0),
        ov.name,
        #[trigger] ov.families[i],
    ) by {
        lemma_family_ok_frame(entries, m, x0, ov.name, ov.families[i]);
    }
}

/// Inserting a species adds its count to the sum.
pub proof fn lemma_sum_species_insert(s: Seq<SpeciesV>, q: int, x: SpeciesV)
    requires
        0 <= q <= s.len(),
    ensures
        sum_species(s.insert(q, x)) == sum_species(s) + x.count,
    decreases s.len(),
{
    s.insert_ensures(q, x);
    let s2 = s.insert(q, x);
    if q == s.len() {
        assert(s2.drop_last() =~= s);
        assert(s2.last() == x);
    } else {
        assert(s2.drop_last() =~= s.drop_last().insert(q, x));
        assert(s2.last() == s.last());
        lemma_sum_species_insert(s.drop_last(), q, x);
    }
}

/// Replacing a species adjusts the sum by the difference of counts.
pub proof fn lemma_sum_species_update(s: Seq<SpeciesV>, q: int, x: SpeciesV)
    requires
        0 <= q < s.len(),
    ensures
        sum_species(s.update(q, x)) == sum_species(s) - s[q].count + x.count,
    decreases s.len(),
{
    let s2 = s.update(q, x);
    if q == s.len() - 1 {
        assert(s2.drop_last() =~= s.drop_last());
        assert(s2.last() == x);
    } else {
        assert(s2.drop_last() =~= s.drop_last().update(q, x));
        assert(s2.last() == s.last());
        lemma_sum_species_update(s.drop_last(), q, x);
    }
}

/// With non-negative counts, the sum bounds each one.
pub proof fn lemma_sum_species_bounds(s: Seq<SpeciesV>)
    requires
        forall|i: int| 0 <= i < s.len() ==> (#[trigger] s[i]).count >= 0,
    ensures
        sum_species(s) >= 0,
        forall|i: int| 0 <= i < s.len() ==> (#[trigger] s[i]).count <= sum_species(s),
    decreases s.len(),
{
    if s.len() > 0 {
        let pre = s.drop_last();
        assert(forall|i: int| 0 <= i < pre.len() ==> #[trigger] pre[i] == s[i]);
        lemma_sum_species_bounds(pre);
        assert forall|i: int| 0 <= i < s.len() implies (#[trigger] s[i]).count <= sum_species(
            s,
        ) by {
            if i < s.len() - 1 {
                assert(s[i] == pre[i]);
            }
        }
    }
}

/// Inserting a genus adds its count to the sum.
pub proof fn lemma_sum_genera_insert(s: Seq<GenusV>, q: int, x: GenusV)
    requires
        0 <= q <= s.len(),
    ensures
        sum_genera(s.insert(q, x)) == sum_genera(s) + x.count,
    decreases s.len(),
{
    s.insert_ensures(q, x);
    let s2 = s.insert(q, x);
    if q == s.len() {
        assert(s2.drop_last() =~= s);
        assert(s2.last() == x);
    } else {
        assert(s2.drop_last() =~= s.drop_last().insert(q, x));
        assert(s2.last() == s.last());
        lemma_sum_genera_insert(s.drop_last(), q, x);
    }
}

/// Replacing a genus adjusts the sum by the difference of counts.
pub proof fn lemma_sum_genera_update(s: Seq<GenusV>, q: int, x: GenusV)
    requires
        0 <= q < s.len(),
    ensures
        sum_genera(s.update(q, x)) == sum_genera(s) - s[q].count + x.count,
    decreases s.len(),
{
    let s2 = s.update(q, x);
    if q == s.len() - 1 {
        assert(s2.drop_last() =~= s.drop_last());
        assert(s2.last() == x);
    } else {
        assert(s2.drop_last() =~= s.drop_last().update(q, x));
        assert(s2.last() == s.last());
        lemma_sum_genera_update(s.drop_last(), q, x);
    }
}

/// With non-negative counts, the sum bounds each one.
pub proof fn lemma_sum_genera_bounds(s: Seq<GenusV>)
    requires
        forall|i: int| 0 <= i < s.len() ==> (#[trigger] s[i]).count >= 0,
    ensures
        sum_genera(s) >= 0,
        forall|i: int| 0 <= i < s.len() ==> (#[trigger] s[i]).count <= sum_genera(s),
    decreases s.len(),
{
    if s.len() > 0 {
        let pre = s.drop_last();
        assert(forall|i: int| 0 <= i < pre.len() ==> #[trigger] pre[i] == s[i]);
        lemma_sum_genera_bounds(pre);
        assert forall|i: int| 0 <= i < s.len() implies (#[trigger] s[i]).count <= sum_genera(
            s,
        ) by {
            if i < s.len() - 1 {
                assert(s[i] == pre[i]);
            }
        }
    }
}

/// Inserting a family adds its count to the sum.
pub proof fn lemma_sum_families_insert(s: Seq<FamilyV>, q: int, x: FamilyV)
    requires
        0 <= q <= s.len(),
    ensures
        sum_families(s.insert(q, x)) == sum_families(s) + x.count,
    decreases s.len(),
{
    s.insert_ensures(q, x);
    let s2 = s.insert(q, x);
    if q == s.len() {
        assert(s2.drop_last() =~= s);
        assert(s2.last() == x);
    } else {
        assert(s2.drop_last() =~= s.drop_last().insert(q, x));
        assert(s2.last() == s.last());
        lemma_sum_families_insert(s.drop_last(), q, x);
    }
}

/// Replacing a family adjusts the sum by the difference of counts.
pub proof fn lemma_sum_families_update(s: Seq<FamilyV>, q: int, x: FamilyV)
    requires
        0 <= q < s.len(),
    ensures
        sum_families(s.update(q, x)) == sum_families(s) - s[q].count + x.count,
    decreases s.len(),
{
    let s2 = s.update(q, x);
    if q == s.len() - 1 {
        assert(s2.drop_last() =~= s.drop_last());
        assert(s2.last() == x);
    } else {
        assert(s2.drop_last() =~= s.drop_last().update(q, x));
        assert(s2.last() == s.last());
        lemma_sum_families_update(s.drop_last(), q, x);
    }
}

/// With non-negative counts, the sum bounds each one.
pub proof fn lemma_sum_families_bounds(s: Seq<FamilyV>)
    requires
        forall|i: int| 0 <= i < s.len() ==> (#[trigger] s[i]).count >= 0,
    ensures
        sum_families(s) >= 0,
        forall|i: int| 0 <= i < s.len() ==> (#[trigger] s[i]).count <= sum_families(s),
    decreases s.len(),
{
    if s.len() > 0 {
        let pre = s.drop_last();
        assert(forall|i: int| 0 <= i < pre.len() ==> #[trigger] pre[i] == s[i]);
        lemma_sum_families_bounds(pre);
        assert forall|i: int| 0 <= i < s.len() implies (#[trigger] s[i]).count <= sum_families(
            s,
        ) by {
            if i < s.len() - 1 {
                assert(s[i] == pre[i]);
            }
        }
    }
}

/// Inserting an order adds its count to the sum.
pub proof fn lemma_sum_orders_insert(s: Seq<OrderV>, q: int, x: OrderV)
    requires
        0 <= q <= s.len(),
    ensures
        sum_orders(s.insert(q, x)) == sum_orders(s) + x.count,
    decreases s.len(),
{
    s.insert_ensures(q, x);
    let s2 = s.insert(q, x);
    if q == s.len() {
        assert(s2.drop_last() =~= s);
        assert(s2.last() == x);
    } else {
        assert(s2.drop_last() =~= s.drop_last().insert(q, x));
        assert(s2.last() == s.last());
        lemma_sum_orders_insert(s.drop_last(), q, x);
    }
}

/// Replacing an order adjusts the sum by the difference of counts.
pub proof fn lemma_sum_orders_update(s: Seq<OrderV>, q: int, x: OrderV)
    requires
        0 <= q < s.len(),
    ensures
        sum_orders(s.update(q, x)) == sum_orders(s) - s[q].count + x.count,
    decreases s.len(),
{
    let s2 = s.update(q, x);
    if q == s.len() - 1 {
        assert(s2.drop_last() =~= s.drop_last());
        assert(s2.last() == x);
    } else {
        assert(s2.drop_last() =~= s.drop_last().update(q, x));
        assert(s2.last() == s.last());
        lemma_sum_orders_update(s.drop_last(), q, x);
    }
}

/// With non-negative counts, the sum bounds each one.
pub proof fn lemma_sum_orders_bounds(s: Seq<OrderV>)
    requires
        forall|i: int| 0 <= i < s.len() ==> (#[trigger] s[i]).count >= 0,
    ensures
        sum_orders(s) >= 0,
        forall|i: int| 0 <= i < s.len() ==> (#[trigger] s[i]).count <= sum_orders(s),
    decreases s.len(),
{
    if s.len() > 0 {
        let pre = s.drop_last();
        assert(forall|i: int| 0 <= i < pre.len() ==> #[trigger] pre[i] == s[i]);
        lemma_sum_orders_bounds(pre);
        assert forall|i: int| 0 <= i < s.len() implies (#[trigger] s[i]).count <= sum_orders(
            s,
        ) by {
            if i < s.len() - 1 {
                assert(s[i] == pre[i]);
            }
        }
    }
}

/// A correct species node has a non-negative count.
pub proof fn lemma_species_count_nonneg(
    entries: Seq<EntryV>,
    m: Multiset<MV>,
    o: Seq<char>,
    f: Seq<char>,
    g: Seq<char>,
    sv: SpeciesV,
)
    requires
        species_ok(entries, m, o, f, g, sv),
    ensures
        sv.count >= 0,
{
}

/// A correct genus node has a non-negative count.
pub proof fn lemma_genus_count_nonneg(
    entries: Seq<EntryV>,
    m: Multiset<MV>,
    o: Seq<char>,
    f: Seq<char>,
    gv: GenusV,
)
    requires
        genus_ok(entries, m, o, f, gv),
    ensures
        gv.count >= 0,
{
    assert forall|i: int| 0 <= i < gv.species.len() implies (#[trigger] gv.species[i]).count
        >= 0 by {
        lemma_species_count_nonneg(entries, m, o, f, gv.name, gv.species[i]);
    }
    lemma_sum_species_bounds(gv.species);
}

/// A correct family node has a non-negative count.
pub proof fn lemma_family_count_nonneg(
    entries: Seq<EntryV>,
    m: Multiset<MV>,
    o: Seq<char>,
    fv: FamilyV,
)
    requires
        family_ok(entries, m, o, fv),
    ensures
        fv.count >= 0,
{
    assert forall|i: int| 0 <= i < fv.genera.len() implies (#[trigger] fv.genera[i]).count >= 0 by {
        lemma_genus_count_nonneg(entries, m, o, fv.name, fv.genera[i]);
    }
    lemma_sum_genera_bounds(fv.genera);
}

/// A correct order node has a non-negative count.
pub proof fn lemma_order_count_nonneg(entries: Seq<EntryV>, m: Multiset<MV>, ov: OrderV)
    requires
        order_ok(entries, m, ov),
    ensures
        ov.count >= 0,
{
    assert forall|i: int| 0 <= i < ov.families.len() implies (#[trigger] ov.families[i]).count
        >= 0 by {
        lemma_family_count_nonneg(entries, m, ov.name, ov.families[i]);
    }
    lemma_sum_families_bounds(ov.families);
}

/// Removing then inserting at one position is an update.
pub proof fn lemma_remove_insert_update<A>(s: Seq<A>, q: int, x: A)
    requires
        0 <= q < s.len(),
    ensures
        s.remove(q).insert(q, x) =~= s.update(q, x),
{
    s.remove_ensures(q);
    s.remove(q).insert_ensures(q, x);
}

/// Views commute with inserting a photo.
pub proof fn lemma_photos_view_insert(v: Seq<PhotoItem>, q: int, x: PhotoItem)
    requires
        0 <= q <= v.len(),
    ensures
        photos_view(v.insert(q, x)) =~= photos_view(v).insert(q, x@),
{
    v.insert_ensures(q, x);
    photos_view(v).insert_ensures(q, x@);
    let a = v.insert(q, x);
    let b = photos_view(v).insert(q, x@);
    assert forall|k: int| #![trigger a[k]] 0 <= k < a.len() implies photos_view(a)[k] == b[k] by {
        if k < q {
            assert(a[k] == v[k]);
            assert(b[k] == photos_view(v)[k]);
        } else if k == q {
            assert(a[k] == x);
            assert(b[k] == x@);
        } else {
            assert(a[k] == v[k - 1]);
            assert(b[k] == photos_view(v)[k - 1]);
        }
    }
}

/// Views commute with inserting a species node.
pub proof fn lemma_species_view_insert(v: Seq<SpeciesNode>, q: int, x: SpeciesNode)
    requires
        0 <= q <= v.len(),
    ensures
        species_list_view(v.insert(q, x)) =~= species_list_view(v).insert(q, x@),
{
    v.insert_ensures(q, x);
    species_list_view(v).insert_ensures(q, x@);
    let a = v.insert(q, x);
    let b = species_list_view(v).insert(q, x@);
    assert forall|k: int| #![trigger a[k]] 0 <= k < a.len() implies species_list_view(a)[k]
        == b[k] by {
        if k < q {
            assert(a[k] == v[k]);
            assert(b[k] == species_list_view(v)[k]);
        } else if k == q {
            assert(a[k] == x);
            assert(b[k] == x@);
        } else {
            assert(a[k] == v[k - 1]);
            assert(b[k] == species_list_view(v)[k - 1]);
        }
    }
}

/// Views commute with removing a species node.
pub proof fn lemma_species_view_remove(v: Seq<SpeciesNode>, q: int)
    requires
        0 <= q < v.len(),
    ensures
        species_list_view(v.remove(q)) =~= species_list_view(v).remove(q),
{
    v.remove_ensures(q);
    species_list_view(v).remove_ensures(q);
    let a = v.remove(q);
    let b = species_list_view(v).remove(q);
    assert forall|k: int| #![trigger a[k]] 0 <= k < a.len() implies species_list_view(a)[k]
        == b[k] by {
        if k < q {
            assert(a[k] == v[k]);
            assert(b[k] == species_list_view(v)[k]);
        } else {
            assert(a[k] == v[k + 1]);
            assert(b[k] == species_list_view(v)[k + 1]);
        }
    }
}

/// Views commute with inserting a genus node.
pub proof fn lemma_genera_view_insert(v: Seq<GenusNode>, q: int, x: GenusNode)
    requires
        0 <= q <= v.len(),
    ensures
        genera_view(v.insert(q, x)) =~= genera_view(v).insert(q, x@),
{
    v.insert_ensures(q, x);
    genera_view(v).insert_ensures(q, x@);
    let a = v.insert(q, x);
    let b = genera_view(v).insert(q, x@);
    assert forall|k: int| #![trigger a[k]] 0 <= k < a.len() implies genera_view(a)[k] == b[k] by {
        if k < q {
            assert(a[k] == v[k]);
            assert(b[k] == genera_view(v)[k]);
        } else if k == q {
            assert(a[k] == x);
            assert(b[k] == x@);
        } else {
            assert(a[k] == v[k - 1]);
            assert(b[k] == genera_view(v)[k - 1]);
        }
    }
}

/// Views commute with removing a genus node.
pub proof fn lemma_genera_view_remove(v: Seq<GenusNode>, q: int)
    requires
        0 <= q < v.len(),
    ensures
        genera_view(v.remove(q)) =~= genera_view(v).remove(q),
{
    v.remove_ensures(q);
    genera_view(v).remove_ensures(q);
    let a = v.remove(q);
    let b = genera_view(v).remove(q);
    assert forall|k: int| #![trigger a[k]] 0 <= k < a.len() implies genera_view(a)[k] == b[k] by {
        if k < q {
            assert(a[k] == v[k]);
            assert(b[k] == genera_view(v)[k]);
        } else {
            assert(a[k] == v[k + 1]);
            assert(b[k] == genera_view(v)[k + 1]);
        }
    }
}

/// Views commute with inserting a family node.
pub proof fn lemma_families_view_insert(v: Seq<FamilyNode>, q: int, x: FamilyNode)
    requires
        0 <= q <= v.len(),
    ensures
        families_view(v.insert(q, x)) =~= families_view(v).insert(q, x@),
{
    v.insert_ensures(q, x);
    families_view(v).insert_ensures(q, x@);
    let a = v.insert(q, x);
    let b = families_view(v).insert(q, x@);
    assert forall|k: int| #![trigger a[k]] 0 <= k < a.len() implies families_view(a)[k] == b[k] by {
        if k < q {
            assert(a[k] == v[k]);
            assert(b[k] == families_view(v)[k]);
        } else if k == q {
            assert(a[k] == x);
            assert(b[k] == x@);
        } else {
            assert(a[k] == v[k - 1]);
            assert(b[k] == families_view(v)[k - 1]);
        }
    }
}

/// Views commute with removing a family node.
pub proof fn lemma_families_view_remove(v: Seq<FamilyNode>, q: int)
    requires
        0 <= q < v.len(),
    ensures
        families_view(v.remove(q)) =~= families_view(v).remove(q),
{
    v.remove_ensures(q);
    families_view(v).remove_ensures(q);
    let a = v.remove(q);
    let b = families_view(v).remove(q);
    assert forall|k: int| #![trigger a[k]] 0 <= k < a.len() implies families_view(a)[k] == b[k] by {
        if k < q {
            assert(a[k] == v[k]);
            assert(b[k] == families_view(v)[k]);
        } else {
            assert(a[k] == v[k + 1]);
            assert(b[k] == families_view(v)[k + 1]);
        }
    }
}

/// Views commute with inserting an order node.
pub proof fn lemma_orders_view_insert(v: Seq<OrderNode>, q: int, x: OrderNode)
    requires
        0 <= q <= v.len(),
    ensures
        orders_view(v.insert(q, x)) =~= orders_view(v).insert(q, x@),
{
    v.insert_ensures(q, x);
    orders_view(v).insert_ensures(q, x@);
    let a = v.insert(q, x);
    let b = orders_view(v).insert(q, x@);
    assert forall|k: int| #![trigger a[k]] 0 <= k < a.len() implies orders_view(a)[k] == b[k] by {
        if k < q {
            assert(a[k] == v[k]);
            assert(b[k] == orders_view(v)[k]);
        } else if k == q {
            assert(a[k] == x);
            assert(b[k] == x@);
        } else {
            assert(a[k] == v[k - 1]);
            assert(b[k] == orders_view(v)[k - 1]);
        }
    }
}

/// Views commute with removing an order node.
pub proof fn lemma_orders_view_remove(v: Seq<OrderNode>, q: int)
    requires
        0 <= q < v.len(),
    ensures
        orders_view(v.remove(q)) =~= orders_view(v).remove(q),
{
    v.remove_ensures(q);
    orders_view(v).remove_ensures(q);
    let a = v.remove(q);
    let b = orders_view(v).remove(q);
    assert forall|k: int| #![trigger a[k]] 0 <= k < a.len() implies orders_view(a)[k] == b[k] by {
        if k < q {
            assert(a[k] == v[k]);
            assert(b[k] == orders_view(v)[k]);
        } else {
            assert(a[k] == v[k + 1]);
            assert(b[k] == orders_view(v)[k + 1]);
        }
    }
}

/// Builds the species node for the first photo of a species beneath its
/// key.
fn new_species(entries: &Vec<IocEntry>, m: &MatchedPhoto, Ghost(mset): Ghost<Multiset<MV>>) -> (r:
    SpeciesNode)
    requires
        (m.species_idx as int) < entries@.len(),
        ({
            let x0 = mv_of(entries_view(entries@), *m);
            !species_present(mset, x0.order, x0.family, x0.genus, x0.latin)
        }),
    ensures
        ({
            let es = entries_view(entries@);
            let x0 = mv_of(es, *m);
            &&& species_ok(es, mset.insert(x0), x0.order, x0.family, x0.genus, r@)
            &&& r@.latin == x0.latin
            &&& r.count == 1
        }),
{
    let ghost es = entries_view(entries@);
    let ghost x0 = mv_of(es, *m);
    let e = &entries[m.species_idx];
    proof {
        assert(es[m.species_idx as int] == entries@[m.species_idx as int]@);
    }
    let chinese = find_first_chinese(entries, e);
    let photo = PhotoItem { path: m.path.clone(), file_name: m.file_name.clone() };
    let mut photos: Vec<PhotoItem> = Vec::new();
    photos.push(photo);
    let node = SpeciesNode { latin: e.latin.clone(), chinese, count: 1, photos };
    proof {
        let pv = photos_view(node.photos@);
        assert(pv =~= Seq::<PhotoV>::empty().push(x0_photo(x0)));
        assert(Seq::<PhotoV>::empty().to_multiset() =~= Multiset::<PhotoV>::empty()) by {
            assert(forall|p: PhotoV| !Seq::<PhotoV>::empty().contains(p));
        }
        assert(pv.to_multiset() =~= Multiset::<PhotoV>::empty().insert(x0_photo(x0)));
        assert forall|p: PhotoV| #[trigger]
            node@.photos.to_multiset().count(p) == key_photo_count(
            mset.insert(x0),
            x0.order,
            x0.family,
            x0.genus,
            node@.latin,
            p,
        ) by {
            let y = MV {
                order: x0.order,
                family: x0.family,
                genus: x0.genus,
                latin: node@.latin,
                path: p.path,
                name: p.name,
            };
            if mset.count(y) > 0 {
                assert(species_present(mset, x0.order, x0.family, x0.genus, x0.latin));
            }
            assert(mset.count(y) == 0);
            if p == x0_photo(x0) {
                assert(y =~= x0);
                assert(mset.insert(x0).count(y) == 1);
            } else {
                assert(y != x0);
                assert(mset.insert(x0).count(y) == 0);
            }
        }
    }
    node
}

/// The photo a classified-photo view carries.
pub open spec fn x0_photo(x: MV) -> PhotoV {
    PhotoV { path: x.path, name: x.name }
}

/// Adds one more photo of an already-present species into its node, at
/// its sorted position.
fn add_to_species(
    node: SpeciesNode,
    entries: &Vec<IocEntry>,
    m: &MatchedPhoto,
    Ghost(mset): Ghost<Multiset<MV>>,
) -> (r: SpeciesNode)
    requires
        (m.species_idx as int) < entries@.len(),
        ({
            let es = entries_view(entries@);
            let x0 = mv_of(es, *m);
            &&& species_ok(es, mset, x0.order, x0.family, x0.genus, node@)
            &&& node@.latin == x0.latin
        }),
    ensures
        ({
            let es = entries_view(entries@);
            let x0 = mv_of(es, *m);
            &&& species_ok(es, mset.insert(x0), x0.order, x0.family, x0.genus, r@)
            &&& r@.latin == node@.latin
            &&& r@.count == node@.count + 1
        }),
{
    let ghost es = entries_view(entries@);
    let ghost x0 = mv_of(es, *m);
    let ghost pv0 = photos_view(node.photos@);
    let photo = PhotoItem { path: m.path.clone(), file_name: m.file_name.clone() };
    proof {
        assert(photo@ == x0_photo(x0));
    }
    let mut q: usize = 0;
    let mut photos = node.photos;
    while q < photos.len() && photo_le_exec(&photos[q], &photo)
        invariant
            q <= photos.len(),
            pv0 == photos_view(photos@),
            photo@ == x0_photo(x0),
            forall|k: int| 0 <= k < q ==> photo_le(#[trigger] pv0[k], photo@),
        decreases photos.len() - q,
    {
        proof {
            assert(pv0[q as int] == photos@[q as int]@);
        }
        q = q + 1;
    }
    proof {
        assert(q < pv0.len() ==> pv0[q as int] == photos@[q as int]@);
    }
    photos.insert(q, photo);
    let count = photos.len();
    let r = SpeciesNode { latin: node.latin, chinese: node.chinese, count, photos };
    proof {
        lemma_photos_view_insert(node.photos@, q as int, photo);
        let pv = photos_view(r.photos@);
        assert(pv == pv0.insert(q as int, photo@));
        pv0.insert_ensures(q as int, photo@);
        // sortedness around the insertion point
        assert forall|i: int, j: int| 0 <= i < j < pv.len() implies photo_le(
            #[trigger] pv[i],
            #[trigger] pv[j],
        ) by {
            lemma_photo_le_total(pv0[q as int], photo@);
            if i < q && j < q {
                assert(pv[i] == pv0[i]);
                assert(pv[j] == pv0[j]);
            } else if i < q && j == q {
                assert(pv[i] == pv0[i]);
            } else if i < q && j > q {
                assert(pv[i] == pv0[i]);
                assert(pv[j] == pv0[j - 1]);
            } else if i == q && j > q {
                assert(pv[j] == pv0[j - 1]);
                if (q as int) < pv0.len() {
                    assert(!photo_le(pv0[q as int], photo@));
                    assert(photo_le(photo@, pv0[q as int]));
                    if j - 1 > q {
                        assert(photo_le(pv0[q as int], pv0[j - 1]));
                        lemma_photo_le_trans(photo@, pv0[q as int], pv0[j - 1]);
                    }
                }
            } else {
                assert(pv[i] == pv0[i - 1]);
                assert(pv[j] == pv0[j - 1]);
            }
        }
        // photo multiset gains exactly the new photo
        assert(r.photos@ == node.photos@.insert(q as int, photo));
        assert(pv.to_multiset() =~= pv0.to_multiset().insert(photo@));
        assert forall|p: PhotoV| #[trigger]
            r@.photos.to_multiset().count(p) == key_photo_count(
            mset.insert(x0),
            x0.order,
            x0.family,
            x0.genus,
            r@.latin,
            p,
        ) by {
            let y = MV {
                order: x0.order,
                family: x0.family,
                genus: x0.genus,
                latin: r@.latin,
                path: p.path,
                name: p.name,
            };
            assert(pv0.to_multiset().count(p) == key_photo_count(
                mset,
                x0.order,
                x0.family,
                x0.genus,
                node@.latin,
                p,
            ));
            if p == photo@ {
                assert(y =~= x0);
                assert(mset.insert(x0).count(y) == mset.count(y) + 1);
            } else {
                assert(y != x0);
                assert(mset.insert(x0).count(y) == mset.count(y));
            }
        }
    }
    r
}

/// Builds the genus node for the first photo beneath its genus.
fn new_genus(entries: &Vec<IocEntry>, m: &MatchedPhoto, Ghost(mset): Ghost<Multiset<MV>>) -> (r:
    GenusNode)
    requires
        (m.species_idx as int) < entries@.len(),
        ({
            let x0 = mv_of(entries_view(entries@), *m);
            !genus_present(mset, x0.order, x0.family, x0.genus)
        }),
    ensures
        ({
            let es = entries_view(entries@);
            let x0 = mv_of(es, *m);
            &&& genus_ok(es, mset.insert(x0), x0.order, x0.family, r@)
            &&& r@.name == x0.genus
            &&& r.count == 1
        }),
{
    let ghost es = entries_view(entries@);
    let ghost x0 = mv_of(es, *m);
    proof {
        if species_present(mset, x0.order, x0.family, x0.genus, x0.latin) {
            let x = choose|x: MV|
                #[trigger] mset.count(x) > 0 && x.order == x0.order && x.family == x0.family
                    && x.genus == x0.genus && x.latin == x0.latin;
            assert(genus_present(mset, x0.order, x0.family, x0.genus));
        }
        assert(es[m.species_idx as int] == entries@[m.species_idx as int]@);
    }
    let sp = new_species(entries, m, Ghost(mset));
    let name = genus_name(entries[m.species_idx].latin.as_str());
    let mut species: Vec<SpeciesNode> = Vec::new();
    species.push(sp);
    let node = GenusNode { name, count: 1, species };
    proof {
        lemma_presence_insert(mset, x0);
        let sv = species_list_view(node.species@);
        assert(sv =~= Seq::<SpeciesV>::empty().push(sp@));
        assert(sum_species(sv) == sp@.count) by {
            assert(sv.len() == 1);
            assert(sv.last() == sp@);
            assert(sv.drop_last() =~= Seq::<SpeciesV>::empty());
            assert(sum_species(sv.drop_last()) == 0);
        }
        assert forall|l: Seq<char>| #[trigger]
            species_present(mset.insert(x0), x0.order, x0.family, node@.name, l) <==> species_in(
            sv,
            l,
        ) by {
            if species_present(mset, x0.order, x0.family, x0.genus, l) {
                let x = choose|x: MV|
                    #[trigger] mset.count(x) > 0 && x.order == x0.order && x.family == x0.family
                        && x.genus == x0.genus && x.latin == l;
                assert(genus_present(mset, x0.order, x0.family, x0.genus));
            }
            if species_in(sv, l) {
                assert(l == x0.latin);
            }
            if l == x0.latin {
                assert(sv[0].latin == l);
            }
        }
    }
    node
}

/// Adds a photo into an existing genus node: into its species when
/// already present, at the species' sorted position otherwise.
#[verifier::rlimit(100)]
fn add_to_genus(
    node: GenusNode,
    entries: &Vec<IocEntry>,
    m: &MatchedPhoto,
    Ghost(mset): Ghost<Multiset<MV>>,
) -> (r: GenusNode)
    requires
        (m.species_idx as int) < entries@.len(),
        node.count < usize::MAX,
        ({
            let es = entries_view(entries@);
            let x0 = mv_of(es, *m);
            &&& genus_ok(es, mset, x0.order, x0.family, node@)
            &&& node@.name == x0.genus
        }),
    ensures
        ({
            let es = entries_view(entries@);
            let x0 = mv_of(es, *m);
            &&& genus_ok(es, mset.insert(x0), x0.order, x0.family, r@)
            &&& r@.name == node@.name
            &&& r@.count == node@.count + 1
        }),
{
    let ghost es = entries_view(entries@);
    let ghost x0 = mv_of(es, *m);
    let ghost sv0 = species_list_view(node.species@);
    let e = &entries[m.species_idx];
    proof {
        assert(es[m.species_idx as int] == entries@[m.species_idx as int]@);
    }
    let mut q: usize = 0;
    let mut species = node.species;
    while q < species.len() && str_lt_exec(species[q].latin.as_str(), e.latin.as_str())
        invariant
            q <= species.len(),
            sv0 == species_list_view(species@),
            e@.latin == x0.latin,
            forall|k: int| 0 <= k < q ==> lex_lt((#[trigger] sv0[k]).latin, x0.latin),
        decreases species.len() - q,
    {
        proof {
            assert(sv0[q as int] == species@[q as int]@);
        }
        q = q + 1;
    }
    proof {
        assert(q < sv0.len() ==> sv0[q as int] == species@[q as int]@);
    }
    let ghost mset2 = mset.insert(x0);
    let hit = q < species.len() && species[q].latin.eq(&e.latin);
    let r;
    if hit {
        let child = species.remove(q);
        let child2 = add_to_species(child, entries, m, Ghost(mset));
        species.insert(q, child2);
        let count = node.count + 1;
        r = GenusNode { name: node.name, count, species };
        proof {
            lemma_species_view_remove(node.species@, q as int);
            lemma_species_view_insert(node.species@.remove(q as int), q as int, child2);
            lemma_remove_insert_update(sv0, q as int, child2@);
            let sv = species_list_view(r.species@);
            assert(sv == sv0.update(q as int, child2@));
            lemma_sum_species_update(sv0, q as int, child2@);
            lemma_presence_insert(mset, x0);
            assert forall|i: int, j: int| 0 <= i < j < sv.len() implies lex_lt(
                (#[trigger] sv[i]).latin,
                (#[trigger] sv[j]).latin,
            ) by {
                assert(sv[i].latin == sv0[i].latin);
                assert(sv[j].latin == sv0[j].latin);
            }
            assert forall|i: int| 0 <= i < sv.len() implies species_ok(
                es,
                mset2,
                x0.order,
                x0.family,
                r@.name,
                #[trigger] sv[i],
            ) by {
                if i == q {
                } else {
                    assert(sv[i] == sv0[i]);
                    if i < q {
                        assert(lex_lt(sv0[i].latin, sv0[q as int].latin));
                    } else {
                        assert(lex_lt(sv0[q as int].latin, sv0[i].latin));
                    }
                    assert(sv0[i].latin != x0.latin);
                    lemma_species_ok_frame(es, mset, x0, x0.order, x0.family, r@.name, sv0[i]);
                }
            }
            assert forall|l: Seq<char>| #[trigger]
                species_present(mset2, x0.order, x0.family, r@.name, l) <==> species_in(sv, l) by {
                if l == x0.latin {
                    assert(sv[q as int].latin == l);
                } else {
                    assert forall|i: int| 0 <= i < sv.len() implies (#[trigger] sv[i]).latin
                        == sv0[i].latin by {}
                    if species_in(sv, l) {
                        let i = choose|i: int| 0 <= i < sv.len() && (#[trigger] sv[i]).latin == l;
                        assert(sv0[i].latin == l);
                    }
                    if species_in(sv0, l) {
                        let i = choose|i: int| 0 <= i < sv0.len() && (#[trigger] sv0[i]).latin == l;
                        assert(sv[i].latin == l);
                    }
                }
            }
        }
    } else {
        proof {
            lemma_presence_insert(mset, x0);
            // the species is new beneath this genus
            assert forall|i: int| 0 <= i < sv0.len() implies (#[trigger] sv0[i]).latin
                != x0.latin by {
                lemma_lex_le_total(sv0[i].latin, x0.latin);
                if i >= q {
                    assert(!lex_lt(sv0[q as int].latin, x0.latin));
                    if q < sv0.len() {
                        assert(sv0[q as int].latin != x0.latin);
                        assert(lex_lt(x0.latin, sv0[q as int].latin)) by {
                            lemma_lex_le_total(sv0[q as int].latin, x0.latin);
                        }
                        if i > q {
                            lemma_lex_lt_trans(x0.latin, sv0[q as int].latin, sv0[i].latin);
                        }
                    }
                }
            }
            if species_present(mset, x0.order, x0.family, x0.genus, x0.latin) {
                assert(species_in(sv0, x0.latin));
            }
        }
        let child = new_species(entries, m, Ghost(mset));
        species.insert(q, child);
        let count = node.count + 1;
        r = GenusNode { name: node.name, count, species };
        proof {
            lemma_species_view_insert(node.species@, q as int, child);
            let sv = species_list_view(r.species@);
            assert(sv == sv0.insert(q as int, child@));
            sv0.insert_ensures(q as int, child@);
            lemma_sum_species_insert(sv0, q as int, child@);
            assert forall|i: int, j: int| 0 <= i < j < sv.len() implies lex_lt(
                (#[trigger] sv[i]).latin,
                (#[trigger] sv[j]).latin,
            ) by {
                if q < sv0.len() {
                    lemma_lex_le_total(sv0[q as int].latin, x0.latin);
                }
                if i < q && j < q {
                } else if i < q && j == q {
                } else if i < q && j > q {
                    assert(sv[j] == sv0[j - 1]);
                } else if i == q && j > q {
                    assert(sv[j] == sv0[j - 1]);
                    assert(!lex_lt(sv0[q as int].latin, x0.latin));
                    assert(sv0[q as int].latin != x0.latin);
                    assert(lex_lt(x0.latin, sv0[q as int].latin));
                    if j - 1 > q {
                        lemma_lex_lt_trans(x0.latin, sv0[q as int].latin, sv0[j - 1].latin);
                    }
                } else {
                    assert(sv[i] == sv0[i - 1]);
                    assert(sv[j] == sv0[j - 1]);
                }
            }
            assert forall|i: int| 0 <= i < sv.len() implies species_ok(
                es,
                mset2,
                x0.order,
                x0.family,
                r@.name,
                #[trigger] sv[i],
            ) by {
                if i == q {
                } else if i < q {
                    assert(sv[i] == sv0[i]);
                    lemma_species_ok_frame(es, mset, x0, x0.order, x0.family, r@.name, sv0[i]);
                } else {
                    assert(sv[i] == sv0[i - 1]);
                    lemma_species_ok_frame(es, mset, x0, x0.order, x0.family, r@.name, sv0[i - 1]);
                }
            }
            assert forall|l: Seq<char>| #[trigger]
                species_present(mset2, x0.order, x0.family, r@.name, l) <==> species_in(sv, l) by {
                if l == x0.latin {
                    assert(sv[q as int].latin == l);
                } else {
                    if species_in(sv, l) {
                        let i = choose|i: int| 0 <= i < sv.len() && (#[trigger] sv[i]).latin == l;
                        if i < q {
                            assert(sv0[i].latin == l);
                        } else {
                            assert(sv0[i - 1].latin == l);
                        }
                    }
                    if species_in(sv0, l) {
                        let i = choose|i: int| 0 <= i < sv0.len() && (#[trigger] sv0[i]).latin == l;
                        if i < q {
                            assert(sv[i].latin == l);
                        } else {
                            assert(sv[i + 1].latin == l);
                        }
                    }
                }
            }
        }
    }
    r
}

/// Builds the family node for the first photo beneath its family.
fn new_family(entries: &Vec<IocEntry>, m: &MatchedPhoto, Ghost(mset): Ghost<Multiset<MV>>) -> (r:
    FamilyNode)
    requires
        (m.species_idx as int) < entries@.len(),
        ({
            let x0 = mv_of(entries_view(entries@), *m);
            !family_present(mset, x0.order, x0.family)
        }),
    ensures
        ({
            let es = entries_view(entries@);
            let x0 = mv_of(es, *m);
            &&& family_ok(es, mset.insert(x0), x0.order, r@)
            &&& r@.name == x0.family
            &&& r.count == 1
        }),
{
    let ghost es = entries_view(entries@);
    let ghost x0 = mv_of(es, *m);
    proof {
        if genus_present(mset, x0.order, x0.family, x0.genus) {
            let x = choose|x: MV|
                #[trigger] mset.count(x) > 0 && x.order == x0.order && x.family == x0.family
                    && x.genus == x0.genus;
            assert(family_present(mset, x0.order, x0.family));
        }
        assert(es[m.species_idx as int] == entries@[m.species_idx as int]@);
    }
    let gn = new_genus(entries, m, Ghost(mset));
    let name = entries[m.species_idx].family.clone();
    let mut genera: Vec<GenusNode> = Vec::new();
    genera.push(gn);
    let node = FamilyNode { name, count: 1, genera };
    proof {
        lemma_presence_insert(mset, x0);
        let gv = genera_view(node.genera@);
        assert(gv =~= Seq::<GenusV>::empty().push(gn@));
        assert(sum_genera(gv) == gn@.count) by {
            assert(gv.len() == 1);
            assert(gv.last() == gn@);
            assert(gv.drop_last() =~= Seq::<GenusV>::empty());
            assert(sum_genera(gv.drop_last()) == 0);
        }
        assert forall|g: Seq<char>| #[trigger]
            genus_present(mset.insert(x0), x0.order, node@.name, g) <==> genus_in(gv, g) by {
            if genus_present(mset, x0.order, x0.family, g) {
                let x = choose|x: MV|
                    #[trigger] mset.count(x) > 0 && x.order == x0.order && x.family == x0.family
                        && x.genus == g;
                assert(family_present(mset, x0.order, x0.family));
            }
            if genus_in(gv, g) {
                assert(g == x0.genus);
            }
            if g == x0.genus {
                assert(gv[0].name == g);
            }
        }
    }
    node
}

/// Adds a photo into an existing family node: into its genus when
/// already present, at the genus' sorted position otherwise.
#[verifier::rlimit(100)]
fn add_to_family(
    node: FamilyNode,
    entries: &Vec<IocEntry>,
    m: &MatchedPhoto,
    Ghost(mset): Ghost<Multiset<MV>>,
) -> (r: FamilyNode)
    requires
        (m.species_idx as int) < entries@.len(),
        node.count < usize::MAX,
        ({
            let es = entries_view(entries@);
            let x0 = mv_of(es, *m);
            &&& family_ok(es, mset, x0.order, node@)
            &&& node@.name == x0.family
        }),
    ensures
        ({
            let es = entries_view(entries@);
            let x0 = mv_of(es, *m);
            &&& family_ok(es, mset.insert(x0), x0.order, r@)
            &&& r@.name == node@.name
            &&& r@.count == node@.count + 1
        }),
{
    let ghost es = entries_view(entries@);
    let ghost x0 = mv_of(es, *m);
    let ghost gv0 = genera_view(node.genera@);
    let e = &entries[m.species_idx];
    proof {
        assert(es[m.species_idx as int] == entries@[m.species_idx as int]@);
    }
    let gname = genus_name(e.latin.as_str());
    let mut q: usize = 0;
    let mut genera = node.genera;
    while q < genera.len() && str_lt_exec(genera[q].name.as_str(), gname.as_str())
        invariant
            q <= genera.len(),
            gv0 == genera_view(genera@),
            gname@ == x0.genus,
            forall|k: int| 0 <= k < q ==> lex_lt((#[trigger] gv0[k]).name, x0.genus),
        decreases genera.len() - q,
    {
        proof {
            assert(gv0[q as int] == genera@[q as int]@);
        }
        q = q + 1;
    }
    proof {
        assert(q < gv0.len() ==> gv0[q as int] == genera@[q as int]@);
    }
    let ghost mset2 = mset.insert(x0);
    let hit = q < genera.len() && genera[q].name.eq(&gname);
    let r;
    if hit {
        proof {
            assert forall|i: int| 0 <= i < gv0.len() implies (#[trigger] gv0[i]).count >= 0 by {
                lemma_genus_count_nonneg(es, mset, x0.order, node@.name, gv0[i]);
            }
            lemma_sum_genera_bounds(gv0);
            assert(gv0[q as int].count <= node@.count);
        }
        let child = genera.remove(q);
        let child2 = add_to_genus(child, entries, m, Ghost(mset));
        genera.insert(q, child2);
        let count = node.count + 1;
        r = FamilyNode { name: node.name, count, genera };
        proof {
            lemma_genera_view_remove(node.genera@, q as int);
            lemma_genera_view_insert(node.genera@.remove(q as int), q as int, child2);
            lemma_remove_insert_update(gv0, q as int, child2@);
            let gv = genera_view(r.genera@);
            assert(gv == gv0.update(q as int, child2@));
            lemma_sum_genera_update(gv0, q as int, child2@);
            lemma_presence_insert(mset, x0);
            assert forall|i: int, j: int| 0 <= i < j < gv.len() implies lex_lt(
                (#[trigger] gv[i]).name,
                (#[trigger] gv[j]).name,
            ) by {
                assert(gv[i].name == gv0[i].name);
                assert(gv[j].name == gv0[j].name);
            }
            assert forall|i: int| 0 <= i < gv.len() implies genus_ok(
                es,
                mset2,
                x0.order,
                r@.name,
                #[trigger] gv[i],
            ) by {
                if i == q {
                } else {
                    assert(gv[i] == gv0[i]);
                    if i < q {
                        assert(lex_lt(gv0[i].name, gv0[q as int].name));
                    } else {
                        assert(lex_lt(gv0[q as int].name, gv0[i].name));
                    }
                    assert(gv0[i].name != x0.genus);
                    lemma_genus_ok_frame(es, mset, x0, x0.order, r@.name, gv0[i]);
                }
            }
            assert forall|g: Seq<char>| #[trigger]
                genus_present(mset2, x0.order, r@.name, g) <==> genus_in(gv, g) by {
                if g == x0.genus {
                    assert(gv[q as int].name == g);
                } else {
                    if genus_in(gv, g) {
                        let i = choose|i: int| 0 <= i < gv.len() && (#[trigger] gv[i]).name == g;
                        assert(gv0[i].name == g);
                    }
                    if genus_in(gv0, g) {
                        let i = choose|i: int| 0 <= i < gv0.len() && (#[trigger] gv0[i]).name == g;
                        assert(gv[i].name == g);
                    }
                }
            }
        }
    } else {
        proof {
            lemma_presence_insert(mset, x0);
            assert forall|i: int| 0 <= i < gv0.len() implies (#[trigger] gv0[i]).name
                != x0.genus by {
                lemma_lex_le_total(gv0[i].name, x0.genus);
                if i >= q {
                    assert(!lex_lt(gv0[q as int].name, x0.genus));
                    if q < gv0.len() {
                        assert(gv0[q as int].name != x0.genus);
                        assert(lex_lt(x0.genus, gv0[q as int].name)) by {
                            lemma_lex_le_total(gv0[q as int].name, x0.genus);
                        }
                        if i > q {
                            lemma_lex_lt_trans(x0.genus, gv0[q as int].name, gv0[i].name);
                        }
                    }
                }
            }
            if genus_present(mset, x0.order, x0.family, x0.genus) {
                assert(genus_in(gv0, x0.genus));
            }
        }
        let child = new_genus(entries, m, Ghost(mset));
        genera.insert(q, child);
        let count = node.count + 1;
        r = FamilyNode { name: node.name, count, genera };
        proof {
            lemma_genera_view_insert(node.genera@, q as int, child);
            let gv = genera_view(r.genera@);
            assert(gv == gv0.insert(q as int, child@));
            gv0.insert_ensures(q as int, child@);
            lemma_sum_genera_insert(gv0, q as int, child@);
            assert forall|i: int, j: int| 0 <= i < j < gv.len() implies lex_lt(
                (#[trigger] gv[i]).name,
                (#[trigger] gv[j]).name,
            ) by {
                if q < gv0.len() {
                    lemma_lex_le_total(gv0[q as int].name, x0.genus);
                }
                if i < q && j < q {
                } else if i < q && j == q {
                } else if i < q && j > q {
                    assert(gv[j] == gv0[j - 1]);
                } else if i == q && j > q {
                    assert(gv[j] == gv0[j - 1]);
                    assert(!lex_lt(gv0[q as int].name, x0.genus));
                    assert(gv0[q as int].name != x0.genus);
                    assert(lex_lt(x0.genus, gv0[q as int].name));
                    if j - 1 > q {
                        lemma_lex_lt_trans(x0.genus, gv0[q as int].name, gv0[j - 1].name);
                    }
                } else {
                    assert(gv[i] == gv0[i - 1]);
                    assert(gv[j] == gv0[j - 1]);
                }
            }
            assert forall|i: int| 0 <= i < gv.len() implies genus_ok(
                es,
                mset2,
                x0.order,
                r@.name,
                #[trigger] gv[i],
            ) by {
                if i == q {
                } else if i < q {
                    assert(gv[i] == gv0[i]);
                    lemma_genus_ok_frame(es, mset, x0, x0.order, r@.name, gv0[i]);
                } else {
                    assert(gv[i] == gv0[i - 1]);
                    lemma_genus_ok_frame(es, mset, x0, x0.order, r@.name, gv0[i - 1]);
                }
            }
            assert forall|g: Seq<char>| #[trigger]
                genus_present(mset2, x0.order, r@.name, g) <==> genus_in(gv, g) by {
                if g == x0.genus {
                    assert(gv[q as int].name == g);
                } else {
                    if genus_in(gv, g) {
                        let i = choose|i: int| 0 <= i < gv.len() && (#[trigger] gv[i]).name == g;
                        if i < q {
                            assert(gv0[i].name == g);
                        } else {
                            assert(gv0[i - 1].name == g);
                        }
                    }
                    if genus_in(gv0, g) {
                        let i = choose|i: int| 0 <= i < gv0.len() && (#[trigger] gv0[i]).name == g;
                        if i < q {
                            assert(gv[i].name == g);
                        } else {
                            assert(gv[i + 1].name == g);
                        }
                    }
                }
            }
        }
    }
    r
}

/// Builds the order node for the first photo beneath its order.
fn new_order(entries: &Vec<IocEntry>, m: &MatchedPhoto, Ghost(mset): Ghost<Multiset<MV>>) -> (r:
    OrderNode)
    requires
        (m.species_idx as int) < entries@.len(),
        ({
            let x0 = mv_of(entries_view(entries@), *m);
            !order_present(mset, x0.order)
        }),
    ensures
        ({
            let es = entries_view(entries@);
            let x0 = mv_of(es, *m);
            &&& order_ok(es, mset.insert(x0), r@)
            &&& r@.name == x0.order
            &&& r.count == 1
        }),
{
    let ghost es = entries_view(entries@);
    let ghost x0 = mv_of(es, *m);
    proof {
        if family_present(mset, x0.order, x0.family) {
            let x = choose|x: MV|
                #[trigger] mset.count(x) > 0 && x.order == x0.order && x.family == x0.family;
            assert(order_present(mset, x0.order));
        }
        assert(es[m.species_idx as int] == entries@[m.species_idx as int]@);
    }
    let fam = new_family(entries, m, Ghost(mset));
    let name = entries[m.species_idx].order.clone();
    let mut families: Vec<FamilyNode> = Vec::new();
    families.push(fam);
    let node = OrderNode { name, count: 1, families };
    proof {
        lemma_presence_insert(mset, x0);
        let fv = families_view(node.families@);
        assert(fv =~= Seq::<FamilyV>::empty().push(fam@));
        assert(sum_families(fv) == fam@.count) by {
            assert(fv.len() == 1);
            assert(fv.last() == fam@);
            assert(fv.drop_last() =~= Seq::<FamilyV>::empty());
            assert(sum_families(fv.drop_last()) == 0);
        }
        assert forall|f: Seq<char>| #[trigger]
            family_present(mset.insert(x0), node@.name, f) <==> family_in(fv, f) by {
            if family_present(mset, x0.order, f) {
                let x = choose|x: MV|
                    #[trigger] mset.count(x) > 0 && x.order == x0.order && x.family == f;
                assert(order_present(mset, x0.order));
            }
            if family_in(fv, f) {
                assert(f == x0.family);
            }
            if f == x0.family {
                assert(fv[0].name == f);
            }
        }
    }
    node
}

/// Adds a photo into an existing order node: into its family when
/// already present, at the family's sorted position otherwise.
#[verifier::rlimit(100)]
fn add_to_order(
    node: OrderNode,
    entries: &Vec<IocEntry>,
    m: &MatchedPhoto,
    Ghost(mset): Ghost<Multiset<MV>>,
) -> (r: OrderNode)
    requires
        (m.species_idx as int) < entries@.len(),
        node.count < usize::MAX,
        ({
            let es = entries_view(entries@);
            let x0 = mv_of(es, *m);
            &&& order_ok(es, mset, node@)
            &&& node@.name == x0.order
        }),
    ensures
        ({
            let es = entries_view(entries@);
            let x0 = mv_of(es, *m);
            &&& order_ok(es, mset.insert(x0), r@)
            &&& r@.name == node@.name
            &&& r@.count == node@.count + 1
        }),
{
    let ghost es = entries_view(entries@);
    let ghost x0 = mv_of(es, *m);
    let ghost fv0 = families_view(node.families@);
    let e = &entries[m.species_idx];
    proof {
        assert(es[m.species_idx as int] == entries@[m.species_idx as int]@);
    }
    let mut q: usize = 0;
    let mut families = node.families;
    while q < families.len() && str_lt_exec(families[q].name.as_str(), e.family.as_str())
        invariant
            q <= families.len(),
            fv0 == families_view(families@),
            e@.family == x0.family,
            forall|k: int| 0 <= k < q ==> lex_lt((#[trigger] fv0[k]).name, x0.family),
        decreases families.len() - q,
    {
        proof {
            assert(fv0[q as int] == families@[q as int]@);
        }
        q = q + 1;
    }
    proof {
        assert(q < fv0.len() ==> fv0[q as int] == families@[q as int]@);
    }
    let ghost mset2 = mset.insert(x0);
    let hit = q < families.len() && families[q].name.eq(&e.family);
    let r;
    if hit {
        proof {
            assert forall|i: int| 0 <= i < fv0.len() implies (#[trigger] fv0[i]).count >= 0 by {
                lemma_family_count_nonneg(es, mset, node@.name, fv0[i]);
            }
            lemma_sum_families_bounds(fv0);
            assert(fv0[q as int].count <= node@.count);
        }
        let child = families.remove(q);
        let child2 = add_to_family(child, entries, m, Ghost(mset));
        families.insert(q, child2);
        let count = node.count + 1;
        r = OrderNode { name: node.name, count, families };
        proof {
            lemma_families_view_remove(node.families@, q as int);
            lemma_families_view_insert(node.families@.remove(q as int), q as int, child2);
            lemma_remove_insert_update(fv0, q as int, child2@);
            let fv = families_view(r.families@);
            assert(fv == fv0.update(q as int, child2@));
            lemma_sum_families_update(fv0, q as int, child2@);
            lemma_presence_insert(mset, x0);
            assert forall|i: int, j: int| 0 <= i < j < fv.len() implies lex_lt(
                (#[trigger] fv[i]).name,
                (#[trigger] fv[j]).name,
            ) by {
                assert(fv[i].name == fv0[i].name);
                assert(fv[j].name == fv0[j].name);
            }
            assert forall|i: int| 0 <= i < fv.len() implies family_ok(
                es,
                mset2,
                r@.name,
                #[trigger] fv[i],
            ) by {
                if i == q {
                } else {
                    assert(fv[i] == fv0[i]);
                    if i < q {
                        assert(lex_lt(fv0[i].name, fv0[q as int].name));
                    } else {
                        assert(lex_lt(fv0[q as int].name, fv0[i].name));
                    }
                    assert(fv0[i].name != x0.family);
                    lemma_family_ok_frame(es, mset, x0, r@.name, fv0[i]);
                }
            }
            assert forall|f: Seq<char>| #[trigger]
                family_present(mset2, r@.name, f) <==> family_in(fv, f) by {
                if f == x0.family {
                    assert(fv[q as int].name == f);
                } else {
                    if family_in(fv, f) {
                        let i = choose|i: int| 0 <= i < fv.len() && (#[trigger] fv[i]).name == f;
                        assert(fv0[i].name == f);
                    }
                    if family_in(fv0, f) {
                        let i = choose|i: int| 0 <= i < fv0.len() && (#[trigger] fv0[i]).name == f;
                        assert(fv[i].name == f);
                    }
                }
            }
        }
    } else {
        proof {
            lemma_presence_insert(mset, x0);
            assert forall|i: int| 0 <= i < fv0.len() implies (#[trigger] fv0[i]).name
                != x0.family by {
                lemma_lex_le_total(fv0[i].name, x0.family);
                if i >= q {
                    assert(!lex_lt(fv0[q as int].name, x0.family));
                    if q < fv0.len() {
                        assert(fv0[q as int].name != x0.family);
                        assert(lex_lt(x0.family, fv0[q as int].name)) by {
                            lemma_lex_le_total(fv0[q as int].name, x0.family);
                        }
                        if i > q {
                            lemma_lex_lt_trans(x0.family, fv0[q as int].name, fv0[i].name);
                        }
                    }
                }
            }
            if family_present(mset, x0.order, x0.family) {
                assert(family_in(fv0, x0.family));
            }
        }
        let child = new_family(entries, m, Ghost(mset));
        families.insert(q, child);
        let count = node.count + 1;
        r = OrderNode { name: node.name, count, families };
        proof {
            lemma_families_view_insert(node.families@, q as int, child);
            let fv = families_view(r.families@);
            assert(fv == fv0.insert(q as int, child@));
            fv0.insert_ensures(q as int, child@);
            lemma_sum_families_insert(fv0, q as int, child@);
            assert forall|i: int, j: int| 0 <= i < j < fv.len() implies lex_lt(
                (#[trigger] fv[i]).name,
                (#[trigger] fv[j]).name,
            ) by {
                if q < fv0.len() {
                    lemma_lex_le_total(fv0[q as int].name, x0.family);
                }
                if i < q && j < q {
                } else if i < q && j == q {
                } else if i < q && j > q {
                    assert(fv[j] == fv0[j - 1]);
                } else if i == q && j > q {
                    assert(fv[j] == fv0[j - 1]);
                    assert(!lex_lt(fv0[q as int].name, x0.family));
                    assert(fv0[q as int].name != x0.family);
                    assert(lex_lt(x0.family, fv0[q as int].name));
                    if j - 1 > q {
                        lemma_lex_lt_trans(x0.family, fv0[q as int].name, fv0[j - 1].name);
                    }
                } else {
                    assert(fv[i] == fv0[i - 1]);
                    assert(fv[j] == fv0[j - 1]);
                }
            }
            assert forall|i: int| 0 <= i < fv.len() implies family_ok(
                es,
                mset2,
                r@.name,
                #[trigger] fv[i],
            ) by {
                if i == q {
                } else if i < q {
                    assert(fv[i] == fv0[i]);
                    lemma_family_ok_frame(es, mset, x0, r@.name, fv0[i]);
                } else {
                    assert(fv[i] == fv0[i - 1]);
                    lemma_family_ok_frame(es, mset, x0, r@.name, fv0[i - 1]);
                }
            }
            assert forall|f: Seq<char>| #[trigger]
                family_present(mset2, r@.name, f) <==> family_in(fv, f) by {
                if f == x0.family {
                    assert(fv[q as int].name == f);
                } else {
                    if family_in(fv, f) {
                        let i = choose|i: int| 0 <= i < fv.len() && (#[trigger] fv[i]).name == f;
                        if i < q {
                            assert(fv0[i].name == f);
                        } else {
                            assert(fv0[i - 1].name == f);
                        }
                    }
                    if family_in(fv0, f) {
                        let i = choose|i: int| 0 <= i < fv0.len() && (#[trigger] fv0[i]).name == f;
                        if i < q {
                            assert(fv[i].name == f);
                        } else {
                            assert(fv[i + 1].name == f);
                        }
                    }
                }
            }
        }
    }
    r
}

/// Groups the matched photos by order, family, genus and species, each
/// level sorted by name ascending, every node counting the photos
/// beneath it. The result is characterized against the multiset of
/// classified photos alone, so any delivery order of the same matches
/// builds the same tree.
#[verifier::rlimit(100)]
pub fn build_tree(entries: &Vec<IocEntry>, matches: &Vec<MatchedPhoto>) -> (r: TaxonTree)
    requires
        forall|k: int|
            0 <= k < matches@.len() ==> (#[trigger] matches@[k]).species_idx < entries@.len(),
    ensures
        tree_ok(entries_view(entries@), contents(entries_view(entries@), matches@), r@),
        sum_orders(r@) == matches@.len(),
{
    let ghost es = entries_view(entries@);
    let mut orders: Vec<OrderNode> = Vec::new();
    let mut k: usize = 0;
    proof {
        assert(matches@.subrange(0, 0) =~= Seq::<MatchedPhoto>::empty());
        assert(match_mvs(es, matches@.subrange(0, 0)) =~= Seq::<MV>::empty());
        assert(Seq::<MV>::empty().to_multiset() =~= Multiset::<MV>::empty()) by {
            assert(forall|x: MV| !Seq::<MV>::empty().contains(x));
        }
        let m0 = contents(es, matches@.subrange(0, 0));
        assert forall|o: Seq<char>| #[trigger] order_present(m0, o) <==> order_in(
            orders_view(orders@),
            o,
        ) by {
            if order_present(m0, o) {
                let x = choose|x: MV| #[trigger] m0.count(x) > 0 && x.order == o;
            }
        }
        assert(orders_view(orders@) =~= Seq::<OrderV>::empty());
    }
    while k < matches.len()
        invariant
            k <= matches.len(),
            es == entries_view(entries@),
            es.len() == entries@.len(),
            forall|j: int|
                0 <= j < matches@.len() ==> (#[trigger] matches@[j]).species_idx < entries@.len(),
            tree_ok(es, contents(es, matches@.subrange(0, k as int)), orders_view(orders@)),
            sum_orders(orders_view(orders@)) == k,
        decreases matches.len() - k,
    {
        let ghost mset = contents(es, matches@.subrange(0, k as int));
        let ghost x0 = mv_of(es, matches@[k as int]);
        let ghost ov0 = orders_view(orders@);
        proof {
            let pre = matches@.subrange(0, k as int);
            let post = matches@.subrange(0, k + 1);
            assert(post.drop_last() =~= pre);
            assert(post.last() == matches@[k as int]);
            assert(match_mvs(es, post) =~= match_mvs(es, pre).push(x0)) by {
                assert forall|t: int| #![trigger post[t]] 0 <= t < post.len() implies match_mvs(
                    es,
                    post,
                )[t] == match_mvs(es, pre).push(x0)[t] by {
                    if t < pre.len() {
                        assert(post[t] == pre[t]);
                        assert(match_mvs(es, pre)[t] == mv_of(es, pre[t]));
                    }
                }
                assert(match_mvs(es, post).len() == post.len());
            }
            assert(contents(es, post) =~= mset.insert(x0));
        }
        let m = &matches[k];
        let e = &entries[m.species_idx];
        proof {
            assert(es[m.species_idx as int] == entries@[m.species_idx as int]@);
            assert(e@.order == x0.order);
        }
        let mut q: usize = 0;
        while q < orders.len() && str_lt_exec(orders[q].name.as_str(), e.order.as_str())
            invariant
                q <= orders.len(),
                ov0 == orders_view(orders@),
                e@.order == x0.order,
                forall|t: int| 0 <= t < q ==> lex_lt((#[trigger] ov0[t]).name, x0.order),
            decreases orders.len() - q,
        {
            proof {
                assert(ov0[q as int] == orders@[q as int]@);
            }
            q = q + 1;
        }
        proof {
            assert(q < ov0.len() ==> ov0[q as int] == orders@[q as int]@);
        }
        let ghost mset2 = mset.insert(x0);
        let hit = q < orders.len() && orders[q].name.eq(&e.order);
        if hit {
            proof {
                assert forall|i: int| 0 <= i < ov0.len() implies (#[trigger] ov0[i]).count >= 0 by {
                    lemma_order_count_nonneg(es, mset, ov0[i]);
                }
                lemma_sum_orders_bounds(ov0);
                assert(ov0[q as int].count <= sum_orders(ov0));
            }
            let ghost vsnap = orders@;
            let child = orders.remove(q);
            let child2 = add_to_order(child, entries, m, Ghost(mset));
            orders.insert(q, child2);
            proof {
                lemma_orders_view_remove(vsnap, q as int);
                lemma_orders_view_insert(vsnap.remove(q as int), q as int, child2);
                lemma_remove_insert_update(ov0, q as int, child2@);
                let ov = orders_view(orders@);
                assert(orders@ == vsnap.remove(q as int).insert(q as int, child2));
                assert(ov == ov0.update(q as int, child2@));
                lemma_sum_orders_update(ov0, q as int, child2@);
                lemma_presence_insert(mset, x0);
                assert forall|i: int, j: int| 0 <= i < j < ov.len() implies lex_lt(
                    (#[trigger] ov[i]).name,
                    (#[trigger] ov[j]).name,
                ) by {
                    assert(ov[i].name == ov0[i].name);
                    assert(ov[j].name == ov0[j].name);
                }
                assert forall|i: int| 0 <= i < ov.len() implies order_ok(
                    es,
                    mset2,
                    #[trigger] ov[i],
                ) by {
                    if i == q {
                    } else {
                        assert(ov[i] == ov0[i]);
                        if i < q {
                            assert(lex_lt(ov0[i].name, ov0[q as int].name));
                        } else {
                            assert(lex_lt(ov0[q as int].name, ov0[i].name));
                        }
                        assert(ov0[i].name != x0.order);
                        lemma_order_ok_frame(es, mset, x0, ov0[i]);
                    }
                }
                assert forall|o: Seq<char>| #[trigger]
                    order_present(mset2, o) <==> order_in(ov, o) by {
                    if o == x0.order {
                        assert(ov[q as int].name == o);
                    } else {
                        if order_in(ov, o) {
                            let i = choose|i: int| 0 <= i < ov.len() && (#[trigger] ov[i]).name == o;
                            assert(ov0[i].name == o);
                        }
                        if order_in(ov0, o) {
                            let i = choose|i: int|
                                0 <= i < ov0.len() && (#[trigger] ov0[i]).name == o;
                            assert(ov[i].name == o);
                        }
                    }
                }
            }
        } else {
            proof {
                lemma_presence_insert(mset, x0);
                assert forall|i: int| 0 <= i < ov0.len() implies (#[trigger] ov0[i]).name
                    != x0.order by {
                    lemma_lex_le_total(ov0[i].name, x0.order);
                    if i >= q {
                        assert(!lex_lt(ov0[q as int].name, x0.order));
                        if q < ov0.len() {
                            assert(ov0[q as int].name != x0.order);
                            assert(lex_lt(x0.order, ov0[q as int].name)) by {
                                lemma_lex_le_total(ov0[q as int].name, x0.order);
                            }
                            if i > q {
                                lemma_lex_lt_trans(x0.order, ov0[q as int].name, ov0[i].name);
                            }
                        }
                    }
                }
                if order_present(mset, x0.order) {
                    assert(order_in(ov0, x0.order));
                }
            }
            let ghost vsnap = orders@;
            let child = new_order(entries, m, Ghost(mset));
            orders.insert(q, child);
            proof {
                lemma_orders_view_insert(vsnap, q as int, child);
                let ov = orders_view(orders@);
                assert(ov == ov0.insert(q as int, child@));
                ov0.insert_ensures(q as int, child@);
                lemma_sum_orders_insert(ov0, q as int, child@);
                assert forall|i: int, j: int| 0 <= i < j < ov.len() implies lex_lt(
                    (#[trigger] ov[i]).name,
                    (#[trigger] ov[j]).name,
                ) by {
                    if q < ov0.len() {
                        lemma_lex_le_total(ov0[q as int].name, x0.order);
                    }
                    if i < q && j < q {
                    } else if i < q && j == q {
                    } else if i < q && j > q {
                        assert(ov[j] == ov0[j - 1]);
                    } else if i == q && j > q {
                        assert(ov[j] == ov0[j - 1]);
                        assert(!lex_lt(ov0[q as int].name, x0.order));
                        assert(ov0[q as int].name != x0.order);
                        assert(lex_lt(x0.order, ov0[q as int].name));
                        if j - 1 > q {
                            lemma_lex_lt_trans(x0.order, ov0[q as int].name, ov0[j - 1].name);
                        }
                    } else {
                        assert(ov[i] == ov0[i - 1]);
                        assert(ov[j] == ov0[j - 1]);
                    }
                }
                assert forall|i: int| 0 <= i < ov.len() implies order_ok(
                    es,
                    mset2,
                    #[trigger] ov[i],
                ) by {
                    if i == q {
                    } else if i < q {
                        assert(ov[i] == ov0[i]);
                        lemma_order_ok_frame(es, mset, x0, ov0[i]);
                    } else {
                        assert(ov[i] == ov0[i - 1]);
                        lemma_order_ok_frame(es, mset, x0, ov0[i - 1]);
                    }
                }
                assert forall|o: Seq<char>| #[trigger]
                    order_present(mset2, o) <==> order_in(ov, o) by {
                    if o == x0.order {
                        assert(ov[q as int].name == o);
                    } else {
                        if order_in(ov, o) {
                            let i = choose|i: int| 0 <= i < ov.len() && (#[trigger] ov[i]).name == o;
                            if i < q {
                                assert(ov0[i].name == o);
                            } else {
                                assert(ov0[i - 1].name == o);
                            }
                        }
                        if order_in(ov0, o) {
                            let i = choose|i: int|
                                0 <= i < ov0.len() && (#[trigger] ov0[i]).name == o;
                            if i < q {
                                assert(ov[i].name == o);
                            } else {
                                assert(ov[i + 1].name == o);
                            }
                        }
                    }
                }
            }
        }
        k = k + 1;
    }
    proof {
        assert(matches@.subrange(0, matches@.len() as int) =~= matches@);
    }
    TaxonTree { orders }
}

/// The canonical view of one matched-photo tuple.
pub open spec fn mv_of_t(entries: Seq<EntryV>, t: (Seq<char>, Seq<char>, int)) -> MV {
    MV {
        order: entries[t.2].order,
        family: entries[t.2].family,
        genus: genus_spec(entries[t.2].latin),
        latin: entries[t.2].latin,
        path: t.0,
        name: t.1,
    }
}

/// The canonical views of a list of matched-photo tuples.
pub open spec fn tuples_mvs(entries: Seq<EntryV>, ts: Seq<(Seq<char>, Seq<char>, int)>) -> Seq<
    MV,
> {
    ts.map_values(|t: (Seq<char>, Seq<char>, int)| mv_of_t(entries, t))
}

/// The content of a list of matched-photo tuples.
pub open spec fn contents_of_tuples(
    entries: Seq<EntryV>,
    ts: Seq<(Seq<char>, Seq<char>, int)>,
) -> Multiset<MV> {
    tuples_mvs(entries, ts).to_multiset()
}

/// The content of a match list equals the content of its tuple views.
pub proof fn lemma_contents_views(entries: Seq<EntryV>, ms: Seq<MatchedPhoto>)
    ensures
        contents(entries, ms) == contents_of_tuples(
            entries,
            crate::scanner::matches_view(ms),
        ),
{
    let tv = crate::scanner::matches_view(ms);
    assert(tuples_mvs(entries, tv) =~= match_mvs(entries, ms)) by {
        assert forall|k: int| #![trigger ms[k]] 0 <= k < ms.len() implies tuples_mvs(entries, tv)[k]
            == match_mvs(entries, ms)[k] by {
            assert(tv[k] == crate::scanner::matched_view(ms[k]));
            assert(tuples_mvs(entries, tv)[k] == mv_of_t(entries, tv[k]));
            assert(match_mvs(entries, ms)[k] == mv_of(entries, ms[k]));
        }
        assert(tuples_mvs(entries, tv).len() == tv.len());
        assert(tv.len() == ms.len());
    }
}

/// Two photo lists sorted the same way with the same content are equal.
pub proof fn lemma_photos_sorted_unique(s1: Seq<PhotoV>, s2: Seq<PhotoV>)
    requires
        forall|i: int, j: int| 0 <= i < j < s1.len() ==> photo_le(#[trigger] s1[i], #[trigger] s1[j]),
        forall|i: int, j: int| 0 <= i < j < s2.len() ==> photo_le(#[trigger] s2[i], #[trigger] s2[j]),
        s1.to_multiset() == s2.to_multiset(),
    ensures
        s1 =~= s2,
    decreases s1.len(),
{
    assert(s1.len() == s1.to_multiset().len());
    assert(s2.len() == s2.to_multiset().len());
    if s1.len() > 0 {
        let a = s1[0];
        let b = s2[0];
        assert(s1.contains(a));
        assert(s1.to_multiset().count(a) > 0);
        assert(s2.to_multiset().count(a) > 0);
        assert(s2.contains(a));
        let j = choose|j: int| 0 <= j < s2.len() && s2[j] == a;
        assert(photo_le(b, a)) by {
            if j > 0 {
                assert(photo_le(s2[0], s2[j]));
            } else {
                lemma_photo_le_total(b, a);
            }
        }
        assert(s2.contains(b));
        assert(s2.to_multiset().count(b) > 0);
        assert(s1.to_multiset().count(b) > 0);
        assert(s1.contains(b));
        let i = choose|i: int| 0 <= i < s1.len() && s1[i] == b;
        assert(photo_le(a, b)) by {
            if i > 0 {
                assert(photo_le(s1[0], s1[i]));
            } else {
                lemma_photo_le_total(a, b);
            }
        }
        lemma_photo_le_total(a, b);
        assert(a == b);
        let t1 = s1.drop_first();
        let t2 = s2.drop_first();
        assert(t1 =~= s1.remove(0));
        assert(t2 =~= s2.remove(0));
        assert(t1.to_multiset() == s1.to_multiset().remove(a));
        assert(t2.to_multiset() == s2.to_multiset().remove(a));
        assert(forall|i: int, j: int|
            0 <= i < j < t1.len() ==> photo_le(#[trigger] t1[i], #[trigger] t1[j]));
        assert(forall|i: int, j: int|
            0 <= i < j < t2.len() ==> photo_le(#[trigger] t2[i], #[trigger] t2[j]));
        lemma_photos_sorted_unique(t1, t2);
        assert(s1 =~= seq![a] + t1);
        assert(s2 =~= seq![b] + t2);
    }
}

/// Two strictly sorted name lists with the same members are equal.
pub proof fn lemma_strict_sorted_names_unique(a: Seq<Seq<char>>, b: Seq<Seq<char>>)
    requires
        forall|i: int, j: int| 0 <= i < j < a.len() ==> lex_lt(#[trigger] a[i], #[trigger] a[j]),
        forall|i: int, j: int| 0 <= i < j < b.len() ==> lex_lt(#[trigger] b[i], #[trigger] b[j]),
        forall|n: Seq<char>| a.contains(n) <==> b.contains(n),
    ensures
        a =~= b,
    decreases a.len(),
{
    if a.len() == 0 {
        if b.len() > 0 {
            assert(b.contains(b[0]));
            assert(a.contains(b[0]));
        }
    } else {
        assert(a.contains(a[0]));
        assert(b.contains(a[0]));
        let j = choose|j: int| 0 <= j < b.len() && b[j] == a[0];
        assert(lex_le(b[0], a[0])) by {
            if j > 0 {
                assert(lex_lt(b[0], b[j]));
            } else {
                lemma_lex_le_total(b[0], a[0]);
            }
        }
        assert(b.contains(b[0]));
        assert(a.contains(b[0]));
        let i = choose|i: int| 0 <= i < a.len() && a[i] == b[0];
        assert(lex_le(a[0], b[0])) by {
            if i > 0 {
                assert(lex_lt(a[0], a[i]));
            } else {
                lemma_lex_le_total(a[0], b[0]);
            }
        }
        lemma_lex_le_total(a[0], b[0]);
        assert(a[0] == b[0]);
        let t1 = a.drop_first();
        let t2 = b.drop_first();
        assert forall|n: Seq<char>| t1.contains(n) <==> t2.contains(n) by {
            if t1.contains(n) {
                let k = choose|k: int| 0 <= k < t1.len() && t1[k] == n;
                assert(a[k + 1] == n);
                assert(a.contains(n));
                assert(b.contains(n));
                let k2 = choose|k2: int| 0 <= k2 < b.len() && b[k2] == n;
                assert(lex_lt(a[0], a[k + 1]));
                assert(n != b[0]);
                assert(k2 > 0);
                assert(t2[k2 - 1] == n);
                assert(t2.contains(n));
            }
            if t2.contains(n) {
                let k = choose|k: int| 0 <= k < t2.len() && t2[k] == n;
                assert(b[k + 1] == n);
                assert(b.contains(n));
                assert(a.contains(n));
                let k2 = choose|k2: int| 0 <= k2 < a.len() && a[k2] == n;
                assert(lex_lt(b[0], b[k + 1]));
                assert(n != a[0]);
                assert(k2 > 0);
                assert(t1[k2 - 1] == n);
                assert(t1.contains(n));
            }
        }
        assert(forall|i: int, j: int|
            0 <= i < j < t1.len() ==> lex_lt(#[trigger] t1[i], #[trigger] t1[j]));
        assert(forall|i: int, j: int|
            0 <= i < j < t2.len() ==> lex_lt(#[trigger] t2[i], #[trigger] t2[j]));
        lemma_strict_sorted_names_unique(t1, t2);
        assert(a =~= seq![a[0]] + t1);
        assert(b =~= seq![b[0]] + t2);
    }
}

/// The latin names of a species list.
pub open spec fn species_latins(s: Seq<SpeciesV>) -> Seq<Seq<char>> {
    s.map_values(|n: SpeciesV| n.latin)
}

/// The names of a genus list.
pub open spec fn genus_names(s: Seq<GenusV>) -> Seq<Seq<char>> {
    s.map_values(|n: GenusV| n.name)
}

/// The names of a family list.
pub open spec fn family_names(s: Seq<FamilyV>) -> Seq<Seq<char>> {
    s.map_values(|n: FamilyV| n.name)
}

/// The names of an order list.
pub open spec fn order_names(s: Seq<OrderV>) -> Seq<Seq<char>> {
    s.map_values(|n: OrderV| n.name)
}

/// Two correct species nodes for the same key are equal.
pub proof fn lemma_species_unique(
    entries: Seq<EntryV>,
    m: Multiset<MV>,
    o: Seq<char>,
    f: Seq<char>,
    g: Seq<char>,
    s1: SpeciesV,
    s2: SpeciesV,
)
    requires
        species_ok(entries, m, o, f, g, s1),
        species_ok(entries, m, o, f, g, s2),
        s1.latin == s2.latin,
    ensures
        s1 == s2,
{
    assert(s1.photos.to_multiset() =~= s2.photos.to_multiset()) by {
        assert forall|p: PhotoV|
            s1.photos.to_multiset().count(p) == s2.photos.to_multiset().count(p) by {
            assert(s1.photos.to_multiset().count(p) == key_photo_count(m, o, f, g, s1.latin, p));
            assert(s2.photos.to_multiset().count(p) == key_photo_count(m, o, f, g, s2.latin, p));
        }
    }
    lemma_photos_sorted_unique(s1.photos, s2.photos);
    assert(s1 =~= s2);
}

/// Two correct genus nodes with the same name beneath the same family
/// are equal.
pub proof fn lemma_genus_unique(
    entries: Seq<EntryV>,
    m: Multiset<MV>,
    o: Seq<char>,
    f: Seq<char>,
    g1: GenusV,
    g2: GenusV,
)
    requires
        genus_ok(entries, m, o, f, g1),
        genus_ok(entries, m, o, f, g2),
        g1.name == g2.name,
    ensures
        g1 == g2,
{
    let n1 = species_latins(g1.species);
    let n2 = species_latins(g2.species);
    assert forall|l: Seq<char>| n1.contains(l) <==> n2.contains(l) by {
        assert(n1.len() == g1.species.len());
        assert(n2.len() == g2.species.len());
        if n1.contains(l) {
            let k = choose|k: int| 0 <= k < n1.len() && n1[k] == l;
            assert(g1.species[k].latin == l);
            assert(species_in(g1.species, l));
            assert(species_present(m, o, f, g1.name, l));
            assert(species_in(g2.species, l));
            let k2 = choose|k2: int| 0 <= k2 < g2.species.len() && (#[trigger] g2.species[k2]).latin == l;
            assert(n2[k2] == l);
        }
        if n2.contains(l) {
            let k = choose|k: int| 0 <= k < n2.len() && n2[k] == l;
            assert(g2.species[k].latin == l);
            assert(species_in(g2.species, l));
            assert(species_present(m, o, f, g2.name, l));
            assert(species_in(g1.species, l));
            let k2 = choose|k2: int| 0 <= k2 < g1.species.len() && (#[trigger] g1.species[k2]).latin == l;
            assert(n1[k2] == l);
        }
    }
    assert forall|i: int, j: int| 0 <= i < j < n1.len() implies lex_lt(
        #[trigger] n1[i],
        #[trigger] n1[j],
    ) by {
        assert(n1[i] == g1.species[i].latin);
        assert(n1[j] == g1.species[j].latin);
    }
    assert forall|i: int, j: int| 0 <= i < j < n2.len() implies lex_lt(
        #[trigger] n2[i],
        #[trigger] n2[j],
    ) by {
        assert(n2[i] == g2.species[i].latin);
        assert(n2[j] == g2.species[j].latin);
    }
    lemma_strict_sorted_names_unique(n1, n2);
    assert forall|i: int| 0 <= i < g1.species.len() implies #[trigger] g1.species[i]
        == g2.species[i] by {
        assert(n1[i] == n2[i]);
        assert(g1.species[i].latin == g2.species[i].latin);
        lemma_species_unique(entries, m, o, f, g1.name, g1.species[i], g2.species[i]);
    }
    assert(g1.species =~= g2.species);
    assert(g1 =~= g2);
}

/// Two correct family nodes with the same name beneath the same order
/// are equal.
pub proof fn lemma_family_unique(
    entries: Seq<EntryV>,
    m: Multiset<MV>,
    o: Seq<char>,
    f1: FamilyV,
    f2: FamilyV,
)
    requires
        family_ok(entries, m, o, f1),
        family_ok(entries, m, o, f2),
        f1.name == f2.name,
    ensures
        f1 == f2,
{
    let n1 = genus_names(f1.genera);
    let n2 = genus_names(f2.genera);
    assert forall|g: Seq<char>| n1.contains(g) <==> n2.contains(g) by {
        assert(n1.len() == f1.genera.len());
        assert(n2.len() == f2.genera.len());
        if n1.contains(g) {
            let k = choose|k: int| 0 <= k < n1.len() && n1[k] == g;
            assert(f1.genera[k].name == g);
            assert(genus_in(f1.genera, g));
            assert(genus_present(m, o, f1.name, g));
            assert(genus_in(f2.genera, g));
            let k2 = choose|k2: int| 0 <= k2 < f2.genera.len() && (#[trigger] f2.genera[k2]).name == g;
            assert(n2[k2] == g);
        }
        if n2.contains(g) {
            let k = choose|k: int| 0 <= k < n2.len() && n2[k] == g;
            assert(f2.genera[k].name == g);
            assert(genus_in(f2.genera, g));
            assert(genus_present(m, o, f2.name, g));
            assert(genus_in(f1.genera, g));
            let k2 = choose|k2: int| 0 <= k2 < f1.genera.len() && (#[trigger] f1.genera[k2]).name == g;
            assert(n1[k2] == g);
        }
    }
    assert forall|i: int, j: int| 0 <= i < j < n1.len() implies lex_lt(
        #[trigger] n1[i],
        #[trigger] n1[j],
    ) by {
        assert(n1[i] == f1.genera[i].name);
        assert(n1[j] == f1.genera[j].name);
    }
    assert forall|i: int, j: int| 0 <= i < j < n2.len() implies lex_lt(
        #[trigger] n2[i],
        #[trigger] n2[j],
    ) by {
        assert(n2[i] == f2.genera[i].name);
        assert(n2[j] == f2.genera[j].name);
    }
    lemma_strict_sorted_names_unique(n1, n2);
    assert forall|i: int| 0 <= i < f1.genera.len() implies #[trigger] f1.genera[i]
        == f2.genera[i] by {
        assert(n1[i] == n2[i]);
        assert(f1.genera[i].name == f2.genera[i].name);
        lemma_genus_unique(entries, m, o, f1.name, f1.genera[i], f2.genera[i]);
    }
    assert(f1.genera =~= f2.genera);
    assert(f1 =~= f2);
}

/// Two correct order nodes with the same name are equal.
pub proof fn lemma_order_unique(entries: Seq<EntryV>, m: Multiset<MV>, o1: OrderV, o2: OrderV)
    requires
        order_ok(entries, m, o1),
        order_ok(entries, m, o2),
        o1.name == o2.name,
    ensures
        o1 == o2,
{
    let n1 = family_names(o1.families);
    let n2 = family_names(o2.families);
    assert forall|f: Seq<char>| n1.contains(f) <==> n2.contains(f) by {
        assert(n1.len() == o1.families.len());
        assert(n2.len() == o2.families.len());
        if n1.contains(f) {
            let k = choose|k: int| 0 <= k < n1.len() && n1[k] == f;
            assert(o1.families[k].name == f);
            assert(family_in(o1.families, f));
            assert(family_present(m, o1.name, f));
            assert(family_in(o2.families, f));
            let k2 = choose|k2: int| 0 <= k2 < o2.families.len() && (#[trigger] o2.families[k2]).name == f;
            assert(n2[k2] == f);
        }
        if n2.contains(f) {
            let k = choose|k: int| 0 <= k < n2.len() && n2[k] == f;
            assert(o2.families[k].name == f);
            assert(family_in(o2.families, f));
            assert(family_present(m, o2.name, f));
            assert(family_in(o1.families, f));
            let k2 = choose|k2: int| 0 <= k2 < o1.families.len() && (#[trigger] o1.families[k2]).name == f;
            assert(n1[k2] == f);
        }
    }
    assert forall|i: int, j: int| 0 <= i < j < n1.len() implies lex_lt(
        #[trigger] n1[i],
        #[trigger] n1[j],
    ) by {
        assert(n1[i] == o1.families[i].name);
        assert(n1[j] == o1.families[j].name);
    }
    assert forall|i: int, j: int| 0 <= i < j < n2.len() implies lex_lt(
        #[trigger] n2[i],
        #[trigger] n2[j],
    ) by {
        assert(n2[i] == o2.families[i].name);
        assert(n2[j] == o2.families[j].name);
    }
    lemma_strict_sorted_names_unique(n1, n2);
    assert forall|i: int| 0 <= i < o1.families.len() implies #[trigger] o1.families[i]
        == o2.families[i] by {
        assert(n1[i] == n2[i]);
        assert(o1.families[i].name == o2.families[i].name);
        lemma_family_unique(entries, m, o1.name, o1.families[i], o2.families[i]);
    }
    assert(o1.families =~= o2.families);
    assert(o1 =~= o2);
}

/// The tree is a function of the classified-photo multiset alone: any
/// two correct trees for the same content are equal, so re-scanning
/// unchanged inputs reproduces the tree whatever order the scan
/// delivered the matches in.
pub proof fn lemma_tree_unique(entries: Seq<EntryV>, m: Multiset<MV>, t1: Seq<OrderV>, t2: Seq<OrderV>)
    requires
        tree_ok(entries, m, t1),
        tree_ok(entries, m, t2),
    ensures
        t1 =~= t2,
{
    let n1 = order_names(t1);
    let n2 = order_names(t2);
    assert forall|o: Seq<char>| n1.contains(o) <==> n2.contains(o) by {
        assert(n1.len() == t1.len());
        assert(n2.len() == t2.len());
        if n1.contains(o) {
            let k = choose|k: int| 0 <= k < n1.len() && n1[k] == o;
            assert(t1[k].name == o);
            assert(order_in(t1, o));
            assert(order_present(m, o));
            assert(order_in(t2, o));
            let k2 = choose|k2: int| 0 <= k2 < t2.len() && (#[trigger] t2[k2]).name == o;
            assert(n2[k2] == o);
        }
        if n2.contains(o) {
            let k = choose|k: int| 0 <= k < n2.len() && n2[k] == o;
            assert(t2[k].name == o);
            assert(order_in(t2, o));
            assert(order_present(m, o));
            assert(order_in(t1, o));
            let k2 = choose|k2: int| 0 <= k2 < t1.len() && (#[trigger] t1[k2]).name == o;
            assert(n1[k2] == o);
        }
    }
    assert forall|i: int, j: int| 0 <= i < j < n1.len() implies lex_lt(
        #[trigger] n1[i],
        #[trigger] n1[j],
    ) by {
        assert(n1[i] == t1[i].name);
        assert(n1[j] == t1[j].name);
    }
    assert forall|i: int, j: int| 0 <= i < j < n2.len() implies lex_lt(
        #[trigger] n2[i],
        #[trigger] n2[j],
    ) by {
        assert(n2[i] == t2[i].name);
        assert(n2[j] == t2[j].name);
    }
    lemma_strict_sorted_names_unique(n1, n2);
    assert forall|i: int| 0 <= i < t1.len() implies #[trigger] t1[i] == t2[i] by {
        assert(n1[i] == n2[i]);
        assert(t1[i].name == t2[i].name);
        lemma_order_unique(entries, m, t1[i], t2[i]);
    }
}

} // verus!
