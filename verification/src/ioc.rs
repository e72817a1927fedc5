//! The reference taxonomy: loads species rows from worksheet cells into
//! an ordered list, and serves case-insensitive latin-name lookups with
//! last-write-wins on duplicate names.

use vstd::prelude::*;

use crate::strutil::{lower, to_lower, trim, trim_spec};
use crate::types::{entries_view, EntryV, IocEntry};

verus! {

/// Why the reference source could not be loaded.
#[derive(Debug)]
pub enum DbError {
    /// The worksheet had no rows at all, not even a header.
    EmptySheet,
    /// A required header column is absent; the name is carried along.
    MissingColumn(String),
}

impl DbError {
    /// A short description of the failure.
    pub fn message(&self) -> (r: String)
        ensures
            self is EmptySheet ==> r@ == "worksheet is empty"@,
            self matches DbError::MissingColumn(n) ==> r@ == "column not found: "@ + n@,
    {
        match self {
            DbError::EmptySheet => String::from_str("worksheet is empty"),
            DbError::MissingColumn(name) => String::from_str("column not found: ").concat(
                name.as_str(),
            ),
        }
    }
}

/// The view of one worksheet row: each cell either absent or a string.
pub open spec fn cells_view(row: Seq<Option<String>>) -> Seq<Option<Seq<char>>> {
    row.map_values(
        |c: Option<String>|
            match c {
                Some(s) => Some(s@),
                None => None,
            },
    )
}

/// The view of a whole worksheet.
pub open spec fn rows_view(rows: Seq<Vec<Option<String>>>) -> Seq<Seq<Option<Seq<char>>>> {
    rows.map_values(|r: Vec<Option<String>>| cells_view(r@))
}

/// The column position a header name maps to: the last header cell that
/// holds the name, as later duplicates shadow earlier ones.
pub open spec fn col_of(header: Seq<Option<Seq<char>>>, name: Seq<char>) -> Option<int>
    decreases header.len(),
{
    if header.len() == 0 {
        None
    } else if header[header.len() - 1] == Some(name) {
        Some(header.len() - 1)
    } else {
        col_of(header.drop_last(), name)
    }
}

/// The cell of a row at a column, absent when the row is short.
pub open spec fn row_cell(row: Seq<Option<Seq<char>>>, c: int) -> Option<Seq<char>> {
    if 0 <= c < row.len() {
        row[c]
    } else {
        None
    }
}

/// A data row is accepted when order, family and latin are all present
/// and non-empty after trimming.
pub open spec fn row_accepted(row: Seq<Option<Seq<char>>>, oc: int, fc: int, lc: int) -> bool {
    &&& row_cell(row, oc) matches Some(o) && trim_spec(o).len() > 0
    &&& row_cell(row, fc) matches Some(f) && trim_spec(f).len() > 0
    &&& row_cell(row, lc) matches Some(l) && trim_spec(l).len() > 0
}

/// The entry an accepted row yields: the four fields, trimmed, with an
/// absent localized name read as empty.
pub open spec fn row_entry(row: Seq<Option<Seq<char>>>, oc: int, fc: int, lc: int, cc: int) -> EntryV {
    EntryV {
        order: trim_spec(row_cell(row, oc)->0),
        family: trim_spec(row_cell(row, fc)->0),
        latin: trim_spec(row_cell(row, lc)->0),
        chinese: match row_cell(row, cc) {
            Some(s) => trim_spec(s),
            None => Seq::empty(),
        },
    }
}

/// The entries the data rows yield, in row order, skipping rows that are
/// not accepted.
pub open spec fn rows_entries(
    rows: Seq<Seq<Option<Seq<char>>>>,
    oc: int,
    fc: int,
    lc: int,
    cc: int,
) -> Seq<EntryV>
    decreases rows.len(),
{
    if rows.len() == 0 {
        Seq::empty()
    } else {
        rows_entries(rows.drop_last(), oc, fc, lc, cc) + if row_accepted(
            rows.last(),
            oc,
            fc,
            lc,
        ) {
            seq![row_entry(rows.last(), oc, fc, lc, cc)]
        } else {
            Seq::empty()
        }
    }
}

/// Every produced entry has non-empty order, family and latin fields.
pub proof fn lemma_rows_entries_nonempty(
    rows: Seq<Seq<Option<Seq<char>>>>,
    oc: int,
    fc: int,
    lc: int,
    cc: int,
)
    ensures
        forall|k: int|
            0 <= k < rows_entries(rows, oc, fc, lc, cc).len() ==> {
                let e = #[trigger] rows_entries(rows, oc, fc, lc, cc)[k];
                e.order.len() > 0 && e.family.len() > 0 && e.latin.len() > 0
            },
    decreases rows.len(),
{
    if rows.len() > 0 {
        lemma_rows_entries_nonempty(rows.drop_last(), oc, fc, lc, cc);
        let prev = rows_entries(rows.drop_last(), oc, fc, lc, cc);
        let whole = rows_entries(rows, oc, fc, lc, cc);
        assert forall|k: int| 0 <= k < whole.len() implies {
            let e = #[trigger] whole[k];
            e.order.len() > 0 && e.family.len() > 0 && e.latin.len() > 0
        } by {
            if k < prev.len() {
                assert(whole[k] == prev[k]);
            } else {
                assert(row_accepted(rows.last(), oc, fc, lc));
            }
        }
    }
}

/// The index of the entry a lowercased latin name resolves to: the last
/// entry whose lower-cased latin equals the key, as index building was
/// last-write-wins.
pub open spec fn latin_lookup(entries: Seq<EntryV>, key: Seq<char>) -> Option<int>
    decreases entries.len(),
{
    if entries.len() == 0 {
        None
    } else if lower(entries[entries.len() - 1].latin) == key {
        Some(entries.len() - 1)
    } else {
        latin_lookup(entries.drop_last(), key)
    }
}

/// What `latin_lookup` returns: the largest index whose lower-cased
/// latin equals the key, or nothing when no entry matches.
pub proof fn lemma_latin_lookup_characterizes(entries: Seq<EntryV>, key: Seq<char>)
    ensures
        latin_lookup(entries, key) matches Some(i) ==> 0 <= i < entries.len() && lower(
            entries[i].latin,
        ) == key && forall|j: int| i < j < entries.len() ==> lower(#[trigger] entries[j].latin) != key,
        latin_lookup(entries, key) is None ==> forall|j: int|
            0 <= j < entries.len() ==> lower(#[trigger] entries[j].latin) != key,
    decreases entries.len(),
{
    if entries.len() > 0 {
        let prev = entries.drop_last();
        lemma_latin_lookup_characterizes(prev, key);
        if lower(entries[entries.len() - 1].latin) != key {
            assert(latin_lookup(entries, key) == latin_lookup(prev, key));
            match latin_lookup(prev, key) {
                Some(i) => {
                    assert(entries[i] == prev[i]);
                    assert forall|j: int| i < j < entries.len() implies lower(
                        #[trigger] entries[j].latin,
                    ) != key by {
                        if j < entries.len() - 1 {
                            assert(entries[j] == prev[j]);
                        }
                    }
                },
                None => {
                    assert forall|j: int| 0 <= j < entries.len() implies lower(
                        #[trigger] entries[j].latin,
                    ) != key by {
                        if j < entries.len() - 1 {
                            assert(entries[j] == prev[j]);
                        }
                    }
                },
            }
        }
    }
}

/// Case-insensitivity of the latin index: a query in any casing whose
/// lower-cased form matches a loaded entry's lower-cased latin name
/// resolves, and resolves to an entry with that same lower-cased latin.
pub proof fn lemma_latin_lookup_any_casing(entries: Seq<EntryV>, i: int, q: Seq<char>)
    requires
        0 <= i < entries.len(),
        lower(q) == lower(entries[i].latin),
    ensures
        latin_lookup(entries, lower(q)) matches Some(j) && i <= j < entries.len() && lower(
            entries[j].latin,
        ) == lower(entries[i].latin),
    decreases entries.len(),
{
    if entries.len() > 0 && i < entries.len() - 1 {
        if lower(entries[entries.len() - 1].latin) != lower(q) {
            lemma_latin_lookup_any_casing(entries.drop_last(), i, q);
        }
    }
}

/// When lower-cased latin names are pairwise distinct, the lookup of an
/// entry's own name in any casing returns exactly that entry's index.
pub proof fn lemma_latin_lookup_unique(entries: Seq<EntryV>, i: int, q: Seq<char>)
    requires
        0 <= i < entries.len(),
        lower(q) == lower(entries[i].latin),
        forall|a: int, b: int|
            0 <= a < b < entries.len() ==> lower(#[trigger] entries[a].latin) != lower(
                #[trigger] entries[b].latin,
            ),
    ensures
        latin_lookup(entries, lower(q)) == Some(i),
{
    lemma_latin_lookup_any_casing(entries, i, q);
    lemma_latin_lookup_characterizes(entries, lower(q));
}

/// The loaded reference taxonomy: the accepted rows in worksheet order.
#[derive(Debug)]
pub struct IocDatabase {
    pub entries: Vec<IocEntry>,
}

impl IocDatabase {
    /// The views of the loaded entries.
    pub open spec fn view_entries(&self) -> Seq<EntryV> {
        entries_view(self.entries@)
    }

    /// Builds the database from worksheet cells. The first row is the
    /// header; it must name all four required columns, later duplicates
    /// shadowing earlier ones. Data rows missing order, family or latin
    /// (after trimming) are skipped silently.
    pub fn load_from_rows(rows: &Vec<Vec<Option<String>>>) -> (r: Result<IocDatabase, DbError>)
        ensures
            rows@.len() == 0 ==> (r matches Err(e) && e is EmptySheet),
            ({
                let rv = rows_view(rows@);
                rows@.len() > 0 ==> {
                    let header = rv[0];
                    if col_of(header, "Order"@) is None {
                        r matches Err(e) && e matches DbError::MissingColumn(n) && n@ == "Order"@
                    } else if col_of(header, "Family"@) is None {
                        r matches Err(e) && e matches DbError::MissingColumn(n) && n@ == "Family"@
                    } else if col_of(header, "IOC_15.1"@) is None {
                        r matches Err(e) && e matches DbError::MissingColumn(n) && n@
                            == "IOC_15.1"@
                    } else if col_of(header, "Chinese"@) is None {
                        r matches Err(e) && e matches DbError::MissingColumn(n) && n@ == "Chinese"@
                    } else {
                        r matches Ok(db) && db.view_entries() == rows_entries(
                            rv.skip(1),
                            col_of(header, "Order"@)->0,
                            col_of(header, "Family"@)->0,
                            col_of(header, "IOC_15.1"@)->0,
                            col_of(header, "Chinese"@)->0,
                        )
                    }
                }
            }),
    {
        if rows.len() == 0 {
            return Err(DbError::EmptySheet);
        }
        let header = &rows[0];
        let oc = match find_column(header, "Order") {
            Some(c) => c,
            None => {
                return Err(DbError::MissingColumn(String::from_str("Order")));
            },
        };
        let fc = match find_column(header, "Family") {
            Some(c) => c,
            None => {
                return Err(DbError::MissingColumn(String::from_str("Family")));
            },
        };
        let lc = match find_column(header, "IOC_15.1") {
            Some(c) => c,
            None => {
                return Err(DbError::MissingColumn(String::from_str("IOC_15.1")));
            },
        };
        let cc = match find_column(header, "Chinese") {
            Some(c) => c,
            None => {
                return Err(DbError::MissingColumn(String::from_str("Chinese")));
            },
        };
        let ghost rv = rows_view(rows@);
        let mut entries: Vec<IocEntry> = Vec::new();
        let mut i: usize = 1;
        while i < rows.len()
            invariant
                1 <= i <= rows.len(),
                rv == rows_view(rows@),
                rv.len() == rows@.len(),
                entries@.map_values(|e: IocEntry| e@) == rows_entries(
                    rv.subrange(1, i as int),
                    oc as int,
                    fc as int,
                    lc as int,
                    cc as int,
                ),
            decreases rows.len() - i,
        {
            let row = &rows[i];
            let ghost prefix = rv.subrange(1, i as int);
            let ghost prefix2 = rv.subrange(1, i + 1);
            proof {
                assert(prefix2.drop_last() =~= prefix);
                assert(prefix2.last() == rv[i as int]);
                assert(rv[i as int] == cells_view(row@));
            }
            let order_c = get_cell(row, oc);
            let family_c = get_cell(row, fc);
            let latin_c = get_cell(row, lc);
            let chinese_c = get_cell(row, cc);
            let accepted: bool = match (&order_c, &family_c, &latin_c) {
                (Some(o), Some(f), Some(l)) => {
                    let ot = trim(o.as_str());
                    let ft = trim(f.as_str());
                    let lt = trim(l.as_str());
                    if ot.as_str().unicode_len() > 0 && ft.as_str().unicode_len() > 0
                        && lt.as_str().unicode_len() > 0 {
                        let ch = match &chinese_c {
                            Some(c) => trim(c.as_str()),
                            None => String::new(),
                        };
                        entries.push(IocEntry { order: ot, family: ft, latin: lt, chinese: ch });
                        true
                    } else {
                        false
                    }
                },
                _ => false,
            };
            proof {
                assert(row_accepted(cells_view(row@), oc as int, fc as int, lc as int)
                    == accepted);
                if accepted {
                    assert(entries@.map_values(|e: IocEntry| e@) =~= rows_entries(
                        prefix,
                        oc as int,
                        fc as int,
                        lc as int,
                        cc as int,
                    ).push(row_entry(cells_view(row@), oc as int, fc as int, lc as int, cc as int)));
                    assert(rows_entries(prefix2, oc as int, fc as int, lc as int, cc as int)
                        =~= rows_entries(prefix, oc as int, fc as int, lc as int, cc as int).push(
                        row_entry(cells_view(row@), oc as int, fc as int, lc as int, cc as int),
                    ));
                } else {
                    assert(rows_entries(prefix2, oc as int, fc as int, lc as int, cc as int)
                        =~= rows_entries(prefix, oc as int, fc as int, lc as int, cc as int));
                }
            }
            i = i + 1;
        }
        proof {
            assert(rv.subrange(1, rows@.len() as int) =~= rv.skip(1));
        }
        Ok(IocDatabase { entries })
    }

    /// Resolves a latin name, in any casing, to the index of the entry
    /// it names; later entries shadow earlier ones with the same
    /// lower-cased latin name.
    pub fn lookup_latin(&self, query: &str) -> (r: Option<usize>)
        ensures
            match r {
                Some(i) => latin_lookup(self.view_entries(), lower(query@)) == Some(i as int),
                None => latin_lookup(self.view_entries(), lower(query@)) is None,
            },
    {
        let key = to_lower(query);
        let ghost ev = self.view_entries();
        proof {
            assert(ev.subrange(0, ev.len() as int) =~= ev);
        }
        let mut i: usize = self.entries.len();
        while i > 0
            invariant
                i <= self.entries.len(),
                ev == self.view_entries(),
                key@ == lower(query@),
                latin_lookup(ev, lower(query@)) == latin_lookup(
                    ev.subrange(0, i as int),
                    lower(query@),
                ),
            decreases i,
        {
            let cand = to_lower(self.entries[i - 1].latin.as_str());
            proof {
                assert(ev[i - 1] == self.entries@[i - 1]@);
                assert(ev.subrange(0, i as int).last() == ev[i - 1]);
                assert(ev.subrange(0, i as int).drop_last() =~= ev.subrange(0, i - 1));
                assert(cand@ == lower(ev[i - 1].latin));
            }
            if cand.eq(&key) {
                proof {
                    let k = lower(query@);
                    let sub = ev.subrange(0, i as int);
                    assert(lower(sub.last().latin) == k);
                    assert(latin_lookup(sub, k) == Some(i - 1 as int));
                }
                return Some(i - 1);
            }
            proof {
                let k = lower(query@);
                let sub = ev.subrange(0, i as int);
                assert(lower(sub.last().latin) != k);
                assert(latin_lookup(sub, k) == latin_lookup(sub.drop_last(), k));
            }
            i = i - 1;
        }
        proof {
            assert(ev.subrange(0, 0) =~= Seq::<EntryV>::empty());
        }
        None
    }
}

/// Looks a header name up among the header cells; the last occurrence
/// wins.
fn find_column(header: &Vec<Option<String>>, name: &str) -> (r: Option<usize>)
    ensures
        match r {
            Some(c) => col_of(cells_view(header@), name@) == Some(c as int),
            None => col_of(cells_view(header@), name@) is None,
        },
{
    let ghost hv = cells_view(header@);
    proof {
        assert(hv.subrange(0, hv.len() as int) =~= hv);
    }
    let name_s = String::from_str(name);
    let mut i: usize = header.len();
    while i > 0
        invariant
            i <= header.len(),
            hv == cells_view(header@),
            hv.len() == header@.len(),
            name_s@ == name@,
            col_of(hv, name@) == col_of(hv.subrange(0, i as int), name@),
        decreases i,
    {
        proof {
            assert(hv[i - 1] == (match header@[i - 1] {
                Some(s) => Some(s@),
                None => None,
            }));
            assert(hv.subrange(0, i as int).last() == hv[i - 1]);
            assert(hv.subrange(0, i as int).drop_last() =~= hv.subrange(0, i - 1));
        }
        match &header[i - 1] {
            Some(cell) => {
                if cell.eq(&name_s) {
                    return Some(i - 1);
                }
            },
            None => {},
        }
        i = i - 1;
    }
    proof {
        assert(hv.subrange(0, 0) =~= Seq::<Option<Seq<char>>>::empty());
    }
    None
}

/// The cell of a row at a column, absent when the row is short.
fn get_cell(row: &Vec<Option<String>>, c: usize) -> (r: Option<String>)
    ensures
        ({
            let rc = row_cell(cells_view(row@), c as int);
            match r {
                Some(s) => rc == Some(s@),
                None => rc is None,
            }
        }),
{
    if c < row.len() {
        match &row[c] {
            Some(s) => Some(s.clone()),
            None => None,
        }
    } else {
        None
    }
}

} // verus!
