//! The data model: reference-taxonomy rows, per-file cache records, the
//! matched-photo record a scan produces, and the sorted taxonomic tree
//! returned to callers.

use vstd::prelude::*;

verus! {

/// One accepted row of the reference taxonomy.
#[derive(Debug, Clone)]
pub struct IocEntry {
    pub order: String,
    pub family: String,
    pub latin: String,
    pub chinese: String,
}

/// The view of a taxonomy row: its four trimmed fields.
#[verifier::ext_equal]
pub ghost struct EntryV {
    pub order: Seq<char>,
    pub family: Seq<char>,
    pub latin: Seq<char>,
    pub chinese: Seq<char>,
}

impl View for IocEntry {
    type V = EntryV;

    open spec fn view(&self) -> EntryV {
        EntryV {
            order: self.order@,
            family: self.family@,
            latin: self.latin@,
            chinese: self.chinese@,
        }
    }
}

/// The views of a list of taxonomy rows.
pub open spec fn entries_view(v: Seq<IocEntry>) -> Seq<EntryV> {
    v.map_values(|e: IocEntry| e@)
}

/// One photo as it appears in the tree.
#[derive(Debug, Clone)]
pub struct PhotoItem {
    pub path: String,
    pub file_name: String,
}

/// The view of a photo: its two strings.
#[verifier::ext_equal]
pub ghost struct PhotoV {
    pub path: Seq<char>,
    pub name: Seq<char>,
}

impl View for PhotoItem {
    type V = PhotoV;

    open spec fn view(&self) -> PhotoV {
        PhotoV { path: self.path@, name: self.file_name@ }
    }
}

/// Leaf node: one species with its photos, sorted by file name.
#[derive(Debug, Clone)]
pub struct SpeciesNode {
    pub latin: String,
    pub chinese: String,
    pub count: usize,
    pub photos: Vec<PhotoItem>,
}

#[verifier::ext_equal]
pub ghost struct SpeciesV {
    pub latin: Seq<char>,
    pub chinese: Seq<char>,
    pub count: int,
    pub photos: Seq<PhotoV>,
}

/// The views of a photo list.
pub open spec fn photos_view(s: Seq<PhotoItem>) -> Seq<PhotoV> {
    s.map_values(|p: PhotoItem| p@)
}

impl View for SpeciesNode {
    type V = SpeciesV;

    open spec fn view(&self) -> SpeciesV {
        SpeciesV {
            latin: self.latin@,
            chinese: self.chinese@,
            count: self.count as int,
            photos: photos_view(self.photos@),
        }
    }
}

/// A genus with its species, sorted by latin name.
#[derive(Debug, Clone)]
pub struct GenusNode {
    pub name: String,
    pub count: usize,
    pub species: Vec<SpeciesNode>,
}

#[verifier::ext_equal]
pub ghost struct GenusV {
    pub name: Seq<char>,
    pub count: int,
    pub species: Seq<SpeciesV>,
}

/// The views of a species list.
pub open spec fn species_list_view(s: Seq<SpeciesNode>) -> Seq<SpeciesV> {
    s.map_values(|n: SpeciesNode| n@)
}

impl View for GenusNode {
    type V = GenusV;

    open spec fn view(&self) -> GenusV {
        GenusV {
            name: self.name@,
            count: self.count as int,
            species: species_list_view(self.species@),
        }
    }
}

/// A family with its genera, sorted by name.
#[derive(Debug, Clone)]
pub struct FamilyNode {
    pub name: String,
    pub count: usize,
    pub genera: Vec<GenusNode>,
}

#[verifier::ext_equal]
pub ghost struct FamilyV {
    pub name: Seq<char>,
    pub count: int,
    pub genera: Seq<GenusV>,
}

/// The views of a genus list.
pub open spec fn genera_view(s: Seq<GenusNode>) -> Seq<GenusV> {
    s.map_values(|n: GenusNode| n@)
}

impl View for FamilyNode {
    type V = FamilyV;

    open spec fn view(&self) -> FamilyV {
        FamilyV {
            name: self.name@,
            count: self.count as int,
            genera: genera_view(self.genera@),
        }
    }
}

/// An order with its families, sorted by name.
#[derive(Debug, Clone)]
pub struct OrderNode {
    pub name: String,
    pub count: usize,
    pub families: Vec<FamilyNode>,
}

#[verifier::ext_equal]
pub ghost struct OrderV {
    pub name: Seq<char>,
    pub count: int,
    pub families: Seq<FamilyV>,
}

/// The views of a family list.
pub open spec fn families_view(s: Seq<FamilyNode>) -> Seq<FamilyV> {
    s.map_values(|n: FamilyNode| n@)
}

impl View for OrderNode {
    type V = OrderV;

    open spec fn view(&self) -> OrderV {
        OrderV {
            name: self.name@,
            count: self.count as int,
            families: families_view(self.families@),
        }
    }
}

/// The whole hierarchy, orders sorted by name.
#[derive(Debug, Clone)]
pub struct TaxonTree {
    pub orders: Vec<OrderNode>,
}

/// The views of an order list.
pub open spec fn orders_view(s: Seq<OrderNode>) -> Seq<OrderV> {
    s.map_values(|n: OrderNode| n@)
}

impl View for TaxonTree {
    type V = Seq<OrderV>;

    open spec fn view(&self) -> Seq<OrderV> {
        orders_view(self.orders@)
    }
}

/// Counts accumulated by one scan.
#[derive(Debug, Clone)]
pub struct ScanStats {
    pub total_files: usize,
    pub matched_files: usize,
    pub unmatched_files: usize,
}

/// The roots a scan walks.
#[derive(Debug, Clone)]
pub struct ScanRequest {
    pub roots: Vec<String>,
}

/// What one scan returns.
#[derive(Debug, Clone)]
pub struct ScanResponse {
    pub tree: TaxonTree,
    pub stats: ScanStats,
    pub total_species: usize,
}

/// One classified photo, by index into the species list.
#[derive(Debug, Clone)]
pub struct MatchedPhoto {
    pub path: String,
    pub file_name: String,
    pub species_idx: usize,
}

/// The last known classification of one file path.
#[derive(Debug, Clone)]
pub struct CacheEntry {
    pub path: String,
    pub mtime: i64,
    pub species_latin: Option<String>,
}

/// The persisted cache snapshot: records under one reference fingerprint.
#[derive(Debug, Clone)]
pub struct CacheFile {
    pub version: u32,
    pub ioc_fingerprint: String,
    pub entries: Vec<CacheEntry>,
}

/// The view of a cache record: path, seconds, and the stored latin name.
pub open spec fn cache_entry_view(e: CacheEntry) -> (Seq<char>, int, Option<Seq<char>>) {
    (
        e.path@,
        e.mtime as int,
        match e.species_latin {
            Some(l) => Some(l@),
            None => None,
        },
    )
}

} // verus!
