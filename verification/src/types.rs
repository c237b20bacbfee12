//! The values the library hands out: index and alias counts, search results
//! and sheet previews.
use vstd::prelude::*;

verus! {

/// Counts of the index.
#[derive(Clone, Debug, PartialEq)]
pub struct IndexStatus {
    pub file_count: i64,
    pub sheet_count: i64,
    pub indexed_cell_sheet_count: i64,
    pub pending_deep_index_count: i64,
}

/// Counts of the alias table.
#[derive(Clone, Debug, PartialEq)]
pub struct AliasStats {
    pub alias_count: i64,
    pub mapping_count: i64,
}

/// One file of a search result with its matching sheets.
#[derive(Clone, Debug, PartialEq)]
pub struct SearchResult {
    pub filename: String,
    pub filepath: String,
    pub sheet_names: Vec<String>,
    pub sheet_count: usize,
    pub sheet_names_display: String,
    /// For each sheet name (in `sheet_names` order), its aliases.
    pub sheet_aliases: Vec<(String, Vec<String>)>,
}

#[derive(Clone, Debug, PartialEq)]
pub struct SearchResponse {
    pub results: Vec<SearchResult>,
    pub total_files: usize,
    pub total_sheets: usize,
}

/// A cell that matched a search, 1-based.
#[derive(Clone, Debug, PartialEq)]
pub struct Hit {
    pub row: i64,
    pub col: i64,
    pub value: String,
}

/// A window of a sheet with the hits found in it.
#[derive(Clone, Debug, PartialEq)]
pub struct PreviewResponse {
    pub hits: Vec<Hit>,
    pub data: Vec<Vec<String>>,
    pub header_row: Vec<String>,
    pub start_row: usize,
    pub start_col: usize,
}

pub struct HitView {
    pub row: i64,
    pub col: i64,
    pub value: Seq<char>,
}

pub open spec fn hit_view(h: Hit) -> HitView {
    HitView { row: h.row, col: h.col, value: h.value@ }
}

pub open spec fn hits_view(v: Seq<Hit>) -> Seq<HitView> {
    v.map_values(|h: Hit| hit_view(h))
}

pub open spec fn row_view(r: Seq<String>) -> Seq<Seq<char>> {
    r.map_values(|s: String| s@)
}

pub open spec fn grid_view(g: Seq<Vec<String>>) -> Seq<Seq<Seq<char>>> {
    g.map_values(|r: Vec<String>| row_view(r@))
}

pub struct PreviewView {
    pub hits: Seq<HitView>,
    pub data: Seq<Seq<Seq<char>>>,
    pub header_row: Seq<Seq<char>>,
    pub start_row: usize,
    pub start_col: usize,
}

pub open spec fn preview_view(p: PreviewResponse) -> PreviewView {
    PreviewView {
        hits: hits_view(p.hits@),
        data: grid_view(p.data@),
        header_row: row_view(p.header_row@),
        start_row: p.start_row,
        start_col: p.start_col,
    }
}

} // verus!
