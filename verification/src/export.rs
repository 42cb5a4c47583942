//! The whole run over one source file, as data: selection composed
//! with per-scan streaming. A scan that the selector skips contributes
//! no visualization records at all.

use vstd::prelude::*;
use crate::allow::AllowList;
use crate::scan::{lemma_selected_indices_in_range, select_scans, selected_indices, ScanMeta};
use crate::stream::{scan_emissions, scan_emissions_spec, PointRecord, VisRecord};

verus! {

/// The visualization records of one exported scan, tagged with its
/// zero-based scan index.
pub struct ScanExport {
    pub index: usize,
    pub out: Vec<VisRecord>,
}

/// Process every scan of a file: the eligible scans, in order, each
/// with everything it sends to the sink.
pub fn export_plan(
    scans: &Vec<ScanMeta>,
    records_per_scan: &Vec<Vec<PointRecord>>,
    allow: &Option<AllowList>,
    capacity: usize,
) -> (r: Vec<ScanExport>)
    requires
        records_per_scan@.len() == scans@.len(),
        1 <= capacity,
    ensures
        r@.len() == selected_indices(scans@, *allow).len(),
        forall|k: int| 0 <= k < r@.len()
            ==> (#[trigger] r@[k]).index == selected_indices(scans@, *allow)[k],
        forall|k: int| 0 <= k < r@.len() ==> scan_emissions_spec(
            scans@[(#[trigger] r@[k]).index as int],
            records_per_scan@[r@[k].index as int]@,
            capacity as int,
            r@[k].out@,
        ),
{
    let selected = select_scans(scans, allow);
    proof {
        lemma_selected_indices_in_range(scans@, *allow);
    }
    let mut r: Vec<ScanExport> = Vec::new();
    let mut k: usize = 0;
    while k < selected.len()
        invariant
            k <= selected@.len(),
            selected@ == selected_indices(scans@, *allow),
            records_per_scan@.len() == scans@.len(),
            1 <= capacity,
            forall|j: int| 0 <= j < selected@.len() ==> (#[trigger] selected@[j]) < scans@.len(),
            r@.len() == k,
            forall|j: int| 0 <= j < k ==> (#[trigger] r@[j]).index == selected@[j],
            forall|j: int| 0 <= j < k ==> scan_emissions_spec(
                scans@[(#[trigger] r@[j]).index as int],
                records_per_scan@[r@[j].index as int]@,
                capacity as int,
                r@[j].out@,
            ),
        decreases selected@.len() - k,
    {
        let idx = selected[k];
        let sm = scans[idx];
        let out = scan_emissions(&sm, &records_per_scan[idx], capacity);
        r.push(ScanExport { index: idx, out });
        k = k + 1;
    }
    r
}

} // verus!
