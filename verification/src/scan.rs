//! Per-scan export selection: a scan is exported iff it has Cartesian
//! data, holds at least one record, and — when an allow-list is
//! configured — its index is listed.

use vstd::prelude::*;
use crate::allow::AllowList;
use crate::stream::Vec3;

verus! {

broadcast use vstd::seq_lib::lemma_seq_contains_after_push;

/// What the source file declares about one scan entry: its record
/// count, whether its points carry Cartesian coordinates, and the
/// translation of its rigid-body transform if it declares one. Only
/// the translation is carried: the current output uses the transform
/// solely as a single labeled marker point.
#[derive(Clone, Copy, PartialEq, Eq, Debug)]
pub struct ScanMeta {
    pub records: u64,
    pub has_cartesian: bool,
    pub transform: Option<Vec3>,
}

/// The selection rule for one scan.
pub open spec fn scan_eligible(scan: ScanMeta, index: usize, allow: Option<AllowList>) -> bool {
    &&& scan.has_cartesian
    &&& scan.records >= 1
    &&& (allow matches Some(a) ==> a.spec_allows(index))
}

/// Why a scan is streamed or skipped. The two informational skips are
/// reported; an unlisted scan is skipped silently.
#[derive(Clone, Copy, PartialEq, Eq, Debug)]
pub enum ScanDecision {
    /// Eligible: the scan's records are streamed.
    Export,
    /// Skipped: the scan has no Cartesian data.
    NoCoordinates,
    /// Skipped: the scan holds no records.
    Empty,
    /// Skipped: an allow-list is configured and does not list the scan.
    NotAllowed,
}

/// Decide one scan, with the same precedence as the reported skip
/// messages: missing coordinates are reported before emptiness, and
/// the allow-list is consulted last.
pub fn classify_scan(scan: &ScanMeta, index: usize, allow: &Option<AllowList>) -> (d: ScanDecision)
    ensures
        d is Export <==> scan_eligible(*scan, index, *allow),
        d is NoCoordinates <==> !scan.has_cartesian,
        d is Empty <==> scan.has_cartesian && scan.records < 1,
        d is NotAllowed <==> scan.has_cartesian && scan.records >= 1
            && !(allow matches Some(a) ==> a.spec_allows(index)),
{
    if !scan.has_cartesian {
        ScanDecision::NoCoordinates
    } else if scan.records < 1 {
        ScanDecision::Empty
    } else {
        match allow {
            Some(a) => {
                if a.allows(index) {
                    ScanDecision::Export
                } else {
                    ScanDecision::NotAllowed
                }
            }
            None => ScanDecision::Export,
        }
    }
}

/// The indices of the eligible scans, in scan order.
pub open spec fn selected_indices(scans: Seq<ScanMeta>, allow: Option<AllowList>) -> Seq<usize>
    decreases scans.len(),
{
    if scans.len() == 0 {
        Seq::empty()
    } else if scan_eligible(scans.last(), (scans.len() - 1) as usize, allow) {
        selected_indices(scans.drop_last(), allow).push((scans.len() - 1) as usize)
    } else {
        selected_indices(scans.drop_last(), allow)
    }
}

/// Every selected index names a scan of the file.
pub proof fn lemma_selected_indices_in_range(scans: Seq<ScanMeta>, allow: Option<AllowList>)
    ensures
        forall|k: int| 0 <= k < selected_indices(scans, allow).len()
            ==> (#[trigger] selected_indices(scans, allow)[k]) < scans.len(),
    decreases scans.len(),
{
    if scans.len() > 0 {
        let prefix = scans.drop_last();
        let selp = selected_indices(prefix, allow);
        let sel = selected_indices(scans, allow);
        lemma_selected_indices_in_range(prefix, allow);
        assert forall|k: int| 0 <= k < sel.len() implies (#[trigger] sel[k]) < scans.len() by {
            if scan_eligible(scans.last(), (scans.len() - 1) as usize, allow) {
                assert(sel == selp.push((scans.len() - 1) as usize));
                if k < selp.len() {
                    assert(sel[k] == selp[k]);
                }
            } else {
                assert(sel[k] == selp[k]);
            }
        }
    }
}

/// A scan without Cartesian data, or without records, is never
/// selected, whatever the allow-list says.
pub proof fn lemma_skipped_scan_never_selected(scans: Seq<ScanMeta>, allow: Option<AllowList>, i: usize)
    requires
        scans.len() <= usize::MAX,
        i < scans.len(),
        !scans[i as int].has_cartesian || scans[i as int].records < 1,
    ensures
        !selected_indices(scans, allow).contains(i),
    decreases scans.len(),
{
    let prefix = scans.drop_last();
    let selp = selected_indices(prefix, allow);
    let last_index = (scans.len() - 1) as usize;
    if i < prefix.len() {
        assert(prefix[i as int] == scans[i as int]);
        lemma_skipped_scan_never_selected(prefix, allow, i);
    } else if selp.contains(i) {
        lemma_selected_indices_in_range(prefix, allow);
        let k = selp.lemma_contains_to_index(i);
        assert(false);
    }
    assert(scans.last() == scans[scans.len() - 1]);
    if scan_eligible(scans.last(), last_index, allow) {
        assert(selected_indices(scans, allow) == selp.push(last_index));
        assert(i != last_index);
    }
}

/// With an allow-list configured, a scan whose index is not listed is
/// never selected, whatever its content.
pub proof fn lemma_unlisted_scan_never_selected(scans: Seq<ScanMeta>, allow: AllowList, i: usize)
    requires
        scans.len() <= usize::MAX,
        i < scans.len(),
        !allow.spec_allows(i),
    ensures
        !selected_indices(scans, Some(allow)).contains(i),
    decreases scans.len(),
{
    let prefix = scans.drop_last();
    let selp = selected_indices(prefix, Some(allow));
    let last_index = (scans.len() - 1) as usize;
    if i < prefix.len() {
        lemma_unlisted_scan_never_selected(prefix, allow, i);
    } else if selp.contains(i) {
        lemma_selected_indices_in_range(prefix, Some(allow));
        let k = selp.lemma_contains_to_index(i);
        assert(false);
    }
    if scan_eligible(scans.last(), last_index, Some(allow)) {
        assert(selected_indices(scans, Some(allow)) == selp.push(last_index));
        assert(i != last_index);
    }
}

/// Every eligible scan is selected.
pub proof fn lemma_eligible_scan_selected(scans: Seq<ScanMeta>, allow: Option<AllowList>, i: usize)
    requires
        scans.len() <= usize::MAX,
        i < scans.len(),
        scan_eligible(scans[i as int], i, allow),
    ensures
        selected_indices(scans, allow).contains(i),
    decreases scans.len(),
{
    let prefix = scans.drop_last();
    let selp = selected_indices(prefix, allow);
    let last_index = (scans.len() - 1) as usize;
    assert(scans.last() == scans[scans.len() - 1]);
    if i < prefix.len() {
        assert(prefix[i as int] == scans[i as int]);
        lemma_eligible_scan_selected(prefix, allow, i);
        if scan_eligible(scans.last(), last_index, allow) {
            assert(selected_indices(scans, allow) == selp.push(last_index));
        }
    } else {
        assert(i == last_index);
        assert(selected_indices(scans, allow) == selp.push(i));
    }
}

/// Selection preserves scan order: the selected indices are strictly
/// increasing.
pub proof fn lemma_selected_indices_increasing(scans: Seq<ScanMeta>, allow: Option<AllowList>)
    requires
        scans.len() <= usize::MAX,
    ensures
        forall|k1: int, k2: int|
            #![trigger selected_indices(scans, allow)[k1], selected_indices(scans, allow)[k2]]
            0 <= k1 < k2 < selected_indices(scans, allow).len()
                ==> selected_indices(scans, allow)[k1] < selected_indices(scans, allow)[k2],
    decreases scans.len(),
{
    if scans.len() > 0 {
        let prefix = scans.drop_last();
        let selp = selected_indices(prefix, allow);
        let sel = selected_indices(scans, allow);
        lemma_selected_indices_increasing(prefix, allow);
        lemma_selected_indices_in_range(prefix, allow);
        assert forall|k1: int, k2: int|
            0 <= k1 < k2 < sel.len() implies sel[k1] < sel[k2] by {
            if scan_eligible(scans.last(), (scans.len() - 1) as usize, allow) {
                assert(sel == selp.push((scans.len() - 1) as usize));
                assert(sel[k1] == selp[k1]);
                if k2 < selp.len() {
                    assert(sel[k2] == selp[k2]);
                } else {
                    assert(selp[k1] < prefix.len());
                }
            } else {
                assert(sel[k1] == selp[k1]);
                assert(sel[k2] == selp[k2]);
            }
        }
    }
}

/// The order-preserving filtered list of scan indices to export.
pub fn select_scans(scans: &Vec<ScanMeta>, allow: &Option<AllowList>) -> (r: Vec<usize>)
    ensures
        r@ == selected_indices(scans@, *allow),
{
    let mut r: Vec<usize> = Vec::new();
    let mut i: usize = 0;
    while i < scans.len()
        invariant
            i <= scans@.len(),
            r@ == selected_indices(scans@.take(i as int), *allow),
        decreases scans@.len() - i,
    {
        proof {
            assert(scans@.take(i + 1).drop_last() =~= scans@.take(i as int));
            assert(scans@.take(i + 1).last() == scans@[i as int]);
        }
        let sm = scans[i];
        let d = classify_scan(&sm, i, allow);
        match d {
            ScanDecision::Export => {
                r.push(i);
            }
            _ => {}
        }
        i = i + 1;
    }
    proof {
        assert(scans@.take(scans@.len() as int) =~= scans@);
    }
    r
}

} // verus!
