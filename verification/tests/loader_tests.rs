use e57_loader::allow::{parse_allow_list, AllowList};
use e57_loader::extension::extension;
use e57_loader::paths::{format_chunk_path, format_point_path, format_scan_label, format_usize};
use e57_loader::scan::{classify_scan, select_scans, ScanDecision, ScanMeta};
use e57_loader::stream::{
    scan_emissions, Cartesian, Chunk, ChunkBuffer, PointRecord, Rgb, Vec3, VisRecord,
};
use e57_loader::CHUNK_SIZE;

fn v3(x: f32, y: f32, z: f32) -> Vec3 {
    Vec3 { x: x.to_bits(), y: y.to_bits(), z: z.to_bits() }
}

fn valid(x: f32, y: f32, z: f32) -> PointRecord {
    PointRecord { cartesian: Cartesian::Valid(v3(x, y, z)), color: None }
}

fn valid_colored(x: f32, y: f32, z: f32, c: Rgb) -> PointRecord {
    PointRecord { cartesian: Cartesian::Valid(v3(x, y, z)), color: Some(c) }
}

fn missing() -> PointRecord {
    PointRecord { cartesian: Cartesian::Missing, color: None }
}

fn plain_scan(records: u64) -> ScanMeta {
    ScanMeta { records, has_cartesian: true, transform: None }
}

const WHITE: Rgb = Rgb { r: 255, g: 255, b: 255 };

// --- extension ---

#[test]
fn extension_lowercases_and_extracts() {
    assert_eq!(extension("cloud.e57"), "e57");
    assert_eq!(extension("CLOUD.E57"), "e57");
    assert_eq!(extension("/data/scans/Cloud.E57"), "e57");
    assert_eq!(extension("archive.tar.gz"), "gz");
}

#[test]
fn extension_empty_cases() {
    assert_eq!(extension(""), "");
    assert_eq!(extension("noext"), "");
    assert_eq!(extension("/data/noext"), "");
    assert_eq!(extension(".hidden"), "");
    assert_eq!(extension("/data/.hidden"), "");
    assert_eq!(extension("trailing."), "");
}

#[test]
fn extension_ignores_trailing_separators_and_dot_components() {
    // As with the standard path routines, trailing separators and
    // lone-dot components do not hide the final component...
    assert_eq!(extension("a/b.E57/"), "e57");
    assert_eq!(extension("a/b.E57//"), "e57");
    assert_eq!(extension("a/b.e57/."), "e57");
    // ...while a final parent component, the bare dot components and a
    // bare root have no extension.
    assert_eq!(extension("a/.."), "");
    assert_eq!(extension("."), "");
    assert_eq!(extension(".."), "");
    assert_eq!(extension("./"), "");
    assert_eq!(extension("///"), "");
}

// --- allow-list parsing ---

#[test]
fn allow_list_single_entry() {
    let a = parse_allow_list("1");
    assert!(a.allows(1));
    assert!(!a.allows(0));
    assert!(!a.allows(2));
}

#[test]
fn allow_list_trims_and_skips_malformed() {
    let a = parse_allow_list(" 0 , 2,\tx, 3a, -1, +7, ");
    assert!(a.allows(0));
    assert!(a.allows(2));
    assert!(a.allows(7));
    assert!(!a.allows(3));
    assert!(!a.allows(1));
}

#[test]
fn allow_list_trims_all_unicode_whitespace() {
    // The trimmed set is the Unicode White_Space property, as the
    // standard trim recognizes it: vertical tab, form feed, NEL,
    // no-break space and the wider spaces included.
    let a = parse_allow_list("\u{000B}1,\u{000C}2\u{000C},\u{0085}3,\u{00A0}4\u{00A0},\u{2003}5\u{3000}");
    for i in 1..=5usize {
        assert!(a.allows(i), "index {i} should be allowed");
    }
    assert!(!a.allows(0));
}

#[test]
fn allow_list_empty_string_allows_nothing() {
    let a = parse_allow_list("");
    for i in 0..10usize {
        assert!(!a.allows(i));
    }
}

#[test]
fn allow_list_ignores_overflowing_entries() {
    let a = parse_allow_list("99999999999999999999999999,5");
    assert!(a.allows(5));
    assert!(!a.allows(usize::MAX));
}

// --- scan selection ---

#[test]
fn empty_or_flat_scans_are_skipped() {
    // Record count 0, or no spatial coordinates: never exported.
    let empty = plain_scan(0);
    let flat = ScanMeta { records: 10, has_cartesian: false, transform: None };
    assert_eq!(classify_scan(&empty, 0, &None), ScanDecision::Empty);
    assert_eq!(classify_scan(&flat, 1, &None), ScanDecision::NoCoordinates);
    let selected = select_scans(&vec![empty, flat, plain_scan(3)], &None);
    assert_eq!(selected, vec![2]);
}

#[test]
fn allow_list_excludes_scans() {
    let scans = vec![plain_scan(5), plain_scan(5), plain_scan(5)];
    let allow = Some(AllowList::from_indices(vec![0, 2]));
    assert_eq!(classify_scan(&scans[1], 1, &allow), ScanDecision::NotAllowed);
    let selected = select_scans(&scans, &allow);
    assert_eq!(selected, vec![0, 2]);
}

#[test]
fn allow_list_of_one_keeps_only_that_scan() {
    // Allow-list "1" with 3 otherwise valid scans: only scan 1 is exported.
    let scans = vec![plain_scan(5), plain_scan(5), plain_scan(5)];
    let allow = Some(parse_allow_list("1"));
    let selected = select_scans(&scans, &allow);
    assert_eq!(selected, vec![1]);
}

#[test]
fn no_allow_list_keeps_every_valid_scan() {
    let scans = vec![plain_scan(1), plain_scan(2), plain_scan(3)];
    assert_eq!(select_scans(&scans, &None), vec![0, 1, 2]);
}

// --- chunk buffer ---

#[test]
fn missing_coordinates_contribute_nothing() {
    let mut buf = ChunkBuffer::new(2);
    assert!(buf.push(missing()).is_none());
    assert!(buf.push(missing()).is_none());
    assert!(buf.finish().is_none());
}

#[test]
fn buffer_flushes_at_capacity_and_keeps_lockstep() {
    let mut buf = ChunkBuffer::new(2);
    assert!(buf.push(valid(1.0, 0.0, 0.0)).is_none());
    assert!(buf.push(missing()).is_none());
    let c = buf.push(valid(2.0, 0.0, 0.0)).expect("second valid point fills the buffer");
    assert_eq!(c.index, 0);
    assert_eq!(c.positions, vec![v3(1.0, 0.0, 0.0), v3(2.0, 0.0, 0.0)]);
    assert_eq!(c.colors.len(), c.positions.len());
    assert!(buf.push(valid(3.0, 0.0, 0.0)).is_none());
    let rest = buf.finish().expect("one point remains");
    assert_eq!(rest.index, 1);
    assert_eq!(rest.positions, vec![v3(3.0, 0.0, 0.0)]);
    assert_eq!(rest.colors.len(), rest.positions.len());
}

#[test]
fn colors_default_to_white_and_are_kept_otherwise() {
    // A record without a color maps to opaque white (255,255,255); a
    // record's own 8-bit color is passed through unchanged.
    let mut buf = ChunkBuffer::new(2);
    let red = Rgb { r: 255, g: 0, b: 0 };
    buf.push(valid(0.0, 0.0, 0.0));
    let c = buf.push(valid_colored(1.0, 1.0, 1.0, red)).expect("buffer full");
    assert_eq!(c.colors, vec![WHITE, red]);
}

// --- whole-scan emissions ---

fn chunks_of(out: &[VisRecord]) -> Vec<&Chunk> {
    out.iter()
        .filter_map(|r| match r {
            VisRecord::Bulk { chunk } => Some(chunk),
            VisRecord::Marker { .. } => None,
        })
        .collect()
}

#[test]
fn chunk_count_is_ceiling_and_order_is_kept() {
    // 5 valid records at capacity 2: ceil(5/2) == 3 chunks, and the
    // concatenation of the chunks restores the 5 positions in order.
    let records: Vec<PointRecord> = (0..5).map(|i| valid(i as f32, 0.0, 0.0)).collect();
    let out = scan_emissions(&plain_scan(5), &records, 2);
    assert_eq!(out.len(), 3);
    let chunks = chunks_of(&out);
    let sizes: Vec<usize> = chunks.iter().map(|c| c.positions.len()).collect();
    assert_eq!(sizes, vec![2, 2, 1]);
    let indices: Vec<usize> = chunks.iter().map(|c| c.index).collect();
    assert_eq!(indices, vec![0, 1, 2]);
    let concat: Vec<Vec3> = chunks.iter().flat_map(|c| c.positions.iter().copied()).collect();
    let expected: Vec<Vec3> = (0..5).map(|i| v3(i as f32, 0.0, 0.0)).collect();
    assert_eq!(concat, expected);
    for c in &chunks {
        assert_eq!(c.positions.len(), c.colors.len());
    }
}

#[test]
fn invalid_records_are_dropped_from_chunks() {
    let records = vec![
        valid(1.0, 0.0, 0.0),
        missing(),
        valid(2.0, 0.0, 0.0),
        missing(),
        missing(),
    ];
    let out = scan_emissions(&plain_scan(5), &records, 10);
    assert_eq!(out.len(), 1);
    let chunks = chunks_of(&out);
    assert_eq!(chunks[0].positions, vec![v3(1.0, 0.0, 0.0), v3(2.0, 0.0, 0.0)]);
}

#[test]
fn no_records_no_emissions() {
    let out = scan_emissions(&plain_scan(0), &Vec::new(), 4);
    assert!(out.is_empty());
}

#[test]
fn transform_marker_comes_before_bulk_chunks() {
    let t = v3(10.0, 20.0, 30.0);
    let scan = ScanMeta { records: 3, has_cartesian: true, transform: Some(t) };
    let records = vec![valid(1.0, 0.0, 0.0), valid(2.0, 0.0, 0.0), valid(3.0, 0.0, 0.0)];
    let out = scan_emissions(&scan, &records, 2);
    assert_eq!(out.len(), 3);
    match &out[0] {
        VisRecord::Marker { translation } => assert_eq!(*translation, t),
        VisRecord::Bulk { .. } => panic!("first record must be the transform marker"),
    }
    assert!(matches!(out[1], VisRecord::Bulk { .. }));
    assert!(matches!(out[2], VisRecord::Bulk { .. }));
}

#[test]
fn no_transform_no_marker() {
    let records = vec![valid(1.0, 0.0, 0.0)];
    let out = scan_emissions(&plain_scan(1), &records, 2);
    assert_eq!(out.len(), 1);
    assert!(matches!(out[0], VisRecord::Bulk { .. }));
}

#[test]
fn large_scan_splits_at_one_million() {
    // 1,500,000 valid points at the default capacity: chunk_0 holds
    // 1,000,000 points and chunk_1 the remaining 500,000.
    let n = 1500000usize;
    let mut records = Vec::with_capacity(n);
    for i in 0..n {
        records.push(valid(i as f32, 0.0, 0.0));
    }
    let scan = plain_scan(n as u64);
    let out = scan_emissions(&scan, &records, CHUNK_SIZE);
    assert_eq!(out.len(), 2);
    let chunks = chunks_of(&out);
    assert_eq!(chunks[0].index, 0);
    assert_eq!(chunks[0].positions.len(), 1000000);
    assert_eq!(chunks[1].index, 1);
    assert_eq!(chunks[1].positions.len(), 500000);
    assert_eq!(format_chunk_path("e57_pointcloud", 0, chunks[0].index), "e57_pointcloud/scan_0/chunk_0");
    assert_eq!(format_chunk_path("e57_pointcloud", 0, chunks[1].index), "e57_pointcloud/scan_0/chunk_1");
}

// --- entity paths ---

#[test]
fn decimal_formatting() {
    assert_eq!(format_usize(0), "0");
    assert_eq!(format_usize(7), "7");
    assert_eq!(format_usize(42), "42");
    assert_eq!(format_usize(1000000), "1000000");
}

#[test]
fn entity_paths_and_label() {
    assert_eq!(format_point_path("e57_pointcloud", 3), "e57_pointcloud/scan_3/point");
    assert_eq!(format_chunk_path("prefix", 12, 34), "prefix/scan_12/chunk_34");
    assert_eq!(format_scan_label(5), "Scan 5");
}

// --- whole-run export plan ---

use e57_loader::export::export_plan;

#[test]
fn skipped_scans_emit_no_records() {
    // Scans with record count 0 or without coordinates never appear in
    // the run's output, whatever their point data claims to hold.
    let scans = vec![
        plain_scan(0),
        ScanMeta { records: 2, has_cartesian: false, transform: None },
        plain_scan(2),
    ];
    let records = vec![
        vec![valid(9.0, 9.0, 9.0)],
        vec![valid(8.0, 8.0, 8.0), valid(7.0, 7.0, 7.0)],
        vec![valid(1.0, 0.0, 0.0), valid(2.0, 0.0, 0.0)],
    ];
    let plan = export_plan(&scans, &records, &None, 8);
    assert_eq!(plan.len(), 1);
    assert_eq!(plan[0].index, 2);
    assert!(plan.iter().all(|e| e.index != 0 && e.index != 1));
}

#[test]
fn allow_list_of_one_emits_only_that_scan() {
    // Allow-list "1" with 3 otherwise valid scans: only scan 1's
    // records reach the sink.
    let scans = vec![plain_scan(1), plain_scan(1), plain_scan(1)];
    let records = vec![
        vec![valid(0.0, 0.0, 0.0)],
        vec![valid(1.0, 0.0, 0.0)],
        vec![valid(2.0, 0.0, 0.0)],
    ];
    let allow = Some(parse_allow_list("1"));
    let plan = export_plan(&scans, &records, &allow, 8);
    assert_eq!(plan.len(), 1);
    assert_eq!(plan[0].index, 1);
    let chunks = chunks_of(&plan[0].out);
    assert_eq!(chunks.len(), 1);
    assert_eq!(chunks[0].positions, vec![v3(1.0, 0.0, 0.0)]);
}
