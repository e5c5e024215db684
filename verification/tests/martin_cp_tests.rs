use martin_cp::args::parse_key_value;
use martin_cp::pipeline::{Consumer, TileRecord, BATCH_SIZE};
use martin_cp::progress::{should_report, Progress};
use martin_cp::schema::{
    select_schema, should_compute_agg_hash, MbtType, MbtTypeCli, SchemaPlan,
};
use martin_cp::tiles::{
    clamp_to_zoom, compute_tile_ranges, expand_zooms, iterate_tiles, world_rect, TileCoord,
    TileRect,
};

/// The whole-world bounds of the spherical-Mercator tiling.
const MAX_TILED: (f64, f64, f64, f64) = (-180.0, -85.05112877980659, 180.0, 85.05112877980659);

/// Convert longitude and latitude to a tile index: the floating-point forward
/// Mercator transform, clamped by the library to the zoom level's range.
fn tile_index(lon: f64, lat: f64, zoom: u8) -> (u32, u32) {
    let n = f64::from(1_u32 << zoom);
    let x = ((lon + 180.0) / 360.0 * n).floor() as u32;
    let y = ((1.0 - (lat.to_radians().tan() + 1.0 / lat.to_radians().cos()).ln()
        / std::f64::consts::PI)
        / 2.0
        * n)
        .floor() as u32;
    clamp_to_zoom(x, y, zoom)
}

/// Mirror of the program's range computation: expand the zoom selection,
/// default to the whole world, convert each (zoom, box) pair, and merge.
fn compute_ranges(
    bboxes: &[(f64, f64, f64, f64)],
    min_zoom: Option<u8>,
    max_zoom: Option<u8>,
    zoom_levels: &[u8],
) -> Vec<TileRect> {
    let zooms = expand_zooms(min_zoom, max_zoom, &zoom_levels.to_vec());
    let boxes: Vec<(f64, f64, f64, f64)> = if bboxes.is_empty() {
        vec![MAX_TILED]
    } else {
        bboxes.to_vec()
    };
    let mut rects = Vec::new();
    for zoom in &zooms {
        for (left, bottom, right, top) in &boxes {
            let (min_x, min_y) = tile_index(*left, *top, *zoom);
            let (max_x, max_y) = tile_index(*right, *bottom, *zoom);
            rects.push(TileRect { zoom: *zoom, min_x, min_y, max_x, max_y });
        }
    }
    compute_tile_ranges(&rects)
}

fn rect(zoom: u8, min_x: u32, min_y: u32, max_x: u32, max_y: u32) -> TileRect {
    TileRect { zoom, min_x, min_y, max_x, max_y }
}

#[test]
fn test_tile_index() {
    assert_eq!((0, 0), tile_index(-180.0, 85.0511, 0));
}

#[test]
fn test_compute_tile_ranges() {
    let world = MAX_TILED;
    let bbox_ca = (-124.482, 32.5288, -114.1307, 42.0095);
    let bbox_ca_south = (-118.6681, 32.5288, -114.1307, 34.8233);
    let bbox_mi = (-86.6271, 41.6811, -82.3095, 45.8058);
    let bbox_usa = (-124.8489, 24.3963, -66.8854, 49.3843);

    assert_eq!(
        compute_ranges(&[world], None, None, &[0]),
        vec![rect(0, 0, 0, 0, 0)]
    );

    assert_eq!(
        compute_ranges(&[world], None, None, &[3, 7]),
        vec![rect(3, 0, 0, 7, 7), rect(7, 0, 0, 127, 127)]
    );

    assert_eq!(
        compute_ranges(&[world], Some(2), Some(4), &[]),
        vec![rect(2, 0, 0, 3, 3), rect(3, 0, 0, 7, 7), rect(4, 0, 0, 15, 15)]
    );

    assert_eq!(
        compute_ranges(&[world], None, None, &[14]),
        vec![rect(14, 0, 0, 16383, 16383)]
    );

    assert_eq!(
        compute_ranges(&[bbox_usa], None, None, &[14]),
        vec![rect(14, 2509, 5599, 5147, 7046)]
    );

    assert_eq!(
        compute_ranges(&[bbox_usa, bbox_mi, bbox_ca], None, None, &[14]),
        vec![rect(14, 2509, 5599, 5147, 7046)]
    );

    assert_eq!(
        compute_ranges(&[bbox_ca_south, bbox_mi, bbox_ca], None, None, &[14]),
        vec![
            rect(14, 2791, 6499, 2997, 6624),
            rect(14, 4249, 5841, 4446, 6101),
            rect(14, 2526, 6081, 2790, 6624),
            rect(14, 2791, 6081, 2997, 6498),
        ]
    );
}

#[test]
fn tile_index_stays_within_zoom_range() {
    for &zoom in &[0u8, 1, 5, 14] {
        let n = 1u32 << zoom;
        for &(lon, lat) in &[
            (-180.0, 85.0511),
            (180.0, -85.0511),
            (0.0, 0.0),
            (179.9999, 84.9),
            (-179.9999, -84.9),
        ] {
            let (x, y) = tile_index(lon, lat, zoom);
            assert!(x < n, "x={x} out of range at zoom {zoom}");
            assert!(y < n, "y={y} out of range at zoom {zoom}");
        }
    }
}

#[test]
fn clamp_caps_out_of_range_indices() {
    assert_eq!((0, 0), clamp_to_zoom(0, 0, 0));
    assert_eq!((0, 0), clamp_to_zoom(5, 9, 0));
    assert_eq!((3, 2), clamp_to_zoom(3, 2, 2));
    assert_eq!((3, 3), clamp_to_zoom(4, 1000, 2));
}

#[test]
fn world_rect_covers_the_level() {
    assert_eq!(world_rect(0), rect(0, 0, 0, 0, 0));
    assert_eq!(world_rect(3), rect(3, 0, 0, 7, 7));
    assert_eq!(world_rect(14), rect(14, 0, 0, 16383, 16383));
}

#[test]
fn expand_zooms_minmax_and_list() {
    assert_eq!(expand_zooms(Some(2), Some(4), &vec![]), vec![2, 3, 4]);
    assert_eq!(expand_zooms(None, Some(2), &vec![]), vec![0, 1, 2]);
    assert_eq!(expand_zooms(None, None, &vec![3, 7]), vec![3, 7]);
    assert_eq!(expand_zooms(Some(5), Some(5), &vec![]), vec![5]);
}

#[test]
fn iterate_tiles_is_row_major_and_exact() {
    let coords = iterate_tiles(vec![rect(1, 0, 0, 1, 1)]);
    assert_eq!(
        coords,
        vec![
            TileCoord { z: 1, x: 0, y: 0 },
            TileCoord { z: 1, x: 0, y: 1 },
            TileCoord { z: 1, x: 1, y: 0 },
            TileCoord { z: 1, x: 1, y: 1 },
        ]
    );

    let two = iterate_tiles(vec![rect(3, 2, 5, 2, 5), rect(4, 0, 0, 1, 0)]);
    assert_eq!(
        two,
        vec![
            TileCoord { z: 3, x: 2, y: 5 },
            TileCoord { z: 4, x: 0, y: 0 },
            TileCoord { z: 4, x: 1, y: 0 },
        ]
    );
}

#[test]
fn overlapping_boxes_cover_union_without_duplicates() {
    // two overlapping boxes at one zoom: every covered tile appears exactly once
    let ranges = compute_tile_ranges(&vec![rect(4, 0, 0, 5, 5), rect(4, 3, 3, 8, 8)]);
    let coords = iterate_tiles(ranges);
    let expected: usize = 36 + 36 - 9;
    assert_eq!(coords.len(), expected);
    let mut seen = coords.clone();
    seen.sort();
    seen.dedup();
    assert_eq!(seen.len(), expected, "a tile was enumerated twice");
    for x in 0..=8u32 {
        for y in 0..=8u32 {
            let inside = (x <= 5 && y <= 5) || (3 <= x && 3 <= y);
            assert_eq!(
                coords.contains(&TileCoord { z: 4, x, y }),
                inside,
                "wrong membership at ({x},{y})"
            );
        }
    }
}

#[test]
fn progress_totals_and_percent() {
    let ranges = compute_tile_ranges(&vec![rect(2, 0, 0, 3, 3)]);
    let mut progress = Progress::new(&ranges);
    assert_eq!(progress.total, 16);
    assert_eq!(Progress::try_total(&ranges), Some(16));
    assert_eq!(progress.done(), 0);
    assert_eq!(progress.left(), 16);
    assert_eq!(progress.percent(), 0);

    let mut last = 0;
    for i in 0..16 {
        if i % 3 == 0 {
            progress.inc_empty();
        } else {
            progress.inc_non_empty();
        }
        let p = progress.percent();
        assert!(p >= last, "percent decreased from {last} to {p}");
        last = p;
        assert_eq!(p == 100, progress.done() == progress.total);
    }
    assert_eq!(progress.percent(), 100);
    assert_eq!(progress.left(), 0);
    assert_eq!(progress.empty + progress.non_empty, progress.total);
    assert_eq!(progress.percent(), 100);
}

#[test]
fn percent_is_floored() {
    let progress = Progress { total: 3, empty: 1, non_empty: 1 };
    assert_eq!(progress.percent(), 66);
}

#[test]
fn report_cadence() {
    assert!(should_report(99, 2001));
    assert!(!should_report(99, 2000));
    assert!(!should_report(100, 5000));
    assert!(should_report(199, 10_000));
    assert!(!should_report(0, 10_000));
}

fn record(z: u8, x: u32, y: u32, data: &[u8]) -> TileRecord {
    TileRecord { coord: TileCoord { z, x, y }, data: data.to_vec() }
}

#[test]
fn three_records() {
    let progress = Progress { total: 3, empty: 0, non_empty: 0 };
    let mut consumer = Consumer::new(progress);
    assert!(!consumer.accept(record(1, 0, 0, b""), 0));
    assert!(!consumer.accept(record(1, 0, 1, b"abc"), 0));
    assert!(!consumer.accept(record(1, 1, 0, b"de"), 0));
    assert_eq!(consumer.progress.empty, 1);
    assert_eq!(consumer.progress.non_empty, 2);
    assert_eq!(
        consumer.progress.empty + consumer.progress.non_empty,
        consumer.progress.total
    );
    let batch = consumer.take_batch();
    assert_eq!(batch.len(), 2);
    assert_eq!(batch[0].coord, TileCoord { z: 1, x: 0, y: 1 });
    assert_eq!(batch[0].data, b"abc".to_vec());
    assert_eq!(batch[1].coord, TileCoord { z: 1, x: 1, y: 0 });
    assert_eq!(consumer.batch.len(), 0);
}

#[test]
fn batch_flushes_on_size_threshold() {
    let progress = Progress { total: 2000, empty: 0, non_empty: 0 };
    let mut consumer = Consumer::new(progress);
    for i in 0..(BATCH_SIZE as u32 - 1) {
        assert!(!consumer.accept(record(10, i, 0, b"x"), 0));
    }
    assert!(consumer.accept(record(10, 9999, 0, b"x"), 0));
    assert_eq!(consumer.batch.len(), BATCH_SIZE);
}

#[test]
fn batch_flushes_on_time_threshold() {
    let progress = Progress { total: 10, empty: 0, non_empty: 0 };
    let mut consumer = Consumer::new(progress);
    assert!(!consumer.accept(record(1, 0, 0, b"x"), 60_000));
    assert!(consumer.accept(record(1, 0, 1, b"x"), 60_001));
    // an empty record never triggers a flush, however late it is
    assert!(!consumer.accept(record(1, 1, 1, b""), 999_999));
}

#[test]
fn schema_empty_destination_uses_override_or_default() {
    assert_eq!(
        select_schema(true, None),
        SchemaPlan::Create(MbtType::Normalized { hash_view: true })
    );
    assert_eq!(
        select_schema(true, Some(MbtTypeCli::Flat)),
        SchemaPlan::Create(MbtType::Flat)
    );
    assert_eq!(
        select_schema(true, Some(MbtTypeCli::FlatWithHash)),
        SchemaPlan::Create(MbtType::FlatWithHash)
    );
    assert_eq!(
        select_schema(true, Some(MbtTypeCli::Normalized)),
        SchemaPlan::Create(MbtType::Normalized { hash_view: true })
    );
}

#[test]
fn schema_existing_destination_ignores_override() {
    assert_eq!(select_schema(false, None), SchemaPlan::DetectExisting);
    assert_eq!(
        select_schema(false, Some(MbtTypeCli::Flat)),
        SchemaPlan::DetectExisting
    );
    assert_eq!(
        select_schema(false, Some(MbtTypeCli::Normalized)),
        SchemaPlan::DetectExisting
    );
}

#[test]
fn agg_hash_only_when_enabled_and_tiles_written() {
    assert!(should_compute_agg_hash(false, 1));
    assert!(should_compute_agg_hash(false, 12345));
    assert!(!should_compute_agg_hash(false, 0));
    assert!(!should_compute_agg_hash(true, 1));
    assert!(!should_compute_agg_hash(true, 0));
}

#[test]
fn parse_key_value_accepts_pairs() {
    assert_eq!(
        parse_key_value("key=value"),
        Ok(("key".to_string(), "value".to_string()))
    );
    assert_eq!(
        parse_key_value("a=b=c"),
        Ok(("a".to_string(), "b=c".to_string()))
    );
}

#[test]
fn parse_key_value_rejects_malformed_pairs() {
    assert_eq!(
        parse_key_value("novalue"),
        Err("Invalid key=value pair: novalue".to_string())
    );
    assert_eq!(
        parse_key_value("=value"),
        Err("Invalid key=value pair: =value".to_string())
    );
    assert_eq!(
        parse_key_value("key="),
        Err("Invalid key=value pair: key=".to_string())
    );
    assert_eq!(
        parse_key_value(""),
        Err("Invalid key=value pair: ".to_string())
    );
}
