use betterbeam::detect::detect_symbols;
use betterbeam::detect::Det;
use betterbeam::jobs::JobState;
use betterbeam::jobs::JobTable;
use betterbeam::jobs::measure_tiles;
use betterbeam::jobs::run_pipeline;
use betterbeam::map::map_to_line_items;
use betterbeam::measure::area_px;
use betterbeam::measure::length_px;
use betterbeam::measure::Point;
use betterbeam::raster::auto_tune_params;
use betterbeam::raster::backoff_delay_ms;
use betterbeam::raster::grayscale_stats;
use betterbeam::raster::gpu_edges_if_big;
use betterbeam::raster::high_contrast;
use betterbeam::raster::merge_with_intersections;
use betterbeam::raster::otsu_level;
use betterbeam::raster::should_retry;
use betterbeam::raster::vectorize_gray;
use betterbeam::raster::GrayImage;
use betterbeam::raster::Seg;
use betterbeam::render::render_result;
use betterbeam::scale::infer_scale_from_text;
use betterbeam::scale::ScaleUnit;
use betterbeam::tiler::tile_rects;

fn pts(v: &[(i64, i64)]) -> Vec<Point> {
    v.iter().map(|&(x, y)| Point { x, y }).collect()
}

#[test]
fn length_of_short_polylines_is_zero() {
    assert_eq!(length_px(&pts(&[])), 0);
    assert_eq!(length_px(&pts(&[(3, 4)])), 0);
}

#[test]
fn length_of_a_345_triangle_leg() {
    assert_eq!(length_px(&pts(&[(0, 0), (3, 4)])), 5);
    assert_eq!(length_px(&pts(&[(0, 0), (3, 4), (3, 4)])), 5);
}

#[test]
fn length_is_invariant_under_reversal() {
    let a = pts(&[(0, 0), (10, 0), (10, 7), (-3, 2)]);
    let b = pts(&[(-3, 2), (10, 7), (10, 0), (0, 0)]);
    assert_eq!(length_px(&a), length_px(&b));
}

#[test]
fn area_of_small_point_sets_is_zero() {
    assert_eq!(area_px(&pts(&[])), 0);
    assert_eq!(area_px(&pts(&[(1, 1)])), 0);
    assert_eq!(area_px(&pts(&[(1, 1), (5, 5)])), 0);
}

#[test]
fn area_of_the_unit_square_is_one() {
    assert_eq!(area_px(&pts(&[(0, 0), (1, 0), (1, 1), (0, 1)])), 1);
}

#[test]
fn area_is_invariant_under_reversal() {
    let a = pts(&[(0, 0), (4, 0), (4, 3), (1, 5)]);
    let b = pts(&[(1, 5), (4, 3), (4, 0), (0, 0)]);
    assert_eq!(area_px(&a), area_px(&b));
    assert!(area_px(&a) > 0);
}

#[test]
fn area_wraps_without_explicit_closing() {
    // a 10 x 10 square given open; the implementation wraps last -> first
    assert_eq!(area_px(&pts(&[(0, 0), (10, 0), (10, 10), (0, 10)])), 100);
}

#[test]
fn scale_ratio_form() {
    let sc = infer_scale_from_text("Scale 1:100".to_string()).unwrap();
    assert!(matches!(sc.unit, ScaleUnit::Meters));
    assert_eq!((sc.num, sc.den), (1, 100));
    assert_eq!(sc.unit_label(), "m");
}

#[test]
fn scale_architectural_form() {
    let sc = infer_scale_from_text("1/8\" = 1'-0\"".to_string()).unwrap();
    assert!(matches!(sc.unit, ScaleUnit::Feet));
    // (1/8) / 12 == 1/96
    assert_eq!((sc.num, sc.den), (1, 96));
    assert_eq!(sc.unit_label(), "ft");
}

#[test]
fn scale_architectural_decimal_numerator() {
    let sc = infer_scale_from_text("0.5/8\" = 1'-0\"".to_string()).unwrap();
    assert!(matches!(sc.unit, ScaleUnit::Feet));
    // (5/10) / 8 / 12 == 5/960
    assert_eq!((sc.num, sc.den), (5, 960));
}

#[test]
fn scale_not_found() {
    assert!(infer_scale_from_text("no scale info here".to_string()).is_none());
    assert!(infer_scale_from_text(String::new()).is_none());
}

#[test]
fn scale_rejects_zero_ratio() {
    assert!(infer_scale_from_text("1:0".to_string()).is_none());
}

#[test]
fn scale_ratio_wins_over_architectural() {
    let sc = infer_scale_from_text("1:50 and 1/8\" = 1'".to_string()).unwrap();
    assert!(matches!(sc.unit, ScaleUnit::Meters));
    assert_eq!((sc.num, sc.den), (1, 50));
}

#[test]
fn tiling_a_square_region() {
    let tiles = tile_rects(0, 0, 1000, 1000, 512);
    // step = 512 - 64 = 448; origins 0, 448, 896 on each axis
    assert_eq!(tiles.len(), 9);
    let first = tiles[0];
    assert_eq!((first.x, first.y, first.w, first.h), (0, 0, 512, 512));
    // neighbouring tiles in a row overlap by exactly the overlap amount
    assert_eq!(tiles[0].x + tiles[0].w - tiles[1].x, 64);
    // the final column is clamped to the region
    let last = tiles[8];
    assert_eq!((last.x, last.y, last.w, last.h), (896, 896, 104, 104));
}

#[test]
fn tiling_covers_every_pixel() {
    let tiles = tile_rects(0, 0, 1000, 1000, 512);
    let mut px = 0u32;
    while px < 1000 {
        let mut py = 0u32;
        while py < 1000 {
            let covered = tiles.iter().any(|t| {
                t.x <= px && px < t.x + t.w && t.y <= py && py < t.y + t.h
            });
            assert!(covered, "pixel ({px},{py}) not covered");
            py += 7;
        }
        px += 7;
    }
}

#[test]
fn tiling_an_empty_region_yields_no_tiles() {
    assert_eq!(tile_rects(10, 10, 10, 500, 512).len(), 0);
}

#[test]
fn stats_of_a_known_tile() {
    let img = GrayImage::from_pixels(2, 1, vec![0, 255]);
    assert_eq!(grayscale_stats(&img), (255, 65025));
}

#[test]
fn high_contrast_tiles_are_recognized() {
    let img = GrayImage::from_pixels(4, 1, vec![0, 0, 255, 255]);
    assert!(high_contrast(&img));
    let flat = GrayImage::filled(4, 1, 9);
    assert!(!high_contrast(&flat));
}

#[test]
fn otsu_separates_two_classes() {
    let img = GrayImage::from_pixels(4, 1, vec![10, 10, 200, 200]);
    let t = otsu_level(&img);
    assert!(10 <= t && t < 200, "threshold {t} does not separate the classes");
}

#[test]
fn auto_tune_on_a_flat_tile() {
    let img = GrayImage::filled(4, 4, 7);
    let otsu = otsu_level(&img);
    let (low, high, vote) = auto_tune_params(&img, otsu);
    // flat tile: low floored at 1.0, high at low + 1.0, vote threshold 30
    assert!(low >= 1000);
    assert_eq!(high, low + 1000);
    assert_eq!(vote, 30);
}

#[test]
fn uniform_tile_yields_no_segments() {
    let img = GrayImage::filled(64, 64, 200);
    assert_eq!(vectorize_gray(&img).len(), 0);
    let dark = GrayImage::filled(33, 17, 0);
    assert_eq!(vectorize_gray(&dark).len(), 0);
}

#[test]
fn no_accelerated_path_is_linked() {
    let img = GrayImage::filled(8, 8, 1);
    assert!(gpu_edges_if_big(&img, 600).is_none());
}

#[test]
fn merging_joins_near_colinear_segments() {
    let v = vec![
        Seg { x0: 0, y0: 5, x1: 10, y1: 5 },
        Seg { x0: 14, y0: 5, x1: 20, y1: 5 },
        Seg { x0: 0, y0: 9, x1: 20, y1: 9 },
    ];
    let m = merge_with_intersections(v);
    assert_eq!(m.len(), 2);
    assert_eq!((m[0].x0, m[0].y0, m[0].x1, m[0].y1), (0, 5, 20, 5));
    assert_eq!((m[1].x0, m[1].y0, m[1].x1, m[1].y1), (0, 9, 20, 9));
}

#[test]
fn merging_respects_the_tolerance() {
    let v = vec![
        Seg { x0: 0, y0: 5, x1: 10, y1: 5 },
        Seg { x0: 17, y0: 5, x1: 20, y1: 5 },
    ];
    let m = merge_with_intersections(v);
    assert_eq!(m.len(), 2);
}

#[test]
fn backoff_doubles_from_fifty() {
    assert_eq!(backoff_delay_ms(0), 50);
    assert_eq!(backoff_delay_ms(1), 100);
    assert_eq!(backoff_delay_ms(3), 400);
    assert!(should_retry(2, 3));
    assert!(!should_retry(3, 3));
}

#[test]
fn detect_rejects_bad_base64() {
    let r = detect_symbols("%%%not base64%%%".to_string());
    let e = r.err().expect("invalid base64 must be rejected");
    assert!(!e.is_empty());
}

#[test]
fn detect_accepts_valid_base64() {
    let r = detect_symbols("aGVsbG8=".to_string()).unwrap();
    assert!(r.is_empty());
    let r = detect_symbols(String::new()).unwrap();
    assert!(r.is_empty());
}

fn det(label: &str) -> Det {
    Det { x: 0, y: 0, w: 10, h: 10, label: label.to_string(), score: 900 }
}

#[test]
fn mapping_tallies_labels() {
    let dets = vec![det("door"), det("window"), det("door")];
    let r = map_to_line_items(&dets, 1234, 777);
    assert_eq!(r.summary.lineal_milli, 1234);
    assert_eq!(r.summary.area_milli, 777);
    assert!(r.items.is_empty());
    assert_eq!(r.summary.symbols.len(), 2);
    let door = r.summary.symbols.iter().find(|s| s.label == "door").unwrap();
    assert_eq!(door.count, 2);
    let window = r.summary.symbols.iter().find(|s| s.label == "window").unwrap();
    assert_eq!(window.count, 1);
}

#[test]
fn mapping_of_no_detections_is_empty() {
    let dets: Vec<Det> = Vec::new();
    let r = map_to_line_items(&dets, 0, 0);
    assert!(r.summary.symbols.is_empty());
    assert!(r.items.is_empty());
    assert_eq!(r.summary.lineal_milli, 0);
    assert_eq!(r.summary.area_milli, 0);
}

#[test]
fn rendered_payload_is_pinned() {
    let s = render_result("a\"b", 2, 1, 96, 5, 3, 42, 0);
    assert_eq!(
        s,
        "{\"pdf_path\":\"a\\\"b\",\"pages\":2,\"units_per_pixel_num\":1,\
         \"units_per_pixel_den\":96,\"vectors\":{\"segments\":5},\
         \"summary\":{\"detections\":3,\"lineal_milli\":42,\"area_milli\":0},\"items\":[]}"
    );
}

#[test]
fn measuring_no_tiles_gives_zero() {
    let tiles: Vec<GrayImage> = Vec::new();
    assert_eq!(measure_tiles(&tiles), (0, 0));
}

#[test]
fn pipeline_succeeds_on_a_plain_document() {
    let mut table = JobTable::new();
    let id = table.create_job();
    assert_eq!(id, 1);
    run_pipeline(
        &mut table,
        id,
        "plan.pdf",
        Ok(1),
        Vec::new(),
        String::new(),
        Vec::new(),
    );
    let job = table.job_status(id).unwrap();
    assert!(matches!(job.state, JobState::Succeeded));
    assert_eq!(
        table.job_result(id),
        "{\"pdf_path\":\"plan.pdf\",\"pages\":1,\"units_per_pixel_num\":1,\
         \"units_per_pixel_den\":1,\"vectors\":{\"segments\":0},\
         \"summary\":{\"detections\":0,\"lineal_milli\":0,\"area_milli\":0},\"items\":[]}"
    );
}

#[test]
fn pipeline_fails_on_an_unopenable_document() {
    let mut table = JobTable::new();
    let id = table.create_job();
    run_pipeline(
        &mut table,
        id,
        "missing.pdf",
        Err("cannot open missing.pdf".to_string()),
        Vec::new(),
        String::new(),
        Vec::new(),
    );
    let job = table.job_status(id).unwrap();
    match &job.state {
        JobState::Failed(reason) => assert!(!reason.is_empty()),
        other => panic!("expected Failed, found {other:?}"),
    }
    assert!(!matches!(job.state, JobState::Succeeded));
    assert_eq!(table.job_result(id), "{}");
}

#[test]
fn terminal_lookups_are_idempotent() {
    let mut table = JobTable::new();
    let id = table.create_job();
    run_pipeline(&mut table, id, "p.pdf", Ok(3), Vec::new(), String::new(), Vec::new());
    let r1 = table.job_result(id);
    let r2 = table.job_result(id);
    assert_eq!(r1, r2);
    let s1 = table.job_status(id).unwrap();
    let same_state = matches!(s1.state, JobState::Succeeded);
    let s2 = table.job_status(id).unwrap();
    assert!(same_state && matches!(s2.state, JobState::Succeeded));
    assert_eq!(s1.id, s2.id);
}

#[test]
fn unknown_job_ids_report_not_found() {
    let table = JobTable::new();
    assert!(table.job_status(7).is_none());
    assert_eq!(table.job_result(7), "{}");
}

#[test]
fn job_ids_are_unique_and_increasing() {
    let mut table = JobTable::new();
    assert_eq!(table.create_job(), 1);
    assert_eq!(table.create_job(), 2);
    assert_eq!(table.create_job(), 3);
}

fn striped_tile() -> GrayImage {
    // 64 x 9 white tile with one black row at y = 4: one detectable line
    let mut data = vec![255u8; 64 * 9];
    for x in 0..64 {
        data[4 * 64 + x] = 0;
    }
    GrayImage::from_pixels(64, 9, data)
}

#[test]
fn a_single_dark_row_yields_one_segment() {
    let segs = vectorize_gray(&striped_tile());
    assert_eq!(segs.len(), 1);
    let s = segs[0];
    assert_eq!((s.x0, s.x1), (0, 63));
    assert_eq!(s.y0, s.y1);
}

#[test]
fn pipeline_measures_a_striped_tile() {
    let mut table = JobTable::new();
    let id = table.create_job();
    run_pipeline(
        &mut table,
        id,
        "p.pdf",
        Ok(1),
        vec![striped_tile()],
        String::new(),
        Vec::new(),
    );
    // one 63-pixel segment, unscaled default 1/1: 63000 thousandths
    assert_eq!(
        table.job_result(id),
        "{\"pdf_path\":\"p.pdf\",\"pages\":1,\"units_per_pixel_num\":1,\
         \"units_per_pixel_den\":1,\"vectors\":{\"segments\":1},\
         \"summary\":{\"detections\":0,\"lineal_milli\":63000,\"area_milli\":0},\"items\":[]}"
    );
}

#[test]
fn pipeline_applies_the_parsed_scale() {
    let mut table = JobTable::new();
    let id = table.create_job();
    run_pipeline(
        &mut table,
        id,
        "p.pdf",
        Ok(2),
        Vec::new(),
        "Scale 1:100".to_string(),
        vec![det("door")],
    );
    assert_eq!(
        table.job_result(id),
        "{\"pdf_path\":\"p.pdf\",\"pages\":2,\"units_per_pixel_num\":1,\
         \"units_per_pixel_den\":100,\"vectors\":{\"segments\":0},\
         \"summary\":{\"detections\":1,\"lineal_milli\":0,\"area_milli\":0},\"items\":[]}"
    );
}
