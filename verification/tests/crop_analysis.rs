use capture_viewer::crop::{reset_crop_analysis, CropAnalysisState, CropInsets};

/// Insets given in thousandths of the frame.
fn insets(left: u64, right: u64, top: u64, bottom: u64) -> CropInsets {
    CropInsets { left, right, top, bottom, width: 1000, height: 1000 }
}

#[test]
fn changing_dark_content_cannot_crop_the_preview_by_default() {
    let mut analysis = CropAnalysisState::default();
    for top in [100, 200, 0, 150] {
        for _ in 0..10 {
            let generation = analysis.generation;
            assert!(!analysis.record(
                CropInsets {
                    top,
                    width: 1000,
                    height: 1000,
                    ..CropInsets::default()
                },
                generation,
            ));
        }
    }
    assert!(analysis.applied_crop().is_none());
}

#[test]
fn cropping_requires_opt_in_and_disabling_discards_pending_results() {
    let mut analysis = CropAnalysisState::default();
    let crop = insets(125, 125, 0, 0);
    analysis.set_enabled(true);
    let generation = analysis.generation;
    assert!(!analysis.record(crop, generation));
    assert!(!analysis.record(crop, generation));
    assert!(analysis.record(crop, generation));
    assert!(analysis.applied_crop().unwrap().approximately_equals(crop));

    analysis.set_enabled(false);
    assert!(analysis.applied_crop().is_none());
    for _ in 0..10 {
        assert!(!analysis.record(crop, generation));
    }

    analysis.set_enabled(true);
    for _ in 0..10 {
        assert!(!analysis.record(crop, generation));
    }
    assert!(analysis
        .applied_crop()
        .unwrap()
        .approximately_equals(CropInsets::default()));
}

#[test]
fn source_change_discards_in_flight_crop_analysis() {
    let mut analysis = CropAnalysisState::default();
    analysis.set_enabled(true);
    let generation = analysis.generation;
    let crop = insets(0, 0, 100, 0);
    assert!(!analysis.record(crop, generation));
    assert!(!analysis.record(crop, generation));
    analysis.reset();
    for _ in 0..10 {
        assert!(!analysis.record(crop, generation));
    }
    assert!(analysis
        .applied_crop()
        .unwrap()
        .approximately_equals(CropInsets::default()));
    let generation = analysis.generation;
    assert!(!analysis.record(crop, generation));
    assert!(!analysis.record(crop, generation));
    assert!(analysis.record(crop, generation));
}

#[test]
fn approximately_equal_insets_are_within_a_250th() {
    // 0.125 against 0.128: 3/1000 apart, within 1/250.
    assert!(insets(125, 0, 0, 0).approximately_equals(insets(128, 0, 0, 0)));
    // 0.125 against 0.129: 4/1000 = 1/250 apart, not strictly within.
    assert!(!insets(125, 0, 0, 0).approximately_equals(insets(129, 0, 0, 0)));
    // Different frame sizes compare by fraction: 240/1920 is 0.125.
    let hd = CropInsets { left: 240, right: 240, top: 0, bottom: 0, width: 1920, height: 1080 };
    assert!(hd.approximately_equals(insets(125, 125, 0, 0)));
    assert!(insets(125, 125, 0, 0).approximately_equals(hd));
    // An undefined fraction is close to nothing, not even to itself.
    let undefined = CropInsets { left: 0, right: 0, top: 0, bottom: 0, width: 0, height: 1 };
    assert!(!undefined.approximately_equals(undefined));
}

#[test]
fn no_insets_by_default() {
    let none = CropInsets::none();
    assert_eq!((none.left, none.right, none.top, none.bottom), (0, 0, 0, 0));
    assert_eq!((none.width, none.height), (1, 1));
    let default = CropInsets::default();
    assert!(default.approximately_equals(none));
}

#[test]
fn a_crop_close_to_no_insets_is_never_applied() {
    let mut analysis = CropAnalysisState::default();
    analysis.set_enabled(true);
    let generation = analysis.generation;
    for _ in 0..10 {
        assert!(!analysis.record(insets(2, 0, 0, 0), generation));
    }
    assert!(analysis.applied_crop().unwrap().approximately_equals(CropInsets::none()));
}

#[test]
fn a_changed_detection_restarts_the_count() {
    let mut analysis = CropAnalysisState::default();
    analysis.set_enabled(true);
    let generation = analysis.generation;
    assert!(!analysis.record(insets(100, 0, 0, 0), generation));
    assert!(!analysis.record(insets(100, 0, 0, 0), generation));
    assert!(!analysis.record(insets(200, 0, 0, 0), generation));
    assert_eq!(analysis.candidate_hits, 1);
    assert!(!analysis.record(insets(200, 0, 0, 0), generation));
    assert!(analysis.record(insets(200, 0, 0, 0), generation));
    assert_eq!(analysis.applied_crop().unwrap().left, 200);
    // The same crop again does not change what is applied.
    assert!(!analysis.record(insets(200, 0, 0, 0), generation));
}

#[test]
fn hits_saturate_instead_of_wrapping() {
    let mut analysis = CropAnalysisState::default();
    analysis.set_enabled(true);
    let generation = analysis.generation;
    for _ in 0..300 {
        analysis.record(insets(100, 0, 0, 0), generation);
    }
    assert_eq!(analysis.candidate_hits, u8::MAX);
}

#[test]
fn reset_keeps_enabled_and_moves_generation_on() {
    let mut analysis = CropAnalysisState::default();
    analysis.set_enabled(true);
    let before = analysis.generation;
    reset_crop_analysis(&mut analysis);
    assert!(analysis.enabled);
    assert_eq!(analysis.generation, before.wrapping_add(1));
    assert_eq!(analysis.candidate_hits, 0);

    analysis.generation = u64::MAX;
    analysis.reset();
    assert_eq!(analysis.generation, 0);
}

#[test]
fn frames_are_analysed_only_while_enabled() {
    let mut analysis = CropAnalysisState::default();
    assert_eq!(analysis.frame_generation(), None);
    analysis.set_enabled(true);
    assert_eq!(analysis.frame_generation(), Some(analysis.generation));
    assert_eq!(analysis.frame_generation(), Some(1));
}
