use capture_viewer::titles::{
    camera_permission_title, capture_title, no_sources_title, open_failure_title,
    AUTH_AUTHORIZED, AUTH_DENIED, AUTH_NOT_DETERMINED, AUTH_RESTRICTED,
};

#[test]
fn camera_permission_titles() {
    assert_eq!(camera_permission_title(AUTH_AUTHORIZED), None);
    assert_eq!(
        camera_permission_title(AUTH_NOT_DETERMINED).unwrap(),
        "Capture Viewer — waiting for camera permission"
    );
    assert_eq!(camera_permission_title(AUTH_DENIED).unwrap(), "Capture Viewer — camera permission denied");
    assert_eq!(camera_permission_title(AUTH_RESTRICTED).unwrap(), "Capture Viewer — camera access restricted");
    assert_eq!(camera_permission_title(7).unwrap(), "Capture Viewer — camera unavailable");
}

#[test]
fn failure_titles() {
    assert_eq!(open_failure_title(&None), "Capture Viewer — The source could not be opened");
    assert_eq!(open_failure_title(&Some("Device busy".to_string())), "Capture Viewer — Device busy");
    assert_eq!(no_sources_title(), "Capture Viewer — No video sources");
}

#[test]
fn capture_titles() {
    let name = "Cam Link".to_string();
    assert_eq!(
        capture_title(&name, AUTH_NOT_DETERMINED, false),
        "Capture Viewer — Cam Link — waiting for audio permission"
    );
    assert_eq!(capture_title(&name, AUTH_DENIED, true), "Capture Viewer — Cam Link — audio permission denied");
    assert_eq!(capture_title(&name, AUTH_RESTRICTED, true), "Capture Viewer — Cam Link — audio permission denied");
    assert_eq!(capture_title(&name, AUTH_AUTHORIZED, false), "Capture Viewer — Cam Link — choose Audio Source");
    assert_eq!(capture_title(&name, AUTH_AUTHORIZED, true), "Capture Viewer — Cam Link");
}
