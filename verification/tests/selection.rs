use capture_viewer::devices::{AudioSource, DeviceInfo};
use capture_viewer::selection::{
    audio_checks, audio_menu_choice, index_for_uid, needs_own_audio_input, reconcile_audio_selection,
    reconcile_video_selection, selected_audio_device, source_checks, video_menu_choice,
    AudioMenuChoice,
};

fn named(uid: &str, name: &str) -> DeviceInfo {
    DeviceInfo {
        uid: uid.to_string(),
        name: name.to_string(),
        model: String::new(),
        manufacturer: String::new(),
        has_audio: true,
    }
}

fn devices() -> Vec<DeviceInfo> {
    vec![named("a", "First"), named("b", "Second"), named("b", "Duplicate")]
}

#[test]
fn finds_the_first_device_with_a_uid() {
    let list = devices();
    assert_eq!(index_for_uid(&list, &"a".to_string()), Some(0));
    assert_eq!(index_for_uid(&list, &"b".to_string()), Some(1));
    assert_eq!(index_for_uid(&list, &"c".to_string()), None);
    assert_eq!(index_for_uid(&vec![], &"a".to_string()), None);
}

#[test]
fn the_chosen_audio_device_wins_while_listed() {
    let video = named("v", "Second");
    let audio = devices();
    assert_eq!(
        selected_audio_device(&Some("a".to_string()), &video, &vec![], &audio),
        AudioSource::Listed(0)
    );
    // Gone: the automatic choice pairs by name.
    let video = DeviceInfo { has_audio: false, ..named("v", "Second") };
    assert_eq!(
        selected_audio_device(&Some("gone".to_string()), &video, &vec![], &audio),
        AudioSource::Listed(1)
    );
    assert_eq!(selected_audio_device(&None, &video, &vec![], &audio), AudioSource::Listed(1));
}

#[test]
fn video_selection_follows_the_devices() {
    let list = devices();
    assert_eq!(reconcile_video_selection(&list, &"b".to_string()), "b");
    assert_eq!(reconcile_video_selection(&list, &"gone".to_string()), "a");
    assert_eq!(reconcile_video_selection(&list, &String::new()), "a");
    assert_eq!(reconcile_video_selection(&vec![], &"a".to_string()), "");
}

#[test]
fn audio_selection_falls_back_to_automatic() {
    let list = devices();
    assert_eq!(reconcile_audio_selection(&list, &Some("b".to_string())), Some("b".to_string()));
    assert_eq!(reconcile_audio_selection(&list, &Some("gone".to_string())), None);
    assert_eq!(reconcile_audio_selection(&list, &None), None);
}

#[test]
fn menus_check_the_selected_devices() {
    let list = devices();
    assert_eq!(source_checks(&list, &"b".to_string()), vec![false, true, true]);
    assert_eq!(source_checks(&list, &"x".to_string()), vec![false, false, false]);
    assert_eq!(audio_checks(&list, &None), (true, vec![false, false, false]));
    assert_eq!(audio_checks(&list, &Some("a".to_string())), (false, vec![true, false, false]));
}

#[test]
fn menu_tags_select_devices() {
    assert_eq!(video_menu_choice(0, 2), Some(0));
    assert_eq!(video_menu_choice(1, 2), Some(1));
    assert_eq!(video_menu_choice(2, 2), None);
    assert_eq!(video_menu_choice(-1, 2), None);
    assert_eq!(audio_menu_choice(-1, 2), AudioMenuChoice::Automatic);
    assert_eq!(audio_menu_choice(1, 2), AudioMenuChoice::Device(1));
    assert_eq!(audio_menu_choice(2, 2), AudioMenuChoice::Stale);
}

#[test]
fn only_a_separate_audio_device_gets_its_own_input() {
    assert!(needs_own_audio_input(&"video".to_string(), &"audio".to_string()));
    assert!(!needs_own_audio_input(&"same".to_string(), &"same".to_string()));
}
