use capture_viewer::devices::{automatic_audio_device, normalized_device_name, AudioSource, DeviceInfo};

fn device(uid: &str, name: &str, model: &str, manufacturer: &str, has_audio: bool) -> DeviceInfo {
    DeviceInfo {
        uid: uid.to_string(),
        name: name.to_string(),
        model: model.to_string(),
        manufacturer: manufacturer.to_string(),
        has_audio,
    }
}

#[test]
fn pairs_generic_usb_video_and_audio_names() {
    assert_eq!(
        normalized_device_name("USB Video Capture"),
        normalized_device_name("USB Audio")
    );
}

#[test]
fn preserves_identifying_model_text_when_pairing() {
    assert_eq!(
        normalized_device_name("UGREEN 15389 Video"),
        normalized_device_name("UGREEN 15389 Audio Input")
    );
}

#[test]
fn normalization_lowercases_and_keeps_letters_and_digits() {
    assert_eq!(normalized_device_name("USB Video Capture"), "usb");
    assert_eq!(normalized_device_name("UGREEN 15389 Audio Input"), "ugreen15389");
    assert_eq!(normalized_device_name("Elgato Cam Link 4K"), "elgatocamlink4k");
    assert_eq!(normalized_device_name("FaceTime HD Camera"), "facetimehd");
    assert_eq!(normalized_device_name(""), "");
    // Non-ASCII characters are dropped, ASCII case does not matter.
    assert_eq!(normalized_device_name("Çamera Nº 2"), "ameran2");
    assert_eq!(normalized_device_name("MICROPHONE"), normalized_device_name("microphone"));
}

#[test]
fn generic_words_are_removed_in_order() {
    // Removing "video" joins "vi" and "deo" into a new "video", which stays.
    assert_eq!(normalized_device_name("vivideodeo"), "video");
    // "audio" is removed after "video", so "audvideoio" loses both.
    assert_eq!(normalized_device_name("audvideoio"), "");
    // Spaces are removed last, so words split by spaces stay.
    assert_eq!(normalized_device_name("vid eo"), "video");
    // Occurrences do not overlap.
    assert_eq!(normalized_device_name("inputinput"), "");
    assert_eq!(normalized_device_name("iinput"), "i");
}

#[test]
fn a_video_device_with_audio_is_its_own_audio_source() {
    let video = device("v", "Cam", "", "", true);
    let audio = vec![device("a", "Cam", "", "", true)];
    assert_eq!(automatic_audio_device(&video, &vec![], &audio), AudioSource::VideoDevice);
}

#[test]
fn a_linked_device_with_audio_comes_next() {
    let video = device("v", "Cam", "", "", false);
    let linked = vec![device("l0", "x", "", "", false), device("l1", "y", "", "", true)];
    let audio = vec![device("a", "Cam", "", "", true)];
    assert_eq!(automatic_audio_device(&video, &linked, &audio), AudioSource::Linked(1));
}

#[test]
fn the_same_name_comes_before_the_same_model() {
    let video = device("v", "Capture Card", "M1", "Acme", false);
    let audio = vec![
        device("a0", "Other", "M1", "Acme", true),
        device("a1", "Capture Card", "", "", true),
    ];
    assert_eq!(automatic_audio_device(&video, &vec![], &audio), AudioSource::Listed(1));
}

#[test]
fn the_same_model_needs_the_same_manufacturer() {
    let video = device("v", "Grabber", "M1", "Acme", false);
    let audio = vec![
        device("a0", "Something", "M1", "Other", true),
        device("a1", "Else", "M1", "Acme", true),
    ];
    assert_eq!(automatic_audio_device(&video, &vec![], &audio), AudioSource::Listed(1));
    // Without a model, the model rule does not apply even to empty models.
    let video = device("v", "Grabber", "", "", false);
    let audio = vec![device("a0", "Else", "", "", true)];
    assert_eq!(automatic_audio_device(&video, &vec![], &audio), AudioSource::Unavailable);
}

#[test]
fn normalized_names_pair_last() {
    let video = device("v", "UGREEN 15389 Video", "", "", false);
    let audio = vec![
        device("a0", "Built-in Microphone", "", "", true),
        device("a1", "UGREEN 15389 Audio Input", "", "", true),
    ];
    assert_eq!(automatic_audio_device(&video, &vec![], &audio), AudioSource::Listed(1));
}

#[test]
fn short_normalized_names_do_not_pair() {
    // "USB Video" normalizes to "usb", three characters: pairs.
    let audio = vec![device("a0", "USB Audio", "", "", true)];
    let video = device("v", "USB Video", "", "", false);
    assert_eq!(automatic_audio_device(&video, &vec![], &audio), AudioSource::Listed(0));
    // "HD Video" normalizes to "hd", two characters: too generic to pair.
    let audio = vec![device("a0", "HD Audio", "", "", true)];
    let video = device("v", "HD Video", "", "", false);
    assert_eq!(automatic_audio_device(&video, &vec![], &audio), AudioSource::Unavailable);
}
