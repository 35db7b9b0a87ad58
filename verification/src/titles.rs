//! The window title, which tells the state of the capture.
use vstd::prelude::*;
use vstd::string::StringExecFns;

verus! {

/// Authorization status: the user has not been asked yet.
pub const AUTH_NOT_DETERMINED: isize = 0;

/// Authorization status: access is restricted by policy.
pub const AUTH_RESTRICTED: isize = 1;

/// Authorization status: the user refused access.
pub const AUTH_DENIED: isize = 2;

/// Authorization status: access is granted.
pub const AUTH_AUTHORIZED: isize = 3;

/// `"Capture Viewer — "` followed by `suffix`.
pub open spec fn titled(suffix: Seq<char>) -> Seq<char> {
    "Capture Viewer — "@ + suffix
}

/// What the title says while the camera may not be used, by authorization status.
pub open spec fn camera_status_text(status: isize) -> Seq<char> {
    if status == AUTH_NOT_DETERMINED {
        "waiting for camera permission"@
    } else if status == AUTH_DENIED {
        "camera permission denied"@
    } else if status == AUTH_RESTRICTED {
        "camera access restricted"@
    } else {
        "camera unavailable"@
    }
}

/// What the title adds after the source name, by audio authorization status
/// and whether an audio device is in use.
pub open spec fn audio_status_text(status: isize, has_audio_device: bool) -> Seq<char> {
    if status == AUTH_NOT_DETERMINED {
        " — waiting for audio permission"@
    } else if status == AUTH_DENIED || status == AUTH_RESTRICTED {
        " — audio permission denied"@
    } else if !has_audio_device {
        " — choose Audio Source"@
    } else {
        Seq::empty()
    }
}

fn titled_text(suffix: &str) -> (r: String)
    ensures
        r@ == titled(suffix@),
{
    let mut title = String::from_str("Capture Viewer — ");
    title.append(suffix);
    title
}

/// The title while the camera may not be used, or `None` when it may
/// (`status` is `AUTH_AUTHORIZED`) and the capture can be configured.
pub fn camera_permission_title(status: isize) -> (r: Option<String>)
    ensures
        status == AUTH_AUTHORIZED ==> r is None,
        status != AUTH_AUTHORIZED ==> (r matches Some(t) && t@ == titled(camera_status_text(status))),
{
    if status == AUTH_AUTHORIZED {
        None
    } else if status == AUTH_NOT_DETERMINED {
        Some(titled_text("waiting for camera permission"))
    } else if status == AUTH_DENIED {
        Some(titled_text("camera permission denied"))
    } else if status == AUTH_RESTRICTED {
        Some(titled_text("camera access restricted"))
    } else {
        Some(titled_text("camera unavailable"))
    }
}

/// The title when the video source could not be opened: the error's
/// description, or a general message when there is no error to describe.
pub fn open_failure_title(description: &Option<String>) -> (r: String)
    ensures
        r@ == titled(
            match description {
                Some(d) => d@,
                None => "The source could not be opened"@,
            },
        ),
{
    match description {
        Some(d) => titled_text(d.as_str()),
        None => titled_text("The source could not be opened"),
    }
}

/// The title when there is no video source to show.
pub fn no_sources_title() -> (r: String)
    ensures
        r@ == titled("No video sources"@),
{
    titled_text("No video sources")
}

/// The title once the video source is open: its name, then what is missing
/// for its audio, if anything.
pub fn capture_title(video_name: &String, audio_status: isize, has_audio_device: bool) -> (r: String)
    ensures
        r@ == titled(video_name@ + audio_status_text(audio_status, has_audio_device)),
{
    let mut title = titled_text(video_name.as_str());
    if audio_status == AUTH_NOT_DETERMINED {
        title.append(" — waiting for audio permission");
    } else if audio_status == AUTH_DENIED || audio_status == AUTH_RESTRICTED {
        title.append(" — audio permission denied");
    } else if !has_audio_device {
        title.append(" — choose Audio Source");
    } else {
        assert(title@ =~= titled(video_name@ + Seq::empty()));
    }
    title
}

/// The title once the source is open names the source after
/// "Capture Viewer — ", then tells what keeps its audio from playing: an
/// unanswered audio permission, a refused or restricted one (whether or not
/// an audio device was found), or, with permission, a missing audio device.
pub proof fn lemma_capture_title_text(name: Seq<char>, status: isize, has_audio_device: bool)
    ensures
        status == AUTH_NOT_DETERMINED ==> titled(name + audio_status_text(status, has_audio_device))
            == "Capture Viewer — "@ + name + " — waiting for audio permission"@,
        status == AUTH_DENIED || status == AUTH_RESTRICTED ==> titled(
            name + audio_status_text(status, has_audio_device),
        ) == "Capture Viewer — "@ + name + " — audio permission denied"@,
        status == AUTH_AUTHORIZED && !has_audio_device ==> titled(
            name + audio_status_text(status, has_audio_device),
        ) == "Capture Viewer — "@ + name + " — choose Audio Source"@,
        status == AUTH_AUTHORIZED && has_audio_device ==> titled(
            name + audio_status_text(status, has_audio_device),
        ) == "Capture Viewer — "@ + name,
{
    let prefix = "Capture Viewer — "@;
    assert(prefix + (name + " — waiting for audio permission"@) =~= prefix + name
        + " — waiting for audio permission"@);
    assert(prefix + (name + " — audio permission denied"@) =~= prefix + name
        + " — audio permission denied"@);
    assert(prefix + (name + " — choose Audio Source"@) =~= prefix + name + " — choose Audio Source"@);
    assert(name + Seq::<char>::empty() =~= name);
}

/// While the camera may not be used the title says why, and once it may be
/// used no title is given here.
pub proof fn lemma_camera_title_text(status: isize)
    ensures
        status == AUTH_NOT_DETERMINED ==> titled(camera_status_text(status)) == "Capture Viewer — "@
            + "waiting for camera permission"@,
        status == AUTH_DENIED ==> titled(camera_status_text(status)) == "Capture Viewer — "@
            + "camera permission denied"@,
        status == AUTH_RESTRICTED ==> titled(camera_status_text(status)) == "Capture Viewer — "@
            + "camera access restricted"@,
        status != AUTH_NOT_DETERMINED && status != AUTH_DENIED && status != AUTH_RESTRICTED ==> titled(
            camera_status_text(status),
        ) == "Capture Viewer — "@ + "camera unavailable"@,
{
}

} // verus!
