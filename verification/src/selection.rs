//! Which sources are selected, how the selection follows the list of
//! devices, and how the menus show it.
use vstd::prelude::*;
use crate::devices::{AudioSource, DeviceInfo, automatic_audio_device, automatic_audio_source};

verus! {

/// `i` is the first index of `devices` whose unique identifier is `uid`.
pub open spec fn is_first_uid(devices: Seq<DeviceInfo>, uid: Seq<char>, i: int) -> bool {
    &&& 0 <= i < devices.len()
    &&& devices[i].uid@ == uid
    &&& forall|j: int| 0 <= j < i ==> (#[trigger] devices[j]).uid@ != uid
}

/// The first index of `devices` whose unique identifier is `uid`, if any.
pub open spec fn uid_index(devices: Seq<DeviceInfo>, uid: Seq<char>) -> Option<int> {
    if exists|i: int| is_first_uid(devices, uid, i) {
        Some(choose|i: int| is_first_uid(devices, uid, i))
    } else {
        None
    }
}

/// Some device of `devices` has the unique identifier `uid`.
pub open spec fn lists_uid(devices: Seq<DeviceInfo>, uid: Seq<char>) -> bool {
    exists|i: int| 0 <= i < devices.len() && (#[trigger] devices[i]).uid@ == uid
}

/// The audio source to open with `video`: the chosen audio device while it is
/// still listed, the automatic choice otherwise.
pub open spec fn selected_audio_source(
    selected: Option<String>,
    video: DeviceInfo,
    linked: Seq<DeviceInfo>,
    audio: Seq<DeviceInfo>,
) -> AudioSource {
    match selected {
        Some(uid) => match uid_index(audio, uid@) {
            Some(i) => AudioSource::Listed(i as usize),
            None => automatic_audio_source(video, linked, audio),
        },
        None => automatic_audio_source(video, linked, audio),
    }
}

/// The video selection once the list of video devices changed: nothing when
/// there are no devices, the first device when the selected one is gone, the
/// selection itself otherwise.
pub open spec fn reconciled_video_uid(devices: Seq<DeviceInfo>, selected: Seq<char>) -> Seq<char> {
    if devices.len() == 0 {
        Seq::empty()
    } else if !lists_uid(devices, selected) {
        devices[0].uid@
    } else {
        selected
    }
}

/// The audio selection once the list of audio devices changed: a chosen
/// device that is gone falls back to the automatic choice.
pub open spec fn reconciled_audio_uid(devices: Seq<DeviceInfo>, selected: Option<Seq<char>>) -> Option<
    Seq<char>,
> {
    match selected {
        Some(uid) => if lists_uid(devices, uid) {
            Some(uid)
        } else {
            None
        },
        None => None,
    }
}

/// The view of an optional string.
pub open spec fn option_view(s: Option<String>) -> Option<Seq<char>> {
    match s {
        Some(t) => Some(t@),
        None => None,
    }
}

proof fn lemma_uid_index_at(devices: Seq<DeviceInfo>, uid: Seq<char>, i: int)
    requires
        is_first_uid(devices, uid, i),
    ensures
        uid_index(devices, uid) == Some(i),
{
    let k = choose|k: int| is_first_uid(devices, uid, k);
    assert(is_first_uid(devices, uid, k));
    if k < i {
        assert(devices[k].uid@ != uid);
    } else if i < k {
        assert(devices[i].uid@ != uid);
    }
}

/// `uid_index` finds a device exactly when one is listed.
pub proof fn lemma_uid_index_listed(devices: Seq<DeviceInfo>, uid: Seq<char>)
    ensures
        (uid_index(devices, uid) is Some) == lists_uid(devices, uid),
        uid_index(devices, uid) matches Some(i) ==> 0 <= i < devices.len() && devices[i].uid@ == uid,
{
    if lists_uid(devices, uid) {
        let k = choose|k: int| 0 <= k < devices.len() && (#[trigger] devices[k]).uid@ == uid;
        lemma_first_uid_exists(devices, uid, k);
    }
}

/// When some device has the identifier, a first one does.
proof fn lemma_first_uid_exists(devices: Seq<DeviceInfo>, uid: Seq<char>, k: int)
    requires
        0 <= k < devices.len(),
        devices[k].uid@ == uid,
    ensures
        exists|i: int| is_first_uid(devices, uid, i),
    decreases k,
{
    if exists|j: int| 0 <= j < k && (#[trigger] devices[j]).uid@ == uid {
        let j = choose|j: int| 0 <= j < k && (#[trigger] devices[j]).uid@ == uid;
        lemma_first_uid_exists(devices, uid, j);
    } else {
        assert(is_first_uid(devices, uid, k));
    }
}

/// The index of the first device whose unique identifier is `uid`.
pub fn index_for_uid(devices: &Vec<DeviceInfo>, uid: &String) -> (r: Option<usize>)
    ensures
        match r {
            Some(i) => uid_index(devices@, uid@) == Some(i as int),
            None => uid_index(devices@, uid@) is None,
        },
{
    let mut i: usize = 0;
    while i < devices.len()
        invariant
            i <= devices@.len(),
            forall|j: int| 0 <= j < i ==> (#[trigger] devices@[j]).uid@ != uid@,
        decreases devices@.len() - i,
    {
        if devices[i].uid == *uid {
            proof {
                lemma_uid_index_at(devices@, uid@, i as int);
            }
            return Some(i);
        }
        i = i + 1;
    }
    None
}

/// The audio source to open with `video`: the chosen audio device (by unique
/// identifier) while it is listed in `audio`, the automatic choice otherwise.
pub fn selected_audio_device(
    selected: &Option<String>,
    video: &DeviceInfo,
    linked: &Vec<DeviceInfo>,
    audio: &Vec<DeviceInfo>,
) -> (r: AudioSource)
    ensures
        r == selected_audio_source(*selected, *video, linked@, audio@),
{
    if let Some(uid) = selected {
        if let Some(index) = index_for_uid(audio, uid) {
            return AudioSource::Listed(index);
        }
    }
    automatic_audio_device(video, linked, audio)
}

/// A chosen audio device is used for as long as it is listed.
pub proof fn lemma_chosen_audio_device_wins(
    uid: String,
    video: DeviceInfo,
    linked: Seq<DeviceInfo>,
    audio: Seq<DeviceInfo>,
)
    requires
        lists_uid(audio, uid@),
        audio.len() <= usize::MAX,
    ensures
        selected_audio_source(Some(uid), video, linked, audio) matches AudioSource::Listed(i) && i
            < audio.len() && audio[i as int].uid@ == uid@,
{
    lemma_uid_index_listed(audio, uid@);
}

/// The video selection after the list of video devices was reloaded.
pub fn reconcile_video_selection(devices: &Vec<DeviceInfo>, selected: &String) -> (r: String)
    ensures
        r@ == reconciled_video_uid(devices@, selected@),
{
    proof {
        lemma_uid_index_listed(devices@, selected@);
    }
    if devices.len() == 0 {
        String::new()
    } else if index_for_uid(devices, selected).is_none() {
        devices[0].uid.clone()
    } else {
        selected.clone()
    }
}

/// The audio selection after the list of audio devices was reloaded.
pub fn reconcile_audio_selection(devices: &Vec<DeviceInfo>, selected: &Option<String>) -> (r: Option<
    String,
>)
    ensures
        option_view(r) == reconciled_audio_uid(devices@, option_view(*selected)),
{
    match selected {
        Some(uid) => {
            proof {
                lemma_uid_index_listed(devices@, uid@);
            }
            if index_for_uid(devices, uid).is_some() {
                Some(uid.clone())
            } else {
                None
            }
        },
        None => None,
    }
}

/// After reconciliation the video selection names a listed device, or is
/// empty when no device is listed; reconciling again changes nothing.
pub proof fn lemma_video_selection_valid(devices: Seq<DeviceInfo>, selected: Seq<char>)
    ensures
        devices.len() == 0 ==> reconciled_video_uid(devices, selected).len() == 0,
        devices.len() > 0 ==> lists_uid(devices, reconciled_video_uid(devices, selected)),
        reconciled_video_uid(devices, reconciled_video_uid(devices, selected))
            == reconciled_video_uid(devices, selected),
        lists_uid(devices, selected) ==> reconciled_video_uid(devices, selected) == selected,
{
    if devices.len() > 0 && !lists_uid(devices, selected) {
        assert((devices[0]).uid@ == devices[0].uid@);
        assert(lists_uid(devices, devices[0].uid@));
    }
}

/// After reconciliation the audio selection is automatic or names a listed
/// device; reconciling again changes nothing.
pub proof fn lemma_audio_selection_valid(devices: Seq<DeviceInfo>, selected: Option<Seq<char>>)
    ensures
        reconciled_audio_uid(devices, selected) matches Some(uid) ==> lists_uid(devices, uid),
        reconciled_audio_uid(devices, reconciled_audio_uid(devices, selected))
            == reconciled_audio_uid(devices, selected),
{
}

/// Which entries of the source menu carry a check mark: the one of the
/// selected video device.
pub fn source_checks(devices: &Vec<DeviceInfo>, selected: &String) -> (r: Vec<bool>)
    ensures
        r@.len() == devices@.len(),
        forall|i: int| 0 <= i < r@.len() ==> r@[i] == (devices@[i].uid@ == selected@),
{
    let mut checks: Vec<bool> = Vec::new();
    let mut i: usize = 0;
    while i < devices.len()
        invariant
            i <= devices@.len(),
            checks@.len() == i,
            forall|j: int| 0 <= j < i ==> checks@[j] == (devices@[j].uid@ == selected@),
        decreases devices@.len() - i,
    {
        checks.push(devices[i].uid == *selected);
        i = i + 1;
    }
    checks
}

/// The check marks of the audio menu: whether "Automatic" is checked (no
/// audio device chosen), and which audio device entries are (the chosen one).
pub fn audio_checks(devices: &Vec<DeviceInfo>, selected: &Option<String>) -> (r: (bool, Vec<bool>))
    ensures
        r.0 == (*selected is None),
        r.1@.len() == devices@.len(),
        forall|i: int|
            0 <= i < r.1@.len() ==> r.1@[i] == (option_view(*selected) == Some(devices@[i].uid@)),
{
    let mut checks: Vec<bool> = Vec::new();
    let mut i: usize = 0;
    while i < devices.len()
        invariant
            i <= devices@.len(),
            checks@.len() == i,
            forall|j: int|
                0 <= j < i ==> checks@[j] == (option_view(*selected) == Some(devices@[j].uid@)),
        decreases devices@.len() - i,
    {
        let checked = match selected {
            Some(uid) => devices[i].uid == *uid,
            None => false,
        };
        checks.push(checked);
        i = i + 1;
    }
    (selected.is_none(), checks)
}

/// Whether the audio device needs a capture input of its own: it does unless
/// it is the video device itself, which is known by its unique identifier.
pub fn needs_own_audio_input(video_uid: &String, audio_uid: &String) -> (r: bool)
    ensures
        r == (video_uid@ != audio_uid@),
{
    !(*video_uid == *audio_uid)
}

/// What an entry of the audio menu asks for.
#[derive(Clone, Copy, Debug, PartialEq, Eq)]
pub enum AudioMenuChoice {
    /// Pair the audio source automatically.
    Automatic,
    /// Use the audio device at this index.
    Device(usize),
    /// The entry no longer matches a device: nothing to do.
    Stale,
}

/// The video device an entry of the source menu asks for: its tag, when the
/// tag is an index of the `count` video devices.
pub fn video_menu_choice(tag: isize, count: usize) -> (r: Option<usize>)
    ensures
        r == (if 0 <= tag < count {
            Some(tag as usize)
        } else {
            None
        }),
{
    if tag < 0 {
        None
    } else if (tag as usize) >= count {
        None
    } else {
        Some(tag as usize)
    }
}

/// What an entry of the audio menu asks for: a negative tag is "Automatic",
/// a tag that indexes the `count` audio devices is that device, and any other
/// tag is stale.
pub fn audio_menu_choice(tag: isize, count: usize) -> (r: AudioMenuChoice)
    ensures
        r == (if tag < 0 {
            AudioMenuChoice::Automatic
        } else if tag < count {
            AudioMenuChoice::Device(tag as usize)
        } else {
            AudioMenuChoice::Stale
        }),
{
    if tag < 0 {
        AudioMenuChoice::Automatic
    } else if (tag as usize) >= count {
        AudioMenuChoice::Stale
    } else {
        AudioMenuChoice::Device(tag as usize)
    }
}

} // verus!
