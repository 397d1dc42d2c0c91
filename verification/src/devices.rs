//! Audio device descriptions and the choice of a capture device.

use vstd::prelude::*;

use crate::text::push_str;

verus! {

/// The format a capture stream delivers.
#[derive(Clone, Copy, Debug, PartialEq, Eq, Structural)]
pub struct AudioMeta {
    pub sample_rate: u32,
    pub channels: u16,
}

/// One audio device as listed to the frontend.
#[derive(Debug)]
pub struct Device {
    pub id: String,
    pub name: String,
    pub is_default: bool,
}

/// Capture devices and playback devices (loopback candidates).
#[derive(Debug)]
pub struct DeviceList {
    /// Microphones and other capture devices.
    pub inputs: Vec<Device>,
    /// Playback devices — loopback candidates for system-audio capture.
    pub outputs: Vec<Device>,
}

/// Describes a device, flagging it when its id is the default device's id.
pub fn describe(id: String, name: String, default_id: &Option<String>) -> (d: Device)
    ensures
        d.id@ == id@,
        d.name@ == name@,
        d.is_default == (default_id matches Some(x) && x@ == id@),
{
    let is_default = match default_id {
        Some(x) => *x == id,
        None => false,
    };
    Device { id, name, is_default }
}

/// Which device to open.
#[derive(Debug, PartialEq, Eq, Structural)]
pub enum DeviceChoice {
    /// The host's default device.
    Default,
    /// The candidate at this index.
    Index(usize),
}

/// A candidate matches a wanted device when its stable id or its display
/// name equals it.
pub open spec fn candidate_matches(c: (String, String), wanted: Seq<char>) -> bool {
    c.0@ == wanted || c.1@ == wanted
}

/// No candidate before index `n` matches `wanted`.
pub open spec fn none_match_before(cands: Seq<(String, String)>, wanted: Seq<char>, n: int) -> bool {
    forall|j: int| 0 <= j < n ==> !candidate_matches(#[trigger] cands[j], wanted)
}

/// The device choice for a wanted device: the first candidate matching it,
/// or the not-found message.
pub open spec fn wanted_choice_ok(cands: Seq<(String, String)>, wanted: Seq<char>, r: Result<DeviceChoice, String>) -> bool {
    match r {
        Ok(DeviceChoice::Index(i)) => {
            &&& i < cands.len()
            &&& candidate_matches(cands[i as int], wanted)
            &&& none_match_before(cands, wanted, i as int)
        },
        Ok(DeviceChoice::Default) => false,
        Err(m) => {
            &&& m@ == "audio device not found: "@ + wanted
            &&& none_match_before(cands, wanted, cands.len() as int)
        },
    }
}

/// Chooses the capture device among `(id, name)` candidates: the first one
/// matching `wanted` by id or name, or the default device when nothing is
/// wanted; otherwise an error message.
pub fn select_device(
    candidates: &Vec<(String, String)>,
    wanted: &Option<String>,
    has_default: bool,
) -> (r: Result<DeviceChoice, String>)
    ensures
        match wanted {
            Some(w) => wanted_choice_ok(candidates@, w@, r),
            None => if has_default {
                r == Ok::<DeviceChoice, String>(DeviceChoice::Default)
            } else {
                r matches Err(m) && m@ == "no default audio device"@
            },
        },
{
    match wanted {
        Some(w) => {
            let mut i: usize = 0;
            while i < candidates.len()
                invariant
                    i <= candidates@.len(),
                    none_match_before(candidates@, w@, i as int),
                    *wanted == Some(*w),
                decreases candidates.len() - i,
            {
                let c = &candidates[i];
                if c.0 == *w || c.1 == *w {
                    assert(candidate_matches(candidates@[i as int], w@));
                    return Ok(DeviceChoice::Index(i));
                }
                i = i + 1;
            }
            let mut m = "audio device not found: ".to_owned();
            push_str(&mut m, w.as_str());
            Err(m)
        },
        None => {
            if has_default {
                Ok(DeviceChoice::Default)
            } else {
                Err("no default audio device".to_owned())
            }
        },
    }
}

} // verus!
