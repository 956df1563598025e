//! Per-tick dispatch planning: from a polled MIDI event and the profile to
//! the concrete actions a tick must issue, and from a target fader position
//! and the sink's current volume to the delta-based backend call.

use vstd::prelude::*;

use crate::midi::MidiMessage;
use crate::profile::Fader;
use crate::profile::Fraction;
use crate::profile::Profile;
use crate::profile::ProfileV;
use crate::profile::find_fader_in;
use crate::profile::spec_get_mute;
use crate::profile::spec_get_volume;

verus! {

/// The volume call a tick must issue for one sink. The backend interface is
/// delta-based, so a target position becomes an increase or a decrease by an
/// exact rational magnitude `num / den`, relative to the current volume; a
/// target equal to the current volume needs no call.
#[derive(PartialEq, Eq, Structural, Clone, Copy, Debug)]
pub enum VolumeAdjustment {
    NoChange,
    Increase { num: u32, den: u32 },
    Decrease { num: u32, den: u32 },
}

/// The backend call that moves a sink from `current_percent` percent to the
/// target position `target`: the signed difference is
/// `target.num / target.den - current_percent / 100`, and the result carries
/// its direction and exact magnitude `|difference|` as
/// `|100 * target.num - current_percent * target.den| / (100 * target.den)`.
pub fn plan_volume_adjustment(target: Fraction, current_percent: u8) -> (r: VolumeAdjustment)
    requires
        0 < target.den <= 255,
        -255 <= target.num <= 255,
    ensures
        ({
            let d = 100 * target.num - current_percent * target.den;
            &&& d == 0 ==> r == VolumeAdjustment::NoChange
            &&& d > 0 ==> r == (VolumeAdjustment::Increase {
                num: d as u32,
                den: (100 * target.den) as u32,
            })
            &&& d < 0 ==> r == (VolumeAdjustment::Decrease {
                num: (-d) as u32,
                den: (100 * target.den) as u32,
            })
        }),
{
    let tn: i64 = target.num as i64;
    let cp: i64 = current_percent as i64;
    let td: i64 = target.den as i64;
    proof {
        assert(0 <= cp * td <= 65025) by (nonlinear_arith)
            requires
                0 <= cp <= 255,
                0 < td <= 255,
        ;
    }
    let d: i64 = 100 * tn - cp * td;
    if d == 0 {
        VolumeAdjustment::NoChange
    } else if d > 0 {
        VolumeAdjustment::Increase { num: d as u32, den: 100 * target.den }
    } else {
        VolumeAdjustment::Decrease { num: (-d) as u32, den: 100 * target.den }
    }
}

/// The actions one polled event asks of the dispatch loop: a mute toggle on
/// the named sink if a configured button fires, and a volume move of the
/// named sink to a fader position if a configured fader is bound. Both are
/// checked independently: a (channel, control) pair bound to both fires
/// both.
#[derive(Debug, Clone)]
pub struct TickPlan {
    pub mute_toggle: Option<String>,
    pub volume: Option<(String, Fraction)>,
}

/// A fader found by the volume lookup is a member of some mapped group.
proof fn lemma_find_fader_in_mem(fs: Seq<Fader>, channel: u8, control: u8)
    ensures
        find_fader_in(fs, channel, control) matches Some(f) ==> exists|j: int|
            0 <= j < fs.len() && #[trigger] fs[j] == f,
    decreases fs.len(),
{
    if fs.len() > 0 {
        lemma_find_fader_in_mem(fs.skip(1), channel, control);
        let tail = fs.skip(1);
        assert(forall|j: int| 0 <= j < tail.len() ==> #[trigger] tail[j] == fs[j + 1]);
        if fs[0].channel == channel && fs[0].control == control {
            assert(fs[0] == fs[0]);
        } else if find_fader_in(fs, channel, control) is Some {
            let f = find_fader_in(fs, channel, control)->Some_0;
            let j = choose|j: int| 0 <= j < tail.len() && #[trigger] tail[j] == f;
            assert(fs[j + 1] == f);
        }
    }
}

/// In a well-formed profile, the fader a volume lookup finds has a usable
/// range.
proof fn lemma_get_volume_fader_valid(p: ProfileV, channel: u8, control: u8)
    requires
        p.wf(),
    ensures
        spec_get_volume(p.mapping, channel, control) matches Some(t) ==> t.1.valid(),
{
    lemma_get_volume_fader_valid_rec(p, 0, channel, control);
    assert(p.mapping.skip(0) =~= p.mapping);
}

/// Induction worker: the volume lookup on any suffix of the mapping finds
/// only member faders, which well-formedness makes valid.
proof fn lemma_get_volume_fader_valid_rec(p: ProfileV, i: int, channel: u8, control: u8)
    requires
        p.wf(),
        0 <= i <= p.mapping.len(),
    ensures
        spec_get_volume(p.mapping.skip(i), channel, control) matches Some(t) ==> t.1.valid(),
    decreases p.mapping.len() - i,
{
    let m = p.mapping.skip(i);
    if m.len() > 0 {
        assert(m[0] == p.mapping[i]);
        lemma_find_fader_in_mem(m[0].0.volume_control, channel, control);
        assert(m.skip(1) =~= p.mapping.skip(i + 1));
        lemma_get_volume_fader_valid_rec(p, i + 1, channel, control);
        if find_fader_in(m[0].0.volume_control, channel, control) is Some {
            let f = find_fader_in(m[0].0.volume_control, channel, control)->Some_0;
            let j = choose|j: int|
                0 <= j < m[0].0.volume_control.len() && #[trigger] m[0].0.volume_control[j] == f;
            assert(p.mapping[i].0.volume_control[j].valid());
        }
    }
}

/// Plans the actions of one dispatch tick for a polled event: look up the
/// profile's mute binding and fire it if the button's trigger value matches
/// exactly, and independently look up the volume binding and convert the
/// event value to the fader's position. A lookup that finds nothing, or a
/// button that does not fire, contributes no action.
pub fn plan_tick(profile: &Profile, message: MidiMessage) -> (r: TickPlan)
    requires
        profile@.wf(),
    ensures
        ({
            match spec_get_mute(profile@.mapping, message.channel, message.control) {
                Some(t) => if t.1.trigger == message.value {
                    r.mute_toggle matches Some(s) && s@ == t.0
                } else {
                    r.mute_toggle is None
                },
                None => r.mute_toggle is None,
            }
        }),
        ({
            match spec_get_volume(profile@.mapping, message.channel, message.control) {
                Some(t) => r.volume matches Some(v) && v.0@ == t.0 && v.1.num == message.value
                    - t.1.min && v.1.den == t.1.max - t.1.min,
                None => r.volume is None,
            }
        }),
{
    let mute_toggle = match profile.get_mute(message.channel, message.control) {
        Some((sink, button)) => {
            if button.triggered(message.value) {
                Some(sink)
            } else {
                None
            }
        },
        None => None,
    };

    let volume = match profile.get_volume_control(message.channel, message.control) {
        Some((sink, fader)) => {
            proof {
                lemma_get_volume_fader_valid(profile@, message.channel, message.control);
            }
            let fraction = fader.to_percentage(message.value);
            Some((sink, fraction))
        },
        None => None,
    };

    TickPlan { mute_toggle, volume }
}

} // verus!
