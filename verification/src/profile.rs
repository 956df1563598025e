//! The profile model: control definitions (faders and buttons), named control
//! groups, and the mapping from groups to logical sink names.
//!
//! A `Profile` is built once from a `ProfileConfig` by `Profile::new`, which
//! validates every cross-reference (control names used by groups, group names
//! used by the mapping) and every fader range; a single bad reference fails
//! the whole construction. `Profile::serialize` is the structural inverse,
//! reconstructing the flat configuration form.

use vstd::prelude::*;
use vstd::string::StringExecFns;

verus! {

/// A discrete control: an action fires when the control-change value equals
/// `trigger` exactly.
#[derive(PartialEq, Eq, Structural, Clone, Copy, Debug, Hash)]
pub struct Button {
    pub control: u8,
    pub channel: u8,
    pub trigger: u8,
}

impl Button {
    /// True exactly when `val` equals the configured trigger value.
    pub fn triggered(&self, val: u8) -> (r: bool)
        ensures
            r == (self.trigger == val),
    {
        self.trigger == val
    }
}

/// A continuous control mapping the raw value range `min..=max` linearly onto
/// the unit interval. Requires `max > min`; a degenerate range would make the
/// percentage conversion divide by zero, so construction rejects it.
#[derive(PartialEq, Eq, Structural, Clone, Copy, Debug, Hash)]
pub struct Fader {
    pub channel: u8,
    pub control: u8,
    pub min: u8,
    pub max: u8,
}

/// An exact rational position of a fader: `num / den`. Not clamped: raw
/// values outside `min..=max` give a numerator below zero or above `den`.
#[derive(PartialEq, Eq, Structural, Clone, Copy, Debug)]
pub struct Fraction {
    pub num: i32,
    pub den: u32,
}

impl Fader {
    /// A usable fader has a non-degenerate range.
    pub open spec fn valid(self) -> bool {
        self.max > self.min
    }

    /// The numerator of the position of raw value `val`: `val - min`.
    pub open spec fn position_num(self, val: u8) -> int {
        val - self.min
    }

    /// The denominator of every position of this fader: `max - min`.
    pub open spec fn position_den(self) -> int {
        self.max - self.min
    }

    /// The fractional position of raw value `val` within the fader's range:
    /// `(val - min) / (max - min)`, as an exact rational. Not clamped to the
    /// unit interval: values outside `min..=max` yield positions outside it.
    pub fn to_percentage(&self, val: u8) -> (r: Fraction)
        requires
            self.valid(),
        ensures
            r.num == self.position_num(val),
            r.den == self.position_den(),
            0 < r.den <= 255,
            -255 <= r.num <= 255,
    {
        Fraction { num: val as i32 - self.min as i32, den: (self.max - self.min) as u32 }
    }
}

/// The fader position law: a valid fader maps `min` to position 0 and `max`
/// to position 1 (numerator equal to the positive denominator), and is
/// linear in between: one raw value step moves the numerator by exactly one
/// while the denominator stays fixed.
pub proof fn lemma_to_percentage_law(f: Fader)
    requires
        f.valid(),
    ensures
        f.position_num(f.min) == 0,
        f.position_num(f.max) == f.position_den(),
        0 < f.position_den(),
        forall|v1: u8, v2: u8| f.position_num(v1) - f.position_num(v2) == v1 - v2,
{
}

/// A reference error found while building a `Profile` from a `ProfileConfig`.
/// Each variant carries the offending name from the configuration.
#[derive(Debug, Clone)]
pub enum ConfigError {
    FaderNotFound(String),
    ButtonNotFound(String),
    GroupNotFound(String),
    InvalidFaderRange(String),
}

/// Mathematical model of a `ConfigError`: the same variants over character
/// sequences.
pub ghost enum ConfigErrorV {
    FaderNotFound(Seq<char>),
    ButtonNotFound(Seq<char>),
    GroupNotFound(Seq<char>),
    InvalidFaderRange(Seq<char>),
}

impl View for ConfigError {
    type V = ConfigErrorV;

    open spec fn view(&self) -> ConfigErrorV {
        match self {
            ConfigError::FaderNotFound(n) => ConfigErrorV::FaderNotFound(n@),
            ConfigError::ButtonNotFound(n) => ConfigErrorV::ButtonNotFound(n@),
            ConfigError::GroupNotFound(n) => ConfigErrorV::GroupNotFound(n@),
            ConfigError::InvalidFaderRange(n) => ConfigErrorV::InvalidFaderRange(n@),
        }
    }
}

impl ConfigError {
    /// A human-readable description of the error, naming the missing or
    /// invalid configuration entry.
    pub fn describe(&self) -> String {
        match self {
            ConfigError::FaderNotFound(n) => {
                String::from_str("fader not found in config: ").concat(n.as_str())
            },
            ConfigError::ButtonNotFound(n) => {
                String::from_str("button not found in config: ").concat(n.as_str())
            },
            ConfigError::GroupNotFound(n) => {
                String::from_str("group not found in config: ").concat(n.as_str())
            },
            ConfigError::InvalidFaderRange(n) => {
                String::from_str("fader range must satisfy max > min: ").concat(n.as_str())
            },
        }
    }
}

/// The flat, persisted form of a group: lists of control names that must
/// resolve against the controls dictionaries.
#[derive(Debug, Clone)]
pub struct GroupConfig {
    pub volume_control: Vec<String>,
    pub mute: Vec<String>,
}

/// Model of a `GroupConfig`.
pub ghost struct GroupConfigV {
    pub volume_control: Seq<Seq<char>>,
    pub mute: Seq<Seq<char>>,
}

impl View for GroupConfig {
    type V = GroupConfigV;

    open spec fn view(&self) -> GroupConfigV {
        GroupConfigV {
            volume_control: self.volume_control@.map_values(|s: String| s@),
            mute: self.mute@.map_values(|s: String| s@),
        }
    }
}

/// The controls dictionaries: named faders and named buttons. Names act as
/// map keys and are expected to be unique within each list.
#[derive(Debug, Clone)]
pub struct ControlsConfig {
    pub buttons: Vec<(String, Button)>,
    pub faders: Vec<(String, Fader)>,
}

/// Model of the controls dictionaries.
pub ghost struct ControlsV {
    pub buttons: Seq<(Seq<char>, Button)>,
    pub faders: Seq<(Seq<char>, Fader)>,
}

impl View for ControlsConfig {
    type V = ControlsV;

    open spec fn view(&self) -> ControlsV {
        ControlsV { buttons: pairs_view(self.buttons@), faders: pairs_view(self.faders@) }
    }
}

/// The persisted configuration: the MIDI port to open, the controls
/// dictionaries, the named groups, and the group-name-to-sink-name mapping.
#[derive(Debug, Clone)]
pub struct ProfileConfig {
    pub midi_controller_name: String,
    pub controls: ControlsConfig,
    pub groups: Vec<(String, GroupConfig)>,
    pub mapping: Vec<(String, String)>,
}

/// Model of a `ProfileConfig`.
pub ghost struct ProfileConfigV {
    pub midi_controller_name: Seq<char>,
    pub controls: ControlsV,
    pub groups: Seq<(Seq<char>, GroupConfigV)>,
    pub mapping: Seq<(Seq<char>, Seq<char>)>,
}

impl View for ProfileConfig {
    type V = ProfileConfigV;

    open spec fn view(&self) -> ProfileConfigV {
        ProfileConfigV {
            midi_controller_name: self.midi_controller_name@,
            controls: self.controls@,
            groups: self.groups@.map_values(|p: (String, GroupConfig)| (p.0@, p.1@)),
            mapping: self.mapping@.map_values(|p: (String, String)| (p.0@, p.1@)),
        }
    }
}

/// The name-keyed view of a dictionary stored as name-value pairs.
pub open spec fn pairs_view<T>(d: Seq<(String, T)>) -> Seq<(Seq<char>, T)> {
    d.map_values(|p: (String, T)| (p.0@, p.1))
}

/// The value under the first occurrence of `name` in a dictionary, if any.
pub open spec fn lookup<T>(dict: Seq<(Seq<char>, T)>, name: Seq<char>) -> Option<T>
    decreases dict.len(),
{
    if dict.len() == 0 {
        None
    } else if dict[0].0 == name {
        Some(dict[0].1)
    } else {
        lookup(dict.skip(1), name)
    }
}

/// The name of the first fader in the dictionary with a degenerate range,
/// if any: such a fader would divide by zero in the percentage conversion,
/// so construction must reject it.
pub open spec fn first_invalid_fader(faders: Seq<(Seq<char>, Fader)>) -> Option<Seq<char>>
    decreases faders.len(),
{
    if faders.len() == 0 {
        None
    } else if !faders[0].1.valid() {
        Some(faders[0].0)
    } else {
        first_invalid_fader(faders.skip(1))
    }
}

/// Resolves a list of control names against a dictionary: the values in
/// order, or the first name that is not defined.
pub open spec fn resolve_names<T>(names: Seq<Seq<char>>, dict: Seq<(Seq<char>, T)>) -> Result<
    Seq<T>,
    Seq<char>,
>
    decreases names.len(),
{
    if names.len() == 0 {
        Ok(Seq::empty())
    } else {
        match resolve_names(names.drop_last(), dict) {
            Ok(vs) => match lookup(dict, names.last()) {
                Some(v) => Ok(vs.push(v)),
                None => Err(names.last()),
            },
            Err(n) => Err(n),
        }
    }
}

/// Builds one group by resolving its member names; a missing fader name is
/// reported before a missing button name.
pub open spec fn build_group(
    name: Seq<char>,
    cfg: GroupConfigV,
    faders: Seq<(Seq<char>, Fader)>,
    buttons: Seq<(Seq<char>, Button)>,
) -> Result<GroupV, ConfigErrorV> {
    match resolve_names(cfg.volume_control, faders) {
        Err(n) => Err(ConfigErrorV::FaderNotFound(n)),
        Ok(fs) => match resolve_names(cfg.mute, buttons) {
            Err(n) => Err(ConfigErrorV::ButtonNotFound(n)),
            Ok(bs) => Ok(GroupV { name, volume_control: fs, mute: bs }),
        },
    }
}

/// Builds all groups in configuration order; the first bad reference aborts
/// the whole construction.
pub open spec fn build_groups(
    groups: Seq<(Seq<char>, GroupConfigV)>,
    faders: Seq<(Seq<char>, Fader)>,
    buttons: Seq<(Seq<char>, Button)>,
) -> Result<Seq<GroupV>, ConfigErrorV>
    decreases groups.len(),
{
    if groups.len() == 0 {
        Ok(Seq::empty())
    } else {
        match build_groups(groups.drop_last(), faders, buttons) {
            Err(e) => Err(e),
            Ok(gs) => match build_group(groups.last().0, groups.last().1, faders, buttons) {
                Err(e) => Err(e),
                Ok(g) => Ok(gs.push(g)),
            },
        }
    }
}

/// The first constructed group carrying `name`, if any.
pub open spec fn lookup_group(groups: Seq<GroupV>, name: Seq<char>) -> Option<GroupV>
    decreases groups.len(),
{
    if groups.len() == 0 {
        None
    } else if groups[0].name == name {
        Some(groups[0])
    } else {
        lookup_group(groups.skip(1), name)
    }
}

/// Resolves the mapping table: each entry's group name must denote a
/// constructed group; the sink name is carried over unchanged.
pub open spec fn build_mapping(
    mapping: Seq<(Seq<char>, Seq<char>)>,
    groups: Seq<GroupV>,
) -> Result<Seq<(GroupV, Seq<char>)>, ConfigErrorV>
    decreases mapping.len(),
{
    if mapping.len() == 0 {
        Ok(Seq::empty())
    } else {
        match build_mapping(mapping.drop_last(), groups) {
            Err(e) => Err(e),
            Ok(ms) => match lookup_group(groups, mapping.last().0) {
                Some(g) => Ok(ms.push((g, mapping.last().1))),
                None => Err(ConfigErrorV::GroupNotFound(mapping.last().0)),
            },
        }
    }
}

/// The profile constructed from a configuration, or the error that rejects
/// it: the first degenerate fader range, else the first unresolvable control
/// reference in group order (faders before buttons within a group), else the
/// first unresolvable group name in the mapping.
pub open spec fn spec_new(c: ProfileConfigV) -> Result<ProfileV, ConfigErrorV> {
    match first_invalid_fader(c.controls.faders) {
        Some(n) => Err(ConfigErrorV::InvalidFaderRange(n)),
        None => match build_groups(c.groups, c.controls.faders, c.controls.buttons) {
            Err(e) => Err(e),
            Ok(gs) => match build_mapping(c.mapping, gs) {
                Err(e) => Err(e),
                Ok(m) => Ok(
                    ProfileV {
                        midi_controller_name: c.midi_controller_name,
                        buttons: c.controls.buttons,
                        faders: c.controls.faders,
                        mapping: m,
                    },
                ),
            },
        },
    }
}

/// Every cross-reference of the configuration resolves and every fader range
/// is usable: exactly the configurations from which a profile is built.
pub open spec fn config_resolvable(c: ProfileConfigV) -> bool {
    &&& forall|i: int| 0 <= i < c.controls.faders.len() ==> c.controls.faders[i].1.valid()
    &&& forall|i: int, j: int|
        0 <= i < c.groups.len() && 0 <= j < c.groups[i].1.volume_control.len() ==> lookup(
            c.controls.faders,
            c.groups[i].1.volume_control[j],
        ) is Some
    &&& forall|i: int, j: int|
        0 <= i < c.groups.len() && 0 <= j < c.groups[i].1.mute.len() ==> lookup(
            c.controls.buttons,
            c.groups[i].1.mute[j],
        ) is Some
    &&& forall|i: int|
        0 <= i < c.mapping.len() ==> (exists|k: int|
            0 <= k < c.groups.len() && #[trigger] c.groups[k].0 == #[trigger] c.mapping[i].0)
}

/// No fader is reported invalid exactly when every fader range is usable.
pub proof fn lemma_first_invalid_fader_none(faders: Seq<(Seq<char>, Fader)>)
    ensures
        first_invalid_fader(faders) is None <==> (forall|i: int|
            0 <= i < faders.len() ==> (#[trigger] faders[i]).1.valid()),
    decreases faders.len(),
{
    if faders.len() > 0 {
        lemma_first_invalid_fader_none(faders.skip(1));
        let tail = faders.skip(1);
        if first_invalid_fader(faders) is None {
            assert forall|i: int| 0 <= i < faders.len() implies (
            #[trigger] faders[i]).1.valid() by {
                if i > 0 {
                    assert(tail[i - 1] == faders[i]);
                }
            }
        } else {
            if faders[0].1.valid() {
                let j = choose|j: int| 0 <= j < tail.len() && !(#[trigger] tail[j]).1.valid();
                assert(faders[j + 1] == tail[j]);
            }
        }
    }
}

/// Name resolution succeeds exactly when every name is defined, and then
/// returns the dictionary value of each name in order.
pub proof fn lemma_resolve_names_props<T>(names: Seq<Seq<char>>, dict: Seq<(Seq<char>, T)>)
    ensures
        resolve_names(names, dict) is Ok <==> (forall|i: int|
            0 <= i < names.len() ==> lookup(dict, #[trigger] names[i]) is Some),
        resolve_names(names, dict) matches Ok(vs) ==> vs.len() == names.len() && (forall|i: int|
            0 <= i < names.len() ==> lookup(dict, #[trigger] names[i]) == Some(vs[i])),
    decreases names.len(),
{
    if names.len() > 0 {
        let front = names.drop_last();
        lemma_resolve_names_props(front, dict);
        assert(names.last() == names[names.len() - 1]);
        if resolve_names(names, dict) is Ok {
            let vs = resolve_names(names, dict)->Ok_0;
            let ws = resolve_names(front, dict)->Ok_0;
            assert(vs == ws.push(lookup(dict, names.last())->Some_0));
            assert forall|i: int| 0 <= i < names.len() implies lookup(
                dict,
                #[trigger] names[i],
            ) == Some(vs[i]) by {
                if i < names.len() - 1 {
                    assert(front[i] == names[i]);
                }
            }
        } else {
            if !(forall|i: int|
                0 <= i < names.len() - 1 ==> lookup(dict, #[trigger] front[i]) is Some) {
                let j = choose|j: int|
                    0 <= j < front.len() && !(lookup(dict, #[trigger] front[j]) is Some);
                assert(front[j] == names[j]);
            } else {
                assert(resolve_names(front, dict) is Ok);
                assert(lookup(dict, names.last()) is None);
            }
        }
    }
}

/// Once resolution of a prefix has failed, resolving the whole list returns
/// that same failure.
pub proof fn lemma_resolve_names_err_stable<T>(
    names: Seq<Seq<char>>,
    dict: Seq<(Seq<char>, T)>,
    i: int,
)
    requires
        0 <= i <= names.len(),
        resolve_names(names.take(i), dict) is Err,
    ensures
        resolve_names(names, dict) == resolve_names(names.take(i), dict),
    decreases names.len() - i,
{
    if i < names.len() {
        assert(names.take(i + 1).drop_last() =~= names.take(i));
        lemma_resolve_names_err_stable(names, dict, i + 1);
    } else {
        assert(names.take(i) =~= names);
    }
}

/// Group construction succeeds exactly when each group builds, and then
/// yields the built groups in configuration order.
pub proof fn lemma_build_groups_props(
    groups: Seq<(Seq<char>, GroupConfigV)>,
    faders: Seq<(Seq<char>, Fader)>,
    buttons: Seq<(Seq<char>, Button)>,
)
    ensures
        build_groups(groups, faders, buttons) is Ok <==> (forall|i: int|
            0 <= i < groups.len() ==> build_group(
                (#[trigger] groups[i]).0,
                groups[i].1,
                faders,
                buttons,
            ) is Ok),
        build_groups(groups, faders, buttons) matches Ok(gs) ==> gs.len() == groups.len() && (
        forall|i: int|
            0 <= i < groups.len() ==> build_group(
                (#[trigger] groups[i]).0,
                groups[i].1,
                faders,
                buttons,
            ) == Ok::<GroupV, ConfigErrorV>(gs[i])),
    decreases groups.len(),
{
    if groups.len() > 0 {
        let front = groups.drop_last();
        lemma_build_groups_props(front, faders, buttons);
        assert(groups.last() == groups[groups.len() - 1]);
        if build_groups(groups, faders, buttons) is Ok {
            let gs = build_groups(groups, faders, buttons)->Ok_0;
            let hs = build_groups(front, faders, buttons)->Ok_0;
            assert(gs == hs.push(
                build_group(groups.last().0, groups.last().1, faders, buttons)->Ok_0,
            ));
            assert forall|i: int| 0 <= i < groups.len() implies build_group(
                (#[trigger] groups[i]).0,
                groups[i].1,
                faders,
                buttons,
            ) == Ok::<GroupV, ConfigErrorV>(gs[i]) by {
                if i < groups.len() - 1 {
                    assert(front[i] == groups[i]);
                }
            }
        } else {
            if !(forall|i: int|
                0 <= i < front.len() ==> build_group(
                    (#[trigger] front[i]).0,
                    front[i].1,
                    faders,
                    buttons,
                ) is Ok) {
                let j = choose|j: int|
                    0 <= j < front.len() && !(build_group(
                        (#[trigger] front[j]).0,
                        front[j].1,
                        faders,
                        buttons,
                    ) is Ok);
                assert(front[j] == groups[j]);
            } else {
                assert(build_groups(front, faders, buttons) is Ok);
                assert(build_group(groups.last().0, groups.last().1, faders, buttons) is Err);
            }
        }
    }
}

/// Once a prefix of the groups fails to build, the whole list fails the
/// same way.
pub proof fn lemma_build_groups_err_stable(
    groups: Seq<(Seq<char>, GroupConfigV)>,
    faders: Seq<(Seq<char>, Fader)>,
    buttons: Seq<(Seq<char>, Button)>,
    i: int,
)
    requires
        0 <= i <= groups.len(),
        build_groups(groups.take(i), faders, buttons) is Err,
    ensures
        build_groups(groups, faders, buttons) == build_groups(groups.take(i), faders, buttons),
    decreases groups.len() - i,
{
    if i < groups.len() {
        assert(groups.take(i + 1).drop_last() =~= groups.take(i));
        lemma_build_groups_err_stable(groups, faders, buttons, i + 1);
    } else {
        assert(groups.take(i) =~= groups);
    }
}

/// A group name looks up exactly when some constructed group carries it.
pub proof fn lemma_lookup_group_some(groups: Seq<GroupV>, name: Seq<char>)
    ensures
        lookup_group(groups, name) is Some <==> (exists|k: int|
            0 <= k < groups.len() && (#[trigger] groups[k]).name == name),
        lookup_group(groups, name) matches Some(g) ==> g.name == name && (exists|k: int|
            0 <= k < groups.len() && #[trigger] groups[k] == g),
    decreases groups.len(),
{
    if groups.len() > 0 {
        let tail = groups.skip(1);
        lemma_lookup_group_some(tail, name);
        if groups[0].name == name {
        } else {
            if lookup_group(tail, name) is Some {
                let k = choose|k: int| 0 <= k < tail.len() && (#[trigger] tail[k]).name == name;
                assert(groups[k + 1] == tail[k]);
                let m = choose|m: int| 0 <= m < tail.len() && #[trigger] tail[m] == lookup_group(
                    tail,
                    name,
                )->Some_0;
                assert(groups[m + 1] == tail[m]);
            } else {
                if exists|k: int| 0 <= k < groups.len() && (#[trigger] groups[k]).name == name {
                    let k = choose|k: int|
                        0 <= k < groups.len() && (#[trigger] groups[k]).name == name;
                    assert(k > 0);
                    assert(tail[k - 1] == groups[k]);
                }
            }
        }
    }
}

/// Mapping resolution succeeds exactly when every referenced group name is
/// among the constructed groups, and then pairs each entry's group with its
/// sink name in order.
pub proof fn lemma_build_mapping_props(mapping: Seq<(Seq<char>, Seq<char>)>, groups: Seq<GroupV>)
    ensures
        build_mapping(mapping, groups) is Ok <==> (forall|i: int|
            0 <= i < mapping.len() ==> lookup_group(groups, (#[trigger] mapping[i]).0) is Some),
        build_mapping(mapping, groups) matches Ok(ms) ==> ms.len() == mapping.len() && (forall|
            i: int,
        |
            0 <= i < mapping.len() ==> lookup_group(groups, (#[trigger] mapping[i]).0) == Some(
                ms[i].0,
            ) && ms[i].1 == mapping[i].1),
    decreases mapping.len(),
{
    if mapping.len() > 0 {
        let front = mapping.drop_last();
        lemma_build_mapping_props(front, groups);
        assert(mapping.last() == mapping[mapping.len() - 1]);
        if build_mapping(mapping, groups) is Ok {
            let ms = build_mapping(mapping, groups)->Ok_0;
            let ns = build_mapping(front, groups)->Ok_0;
            assert(ms == ns.push(
                (lookup_group(groups, mapping.last().0)->Some_0, mapping.last().1),
            ));
            assert forall|i: int| 0 <= i < mapping.len() implies lookup_group(
                groups,
                (#[trigger] mapping[i]).0,
            ) == Some(ms[i].0) && ms[i].1 == mapping[i].1 by {
                if i < mapping.len() - 1 {
                    assert(front[i] == mapping[i]);
                }
            }
        } else {
            if !(forall|i: int|
                0 <= i < front.len() ==> lookup_group(groups, (#[trigger] front[i]).0) is Some) {
                let j = choose|j: int|
                    0 <= j < front.len() && !(lookup_group(
                        groups,
                        (#[trigger] front[j]).0,
                    ) is Some);
                assert(front[j] == mapping[j]);
            } else {
                assert(build_mapping(front, groups) is Ok);
                assert(lookup_group(groups, mapping.last().0) is None);
            }
        }
    }
}

/// Once a prefix of the mapping fails to resolve, the whole mapping fails
/// the same way.
pub proof fn lemma_build_mapping_err_stable(
    mapping: Seq<(Seq<char>, Seq<char>)>,
    groups: Seq<GroupV>,
    i: int,
)
    requires
        0 <= i <= mapping.len(),
        build_mapping(mapping.take(i), groups) is Err,
    ensures
        build_mapping(mapping, groups) == build_mapping(mapping.take(i), groups),
    decreases mapping.len() - i,
{
    if i < mapping.len() {
        assert(mapping.take(i + 1).drop_last() =~= mapping.take(i));
        lemma_build_mapping_err_stable(mapping, groups, i + 1);
    } else {
        assert(mapping.take(i) =~= mapping);
    }
}

/// A profile is constructed exactly from the configurations whose
/// cross-references all resolve and whose fader ranges are all usable.
pub proof fn lemma_spec_new_ok_iff(c: ProfileConfigV)
    ensures
        spec_new(c) is Ok <==> config_resolvable(c),
{
    lemma_first_invalid_fader_none(c.controls.faders);
    lemma_build_groups_props(c.groups, c.controls.faders, c.controls.buttons);
    if first_invalid_fader(c.controls.faders) is None {
        assert forall|i: int| 0 <= i < c.groups.len() implies (build_group(
            (#[trigger] c.groups[i]).0,
            c.groups[i].1,
            c.controls.faders,
            c.controls.buttons,
        ) is Ok <==> ((forall|j: int|
            0 <= j < c.groups[i].1.volume_control.len() ==> lookup(
                c.controls.faders,
                #[trigger] c.groups[i].1.volume_control[j],
            ) is Some) && (forall|j: int|
            0 <= j < c.groups[i].1.mute.len() ==> lookup(
                c.controls.buttons,
                #[trigger] c.groups[i].1.mute[j],
            ) is Some))) by {
            lemma_resolve_names_props(c.groups[i].1.volume_control, c.controls.faders);
            lemma_resolve_names_props(c.groups[i].1.mute, c.controls.buttons);
        }
        if build_groups(c.groups, c.controls.faders, c.controls.buttons) is Ok {
            let gs = build_groups(c.groups, c.controls.faders, c.controls.buttons)->Ok_0;
            lemma_build_mapping_props(c.mapping, gs);
            assert forall|i: int| 0 <= i < c.mapping.len() implies (lookup_group(
                gs,
                (#[trigger] c.mapping[i]).0,
            ) is Some <==> (exists|k: int|
                0 <= k < c.groups.len() && #[trigger] c.groups[k].0 == c.mapping[i].0)) by {
                lemma_lookup_group_some(gs, c.mapping[i].0);
                assert forall|k: int| 0 <= k < gs.len() implies (#[trigger] gs[k]).name
                    == c.groups[k].0 by {
                    assert(build_group(c.groups[k].0, c.groups[k].1, c.controls.faders,
                        c.controls.buttons) == Ok::<GroupV, ConfigErrorV>(gs[k]));
                }
            }
        }
    }
}

/// A resolved group: the member faders and buttons looked up by name at
/// construction time.
#[derive(Debug, Clone)]
pub struct Group {
    pub name: String,
    pub volume_control: Vec<Fader>,
    pub mute: Vec<Button>,
}

/// Model of a resolved group.
pub ghost struct GroupV {
    pub name: Seq<char>,
    pub volume_control: Seq<Fader>,
    pub mute: Seq<Button>,
}

impl View for Group {
    type V = GroupV;

    open spec fn view(&self) -> GroupV {
        GroupV { name: self.name@, volume_control: self.volume_control@, mute: self.mute@ }
    }
}

/// A validated profile: immutable after construction. Owns the controls
/// dictionaries and the mapping from resolved groups to logical sink names.
#[derive(Debug, Clone)]
pub struct Profile {
    pub midi_controller_name: String,
    pub buttons: Vec<(String, Button)>,
    pub faders: Vec<(String, Fader)>,
    pub mapping: Vec<(Group, String)>,
}

/// Model of a `Profile`.
pub ghost struct ProfileV {
    pub midi_controller_name: Seq<char>,
    pub buttons: Seq<(Seq<char>, Button)>,
    pub faders: Seq<(Seq<char>, Fader)>,
    pub mapping: Seq<(GroupV, Seq<char>)>,
}

impl View for Profile {
    type V = ProfileV;

    open spec fn view(&self) -> ProfileV {
        ProfileV {
            midi_controller_name: self.midi_controller_name@,
            buttons: pairs_view(self.buttons@),
            faders: pairs_view(self.faders@),
            mapping: mapping_view(self.mapping@),
        }
    }
}

/// The models of a list of resolved groups.
pub open spec fn groups_view(gs: Seq<Group>) -> Seq<GroupV> {
    gs.map_values(|g: Group| g@)
}

/// The model of the mapping table.
pub open spec fn mapping_view(ms: Seq<(Group, String)>) -> Seq<(GroupV, Seq<char>)> {
    ms.map_values(|p: (Group, String)| (p.0@, p.1@))
}

/// The first fader stored under `name`, if any.
fn lookup_fader(dict: &Vec<(String, Fader)>, name: &String) -> (r: Option<Fader>)
    ensures
        r == lookup(pairs_view(dict@), name@),
{
    let ghost d = pairs_view(dict@);
    proof {
        assert(d.skip(0) =~= d);
    }
    let mut i: usize = 0;
    while i < dict.len()
        invariant
            i <= dict.len(),
            d == pairs_view(dict@),
            lookup(d, name@) == lookup(d.skip(i as int), name@),
        decreases dict.len() - i,
    {
        proof {
            assert(d.skip(i as int)[0] == d[i as int]);
        }
        if dict[i].0 == *name {
            return Some(dict[i].1);
        }
        proof {
            assert(d.skip(i as int).skip(1) =~= d.skip(i as int + 1));
        }
        i += 1;
    }
    proof {
        assert(d.skip(dict.len() as int) =~= Seq::<(Seq<char>, Fader)>::empty());
    }
    None
}

/// The first button stored under `name`, if any.
fn lookup_button(dict: &Vec<(String, Button)>, name: &String) -> (r: Option<Button>)
    ensures
        r == lookup(pairs_view(dict@), name@),
{
    let ghost d = pairs_view(dict@);
    proof {
        assert(d.skip(0) =~= d);
    }
    let mut i: usize = 0;
    while i < dict.len()
        invariant
            i <= dict.len(),
            d == pairs_view(dict@),
            lookup(d, name@) == lookup(d.skip(i as int), name@),
        decreases dict.len() - i,
    {
        proof {
            assert(d.skip(i as int)[0] == d[i as int]);
        }
        if dict[i].0 == *name {
            return Some(dict[i].1);
        }
        proof {
            assert(d.skip(i as int).skip(1) =~= d.skip(i as int + 1));
        }
        i += 1;
    }
    proof {
        assert(d.skip(dict.len() as int) =~= Seq::<(Seq<char>, Button)>::empty());
    }
    None
}

/// The index of the first group carrying `name`, if any.
fn find_group(groups: &Vec<Group>, name: &String) -> (r: Option<usize>)
    ensures
        r matches Some(i) ==> i < groups.len() && lookup_group(groups_view(groups@), name@)
            == Some(groups@[i as int]@),
        r is None ==> lookup_group(groups_view(groups@), name@) is None,
{
    let ghost gv = groups_view(groups@);
    proof {
        assert(gv.skip(0) =~= gv);
    }
    let mut i: usize = 0;
    while i < groups.len()
        invariant
            i <= groups.len(),
            gv == groups_view(groups@),
            lookup_group(gv, name@) == lookup_group(gv.skip(i as int), name@),
        decreases groups.len() - i,
    {
        proof {
            assert(gv.skip(i as int)[0] == gv[i as int]);
        }
        if groups[i].name == *name {
            return Some(i);
        }
        proof {
            assert(gv.skip(i as int).skip(1) =~= gv.skip(i as int + 1));
        }
        i += 1;
    }
    proof {
        assert(gv.skip(groups.len() as int) =~= Seq::<GroupV>::empty());
    }
    None
}

/// A copy of a fader list.
fn copy_faders(v: &Vec<Fader>) -> (r: Vec<Fader>)
    ensures
        r@ == v@,
{
    let mut r: Vec<Fader> = Vec::new();
    let mut i: usize = 0;
    while i < v.len()
        invariant
            i <= v.len(),
            r@ == v@.take(i as int),
        decreases v.len() - i,
    {
        r.push(v[i]);
        proof {
            assert(v@.take(i as int).push(v@[i as int]) =~= v@.take(i as int + 1));
        }
        i += 1;
    }
    proof {
        assert(v@.take(v.len() as int) =~= v@);
    }
    r
}

/// A copy of a button list.
fn copy_buttons(v: &Vec<Button>) -> (r: Vec<Button>)
    ensures
        r@ == v@,
{
    let mut r: Vec<Button> = Vec::new();
    let mut i: usize = 0;
    while i < v.len()
        invariant
            i <= v.len(),
            r@ == v@.take(i as int),
        decreases v.len() - i,
    {
        r.push(v[i]);
        proof {
            assert(v@.take(i as int).push(v@[i as int]) =~= v@.take(i as int + 1));
        }
        i += 1;
    }
    proof {
        assert(v@.take(v.len() as int) =~= v@);
    }
    r
}

/// A copy of a group with the same model.
fn clone_group(g: &Group) -> (r: Group)
    ensures
        r@ == g@,
{
    Group {
        name: g.name.clone(),
        volume_control: copy_faders(&g.volume_control),
        mute: copy_buttons(&g.mute),
    }
}

/// A copy of the fader dictionary with the same model.
fn copy_fader_dict(d: &Vec<(String, Fader)>) -> (r: Vec<(String, Fader)>)
    ensures
        pairs_view(r@) == pairs_view(d@),
{
    let mut r: Vec<(String, Fader)> = Vec::new();
    let mut i: usize = 0;
    while i < d.len()
        invariant
            i <= d.len(),
            r@.len() == i,
            forall|j: int|
                0 <= j < i ==> (#[trigger] r@[j]).0@ == d@[j].0@ && r@[j].1 == d@[j].1,
        decreases d.len() - i,
    {
        r.push((d[i].0.clone(), d[i].1));
        i += 1;
    }
    proof {
        assert(pairs_view(r@) =~= pairs_view(d@));
    }
    r
}

/// A copy of the button dictionary with the same model.
fn copy_button_dict(d: &Vec<(String, Button)>) -> (r: Vec<(String, Button)>)
    ensures
        pairs_view(r@) == pairs_view(d@),
{
    let mut r: Vec<(String, Button)> = Vec::new();
    let mut i: usize = 0;
    while i < d.len()
        invariant
            i <= d.len(),
            r@.len() == i,
            forall|j: int|
                0 <= j < i ==> (#[trigger] r@[j]).0@ == d@[j].0@ && r@[j].1 == d@[j].1,
        decreases d.len() - i,
    {
        r.push((d[i].0.clone(), d[i].1));
        i += 1;
    }
    proof {
        assert(pairs_view(r@) =~= pairs_view(d@));
    }
    r
}

impl Profile {
    /// Resolves a group's fader names against the fader dictionary: the
    /// faders in order, or a fader-not-found error carrying the first
    /// undefined name.
    pub fn get_faders(group: &GroupConfig, faders: &Vec<(String, Fader)>) -> (r: Result<
        Vec<Fader>,
        ConfigError,
    >)
        ensures
            r matches Ok(v) ==> resolve_names(group@.volume_control, pairs_view(faders@))
                == Ok::<Seq<Fader>, Seq<char>>(v@),
            r matches Err(e) ==> (e@ matches ConfigErrorV::FaderNotFound(n) && resolve_names(
                group@.volume_control,
                pairs_view(faders@),
            ) == Err::<Seq<Fader>, Seq<char>>(n)),
            r is Ok <==> resolve_names(group@.volume_control, pairs_view(faders@)) is Ok,
    {
        let ghost names = group@.volume_control;
        let ghost fd = pairs_view(faders@);
        let mut acc: Vec<Fader> = Vec::new();
        let mut i: usize = 0;
        while i < group.volume_control.len()
            invariant
                i <= group.volume_control.len(),
                names == group@.volume_control,
                fd == pairs_view(faders@),
                resolve_names(names.take(i as int), fd) == Ok::<Seq<Fader>, Seq<char>>(acc@),
            decreases group.volume_control.len() - i,
        {
            let name = &group.volume_control[i];
            proof {
                assert(names.take(i as int + 1).drop_last() =~= names.take(i as int));
                assert(names.take(i as int + 1).last() == names[i as int]);
                assert(names[i as int] == name@);
            }
            match lookup_fader(faders, name) {
                Some(f) => {
                    acc.push(f);
                    proof {
                        assert(resolve_names(names.take(i as int + 1), fd) == Ok::<
                            Seq<Fader>,
                            Seq<char>,
                        >(acc@));
                    }
                },
                None => {
                    proof {
                        assert(resolve_names(names.take(i as int + 1), fd) == Err::<
                            Seq<Fader>,
                            Seq<char>,
                        >(name@));
                        lemma_resolve_names_err_stable(names, fd, i as int + 1);
                        assert(names.take(names.len() as int) =~= names);
                    }
                    return Err(ConfigError::FaderNotFound(name.clone()));
                },
            }
            i += 1;
        }
        proof {
            assert(names.take(group.volume_control.len() as int) =~= names);
        }
        Ok(acc)
    }

    /// Resolves a group's button names against the button dictionary: the
    /// buttons in order, or a button-not-found error carrying the first
    /// undefined name.
    pub fn get_buttons(group: &GroupConfig, buttons: &Vec<(String, Button)>) -> (r: Result<
        Vec<Button>,
        ConfigError,
    >)
        ensures
            r matches Ok(v) ==> resolve_names(group@.mute, pairs_view(buttons@)) == Ok::<
                Seq<Button>,
                Seq<char>,
            >(v@),
            r matches Err(e) ==> (e@ matches ConfigErrorV::ButtonNotFound(n) && resolve_names(
                group@.mute,
                pairs_view(buttons@),
            ) == Err::<Seq<Button>, Seq<char>>(n)),
            r is Ok <==> resolve_names(group@.mute, pairs_view(buttons@)) is Ok,
    {
        let ghost names = group@.mute;
        let ghost bd = pairs_view(buttons@);
        let mut acc: Vec<Button> = Vec::new();
        let mut i: usize = 0;
        while i < group.mute.len()
            invariant
                i <= group.mute.len(),
                names == group@.mute,
                bd == pairs_view(buttons@),
                resolve_names(names.take(i as int), bd) == Ok::<Seq<Button>, Seq<char>>(acc@),
            decreases group.mute.len() - i,
        {
            let name = &group.mute[i];
            proof {
                assert(names.take(i as int + 1).drop_last() =~= names.take(i as int));
                assert(names.take(i as int + 1).last() == names[i as int]);
                assert(names[i as int] == name@);
            }
            match lookup_button(buttons, name) {
                Some(b) => {
                    acc.push(b);
                    proof {
                        assert(resolve_names(names.take(i as int + 1), bd) == Ok::<
                            Seq<Button>,
                            Seq<char>,
                        >(acc@));
                    }
                },
                None => {
                    proof {
                        assert(resolve_names(names.take(i as int + 1), bd) == Err::<
                            Seq<Button>,
                            Seq<char>,
                        >(name@));
                        lemma_resolve_names_err_stable(names, bd, i as int + 1);
                        assert(names.take(names.len() as int) =~= names);
                    }
                    return Err(ConfigError::ButtonNotFound(name.clone()));
                },
            }
            i += 1;
        }
        proof {
            assert(names.take(group.mute.len() as int) =~= names);
        }
        Ok(acc)
    }

    /// The configured MIDI input port name.
    pub fn get_midi_controller_name(&self) -> (r: String)
        ensures
            r@ == self@.midi_controller_name,
    {
        self.midi_controller_name.clone()
    }

    /// Builds a profile from a configuration, validating every fader range,
    /// every control reference of every group, and every group reference of
    /// the mapping table. Succeeds exactly on resolvable configurations and
    /// returns the profile `spec_new` describes; any single bad entry fails
    /// the whole construction with the error `spec_new` describes.
    pub fn new(config: &ProfileConfig) -> (r: Result<Profile, ConfigError>)
        ensures
            r matches Ok(p) ==> spec_new(config@) == Ok::<ProfileV, ConfigErrorV>(p@),
            r matches Err(e) ==> spec_new(config@) == Err::<ProfileV, ConfigErrorV>(e@),
            r is Ok <==> config_resolvable(config@),
            config_keys_unique(config@) ==> (r matches Ok(p) ==> p@.wf()),
    {
        let ghost c = config@;
        let ghost fd = pairs_view(config.controls.faders@);
        let ghost bd = pairs_view(config.controls.buttons@);

        // Reject the first fader whose range would divide by zero in the
        // percentage conversion.
        proof {
            assert(fd.skip(0) =~= fd);
        }
        let mut i: usize = 0;
        while i < config.controls.faders.len()
            invariant
                i <= config.controls.faders.len(),
                c == config@,
                fd == pairs_view(config.controls.faders@),
                first_invalid_fader(fd) == first_invalid_fader(fd.skip(i as int)),
                forall|k: int| 0 <= k < i ==> (#[trigger] fd[k]).1.valid(),
            decreases config.controls.faders.len() - i,
        {
            proof {
                assert(fd.skip(i as int)[0] == fd[i as int]);
            }
            let f = config.controls.faders[i].1;
            if f.max <= f.min {
                proof {
                    assert(first_invalid_fader(fd) == Some(fd[i as int].0));
                    assert(c.controls.faders == fd);
                    assert(fd.len() == config.controls.faders@.len());
                    assert(fd[i as int].1 == config.controls.faders@[i as int].1);
                    assert(!c.controls.faders[i as int].1.valid());
                }
                return Err(ConfigError::InvalidFaderRange(config.controls.faders[i].0.clone()));
            }
            proof {
                assert(fd.skip(i as int).skip(1) =~= fd.skip(i as int + 1));
            }
            i += 1;
        }
        proof {
            assert(fd.skip(config.controls.faders.len() as int) =~= Seq::<(
                Seq<char>,
                Fader,
            )>::empty());
            assert(first_invalid_fader(fd) is None);
        }

        // Build each configured group by resolving its member names.
        let mut groups_acc: Vec<Group> = Vec::new();
        proof {
            assert(c.groups.take(0) =~= Seq::<(Seq<char>, GroupConfigV)>::empty());
            assert(groups_view(groups_acc@) =~= Seq::<GroupV>::empty());
        }
        let mut gi: usize = 0;
        while gi < config.groups.len()
            invariant
                gi <= config.groups.len(),
                c == config@,
                fd == pairs_view(config.controls.faders@),
                bd == pairs_view(config.controls.buttons@),
                first_invalid_fader(fd) is None,
                build_groups(c.groups.take(gi as int), fd, bd) == Ok::<Seq<GroupV>, ConfigErrorV>(
                    groups_view(groups_acc@),
                ),
            decreases config.groups.len() - gi,
        {
            proof {
                assert(c.groups.take(gi as int + 1).drop_last() =~= c.groups.take(gi as int));
                assert(c.groups.take(gi as int + 1).last() == c.groups[gi as int]);
                assert(c.groups[gi as int] == (config.groups@[gi as int].0@, config.groups@[
                    gi as int].1@));
            }
            let gname = &config.groups[gi].0;
            let gcfg = &config.groups[gi].1;
            let fs = match Profile::get_faders(gcfg, &config.controls.faders) {
                Ok(v) => v,
                Err(e) => {
                    proof {
                        assert(build_group(c.groups[gi as int].0, c.groups[gi as int].1, fd, bd)
                            == Err::<GroupV, ConfigErrorV>(e@));
                        assert(build_groups(c.groups.take(gi as int + 1), fd, bd) == Err::<
                            Seq<GroupV>,
                            ConfigErrorV,
                        >(e@));
                        lemma_build_groups_err_stable(c.groups, fd, bd, gi as int + 1);
                        assert(c.groups.take(c.groups.len() as int) =~= c.groups);
                        assert(spec_new(c) == Err::<ProfileV, ConfigErrorV>(e@));
                        lemma_resolve_names_props(c.groups[gi as int].1.volume_control, fd);
                        assert(!config_resolvable(c)) by {
                            if config_resolvable(c) {
                                assert(forall|j: int|
                                    0 <= j < c.groups[gi as int].1.volume_control.len()
                                        ==> lookup(
                                        fd,
                                        #[trigger] c.groups[gi as int].1.volume_control[j],
                                    ) is Some);
                            }
                        }
                    }
                    return Err(e);
                },
            };
            let bs = match Profile::get_buttons(gcfg, &config.controls.buttons) {
                Ok(v) => v,
                Err(e) => {
                    proof {
                        assert(build_group(c.groups[gi as int].0, c.groups[gi as int].1, fd, bd)
                            == Err::<GroupV, ConfigErrorV>(e@));
                        assert(build_groups(c.groups.take(gi as int + 1), fd, bd) == Err::<
                            Seq<GroupV>,
                            ConfigErrorV,
                        >(e@));
                        lemma_build_groups_err_stable(c.groups, fd, bd, gi as int + 1);
                        assert(c.groups.take(c.groups.len() as int) =~= c.groups);
                        assert(spec_new(c) == Err::<ProfileV, ConfigErrorV>(e@));
                        lemma_resolve_names_props(c.groups[gi as int].1.mute, bd);
                        assert(!config_resolvable(c)) by {
                            if config_resolvable(c) {
                                assert(forall|j: int|
                                    0 <= j < c.groups[gi as int].1.mute.len() ==> lookup(
                                        bd,
                                        #[trigger] c.groups[gi as int].1.mute[j],
                                    ) is Some);
                            }
                        }
                    }
                    return Err(e);
                },
            };
            let ghost prev_groups = groups_acc@;
            groups_acc.push(Group { name: gname.clone(), volume_control: fs, mute: bs });
            proof {
                assert(groups_acc@ == prev_groups.push(groups_acc@.last()));
                assert(groups_acc@.last()@ == build_group(
                    c.groups[gi as int].0,
                    c.groups[gi as int].1,
                    fd,
                    bd,
                )->Ok_0);
                assert(groups_view(groups_acc@) =~= groups_view(prev_groups).push(
                    groups_acc@.last()@,
                ));
                assert(build_groups(c.groups.take(gi as int + 1), fd, bd) == Ok::<
                    Seq<GroupV>,
                    ConfigErrorV,
                >(groups_view(groups_acc@)));
            }
            gi += 1;
        }
        proof {
            assert(c.groups.take(config.groups.len() as int) =~= c.groups);
        }
        let ghost gsv = groups_view(groups_acc@);

        // Resolve the mapping table against the constructed groups.
        let mut mapping_acc: Vec<(Group, String)> = Vec::new();
        proof {
            assert(c.mapping.take(0) =~= Seq::<(Seq<char>, Seq<char>)>::empty());
            assert(mapping_view(mapping_acc@) =~= Seq::<(GroupV, Seq<char>)>::empty());
        }
        let mut mi: usize = 0;
        while mi < config.mapping.len()
            invariant
                mi <= config.mapping.len(),
                c == config@,
                fd == pairs_view(config.controls.faders@),
                bd == pairs_view(config.controls.buttons@),
                gsv == groups_view(groups_acc@),
                build_groups(c.groups, fd, bd) == Ok::<Seq<GroupV>, ConfigErrorV>(gsv),
                first_invalid_fader(fd) is None,
                build_mapping(c.mapping.take(mi as int), gsv) == Ok::<
                    Seq<(GroupV, Seq<char>)>,
                    ConfigErrorV,
                >(mapping_view(mapping_acc@)),
            decreases config.mapping.len() - mi,
        {
            proof {
                assert(c.mapping.take(mi as int + 1).drop_last() =~= c.mapping.take(mi as int));
                assert(c.mapping.take(mi as int + 1).last() == c.mapping[mi as int]);
                assert(c.mapping[mi as int] == (config.mapping@[mi as int].0@, config.mapping@[
                    mi as int].1@));
            }
            let gname = &config.mapping[mi].0;
            let sink = &config.mapping[mi].1;
            match find_group(&groups_acc, gname) {
                Some(idx) => {
                    let g = clone_group(&groups_acc[idx]);
                    proof {
                        assert(g@ == lookup_group(gsv, c.mapping[mi as int].0)->Some_0);
                    }
                    let ghost prev_mapping = mapping_acc@;
                    mapping_acc.push((g, sink.clone()));
                    proof {
                        assert(mapping_acc@ == prev_mapping.push(mapping_acc@.last()));
                        assert(mapping_view(mapping_acc@) =~= mapping_view(prev_mapping).push(
                            (mapping_acc@.last().0@, mapping_acc@.last().1@),
                        ));
                        assert(build_mapping(c.mapping.take(mi as int + 1), gsv) == Ok::<
                            Seq<(GroupV, Seq<char>)>,
                            ConfigErrorV,
                        >(mapping_view(mapping_acc@)));
                    }
                },
                None => {
                    proof {
                        assert(build_mapping(c.mapping.take(mi as int + 1), gsv) == Err::<
                            Seq<(GroupV, Seq<char>)>,
                            ConfigErrorV,
                        >(ConfigErrorV::GroupNotFound(gname@)));
                        lemma_build_mapping_err_stable(c.mapping, gsv, mi as int + 1);
                        assert(c.mapping.take(c.mapping.len() as int) =~= c.mapping);
                        assert(spec_new(c) == Err::<ProfileV, ConfigErrorV>(
                            ConfigErrorV::GroupNotFound(gname@),
                        ));
                        lemma_spec_new_ok_iff(c);
                    }
                    return Err(ConfigError::GroupNotFound(gname.clone()));
                },
            }
            mi += 1;
        }
        proof {
            assert(c.mapping.take(config.mapping.len() as int) =~= c.mapping);
        }

        let p = Profile {
            midi_controller_name: config.midi_controller_name.clone(),
            buttons: copy_button_dict(&config.controls.buttons),
            faders: copy_fader_dict(&config.controls.faders),
            mapping: mapping_acc,
        };
        proof {
            assert(spec_new(c) == Ok::<ProfileV, ConfigErrorV>(p@));
            lemma_spec_new_ok_iff(c);
            if config_keys_unique(c) {
                lemma_spec_new_wf(c);
            }
        }
        Ok(p)
    }
}

/// The first fader in a member list with the given channel and control
/// number, if any.
pub open spec fn find_fader_in(fs: Seq<Fader>, channel: u8, control: u8) -> Option<Fader>
    decreases fs.len(),
{
    if fs.len() == 0 {
        None
    } else if fs[0].channel == channel && fs[0].control == control {
        Some(fs[0])
    } else {
        find_fader_in(fs.skip(1), channel, control)
    }
}

/// The first button in a member list with the given channel and control
/// number, if any.
pub open spec fn find_button_in(bs: Seq<Button>, channel: u8, control: u8) -> Option<Button>
    decreases bs.len(),
{
    if bs.len() == 0 {
        None
    } else if bs[0].channel == channel && bs[0].control == control {
        Some(bs[0])
    } else {
        find_button_in(bs.skip(1), channel, control)
    }
}

/// The sink name and fader of the first mapping entry whose group has a
/// fader on (channel, control) and whose sink name is non-empty; an entry
/// with an empty sink name suppresses its group's actions and the search
/// goes on.
pub open spec fn spec_get_volume(
    mapping: Seq<(GroupV, Seq<char>)>,
    channel: u8,
    control: u8,
) -> Option<(Seq<char>, Fader)>
    decreases mapping.len(),
{
    if mapping.len() == 0 {
        None
    } else {
        match find_fader_in(mapping[0].0.volume_control, channel, control) {
            Some(f) => if mapping[0].1.len() > 0 {
                Some((mapping[0].1, f))
            } else {
                spec_get_volume(mapping.skip(1), channel, control)
            },
            None => spec_get_volume(mapping.skip(1), channel, control),
        }
    }
}

/// The sink name and button of the first mapping entry whose group has a
/// button on (channel, control) and whose sink name is non-empty.
pub open spec fn spec_get_mute(
    mapping: Seq<(GroupV, Seq<char>)>,
    channel: u8,
    control: u8,
) -> Option<(Seq<char>, Button)>
    decreases mapping.len(),
{
    if mapping.len() == 0 {
        None
    } else {
        match find_button_in(mapping[0].0.mute, channel, control) {
            Some(b) => if mapping[0].1.len() > 0 {
                Some((mapping[0].1, b))
            } else {
                spec_get_mute(mapping.skip(1), channel, control)
            },
            None => spec_get_mute(mapping.skip(1), channel, control),
        }
    }
}

/// The first fader on (channel, control) in a member list, if any.
fn find_fader_vec(fs: &Vec<Fader>, channel: u8, control: u8) -> (r: Option<Fader>)
    ensures
        r == find_fader_in(fs@, channel, control),
{
    proof {
        assert(fs@.skip(0) =~= fs@);
    }
    let mut i: usize = 0;
    while i < fs.len()
        invariant
            i <= fs.len(),
            find_fader_in(fs@, channel, control) == find_fader_in(
                fs@.skip(i as int),
                channel,
                control,
            ),
        decreases fs.len() - i,
    {
        proof {
            assert(fs@.skip(i as int)[0] == fs@[i as int]);
        }
        let f = fs[i];
        if f.channel == channel && f.control == control {
            return Some(f);
        }
        proof {
            assert(fs@.skip(i as int).skip(1) =~= fs@.skip(i as int + 1));
        }
        i += 1;
    }
    proof {
        assert(fs@.skip(fs.len() as int) =~= Seq::<Fader>::empty());
    }
    None
}

/// The first button on (channel, control) in a member list, if any.
fn find_button_vec(bs: &Vec<Button>, channel: u8, control: u8) -> (r: Option<Button>)
    ensures
        r == find_button_in(bs@, channel, control),
{
    proof {
        assert(bs@.skip(0) =~= bs@);
    }
    let mut i: usize = 0;
    while i < bs.len()
        invariant
            i <= bs.len(),
            find_button_in(bs@, channel, control) == find_button_in(
                bs@.skip(i as int),
                channel,
                control,
            ),
        decreases bs.len() - i,
    {
        proof {
            assert(bs@.skip(i as int)[0] == bs@[i as int]);
        }
        let b = bs[i];
        if b.channel == channel && b.control == control {
            return Some(b);
        }
        proof {
            assert(bs@.skip(i as int).skip(1) =~= bs@.skip(i as int + 1));
        }
        i += 1;
    }
    proof {
        assert(bs@.skip(bs.len() as int) =~= Seq::<Button>::empty());
    }
    None
}

impl Profile {
    /// The sink name and fader bound to (channel, control), if a mapped
    /// group with a non-empty sink name has a fader there.
    pub fn get_volume_control(&self, channel: u8, control: u8) -> (r: Option<(String, Fader)>)
        ensures
            r matches Some(t) ==> spec_get_volume(self@.mapping, channel, control) == Some(
                (t.0@, t.1),
            ),
            r is None <==> spec_get_volume(self@.mapping, channel, control) is None,
    {
        let ghost m = self@.mapping;
        proof {
            assert(m.skip(0) =~= m);
        }
        let mut i: usize = 0;
        while i < self.mapping.len()
            invariant
                i <= self.mapping.len(),
                m == self@.mapping,
                spec_get_volume(m, channel, control) == spec_get_volume(
                    m.skip(i as int),
                    channel,
                    control,
                ),
            decreases self.mapping.len() - i,
        {
            proof {
                assert(m.skip(i as int)[0] == m[i as int]);
                assert(m[i as int] == (self.mapping@[i as int].0@, self.mapping@[i as int].1@));
            }
            let group = &self.mapping[i].0;
            let sink = &self.mapping[i].1;
            if let Some(f) = find_fader_vec(&group.volume_control, channel, control) {
                if !sink.as_str().is_empty() {
                    return Some((sink.clone(), f));
                }
            }
            proof {
                assert(m.skip(i as int).skip(1) =~= m.skip(i as int + 1));
            }
            i += 1;
        }
        proof {
            assert(m.skip(self.mapping.len() as int) =~= Seq::<(GroupV, Seq<char>)>::empty());
        }
        None
    }

    /// The sink name and button bound to (channel, control), if a mapped
    /// group with a non-empty sink name has a button there.
    pub fn get_mute(&self, channel: u8, control: u8) -> (r: Option<(String, Button)>)
        ensures
            r matches Some(t) ==> spec_get_mute(self@.mapping, channel, control) == Some(
                (t.0@, t.1),
            ),
            r is None <==> spec_get_mute(self@.mapping, channel, control) is None,
    {
        let ghost m = self@.mapping;
        proof {
            assert(m.skip(0) =~= m);
        }
        let mut i: usize = 0;
        while i < self.mapping.len()
            invariant
                i <= self.mapping.len(),
                m == self@.mapping,
                spec_get_mute(m, channel, control) == spec_get_mute(
                    m.skip(i as int),
                    channel,
                    control,
                ),
            decreases self.mapping.len() - i,
        {
            proof {
                assert(m.skip(i as int)[0] == m[i as int]);
                assert(m[i as int] == (self.mapping@[i as int].0@, self.mapping@[i as int].1@));
            }
            let group = &self.mapping[i].0;
            let sink = &self.mapping[i].1;
            if let Some(b) = find_button_vec(&group.mute, channel, control) {
                if !sink.as_str().is_empty() {
                    return Some((sink.clone(), b));
                }
            }
            proof {
                assert(m.skip(i as int).skip(1) =~= m.skip(i as int + 1));
            }
            i += 1;
        }
        proof {
            assert(m.skip(self.mapping.len() as int) =~= Seq::<(GroupV, Seq<char>)>::empty());
        }
        None
    }
}

/// Names act as map keys: no two entries share a name.
pub open spec fn names_unique<T>(dict: Seq<(Seq<char>, T)>) -> bool {
    forall|i: int, j: int|
        0 <= i < j < dict.len() ==> (#[trigger] dict[i]).0 != (#[trigger] dict[j]).0
}

/// The configuration's name lists all behave as maps: faders, buttons and
/// mapping entries are keyed by unique names, as a deserialized document
/// guarantees.
pub open spec fn config_keys_unique(c: ProfileConfigV) -> bool {
    &&& names_unique(c.controls.faders)
    &&& names_unique(c.controls.buttons)
    &&& forall|i: int, j: int|
        0 <= i < j < c.mapping.len() ==> (#[trigger] c.mapping[i]).0 != (#[trigger] c.mapping[j]).0
}

/// The name of the first fader dictionary entry on (channel, control), if
/// any: the reverse index used when a profile is serialized back to its
/// flat configuration form.
pub open spec fn lookup_by_cc_fader(
    dict: Seq<(Seq<char>, Fader)>,
    channel: u8,
    control: u8,
) -> Option<Seq<char>>
    decreases dict.len(),
{
    if dict.len() == 0 {
        None
    } else if dict[0].1.channel == channel && dict[0].1.control == control {
        Some(dict[0].0)
    } else {
        lookup_by_cc_fader(dict.skip(1), channel, control)
    }
}

/// The name of the first button dictionary entry on (channel, control), if
/// any.
pub open spec fn lookup_by_cc_button(
    dict: Seq<(Seq<char>, Button)>,
    channel: u8,
    control: u8,
) -> Option<Seq<char>>
    decreases dict.len(),
{
    if dict.len() == 0 {
        None
    } else if dict[0].1.channel == channel && dict[0].1.control == control {
        Some(dict[0].0)
    } else {
        lookup_by_cc_button(dict.skip(1), channel, control)
    }
}

impl ProfileV {
    /// Well-formedness of a constructed profile: the dictionaries are maps
    /// with usable faders, every group member is reverse-indexable in its
    /// dictionary by (channel, control), and mapped group names are
    /// distinct. `Profile::new` establishes this for every configuration
    /// whose name lists are keyed uniquely.
    pub open spec fn wf(self) -> bool {
        &&& forall|i: int| 0 <= i < self.faders.len() ==> (#[trigger] self.faders[i]).1.valid()
        &&& names_unique(self.faders)
        &&& names_unique(self.buttons)
        &&& forall|i: int, j: int|
            0 <= i < self.mapping.len() && 0 <= j < (#[trigger] self.mapping[i]).0.volume_control.len()
                ==> (#[trigger] self.mapping[i].0.volume_control[j]).valid() && lookup_by_cc_fader(
                self.faders,
                self.mapping[i].0.volume_control[j].channel,
                self.mapping[i].0.volume_control[j].control,
            ) is Some
        &&& forall|i: int, j: int|
            0 <= i < self.mapping.len() && 0 <= j < (#[trigger] self.mapping[i]).0.mute.len()
                ==> lookup_by_cc_button(
                self.buttons,
                (#[trigger] self.mapping[i].0.mute[j]).channel,
                self.mapping[i].0.mute[j].control,
            ) is Some
        &&& forall|i: int, j: int|
            0 <= i < j < self.mapping.len() ==> (#[trigger] self.mapping[i]).0.name != (
            #[trigger] self.mapping[j]).0.name
    }
}

/// A successful lookup returns the value of some entry carrying the name.
pub proof fn lemma_lookup_mem<T>(dict: Seq<(Seq<char>, T)>, name: Seq<char>)
    ensures
        lookup(dict, name) matches Some(v) ==> exists|k: int|
            0 <= k < dict.len() && #[trigger] dict[k] == (name, v),
    decreases dict.len(),
{
    if dict.len() > 0 {
        lemma_lookup_mem(dict.skip(1), name);
        if dict[0].0 == name {
            assert(dict[0] == (name, dict[0].1));
        } else if lookup(dict, name) is Some {
            let v = lookup(dict, name)->Some_0;
            let k = choose|k: int|
                0 <= k < dict.skip(1).len() && #[trigger] dict.skip(1)[k] == (name, v);
            assert(dict[k + 1] == dict.skip(1)[k]);
        }
    }
}

/// In a uniquely keyed dictionary, looking up the name of entry `k` returns
/// exactly that entry's value.
pub proof fn lemma_lookup_unique<T>(dict: Seq<(Seq<char>, T)>, k: int)
    requires
        names_unique(dict),
        0 <= k < dict.len(),
    ensures
        lookup(dict, dict[k].0) == Some(dict[k].1),
    decreases dict.len(),
{
    if k == 0 {
    } else {
        assert(dict[0].0 != dict[k].0);
        assert(names_unique(dict.skip(1))) by {
            assert(forall|i: int|
                0 <= i < dict.skip(1).len() ==> #[trigger] dict.skip(1)[i] == dict[i + 1]);
        }
        lemma_lookup_unique(dict.skip(1), k - 1);
        assert(dict.skip(1)[k - 1] == dict[k]);
    }
}

/// The reverse fader index succeeds exactly when some entry sits on the
/// (channel, control) pair, and then returns the name of such an entry.
pub proof fn lemma_lookup_by_cc_fader_props(dict: Seq<(Seq<char>, Fader)>, channel: u8, control: u8)
    ensures
        lookup_by_cc_fader(dict, channel, control) is Some <==> (exists|k: int|
            0 <= k < dict.len() && (#[trigger] dict[k]).1.channel == channel && dict[k].1.control
                == control),
        lookup_by_cc_fader(dict, channel, control) matches Some(n) ==> (exists|k: int|
            0 <= k < dict.len() && (#[trigger] dict[k]).0 == n && dict[k].1.channel == channel
                && dict[k].1.control == control),
    decreases dict.len(),
{
    if dict.len() > 0 {
        lemma_lookup_by_cc_fader_props(dict.skip(1), channel, control);
        let tail = dict.skip(1);
        assert(forall|k: int| 0 <= k < tail.len() ==> #[trigger] tail[k] == dict[k + 1]);
        if dict[0].1.channel == channel && dict[0].1.control == control {
        } else {
            if lookup_by_cc_fader(tail, channel, control) is Some {
                let n = lookup_by_cc_fader(tail, channel, control)->Some_0;
                let k = choose|k: int|
                    0 <= k < tail.len() && (#[trigger] tail[k]).0 == n && tail[k].1.channel
                        == channel && tail[k].1.control == control;
                assert(dict[k + 1] == tail[k]);
                let m = choose|m: int|
                    0 <= m < tail.len() && (#[trigger] tail[m]).1.channel == channel
                        && tail[m].1.control == control;
                assert(dict[m + 1] == tail[m]);
            } else {
                if exists|k: int|
                    0 <= k < dict.len() && (#[trigger] dict[k]).1.channel == channel
                        && dict[k].1.control == control {
                    let k = choose|k: int|
                        0 <= k < dict.len() && (#[trigger] dict[k]).1.channel == channel
                            && dict[k].1.control == control;
                    assert(k > 0);
                    assert(tail[k - 1] == dict[k]);
                }
            }
        }
    }
}

/// The reverse button index succeeds exactly when some entry sits on the
/// (channel, control) pair, and then returns the name of such an entry.
pub proof fn lemma_lookup_by_cc_button_props(
    dict: Seq<(Seq<char>, Button)>,
    channel: u8,
    control: u8,
)
    ensures
        lookup_by_cc_button(dict, channel, control) is Some <==> (exists|k: int|
            0 <= k < dict.len() && (#[trigger] dict[k]).1.channel == channel && dict[k].1.control
                == control),
        lookup_by_cc_button(dict, channel, control) matches Some(n) ==> (exists|k: int|
            0 <= k < dict.len() && (#[trigger] dict[k]).0 == n && dict[k].1.channel == channel
                && dict[k].1.control == control),
    decreases dict.len(),
{
    if dict.len() > 0 {
        lemma_lookup_by_cc_button_props(dict.skip(1), channel, control);
        let tail = dict.skip(1);
        assert(forall|k: int| 0 <= k < tail.len() ==> #[trigger] tail[k] == dict[k + 1]);
        if dict[0].1.channel == channel && dict[0].1.control == control {
        } else {
            if lookup_by_cc_button(tail, channel, control) is Some {
                let n = lookup_by_cc_button(tail, channel, control)->Some_0;
                let k = choose|k: int|
                    0 <= k < tail.len() && (#[trigger] tail[k]).0 == n && tail[k].1.channel
                        == channel && tail[k].1.control == control;
                assert(dict[k + 1] == tail[k]);
                let m = choose|m: int|
                    0 <= m < tail.len() && (#[trigger] tail[m]).1.channel == channel
                        && tail[m].1.control == control;
                assert(dict[m + 1] == tail[m]);
            } else {
                if exists|k: int|
                    0 <= k < dict.len() && (#[trigger] dict[k]).1.channel == channel
                        && dict[k].1.control == control {
                    let k = choose|k: int|
                        0 <= k < dict.len() && (#[trigger] dict[k]).1.channel == channel
                            && dict[k].1.control == control;
                    assert(k > 0);
                    assert(tail[k - 1] == dict[k]);
                }
            }
        }
    }
}

/// Construction establishes well-formedness: a profile built from a
/// configuration whose name lists are keyed uniquely is well-formed.
pub proof fn lemma_spec_new_wf(c: ProfileConfigV)
    requires
        spec_new(c) is Ok,
        config_keys_unique(c),
    ensures
        spec_new(c)->Ok_0.wf(),
{
    let p = spec_new(c)->Ok_0;
    lemma_first_invalid_fader_none(c.controls.faders);
    let gs = build_groups(c.groups, c.controls.faders, c.controls.buttons)->Ok_0;
    lemma_build_groups_props(c.groups, c.controls.faders, c.controls.buttons);
    lemma_build_mapping_props(c.mapping, gs);

    assert forall|i: int, j: int|
        0 <= i < p.mapping.len() && 0 <= j < (#[trigger] p.mapping[i]).0.volume_control.len()
        implies (#[trigger] p.mapping[i].0.volume_control[j]).valid() && lookup_by_cc_fader(
        p.faders,
        p.mapping[i].0.volume_control[j].channel,
        p.mapping[i].0.volume_control[j].control,
    ) is Some by {
        let g = p.mapping[i].0;
        lemma_lookup_group_some(gs, c.mapping[i].0);
        let k = choose|k: int| 0 <= k < gs.len() && #[trigger] gs[k] == g;
        assert(build_group(c.groups[k].0, c.groups[k].1, c.controls.faders, c.controls.buttons)
            == Ok::<GroupV, ConfigErrorV>(gs[k]));
        lemma_resolve_names_props(c.groups[k].1.volume_control, c.controls.faders);
        assert(lookup(c.controls.faders, c.groups[k].1.volume_control[j]) == Some(
            g.volume_control[j],
        ));
        lemma_lookup_mem(c.controls.faders, c.groups[k].1.volume_control[j]);
        let e = choose|e: int|
            0 <= e < c.controls.faders.len() && #[trigger] c.controls.faders[e] == (
            c.groups[k].1.volume_control[j],
            g.volume_control[j],
            );
        lemma_lookup_by_cc_fader_props(
            c.controls.faders,
            g.volume_control[j].channel,
            g.volume_control[j].control,
        );
    }

    assert forall|i: int, j: int|
        0 <= i < p.mapping.len() && 0 <= j < (#[trigger] p.mapping[i]).0.mute.len()
        implies lookup_by_cc_button(
        p.buttons,
        (#[trigger] p.mapping[i].0.mute[j]).channel,
        p.mapping[i].0.mute[j].control,
    ) is Some by {
        let g = p.mapping[i].0;
        lemma_lookup_group_some(gs, c.mapping[i].0);
        let k = choose|k: int| 0 <= k < gs.len() && #[trigger] gs[k] == g;
        assert(build_group(c.groups[k].0, c.groups[k].1, c.controls.faders, c.controls.buttons)
            == Ok::<GroupV, ConfigErrorV>(gs[k]));
        lemma_resolve_names_props(c.groups[k].1.mute, c.controls.buttons);
        assert(lookup(c.controls.buttons, c.groups[k].1.mute[j]) == Some(g.mute[j]));
        lemma_lookup_mem(c.controls.buttons, c.groups[k].1.mute[j]);
        let e = choose|e: int|
            0 <= e < c.controls.buttons.len() && #[trigger] c.controls.buttons[e] == (
            c.groups[k].1.mute[j],
            g.mute[j],
            );
        lemma_lookup_by_cc_button_props(c.controls.buttons, g.mute[j].channel, g.mute[j].control);
    }

    assert forall|i: int, j: int| 0 <= i < j < p.mapping.len() implies (
    #[trigger] p.mapping[i]).0.name != (#[trigger] p.mapping[j]).0.name by {
        lemma_lookup_group_some(gs, c.mapping[i].0);
        lemma_lookup_group_some(gs, c.mapping[j].0);
        assert(p.mapping[i].0.name == c.mapping[i].0);
        assert(p.mapping[j].0.name == c.mapping[j].0);
    }
}

/// The configuration names of a group's faders, recovered by reverse
/// indexing each member in the fader dictionary by (channel, control); a
/// member with no dictionary entry is dropped (a well-formed profile has
/// none).
pub open spec fn fader_names_of(fs: Seq<Fader>, dict: Seq<(Seq<char>, Fader)>) -> Seq<Seq<char>>
    decreases fs.len(),
{
    if fs.len() == 0 {
        Seq::empty()
    } else {
        let rest = fader_names_of(fs.drop_last(), dict);
        match lookup_by_cc_fader(dict, fs.last().channel, fs.last().control) {
            Some(n) => rest.push(n),
            None => rest,
        }
    }
}

/// The configuration names of a group's buttons, recovered by reverse
/// indexing in the button dictionary.
pub open spec fn button_names_of(bs: Seq<Button>, dict: Seq<(Seq<char>, Button)>) -> Seq<Seq<char>>
    decreases bs.len(),
{
    if bs.len() == 0 {
        Seq::empty()
    } else {
        let rest = button_names_of(bs.drop_last(), dict);
        match lookup_by_cc_button(dict, bs.last().channel, bs.last().control) {
            Some(n) => rest.push(n),
            None => rest,
        }
    }
}

/// The flat configuration a profile serializes to: the dictionaries
/// verbatim, one group entry per mapping entry with its member names
/// recovered by reverse indexing, and the group-name-to-sink-name table.
pub open spec fn spec_serialize(p: ProfileV) -> ProfileConfigV {
    ProfileConfigV {
        midi_controller_name: p.midi_controller_name,
        controls: ControlsV { buttons: p.buttons, faders: p.faders },
        groups: p.mapping.map_values(
            |m: (GroupV, Seq<char>)|
                (
                    m.0.name,
                    GroupConfigV {
                        volume_control: fader_names_of(m.0.volume_control, p.faders),
                        mute: button_names_of(m.0.mute, p.buttons),
                    },
                ),
        ),
        mapping: p.mapping.map_values(|m: (GroupV, Seq<char>)| (m.0.name, m.1)),
    }
}

/// The stored name of the first fader dictionary entry on (channel,
/// control), if any.
fn lookup_fader_name_by_cc(dict: &Vec<(String, Fader)>, channel: u8, control: u8) -> (r: Option<
    String,
>)
    ensures
        r matches Some(n) ==> lookup_by_cc_fader(pairs_view(dict@), channel, control) == Some(n@),
        r is None <==> lookup_by_cc_fader(pairs_view(dict@), channel, control) is None,
{
    let ghost d = pairs_view(dict@);
    proof {
        assert(d.skip(0) =~= d);
    }
    let mut i: usize = 0;
    while i < dict.len()
        invariant
            i <= dict.len(),
            d == pairs_view(dict@),
            lookup_by_cc_fader(d, channel, control) == lookup_by_cc_fader(
                d.skip(i as int),
                channel,
                control,
            ),
        decreases dict.len() - i,
    {
        proof {
            assert(d.skip(i as int)[0] == d[i as int]);
        }
        let f = dict[i].1;
        if f.channel == channel && f.control == control {
            return Some(dict[i].0.clone());
        }
        proof {
            assert(d.skip(i as int).skip(1) =~= d.skip(i as int + 1));
        }
        i += 1;
    }
    proof {
        assert(d.skip(dict.len() as int) =~= Seq::<(Seq<char>, Fader)>::empty());
    }
    None
}

/// The stored name of the first button dictionary entry on (channel,
/// control), if any.
fn lookup_button_name_by_cc(dict: &Vec<(String, Button)>, channel: u8, control: u8) -> (r: Option<
    String,
>)
    ensures
        r matches Some(n) ==> lookup_by_cc_button(pairs_view(dict@), channel, control) == Some(n@),
        r is None <==> lookup_by_cc_button(pairs_view(dict@), channel, control) is None,
{
    let ghost d = pairs_view(dict@);
    proof {
        assert(d.skip(0) =~= d);
    }
    let mut i: usize = 0;
    while i < dict.len()
        invariant
            i <= dict.len(),
            d == pairs_view(dict@),
            lookup_by_cc_button(d, channel, control) == lookup_by_cc_button(
                d.skip(i as int),
                channel,
                control,
            ),
        decreases dict.len() - i,
    {
        proof {
            assert(d.skip(i as int)[0] == d[i as int]);
        }
        let b = dict[i].1;
        if b.channel == channel && b.control == control {
            return Some(dict[i].0.clone());
        }
        proof {
            assert(d.skip(i as int).skip(1) =~= d.skip(i as int + 1));
        }
        i += 1;
    }
    proof {
        assert(d.skip(dict.len() as int) =~= Seq::<(Seq<char>, Button)>::empty());
    }
    None
}

/// The names of a group's faders, recovered from the fader dictionary.
fn fader_names_exec(fs: &Vec<Fader>, dict: &Vec<(String, Fader)>) -> (r: Vec<String>)
    ensures
        r@.map_values(|s: String| s@) == fader_names_of(fs@, pairs_view(dict@)),
{
    let ghost d = pairs_view(dict@);
    let mut r: Vec<String> = Vec::new();
    proof {
        assert(fs@.take(0) =~= Seq::<Fader>::empty());
        assert(r@.map_values(|s: String| s@) =~= Seq::<Seq<char>>::empty());
    }
    let mut i: usize = 0;
    while i < fs.len()
        invariant
            i <= fs.len(),
            d == pairs_view(dict@),
            r@.map_values(|s: String| s@) == fader_names_of(fs@.take(i as int), d),
        decreases fs.len() - i,
    {
        proof {
            assert(fs@.take(i as int + 1).drop_last() =~= fs@.take(i as int));
            assert(fs@.take(i as int + 1).last() == fs@[i as int]);
        }
        let ghost prev = r@;
        match lookup_fader_name_by_cc(dict, fs[i].channel, fs[i].control) {
            Some(n) => {
                r.push(n);
                proof {
                    assert(r@ == prev.push(r@.last()));
                    assert(r@.map_values(|s: String| s@) =~= prev.map_values(
                        |s: String| s@,
                    ).push(r@.last()@));
                }
            },
            None => {},
        }
        i += 1;
    }
    proof {
        assert(fs@.take(fs.len() as int) =~= fs@);
    }
    r
}

/// The names of a group's buttons, recovered from the button dictionary.
fn button_names_exec(bs: &Vec<Button>, dict: &Vec<(String, Button)>) -> (r: Vec<String>)
    ensures
        r@.map_values(|s: String| s@) == button_names_of(bs@, pairs_view(dict@)),
{
    let ghost d = pairs_view(dict@);
    let mut r: Vec<String> = Vec::new();
    proof {
        assert(bs@.take(0) =~= Seq::<Button>::empty());
        assert(r@.map_values(|s: String| s@) =~= Seq::<Seq<char>>::empty());
    }
    let mut i: usize = 0;
    while i < bs.len()
        invariant
            i <= bs.len(),
            d == pairs_view(dict@),
            r@.map_values(|s: String| s@) == button_names_of(bs@.take(i as int), d),
        decreases bs.len() - i,
    {
        proof {
            assert(bs@.take(i as int + 1).drop_last() =~= bs@.take(i as int));
            assert(bs@.take(i as int + 1).last() == bs@[i as int]);
        }
        let ghost prev = r@;
        match lookup_button_name_by_cc(dict, bs[i].channel, bs[i].control) {
            Some(n) => {
                r.push(n);
                proof {
                    assert(r@ == prev.push(r@.last()));
                    assert(r@.map_values(|s: String| s@) =~= prev.map_values(
                        |s: String| s@,
                    ).push(r@.last()@));
                }
            },
            None => {},
        }
        i += 1;
    }
    proof {
        assert(bs@.take(bs.len() as int) =~= bs@);
    }
    r
}

impl Profile {
    /// Serializes the profile back to its flat configuration form: the
    /// structural inverse of construction, used for persisting edits.
    pub fn serialize(&self) -> (r: ProfileConfig)
        ensures
            r@ == spec_serialize(self@),
    {
        let ghost p = self@;
        let controls = ControlsConfig {
            buttons: copy_button_dict(&self.buttons),
            faders: copy_fader_dict(&self.faders),
        };
        let mut groups: Vec<(String, GroupConfig)> = Vec::new();
        let mut mapping: Vec<(String, String)> = Vec::new();
        let mut i: usize = 0;
        while i < self.mapping.len()
            invariant
                i <= self.mapping.len(),
                p == self@,
                groups@.len() == i,
                mapping@.len() == i,
                forall|k: int|
                    0 <= k < i ==> (#[trigger] groups@[k]).0@ == p.mapping[k].0.name && groups@[
                        k].1@ == (GroupConfigV {
                        volume_control: fader_names_of(p.mapping[k].0.volume_control, p.faders),
                        mute: button_names_of(p.mapping[k].0.mute, p.buttons),
                    }),
                forall|k: int|
                    0 <= k < i ==> (#[trigger] mapping@[k]).0@ == p.mapping[k].0.name && mapping@[
                        k].1@ == p.mapping[k].1,
            decreases self.mapping.len() - i,
        {
            proof {
                assert(p.mapping[i as int] == (self.mapping@[i as int].0@, self.mapping@[
                    i as int].1@));
            }
            let group = &self.mapping[i].0;
            let sink = &self.mapping[i].1;
            let vc_names = fader_names_exec(&group.volume_control, &self.faders);
            let mute_names = button_names_exec(&group.mute, &self.buttons);
            groups.push((group.name.clone(), GroupConfig { volume_control: vc_names, mute: mute_names }));
            mapping.push((group.name.clone(), sink.clone()));
            i += 1;
        }
        let r = ProfileConfig {
            midi_controller_name: self.midi_controller_name.clone(),
            controls,
            groups,
            mapping,
        };
        proof {
            assert(r@.controls == spec_serialize(p).controls) by {
                assert(pairs_view(r.controls.buttons@) == p.buttons);
                assert(pairs_view(r.controls.faders@) == p.faders);
            }
            assert(r@.groups =~= spec_serialize(p).groups);
            assert(r@.mapping =~= spec_serialize(p).mapping);
            assert(r@ == spec_serialize(p));
        }
        r
    }
}

/// In a list of groups with distinct names, looking up the name of group
/// `k` returns exactly that group.
pub proof fn lemma_lookup_group_unique(groups: Seq<GroupV>, k: int)
    requires
        forall|i: int, j: int|
            0 <= i < j < groups.len() ==> (#[trigger] groups[i]).name != (
            #[trigger] groups[j]).name,
        0 <= k < groups.len(),
    ensures
        lookup_group(groups, groups[k].name) == Some(groups[k]),
    decreases groups.len(),
{
    if k == 0 {
    } else {
        assert(groups[0].name != groups[k].name);
        let tail = groups.skip(1);
        assert(forall|i: int| 0 <= i < tail.len() ==> #[trigger] tail[i] == groups[i + 1]);
        lemma_lookup_group_unique(tail, k - 1);
        assert(tail[k - 1] == groups[k]);
    }
}

/// Resolving the recovered names of a well-formed member list yields, name
/// by name, faders on the same (channel, control) pairs as the members.
pub proof fn lemma_fader_names_resolve(fs: Seq<Fader>, dict: Seq<(Seq<char>, Fader)>)
    requires
        names_unique(dict),
        forall|j: int|
            0 <= j < fs.len() ==> lookup_by_cc_fader(
                dict,
                (#[trigger] fs[j]).channel,
                fs[j].control,
            ) is Some,
    ensures
        ({
            let r = resolve_names(fader_names_of(fs, dict), dict);
            &&& r is Ok
            &&& r->Ok_0.len() == fs.len()
            &&& forall|j: int|
                0 <= j < fs.len() ==> (#[trigger] r->Ok_0[j]).channel == fs[j].channel
                    && r->Ok_0[j].control == fs[j].control
        }),
    decreases fs.len(),
{
    if fs.len() > 0 {
        let front = fs.drop_last();
        assert(forall|j: int| 0 <= j < front.len() ==> #[trigger] front[j] == fs[j]);
        lemma_fader_names_resolve(front, dict);
        let f = fs.last();
        assert(f == fs[fs.len() - 1]);
        let names = fader_names_of(fs, dict);
        let n = lookup_by_cc_fader(dict, f.channel, f.control)->Some_0;
        assert(names == fader_names_of(front, dict).push(n));
        assert(names.drop_last() =~= fader_names_of(front, dict));
        assert(names.last() == n);
        lemma_lookup_by_cc_fader_props(dict, f.channel, f.control);
        let k = choose|k: int|
            0 <= k < dict.len() && (#[trigger] dict[k]).0 == n && dict[k].1.channel == f.channel
                && dict[k].1.control == f.control;
        lemma_lookup_unique(dict, k);
        assert(lookup(dict, n) == Some(dict[k].1));
        let r = resolve_names(names, dict);
        let rf = resolve_names(fader_names_of(front, dict), dict);
        assert(r == Ok::<Seq<Fader>, Seq<char>>(rf->Ok_0.push(dict[k].1)));
        assert(forall|j: int|
            0 <= j < front.len() ==> #[trigger] r->Ok_0[j] == rf->Ok_0[j]);
    }
}

/// Resolving the recovered names of a well-formed button list yields, name
/// by name, buttons on the same (channel, control) pairs as the members.
pub proof fn lemma_button_names_resolve(bs: Seq<Button>, dict: Seq<(Seq<char>, Button)>)
    requires
        names_unique(dict),
        forall|j: int|
            0 <= j < bs.len() ==> lookup_by_cc_button(
                dict,
                (#[trigger] bs[j]).channel,
                bs[j].control,
            ) is Some,
    ensures
        ({
            let r = resolve_names(button_names_of(bs, dict), dict);
            &&& r is Ok
            &&& r->Ok_0.len() == bs.len()
            &&& forall|j: int|
                0 <= j < bs.len() ==> (#[trigger] r->Ok_0[j]).channel == bs[j].channel
                    && r->Ok_0[j].control == bs[j].control
        }),
    decreases bs.len(),
{
    if bs.len() > 0 {
        let front = bs.drop_last();
        assert(forall|j: int| 0 <= j < front.len() ==> #[trigger] front[j] == bs[j]);
        lemma_button_names_resolve(front, dict);
        let b = bs.last();
        assert(b == bs[bs.len() - 1]);
        let names = button_names_of(bs, dict);
        let n = lookup_by_cc_button(dict, b.channel, b.control)->Some_0;
        assert(names == button_names_of(front, dict).push(n));
        assert(names.drop_last() =~= button_names_of(front, dict));
        assert(names.last() == n);
        lemma_lookup_by_cc_button_props(dict, b.channel, b.control);
        let k = choose|k: int|
            0 <= k < dict.len() && (#[trigger] dict[k]).0 == n && dict[k].1.channel == b.channel
                && dict[k].1.control == b.control;
        lemma_lookup_unique(dict, k);
        assert(lookup(dict, n) == Some(dict[k].1));
        let r = resolve_names(names, dict);
        let rf = resolve_names(button_names_of(front, dict), dict);
        assert(r == Ok::<Seq<Button>, Seq<char>>(rf->Ok_0.push(dict[k].1)));
        assert(forall|j: int|
            0 <= j < front.len() ==> #[trigger] r->Ok_0[j] == rf->Ok_0[j]);
    }
}

/// Two mapping entries agree on everything the flat configuration records:
/// group name, sink name, and the (channel, control) pair of each member in
/// order.
pub open spec fn entry_preserved(a: (GroupV, Seq<char>), b: (GroupV, Seq<char>)) -> bool {
    &&& a.0.name == b.0.name
    &&& a.1 == b.1
    &&& a.0.volume_control.len() == b.0.volume_control.len()
    &&& forall|j: int|
        0 <= j < a.0.volume_control.len() ==> (#[trigger] a.0.volume_control[j]).channel
            == b.0.volume_control[j].channel && a.0.volume_control[j].control
            == b.0.volume_control[j].control
    &&& a.0.mute.len() == b.0.mute.len()
    &&& forall|j: int|
        0 <= j < a.0.mute.len() ==> (#[trigger] a.0.mute[j]).channel == b.0.mute[j].channel
            && a.0.mute[j].control == b.0.mute[j].control
}

/// Serialize-then-reconstruct round trip: rebuilding a well-formed profile
/// from its serialized configuration succeeds, and preserves the
/// group-to-sink mapping and the (channel, control) pairs of every group
/// member, entry by entry.
pub proof fn lemma_serialize_round_trip(p: ProfileV)
    requires
        p.wf(),
    ensures
        ({
            let r = spec_new(spec_serialize(p));
            &&& r is Ok
            &&& r->Ok_0.mapping.len() == p.mapping.len()
            &&& forall|i: int|
                0 <= i < p.mapping.len() ==> entry_preserved(
                    #[trigger] r->Ok_0.mapping[i],
                    p.mapping[i],
                )
        }),
{
    let c = spec_serialize(p);
    lemma_first_invalid_fader_none(c.controls.faders);
    assert(first_invalid_fader(c.controls.faders) is None);

    lemma_build_groups_props(c.groups, c.controls.faders, c.controls.buttons);
    assert forall|i: int| 0 <= i < c.groups.len() implies build_group(
        (#[trigger] c.groups[i]).0,
        c.groups[i].1,
        c.controls.faders,
        c.controls.buttons,
    ) is Ok by {
        lemma_fader_names_resolve(p.mapping[i].0.volume_control, p.faders);
        lemma_button_names_resolve(p.mapping[i].0.mute, p.buttons);
    }
    assert(build_groups(c.groups, c.controls.faders, c.controls.buttons) is Ok);
    let gs = build_groups(c.groups, c.controls.faders, c.controls.buttons)->Ok_0;

    assert forall|i: int| 0 <= i < gs.len() implies (#[trigger] gs[i]).name == p.mapping[i].0.name
        && gs[i].volume_control.len() == p.mapping[i].0.volume_control.len() && (forall|j: int|
        0 <= j < gs[i].volume_control.len() ==> (#[trigger] gs[i].volume_control[j]).channel
            == p.mapping[i].0.volume_control[j].channel && gs[i].volume_control[j].control
            == p.mapping[i].0.volume_control[j].control) && gs[i].mute.len()
        == p.mapping[i].0.mute.len() && (forall|j: int|
        0 <= j < gs[i].mute.len() ==> (#[trigger] gs[i].mute[j]).channel
            == p.mapping[i].0.mute[j].channel && gs[i].mute[j].control
            == p.mapping[i].0.mute[j].control) by {
        assert(build_group(c.groups[i].0, c.groups[i].1, c.controls.faders, c.controls.buttons)
            == Ok::<GroupV, ConfigErrorV>(gs[i]));
        lemma_fader_names_resolve(p.mapping[i].0.volume_control, p.faders);
        lemma_button_names_resolve(p.mapping[i].0.mute, p.buttons);
    }

    lemma_build_mapping_props(c.mapping, gs);
    assert forall|i: int| 0 <= i < c.mapping.len() implies lookup_group(
        gs,
        (#[trigger] c.mapping[i]).0,
    ) == Some(gs[i]) by {
        assert forall|a: int, b: int| 0 <= a < b < gs.len() implies (#[trigger] gs[a]).name != (
        #[trigger] gs[b]).name by {
            assert(gs[a].name == p.mapping[a].0.name);
            assert(gs[b].name == p.mapping[b].0.name);
        }
        lemma_lookup_group_unique(gs, i);
        assert(c.mapping[i].0 == p.mapping[i].0.name);
        assert(gs[i].name == p.mapping[i].0.name);
    }
    assert(build_mapping(c.mapping, gs) is Ok);
    let ms = build_mapping(c.mapping, gs)->Ok_0;
    assert forall|i: int| 0 <= i < p.mapping.len() implies entry_preserved(
        #[trigger] ms[i],
        p.mapping[i],
    ) by {
        assert(lookup_group(gs, c.mapping[i].0) == Some(ms[i].0));
        assert(ms[i].0 == gs[i]);
        assert(ms[i].1 == c.mapping[i].1);
    }
}

} // verus!
