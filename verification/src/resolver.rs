//! Sink resolution: locating the controllable target for a logical sink name
//! among the live application and device lists.
//!
//! Application names are compared loosely: both sides are trimmed of
//! surrounding whitespace and lowercased, and the candidate is additionally
//! stripped of trailing NUL padding (backend name strings may be NUL-padded).
//! Device names are compared exactly. Applications are searched first; the
//! first match wins. No match is not an error: there is nothing to act on.

use vstd::prelude::*;
use vstd::string::StringSliceAdditionalSpecFns;

verus! {

/// ASCII whitespace, as trimmed from both ends of a name.
pub open spec fn is_space(b: u8) -> bool {
    b == 0x20 || b == 0x09 || b == 0x0A || b == 0x0B || b == 0x0C || b == 0x0D
}

/// ASCII lowercasing of a single byte.
pub open spec fn lower_byte(b: u8) -> u8 {
    if 0x41 <= b && b <= 0x5A {
        (b + 0x20) as u8
    } else {
        b
    }
}

/// ASCII lowercasing of a byte sequence.
pub open spec fn lower_bytes(s: Seq<u8>) -> Seq<u8> {
    s.map_values(|b: u8| lower_byte(b))
}

/// The sequence with leading and trailing ASCII whitespace removed.
pub open spec fn trim_bytes(s: Seq<u8>) -> Seq<u8>
    decreases s.len(),
{
    if s.len() == 0 {
        s
    } else if is_space(s[0]) {
        trim_bytes(s.skip(1))
    } else if is_space(s.last()) {
        trim_bytes(s.drop_last())
    } else {
        s
    }
}

/// The sequence with trailing NUL bytes removed.
pub open spec fn strip_trailing_nuls(s: Seq<u8>) -> Seq<u8>
    decreases s.len(),
{
    if s.len() > 0 && s.last() == 0 {
        strip_trailing_nuls(s.drop_last())
    } else {
        s
    }
}

/// Normal form of the queried sink name: trimmed and lowercased.
pub open spec fn query_norm(s: Seq<u8>) -> Seq<u8> {
    lower_bytes(trim_bytes(s))
}

/// Normal form of a candidate application name: trimmed, stripped of
/// trailing NUL padding, and lowercased.
pub open spec fn app_norm(s: Seq<u8>) -> Seq<u8> {
    lower_bytes(strip_trailing_nuls(trim_bytes(s)))
}

/// The loose application-name match: equality of normal forms.
pub open spec fn app_matches(query: Seq<u8>, candidate: Seq<u8>) -> bool {
    query_norm(query) == app_norm(candidate)
}

/// The least index of a matching application name, if any.
pub open spec fn first_app_match(query: Seq<u8>, apps: Seq<Seq<u8>>) -> Option<int>
    decreases apps.len(),
{
    if apps.len() == 0 {
        None
    } else if app_matches(query, apps[0]) {
        Some(0int)
    } else {
        match first_app_match(query, apps.skip(1)) {
            Some(i) => Some(i + 1),
            None => None,
        }
    }
}

/// The least index of an exactly equal device name, if any.
pub open spec fn first_device_match(query: Seq<u8>, devices: Seq<Seq<u8>>) -> Option<int>
    decreases devices.len(),
{
    if devices.len() == 0 {
        None
    } else if query == devices[0] {
        Some(0int)
    } else {
        match first_device_match(query, devices.skip(1)) {
            Some(i) => Some(i + 1),
            None => None,
        }
    }
}

/// The resolved target of a sink name: an index into the application list or
/// into the device list handed to `resolve_sink`.
#[derive(PartialEq, Eq, Structural, Clone, Copy, Debug)]
pub enum SinkSelection {
    Application { index: usize },
    OutputDevice { index: usize },
}

/// The byte sequences of a list of names.
pub open spec fn names_bytes(names: Seq<String>) -> Seq<Seq<u8>> {
    names.map_values(|s: String| vstd::utf8::encode_utf8(s@))
}

/// Whether `r` is the resolution policy's answer for `query` against the
/// given application and device name lists: the first loosely matching
/// application if any, else the first exactly matching device, else nothing.
pub open spec fn resolves_to(
    query: Seq<u8>,
    apps: Seq<Seq<u8>>,
    devices: Seq<Seq<u8>>,
    r: Option<SinkSelection>,
) -> bool {
    match first_app_match(query, apps) {
        Some(i) => r == Some(SinkSelection::Application { index: i as usize }),
        None => match first_device_match(query, devices) {
            Some(i) => r == Some(SinkSelection::OutputDevice { index: i as usize }),
            None => r is None,
        },
    }
}

/// Whether two byte slices hold the same bytes.
fn eq_bytes(a: &[u8], b: &[u8]) -> (r: bool)
    ensures
        r == (a@ == b@),
{
    if a.len() != b.len() {
        return false;
    }
    let mut i: usize = 0;
    while i < a.len()
        invariant
            i <= a.len(),
            a@.len() == b@.len(),
            forall|j: int| 0 <= j < i ==> a@[j] == b@[j],
        decreases a.len() - i,
    {
        if a[i] != b[i] {
            return false;
        }
        i += 1;
    }
    proof {
        assert(a@ =~= b@);
    }
    true
}

/// Whether a byte is ASCII whitespace.
fn is_space_byte(c: u8) -> (r: bool)
    ensures
        r == is_space(c),
{
    c == 0x20 || c == 0x09 || c == 0x0A || c == 0x0B || c == 0x0C || c == 0x0D
}

/// The bounds of `s` with surrounding ASCII whitespace removed, and the
/// normalized form of the region between them.
fn trim_bounds(s: &[u8]) -> (r: (usize, usize))
    ensures
        r.0 <= r.1 <= s@.len(),
        trim_bytes(s@) == s@.subrange(r.0 as int, r.1 as int),
{
    let mut lo: usize = 0;
    let mut hi: usize = s.len();
    proof {
        assert(s@.subrange(0, s@.len() as int) =~= s@);
    }
    while lo < hi && is_space_byte(s[lo])
        invariant
            lo <= hi <= s@.len(),
            trim_bytes(s@) == trim_bytes(s@.subrange(lo as int, hi as int)),
        decreases hi - lo,
    {
        proof {
            let t = s@.subrange(lo as int, hi as int);
            assert(t[0] == s@[lo as int]);
            assert(t.skip(1) =~= s@.subrange(lo as int + 1, hi as int));
        }
        lo += 1;
    }
    while lo < hi && is_space_byte(s[hi - 1])
        invariant
            lo <= hi <= s@.len(),
            trim_bytes(s@) == trim_bytes(s@.subrange(lo as int, hi as int)),
            lo < hi ==> !is_space(s@[lo as int]),
        decreases hi - lo,
    {
        proof {
            let t = s@.subrange(lo as int, hi as int);
            assert(t[0] == s@[lo as int]);
            assert(t.last() == s@[hi as int - 1]);
            assert(t.drop_last() =~= s@.subrange(lo as int, hi as int - 1));
        }
        hi -= 1;
    }
    proof {
        let t = s@.subrange(lo as int, hi as int);
        if t.len() > 0 {
            assert(t[0] == s@[lo as int]);
            assert(t.last() == s@[hi as int - 1]);
        }
        assert(trim_bytes(t) == t);
    }
    (lo, hi)
}

/// The ASCII-lowercased copy of a region of `s`.
fn lower_region(s: &[u8], lo: usize, hi: usize) -> (r: Vec<u8>)
    requires
        lo <= hi <= s@.len(),
    ensures
        r@ == lower_bytes(s@.subrange(lo as int, hi as int)),
{
    let mut r: Vec<u8> = Vec::new();
    let mut i: usize = lo;
    while i < hi
        invariant
            lo <= i <= hi <= s@.len(),
            r@.len() == i - lo,
            forall|j: int| 0 <= j < i - lo ==> r@[j] == lower_byte(s@[lo + j]),
        decreases hi - i,
    {
        let c = s[i];
        if 0x41 <= c && c <= 0x5A {
            r.push(c + 0x20);
        } else {
            r.push(c);
        }
        i += 1;
    }
    proof {
        assert(r@ =~= lower_bytes(s@.subrange(lo as int, hi as int)));
    }
    r
}

/// The normal form of a queried sink name: trimmed and lowercased.
fn normalize_query(s: &[u8]) -> (r: Vec<u8>)
    ensures
        r@ == query_norm(s@),
{
    let (lo, hi) = trim_bounds(s);
    lower_region(s, lo, hi)
}

/// The normal form of a candidate application name: trimmed, stripped of
/// trailing NUL padding, and lowercased.
fn normalize_app(s: &[u8]) -> (r: Vec<u8>)
    ensures
        r@ == app_norm(s@),
{
    let (lo, hi) = trim_bounds(s);
    let mut hi2: usize = hi;
    proof {
        assert(strip_trailing_nuls(s@.subrange(lo as int, hi as int)) == strip_trailing_nuls(
            s@.subrange(lo as int, hi2 as int),
        ));
    }
    while lo < hi2 && s[hi2 - 1] == 0
        invariant
            lo <= hi2 <= hi <= s@.len(),
            strip_trailing_nuls(s@.subrange(lo as int, hi as int)) == strip_trailing_nuls(
                s@.subrange(lo as int, hi2 as int),
            ),
        decreases hi2 - lo,
    {
        proof {
            let t = s@.subrange(lo as int, hi2 as int);
            assert(t.last() == s@[hi2 as int - 1]);
            assert(t.drop_last() =~= s@.subrange(lo as int, hi2 as int - 1));
        }
        hi2 -= 1;
    }
    proof {
        let t = s@.subrange(lo as int, hi2 as int);
        if t.len() > 0 {
            assert(t.last() == s@[hi2 as int - 1]);
        }
        assert(strip_trailing_nuls(t) == t);
    }
    lower_region(s, lo, hi2)
}

/// The search returns the least matching index: if no earlier name matches
/// and name `i` does, the first match is `i`.
proof fn lemma_first_app_match_at(query: Seq<u8>, apps: Seq<Seq<u8>>, i: int)
    requires
        0 <= i < apps.len(),
        app_matches(query, apps[i]),
        forall|j: int| 0 <= j < i ==> !app_matches(query, #[trigger] apps[j]),
    ensures
        first_app_match(query, apps) == Some(i),
    decreases i,
{
    if i > 0 {
        let tail = apps.skip(1);
        assert(forall|k: int| 0 <= k < tail.len() ==> #[trigger] tail[k] == apps[k + 1]);
        lemma_first_app_match_at(query, tail, i - 1);
    }
}

/// If no application name matches, the search finds nothing.
proof fn lemma_first_app_match_none(query: Seq<u8>, apps: Seq<Seq<u8>>)
    requires
        forall|j: int| 0 <= j < apps.len() ==> !app_matches(query, #[trigger] apps[j]),
    ensures
        first_app_match(query, apps) is None,
    decreases apps.len(),
{
    if apps.len() > 0 {
        let tail = apps.skip(1);
        assert(forall|k: int| 0 <= k < tail.len() ==> #[trigger] tail[k] == apps[k + 1]);
        lemma_first_app_match_none(query, tail);
    }
}

/// The device search returns the least exactly-equal index.
proof fn lemma_first_device_match_at(query: Seq<u8>, devices: Seq<Seq<u8>>, i: int)
    requires
        0 <= i < devices.len(),
        query == devices[i],
        forall|j: int| 0 <= j < i ==> query != #[trigger] devices[j],
    ensures
        first_device_match(query, devices) == Some(i),
    decreases i,
{
    if i > 0 {
        let tail = devices.skip(1);
        assert(forall|k: int| 0 <= k < tail.len() ==> #[trigger] tail[k] == devices[k + 1]);
        lemma_first_device_match_at(query, tail, i - 1);
    }
}

/// If no device name equals the query, the search finds nothing.
proof fn lemma_first_device_match_none(query: Seq<u8>, devices: Seq<Seq<u8>>)
    requires
        forall|j: int| 0 <= j < devices.len() ==> query != #[trigger] devices[j],
    ensures
        first_device_match(query, devices) is None,
    decreases devices.len(),
{
    if devices.len() > 0 {
        let tail = devices.skip(1);
        assert(forall|k: int| 0 <= k < tail.len() ==> #[trigger] tail[k] == devices[k + 1]);
        lemma_first_device_match_none(query, tail);
    }
}

/// Locates the controllable target of a logical sink name among the live
/// application and device name lists: the first application whose name
/// matches loosely (case, surrounding whitespace and trailing NUL padding
/// ignored), else the first device whose name matches exactly, else
/// nothing — which is not an error but "nothing to act on".
pub fn resolve_sink(sink_name: &str, app_names: &Vec<String>, device_names: &Vec<String>) -> (r:
    Option<SinkSelection>)
    ensures
        resolves_to(
            sink_name.spec_bytes(),
            names_bytes(app_names@),
            names_bytes(device_names@),
            r,
        ),
{
    let ghost qb = sink_name.spec_bytes();
    let ghost av = names_bytes(app_names@);
    let ghost dv = names_bytes(device_names@);
    let q = normalize_query(sink_name.as_bytes());

    let mut i: usize = 0;
    while i < app_names.len()
        invariant
            i <= app_names.len(),
            qb == sink_name.spec_bytes(),
            av == names_bytes(app_names@),
            q@ == query_norm(qb),
            forall|j: int| 0 <= j < i ==> !app_matches(qb, #[trigger] av[j]),
        decreases app_names.len() - i,
    {
        let cand = normalize_app(app_names[i].as_str().as_bytes());
        proof {
            assert(av[i as int] == vstd::utf8::encode_utf8(app_names@[i as int]@));
        }
        if eq_bytes(q.as_slice(), cand.as_slice()) {
            proof {
                lemma_first_app_match_at(qb, av, i as int);
            }
            return Some(SinkSelection::Application { index: i });
        }
        i += 1;
    }
    proof {
        lemma_first_app_match_none(qb, av);
    }

    let mut i: usize = 0;
    while i < device_names.len()
        invariant
            i <= device_names.len(),
            qb == sink_name.spec_bytes(),
            dv == names_bytes(device_names@),
            first_app_match(qb, names_bytes(app_names@)) is None,
            av == names_bytes(app_names@),
            forall|j: int| 0 <= j < i ==> qb != #[trigger] dv[j],
        decreases device_names.len() - i,
    {
        proof {
            assert(dv[i as int] == vstd::utf8::encode_utf8(device_names@[i as int]@));
        }
        if eq_bytes(sink_name.as_bytes(), device_names[i].as_str().as_bytes()) {
            proof {
                lemma_first_device_match_at(qb, dv, i as int);
            }
            return Some(SinkSelection::OutputDevice { index: i });
        }
        i += 1;
    }
    proof {
        lemma_first_device_match_none(qb, dv);
    }
    None
}

/// The least index of a port name exactly equal to the configured
/// controller name, if any.
pub open spec fn first_port_match(target: Seq<u8>, names: Seq<Seq<u8>>) -> Option<int> {
    first_device_match(target, names)
}

/// Locates the configured MIDI controller among the available input port
/// names by exact name equality: the first equal name wins; none is a
/// fatal startup condition for the caller.
pub fn find_port(port_names: &Vec<String>, target: &str) -> (r: Option<usize>)
    ensures
        ({
            match first_port_match(target.spec_bytes(), names_bytes(port_names@)) {
                Some(i) => r == Some(i as usize),
                None => r is None,
            }
        }),
{
    let ghost tb = target.spec_bytes();
    let ghost nv = names_bytes(port_names@);
    let mut i: usize = 0;
    while i < port_names.len()
        invariant
            i <= port_names.len(),
            tb == target.spec_bytes(),
            nv == names_bytes(port_names@),
            forall|j: int| 0 <= j < i ==> tb != #[trigger] nv[j],
        decreases port_names.len() - i,
    {
        proof {
            assert(nv[i as int] == vstd::utf8::encode_utf8(port_names@[i as int]@));
        }
        if eq_bytes(target.as_bytes(), port_names[i].as_str().as_bytes()) {
            proof {
                lemma_first_device_match_at(tb, nv, i as int);
            }
            return Some(i);
        }
        i += 1;
    }
    proof {
        lemma_first_device_match_none(tb, nv);
    }
    None
}

} // verus!
