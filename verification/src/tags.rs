//! How OpenStreetMap tags are read: which ways are drivable roads and of which class,
//! their travel direction and lane count, and which nodes are traffic signals.

use vstd::prelude::*;
use vstd::string::StrSliceExecFns;

use crate::ids::RoadClass;
use crate::text::{
    ascii_lowercase, eq_ignore_ascii_case, str_eq, str_eq_ignore_ascii_case, to_ascii_lowercase,
    trim, trim_str,
};

verus! {

/// The tags of an OpenStreetMap element as key/value pairs. Keys are distinct in data read
/// from a map; where a key repeats, the first entry counts.
#[derive(Clone, Debug)]
pub struct Tags {
    pub entries: Vec<(String, String)>,
}

/// The value of the first entry of `entries` whose key is `key`.
pub open spec fn find_tag(entries: Seq<(String, String)>, key: Seq<char>) -> Option<Seq<char>>
    decreases entries.len(),
{
    if entries.len() == 0 {
        None
    } else if entries[0].0@ == key {
        Some(entries[0].1@)
    } else {
        find_tag(entries.drop_first(), key)
    }
}

/// The road class a `highway` value stands for, compared without regard to ASCII case.
pub open spec fn road_class_of(highway: Seq<char>) -> Option<RoadClass> {
    let h = ascii_lowercase(highway);
    if h == "motorway"@ || h == "motorway_link"@ {
        Some(RoadClass::Motorway)
    } else if h == "trunk"@ || h == "trunk_link"@ {
        Some(RoadClass::Trunk)
    } else if h == "primary"@ || h == "primary_link"@ {
        Some(RoadClass::Primary)
    } else if h == "secondary"@ || h == "secondary_link"@ {
        Some(RoadClass::Secondary)
    } else if h == "tertiary"@ || h == "tertiary_link"@ {
        Some(RoadClass::Tertiary)
    } else if h == "residential"@ {
        Some(RoadClass::Residential)
    } else if h == "service"@ {
        Some(RoadClass::Service)
    } else if h == "living_street"@ || h == "road"@ || h == "unclassified"@ {
        Some(RoadClass::Other)
    } else {
        None
    }
}

/// The road class of a way with these tags, if it is a road for cars.
pub open spec fn spec_road_class(tags: Seq<(String, String)>) -> Option<RoadClass> {
    match find_tag(tags, "highway"@) {
        Some(v) => road_class_of(v),
        None => None,
    }
}

/// The most specific access tag present: `motorcar`, then `motor_vehicle`, `vehicle`,
/// and `access`.
pub open spec fn access_value(tags: Seq<(String, String)>) -> Option<Seq<char>> {
    if find_tag(tags, "motorcar"@) is Some {
        find_tag(tags, "motorcar"@)
    } else if find_tag(tags, "motor_vehicle"@) is Some {
        find_tag(tags, "motor_vehicle"@)
    } else if find_tag(tags, "vehicle"@) is Some {
        find_tag(tags, "vehicle"@)
    } else {
        find_tag(tags, "access"@)
    }
}

/// Cars are not allowed: the most specific access tag says `no` or `private`.
pub open spec fn spec_access_denied(tags: Seq<(String, String)>) -> bool {
    match access_value(tags) {
        Some(v) => eq_ignore_ascii_case(v, "no"@) || eq_ignore_ascii_case(v, "private"@),
        None => false,
    }
}

/// The directions in which a way may be driven, relative to the order of its nodes.
#[derive(Clone, Copy, Debug, PartialEq, Eq, Structural)]
pub enum Direction {
    Both,
    Forward,
    Reverse,
}

/// The direction given by `oneway` (trimmed, ASCII case ignored for words), or else by a
/// roundabout `junction`; two-way by default.
pub open spec fn spec_direction(tags: Seq<(String, String)>) -> Direction {
    let roundabout = match find_tag(tags, "junction"@) {
        Some(j) => eq_ignore_ascii_case(j, "roundabout"@),
        None => false,
    };
    match find_tag(tags, "oneway"@) {
        Some(raw) => {
            let v = trim(raw);
            if eq_ignore_ascii_case(v, "yes"@) || v == "1"@ || eq_ignore_ascii_case(v, "true"@) {
                Direction::Forward
            } else if v == "-1"@ || eq_ignore_ascii_case(v, "reverse"@) {
                Direction::Reverse
            } else if eq_ignore_ascii_case(v, "no"@) || v == "0"@ || eq_ignore_ascii_case(
                v,
                "false"@,
            ) {
                Direction::Both
            } else if roundabout {
                Direction::Forward
            } else {
                Direction::Both
            }
        },
        None => if roundabout {
            Direction::Forward
        } else {
            Direction::Both
        },
    }
}

/// A node tagged `highway=traffic_signals` (ASCII case ignored).
pub open spec fn spec_is_traffic_signal(tags: Seq<(String, String)>) -> bool {
    match find_tag(tags, "highway"@) {
        Some(v) => eq_ignore_ascii_case(v, "traffic_signals"@),
        None => false,
    }
}

/// Whether a signal node controls traffic arriving along a way driven forwards
/// (`reverse == false`) or backwards; `traffic_signals:direction` may limit it to one.
pub open spec fn spec_traffic_signal_applies(tags: Seq<(String, String)>, reverse: bool) -> bool {
    if !spec_is_traffic_signal(tags) {
        false
    } else {
        match find_tag(tags, "traffic_signals:direction"@) {
            Some(raw) => if eq_ignore_ascii_case(trim(raw), "forward"@) {
                !reverse
            } else if eq_ignore_ascii_case(trim(raw), "backward"@) {
                reverse
            } else {
                true
            },
            None => true,
        }
    }
}

pub open spec fn is_ascii_digit(c: char) -> bool {
    '0' <= c && c <= '9'
}

/// The number written by a sequence of decimal digits.
pub open spec fn digits_value(d: Seq<char>) -> nat
    decreases d.len(),
{
    if d.len() == 0 {
        0
    } else {
        digits_value(d.drop_last()) * 10 + ((d.last() as u32) - ('0' as u32)) as nat
    }
}

/// The digits of an unsigned number: the text after an optional leading `+`.
pub open spec fn unsigned_digits(s: Seq<char>) -> Seq<char> {
    if s.len() > 0 && s[0] == '+' {
        s.drop_first()
    } else {
        s
    }
}

/// What `u8::from_str` accepts: an optional `+`, then one or more decimal digits whose
/// value fits in a `u8`.
pub open spec fn parse_u8(s: Seq<char>) -> Option<u8> {
    let d = unsigned_digits(s);
    if d.len() > 0 && (forall|i: int| 0 <= i < d.len() ==> is_ascii_digit(#[trigger] d[i]))
        && digits_value(d) <= 255 {
        Some(digits_value(d) as u8)
    } else {
        None
    }
}

/// A lane count: a positive `u8` after trimming.
pub open spec fn spec_parse_lanes(s: Seq<char>) -> Option<u8> {
    match parse_u8(trim(s)) {
        Some(v) => if v > 0 {
            Some(v)
        } else {
            None
        },
        None => None,
    }
}

/// A separator between the transport modes of an `except` value.
pub open spec fn is_mode_separator(c: char) -> bool {
    c == ';' || c == ','
}

/// `s[i..j]` is one of the pieces that `s` splits into at separators.
pub open spec fn is_field(s: Seq<char>, i: int, j: int) -> bool {
    &&& 0 <= i <= j <= s.len()
    &&& i == 0 || is_mode_separator(s[i - 1])
    &&& j == s.len() || is_mode_separator(s[j])
    &&& forall|k: int| i <= k < j ==> !is_mode_separator(#[trigger] s[k])
}

/// A transport mode that covers ordinary cars.
pub open spec fn is_car_mode(m: Seq<char>) -> bool {
    m == "motorcar"@ || m == "motor_vehicle"@ || m == "vehicle"@
}

/// An `except` value names a mode that covers cars, in one of its trimmed pieces.
pub open spec fn spec_motorcar_is_exempt(s: Seq<char>) -> bool {
    exists|i: int, j: int| is_field(s, i, j) && is_car_mode(trim(#[trigger] s.subrange(i, j)))
}

proof fn lemma_find_tag_step(entries: Seq<(String, String)>, key: Seq<char>, i: int)
    requires
        0 <= i < entries.len(),
        entries[i].0@ != key,
    ensures
        find_tag(entries.subrange(i, entries.len() as int), key) == find_tag(
            entries.subrange(i + 1, entries.len() as int),
            key,
        ),
{
    let t = entries.subrange(i, entries.len() as int);
    assert(t[0] == entries[i]);
    assert(t.drop_first() =~= entries.subrange(i + 1, entries.len() as int));
}

impl Tags {
    /// The value of tag `key`.
    pub fn tag(&self, key: &str) -> (r: Option<&str>)
        ensures
            match r {
                Some(v) => find_tag(self.entries@, key@) == Some(v@),
                None => find_tag(self.entries@, key@) is None,
            },
    {
        let n = self.entries.len();
        let mut i: usize = 0;
        proof {
            assert(self.entries@.subrange(0, n as int) =~= self.entries@);
        }
        while i < n
            invariant
                n == self.entries@.len(),
                i <= n,
                find_tag(self.entries@, key@) == find_tag(
                    self.entries@.subrange(i as int, n as int),
                    key@,
                ),
            decreases n - i,
        {
            let entry = &self.entries[i];
            if str_eq(entry.0.as_str(), key) {
                proof {
                    let t = self.entries@.subrange(i as int, n as int);
                    assert(t[0] == self.entries@[i as int]);
                }
                return Some(entry.1.as_str());
            }
            proof {
                lemma_find_tag_step(self.entries@, key@, i as int);
            }
            i = i + 1;
        }
        None
    }
}

/// The road class of a way, if it is a road for cars.
pub fn road_class(tags: &Tags) -> (r: Option<RoadClass>)
    ensures
        r == spec_road_class(tags.entries@),
{
    let highway = match tags.tag("highway") {
        Some(v) => v,
        None => {
            return None;
        },
    };
    let lower = to_ascii_lowercase(highway);
    let h = lower.as_str();
    if str_eq(h, "motorway") || str_eq(h, "motorway_link") {
        Some(RoadClass::Motorway)
    } else if str_eq(h, "trunk") || str_eq(h, "trunk_link") {
        Some(RoadClass::Trunk)
    } else if str_eq(h, "primary") || str_eq(h, "primary_link") {
        Some(RoadClass::Primary)
    } else if str_eq(h, "secondary") || str_eq(h, "secondary_link") {
        Some(RoadClass::Secondary)
    } else if str_eq(h, "tertiary") || str_eq(h, "tertiary_link") {
        Some(RoadClass::Tertiary)
    } else if str_eq(h, "residential") {
        Some(RoadClass::Residential)
    } else if str_eq(h, "service") {
        Some(RoadClass::Service)
    } else if str_eq(h, "living_street") || str_eq(h, "road") || str_eq(h, "unclassified") {
        Some(RoadClass::Other)
    } else {
        None
    }
}

/// Whether the most specific access tag forbids cars.
pub fn access_denied(tags: &Tags) -> (r: bool)
    ensures
        r == spec_access_denied(tags.entries@),
{
    let value = match tags.tag("motorcar") {
        Some(v) => Some(v),
        None => match tags.tag("motor_vehicle") {
            Some(v) => Some(v),
            None => match tags.tag("vehicle") {
                Some(v) => Some(v),
                None => tags.tag("access"),
            },
        },
    };
    match value {
        Some(v) => str_eq_ignore_ascii_case(v, "no") || str_eq_ignore_ascii_case(v, "private"),
        None => false,
    }
}

/// A way is kept for routing when it is a road for cars and cars may use it.
pub fn is_drivable_way(tags: &Tags) -> (r: bool)
    ensures
        r == (spec_road_class(tags.entries@) is Some && !spec_access_denied(tags.entries@)),
{
    road_class(tags).is_some() && !access_denied(tags)
}

/// A relation whose `type` is `restriction` (ASCII case ignored).
pub fn is_turn_restriction_relation(tags: &Tags) -> (r: bool)
    ensures
        r == match find_tag(tags.entries@, "type"@) {
            Some(v) => eq_ignore_ascii_case(v, "restriction"@),
            None => false,
        },
{
    match tags.tag("type") {
        Some(v) => str_eq_ignore_ascii_case(v, "restriction"),
        None => false,
    }
}

/// The directions in which a way may be driven.
pub fn direction(tags: &Tags) -> (r: Direction)
    ensures
        r == spec_direction(tags.entries@),
{
    let roundabout = match tags.tag("junction") {
        Some(j) => str_eq_ignore_ascii_case(j, "roundabout"),
        None => false,
    };
    match tags.tag("oneway") {
        Some(raw) => {
            let v = trim_str(raw);
            if str_eq_ignore_ascii_case(v, "yes") || str_eq(v, "1") || str_eq_ignore_ascii_case(
                v,
                "true",
            ) {
                Direction::Forward
            } else if str_eq(v, "-1") || str_eq_ignore_ascii_case(v, "reverse") {
                Direction::Reverse
            } else if str_eq_ignore_ascii_case(v, "no") || str_eq(v, "0")
                || str_eq_ignore_ascii_case(v, "false") {
                Direction::Both
            } else if roundabout {
                Direction::Forward
            } else {
                Direction::Both
            }
        },
        None => if roundabout {
            Direction::Forward
        } else {
            Direction::Both
        },
    }
}

/// Whether a node is a traffic signal.
pub fn is_traffic_signal(tags: &Tags) -> (r: bool)
    ensures
        r == spec_is_traffic_signal(tags.entries@),
{
    match tags.tag("highway") {
        Some(v) => str_eq_ignore_ascii_case(v, "traffic_signals"),
        None => false,
    }
}

/// Whether a signal node controls the traffic that arrives at it along a way driven in
/// the given sense.
pub fn traffic_signal_applies(tags: &Tags, reverse: bool) -> (r: bool)
    ensures
        r == spec_traffic_signal_applies(tags.entries@, reverse),
{
    if !is_traffic_signal(tags) {
        return false;
    }
    match tags.tag("traffic_signals:direction") {
        Some(raw) => {
            let v = trim_str(raw);
            if str_eq_ignore_ascii_case(v, "forward") {
                !reverse
            } else if str_eq_ignore_ascii_case(v, "backward") {
                reverse
            } else {
                true
            }
        },
        None => true,
    }
}

/// Whether an `except` value exempts ordinary cars from a restriction.
pub fn motorcar_is_exempt(value: &str) -> (r: bool)
    ensures
        r == spec_motorcar_is_exempt(value@),
{
    let n = value.unicode_len();
    let mut start: usize = 0;
    let mut k: usize = 0;
    while k <= n
        invariant
            n == value@.len(),
            start <= k <= n,
            start == 0 || is_mode_separator(value@[start - 1]),
            forall|m: int| start <= m < k ==> !is_mode_separator(#[trigger] value@[m]),
            forall|i: int, j: int|
                is_field(value@, i, j) && j < start ==> !is_car_mode(
                    trim(#[trigger] value@.subrange(i, j)),
                ),
        decreases n + 1 - k,
    {
        let at_end = k == n;
        let at_sep = if at_end {
            false
        } else {
            let c = value.get_char(k);
            c == ';' || c == ','
        };
        if at_end || at_sep {
            let piece = trim_str(value.substring_char(start, k));
            if str_eq(piece, "motorcar") || str_eq(piece, "motor_vehicle") || str_eq(
                piece,
                "vehicle",
            ) {
                proof {
                    assert(is_field(value@, start as int, k as int));
                }
                return true;
            }
            proof {
                assert forall|i: int, j: int|
                    is_field(value@, i, j) && j < k + 1 implies !is_car_mode(
                    trim(#[trigger] value@.subrange(i, j)),
                ) by {
                    if j >= start {
                        if j < k {
                            assert(!is_mode_separator(value@[j]));
                        }
                        if i < start {
                            assert(is_mode_separator(value@[start - 1]));
                        }
                        if i > start {
                            assert(!is_mode_separator(value@[i - 1]));
                        }
                    }
                }
            }
            if at_end {
                proof {
                    assert forall|i: int, j: int| is_field(value@, i, j) implies !is_car_mode(
                        trim(#[trigger] value@.subrange(i, j)),
                    ) by {
                        assert(j < k + 1);
                    }
                }
                return false;
            }
            start = k + 1;
        }
        k = k + 1;
    }
    false
}

/// `u8::from_str` on a whole string.
pub fn parse_u8_str(s: &str) -> (r: Option<u8>)
    ensures
        r == parse_u8(s@),
{
    let n = s.unicode_len();
    let signed = n > 0 && s.get_char(0) == '+';
    let first: usize = if signed {
        1
    } else {
        0
    };
    let ghost d = unsigned_digits(s@);
    proof {
        assert(d =~= s@.subrange(first as int, n as int));
    }
    if first == n {
        return None;
    }
    let mut value: u32 = 0;
    let mut i: usize = first;
    while i < n
        invariant
            n == s@.len(),
            first <= i <= n,
            d == s@.subrange(first as int, n as int),
            d == unsigned_digits(s@),
            forall|k: int| first <= k < i ==> is_ascii_digit(#[trigger] s@[k]),
            value == if digits_value(s@.subrange(first as int, i as int)) > 255 {
                256
            } else {
                digits_value(s@.subrange(first as int, i as int))
            },
        decreases n - i,
    {
        let c = s.get_char(i);
        if !('0' <= c && c <= '9') {
            proof {
                assert(!is_ascii_digit(d[i - first]));
                assert(!(forall|k: int| 0 <= k < d.len() ==> is_ascii_digit(#[trigger] d[k])));
            }
            return None;
        }
        let digit = (c as u32) - ('0' as u32);
        let ghost before = digits_value(s@.subrange(first as int, i as int));
        proof {
            let p = s@.subrange(first as int, i + 1);
            assert(p.drop_last() =~= s@.subrange(first as int, i as int));
            assert(p.last() == c);
            assert(digits_value(p) == before * 10 + digit);
            if before > 255 {
                assert(before * 10 >= before) by (nonlinear_arith)
                    requires
                        before >= 0,
                ;
            }
        }
        if value > 255 {
            value = 256;
        } else {
            let next = value * 10 + digit;
            value = if next > 255 {
                256
            } else {
                next
            };
        }
        i = i + 1;
    }
    proof {
        assert(s@.subrange(first as int, n as int) == d);
        assert forall|k: int| 0 <= k < d.len() implies is_ascii_digit(#[trigger] d[k]) by {
            assert(d[k] == s@[first + k]);
        }
    }
    if value > 255 {
        None
    } else {
        Some(value as u8)
    }
}

/// The lane count of a `lanes` value: a positive `u8`, surrounding white space allowed.
pub fn parse_lanes(value: &str) -> (r: Option<u8>)
    ensures
        r == spec_parse_lanes(value@),
{
    match parse_u8_str(trim_str(value)) {
        Some(v) => if v > 0 {
            Some(v)
        } else {
            None
        },
        None => None,
    }
}

} // verus!
