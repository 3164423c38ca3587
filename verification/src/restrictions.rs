//! Turn restrictions read from OpenStreetMap `type=restriction` relations.
//!
//! A relation applies when it has exactly one `from` way, one `via` node and one `to` way,
//! and a `restriction` value that starts with `no_` or `only_`. It forbids moving from an
//! edge of the `from` way that ends at the via node onto an edge leaving the via node:
//! onto the `to` way for `no_*` (for a `no_u_turn` within one way, only onto the edge
//! that drives back), and onto any other way for `only_*`.

use vstd::prelude::*;

use crate::graph::{id_limit, restriction_from_key, restriction_key, restriction_key_of, Edge};
use crate::graph::{lemma_restriction_key, lemma_restriction_key_order};
use crate::ids::{EdgeId, TurnRestriction};
use crate::import::ImportReport;
use crate::sorted_set::{sorted_unique, strictly_increasing};
use crate::tags::{find_tag, is_turn_restriction_relation, motorcar_is_exempt, spec_motorcar_is_exempt, Tags};
use crate::text::{
    ascii_lowercase, eq_ignore_ascii_case, has_prefix, str_eq, str_eq_ignore_ascii_case,
    str_has_prefix, to_ascii_lowercase, trim, trim_str,
};

verus! {

/// The kind of element a relation member refers to.
#[derive(Clone, Copy, Debug, PartialEq, Eq, Structural)]
pub enum MemberKind {
    Node,
    Way,
    Relation,
}

/// One member of a relation.
#[derive(Clone, Debug)]
pub struct Member {
    pub kind: MemberKind,
    pub id: i64,
    pub role: String,
}

/// An OpenStreetMap relation with its tags and members in order.
#[derive(Clone, Debug)]
pub struct Relation {
    pub id: i64,
    pub tags: Tags,
    pub members: Vec<Member>,
}

/// Whether a restriction forbids the named turn or allows only it.
#[derive(Clone, Copy, Debug, PartialEq, Eq, Structural)]
pub enum RestrictionMode {
    No,
    Only,
}

/// A restriction relation reduced to what routing needs.
#[derive(Clone, Copy, Debug, PartialEq, Eq, Structural)]
pub struct ParsedRestriction {
    pub mode: RestrictionMode,
    pub from: i64,
    pub via: i64,
    pub to: i64,
    /// A `no_u_turn` whose `from` and `to` are the same way.
    pub same_way_u_turn: bool,
}

/// How a restriction relation is read.
#[derive(Clone, Copy, Debug, PartialEq, Eq, Structural)]
pub enum RestrictionParse {
    Apply(ParsedRestriction),
    /// The restriction does not apply to ordinary cars.
    Exempt,
    /// The restriction has a form that is not understood.
    Unsupported,
}

/// What became of one relation during an import.
#[derive(Clone, Copy, Debug, PartialEq, Eq, Structural)]
pub enum RestrictionOutcome {
    /// Not a restriction relation.
    Ignored,
    Exempt,
    Unsupported,
    Applied,
}

/// A relation of `type=restriction` (ASCII case ignored).
pub open spec fn is_restriction_type(tags: Seq<(String, String)>) -> bool {
    match find_tag(tags, "type"@) {
        Some(v) => eq_ignore_ascii_case(v, "restriction"@),
        None => false,
    }
}

/// The restriction value that applies to cars: `restriction:motorcar`, then
/// `restriction:motor_vehicle`, then `restriction`.
pub open spec fn restriction_value(tags: Seq<(String, String)>) -> Option<Seq<char>> {
    if find_tag(tags, "restriction:motorcar"@) is Some {
        find_tag(tags, "restriction:motorcar"@)
    } else if find_tag(tags, "restriction:motor_vehicle"@) is Some {
        find_tag(tags, "restriction:motor_vehicle"@)
    } else {
        find_tag(tags, "restriction"@)
    }
}

/// The ids of the members of kind `kind` whose role is `role` (ASCII case ignored), in order.
pub open spec fn members_with_role(members: Seq<Member>, role: Seq<char>, kind: MemberKind) -> Seq<
    i64,
>
    decreases members.len(),
{
    if members.len() == 0 {
        Seq::empty()
    } else {
        let rest = members_with_role(members.drop_last(), role, kind);
        let m = members.last();
        if m.kind == kind && eq_ignore_ascii_case(m.role@, role) {
            rest.push(m.id)
        } else {
            rest
        }
    }
}

/// How a restriction relation with these tags and members is read.
pub open spec fn spec_parse_turn_restriction(
    tags: Seq<(String, String)>,
    members: Seq<Member>,
) -> RestrictionParse {
    let exempt = match find_tag(tags, "except"@) {
        Some(e) => spec_motorcar_is_exempt(e),
        None => false,
    };
    if exempt {
        RestrictionParse::Exempt
    } else {
        match restriction_value(tags) {
            None => RestrictionParse::Unsupported,
            Some(v) => {
                let norm = ascii_lowercase(trim(v));
                let f = members_with_role(members, "from"@, MemberKind::Way);
                let vi = members_with_role(members, "via"@, MemberKind::Node);
                let t = members_with_role(members, "to"@, MemberKind::Way);
                if !has_prefix(norm, "no_"@) && !has_prefix(norm, "only_"@) {
                    RestrictionParse::Unsupported
                } else if f.len() != 1 || vi.len() != 1 || t.len() != 1 {
                    RestrictionParse::Unsupported
                } else {
                    RestrictionParse::Apply(
                        ParsedRestriction {
                            mode: if has_prefix(norm, "no_"@) {
                                RestrictionMode::No
                            } else {
                                RestrictionMode::Only
                            },
                            from: f[0],
                            via: vi[0],
                            to: t[0],
                            same_way_u_turn: norm == "no_u_turn"@ && f[0] == t[0],
                        },
                    )
                }
            },
        }
    }
}

/// Whether restriction `p` forbids moving from `prev` onto `next` at its via node.
pub open spec fn prohibits(p: ParsedRestriction, prev: Edge, next: Edge) -> bool {
    let onto_to_way = next.source_way_id == Some(p.to);
    match p.mode {
        RestrictionMode::No => if p.same_way_u_turn {
            onto_to_way && prev.from == next.to
        } else {
            onto_to_way
        },
        RestrictionMode::Only => !onto_to_way,
    }
}

/// Some edge of way `way` ends at node `v`.
pub open spec fn has_incoming(edges: Seq<Edge>, way: i64, v: int) -> bool {
    exists|e: int| 0 <= e < edges.len() && edges[e].source_way_id == Some(way) && edges[e].to.0 == v
}

/// Some edge leaves node `v`.
pub open spec fn has_outgoing(edges: Seq<Edge>, v: int) -> bool {
    exists|e: int| 0 <= e < edges.len() && edges[e].from.0 == v
}

/// What becomes of relation `rel` when the graph's nodes have the OpenStreetMap ids
/// `node_ids` (node `i` has id `node_ids[i]`) and its edges are `edges`.
pub open spec fn restriction_outcome(rel: Relation, node_ids: Seq<i64>, edges: Seq<Edge>) -> RestrictionOutcome {
    if !is_restriction_type(rel.tags.entries@) {
        RestrictionOutcome::Ignored
    } else {
        match spec_parse_turn_restriction(rel.tags.entries@, rel.members@) {
            RestrictionParse::Exempt => RestrictionOutcome::Exempt,
            RestrictionParse::Unsupported => RestrictionOutcome::Unsupported,
            RestrictionParse::Apply(p) => if exists|v: int|
                0 <= v < node_ids.len() && node_ids[v] == p.via && has_incoming(edges, p.from, v)
                    && has_outgoing(edges, v) {
                RestrictionOutcome::Applied
            } else {
                RestrictionOutcome::Unsupported
            },
        }
    }
}

/// Relation `rel` forbids the transition `x`.
pub open spec fn relation_prohibits(
    rel: Relation,
    node_ids: Seq<i64>,
    edges: Seq<Edge>,
    x: TurnRestriction,
) -> bool {
    &&& is_restriction_type(rel.tags.entries@)
    &&& spec_parse_turn_restriction(rel.tags.entries@, rel.members@) matches RestrictionParse::Apply(p)
    &&& x.from.0 < edges.len()
    &&& x.to.0 < edges.len()
    &&& edges[x.from.0 as int].source_way_id == Some(p.from)
    &&& edges[x.from.0 as int].to == edges[x.to.0 as int].from
    &&& node_ids[edges[x.from.0 as int].to.0 as int] == p.via
    &&& prohibits(p, edges[x.from.0 as int], edges[x.to.0 as int])
}

/// How many of `rels` have outcome `o`.
pub open spec fn count_outcomes(
    rels: Seq<Relation>,
    node_ids: Seq<i64>,
    edges: Seq<Edge>,
    o: RestrictionOutcome,
) -> nat
    decreases rels.len(),
{
    if rels.len() == 0 {
        0
    } else {
        count_outcomes(rels.drop_last(), node_ids, edges, o) + if restriction_outcome(
            rels.last(),
            node_ids,
            edges,
        ) == o {
            1nat
        } else {
            0nat
        }
    }
}

/// `s` lists every edge that ends at node `v`, and only those.
pub open spec fn lists_edges_into(s: Seq<u32>, edges: Seq<Edge>, v: int) -> bool {
    &&& forall|k: int| 0 <= k < s.len() ==> s[k] < edges.len() && edges[s[k] as int].to.0 == v
    &&& forall|e: int| 0 <= e < edges.len() && edges[e].to.0 == v ==> s.contains(e as u32)
}

/// `s` lists every edge that leaves node `v`, and only those.
pub open spec fn lists_edges_from(s: Seq<u32>, edges: Seq<Edge>, v: int) -> bool {
    &&& forall|k: int| 0 <= k < s.len() ==> s[k] < edges.len() && edges[s[k] as int].from.0 == v
    &&& forall|e: int| 0 <= e < edges.len() && edges[e].from.0 == v ==> s.contains(e as u32)
}

/// The key of `x` as a machine integer.
pub open spec fn key64(x: TurnRestriction) -> u64 {
    restriction_key(x) as u64
}

/// `x` starts on an edge of `p`'s `from` way that ends at node `v`, continues on an edge
/// that leaves `v`, and `p` forbids it.
pub open spec fn pair_prohibited(p: ParsedRestriction, edges: Seq<Edge>, v: int, x: TurnRestriction) -> bool {
    &&& x.from.0 < edges.len()
    &&& x.to.0 < edges.len()
    &&& edges[x.from.0 as int].source_way_id == Some(p.from)
    &&& edges[x.from.0 as int].to.0 == v
    &&& edges[x.to.0 as int].from.0 == v
    &&& prohibits(p, edges[x.from.0 as int], edges[x.to.0 as int])
}

proof fn lemma_key64(x: TurnRestriction, y: TurnRestriction)
    ensures
        key64(x) == restriction_key(x),
        key64(x) == key64(y) <==> x == y,
{
    lemma_restriction_key(x);
    lemma_restriction_key(y);
    lemma_restriction_key_order(x, y);
}

/// Adds to `keys` the transitions at node `v` that `p` forbids, given the edges `into` that
/// end at `v` and `out` that leave it; tells whether an edge of the `from` way arrives.
fn collect_prohibited(
    p: &ParsedRestriction,
    v: usize,
    into: &Vec<u32>,
    out: &Vec<u32>,
    edges: &[Edge],
    keys: &mut Vec<u64>,
) -> (any_in: bool)
    requires
        edges@.len() <= id_limit(),
        lists_edges_into(into@, edges@, v as int),
        lists_edges_from(out@, edges@, v as int),
    ensures
        any_in == has_incoming(edges@, p.from, v as int),
        forall|x: TurnRestriction|
            #[trigger] final(keys)@.contains(key64(x)) <==> (old(keys)@.contains(key64(x))
                || pair_prohibited(*p, edges@, v as int, x)),
{
    let mut any_in = false;
    let mut a: usize = 0;
    while a < into.len()
        invariant
            edges@.len() <= id_limit(),
            lists_edges_into(into@, edges@, v as int),
            lists_edges_from(out@, edges@, v as int),
            a <= into@.len(),
            any_in == exists|a2: int|
                0 <= a2 < a && edges@[into@[a2] as int].source_way_id == Some(p.from),
            forall|x: TurnRestriction|
                #[trigger] keys@.contains(key64(x)) <==> (old(keys)@.contains(key64(x)) || (
                pair_prohibited(*p, edges@, v as int, x) && exists|a2: int|
                    0 <= a2 < a && into@[a2] == x.from.0)),
        decreases into@.len() - a,
    {
        let prev_id = into[a];
        let prev = &edges[prev_id as usize];
        let on_from_way = match prev.source_way_id {
            Some(w) => w == p.from,
            None => false,
        };
        if on_from_way {
            any_in = true;
            let mut b: usize = 0;
            while b < out.len()
                invariant
                    edges@.len() <= id_limit(),
                    lists_edges_into(into@, edges@, v as int),
                    lists_edges_from(out@, edges@, v as int),
                    a < into@.len(),
                    prev_id == into@[a as int],
                    *prev == edges@[prev_id as int],
                    prev.source_way_id == Some(p.from),
                    b <= out@.len(),
                    forall|x: TurnRestriction|
                        #[trigger] keys@.contains(key64(x)) <==> (old(keys)@.contains(key64(x)) || (
                        pair_prohibited(*p, edges@, v as int, x) && exists|a2: int|
                            0 <= a2 < a && into@[a2] == x.from.0) || (pair_prohibited(
                            *p,
                            edges@,
                            v as int,
                            x,
                        ) && x.from.0 == prev_id && exists|b2: int|
                            0 <= b2 < b && out@[b2] == x.to.0)),
                decreases out@.len() - b,
            {
                let next_id = out[b];
                let next = &edges[next_id as usize];
                if prohibits_turn(p, prev, next) {
                    let t = TurnRestriction::new(EdgeId(prev_id), EdgeId(next_id));
                    let k = restriction_key_of(t);
                    let ghost before = keys@;
                    keys.push(k);
                    proof {
                        assert forall|x: TurnRestriction|
                            #[trigger] keys@.contains(key64(x)) <==> (old(keys)@.contains(key64(x))
                                || (pair_prohibited(*p, edges@, v as int, x) && exists|a2: int|
                                0 <= a2 < a && into@[a2] == x.from.0) || (pair_prohibited(
                                *p,
                                edges@,
                                v as int,
                                x,
                            ) && x.from.0 == prev_id && exists|b2: int|
                                0 <= b2 < b + 1 && out@[b2] == x.to.0)) by {
                            lemma_key64(x, t);
                            if keys@.contains(key64(x)) && !before.contains(key64(x)) {
                                assert(x == t);
                            }
                            if x == t {
                                assert(keys@[before.len() as int] == k);
                            }
                            if before.contains(key64(x)) {
                                let i = choose|i: int| 0 <= i < before.len() && before[i] == key64(x);
                                assert(keys@[i] == key64(x));
                            }
                        }
                    }
                } else {
                    proof {
                        assert forall|x: TurnRestriction|
                            pair_prohibited(*p, edges@, v as int, x) && x.from.0 == prev_id
                                && out@[b as int] == x.to.0 implies false by {
                            assert(edges@[x.to.0 as int] == *next);
                        }
                    }
                }
                b = b + 1;
            }
            proof {
                assert forall|x: TurnRestriction|
                    pair_prohibited(*p, edges@, v as int, x) && x.from.0 == prev_id implies exists|b2: int|
                        0 <= b2 < out@.len() && out@[b2] == x.to.0 by {
                    assert(out@.contains(x.to.0));
                }
            }
        } else {
            proof {
                assert forall|x: TurnRestriction|
                    pair_prohibited(*p, edges@, v as int, x) implies x.from.0 != prev_id by {}
            }
        }
        a = a + 1;
    }
    proof {
        assert forall|x: TurnRestriction| pair_prohibited(*p, edges@, v as int, x) implies exists|a2: int|
            0 <= a2 < into@.len() && into@[a2] == x.from.0 by {
            assert(into@.contains(x.from.0));
        }
        if has_incoming(edges@, p.from, v as int) {
            let e = choose|e: int|
                0 <= e < edges@.len() && edges@[e].source_way_id == Some(p.from) && edges@[e].to.0 == v;
            assert(into@.contains(e as u32));
            let a2 = choose|a2: int| 0 <= a2 < into@.len() && into@[a2] == e as u32;
            assert(edges@[into@[a2] as int].source_way_id == Some(p.from));
        }
    }
    any_in
}

/// The ids of the members of kind `kind` with role `role`.
fn role_members(members: &Vec<Member>, role: &str, kind: MemberKind) -> (r: Vec<i64>)
    ensures
        r@ == members_with_role(members@, role@, kind),
{
    let mut r: Vec<i64> = Vec::new();
    let mut i: usize = 0;
    while i < members.len()
        invariant
            i <= members@.len(),
            r@ == members_with_role(members@.subrange(0, i as int), role@, kind),
        decreases members@.len() - i,
    {
        let m = &members[i];
        proof {
            let p = members@.subrange(0, i + 1);
            assert(p.drop_last() =~= members@.subrange(0, i as int));
            assert(p.last() == members@[i as int]);
        }
        if m.kind == kind && str_eq_ignore_ascii_case(m.role.as_str(), role) {
            r.push(m.id);
        }
        i = i + 1;
    }
    proof {
        assert(members@.subrange(0, members@.len() as int) =~= members@);
    }
    r
}

/// Reads a restriction relation: whether cars are exempt, whether its form is understood,
/// and what it restricts.
pub fn parse_turn_restriction(relation: &Relation) -> (r: RestrictionParse)
    ensures
        r == spec_parse_turn_restriction(relation.tags.entries@, relation.members@),
{
    let exempt = match relation.tags.tag("except") {
        Some(e) => motorcar_is_exempt(e),
        None => false,
    };
    if exempt {
        return RestrictionParse::Exempt;
    }
    let value = match relation.tags.tag("restriction:motorcar") {
        Some(v) => v,
        None => match relation.tags.tag("restriction:motor_vehicle") {
            Some(v) => v,
            None => match relation.tags.tag("restriction") {
                Some(v) => v,
                None => {
                    return RestrictionParse::Unsupported;
                },
            },
        },
    };
    let lowered = to_ascii_lowercase(trim_str(value));
    let norm = lowered.as_str();
    let from = role_members(&relation.members, "from", MemberKind::Way);
    let via = role_members(&relation.members, "via", MemberKind::Node);
    let to = role_members(&relation.members, "to", MemberKind::Way);
    let no = str_has_prefix(norm, "no_");
    let only = str_has_prefix(norm, "only_");
    if !no && !only {
        return RestrictionParse::Unsupported;
    }
    if from.len() != 1 || via.len() != 1 || to.len() != 1 {
        return RestrictionParse::Unsupported;
    }
    let mode = if no {
        RestrictionMode::No
    } else {
        RestrictionMode::Only
    };
    let same_way_u_turn = str_eq(norm, "no_u_turn") && from[0] == to[0];
    RestrictionParse::Apply(
        ParsedRestriction { mode, from: from[0], via: via[0], to: to[0], same_way_u_turn },
    )
}

fn prohibits_turn(p: &ParsedRestriction, prev: &Edge, next: &Edge) -> (r: bool)
    ensures
        r == prohibits(*p, *prev, *next),
{
    let onto_to_way = match next.source_way_id {
        Some(w) => w == p.to,
        None => false,
    };
    match p.mode {
        RestrictionMode::No => if p.same_way_u_turn {
            onto_to_way && prev.from == next.to
        } else {
            onto_to_way
        },
        RestrictionMode::Only => !onto_to_way,
    }
}

/// The position of `x` in the strictly increasing `s`, found by bisection.
pub fn position_of(s: &[i64], x: i64) -> (r: Option<usize>)
    requires
        forall|i: int, j: int| 0 <= i < j < s@.len() ==> s@[i] < s@[j],
    ensures
        match r {
            Some(i) => i < s@.len() && s@[i as int] == x,
            None => forall|i: int| 0 <= i < s@.len() ==> s@[i] != x,
        },
{
    let mut lo: usize = 0;
    let mut hi: usize = s.len();
    while lo < hi
        invariant
            forall|i: int, j: int| 0 <= i < j < s@.len() ==> s@[i] < s@[j],
            lo <= hi <= s@.len(),
            forall|k: int| 0 <= k < lo ==> s@[k] < x,
            forall|k: int| hi <= k < s@.len() ==> s@[k] > x,
        decreases hi - lo,
    {
        let mid = lo + (hi - lo) / 2;
        if s[mid] == x {
            return Some(mid);
        } else if s[mid] < x {
            lo = mid + 1;
        } else {
            hi = mid;
        }
    }
    None
}

/// For each node, the edges that end there and the edges that leave it.
fn edge_adjacency(edges: &[Edge], n: usize) -> (r: (Vec<Vec<u32>>, Vec<Vec<u32>>))
    requires
        edges@.len() <= id_limit(),
        forall|i: int| 0 <= i < edges@.len() ==> (#[trigger] edges@[i]).from.0 < n && edges@[i].to.0 < n,
    ensures
        r.0@.len() == n,
        r.1@.len() == n,
        forall|v: int| 0 <= v < n ==> lists_edges_into((#[trigger] r.0@[v])@, edges@, v),
        forall|v: int| 0 <= v < n ==> lists_edges_from((#[trigger] r.1@[v])@, edges@, v),
{
    let mut into: Vec<Vec<u32>> = Vec::new();
    let mut from: Vec<Vec<u32>> = Vec::new();
    let mut v: usize = 0;
    while v < n
        invariant
            v <= n,
            into@.len() == v,
            from@.len() == v,
            forall|u: int| 0 <= u < v ==> (#[trigger] into@[u])@.len() == 0,
            forall|u: int| 0 <= u < v ==> (#[trigger] from@[u])@.len() == 0,
        decreases n - v,
    {
        into.push(Vec::new());
        from.push(Vec::new());
        v = v + 1;
    }
    let m = edges.len();
    let mut i: usize = 0;
    while i < m
        invariant
            m == edges@.len(),
            m <= id_limit(),
            i <= m,
            forall|e: int| 0 <= e < m ==> (#[trigger] edges@[e]).from.0 < n && edges@[e].to.0 < n,
            into@.len() == n,
            from@.len() == n,
            forall|u: int|
                0 <= u < n ==> lists_edges_into((#[trigger] into@[u])@, edges@.subrange(0, i as int), u),
            forall|u: int|
                0 <= u < n ==> lists_edges_from((#[trigger] from@[u])@, edges@.subrange(0, i as int), u),
        decreases m - i,
    {
        let e = &edges[i];
        let t = e.to.0 as usize;
        let f = e.from.0 as usize;
        let ghost old_into = into@;
        let ghost old_from = from@;
        into[t].push(i as u32);
        from[f].push(i as u32);
        proof {
            let pre = edges@.subrange(0, i as int);
            let post = edges@.subrange(0, i + 1);
            assert forall|u: int| 0 <= u < n implies lists_edges_into(
                (#[trigger] into@[u])@,
                post,
                u,
            ) by {
                let s = into@[u]@;
                assert(lists_edges_into(old_into[u]@, pre, u));
                if u == t {
                    assert(s == old_into[u]@.push(i as u32));
                    assert forall|e2: int| 0 <= e2 < post.len() && post[e2].to.0 == u implies s.contains(
                        e2 as u32,
                    ) by {
                        if e2 < i {
                            assert(pre[e2] == post[e2]);
                            assert(old_into[u]@.contains(e2 as u32));
                            let k = choose|k: int| 0 <= k < old_into[u]@.len() && old_into[u]@[k] == e2 as u32;
                            assert(s[k] == e2 as u32);
                        } else {
                            assert(s[s.len() - 1] == i as u32);
                        }
                    }
                } else {
                    assert(s == old_into[u]@);
                    assert forall|e2: int| 0 <= e2 < post.len() && post[e2].to.0 == u implies s.contains(
                        e2 as u32,
                    ) by {
                        assert(e2 < i);
                        assert(pre[e2] == post[e2]);
                    }
                }
            }
            assert forall|u: int| 0 <= u < n implies lists_edges_from(
                (#[trigger] from@[u])@,
                post,
                u,
            ) by {
                let s = from@[u]@;
                assert(lists_edges_from(old_from[u]@, pre, u));
                if u == f {
                    assert(s == old_from[u]@.push(i as u32));
                    assert forall|e2: int| 0 <= e2 < post.len() && post[e2].from.0 == u implies s.contains(
                        e2 as u32,
                    ) by {
                        if e2 < i {
                            assert(pre[e2] == post[e2]);
                            assert(old_from[u]@.contains(e2 as u32));
                            let k = choose|k: int| 0 <= k < old_from[u]@.len() && old_from[u]@[k] == e2 as u32;
                            assert(s[k] == e2 as u32);
                        } else {
                            assert(s[s.len() - 1] == i as u32);
                        }
                    }
                } else {
                    assert(s == old_from[u]@);
                    assert forall|e2: int| 0 <= e2 < post.len() && post[e2].from.0 == u implies s.contains(
                        e2 as u32,
                    ) by {
                        assert(e2 < i);
                        assert(pre[e2] == post[e2]);
                    }
                }
            }
        }
        i = i + 1;
    }
    proof {
        assert(edges@.subrange(0, m as int) =~= edges@);
    }
    (into, from)
}

proof fn lemma_count_step(
    rels: Seq<Relation>,
    node_ids: Seq<i64>,
    edges: Seq<Edge>,
    k: int,
    o: RestrictionOutcome,
)
    requires
        0 <= k < rels.len(),
    ensures
        count_outcomes(rels.subrange(0, k + 1), node_ids, edges, o) == count_outcomes(
            rels.subrange(0, k),
            node_ids,
            edges,
            o,
        ) + if restriction_outcome(rels[k], node_ids, edges) == o {
            1nat
        } else {
            0nat
        },
{
    let p = rels.subrange(0, k + 1);
    assert(p.drop_last() =~= rels.subrange(0, k));
    assert(p.last() == rels[k]);
}

/// The turn restrictions that the restriction relations among `relations` impose on a graph
/// whose node `i` has OpenStreetMap id `node_ids[i]` and whose edges are `edges`, without
/// repeats and in increasing `(from, to)` order. The report counts each restriction
/// relation as exempt, unsupported, or applied.
pub fn build_turn_restrictions(
    relations: &[Relation],
    node_ids: &[i64],
    edges: &[Edge],
    report: &mut ImportReport,
) -> (r: Vec<TurnRestriction>)
    requires
        forall|i: int, j: int| 0 <= i < j < node_ids@.len() ==> node_ids@[i] < node_ids@[j],
        edges@.len() <= id_limit(),
        forall|i: int|
            0 <= i < edges@.len() ==> (#[trigger] edges@[i]).from.0 < node_ids@.len()
                && edges@[i].to.0 < node_ids@.len(),
        old(report).applied_restriction_relations + relations@.len() <= usize::MAX,
        old(report).unsupported_restriction_relations + relations@.len() <= usize::MAX,
        old(report).exempt_restriction_relations + relations@.len() <= usize::MAX,
    ensures
        forall|i: int, j: int|
            0 <= i < j < r@.len() ==> restriction_key(r@[i]) < restriction_key(r@[j]),
        forall|x: TurnRestriction|
            r@.contains(x) <==> exists|k: int|
                0 <= k < relations@.len() && relation_prohibits(
                    #[trigger] relations@[k],
                    node_ids@,
                    edges@,
                    x,
                ),
        final(report).applied_restriction_relations == old(report).applied_restriction_relations
            + count_outcomes(relations@, node_ids@, edges@, RestrictionOutcome::Applied),
        final(report).unsupported_restriction_relations
            == old(report).unsupported_restriction_relations + count_outcomes(
            relations@,
            node_ids@,
            edges@,
            RestrictionOutcome::Unsupported,
        ),
        final(report).exempt_restriction_relations == old(report).exempt_restriction_relations
            + count_outcomes(relations@, node_ids@, edges@, RestrictionOutcome::Exempt),
        *final(report) == (ImportReport {
            applied_restriction_relations: final(report).applied_restriction_relations,
            unsupported_restriction_relations: final(report).unsupported_restriction_relations,
            exempt_restriction_relations: final(report).exempt_restriction_relations,
            ..*old(report)
        }),
{
    let (into, out) = edge_adjacency(edges, node_ids.len());
    let mut keys: Vec<u64> = Vec::new();
    let ghost start = *report;
    let mut k: usize = 0;
    while k < relations.len()
        invariant
            forall|i: int, j: int| 0 <= i < j < node_ids@.len() ==> node_ids@[i] < node_ids@[j],
            edges@.len() <= id_limit(),
            forall|i: int|
                0 <= i < edges@.len() ==> (#[trigger] edges@[i]).from.0 < node_ids@.len()
                    && edges@[i].to.0 < node_ids@.len(),
            into@.len() == node_ids@.len(),
            out@.len() == node_ids@.len(),
            forall|v: int|
                0 <= v < node_ids@.len() ==> lists_edges_into((#[trigger] into@[v])@, edges@, v),
            forall|v: int|
                0 <= v < node_ids@.len() ==> lists_edges_from((#[trigger] out@[v])@, edges@, v),
            k <= relations@.len(),
            start == *old(report),
            start.applied_restriction_relations + relations@.len() <= usize::MAX,
            start.unsupported_restriction_relations + relations@.len() <= usize::MAX,
            start.exempt_restriction_relations + relations@.len() <= usize::MAX,
            report.applied_restriction_relations == start.applied_restriction_relations
                + count_outcomes(
                relations@.subrange(0, k as int),
                node_ids@,
                edges@,
                RestrictionOutcome::Applied,
            ),
            report.unsupported_restriction_relations == start.unsupported_restriction_relations
                + count_outcomes(
                relations@.subrange(0, k as int),
                node_ids@,
                edges@,
                RestrictionOutcome::Unsupported,
            ),
            report.exempt_restriction_relations == start.exempt_restriction_relations
                + count_outcomes(
                relations@.subrange(0, k as int),
                node_ids@,
                edges@,
                RestrictionOutcome::Exempt,
            ),
            *report == (ImportReport {
                applied_restriction_relations: report.applied_restriction_relations,
                unsupported_restriction_relations: report.unsupported_restriction_relations,
                exempt_restriction_relations: report.exempt_restriction_relations,
                ..start
            }),
            forall|x: TurnRestriction|
                #[trigger] keys@.contains(key64(x)) <==> exists|j: int|
                    0 <= j < k && relation_prohibits(relations@[j], node_ids@, edges@, x),
        decreases relations@.len() - k,
    {
        let rel = &relations[k];
        let ghost before = keys@;
        let ghost outcome = restriction_outcome(*rel, node_ids@, edges@);
        proof {
            lemma_count_step(relations@, node_ids@, edges@, k as int, RestrictionOutcome::Applied);
            lemma_count_step(relations@, node_ids@, edges@, k as int, RestrictionOutcome::Unsupported);
            lemma_count_step(relations@, node_ids@, edges@, k as int, RestrictionOutcome::Exempt);
            assert(count_outcomes(relations@.subrange(0, k as int), node_ids@, edges@, RestrictionOutcome::Applied) <= k) by {
                lemma_count_bound(relations@.subrange(0, k as int), node_ids@, edges@, RestrictionOutcome::Applied);
            }
            assert(count_outcomes(relations@.subrange(0, k as int), node_ids@, edges@, RestrictionOutcome::Unsupported) <= k) by {
                lemma_count_bound(relations@.subrange(0, k as int), node_ids@, edges@, RestrictionOutcome::Unsupported);
            }
            assert(count_outcomes(relations@.subrange(0, k as int), node_ids@, edges@, RestrictionOutcome::Exempt) <= k) by {
                lemma_count_bound(relations@.subrange(0, k as int), node_ids@, edges@, RestrictionOutcome::Exempt);
            }
        }
        if is_turn_restriction_relation(&rel.tags) {
            match parse_turn_restriction(rel) {
                RestrictionParse::Exempt => {
                    report.exempt_restriction_relations = report.exempt_restriction_relations + 1;
                },
                RestrictionParse::Unsupported => {
                    report.unsupported_restriction_relations = report.unsupported_restriction_relations
                        + 1;
                },
                RestrictionParse::Apply(p) => {
                    match position_of(node_ids, p.via) {
                        None => {
                            report.unsupported_restriction_relations = report.unsupported_restriction_relations
                                + 1;
                            proof {
                                assert forall|x: TurnRestriction|
                                    !relation_prohibits(*rel, node_ids@, edges@, x) by {
                                    if x.from.0 < edges@.len() {
                                        let w = edges@[x.from.0 as int].to.0 as int;
                                        assert(w < node_ids@.len());
                                    }
                                }
                            }
                        },
                        Some(v) => {
                            let any_in = collect_prohibited(&p, v, &into[v], &out[v], edges, &mut keys);
                            proof {
                                assert forall|x: TurnRestriction|
                                    relation_prohibits(*rel, node_ids@, edges@, x) <==> pair_prohibited(
                                        p,
                                        edges@,
                                        v as int,
                                        x,
                                    ) by {
                                    if x.from.0 < edges@.len() && x.to.0 < edges@.len() {
                                        let w = edges@[x.from.0 as int].to.0 as int;
                                        assert(w < node_ids@.len());
                                        if node_ids@[w] == p.via && w != v {
                                            if w < v {
                                                assert(node_ids@[w] < node_ids@[v as int]);
                                            } else {
                                                assert(node_ids@[v as int] < node_ids@[w]);
                                            }
                                        }
                                    }
                                }
                                assert(lists_edges_from(out@[v as int]@, edges@, v as int));
                                if out@[v as int]@.len() > 0 {
                                    assert(edges@[out@[v as int]@[0] as int].from.0 == v);
                                }
                                if has_outgoing(edges@, v as int) {
                                    let e = choose|e: int| 0 <= e < edges@.len() && edges@[e].from.0 == v;
                                    assert(out@[v as int]@.contains(e as u32));
                                }
                                assert forall|w: int|
                                    0 <= w < node_ids@.len() && node_ids@[w] == p.via implies w == v by {
                                    if w < v {
                                        assert(node_ids@[w] < node_ids@[v as int]);
                                    } else if w > v {
                                        assert(node_ids@[v as int] < node_ids@[w]);
                                    }
                                }
                            }
                            if any_in && out[v].len() > 0 {
                                report.applied_restriction_relations = report.applied_restriction_relations
                                    + 1;
                            } else {
                                report.unsupported_restriction_relations = report.unsupported_restriction_relations
                                    + 1;
                            }
                        },
                    }
                },
            }
        }
        proof {
            assert forall|x: TurnRestriction|
                #[trigger] keys@.contains(key64(x)) <==> exists|j: int|
                    0 <= j < k + 1 && relation_prohibits(relations@[j], node_ids@, edges@, x) by {
                if relation_prohibits(relations@[k as int], node_ids@, edges@, x) {
                    assert(keys@.contains(key64(x)));
                }
                if keys@.contains(key64(x)) && !before.contains(key64(x)) {
                    assert(relation_prohibits(relations@[k as int], node_ids@, edges@, x));
                }
            }
        }
        k = k + 1;
    }
    proof {
        assert(relations@.subrange(0, relations@.len() as int) =~= relations@);
    }
    let sorted = sorted_unique(&keys);
    let mut rs: Vec<TurnRestriction> = Vec::new();
    let mut i: usize = 0;
    while i < sorted.len()
        invariant
            i <= sorted@.len(),
            strictly_increasing(sorted@),
            rs@.len() == i,
            forall|j: int| 0 <= j < i ==> restriction_key(#[trigger] rs@[j]) == sorted@[j],
        decreases sorted@.len() - i,
    {
        rs.push(restriction_from_key(sorted[i]));
        i = i + 1;
    }
    proof {
        assert forall|x: TurnRestriction| rs@.contains(x) <==> keys@.contains(key64(x)) by {
            lemma_key64(x, x);
            if rs@.contains(x) {
                let j = choose|j: int| 0 <= j < rs@.len() && rs@[j] == x;
                assert(sorted@.contains(sorted@[j]));
            }
            if keys@.contains(key64(x)) {
                assert(sorted@.contains(key64(x)));
                let j = choose|j: int| 0 <= j < sorted@.len() && sorted@[j] == key64(x);
                lemma_key64(rs@[j], x);
                assert(rs@[j] == x);
            }
        }
    }
    rs
}

proof fn lemma_count_bound(rels: Seq<Relation>, node_ids: Seq<i64>, edges: Seq<Edge>, o: RestrictionOutcome)
    ensures
        count_outcomes(rels, node_ids, edges, o) <= rels.len(),
    decreases rels.len(),
{
    if rels.len() > 0 {
        lemma_count_bound(rels.drop_last(), node_ids, edges, o);
    }
}

} // verus!
