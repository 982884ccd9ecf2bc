//! The routing table of the routing bus: which buses exist under which ids,
//! which routes were configured, and which buses a topic is sent to.
use vstd::prelude::*;

use crate::text::{lemma_text_lt_irreflexive, lemma_text_lt_total, lemma_text_lt_transitive, strings_view, text_less, text_lt};
use crate::topic::{match_topic, topic_matches};

verus! {

/// One `[[route]]` entry as configured: its pattern, if it has one, and the
/// ids of the buses it names (one for `bus = "id"`, several for `bus = [..]`).
pub struct RouteConfig {
    pub pattern: Option<String>,
    pub buses: Vec<String>,
}

/// A route: a topic pattern and the positions, in the table's bus list, of the
/// buses that topics matching it go to.
pub struct Route {
    pub pattern: String,
    pub buses: Vec<usize>,
}

/// Buses by id, and routes.
pub struct RoutingTable {
    bus_ids: Vec<String>,
    bus_sources: Vec<usize>,
    routes: Vec<Route>,
}

/// `s` with later repeats of a text dropped, first occurrences kept in order.
pub open spec fn distinct_in_order(s: Seq<Seq<char>>) -> Seq<Seq<char>>
    decreases s.len(),
{
    if s.len() == 0 {
        Seq::<Seq<char>>::empty()
    } else {
        let r = distinct_in_order(s.drop_last());
        if r.contains(s.last()) {
            r
        } else {
            r.push(s.last())
        }
    }
}

/// The last position of `x` in `s`, or -1.
pub open spec fn last_position(s: Seq<Seq<char>>, x: Seq<char>) -> int
    decreases s.len(),
{
    if s.len() == 0 {
        -1
    } else if s.last() == x {
        s.len() - 1
    } else {
        last_position(s.drop_last(), x)
    }
}

/// No text occurs twice in `s`.
pub open spec fn all_distinct(s: Seq<Seq<char>>) -> bool {
    forall|a: int, b: int| 0 <= a < b < s.len() ==> #[trigger] s[a] != #[trigger] s[b]
}

/// The position of `x` in `s` (meaningful when `x` occurs in `s`).
pub open spec fn position_of(s: Seq<Seq<char>>, x: Seq<char>) -> int {
    choose|k: int| 0 <= k < s.len() && s[k] == x
}

/// The positions in `ids` of the names in `names` that are known, in order;
/// unknown names are left out.
pub open spec fn resolve(names: Seq<Seq<char>>, ids: Seq<Seq<char>>) -> Seq<int>
    decreases names.len(),
{
    if names.len() == 0 {
        Seq::<int>::empty()
    } else {
        let r = resolve(names.drop_last(), ids);
        if ids.contains(names.last()) {
            r.push(position_of(ids, names.last()))
        } else {
            r
        }
    }
}

/// A route configuration as plain values.
pub open spec fn config_view(c: RouteConfig) -> (Option<Seq<char>>, Seq<Seq<char>>) {
    (
        match c.pattern {
            Some(p) => Some(p@),
            None => None,
        },
        strings_view(c.buses@),
    )
}

/// The routes made from the configurations: one per configuration that has a
/// pattern, in order, with the known buses it names.
pub open spec fn routes_of(confs: Seq<(Option<Seq<char>>, Seq<Seq<char>>)>, ids: Seq<Seq<char>>) -> Seq<(Seq<char>, Seq<int>)>
    decreases confs.len(),
{
    if confs.len() == 0 {
        Seq::<(Seq<char>, Seq<int>)>::empty()
    } else {
        let r = routes_of(confs.drop_last(), ids);
        match confs.last().0 {
            Some(p) => r.push((p, resolve(confs.last().1, ids))),
            None => r,
        }
    }
}

/// A route as plain values.
pub open spec fn route_view(r: Route) -> (Seq<char>, Seq<int>) {
    (r.pattern@, r.buses@.map_values(|b: usize| b as int))
}

/// The first route whose pattern `topic` matches, if any.
pub open spec fn first_match(routes: Seq<(Seq<char>, Seq<int>)>, topic: Seq<char>) -> Option<int> {
    if exists|i: int| 0 <= i < routes.len() && topic_matches(#[trigger] routes[i].0, topic) {
        Some(choose|i: int| 0 <= i < routes.len() && topic_matches(#[trigger] routes[i].0, topic)
            && forall|j: int| 0 <= j < i ==> !topic_matches(#[trigger] routes[j].0, topic))
    } else {
        None
    }
}

/// A topic goes to the first route it matches and to no later one; it goes
/// nowhere only when it matches no route at all.
pub proof fn law_first_matching_route_wins(routes: Seq<(Seq<char>, Seq<int>)>, topic: Seq<char>)
    ensures
        match first_match(routes, topic) {
            Some(i) => 0 <= i < routes.len() && topic_matches(routes[i].0, topic)
                && forall|j: int| 0 <= j < i ==> !topic_matches(#[trigger] routes[j].0, topic),
            None => forall|j: int| 0 <= j < routes.len() ==> !topic_matches(#[trigger] routes[j].0, topic),
        },
{
    if exists|i: int| 0 <= i < routes.len() && topic_matches(#[trigger] routes[i].0, topic) {
        let w = choose|i: int| 0 <= i < routes.len() && topic_matches(#[trigger] routes[i].0, topic);
        lemma_least_match(routes, topic, w);
    }
}

proof fn lemma_least_match(routes: Seq<(Seq<char>, Seq<int>)>, topic: Seq<char>, w: int)
    requires
        0 <= w < routes.len(),
        topic_matches(routes[w].0, topic),
    ensures
        exists|i: int| 0 <= i < routes.len() && topic_matches(#[trigger] routes[i].0, topic)
            && forall|j: int| 0 <= j < i ==> !topic_matches(#[trigger] routes[j].0, topic),
    decreases w,
{
    if exists|j: int| 0 <= j < w && topic_matches(#[trigger] routes[j].0, topic) {
        let j = choose|j: int| 0 <= j < w && topic_matches(#[trigger] routes[j].0, topic);
        lemma_least_match(routes, topic, j);
    } else {
        assert(0 <= w < routes.len() && topic_matches(routes[w].0, topic)
            && forall|j: int| 0 <= j < w ==> !topic_matches(#[trigger] routes[j].0, topic));
    }
}

/// The buses of a route are exactly the known buses among those it names:
/// each listed position is that of a bus the route names, and every named
/// bus that is known is listed.
pub proof fn law_route_buses_are_the_known_named_ones(names: Seq<Seq<char>>, ids: Seq<Seq<char>>)
    requires
        all_distinct(ids),
    ensures
        forall|k: int| 0 <= k < resolve(names, ids).len() ==> 0 <= #[trigger] resolve(names, ids)[k] < ids.len()
            && names.contains(ids[resolve(names, ids)[k]]),
        forall|n: Seq<char>| names.contains(n) && ids.contains(n) ==> #[trigger] resolve(names, ids).contains(position_of(ids, n)),
    decreases names.len(),
{
    if names.len() > 0 {
        let p = names.drop_last();
        law_route_buses_are_the_known_named_ones(p, ids);
        let r = resolve(p, ids);
        let full = resolve(names, ids);
        assert forall|k: int| 0 <= k < full.len() implies 0 <= #[trigger] full[k] < ids.len()
            && names.contains(ids[full[k]]) by {
            if k < r.len() {
                assert(full[k] == r[k]);
                let m = choose|m: int| 0 <= m < p.len() && p[m] == ids[r[k]];
                assert(names[m] == ids[r[k]]);
            } else {
                assert(names[names.len() - 1] == names.last());
            }
        }
        assert forall|n: Seq<char>| names.contains(n) && ids.contains(n) implies #[trigger] full.contains(position_of(ids, n)) by {
            let m = choose|m: int| 0 <= m < names.len() && names[m] == n;
            if m < names.len() - 1 {
                assert(p[m] == n);
                assert(r.contains(position_of(ids, n)));
                let q = choose|q: int| 0 <= q < r.len() && r[q] == position_of(ids, n);
                assert(full[q] == r[q]);
            } else {
                assert(full[full.len() - 1] == position_of(ids, n));
            }
        }
    }
}

proof fn lemma_distinct_in_order(s: Seq<Seq<char>>)
    ensures
        all_distinct(distinct_in_order(s)),
        forall|x: Seq<char>| distinct_in_order(s).contains(x) <==> s.contains(x),
    decreases s.len(),
{
    if s.len() > 0 {
        let p = s.drop_last();
        lemma_distinct_in_order(p);
        let r = distinct_in_order(p);
        let d = distinct_in_order(s);
        assert forall|x: Seq<char>| d.contains(x) <==> s.contains(x) by {
            if s.contains(x) {
                let k = choose|k: int| 0 <= k < s.len() && s[k] == x;
                if k < s.len() - 1 {
                    assert(p[k] == x);
                    assert(p.contains(x));
                    assert(r.contains(x));
                    let m = choose|m: int| 0 <= m < r.len() && r[m] == x;
                    assert(d[m] == x);
                } else if r.contains(x) {
                    let m = choose|m: int| 0 <= m < r.len() && r[m] == x;
                    assert(d[m] == x);
                } else {
                    assert(d[r.len() as int] == x);
                }
            }
            if d.contains(x) {
                let m = choose|m: int| 0 <= m < d.len() && d[m] == x;
                if m < r.len() {
                    assert(r[m] == x);
                    assert(r.contains(x));
                    assert(p.contains(x));
                    let k = choose|k: int| 0 <= k < p.len() && p[k] == x;
                    assert(s[k] == x);
                } else {
                    assert(s[s.len() - 1] == x);
                }
            }
        }
        if !r.contains(s.last()) {
            assert forall|a: int, b: int| 0 <= a < b < d.len() implies #[trigger] d[a] != #[trigger] d[b] by {
                if b == r.len() {
                    assert(d[a] == r[a]);
                    if r[a] == s.last() {
                        assert(r.contains(s.last()));
                    }
                } else {
                    assert(d[a] == r[a]);
                    assert(d[b] == r[b]);
                }
            }
        }
    }
}

proof fn lemma_position_unique(s: Seq<Seq<char>>, k: int)
    requires
        all_distinct(s),
        0 <= k < s.len(),
    ensures
        position_of(s, s[k]) == k,
{
    let p = position_of(s, s[k]);
    assert(0 <= p < s.len() && s[p] == s[k]);
    if p < k {
        assert(s[p] != s[k]);
    } else if p > k {
        assert(s[k] != s[p]);
    }
}

/// A bus id given more than once is served by the bus given last under it:
/// `last_position` finds a position holding the id, and no later one holds it.
pub proof fn law_repeated_id_is_served_by_last_bus(s: Seq<Seq<char>>, x: Seq<char>)
    ensures
        s.contains(x) ==> 0 <= last_position(s, x) < s.len() && s[last_position(s, x)] == x
            && forall|j: int| last_position(s, x) < j < s.len() ==> #[trigger] s[j] != x,
        !s.contains(x) ==> last_position(s, x) == -1,
    decreases s.len(),
{
    if s.len() > 0 {
        law_repeated_id_is_served_by_last_bus(s.drop_last(), x);
        if s.last() != x {
            if s.contains(x) {
                let k = choose|k: int| 0 <= k < s.len() && s[k] == x;
                assert(s.drop_last()[k] == x);
                assert forall|j: int| last_position(s, x) < j < s.len() implies #[trigger] s[j] != x by {
                    if j < s.len() - 1 {
                        assert(s[j] == s.drop_last()[j]);
                    }
                }
            }
            if s.drop_last().contains(x) {
                let k = choose|k: int| 0 <= k < s.drop_last().len() && s.drop_last()[k] == x;
                assert(s[k] == x);
            }
        } else {
            assert(s[s.len() - 1] == x);
        }
    }
}

fn find_id(ids: &Vec<String>, id: &String) -> (r: Option<usize>)
    ensures
        match r {
            Some(k) => k < ids@.len() && ids@[k as int]@ == id@,
            None => !strings_view(ids@).contains(id@),
        },
{
    let mut k: usize = 0;
    while k < ids.len()
        invariant
            k <= ids@.len(),
            forall|m: int| 0 <= m < k ==> ids@[m]@ != id@,
        decreases ids.len() - k,
    {
        if ids[k] == *id {
            return Some(k);
        }
        k += 1;
    }
    proof {
        if strings_view(ids@).contains(id@) {
            let m = choose|m: int| 0 <= m < strings_view(ids@).len() && strings_view(ids@)[m] == id@;
            assert(ids@[m]@ == id@);
        }
    }
    None
}

/// The position of the text that comes first among the distinct texts of `v`.
fn first_text_index(v: &Vec<String>) -> (m: usize)
    requires
        v@.len() > 0,
        all_distinct(strings_view(v@)),
    ensures
        m < v@.len(),
        forall|k: int| 0 <= k < v@.len() && k != m ==> text_lt(v@[m as int]@, #[trigger] v@[k]@),
{
    let mut m: usize = 0;
    let mut k: usize = 1;
    while k < v.len()
        invariant
            1 <= k <= v@.len(),
            m < k,
            all_distinct(strings_view(v@)),
            forall|j: int| 0 <= j < k && j != m ==> text_lt(v@[m as int]@, #[trigger] v@[j]@),
        decreases v.len() - k,
    {
        assert(strings_view(v@)[k as int] == v@[k as int]@);
        assert(strings_view(v@)[m as int] == v@[m as int]@);
        assert(v@[k as int]@ != v@[m as int]@);
        if text_less(&v[k], &v[m]) {
            proof {
                assert forall|j: int| 0 <= j < k + 1 && j != k implies text_lt(v@[k as int]@, #[trigger] v@[j]@) by {
                    if j != m {
                        lemma_text_lt_transitive(v@[k as int]@, v@[m as int]@, v@[j]@);
                    }
                }
            }
            m = k;
        } else {
            proof {
                lemma_text_lt_total(v@[k as int]@, v@[m as int]@);
            }
        }
        k += 1;
    }
    m
}

/// The ids in the order of their texts, each kept with its source.
fn sort_by_id(ids: Vec<String>, sources: Vec<usize>, Ghost(given): Ghost<Seq<Seq<char>>>) -> (r: (Vec<String>, Vec<usize>))
    requires
        all_distinct(strings_view(ids@)),
        sources@.len() == ids@.len(),
        forall|k: int| 0 <= k < ids@.len() ==> #[trigger] sources@[k] as int == last_position(given, ids@[k]@),
    ensures
        r.1@.len() == r.0@.len(),
        forall|a: int, b: int| 0 <= a < b < r.0@.len() ==> text_lt(#[trigger] r.0@[a]@, #[trigger] r.0@[b]@),
        forall|x: Seq<char>| strings_view(r.0@).contains(x) <==> strings_view(ids@).contains(x),
        forall|k: int| 0 <= k < r.0@.len() ==> #[trigger] r.1@[k] as int == last_position(given, r.0@[k]@),
{
    let ghost all = strings_view(ids@);
    let mut rest_ids = ids;
    let mut rest_src = sources;
    let mut out_ids: Vec<String> = Vec::new();
    let mut out_src: Vec<usize> = Vec::new();
    while rest_ids.len() > 0
        invariant
            rest_src@.len() == rest_ids@.len(),
            out_src@.len() == out_ids@.len(),
            all_distinct(strings_view(rest_ids@)),
            forall|x: Seq<char>| all.contains(x) <==> (strings_view(out_ids@).contains(x) || strings_view(rest_ids@).contains(x)),
            forall|a: int, b: int| 0 <= a < b < out_ids@.len() ==> text_lt(#[trigger] out_ids@[a]@, #[trigger] out_ids@[b]@),
            forall|a: int, b: int| 0 <= a < out_ids@.len() && 0 <= b < rest_ids@.len()
                ==> text_lt(#[trigger] out_ids@[a]@, #[trigger] rest_ids@[b]@),
            forall|k: int| 0 <= k < out_ids@.len() ==> #[trigger] out_src@[k] as int == last_position(given, out_ids@[k]@),
            forall|k: int| 0 <= k < rest_ids@.len() ==> #[trigger] rest_src@[k] as int == last_position(given, rest_ids@[k]@),
        decreases rest_ids@.len(),
    {
        let m = first_text_index(&rest_ids);
        let ghost old_rest = rest_ids@;
        let ghost old_rest_src = rest_src@;
        let ghost old_out = out_ids@;
        let ghost old_out_src = out_src@;
        let id = rest_ids.remove(m);
        let s = rest_src.remove(m);
        out_ids.push(id);
        out_src.push(s);
        proof {
            let e = old_rest[m as int];
            assert(out_ids@[old_out.len() as int] == e);
            assert forall|k: int| 0 <= k < rest_ids@.len() implies #[trigger] rest_ids@[k]
                == old_rest[if k < m { k } else { k + 1 }] && rest_src@[k] == old_rest_src[if k < m { k } else { k + 1 }] by {}
            assert forall|a: int, b: int| 0 <= a < b < strings_view(rest_ids@).len() implies
                #[trigger] strings_view(rest_ids@)[a] != #[trigger] strings_view(rest_ids@)[b] by {
                let a0 = if a < m { a } else { a + 1 };
                let b0 = if b < m { b } else { b + 1 };
                assert(rest_ids@[a] == old_rest[a0]);
                assert(rest_ids@[b] == old_rest[b0]);
                assert(strings_view(old_rest)[a0] != strings_view(old_rest)[b0]);
            }
            assert forall|a: int, b: int| 0 <= a < b < out_ids@.len() implies text_lt(#[trigger] out_ids@[a]@, #[trigger] out_ids@[b]@) by {
                assert(out_ids@[a] == old_out[a]);
                if b < old_out.len() {
                    assert(out_ids@[b] == old_out[b]);
                }
            }
            assert forall|a: int, b: int| 0 <= a < out_ids@.len() && 0 <= b < rest_ids@.len()
                implies text_lt(#[trigger] out_ids@[a]@, #[trigger] rest_ids@[b]@) by {
                let b0 = if b < m { b } else { b + 1 };
                assert(rest_ids@[b] == old_rest[b0]);
                if a < old_out.len() {
                    assert(out_ids@[a] == old_out[a]);
                } else {
                    assert(old_rest[b0]@ == old_rest[b0]@);
                }
            }
            assert forall|k: int| 0 <= k < out_ids@.len() implies #[trigger] out_src@[k] as int == last_position(given, out_ids@[k]@) by {
                if k < old_out.len() {
                    assert(out_ids@[k] == old_out[k]);
                    assert(out_src@[k] == old_out_src[k]);
                }
            }
            assert forall|k: int| 0 <= k < rest_ids@.len() implies #[trigger] rest_src@[k] as int == last_position(given, rest_ids@[k]@) by {
                let k0 = if k < m { k } else { k + 1 };
                assert(rest_ids@[k] == old_rest[k0]);
                assert(rest_src@[k] == old_rest_src[k0]);
            }
            assert forall|x: Seq<char>| all.contains(x) <==> (strings_view(out_ids@).contains(x) || strings_view(rest_ids@).contains(x)) by {
                if strings_view(old_out).contains(x) {
                    let a = choose|a: int| 0 <= a < strings_view(old_out).len() && strings_view(old_out)[a] == x;
                    assert(strings_view(out_ids@)[a] == x);
                }
                if strings_view(old_rest).contains(x) {
                    let b = choose|b: int| 0 <= b < strings_view(old_rest).len() && strings_view(old_rest)[b] == x;
                    if b == m {
                        assert(strings_view(out_ids@)[old_out.len() as int] == x);
                    } else if b < m {
                        assert(strings_view(rest_ids@)[b] == x);
                    } else {
                        assert(strings_view(rest_ids@)[b - 1] == x);
                    }
                }
                if strings_view(out_ids@).contains(x) {
                    let a = choose|a: int| 0 <= a < strings_view(out_ids@).len() && strings_view(out_ids@)[a] == x;
                    if a < old_out.len() {
                        assert(strings_view(old_out)[a] == x);
                    } else {
                        assert(strings_view(old_rest)[m as int] == x);
                    }
                }
                if strings_view(rest_ids@).contains(x) {
                    let b = choose|b: int| 0 <= b < strings_view(rest_ids@).len() && strings_view(rest_ids@)[b] == x;
                    let b0 = if b < m { b } else { b + 1 };
                    assert(strings_view(old_rest)[b0] == x);
                }
            }
        }
    }
    proof {
        assert forall|x: Seq<char>| !strings_view(rest_ids@).contains(x) by {}
    }
    (out_ids, out_src)
}

fn resolve_buses(ids: &Vec<String>, names: &Vec<String>) -> (r: Vec<usize>)
    requires
        all_distinct(strings_view(ids@)),
    ensures
        r@.map_values(|b: usize| b as int) == resolve(strings_view(names@), strings_view(ids@)),
        forall|k: int| 0 <= k < r@.len() ==> #[trigger] r@[k] < ids@.len(),
{
    let ghost iv = strings_view(ids@);
    let ghost nv = strings_view(names@);
    let mut r: Vec<usize> = Vec::new();
    let mut i: usize = 0;
    while i < names.len()
        invariant
            i <= names@.len(),
            iv == strings_view(ids@),
            nv == strings_view(names@),
            all_distinct(iv),
            r@.map_values(|b: usize| b as int) == resolve(nv.take(i as int), iv),
            forall|k: int| 0 <= k < r@.len() ==> #[trigger] r@[k] < ids@.len(),
        decreases names.len() - i,
    {
        assert(nv.take(i + 1).drop_last() =~= nv.take(i as int));
        assert(nv.take(i + 1).last() == names@[i as int]@);
        match find_id(ids, &names[i]) {
            Some(k) => {
                proof {
                    assert(iv[k as int] == names@[i as int]@);
                    lemma_position_unique(iv, k as int);
                }
                r.push(k);
                assert(r@.map_values(|b: usize| b as int) =~= resolve(nv.take(i + 1), iv));
            },
            None => {},
        }
        i += 1;
    }
    assert(nv.take(names.len() as int) =~= nv);
    r
}

impl RoutingTable {
    /// The distinct bus ids, in the order in which std orders strings.
    pub closed spec fn ids(&self) -> Seq<Seq<char>> {
        strings_view(self.bus_ids@)
    }

    /// For each bus id, the position among the given buses of the one that serves it.
    pub closed spec fn sources(&self) -> Seq<int> {
        self.bus_sources@.map_values(|b: usize| b as int)
    }

    /// The routes, in order.
    pub closed spec fn routes_view(&self) -> Seq<(Seq<char>, Seq<int>)> {
        self.routes@.map_values(|r: Route| route_view(r))
    }

    /// Bus ids are distinct and every route names existing buses.
    pub closed spec fn wf(&self) -> bool {
        &&& all_distinct(self.ids())
        &&& self.bus_sources@.len() == self.bus_ids@.len()
        &&& forall|i: int, k: int|
            0 <= i < self.routes@.len() && 0 <= k < self.routes@[i].buses@.len()
                ==> #[trigger] self.routes@[i].buses@[k] < self.bus_ids@.len()
    }

    /// Build the table from the buses' ids (in the order the buses were given)
    /// and the route configurations. The table lists each id once, the ids in the
    /// order of their text; a bus id given twice names the bus given last under it; a route names only the known buses among those it lists; a
    /// configuration without a pattern makes no route.
    pub fn new(bus_ids: &Vec<String>, confs: &Vec<RouteConfig>) -> (t: RoutingTable)
        ensures
            t.wf(),
            forall|x: Seq<char>| t.ids().contains(x) <==> strings_view(bus_ids@).contains(x),
            forall|a: int, b: int| 0 <= a < b < t.ids().len() ==> text_lt(#[trigger] t.ids()[a], #[trigger] t.ids()[b]),
            t.sources().len() == t.ids().len(),
            forall|k: int| 0 <= k < t.ids().len() ==> #[trigger] t.sources()[k]
                == last_position(strings_view(bus_ids@), t.ids()[k]),
            t.routes_view() == routes_of(confs@.map_values(|c: RouteConfig| config_view(c)), t.ids()),
    {
        let ghost given = strings_view(bus_ids@);
        let mut ids: Vec<String> = Vec::new();
        let mut sources: Vec<usize> = Vec::new();
        let mut j: usize = 0;
        while j < bus_ids.len()
            invariant
                j <= bus_ids@.len(),
                given == strings_view(bus_ids@),
                strings_view(ids@) == distinct_in_order(given.take(j as int)),
                sources@.len() == ids@.len(),
                forall|k: int| 0 <= k < ids@.len() ==> #[trigger] sources@[k] as int
                    == last_position(given.take(j as int), ids@[k]@),
            decreases bus_ids.len() - j,
        {
            let ghost prefix = given.take(j as int);
            let ghost next = given.take(j + 1);
            assert(next.drop_last() =~= prefix);
            assert(next.last() == bus_ids@[j as int]@);
            proof {
                lemma_distinct_in_order(prefix);
            }
            match find_id(&ids, &bus_ids[j]) {
                Some(k) => {
                    assert(strings_view(ids@)[k as int] == next.last());
                    assert(strings_view(ids@).contains(next.last()));
                    sources.set(k, j);
                    proof {
                        assert forall|m: int| 0 <= m < ids@.len() implies #[trigger] sources@[m] as int
                            == last_position(next, ids@[m]@) by {
                            if m != k {
                                assert(strings_view(ids@)[m] != strings_view(ids@)[k as int]);
                            }
                        }
                    }
                },
                None => {
                    let ghost before = strings_view(ids@);
                    ids.push(bus_ids[j].clone());
                    sources.push(j);
                    proof {
                        assert(strings_view(ids@) =~= before.push(next.last()));
                        assert forall|m: int| 0 <= m < ids@.len() implies #[trigger] sources@[m] as int
                            == last_position(next, ids@[m]@) by {
                            if m < before.len() {
                                assert(ids@[m]@ == before[m]);
                                assert(before[m] != next.last());
                            }
                        }
                    }
                },
            }
            j += 1;
        }
        assert(given.take(bus_ids.len() as int) =~= given);
        proof {
            lemma_distinct_in_order(given);
        }
        let (ids, sources) = sort_by_id(ids, sources, Ghost(given));
        proof {
            assert forall|a: int, b: int| 0 <= a < b < strings_view(ids@).len() implies
                #[trigger] strings_view(ids@)[a] != #[trigger] strings_view(ids@)[b] by {
                assert(text_lt(ids@[a]@, ids@[b]@));
                lemma_text_lt_irreflexive(ids@[a]@);
            }
        }
        let ghost cv = confs@.map_values(|c: RouteConfig| config_view(c));
        let mut routes: Vec<Route> = Vec::new();
        let mut i: usize = 0;
        while i < confs.len()
            invariant
                i <= confs@.len(),
                cv == confs@.map_values(|c: RouteConfig| config_view(c)),
                all_distinct(strings_view(ids@)),
                routes@.map_values(|r: Route| route_view(r)) == routes_of(cv.take(i as int), strings_view(ids@)),
                forall|a: int, k: int|
                    0 <= a < routes@.len() && 0 <= k < routes@[a].buses@.len()
                        ==> #[trigger] routes@[a].buses@[k] < ids@.len(),
            decreases confs.len() - i,
        {
            assert(cv.take(i + 1).drop_last() =~= cv.take(i as int));
            assert(cv.take(i + 1).last() == config_view(confs@[i as int]));
            let conf = &confs[i];
            match &conf.pattern {
                Some(p) => {
                    let buses = resolve_buses(&ids, &conf.buses);
                    let ghost before = routes@;
                    routes.push(Route { pattern: p.clone(), buses });
                    proof {
                        assert(routes@.map_values(|r: Route| route_view(r)) =~= before.map_values(
                            |r: Route| route_view(r),
                        ).push(route_view(routes@.last())));
                        assert forall|a: int, k: int|
                            0 <= a < routes@.len() && 0 <= k < routes@[a].buses@.len()
                                implies #[trigger] routes@[a].buses@[k] < ids@.len() by {
                            if a < before.len() {
                                assert(routes@[a] == before[a]);
                            }
                        }
                    }
                },
                None => {},
            }
            i += 1;
        }
        assert(cv.take(confs.len() as int) =~= cv);
        let t = RoutingTable { bus_ids: ids, bus_sources: sources, routes };
        assert(t.sources().len() == t.ids().len());
        assert forall|a: int, b: int| 0 <= a < b < t.ids().len() implies text_lt(#[trigger] t.ids()[a], #[trigger] t.ids()[b]) by {
            assert(t.ids()[a] == t.bus_ids@[a]@);
            assert(t.ids()[b] == t.bus_ids@[b]@);
        }
        assert forall|k: int| 0 <= k < t.ids().len() implies #[trigger] t.sources()[k]
                == last_position(strings_view(bus_ids@), t.ids()[k]) by {
            assert(t.ids()[k] == t.bus_ids@[k]@);
        }
        t
    }

    /// The distinct bus ids.
    pub fn bus_ids(&self) -> (r: &Vec<String>)
        ensures
            strings_view(r@) == self.ids(),
    {
        &self.bus_ids
    }

    /// For each bus id, the position among the given buses of the bus that serves it.
    pub fn bus_sources(&self) -> (r: &Vec<usize>)
        ensures
            r@.map_values(|b: usize| b as int) == self.sources(),
    {
        &self.bus_sources
    }

    /// The routes.
    pub fn routes(&self) -> (r: &Vec<Route>)
        ensures
            r@.map_values(|x: Route| route_view(x)) == self.routes_view(),
    {
        &self.routes
    }

    /// The first route whose pattern the topic matches.
    pub fn first_matching_route(&self, topic: &str) -> (r: Option<usize>)
        ensures
            match r {
                Some(i) => first_match(self.routes_view(), topic@) == Some(i as int)
                    && i < self.routes_view().len(),
                None => first_match(self.routes_view(), topic@) is None,
            },
    {
        let ghost rv = self.routes_view();
        let mut i: usize = 0;
        while i < self.routes.len()
            invariant
                i <= self.routes@.len(),
                rv == self.routes_view(),
                forall|j: int| 0 <= j < i ==> !topic_matches(#[trigger] rv[j].0, topic@),
            decreases self.routes.len() - i,
        {
            assert(rv[i as int].0 == self.routes@[i as int].pattern@);
            if match_topic(self.routes[i].pattern.as_str(), topic) {
                proof {
                    assert(0 <= i < rv.len() && topic_matches(rv[i as int].0, topic@));
                    let c = choose|c: int| 0 <= c < rv.len() && topic_matches(#[trigger] rv[c].0, topic@)
                        && forall|j: int| 0 <= j < c ==> !topic_matches(#[trigger] rv[j].0, topic@);
                    if c < i {
                        assert(!topic_matches(rv[c].0, topic@));
                    }
                    if c > i {
                        assert(!topic_matches(rv[i as int].0, topic@));
                    }
                }
                return Some(i);
            }
            i += 1;
        }
        None
    }

    /// The positions of the buses a message on `topic` goes to (and a
    /// subscription to `topic` is made on): those of the first matching route,
    /// none if no route matches.
    pub fn targets(&self, topic: &str) -> (r: Vec<usize>)
        requires
            self.wf(),
        ensures
            r@.map_values(|b: usize| b as int) == (match first_match(self.routes_view(), topic@) {
                Some(i) => self.routes_view()[i].1,
                None => Seq::<int>::empty(),
            }),
            forall|k: int| 0 <= k < r@.len() ==> #[trigger] r@[k] < self.ids().len(),
    {
        let found = self.first_matching_route(topic);
        match found {
            Some(i) => {
                let r = copy_indices(&self.routes[i].buses);
                proof {
                    assert(r@.map_values(|b: usize| b as int) =~= self.routes@[i as int].buses@.map_values(|b: usize| b as int));
                    assert(self.routes_view()[i as int] == route_view(self.routes@[i as int]));
                    assert forall|k: int| 0 <= k < r@.len() implies #[trigger] r@[k] < self.ids().len() by {
                        assert(self.routes@[i as int].buses@[k] < self.bus_ids@.len());
                    }
                }
                r
            },
            None => {
                let r: Vec<usize> = Vec::new();
                assert(r@.map_values(|b: usize| b as int) =~= Seq::<int>::empty());
                r
            },
        }
    }
}

fn copy_indices(src: &Vec<usize>) -> (r: Vec<usize>)
    ensures
        r@ == src@,
{
    let mut r: Vec<usize> = Vec::new();
    let mut k: usize = 0;
    while k < src.len()
        invariant
            k <= src@.len(),
            r@ == src@.take(k as int),
        decreases src.len() - k,
    {
        r.push(src[k]);
        k += 1;
        assert(r@ =~= src@.take(k as int));
    }
    assert(r@ =~= src@);
    r
}

} // verus!
