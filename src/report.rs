//! Joining of log records with geodata, and the counters and map points of
//! a report.

use vstd::prelude::*;

use crate::accesslog::{record_views, AccessLog, RecordView};
use crate::geodata::{GeoCache, GeoView, Point, PointView};
use crate::text::{lemma_text_lt_irreflexive, lemma_text_lt_total, lemma_text_lt_transitive, text_less, text_lt};

verus! {

/// One accepted log line joined with the geodata of its address.
#[derive(Clone, Debug)]
pub struct ReportLine {
    pub date: String,
    pub ip: String,
    pub country: String,
    pub country_code: String,
    pub city: String,
    pub lat_bits: u32,
    pub lon_bits: u32,
}

/// Date, address and geodata of a report line.
pub type RowView = (Seq<char>, Seq<char>, GeoView);

impl View for ReportLine {
    type V = RowView;

    open spec fn view(&self) -> RowView {
        (self.date@, self.ip@, GeoView {
            country: self.country@,
            country_code: self.country_code@,
            city: self.city@,
            lat_bits: self.lat_bits,
            lon_bits: self.lon_bits,
        })
    }
}

pub open spec fn row_views(rows: Seq<ReportLine>) -> Seq<RowView> {
    rows.map_values(|r: ReportLine| r@)
}

/// The records joined with their geodata, in order; a record whose address
/// has no geodata is left out.
pub open spec fn joined(records: Seq<RecordView>, geo: Map<Seq<char>, GeoView>) -> Seq<RowView>
    decreases records.len(),
{
    if records.len() == 0 {
        Seq::empty()
    } else {
        let earlier = joined(records.drop_last(), geo);
        let r = records.last();
        if geo.contains_key(r.1) {
            earlier.push((r.0, r.1, geo[r.1]))
        } else {
            earlier
        }
    }
}

/// Joins each line of the log with the geodata of its address, in order.
/// Lines whose address has no geodata are left out.
pub fn report_lines(log: &AccessLog, geo: &GeoCache) -> (r: Vec<ReportLine>)
    requires
        geo.wf(),
    ensures
        row_views(r@) == joined(record_views(log.lines@), geo@),
{
    let ghost recs = record_views(log.lines@);
    let mut out: Vec<ReportLine> = Vec::new();
    let mut i: usize = 0;
    while i < log.lines.len()
        invariant
            geo.wf(),
            recs == record_views(log.lines@),
            i <= log.lines@.len(),
            row_views(out@) == joined(recs.take(i as int), geo@),
        decreases log.lines@.len() - i,
    {
        proof {
            assert(recs.take(i + 1).drop_last() =~= recs.take(i as int));
        }
        let line = &log.lines[i];
        match geo.get(&line.ip) {
            Some(g) => {
                out.push(ReportLine {
                    date: line.date.clone(),
                    ip: line.ip.clone(),
                    country: g.country.clone(),
                    country_code: g.country_code.clone(),
                    city: g.city.clone(),
                    lat_bits: g.lat_bits,
                    lon_bits: g.lon_bits,
                });
                assert(row_views(out@) =~= joined(recs.take(i as int), geo@).push(out@.last()@));
            },
            None => {},
        }
        i = i + 1;
    }
    assert(recs.take(log.lines@.len() as int) =~= recs);
    out
}

/// Row `j` is the first with city `name`.
pub open spec fn first_with_city(rows: Seq<RowView>, name: Seq<char>, j: int) -> bool {
    &&& 0 <= j < rows.len()
    &&& rows[j].2.city == name
    &&& forall|k: int| 0 <= k < j ==> rows[k].2.city != name
}

/// The point has the name and coordinates of the first row of its city.
pub open spec fn seen_first(rows: Seq<RowView>, p: PointView) -> bool {
    exists|j: int| first_with_city(rows, p.0, j) && p.1 == rows[j].2.lat_bits && p.2 == rows[j].2.lon_bits
}

/// Some point has the name.
pub open spec fn has_point(points: Seq<PointView>, name: Seq<char>) -> bool {
    exists|i: int| 0 <= i < points.len() && points[i].0 == name
}

/// One point per distinct city name, with the coordinates of the first row
/// of that city.
pub open spec fn is_point_set(points: Seq<PointView>, rows: Seq<RowView>) -> bool {
    &&& forall|i: int, j: int| 0 <= i < j < points.len() ==> points[i].0 != points[j].0
    &&& forall|i: int| 0 <= i < points.len() ==> #[trigger] seen_first(rows, points[i])
    &&& forall|j: int| 0 <= j < rows.len() ==> has_point(points, #[trigger] rows[j].2.city)
}

pub open spec fn point_views(points: Seq<Point>) -> Seq<PointView> {
    points.map_values(|p: Point| p@)
}

/// Map points of the rows: one per distinct city name, the first row's
/// coordinates winning.
pub fn city_points(rows: &Vec<ReportLine>) -> (r: Vec<Point>)
    ensures
        is_point_set(point_views(r@), row_views(rows@)),
{
    let ghost all = row_views(rows@);
    let mut points: Vec<Point> = Vec::new();
    let mut i: usize = 0;
    while i < rows.len()
        invariant
            all == row_views(rows@),
            i <= rows@.len(),
            is_point_set(point_views(points@), all.take(i as int)),
        decreases rows@.len() - i,
    {
        let ghost pre = all.take(i as int);
        let ghost next = all.take(i + 1);
        let mut found = false;
        let mut p: usize = 0;
        while p < points.len()
            invariant
                0 <= p <= points@.len(),
                i < rows@.len(),
                !found ==> forall|q: int| 0 <= q < p ==> points@[q].name@ != rows@[i as int].city@,
                found ==> exists|q: int| 0 <= q < points@.len() && points@[q].name@ == rows@[i as int].city@,
            decreases points@.len() - p,
        {
            if points[p].name == rows[i].city {
                found = true;
            }
            p = p + 1;
        }
        proof {
            assert forall|q: int| 0 <= q < i implies #[trigger] next[q] == pre[q] by {}
            assert(next[i as int] == rows@[i as int]@);
        }
        let ghost old_pv = point_views(points@);
        proof {
            assert forall|q: int| 0 <= q < old_pv.len() implies #[trigger] seen_first(next, old_pv[q]) by {
                assert(seen_first(pre, old_pv[q]));
                let j = choose|j: int| first_with_city(pre, old_pv[q].0, j)
                    && old_pv[q].1 == pre[j].2.lat_bits && old_pv[q].2 == pre[j].2.lon_bits;
                assert(first_with_city(next, old_pv[q].0, j));
            }
            assert forall|j: int| 0 <= j < i implies has_point(old_pv, #[trigger] next[j].2.city) by {
                assert(has_point(old_pv, pre[j].2.city));
            }
        }
        if !found {
            points.push(Point { name: rows[i].city.clone(), lat_bits: rows[i].lat_bits, lon_bits: rows[i].lon_bits });
            proof {
                let pv = point_views(points@);
                let newp = (next[i as int].2.city, next[i as int].2.lat_bits, next[i as int].2.lon_bits);
                assert(pv =~= old_pv.push(newp));
                assert forall|k: int| 0 <= k < i implies next[k].2.city != newp.0 by {
                    assert(has_point(old_pv, next[k].2.city));
                }
                assert(first_with_city(next, newp.0, i as int));
                assert(seen_first(next, pv[pv.len() - 1]));
                assert forall|q: int| 0 <= q < pv.len() implies #[trigger] seen_first(next, pv[q]) by {
                    if q < old_pv.len() {
                        assert(pv[q] == old_pv[q]);
                    }
                }
                assert forall|j: int| 0 <= j < next.len() implies has_point(pv, #[trigger] next[j].2.city) by {
                    if j < i {
                        assert(has_point(old_pv, next[j].2.city));
                        let q = choose|q: int| 0 <= q < old_pv.len() && old_pv[q].0 == next[j].2.city;
                        assert(pv[q] == old_pv[q]);
                    } else {
                        assert(pv[old_pv.len() as int].0 == next[j].2.city);
                    }
                }
            }
        } else {
            proof {
                let q = choose|q: int| 0 <= q < points@.len() && points@[q].name@ == rows@[i as int].city@;
                assert(old_pv[q].0 == next[i as int].2.city);
                assert(has_point(old_pv, next[i as int].2.city));
                assert(point_views(points@) == old_pv);
            }
        }
        i = i + 1;
    }
    assert(all.take(rows@.len() as int) =~= all);
    points
}

/// What rows are grouped by.
#[derive(Clone, Copy, Debug, PartialEq, Eq, Structural)]
pub enum Grouping {
    Day,
    Country,
    City,
}

/// The grouping key of a row: its date, country code or city.
pub open spec fn key_of(g: Grouping, row: RowView) -> Seq<char> {
    match g {
        Grouping::Day => row.0,
        Grouping::Country => row.2.country_code,
        Grouping::City => row.2.city,
    }
}

/// Rows with an empty city name take no part in the city grouping.
pub open spec fn counted(g: Grouping, row: RowView) -> bool {
    g != Grouping::City || row.2.city.len() > 0
}

/// Row `i` belongs to the group with key `k`.
pub open spec fn in_group(rows: Seq<RowView>, g: Grouping, k: Seq<char>, i: int) -> bool {
    0 <= i < rows.len() && counted(g, rows[i]) && key_of(g, rows[i]) == k
}

/// The distinct addresses of the group with key `k`.
pub open spec fn group_ips(rows: Seq<RowView>, g: Grouping, k: Seq<char>) -> Set<Seq<char>> {
    Set::new(|ip: Seq<char>| exists|i: int| in_group(rows, g, k, i) && rows[i].1 == ip)
}

/// Some row has key `k`.
pub open spec fn is_group_key(rows: Seq<RowView>, g: Grouping, k: Seq<char>) -> bool {
    exists|i: int| in_group(rows, g, k, i)
}

/// A labelled count of distinct addresses.
#[derive(Clone, Debug)]
pub struct Counter {
    pub name: String,
    pub count: usize,
}

pub type CounterView = (Seq<char>, nat);

impl View for Counter {
    type V = CounterView;

    open spec fn view(&self) -> CounterView {
        (self.name@, self.count as nat)
    }
}

pub open spec fn counter_views(cs: Seq<Counter>) -> Seq<CounterView> {
    cs.map_values(|c: Counter| c@)
}

/// Some counter is labelled `k`.
pub open spec fn has_counter(cs: Seq<CounterView>, k: Seq<char>) -> bool {
    exists|c: int| 0 <= c < cs.len() && cs[c].0 == k
}

/// One counter per group, in ascending order of keys, each with the number
/// of distinct addresses of its group.
pub open spec fn is_listing(cs: Seq<CounterView>, rows: Seq<RowView>, g: Grouping) -> bool {
    &&& forall|a: int, b: int| 0 <= a < b < cs.len() ==> text_lt(cs[a].0, cs[b].0)
    &&& forall|a: int| 0 <= a < cs.len() ==> #[trigger] is_group_key(rows, g, cs[a].0)
        && cs[a].1 == group_ips(rows, g, cs[a].0).len()
    &&& forall|i: int| 0 <= i < rows.len() && counted(g, rows[i]) ==> has_counter(cs, key_of(g, #[trigger] rows[i]))
}

struct Group {
    key: String,
    ips: Vec<String>,
}

spec fn ip_views(ips: Seq<String>) -> Seq<Seq<char>> {
    ips.map_values(|s: String| s@)
}

spec fn has_group(gs: Seq<Group>, k: Seq<char>) -> bool {
    exists|c: int| 0 <= c < gs.len() && gs[c].key@ == k
}

spec fn groups_ok(gs: Seq<Group>, rows: Seq<RowView>, g: Grouping) -> bool {
    &&& forall|a: int, b: int| 0 <= a < b < gs.len() ==> text_lt(gs[a].key@, gs[b].key@)
    &&& forall|a: int| 0 <= a < gs.len() ==> #[trigger] is_group_key(rows, g, gs[a].key@)
        && ip_views(gs[a].ips@).no_duplicates()
        && ip_views(gs[a].ips@).to_set() == group_ips(rows, g, gs[a].key@)
    &&& forall|i: int| 0 <= i < rows.len() && counted(g, rows[i]) ==> has_group(gs, key_of(g, #[trigger] rows[i]))
}

proof fn lemma_group_step(pre: Seq<RowView>, row: RowView, g: Grouping, k: Seq<char>)
    ensures
        group_ips(pre.push(row), g, k) == (if counted(g, row) && key_of(g, row) == k {
            group_ips(pre, g, k).insert(row.1)
        } else {
            group_ips(pre, g, k)
        }),
        is_group_key(pre.push(row), g, k) == (is_group_key(pre, g, k) || (counted(g, row) && key_of(g, row) == k)),
{
    let next = pre.push(row);
    assert forall|i: int| in_group(pre, g, k, i) implies in_group(next, g, k, i) && next[i] == pre[i] by {}
    assert forall|i: int| in_group(next, g, k, i) && i < pre.len() implies in_group(pre, g, k, i) by {
        assert(next[i] == pre[i]);
    }
    if counted(g, row) && key_of(g, row) == k {
        assert(in_group(next, g, k, pre.len() as int));
        assert(group_ips(next, g, k) =~= group_ips(pre, g, k).insert(row.1));
    } else {
        assert(group_ips(next, g, k) =~= group_ips(pre, g, k));
    }
}

fn key_text(row: &ReportLine, g: Grouping) -> (r: &String)
    ensures
        r@ == key_of(g, row@),
{
    match g {
        Grouping::Day => &row.date,
        Grouping::Country => &row.country_code,
        Grouping::City => &row.city,
    }
}

fn contains_text(v: &Vec<String>, s: &String) -> (r: bool)
    ensures
        r == ip_views(v@).contains(s@),
{
    let mut i: usize = 0;
    while i < v.len()
        invariant
            i <= v@.len(),
            forall|j: int| 0 <= j < i ==> v@[j]@ != s@,
        decreases v@.len() - i,
    {
        if v[i] == *s {
            assert(ip_views(v@)[i as int] == s@);
            return true;
        }
        i = i + 1;
    }
    false
}

proof fn lemma_push_to_set(s: Seq<Seq<char>>, x: Seq<char>)
    ensures
        s.push(x).to_set() == s.to_set().insert(x),
{
    assert forall|y: Seq<char>| s.push(x).to_set().contains(y) <==> s.to_set().insert(x).contains(y) by {
        if s.to_set().contains(y) {
            let i = choose|i: int| 0 <= i < s.len() && s[i] == y;
            assert(s.push(x)[i] == y);
        }
        if y == x {
            assert(s.push(x)[s.len() as int] == x);
        }
        if s.push(x).contains(y) {
            let i = choose|i: int| 0 <= i < s.push(x).len() && s.push(x)[i] == y;
            if i < s.len() {
                assert(s[i] == y);
            }
        }
    }
    assert(s.push(x).to_set() =~= s.to_set().insert(x));
}

/// Adds one row to the groups.
fn add_row(gs: &mut Vec<Group>, row: &ReportLine, g: Grouping, Ghost(pre): Ghost<Seq<RowView>>)
    requires
        groups_ok(old(gs)@, pre, g),
        counted(g, row@),
    ensures
        groups_ok(final(gs)@, pre.push(row@), g),
{
    let ghost next = pre.push(row@);
    let k = key_text(row, g);
    let ghost kv = k@;
    let mut p: usize = 0;
    while p < gs.len() && text_less(&gs[p].key, k)
        invariant
            p <= gs@.len(),
            kv == k@,
            forall|q: int| 0 <= q < p ==> text_lt(#[trigger] gs@[q].key@, kv),
        decreases gs@.len() - p,
    {
        p = p + 1;
    }
    proof {
        assert(in_group(next, g, kv, pre.len() as int));
        assert forall|i: int| 0 <= i < pre.len() implies #[trigger] next[i] == pre[i] by {}
    }
    if p < gs.len() && gs[p].key == *k {
        let mut grp = gs.remove(p);
        let ghost before = grp;
        if !contains_text(&grp.ips, &row.ip) {
            grp.ips.push(row.ip.clone());
            proof {
                assert(ip_views(grp.ips@) =~= ip_views(before.ips@).push(row@.1));
                lemma_push_to_set(ip_views(before.ips@), row@.1);
            }
        } else {
            proof {
                assert(ip_views(grp.ips@).to_set() =~= ip_views(before.ips@).to_set().insert(row@.1));
            }
        }
        gs.insert(p, grp);
        proof {
            let o = old(gs)@;
            assert(gs@ =~= o.update(p as int, grp));
            assert forall|a: int| 0 <= a < gs@.len() implies #[trigger] is_group_key(next, g, gs@[a].key@)
                && ip_views(gs@[a].ips@).no_duplicates()
                && ip_views(gs@[a].ips@).to_set() == group_ips(next, g, gs@[a].key@) by {
                lemma_group_step(pre, row@, g, gs@[a].key@);
                assert(is_group_key(pre, g, o[a].key@));
                if a != p {
                    assert(o[a].key@ != kv) by {
                        if a < p {
                            assert(text_lt(o[a].key@, o[p as int].key@));
                        } else {
                            assert(text_lt(o[p as int].key@, o[a].key@));
                        }
                        lemma_text_lt_irreflexive(kv);
                    }
                }
            }
            assert forall|i: int| 0 <= i < next.len() && counted(g, next[i]) implies has_group(gs@, key_of(g, #[trigger] next[i])) by {
                if i < pre.len() {
                    assert(has_group(o, key_of(g, pre[i])));
                    let c = choose|c: int| 0 <= c < o.len() && o[c].key@ == key_of(g, pre[i]);
                    assert(gs@[c].key@ == o[c].key@);
                } else {
                    assert(gs@[p as int].key@ == key_of(g, next[i]));
                }
            }
        }
    } else {
        let ghost o = gs@;
        let mut ips: Vec<String> = Vec::new();
        ips.push(row.ip.clone());
        let grp = Group { key: k.clone(), ips };
        proof {
            assert(ip_views(grp.ips@) =~= seq![row@.1]);
            lemma_push_to_set(Seq::empty(), row@.1);
            assert(Seq::<Seq<char>>::empty().to_set() =~= Set::empty());
            assert(Seq::<Seq<char>>::empty().push(row@.1) =~= seq![row@.1]);
            if p < o.len() {
                lemma_text_lt_total(o[p as int].key@, kv);
            }
        }
        gs.insert(p, grp);
        proof {
            assert(gs@ =~= o.insert(p as int, grp));
            assert forall|a: int, b: int| 0 <= a < b < gs@.len() implies text_lt(gs@[a].key@, gs@[b].key@) by {
                if b == p {
                    assert(text_lt(o[a].key@, kv));
                } else if a == p {
                    assert(text_lt(kv, o[p as int].key@));
                    if b - 1 > p {
                        assert(text_lt(o[p as int].key@, o[b - 1].key@));
                        lemma_text_lt_transitive(kv, o[p as int].key@, o[b - 1].key@);
                    }
                } else if a < p && b > p {
                    assert(text_lt(o[a].key@, o[b - 1].key@));
                } else if a > p {
                    assert(text_lt(o[a - 1].key@, o[b - 1].key@));
                }
            }
            assert forall|a: int| 0 <= a < gs@.len() implies #[trigger] is_group_key(next, g, gs@[a].key@)
                && ip_views(gs@[a].ips@).no_duplicates()
                && ip_views(gs@[a].ips@).to_set() == group_ips(next, g, gs@[a].key@) by {
                lemma_group_step(pre, row@, g, gs@[a].key@);
                if a == p {
                    assert(!is_group_key(pre, g, kv)) by {
                        if is_group_key(pre, g, kv) {
                            let i = choose|i: int| in_group(pre, g, kv, i);
                            assert(has_group(o, key_of(g, pre[i])));
                            let c = choose|c: int| 0 <= c < o.len() && o[c].key@ == kv;
                            if c < p {
                                lemma_text_lt_irreflexive(kv);
                            } else {
                                if c > p {
                                    assert(text_lt(o[p as int].key@, o[c].key@));
                                    lemma_text_lt_transitive(kv, o[p as int].key@, o[c].key@);
                                }
                                lemma_text_lt_irreflexive(kv);
                            }
                        }
                    }
                    assert(group_ips(pre, g, kv) =~= Set::empty()) by {
                        assert forall|ip: Seq<char>| !group_ips(pre, g, kv).contains(ip) by {}
                    }
                } else {
                    let c = if a < p { a } else { a - 1 };
                    assert(gs@[a] == o[c]);
                    assert(is_group_key(pre, g, o[c].key@));
                    assert(o[c].key@ != kv) by {
                        if c < p {
                            lemma_text_lt_irreflexive(kv);
                        } else {
                            if c > p {
                                assert(text_lt(o[p as int].key@, o[c].key@));
                                lemma_text_lt_transitive(kv, o[p as int].key@, o[c].key@);
                            }
                            lemma_text_lt_irreflexive(kv);
                        }
                    }
                }
            }
            assert forall|i: int| 0 <= i < next.len() && counted(g, next[i]) implies has_group(gs@, key_of(g, #[trigger] next[i])) by {
                if i < pre.len() {
                    assert(has_group(o, key_of(g, pre[i])));
                    let c = choose|c: int| 0 <= c < o.len() && o[c].key@ == key_of(g, pre[i]);
                    if c < p {
                        assert(gs@[c] == o[c]);
                    } else {
                        assert(gs@[c + 1] == o[c]);
                    }
                } else {
                    assert(gs@[p as int].key@ == key_of(g, next[i]));
                }
            }
        }
    }
}

/// Counts the distinct addresses of each group, in ascending order of keys.
/// In the city grouping, rows with an empty city name are left out.
pub fn counters(rows: &Vec<ReportLine>, g: Grouping) -> (r: Vec<Counter>)
    ensures
        is_listing(counter_views(r@), row_views(rows@), g),
{
    let ghost all = row_views(rows@);
    let mut gs: Vec<Group> = Vec::new();
    let mut i: usize = 0;
    while i < rows.len()
        invariant
            all == row_views(rows@),
            i <= rows@.len(),
            groups_ok(gs@, all.take(i as int), g),
        decreases rows@.len() - i,
    {
        let ghost pre = all.take(i as int);
        proof {
            assert(all.take(i + 1) =~= pre.push(rows@[i as int]@));
        }
        let skip = match g {
            Grouping::City => rows[i].city.as_str().is_empty(),
            _ => false,
        };
        if !skip {
            add_row(&mut gs, &rows[i], g, Ghost(pre));
        } else {
            proof {
                let next = all.take(i + 1);
                assert forall|k: Seq<char>| group_ips(next, g, k) == group_ips(pre, g, k)
                    && is_group_key(next, g, k) == is_group_key(pre, g, k) by {
                    lemma_group_step(pre, rows@[i as int]@, g, k);
                }
                assert forall|j: int| 0 <= j < next.len() && counted(g, next[j]) implies has_group(gs@, key_of(g, #[trigger] next[j])) by {
                    assert(next[j] == pre[j]);
                }
            }
        }
        i = i + 1;
    }
    assert(all.take(rows@.len() as int) =~= all);
    let mut out: Vec<Counter> = Vec::new();
    let mut c: usize = 0;
    while c < gs.len()
        invariant
            c <= gs@.len(),
            groups_ok(gs@, all, g),
            out@.len() == c,
            forall|a: int| 0 <= a < c ==> out@[a]@ == (gs@[a].key@, group_ips(all, g, gs@[a].key@).len()),
        decreases gs@.len() - c,
    {
        proof {
            assert(is_group_key(all, g, gs@[c as int].key@));
            ip_views(gs@[c as int].ips@).unique_seq_to_set();
        }
        out.push(Counter { name: gs[c].key.clone(), count: gs[c].ips.len() });
        c = c + 1;
    }
    proof {
        let cv = counter_views(out@);
        assert forall|a: int| 0 <= a < cv.len() implies cv[a] == (gs@[a].key@, group_ips(all, g, gs@[a].key@).len()) by {
            assert(cv[a] == out@[a]@);
        }
        assert forall|i: int| 0 <= i < all.len() && counted(g, all[i]) implies has_counter(cv, key_of(g, #[trigger] all[i])) by {
            assert(has_group(gs@, key_of(g, all[i])));
            let a = choose|a: int| 0 <= a < gs@.len() && gs@[a].key@ == key_of(g, all[i]);
            assert(cv[a].0 == key_of(g, all[i]));
        }
        assert forall|a: int| 0 <= a < cv.len() implies #[trigger] is_group_key(all, g, cv[a].0)
            && cv[a].1 == group_ips(all, g, cv[a].0).len() by {
            assert(is_group_key(all, g, gs@[a].key@));
        }
    }
    out
}

/// `a` ranks before `b`: a higher count, or an equal count and a name that
/// comes first.
pub open spec fn ranks_before(a: CounterView, b: CounterView) -> bool {
    a.1 > b.1 || (a.1 == b.1 && text_lt(a.0, b.0))
}

/// `top` holds the `limit` best-ranked counters of `all` (all of them if
/// there are fewer), best first.
pub open spec fn is_top(top: Seq<CounterView>, all: Seq<CounterView>, limit: nat) -> bool {
    &&& top.len() <= limit
    &&& forall|a: int, b: int| 0 <= a < b < top.len() ==> ranks_before(top[a], top[b])
    &&& forall|a: int| 0 <= a < top.len() ==> all.contains(#[trigger] top[a])
    &&& forall|c: int| 0 <= c < all.len() ==> top.contains(#[trigger] all[c])
        || (top.len() == limit && forall|a: int| 0 <= a < top.len() ==> ranks_before(top[a], all[c]))
}

/// No two counters share a name.
pub open spec fn names_distinct(cs: Seq<CounterView>) -> bool {
    forall|a: int, b: int| 0 <= a < cs.len() && 0 <= b < cs.len() && a != b ==> cs[a].0 != cs[b].0
}

proof fn lemma_ranks_transitive(a: CounterView, b: CounterView, c: CounterView)
    requires
        ranks_before(a, b),
        ranks_before(b, c),
    ensures
        ranks_before(a, c),
{
    if a.1 == b.1 && b.1 == c.1 {
        lemma_text_lt_transitive(a.0, b.0, c.0);
    }
}

proof fn lemma_ranks_total(a: CounterView, b: CounterView)
    requires
        a.0 != b.0,
    ensures
        ranks_before(a, b) || ranks_before(b, a),
{
    lemma_text_lt_total(a.0, b.0);
}

/// The `limit` best-ranked counters, best first: higher counts first, equal
/// counts by name.
pub fn top_counters(cs: &Vec<Counter>, limit: usize) -> (r: Vec<Counter>)
    requires
        names_distinct(counter_views(cs@)),
    ensures
        is_top(counter_views(r@), counter_views(cs@), limit as nat),
{
    let ghost all = counter_views(cs@);
    let mut sorted: Vec<Counter> = Vec::new();
    let mut i: usize = 0;
    while i < cs.len()
        invariant
            all == counter_views(cs@),
            names_distinct(all),
            i <= cs@.len(),
            forall|a: int, b: int| 0 <= a < b < sorted@.len() ==> ranks_before(#[trigger] sorted@[a]@, #[trigger] sorted@[b]@),
            counter_views(sorted@).to_set() == all.take(i as int).to_set(),
            sorted@.len() == i,
        decreases cs@.len() - i,
    {
        let ghost sv = counter_views(sorted@);
        let ghost cv = all[i as int];
        let ghost old_sorted = sorted@;
        proof {
            assert forall|q: int| 0 <= q < sv.len() implies #[trigger] sv[q].0 != cv.0 by {
                assert(all.take(i as int).to_set().contains(sv[q])) by {
                    assert(sv.contains(sv[q]));
                }
                let j = choose|j: int| 0 <= j < i && all.take(i as int)[j] == sv[q];
                assert(all[j].0 != all[i as int].0);
            }
        }
        let mut p: usize = 0;
        while p < sorted.len() && !(cs[i].count > sorted[p].count || (cs[i].count == sorted[p].count && text_less(&cs[i].name, &sorted[p].name)))
            invariant
                i < cs@.len(),
                cv == cs@[i as int]@,
                sorted@ == old_sorted,
                sv == counter_views(sorted@),
                p <= sorted@.len(),
                forall|q: int| 0 <= q < sv.len() ==> #[trigger] sv[q].0 != cv.0,
                forall|q: int| 0 <= q < p ==> ranks_before(#[trigger] sorted@[q]@, cv),
            decreases sorted@.len() - p,
        {
            proof {
                assert(sv[p as int] == sorted@[p as int]@);
                lemma_ranks_total(sorted@[p as int]@, cv);
            }
            p = p + 1;
        }
        let item = Counter { name: cs[i].name.clone(), count: cs[i].count };
        sorted.insert(p, item);
        proof {
            assert(item@ == cv);
            assert(sorted@ =~= old_sorted.insert(p as int, item));
            assert forall|a: int, b: int| 0 <= a < b < sorted@.len() implies ranks_before(#[trigger] sorted@[a]@, #[trigger] sorted@[b]@) by {
                if b == p {
                } else if a == p {
                    assert(ranks_before(cv, old_sorted[p as int]@));
                    if b - 1 > p {
                        lemma_ranks_transitive(cv, old_sorted[p as int]@, old_sorted[b - 1]@);
                    }
                } else if a < p && b > p {
                    assert(sorted@[a] == old_sorted[a]);
                    assert(sorted@[b] == old_sorted[b - 1]);
                } else if a > p {
                    assert(sorted@[a] == old_sorted[a - 1]);
                    assert(sorted@[b] == old_sorted[b - 1]);
                } else {
                    assert(sorted@[a] == old_sorted[a]);
                    assert(sorted@[b] == old_sorted[b]);
                }
            }
            assert(counter_views(sorted@) =~= sv.insert(p as int, cv));
            assert(all.take(i + 1) =~= all.take(i as int).push(cv));
            assert forall|x: CounterView| counter_views(sorted@).to_set().contains(x) <==> all.take(i + 1).to_set().contains(x) by {
                let nv = counter_views(sorted@);
                if nv.contains(x) {
                    let j = choose|j: int| 0 <= j < nv.len() && nv[j] == x;
                    if j < p {
                        assert(sv[j] == x);
                        assert(sv.to_set().contains(x));
                    } else if j > p {
                        assert(sv[j - 1] == x);
                        assert(sv.to_set().contains(x));
                    }
                    lemma_push_to_counters(all.take(i as int), cv, x);
                }
                if all.take(i + 1).to_set().contains(x) {
                    lemma_push_to_counters(all.take(i as int), cv, x);
                    if x == cv {
                        assert(nv[p as int] == x);
                    } else {
                        assert(sv.to_set().contains(x));
                        let j = choose|j: int| 0 <= j < sv.len() && sv[j] == x;
                        if j < p {
                            assert(nv[j] == x);
                        } else {
                            assert(nv[j + 1] == x);
                        }
                    }
                }
            }
            assert(counter_views(sorted@).to_set() =~= all.take(i + 1).to_set());
        }
        i = i + 1;
    }
    let ghost full = sorted@;
    proof {
        assert(all.take(cs@.len() as int) =~= all);
    }
    if limit < sorted.len() {
        sorted.truncate(limit);
    }
    proof {
        let fv = counter_views(full);
        let tv = counter_views(sorted@);
        assert forall|a: int| 0 <= a < tv.len() implies #[trigger] tv[a] == fv[a] by {}
        assert forall|a: int, b: int| 0 <= a < b < tv.len() implies ranks_before(tv[a], tv[b]) by {
            assert(ranks_before(full[a]@, full[b]@));
        }
        assert forall|a: int| 0 <= a < tv.len() implies all.contains(#[trigger] tv[a]) by {
            assert(fv.contains(fv[a]));
            assert(fv.to_set().contains(fv[a]));
        }
        assert forall|c: int| 0 <= c < all.len() implies tv.contains(#[trigger] all[c])
            || (tv.len() == limit && forall|a: int| 0 <= a < tv.len() ==> ranks_before(tv[a], all[c])) by {
            assert(all.to_set().contains(all[c]));
            let t = choose|t: int| 0 <= t < fv.len() && fv[t] == all[c];
            if t < tv.len() {
                assert(tv[t] == all[c]);
            } else {
                assert forall|a: int| 0 <= a < tv.len() implies ranks_before(tv[a], all[c]) by {
                    assert(ranks_before(full[a]@, full[t]@));
                }
            }
        }
    }
    sorted
}

/// The number of distinct addresses seen in city `k`.
pub open spec fn city_count(rows: Seq<RowView>, k: Seq<char>) -> nat {
    group_ips(rows, Grouping::City, k).len()
}

/// `top` holds the `limit` cities with most distinct addresses (all of them
/// if there are fewer), most first, equal counts by name; cities with an
/// empty name are left out.
pub open spec fn is_top_cities(top: Seq<CounterView>, rows: Seq<RowView>, limit: nat) -> bool {
    &&& top.len() <= limit
    &&& forall|a: int, b: int| 0 <= a < b < top.len() ==> ranks_before(top[a], top[b])
    &&& forall|a: int| 0 <= a < top.len() ==> #[trigger] is_group_key(rows, Grouping::City, top[a].0)
        && top[a].1 == city_count(rows, top[a].0)
    &&& forall|i: int| 0 <= i < rows.len() && rows[i].2.city.len() > 0 ==> has_counter(top, #[trigger] rows[i].2.city)
        || (top.len() == limit && forall|a: int| 0 <= a < top.len()
            ==> ranks_before(top[a], (rows[i].2.city, city_count(rows, rows[i].2.city))))
}

proof fn lemma_top_of_listing(top: Seq<CounterView>, all: Seq<CounterView>, rows: Seq<RowView>, limit: nat)
    requires
        is_listing(all, rows, Grouping::City),
        is_top(top, all, limit),
    ensures
        is_top_cities(top, rows, limit),
{
    assert forall|a: int| 0 <= a < top.len() implies #[trigger] is_group_key(rows, Grouping::City, top[a].0)
        && top[a].1 == city_count(rows, top[a].0) by {
        assert(all.contains(top[a]));
        let c = choose|c: int| 0 <= c < all.len() && all[c] == top[a];
        assert(is_group_key(rows, Grouping::City, all[c].0));
    }
    assert forall|i: int| 0 <= i < rows.len() && rows[i].2.city.len() > 0 implies has_counter(top, #[trigger] rows[i].2.city)
        || (top.len() == limit && forall|a: int| 0 <= a < top.len()
            ==> ranks_before(top[a], (rows[i].2.city, city_count(rows, rows[i].2.city)))) by {
        assert(counted(Grouping::City, rows[i]));
        assert(has_counter(all, key_of(Grouping::City, rows[i])));
        let c = choose|c: int| 0 <= c < all.len() && all[c].0 == rows[i].2.city;
        assert(is_group_key(rows, Grouping::City, all[c].0));
        if top.contains(all[c]) {
            let a = choose|a: int| 0 <= a < top.len() && top[a] == all[c];
            assert(top[a].0 == rows[i].2.city);
        }
    }
}

/// The city counters hold no bucket for an empty city name.
pub proof fn lemma_no_empty_city(top: Seq<CounterView>, rows: Seq<RowView>, limit: nat)
    requires
        is_top_cities(top, rows, limit),
    ensures
        forall|a: int| 0 <= a < top.len() ==> top[a].0.len() > 0,
{
    assert forall|a: int| 0 <= a < top.len() implies top[a].0.len() > 0 by {
        assert(is_group_key(rows, Grouping::City, top[a].0));
    }
}

/// A city left out of the counters has no more distinct addresses than any
/// city listed, and is left out only when the list is full.
pub proof fn lemma_left_out_city(top: Seq<CounterView>, rows: Seq<RowView>, limit: nat, i: int)
    requires
        is_top_cities(top, rows, limit),
        0 <= i < rows.len(),
        rows[i].2.city.len() > 0,
        !has_counter(top, rows[i].2.city),
    ensures
        top.len() == limit,
        forall|a: int| 0 <= a < top.len() ==> top[a].1 >= city_count(rows, rows[i].2.city),
{
}

/// With at least `limit` distinct non-empty cities among the rows, the city
/// counters hold exactly `limit` entries, in descending order of counts.
pub proof fn lemma_top_full(top: Seq<CounterView>, rows: Seq<RowView>, limit: nat, cities: Seq<Seq<char>>)
    requires
        is_top_cities(top, rows, limit),
        cities.no_duplicates(),
        cities.len() >= limit,
        forall|c: int| 0 <= c < cities.len() ==> exists|i: int| 0 <= i < rows.len()
            && rows[i].2.city == #[trigger] cities[c] && cities[c].len() > 0,
    ensures
        top.len() == limit,
        forall|a: int, b: int| 0 <= a < b < top.len() ==> top[a].1 >= top[b].1,
{
    if top.len() < limit {
        let names = top.map_values(|x: CounterView| x.0);
        assert forall|k: Seq<char>| cities.to_set().contains(k) implies names.to_set().contains(k) by {
            let c = choose|c: int| 0 <= c < cities.len() && cities[c] == k;
            let i = choose|i: int| 0 <= i < rows.len() && rows[i].2.city == cities[c] && cities[c].len() > 0;
            assert(has_counter(top, rows[i].2.city));
            let a = choose|a: int| 0 <= a < top.len() && top[a].0 == rows[i].2.city;
            assert(names[a] == k);
        }
        cities.unique_seq_to_set();
        names.lemma_cardinality_of_set();
        vstd::set_lib::lemma_len_subset(cities.to_set(), names.to_set());
        assert(false);
    }
    assert forall|a: int, b: int| 0 <= a < b < top.len() implies top[a].1 >= top[b].1 by {
        assert(ranks_before(top[a], top[b]));
    }
}

/// How many cities a report lists.
pub const TOP_CITIES: usize = 8;

/// Report data: distinct visitors by day, by country code and by city (the
/// `TOP_CITIES` largest), and one map point per city.
pub struct Summary {
    pub days: Vec<Counter>,
    pub countries: Vec<Counter>,
    pub cities: Vec<Counter>,
    pub points: Vec<Point>,
}

/// Joins the log with the geodata (lines without geodata are left out) and
/// counts distinct addresses per day, country code and city.
pub fn summarize(log: &AccessLog, geo: &GeoCache) -> (r: Summary)
    requires
        geo.wf(),
    ensures
        ({
            let rows = joined(record_views(log.lines@), geo@);
            &&& is_listing(counter_views(r.days@), rows, Grouping::Day)
            &&& is_listing(counter_views(r.countries@), rows, Grouping::Country)
            &&& is_top_cities(counter_views(r.cities@), rows, TOP_CITIES as nat)
            &&& is_point_set(point_views(r.points@), rows)
        }),
{
    let rows = report_lines(log, geo);
    let days = counters(&rows, Grouping::Day);
    let countries = counters(&rows, Grouping::Country);
    let all_cities = counters(&rows, Grouping::City);
    proof {
        let av = counter_views(all_cities@);
        assert forall|a: int, b: int| 0 <= a < av.len() && 0 <= b < av.len() && a != b implies av[a].0 != av[b].0 by {
            lemma_text_lt_irreflexive(av[a].0);
        }
    }
    let cities = top_counters(&all_cities, TOP_CITIES);
    proof {
        lemma_top_of_listing(counter_views(cities@), counter_views(all_cities@), row_views(rows@), TOP_CITIES as nat);
    }
    let points = city_points(&rows);
    Summary { days, countries, cities, points }
}

proof fn lemma_push_to_counters(s: Seq<CounterView>, x: CounterView, y: CounterView)
    ensures
        s.push(x).to_set().contains(y) <==> (s.to_set().contains(y) || y == x),
{
    if s.to_set().contains(y) {
        let i = choose|i: int| 0 <= i < s.len() && s[i] == y;
        assert(s.push(x)[i] == y);
    }
    if y == x {
        assert(s.push(x)[s.len() as int] == x);
    }
    if s.push(x).contains(y) {
        let i = choose|i: int| 0 <= i < s.push(x).len() && s.push(x)[i] == y;
        if i < s.len() {
            assert(s[i] == y);
        }
    }
}

} // verus!
