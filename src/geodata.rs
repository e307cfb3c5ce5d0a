//! Geodata of client addresses, the persistent cache that holds it, and the
//! decisions of a resolution run over that cache.

use vstd::prelude::*;

verus! {

/// Geographic attributes of one address. Coordinates are carried as the
/// IEEE-754 bits of their `f32` values: the library never computes with them.
#[derive(Clone, Debug)]
pub struct GeoData {
    pub country: String,
    pub country_code: String,
    pub city: String,
    pub lat_bits: u32,
    pub lon_bits: u32,
}

/// `GeoData` as plain values.
pub struct GeoView {
    pub country: Seq<char>,
    pub country_code: Seq<char>,
    pub city: Seq<char>,
    pub lat_bits: u32,
    pub lon_bits: u32,
}

impl View for GeoData {
    type V = GeoView;

    open spec fn view(&self) -> GeoView {
        GeoView {
            country: self.country@,
            country_code: self.country_code@,
            city: self.city@,
            lat_bits: self.lat_bits,
            lon_bits: self.lon_bits,
        }
    }
}

impl GeoData {
    /// Whether two geodata name the same place: the same country and city,
    /// whatever their coordinates.
    pub fn same_place(&self, other: &GeoData) -> (r: bool)
        ensures
            r == (self.country@ == other.country@ && self.city@ == other.city@),
    {
        self.country == other.country && self.city == other.city
    }

    /// A copy with the same fields.
    pub fn duplicate(&self) -> (r: GeoData)
        ensures
            r@ == self@,
    {
        GeoData {
            country: self.country.clone(),
            country_code: self.country_code.clone(),
            city: self.city.clone(),
            lat_bits: self.lat_bits,
            lon_bits: self.lon_bits,
        }
    }
}

/// Named point on a map, one per city.
#[derive(Clone, Debug)]
pub struct Point {
    pub name: String,
    pub lat_bits: u32,
    pub lon_bits: u32,
}

/// `Point` as plain values.
pub type PointView = (Seq<char>, u32, u32);

impl View for Point {
    type V = PointView;

    open spec fn view(&self) -> PointView {
        (self.name@, self.lat_bits, self.lon_bits)
    }
}

/// The mapping that a list of entries describes, later entries first.
pub open spec fn entries_map(entries: Seq<(String, GeoData)>) -> Map<Seq<char>, GeoView>
    decreases entries.len(),
{
    if entries.len() == 0 {
        Map::empty()
    } else {
        entries_map(entries.drop_last()).insert(entries.last().0@, entries.last().1@)
    }
}

/// No address occurs twice among the entries.
pub open spec fn unique_keys(entries: Seq<(String, GeoData)>) -> bool {
    forall|i: int, j: int| 0 <= i < j < entries.len() ==> entries[i].0@ != entries[j].0@
}

proof fn lemma_entries_map(entries: Seq<(String, GeoData)>)
    requires
        unique_keys(entries),
    ensures
        forall|k: Seq<char>| entries_map(entries).contains_key(k) <==> exists|i: int| 0 <= i < entries.len() && entries[i].0@ == k,
        forall|i: int| 0 <= i < entries.len() ==> entries_map(entries)[#[trigger] entries[i].0@] == entries[i].1@,
    decreases entries.len(),
{
    if entries.len() > 0 {
        let rest = entries.drop_last();
        lemma_entries_map(rest);
        assert forall|k: Seq<char>| entries_map(entries).contains_key(k) implies exists|i: int| 0 <= i < entries.len() && entries[i].0@ == k by {
            if k == entries.last().0@ {
                assert(entries[entries.len() - 1].0@ == k);
            } else {
                assert(entries_map(rest).contains_key(k));
                let i = choose|i: int| 0 <= i < rest.len() && rest[i].0@ == k;
                assert(rest[i] == entries[i]);
                assert(entries[i].0@ == k);
            }
        }
        assert forall|k: Seq<char>| (exists|i: int| 0 <= i < entries.len() && entries[i].0@ == k) implies entries_map(entries).contains_key(k) by {
            let i = choose|i: int| 0 <= i < entries.len() && entries[i].0@ == k;
            if i < entries.len() - 1 {
                assert(rest[i].0@ == k);
            }
        }
        assert forall|i: int| 0 <= i < entries.len() implies entries_map(entries)[#[trigger] entries[i].0@] == entries[i].1@ by {
            if i < entries.len() - 1 {
                assert(rest[i] == entries[i]);
            }
        }
    }
}

proof fn lemma_entries_map_update(entries: Seq<(String, GeoData)>, i: int, e: (String, GeoData))
    requires
        unique_keys(entries),
        0 <= i < entries.len(),
        entries[i].0@ == e.0@,
    ensures
        entries_map(entries.update(i, e)) == entries_map(entries).insert(e.0@, e.1@),
        unique_keys(entries.update(i, e)),
{
    let u = entries.update(i, e);
    assert(unique_keys(u));
    lemma_entries_map(entries);
    lemma_entries_map(u);
    assert forall|k: Seq<char>| entries_map(u).contains_key(k) <==> entries_map(entries).insert(e.0@, e.1@).contains_key(k) by {
        if entries_map(entries).contains_key(k) {
            let j = choose|j: int| 0 <= j < entries.len() && entries[j].0@ == k;
            assert(u[j].0@ == k);
        }
        if entries_map(u).contains_key(k) {
            let j = choose|j: int| 0 <= j < u.len() && u[j].0@ == k;
            if j != i {
                assert(entries[j].0@ == k);
            }
        }
    }
    assert forall|k: Seq<char>| entries_map(u).contains_key(k) implies entries_map(u)[k] == entries_map(entries).insert(e.0@, e.1@)[k] by {
        let j = choose|j: int| 0 <= j < u.len() && u[j].0@ == k;
        assert(entries_map(u)[u[j].0@] == u[j].1@);
        if j != i {
            assert(entries_map(entries)[entries[j].0@] == entries[j].1@);
        }
    }
    assert(entries_map(u) =~= entries_map(entries).insert(e.0@, e.1@));
}

/// Mapping from address to geodata, persisted between runs. One entry per
/// address; a later write replaces an earlier one.
#[derive(Clone, Debug)]
pub struct GeoCache {
    entries: Vec<(String, GeoData)>,
}

impl View for GeoCache {
    type V = Map<Seq<char>, GeoView>;

    closed spec fn view(&self) -> Map<Seq<char>, GeoView> {
        entries_map(self.entries@)
    }
}

impl GeoCache {
    /// Each address has one entry.
    pub closed spec fn wf(&self) -> bool {
        unique_keys(self.entries@)
    }

    /// The entries as they are written to storage.
    pub closed spec fn stored_entries(&self) -> Seq<(String, GeoData)> {
        self.entries@
    }

    /// An empty cache, as when no cache file exists yet.
    pub fn new() -> (r: GeoCache)
        ensures
            r.wf(),
            r@ == Map::<Seq<char>, GeoView>::empty(),
    {
        GeoCache { entries: Vec::new() }
    }

    /// Position of the entry for `ip`.
    fn find(&self, ip: &String) -> (r: Option<usize>)
        requires
            self.wf(),
        ensures
            r matches Some(i) ==> i < self.entries@.len() && self.entries@[i as int].0@ == ip@,
            r is None ==> !self@.contains_key(ip@),
    {
        proof {
            lemma_entries_map(self.entries@);
        }
        let mut i: usize = 0;
        while i < self.entries.len()
            invariant
                i <= self.entries@.len(),
                forall|j: int| 0 <= j < i ==> self.entries@[j].0@ != ip@,
            decreases self.entries@.len() - i,
        {
            if self.entries[i].0 == *ip {
                return Some(i);
            }
            i = i + 1;
        }
        None
    }

    /// Whether `ip` has an entry.
    pub fn contains(&self, ip: &String) -> (r: bool)
        requires
            self.wf(),
        ensures
            r == self@.contains_key(ip@),
    {
        proof {
            lemma_entries_map(self.entries@);
        }
        self.find(ip).is_some()
    }

    /// The entry for `ip`, if any.
    pub fn get(&self, ip: &String) -> (r: Option<&GeoData>)
        requires
            self.wf(),
        ensures
            r is Some <==> self@.contains_key(ip@),
            r matches Some(g) ==> g@ == self@[ip@],
    {
        proof {
            lemma_entries_map(self.entries@);
        }
        match self.find(ip) {
            Some(i) => Some(&self.entries[i].1),
            None => None,
        }
    }

    /// Sets the entry for `ip`, replacing an earlier one.
    pub fn insert(&mut self, ip: String, geo: GeoData)
        requires
            old(self).wf(),
        ensures
            final(self).wf(),
            final(self)@ == old(self)@.insert(ip@, geo@),
    {
        proof {
            lemma_entries_map(self.entries@);
        }
        match self.find(&ip) {
            Some(i) => {
                proof {
                    lemma_entries_map_update(self.entries@, i as int, (ip, geo));
                }
                self.entries.set(i, (ip, geo));
            },
            None => {
                let ghost before = self.entries@;
                self.entries.push((ip, geo));
                proof {
                    assert(self.entries@.drop_last() =~= before);
                    assert forall|i: int, j: int| 0 <= i < j < self.entries@.len() implies self.entries@[i].0@ != self.entries@[j].0@ by {
                        if j == before.len() {
                            assert(entries_map(before).contains_key(before[i].0@));
                        }
                    }
                }
            },
        }
    }

    /// Number of entries.
    pub fn len(&self) -> (r: usize)
        requires
            self.wf(),
        ensures
            r == self@.len(),
    {
        proof {
            lemma_entries_map_len(self.entries@);
        }
        self.entries.len()
    }

    /// The entries, one per address, for storage.
    pub fn entries(&self) -> (r: &Vec<(String, GeoData)>)
        requires
            self.wf(),
        ensures
            r@ == self.stored_entries(),
            unique_keys(r@),
            entries_map(r@) == self@,
    {
        &self.entries
    }

    /// The cache that a list of entries describes, as read from storage; a
    /// later entry for an address replaces an earlier one.
    pub fn from_entries(entries: &Vec<(String, GeoData)>) -> (r: GeoCache)
        ensures
            r.wf(),
            r@ == entries_map(entries@),
    {
        let mut cache = GeoCache::new();
        let mut i: usize = 0;
        while i < entries.len()
            invariant
                i <= entries@.len(),
                cache.wf(),
                cache@ == entries_map(entries@.take(i as int)),
            decreases entries@.len() - i,
        {
            proof {
                assert(entries@.take(i + 1).drop_last() =~= entries@.take(i as int));
            }
            cache.insert(entries[i].0.clone(), entries[i].1.duplicate());
            i = i + 1;
        }
        assert(entries@.take(entries@.len() as int) =~= entries@);
        cache
    }
}

/// Whether a lookup service's response status is a success (2xx).
pub fn response_ok(status: u16) -> (r: bool)
    ensures
        r == (200 <= status <= 299),
{
    200 <= status && status <= 299
}

/// The decisions of one resolution run: which addresses still need a lookup,
/// and what the cache holds after each answer. The caller performs each
/// lookup, hands the answer to `record`, and stores `cache()` at the end of
/// the run or before it gives up on a failed lookup.
/// The addresses among the first `n` of `ips` that `initial` did not hold:
/// those that a run has looked up once it has dealt with `n` addresses.
pub open spec fn resolved_by(ips: Seq<Seq<char>>, initial: Map<Seq<char>, GeoView>, n: int) -> Set<Seq<char>> {
    Set::new(|ip: Seq<char>| exists|j: int| 0 <= j < n && ips[j] == ip && !initial.contains_key(ip))
}

pub struct Resolver {
    cache: GeoCache,
    ips: Vec<String>,
    next: usize,
    hits: usize,
    initial: Ghost<Map<Seq<char>, GeoView>>,
    fetched: Ghost<Map<Seq<char>, GeoView>>,
}

impl Resolver {
    pub closed spec fn wf(&self) -> bool {
        &&& self.cache.wf()
        &&& self.cache@ == self.initial@.union_prefer_right(self.fetched@)
        &&& self.next <= self.ips@.len()
        &&& self.hits <= self.next
        &&& forall|j: int| 0 <= j < self.next ==> self.cache@.contains_key(#[trigger] self.ips_view()[j])
        &&& self.fetched@.dom() == resolved_by(self.ips_view(), self.initial@, self.next as int)
    }

    /// What the cache holds now.
    pub closed spec fn cache_view(&self) -> Map<Seq<char>, GeoView> {
        self.cache@
    }

    /// What the cache held when the run started.
    pub closed spec fn initial(&self) -> Map<Seq<char>, GeoView> {
        self.initial@
    }

    /// The answers recorded during this run.
    pub closed spec fn fetched(&self) -> Map<Seq<char>, GeoView> {
        self.fetched@
    }

    /// The addresses to resolve, in order.
    pub closed spec fn ips_view(&self) -> Seq<Seq<char>> {
        self.ips@.map_values(|s: String| s@)
    }

    /// How many of the addresses have been dealt with.
    pub closed spec fn done(&self) -> int {
        self.next as int
    }

    /// Starts a run over `ips` with the cache as loaded from storage.
    pub fn new(cache: GeoCache, ips: Vec<String>) -> (r: Resolver)
        requires
            cache.wf(),
        ensures
            r.wf(),
            r.initial() == cache@,
            r.fetched() == Map::<Seq<char>, GeoView>::empty(),
            r.cache_view() == cache@,
            r.ips_view() == ips@.map_values(|s: String| s@),
            r.done() == 0,
    {
        let ghost m = cache@;
        let r = Resolver { cache, ips, next: 0, hits: 0, initial: Ghost(m), fetched: Ghost(Map::empty()) };
        assert(r.cache@ =~= r.initial@.union_prefer_right(r.fetched@));
        assert(r.fetched@.dom() =~= resolved_by(r.ips_view(), r.initial@, 0));
        r
    }

    /// Moves past the addresses that the cache already holds and gives the
    /// next one that needs a lookup, or nothing when all are resolved.
    pub fn next_lookup(&mut self) -> (r: Option<String>)
        requires
            old(self).wf(),
        ensures
            final(self).wf(),
            final(self).cache_view() == old(self).cache_view(),
            final(self).initial() == old(self).initial(),
            final(self).fetched() == old(self).fetched(),
            final(self).ips_view() == old(self).ips_view(),
            old(self).done() <= final(self).done() <= final(self).ips_view().len(),
            forall|j: int| old(self).done() <= j < final(self).done() ==> final(self).cache_view().contains_key(#[trigger] final(self).ips_view()[j]),
            r matches Some(ip) ==> final(self).done() < final(self).ips_view().len()
                && ip@ == final(self).ips_view()[final(self).done()]
                && !final(self).cache_view().contains_key(ip@),
            r is None ==> final(self).done() == final(self).ips_view().len(),
    {
        let ghost start = self.next as int;
        while self.next < self.ips.len()
            invariant
                self.wf(),
                self.cache_view() == old(self).cache_view(),
                self.initial() == old(self).initial(),
                self.fetched() == old(self).fetched(),
                self.ips == old(self).ips,
                start == old(self).done(),
                start <= self.next,
                forall|j: int| start <= j < self.next ==> self.cache@.contains_key(#[trigger] self.ips@[j]@),
            decreases self.ips@.len() - self.next,
        {
            if !self.cache.contains(&self.ips[self.next]) {
                return Some(self.ips[self.next].clone());
            }
            proof {
                let iv = self.ips_view();
                let k = iv[self.next as int];
                assert(k == self.ips@[self.next as int]@);
                assert(resolved_by(iv, self.initial@, self.next + 1) =~= resolved_by(iv, self.initial@, self.next as int)) by {
                    if !self.initial@.contains_key(k) {
                        assert(self.fetched@.contains_key(k));
                    }
                    assert forall|ip: Seq<char>| resolved_by(iv, self.initial@, self.next + 1).contains(ip)
                        implies resolved_by(iv, self.initial@, self.next as int).contains(ip) by {
                        let j = choose|j: int| 0 <= j < self.next + 1 && iv[j] == ip && !self.initial@.contains_key(ip);
                        if j == self.next {
                            assert(self.fetched@.dom().contains(ip));
                        }
                    }
                }
            }
            self.next = self.next + 1;
            self.hits = self.hits + 1;
        }
        None
    }

    /// Records the answer of the lookup that `next_lookup` asked for, and
    /// moves past that address.
    pub fn record(&mut self, ip: String, geo: GeoData)
        requires
            old(self).wf(),
            old(self).done() < old(self).ips_view().len(),
            ip@ == old(self).ips_view()[old(self).done()],
            !old(self).cache_view().contains_key(ip@),
        ensures
            final(self).wf(),
            final(self).cache_view() == old(self).cache_view().insert(ip@, geo@),
            final(self).fetched() == old(self).fetched().insert(ip@, geo@),
            final(self).initial() == old(self).initial(),
            final(self).ips_view() == old(self).ips_view(),
            final(self).done() == old(self).done() + 1,
    {
        let ghost k = ip@;
        let ghost v = geo@;
        assert(self.ips@.map_values(|s: String| s@).len() == self.ips@.len());
        let n = self.next;
        let len = self.ips.len();
        assert(n < len);
        self.cache.insert(ip, geo);
        proof {
            let iv = self.ips_view();
            assert(resolved_by(iv, self.initial@, self.next + 1) =~= resolved_by(iv, self.initial@, self.next as int).insert(k)) by {
                assert(iv[self.next as int] == k);
            }
            self.fetched@ = self.fetched@.insert(k, v);
            assert(self.cache@ =~= self.initial@.union_prefer_right(self.fetched@));
        }
        self.next = n + 1;
    }

    /// The cache as it stands, to be stored.
    pub fn cache(&self) -> (r: &GeoCache)
        requires
            self.wf(),
        ensures
            r.wf(),
            r@ == self.cache_view(),
    {
        &self.cache
    }

    /// Ends the run and hands over the cache.
    pub fn into_cache(self) -> (r: GeoCache)
        requires
            self.wf(),
        ensures
            r.wf(),
            r@ == self.cache_view(),
    {
        self.cache
    }

    /// How many addresses have been dealt with so far.
    pub fn position(&self) -> (r: usize)
        ensures
            r == self.done(),
    {
        self.next
    }

    /// How many addresses so far were found in the cache.
    pub fn cache_hits(&self) -> usize {
        self.hits
    }
}

/// A run that stops on a failed lookup keeps what it resolved: the cache it
/// stores is the loaded cache, unchanged, plus exactly one answer for each
/// address looked up so far, and every address dealt with is in it, so a
/// later run from that cache is never asked to look those addresses up again.
pub proof fn lemma_progress_kept(r: &Resolver)
    requires
        r.wf(),
    ensures
        r.cache_view() == r.initial().union_prefer_right(r.fetched()),
        r.fetched().dom() == resolved_by(r.ips_view(), r.initial(), r.done()),
        forall|k: Seq<char>| r.initial().contains_key(k) ==> r.cache_view()[k] == r.initial()[k],
        forall|j: int| 0 <= j < r.done() ==> r.cache_view().contains_key(#[trigger] r.ips_view()[j]),
{
    assert forall|k: Seq<char>| r.initial().contains_key(k) implies r.cache_view()[k] == r.initial()[k] by {
        assert(!r.fetched().contains_key(k));
    }
}

/// Writing a cache out with `entries` and reading it back with
/// `from_entries` gives the same mapping.
pub proof fn lemma_cache_round_trip(c: &GeoCache, stored: Seq<(String, GeoData)>, back: &GeoCache)
    requires
        c.wf(),
        stored == c.stored_entries(),
        back@ == entries_map(stored),
    ensures
        back@ == c@,
{
}

proof fn lemma_entries_map_len(entries: Seq<(String, GeoData)>)
    requires
        unique_keys(entries),
    ensures
        entries_map(entries).len() == entries.len(),
        entries_map(entries).dom().finite(),
    decreases entries.len(),
{
    if entries.len() > 0 {
        let rest = entries.drop_last();
        lemma_entries_map_len(rest);
        lemma_entries_map(rest);
        assert(!entries_map(rest).contains_key(entries.last().0@));
    }
}

} // verus!
