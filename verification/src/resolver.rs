//! The recursive resolver: its cache of address answers, and the iterative
//! resolution of a name, starting at the root server and following
//! delegations until a server answers.

use vstd::prelude::*;
use crate::ipv4::Ipv4;
use crate::packet::{DNSPacket, ResultCode};

verus! {

/// One cached answer: the address of `name`, valid before `valid_until`
/// (seconds since the Unix epoch).
pub struct CacheEntry {
    pub name: String,
    pub ip: Ipv4,
    pub valid_until: u64,
}

/// The answers the resolver has cached, at most one per name.
///
/// The entries are kept in a vector whose names are distinct (the type's
/// invariant), viewed as a map from name to address and expiry. A std
/// `HashMap` keyed by `String` would give no usable contract here: vstd's
/// specification of `HashMap` holds only for key types that obey its key
/// model, which it establishes for integer and `bool` keys and not for
/// `String`.
pub struct ResolverCache {
    entries: Vec<CacheEntry>,
}

/// The map from name to cached address and expiry that `entries` hold; a
/// later entry for a name replaces an earlier one.
pub open spec fn entries_map(entries: Seq<CacheEntry>) -> Map<Seq<char>, (Ipv4, u64)>
    decreases entries.len(),
{
    if entries.len() == 0 {
        Map::empty()
    } else {
        entries_map(entries.drop_last()).insert(
            entries.last().name@,
            (entries.last().ip, entries.last().valid_until),
        )
    }
}

/// No two entries have the same name.
pub open spec fn distinct_names(entries: Seq<CacheEntry>) -> bool {
    forall|i: int, j: int|
        0 <= i < entries.len() && 0 <= j < entries.len() && i != j ==> #[trigger] entries[i].name@
            != #[trigger] entries[j].name@
}

/// The address cached for `name` that is still valid at time `now`.
pub open spec fn cached_ip(cache: Map<Seq<char>, (Ipv4, u64)>, name: Seq<char>, now: u64) -> Option<
    Ipv4,
> {
    if cache.contains_key(name) && now < cache[name].1 {
        Some(cache[name].0)
    } else {
        None
    }
}

impl View for ResolverCache {
    type V = Map<Seq<char>, (Ipv4, u64)>;

    closed spec fn view(&self) -> Map<Seq<char>, (Ipv4, u64)> {
        entries_map(self.entries@)
    }
}

proof fn lemma_entries_map_domain(entries: Seq<CacheEntry>, k: Seq<char>)
    ensures
        entries_map(entries).contains_key(k) <==> exists|i: int|
            0 <= i < entries.len() && #[trigger] entries[i].name@ == k,
    decreases entries.len(),
{
    if entries.len() > 0 {
        let rest = entries.drop_last();
        lemma_entries_map_domain(rest, k);
        if entries_map(entries).contains_key(k) {
            if entries.last().name@ == k {
                assert(entries[entries.len() - 1].name@ == k);
            } else {
                let i = choose|i: int| 0 <= i < rest.len() && #[trigger] rest[i].name@ == k;
                assert(entries[i].name@ == k);
            }
        }
        if exists|i: int| 0 <= i < entries.len() && #[trigger] entries[i].name@ == k {
            let i = choose|i: int| 0 <= i < entries.len() && #[trigger] entries[i].name@ == k;
            if i < entries.len() - 1 {
                assert(rest[i].name@ == k);
            }
        }
    }
}

proof fn lemma_entries_map_value(entries: Seq<CacheEntry>, i: int)
    requires
        distinct_names(entries),
        0 <= i < entries.len(),
    ensures
        entries_map(entries).contains_key(entries[i].name@),
        entries_map(entries)[entries[i].name@] == (entries[i].ip, entries[i].valid_until),
    decreases entries.len(),
{
    let rest = entries.drop_last();
    if i < entries.len() - 1 {
        assert(distinct_names(rest)) by {
            assert forall|a: int, b: int|
                0 <= a < rest.len() && 0 <= b < rest.len() && a != b implies #[trigger] rest[a].name@
                != #[trigger] rest[b].name@ by {
                assert(rest[a] == entries[a] && rest[b] == entries[b]);
            }
        }
        lemma_entries_map_value(rest, i);
        assert(rest[i] == entries[i]);
        assert(entries[i].name@ != entries[entries.len() - 1].name@);
    }
}

proof fn lemma_entries_map_update(entries: Seq<CacheEntry>, i: int, e: CacheEntry)
    requires
        distinct_names(entries),
        0 <= i < entries.len(),
        entries[i].name@ == e.name@,
    ensures
        distinct_names(entries.update(i, e)),
        entries_map(entries.update(i, e)) == entries_map(entries).insert(
            e.name@,
            (e.ip, e.valid_until),
        ),
{
    let updated = entries.update(i, e);
    assert(distinct_names(updated)) by {
        assert forall|a: int, b: int|
            0 <= a < updated.len() && 0 <= b < updated.len() && a != b implies #[trigger] updated[a].name@
            != #[trigger] updated[b].name@ by {
            assert(updated[a].name@ == entries[a].name@);
            assert(updated[b].name@ == entries[b].name@);
        }
    }
    let old_map = entries_map(entries);
    let new_map = entries_map(updated);
    let expected = old_map.insert(e.name@, (e.ip, e.valid_until));
    assert forall|k: Seq<char>| new_map.contains_key(k) <==> expected.contains_key(k) by {
        lemma_entries_map_domain(entries, k);
        lemma_entries_map_domain(updated, k);
        if k == e.name@ {
            assert(updated[i].name@ == k);
        }
        if expected.contains_key(k) && k != e.name@ {
            let j = choose|j: int| 0 <= j < entries.len() && #[trigger] entries[j].name@ == k;
            assert(updated[j].name@ == k);
        }
        if new_map.contains_key(k) {
            let j = choose|j: int| 0 <= j < updated.len() && #[trigger] updated[j].name@ == k;
            assert(entries[j].name@ == k);
        }
    }
    assert forall|k: Seq<char>| #[trigger] new_map.contains_key(k) implies new_map[k] == expected[k] by {
        lemma_entries_map_domain(updated, k);
        let j = choose|j: int| 0 <= j < updated.len() && #[trigger] updated[j].name@ == k;
        lemma_entries_map_value(updated, j);
        if j != i {
            lemma_entries_map_value(entries, j);
        }
    }
    assert(new_map =~= expected);
}

impl ResolverCache {
    #[verifier::type_invariant]
    spec fn names_are_distinct(self) -> bool {
        distinct_names(self.entries@)
    }

    /// An empty cache.
    pub fn new() -> (cache: ResolverCache)
        ensures
            cache@ == Map::<Seq<char>, (Ipv4, u64)>::empty(),
    {
        ResolverCache { entries: Vec::new() }
    }

    /// The index of the entry for `name`, if there is one.
    fn position(&self, name: &String) -> (r: Option<usize>)
        ensures
            r matches Some(i) ==> i < self.entries.len() && self.entries@[i as int].name@ == name@,
            r is None ==> forall|j: int|
                0 <= j < self.entries.len() ==> #[trigger] self.entries@[j].name@ != name@,
    {
        let mut i: usize = 0;
        while i < self.entries.len()
            invariant
                i <= self.entries.len(),
                forall|j: int| 0 <= j < i ==> #[trigger] self.entries@[j].name@ != name@,
            decreases self.entries.len() - i,
        {
            if self.entries[i].name == *name {
                return Some(i);
            }
            i = i + 1;
        }
        None
    }

    /// The address cached for `name`, if its answer is still valid at `now`.
    pub fn lookup(&self, name: &String, now: u64) -> (r: Option<Ipv4>)
        ensures
            r == cached_ip(self@, name@, now),
    {
        proof {
            use_type_invariant(self);
            lemma_entries_map_domain(self.entries@, name@);
        }
        match self.position(name) {
            Some(i) => {
                proof {
                    lemma_entries_map_value(self.entries@, i as int);
                }
                if now < self.entries[i].valid_until {
                    Some(self.entries[i].ip)
                } else {
                    None
                }
            },
            None => None,
        }
    }

    /// Records `ip` as the address of `name`, valid before `valid_until`,
    /// in place of any earlier answer for `name`.
    pub fn insert(&mut self, name: String, ip: Ipv4, valid_until: u64)
        ensures
            final(self)@ == old(self)@.insert(name@, (ip, valid_until)),
    {
        proof {
            use_type_invariant(&*self);
        }
        let entry = CacheEntry { name, ip, valid_until };
        let found = self.position(&entry.name);
        let mut entries: Vec<CacheEntry> = Vec::new();
        std::mem::swap(&mut entries, &mut self.entries);
        match found {
            Some(i) => {
                proof {
                    lemma_entries_map_update(entries@, i as int, entry);
                }
                entries.set(i, entry);
            },
            None => {
                let ghost before = entries@;
                proof {
                    assert(distinct_names(before.push(entry))) by {
                        let after = before.push(entry);
                        assert forall|a: int, b: int|
                            0 <= a < after.len() && 0 <= b < after.len() && a != b implies #[trigger] after[a].name@
                            != #[trigger] after[b].name@ by {
                            if a < before.len() {
                                assert(after[a] == before[a]);
                            }
                            if b < before.len() {
                                assert(after[b] == before[b]);
                            }
                        }
                    }
                    assert(before.push(entry).drop_last() =~= before);
                }
                entries.push(entry);
            },
        }
        self.entries = entries;
    }
}

/// The answer the resolver gives from its cache: the request marked as a
/// successful response carrying the cached address.
pub open spec fn cached_response(request: DNSPacket, ip: Ipv4) -> DNSPacket {
    DNSPacket {
        flags_response: true,
        flags_result_code: ResultCode::NOERROR,
        answer_a: Some(ip),
        ..request
    }
}

/// The query the resolver sends to name servers for `request`: the same
/// question, without asking for recursion.
pub open spec fn iterative_query(request: DNSPacket) -> DNSPacket {
    DNSPacket { flags_rec_desired: false, ..request }
}

/// A resolution in progress: the query, and the name server it goes to next.
#[derive(Debug)]
pub struct Resolution {
    pub nameserver: Ipv4,
    pub query: DNSPacket,
}

/// What the resolver does with a request from a client.
pub enum RequestOutcome {
    /// Send this response to the client.
    Answer(DNSPacket),
    /// Resolve the name by asking name servers.
    Resolve(Resolution),
}

/// What the resolver does after a name server's response.
pub enum ResolverStep {
    /// Send the resolution's query to its name server and wait for a response.
    Ask,
    /// Send this response to the client; the resolution is over.
    Reply(DNSPacket),
}

/// `response` answers the resolution's query (by its identifier).
pub open spec fn answers_query(r: &Resolution, response: DNSPacket) -> bool {
    response.id == r.query.id
}

/// The name server to ask after `response`, or `None` when the resolution is
/// over: a response to another request has the same server asked again; a
/// successful delegation names the next server.
pub open spec fn next_nameserver(r: &Resolution, response: DNSPacket) -> Option<Ipv4> {
    if !answers_query(r, response) {
        Some(r.nameserver)
    } else if response.flags_result_code == ResultCode::NOERROR && response.answer_ns is Some {
        response.answer_ns
    } else {
        None
    }
}

/// `response` ends the resolution with an address that the resolver caches.
pub open spec fn caches_answer(r: &Resolution, response: DNSPacket) -> bool {
    &&& answers_query(r, response)
    &&& response.flags_result_code == ResultCode::NOERROR
    &&& response.answer_ns is None
    &&& response.answer_a is Some
    &&& response.resp_ttl is Some
}

/// What the resolver does with `request` at time `now`: answer from the cache
/// when it holds a valid address for the name, and otherwise start resolving
/// at the root server `root`.
pub fn handle_request(cache: &ResolverCache, request: DNSPacket, now: u64, root: Ipv4) -> (outcome:
    RequestOutcome)
    ensures
        match cached_ip(cache@, request.qry_name@, now) {
            Some(ip) => outcome == RequestOutcome::Answer(cached_response(request, ip)),
            None => outcome == RequestOutcome::Resolve(
                Resolution { nameserver: root, query: iterative_query(request) },
            ),
        },
{
    match cache.lookup(&request.qry_name, now) {
        Some(ip) => RequestOutcome::Answer(
            DNSPacket {
                flags_response: true,
                flags_result_code: ResultCode::NOERROR,
                answer_a: Some(ip),
                ..request
            },
        ),
        None => RequestOutcome::Resolve(Resolution::start(request, root)),
    }
}

impl Resolution {
    /// A resolution of `request` that starts at the root server `root`.
    pub fn start(request: DNSPacket, root: Ipv4) -> (r: Resolution)
        ensures
            r == (Resolution { nameserver: root, query: iterative_query(request) }),
    {
        Resolution { nameserver: root, query: DNSPacket { flags_rec_desired: false, ..request } }
    }

    /// Takes a name server's `response`, received at time `now`: follows a
    /// delegation, asks again after a response to another request, and
    /// otherwise ends with the response for the client, caching an address
    /// answer that has a time to live.
    pub fn on_response(&mut self, cache: &mut ResolverCache, response: DNSPacket, now: u64) -> (step:
        ResolverStep)
        requires
            caches_answer(old(self), response) ==> now + response.resp_ttl->0 <= u64::MAX,
        ensures
            final(self).query == old(self).query,
            response.id == old(self).query.id && response.flags_result_code == ResultCode::NOERROR
                && response.answer_ns is Some ==> step == ResolverStep::Ask && final(self).nameserver
                == response.answer_ns->0,
            response.id != old(self).query.id ==> step == ResolverStep::Ask && final(self).nameserver
                == old(self).nameserver,
            match next_nameserver(old(self), response) {
                Some(ns) => step == ResolverStep::Ask && final(self).nameserver == ns,
                None => step == ResolverStep::Reply(response) && final(self).nameserver
                    == old(self).nameserver,
            },
            final(cache)@ == if caches_answer(old(self), response) {
                old(cache)@.insert(
                    response.qry_name@,
                    (response.answer_a->0, (now + response.resp_ttl->0) as u64),
                )
            } else {
                old(cache)@
            },
    {
        if response.id != self.query.id {
            return ResolverStep::Ask;
        }
        match (response.answer_ns, response.answer_a, response.flags_result_code) {
            (Some(ns), _, ResultCode::NOERROR) => {
                self.nameserver = ns;
                ResolverStep::Ask
            },
            (None, Some(a), ResultCode::NOERROR) => {
                if let Some(ttl) = response.resp_ttl {
                    cache.insert(response.qry_name.clone(), a, now + ttl as u64);
                }
                ResolverStep::Reply(response)
            },
            _ => ResolverStep::Reply(response),
        }
    }
}

/// Reading the cache gives back what was written: after an address is cached
/// for a name, the name gives that address until the answer expires, and
/// every other name gives what it gave before.
pub proof fn law_cache_read_after_write(
    cache: Map<Seq<char>, (Ipv4, u64)>,
    name: Seq<char>,
    ip: Ipv4,
    valid_until: u64,
    other: Seq<char>,
    now: u64,
)
    ensures
        cached_ip(cache.insert(name, (ip, valid_until)), name, now) == if now < valid_until {
            Some(ip)
        } else {
            None
        },
        other != name ==> cached_ip(cache.insert(name, (ip, valid_until)), other, now) == cached_ip(
            cache,
            other,
            now,
        ),
{
}

/// An address answer with a time to live serves later requests for the same
/// name from the cache until it expires.
pub proof fn law_cached_answer_serves_later_requests(
    cache: Map<Seq<char>, (Ipv4, u64)>,
    r: Resolution,
    response: DNSPacket,
    now: u64,
    later: u64,
    request: DNSPacket,
)
    requires
        caches_answer(&r, response),
        now + response.resp_ttl->0 <= u64::MAX,
        request.qry_name@ == response.qry_name@,
        later < now + response.resp_ttl->0,
    ensures
        cached_ip(
            cache.insert(
                response.qry_name@,
                (response.answer_a->0, (now + response.resp_ttl->0) as u64),
            ),
            request.qry_name@,
            later,
        ) == Some(response.answer_a->0),
{
}

/// The cache gives an address exactly when it holds one for the name whose
/// expiry lies after the time asked about, and then gives that address.
pub proof fn law_cached_ip_is_unexpired_entry(
    cache: Map<Seq<char>, (Ipv4, u64)>,
    name: Seq<char>,
    now: u64,
    ip: Ipv4,
)
    ensures
        cached_ip(cache, name, now) == Some(ip) <==> (cache.contains_key(name) && cache[name].0 == ip
            && now < cache[name].1),
        cached_ip(cache, name, now) is None <==> (!cache.contains_key(name) || cache[name].1 <= now),
{
}

/// A response to the query the resolver asked, with result code NOERROR and
/// the address of a name server, has the resolver ask that server next,
/// whether or not the response also carries an address.
pub proof fn law_delegation_is_followed(r: Resolution, response: DNSPacket, ns: Ipv4)
    requires
        response.id == r.query.id,
        response.flags_result_code == ResultCode::NOERROR,
        response.answer_ns == Some(ns),
    ensures
        next_nameserver(&r, response) == Some(ns),
        !caches_answer(&r, response),
{
}

/// A response to another request has the resolver ask the same server again,
/// and caches nothing.
pub proof fn law_other_request_asks_again(r: Resolution, response: DNSPacket)
    requires
        response.id != r.query.id,
    ensures
        next_nameserver(&r, response) == Some(r.nameserver),
        !caches_answer(&r, response),
{
}

/// A response to the query the resolver asked ends the resolution unless it
/// delegates with result code NOERROR.
pub proof fn law_final_response_ends_resolution(r: Resolution, response: DNSPacket)
    requires
        response.id == r.query.id,
        response.answer_ns is None || response.flags_result_code != ResultCode::NOERROR,
    ensures
        next_nameserver(&r, response) is None,
{
}

/// The resolver caches exactly the final NOERROR address answers to its own
/// query that carry a time to live.
pub proof fn law_what_is_cached(r: Resolution, response: DNSPacket)
    ensures
        caches_answer(&r, response) <==> (response.id == r.query.id && response.flags_result_code
            == ResultCode::NOERROR && response.answer_ns is None && response.answer_a is Some
            && response.resp_ttl is Some),
{
}

/// The resolver asks name servers the client's question under the client's
/// identifier, without asking for recursion.
pub proof fn law_iterative_query_keeps_question(request: DNSPacket)
    ensures
        iterative_query(request).id == request.id,
        iterative_query(request).qry_name == request.qry_name,
        iterative_query(request).qry_type == request.qry_type,
        !iterative_query(request).flags_rec_desired,
        iterative_query(request).flags_response == request.flags_response,
{
}

/// An answer from the cache is a successful response to the client's request
/// that carries the cached address.
pub proof fn law_cached_response_answers_request(request: DNSPacket, ip: Ipv4)
    ensures
        cached_response(request, ip).id == request.id,
        cached_response(request, ip).qry_name == request.qry_name,
        cached_response(request, ip).flags_response,
        cached_response(request, ip).flags_result_code == ResultCode::NOERROR,
        cached_response(request, ip).answer_a == Some(ip),
{
}

} // verus!
