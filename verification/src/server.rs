//! The authoritative name server: its configuration (the names of its zone
//! and the zones it delegates) and the answer it gives to a query.

use vstd::prelude::*;
use crate::ipv4::{Ipv4, parse_ipv4, parsed_ipv4};
use crate::packet::DNSPacket;
use crate::text::{chars_of, ends_with, has_suffix, string_of};

verus! {

/// A value of the configuration file, as far as the server reads it: a text
/// or anything else.
#[derive(Debug)]
pub enum ConfigValue {
    Text(String),
    Other,
}

/// A configured name and the address recorded for it.
pub type Record = (String, Ipv4);

/// The configuration of one name server.
#[derive(Debug)]
pub struct ServerConfig {
    /// Names of the zone with their addresses (A records).
    pub zone: Vec<Record>,
    /// Delegated zones with the address of their name server (NS records).
    pub delegated: Vec<Record>,
    /// The address the server binds to.
    pub ip: Ipv4,
}

/// The record that one configuration entry gives, if its value is the text
/// of an address.
pub open spec fn record_of(entry: (String, ConfigValue)) -> Option<(Seq<char>, Ipv4)> {
    match entry.1 {
        ConfigValue::Text(t) => match parsed_ipv4(t@) {
            Some(ip) => Some((entry.0@, ip)),
            None => None,
        },
        ConfigValue::Other => None,
    }
}

/// The records that the configuration entries give, in their order; the
/// entries that give none are left out.
pub open spec fn records_of(entries: Seq<(String, ConfigValue)>) -> Seq<(Seq<char>, Ipv4)>
    decreases entries.len(),
{
    if entries.len() == 0 {
        Seq::empty()
    } else {
        let earlier = records_of(entries.drop_last());
        match record_of(entries.last()) {
            Some(r) => earlier.push(r),
            None => earlier,
        }
    }
}

/// The records held by a vector, with each name as its characters.
pub open spec fn record_views(v: Seq<Record>) -> Seq<(Seq<char>, Ipv4)> {
    Seq::new(v.len(), |i: int| (v[i].0@, v[i].1))
}

/// The address of the first record named `name`, if any.
pub open spec fn zone_answer(zone: Seq<(Seq<char>, Ipv4)>, name: Seq<char>) -> Option<Ipv4>
    decreases zone.len(),
{
    if zone.len() == 0 {
        None
    } else {
        match zone_answer(zone.drop_last(), name) {
            Some(ip) => Some(ip),
            None => if zone.last().0 == name {
                Some(zone.last().1)
            } else {
                None
            },
        }
    }
}

/// The name server of the last delegated zone that `name` ends with, if any.
pub open spec fn delegation(delegated: Seq<(Seq<char>, Ipv4)>, name: Seq<char>) -> Option<Ipv4>
    decreases delegated.len(),
{
    if delegated.len() == 0 {
        None
    } else if has_suffix(name, delegated.last().0) {
        Some(delegated.last().1)
    } else {
        delegation(delegated.drop_last(), name)
    }
}

/// The response of the server with `config` to `request`: the request marked
/// as a response, with the address of the name when the zone records it, and
/// otherwise the name server of a delegated zone the name lies in.
pub open spec fn server_answer(config: &ServerConfig, request: DNSPacket) -> DNSPacket {
    let a = zone_answer(record_views(config.zone@), request.qry_name@);
    DNSPacket {
        flags_response: true,
        answer_a: a,
        answer_ns: if a is Some {
            None
        } else {
            delegation(record_views(config.delegated@), request.qry_name@)
        },
        ..request
    }
}

/// The records that `entries` give, in order: each entry whose value is the
/// text of an address, with that address; the others are left out.
pub fn config_records(entries: Vec<(String, ConfigValue)>) -> (records: Vec<Record>)
    ensures
        record_views(records@) == records_of(entries@),
{
    let mut records: Vec<Record> = Vec::new();
    let mut i: usize = 0;
    while i < entries.len()
        invariant
            i <= entries.len(),
            record_views(records@) == records_of(entries@.take(i as int)),
        decreases entries.len() - i,
    {
        assert(entries@.take(i + 1).drop_last() =~= entries@.take(i as int));
        assert(entries@.take(i + 1).last() == entries@[i as int]);
        let ghost before = records@;
        match &entries[i].1 {
            ConfigValue::Text(t) => {
                match parse_ipv4(t.as_str()) {
                    Some(ip) => {
                        records.push((entries[i].0.clone(), ip));
                        assert(record_views(records@) =~= record_views(before).push(
                            (entries@[i as int].0@, ip),
                        ));
                    },
                    None => {},
                }
            },
            ConfigValue::Other => {},
        }
        i = i + 1;
    }
    assert(entries@.take(entries.len() as int) =~= entries@);
    records
}

/// The configuration of a server bound to the address `ip`, with the zone and
/// delegation records that the entries give.
pub fn server_config(
    ip: &str,
    zone: Vec<(String, ConfigValue)>,
    delegated: Vec<(String, ConfigValue)>,
) -> (config: ServerConfig)
    requires
        parsed_ipv4(ip@) is Some,
    ensures
        config.ip == parsed_ipv4(ip@)->0,
        record_views(config.zone@) == records_of(zone@),
        record_views(config.delegated@) == records_of(delegated@),
{
    let address = match parse_ipv4(ip) {
        Some(a) => a,
        None => {
            assert(false);
            Ipv4(0, 0, 0, 0)
        },
    };
    ServerConfig { zone: config_records(zone), delegated: config_records(delegated), ip: address }
}

/// Whether `config_name` names a JSON configuration file.
pub fn is_json_config_name(config_name: &str) -> (b: bool)
    ensures
        b == has_suffix(config_name@, ".json"@),
{
    let name = chars_of(config_name);
    let suffix = chars_of(".json");
    ends_with(name.as_slice(), suffix.as_slice())
}

/// The server's name: the configuration file's name without `.json`.
pub fn server_name(config_name: &str) -> (name: String)
    requires
        has_suffix(config_name@, ".json"@),
    ensures
        name@ + ".json"@ == config_name@,
{
    let chars = chars_of(config_name);
    let suffix = chars_of(".json");
    let keep = chars.len() - suffix.len();
    let mut prefix: Vec<char> = Vec::new();
    let mut i: usize = 0;
    while i < keep
        invariant
            keep <= chars.len(),
            i <= keep,
            prefix@ == chars@.take(i as int),
        decreases keep - i,
    {
        prefix.push(chars[i]);
        i = i + 1;
        assert(prefix@ =~= chars@.take(i as int));
    }
    let name = string_of(prefix.as_slice());
    assert(name@ + ".json"@ =~= config_name@);
    name
}

proof fn lemma_zone_answer_found(zone: Seq<(Seq<char>, Ipv4)>, name: Seq<char>, i: int, k: int)
    requires
        0 <= i < k <= zone.len(),
        zone_answer(zone.take(i), name) is None,
        zone[i].0 == name,
    ensures
        zone_answer(zone.take(k), name) == Some(zone[i].1),
    decreases k,
{
    if k == i + 1 {
        assert(zone.take(k).drop_last() =~= zone.take(i));
    } else {
        lemma_zone_answer_found(zone, name, i, k - 1);
        assert(zone.take(k).drop_last() =~= zone.take(k - 1));
    }
}

/// The address of the first zone record named `name`.
fn zone_lookup(zone: &Vec<Record>, name: &String) -> (r: Option<Ipv4>)
    ensures
        r == zone_answer(record_views(zone@), name@),
{
    let ghost views = record_views(zone@);
    let mut i: usize = 0;
    assert(views.take(0) =~= Seq::<(Seq<char>, Ipv4)>::empty());
    while i < zone.len()
        invariant
            views == record_views(zone@),
            i <= zone.len(),
            zone_answer(views.take(i as int), name@) is None,
        decreases zone.len() - i,
    {
        if zone[i].0 == *name {
            proof {
                lemma_zone_answer_found(views, name@, i as int, zone.len() as int);
                assert(views.take(zone.len() as int) =~= views);
            }
            return Some(zone[i].1);
        }
        assert(views.take(i + 1).drop_last() =~= views.take(i as int));
        i = i + 1;
    }
    assert(views.take(zone.len() as int) =~= views);
    None
}

/// The name server of the last delegated zone that `name` ends with.
fn delegation_lookup(delegated: &Vec<Record>, name: &String) -> (r: Option<Ipv4>)
    ensures
        r == delegation(record_views(delegated@), name@),
{
    let ghost views = record_views(delegated@);
    let name_chars = chars_of(name.as_str());
    let mut found: Option<Ipv4> = None;
    let mut i: usize = 0;
    assert(views.take(0) =~= Seq::<(Seq<char>, Ipv4)>::empty());
    while i < delegated.len()
        invariant
            views == record_views(delegated@),
            name_chars@ == name@,
            i <= delegated.len(),
            found == delegation(views.take(i as int), name@),
        decreases delegated.len() - i,
    {
        let zone_chars = chars_of(delegated[i].0.as_str());
        assert(views.take(i + 1).drop_last() =~= views.take(i as int));
        assert(views.take(i + 1).last() == views[i as int]);
        if ends_with(name_chars.as_slice(), zone_chars.as_slice()) {
            found = Some(delegated[i].1);
        }
        i = i + 1;
    }
    assert(views.take(delegated.len() as int) =~= views);
    found
}

/// The server's response to `request`: the request marked as a response, with
/// the address of the first zone record for the name asked about, or, when
/// the zone has none, the name server of the last delegated zone that the
/// name ends with.
pub fn answer(config: &ServerConfig, request: DNSPacket) -> (response: DNSPacket)
    ensures
        response == server_answer(config, request),
        response.answer_a is Some ==> response.answer_ns is None,
        response.id == request.id && response.qry_name == request.qry_name,
{
    let a = zone_lookup(&config.zone, &request.qry_name);
    let ns = if a.is_none() {
        delegation_lookup(&config.delegated, &request.qry_name)
    } else {
        None
    };
    DNSPacket { flags_response: true, answer_a: a, answer_ns: ns, ..request }
}

/// The records held by a vector are its entries, in order, each name taken
/// as its characters.
pub proof fn law_record_views(v: Seq<Record>)
    ensures
        record_views(v).len() == v.len(),
        forall|i: int| 0 <= i < v.len() ==> #[trigger] record_views(v)[i] == (v[i].0@, v[i].1),
{
}

/// The zone's answer for a name is the address of the first record with that
/// name, and there is none when no record has the name.
pub proof fn law_zone_answer_is_first_record(zone: Seq<(Seq<char>, Ipv4)>, name: Seq<char>)
    ensures
        (forall|i: int| 0 <= i < zone.len() ==> #[trigger] zone[i].0 != name) ==> zone_answer(
            zone,
            name,
        ) is None,
        forall|i: int|
            0 <= i < zone.len() && #[trigger] zone[i].0 == name && (forall|k: int|
                0 <= k < i ==> zone[k].0 != name) ==> zone_answer(zone, name) == Some(zone[i].1),
    decreases zone.len(),
{
    if zone.len() > 0 {
        let rest = zone.drop_last();
        law_zone_answer_is_first_record(rest, name);
        assert forall|i: int|
            0 <= i < zone.len() && #[trigger] zone[i].0 == name && (forall|k: int|
                0 <= k < i ==> zone[k].0 != name) implies zone_answer(zone, name) == Some(
            zone[i].1,
        ) by {
            if i < zone.len() - 1 {
                assert(rest[i] == zone[i]);
                assert forall|k: int| 0 <= k < i implies rest[k].0 != name by {
                    assert(rest[k] == zone[k]);
                }
            } else {
                assert forall|k: int| 0 <= k < rest.len() implies #[trigger] rest[k].0 != name by {
                    assert(rest[k] == zone[k]);
                }
            }
        }
        if forall|i: int| 0 <= i < zone.len() ==> #[trigger] zone[i].0 != name {
            assert forall|k: int| 0 <= k < rest.len() implies #[trigger] rest[k].0 != name by {
                assert(rest[k] == zone[k]);
            }
            assert(zone[zone.len() - 1].0 != name);
        }
    }
}

/// The delegation for a name is the name server of the last delegated zone
/// that the name ends with, and there is none when the name ends with none.
pub proof fn law_delegation_is_last_enclosing_zone(
    delegated: Seq<(Seq<char>, Ipv4)>,
    name: Seq<char>,
)
    ensures
        (forall|i: int|
            0 <= i < delegated.len() ==> !(#[trigger] delegated[i].0.len() <= name.len()
                && name.subrange(name.len() - delegated[i].0.len(), name.len() as int)
                == delegated[i].0)) ==> delegation(delegated, name) is None,
        forall|i: int|
            0 <= i < delegated.len() && #[trigger] delegated[i].0.len() <= name.len() && name.subrange(
                name.len() - delegated[i].0.len(),
                name.len() as int,
            ) == delegated[i].0 && (forall|k: int|
                i < k < delegated.len() ==> !(delegated[k].0.len() <= name.len() && name.subrange(
                    name.len() - delegated[k].0.len(),
                    name.len() as int,
                ) == delegated[k].0)) ==> delegation(delegated, name) == Some(delegated[i].1),
    decreases delegated.len(),
{
    if delegated.len() > 0 {
        let rest = delegated.drop_last();
        law_delegation_is_last_enclosing_zone(rest, name);
        let last = delegated.len() - 1;
        assert forall|i: int|
            0 <= i < delegated.len() && #[trigger] delegated[i].0.len() <= name.len() && name.subrange(
                name.len() - delegated[i].0.len(),
                name.len() as int,
            ) == delegated[i].0 && (forall|k: int|
                i < k < delegated.len() ==> !(delegated[k].0.len() <= name.len() && name.subrange(
                    name.len() - delegated[k].0.len(),
                    name.len() as int,
                ) == delegated[k].0)) implies delegation(delegated, name) == Some(delegated[i].1) by {
            if i < last {
                assert(!(delegated[last].0.len() <= name.len() && name.subrange(
                    name.len() - delegated[last].0.len(),
                    name.len() as int,
                ) == delegated[last].0));
                assert(rest[i] == delegated[i]);
                assert forall|k: int| i < k < rest.len() implies !(rest[k].0.len() <= name.len()
                    && name.subrange(name.len() - rest[k].0.len(), name.len() as int)
                    == rest[k].0) by {
                    assert(rest[k] == delegated[k]);
                }
            }
        }
        if forall|i: int|
            0 <= i < delegated.len() ==> !(#[trigger] delegated[i].0.len() <= name.len()
                && name.subrange(name.len() - delegated[i].0.len(), name.len() as int)
                == delegated[i].0) {
            assert forall|i: int| 0 <= i < rest.len() implies !(#[trigger] rest[i].0.len()
                <= name.len() && name.subrange(name.len() - rest[i].0.len(), name.len() as int)
                == rest[i].0) by {
                assert(rest[i] == delegated[i]);
            }
            assert(!(delegated[last].0.len() <= name.len() && name.subrange(
                name.len() - delegated[last].0.len(),
                name.len() as int,
            ) == delegated[last].0));
        }
    }
}

/// A delegated zone that the name does not end with, put before the others,
/// changes nothing.
pub proof fn law_delegation_ignores_other_zones(
    zone: (Seq<char>, Ipv4),
    delegated: Seq<(Seq<char>, Ipv4)>,
    name: Seq<char>,
)
    requires
        !(zone.0.len() <= name.len() && name.subrange(name.len() - zone.0.len(), name.len() as int)
            == zone.0),
    ensures
        delegation(seq![zone] + delegated, name) == delegation(delegated, name),
    decreases delegated.len(),
{
    if delegated.len() == 0 {
        assert((seq![zone] + delegated).drop_last() =~= Seq::<(Seq<char>, Ipv4)>::empty());
    } else {
        assert((seq![zone] + delegated).drop_last() =~= seq![zone] + delegated.drop_last());
        law_delegation_ignores_other_zones(zone, delegated.drop_last(), name);
    }
}

/// The records of a configuration with no entries are none.
pub proof fn law_records_of_empty()
    ensures
        records_of(Seq::<(String, ConfigValue)>::empty()) == Seq::<(Seq<char>, Ipv4)>::empty(),
{
}

/// One entry gives its record exactly when its value is the text of an
/// address.
pub proof fn law_records_of_one_entry(entry: (String, ConfigValue))
    ensures
        records_of(seq![entry]) == match entry.1 {
            ConfigValue::Text(t) => match parsed_ipv4(t@) {
                Some(ip) => seq![(entry.0@, ip)],
                None => Seq::<(Seq<char>, Ipv4)>::empty(),
            },
            ConfigValue::Other => Seq::<(Seq<char>, Ipv4)>::empty(),
        },
{
    assert(seq![entry].drop_last() =~= Seq::<(String, ConfigValue)>::empty());
    assert(seq![entry].last() == entry);
    assert(records_of(Seq::<(String, ConfigValue)>::empty()) =~= Seq::<(Seq<char>, Ipv4)>::empty());
    assert(records_of(seq![entry]) == match record_of(entry) {
        Some(r) => Seq::<(Seq<char>, Ipv4)>::empty().push(r),
        None => Seq::<(Seq<char>, Ipv4)>::empty(),
    });
    match entry.1 {
        ConfigValue::Text(t) => match parsed_ipv4(t@) {
            Some(ip) => {
                assert(Seq::<(Seq<char>, Ipv4)>::empty().push((entry.0@, ip)) =~= seq![
                    (entry.0@, ip),
                ]);
            },
            None => {},
        },
        ConfigValue::Other => {},
    }
}

/// Each entry gives its record independently of its neighbours: the records
/// of two runs of entries are the records of the first followed by those of
/// the second.
pub proof fn law_records_of_concat(a: Seq<(String, ConfigValue)>, b: Seq<(String, ConfigValue)>)
    ensures
        records_of(a + b) == records_of(a) + records_of(b),
    decreases b.len(),
{
    if b.len() == 0 {
        assert(a + b =~= a);
        assert(records_of(a) + records_of(b) =~= records_of(a));
    } else {
        assert((a + b).drop_last() =~= a + b.drop_last());
        assert((a + b).last() == b.last());
        law_records_of_concat(a, b.drop_last());
        let r = records_of(a);
        let s = records_of(b.drop_last());
        match record_of(b.last()) {
            Some(x) => {
                assert((r + s).push(x) =~= r + s.push(x));
            },
            None => {},
        }
    }
}

} // verus!
