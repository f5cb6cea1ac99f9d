//! The table of well-known services and the lookup of a port's service name.

use std::collections::HashMap;
use vstd::prelude::*;
use vstd::std_specs::hash::*;

verus! {

broadcast use group_hash_axioms;

/// Well-known services as `(name, port)` pairs.
pub const COMMON_SERVICES: [(&'static str, u16); 16] = [
    ("SSH", 22),
    ("HTTP", 80),
    ("HTTPS", 443),
    ("FTP", 21),
    ("SMTP", 25),
    ("DNS", 53),
    ("MySQL", 3306),
    ("PostgreSQL", 5432),
    ("Redis", 6379),
    ("MongoDB", 27017),
    ("RDP", 3389),
    ("Telnet", 23),
    ("IMAP", 143),
    ("SNMP", 161),
    ("SMB", 445),
    ("LDAP", 389),
];

/// The name that `table` gives to `port`, if it lists the port; where a port
/// is listed more than once, the last entry counts.
pub open spec fn table_lookup(table: Seq<(&'static str, u16)>, port: u16) -> Option<Seq<char>>
    decreases table.len(),
{
    if table.len() == 0 {
        None
    } else if table.last().1 == port {
        Some(table.last().0@)
    } else {
        table_lookup(table.drop_last(), port)
    }
}

/// The service name of `port` according to [`COMMON_SERVICES`].
pub open spec fn service_name(port: u16) -> Option<Seq<char>> {
    table_lookup(COMMON_SERVICES@, port)
}

/// The characters of an optional name.
pub open spec fn name_view(name: Option<String>) -> Option<Seq<char>> {
    match name {
        Some(s) => Some(s@),
        None => None,
    }
}

/// What a map from ports to names says about `port`.
pub open spec fn map_lookup(names: Map<u16, String>, port: u16) -> Option<Seq<char>> {
    if names.contains_key(port) {
        Some(names[port]@)
    } else {
        None
    }
}

/// Adding an entry at the end of a table changes the lookup of that entry's
/// port only.
proof fn lemma_lookup_push(table: Seq<(&'static str, u16)>, entry: (&'static str, u16), port: u16)
    ensures
        table_lookup(table.push(entry), port) == if entry.1 == port {
            Some(entry.0@)
        } else {
            table_lookup(table, port)
        },
{
    assert(table.push(entry).drop_last() =~= table);
}

/// What the table says, port by port: sixteen ports carry a name and every
/// other port has none.
pub proof fn lemma_service_names(port: u16)
    ensures
        service_name(port) == if port == 22 {
            Some("SSH"@)
        } else if port == 80 {
            Some("HTTP"@)
        } else if port == 443 {
            Some("HTTPS"@)
        } else if port == 21 {
            Some("FTP"@)
        } else if port == 25 {
            Some("SMTP"@)
        } else if port == 53 {
            Some("DNS"@)
        } else if port == 3306 {
            Some("MySQL"@)
        } else if port == 5432 {
            Some("PostgreSQL"@)
        } else if port == 6379 {
            Some("Redis"@)
        } else if port == 27017 {
            Some("MongoDB"@)
        } else if port == 3389 {
            Some("RDP"@)
        } else if port == 23 {
            Some("Telnet"@)
        } else if port == 143 {
            Some("IMAP"@)
        } else if port == 161 {
            Some("SNMP"@)
        } else if port == 445 {
            Some("SMB"@)
        } else if port == 389 {
            Some("LDAP"@)
        } else {
            None
        },
{
    reveal_with_fuel(table_lookup, 17);
}

/// The service table in a form that answers lookups in constant expected time.
pub struct ServiceTable {
    names: HashMap<u16, String>,
}

impl ServiceTable {
    #[verifier::type_invariant]
    spec fn agrees_with_table(self) -> bool {
        forall|port: u16| map_lookup(self.names@, port) == service_name(port)
    }

    /// The name that this table gives to `port`, if it gives one.
    pub closed spec fn lookup(&self, port: u16) -> Option<Seq<char>> {
        map_lookup(self.names@, port)
    }

    /// Builds the lookup table from [`COMMON_SERVICES`].
    pub fn new() -> (table: ServiceTable)
        ensures
            forall|port: u16| #[trigger] table.lookup(port) == service_name(port),
    {
        let mut names: HashMap<u16, String> = HashMap::new();
        let mut i: usize = 0;
        while i < 16
            invariant
                i <= 16,
                forall|port: u16| #[trigger]
                    map_lookup(names@, port) == table_lookup(COMMON_SERVICES@.take(i as int), port),
            decreases 16 - i,
        {
            let entry = COMMON_SERVICES[i];
            let name = entry.0.to_owned();
            proof {
                assert(COMMON_SERVICES@.take(i + 1) =~= COMMON_SERVICES@.take(i as int).push(entry));
                assert forall|port: u16| #[trigger]
                    map_lookup(names@.insert(entry.1, name), port) == table_lookup(
                        COMMON_SERVICES@.take(i + 1),
                        port,
                    ) by {
                    lemma_lookup_push(COMMON_SERVICES@.take(i as int), entry, port);
                    assert(map_lookup(names@, port) == table_lookup(
                        COMMON_SERVICES@.take(i as int),
                        port,
                    ));
                }
            }
            names.insert(entry.1, name);
            i = i + 1;
        }
        proof {
            assert(COMMON_SERVICES@.take(16) =~= COMMON_SERVICES@);
        }
        ServiceTable { names }
    }

    /// The service name of `port`, or `None` for a port that is not listed.
    pub fn name_for(&self, port: u16) -> (name: Option<String>)
        ensures
            name_view(name) == service_name(port),
            name_view(name) == self.lookup(port),
    {
        proof {
            use_type_invariant(self);
            assert(map_lookup(self.names@, port) == service_name(port));
        }
        match self.names.get(&port) {
            Some(found) => Some(found.clone()),
            None => None,
        }
    }
}

} // verus!
