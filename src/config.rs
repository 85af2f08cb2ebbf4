//! Network descriptors: their text format, and the assembly of many of them
//! into a backend and the addresses to listen on.
use vstd::prelude::*;
use crate::ip::{IpAddress, ip_of, ipv4_of, ipv6_of, parse_ip, parse_ipv4, parse_ipv6};
use crate::table::lemma_push_deep_view;
use crate::text::{split, split_chars, pieces_view, chars_of, lower_of, lowercase, string_from_chars};

verus! {

/// Why a descriptor was refused.
#[derive(Clone, Copy, Debug, PartialEq, Eq, Structural)]
pub enum ConfigError {
    /// An address literal that does not parse, or is of the wrong family.
    BadAddress,
    /// A container line with fewer than four space-separated fields.
    TooFewFields,
    /// A container line whose name list is empty.
    NoNames,
    /// A descriptor without a line of bind addresses.
    NoBindAddress,
}

/// One container line of a descriptor.
pub struct CtrEntry {
    /// Container id, lowercased.
    pub id: String,
    /// IPv4 addresses, in descriptor order.
    pub v4: Vec<u32>,
    /// IPv6 addresses, in descriptor order.
    pub v6: Vec<u128>,
    /// Names and aliases, lowercased.
    pub aliases: Vec<String>,
    /// Upstream servers, when the line declares some.
    pub dns_servers: Option<Vec<IpAddress>>,
}

pub struct EntryView {
    pub id: Seq<char>,
    pub v4: Seq<u32>,
    pub v6: Seq<u128>,
    pub aliases: Seq<Seq<char>>,
    pub dns: Option<Seq<IpAddress>>,
}

impl View for CtrEntry {
    type V = EntryView;

    open spec fn view(&self) -> EntryView {
        EntryView {
            id: self.id@,
            v4: self.v4.deep_view(),
            v6: self.v6.deep_view(),
            aliases: self.aliases.deep_view(),
            dns: self.dns_servers.deep_view(),
        }
    }
}

pub open spec fn entries_view(es: Seq<CtrEntry>) -> Seq<EntryView> {
    es.map_values(|e: CtrEntry| e@)
}

/// A comma-separated list of addresses of either family.
pub open spec fn ip_list_of(s: Seq<char>) -> Option<Seq<IpAddress>> {
    let p = split(s, ',');
    if forall|i: int| 0 <= i < p.len() ==> (#[trigger] ip_of(p[i])) is Some {
        Some(p.map_values(|x: Seq<char>| ip_of(x)->0))
    } else {
        None
    }
}

/// A comma-separated list of IPv4 addresses; the empty field is the empty list.
pub open spec fn v4_list_of(s: Seq<char>) -> Option<Seq<u32>> {
    let p = split(s, ',');
    if s.len() == 0 {
        Some(Seq::empty())
    } else if forall|i: int| 0 <= i < p.len() ==> (#[trigger] ipv4_of(p[i])) is Some {
        Some(p.map_values(|x: Seq<char>| ipv4_of(x)->0))
    } else {
        None
    }
}

/// A comma-separated list of IPv6 addresses; the empty field is the empty list.
pub open spec fn v6_list_of(s: Seq<char>) -> Option<Seq<u128>> {
    let p = split(s, ',');
    if s.len() == 0 {
        Some(Seq::empty())
    } else if forall|i: int| 0 <= i < p.len() ==> (#[trigger] ipv6_of(p[i])) is Some {
        Some(p.map_values(|x: Seq<char>| ipv6_of(x)->0))
    } else {
        None
    }
}

/// Whether the fields of a container line declare upstream servers.
pub open spec fn declares_dns(p: Seq<Seq<char>>) -> bool {
    p.len() == 5 && p[4].len() > 0
}

/// A container line: `<id> <v4-list> <v6-list> <name-list> [<dns-list>]`.
pub open spec fn entry_of(l: Seq<char>) -> Result<EntryView, ConfigError> {
    let p = split(l, ' ');
    if p.len() < 4 {
        Err(ConfigError::TooFewFields)
    } else if v4_list_of(p[1]) is None || v6_list_of(p[2]) is None {
        Err(ConfigError::BadAddress)
    } else if p[3].len() == 0 {
        Err(ConfigError::NoNames)
    } else if declares_dns(p) && ip_list_of(p[4]) is None {
        Err(ConfigError::BadAddress)
    } else {
        Ok(
            EntryView {
                id: lower_of(p[0]),
                v4: v4_list_of(p[1])->0,
                v6: v6_list_of(p[2])->0,
                aliases: split(p[3], ',').map_values(|x: Seq<char>| lower_of(x)),
                dns: if declares_dns(p) {
                    ip_list_of(p[4])
                } else {
                    None
                },
            },
        )
    }
}

/// The bind addresses (once the first non-blank line is read) and the
/// container entries of a sequence of lines; blank lines are skipped.
pub open spec fn parse_lines(ls: Seq<Seq<char>>) -> Result<
    (Option<Seq<IpAddress>>, Seq<EntryView>),
    ConfigError,
>
    decreases ls.len(),
{
    if ls.len() == 0 {
        Ok((None, Seq::empty()))
    } else {
        match parse_lines(ls.drop_last()) {
            Err(e) => Err(e),
            Ok((bind, es)) => {
                let l = ls.last();
                if l.len() == 0 {
                    Ok((bind, es))
                } else if bind is None {
                    match ip_list_of(l) {
                        Some(b) => Ok((Some(b), es)),
                        None => Err(ConfigError::BadAddress),
                    }
                } else {
                    match entry_of(l) {
                        Ok(e) => Ok((bind, es.push(e))),
                        Err(x) => Err(x),
                    }
                }
            },
        }
    }
}

/// A whole descriptor: its bind addresses and its container entries.
pub open spec fn config_of(text: Seq<char>) -> Result<(Seq<IpAddress>, Seq<EntryView>), ConfigError> {
    match parse_lines(split(text, '\n')) {
        Err(e) => Err(e),
        Ok((None, _)) => Err(ConfigError::NoBindAddress),
        Ok((Some(b), es)) => Ok((b, es)),
    }
}

/// Reads a comma-separated list of addresses of either family.
pub fn parse_ip_list(s: &Vec<char>) -> (r: Option<Vec<IpAddress>>)
    ensures
        match r {
            Some(v) => ip_list_of(s@) == Some(v.deep_view()),
            None => ip_list_of(s@) is None,
        },
{
    let parts = split_chars(s, ',');
    let ghost p = split(s@, ',');
    let mut out: Vec<IpAddress> = Vec::new();
    let mut i: usize = 0;
    while i < parts.len()
        invariant
            pieces_view(parts@) == p,
            p == split(s@, ','),
            i <= parts.len(),
            out.deep_view() == p.take(i as int).map_values(|x: Seq<char>| ip_of(x)->0),
            forall|j: int| 0 <= j < i ==> (#[trigger] ip_of(p[j])) is Some,
        decreases parts.len() - i,
    {
        assert(parts@[i as int]@ == p[i as int]);
        match parse_ip(&parts[i]) {
            Some(a) => {
                let ghost o = out@;
                out.push(a);
                proof {
                    lemma_push_deep_view(o, out@, out@.last());
                }
            },
            None => {
                assert(!(ip_of(p[i as int]) is Some));
                return None;
            },
        }
        i += 1;
        assert(out.deep_view() =~= p.take(i as int).map_values(|x: Seq<char>| ip_of(x)->0));
    }
    assert(p.take(p.len() as int) =~= p);
    Some(out)
}

/// Reads a comma-separated list of IPv4 addresses.
pub fn parse_v4_list(s: &Vec<char>) -> (r: Option<Vec<u32>>)
    ensures
        match r {
            Some(v) => v4_list_of(s@) == Some(v.deep_view()),
            None => v4_list_of(s@) is None,
        },
{
    let mut out: Vec<u32> = Vec::new();
    if s.len() == 0 {
        assert(out.deep_view() =~= Seq::<u32>::empty());
        return Some(out);
    }
    let parts = split_chars(s, ',');
    let ghost p = split(s@, ',');
    let mut i: usize = 0;
    while i < parts.len()
        invariant
            s.len() > 0,
            pieces_view(parts@) == p,
            p == split(s@, ','),
            i <= parts.len(),
            out.deep_view() == p.take(i as int).map_values(|x: Seq<char>| ipv4_of(x)->0),
            forall|j: int| 0 <= j < i ==> (#[trigger] ipv4_of(p[j])) is Some,
        decreases parts.len() - i,
    {
        assert(parts@[i as int]@ == p[i as int]);
        match parse_ipv4(&parts[i]) {
            Some(a) => {
                let ghost o = out@;
                out.push(a);
                proof {
                    lemma_push_deep_view(o, out@, out@.last());
                }
            },
            None => {
                assert(!(ipv4_of(p[i as int]) is Some));
                return None;
            },
        }
        i += 1;
        assert(out.deep_view() =~= p.take(i as int).map_values(|x: Seq<char>| ipv4_of(x)->0));
    }
    assert(p.take(p.len() as int) =~= p);
    Some(out)
}

/// Reads a comma-separated list of IPv6 addresses.
pub fn parse_v6_list(s: &Vec<char>) -> (r: Option<Vec<u128>>)
    ensures
        match r {
            Some(v) => v6_list_of(s@) == Some(v.deep_view()),
            None => v6_list_of(s@) is None,
        },
{
    let mut out: Vec<u128> = Vec::new();
    if s.len() == 0 {
        assert(out.deep_view() =~= Seq::<u128>::empty());
        return Some(out);
    }
    let parts = split_chars(s, ',');
    let ghost p = split(s@, ',');
    let mut i: usize = 0;
    while i < parts.len()
        invariant
            s.len() > 0,
            pieces_view(parts@) == p,
            p == split(s@, ','),
            i <= parts.len(),
            out.deep_view() == p.take(i as int).map_values(|x: Seq<char>| ipv6_of(x)->0),
            forall|j: int| 0 <= j < i ==> (#[trigger] ipv6_of(p[j])) is Some,
        decreases parts.len() - i,
    {
        assert(parts@[i as int]@ == p[i as int]);
        match parse_ipv6(&parts[i]) {
            Some(a) => {
                let ghost o = out@;
                out.push(a);
                proof {
                    lemma_push_deep_view(o, out@, out@.last());
                }
            },
            None => {
                assert(!(ipv6_of(p[i as int]) is Some));
                return None;
            },
        }
        i += 1;
        assert(out.deep_view() =~= p.take(i as int).map_values(|x: Seq<char>| ipv6_of(x)->0));
    }
    assert(p.take(p.len() as int) =~= p);
    Some(out)
}

/// Lowercased copies of the comma-separated names of `s`.
pub fn parse_names(s: &Vec<char>) -> (r: Vec<String>)
    ensures
        r.deep_view() == split(s@, ',').map_values(|x: Seq<char>| lower_of(x)),
{
    let parts = split_chars(s, ',');
    let ghost p = split(s@, ',');
    let mut out: Vec<String> = Vec::new();
    let mut i: usize = 0;
    while i < parts.len()
        invariant
            pieces_view(parts@) == p,
            i <= parts.len(),
            out.deep_view() == p.take(i as int).map_values(|x: Seq<char>| lower_of(x)),
        decreases parts.len() - i,
    {
        assert(parts@[i as int]@ == p[i as int]);
        let raw = string_from_chars(&parts[i]);
        let name = lowercase(raw.as_str());
        let ghost o = out@;
        out.push(name);
        proof {
            lemma_push_deep_view(o, out@, out@.last());
        }
        i += 1;
        assert(out.deep_view() =~= p.take(i as int).map_values(|x: Seq<char>| lower_of(x)));
    }
    assert(p.take(p.len() as int) =~= p);
    out
}

/// Once a prefix of the lines fails, the whole sequence fails the same way.
pub proof fn lemma_parse_lines_err(ls: Seq<Seq<char>>, k: int)
    requires
        0 <= k <= ls.len(),
        parse_lines(ls.take(k)) is Err,
    ensures
        parse_lines(ls) == parse_lines(ls.take(k)),
    decreases ls.len() - k,
{
    if k < ls.len() {
        assert(ls.take(k + 1).drop_last() =~= ls.take(k));
        lemma_parse_lines_err(ls, k + 1);
    } else {
        assert(ls.take(k) =~= ls);
    }
}

/// Reads one container line.
pub fn parse_entry(line: &Vec<char>) -> (r: Result<CtrEntry, ConfigError>)
    ensures
        match r {
            Ok(e) => entry_of(line@) == Ok::<EntryView, ConfigError>(e@),
            Err(x) => entry_of(line@) == Err::<EntryView, ConfigError>(x),
        },
{
    let parts = split_chars(line, ' ');
    let ghost p = split(line@, ' ');
    if parts.len() < 4 {
        return Err(ConfigError::TooFewFields);
    }
    assert(parts@[1]@ == p[1] && parts@[2]@ == p[2] && parts@[3]@ == p[3] && parts@[0]@ == p[0]);
    let v4 = match parse_v4_list(&parts[1]) {
        Some(v) => v,
        None => return Err(ConfigError::BadAddress),
    };
    let v6 = match parse_v6_list(&parts[2]) {
        Some(v) => v,
        None => return Err(ConfigError::BadAddress),
    };
    if parts[3].len() == 0 {
        return Err(ConfigError::NoNames);
    }
    let dns_servers = if parts.len() == 5 && parts[4].len() > 0 {
        assert(parts@[4]@ == p[4]);
        match parse_ip_list(&parts[4]) {
            Some(v) => Some(v),
            None => return Err(ConfigError::BadAddress),
        }
    } else {
        None
    };
    let aliases = parse_names(&parts[3]);
    let raw_id = string_from_chars(&parts[0]);
    let id = lowercase(raw_id.as_str());
    Ok(CtrEntry { id, v4, v6, aliases, dns_servers })
}

/// Reads a whole descriptor: the first non-blank line lists the bind
/// addresses, every later non-blank line is a container line.
pub fn parse_config(text: &str) -> (r: Result<(Vec<IpAddress>, Vec<CtrEntry>), ConfigError>)
    ensures
        match r {
            Ok((b, es)) => config_of(text@) == Ok::<(Seq<IpAddress>, Seq<EntryView>), ConfigError>(
                (b.deep_view(), entries_view(es@)),
            ),
            Err(x) => config_of(text@) == Err::<(Seq<IpAddress>, Seq<EntryView>), ConfigError>(x),
        },
{
    let cs = chars_of(text);
    let lines = split_chars(&cs, '\n');
    let ghost ls = split(text@, '\n');
    let mut bind: Option<Vec<IpAddress>> = None;
    let mut es: Vec<CtrEntry> = Vec::new();
    let mut i: usize = 0;
    assert(ls.take(0).len() == 0);
    assert(entries_view(es@) =~= Seq::<EntryView>::empty());
    while i < lines.len()
        invariant
            pieces_view(lines@) == ls,
            ls == split(text@, '\n'),
            i <= lines.len(),
            parse_lines(ls.take(i as int)) == Ok::<(Option<Seq<IpAddress>>, Seq<EntryView>), ConfigError>(
                (bind.deep_view(), entries_view(es@)),
            ),
        decreases lines.len() - i,
    {
        assert(ls.take(i + 1).drop_last() =~= ls.take(i as int));
        assert(lines@[i as int]@ == ls[i as int]);
        let line = &lines[i];
        if line.len() == 0 {
        } else if bind.is_none() {
            match parse_ip_list(line) {
                Some(b) => {
                    bind = Some(b);
                },
                None => {
                    proof {
                        lemma_parse_lines_err(ls, i + 1);
                    }
                    return Err(ConfigError::BadAddress);
                },
            }
        } else {
            match parse_entry(line) {
                Ok(e) => {
                    let ghost old_es = es@;
                    es.push(e);
                    assert(entries_view(es@) =~= entries_view(old_es).push(e@));
                },
                Err(x) => {
                    proof {
                        lemma_parse_lines_err(ls, i + 1);
                    }
                    return Err(x);
                },
            }
        }
        i += 1;
    }
    assert(ls.take(lines.len() as int) =~= ls);
    match bind {
        Some(b) => Ok((b, es)),
        None => Err(ConfigError::NoBindAddress),
    }
}

} // verus!
