//! The resolver: read-only indices assembled from the network descriptors,
//! and the queries answered from them.
use vstd::prelude::*;
use crate::ip::IpAddress;
use crate::table::{
    table, distinct_keys, seq_or_empty, get_value, extend_vec, clone_vec,
};
use crate::text::{lower_of, lowercase};

verus! {

/// The answer to a forward lookup.
#[derive(Debug)]
pub enum DNSResult {
    /// Addresses of the name on the requester's networks: for each network in
    /// order, IPv4 addresses before IPv6 ones.
    Success(Vec<IpAddress>),
    /// The name exists but holds no address of the family asked for. `lookup`
    /// never gives it, as it leaves the family to its caller.
    NoRecord,
    /// The name is unknown to the requester.
    NXDomain,
    /// The name is unknown here; the query goes to these upstream servers in order.
    Forward(Vec<IpAddress>),
}

/// What a `DNSResult` says, over sequences.
pub enum Answer {
    Success(Seq<IpAddress>),
    NoRecord,
    NXDomain,
    Forward(Seq<IpAddress>),
}

impl View for DNSResult {
    type V = Answer;

    open spec fn view(&self) -> Answer {
        match self {
            DNSResult::Success(v) => Answer::Success(v.deep_view()),
            DNSResult::NoRecord => Answer::NoRecord,
            DNSResult::NXDomain => Answer::NXDomain,
            DNSResult::Forward(v) => Answer::Forward(v.deep_view()),
        }
    }
}

/// The four indices of a backend, as maps.
pub struct BackendView {
    /// Networks that each container address belongs to.
    pub ip_nets: Map<IpAddress, Seq<Seq<char>>>,
    /// Addresses under each (network, lowercased name or id).
    pub names: Map<(Seq<char>, Seq<char>), Seq<IpAddress>>,
    /// Names under each (network, address).
    pub reverse: Map<(Seq<char>, IpAddress), Seq<Seq<char>>>,
    /// Upstream servers declared for each container address.
    pub dns: Map<IpAddress, Option<Seq<IpAddress>>>,
}

/// The assembled lookup indices. Each is a table of distinct keys.
pub struct DNSBackend {
    pub ip_mappings: Vec<(IpAddress, Vec<String>)>,
    pub name_mappings: Vec<((String, String), Vec<IpAddress>)>,
    pub reverse_mappings: Vec<((String, IpAddress), Vec<String>)>,
    pub ctr_dns_server: Vec<(IpAddress, Option<Vec<IpAddress>>)>,
}

impl View for DNSBackend {
    type V = BackendView;

    open spec fn view(&self) -> BackendView {
        BackendView {
            ip_nets: table(self.ip_mappings@),
            names: table(self.name_mappings@),
            reverse: table(self.reverse_mappings@),
            dns: table(self.ctr_dns_server@),
        }
    }
}

/// Addresses of `q` over the networks `nets`, network by network.
pub open spec fn gather(b: BackendView, nets: Seq<Seq<char>>, q: Seq<char>) -> Seq<IpAddress>
    decreases nets.len(),
{
    if nets.len() == 0 {
        Seq::empty()
    } else {
        gather(b, nets.drop_last(), q) + seq_or_empty(b.names, (nets.last(), q))
    }
}

/// Upstream servers declared for the container at `s`.
pub open spec fn upstream_of(b: BackendView, s: IpAddress) -> Option<Seq<IpAddress>> {
    if b.dns.contains_key(s) {
        b.dns[s]
    } else {
        None
    }
}

/// Forward lookup of the (already lowercased) name `q` asked by `s`.
pub open spec fn lookup_spec(b: BackendView, s: IpAddress, q: Seq<char>) -> Answer {
    if !b.ip_nets.contains_key(s) {
        Answer::NXDomain
    } else if gather(b, b.ip_nets[s], q).len() > 0 {
        Answer::Success(gather(b, b.ip_nets[s], q))
    } else if upstream_of(b, s) is Some && upstream_of(b, s)->0.len() > 0 {
        Answer::Forward(upstream_of(b, s)->0)
    } else {
        Answer::NXDomain
    }
}

/// The first non-empty list of names of `t` over the networks `nets`.
pub open spec fn first_names(b: BackendView, nets: Seq<Seq<char>>, t: IpAddress) -> Option<
    Seq<Seq<char>>,
>
    decreases nets.len(),
{
    if nets.len() == 0 {
        None
    } else if b.reverse.contains_key((nets[0], t)) && b.reverse[(nets[0], t)].len() > 0 {
        Some(b.reverse[(nets[0], t)])
    } else {
        first_names(b, nets.drop_first(), t)
    }
}

/// Reverse lookup of `t` asked by `s`.
pub open spec fn reverse_spec(b: BackendView, s: IpAddress, t: IpAddress) -> Option<Seq<Seq<char>>> {
    if !b.ip_nets.contains_key(s) {
        None
    } else {
        first_names(b, b.ip_nets[s], t)
    }
}

impl DNSBackend {
    pub open spec fn wf(&self) -> bool {
        &&& distinct_keys(self.ip_mappings@)
        &&& distinct_keys(self.name_mappings@)
        &&& distinct_keys(self.reverse_mappings@)
        &&& distinct_keys(self.ctr_dns_server@)
    }

    /// Forward lookup of a name that is already lowercased.
    pub fn lookup_name(&self, requester: &IpAddress, name: &String) -> (r: DNSResult)
        requires
            self.wf(),
        ensures
            r@ == lookup_spec(self@, *requester, name@),
    {
        let nets = match get_value(&self.ip_mappings, requester) {
            Some(n) => n,
            None => return DNSResult::NXDomain,
        };
        let ghost ns = nets.deep_view();
        let mut out: Vec<IpAddress> = Vec::new();
        let mut i: usize = 0;
        while i < nets.len()
            invariant
                self.wf(),
                ns == nets.deep_view(),
                i <= nets.len(),
                out.deep_view() == gather(self@, ns.take(i as int), name@),
            decreases nets.len() - i,
        {
            let key = (nets[i].clone(), name.clone());
            assert(ns.take(i + 1).drop_last() =~= ns.take(i as int));
            match get_value(&self.name_mappings, &key) {
                Some(ips) => {
                    extend_vec(&mut out, ips);
                },
                None => {
                    assert(out.deep_view() =~= out.deep_view() + Seq::<IpAddress>::empty());
                },
            }
            i += 1;
        }
        assert(ns.take(nets.len() as int) =~= ns);
        if out.len() > 0 {
            return DNSResult::Success(out);
        }
        match self.get_upstream(requester) {
            Some(up) => {
                if up.len() > 0 {
                    DNSResult::Forward(up)
                } else {
                    DNSResult::NXDomain
                }
            },
            None => DNSResult::NXDomain,
        }
    }

    /// Forward lookup: the query name is compared in lowercase.
    pub fn lookup(&self, requester: &IpAddress, entry: &str) -> (r: DNSResult)
        requires
            self.wf(),
        ensures
            r@ == lookup_spec(self@, *requester, lower_of(entry@)),
    {
        let name = lowercase(entry);
        self.lookup_name(requester, &name)
    }

    /// Reverse lookup: the names of `entry` on the first of the requester's
    /// networks that knows it.
    pub fn reverse_lookup(&self, requester: &IpAddress, entry: &IpAddress) -> (r: Option<&Vec<String>>)
        requires
            self.wf(),
        ensures
            match r {
                Some(v) => reverse_spec(self@, *requester, *entry) == Some(v.deep_view()),
                None => reverse_spec(self@, *requester, *entry) is None,
            },
    {
        let nets = match get_value(&self.ip_mappings, requester) {
            Some(n) => n,
            None => return None,
        };
        let ghost ns = nets.deep_view();
        let mut i: usize = 0;
        assert(ns.skip(0) =~= ns);
        while i < nets.len()
            invariant
                self.wf(),
                ns == nets.deep_view(),
                self@.ip_nets.contains_key(*requester),
                self@.ip_nets[*requester] == ns,
                i <= nets.len(),
                first_names(self@, ns, *entry) == first_names(self@, ns.skip(i as int), *entry),
            decreases nets.len() - i,
        {
            let key = (nets[i].clone(), *entry);
            let ghost rest = ns.skip(i as int);
            assert(rest[0] == ns[i as int]);
            assert(rest.drop_first() =~= ns.skip(i + 1));
            match get_value(&self.reverse_mappings, &key) {
                Some(names) => {
                    if names.len() > 0 {
                        assert(key.deep_view() == (rest[0], *entry));
                        assert(first_names(self@, rest, *entry) == Some(names.deep_view()));
                        return Some(names);
                    }
                },
                None => {},
            }
            i += 1;
        }
        None
    }

    /// Networks that the container address `ip` belongs to.
    pub fn ip_mapping(&self, ip: &IpAddress) -> (r: Option<&Vec<String>>)
        requires
            self.wf(),
        ensures
            match r {
                Some(v) => self@.ip_nets.contains_key(*ip) && self@.ip_nets[*ip] == v.deep_view(),
                None => !self@.ip_nets.contains_key(*ip),
            },
    {
        get_value(&self.ip_mappings, ip)
    }

    /// Addresses filed under `name` on `network`.
    pub fn name_mapping(&self, network: &str, name: &str) -> (r: Option<&Vec<IpAddress>>)
        requires
            self.wf(),
        ensures
            match r {
                Some(v) => self@.names.contains_key((network@, name@)) && self@.names[(
                    network@,
                    name@,
                )] == v.deep_view(),
                None => !self@.names.contains_key((network@, name@)),
            },
    {
        let key = (String::from_str(network), String::from_str(name));
        get_value(&self.name_mappings, &key)
    }

    /// Names filed under the address `ip` on `network`.
    pub fn reverse_mapping(&self, network: &str, ip: &IpAddress) -> (r: Option<&Vec<String>>)
        requires
            self.wf(),
        ensures
            match r {
                Some(v) => self@.reverse.contains_key((network@, *ip)) && self@.reverse[(
                    network@,
                    *ip,
                )] == v.deep_view(),
                None => !self@.reverse.contains_key((network@, *ip)),
            },
    {
        let key = (String::from_str(network), *ip);
        get_value(&self.reverse_mappings, &key)
    }

    /// The upstream record of the container address `ip`: absent, or present
    /// with or without servers.
    pub fn dns_server(&self, ip: &IpAddress) -> (r: Option<&Option<Vec<IpAddress>>>)
        requires
            self.wf(),
        ensures
            match r {
                Some(v) => self@.dns.contains_key(*ip) && self@.dns[*ip] == v.deep_view(),
                None => !self@.dns.contains_key(*ip),
            },
    {
        get_value(&self.ctr_dns_server, ip)
    }

    /// Upstream servers declared for the container at `requester`.
    pub fn get_upstream(&self, requester: &IpAddress) -> (r: Option<Vec<IpAddress>>)
        requires
            self.wf(),
        ensures
            match r {
                Some(v) => upstream_of(self@, *requester) == Some(v.deep_view()),
                None => upstream_of(self@, *requester) is None,
            },
    {
        match get_value(&self.ctr_dns_server, requester) {
            Some(Some(v)) => Some(clone_vec(v)),
            _ => None,
        }
    }
}

} // verus!
