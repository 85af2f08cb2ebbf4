//! Assembly of parsed descriptors into the backend indices and the
//! per-network listen addresses.
use vstd::prelude::*;
use crate::backend::{BackendView, DNSBackend};
use crate::config::{ConfigError, CtrEntry, EntryView, config_of, parse_config, entries_view};
use crate::ip::IpAddress;
use crate::table::{
    table, distinct_keys, seq_or_empty, push_new, extend_at, add_new_at, put, get_value,
    clone_vec, lemma_push_deep_view,
};

verus! {

/// Name of the pid file that may sit among the descriptors.
pub const AARDVARK_PID_FILE: &'static str = "aardvark.pid";

/// What has been gathered from the descriptors read so far.
pub struct LoadState {
    /// Container ids, in order of first appearance.
    pub ids: Seq<Seq<char>>,
    /// Networks of each container, without repeats.
    pub networks_of: Map<Seq<char>, Seq<Seq<char>>>,
    /// Addresses of each container over all its networks.
    pub ips_of: Map<Seq<char>, Seq<IpAddress>>,
    pub names: Map<(Seq<char>, Seq<char>), Seq<IpAddress>>,
    pub reverse: Map<(Seq<char>, IpAddress), Seq<Seq<char>>>,
    pub dns: Map<IpAddress, Option<Seq<IpAddress>>>,
    pub listen4: Map<Seq<char>, Seq<u32>>,
    pub listen6: Map<Seq<char>, Seq<u128>>,
}

pub open spec fn empty_state() -> LoadState {
    LoadState {
        ids: Seq::empty(),
        networks_of: Map::empty(),
        ips_of: Map::empty(),
        names: Map::empty(),
        reverse: Map::empty(),
        dns: Map::empty(),
        listen4: Map::empty(),
        listen6: Map::empty(),
    }
}

/// Records the bind addresses of network `n`, by family, in order.
pub open spec fn add_binds(st: LoadState, n: Seq<char>, b: Seq<IpAddress>) -> LoadState
    decreases b.len(),
{
    if b.len() == 0 {
        st
    } else {
        let s = add_binds(st, n, b.drop_last());
        match b.last() {
            IpAddress::V4(a) => LoadState {
                listen4: s.listen4.insert(n, seq_or_empty(s.listen4, n).push(a)),
                ..s
            },
            IpAddress::V6(a) => LoadState {
                listen6: s.listen6.insert(n, seq_or_empty(s.listen6, n).push(a)),
                ..s
            },
        }
    }
}

/// All addresses of an entry: IPv4 ones, then IPv6 ones, each in descriptor order.
pub open spec fn entry_ips(e: EntryView) -> Seq<IpAddress> {
    e.v4.map_values(|a: u32| IpAddress::V4(a)) + e.v6.map_values(|a: u128| IpAddress::V6(a))
}

/// Files each address of `ips` on network `n` under the names `names`, with
/// upstream servers `dns`.
pub open spec fn add_ip_records(
    st: LoadState,
    n: Seq<char>,
    ips: Seq<IpAddress>,
    names: Seq<Seq<char>>,
    dns: Option<Seq<IpAddress>>,
) -> LoadState
    decreases ips.len(),
{
    if ips.len() == 0 {
        st
    } else {
        let s = add_ip_records(st, n, ips.drop_last(), names, dns);
        let k = (n, ips.last());
        LoadState {
            reverse: s.reverse.insert(k, seq_or_empty(s.reverse, k) + names),
            dns: s.dns.insert(ips.last(), dns),
            ..s
        }
    }
}

/// Files the addresses `ips` on network `n` under each name of `names`.
pub open spec fn add_names(
    st: LoadState,
    n: Seq<char>,
    names: Seq<Seq<char>>,
    ips: Seq<IpAddress>,
) -> LoadState
    decreases names.len(),
{
    if names.len() == 0 {
        st
    } else {
        let s = add_names(st, n, names.drop_last(), ips);
        let k = (n, names.last());
        LoadState { names: s.names.insert(k, seq_or_empty(s.names, k) + ips), ..s }
    }
}

/// Records that container `id` is on network `n`.
pub open spec fn add_membership(st: LoadState, n: Seq<char>, id: Seq<char>) -> LoadState {
    LoadState {
        ids: if st.networks_of.contains_key(id) {
            st.ids
        } else {
            st.ids.push(id)
        },
        networks_of: st.networks_of.insert(id, push_new(seq_or_empty(st.networks_of, id), n)),
        ..st
    }
}

/// Records one container line of network `n`.
pub open spec fn add_entry(st: LoadState, n: Seq<char>, e: EntryView) -> LoadState {
    let ips = entry_ips(e);
    let s1 = add_membership(st, n, e.id);
    let s2 = add_ip_records(s1, n, ips, e.aliases, e.dns);
    let s3 = LoadState { ips_of: s2.ips_of.insert(e.id, seq_or_empty(s2.ips_of, e.id) + ips), ..s2 };
    add_names(s3, n, e.aliases, ips)
}

pub open spec fn add_entries(st: LoadState, n: Seq<char>, es: Seq<EntryView>) -> LoadState
    decreases es.len(),
{
    if es.len() == 0 {
        st
    } else {
        add_entry(add_entries(st, n, es.drop_last()), n, es.last())
    }
}

/// Reads the descriptors in order; the pid file is passed over, and the first
/// descriptor that fails stops the load with its name.
pub open spec fn load_files(files: Seq<(Seq<char>, Seq<char>)>) -> Result<
    LoadState,
    (Seq<char>, ConfigError),
>
    decreases files.len(),
{
    if files.len() == 0 {
        Ok(empty_state())
    } else {
        match load_files(files.drop_last()) {
            Err(e) => Err(e),
            Ok(st) => {
                let (n, text) = files.last();
                if n == AARDVARK_PID_FILE@ {
                    Ok(st)
                } else {
                    match config_of(text) {
                        Err(x) => Err((n, x)),
                        Ok((b, es)) => Ok(add_entries(add_binds(st, n, b), n, es)),
                    }
                }
            },
        }
    }
}

/// Adds each network of `nets` to the list of `ip`, skipping those already there.
pub open spec fn add_nets(
    m: Map<IpAddress, Seq<Seq<char>>>,
    ip: IpAddress,
    nets: Seq<Seq<char>>,
) -> Map<IpAddress, Seq<Seq<char>>>
    decreases nets.len(),
{
    if nets.len() == 0 {
        m
    } else {
        let m2 = add_nets(m, ip, nets.drop_last());
        m2.insert(ip, push_new(seq_or_empty(m2, ip), nets.last()))
    }
}

pub open spec fn add_nets_for_ips(
    m: Map<IpAddress, Seq<Seq<char>>>,
    ips: Seq<IpAddress>,
    nets: Seq<Seq<char>>,
) -> Map<IpAddress, Seq<Seq<char>>>
    decreases ips.len(),
{
    if ips.len() == 0 {
        m
    } else {
        add_nets(add_nets_for_ips(m, ips.drop_last(), nets), ips.last(), nets)
    }
}

/// Networks of each container address: every network of the container that
/// holds it, containers taken in order of first appearance.
pub open spec fn ip_nets_of(st: LoadState, ids: Seq<Seq<char>>) -> Map<IpAddress, Seq<Seq<char>>>
    decreases ids.len(),
{
    if ids.len() == 0 {
        Map::empty()
    } else {
        add_nets_for_ips(
            ip_nets_of(st, ids.drop_last()),
            seq_or_empty(st.ips_of, ids.last()),
            seq_or_empty(st.networks_of, ids.last()),
        )
    }
}

/// The backend indices of a finished load.
pub open spec fn backend_of(st: LoadState) -> BackendView {
    BackendView {
        ip_nets: ip_nets_of(st, st.ids),
        names: st.names,
        reverse: st.reverse,
        dns: st.dns,
    }
}

/// A descriptor that could not be read, and why.
pub struct LoadError {
    pub file: String,
    pub kind: ConfigError,
}

/// The tables being filled while descriptors are read.
struct Assembly {
    ids: Vec<String>,
    networks: Vec<(String, Vec<String>)>,
    ips: Vec<(String, Vec<IpAddress>)>,
    names: Vec<((String, String), Vec<IpAddress>)>,
    reverse: Vec<((String, IpAddress), Vec<String>)>,
    dns: Vec<(IpAddress, Option<Vec<IpAddress>>)>,
    listen4: Vec<(String, Vec<u32>)>,
    listen6: Vec<(String, Vec<u128>)>,
}

impl View for Assembly {
    type V = LoadState;

    closed spec fn view(&self) -> LoadState {
        LoadState {
            ids: self.ids.deep_view(),
            networks_of: table(self.networks@),
            ips_of: table(self.ips@),
            names: table(self.names@),
            reverse: table(self.reverse@),
            dns: table(self.dns@),
            listen4: table(self.listen4@),
            listen6: table(self.listen6@),
        }
    }
}

fn clone_dns(d: &Option<Vec<IpAddress>>) -> (r: Option<Vec<IpAddress>>)
    ensures
        r.deep_view() == d.deep_view(),
{
    match d {
        Some(v) => Some(clone_vec(v)),
        None => None,
    }
}

impl Assembly {
    spec fn wf(&self) -> bool {
        &&& distinct_keys(self.networks@)
        &&& distinct_keys(self.ips@)
        &&& distinct_keys(self.names@)
        &&& distinct_keys(self.reverse@)
        &&& distinct_keys(self.dns@)
        &&& distinct_keys(self.listen4@)
        &&& distinct_keys(self.listen6@)
    }

    fn new() -> (r: Self)
        ensures
            r.wf(),
            r@ == empty_state(),
    {
        let r = Assembly {
            ids: Vec::new(),
            networks: Vec::new(),
            ips: Vec::new(),
            names: Vec::new(),
            reverse: Vec::new(),
            dns: Vec::new(),
            listen4: Vec::new(),
            listen6: Vec::new(),
        };
        assert(r@.ids =~= Seq::<Seq<char>>::empty());
        assert(r@.networks_of =~= Map::<Seq<char>, Seq<Seq<char>>>::empty());
        assert(r@.ips_of =~= Map::<Seq<char>, Seq<IpAddress>>::empty());
        assert(r@.names =~= Map::<(Seq<char>, Seq<char>), Seq<IpAddress>>::empty());
        assert(r@.reverse =~= Map::<(Seq<char>, IpAddress), Seq<Seq<char>>>::empty());
        assert(r@.dns =~= Map::<IpAddress, Option<Seq<IpAddress>>>::empty());
        assert(r@.listen4 =~= Map::<Seq<char>, Seq<u32>>::empty());
        assert(r@.listen6 =~= Map::<Seq<char>, Seq<u128>>::empty());
        r
    }

    fn add_binds(&mut self, n: &String, b: &Vec<IpAddress>)
        requires
            old(self).wf(),
        ensures
            final(self).wf(),
            final(self)@ == add_binds(old(self)@, n@, b.deep_view()),
    {
        let ghost start = self@;
        let ghost bv = b.deep_view();
        let mut i: usize = 0;
        assert(bv.take(0).len() == 0);
        while i < b.len()
            invariant
                self.wf(),
                bv == b.deep_view(),
                i <= b.len(),
                self@ == add_binds(start, n@, bv.take(i as int)),
            decreases b.len() - i,
        {
            assert(bv.take(i + 1).drop_last() =~= bv.take(i as int));
            assert(bv.take(i + 1).last() == b@[i as int]);
            match b[i] {
                IpAddress::V4(a) => {
                    let one: Vec<u32> = vec![a];
                    let ghost before = table(self.listen4@);
                    extend_at(&mut self.listen4, n.clone(), &one);
                    assert(seq_or_empty(before, n@) + one.deep_view() =~= seq_or_empty(before, n@).push(a));
                },
                IpAddress::V6(a) => {
                    let one: Vec<u128> = vec![a];
                    let ghost before = table(self.listen6@);
                    extend_at(&mut self.listen6, n.clone(), &one);
                    assert(seq_or_empty(before, n@) + one.deep_view() =~= seq_or_empty(before, n@).push(a));
                },
            }
            i += 1;
        }
        assert(bv.take(b.len() as int) =~= bv);
    }

    fn add_membership(&mut self, n: &String, id: &String)
        requires
            old(self).wf(),
        ensures
            final(self).wf(),
            final(self)@ == add_membership(old(self)@, n@, id@),
    {
        let is_new = match get_value(&self.networks, id) {
            Some(_) => false,
            None => true,
        };
        if is_new {
            let ghost ids0 = self.ids@;
            self.ids.push(id.clone());
            proof {
                lemma_push_deep_view(ids0, self.ids@, self.ids@.last());
            }
        }
        add_new_at(&mut self.networks, id.clone(), n);
    }

    fn add_ip_records(
        &mut self,
        n: &String,
        ips: &Vec<IpAddress>,
        names: &Vec<String>,
        dns: &Option<Vec<IpAddress>>,
    )
        requires
            old(self).wf(),
        ensures
            final(self).wf(),
            final(self)@ == add_ip_records(
                old(self)@,
                n@,
                ips.deep_view(),
                names.deep_view(),
                dns.deep_view(),
            ),
    {
        let ghost start = self@;
        let ghost iv = ips.deep_view();
        let mut i: usize = 0;
        assert(iv.take(0).len() == 0);
        while i < ips.len()
            invariant
                self.wf(),
                iv == ips.deep_view(),
                i <= ips.len(),
                self@ == add_ip_records(start, n@, iv.take(i as int), names.deep_view(), dns.deep_view()),
            decreases ips.len() - i,
        {
            assert(iv.take(i + 1).drop_last() =~= iv.take(i as int));
            assert(iv.take(i + 1).last() == ips@[i as int]);
            let ip = ips[i];
            extend_at(&mut self.reverse, (n.clone(), ip), names);
            put(&mut self.dns, ip, clone_dns(dns));
            i += 1;
        }
        assert(iv.take(ips.len() as int) =~= iv);
    }

    fn add_names(&mut self, n: &String, names: &Vec<String>, ips: &Vec<IpAddress>)
        requires
            old(self).wf(),
        ensures
            final(self).wf(),
            final(self)@ == add_names(old(self)@, n@, names.deep_view(), ips.deep_view()),
    {
        let ghost start = self@;
        let ghost nv = names.deep_view();
        let mut i: usize = 0;
        assert(nv.take(0).len() == 0);
        while i < names.len()
            invariant
                self.wf(),
                nv == names.deep_view(),
                i <= names.len(),
                self@ == add_names(start, n@, nv.take(i as int), ips.deep_view()),
            decreases names.len() - i,
        {
            assert(nv.take(i + 1).drop_last() =~= nv.take(i as int));
            assert(nv.take(i + 1).last() == names@[i as int]@);
            extend_at(&mut self.names, (n.clone(), names[i].clone()), ips);
            i += 1;
        }
        assert(nv.take(names.len() as int) =~= nv);
    }

    fn add_entry(&mut self, n: &String, e: &CtrEntry)
        requires
            old(self).wf(),
        ensures
            final(self).wf(),
            final(self)@ == add_entry(old(self)@, n@, e@),
    {
        let ips = addresses_of(e);
        self.add_membership(n, &e.id);
        self.add_ip_records(n, &ips, &e.aliases, &e.dns_servers);
        extend_at(&mut self.ips, e.id.clone(), &ips);
        self.add_names(n, &e.aliases, &ips);
    }

    fn add_entries(&mut self, n: &String, es: &Vec<CtrEntry>)
        requires
            old(self).wf(),
        ensures
            final(self).wf(),
            final(self)@ == add_entries(old(self)@, n@, entries_view(es@)),
    {
        let ghost start = self@;
        let ghost ev = entries_view(es@);
        let mut i: usize = 0;
        assert(ev.take(0).len() == 0);
        while i < es.len()
            invariant
                self.wf(),
                ev == entries_view(es@),
                i <= es.len(),
                self@ == add_entries(start, n@, ev.take(i as int)),
            decreases es.len() - i,
        {
            assert(ev.take(i + 1).drop_last() =~= ev.take(i as int));
            assert(ev.take(i + 1).last() == es@[i as int]@);
            self.add_entry(n, &es[i]);
            i += 1;
        }
        assert(ev.take(es.len() as int) =~= ev);
    }
}

/// The addresses of an entry, IPv4 ones first.
fn addresses_of(e: &CtrEntry) -> (r: Vec<IpAddress>)
    ensures
        r.deep_view() == entry_ips(e@),
{
    let mut out: Vec<IpAddress> = Vec::new();
    let mut i: usize = 0;
    while i < e.v4.len()
        invariant
            i <= e.v4.len(),
            out.deep_view() == e.v4.deep_view().take(i as int).map_values(|a: u32| IpAddress::V4(a)),
        decreases e.v4.len() - i,
    {
        let ghost o = out@;
        out.push(IpAddress::V4(e.v4[i]));
        proof {
            lemma_push_deep_view(o, out@, out@.last());
        }
        i += 1;
        assert(out.deep_view() =~= e.v4.deep_view().take(i as int).map_values(|a: u32| IpAddress::V4(a)));
    }
    assert(e.v4.deep_view().take(e.v4.len() as int) =~= e.v4.deep_view());
    let ghost first = out.deep_view();
    let mut j: usize = 0;
    assert(first =~= first + e.v6.deep_view().take(0).map_values(|a: u128| IpAddress::V6(a)));
    while j < e.v6.len()
        invariant
            j <= e.v6.len(),
            out.deep_view() == first + e.v6.deep_view().take(j as int).map_values(|a: u128| IpAddress::V6(a)),
        decreases e.v6.len() - j,
    {
        let ghost o = out@;
        out.push(IpAddress::V6(e.v6[j]));
        proof {
            lemma_push_deep_view(o, out@, out@.last());
        }
        j += 1;
        assert(out.deep_view() =~= first + e.v6.deep_view().take(j as int).map_values(|a: u128| IpAddress::V6(a)));
    }
    assert(e.v6.deep_view().take(e.v6.len() as int) =~= e.v6.deep_view());
    out
}

/// Adds each network of `nets` to the list of `ip`.
fn add_nets_exec(m: &mut Vec<(IpAddress, Vec<String>)>, ip: IpAddress, nets: &Vec<String>)
    requires
        distinct_keys(old(m)@),
    ensures
        distinct_keys(final(m)@),
        table(final(m)@) == add_nets(table(old(m)@), ip, nets.deep_view()),
{
    let ghost start = table(m@);
    let ghost nv = nets.deep_view();
    let mut k: usize = 0;
    assert(nv.take(0).len() == 0);
    while k < nets.len()
        invariant
            distinct_keys(m@),
            nv == nets.deep_view(),
            k <= nets.len(),
            table(m@) == add_nets(start, ip, nv.take(k as int)),
        decreases nets.len() - k,
    {
        assert(nv.take(k + 1).drop_last() =~= nv.take(k as int));
        assert(nv.take(k + 1).last() == nets@[k as int]@);
        add_new_at(m, ip, &nets[k]);
        k += 1;
    }
    assert(nv.take(nets.len() as int) =~= nv);
}

impl Assembly {
    /// The networks of every container address.
    fn ip_mappings(&self) -> (r: Vec<(IpAddress, Vec<String>)>)
        requires
            self.wf(),
        ensures
            distinct_keys(r@),
            table(r@) == ip_nets_of(self@, self@.ids),
    {
        let mut m: Vec<(IpAddress, Vec<String>)> = Vec::new();
        let ghost idv = self.ids.deep_view();
        let no_ips: Vec<IpAddress> = Vec::new();
        let no_nets: Vec<String> = Vec::new();
        let mut i: usize = 0;
        assert(table(m@) =~= Map::<IpAddress, Seq<Seq<char>>>::empty());
        assert(idv.take(0).len() == 0);
        while i < self.ids.len()
            invariant
                self.wf(),
                idv == self.ids.deep_view(),
                idv == self@.ids,
                no_ips@.len() == 0,
                no_nets@.len() == 0,
                i <= self.ids.len(),
                distinct_keys(m@),
                table(m@) == ip_nets_of(self@, idv.take(i as int)),
            decreases self.ids.len() - i,
        {
            assert(idv.take(i + 1).drop_last() =~= idv.take(i as int));
            assert(idv.take(i + 1).last() == self.ids@[i as int]@);
            let id = &self.ids[i];
            let ips = match get_value(&self.ips, id) {
                Some(v) => v,
                None => &no_ips,
            };
            let nets = match get_value(&self.networks, id) {
                Some(v) => v,
                None => &no_nets,
            };
            assert(ips.deep_view() =~= seq_or_empty(self@.ips_of, id@));
            assert(nets.deep_view() =~= seq_or_empty(self@.networks_of, id@));
            let ghost before = table(m@);
            let ghost ipv = ips.deep_view();
            let mut j: usize = 0;
            assert(ipv.take(0).len() == 0);
            while j < ips.len()
                invariant
                    ipv == ips.deep_view(),
                    j <= ips.len(),
                    distinct_keys(m@),
                    table(m@) == add_nets_for_ips(before, ipv.take(j as int), nets.deep_view()),
                decreases ips.len() - j,
            {
                assert(ipv.take(j + 1).drop_last() =~= ipv.take(j as int));
                assert(ipv.take(j + 1).last() == ips@[j as int]);
                add_nets_exec(&mut m, ips[j], nets);
                j += 1;
            }
            assert(ipv.take(ips.len() as int) =~= ipv);
            i += 1;
        }
        assert(idv.take(self.ids.len() as int) =~= idv);
        m
    }
}

/// Once a prefix of the descriptors fails, the whole load fails the same way.
pub proof fn lemma_load_files_err(files: Seq<(Seq<char>, Seq<char>)>, k: int)
    requires
        0 <= k <= files.len(),
        load_files(files.take(k)) is Err,
    ensures
        load_files(files) == load_files(files.take(k)),
    decreases files.len() - k,
{
    if k < files.len() {
        assert(files.take(k + 1).drop_last() =~= files.take(k));
        lemma_load_files_err(files, k + 1);
    } else {
        assert(files.take(k) =~= files);
    }
}

/// Reads every descriptor, given as (file name, contents) in directory order,
/// and assembles the backend and the addresses to listen on for each network,
/// IPv4 and IPv6 apart. The file name is the network name; the pid file is
/// passed over.
pub fn parse_configs(files: &Vec<(String, String)>) -> (r: Result<
    (DNSBackend, Vec<(String, Vec<u32>)>, Vec<(String, Vec<u128>)>),
    LoadError,
>)
    ensures
        match r {
            Ok((b, l4, l6)) => {
                &&& load_files(files.deep_view()) is Ok
                &&& b.wf()
                &&& b@ == backend_of(load_files(files.deep_view())->Ok_0)
                &&& distinct_keys(l4@)
                &&& distinct_keys(l6@)
                &&& table(l4@) == load_files(files.deep_view())->Ok_0.listen4
                &&& table(l6@) == load_files(files.deep_view())->Ok_0.listen6
            },
            Err(e) => load_files(files.deep_view()) == Err::<LoadState, (Seq<char>, ConfigError)>(
                (e.file@, e.kind),
            ),
        },
{
    let ghost fv = files.deep_view();
    let mut tables = Assembly::new();
    let pid = String::from_str(AARDVARK_PID_FILE);
    let mut i: usize = 0;
    assert(fv.take(0).len() == 0);
    while i < files.len()
        invariant
            fv == files.deep_view(),
            pid@ == AARDVARK_PID_FILE@,
            i <= files.len(),
            tables.wf(),
            load_files(fv.take(i as int)) == Ok::<LoadState, (Seq<char>, ConfigError)>(tables@),
        decreases files.len() - i,
    {
        assert(fv.take(i + 1).drop_last() =~= fv.take(i as int));
        assert(fv.take(i + 1).last() == (files@[i as int].0@, files@[i as int].1@));
        let name = &files[i].0;
        let text = &files[i].1;
        if *name != pid {
            match parse_config(text.as_str()) {
                Ok((b, es)) => {
                    tables.add_binds(name, &b);
                    tables.add_entries(name, &es);
                },
                Err(x) => {
                    proof {
                        lemma_load_files_err(fv, i + 1);
                    }
                    return Err(LoadError { file: name.clone(), kind: x });
                },
            }
        }
        i += 1;
    }
    assert(fv.take(files.len() as int) =~= fv);
    let ip_mappings = tables.ip_mappings();
    let backend = DNSBackend {
        ip_mappings,
        name_mappings: tables.names,
        reverse_mappings: tables.reverse,
        ctr_dns_server: tables.dns,
    };
    Ok((backend, tables.listen4, tables.listen6))
}

/// The addresses to listen on for `network`, in one of the two tables that
/// `parse_configs` returns.
pub fn listen_addresses<'a, T: DeepView>(l: &'a Vec<(String, Vec<T>)>, network: &str) -> (r: Option<
    &'a Vec<T>,
>)
    requires
        distinct_keys(l@),
    ensures
        match r {
            Some(v) => table(l@).contains_key(network@) && table(l@)[network@] == v.deep_view(),
            None => !table(l@).contains_key(network@),
        },
{
    let key = String::from_str(network);
    get_value(l, &key)
}

} // verus!
