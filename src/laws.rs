//! Properties of the assembled indices and of the queries over them.
use vstd::prelude::*;
use crate::backend::{
    Answer, BackendView, DNSBackend, first_names, gather, lookup_spec, reverse_spec, upstream_of,
};
use crate::config::{EntryView, config_of};
use crate::ip::IpAddress;
use crate::loader::{
    AARDVARK_PID_FILE, LoadState, add_binds, add_entries, add_entry, add_ip_records,
    add_membership, add_names, backend_of, entry_ips, load_files,
};
use crate::table::seq_or_empty;
use crate::text::lower_of;

verus! {

/// Every name list and address list of `a` is still found, extended, in `b`.
pub open spec fn grows(a: LoadState, b: LoadState) -> bool {
    &&& forall|k: (Seq<char>, Seq<char>), x: IpAddress|
        #![trigger seq_or_empty(a.names, k).contains(x)]
        seq_or_empty(a.names, k).contains(x) ==> seq_or_empty(b.names, k).contains(x)
    &&& forall|k: (Seq<char>, IpAddress), x: Seq<char>|
        #![trigger seq_or_empty(a.reverse, k).contains(x)]
        seq_or_empty(a.reverse, k).contains(x) ==> seq_or_empty(b.reverse, k).contains(x)
}

/// Entry `e` of network `n` is filed both ways in `st`.
pub open spec fn indexed(st: LoadState, n: Seq<char>, e: EntryView) -> bool {
    forall|x: Seq<char>, a: IpAddress|
        #![trigger e.aliases.contains(x), entry_ips(e).contains(a)]
        e.aliases.contains(x) && entry_ips(e).contains(a) ==> {
            &&& seq_or_empty(st.reverse, (n, a)).contains(x)
            &&& seq_or_empty(st.names, (n, x)).contains(a)
        }
}

proof fn lemma_concat_contains<T>(a: Seq<T>, v: Seq<T>, x: T)
    ensures
        a.contains(x) ==> (a + v).contains(x),
        v.contains(x) ==> (a + v).contains(x),
{
    if a.contains(x) {
        let i = choose|i: int| 0 <= i < a.len() && a[i] == x;
        assert((a + v)[i] == x);
    }
    if v.contains(x) {
        let i = choose|i: int| 0 <= i < v.len() && v[i] == x;
        assert((a + v)[a.len() + i] == x);
    }
}

proof fn lemma_grows_trans(a: LoadState, b: LoadState, c: LoadState)
    requires
        grows(a, b),
        grows(b, c),
    ensures
        grows(a, c),
{
}

proof fn lemma_indexed_grows(a: LoadState, b: LoadState, n: Seq<char>, e: EntryView)
    requires
        grows(a, b),
        indexed(a, n, e),
    ensures
        indexed(b, n, e),
{
    assert forall|x: Seq<char>, a2: IpAddress|
        e.aliases.contains(x) && entry_ips(e).contains(a2) implies {
            &&& seq_or_empty(b.reverse, (n, a2)).contains(x)
            &&& seq_or_empty(b.names, (n, x)).contains(a2)
        } by {
        assert(seq_or_empty(a.reverse, (n, a2)).contains(x));
        assert(seq_or_empty(a.names, (n, x)).contains(a2));
    }
}

proof fn lemma_add_binds(st: LoadState, n: Seq<char>, b: Seq<IpAddress>)
    ensures
        add_binds(st, n, b).names == st.names,
        add_binds(st, n, b).reverse == st.reverse,
    decreases b.len(),
{
    if b.len() > 0 {
        lemma_add_binds(st, n, b.drop_last());
    }
}

proof fn lemma_add_ip_records(
    st: LoadState,
    n: Seq<char>,
    ips: Seq<IpAddress>,
    names: Seq<Seq<char>>,
    dns: Option<Seq<IpAddress>>,
)
    ensures
        grows(st, add_ip_records(st, n, ips, names, dns)),
        add_ip_records(st, n, ips, names, dns).names == st.names,
        forall|i: int, x: Seq<char>|
            0 <= i < ips.len() && names.contains(x) ==> seq_or_empty(
                #[trigger] add_ip_records(st, n, ips, names, dns).reverse,
                (n, ips[i]),
            ).contains(x),
    decreases ips.len(),
{
    if ips.len() > 0 {
        let s = add_ip_records(st, n, ips.drop_last(), names, dns);
        let r = add_ip_records(st, n, ips, names, dns);
        let k = (n, ips.last());
        lemma_add_ip_records(st, n, ips.drop_last(), names, dns);
        assert forall|k2: (Seq<char>, IpAddress), x: Seq<char>|
            seq_or_empty(s.reverse, k2).contains(x) implies seq_or_empty(r.reverse, k2).contains(x) by {
            lemma_concat_contains(seq_or_empty(s.reverse, k2), names, x);
        }
        assert(grows(s, r));
        lemma_grows_trans(st, s, r);
        assert forall|i: int, x: Seq<char>|
            0 <= i < ips.len() && names.contains(x) implies seq_or_empty(r.reverse, (n, ips[i])).contains(x) by {
            if i == ips.len() - 1 {
                lemma_concat_contains(seq_or_empty(s.reverse, k), names, x);
            } else {
                assert(ips.drop_last()[i] == ips[i]);
                assert(seq_or_empty(s.reverse, (n, ips[i])).contains(x));
            }
        }
    }
}

proof fn lemma_add_names(st: LoadState, n: Seq<char>, names: Seq<Seq<char>>, ips: Seq<IpAddress>)
    ensures
        grows(st, add_names(st, n, names, ips)),
        add_names(st, n, names, ips).reverse == st.reverse,
        forall|j: int, a: IpAddress|
            0 <= j < names.len() && ips.contains(a) ==> seq_or_empty(
                #[trigger] add_names(st, n, names, ips).names,
                (n, names[j]),
            ).contains(a),
    decreases names.len(),
{
    if names.len() > 0 {
        let s = add_names(st, n, names.drop_last(), ips);
        let r = add_names(st, n, names, ips);
        let k = (n, names.last());
        lemma_add_names(st, n, names.drop_last(), ips);
        assert forall|k2: (Seq<char>, Seq<char>), x: IpAddress|
            seq_or_empty(s.names, k2).contains(x) implies seq_or_empty(r.names, k2).contains(x) by {
            lemma_concat_contains(seq_or_empty(s.names, k2), ips, x);
        }
        assert(grows(s, r));
        lemma_grows_trans(st, s, r);
        assert forall|j: int, a: IpAddress|
            0 <= j < names.len() && ips.contains(a) implies seq_or_empty(r.names, (n, names[j])).contains(a) by {
            if j == names.len() - 1 {
                lemma_concat_contains(seq_or_empty(s.names, k), ips, a);
            } else {
                assert(names.drop_last()[j] == names[j]);
                assert(seq_or_empty(s.names, (n, names[j])).contains(a));
            }
        }
    }
}

proof fn lemma_add_entry(st: LoadState, n: Seq<char>, e: EntryView)
    ensures
        grows(st, add_entry(st, n, e)),
        indexed(add_entry(st, n, e), n, e),
{
    let ips = entry_ips(e);
    let s1 = add_membership(st, n, e.id);
    let s2 = add_ip_records(s1, n, ips, e.aliases, e.dns);
    let s3 = LoadState { ips_of: s2.ips_of.insert(e.id, seq_or_empty(s2.ips_of, e.id) + ips), ..s2 };
    let s4 = add_names(s3, n, e.aliases, ips);
    lemma_add_ip_records(s1, n, ips, e.aliases, e.dns);
    lemma_add_names(s3, n, e.aliases, ips);
    assert(grows(st, s1));
    lemma_grows_trans(st, s1, s2);
    assert(grows(s2, s3));
    lemma_grows_trans(st, s2, s3);
    lemma_grows_trans(st, s3, s4);
    assert forall|x: Seq<char>, a: IpAddress|
        e.aliases.contains(x) && entry_ips(e).contains(a) implies {
            &&& seq_or_empty(s4.reverse, (n, a)).contains(x)
            &&& seq_or_empty(s4.names, (n, x)).contains(a)
        } by {
        let i = choose|i: int| 0 <= i < ips.len() && ips[i] == a;
        let j = choose|j: int| 0 <= j < e.aliases.len() && e.aliases[j] == x;
        assert(seq_or_empty(s2.reverse, (n, ips[i])).contains(x));
        assert(seq_or_empty(s4.names, (n, e.aliases[j])).contains(a));
    }
}

proof fn lemma_add_entries(st: LoadState, n: Seq<char>, es: Seq<EntryView>)
    ensures
        grows(st, add_entries(st, n, es)),
        forall|j: int| 0 <= j < es.len() ==> indexed(#[trigger] add_entries(st, n, es), n, es[j]),
    decreases es.len(),
{
    if es.len() > 0 {
        let s = add_entries(st, n, es.drop_last());
        let r = add_entries(st, n, es);
        lemma_add_entries(st, n, es.drop_last());
        lemma_add_entry(s, n, es.last());
        lemma_grows_trans(st, s, r);
        assert forall|j: int| 0 <= j < es.len() implies indexed(r, n, es[j]) by {
            if j < es.len() - 1 {
                assert(es.drop_last()[j] == es[j]);
                lemma_indexed_grows(s, r, n, es[j]);
            }
        }
    }
}

proof fn lemma_load_grows(files: Seq<(Seq<char>, Seq<char>)>, k: int)
    requires
        0 <= k <= files.len(),
        load_files(files) is Ok,
    ensures
        load_files(files.take(k)) is Ok,
        grows(load_files(files.take(k))->Ok_0, load_files(files)->Ok_0),
    decreases files.len() - k,
{
    if k == files.len() {
        assert(files.take(k) =~= files);
    } else {
        lemma_load_grows(files, k + 1);
        let p = files.take(k + 1);
        assert(p.drop_last() =~= files.take(k));
        let st = load_files(files.take(k))->Ok_0;
        let (n, text) = p.last();
        if n != AARDVARK_PID_FILE@ {
            let (b, es) = config_of(text)->Ok_0;
            lemma_add_binds(st, n, b);
            lemma_add_entries(add_binds(st, n, b), n, es);
        }
        lemma_grows_trans(st, load_files(p)->Ok_0, load_files(files)->Ok_0);
    }
}

/// Every container line of every descriptor of a successful load is filed both
/// ways: for each of its names `x` and each of its addresses `a` on network
/// `n`, the names of `(n, a)` hold `x` and the addresses of `(n, x)` hold `a`.
pub proof fn lemma_entries_indexed(
    files: Seq<(Seq<char>, Seq<char>)>,
    f: int,
    j: int,
    x: Seq<char>,
    a: IpAddress,
)
    requires
        load_files(files) is Ok,
        0 <= f < files.len(),
        files[f].0 != AARDVARK_PID_FILE@,
        0 <= j < config_of(files[f].1)->Ok_0.1.len(),
        config_of(files[f].1)->Ok_0.1[j].aliases.contains(x),
        entry_ips(config_of(files[f].1)->Ok_0.1[j]).contains(a),
    ensures
        seq_or_empty(backend_of(load_files(files)->Ok_0).reverse, (files[f].0, a)).contains(x),
        seq_or_empty(backend_of(load_files(files)->Ok_0).names, (files[f].0, x)).contains(a),
{
    lemma_load_grows(files, f);
    lemma_load_grows(files, f + 1);
    let p = files.take(f + 1);
    assert(p.drop_last() =~= files.take(f));
    assert(p.last() == files[f]);
    let st = load_files(files.take(f))->Ok_0;
    let (n, text) = files[f];
    assert(config_of(text) is Ok);
    let (b, es) = config_of(text)->Ok_0;
    lemma_add_entries(add_binds(st, n, b), n, es);
    let done = load_files(p)->Ok_0;
    assert(indexed(done, n, es[j]));
    lemma_indexed_grows(done, load_files(files)->Ok_0, n, es[j]);
}

proof fn lemma_gather_nonempty(b: BackendView, nets: Seq<Seq<char>>, q: Seq<char>)
    ensures
        gather(b, nets, q).len() > 0 <==> exists|i: int|
            0 <= i < nets.len() && (#[trigger] seq_or_empty(b.names, (nets[i], q))).len() > 0,
    decreases nets.len(),
{
    if nets.len() > 0 {
        let d = nets.drop_last();
        lemma_gather_nonempty(b, d, q);
        if gather(b, d, q).len() > 0 {
            let i = choose|i: int| 0 <= i < d.len() && (#[trigger] seq_or_empty(b.names, (d[i], q))).len() > 0;
            assert(nets[i] == d[i]);
        }
        if exists|i: int| 0 <= i < nets.len() && (#[trigger] seq_or_empty(b.names, (nets[i], q))).len() > 0 {
            let i = choose|i: int| 0 <= i < nets.len() && (#[trigger] seq_or_empty(b.names, (nets[i], q))).len() > 0;
            if i < nets.len() - 1 {
                assert(d[i] == nets[i]);
            }
        }
    }
}

proof fn lemma_gather_contains(b: BackendView, nets: Seq<Seq<char>>, q: Seq<char>, k: int, a: IpAddress)
    requires
        0 <= k < nets.len(),
        seq_or_empty(b.names, (nets[k], q)).contains(a),
    ensures
        gather(b, nets, q).contains(a),
    decreases nets.len(),
{
    let d = nets.drop_last();
    if k == nets.len() - 1 {
        lemma_concat_contains(gather(b, d, q), seq_or_empty(b.names, (nets[k], q)), a);
    } else {
        assert(d[k] == nets[k]);
        lemma_gather_contains(b, d, q, k, a);
        lemma_concat_contains(gather(b, d, q), seq_or_empty(b.names, (nets.last(), q)), a);
    }
}

proof fn lemma_first_names_at(b: BackendView, nets: Seq<Seq<char>>, t: IpAddress, k: int)
    requires
        0 <= k < nets.len(),
        b.reverse.contains_key((nets[k], t)),
        b.reverse[(nets[k], t)].len() > 0,
        forall|m: int|
            0 <= m < k ==> !(b.reverse.contains_key((nets[m], t)) && (#[trigger] b.reverse[(
            nets[m],
            t,
        )]).len() > 0),
    ensures
        first_names(b, nets, t) == Some(b.reverse[(nets[k], t)]),
    decreases k,
{
    if k > 0 {
        let d = nets.drop_first();
        assert(!(b.reverse.contains_key((nets[0], t)) && b.reverse[(nets[0], t)].len() > 0));
        assert forall|m: int|
            0 <= m < k - 1 implies !(b.reverse.contains_key((d[m], t)) && (#[trigger] b.reverse[(
            d[m],
            t,
        )]).len() > 0) by {
            assert(d[m] == nets[m + 1]);
            assert(!(b.reverse.contains_key((nets[m + 1], t)) && b.reverse[(nets[m + 1], t)].len() > 0));
        }
        assert(d[k - 1] == nets[k]);
        lemma_first_names_at(b, d, t, k - 1);
    }
}

/// A forward lookup succeeds exactly when one of the requester's networks
/// holds an address under the name.
pub proof fn lemma_success_iff(b: BackendView, s: IpAddress, q: Seq<char>)
    ensures
        lookup_spec(b, s, q) is Success <==> {
            &&& b.ip_nets.contains_key(s)
            &&& exists|i: int|
                0 <= i < b.ip_nets[s].len() && (#[trigger] seq_or_empty(
                    b.names,
                    (b.ip_nets[s][i], q),
                )).len() > 0
        },
{
    if b.ip_nets.contains_key(s) {
        lemma_gather_nonempty(b, b.ip_nets[s], q);
    }
}

/// A forward lookup depends on the query name only through its lowercase form.
pub proof fn lemma_lookup_case_insensitive(b: BackendView, s: IpAddress, q1: Seq<char>, q2: Seq<char>)
    requires
        lower_of(q1) == lower_of(q2),
    ensures
        lookup_spec(b, s, lower_of(q1)) == lookup_spec(b, s, lower_of(q2)),
{
}

/// A container line of a successful load can be found both ways by a requester
/// on its network: its name resolves to its address, and its address back to
/// its name, as long as no network that the requester lists before that one
/// has names for the address.
pub proof fn lemma_round_trip(
    files: Seq<(Seq<char>, Seq<char>)>,
    f: int,
    j: int,
    x: Seq<char>,
    a: IpAddress,
    s: IpAddress,
    k: int,
)
    requires
        load_files(files) is Ok,
        0 <= f < files.len(),
        files[f].0 != AARDVARK_PID_FILE@,
        0 <= j < config_of(files[f].1)->Ok_0.1.len(),
        config_of(files[f].1)->Ok_0.1[j].aliases.contains(x),
        entry_ips(config_of(files[f].1)->Ok_0.1[j]).contains(a),
        backend_of(load_files(files)->Ok_0).ip_nets.contains_key(s),
        0 <= k < backend_of(load_files(files)->Ok_0).ip_nets[s].len(),
        backend_of(load_files(files)->Ok_0).ip_nets[s][k] == files[f].0,
        forall|m: int|
            0 <= m < k ==> !(backend_of(load_files(files)->Ok_0).reverse.contains_key(
                (backend_of(load_files(files)->Ok_0).ip_nets[s][m], a),
            ) && (#[trigger] backend_of(load_files(files)->Ok_0).reverse[(
                backend_of(load_files(files)->Ok_0).ip_nets[s][m],
                a,
            )]).len() > 0),
    ensures
        reverse_spec(backend_of(load_files(files)->Ok_0), s, a) is Some,
        reverse_spec(backend_of(load_files(files)->Ok_0), s, a)->0.contains(x),
        lookup_spec(backend_of(load_files(files)->Ok_0), s, x) is Success,
        lookup_spec(backend_of(load_files(files)->Ok_0), s, x)->Success_0.contains(a),
{
    let b = backend_of(load_files(files)->Ok_0);
    let nets = b.ip_nets[s];
    lemma_entries_indexed(files, f, j, x, a);
    let key = (files[f].0, a);
    assert(b.reverse.contains_key(key) && b.reverse[key].len() > 0);
    lemma_first_names_at(b, nets, a, k);
    lemma_gather_contains(b, nets, x, k, a);
}

/// A requester on a single network does not see names of other networks: a
/// name with no address there is unknown to it, unless it has upstream servers
/// to forward to.
pub proof fn lemma_isolation(b: BackendView, s: IpAddress, n1: Seq<char>, x: Seq<char>)
    requires
        b.ip_nets.contains_key(s),
        b.ip_nets[s] == seq![n1],
        seq_or_empty(b.names, (n1, x)).len() == 0,
        upstream_of(b, s) is None || upstream_of(b, s)->0.len() == 0,
    ensures
        lookup_spec(b, s, x) == Answer::NXDomain,
{
    let nets = b.ip_nets[s];
    assert(nets.drop_last() =~= Seq::<Seq<char>>::empty());
    assert(gather(b, nets.drop_last(), x).len() == 0);
    assert(nets.last() == n1);
    assert(gather(b, nets, x).len() == 0);
}

/// Two loads of the same descriptors give the same indices, with the same
/// orderings inside each entry.
pub proof fn lemma_load_deterministic(
    f1: Seq<(Seq<char>, Seq<char>)>,
    f2: Seq<(Seq<char>, Seq<char>)>,
    b1: DNSBackend,
    b2: DNSBackend,
)
    requires
        f1 == f2,
        load_files(f1) is Ok,
        b1@ == backend_of(load_files(f1)->Ok_0),
        b2@ == backend_of(load_files(f2)->Ok_0),
    ensures
        b1@ == b2@,
{
}

} // verus!
