//! Reverse (PTR) queries: the address that an `in-addr.arpa` or `ip6.arpa`
//! name stands for, and the names written back in answer.
use vstd::prelude::*;
use crate::ip::{
    IpAddress, octet_of, group_of, groups_value, is_hex_digit, parse_octet, parse_group,
    groups_to_u128, sub_chars,
};
use crate::text::{split, split_chars, pieces_view, chars_of};
use crate::dns::{be_bytes, header, opt_record, push_be_bytes, push_opt, start_response, QuestionView, TTL, CLASS_IN, RCODE_NOERROR};

verus! {

/// The address of a reverse name given as its dot-separated pieces.
pub open spec fn ptr_target_of(p: Seq<Seq<char>>) -> Option<IpAddress> {
    if p.len() == 6 && p[4] == "in-addr"@ && p[5] == "arpa"@ && (forall|i: int|
        0 <= i < 4 ==> (#[trigger] octet_of(p[i])) is Some) {
        Some(
            IpAddress::V4(
                (octet_of(p[3])->0 as nat * 0x1000000 + octet_of(p[2])->0 as nat * 0x10000
                    + octet_of(p[1])->0 as nat * 0x100 + octet_of(p[0])->0 as nat) as u32,
            ),
        )
    } else if p.len() == 34 && p[32] == "ip6"@ && p[33] == "arpa"@ && (forall|i: int|
        0 <= i < 32 ==> (#[trigger] p[i]).len() == 1 && is_hex_digit(p[i][0])) {
        Some(IpAddress::V6(groups_value(v6_groups(nibbles_of(p))) as u128))
    } else {
        None
    }
}

/// The 32 nibbles of an `ip6.arpa` name, most significant first.
pub open spec fn nibbles_of(p: Seq<Seq<char>>) -> Seq<char> {
    Seq::new(32, |i: int| p[31 - i][0])
}

/// Eight groups of four nibbles each.
pub open spec fn v6_groups(n: Seq<char>) -> Seq<u16> {
    Seq::new(8, |g: int| group_of(n.subrange(4 * g, 4 * g + 4))->0)
}

/// Whether two character vectors hold the same characters.
pub fn same_chars(a: &Vec<char>, b: &Vec<char>) -> (r: bool)
    ensures
        r == (a@ == b@),
{
    if a.len() != b.len() {
        return false;
    }
    let mut i: usize = 0;
    while i < a.len()
        invariant
            a.len() == b.len(),
            i <= a.len(),
            forall|j: int| 0 <= j < i ==> a@[j] == b@[j],
        decreases a.len() - i,
    {
        if a[i] != b[i] {
            return false;
        }
        i += 1;
    }
    assert(a@ =~= b@);
    true
}

fn v6_target(parts: &Vec<Vec<char>>) -> (r: Option<u128>)
    requires
        parts.len() == 34,
    ensures
        match r {
            Some(v) => (forall|i: int|
                0 <= i < 32 ==> (#[trigger] pieces_view(parts@)[i]).len() == 1 && is_hex_digit(
                    pieces_view(parts@)[i][0],
                )) && v as nat == groups_value(v6_groups(nibbles_of(pieces_view(parts@)))),
            None => !(forall|i: int|
                0 <= i < 32 ==> (#[trigger] pieces_view(parts@)[i]).len() == 1 && is_hex_digit(
                    pieces_view(parts@)[i][0],
                )),
        },
{
    let ghost p = pieces_view(parts@);
    let mut k: usize = 0;
    while k < 32
        invariant
            parts.len() == 34,
            p == pieces_view(parts@),
            k <= 32,
            forall|i: int| 0 <= i < k ==> (#[trigger] p[i]).len() == 1 && is_hex_digit(p[i][0]),
        decreases 32 - k,
    {
        assert(parts@[k as int]@ == p[k as int]);
        if parts[k].len() != 1 {
            return None;
        }
        let c = parts[k][0];
        if !(('0' <= c && c <= '9') || ('a' <= c && c <= 'f') || ('A' <= c && c <= 'F')) {
            return None;
        }
        k += 1;
    }
    let mut rev: Vec<char> = Vec::new();
    let mut i: usize = 0;
    while i < 32
        invariant
            parts.len() == 34,
            p == pieces_view(parts@),
            forall|j: int| 0 <= j < 32 ==> (#[trigger] p[j]).len() == 1 && is_hex_digit(p[j][0]),
            i <= 32,
            rev@ == nibbles_of(p).take(i as int),
        decreases 32 - i,
    {
        assert(parts@[31 - i as int]@ == p[31 - i as int]);
        assert(p[31 - i as int].len() == 1);
        rev.push(parts[31 - i][0]);
        i += 1;
        assert(rev@ =~= nibbles_of(p).take(i as int));
    }
    assert(rev@ =~= nibbles_of(p));
    let mut gs: Vec<u16> = Vec::new();
    let mut g: usize = 0;
    while g < 8
        invariant
            rev@ == nibbles_of(p),
            forall|j: int| 0 <= j < 32 ==> (#[trigger] p[j]).len() == 1 && is_hex_digit(p[j][0]),
            g <= 8,
            gs@ == v6_groups(nibbles_of(p)).take(g as int),
        decreases 8 - g,
    {
        let four = sub_chars(&rev, 4 * g, 4 * g + 4);
        assert forall|j: int| 0 <= j < four@.len() implies is_hex_digit(#[trigger] four@[j]) by {
            assert(four@[j] == p[31 - (4 * g + j)][0]);
        }
        match parse_group(&four) {
            Some(x) => {
                gs.push(x);
            },
            None => {
                assert(false);
            },
        }
        g += 1;
        assert(gs@ =~= v6_groups(nibbles_of(p)).take(g as int));
    }
    assert(gs@ =~= v6_groups(nibbles_of(p)));
    Some(groups_to_u128(&gs))
}

/// The address that a reverse name stands for.
pub fn ptr_target(name: &Vec<char>) -> (r: Option<IpAddress>)
    ensures
        r == ptr_target_of(split(name@, '.')),
{
    let parts = split_chars(name, '.');
    let ghost p = split(name@, '.');
    assert(pieces_view(parts@) == p);
    if parts.len() == 6 {
        let in_addr = chars_of("in-addr");
        let arpa = chars_of("arpa");
        assert(parts@[4]@ == p[4] && parts@[5]@ == p[5]);
        if !same_chars(&parts[4], &in_addr) || !same_chars(&parts[5], &arpa) {
            return None;
        }
        assert(parts@[0]@ == p[0] && parts@[1]@ == p[1] && parts@[2]@ == p[2] && parts@[3]@ == p[3]);
        let a = match parse_octet(&parts[0]) {
            Some(x) => x,
            None => return None,
        };
        let b = match parse_octet(&parts[1]) {
            Some(x) => x,
            None => return None,
        };
        let c = match parse_octet(&parts[2]) {
            Some(x) => x,
            None => return None,
        };
        let d = match parse_octet(&parts[3]) {
            Some(x) => x,
            None => return None,
        };
        assert(forall|i: int| 0 <= i < 4 ==> (#[trigger] octet_of(p[i])) is Some) by {
            assert(octet_of(p[0]) is Some && octet_of(p[1]) is Some && octet_of(p[2]) is Some);
        }
        return Some(IpAddress::V4(d as u32 * 0x1000000 + c as u32 * 0x10000 + b as u32 * 0x100 + a as u32));
    }
    if parts.len() == 34 {
        let ip6 = chars_of("ip6");
        let arpa = chars_of("arpa");
        assert(parts@[32]@ == p[32] && parts@[33]@ == p[33]);
        if !same_chars(&parts[32], &ip6) || !same_chars(&parts[33], &arpa) {
            return None;
        }
        return match v6_target(&parts) {
            Some(v) => Some(IpAddress::V6(v)),
            None => None,
        };
    }
    None
}

pub const TYPE_PTR: u16 = 12;

/// A label that can be written as is: 1 to 63 ASCII characters.
pub open spec fn label_ok(l: Seq<char>) -> bool {
    1 <= l.len() <= 63 && forall|i: int| 0 <= i < l.len() ==> #[trigger] l[i] <= '\x7f'
}

pub open spec fn label_bytes(l: Seq<char>) -> Seq<u8> {
    seq![l.len() as u8] + l.map_values(|c: char| (c as u32) as u8)
}

pub open spec fn labels_bytes(ls: Seq<Seq<char>>) -> Seq<u8>
    decreases ls.len(),
{
    if ls.len() == 0 {
        Seq::empty()
    } else {
        labels_bytes(ls.drop_last()) + label_bytes(ls.last())
    }
}

/// The wire form of a dotted name, when it has one of at most 255 bytes.
pub open spec fn encode_name(n: Seq<char>) -> Option<Seq<u8>> {
    let ls = split(n, '.');
    if (forall|i: int| 0 <= i < ls.len() ==> label_ok(#[trigger] ls[i])) && labels_bytes(ls).len() < 255 {
        Some(labels_bytes(ls).push(0))
    } else {
        None
    }
}

/// The wire forms of the names that have one, in order.
pub open spec fn encoded(names: Seq<Seq<char>>) -> Seq<Seq<u8>>
    decreases names.len(),
{
    if names.len() == 0 {
        Seq::empty()
    } else {
        match encode_name(names.last()) {
            Some(e) => encoded(names.drop_last()).push(e),
            None => encoded(names.drop_last()),
        }
    }
}

/// One PTR record for the question's name.
pub open spec fn ptr_record(e: Seq<u8>) -> Seq<u8> {
    seq![0xC0u8, 0x0Cu8] + be_bytes(TYPE_PTR as nat, 2) + be_bytes(CLASS_IN as nat, 2) + be_bytes(
        TTL as nat,
        4,
    ) + be_bytes(e.len(), 2) + e
}

pub open spec fn ptr_records(es: Seq<Seq<u8>>) -> Seq<u8>
    decreases es.len(),
{
    if es.len() == 0 {
        Seq::empty()
    } else {
        ptr_records(es.drop_last()) + ptr_record(es.last())
    }
}

pub open spec fn ptr_response(q: QuestionView, m: Seq<u8>, es: Seq<Seq<u8>>) -> Seq<u8> {
    header(q.id, q.rd, RCODE_NOERROR, es.len(), q.edns) + m.subrange(12, q.end) + ptr_records(es)
        + opt_record(q.edns)
}

/// Writes a dotted name in wire form.
pub fn encode_name_bytes(n: &Vec<char>) -> (r: Option<Vec<u8>>)
    ensures
        match r {
            Some(e) => encode_name(n@) == Some(e@),
            None => encode_name(n@) is None,
        },
{
    let ls = split_chars(n, '.');
    let ghost lv = split(n@, '.');
    let mut out: Vec<u8> = Vec::new();
    let mut i: usize = 0;
    while i < ls.len()
        invariant
            pieces_view(ls@) == lv,
            lv == split(n@, '.'),
            i <= ls.len(),
            out@ == labels_bytes(lv.take(i as int)),
            out@.len() < 255,
            forall|j: int| 0 <= j < i ==> label_ok(#[trigger] lv[j]),
        decreases ls.len() - i,
    {
        assert(lv.take(i + 1).drop_last() =~= lv.take(i as int));
        assert(ls@[i as int]@ == lv[i as int]);
        let l = &ls[i];
        if l.len() < 1 || l.len() > 63 {
            assert(!label_ok(lv[i as int]));
            assert(encode_name(n@) is None);
            return None;
        }
        let ghost before = out@;
        out.push(l.len() as u8);
        let mut k: usize = 0;
        while k < l.len()
            invariant
                1 <= l.len() <= 63,
                l@ == lv[i as int],
                lv == split(n@, '.'),
                i < lv.len(),
                k <= l.len(),
                out@ == before + seq![l.len() as u8] + l@.take(k as int).map_values(|c: char| (c as u32) as u8),
                forall|j: int| 0 <= j < k ==> #[trigger] l@[j] <= '\x7f',
            decreases l.len() - k,
        {
            let c = l[k];
            if c > '\x7f' {
                assert(!label_ok(lv[i as int]));
                assert(encode_name(n@) is None);
                return None;
            }
            out.push(c as u32 as u8);
            k += 1;
            assert(out@ =~= before + seq![l.len() as u8] + l@.take(k as int).map_values(|c: char| (c as u32) as u8));
        }
        assert(l@.take(l.len() as int) =~= l@);
        assert(out@ =~= before + label_bytes(lv[i as int]));
        assert(label_ok(lv[i as int]));
        if out.len() >= 255 {
            proof {
                lemma_labels_bytes_grow(lv, i as int + 1);
            }
            return None;
        }
        i += 1;
    }
    assert(lv.take(ls.len() as int) =~= lv);
    out.push(0);
    Some(out)
}

proof fn lemma_labels_bytes_grow(ls: Seq<Seq<char>>, k: int)
    requires
        0 <= k <= ls.len(),
    ensures
        labels_bytes(ls.take(k)).len() <= labels_bytes(ls).len(),
    decreases ls.len() - k,
{
    if k < ls.len() {
        lemma_labels_bytes_grow(ls, k + 1);
        assert(ls.take(k + 1).drop_last() =~= ls.take(k));
    } else {
        assert(ls.take(k) =~= ls);
    }
}

/// The wire forms of the names that have one.
pub fn encode_names(names: &Vec<String>) -> (r: Vec<Vec<u8>>)
    ensures
        r.deep_view() == encoded(names.deep_view()),
{
    let ghost nv = names.deep_view();
    let mut out: Vec<Vec<u8>> = Vec::new();
    let mut i: usize = 0;
    while i < names.len()
        invariant
            nv == names.deep_view(),
            i <= names.len(),
            out.deep_view() == encoded(nv.take(i as int)),
        decreases names.len() - i,
    {
        assert(nv.take(i + 1).drop_last() =~= nv.take(i as int));
        let cs = chars_of(names[i].as_str());
        assert(nv.take(i + 1).last() == cs@);
        match encode_name_bytes(&cs) {
            Some(e) => {
                assert(e.deep_view() =~= e@);
                let ghost o = out@;
                out.push(e);
                proof {
                    crate::table::lemma_push_deep_view(o, out@, out@.last());
                }
            },
            None => {},
        }
        i += 1;
    }
    assert(nv.take(names.len() as int) =~= nv);
    out
}

/// Writes the PTR response to question `q` of message `m`.
pub fn build_ptr_response(q: &crate::dns::Question, m: &Vec<u8>, es: &Vec<Vec<u8>>) -> (r: Vec<u8>)
    requires
        crate::dns::question_of(m@) == Some(q@),
        es.len() <= 0xFFFF,
        forall|i: int| 0 <= i < es.len() ==> (#[trigger] es@[i]@).len() <= 0xFFFF,
    ensures
        r@ == ptr_response(q@, m@, es.deep_view()),
{
    let mut out = start_response(q, m, RCODE_NOERROR, es.len());
    let ghost qv = q@;
    let ghost ev = es.deep_view();
    let mut k: usize = 0;
    assert(ev.take(0) =~= Seq::<Seq<u8>>::empty());
    while k < es.len()
        invariant
            ev == es.deep_view(),
            k <= es.len(),
            forall|i: int| 0 <= i < es.len() ==> (#[trigger] es@[i]@).len() <= 0xFFFF,
            qv == q@,
            crate::dns::question_of(m@) == Some(qv),
            out@ == header(qv.id, qv.rd, RCODE_NOERROR, es.len() as nat, qv.edns) + m@.subrange(12, qv.end)
                + ptr_records(ev.take(k as int)),
        decreases es.len() - k,
    {
        assert(ev.take(k + 1).drop_last() =~= ev.take(k as int));
        let e = &es[k];
        assert(ev.take(k + 1).last() == e@);
        out.push(0xC0);
        out.push(0x0C);
        push_be_bytes(&mut out, TYPE_PTR as u128, 2);
        push_be_bytes(&mut out, CLASS_IN as u128, 2);
        push_be_bytes(&mut out, TTL as u128, 4);
        push_be_bytes(&mut out, e.len() as u128, 2);
        let ghost pre = out@;
        let mut t: usize = 0;
        while t < e.len()
            invariant
                t <= e.len(),
                out@ == pre + e@.take(t as int),
            decreases e.len() - t,
        {
            out.push(e[t]);
            t += 1;
            assert(out@ =~= pre + e@.take(t as int));
        }
        assert(e@.take(e.len() as int) =~= e@);
        k += 1;
        assert(out@ =~= header(qv.id, qv.rd, RCODE_NOERROR, es.len() as nat, qv.edns) + m@.subrange(12, qv.end)
            + ptr_records(ev.take(k as int)));
    }
    assert(ev.take(es.len() as int) =~= ev);
    push_opt(&mut out, q.edns);
    out
}

/// Every wire-form name is shorter than 256 bytes.
pub proof fn lemma_encoded_short(names: Seq<Seq<char>>)
    ensures
        forall|i: int| 0 <= i < encoded(names).len() ==> (#[trigger] encoded(names)[i]).len() <= 255,
    decreases names.len(),
{
    if names.len() > 0 {
        let d = names.drop_last();
        lemma_encoded_short(d);
        let r = encoded(names);
        assert forall|i: int| 0 <= i < r.len() implies (#[trigger] r[i]).len() <= 255 by {
            if i < encoded(d).len() {
                assert(r[i] == encoded(d)[i]);
            }
        }
    }
}

} // verus!
