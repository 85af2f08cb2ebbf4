//! DNS messages: reading a standard query, and writing the answers to it.
use vstd::prelude::*;
use crate::ip::IpAddress;

verus! {

/// A query's question, with the header fields that the answer repeats.
pub struct Question {
    /// Transaction id.
    pub id: u16,
    /// Whether recursion was desired.
    pub rd: bool,
    /// The name asked for, labels joined by dots, as sent.
    pub name: Vec<u8>,
    pub qtype: u16,
    pub qclass: u16,
    /// Offset just past the question section.
    pub end: usize,
    /// Whether an EDNS0 OPT record follows the question.
    pub edns: bool,
}

pub struct QuestionView {
    pub id: u16,
    pub rd: bool,
    pub name: Seq<u8>,
    pub qtype: u16,
    pub qclass: u16,
    pub end: int,
    pub edns: bool,
}

impl View for Question {
    type V = QuestionView;

    open spec fn view(&self) -> QuestionView {
        QuestionView {
            id: self.id,
            rd: self.rd,
            name: self.name@,
            qtype: self.qtype,
            qclass: self.qclass,
            end: self.end as int,
            edns: self.edns,
        }
    }
}

pub open spec fn be16(hi: u8, lo: u8) -> u16 {
    (hi as int * 256 + lo as int) as u16
}

/// Dotted form of the uncompressed name starting at `pos`, with the offset
/// just past it.
pub open spec fn name_at(m: Seq<u8>, pos: int) -> Option<(Seq<u8>, int)>
    decreases m.len() - pos,
{
    if pos < 0 || pos >= m.len() {
        None
    } else {
        let l = m[pos] as int;
        if l == 0 {
            Some((Seq::empty(), pos + 1))
        } else if l > 63 || pos + 1 + l > m.len() {
            None
        } else {
            match name_at(m, pos + 1 + l) {
                None => None,
                Some((rest, end)) => Some(
                    (
                        m.subrange(pos + 1, pos + 1 + l) + if rest.len() == 0 {
                            Seq::<u8>::empty()
                        } else {
                            seq![46u8] + rest
                        },
                        end,
                    ),
                ),
            }
        }
    }
}

/// Whether the additional section starts, at `pos`, with an OPT record.
pub open spec fn has_opt(m: Seq<u8>, pos: int) -> bool {
    be16(m[10], m[11]) >= 1 && 0 <= pos && pos + 3 <= m.len() && m[pos] == 0 && m[pos + 1] == 0
        && m[pos + 2] == 41
}

/// A standard query (QR clear, opcode 0) with exactly one question.
pub open spec fn question_of(m: Seq<u8>) -> Option<QuestionView> {
    if m.len() < 12 || m[2] >= 128 || (m[2] / 8) % 16 != 0 || be16(m[4], m[5]) != 1 {
        None
    } else {
        match name_at(m, 12) {
            None => None,
            Some((name, e)) => if e + 4 > m.len() {
                None
            } else {
                Some(
                    QuestionView {
                        id: be16(m[0], m[1]),
                        rd: m[2] % 2 == 1,
                        name,
                        qtype: be16(m[e], m[e + 1]),
                        qclass: be16(m[e + 2], m[e + 3]),
                        end: e + 4,
                        edns: has_opt(m, e + 4),
                    },
                )
            },
        }
    }
}

fn read_name(m: &Vec<u8>, pos: usize) -> (r: Option<(Vec<u8>, usize)>)
    ensures
        match r {
            Some((n, e)) => name_at(m@, pos as int) == Some((n@, e as int)),
            None => name_at(m@, pos as int) is None,
        },
    decreases m.len() - pos,
{
    if pos >= m.len() {
        return None;
    }
    let l = m[pos] as usize;
    if l == 0 {
        return Some((Vec::new(), pos + 1));
    }
    if l > 63 || l + 1 > m.len() - pos {
        return None;
    }
    match read_name(m, pos + 1 + l) {
        None => None,
        Some((rest, end)) => {
            let mut out: Vec<u8> = Vec::new();
            let mut i: usize = pos + 1;
            while i < pos + 1 + l
                invariant
                    pos + 1 <= i <= pos + 1 + l <= m.len(),
                    out@ == m@.subrange(pos + 1, i as int),
                decreases pos + 1 + l - i,
            {
                out.push(m[i]);
                i += 1;
                assert(out@ =~= m@.subrange(pos + 1, i as int));
            }
            if rest.len() > 0 {
                let ghost lab = out@;
                out.push(46u8);
                let mut j: usize = 0;
                while j < rest.len()
                    invariant
                        j <= rest.len(),
                        out@ == lab + seq![46u8] + rest@.take(j as int),
                    decreases rest.len() - j,
                {
                    out.push(rest[j]);
                    j += 1;
                    assert(out@ =~= lab + seq![46u8] + rest@.take(j as int));
                }
                assert(rest@.take(rest.len() as int) =~= rest@);
                assert(out@ =~= lab + (seq![46u8] + rest@));
            } else {
                assert(out@ =~= out@ + Seq::<u8>::empty());
            }
            Some((out, end))
        },
    }
}

/// Reads a standard query with one question.
pub fn parse_question(m: &Vec<u8>) -> (r: Option<Question>)
    ensures
        match r {
            Some(q) => question_of(m@) == Some(q@),
            None => question_of(m@) is None,
        },
{
    if m.len() < 12 || m[2] >= 128 || (m[2] / 8) % 16 != 0 || m[4] != 0 || m[5] != 1 {
        return None;
    }
    match read_name(m, 12) {
        None => None,
        Some((name, e)) => {
            if e > m.len() || m.len() - e < 4 {
                return None;
            }
            let p = e + 4;
            let edns = (m[10] > 0 || m[11] > 0) && p <= m.len() && m.len() - p >= 3 && m[p] == 0
                && m[p + 1] == 0 && m[p + 2] == 41;
            Some(
                Question {
                    id: m[0] as u16 * 256 + m[1] as u16,
                    rd: m[2] % 2 == 1,
                    name,
                    qtype: m[e] as u16 * 256 + m[e + 1] as u16,
                    qclass: m[e + 2] as u16 * 256 + m[e + 3] as u16,
                    end: e + 4,
                    edns,
                },
            )
        },
    }
}

/// Time to live of every authoritative record, in seconds.
pub const TTL: u32 = 60;

pub const TYPE_A: u16 = 1;

pub const TYPE_AAAA: u16 = 28;

pub const TYPE_ANY: u16 = 255;

pub const CLASS_IN: u16 = 1;

pub const RCODE_NOERROR: u8 = 0;

pub const RCODE_FORMERR: u8 = 1;

pub const RCODE_SERVFAIL: u8 = 2;

pub const RCODE_NXDOMAIN: u8 = 3;

pub const RCODE_REFUSED: u8 = 5;

/// The `n` low bytes of `v`, most significant first.
pub open spec fn be_bytes(v: nat, n: nat) -> Seq<u8>
    decreases n,
{
    if n == 0 {
        Seq::empty()
    } else {
        be_bytes(v / 256, (n - 1) as nat).push((v % 256) as u8)
    }
}

/// A response header: QR and AA set, RA clear, one question.
pub open spec fn header(id: u16, rd: bool, rcode: u8, answers: nat, edns: bool) -> Seq<u8> {
    be_bytes(id as nat, 2) + seq![(0x84 + if rd { 1int } else { 0int }) as u8, rcode] + be_bytes(1, 2)
        + be_bytes(answers, 2) + be_bytes(0, 2) + be_bytes(if edns { 1 } else { 0 }, 2)
}

/// UDP payload size advertised in the OPT record of a response.
pub const EDNS_PAYLOAD: u16 = 1232;

/// The OPT record that closes a response to a query that carried one.
pub open spec fn opt_record(edns: bool) -> Seq<u8> {
    if edns {
        seq![0u8, 0u8, 41u8] + be_bytes(EDNS_PAYLOAD as nat, 2) + be_bytes(0, 6)
    } else {
        Seq::empty()
    }
}

/// Appends the OPT record of a response.
pub fn push_opt(out: &mut Vec<u8>, edns: bool)
    ensures
        final(out)@ == old(out)@ + opt_record(edns),
{
    if edns {
        out.push(0);
        out.push(0);
        out.push(41);
        push_be_bytes(out, EDNS_PAYLOAD as u128, 2);
        push_be_bytes(out, 0, 6);
        assert(final(out)@ =~= old(out)@ + opt_record(edns));
    } else {
        assert(final(out)@ =~= old(out)@ + opt_record(edns));
    }
}

/// One answer record for the question's name (by a pointer to it).
pub open spec fn record(a: IpAddress) -> Seq<u8> {
    seq![0xC0u8, 0x0Cu8] + match a {
        IpAddress::V4(v) => be_bytes(TYPE_A as nat, 2) + be_bytes(CLASS_IN as nat, 2) + be_bytes(
            TTL as nat,
            4,
        ) + be_bytes(4, 2) + be_bytes(v as nat, 4),
        IpAddress::V6(v) => be_bytes(TYPE_AAAA as nat, 2) + be_bytes(CLASS_IN as nat, 2)
            + be_bytes(TTL as nat, 4) + be_bytes(16, 2) + be_bytes(v as nat, 16),
    }
}

pub open spec fn records(ips: Seq<IpAddress>) -> Seq<u8>
    decreases ips.len(),
{
    if ips.len() == 0 {
        Seq::empty()
    } else {
        records(ips.drop_last()) + record(ips.last())
    }
}

/// The response to the question `q` of message `m`, with answers `ips`.
pub open spec fn response(q: QuestionView, m: Seq<u8>, rcode: u8, ips: Seq<IpAddress>) -> Seq<u8> {
    header(q.id, q.rd, rcode, ips.len(), q.edns) + m.subrange(12, q.end) + records(ips) + opt_record(
        q.edns,
    )
}

/// The addresses of the family that the query type asks for.
pub open spec fn family_filter(ips: Seq<IpAddress>, qtype: u16) -> Seq<IpAddress>
    decreases ips.len(),
{
    if ips.len() == 0 {
        ips
    } else if wanted(ips.last(), qtype) {
        family_filter(ips.drop_last(), qtype).push(ips.last())
    } else {
        family_filter(ips.drop_last(), qtype)
    }
}

/// Whether the query type asks for addresses of the family of `a`.
pub open spec fn wanted(a: IpAddress, qtype: u16) -> bool {
    qtype == TYPE_ANY || (qtype == TYPE_A && a is V4) || (qtype == TYPE_AAAA && a is V6)
}

pub fn push_be_bytes(out: &mut Vec<u8>, v: u128, n: usize)
    ensures
        final(out)@ == old(out)@ + be_bytes(v as nat, n as nat),
    decreases n,
{
    if n == 0 {
        assert(old(out)@ =~= old(out)@ + Seq::<u8>::empty());
        return;
    }
    push_be_bytes(out, v / 256, n - 1);
    let ghost mid = out@;
    out.push((v % 256) as u8);
    assert(out@ =~= old(out)@ + be_bytes(v as nat, n as nat));
}

fn push_record(out: &mut Vec<u8>, a: IpAddress)
    ensures
        final(out)@ == old(out)@ + record(a),
{
    out.push(0xC0);
    out.push(0x0C);
    match a {
        IpAddress::V4(v) => {
            push_be_bytes(out, TYPE_A as u128, 2);
            push_be_bytes(out, CLASS_IN as u128, 2);
            push_be_bytes(out, TTL as u128, 4);
            push_be_bytes(out, 4, 2);
            push_be_bytes(out, v as u128, 4);
        },
        IpAddress::V6(v) => {
            push_be_bytes(out, TYPE_AAAA as u128, 2);
            push_be_bytes(out, CLASS_IN as u128, 2);
            push_be_bytes(out, TTL as u128, 4);
            push_be_bytes(out, 16, 2);
            push_be_bytes(out, v, 16);
        },
    }
    assert(final(out)@ =~= old(out)@ + record(a));
}

/// Writes the header of a response with `count` answers, and the question of `m`.
pub fn start_response(q: &Question, m: &Vec<u8>, rcode: u8, count: usize) -> (r: Vec<u8>)
    requires
        question_of(m@) == Some(q@),
        count <= 0xFFFF,
    ensures
        r@ == header(q.id, q.rd, rcode, count as nat, q.edns) + m@.subrange(12, q.end as int),
{
    let mut out: Vec<u8> = Vec::new();
    push_be_bytes(&mut out, q.id as u128, 2);
    out.push(if q.rd { 0x85u8 } else { 0x84u8 });
    out.push(rcode);
    push_be_bytes(&mut out, 1, 2);
    push_be_bytes(&mut out, count as u128, 2);
    push_be_bytes(&mut out, 0, 2);
    push_be_bytes(&mut out, if q.edns { 1 } else { 0 }, 2);
    assert(out@ =~= header(q.id, q.rd, rcode, count as nat, q.edns));
    let ghost head = out@;
    let mut i: usize = 12;
    assert(12 <= q.end <= m.len()) by {
        lemma_name_end(m@, 12);
    }
    while i < q.end
        invariant
            12 <= i <= q.end <= m.len(),
            out@ == head + m@.subrange(12, i as int),
        decreases q.end - i,
    {
        out.push(m[i]);
        i += 1;
        assert(out@ =~= head + m@.subrange(12, i as int));
    }
    out
}

/// Writes the response to question `q` of message `m`.
pub fn build_response(q: &Question, m: &Vec<u8>, rcode: u8, ips: &Vec<IpAddress>) -> (r: Vec<u8>)
    requires
        question_of(m@) == Some(q@),
        ips.len() <= 0xFFFF,
    ensures
        r@ == response(q@, m@, rcode, ips@),
{
    let mut out = start_response(q, m, rcode, ips.len());
    let ghost mid = out@;
    let mut j: usize = 0;
    assert(mid =~= mid + records(ips@.take(0)));
    while j < ips.len()
        invariant
            j <= ips.len(),
            out@ == mid + records(ips@.take(j as int)),
        decreases ips.len() - j,
    {
        assert(ips@.take(j + 1).drop_last() =~= ips@.take(j as int));
        push_record(&mut out, ips[j]);
        j += 1;
        assert(out@ =~= mid + records(ips@.take(j as int)));
    }
    assert(ips@.take(ips.len() as int) =~= ips@);
    push_opt(&mut out, q.edns);
    out
}

proof fn lemma_name_end(m: Seq<u8>, pos: int)
    requires
        name_at(m, pos) is Some,
    ensures
        pos < name_at(m, pos)->Some_0.1 <= m.len(),
    decreases m.len() - pos,
{
    let l = m[pos] as int;
    if l != 0 {
        lemma_name_end(m, pos + 1 + l);
    }
}

/// The addresses of the family that `qtype` asks for, in order.
pub fn filter_family(ips: &Vec<IpAddress>, qtype: u16) -> (r: Vec<IpAddress>)
    ensures
        r@ == family_filter(ips@, qtype),
{
    let mut out: Vec<IpAddress> = Vec::new();
    let mut i: usize = 0;
    while i < ips.len()
        invariant
            i <= ips.len(),
            out@ == family_filter(ips@.take(i as int), qtype),
        decreases ips.len() - i,
    {
        assert(ips@.take(i + 1).drop_last() =~= ips@.take(i as int));
        let a = ips[i];
        assert(ips@.take(i + 1).last() == a);
        assert(ips@.take(i + 1).len() > 0);
        let v4 = a.is_ipv4();
        if qtype == TYPE_ANY || (qtype == TYPE_A && v4) || (qtype == TYPE_AAAA && !v4) {
            out.push(a);
        }
        i += 1;
    }
    assert(ips@.take(ips.len() as int) =~= ips@);
    out
}

/// Largest response sent over UDP without truncation, by default.
pub const UDP_LIMIT: usize = 512;

/// The UDP size limit for answers to message `m`: larger when it carried an
/// OPT record.
pub open spec fn udp_limit(m: Seq<u8>) -> int {
    match question_of(m) {
        Some(q) => if q.edns {
            EDNS_PAYLOAD as int
        } else {
            UDP_LIMIT as int
        },
        None => UDP_LIMIT as int,
    }
}

/// A response as sent over UDP: unchanged when it fits `limit`, else a
/// header with TC set and no records, so that the client asks again over TCP.
pub open spec fn udp_fit(r: Seq<u8>, limit: int) -> Seq<u8> {
    if r.len() <= limit || r.len() < 4 {
        r
    } else {
        seq![r[0], r[1], r[2] | 2u8, r[3]] + be_bytes(0, 8)
    }
}

/// Shapes the response `r` to message `m` for UDP.
pub fn fit_udp(r: Vec<u8>, m: &Vec<u8>) -> (out: Vec<u8>)
    ensures
        out@ == udp_fit(r@, udp_limit(m@)),
{
    let limit = match parse_question(m) {
        Some(q) => if q.edns {
            EDNS_PAYLOAD as usize
        } else {
            UDP_LIMIT
        },
        None => UDP_LIMIT,
    };
    if r.len() <= limit || r.len() < 4 {
        return r;
    }
    let mut out: Vec<u8> = Vec::new();
    out.push(r[0]);
    out.push(r[1]);
    out.push(r[2] | 2u8);
    out.push(r[3]);
    push_be_bytes(&mut out, 0, 8);
    assert(out@ =~= udp_fit(r@, limit as int));
    out
}

} // verus!
