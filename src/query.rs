//! What to do with one incoming DNS message: answer it from the backend,
//! forward it upstream, or drop it.
use vstd::prelude::*;
use crate::backend::{Answer, DNSBackend, DNSResult, lookup_spec, reverse_spec};
use crate::ptr::{
    build_ptr_response, encode_names, encoded, ptr_response, ptr_target, ptr_target_of, TYPE_PTR,
};
use crate::text::split;
use crate::dns::{
    Question, QuestionView, be_bytes, be16, build_response, family_filter, filter_family,
    parse_question, question_of, response, push_be_bytes, CLASS_IN, RCODE_FORMERR, RCODE_NOERROR,
    RCODE_NXDOMAIN, RCODE_REFUSED, RCODE_SERVFAIL, TYPE_A, TYPE_AAAA, TYPE_ANY,
};
use crate::ip::IpAddress;
use crate::table::clone_chars;
use crate::text::{lower_of, string_from_chars};

verus! {

/// What the listener does with a message.
pub enum Reply {
    /// Send these bytes back to the client.
    Respond(Vec<u8>),
    /// Relay the query, unchanged, to these upstream servers in order.
    Forward(Vec<IpAddress>),
    /// Too short to answer at all.
    Drop,
}

pub enum ReplyView {
    Respond(Seq<u8>),
    Forward(Seq<IpAddress>),
    Drop,
}

impl View for Reply {
    type V = ReplyView;

    open spec fn view(&self) -> ReplyView {
        match self {
            Reply::Respond(v) => ReplyView::Respond(v@),
            Reply::Forward(v) => ReplyView::Forward(v.deep_view()),
            Reply::Drop => ReplyView::Drop,
        }
    }
}

/// The characters of an ASCII name.
pub open spec fn ascii_of(name: Seq<u8>) -> Option<Seq<char>> {
    if forall|i: int| 0 <= i < name.len() ==> #[trigger] name[i] < 128 {
        Some(name.map_values(|b: u8| b as char))
    } else {
        None
    }
}

/// `name` without the search domain `f` at its end (and without the dot
/// before it); unchanged when `f` is empty or not a suffix.
pub open spec fn strip_domain(name: Seq<char>, f: Seq<char>) -> Seq<char> {
    if f.len() > 0 && f.len() <= name.len() && name.skip(name.len() - f.len()) == f {
        let rest = name.take(name.len() - f.len());
        if rest.len() > 0 && rest.last() == '.' {
            rest.drop_last()
        } else {
            rest
        }
    } else {
        name
    }
}

/// A header-only FORMERR response to a message that could not be read.
pub open spec fn format_error(m: Seq<u8>) -> Seq<u8> {
    be_bytes(be16(m[0], m[1]) as nat, 2) + seq![0x80u8, RCODE_FORMERR] + be_bytes(0, 8)
}

/// The reply to the found answer `a` to question `q`.
pub open spec fn reply_for(q: QuestionView, m: Seq<u8>, a: Answer) -> ReplyView {
    match a {
        Answer::Success(ips) => if family_filter(ips, q.qtype).len() <= 0xFFFF {
            ReplyView::Respond(response(q, m, RCODE_NOERROR, family_filter(ips, q.qtype)))
        } else {
            ReplyView::Respond(response(q, m, RCODE_SERVFAIL, Seq::empty()))
        },
        Answer::Forward(up) => ReplyView::Forward(up),
        Answer::NXDomain => ReplyView::Respond(response(q, m, RCODE_NXDOMAIN, Seq::empty())),
        Answer::NoRecord => ReplyView::Respond(response(q, m, RCODE_NOERROR, Seq::empty())),
    }
}

/// The reply to a reverse question for the address `t`, asked by `s`.
pub open spec fn reverse_reply(
    q: QuestionView,
    m: Seq<u8>,
    b: crate::backend::BackendView,
    s: IpAddress,
    t: Option<IpAddress>,
) -> ReplyView {
    match t {
        None => ReplyView::Respond(response(q, m, RCODE_NXDOMAIN, Seq::empty())),
        Some(t) => match reverse_spec(b, s, t) {
            None => ReplyView::Respond(response(q, m, RCODE_NXDOMAIN, Seq::empty())),
            Some(names) => if encoded(names).len() <= 0xFFFF {
                ReplyView::Respond(ptr_response(q, m, encoded(names)))
            } else {
                ReplyView::Respond(response(q, m, RCODE_SERVFAIL, Seq::empty()))
            },
        },
    }
}

/// The reply to message `m` from `s`, with search domain `f`.
pub open spec fn reply_of(b: crate::backend::BackendView, s: IpAddress, m: Seq<u8>, f: Seq<char>) -> ReplyView {
    match question_of(m) {
        None => if m.len() >= 2 {
            ReplyView::Respond(format_error(m))
        } else {
            ReplyView::Drop
        },
        Some(q) => if q.qclass != CLASS_IN {
            ReplyView::Respond(response(q, m, RCODE_REFUSED, Seq::empty()))
        } else if q.qtype == TYPE_PTR {
            match ascii_of(q.name) {
                None => ReplyView::Respond(response(q, m, RCODE_NXDOMAIN, Seq::empty())),
                Some(cs) => reverse_reply(q, m, b, s, ptr_target_of(split(cs, '.'))),
            }
        } else if q.qtype != TYPE_A && q.qtype != TYPE_AAAA && q.qtype != TYPE_ANY {
            ReplyView::Respond(response(q, m, RCODE_NOERROR, Seq::empty()))
        } else {
            match ascii_of(q.name) {
                None => ReplyView::Respond(response(q, m, RCODE_NXDOMAIN, Seq::empty())),
                Some(cs) => reply_for(q, m, lookup_spec(b, s, lower_of(strip_domain(cs, f)))),
            }
        },
    }
}

fn ascii_chars(name: &Vec<u8>) -> (r: Option<Vec<char>>)
    ensures
        match r {
            Some(v) => ascii_of(name@) == Some(v@),
            None => ascii_of(name@) is None,
        },
{
    let mut out: Vec<char> = Vec::new();
    let mut i: usize = 0;
    while i < name.len()
        invariant
            i <= name.len(),
            out@ == name@.take(i as int).map_values(|b: u8| b as char),
            forall|j: int| 0 <= j < i ==> #[trigger] name@[j] < 128,
        decreases name.len() - i,
    {
        let b = name[i];
        if b >= 128 {
            return None;
        }
        out.push(b as char);
        i += 1;
        assert(out@ =~= name@.take(i as int).map_values(|b: u8| b as char));
    }
    assert(name@.take(name.len() as int) =~= name@);
    Some(out)
}

fn strip_search_domain(name: &Vec<char>, f: &Vec<char>) -> (r: Vec<char>)
    ensures
        r@ == strip_domain(name@, f@),
{
    let n = name.len();
    let k = f.len();
    if k == 0 || k > n {
        return clone_chars(name);
    }
    let mut i: usize = 0;
    while i < k
        invariant
            0 < k <= n,
            n == name.len(),
            k == f.len(),
            i <= k,
            forall|j: int| 0 <= j < i ==> name@[n - k + j] == f@[j],
        decreases k - i,
    {
        if name[n - k + i] != f[i] {
            assert(name@.skip(n - k)[i as int] != f@[i as int]);
            return clone_chars(name);
        }
        i += 1;
    }
    assert(name@.skip(n - k) =~= f@);
    let mut cut = n - k;
    if cut > 0 && name[cut - 1] == '.' {
        cut = cut - 1;
    }
    let mut out: Vec<char> = Vec::new();
    let mut j: usize = 0;
    while j < cut
        invariant
            cut <= n == name.len(),
            j <= cut,
            out@ == name@.take(j as int),
        decreases cut - j,
    {
        out.push(name[j]);
        j += 1;
        assert(out@ =~= name@.take(j as int));
    }
    assert(out@ =~= strip_domain(name@, f@));
    out
}

fn empty_response(q: &Question, m: &Vec<u8>, rcode: u8) -> (r: Vec<u8>)
    requires
        question_of(m@) == Some(q@),
    ensures
        r@ == response(q@, m@, rcode, Seq::empty()),
{
    let none: Vec<IpAddress> = Vec::new();
    assert(none@ =~= Seq::<IpAddress>::empty());
    build_response(q, m, rcode, &none)
}

/// Decides the reply to the DNS message `m` sent by `source`; `search_domain`
/// is stripped from query names before they are looked up.
pub fn handle_query(b: &DNSBackend, source: &IpAddress, m: &Vec<u8>, search_domain: &str) -> (r: Reply)
    requires
        b.wf(),
    ensures
        r@ == reply_of(b@, *source, m@, search_domain@),
{
    let q = match parse_question(m) {
        Some(q) => q,
        None => {
            if m.len() < 2 {
                return Reply::Drop;
            }
            let mut out: Vec<u8> = Vec::new();
            push_be_bytes(&mut out, m[0] as u128 * 256 + m[1] as u128, 2);
            out.push(0x80);
            out.push(RCODE_FORMERR);
            push_be_bytes(&mut out, 0, 8);
            assert(out@ =~= format_error(m@));
            return Reply::Respond(out);
        },
    };
    if q.qclass != CLASS_IN {
        return Reply::Respond(empty_response(&q, m, RCODE_REFUSED));
    }
    if q.qtype == TYPE_PTR {
        let cs = match ascii_chars(&q.name) {
            Some(cs) => cs,
            None => return Reply::Respond(empty_response(&q, m, RCODE_NXDOMAIN)),
        };
        let t = match ptr_target(&cs) {
            Some(t) => t,
            None => return Reply::Respond(empty_response(&q, m, RCODE_NXDOMAIN)),
        };
        return match b.reverse_lookup(source, &t) {
            None => Reply::Respond(empty_response(&q, m, RCODE_NXDOMAIN)),
            Some(names) => {
                let es = encode_names(names);
                if es.len() <= 0xFFFF {
                    proof {
                        crate::ptr::lemma_encoded_short(names.deep_view());
                        assert forall|i: int| 0 <= i < es.len() implies (#[trigger] es@[i]@).len()
                            <= 0xFFFF by {
                            assert(es.deep_view()[i].len() == es@[i]@.len());
                        }
                    }
                    Reply::Respond(build_ptr_response(&q, m, &es))
                } else {
                    Reply::Respond(empty_response(&q, m, RCODE_SERVFAIL))
                }
            },
        };
    }
    if q.qtype != TYPE_A && q.qtype != TYPE_AAAA && q.qtype != TYPE_ANY {
        return Reply::Respond(empty_response(&q, m, RCODE_NOERROR));
    }
    let cs = match ascii_chars(&q.name) {
        Some(cs) => cs,
        None => return Reply::Respond(empty_response(&q, m, RCODE_NXDOMAIN)),
    };
    let f = crate::text::chars_of(search_domain);
    let stripped = strip_search_domain(&cs, &f);
    let name = string_from_chars(&stripped);
    match b.lookup(source, name.as_str()) {
        DNSResult::Success(ips) => {
            let sel = filter_family(&ips, q.qtype);
            assert(ips@ =~= ips.deep_view());
            if sel.len() <= 0xFFFF {
                Reply::Respond(build_response(&q, m, RCODE_NOERROR, &sel))
            } else {
                Reply::Respond(empty_response(&q, m, RCODE_SERVFAIL))
            }
        },
        DNSResult::Forward(up) => Reply::Forward(up),
        DNSResult::NXDomain => Reply::Respond(empty_response(&q, m, RCODE_NXDOMAIN)),
        DNSResult::NoRecord => Reply::Respond(empty_response(&q, m, RCODE_NOERROR)),
    }
}

} // verus!
