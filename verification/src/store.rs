//! The config store's document format: one JSON object holding the
//! server's parameters, keys and roster. Rendering is canonical (fixed
//! field order, no whitespace, roster keyed by ascending id) and the
//! parser accepts exactly such documents, so a dumped server loads
//! back unchanged.

use vstd::prelude::*;
use crate::crypto::KeyPairView;
use crate::ip::{parse_subnet_at, spec_max_clients, subnet_chars, Subnet};
use crate::model::client::ClientView;
use crate::model::server::{Server, ServerView};
use crate::num::{dec, lemma_parse_dec_at_bounds, parse_dec_at};
use crate::crypto::KeyPair;
use crate::model::client::Client;
use crate::Error;

verus! {

// --- JSON strings ---

/// One character as it stands inside a JSON string: quote and
/// backslash are escaped with a backslash, everything else is itself.
pub open spec fn esc_char(c: char) -> Seq<char> {
    if c == '"' || c == '\\' {
        seq!['\\', c]
    } else {
        seq![c]
    }
}

pub open spec fn escape(s: Seq<char>) -> Seq<char>
    decreases s.len(),
{
    if s.len() == 0 {
        Seq::empty()
    } else {
        esc_char(s[0]) + escape(s.drop_first())
    }
}

/// A JSON string literal: quoted and escaped.
pub open spec fn jstr(s: Seq<char>) -> Seq<char> {
    seq!['"'] + escape(s) + seq!['"']
}

/// The body of a JSON string from position `i` (the opening quote is
/// already consumed): characters up to an unescaped closing quote,
/// with `\x` standing for `x`.
pub open spec fn parse_string_body(s: Seq<char>, i: int) -> Option<(Seq<char>, int)>
    decreases s.len() - i,
{
    if i < 0 || i >= s.len() {
        None
    } else if s[i] == '"' {
        Some((Seq::empty(), i + 1))
    } else if s[i] == '\\' {
        if i + 1 < s.len() {
            match parse_string_body(s, i + 2) {
                None => None,
                Some((t, j)) => Some((seq![s[i + 1]] + t, j)),
            }
        } else {
            None
        }
    } else {
        match parse_string_body(s, i + 1) {
            None => None,
            Some((t, j)) => Some((seq![s[i]] + t, j)),
        }
    }
}

pub open spec fn parse_jstr(s: Seq<char>, i: int) -> Option<(Seq<char>, int)> {
    if 0 <= i && i < s.len() && s[i] == '"' {
        parse_string_body(s, i + 1)
    } else {
        None
    }
}

/// A fixed piece of text at position `i`.
pub open spec fn parse_lit(s: Seq<char>, i: int, lit: Seq<char>) -> Option<int> {
    if 0 <= i && i + lit.len() <= s.len() && s.subrange(i, i + lit.len()) == lit {
        Some(i + lit.len())
    } else {
        None
    }
}

// --- the document pieces ---

pub open spec fn render_keys(k: KeyPairView) -> Seq<char> {
    "{\"private\":"@ + jstr(k.private) + ",\"public\":"@ + jstr(k.public) + "}"@
}

pub open spec fn parse_keys(s: Seq<char>, i: int) -> Option<(KeyPairView, int)> {
    match parse_lit(s, i, "{\"private\":"@) {
        None => None,
        Some(i1) => match parse_jstr(s, i1) {
            None => None,
            Some((private, i2)) => match parse_lit(s, i2, ",\"public\":"@) {
                None => None,
                Some(i3) => match parse_jstr(s, i3) {
                    None => None,
                    Some((public, i4)) => match parse_lit(s, i4, "}"@) {
                        None => None,
                        Some(i5) => Some((KeyPairView { private, public }, i5)),
                    },
                },
            },
        },
    }
}

pub open spec fn render_client_obj(c: ClientView) -> Seq<char> {
    "{\"id\":"@ + dec(c.id as nat) + ",\"name\":"@ + jstr(c.name) + ",\"keys\":"@ + render_keys(
        c.keys,
    ) + "}"@
}

/// One roster entry: the id again as the key, then the client object.
pub open spec fn render_entry(c: ClientView) -> Seq<char> {
    "\""@ + dec(c.id as nat) + "\":"@ + render_client_obj(c)
}

pub open spec fn parse_entry(s: Seq<char>, i: int) -> Option<(ClientView, int)> {
    match parse_lit(s, i, "\""@) {
        None => None,
        Some(i1) => match parse_dec_at(s, i1, 0xFFFFFFFF) {
            None => None,
            Some((key, i2)) => match parse_lit(s, i2, "\":"@) {
                None => None,
                Some(i3) => match parse_lit(s, i3, "{\"id\":"@) {
                    None => None,
                    Some(i4) => match parse_dec_at(s, i4, 0xFFFFFFFF) {
                        None => None,
                        Some((idv, i5)) => if idv != key {
                            None
                        } else {
                            match parse_lit(s, i5, ",\"name\":"@) {
                                None => None,
                                Some(i6) => match parse_jstr(s, i6) {
                                    None => None,
                                    Some((name, i7)) => match parse_lit(s, i7, ",\"keys\":"@) {
                                        None => None,
                                        Some(i8) => match parse_keys(s, i8) {
                                            None => None,
                                            Some((keys, i9)) => match parse_lit(s, i9, "}"@) {
                                                None => None,
                                                Some(i10) => Some(
                                                    (ClientView { id: idv, name, keys }, i10),
                                                ),
                                            },
                                        },
                                    },
                                },
                            }
                        },
                    },
                },
            },
        },
    }
}

pub open spec fn render_clients_rest(cs: Seq<ClientView>) -> Seq<char>
    decreases cs.len(),
{
    if cs.len() == 0 {
        Seq::empty()
    } else {
        ","@ + render_entry(cs.first()) + render_clients_rest(cs.drop_first())
    }
}

pub open spec fn render_clients(cs: Seq<ClientView>) -> Seq<char> {
    if cs.len() == 0 {
        Seq::empty()
    } else {
        render_entry(cs.first()) + render_clients_rest(cs.drop_first())
    }
}

pub proof fn lemma_parse_string_body_bounds(s: Seq<char>, i: int)
    ensures
        parse_string_body(s, i) matches Some(p) ==> i < p.1 <= s.len(),
    decreases s.len() - i,
{
    if 0 <= i && i < s.len() {
        if s[i] == '\\' {
            if i + 1 < s.len() {
                lemma_parse_string_body_bounds(s, i + 2);
            }
        } else if s[i] != '"' {
            lemma_parse_string_body_bounds(s, i + 1);
        }
    }
}

pub proof fn lemma_parse_keys_bounds(s: Seq<char>, i: int)
    ensures
        parse_keys(s, i) matches Some(p) ==> i <= p.1 <= s.len(),
{
    let r1 = parse_lit(s, i, "{\"private\":"@);
    if r1 is Some {
        let i1 = r1.unwrap();
        lemma_parse_string_body_bounds(s, i1 + 1);
        let rj = parse_jstr(s, i1);
        if rj is Some {
            let i2 = rj.unwrap().1;
            let r2 = parse_lit(s, i2, ",\"public\":"@);
            if r2 is Some {
                lemma_parse_string_body_bounds(s, r2.unwrap() + 1);
            }
        }
    }
}

pub proof fn lemma_parse_entry_bounds(s: Seq<char>, i: int)
    ensures
        parse_entry(s, i) matches Some(p) ==> i < p.1 <= s.len() && p.0.id >= 0,
{
    let r1 = parse_lit(s, i, "\""@);
    if r1 is Some {
        let i1 = r1.unwrap();
        let rd = parse_dec_at(s, i1, 0xFFFFFFFF);
        if rd is Some {
            lemma_parse_dec_at_bounds(s, i1, 0xFFFFFFFF);
            let i2 = rd.unwrap().1;
            let r2 = parse_lit(s, i2, "\":"@);
            if r2 is Some {
                let r3 = parse_lit(s, r2.unwrap(), "{\"id\":"@);
                if r3 is Some {
                    let i4 = r3.unwrap();
                    let rd2 = parse_dec_at(s, i4, 0xFFFFFFFF);
                    if rd2 is Some {
                        lemma_parse_dec_at_bounds(s, i4, 0xFFFFFFFF);
                        let i5 = rd2.unwrap().1;
                        let r4 = parse_lit(s, i5, ",\"name\":"@);
                        if r4 is Some {
                            let i6 = r4.unwrap();
                            lemma_parse_string_body_bounds(s, i6 + 1);
                            let rj = parse_jstr(s, i6);
                            if rj is Some {
                                let i7 = rj.unwrap().1;
                                let r5 = parse_lit(s, i7, ",\"keys\":"@);
                                if r5 is Some {
                                    lemma_parse_keys_bounds(s, r5.unwrap());
                                }
                            }
                        }
                    }
                }
            }
        }
    }
}

/// Further roster entries, each introduced by a comma, with strictly
/// ascending ids; stops before the first character that is not a
/// comma.
pub open spec fn parse_clients_rest(s: Seq<char>, i: int, prev: int) -> Option<
    (Seq<ClientView>, int),
>
    decreases s.len() - i,
    via parse_clients_rest_decreases
{
    if 0 <= i && i < s.len() && s[i] == ',' {
        match parse_entry(s, i + 1) {
            None => None,
            Some((c, j)) => if c.id <= prev {
                None
            } else {
                match parse_clients_rest(s, j, c.id) {
                    None => None,
                    Some((cs, k)) => Some((seq![c] + cs, k)),
                }
            },
        }
    } else {
        Some((Seq::empty(), i))
    }
}

#[via_fn]
proof fn parse_clients_rest_decreases(s: Seq<char>, i: int, prev: int) {
    if 0 <= i && i < s.len() && s[i] == ',' {
        lemma_parse_entry_bounds(s, i + 1);
    }
}

/// The roster object's inside: empty, or a first entry and the rest.
pub open spec fn parse_clients(s: Seq<char>, i: int) -> Option<(Seq<ClientView>, int)> {
    if 0 <= i && i < s.len() && s[i] == '"' {
        match parse_entry(s, i) {
            None => None,
            Some((c, j)) => match parse_clients_rest(s, j, c.id) {
                None => None,
                Some((cs, k)) => Some((seq![c] + cs, k)),
            },
        }
    } else {
        Some((Seq::empty(), i))
    }
}

/// The whole document.
pub open spec fn render_server(sv: ServerView) -> Seq<char> {
    "{\"subnetCidr\":\""@ + subnet_chars(sv.subnet) + "\",\"endpoint\":"@ + jstr(sv.endpoint)
        + ",\"port\":"@ + dec(sv.port as nat) + ",\"networkInterface\":"@ + jstr(
        sv.network_interface,
    ) + ",\"keys\":"@ + render_keys(sv.keys) + ",\"clients\":{"@ + render_clients(sv.clients)
        + "}}"@
}

/// Parses and validates a whole document: the canonical field order,
/// a subnet that leaves room for clients, and roster ids in strictly
/// ascending order below the subnet's capacity.
pub open spec fn parse_server(s: Seq<char>) -> Option<ServerView> {
    match parse_lit(s, 0, "{\"subnetCidr\":\""@) {
        None => None,
        Some(i0) => match parse_subnet_at(s, i0) {
            None => None,
            Some((sn, i1)) => if sn.prefix > 30 {
                None
            } else {
                match parse_lit(s, i1, "\",\"endpoint\":"@) {
                    None => None,
                    Some(i2) => match parse_jstr(s, i2) {
                        None => None,
                        Some((endpoint, i3)) => match parse_lit(s, i3, ",\"port\":"@) {
                            None => None,
                            Some(i4) => match parse_dec_at(s, i4, 65535) {
                                None => None,
                                Some((port, i5)) => match parse_lit(
                                    s,
                                    i5,
                                    ",\"networkInterface\":"@,
                                ) {
                                    None => None,
                                    Some(i6) => match parse_jstr(s, i6) {
                                        None => None,
                                        Some((network_interface, i7)) => match parse_lit(
                                            s,
                                            i7,
                                            ",\"keys\":"@,
                                        ) {
                                            None => None,
                                            Some(i8) => match parse_keys(s, i8) {
                                                None => None,
                                                Some((keys, i9)) => match parse_lit(
                                                    s,
                                                    i9,
                                                    ",\"clients\":{"@,
                                                ) {
                                                    None => None,
                                                    Some(i10) => match parse_clients(s, i10) {
                                                        None => None,
                                                        Some((cs, i11)) => if !(forall|t: int|
                                                            0 <= t < cs.len() ==> (
                                                            #[trigger] cs[t].id)
                                                                < spec_max_clients(sn)) {
                                                            None
                                                        } else {
                                                            match parse_lit(s, i11, "}}"@) {
                                                                None => None,
                                                                Some(i12) => if i12 == s.len() {
                                                                    Some(
                                                                        ServerView {
                                                                            subnet: sn,
                                                                            endpoint,
                                                                            port: port as u16,
                                                                            network_interface,
                                                                            keys,
                                                                            clients: cs,
                                                                        },
                                                                    )
                                                                } else {
                                                                    None
                                                                },
                                                            }
                                                        },
                                                    },
                                                },
                                            },
                                        },
                                    },
                                },
                            },
                        },
                    },
                }
            },
        },
    }
}

/// What the rest-parser guarantees of its crop: ids strictly ascend
/// and all lie above `prev`.
pub proof fn lemma_parse_clients_rest_sorted(s: Seq<char>, i: int, prev: int)
    ensures
        parse_clients_rest(s, i, prev) matches Some(p) ==> {
            &&& forall|t: int| 0 <= t < p.0.len() ==> (#[trigger] p.0[t].id) > prev
            &&& forall|a: int, b: int|
                #![trigger p.0[a].id, p.0[b].id]
                0 <= a < b < p.0.len() ==> p.0[a].id < p.0[b].id
        },
    decreases s.len() - i,
{
    if 0 <= i && i < s.len() && s[i] == ',' {
        let re = parse_entry(s, i + 1);
        if re is Some {
            lemma_parse_entry_bounds(s, i + 1);
            let c = re.unwrap().0;
            let j = re.unwrap().1;
            if c.id > prev {
                lemma_parse_clients_rest_sorted(s, j, c.id);
                let rr = parse_clients_rest(s, j, c.id);
                if rr is Some {
                    let cs = rr.unwrap().0;
                    let whole = seq![c] + cs;
                    assert(whole[0] == c);
                    assert(forall|t: int|
                        1 <= t < whole.len() ==> whole[t] == #[trigger] cs[t - 1]);
                    assert(forall|t: int|
                        0 <= t < whole.len() ==> (#[trigger] whole[t].id) > prev);
                    assert(forall|a: int, b: int|
                        #![trigger whole[a].id, whole[b].id]
                        0 <= a < b < whole.len() ==> whole[a].id < whole[b].id);
                }
            }
        }
    }
}

/// What the roster parser guarantees: ids are not negative and
/// strictly ascend.
pub proof fn lemma_parse_clients_sorted(s: Seq<char>, i: int)
    ensures
        parse_clients(s, i) matches Some(p) ==> {
            &&& forall|t: int| 0 <= t < p.0.len() ==> (#[trigger] p.0[t].id) >= 0
            &&& forall|a: int, b: int|
                #![trigger p.0[a].id, p.0[b].id]
                0 <= a < b < p.0.len() ==> p.0[a].id < p.0[b].id
        },
{
    if 0 <= i && i < s.len() && s[i] == '"' {
        let re = parse_entry(s, i);
        if re is Some {
            lemma_parse_entry_bounds(s, i);
            let c = re.unwrap().0;
            let j = re.unwrap().1;
            lemma_parse_clients_rest_sorted(s, j, c.id);
            let rr = parse_clients_rest(s, j, c.id);
            if rr is Some {
                let cs = rr.unwrap().0;
                let whole = seq![c] + cs;
                assert(whole[0] == c);
                assert(forall|t: int| 1 <= t < whole.len() ==> whole[t] == #[trigger] cs[t - 1]);
            }
        }
    }
}

// --- the round trip: parsing a rendering gives the value back ---

/// `s` carries exactly `part` at position `i`.
pub open spec fn carries(s: Seq<char>, i: int, part: Seq<char>) -> bool {
    0 <= i && i + part.len() <= s.len() && s.subrange(i, i + part.len()) == part
}

proof fn lemma_parse_string_of_escape(s: Seq<char>, i: int, v: Seq<char>)
    requires
        carries(s, i, escape(v) + seq!['"']),
    ensures
        parse_string_body(s, i) == Some((v, i + escape(v).len() + 1)),
    decreases v.len(),
{
    if v.len() == 0 {
        assert(escape(v) + seq!['"'] =~= seq!['"']);
        assert(s[i] == '"') by {
            assert(s.subrange(i, i + 1)[0] == s[i]);
        }
        assert(parse_string_body(s, i) == Some((Seq::<char>::empty(), i + 1)));
        assert(Seq::<char>::empty() =~= v);
    } else {
        let c = v[0];
        let rest = v.drop_first();
        assert(escape(v) == esc_char(c) + escape(rest));
        let tail = escape(rest) + seq!['"'];
        assert(escape(v) + seq!['"'] =~= esc_char(c) + tail);
        crate::ip::lemma_subrange_split(s, i, esc_char(c), tail);
        if c == '"' || c == '\\' {
            assert(esc_char(c) =~= seq!['\\', c]);
            assert(s[i] == '\\' && s[i + 1] == c) by {
                assert(s.subrange(i, i + 2)[0] == s[i]);
                assert(s.subrange(i, i + 2)[1] == s[i + 1]);
            }
            lemma_parse_string_of_escape(s, i + 2, rest);
            assert(seq![s[i + 1]] + rest =~= v);
        } else {
            assert(esc_char(c) =~= seq![c]);
            assert(s[i] == c) by {
                assert(s.subrange(i, i + 1)[0] == s[i]);
            }
            lemma_parse_string_of_escape(s, i + 1, rest);
            assert(seq![s[i]] + rest =~= v);
        }
    }
}

proof fn lemma_parse_jstr_of_render(s: Seq<char>, i: int, v: Seq<char>)
    requires
        carries(s, i, jstr(v)),
    ensures
        parse_jstr(s, i) == Some((v, i + jstr(v).len())),
{
    let tail = escape(v) + seq!['"'];
    assert(jstr(v) =~= seq!['"'] + tail);
    crate::ip::lemma_subrange_split(s, i, seq!['"'], tail);
    assert(s[i] == '"') by {
        assert(s.subrange(i, i + 1)[0] == s[i]);
    }
    lemma_parse_string_of_escape(s, i + 1, v);
}

proof fn lemma_parse_keys_of_render(s: Seq<char>, i: int, k: KeyPairView)
    requires
        carries(s, i, render_keys(k)),
    ensures
        parse_keys(s, i) == Some((k, i + render_keys(k).len())),
{
    let l1 = "{\"private\":"@;
    let l2 = ",\"public\":"@;
    let l3 = "}"@;
    let r1 = jstr(k.private) + (l2 + (jstr(k.public) + l3));
    assert(render_keys(k) =~= l1 + r1);
    crate::ip::lemma_subrange_split(s, i, l1, r1);
    let i1 = i + l1.len();
    let r2 = l2 + (jstr(k.public) + l3);
    assert(r1 =~= jstr(k.private) + r2);
    crate::ip::lemma_subrange_split(s, i1, jstr(k.private), r2);
    let i2 = i1 + jstr(k.private).len();
    let r3 = jstr(k.public) + l3;
    assert(r2 =~= l2 + r3);
    crate::ip::lemma_subrange_split(s, i2, l2, r3);
    let i3 = i2 + l2.len();
    assert(r3 =~= jstr(k.public) + l3);
    crate::ip::lemma_subrange_split(s, i3, jstr(k.public), l3);
    let i4 = i3 + jstr(k.public).len();
    lemma_parse_jstr_of_render(s, i1, k.private);
    lemma_parse_jstr_of_render(s, i3, k.public);
    assert(parse_lit(s, i, l1) == Some(i1));
    assert(parse_lit(s, i2, l2) == Some(i3));
    assert(parse_lit(s, i4, l3) == Some(i4 + l3.len()));
    assert(KeyPairView { private: k.private, public: k.public } == k);
}

#[verifier::rlimit(100)]
proof fn lemma_parse_entry_of_render(s: Seq<char>, i: int, c: ClientView)
    requires
        carries(s, i, render_entry(c)),
        0 <= c.id <= 0xFFFFFFFF,
    ensures
        parse_entry(s, i) == Some((c, i + render_entry(c).len())),
{
    let lq = "\""@;
    let lcolon = "\":"@;
    let lid = "{\"id\":"@;
    let lname = ",\"name\":"@;
    let lkeys = ",\"keys\":"@;
    let lend = "}"@;
    let d = dec(c.id as nat);
    reveal_strlit("\":");
    reveal_strlit(",\"name\":");
    let r1 = d + (lcolon + (lid + (d + (lname + (jstr(c.name) + (lkeys + (render_keys(c.keys)
        + lend)))))));
    assert(render_entry(c) =~= lq + r1);
    crate::ip::lemma_subrange_split(s, i, lq, r1);
    let i1 = i + lq.len();
    let r2 = lcolon + (lid + (d + (lname + (jstr(c.name) + (lkeys + (render_keys(c.keys)
        + lend))))));
    assert(r1 =~= d + r2);
    crate::ip::lemma_subrange_split(s, i1, d, r2);
    let i2 = i1 + d.len();
    // the key's digits are followed by the quote of "\":"
    assert(s[i2] == '"') by {
        assert(s.subrange(i2, i2 + r2.len())[0] == s[i2]);
        assert(r2[0] == lcolon[0]);
    }
    assert(!crate::num::is_digit('"'));
    crate::num::lemma_parse_dec_of_dec(s, i1, c.id as nat, 0xFFFFFFFF);
    let r3 = lid + (d + (lname + (jstr(c.name) + (lkeys + (render_keys(c.keys) + lend)))));
    assert(r2 =~= lcolon + r3);
    crate::ip::lemma_subrange_split(s, i2, lcolon, r3);
    let i3 = i2 + lcolon.len();
    let r4 = d + (lname + (jstr(c.name) + (lkeys + (render_keys(c.keys) + lend))));
    assert(r3 =~= lid + r4);
    crate::ip::lemma_subrange_split(s, i3, lid, r4);
    let i4 = i3 + lid.len();
    let r5 = lname + (jstr(c.name) + (lkeys + (render_keys(c.keys) + lend)));
    assert(r4 =~= d + r5);
    crate::ip::lemma_subrange_split(s, i4, d, r5);
    let i5 = i4 + d.len();
    // the id's digits are followed by the comma of ",\"name\":"
    assert(s[i5] == ',') by {
        assert(s.subrange(i5, i5 + r5.len())[0] == s[i5]);
        assert(r5[0] == lname[0]);
    }
    assert(!crate::num::is_digit(','));
    crate::num::lemma_parse_dec_of_dec(s, i4, c.id as nat, 0xFFFFFFFF);
    let r6 = jstr(c.name) + (lkeys + (render_keys(c.keys) + lend));
    assert(r5 =~= lname + r6);
    crate::ip::lemma_subrange_split(s, i5, lname, r6);
    let i6 = i5 + lname.len();
    let r7 = lkeys + (render_keys(c.keys) + lend);
    assert(r6 =~= jstr(c.name) + r7);
    crate::ip::lemma_subrange_split(s, i6, jstr(c.name), r7);
    let i7 = i6 + jstr(c.name).len();
    lemma_parse_jstr_of_render(s, i6, c.name);
    let r8 = render_keys(c.keys) + lend;
    assert(r7 =~= lkeys + r8);
    crate::ip::lemma_subrange_split(s, i7, lkeys, r8);
    let i8 = i7 + lkeys.len();
    assert(r8 =~= render_keys(c.keys) + lend);
    crate::ip::lemma_subrange_split(s, i8, render_keys(c.keys), lend);
    let i9 = i8 + render_keys(c.keys).len();
    lemma_parse_keys_of_render(s, i8, c.keys);
    assert(parse_lit(s, i, lq) == Some(i1));
    assert(parse_lit(s, i2, lcolon) == Some(i3));
    assert(parse_lit(s, i3, lid) == Some(i4));
    assert(parse_lit(s, i5, lname) == Some(i6));
    assert(parse_lit(s, i7, lkeys) == Some(i8));
    assert(parse_lit(s, i9, lend) == Some(i9 + lend.len()));
    assert((c.id as nat) as int == c.id);
    assert(ClientView { id: c.id, name: c.name, keys: c.keys } == c);
}

proof fn lemma_parse_clients_rest_of_render(s: Seq<char>, i: int, cs: Seq<ClientView>, prev: int)
    requires
        carries(s, i, render_clients_rest(cs)),
        i + render_clients_rest(cs).len() < s.len(),
        s[i + render_clients_rest(cs).len()] != ',',
        forall|t: int| 0 <= t < cs.len() ==> (#[trigger] cs[t].id) > prev,
        forall|t: int| 0 <= t < cs.len() ==> 0 <= (#[trigger] cs[t].id) <= 0xFFFFFFFF,
        forall|a: int, b: int|
            #![trigger cs[a].id, cs[b].id]
            0 <= a < b < cs.len() ==> cs[a].id < cs[b].id,
    ensures
        parse_clients_rest(s, i, prev) == Some((cs, i + render_clients_rest(cs).len())),
    decreases cs.len(),
{
    reveal_strlit(",");
    if cs.len() == 0 {
        assert(render_clients_rest(cs) =~= Seq::<char>::empty());
        assert(s[i] != ',');
    } else {
        let comma = ","@;
        let first = cs.first();
        let rest = cs.drop_first();
        let r1 = render_entry(first) + render_clients_rest(rest);
        assert(render_clients_rest(cs) =~= comma + r1);
        crate::ip::lemma_subrange_split(s, i, comma, r1);
        assert(s[i] == ',') by {
            assert(s.subrange(i, i + 1)[0] == s[i]);
        }
        let i1 = i + comma.len();
        assert(r1 =~= render_entry(first) + render_clients_rest(rest));
        crate::ip::lemma_subrange_split(s, i1, render_entry(first), render_clients_rest(rest));
        let i2 = i1 + render_entry(first).len();
        assert(0 <= first.id <= 0xFFFFFFFF) by {
            assert(0 <= cs[0].id <= 0xFFFFFFFF);
        }
        lemma_parse_entry_of_render(s, i1, first);
        assert(first.id > prev) by {
            assert(cs[0].id > prev);
        }
        lemma_parse_clients_rest_of_render(s, i2, rest, first.id);
        assert(seq![first] + rest =~= cs);
    }
}

proof fn lemma_parse_clients_of_render(s: Seq<char>, i: int, cs: Seq<ClientView>)
    requires
        carries(s, i, render_clients(cs)),
        i + render_clients(cs).len() < s.len(),
        s[i + render_clients(cs).len()] == '}',
        forall|t: int| 0 <= t < cs.len() ==> 0 <= (#[trigger] cs[t].id) <= 0xFFFFFFFF,
        forall|a: int, b: int|
            #![trigger cs[a].id, cs[b].id]
            0 <= a < b < cs.len() ==> cs[a].id < cs[b].id,
    ensures
        parse_clients(s, i) == Some((cs, i + render_clients(cs).len())),
{
    reveal_strlit("\"");
    if cs.len() == 0 {
        assert(render_clients(cs) =~= Seq::<char>::empty());
        assert(s[i] == '}');
    } else {
        let first = cs.first();
        let rest = cs.drop_first();
        assert(render_clients(cs) =~= render_entry(first) + render_clients_rest(rest));
        crate::ip::lemma_subrange_split(s, i, render_entry(first), render_clients_rest(rest));
        let i1 = i + render_entry(first).len();
        // an entry starts with its quoted key
        assert(s[i] == '"') by {
            let lq = "\""@;
            assert(render_entry(first)[0] == lq[0]) by {
                assert(lq.len() == 1);
            }
            assert(s.subrange(i, i + render_entry(first).len())[0] == s[i]);
        }
        lemma_parse_entry_of_render(s, i, first);
        assert(forall|t: int| 0 <= t < rest.len() ==> (#[trigger] rest[t].id) > first.id) by {
            assert(forall|t: int| 0 <= t < rest.len() ==> rest[t] == #[trigger] cs[t + 1]);
        }
        lemma_parse_clients_rest_of_render(s, i1, rest, first.id);
        assert(seq![first] + rest =~= cs);
    }
}

/// The document's head: everything before the roster object, parsed
/// back field by field.
#[verifier::rlimit(100)]
#[verifier::spinoff_prover]
proof fn lemma_round_trip_head(s: Seq<char>, sv: ServerView)
    requires
        sv.subnet.prefix <= 32,
        carries(
            s,
            0,
            "{\"subnetCidr\":\""@ + (subnet_chars(sv.subnet) + ("\",\"endpoint\":"@ + (jstr(
                sv.endpoint,
            ) + (",\"port\":"@ + (dec(sv.port as nat) + (",\"networkInterface\":"@ + (jstr(
                sv.network_interface,
            ) + (",\"keys\":"@ + render_keys(sv.keys))))))))),
        ),
    ensures
        ({
            let l1 = "{\"subnetCidr\":\""@;
            let l2 = "\",\"endpoint\":"@;
            let l3 = ",\"port\":"@;
            let l4 = ",\"networkInterface\":"@;
            let l5 = ",\"keys\":"@;
            let i0 = l1.len() as int;
            let i1 = i0 + subnet_chars(sv.subnet).len();
            let i2 = i1 + l2.len();
            let i3 = i2 + jstr(sv.endpoint).len();
            let i4 = i3 + l3.len();
            let i5 = i4 + dec(sv.port as nat).len();
            let i6 = i5 + l4.len();
            let i7 = i6 + jstr(sv.network_interface).len();
            let i8 = i7 + l5.len();
            let i9 = i8 + render_keys(sv.keys).len();
            &&& parse_lit(s, 0, l1) == Some(i0)
            &&& parse_subnet_at(s, i0) == Some((sv.subnet, i1))
            &&& parse_lit(s, i1, l2) == Some(i2)
            &&& parse_jstr(s, i2) == Some((sv.endpoint, i3))
            &&& parse_lit(s, i3, l3) == Some(i4)
            &&& parse_dec_at(s, i4, 65535) == Some((sv.port as int, i5))
            &&& parse_lit(s, i5, l4) == Some(i6)
            &&& parse_jstr(s, i6) == Some((sv.network_interface, i7))
            &&& parse_lit(s, i7, l5) == Some(i8)
            &&& parse_keys(s, i8) == Some((sv.keys, i9))
        }),
{
    let s_full = s;
    let l1 = "{\"subnetCidr\":\""@;
    let l2 = "\",\"endpoint\":"@;
    let l3 = ",\"port\":"@;
    let l4 = ",\"networkInterface\":"@;
    let l5 = ",\"keys\":"@;
    let sc = subnet_chars(sv.subnet);
    let dp = dec(sv.port as nat);
    reveal_strlit("\",\"endpoint\":");
    reveal_strlit(",\"networkInterface\":");
    let r1 = sc + (l2 + (jstr(sv.endpoint) + (l3 + (dp + (l4 + (jstr(sv.network_interface) + (l5
        + render_keys(sv.keys))))))));
    crate::ip::lemma_subrange_split(s, 0, l1, r1);
    let i0 = l1.len() as int;
    let r2 = l2 + (jstr(sv.endpoint) + (l3 + (dp + (l4 + (jstr(sv.network_interface) + (l5
        + render_keys(sv.keys)))))));
    crate::ip::lemma_subrange_split(s, i0, sc, r2);
    let i1 = i0 + sc.len();
    assert(s[i1] == '"') by {
        assert(s.subrange(i1, i1 + r2.len())[0] == s[i1]);
        assert(r2[0] == l2[0]);
    }
    assert(!crate::num::is_digit('"'));
    crate::ip::lemma_parse_subnet_of_render(s, i0, sv.subnet);
    let r3 = jstr(sv.endpoint) + (l3 + (dp + (l4 + (jstr(sv.network_interface) + (l5
        + render_keys(sv.keys))))));
    crate::ip::lemma_subrange_split(s, i1, l2, r3);
    let i2 = i1 + l2.len();
    let r4 = l3 + (dp + (l4 + (jstr(sv.network_interface) + (l5 + render_keys(sv.keys)))));
    crate::ip::lemma_subrange_split(s, i2, jstr(sv.endpoint), r4);
    let i3 = i2 + jstr(sv.endpoint).len();
    lemma_parse_jstr_of_render(s, i2, sv.endpoint);
    let r5 = dp + (l4 + (jstr(sv.network_interface) + (l5 + render_keys(sv.keys))));
    crate::ip::lemma_subrange_split(s, i3, l3, r5);
    let i4 = i3 + l3.len();
    let r6 = l4 + (jstr(sv.network_interface) + (l5 + render_keys(sv.keys)));
    crate::ip::lemma_subrange_split(s, i4, dp, r6);
    let i5 = i4 + dp.len();
    assert(s[i5] == ',') by {
        assert(s.subrange(i5, i5 + r6.len())[0] == s[i5]);
        assert(r6[0] == l4[0]);
    }
    assert(!crate::num::is_digit(','));
    crate::num::lemma_parse_dec_of_dec(s, i4, sv.port as nat, 65535);
    let r7 = jstr(sv.network_interface) + (l5 + render_keys(sv.keys));
    crate::ip::lemma_subrange_split(s, i5, l4, r7);
    let i6 = i5 + l4.len();
    let r8 = l5 + render_keys(sv.keys);
    crate::ip::lemma_subrange_split(s, i6, jstr(sv.network_interface), r8);
    let i7 = i6 + jstr(sv.network_interface).len();
    lemma_parse_jstr_of_render(s, i6, sv.network_interface);
    crate::ip::lemma_subrange_split(s, i7, l5, render_keys(sv.keys));
    let i8 = i7 + l5.len();
    lemma_parse_keys_of_render(s, i8, sv.keys);
}

/// The document's tail: the roster object and the closing braces.
#[verifier::spinoff_prover]
proof fn lemma_round_trip_tail(s: Seq<char>, i9: int, cs: Seq<ClientView>)
    requires
        carries(s, i9, ",\"clients\":{"@ + (render_clients(cs) + "}}"@)),
        i9 + (",\"clients\":{"@ + (render_clients(cs) + "}}"@)).len() == s.len(),
        forall|t: int| 0 <= t < cs.len() ==> 0 <= (#[trigger] cs[t].id) <= 0xFFFFFFFF,
        forall|a: int, b: int|
            #![trigger cs[a].id, cs[b].id]
            0 <= a < b < cs.len() ==> cs[a].id < cs[b].id,
    ensures
        ({
            let i10 = i9 + ",\"clients\":{"@.len();
            let i11 = i10 + render_clients(cs).len();
            &&& parse_lit(s, i9, ",\"clients\":{"@) == Some(i10)
            &&& parse_clients(s, i10) == Some((cs, i11))
            &&& parse_lit(s, i11, "}}"@) == Some(s.len() as int)
        }),
{
    let l6 = ",\"clients\":{"@;
    let l7 = "}}"@;
    reveal_strlit("}}");
    let r11 = render_clients(cs) + l7;
    crate::ip::lemma_subrange_split(s, i9, l6, r11);
    let i10 = i9 + l6.len();
    crate::ip::lemma_subrange_split(s, i10, render_clients(cs), l7);
    let i11 = i10 + render_clients(cs).len();
    assert(s[i11] == '}') by {
        assert(s.subrange(i11, i11 + l7.len())[0] == s[i11]);
    }
    assert(i11 < s.len()) by {
        assert(l7.len() > 0);
    }
    lemma_parse_clients_of_render(s, i10, cs);
}

/// The rendered document, regrouped at the roster seam.
#[verifier::rlimit(100)]
#[verifier::spinoff_prover]
proof fn lemma_render_server_regroup(sv: ServerView)
    ensures
        render_server(sv) == ("{\"subnetCidr\":\""@ + (subnet_chars(sv.subnet) + ("\",\"endpoint\":"@
            + (jstr(sv.endpoint) + (",\"port\":"@ + (dec(sv.port as nat)
            + (",\"networkInterface\":"@ + (jstr(sv.network_interface) + (",\"keys\":"@
            + render_keys(sv.keys)))))))))) + (",\"clients\":{"@ + (render_clients(sv.clients)
            + "}}"@)),
{
    assert(render_server(sv) =~= ("{\"subnetCidr\":\""@ + (subnet_chars(sv.subnet)
        + ("\",\"endpoint\":"@ + (jstr(sv.endpoint) + (",\"port\":"@ + (dec(sv.port as nat)
        + (",\"networkInterface\":"@ + (jstr(sv.network_interface) + (",\"keys\":"@
        + render_keys(sv.keys)))))))))) + (",\"clients\":{"@ + (render_clients(sv.clients)
        + "}}"@)));
}

/// Round-trip law for the config store: a well-formed server, dumped
/// to its document and parsed back, is recovered exactly — every
/// field, every client id, name and key.
#[verifier::rlimit(100)]
#[verifier::spinoff_prover]
pub proof fn lemma_config_round_trip(sv: ServerView)
    requires
        crate::model::server::wf_server(sv),
    ensures
        parse_server(render_server(sv)) == Some(sv),
{
    let s = render_server(sv);
    let l1 = "{\"subnetCidr\":\""@;
    let l2 = "\",\"endpoint\":"@;
    let l3 = ",\"port\":"@;
    let l4 = ",\"networkInterface\":"@;
    let l5 = ",\"keys\":"@;
    let l6 = ",\"clients\":{"@;
    let l7 = "}}"@;
    let sc = subnet_chars(sv.subnet);
    let dp = dec(sv.port as nat);
    let head = l1 + (sc + (l2 + (jstr(sv.endpoint) + (l3 + (dp + (l4 + (jstr(
        sv.network_interface,
    ) + (l5 + render_keys(sv.keys)))))))));
    let tail = l6 + (render_clients(sv.clients) + l7);
    lemma_render_server_regroup(sv);
    assert(s == head + tail);
    assert(s.subrange(0, s.len() as int) =~= s);
    crate::ip::lemma_subrange_split(s, 0, head, tail);
    lemma_round_trip_head(s, sv);
    let i9 = head.len() as int;
    // every roster id fits the 32-bit key cap
    assert(spec_max_clients(sv.subnet) <= 0xFFFFFFFF) by {
        vstd::arithmetic::power2::lemma2_to64();
        if (32 - sv.subnet.prefix) < 32 {
            vstd::arithmetic::power2::lemma_pow2_strictly_increases(
                (32 - sv.subnet.prefix) as nat,
                32,
            );
        }
    }
    lemma_round_trip_tail(s, i9, sv.clients);
    let i10 = i9 + l6.len();
    let i11 = i10 + render_clients(sv.clients).len();
    assert((sv.port as nat) as int == sv.port as int);
    let rebuilt = ServerView {
        subnet: sv.subnet,
        endpoint: sv.endpoint,
        port: sv.port,
        network_interface: sv.network_interface,
        keys: sv.keys,
        clients: sv.clients,
    };
    assert(rebuilt == sv);
}


// --- executable rendering ---

proof fn lemma_escape_push(u: Seq<char>, c: char)
    ensures
        escape(u.push(c)) == escape(u) + esc_char(c),
    decreases u.len(),
{
    assert(u.push(c).len() > 0);
    assert(escape(u.push(c)) == esc_char(u.push(c)[0]) + escape(u.push(c).drop_first()));
    if u.len() == 0 {
        assert(u.push(c).drop_first() =~= Seq::<char>::empty());
        assert(u.push(c)[0] == c);
        assert(escape(Seq::<char>::empty()) == Seq::<char>::empty());
        assert(escape(u) == Seq::<char>::empty());
        assert(escape(u.push(c)) =~= escape(u) + esc_char(c));
    } else {
        assert(u.push(c).drop_first() =~= u.drop_first().push(c));
        assert(u.push(c)[0] == u[0]);
        lemma_escape_push(u.drop_first(), c);
        assert(escape(u) == esc_char(u[0]) + escape(u.drop_first()));
        assert(escape(u.push(c)) =~= escape(u) + esc_char(c));
    }
}

proof fn lemma_render_rest_push(cs: Seq<ClientView>, c: ClientView)
    ensures
        render_clients_rest(cs.push(c)) == render_clients_rest(cs) + (","@ + render_entry(c)),
    decreases cs.len(),
{
    assert(cs.push(c).len() > 0);
    assert(render_clients_rest(cs.push(c)) == ","@ + render_entry(cs.push(c).first())
        + render_clients_rest(cs.push(c).drop_first()));
    if cs.len() == 0 {
        assert(cs.push(c).drop_first() =~= Seq::<ClientView>::empty());
        assert(cs.push(c).first() == c);
        assert(render_clients_rest(Seq::<ClientView>::empty()) == Seq::<char>::empty());
        assert(render_clients_rest(cs) == Seq::<char>::empty());
        assert(render_clients_rest(cs.push(c)) =~= render_clients_rest(cs) + (","@
            + render_entry(c)));
    } else {
        assert(cs.push(c).drop_first() =~= cs.drop_first().push(c));
        assert(cs.push(c).first() == cs.first());
        lemma_render_rest_push(cs.drop_first(), c);
        assert(render_clients_rest(cs) == ","@ + render_entry(cs.first())
            + render_clients_rest(cs.drop_first()));
        assert(render_clients_rest(cs.push(c)) =~= render_clients_rest(cs) + (","@
            + render_entry(c)));
    }
}

proof fn lemma_render_clients_push(cs: Seq<ClientView>, c: ClientView)
    ensures
        cs.len() == 0 ==> render_clients(cs.push(c)) == render_entry(c),
        cs.len() > 0 ==> render_clients(cs.push(c)) == render_clients(cs) + (","@
            + render_entry(c)),
{
    if cs.len() == 0 {
        assert(cs.push(c).drop_first() =~= Seq::<ClientView>::empty());
        assert(cs.push(c).first() == c);
        assert(render_clients(cs.push(c)) =~= render_entry(c));
    } else {
        assert(cs.push(c).drop_first() =~= cs.drop_first().push(c));
        assert(cs.push(c).first() == cs.first());
        lemma_render_rest_push(cs.drop_first(), c);
        assert(render_clients(cs.push(c)) =~= render_clients(cs) + (","@ + render_entry(c)));
    }
}

/// Appends `v` as a JSON string: quoted, with `"` and `\` escaped.
fn append_jstr(out: &mut String, v: &str)
    ensures
        final(out)@ == old(out)@ + jstr(v@),
{
    let ghost o0 = out@;
    let n = v.unicode_len();
    out.append("\"");
    proof {
        reveal_strlit("\"");
        reveal_strlit("\\");
        assert("\""@ =~= seq!['"']);
        assert("\\"@ =~= seq!['\\']);
        assert(v@.subrange(0, 0) =~= Seq::<char>::empty());
        assert(out@ =~= o0 + seq!['"'] + escape(v@.subrange(0, 0)));
    }
    let mut k: usize = 0;
    while k < n
        invariant
            n == v@.len(),
            k <= n,
            out@ == o0 + seq!['"'] + escape(v@.subrange(0, k as int)),
        decreases n - k,
    {
        proof {
            reveal_strlit("\\");
        }
        let c = v.get_char(k);
        if c == '"' || c == '\\' {
            out.append("\\");
        }
        out.append(v.substring_char(k, k + 1));
        proof {
            assert(v@.subrange(k as int, k as int + 1) =~= seq![v@[k as int]]);
            lemma_escape_push(v@.subrange(0, k as int), v@[k as int]);
            assert(v@.subrange(0, k as int).push(v@[k as int]) =~= v@.subrange(0, k as int + 1));
            assert(out@ =~= o0 + seq!['"'] + escape(v@.subrange(0, k as int + 1)));
        }
        k += 1;
    }
    out.append("\"");
    proof {
        reveal_strlit("\"");
        assert("\""@ =~= seq!['"']);
        assert(v@.subrange(0, n as int) =~= v@);
        assert(out@ =~= o0 + jstr(v@));
    }
}

/// Appends a key pair as its JSON object.
fn append_keys(out: &mut String, kp: &KeyPair)
    ensures
        final(out)@ == old(out)@ + render_keys(kp@),
{
    let ghost o0 = out@;
    out.append("{\"private\":");
    append_jstr(out, kp.private.as_str());
    out.append(",\"public\":");
    append_jstr(out, kp.public.as_str());
    out.append("}");
    proof {
        assert(out@ =~= o0 + render_keys(kp@));
    }
}

/// Appends one roster entry: the id as the key, then the client.
fn append_entry(out: &mut String, c: &Client)
    ensures
        final(out)@ == old(out)@ + render_entry(c@),
{
    let ghost o0 = out@;
    out.append("\"");
    out.append(crate::num::u64_to_dec(c.id as u64).as_str());
    out.append("\":{\"id\":");
    out.append(crate::num::u64_to_dec(c.id as u64).as_str());
    out.append(",\"name\":");
    append_jstr(out, c.name.as_str());
    out.append(",\"keys\":");
    append_keys(out, &c.keys);
    out.append("}");
    proof {
        reveal_strlit("\"");
        reveal_strlit("\":");
        reveal_strlit("{\"id\":");
        reveal_strlit("\":{\"id\":");
        assert("\":{\"id\":"@ =~= "\":"@ + "{\"id\":"@);
        assert(out@ =~= o0 + render_entry(c@));
    }
}

impl Server {
    /// Renders the server to its canonical configuration document.
    pub fn dump_config(&self) -> (r: String)
        ensures
            r@ == render_server(self@),
    {
        let mut out = String::new();
        out.append("{\"subnetCidr\":\"");
        out.append(self.subnet.render().as_str());
        out.append("\",\"endpoint\":");
        append_jstr(&mut out, self.endpoint.as_str());
        out.append(",\"port\":");
        out.append(crate::num::u64_to_dec(self.port as u64).as_str());
        out.append(",\"networkInterface\":");
        append_jstr(&mut out, self.network_interface.as_str());
        out.append(",\"keys\":");
        append_keys(&mut out, &self.keys);
        out.append(",\"clients\":{");
        let ghost head = out@;
        let ghost csv = self@.clients;
        proof {
            assert(csv.subrange(0, 0) =~= Seq::<ClientView>::empty());
            assert(out@ =~= head + render_clients(csv.subrange(0, 0)));
        }
        let len = self.clients.len();
        let mut i: usize = 0;
        while i < len
            invariant
                len == self.clients@.len(),
                csv == self@.clients,
                i <= len,
                out@ == head + render_clients(csv.subrange(0, i as int)),
            decreases len - i,
        {
            if i == 0 {
                append_entry(&mut out, &self.clients[i]);
            } else {
                out.append(",");
                append_entry(&mut out, &self.clients[i]);
            }
            proof {
                lemma_render_clients_push(csv.subrange(0, i as int), csv[i as int]);
                assert(csv.subrange(0, i as int).push(csv[i as int]) =~= csv.subrange(
                    0,
                    i as int + 1,
                ));
                assert(out@ =~= head + render_clients(csv.subrange(0, i as int + 1)));
            }
            i += 1;
        }
        out.append("}}");
        proof {
            assert(csv.subrange(0, len as int) =~= csv);
            assert(out@ =~= render_server(self@));
        }
        out
    }
}

// --- executable parsing ---

/// Matches a fixed piece of text at position `i`.
fn scan_lit(s: &str, n: usize, i: usize, lit: &str) -> (r: Option<usize>)
    requires
        n == s@.len(),
        i <= n,
    ensures
        match r {
            Some(j) => parse_lit(s@, i as int, lit@) == Some(j as int) && i <= j <= n,
            None => parse_lit(s@, i as int, lit@) is None,
        },
{
    let l = lit.unicode_len();
    if l > n - i {
        return None;
    }
    let mut k: usize = 0;
    while k < l
        invariant
            n == s@.len(),
            l == lit@.len(),
            i <= n,
            i + l <= n,
            k <= l,
            forall|t: int| 0 <= t < k ==> s@[i + t] == lit@[t],
        decreases l - k,
    {
        if s.get_char(i + k) != lit.get_char(k) {
            proof {
                assert(s@.subrange(i as int, i as int + lit@.len())[k as int] == s@[i + k]);
                assert(s@.subrange(i as int, i as int + lit@.len()) != lit@);
            }
            return None;
        }
        k += 1;
    }
    proof {
        assert(s@.subrange(i as int, i as int + lit@.len()) =~= lit@);
    }
    Some(i + l)
}

/// Scans a JSON string at position `i`, undoing the escapes.
fn scan_jstr(s: &str, n: usize, i: usize) -> (r: Option<(String, usize)>)
    requires
        n == s@.len(),
        i <= n,
    ensures
        match r {
            Some(p) => parse_jstr(s@, i as int) == Some((p.0@, p.1 as int)) && i < p.1 <= n,
            None => parse_jstr(s@, i as int) is None,
        },
{
    if i >= n {
        return None;
    }
    if s.get_char(i) != '"' {
        return None;
    }
    let mut acc = String::new();
    let mut cur = i + 1;
    loop
        invariant
            n == s@.len(),
            i + 1 <= cur <= n,
            i < s@.len() && s@[i as int] == '"',
            ({
                let full = parse_string_body(s@, i as int + 1);
                match parse_string_body(s@, cur as int) {
                    Some((t, j)) => full == Some((acc@ + t, j)),
                    None => full is None,
                }
            }),
        decreases n - cur,
    {
        if cur >= n {
            return None;
        }
        let c = s.get_char(cur);
        if c == '"' {
            proof {
                assert(parse_string_body(s@, cur as int) == Some(
                    (Seq::<char>::empty(), cur as int + 1),
                ));
                assert(acc@ + Seq::<char>::empty() =~= acc@);
            }
            return Some((acc, cur + 1));
        }
        if c == '\\' {
            if cur + 1 >= n {
                return None;
            }
            let ghost a0 = acc@;
            acc.append(s.substring_char(cur + 1, cur + 2));
            proof {
                assert(s@.subrange(cur as int + 1, cur as int + 2) =~= seq![s@[cur as int + 1]]);
                let rt = parse_string_body(s@, cur as int + 2);
                if rt is Some {
                    let t = rt.unwrap().0;
                    assert(a0 + (seq![s@[cur as int + 1]] + t) =~= acc@ + t);
                }
            }
            cur = cur + 2;
        } else {
            let ghost a0 = acc@;
            acc.append(s.substring_char(cur, cur + 1));
            proof {
                assert(s@.subrange(cur as int, cur as int + 1) =~= seq![s@[cur as int]]);
                let rt = parse_string_body(s@, cur as int + 1);
                if rt is Some {
                    let t = rt.unwrap().0;
                    assert(a0 + (seq![s@[cur as int]] + t) =~= acc@ + t);
                }
            }
            cur = cur + 1;
        }
    }
}

/// Scans a key-pair object at position `i`.
fn scan_keys(s: &str, n: usize, i: usize) -> (r: Option<(KeyPair, usize)>)
    requires
        n == s@.len(),
        i <= n,
    ensures
        match r {
            Some(p) => parse_keys(s@, i as int) == Some((p.0@, p.1 as int)) && i <= p.1 <= n,
            None => parse_keys(s@, i as int) is None,
        },
{
    let i1 = match scan_lit(s, n, i, "{\"private\":") {
        Some(v) => v,
        None => { return None; },
    };
    let (private, i2) = match scan_jstr(s, n, i1) {
        Some(v) => v,
        None => { return None; },
    };
    let i3 = match scan_lit(s, n, i2, ",\"public\":") {
        Some(v) => v,
        None => { return None; },
    };
    let (public, i4) = match scan_jstr(s, n, i3) {
        Some(v) => v,
        None => { return None; },
    };
    let i5 = match scan_lit(s, n, i4, "}") {
        Some(v) => v,
        None => { return None; },
    };
    Some((KeyPair { private, public }, i5))
}

/// Scans one roster entry at position `i`.
fn scan_entry(s: &str, n: usize, i: usize) -> (r: Option<(Client, usize)>)
    requires
        n == s@.len(),
        i <= n,
    ensures
        match r {
            Some(p) => parse_entry(s@, i as int) == Some((p.0@, p.1 as int)) && i < p.1 <= n
                && p.0.id <= 0xFFFFFFFF,
            None => parse_entry(s@, i as int) is None,
        },
{
    let i1 = match scan_lit(s, n, i, "\"") {
        Some(v) => v,
        None => { return None; },
    };
    let (key, i2) = match crate::num::scan_dec(s, n, i1, 0xFFFFFFFF) {
        Some(v) => v,
        None => { return None; },
    };
    let i3 = match scan_lit(s, n, i2, "\":") {
        Some(v) => v,
        None => { return None; },
    };
    let i4 = match scan_lit(s, n, i3, "{\"id\":") {
        Some(v) => v,
        None => { return None; },
    };
    let (idv, i5) = match crate::num::scan_dec(s, n, i4, 0xFFFFFFFF) {
        Some(v) => v,
        None => { return None; },
    };
    if idv != key {
        return None;
    }
    let i6 = match scan_lit(s, n, i5, ",\"name\":") {
        Some(v) => v,
        None => { return None; },
    };
    let (name, i7) = match scan_jstr(s, n, i6) {
        Some(v) => v,
        None => { return None; },
    };
    let i8 = match scan_lit(s, n, i7, ",\"keys\":") {
        Some(v) => v,
        None => { return None; },
    };
    let (keys, i9) = match scan_keys(s, n, i8) {
        Some(v) => v,
        None => { return None; },
    };
    let i10 = match scan_lit(s, n, i9, "}") {
        Some(v) => v,
        None => { return None; },
    };
    proof {
        crate::num::lemma_parse_dec_at_bounds(s@, i1 as int, 0xFFFFFFFF);
        assert(usize::BITS == 32 || usize::BITS == 64);
    }
    Some((Client { id: idv as usize, name, keys }, i10))
}

/// True exactly when every roster id lies below `maxc`.
fn roster_ids_below(clients: &Vec<Client>, maxc: usize) -> (r: bool)
    ensures
        r <==> (forall|u: int|
            0 <= u < clients@.len() ==> (#[trigger] clients@[u])@.id < maxc as int),
{
    let ghost csv = clients@.map_values(|c: Client| c@);
    let mut t: usize = 0;
    while t < clients.len()
        invariant
            csv == clients@.map_values(|c: Client| c@),
            t <= clients@.len(),
            forall|u: int| 0 <= u < t ==> (#[trigger] csv[u].id) < maxc as int,
        decreases clients@.len() - t,
    {
        if clients[t].id >= maxc {
            proof {
                assert(csv[t as int].id >= maxc as int);
                assert((clients@[t as int])@.id >= maxc as int);
            }
            return false;
        }
        t += 1;
    }
    proof {
        assert forall|u: int|
            0 <= u < clients@.len() implies (#[trigger] clients@[u])@.id < maxc as int by {
            assert(csv[u].id < maxc as int);
            assert(csv[u] == clients@[u]@);
        }
    }
    true
}

/// Scans the roster object's inside at position `i`.
fn scan_clients(s: &str, n: usize, i: usize) -> (r: Option<(Vec<Client>, usize)>)
    requires
        n == s@.len(),
        i <= n,
    ensures
        match r {
            Some(p) => parse_clients(s@, i as int) == Some(
                (p.0@.map_values(|c: Client| c@), p.1 as int),
            ) && i <= p.1 <= n,
            None => parse_clients(s@, i as int) is None,
        },
{
    if i >= n || s.get_char(i) != '"' {
        let out: Vec<Client> = Vec::new();
        proof {
            assert(out@.map_values(|c: Client| c@) =~= Seq::<ClientView>::empty());
        }
        return Some((out, i));
    }
    let (c0, j0) = match scan_entry(s, n, i) {
        Some(v) => v,
        None => { return None; },
    };
    let mut prev: usize = c0.id;
    let mut out: Vec<Client> = Vec::new();
    out.push(c0);
    let mut cur = j0;
    proof {
        assert(out@.map_values(|c: Client| c@) =~= seq![out@[0]@]);
    }
    loop
        invariant
            n == s@.len(),
            i <= cur <= n,
            out@.len() >= 1,
            prev as int == out@[out@.len() - 1]@.id,
            ({
                let full = parse_clients(s@, i as int);
                match parse_clients_rest(s@, cur as int, prev as int) {
                    Some((t, k)) => full == Some((out@.map_values(|c: Client| c@) + t, k)),
                    None => full is None,
                }
            }),
        decreases n - cur,
    {
        if cur >= n {
            proof {
                assert(parse_clients_rest(s@, cur as int, prev as int) == Some(
                    (Seq::<ClientView>::empty(), cur as int),
                ));
                assert(out@.map_values(|c: Client| c@) + Seq::<ClientView>::empty()
                    =~= out@.map_values(|c: Client| c@));
            }
            return Some((out, cur));
        }
        if s.get_char(cur) != ',' {
            proof {
                assert(parse_clients_rest(s@, cur as int, prev as int) == Some(
                    (Seq::<ClientView>::empty(), cur as int),
                ));
                assert(out@.map_values(|c: Client| c@) + Seq::<ClientView>::empty()
                    =~= out@.map_values(|c: Client| c@));
            }
            return Some((out, cur));
        }
        let (c, j) = match scan_entry(s, n, cur + 1) {
            Some(v) => v,
            None => { return None; },
        };
        if c.id <= prev {
            return None;
        }
        let ghost out0 = out@;
        prev = c.id;
        let ghost cv = c@;
        out.push(c);
        proof {
            assert(out@.map_values(|c: Client| c@) =~= out0.map_values(|c: Client| c@).push(cv));
            let rt = parse_clients_rest(s@, j as int, cv.id);
            if rt is Some {
                let t = rt.unwrap().0;
                assert(out0.map_values(|c: Client| c@) + (seq![cv] + t) =~= out@.map_values(
                    |c: Client| c@,
                ) + t);
            }
        }
        cur = j;
    }
}

impl Server {
    /// Parses a configuration document back into a server. Succeeds
    /// exactly on well-formed canonical documents; everything else is
    /// a `ParseError`.
    #[verifier::rlimit(100)]
    #[verifier::spinoff_prover]
    pub fn from_config(s: &str) -> (r: Result<Server, Error>)
        ensures
            match r {
                Ok(srv) => parse_server(s@) == Some(srv@) && srv.wf(),
                Err(e) => e is ParseError && parse_server(s@) is None,
            },
    {
        let n = s.unicode_len();
        let i0 = match scan_lit(s, n, 0, "{\"subnetCidr\":\"") {
            Some(v) => v,
            None => { return Err(Error::ParseError); },
        };
        let (sn, i1) = match Subnet::scan(s, n, i0) {
            Some(v) => v,
            None => { return Err(Error::ParseError); },
        };
        if sn.prefix > 30 {
            return Err(Error::ParseError);
        }
        let i2 = match scan_lit(s, n, i1, "\",\"endpoint\":") {
            Some(v) => v,
            None => { return Err(Error::ParseError); },
        };
        let (endpoint, i3) = match scan_jstr(s, n, i2) {
            Some(v) => v,
            None => { return Err(Error::ParseError); },
        };
        let i4 = match scan_lit(s, n, i3, ",\"port\":") {
            Some(v) => v,
            None => { return Err(Error::ParseError); },
        };
        let (port, i5) = match crate::num::scan_dec(s, n, i4, 65535) {
            Some(v) => v,
            None => { return Err(Error::ParseError); },
        };
        let i6 = match scan_lit(s, n, i5, ",\"networkInterface\":") {
            Some(v) => v,
            None => { return Err(Error::ParseError); },
        };
        let (network_interface, i7) = match scan_jstr(s, n, i6) {
            Some(v) => v,
            None => { return Err(Error::ParseError); },
        };
        let i8 = match scan_lit(s, n, i7, ",\"keys\":") {
            Some(v) => v,
            None => { return Err(Error::ParseError); },
        };
        let (keys, i9) = match scan_keys(s, n, i8) {
            Some(v) => v,
            None => { return Err(Error::ParseError); },
        };
        let i10 = match scan_lit(s, n, i9, ",\"clients\":{") {
            Some(v) => v,
            None => { return Err(Error::ParseError); },
        };
        let (clients, i11) = match scan_clients(s, n, i10) {
            Some(v) => v,
            None => { return Err(Error::ParseError); },
        };
        let ghost csv = clients@.map_values(|c: Client| c@);
        let maxc = sn.max_clients();
        if !roster_ids_below(&clients, maxc) {
            proof {
                let bad = choose|u: int|
                    0 <= u < clients@.len() && !((#[trigger] clients@[u])@.id < maxc as int);
                assert(csv[bad].id >= spec_max_clients(sn));
            }
            return Err(Error::ParseError);
        }
        proof {
            assert(forall|u: int|
                0 <= u < csv.len() ==> (#[trigger] csv[u].id) < spec_max_clients(sn)) by {
                assert(forall|u: int|
                    0 <= u < clients@.len() ==> (#[trigger] clients@[u])@.id < maxc as int);
            }
        }
        let i12 = match scan_lit(s, n, i11, "}}") {
            Some(v) => v,
            None => { return Err(Error::ParseError); },
        };
        if i12 != n {
            return Err(Error::ParseError);
        }
        let srv = Server { subnet: sn, endpoint, port: port as u16, network_interface, keys, clients };
        proof {
            lemma_parse_clients_sorted(s@, i10 as int);
            assert(crate::model::server::wf_clients(csv, sn));
            assert(srv@.clients == csv);
        }
        Ok(srv)
    }
}

} // verus!

