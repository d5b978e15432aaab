//! The wire codec: one JSON record per line. The serializer is pinned
//! character by character; the parser accepts exactly the canonical records
//! the serializer emits - whatever it returns serializes back to its input -
//! and always hands out well-formed events.

use vstd::prelude::*;
use crate::types::{
    Instance, ClientRequest, ClientReply, ReqV, ReplyV, CommittedDeps, Event, ins_keys_unique,
};
use crate::text::{
    chars_to_string, str_chars, u64_chars, push_u64_digits, push_str_chars, is_digit_char,
    char_digit, digits_val, lemma_dec_digits, lemma_dec_val, lemma_dec_prefix_le,
};
use crate::format::{dbg_esc};
use crate::store::{ins_set};
use crate::dispatch::event_wf;
use vstd::string::StrSliceExecFns;

verus! {

/// A quoted JSON string: quotes and backslashes escaped.
pub open spec fn jstr(s: Seq<char>) -> Seq<char> {
    seq!['"'] + dbg_esc(s) + seq!['"']
}

/// An instance on the wire: a two-element array.
pub open spec fn jins(i: Instance) -> Seq<char> {
    seq!['['] + u64_chars(i.replica as u64) + seq![','] + u64_chars(i.slot) + seq![']']
}

/// A boolean on the wire.
pub open spec fn jbool(b: bool) -> Seq<char> {
    if b {
        "true"@
    } else {
        "false"@
    }
}

/// The first `c` entries of a deps map: `[instance, hint]` pairs.
pub open spec fn jdeps_items(s: Seq<(Instance, bool)>, c: int) -> Seq<char>
    decreases c,
{
    if c <= 0 {
        Seq::empty()
    } else {
        jdeps_items(s, c - 1) + (if c - 1 > 0 {
            seq![',']
        } else {
            Seq::empty()
        }) + seq!['['] + jins(s[c - 1].0) + seq![','] + jbool(s[c - 1].1) + seq![']']
    }
}

/// A deps map on the wire: the list of its pairs under the `committed` key.
pub open spec fn jdeps(d: CommittedDeps) -> Seq<char> {
    "{\"committed\":["@ + jdeps_items(d.committed@, d.committed@.len() as int) + "]}"@
}

/// The first `c` instances of a plain dependency list.
pub open spec fn jins_items(s: Seq<Instance>, c: int) -> Seq<char>
    decreases c,
{
    if c <= 0 {
        Seq::empty()
    } else {
        jins_items(s, c - 1) + (if c - 1 > 0 {
            seq![',']
        } else {
            Seq::empty()
        }) + jins(s[c - 1])
    }
}

/// A plain dependency list on the wire.
pub open spec fn jinslist(s: Seq<Instance>) -> Seq<char> {
    seq!['['] + jins_items(s, s.len() as int) + seq![']']
}

/// A client request on the wire.
pub open spec fn jreq(r: ReqV) -> Seq<char> {
    match r {
        ReqV::Read { key, addr, id } => "{\"Read\":["@ + jstr(key) + seq![','] + jstr(addr)
            + seq![','] + u64_chars(id) + "]}"@,
        ReqV::Write { key, val, addr, id } => "{\"Write\":["@ + jstr(key) + seq![','] + jstr(val)
            + seq![','] + jstr(addr) + seq![','] + u64_chars(id) + "]}"@,
    }
}

/// A client reply on the wire.
pub open spec fn jreply(r: ReplyV) -> Seq<char> {
    "{\"Reply\":["@ + (match r.val {
        Some(v) => jstr(v),
        None => "null"@,
    }) + seq![','] + u64_chars(r.id) + "]}"@
}

/// An event record on the wire.
pub open spec fn jevent(e: Event) -> Seq<char> {
    match e {
        Event::Message(a, m) => "{\"Message\":["@ + jstr(a@) + seq![','] + jstr(m@) + "]}"@,
        Event::Ping(a, m) => "{\"Ping\":["@ + jstr(a@) + seq![','] + jstr(m@) + "]}"@,
        Event::Pong(a, m) => "{\"Pong\":["@ + jstr(a@) + seq![','] + jstr(m@) + "]}"@,
        Event::Forward(a, m) => "{\"Forward\":["@ + jstr(a@) + seq![','] + jstr(m@) + "]}"@,
        Event::Acknowledge(a) => "{\"Acknowledge\":"@ + jstr(a@) + seq!['}'],
        Event::SaveState => "\"SaveState\""@,
        Event::ReceivedRequest(r) => "{\"ReceivedRequest\":"@ + jreq(r@) + seq!['}'],
        Event::PreAccept(r, s, d, i, a) => "{\"PreAccept\":["@ + jreq(r@) + seq![','] + u64_chars(
            s,
        ) + seq![','] + jdeps(d) + seq![','] + jins(i) + seq![','] + jstr(a@) + "]}"@,
        Event::PreAcceptOK(r, s, d, i, a) => "{\"PreAcceptOK\":["@ + jreq(r@) + seq![',']
            + u64_chars(s) + seq![','] + jdeps(d) + seq![','] + jins(i) + seq![','] + jstr(a@)
            + "]}"@,
        Event::Accept(r, s, d, i, a) => "{\"Accept\":["@ + jreq(r@) + seq![','] + u64_chars(s)
            + seq![','] + jinslist(d@) + seq![','] + jins(i) + seq![','] + jstr(a@) + "]}"@,
        Event::AcceptOK(r, s, d, i, a) => "{\"AcceptOK\":["@ + jreq(r@) + seq![','] + u64_chars(s)
            + seq![','] + jinslist(d@) + seq![','] + jins(i) + seq![','] + jstr(a@) + "]}"@,
        Event::Commit(r, s, d, i, a) => "{\"Commit\":["@ + jreq(r@) + seq![','] + u64_chars(s)
            + seq![','] + jinslist(d@) + seq![','] + jins(i) + seq![','] + jstr(a@) + "]}"@,
    }
}

/// Append a quoted, escaped string.
fn push_jstr(s: &String, out: &mut Vec<char>)
    ensures
        final(out)@ == old(out)@ + jstr(s@),
{
    out.push('"');
    let n = s.as_str().unicode_len();
    for i in 0..n
        invariant
            n == s@.len(),
            out@ == old(out)@ + seq!['"'] + dbg_esc(s@.take(i as int)),
    {
        let c = s.as_str().get_char(i);
        if c == '"' || c == '\\' {
            out.push('\\');
            out.push(c);
        } else if c == '\n' {
            out.push('\\');
            out.push('n');
        } else {
            out.push(c);
        }
        proof {
            assert(s@.take(i + 1).drop_last() =~= s@.take(i as int));
            assert(s@.take(i + 1).last() == s@[i as int]);
            assert(out@ =~= old(out)@ + seq!['"'] + dbg_esc(s@.take(i + 1)));
        }
    }
    out.push('"');
    proof {
        assert(s@.take(n as int) =~= s@);
        assert(final(out)@ =~= old(out)@ + jstr(s@));
    }
}

/// Append an instance.
fn push_jins(i: Instance, out: &mut Vec<char>)
    ensures
        final(out)@ == old(out)@ + jins(i),
{
    out.push('[');
    push_u64_digits(i.replica as u64, out);
    out.push(',');
    push_u64_digits(i.slot, out);
    out.push(']');
    proof {
        assert(final(out)@ =~= old(out)@ + jins(i));
    }
}

/// Append a boolean.
fn push_jbool(b: bool, out: &mut Vec<char>)
    ensures
        final(out)@ == old(out)@ + jbool(b),
{
    if b {
        push_str_chars("true", out);
    } else {
        push_str_chars("false", out);
    }
}

/// Append a deps map.
fn push_jdeps(d: &CommittedDeps, out: &mut Vec<char>)
    ensures
        final(out)@ == old(out)@ + jdeps(*d),
{
    push_str_chars("{\"committed\":[", out);
    let ghost mark = out@;
    let n = d.committed.len();
    for c in 0..n
        invariant
            n == d.committed@.len(),
            out@ == mark + jdeps_items(d.committed@, c as int),
    {
        if c > 0 {
            out.push(',');
        }
        out.push('[');
        push_jins(d.committed[c].0, out);
        out.push(',');
        push_jbool(d.committed[c].1, out);
        out.push(']');
        proof {
            assert(out@ =~= mark + jdeps_items(d.committed@, c + 1));
        }
    }
    push_str_chars("]}", out);
    proof {
        assert(final(out)@ =~= old(out)@ + jdeps(*d));
    }
}

/// Append a plain dependency list.
fn push_jinslist(d: &Vec<Instance>, out: &mut Vec<char>)
    ensures
        final(out)@ == old(out)@ + jinslist(d@),
{
    out.push('[');
    let ghost mark = out@;
    let n = d.len();
    for c in 0..n
        invariant
            n == d@.len(),
            out@ == mark + jins_items(d@, c as int),
    {
        if c > 0 {
            out.push(',');
        }
        push_jins(d[c], out);
        proof {
            assert(out@ =~= mark + jins_items(d@, c + 1));
        }
    }
    out.push(']');
    proof {
        assert(final(out)@ =~= old(out)@ + jinslist(d@));
    }
}

/// Append a client request.
fn push_jreq(r: &ClientRequest, out: &mut Vec<char>)
    ensures
        final(out)@ == old(out)@ + jreq(r@),
{
    match r {
        ClientRequest::Read(k, a, id) => {
            push_str_chars("{\"Read\":[", out);
            push_jstr(k, out);
            out.push(',');
            push_jstr(a, out);
            out.push(',');
            push_u64_digits(*id, out);
            push_str_chars("]}", out);
            proof {
                assert(final(out)@ =~= old(out)@ + jreq(r@));
            }
        },
        ClientRequest::Write(k, v, a, id) => {
            push_str_chars("{\"Write\":[", out);
            push_jstr(k, out);
            out.push(',');
            push_jstr(v, out);
            out.push(',');
            push_jstr(a, out);
            out.push(',');
            push_u64_digits(*id, out);
            push_str_chars("]}", out);
            proof {
                assert(final(out)@ =~= old(out)@ + jreq(r@));
            }
        },
    }
}

/// One client reply as its wire record.
pub fn serialize_reply(r: &ClientReply) -> (s: String)
    ensures
        s@ == jreply(r@),
{
    let mut out: Vec<char> = Vec::new();
    push_str_chars("{\"Reply\":[", &mut out);
    match r {
        ClientReply::Reply(v, id) => {
            match v {
                Some(vs) => push_jstr(vs, &mut out),
                None => push_str_chars("null", &mut out),
            };
            out.push(',');
            push_u64_digits(*id, &mut out);
        },
    }
    push_str_chars("]}", &mut out);
    proof {
        assert(out@ =~= jreply(r@));
    }
    chars_to_string(&out)
}

/// One event as its wire record (without the line terminator).
pub fn serialize_event(e: &Event) -> (s: String)
    ensures
        s@ == jevent(*e),
{
    let mut out: Vec<char> = Vec::new();
    match e {
        Event::Message(a, m) => {
            push_str_chars("{\"Message\":[", &mut out);
            push_jstr(a, &mut out);
            out.push(',');
            push_jstr(m, &mut out);
            push_str_chars("]}", &mut out);
        },
        Event::Ping(a, m) => {
            push_str_chars("{\"Ping\":[", &mut out);
            push_jstr(a, &mut out);
            out.push(',');
            push_jstr(m, &mut out);
            push_str_chars("]}", &mut out);
        },
        Event::Pong(a, m) => {
            push_str_chars("{\"Pong\":[", &mut out);
            push_jstr(a, &mut out);
            out.push(',');
            push_jstr(m, &mut out);
            push_str_chars("]}", &mut out);
        },
        Event::Forward(a, m) => {
            push_str_chars("{\"Forward\":[", &mut out);
            push_jstr(a, &mut out);
            out.push(',');
            push_jstr(m, &mut out);
            push_str_chars("]}", &mut out);
        },
        Event::Acknowledge(a) => {
            push_str_chars("{\"Acknowledge\":", &mut out);
            push_jstr(a, &mut out);
            out.push('}');
        },
        Event::SaveState => {
            push_str_chars("\"SaveState\"", &mut out);
        },
        Event::ReceivedRequest(r) => {
            push_str_chars("{\"ReceivedRequest\":", &mut out);
            push_jreq(r, &mut out);
            out.push('}');
        },
        Event::PreAccept(r, s, d, i, a) => {
            push_str_chars("{\"PreAccept\":[", &mut out);
            push_jreq(r, &mut out);
            out.push(',');
            push_u64_digits(*s, &mut out);
            out.push(',');
            push_jdeps(d, &mut out);
            out.push(',');
            push_jins(*i, &mut out);
            out.push(',');
            push_jstr(a, &mut out);
            push_str_chars("]}", &mut out);
        },
        Event::PreAcceptOK(r, s, d, i, a) => {
            push_str_chars("{\"PreAcceptOK\":[", &mut out);
            push_jreq(r, &mut out);
            out.push(',');
            push_u64_digits(*s, &mut out);
            out.push(',');
            push_jdeps(d, &mut out);
            out.push(',');
            push_jins(*i, &mut out);
            out.push(',');
            push_jstr(a, &mut out);
            push_str_chars("]}", &mut out);
        },
        Event::Accept(r, s, d, i, a) => {
            push_str_chars("{\"Accept\":[", &mut out);
            push_jreq(r, &mut out);
            out.push(',');
            push_u64_digits(*s, &mut out);
            out.push(',');
            push_jinslist(d, &mut out);
            out.push(',');
            push_jins(*i, &mut out);
            out.push(',');
            push_jstr(a, &mut out);
            push_str_chars("]}", &mut out);
        },
        Event::AcceptOK(r, s, d, i, a) => {
            push_str_chars("{\"AcceptOK\":[", &mut out);
            push_jreq(r, &mut out);
            out.push(',');
            push_u64_digits(*s, &mut out);
            out.push(',');
            push_jinslist(d, &mut out);
            out.push(',');
            push_jins(*i, &mut out);
            out.push(',');
            push_jstr(a, &mut out);
            push_str_chars("]}", &mut out);
        },
        Event::Commit(r, s, d, i, a) => {
            push_str_chars("{\"Commit\":[", &mut out);
            push_jreq(r, &mut out);
            out.push(',');
            push_u64_digits(*s, &mut out);
            out.push(',');
            push_jinslist(d, &mut out);
            out.push(',');
            push_jins(*i, &mut out);
            out.push(',');
            push_jstr(a, &mut out);
            push_str_chars("]}", &mut out);
        },
    }
    proof {
        assert(out@ =~= jevent(*e));
    }
    chars_to_string(&out)
}

/// `x` stands in `v` at position `pos`.
pub open spec fn starts_with(v: Seq<char>, pos: int, x: Seq<char>) -> bool {
    0 <= pos && pos + x.len() <= v.len() && v.subrange(pos, pos + x.len()) == x
}

/// A match of a concatenation is a match of each part in turn.
proof fn lemma_split(v: Seq<char>, pos: int, x: Seq<char>, y: Seq<char>)
    requires
        starts_with(v, pos, x + y),
    ensures
        starts_with(v, pos, x),
        starts_with(v, pos + x.len(), y),
{
    let xy = x + y;
    assert forall|k: int| 0 <= k < xy.len() implies v[pos + k] == xy[k] by {
        assert(v.subrange(pos, pos + xy.len())[k] == xy[k]);
    }
    assert forall|i: int| 0 <= i < x.len() implies v.subrange(pos, pos + x.len())[i] == x[i] by {
        assert(v[pos + i] == xy[i]);
    }
    assert(v.subrange(pos, pos + x.len()) =~= x);
    assert forall|i: int|
        0 <= i < y.len() implies v.subrange(pos + x.len() as int, pos + x.len() + y.len())[i]
        == y[i] by {
        assert(v[pos + (x.len() + i)] == xy[x.len() + i]);
        assert(xy[x.len() + i] == y[i]);
    }
    assert(v.subrange(pos + x.len() as int, pos + x.len() + y.len()) =~= y);
}

/// The first character of a matched region.
proof fn lemma_head(v: Seq<char>, q: int, x: Seq<char>)
    requires
        starts_with(v, q, x),
        x.len() > 0,
    ensures
        v[q] == x[0],
{
    assert(v.subrange(q, q + x.len())[0] == x[0]);
}

/// The escape of one character.
pub open spec fn esc_unit(c: char) -> Seq<char> {
    if c == '"' || c == '\\' {
        seq!['\\', c]
    } else if c == '\n' {
        seq!['\\', 'n']
    } else {
        seq![c]
    }
}

/// Escaping distributes over concatenation.
proof fn lemma_esc_concat(x: Seq<char>, y: Seq<char>)
    ensures
        dbg_esc(x + y) == dbg_esc(x) + dbg_esc(y),
    decreases y.len(),
{
    if y.len() == 0 {
        assert(x + y =~= x);
        assert(dbg_esc(x + y) =~= dbg_esc(x) + dbg_esc(y));
    } else {
        lemma_esc_concat(x, y.drop_last());
        assert((x + y).drop_last() =~= x + y.drop_last());
        assert((x + y).last() == y.last());
        assert(dbg_esc(x + y) =~= dbg_esc(x) + dbg_esc(y));
    }
}

/// The escape of one more character extends the escape of the prefix.
proof fn lemma_esc_take_step(s: Seq<char>, k: int)
    requires
        0 <= k < s.len(),
    ensures
        dbg_esc(s.take(k + 1)) == dbg_esc(s.take(k)) + esc_unit(s[k]),
        dbg_esc(s.take(k)).len() + esc_unit(s[k]).len() <= dbg_esc(s).len(),
{
    assert(s.take(k + 1).drop_last() =~= s.take(k));
    assert(s.take(k + 1).last() == s[k]);
    assert(dbg_esc(s.take(k + 1)) =~= dbg_esc(s.take(k)) + esc_unit(s[k]));
    assert(s =~= s.take(k + 1) + s.skip(k + 1));
    lemma_esc_concat(s.take(k + 1), s.skip(k + 1));
}

/// One character expected at a position.
fn p_char(v: &Vec<char>, pos: usize, c: char) -> (r: Option<usize>)
    ensures
        r is Some <==> (pos < v@.len() && v@[pos as int] == c),
        r matches Some(p) ==> p == pos + 1,
        starts_with(v@, pos as int, seq![c]) ==> r is Some,
{
    proof {
        if starts_with(v@, pos as int, seq![c]) {
            assert(v@.subrange(pos as int, pos + 1)[0] == c);
        }
    }
    if pos < v.len() && v[pos] == c {
        Some(pos + 1)
    } else {
        None
    }
}

/// A literal expected at a position: succeeds exactly when it stands there.
#[verifier::loop_isolation(false)]
fn p_lit(v: &Vec<char>, pos: usize, s: &str) -> (r: Option<usize>)
    ensures
        r is Some <==> starts_with(v@, pos as int, s@),
        r matches Some(p) ==> p == pos + s@.len(),
{
    let n = s.unicode_len();
    if pos > v.len() || n > v.len() - pos {
        proof {
            assert(!starts_with(v@, pos as int, s@));
        }
        return None;
    }
    for i in 0..n
        invariant
            n == s@.len(),
            pos + n <= v@.len(),
            forall|j: int| 0 <= j < i ==> v@[pos + j] == s@[j],
    {
        if v[pos + i] != s.get_char(i) {
            proof {
                assert(v@.subrange(pos as int, pos + s@.len())[i as int] != s@[i as int]);
            }
            return None;
        }
    }
    proof {
        assert(v@.subrange(pos as int, pos + s@.len()) =~= s@);
    }
    Some(pos + n)
}

/// The value of a decimal digit character.
fn p_digit(c: char) -> (r: Option<u64>)
    ensures
        is_digit_char(c) ==> r == Some(char_digit(c) as u64),
        !is_digit_char(c) ==> r is None,
{
    match c {
        '0' => Some(0),
        '1' => Some(1),
        '2' => Some(2),
        '3' => Some(3),
        '4' => Some(4),
        '5' => Some(5),
        '6' => Some(6),
        '7' => Some(7),
        '8' => Some(8),
        '9' => Some(9),
        _ => None,
    }
}

/// A decimal number at a position: at least one digit, overflow refused.
/// When the numeral of `exp` stands at `pos` with no digit after it, the
/// parse returns exactly `exp`.
#[verifier::loop_isolation(false)]
fn p_u64(v: &Vec<char>, pos: usize, Ghost(exp): Ghost<u64>) -> (r: Option<(u64, usize)>)
    ensures
        r matches Some(t) ==> pos < t.1 <= v@.len(),
        (starts_with(v@, pos as int, u64_chars(exp)) && (pos + u64_chars(exp).len() == v@.len()
            || !is_digit_char(v@[pos + u64_chars(exp).len()]))) ==> (r matches Some(t) && t.0
            == exp && t.1 == pos + u64_chars(exp).len()),
{
    let ghost pre = starts_with(v@, pos as int, u64_chars(exp)) && (pos + u64_chars(exp).len()
        == v@.len() || !is_digit_char(v@[pos + u64_chars(exp).len()]));
    let ghost ds = u64_chars(exp);
    proof {
        lemma_dec_digits(exp as nat);
        lemma_dec_val(exp as nat);
        if pre {
            assert(v@.subrange(pos as int, pos + ds.len())[0] == ds[0]);
            assert(v@[pos as int] == ds[0]);
            assert(is_digit_char(ds[0]));
        }
    }
    if pos >= v.len() {
        proof {
            if pre {
                assert(false);
            }
        }
        return None;
    }
    let mut acc: u64 = match p_digit(v[pos]) {
        Some(d) => d,
        None => {
            proof {
                if pre {
                    assert(false);
                }
            }
            return None;
        },
    };
    proof {
        if pre {
            assert(acc == char_digit(ds[0]) as u64);
        }
    }
    let mut p = pos + 1;
    proof {
        if pre {
            assert(ds.take(1).drop_last() =~= Seq::<char>::empty());
            assert(ds.take(1).last() == ds[0]);
            assert(digits_val(Seq::<char>::empty()) == 0);
            assert(digits_val(ds.take(1)) == char_digit(ds[0]));
            assert(acc as int == digits_val(ds.take(1)));
        }
    }
    loop
        invariant
            pos < p <= v@.len(),
            pre ==> (p - pos <= ds.len() && acc as int == digits_val(ds.take(p - pos))),
        decreases v@.len() - p,
    {
        proof {
            if pre && p - pos < ds.len() {
                assert(v@.subrange(pos as int, pos + ds.len())[p - pos] == ds[p - pos]);
                assert(v@[p as int] == ds[p - pos]);
                assert(is_digit_char(v@[p as int]));
            }
            if pre && p - pos == ds.len() && p < v@.len() {
                assert(!is_digit_char(v@[p as int]));
            }
        }
        if p >= v.len() {
            break ;
        }
        match p_digit(v[p]) {
            Some(d) => {
                proof {
                    if pre {
                        assert(p - pos < ds.len());
                        lemma_dec_prefix_le(exp as nat, p - pos + 1);
                        assert(ds.take(p - pos + 1).drop_last() =~= ds.take(p - pos));
                        assert(ds.take(p - pos + 1).last() == ds[p - pos]);
                        assert(digits_val(ds.take(p - pos + 1)) == acc * 10 + d);
                        assert(acc * 10 + d <= exp);
                    }
                }
                if acc > 1844674407370955161u64 || (acc == 1844674407370955161u64 && d > 5) {
                    proof {
                        assert(acc * 10 + d > u64::MAX);
                    }
                    return None;
                }
                proof {
                    assert(acc * 10 + d <= u64::MAX) by {
                        if acc < 1844674407370955161u64 {
                            assert(acc * 10 <= 18446744073709551600u64);
                        }
                    }
                }
                acc = acc * 10 + d;
                p = p + 1;
            },
            None => {
                break ;
            },
        }
    }
    proof {
        if pre {
            assert(p - pos == ds.len());
            assert(ds.take(p - pos) =~= ds);
            assert(acc == exp);
        }
    }
    Some((acc, p))
}

/// A run of characters up to a double quote, which is not consumed.
#[verifier::loop_isolation(false)]
fn p_name(v: &Vec<char>, pos: usize, Ghost(exp): Ghost<Seq<char>>) -> (r: Option<(String, usize)>)
    ensures
        r matches Some(t) ==> pos <= t.1 <= v@.len(),
        ((forall|x: int| 0 <= x < exp.len() ==> exp[x] != '"') && starts_with(v@, pos as int, exp)
            && pos + exp.len() < v@.len() && v@[pos + exp.len()] == '"') ==> (r matches Some(t)
            && t.0@ == exp && t.1 == pos + exp.len()),
{
    let ghost pre = (forall|x: int| 0 <= x < exp.len() ==> exp[x] != '"') && starts_with(
        v@,
        pos as int,
        exp,
    ) && pos + exp.len() < v@.len() && v@[pos + exp.len()] == '"';
    if pos >= v.len() {
        proof {
            if pre {
                assert(false);
            }
        }
        return None;
    }
    let mut buf: Vec<char> = Vec::new();
    let mut p = pos;
    proof {
        if pre {
            assert(exp.take(0) =~= Seq::<char>::empty());
        }
    }
    loop
        invariant
            pos <= p <= v@.len(),
            pre ==> (p - pos <= exp.len() && buf@ == exp.take(p - pos)),
        decreases v@.len() - p,
    {
        proof {
            if pre && p - pos < exp.len() {
                assert(v@.subrange(pos as int, pos + exp.len())[p - pos] == exp[p - pos]);
                assert(v@[p as int] == exp[p - pos] && exp[p - pos] != '"');
            }
        }
        if p >= v.len() {
            proof {
                if pre {
                    assert(false);
                }
            }
            return None;
        }
        let c = v[p];
        if c == '"' {
            proof {
                if pre {
                    assert(p - pos == exp.len());
                    assert(buf@ =~= exp);
                }
            }
            return Some((chars_to_string(&buf), p));
        }
        buf.push(c);
        proof {
            if pre {
                assert(buf@ =~= exp.take(p - pos + 1));
            }
        }
        p = p + 1;
    }
}

/// A quoted string at a position, unescaping quotes, backslashes and line
/// breaks. When `jstr(exp)` stands at `pos`, the parse returns exactly `exp`.
#[verifier::loop_isolation(false)]
#[verifier::rlimit(60)]
fn p_string(v: &Vec<char>, pos: usize, Ghost(exp): Ghost<Seq<char>>) -> (r: Option<(
    String,
    usize,
)>)
    ensures
        r matches Some(t) ==> pos < t.1 <= v@.len(),
        starts_with(v@, pos as int, jstr(exp)) ==> (r matches Some(t) && t.0@ == exp && t.1 == pos
            + jstr(exp).len()),
{
    let ghost pre = starts_with(v@, pos as int, jstr(exp));
    proof {
        if pre {
            assert(v@.subrange(pos as int, pos + jstr(exp).len())[0] == '"');
        }
    }
    let mut p = match p_char(v, pos, '"') {
        Some(p) => p,
        None => {
            return None;
        },
    };
    let ghost body = dbg_esc(exp);
    let ghost mut k: int = 0;
    proof {
        if pre {
            assert(exp.take(0) =~= Seq::<char>::empty());
            assert(dbg_esc(exp.take(0)) =~= Seq::<char>::empty());
        }
    }
    let mut buf: Vec<char> = Vec::new();
    loop
        invariant
            pos < p <= v@.len(),
            pre ==> (0 <= k <= exp.len() && buf@ == exp.take(k) && p == pos + 1 + dbg_esc(
                exp.take(k),
            ).len() && dbg_esc(exp.take(k)).len() <= body.len()),
        decreases v@.len() - p,
    {
        proof {
            if pre {
                if k < exp.len() {
                    lemma_esc_take_step(exp, k);
                    assert(v@.subrange(pos as int, pos + jstr(exp).len()) == jstr(exp));
                    assert forall|x: int| 0 <= x < esc_unit(exp[k]).len() implies v@[p + x]
                        == esc_unit(exp[k])[x] by {
                        assert(jstr(exp)[1 + dbg_esc(exp.take(k)).len() + x] == esc_unit(
                            exp[k],
                        )[x]) by {
                            assert(jstr(exp) == seq!['"'] + dbg_esc(exp) + seq!['"']);
                            assert(dbg_esc(exp) =~= dbg_esc(exp.take(k + 1)) + dbg_esc(
                                exp.skip(k + 1),
                            )) by {
                                assert(exp =~= exp.take(k + 1) + exp.skip(k + 1));
                                lemma_esc_concat(exp.take(k + 1), exp.skip(k + 1));
                            }
                        }
                        assert(v@[p + x] == v@.subrange(pos as int, pos + jstr(exp).len())[p + x
                            - pos]);
                    }
                } else {
                    assert(exp.take(k) =~= exp);
                    assert(v@[p as int] == v@.subrange(pos as int, pos + jstr(exp).len())[p
                        - pos]);
                    assert(v@[p as int] == jstr(exp)[1 + dbg_esc(exp).len() as int]);
                    assert(v@[p as int] == '"');
                }
            }
        }
        if p >= v.len() {
            proof {
                if pre {
                    if k < exp.len() {
                        assert(v@.len() > p);
                    }
                    assert(false);
                }
            }
            return None;
        }
        let c = v[p];
        if c == '"' {
            proof {
                if pre {
                    if k < exp.len() {
                        assert(esc_unit(exp[k])[0] != '"');
                        assert(false);
                    }
                    assert(buf@ =~= exp);
                    assert(p + 1 == pos + jstr(exp).len());
                }
            }
            return Some((chars_to_string(&buf), p + 1));
        }
        if c == '\\' {
            if p + 1 >= v.len() {
                proof {
                    if pre {
                        assert(k < exp.len());
                        assert(esc_unit(exp[k]).len() == 2);
                        assert(false);
                    }
                }
                return None;
            }
            if v[p + 1] == 'n' {
                buf.push('\n');
            } else {
                buf.push(v[p + 1]);
            }
            proof {
                if pre {
                    assert(k < exp.len());
                    assert(esc_unit(exp[k])[0] == '\\');
                    assert(esc_unit(exp[k]).len() == 2);
                    assert(v@[p + 1] == esc_unit(exp[k])[1]);
                    if exp[k] == '\n' {
                        assert(v@[p + 1] == 'n');
                        assert(buf@ =~= exp.take(k + 1));
                    } else {
                        assert(v@[p + 1] == exp[k] && exp[k] != 'n');
                        assert(buf@ =~= exp.take(k + 1));
                    }
                    lemma_esc_take_step(exp, k);
                    k = k + 1;
                }
            }
            p = p + 2;
        } else {
            buf.push(c);
            proof {
                if pre {
                    assert(k < exp.len());
                    assert(esc_unit(exp[k]).len() == 1 && esc_unit(exp[k])[0] == exp[k]);
                    assert(buf@ =~= exp.take(k + 1));
                    lemma_esc_take_step(exp, k);
                    k = k + 1;
                }
            }
            p = p + 1;
        }
    }
}

/// A boolean at a position.
fn p_bool(v: &Vec<char>, pos: usize, Ghost(exp): Ghost<bool>) -> (r: Option<(bool, usize)>)
    ensures
        r matches Some(t) ==> pos < t.1 <= v@.len(),
        starts_with(v@, pos as int, jbool(exp)) ==> (r matches Some(t) && t.0 == exp && t.1 == pos
            + jbool(exp).len()),
{
    proof {
        reveal_strlit("true");
        reveal_strlit("false");
    }
    if let Some(p) = p_lit(v, pos, "true") {
        proof {
            if starts_with(v@, pos as int, jbool(exp)) && !exp {
                assert(v@.subrange(pos as int, pos + 5)[0] == 'f');
                assert(v@.subrange(pos as int, pos + 4)[0] == 't');
                assert(false);
            }
        }
        return Some((true, p));
    }
    let p = match p_lit(v, pos, "false") {
        Some(p) => p,
        None => {
            return None;
        },
    };
    Some((false, p))
}

/// An instance at a position: a two-element array of replica id and slot.
fn p_ins(v: &Vec<char>, pos: usize, Ghost(exp): Ghost<Instance>) -> (r: Option<(Instance, usize)>)
    ensures
        r matches Some(t) ==> pos < t.1 <= v@.len(),
        starts_with(v@, pos as int, jins(exp)) ==> (r matches Some(t) && t.0 == exp && t.1 == pos
            + jins(exp).len()),
{
    let ghost pre = starts_with(v@, pos as int, jins(exp));
    proof {
        if pre {
            assert(jins(exp) =~= seq!['['] + (u64_chars(exp.replica as u64) + (seq![',']
                + (u64_chars(exp.slot) + seq![']']))));
            lemma_split(v@, pos as int, seq!['['], u64_chars(exp.replica as u64) + (seq![','] + (
            u64_chars(exp.slot) + seq![']'])));
            lemma_split(v@, pos + 1, u64_chars(exp.replica as u64), seq![','] + (u64_chars(
                exp.slot,
            ) + seq![']']));
            lemma_split(v@, pos + 1 + u64_chars(exp.replica as u64).len() as int, seq![','],
                u64_chars(exp.slot) + seq![']']);
            lemma_split(v@, pos + 2 + u64_chars(exp.replica as u64).len() as int,
                u64_chars(exp.slot), seq![']']);
            assert(!is_digit_char(','));
            assert(!is_digit_char(']'));
            assert(v@[pos as int] == '[') by {
                assert(v@.subrange(pos as int, pos + 1)[0] == '[');
            }
            assert(v@[pos + 1 + u64_chars(exp.replica as u64).len()] == ',') by {
                assert(v@.subrange(
                    pos + 1 + u64_chars(exp.replica as u64).len(),
                    pos + 2 + u64_chars(exp.replica as u64).len(),
                )[0] == ',');
            }
            assert(v@[pos + 2 + u64_chars(exp.replica as u64).len() + u64_chars(exp.slot).len()]
                == ']') by {
                assert(v@.subrange(
                    pos + 2 + u64_chars(exp.replica as u64).len() + u64_chars(exp.slot).len(),
                    pos + 3 + u64_chars(exp.replica as u64).len() + u64_chars(exp.slot).len(),
                )[0] == ']');
            }
        }
    }
    let p = match p_char(v, pos, '[') {
        Some(p) => p,
        None => {
            return None;
        },
    };
    let (rep, p) = match p_u64(v, p, Ghost(exp.replica as u64)) {
        Some(t) => t,
        None => {
            return None;
        },
    };
    if rep > 255 {
        return None;
    }
    let p = match p_char(v, p, ',') {
        Some(p) => p,
        None => {
            return None;
        },
    };
    let (slot, p) = match p_u64(v, p, Ghost(exp.slot)) {
        Some(t) => t,
        None => {
            return None;
        },
    };
    let p = match p_char(v, p, ']') {
        Some(p) => p,
        None => {
            return None;
        },
    };
    proof {
        if pre {
            assert(rep as u8 == exp.replica);
        }
    }
    Some((Instance { replica: rep as u8, slot }, p))
}

/// The first `c` items of a plain dependency list are a prefix of the whole.
proof fn lemma_jins_items_prefix(s: Seq<Instance>, j: int, n: int)
    requires
        0 <= j <= n <= s.len(),
    ensures
        jins_items(s, j).len() <= jins_items(s, n).len(),
        jins_items(s, n).take(jins_items(s, j).len() as int) == jins_items(s, j),
    decreases n - j,
{
    if j < n {
        lemma_jins_items_prefix(s, j, n - 1);
        assert(jins_items(s, n).take(jins_items(s, j).len() as int) =~= jins_items(s, j));
    } else {
        assert(jins_items(s, n).take(jins_items(s, j).len() as int) =~= jins_items(s, j));
    }
}

/// The first `c` pairs of a deps map are a prefix of the whole.
proof fn lemma_jdeps_items_prefix(s: Seq<(Instance, bool)>, j: int, n: int)
    requires
        0 <= j <= n <= s.len(),
    ensures
        jdeps_items(s, j).len() <= jdeps_items(s, n).len(),
        jdeps_items(s, n).take(jdeps_items(s, j).len() as int) == jdeps_items(s, j),
    decreases n - j,
{
    if j < n {
        lemma_jdeps_items_prefix(s, j, n - 1);
        assert(jdeps_items(s, n).take(jdeps_items(s, j).len() as int) =~= jdeps_items(s, j));
    } else {
        assert(jdeps_items(s, n).take(jdeps_items(s, j).len() as int) =~= jdeps_items(s, j));
    }
}

/// A match of a sequence covers every prefix of it.
proof fn lemma_starts_take(v: Seq<char>, pos: int, x: Seq<char>, m: int)
    requires
        starts_with(v, pos, x),
        0 <= m <= x.len(),
    ensures
        starts_with(v, pos, x.take(m)),
{
    assert(v.subrange(pos, pos + m) =~= x.take(m));
}

/// A plain dependency list at a position. When `jinslist(exp)` stands at
/// `pos`, the parse returns exactly `exp`.
#[verifier::loop_isolation(false)]
#[verifier::rlimit(100)]
fn p_inslist(v: &Vec<char>, pos: usize, Ghost(exp): Ghost<Seq<Instance>>) -> (r: Option<(
    Vec<Instance>,
    usize,
)>)
    ensures
        r matches Some(t) ==> pos < t.1 <= v@.len(),
        starts_with(v@, pos as int, jinslist(exp)) ==> (r matches Some(t) && t.0@ == exp && t.1
            == pos + jinslist(exp).len()),
{
    let ghost pre = starts_with(v@, pos as int, jinslist(exp));
    let ghost n = exp.len() as int;
    proof {
        if pre {
            assert(jinslist(exp) =~= seq!['['] + (jins_items(exp, n) + seq![']']));
            lemma_split(v@, pos as int, seq!['['], jins_items(exp, n) + seq![']']);
            lemma_split(v@, pos + 1, jins_items(exp, n), seq![']']);
            assert(v@[pos as int] == '[') by {
                assert(v@.subrange(pos as int, pos + 1)[0] == '[');
            }
        }
    }
    let mut p = match p_char(v, pos, '[') {
        Some(p) => p,
        None => {
            return None;
        },
    };
    let mut d: Vec<Instance> = Vec::new();
    proof {
        if pre {
            assert(jins_items(exp, 0) == Seq::<char>::empty());
        }
        if pre && n > 0 {
            lemma_jins_items_prefix(exp, 1, n);
            lemma_starts_take(v@, pos + 1, jins_items(exp, n), jins_items(exp, 1).len() as int);
            assert(jins_items(exp, 1) =~= jins(exp[0]));
            assert(starts_with(v@, pos + 1, jins(exp[0])));
            assert(v@[pos + 1] == '[') by {
                assert(v@.subrange(pos + 1, pos + 1 + jins(exp[0]).len() as int)[0] == jins(
                    exp[0],
                )[0]);
            }
        }
        if pre && n == 0 {
            assert(v@[pos + 1] == ']') by {
                assert(v@.subrange(pos + 1, pos + 1 + 1)[0] == ']');
            }
        }
    }
    if let Some(p2) = p_char(v, p, ']') {
        proof {
            if pre && n > 0 {
                assert(v@[pos + 1] == '[');
                assert(false);
            }
            if pre {
                assert(d@ =~= exp);
            }
        }
        return Some((d, p2));
    }
    proof {
        if pre {
            assert(n > 0) by {
                if n == 0 {
                    assert(p < v@.len() && v@[p as int] == ']');
                }
            }
        }
    }
    let ghost mut j: int = 0;
    loop
        invariant
            pos < p <= v@.len(),
            pre ==> (0 <= j < n && d@ == exp.take(j) && p as int == pos + 1 + jins_items(
                exp,
                j,
            ).len() + (if j > 0 {
                1int
            } else {
                0int
            })),
        decreases v@.len() - p,
    {
        proof {
            if pre {
                lemma_jins_items_prefix(exp, j + 1, n);
                lemma_starts_take(v@, pos + 1, jins_items(exp, n), jins_items(
                    exp,
                    j + 1,
                ).len() as int);
                assert(starts_with(v@, pos + 1, jins_items(exp, j + 1)));
                assert(jins_items(exp, j + 1) == (jins_items(exp, j) + (if j > 0 {
                    seq![',']
                } else {
                    Seq::<char>::empty()
                })) + jins(exp[j]));
                lemma_split(v@, pos + 1, jins_items(exp, j) + (if j > 0 {
                    seq![',']
                } else {
                    Seq::<char>::empty()
                }), jins(exp[j]));
                assert(starts_with(v@, p as int, jins(exp[j])));
            }
        }
        let (i, q) = match p_ins(v, p, Ghost(if 0 <= j < exp.len() {
            exp[j]
        } else {
            Instance { replica: 0, slot: 0 }
        })) {
            Some(t) => t,
            None => {
                proof {
                    if pre {
                        assert(false);
                    }
                }
                return None;
            },
        };
        d.push(i);
        p = q;
        proof {
            if pre {
                assert(d@ =~= exp.take(j + 1));
                if j + 1 < n {
                    lemma_jins_items_prefix(exp, j + 2, n);
                    lemma_starts_take(v@, pos + 1, jins_items(exp, n), jins_items(
                        exp,
                        j + 2,
                    ).len() as int);
                    assert(starts_with(v@, pos + 1, jins_items(exp, j + 2)));
                    assert(jins_items(exp, j + 2) =~= jins_items(exp, j + 1) + (seq![','] + jins(
                        exp[j + 1],
                    )));
                    lemma_split(v@, pos + 1, jins_items(exp, j + 1), seq![','] + jins(
                        exp[j + 1],
                    ));
                    lemma_split(v@, pos + 1 + jins_items(exp, j + 1).len() as int, seq![','],
                        jins(exp[j + 1]));
                    assert(v@[p as int] == ',') by {
                        assert(v@.subrange(
                            pos + 1 + jins_items(exp, j + 1).len() as int,
                            pos + 2 + jins_items(exp, j + 1).len() as int,
                        )[0] == ',');
                    }
                } else {
                    assert(v@[p as int] == ']') by {
                        assert(v@.subrange(
                            pos + 1 + jins_items(exp, n).len() as int,
                            pos + 2 + jins_items(exp, n).len() as int,
                        )[0] == ']');
                    }
                }
            }
        }
        if let Some(q2) = p_char(v, p, ',') {
            p = q2;
            proof {
                if pre {
                    assert(j + 1 < n);
                    j = j + 1;
                }
            }
        } else {
            let q2 = match p_char(v, p, ']') {
                Some(q2) => q2,
                None => {
                    proof {
                        if pre {
                            assert(false);
                        }
                    }
                    return None;
                },
            };
            proof {
                if pre {
                    assert(j + 1 == n);
                    assert(d@ =~= exp);
                }
            }
            return Some((d, q2));
        }
    }
}

/// A deps map at a position; the result has one entry per instance. When
/// `jdeps` of a well-formed map stands at `pos`, the parse returns exactly
/// its pairs.
#[verifier::loop_isolation(false)]
#[verifier::rlimit(100)]
fn p_deps(v: &Vec<char>, pos: usize, Ghost(exp): Ghost<Seq<(Instance, bool)>>) -> (r: Option<(
    CommittedDeps,
    usize,
)>)
    ensures
        r matches Some(t) ==> pos < t.1 <= v@.len() && t.0.wf(),
        (ins_keys_unique(exp) && starts_with(
            v@,
            pos as int,
            "{\"committed\":["@ + jdeps_items(exp, exp.len() as int) + "]}"@,
        )) ==> (r matches Some(t) && t.0.committed@ == exp && t.1 == pos + (
        "{\"committed\":["@ + jdeps_items(exp, exp.len() as int) + "]}"@).len()),
{
    let ghost pre = ins_keys_unique(exp) && starts_with(
        v@,
        pos as int,
        "{\"committed\":["@ + jdeps_items(exp, exp.len() as int) + "]}"@,
    );
    let ghost n = exp.len() as int;
    proof {
        reveal_strlit("{\"committed\":[");
        reveal_strlit("]}");
        if pre {
            assert("{\"committed\":["@ + jdeps_items(exp, n) + "]}"@ =~= "{\"committed\":["@ + (
            jdeps_items(exp, n) + "]}"@));
            lemma_split(v@, pos as int, "{\"committed\":["@, jdeps_items(exp, n) + "]}"@);
            lemma_split(v@, pos + "{\"committed\":["@.len(), jdeps_items(exp, n), "]}"@);
            assert("]}"@ =~= seq![']'] + seq!['}']);
            lemma_split(v@, pos + "{\"committed\":["@.len() + jdeps_items(exp, n).len(),
                seq![']'], seq!['}']);
        }
    }
    let mut p = match p_lit(v, pos, "{\"committed\":[") {
        Some(p) => p,
        None => {
            return None;
        },
    };
    let ghost items0 = pos + "{\"committed\":["@.len();
    let mut d = CommittedDeps::empty();
    proof {
        if pre {
            assert(jdeps_items(exp, 0) == Seq::<char>::empty());
        }
        if pre && n > 0 {
            lemma_jdeps_items_prefix(exp, 1, n);
            lemma_starts_take(v@, items0, jdeps_items(exp, n), jdeps_items(exp, 1).len() as int);
            assert(starts_with(v@, items0, jdeps_items(exp, 1)));
            assert(jdeps_items(exp, 1) =~= seq!['['] + jins(exp[0].0) + seq![','] + jbool(
                exp[0].1,
            ) + seq![']']);
            assert(v@[items0] == '[') by {
                assert(v@.subrange(items0, items0 + jdeps_items(exp, 1).len() as int)[0]
                    == jdeps_items(exp, 1)[0]);
            }
        }
        if pre && n == 0 {
            assert(v@[items0] == ']') by {
                assert(v@.subrange(items0, items0 + 1)[0] == ']');
            }
            assert(v@[items0 + 1] == '}') by {
                assert(v@.subrange(items0 + 1, items0 + 2)[0] == '}');
            }
        }
    }
    if let Some(p2) = p_char(v, p, ']') {
        let p3 = match p_char(v, p2, '}') {
            Some(p3) => p3,
            None => {
                proof {
                    if pre {
                        assert(false);
                    }
                }
                return None;
            },
        };
        proof {
            if pre && n > 0 {
                assert(v@[items0] == '[');
                assert(false);
            }
            if pre {
                assert(d.committed@ =~= exp);
            }
        }
        return Some((d, p3));
    }
    proof {
        if pre {
            assert(n > 0) by {
                if n == 0 {
                    assert(p < v@.len() && v@[p as int] == ']');
                }
            }
        }
    }
    let ghost mut j: int = 0;
    loop
        invariant
            pos < p <= v@.len(),
            d.wf(),
            pre ==> (0 <= j < n && d.committed@ == exp.take(j) && p as int == items0
                + jdeps_items(exp, j).len() + (if j > 0 {
                1int
            } else {
                0int
            })),
        decreases v@.len() - p,
    {
        let ghost pair = if 0 <= j < exp.len() {
            exp[j]
        } else {
            (Instance { replica: 0, slot: 0 }, false)
        };
        proof {
            if pre {
                lemma_jdeps_items_prefix(exp, j + 1, n);
                lemma_starts_take(v@, items0, jdeps_items(exp, n), jdeps_items(
                    exp,
                    j + 1,
                ).len() as int);
                assert(starts_with(v@, items0, jdeps_items(exp, j + 1)));
                assert(jdeps_items(exp, j + 1) =~= (jdeps_items(exp, j) + (if j > 0 {
                    seq![',']
                } else {
                    Seq::<char>::empty()
                })) + (seq!['['] + (jins(pair.0) + (seq![','] + (jbool(pair.1) + seq![']'])))));
                lemma_split(v@, items0, jdeps_items(exp, j) + (if j > 0 {
                    seq![',']
                } else {
                    Seq::<char>::empty()
                }), seq!['['] + (jins(pair.0) + (seq![','] + (jbool(pair.1) + seq![']']))));
                lemma_split(v@, p as int, seq!['['], jins(pair.0) + (seq![','] + (jbool(pair.1)
                    + seq![']'])));
                lemma_split(v@, p + 1, jins(pair.0), seq![','] + (jbool(pair.1) + seq![']']));
                lemma_split(v@, p + 1 + jins(pair.0).len(), seq![','], jbool(pair.1) + seq![']']);
                lemma_split(v@, p + 2 + jins(pair.0).len(), jbool(pair.1), seq![']']);
                assert(v@[p as int] == '[') by {
                    assert(v@.subrange(p as int, p + 1)[0] == '[');
                }
                assert(v@[p + 1 + jins(pair.0).len()] == ',') by {
                    assert(v@.subrange(p + 1 + jins(pair.0).len(), p + 2 + jins(
                        pair.0,
                    ).len())[0] == ',');
                }
                assert(v@[p + 2 + jins(pair.0).len() + jbool(pair.1).len()] == ']') by {
                    assert(v@.subrange(
                        p + 2 + jins(pair.0).len() + jbool(pair.1).len(),
                        p + 3 + jins(pair.0).len() + jbool(pair.1).len(),
                    )[0] == ']');
                }
            }
        }
        let q = match p_char(v, p, '[') {
            Some(q) => q,
            None => {
                proof {
                    if pre {
                        assert(false);
                    }
                }
                return None;
            },
        };
        let (i, q) = match p_ins(v, q, Ghost(pair.0)) {
            Some(t) => t,
            None => {
                proof {
                    if pre {
                        assert(false);
                    }
                }
                return None;
            },
        };
        let q = match p_char(v, q, ',') {
            Some(q) => q,
            None => {
                proof {
                    if pre {
                        assert(false);
                    }
                }
                return None;
            },
        };
        let (b, q) = match p_bool(v, q, Ghost(pair.1)) {
            Some(t) => t,
            None => {
                proof {
                    if pre {
                        assert(false);
                    }
                }
                return None;
            },
        };
        let q = match p_char(v, q, ']') {
            Some(q) => q,
            None => {
                proof {
                    if pre {
                        assert(false);
                    }
                }
                return None;
            },
        };
        proof {
            if pre {
                assert((i, b) == pair);
                if crate::types::ins_map_of(d.committed@).contains_key(i) {
                    crate::store::lemma_ins_map_key_has_index(d.committed@, i);
                    let w = choose|w: int|
                        0 <= w < d.committed@.len() && (#[trigger] d.committed@[w]).0 == i;
                    assert(exp[w].0 == exp[j].0);
                    assert(false);
                }
            }
        }
        ins_set(&mut d.committed, i, b);
        p = q;
        proof {
            if pre {
                assert(d.committed@ == exp.take(j).push(exp[j]));
                assert(d.committed@ =~= exp.take(j + 1));
                if j + 1 < n {
                    lemma_jdeps_items_prefix(exp, j + 2, n);
                    lemma_starts_take(v@, items0, jdeps_items(exp, n), jdeps_items(
                        exp,
                        j + 2,
                    ).len() as int);
                    assert(starts_with(v@, items0, jdeps_items(exp, j + 2)));
                    assert(jdeps_items(exp, j + 2) =~= jdeps_items(exp, j + 1) + (seq![','] + (
                    seq!['['] + jins(exp[j + 1].0) + seq![','] + jbool(exp[j + 1].1)
                        + seq![']'])));
                    lemma_split(v@, items0, jdeps_items(exp, j + 1), seq![','] + (seq!['[']
                        + jins(exp[j + 1].0) + seq![','] + jbool(exp[j + 1].1) + seq![']']));
                    assert(v@[p as int] == ',') by {
                        assert(v@.subrange(
                            items0 + jdeps_items(exp, j + 1).len() as int,
                            items0 + 1 + jdeps_items(exp, j + 1).len() as int,
                        )[0] == ',');
                    }
                } else {
                    assert(v@[p as int] == ']') by {
                        assert(v@.subrange(
                            items0 + jdeps_items(exp, n).len() as int,
                            items0 + 1 + jdeps_items(exp, n).len() as int,
                        )[0] == ']');
                    }
                }
            }
        }
        if let Some(q2) = p_char(v, p, ',') {
            p = q2;
            proof {
                if pre {
                    assert(j + 1 < n);
                    j = j + 1;
                }
            }
        } else {
            let q2 = match p_char(v, p, ']') {
                Some(q2) => q2,
                None => {
                    proof {
                        if pre {
                            assert(false);
                        }
                    }
                    return None;
                },
            };
            let q3 = match p_char(v, q2, '}') {
                Some(q3) => q3,
                None => {
                    proof {
                        if pre {
                            assert(false);
                        }
                    }
                    return None;
                },
            };
            proof {
                if pre {
                    assert(j + 1 == n);
                    assert(d.committed@ =~= exp);
                }
            }
            return Some((d, q3));
        }
    }
}
/// A client request at a position. When `jreq(exp)` stands at `pos`, the
/// parse returns exactly a request of that view.
#[verifier::rlimit(100)]
fn p_req(v: &Vec<char>, pos: usize, Ghost(exp): Ghost<ReqV>) -> (r: Option<(ClientRequest, usize)>)
    ensures
        r matches Some(t) ==> pos < t.1 <= v@.len(),
        starts_with(v@, pos as int, jreq(exp)) ==> (r matches Some(t) && t.0@ == exp && t.1 == pos
            + jreq(exp).len()),
{
    let ghost pre = starts_with(v@, pos as int, jreq(exp));
    let ghost k0 = match exp {
        ReqV::Read { key, .. } => key,
        ReqV::Write { key, .. } => key,
    };
    let ghost v0 = match exp {
        ReqV::Write { val, .. } => val,
        _ => Seq::empty(),
    };
    let ghost a0 = exp.addr();
    let ghost id0 = exp.id();
    proof {
        reveal_strlit("{\"Read\":[");
        reveal_strlit("{\"Write\":[");
        reveal_strlit("]}");
        if pre {
            match exp {
                ReqV::Read { key, addr, id } => {
                    assert(jreq(exp) =~= "{\"Read\":["@ + (jstr(key) + (seq![','] + (jstr(addr)
                        + (seq![','] + (u64_chars(id) + "]}"@))))));
                    lemma_split(v@, pos as int, "{\"Read\":["@, jstr(key) + (seq![','] + (jstr(
                        addr,
                    ) + (seq![','] + (u64_chars(id) + "]}"@)))));
                    lemma_split(v@, pos + 9, jstr(key), seq![','] + (jstr(addr) + (seq![','] + (
                    u64_chars(id) + "]}"@))));
                    lemma_split(v@, pos + 9 + jstr(key).len(), seq![','], jstr(addr) + (seq![',']
                        + (u64_chars(id) + "]}"@)));
                    lemma_split(v@, pos + 10 + jstr(key).len(), jstr(addr), seq![','] + (u64_chars(
                        id,
                    ) + "]}"@));
                    lemma_split(v@, pos + 10 + jstr(key).len() + jstr(addr).len(), seq![','],
                        u64_chars(id) + "]}"@);
                    lemma_split(v@, pos + 11 + jstr(key).len() + jstr(addr).len(), u64_chars(id),
                        "]}"@);
                    lemma_head(v@, pos + 11 + jstr(key).len() + jstr(addr).len() + u64_chars(
                        id,
                    ).len(), "]}"@);
                    assert(!is_digit_char(']'));
                },
                ReqV::Write { key, val, addr, id } => {
                    assert(jreq(exp) =~= "{\"Write\":["@ + (jstr(key) + (seq![','] + (jstr(val) + (
                    seq![','] + (jstr(addr) + (seq![','] + (u64_chars(id) + "]}"@))))))));
                    lemma_split(v@, pos as int, "{\"Write\":["@, jstr(key) + (seq![','] + (jstr(
                        val,
                    ) + (seq![','] + (jstr(addr) + (seq![','] + (u64_chars(id) + "]}"@)))))));
                    lemma_split(v@, pos + 10, jstr(key), seq![','] + (jstr(val) + (seq![','] + (
                    jstr(addr) + (seq![','] + (u64_chars(id) + "]}"@))))));
                    lemma_split(v@, pos + 10 + jstr(key).len(), seq![','], jstr(val) + (seq![',']
                        + (jstr(addr) + (seq![','] + (u64_chars(id) + "]}"@)))));
                    lemma_split(v@, pos + 11 + jstr(key).len(), jstr(val), seq![','] + (jstr(addr)
                        + (seq![','] + (u64_chars(id) + "]}"@))));
                    lemma_split(v@, pos + 11 + jstr(key).len() + jstr(val).len(), seq![','], jstr(
                        addr,
                    ) + (seq![','] + (u64_chars(id) + "]}"@)));
                    lemma_split(v@, pos + 12 + jstr(key).len() + jstr(val).len(), jstr(addr),
                        seq![','] + (u64_chars(id) + "]}"@));
                    lemma_split(v@, pos + 12 + jstr(key).len() + jstr(val).len() + jstr(
                        addr,
                    ).len(), seq![','], u64_chars(id) + "]}"@);
                    lemma_split(v@, pos + 13 + jstr(key).len() + jstr(val).len() + jstr(
                        addr,
                    ).len(), u64_chars(id), "]}"@);
                    lemma_head(v@, pos + 13 + jstr(key).len() + jstr(val).len() + jstr(addr).len()
                        + u64_chars(id).len(), "]}"@);
                    assert(!is_digit_char(']'));
                },
            }
        }
    }
    if let Some(p) = p_lit(v, pos, "{\"Read\":[") {
        proof {
            if pre && exp is Write {
                assert(v@.subrange(pos as int, pos + 9)[2] == ("{\"Read\":["@)[2]);
                assert(v@.subrange(pos as int, pos + 10)[2] == ("{\"Write\":["@)[2]);
                assert(false);
            }
        }
        let (k, p) = match p_string(v, p, Ghost(k0)) {
            Some(t) => t,
            None => {
                proof {
                    if pre {
                        assert(false);
                    }
                }
                return None;
            },
        };
        let p = match p_char(v, p, ',') {
            Some(p) => p,
            None => {
                proof {
                    if pre {
                        assert(false);
                    }
                }
                return None;
            },
        };
        let (a, p) = match p_string(v, p, Ghost(a0)) {
            Some(t) => t,
            None => {
                proof {
                    if pre {
                        assert(false);
                    }
                }
                return None;
            },
        };
        let p = match p_char(v, p, ',') {
            Some(p) => p,
            None => {
                proof {
                    if pre {
                        assert(false);
                    }
                }
                return None;
            },
        };
        let (id, p) = match p_u64(v, p, Ghost(id0)) {
            Some(t) => t,
            None => {
                proof {
                    if pre {
                        assert(false);
                    }
                }
                return None;
            },
        };
        let p = match p_lit(v, p, "]}") {
            Some(p) => p,
            None => {
                proof {
                    if pre {
                        assert(false);
                    }
                }
                return None;
            },
        };
        return Some((ClientRequest::Read(k, a, id), p));
    }
    let p = match p_lit(v, pos, "{\"Write\":[") {
        Some(p) => p,
        None => {
            proof {
                if pre {
                    assert(false);
                }
            }
            return None;
        },
    };
    let (k, p) = match p_string(v, p, Ghost(k0)) {
        Some(t) => t,
        None => {
            proof {
                if pre {
                    assert(false);
                }
            }
            return None;
        },
    };
    let p = match p_char(v, p, ',') {
        Some(p) => p,
        None => {
            proof {
                if pre {
                    assert(false);
                }
            }
            return None;
        },
    };
    let (val, p) = match p_string(v, p, Ghost(v0)) {
        Some(t) => t,
        None => {
            proof {
                if pre {
                    assert(false);
                }
            }
            return None;
        },
    };
    let p = match p_char(v, p, ',') {
        Some(p) => p,
        None => {
            proof {
                if pre {
                    assert(false);
                }
            }
            return None;
        },
    };
    let (a, p) = match p_string(v, p, Ghost(a0)) {
        Some(t) => t,
        None => {
            proof {
                if pre {
                    assert(false);
                }
            }
            return None;
        },
    };
    let p = match p_char(v, p, ',') {
        Some(p) => p,
        None => {
            proof {
                if pre {
                    assert(false);
                }
            }
            return None;
        },
    };
    let (id, p) = match p_u64(v, p, Ghost(id0)) {
        Some(t) => t,
        None => {
            proof {
                if pre {
                    assert(false);
                }
            }
            return None;
        },
    };
    let p = match p_lit(v, p, "]}") {
        Some(p) => p,
        None => {
            proof {
                if pre {
                    assert(false);
                }
            }
            return None;
        },
    };
    Some((ClientRequest::Write(k, val, a, id), p))
}
/// A two-string payload: the tail of the four legacy record kinds.
pub open spec fn pay2s(a: Seq<char>, m: Seq<char>) -> Seq<char> {
    seq!['['] + jstr(a) + seq![','] + jstr(m) + "]}"@
}

/// The serialized deps map of a list of pairs.
pub open spec fn jdeps_chars(d: Seq<(Instance, bool)>) -> Seq<char> {
    "{\"committed\":["@ + jdeps_items(d, d.len() as int) + "]}"@
}

/// The five-field payload of PreAccept and PreAcceptOK.
pub open spec fn pay5d(
    q: ReqV,
    s: u64,
    d: Seq<(Instance, bool)>,
    i: Instance,
    a: Seq<char>,
) -> Seq<char> {
    seq!['['] + jreq(q) + seq![','] + u64_chars(s) + seq![','] + jdeps_chars(d) + seq![','] + jins(
        i,
    ) + seq![','] + jstr(a) + "]}"@
}

/// The five-field payload of Accept, AcceptOK and Commit.
pub open spec fn pay5l(q: ReqV, s: u64, d: Seq<Instance>, i: Instance, a: Seq<char>) -> Seq<char> {
    seq!['['] + jreq(q) + seq![','] + u64_chars(s) + seq![','] + jinslist(d) + seq![','] + jins(i)
        + seq![','] + jstr(a) + "]}"@
}

/// Parse a two-string payload.
#[verifier::rlimit(100)]
fn p_pay2s(v: &Vec<char>, pos: usize, Ghost(a0): Ghost<Seq<char>>, Ghost(m0): Ghost<Seq<char>>)
    -> (r: Option<((String, String), usize)>)
    ensures
        r matches Some(t) ==> pos < t.1 <= v@.len(),
        starts_with(v@, pos as int, pay2s(a0, m0)) ==> (r matches Some(t) && t.0.0@ == a0 && t.0.1@
            == m0 && t.1 == pos + pay2s(a0, m0).len()),
{
    let ghost pre = starts_with(v@, pos as int, pay2s(a0, m0));
    proof {
        if pre {
            assert(pay2s(a0, m0) =~= seq!['['] + (jstr(a0) + (seq![','] + (jstr(m0) + "]}"@))));
            lemma_split(v@, pos as int, seq!['['], jstr(a0) + (seq![','] + (jstr(m0) + "]}"@)));
            lemma_split(v@, pos + 1, jstr(a0), seq![','] + (jstr(m0) + "]}"@));
            lemma_split(v@, pos + 1 + jstr(a0).len(), seq![','], jstr(m0) + "]}"@);
            lemma_split(v@, pos + 2 + jstr(a0).len(), jstr(m0), "]}"@);
        }
    }
    let p = match p_char(v, pos, '[') {
        Some(p) => p,
        None => {
            return None;
        },
    };
    let (a, p) = match p_string(v, p, Ghost(a0)) {
        Some(t) => t,
        None => {
            proof {
                if pre {
                    assert(false);
                }
            }
            return None;
        },
    };
    let p = match p_char(v, p, ',') {
        Some(p) => p,
        None => {
            proof {
                if pre {
                    assert(false);
                }
            }
            return None;
        },
    };
    let (m, p) = match p_string(v, p, Ghost(m0)) {
        Some(t) => t,
        None => {
            proof {
                if pre {
                    assert(false);
                }
            }
            return None;
        },
    };
    let p = match p_lit(v, p, "]}") {
        Some(p) => p,
        None => {
            proof {
                if pre {
                    assert(false);
                }
            }
            return None;
        },
    };
    Some(((a, m), p))
}

/// Parse a five-field payload whose deps carry hints.
#[verifier::rlimit(100)]
fn p_pay5d(
    v: &Vec<char>,
    pos: usize,
    Ghost(q0): Ghost<ReqV>,
    Ghost(s0): Ghost<u64>,
    Ghost(d0): Ghost<Seq<(Instance, bool)>>,
    Ghost(i0): Ghost<Instance>,
    Ghost(a0): Ghost<Seq<char>>,
) -> (r: Option<((ClientRequest, u64, CommittedDeps, Instance, String), usize)>)
    ensures
        r matches Some(t) ==> pos < t.1 <= v@.len() && t.0.2.wf(),
        (ins_keys_unique(d0) && starts_with(v@, pos as int, pay5d(q0, s0, d0, i0, a0))) ==> (
        r matches Some(t) && t.0.0@ == q0 && t.0.1 == s0 && t.0.2.committed@ == d0 && t.0.3 == i0
            && t.0.4@ == a0 && t.1 == pos + pay5d(q0, s0, d0, i0, a0).len()),
{
    let ghost pre = ins_keys_unique(d0) && starts_with(v@, pos as int, pay5d(q0, s0, d0, i0, a0));
    proof {
        if pre {
            assert(pay5d(q0, s0, d0, i0, a0) =~= seq!['['] + (jreq(q0) + (seq![','] + (u64_chars(
                s0,
            ) + (seq![','] + (jdeps_chars(d0) + (seq![','] + (jins(i0) + (seq![','] + (jstr(a0)
                + "]}"@))))))))));
            lemma_split(v@, pos as int, seq!['['], jreq(q0) + (seq![','] + (u64_chars(s0) + (
            seq![','] + (jdeps_chars(d0) + (seq![','] + (jins(i0) + (seq![','] + (jstr(a0)
                + "]}"@)))))))));
            lemma_split(v@, pos + 1, jreq(q0), seq![','] + (u64_chars(s0) + (seq![','] + (
            jdeps_chars(d0) + (seq![','] + (jins(i0) + (seq![','] + (jstr(a0) + "]}"@))))))));
            lemma_split(v@, pos + 1 + jreq(q0).len(), seq![','], u64_chars(s0) + (seq![','] + (
            jdeps_chars(d0) + (seq![','] + (jins(i0) + (seq![','] + (jstr(a0) + "]}"@)))))));
            lemma_split(v@, pos + 2 + jreq(q0).len(), u64_chars(s0), seq![','] + (jdeps_chars(d0)
                + (seq![','] + (jins(i0) + (seq![','] + (jstr(a0) + "]}"@))))));
            lemma_split(v@, pos + 2 + jreq(q0).len() + u64_chars(s0).len(), seq![','], jdeps_chars(
                d0,
            ) + (seq![','] + (jins(i0) + (seq![','] + (jstr(a0) + "]}"@)))));
            lemma_head(v@, pos + 2 + jreq(q0).len() + u64_chars(s0).len(), seq![',']);
            lemma_split(v@, pos + 3 + jreq(q0).len() + u64_chars(s0).len(), jdeps_chars(d0),
                seq![','] + (jins(i0) + (seq![','] + (jstr(a0) + "]}"@))));
            lemma_split(v@, pos + 3 + jreq(q0).len() + u64_chars(s0).len() + jdeps_chars(
                d0,
            ).len(), seq![','], jins(i0) + (seq![','] + (jstr(a0) + "]}"@)));
            lemma_split(v@, pos + 4 + jreq(q0).len() + u64_chars(s0).len() + jdeps_chars(
                d0,
            ).len(), jins(i0), seq![','] + (jstr(a0) + "]}"@));
            lemma_split(v@, pos + 4 + jreq(q0).len() + u64_chars(s0).len() + jdeps_chars(d0).len()
                + jins(i0).len(), seq![','], jstr(a0) + "]}"@);
            lemma_split(v@, pos + 5 + jreq(q0).len() + u64_chars(s0).len() + jdeps_chars(d0).len()
                + jins(i0).len(), jstr(a0), "]}"@);
            assert(!is_digit_char(','));
        }
    }
    let p = match p_char(v, pos, '[') {
        Some(p) => p,
        None => {
            return None;
        },
    };
    let (q, p) = match p_req(v, p, Ghost(q0)) {
        Some(t) => t,
        None => {
            proof {
                if pre {
                    assert(false);
                }
            }
            return None;
        },
    };
    let p = match p_char(v, p, ',') {
        Some(p) => p,
        None => {
            proof {
                if pre {
                    assert(false);
                }
            }
            return None;
        },
    };
    let (s, p) = match p_u64(v, p, Ghost(s0)) {
        Some(t) => t,
        None => {
            proof {
                if pre {
                    assert(false);
                }
            }
            return None;
        },
    };
    let p = match p_char(v, p, ',') {
        Some(p) => p,
        None => {
            proof {
                if pre {
                    assert(false);
                }
            }
            return None;
        },
    };
    let (d, p) = match p_deps(v, p, Ghost(d0)) {
        Some(t) => t,
        None => {
            proof {
                if pre {
                    assert(false);
                }
            }
            return None;
        },
    };
    let p = match p_char(v, p, ',') {
        Some(p) => p,
        None => {
            proof {
                if pre {
                    assert(false);
                }
            }
            return None;
        },
    };
    let (i, p) = match p_ins(v, p, Ghost(i0)) {
        Some(t) => t,
        None => {
            proof {
                if pre {
                    assert(false);
                }
            }
            return None;
        },
    };
    let p = match p_char(v, p, ',') {
        Some(p) => p,
        None => {
            proof {
                if pre {
                    assert(false);
                }
            }
            return None;
        },
    };
    let (a, p) = match p_string(v, p, Ghost(a0)) {
        Some(t) => t,
        None => {
            proof {
                if pre {
                    assert(false);
                }
            }
            return None;
        },
    };
    let p = match p_lit(v, p, "]}") {
        Some(p) => p,
        None => {
            proof {
                if pre {
                    assert(false);
                }
            }
            return None;
        },
    };
    Some(((q, s, d, i, a), p))
}

/// Parse a five-field payload whose deps are a plain list.
#[verifier::rlimit(100)]
fn p_pay5l(
    v: &Vec<char>,
    pos: usize,
    Ghost(q0): Ghost<ReqV>,
    Ghost(s0): Ghost<u64>,
    Ghost(d0): Ghost<Seq<Instance>>,
    Ghost(i0): Ghost<Instance>,
    Ghost(a0): Ghost<Seq<char>>,
) -> (r: Option<((ClientRequest, u64, Vec<Instance>, Instance, String), usize)>)
    ensures
        r matches Some(t) ==> pos < t.1 <= v@.len(),
        starts_with(v@, pos as int, pay5l(q0, s0, d0, i0, a0)) ==> (r matches Some(t) && t.0.0@
            == q0 && t.0.1 == s0 && t.0.2@ == d0 && t.0.3 == i0 && t.0.4@ == a0 && t.1 == pos
            + pay5l(q0, s0, d0, i0, a0).len()),
{
    let ghost pre = starts_with(v@, pos as int, pay5l(q0, s0, d0, i0, a0));
    proof {
        if pre {
            assert(pay5l(q0, s0, d0, i0, a0) =~= seq!['['] + (jreq(q0) + (seq![','] + (u64_chars(
                s0,
            ) + (seq![','] + (jinslist(d0) + (seq![','] + (jins(i0) + (seq![','] + (jstr(a0)
                + "]}"@))))))))));
            lemma_split(v@, pos as int, seq!['['], jreq(q0) + (seq![','] + (u64_chars(s0) + (
            seq![','] + (jinslist(d0) + (seq![','] + (jins(i0) + (seq![','] + (jstr(a0)
                + "]}"@)))))))));
            lemma_split(v@, pos + 1, jreq(q0), seq![','] + (u64_chars(s0) + (seq![','] + (jinslist(
                d0,
            ) + (seq![','] + (jins(i0) + (seq![','] + (jstr(a0) + "]}"@))))))));
            lemma_split(v@, pos + 1 + jreq(q0).len(), seq![','], u64_chars(s0) + (seq![','] + (
            jinslist(d0) + (seq![','] + (jins(i0) + (seq![','] + (jstr(a0) + "]}"@)))))));
            lemma_split(v@, pos + 2 + jreq(q0).len(), u64_chars(s0), seq![','] + (jinslist(d0) + (
            seq![','] + (jins(i0) + (seq![','] + (jstr(a0) + "]}"@))))));
            lemma_split(v@, pos + 2 + jreq(q0).len() + u64_chars(s0).len(), seq![','], jinslist(d0)
                + (seq![','] + (jins(i0) + (seq![','] + (jstr(a0) + "]}"@)))));
            lemma_head(v@, pos + 2 + jreq(q0).len() + u64_chars(s0).len(), seq![',']);
            lemma_split(v@, pos + 3 + jreq(q0).len() + u64_chars(s0).len(), jinslist(d0), seq![',']
                + (jins(i0) + (seq![','] + (jstr(a0) + "]}"@))));
            lemma_split(v@, pos + 3 + jreq(q0).len() + u64_chars(s0).len() + jinslist(d0).len(),
                seq![','], jins(i0) + (seq![','] + (jstr(a0) + "]}"@)));
            lemma_split(v@, pos + 4 + jreq(q0).len() + u64_chars(s0).len() + jinslist(d0).len(),
                jins(i0), seq![','] + (jstr(a0) + "]}"@));
            lemma_split(v@, pos + 4 + jreq(q0).len() + u64_chars(s0).len() + jinslist(d0).len()
                + jins(i0).len(), seq![','], jstr(a0) + "]}"@);
            lemma_split(v@, pos + 5 + jreq(q0).len() + u64_chars(s0).len() + jinslist(d0).len()
                + jins(i0).len(), jstr(a0), "]}"@);
            assert(!is_digit_char(','));
        }
    }
    let p = match p_char(v, pos, '[') {
        Some(p) => p,
        None => {
            return None;
        },
    };
    let (q, p) = match p_req(v, p, Ghost(q0)) {
        Some(t) => t,
        None => {
            proof {
                if pre {
                    assert(false);
                }
            }
            return None;
        },
    };
    let p = match p_char(v, p, ',') {
        Some(p) => p,
        None => {
            proof {
                if pre {
                    assert(false);
                }
            }
            return None;
        },
    };
    let (s, p) = match p_u64(v, p, Ghost(s0)) {
        Some(t) => t,
        None => {
            proof {
                if pre {
                    assert(false);
                }
            }
            return None;
        },
    };
    let p = match p_char(v, p, ',') {
        Some(p) => p,
        None => {
            proof {
                if pre {
                    assert(false);
                }
            }
            return None;
        },
    };
    let (d, p) = match p_inslist(v, p, Ghost(d0)) {
        Some(t) => t,
        None => {
            proof {
                if pre {
                    assert(false);
                }
            }
            return None;
        },
    };
    let p = match p_char(v, p, ',') {
        Some(p) => p,
        None => {
            proof {
                if pre {
                    assert(false);
                }
            }
            return None;
        },
    };
    let (i, p) = match p_ins(v, p, Ghost(i0)) {
        Some(t) => t,
        None => {
            proof {
                if pre {
                    assert(false);
                }
            }
            return None;
        },
    };
    let p = match p_char(v, p, ',') {
        Some(p) => p,
        None => {
            proof {
                if pre {
                    assert(false);
                }
            }
            return None;
        },
    };
    let (a, p) = match p_string(v, p, Ghost(a0)) {
        Some(t) => t,
        None => {
            proof {
                if pre {
                    assert(false);
                }
            }
            return None;
        },
    };
    let p = match p_lit(v, p, "]}") {
        Some(p) => p,
        None => {
            proof {
                if pre {
                    assert(false);
                }
            }
            return None;
        },
    };
    Some(((q, s, d, i, a), p))
}
/// Whether a string equals a literal.
#[verifier::loop_isolation(false)]
fn str_is(a: &String, b: &str) -> (r: bool)
    ensures
        r == (a@ == b@),
{
    let an = a.as_str().unicode_len();
    let bn = b.unicode_len();
    if an != bn {
        return false;
    }
    for i in 0..an
        invariant
            an == a@.len() == b@.len(),
            forall|j: int| 0 <= j < i ==> a@[j] == b@[j],
    {
        if a.as_str().get_char(i) != b.get_char(i) {
            return false;
        }
    }
    proof {
        assert(a@ =~= b@);
    }
    true
}

/// The tag name of a record kind.
pub open spec fn name_of(e: Event) -> Seq<char> {
    match e {
        Event::Message(..) => "Message"@,
        Event::Ping(..) => "Ping"@,
        Event::Pong(..) => "Pong"@,
        Event::Forward(..) => "Forward"@,
        Event::Acknowledge(..) => "Acknowledge"@,
        Event::SaveState => Seq::empty(),
        Event::ReceivedRequest(..) => "ReceivedRequest"@,
        Event::PreAccept(..) => "PreAccept"@,
        Event::PreAcceptOK(..) => "PreAcceptOK"@,
        Event::Accept(..) => "Accept"@,
        Event::AcceptOK(..) => "AcceptOK"@,
        Event::Commit(..) => "Commit"@,
    }
}

/// The payload after the tag of a record kind.
pub open spec fn pay_of(e: Event) -> Seq<char> {
    match e {
        Event::Message(a, m) => pay2s(a@, m@),
        Event::Ping(a, m) => pay2s(a@, m@),
        Event::Pong(a, m) => pay2s(a@, m@),
        Event::Forward(a, m) => pay2s(a@, m@),
        Event::Acknowledge(a) => jstr(a@) + seq!['}'],
        Event::SaveState => Seq::empty(),
        Event::ReceivedRequest(q) => jreq(q@) + seq!['}'],
        Event::PreAccept(q, s, d, i, a) => pay5d(q@, s, d.committed@, i, a@),
        Event::PreAcceptOK(q, s, d, i, a) => pay5d(q@, s, d.committed@, i, a@),
        Event::Accept(q, s, d, i, a) => pay5l(q@, s, d@, i, a@),
        Event::AcceptOK(q, s, d, i, a) => pay5l(q@, s, d@, i, a@),
        Event::Commit(q, s, d, i, a) => pay5l(q@, s, d@, i, a@),
    }
}

/// A record's tag name determines its kind.
proof fn lemma_name_variant(e: Event)
    ensures
        name_of(e) == "Message"@ ==> e is Message,
        name_of(e) == "Ping"@ ==> e is Ping,
        name_of(e) == "Pong"@ ==> e is Pong,
        name_of(e) == "Forward"@ ==> e is Forward,
        name_of(e) == "Acknowledge"@ ==> e is Acknowledge,
        name_of(e) == "ReceivedRequest"@ ==> e is ReceivedRequest,
        name_of(e) == "PreAccept"@ ==> e is PreAccept,
        name_of(e) == "PreAcceptOK"@ ==> e is PreAcceptOK,
        name_of(e) == "Accept"@ ==> e is Accept,
        name_of(e) == "AcceptOK"@ ==> e is AcceptOK,
        name_of(e) == "Commit"@ ==> e is Commit,
{
    reveal_strlit("Message");
    reveal_strlit("Ping");
    reveal_strlit("Pong");
    reveal_strlit("Forward");
    reveal_strlit("Acknowledge");
    reveal_strlit("ReceivedRequest");
    reveal_strlit("PreAccept");
    reveal_strlit("PreAcceptOK");
    reveal_strlit("Accept");
    reveal_strlit("AcceptOK");
    reveal_strlit("Commit");
    assert(("Message"@).len() == 7);
    assert(("Ping"@).len() == 4);
    assert(("Pong"@).len() == 4);
    assert(("Forward"@).len() == 7);
    assert(("Acknowledge"@).len() == 11);
    assert(("ReceivedRequest"@).len() == 15);
    assert(("PreAccept"@).len() == 9);
    assert(("PreAcceptOK"@).len() == 11);
    assert(("Accept"@).len() == 6);
    assert(("AcceptOK"@).len() == 8);
    assert(("Commit"@).len() == 6);
    assert(("Message"@)[0] == 'M' && ("Forward"@)[0] == 'F');
    assert(("Ping"@)[1] == 'i' && ("Pong"@)[1] == 'o');
    assert(("Acknowledge"@)[0] == 'A' && ("PreAcceptOK"@)[0] == 'P');
    assert(("Accept"@)[0] == 'A' && ("Commit"@)[0] == 'C');
}

/// The tail of a legacy record, after its tag name: the four two-string
/// kinds and the acknowledgement.
#[verifier::rlimit(100)]
fn p_event_legacy(v: &Vec<char>, p2: usize, name: &String, Ghost(exp): Ghost<Event>) -> (r:
    Option<(Event, usize)>)
    ensures
        r matches Some(t) ==> p2 <= t.1 <= v@.len() && event_wf(t.0) && (name@ == "Message"@
            || name@ == "Ping"@ || name@ == "Pong"@ || name@ == "Forward"@ || name@
            == "Acknowledge"@),
        (event_wf(exp) && !(exp is SaveState) && name@ == name_of(exp) && starts_with(
            v@,
            p2 as int,
            pay_of(exp),
        )) ==> ((name@ == "Message"@ || name@ == "Ping"@ || name@ == "Pong"@ || name@ == "Forward"@
            || name@ == "Acknowledge"@) ==> (r matches Some(t) && t.1 == p2 + pay_of(exp).len()
            && jevent(t.0) == jevent(exp))),
{
    let ghost pre = event_wf(exp) && !(exp is SaveState) && name@ == name_of(exp) && starts_with(
        v@,
        p2 as int,
        pay_of(exp),
    );
    proof {
        reveal_strlit("Message");
        reveal_strlit("Ping");
        reveal_strlit("Pong");
        reveal_strlit("Forward");
        reveal_strlit("Acknowledge");
        reveal_strlit("ReceivedRequest");
        reveal_strlit("PreAccept");
        reveal_strlit("PreAcceptOK");
        reveal_strlit("Accept");
        reveal_strlit("AcceptOK");
        reveal_strlit("Commit");
        reveal_strlit("{\"Message\":[");
        reveal_strlit("{\"Ping\":[");
        reveal_strlit("{\"Pong\":[");
        reveal_strlit("{\"Forward\":[");
        reveal_strlit("{\"Acknowledge\":");
        reveal_strlit("{\"ReceivedRequest\":");
        reveal_strlit("{\"PreAccept\":[");
        reveal_strlit("{\"PreAcceptOK\":[");
        reveal_strlit("{\"Accept\":[");
        reveal_strlit("{\"AcceptOK\":[");
        reveal_strlit("{\"Commit\":[");
        assert(("Message"@)[0] == 'M' && ("Forward"@)[0] == 'F');
        assert("Message"@ != "Forward"@);
        assert(("Ping"@)[1] == 'i' && ("Pong"@)[1] == 'o');
        assert("Ping"@ != "Pong"@);
        assert(("Acknowledge"@)[0] == 'A' && ("PreAcceptOK"@)[0] == 'P');
        assert("Acknowledge"@ != "PreAcceptOK"@);
        assert(("Accept"@)[0] == 'A' && ("Commit"@)[0] == 'C');
        assert("Accept"@ != "Commit"@);
    }
if str_is(&name, "Message") {
        let ghost (ga, gm) = match exp {
            Event::Message(a, m) => (a@, m@),
            _ => (Seq::empty(), Seq::empty()),
        };
        proof {
            if pre {
                lemma_name_variant(exp);
                assert(exp is Message);
            }
        }
        match p_pay2s(v, p2, Ghost(ga), Ghost(gm)) {
            Some(((a, m), p)) => {
                proof {
                    if pre {
                        assert(jevent(Event::Message(a, m)) =~= jevent(exp));
                    }
                }
                return Some((Event::Message(a, m), p));
            },
            None => {
                proof {
                    if pre {
                        assert(false);
                    }
                }
                return None;
            },
        }
    }
    if str_is(&name, "Ping") {
        let ghost (ga, gm) = match exp {
            Event::Ping(a, m) => (a@, m@),
            _ => (Seq::empty(), Seq::empty()),
        };
        proof {
            if pre {
                lemma_name_variant(exp);
                assert(exp is Ping);
            }
        }
        match p_pay2s(v, p2, Ghost(ga), Ghost(gm)) {
            Some(((a, m), p)) => {
                proof {
                    if pre {
                        assert(jevent(Event::Ping(a, m)) =~= jevent(exp));
                    }
                }
                return Some((Event::Ping(a, m), p));
            },
            None => {
                proof {
                    if pre {
                        assert(false);
                    }
                }
                return None;
            },
        }
    }
    if str_is(&name, "Pong") {
        let ghost (ga, gm) = match exp {
            Event::Pong(a, m) => (a@, m@),
            _ => (Seq::empty(), Seq::empty()),
        };
        proof {
            if pre {
                lemma_name_variant(exp);
                assert(exp is Pong);
            }
        }
        match p_pay2s(v, p2, Ghost(ga), Ghost(gm)) {
            Some(((a, m), p)) => {
                proof {
                    if pre {
                        assert(jevent(Event::Pong(a, m)) =~= jevent(exp));
                    }
                }
                return Some((Event::Pong(a, m), p));
            },
            None => {
                proof {
                    if pre {
                        assert(false);
                    }
                }
                return None;
            },
        }
    }
    if str_is(&name, "Forward") {
        let ghost (ga, gm) = match exp {
            Event::Forward(a, m) => (a@, m@),
            _ => (Seq::empty(), Seq::empty()),
        };
        proof {
            if pre {
                lemma_name_variant(exp);
                assert(exp is Forward);
            }
        }
        match p_pay2s(v, p2, Ghost(ga), Ghost(gm)) {
            Some(((a, m), p)) => {
                proof {
                    if pre {
                        assert(jevent(Event::Forward(a, m)) =~= jevent(exp));
                    }
                }
                return Some((Event::Forward(a, m), p));
            },
            None => {
                proof {
                    if pre {
                        assert(false);
                    }
                }
                return None;
            },
        }
    }
    if str_is(&name, "Acknowledge") {
        let ghost ga = match exp {
            Event::Acknowledge(a) => a@,
            _ => Seq::empty(),
        };
        proof {
            if pre {
                lemma_name_variant(exp);
                assert(exp is Acknowledge);
                lemma_split(v@, p2 as int, jstr(ga), seq!['}']);
            }
        }
        let (a, p) = match p_string(v, p2, Ghost(ga)) {
            Some(t) => t,
            None => {
                proof {
                    if pre {
                        assert(false);
                    }
                }
                return None;
            },
        };
        let p = match p_char(v, p, '}') {
            Some(p) => p,
            None => {
                proof {
                    if pre {
                        assert(false);
                    }
                }
                return None;
            },
        };
        proof {
            if pre {
                assert(jevent(Event::Acknowledge(a)) =~= jevent(exp));
            }
        }
        return Some((Event::Acknowledge(a), p));
    }
        None
}

/// The tail of a consensus record, after its tag name.
#[verifier::rlimit(100)]
fn p_event_epaxos(v: &Vec<char>, p2: usize, name: &String, Ghost(exp): Ghost<Event>) -> (r:
    Option<(Event, usize)>)
    ensures
        r matches Some(t) ==> p2 <= t.1 <= v@.len() && event_wf(t.0),
        (event_wf(exp) && !(exp is SaveState) && name@ == name_of(exp) && starts_with(
            v@,
            p2 as int,
            pay_of(exp),
        )) ==> ((name@ == "ReceivedRequest"@ || name@ == "PreAccept"@ || name@ == "PreAcceptOK"@
            || name@ == "Accept"@ || name@ == "AcceptOK"@ || name@ == "Commit"@) ==> (r matches
        Some(t) && t.1 == p2 + pay_of(exp).len() && jevent(t.0) == jevent(exp))),
{
    let ghost pre = event_wf(exp) && !(exp is SaveState) && name@ == name_of(exp) && starts_with(
        v@,
        p2 as int,
        pay_of(exp),
    );
    proof {
        reveal_strlit("Message");
        reveal_strlit("Ping");
        reveal_strlit("Pong");
        reveal_strlit("Forward");
        reveal_strlit("Acknowledge");
        reveal_strlit("ReceivedRequest");
        reveal_strlit("PreAccept");
        reveal_strlit("PreAcceptOK");
        reveal_strlit("Accept");
        reveal_strlit("AcceptOK");
        reveal_strlit("Commit");
        reveal_strlit("{\"Message\":[");
        reveal_strlit("{\"Ping\":[");
        reveal_strlit("{\"Pong\":[");
        reveal_strlit("{\"Forward\":[");
        reveal_strlit("{\"Acknowledge\":");
        reveal_strlit("{\"ReceivedRequest\":");
        reveal_strlit("{\"PreAccept\":[");
        reveal_strlit("{\"PreAcceptOK\":[");
        reveal_strlit("{\"Accept\":[");
        reveal_strlit("{\"AcceptOK\":[");
        reveal_strlit("{\"Commit\":[");
        assert(("Message"@)[0] == 'M' && ("Forward"@)[0] == 'F');
        assert("Message"@ != "Forward"@);
        assert(("Ping"@)[1] == 'i' && ("Pong"@)[1] == 'o');
        assert("Ping"@ != "Pong"@);
        assert(("Acknowledge"@)[0] == 'A' && ("PreAcceptOK"@)[0] == 'P');
        assert("Acknowledge"@ != "PreAcceptOK"@);
        assert(("Accept"@)[0] == 'A' && ("Commit"@)[0] == 'C');
        assert("Accept"@ != "Commit"@);
    }
if str_is(&name, "ReceivedRequest") {
        let ghost gq = match exp {
            Event::ReceivedRequest(q) => q@,
            _ => ReqV::Read { key: Seq::empty(), addr: Seq::empty(), id: 0 },
        };
        proof {
            if pre {
                lemma_name_variant(exp);
                assert(exp is ReceivedRequest);
                lemma_split(v@, p2 as int, jreq(gq), seq!['}']);
            }
        }
        let (q, p) = match p_req(v, p2, Ghost(gq)) {
            Some(t) => t,
            None => {
                proof {
                    if pre {
                        assert(false);
                    }
                }
                return None;
            },
        };
        let p = match p_char(v, p, '}') {
            Some(p) => p,
            None => {
                proof {
                    if pre {
                        assert(false);
                    }
                }
                return None;
            },
        };
        proof {
            if pre {
                assert(jevent(Event::ReceivedRequest(q)) =~= jevent(exp));
            }
        }
        return Some((Event::ReceivedRequest(q), p));
    }
    if str_is(&name, "PreAcceptOK") {
        let ghost (gq, gs, gd, gi, ga) = match exp {
            Event::PreAcceptOK(q, s, d, i, a) => (q@, s, d.committed@, i, a@),
            _ => (
                ReqV::Read { key: Seq::empty(), addr: Seq::empty(), id: 0 },
                0u64,
                Seq::empty(),
                Instance { replica: 0, slot: 0 },
                Seq::empty(),
            ),
        };
        proof {
            if pre {
                lemma_name_variant(exp);
                assert(exp is PreAcceptOK);
            }
        }
        match p_pay5d(v, p2, Ghost(gq), Ghost(gs), Ghost(gd), Ghost(gi), Ghost(ga)) {
            Some(((q, s, d, i, a), p)) => {
                proof {
                    if pre {
                        assert(jevent(Event::PreAcceptOK(q, s, d, i, a)) =~= jevent(exp));
                    }
                }
                return Some((Event::PreAcceptOK(q, s, d, i, a), p));
            },
            None => {
                proof {
                    if pre {
                        assert(false);
                    }
                }
                return None;
            },
        }
    }
    if str_is(&name, "PreAccept") {
        let ghost (gq, gs, gd, gi, ga) = match exp {
            Event::PreAccept(q, s, d, i, a) => (q@, s, d.committed@, i, a@),
            _ => (
                ReqV::Read { key: Seq::empty(), addr: Seq::empty(), id: 0 },
                0u64,
                Seq::empty(),
                Instance { replica: 0, slot: 0 },
                Seq::empty(),
            ),
        };
        proof {
            if pre {
                lemma_name_variant(exp);
                assert(exp is PreAccept);
            }
        }
        match p_pay5d(v, p2, Ghost(gq), Ghost(gs), Ghost(gd), Ghost(gi), Ghost(ga)) {
            Some(((q, s, d, i, a), p)) => {
                proof {
                    if pre {
                        assert(jevent(Event::PreAccept(q, s, d, i, a)) =~= jevent(exp));
                    }
                }
                return Some((Event::PreAccept(q, s, d, i, a), p));
            },
            None => {
                proof {
                    if pre {
                        assert(false);
                    }
                }
                return None;
            },
        }
    }
    if str_is(&name, "AcceptOK") {
        let ghost (gq, gs, gd, gi, ga) = match exp {
            Event::AcceptOK(q, s, d, i, a) => (q@, s, d@, i, a@),
            _ => (
                ReqV::Read { key: Seq::empty(), addr: Seq::empty(), id: 0 },
                0u64,
                Seq::empty(),
                Instance { replica: 0, slot: 0 },
                Seq::empty(),
            ),
        };
        proof {
            if pre {
                lemma_name_variant(exp);
                assert(exp is AcceptOK);
            }
        }
        match p_pay5l(v, p2, Ghost(gq), Ghost(gs), Ghost(gd), Ghost(gi), Ghost(ga)) {
            Some(((q, s, d, i, a), p)) => {
                proof {
                    if pre {
                        assert(jevent(Event::AcceptOK(q, s, d, i, a)) =~= jevent(exp));
                    }
                }
                return Some((Event::AcceptOK(q, s, d, i, a), p));
            },
            None => {
                proof {
                    if pre {
                        assert(false);
                    }
                }
                return None;
            },
        }
    }
    if str_is(&name, "Accept") {
        let ghost (gq, gs, gd, gi, ga) = match exp {
            Event::Accept(q, s, d, i, a) => (q@, s, d@, i, a@),
            _ => (
                ReqV::Read { key: Seq::empty(), addr: Seq::empty(), id: 0 },
                0u64,
                Seq::empty(),
                Instance { replica: 0, slot: 0 },
                Seq::empty(),
            ),
        };
        proof {
            if pre {
                lemma_name_variant(exp);
                assert(exp is Accept);
            }
        }
        match p_pay5l(v, p2, Ghost(gq), Ghost(gs), Ghost(gd), Ghost(gi), Ghost(ga)) {
            Some(((q, s, d, i, a), p)) => {
                proof {
                    if pre {
                        assert(jevent(Event::Accept(q, s, d, i, a)) =~= jevent(exp));
                    }
                }
                return Some((Event::Accept(q, s, d, i, a), p));
            },
            None => {
                proof {
                    if pre {
                        assert(false);
                    }
                }
                return None;
            },
        }
    }
    if str_is(&name, "Commit") {
        let ghost (gq, gs, gd, gi, ga) = match exp {
            Event::Commit(q, s, d, i, a) => (q@, s, d@, i, a@),
            _ => (
                ReqV::Read { key: Seq::empty(), addr: Seq::empty(), id: 0 },
                0u64,
                Seq::empty(),
                Instance { replica: 0, slot: 0 },
                Seq::empty(),
            ),
        };
        proof {
            if pre {
                lemma_name_variant(exp);
                assert(exp is Commit);
            }
        }
        match p_pay5l(v, p2, Ghost(gq), Ghost(gs), Ghost(gd), Ghost(gi), Ghost(ga)) {
            Some(((q, s, d, i, a), p)) => {
                proof {
                    if pre {
                        assert(jevent(Event::Commit(q, s, d, i, a)) =~= jevent(exp));
                    }
                }
                return Some((Event::Commit(q, s, d, i, a), p));
            },
            None => {
                proof {
                    if pre {
                        assert(false);
                    }
                }
                return None;
            },
        }
    }
    None
}

/// Every record but the state-dump trigger is its tag name in braces,
/// followed by its payload; tag names hold no quote.
#[verifier::rlimit(100)]
proof fn lemma_event_shape(e: Event)
    requires
        !(e is SaveState),
    ensures
        jevent(e) == "{\""@ + (name_of(e) + ("\":"@ + pay_of(e))),
        forall|x: int| 0 <= x < name_of(e).len() ==> name_of(e)[x] != '"',
{
    reveal_strlit("{\"");
    reveal_strlit("\":");
    reveal_strlit("Message");
    reveal_strlit("Ping");
    reveal_strlit("Pong");
    reveal_strlit("Forward");
    reveal_strlit("Acknowledge");
    reveal_strlit("ReceivedRequest");
    reveal_strlit("PreAccept");
    reveal_strlit("PreAcceptOK");
    reveal_strlit("Accept");
    reveal_strlit("AcceptOK");
    reveal_strlit("Commit");
    reveal_strlit("{\"Message\":[");
    reveal_strlit("{\"Ping\":[");
    reveal_strlit("{\"Pong\":[");
    reveal_strlit("{\"Forward\":[");
    reveal_strlit("{\"Acknowledge\":");
    reveal_strlit("{\"ReceivedRequest\":");
    reveal_strlit("{\"PreAccept\":[");
    reveal_strlit("{\"PreAcceptOK\":[");
    reveal_strlit("{\"Accept\":[");
    reveal_strlit("{\"AcceptOK\":[");
    reveal_strlit("{\"Commit\":[");
    let nm = name_of(e);
    match e {
        Event::Message(..) => {
            assert(jevent(e) =~= "{\""@ + (nm + ("\":"@ + pay_of(e))));
            assert(forall|x: int| 0 <= x < nm.len() ==> nm[x] != '"');
        },
        Event::Ping(..) => {
            assert(jevent(e) =~= "{\""@ + (nm + ("\":"@ + pay_of(e))));
            assert(forall|x: int| 0 <= x < nm.len() ==> nm[x] != '"');
        },
        Event::Pong(..) => {
            assert(jevent(e) =~= "{\""@ + (nm + ("\":"@ + pay_of(e))));
            assert(forall|x: int| 0 <= x < nm.len() ==> nm[x] != '"');
        },
        Event::Forward(..) => {
            assert(jevent(e) =~= "{\""@ + (nm + ("\":"@ + pay_of(e))));
            assert(forall|x: int| 0 <= x < nm.len() ==> nm[x] != '"');
        },
        Event::Acknowledge(..) => {
            assert(jevent(e) =~= "{\""@ + (nm + ("\":"@ + pay_of(e))));
            assert(forall|x: int| 0 <= x < nm.len() ==> nm[x] != '"');
        },
        Event::SaveState => {
        },
        Event::ReceivedRequest(..) => {
            assert(jevent(e) =~= "{\""@ + (nm + ("\":"@ + pay_of(e))));
            assert(forall|x: int| 0 <= x < nm.len() ==> nm[x] != '"');
        },
        Event::PreAccept(..) => {
            assert(jevent(e) =~= "{\""@ + (nm + ("\":"@ + pay_of(e))));
            assert(forall|x: int| 0 <= x < nm.len() ==> nm[x] != '"');
        },
        Event::PreAcceptOK(..) => {
            assert(jevent(e) =~= "{\""@ + (nm + ("\":"@ + pay_of(e))));
            assert(forall|x: int| 0 <= x < nm.len() ==> nm[x] != '"');
        },
        Event::Accept(..) => {
            assert(jevent(e) =~= "{\""@ + (nm + ("\":"@ + pay_of(e))));
            assert(forall|x: int| 0 <= x < nm.len() ==> nm[x] != '"');
        },
        Event::AcceptOK(..) => {
            assert(jevent(e) =~= "{\""@ + (nm + ("\":"@ + pay_of(e))));
            assert(forall|x: int| 0 <= x < nm.len() ==> nm[x] != '"');
        },
        Event::Commit(..) => {
            assert(jevent(e) =~= "{\""@ + (nm + ("\":"@ + pay_of(e))));
            assert(forall|x: int| 0 <= x < nm.len() ==> nm[x] != '"');
        },
    }
}

/// The raw event grammar at a position. When `jevent(exp)` of a well-formed
/// `exp` stands at `pos`, the parse succeeds, consuming exactly it, with a
/// result that serializes to the same record.
#[verifier::rlimit(100)]
fn p_event(v: &Vec<char>, pos: usize, Ghost(exp): Ghost<Event>) -> (r: Option<(Event, usize)>)
    ensures
        r matches Some(t) ==> pos <= t.1 <= v@.len() && event_wf(t.0),
        (event_wf(exp) && starts_with(v@, pos as int, jevent(exp))) ==> (r matches Some(t) && t.1
            == pos + jevent(exp).len() && jevent(t.0) == jevent(exp)),
{
    let ghost pre = event_wf(exp) && starts_with(v@, pos as int, jevent(exp));
    let ghost nm = name_of(exp);
    let ghost pay = pay_of(exp);
    proof {
        reveal_strlit("\"SaveState\"");
        reveal_strlit("{\"");
        reveal_strlit("\":");
        if pre && !(exp is SaveState) {
            lemma_event_shape(exp);
            lemma_split(v@, pos as int, "{\""@, nm + ("\":"@ + pay));
            lemma_split(v@, pos + 2, nm, "\":"@ + pay);
            lemma_split(v@, pos + 2 + nm.len(), "\":"@, pay);
            assert(v@[pos + 2 + nm.len()] == '"') by {
                assert(v@.subrange(pos + 2 + nm.len(), pos + 4 + nm.len())[0] == ("\":"@)[0]);
            }
            assert(forall|x: int| 0 <= x < nm.len() ==> nm[x] != '"');
        }
    }
    if let Some(p) = p_lit(v, pos, "\"SaveState\"") {
        proof {
            if pre && !(exp is SaveState) {
                assert(v@.subrange(pos as int, pos + 2)[0] == ("{\""@)[0]);
                assert(v@.subrange(pos as int, pos + 11)[0] == ("\"SaveState\""@)[0]);
                assert(false);
            }
        }
        return Some((Event::SaveState, p));
    }
    let p0 = match p_lit(v, pos, "{\"") {
        Some(p0) => p0,
        None => {
            proof {
                if pre {
                    assert(!(exp is SaveState));
                    assert(false);
                }
            }
            return None;
        },
    };
    proof {
        if pre && exp is SaveState {
            assert(starts_with(v@, pos as int, "\"SaveState\""@));
            assert(false);
        }
    }
    let (name, p1) = match p_name(v, p0, Ghost(nm)) {
        Some(t) => t,
        None => {
            proof {
                if pre {
                    assert(false);
                }
            }
            return None;
        },
    };
    let p2 = match p_lit(v, p1, "\":") {
        Some(p2) => p2,
        None => {
            proof {
                if pre {
                    assert(false);
                }
            }
            return None;
        },
    };
    if let Some(t) = p_event_legacy(v, p2, &name, Ghost(exp)) {
        return Some(t);
    }
    match p_event_epaxos(v, p2, &name, Ghost(exp)) {
        Some(t) => Some(t),
        None => {
            proof {
                if pre {
                    assert(false);
                }
            }
            None
        },
    }
}

/// Whether two character lists are equal.
fn chars_eq(a: &Vec<char>, b: &Vec<char>) -> (r: bool)
    ensures
        r == (a@ == b@),
{
    if a.len() != b.len() {
        proof {
            assert(a@ != b@);
        }
        return false;
    }
    let n = a.len();
    for i in 0..n
        invariant
            n == a@.len() == b@.len(),
            forall|j: int| 0 <= j < i ==> a@[j] == b@[j],
    {
        if a[i] != b[i] {
            return false;
        }
    }
    proof {
        assert(a@ =~= b@);
    }
    true
}

/// Parse one wire record. Only the canonical form is accepted, and every
/// canonical record parses: whatever comes back serializes to exactly the
/// input line, any deps map it carries is well-formed, and a line that is the
/// record of some well-formed event is never refused.
pub fn parse_event(line: &str) -> (r: Option<Event>)
    ensures
        r matches Some(e) ==> event_wf(e) && line@ == jevent(e),
        (exists|e0: Event| event_wf(e0) && line@ == jevent(e0)) ==> r is Some,
{
    let ghost pre = exists|e0: Event| event_wf(e0) && line@ == jevent(e0);
    let ghost exp = choose|e0: Event| event_wf(e0) && line@ == jevent(e0);
    let v = str_chars(line);
    proof {
        if pre {
            assert(event_wf(exp) && line@ == jevent(exp));
            assert(v@.subrange(0, jevent(exp).len() as int) =~= jevent(exp));
            assert(starts_with(v@, 0, jevent(exp)));
        }
    }
    match p_event(&v, 0, Ghost(exp)) {
        Some((e, p)) => {
            if p != v.len() {
                proof {
                    if pre {
                        assert(false);
                    }
                }
                return None;
            }
            let canon = serialize_event(&e);
            let cv = str_chars(canon.as_str());
            if chars_eq(&cv, &v) {
                Some(e)
            } else {
                proof {
                    if pre {
                        assert(jevent(e) == jevent(exp));
                        assert(cv@ == v@);
                        assert(false);
                    }
                }
                None
            }
        },
        None => {
            proof {
                if pre {
                    assert(false);
                }
            }
            None
        },
    }
}

/// Parse one client reply record. Only the canonical form is accepted, and
/// every canonical record parses.
#[verifier::rlimit(100)]
pub fn parse_reply(line: &str) -> (r: Option<ClientReply>)
    ensures
        r matches Some(e) ==> line@ == jreply(e@),
        (exists|e0: ClientReply| line@ == jreply(e0@)) ==> r is Some,
{
    let ghost pre = exists|e0: ClientReply| line@ == jreply(e0@);
    let ghost exp = choose|e0: ClientReply| line@ == jreply(e0@);
    let ghost gval = match exp {
        ClientReply::Reply(ov, _) => match ov {
            Some(s) => s@,
            None => Seq::empty(),
        },
    };
    let ghost gnone = match exp {
        ClientReply::Reply(ov, _) => ov is None,
    };
    let ghost gid = exp@.id;
    let v = str_chars(line);
    proof {
        reveal_strlit("{\"Reply\":[");
        reveal_strlit("null");
        reveal_strlit("]}");
        if pre {
            assert(line@ == jreply(exp@));
            assert(v@.subrange(0, jreply(exp@).len() as int) =~= jreply(exp@));
            assert(starts_with(v@, 0, jreply(exp@)));
            let valpart: Seq<char> = if gnone {
                "null"@
            } else {
                jstr(gval)
            };
            assert(jreply(exp@) =~= "{\"Reply\":["@ + (valpart + (seq![','] + (u64_chars(gid)
                + "]}"@))));
            lemma_split(v@, 0, "{\"Reply\":["@, valpart + (seq![','] + (u64_chars(gid) + "]}"@)));
            lemma_split(v@, 10, valpart, seq![','] + (u64_chars(gid) + "]}"@));
            lemma_split(v@, 10 + valpart.len() as int, seq![','], u64_chars(gid) + "]}"@);
            lemma_split(v@, 11 + valpart.len() as int, u64_chars(gid), "]}"@);
            lemma_head(v@, 11 + valpart.len() + u64_chars(gid).len() as int, "]}"@);
            assert(!is_digit_char(']'));
        }
    }
    let p = match p_lit(&v, 0, "{\"Reply\":[") {
        Some(p) => p,
        None => {
            proof {
                if pre {
                    assert(false);
                }
            }
            return None;
        },
    };
    let (val, p) = if let Some(p2) = p_lit(&v, p, "null") {
        proof {
            if pre && !gnone {
                assert(v@.subrange(10, 10 + jstr(gval).len() as int)[0] == '"');
                assert(v@.subrange(10, 14)[0] == ("null"@)[0]);
                assert(false);
            }
        }
        (None, p2)
    } else {
        match p_string(&v, p, Ghost(gval)) {
            Some((s, p2)) => {
                proof {
                    if pre && gnone {
                        assert(starts_with(v@, 10, "null"@));
                        assert(false);
                    }
                }
                (Some(s), p2)
            },
            None => {
                proof {
                    if pre {
                        assert(false);
                    }
                }
                return None;
            },
        }
    };
    let p = match p_char(&v, p, ',') {
        Some(p) => p,
        None => {
            proof {
                if pre {
                    assert(false);
                }
            }
            return None;
        },
    };
    let (id, p) = match p_u64(&v, p, Ghost(gid)) {
        Some(t) => t,
        None => {
            proof {
                if pre {
                    assert(false);
                }
            }
            return None;
        },
    };
    let p = match p_lit(&v, p, "]}") {
        Some(p) => p,
        None => {
            proof {
                if pre {
                    assert(false);
                }
            }
            return None;
        },
    };
    if p != v.len() {
        proof {
            if pre {
                assert(false);
            }
        }
        return None;
    }
    let e = ClientReply::Reply(val, id);
    let canon = serialize_reply(&e);
    let cv = str_chars(canon.as_str());
    if chars_eq(&cv, &v) {
        Some(e)
    } else {
        proof {
            if pre {
                assert(jreply(e@) =~= jreply(exp@));
                assert(false);
            }
        }
        None
    }
}

} // verus!
