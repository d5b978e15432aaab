//! The state dump written on demand: a table of the command log, one row per
//! replica id, followed by the dictionary and the executed instances in
//! sorted order. Every character of the dump is pinned by spec functions.

use vstd::prelude::*;
use crate::types::{Instance, CommandState, ReqV, LogEntry, ins_map_of, ins_lt, ins_keys_unique};
use crate::store::{ins_get, lemma_ins_map_index, lemma_ins_map_key_has_index};
use crate::replica::ReplicaState;
use crate::text::{chars_to_string, u64_chars, push_u64_digits, push_str_chars};
use vstd::string::StrSliceExecFns;

verus! {

/// The label of a command state, as the dump prints it.
pub open spec fn state_chars(s: CommandState) -> Seq<char> {
    match s {
        CommandState::PreAccepted => "PreAccept"@,
        CommandState::Accepted => "Accepted "@,
        CommandState::Committed => "Committed"@,
    }
}

/// A key shortened or padded with underscores to four characters.
pub open spec fn key4_chars(k: Seq<char>) -> Seq<char> {
    if k.len() < 4 {
        k + Seq::new((4 - k.len()) as nat, |x: int| '_')
    } else {
        k.take(4)
    }
}

/// A numeral padded with spaces on the right to at least three characters.
pub open spec fn pad3(s: Seq<char>) -> Seq<char> {
    if s.len() >= 3 {
        s
    } else {
        s + Seq::new((3 - s.len()) as nat, |x: int| ' ')
    }
}

/// One cell of the log table: the logged command at `(id, num)`, or the
/// placeholder for an empty slot.
pub open spec fn cell_chars(log: Map<Instance, LogEntry>, id: u8, num: u64) -> Seq<char> {
    let i = Instance { replica: id, slot: num };
    if log.contains_key(i) {
        let e = log[i];
        (match e.req@ {
            ReqV::Read { .. } => "Read-["@,
            ReqV::Write { .. } => "Write["@,
        }) + key4_chars(e.req@.key()) + ", Seq: "@ + pad3(u64_chars(e.seq)) + " Status: "@
            + state_chars(e.state) + "]"@
    } else {
        "Empty[----- ...................... -----]"@
    }
}

/// The first `c` cells of one row, each followed by a space.
pub open spec fn cells_upto(log: Map<Instance, LogEntry>, id: u8, c: int) -> Seq<char>
    decreases c,
{
    if c <= 0 {
        Seq::empty()
    } else {
        cells_upto(log, id, c - 1) + cell_chars(log, id, c as u64) + " "@
    }
}

/// The first `idc` rows of the table.
pub open spec fn rows_upto(log: Map<Instance, LogEntry>, idc: int, maxn: u64) -> Seq<char>
    decreases idc,
{
    if idc <= 0 {
        Seq::empty()
    } else {
        rows_upto(log, idc - 1, maxn) + "ID: "@ + u64_chars(idc as u64) + " -> "@ + cells_upto(
            log,
            idc as u8,
            maxn as int,
        ) + "\n"@
    }
}

/// A string as a record quotes it: quotes and backslashes escaped, and a
/// line break written out, so one record never spans two lines. This is the
/// whole escape set - other control characters (tabs, carriage returns) pass
/// through unchanged, a deliberate simplification of the dump's quoting.
pub open spec fn dbg_esc(s: Seq<char>) -> Seq<char>
    decreases s.len(),
{
    if s.len() == 0 {
        Seq::empty()
    } else {
        dbg_esc(s.drop_last()) + (if s.last() == '"' || s.last() == '\\' {
            seq!['\\', s.last()]
        } else if s.last() == '\n' {
            seq!['\\', 'n']
        } else {
            seq![s.last()]
        })
    }
}

/// The first `c` dictionary pairs, comma-separated, as the dump lists them.
pub open spec fn dict_items_upto(sd: Seq<(Seq<char>, Seq<char>)>, c: int) -> Seq<char>
    decreases c,
{
    if c <= 0 {
        Seq::empty()
    } else {
        dict_items_upto(sd, c - 1) + (if c - 1 > 0 {
            ", "@
        } else {
            Seq::empty()
        }) + "(\""@ + dbg_esc(sd[c - 1].0) + "\", \""@ + dbg_esc(sd[c - 1].1) + "\")"@
    }
}

/// The first `c` executed instances, comma-separated, as the dump lists them.
pub open spec fn exec_items_upto(se: Seq<Instance>, c: int) -> Seq<char>
    decreases c,
{
    if c <= 0 {
        Seq::empty()
    } else {
        exec_items_upto(se, c - 1) + (if c - 1 > 0 {
            ", "@
        } else {
            Seq::empty()
        }) + "("@ + u64_chars(se[c - 1].replica as u64) + ", "@ + u64_chars(se[c - 1].slot) + ")"@
    }
}

/// The whole dump, given the table width, the sorted dictionary pairs and
/// the sorted executed instances.
pub open spec fn format_log_chars(
    n: u8,
    log: Map<Instance, LogEntry>,
    maxn: u64,
    sd: Seq<(Seq<char>, Seq<char>)>,
    se: Seq<Instance>,
) -> Seq<char> {
    "BEGIN CMD LOG: --------------------------------------------\n"@ + rows_upto(
        log,
        n as int,
        maxn,
    ) + "END CMD LOG: ----------------------------------------------\n"@ + "Dict Status:\n"@
        + "["@ + dict_items_upto(sd, sd.len() as int) + "]\n"@ + "\n"@
        + "Executed command instances:\n"@ + "["@ + exec_items_upto(se, se.len() as int) + "]\n"@
}

/// The greatest slot number in the log (zero when the log is empty).
pub open spec fn max_slot_ok(log: Map<Instance, LogEntry>, m: u64) -> bool {
    &&& forall|i: Instance| #[trigger] log.contains_key(i) ==> i.slot <= m
    &&& (m == 0 || exists|i: Instance| #[trigger] log.contains_key(i) && i.slot == m)
}

/// Lexicographic order on character sequences from position `i` on.
pub open spec fn str_lt_from(a: Seq<char>, b: Seq<char>, i: int) -> bool
    decreases b.len() - i,
{
    if i >= b.len() || i < 0 {
        false
    } else if i >= a.len() {
        true
    } else if a[i] != b[i] {
        (a[i] as u32) < (b[i] as u32)
    } else {
        str_lt_from(a, b, i + 1)
    }
}

/// Lexicographic order on character sequences, by code point.
pub open spec fn str_lt(a: Seq<char>, b: Seq<char>) -> bool {
    str_lt_from(a, b, 0)
}

/// The sorted dictionary dump lists exactly the dictionary's pairs, in
/// strictly ascending key order.
pub open spec fn dict_dump_ok(
    d: Map<Seq<char>, Seq<char>>,
    sd: Seq<(Seq<char>, Seq<char>)>,
) -> bool {
    &&& forall|z: int|
        0 <= z < sd.len() ==> d.contains_key((#[trigger] sd[z]).0) && d[sd[z].0] == sd[z].1
    &&& forall|k: Seq<char>|
        #[trigger] d.contains_key(k) ==> exists|z: int| 0 <= z < sd.len() && (#[trigger] sd[z]).0 == k
    &&& forall|x: int, y: int|
        0 <= x < y < sd.len() ==> str_lt((#[trigger] sd[x]).0, (#[trigger] sd[y]).0)
}

/// The executed dump lists exactly the executed instances, in strictly
/// ascending order.
pub open spec fn exec_dump_ok(es: Set<Instance>, se: Seq<Instance>) -> bool {
    &&& forall|z: int| 0 <= z < se.len() ==> es.contains(#[trigger] se[z])
    &&& forall|k: Instance|
        #[trigger] es.contains(k) ==> exists|z: int| 0 <= z < se.len() && #[trigger] se[z] == k
    &&& forall|x: int, y: int| 0 <= x < y < se.len() ==> ins_lt(#[trigger] se[x], #[trigger] se[y])
}

/// Exec-level lexicographic comparison of two strings.
#[verifier::loop_isolation(false)]
pub fn str_lt_exec(a: &String, b: &String) -> (r: bool)
    ensures
        r == str_lt(a@, b@),
{
    let an = a.as_str().unicode_len();
    let bn = b.as_str().unicode_len();
    let mut i: usize = 0;
    loop
        invariant
            0 <= i <= an,
            0 <= i <= bn,
            an == a@.len(),
            bn == b@.len(),
            str_lt(a@, b@) == str_lt_from(a@, b@, i as int),
        decreases bn - i,
    {
        if i >= bn {
            return false;
        }
        if i >= an {
            return true;
        }
        let ca = a.as_str().get_char(i);
        let cb = b.as_str().get_char(i);
        if ca != cb {
            return (ca as u32) < (cb as u32);
        }
        i = i + 1;
    }
}

/// Append a key shortened or padded with underscores to four characters.
fn push_key4(k: &String, out: &mut Vec<char>)
    ensures
        final(out)@ == old(out)@ + key4_chars(k@),
{
    let kn = k.as_str().unicode_len();
    if kn < 4 {
        push_str_chars(k.as_str(), out);
        let mut pads = kn;
        while pads < 4
            invariant
                kn <= pads <= 4,
                kn == k@.len(),
                out@ == old(out)@ + k@ + Seq::new((pads - kn) as nat, |x: int| '_'),
            decreases 4 - pads,
        {
            out.push('_');
            proof {
                assert(out@ =~= old(out)@ + k@ + Seq::new((pads + 1 - kn) as nat, |x: int| '_'));
            }
            pads = pads + 1;
        }
        proof {
            assert(key4_chars(k@) =~= k@ + Seq::new((4 - k@.len()) as nat, |x: int| '_'));
        }
    } else {
        push_str_chars(k.as_str().substring_char(0, 4), out);
        proof {
            assert(k@.subrange(0, 4) =~= key4_chars(k@));
        }
    }
}

/// Append a numeral padded with spaces on the right to three characters.
fn push_pad3_u64(v: u64, out: &mut Vec<char>)
    ensures
        final(out)@ == old(out)@ + pad3(u64_chars(v)),
{
    let mut digs: Vec<char> = Vec::new();
    push_u64_digits(v, &mut digs);
    let dn = digs.len();
    for x in 0..dn
        invariant
            dn == digs@.len(),
            digs@ == u64_chars(v),
            out@ == old(out)@ + digs@.take(x as int),
    {
        out.push(digs[x]);
        proof {
            assert(out@ =~= old(out)@ + digs@.take(x + 1));
        }
    }
    proof {
        assert(digs@.take(dn as int) =~= digs@);
    }
    let mut w = dn;
    while w < 3
        invariant
            dn <= w,
            w <= 3 || w == dn,
            dn == u64_chars(v).len(),
            out@ == old(out)@ + u64_chars(v) + Seq::new((w - dn) as nat, |x: int| ' '),
        decreases 3 - w,
    {
        out.push(' ');
        proof {
            assert(out@ =~= old(out)@ + u64_chars(v) + Seq::new((w + 1 - dn) as nat, |x: int| ' '));
        }
        w = w + 1;
    }
    proof {
        assert(out@ =~= old(out)@ + pad3(u64_chars(v)));
    }
}

/// Append one table cell (and its trailing space) for slot `(id, num)`.
fn push_cell(cmds: &Vec<(Instance, LogEntry)>, id: u8, num: u64, out: &mut Vec<char>)
    requires
        ins_keys_unique(cmds@),
    ensures
        final(out)@ == old(out)@ + cell_chars(ins_map_of(cmds@), id, num) + " "@,
{
    let ghost log = ins_map_of(cmds@);
    match ins_get(cmds, Instance { replica: id, slot: num }) {
        Some(e) => {
            match &e.req {
                crate::types::ClientRequest::Read(..) => push_str_chars("Read-[", out),
                crate::types::ClientRequest::Write(..) => push_str_chars("Write[", out),
            };
            let k = match &e.req {
                crate::types::ClientRequest::Read(k, _, _) => k,
                crate::types::ClientRequest::Write(k, _, _, _) => k,
            };
            push_key4(k, out);
            push_str_chars(", Seq: ", out);
            push_pad3_u64(e.seq, out);
            push_str_chars(" Status: ", out);
            match e.state {
                CommandState::PreAccepted => push_str_chars("PreAccept", out),
                CommandState::Accepted => push_str_chars("Accepted ", out),
                CommandState::Committed => push_str_chars("Committed", out),
            };
            push_str_chars("]", out);
            push_str_chars(" ", out);
            proof {
                assert(final(out)@ =~= old(out)@ + cell_chars(log, id, num) + " "@);
            }
        },
        None => {
            push_str_chars("Empty[----- ...................... -----]", out);
            push_str_chars(" ", out);
            proof {
                assert(final(out)@ =~= old(out)@ + cell_chars(log, id, num) + " "@);
            }
        },
    }
}

/// The greatest slot number named in the log.
fn max_slot(cmds: &Vec<(Instance, LogEntry)>) -> (m: u64)
    requires
        ins_keys_unique(cmds@),
    ensures
        max_slot_ok(ins_map_of(cmds@), m),
{
    let ghost log = ins_map_of(cmds@);
    let mut m: u64 = 0;
    let n = cmds.len();
    for j in 0..n
        invariant
            n == cmds@.len(),
            forall|q: int| 0 <= q < j ==> (#[trigger] cmds@[q]).0.slot <= m,
            m == 0 || exists|q: int| 0 <= q < j && (#[trigger] cmds@[q]).0.slot == m,
    {
        if cmds[j].0.slot > m {
            m = cmds[j].0.slot;
        }
    }
    proof {
        assert forall|i: Instance| #[trigger] log.contains_key(i) implies i.slot <= m by {
            lemma_ins_map_key_has_index(cmds@, i);
        }
        if m != 0 {
            let q = choose|q: int| 0 <= q < cmds@.len() && (#[trigger] cmds@[q]).0.slot == m;
            lemma_ins_map_index(cmds@, q);
        }
    }
    m
}

/// Distinct characters have distinct code points.
proof fn lemma_char_codes(a: char, b: char)
    requires
        a != b,
    ensures
        (a as u32) != (b as u32),
{
    if (a as u32) == (b as u32) {
        vstd::utf8::char_u32_cast(a, a as u32);
        vstd::utf8::char_u32_cast(b, b as u32);
    }
}

/// From any common position on, two strings are ordered one way or the
/// other, or equal from there on.
proof fn lemma_str_conn(a: Seq<char>, b: Seq<char>, i: int)
    requires
        0 <= i <= a.len(),
        0 <= i <= b.len(),
    ensures
        str_lt_from(a, b, i) || str_lt_from(b, a, i) || a.skip(i) =~= b.skip(i),
    decreases a.len() + b.len() - 2 * i,
{
    if i >= a.len() && i >= b.len() {
        assert(a.skip(i) =~= b.skip(i));
    } else if i >= b.len() {
    } else if i >= a.len() {
    } else if a[i] != b[i] {
        lemma_char_codes(a[i], b[i]);
    } else {
        lemma_str_conn(a, b, i + 1);
        if !str_lt_from(a, b, i + 1) && !str_lt_from(b, a, i + 1) {
            assert(a.skip(i) =~= b.skip(i)) by {
                assert(a.skip(i + 1) =~= b.skip(i + 1));
                assert(forall|x: int|
                    0 <= x < a.skip(i).len() ==> a.skip(i)[x] == a[i + x] && (x > 0
                        ==> a.skip(i + 1)[x - 1] == a[i + x]));
            }
        }
    }
}

/// Two distinct strings are strictly ordered, one way or the other.
pub proof fn lemma_str_lt_connex(a: Seq<char>, b: Seq<char>)
    requires
        a != b,
    ensures
        str_lt(a, b) || str_lt(b, a),
{
    lemma_str_conn(a, b, 0);
    if !str_lt(a, b) && !str_lt(b, a) {
        assert(a.skip(0) =~= b.skip(0));
        assert(a =~= a.skip(0));
        assert(b =~= b.skip(0));
    }
}

/// The order never holds of a string and itself.
pub proof fn lemma_str_lt_irrefl(a: Seq<char>, i: int)
    requires
        0 <= i,
    ensures
        !str_lt_from(a, a, i),
    decreases a.len() - i,
{
    if i < a.len() {
        lemma_str_lt_irrefl(a, i + 1);
    }
}

/// The order is transitive.
pub proof fn lemma_str_lt_trans(a: Seq<char>, b: Seq<char>, c: Seq<char>, i: int)
    requires
        0 <= i,
        str_lt_from(a, b, i),
        str_lt_from(b, c, i),
    ensures
        str_lt_from(a, c, i),
    decreases c.len() - i,
{
    if i < a.len() && i < b.len() && i < c.len() && a[i] == b[i] && b[i] == c[i] {
        lemma_str_lt_trans(a, b, c, i + 1);
    } else if i < a.len() && i < b.len() && a[i] != b[i] && i < c.len() && b[i] == c[i] {
        lemma_char_codes(a[i], c[i]);
    } else if i < a.len() && i < b.len() && a[i] == b[i] && i < c.len() && b[i] != c[i] {
        lemma_char_codes(a[i], c[i]);
    } else if i < a.len() && i < b.len() && i < c.len() && a[i] != b[i] && b[i] != c[i] {
        if a[i] != c[i] {
        } else {
            lemma_char_codes(a[i], b[i]);
            lemma_char_codes(b[i], c[i]);
        }
    }
}

/// The dictionary pairs of view `sd`, carried by exec strings.
pub open spec fn pairs_v(s: Seq<(String, String)>) -> Seq<(Seq<char>, Seq<char>)> {
    s.map_values(|p: (String, String)| (p.0@, p.1@))
}

/// The dictionary's pairs in strictly ascending key order.
#[verifier::loop_isolation(false)]
#[verifier::rlimit(60)]
fn sort_dict(dict: &Vec<(String, String)>) -> (out: Vec<(String, String)>)
    requires
        crate::store::str_keys_unique(dict@),
    ensures
        dict_dump_ok(crate::store::str_map_of(dict@), pairs_v(out@)),
{
    let ghost d = crate::store::str_map_of(dict@);
    let mut out: Vec<(String, String)> = Vec::new();
    let mut rem: Vec<(String, String)> = Vec::new();
    let n = dict.len();
    for j in 0..n
        invariant
            n == dict@.len(),
            rem@.len() == j,
            forall|q: int|
                0 <= q < j ==> (#[trigger] rem@[q]).0@ == dict@[q].0@ && rem@[q].1@
                    == dict@[q].1@,
    {
        rem.push((dict[j].0.clone(), dict[j].1.clone()));
    }
    proof {
        assert forall|q: int| 0 <= q < rem@.len() implies d.contains_key(
            (#[trigger] rem@[q]).0@,
        ) && d[rem@[q].0@] == rem@[q].1@ by {
            crate::store::lemma_str_map_index(dict@, q);
        }
        assert forall|k: Seq<char>| #[trigger] d.contains_key(k) implies exists|q: int|
            0 <= q < rem@.len() && (#[trigger] rem@[q]).0@ == k by {
            crate::store::lemma_str_map_key_has_index(dict@, k);
            let q = choose|q: int| 0 <= q < dict@.len() && (#[trigger] dict@[q]).0@ == k;
            assert(rem@[q].0@ == k);
        }
    }
    while rem.len() > 0
        invariant
            // everything in out and rem is a pair of the dictionary
            forall|z: int|
                0 <= z < out@.len() ==> d.contains_key((#[trigger] out@[z]).0@) && d[out@[z].0@]
                    == out@[z].1@,
            forall|q: int|
                0 <= q < rem@.len() ==> d.contains_key((#[trigger] rem@[q]).0@) && d[rem@[q].0@]
                    == rem@[q].1@,
            // every dictionary key is in out or rem
            forall|k: Seq<char>|
                #[trigger] d.contains_key(k) ==> (exists|z: int|
                    0 <= z < out@.len() && (#[trigger] out@[z]).0@ == k) || (exists|q: int|
                    0 <= q < rem@.len() && (#[trigger] rem@[q]).0@ == k),
            // out strictly below rem, and each strictly ordered / distinct
            forall|z: int, w: int|
                0 <= z < out@.len() && 0 <= w < rem@.len() ==> str_lt(
                    (#[trigger] out@[z]).0@,
                    (#[trigger] rem@[w]).0@,
                ),
            forall|x: int, y: int|
                0 <= x < y < out@.len() ==> str_lt((#[trigger] out@[x]).0@, (#[trigger] out@[y]).0@),
            forall|x: int, y: int|
                0 <= x < y < rem@.len() ==> (#[trigger] rem@[x]).0@ != (#[trigger] rem@[y]).0@,
        decreases rem@.len(),
    {
        // find the minimal remaining key
        let mut mi: usize = 0;
        let rl = rem.len();
        proof {
            lemma_str_lt_irrefl(rem@[0].0@, 0);
        }
        for q in 1..rl
            invariant
                rl == rem@.len(),
                rl > 0,
                mi < q,
                forall|w: int| 0 <= w < q ==> !str_lt((#[trigger] rem@[w]).0@, rem@[mi as int].0@),
        {
            if str_lt_exec(&rem[q].0, &rem[mi].0) {
                proof {
                    assert forall|w: int| 0 <= w < q + 1 implies !str_lt(
                        (#[trigger] rem@[w]).0@,
                        rem@[q as int].0@,
                    ) by {
                        if w == q {
                            lemma_str_lt_irrefl(rem@[q as int].0@, 0);
                        } else if str_lt(rem@[w].0@, rem@[q as int].0@) {
                            lemma_str_lt_trans(rem@[w].0@, rem@[q as int].0@, rem@[mi as int].0@, 0);
                        }
                    }
                }
                mi = q;
            } else {
                proof {
                    assert forall|w: int| 0 <= w < q + 1 implies !str_lt(
                        (#[trigger] rem@[w]).0@,
                        rem@[mi as int].0@,
                    ) by {
                    }
                }
            }
        }
        let ghost rpre = rem@;
        let p = rem.remove(mi);
        proof {
            assert forall|z: int| 0 <= z < out@.len() implies str_lt(
                (#[trigger] out@[z]).0@,
                p.0@,
            ) by {
                assert(rpre[mi as int] == p);
            }
        }
        let ghost opre = out@;
        out.push(p);
        proof {
            assert(out@.last() == p);
            assert forall|z: int, w: int|
                0 <= z < out@.len() && 0 <= w < rem@.len() implies str_lt(
                (#[trigger] out@[z]).0@,
                (#[trigger] rem@[w]).0@,
            ) by {
                let wp: int = if w < mi {
                    w
                } else {
                    w + 1
                };
                assert(rem@[w] == rpre[wp]);
                if z == out@.len() - 1 {
                    assert(!str_lt(rpre[wp].0@, p.0@));
                    assert(rpre[wp].0@ != p.0@) by {
                        if wp < mi {
                        } else {
                            assert(rpre[mi as int].0@ != rpre[wp].0@);
                        }
                    }
                    lemma_str_lt_connex(p.0@, rpre[wp].0@);
                }
            }
            assert forall|k: Seq<char>| #[trigger] d.contains_key(k) implies (exists|z: int|
                0 <= z < out@.len() && (#[trigger] out@[z]).0@ == k) || (exists|q: int|
                0 <= q < rem@.len() && (#[trigger] rem@[q]).0@ == k) by {
                if exists|q: int| 0 <= q < rpre.len() && (#[trigger] rpre[q]).0@ == k {
                    let q = choose|q: int| 0 <= q < rpre.len() && (#[trigger] rpre[q]).0@ == k;
                    if q == mi {
                        assert(out@[out@.len() - 1].0@ == k);
                    } else if q < mi {
                        assert(rem@[q].0@ == k);
                    } else {
                        assert(rem@[q - 1].0@ == k);
                    }
                } else {
                    let z = choose|z: int| 0 <= z < opre.len() && (#[trigger] opre[z]).0@ == k;
                    assert(out@[z].0@ == k);
                }
            }
            assert forall|x: int, y: int| 0 <= x < y < rem@.len() implies (#[trigger] rem@[x]).0@
                != (#[trigger] rem@[y]).0@ by {
                let xp: int = if x < mi {
                    x
                } else {
                    x + 1
                };
                let yp: int = if y < mi {
                    y
                } else {
                    y + 1
                };
                assert(rem@[x] == rpre[xp] && rem@[y] == rpre[yp]);
            }
        }
    }
    proof {
        let sd = pairs_v(out@);
        assert(forall|z: int|
            0 <= z < sd.len() ==> #[trigger] sd[z] == (out@[z].0@, out@[z].1@));
        assert forall|z: int| 0 <= z < sd.len() implies d.contains_key((#[trigger] sd[z]).0)
            && d[sd[z].0] == sd[z].1 by {
            assert(sd[z] == (out@[z].0@, out@[z].1@));
        }
        assert forall|k: Seq<char>| #[trigger] d.contains_key(k) implies exists|z: int|
            0 <= z < sd.len() && (#[trigger] sd[z]).0 == k by {
            let z = choose|z: int| 0 <= z < out@.len() && (#[trigger] out@[z]).0@ == k;
            assert(sd[z].0 == k);
        }
        assert forall|x: int, y: int| 0 <= x < y < sd.len() implies str_lt(
            (#[trigger] sd[x]).0,
            (#[trigger] sd[y]).0,
        ) by {
            assert(sd[x] == (out@[x].0@, out@[x].1@));
            assert(sd[y] == (out@[y].0@, out@[y].1@));
        }
    }
    out
}

/// The executed instances in strictly ascending order.
#[verifier::loop_isolation(false)]
fn sort_executed(ex: &Vec<Instance>) -> (out: Vec<Instance>)
    requires
        ex@.no_duplicates(),
    ensures
        exec_dump_ok(ex@.to_set(), out@),
{
    let ghost es = ex@.to_set();
    let mut out: Vec<Instance> = Vec::new();
    let mut rem = crate::store::copy_ins_vec(ex);
    while rem.len() > 0
        invariant
            forall|z: int| 0 <= z < out@.len() ==> es.contains(#[trigger] out@[z]),
            forall|q: int| 0 <= q < rem@.len() ==> es.contains(#[trigger] rem@[q]),
            forall|k: Instance|
                #[trigger] es.contains(k) ==> (exists|z: int|
                    0 <= z < out@.len() && #[trigger] out@[z] == k) || (exists|q: int|
                    0 <= q < rem@.len() && #[trigger] rem@[q] == k),
            forall|z: int, w: int|
                0 <= z < out@.len() && 0 <= w < rem@.len() ==> ins_lt(
                    #[trigger] out@[z],
                    #[trigger] rem@[w],
                ),
            forall|x: int, y: int|
                0 <= x < y < out@.len() ==> ins_lt(#[trigger] out@[x], #[trigger] out@[y]),
            forall|x: int, y: int|
                0 <= x < y < rem@.len() ==> #[trigger] rem@[x] != #[trigger] rem@[y],
        decreases rem@.len(),
    {
        let mut mi: usize = 0;
        let rl = rem.len();
        for q in 1..rl
            invariant
                rl == rem@.len(),
                rl > 0,
                mi < q,
                forall|w: int| 0 <= w < q ==> !ins_lt(#[trigger] rem@[w], rem@[mi as int]),
        {
            if rem[q].lt(&rem[mi]) {
                mi = q;
            }
        }
        let ghost rpre = rem@;
        let p = rem.remove(mi);
        let ghost opre = out@;
        out.push(p);
        proof {
            assert forall|z: int, w: int|
                0 <= z < out@.len() && 0 <= w < rem@.len() implies ins_lt(
                #[trigger] out@[z],
                #[trigger] rem@[w],
            ) by {
                let wp: int = if w < mi {
                    w
                } else {
                    w + 1
                };
                assert(rem@[w] == rpre[wp]);
                if z == out@.len() - 1 {
                    assert(!ins_lt(rpre[wp], p));
                    assert(rpre[wp] != p) by {
                        if wp != mi {
                            assert(rpre[mi as int] != rpre[wp]);
                        }
                    }
                }
            }
            assert forall|k: Instance| #[trigger] es.contains(k) implies (exists|z: int|
                0 <= z < out@.len() && #[trigger] out@[z] == k) || (exists|q: int|
                0 <= q < rem@.len() && #[trigger] rem@[q] == k) by {
                if exists|q: int| 0 <= q < rpre.len() && #[trigger] rpre[q] == k {
                    let q = choose|q: int| 0 <= q < rpre.len() && #[trigger] rpre[q] == k;
                    if q == mi {
                        assert(out@[out@.len() - 1] == k);
                    } else if q < mi {
                        assert(rem@[q] == k);
                    } else {
                        assert(rem@[q - 1] == k);
                    }
                } else {
                    let z = choose|z: int| 0 <= z < opre.len() && #[trigger] opre[z] == k;
                    assert(out@[z] == k);
                }
            }
            assert forall|x: int, y: int| 0 <= x < y < rem@.len() implies #[trigger] rem@[x]
                != #[trigger] rem@[y] by {
                let xp: int = if x < mi {
                    x
                } else {
                    x + 1
                };
                let yp: int = if y < mi {
                    y
                } else {
                    y + 1
                };
                assert(rem@[x] == rpre[xp] && rem@[y] == rpre[yp]);
            }
        }
    }
    out
}

/// Append one escaped, quoted string.
fn push_esc(s: &String, out: &mut Vec<char>)
    ensures
        final(out)@ == old(out)@ + dbg_esc(s@),
{
    let n = s.as_str().unicode_len();
    for i in 0..n
        invariant
            n == s@.len(),
            out@ == old(out)@ + dbg_esc(s@.take(i as int)),
    {
        let c = s.as_str().get_char(i);
        if c == '"' || c == '\\' {
            out.push('\\');
            out.push(c);
        } else if c == '\n' {
            out.push('\\');
            out.push('n');
        } else {
            out.push(c);
        }
        proof {
            assert(s@.take(i + 1).drop_last() =~= s@.take(i as int));
            assert(s@.take(i + 1).last() == s@[i as int]);
            assert(out@ =~= old(out)@ + dbg_esc(s@.take(i + 1)));
        }
    }
    proof {
        assert(s@.take(n as int) =~= s@);
    }
}

/// Append the whole log table: one row per replica id.
#[verifier::loop_isolation(false)]
#[verifier::rlimit(60)]
fn push_rows(cmds: &Vec<(Instance, LogEntry)>, n: u8, maxn: u64, out: &mut Vec<char>)
    requires
        ins_keys_unique(cmds@),
    ensures
        final(out)@ == old(out)@ + rows_upto(ins_map_of(cmds@), n as int, maxn),
{
    let ghost log = ins_map_of(cmds@);
    for idx in 0..(n as usize)
        invariant
            out@ == old(out)@ + rows_upto(log, idx as int, maxn),
    {
        let ghost rowpre = out@;
        let id = (idx + 1) as u8;
        push_str_chars("ID: ", out);
        let ghost numpre = out@;
        let mut digs: Vec<char> = Vec::new();
        push_u64_digits(id as u64, &mut digs);
        let dn = digs.len();
        for x in 0..dn
            invariant
                dn == digs@.len(),
                digs@ == u64_chars((idx + 1) as u64),
                out@ == numpre + digs@.take(x as int),
        {
            out.push(digs[x]);
            proof {
                assert(out@ =~= numpre + digs@.take(x + 1));
            }
        }
        proof {
            assert(digs@.take(dn as int) =~= digs@);
        }
        push_str_chars(" -> ", out);
        let ghost cellpre = out@;
        let mut c: u64 = 0;
        while c < maxn
            invariant
                c <= maxn,
                out@ == cellpre + cells_upto(log, (idx + 1) as u8, c as int),
            decreases maxn - c,
        {
            push_cell(cmds, id, c + 1, out);
            c = c + 1;
        }
        push_str_chars("\n", out);
        proof {
            assert(out@ =~= old(out)@ + rows_upto(log, idx + 1, maxn));
        }
    }
}

/// Append the sorted dictionary items, comma-separated.
#[verifier::loop_isolation(false)]
fn push_dict_items(sdv: &Vec<(String, String)>, out: &mut Vec<char>)
    ensures
        final(out)@ == old(out)@ + dict_items_upto(pairs_v(sdv@), sdv@.len() as int),
{
    let ghost sd = pairs_v(sdv@);
    proof {
        assert(forall|z: int| 0 <= z < sd.len() ==> #[trigger] sd[z] == (sdv@[z].0@, sdv@[z].1@));
    }
    let sn = sdv.len();
    for z in 0..sn
        invariant
            sn == sdv@.len(),
            sd == pairs_v(sdv@),
            out@ == old(out)@ + dict_items_upto(sd, z as int),
    {
        if z > 0 {
            push_str_chars(", ", out);
        }
        push_str_chars("(\"", out);
        push_esc(&sdv[z].0, out);
        push_str_chars("\", \"", out);
        push_esc(&sdv[z].1, out);
        push_str_chars("\")", out);
        proof {
            assert(sd[z as int] == (sdv@[z as int].0@, sdv@[z as int].1@));
            assert(out@ =~= old(out)@ + dict_items_upto(sd, z + 1));
        }
    }
}

/// Append the sorted executed instances, comma-separated.
#[verifier::loop_isolation(false)]
fn push_exec_items(sev: &Vec<Instance>, out: &mut Vec<char>)
    ensures
        final(out)@ == old(out)@ + exec_items_upto(sev@, sev@.len() as int),
{
    let ghost se = sev@;
    let en = sev.len();
    for z in 0..en
        invariant
            en == sev@.len(),
            out@ == old(out)@ + exec_items_upto(se, z as int),
    {
        if z > 0 {
            push_str_chars(", ", out);
        }
        push_str_chars("(", out);
        push_u64_digits(sev[z].replica as u64, out);
        push_str_chars(", ", out);
        push_u64_digits(sev[z].slot, out);
        push_str_chars(")", out);
        proof {
            assert(out@ =~= old(out)@ + exec_items_upto(se, z + 1));
        }
    }
}

impl ReplicaState {
    /// The full state dump: the command log as a table with one row per
    /// replica id and one column per slot up to the highest known, then the
    /// dictionary and the executed instances, each in ascending order.
    #[verifier::rlimit(60)]
    pub fn format_log(&self, n: u8) -> (r: String)
        requires
            self.wf(),
        ensures
            exists|maxn: u64, sd: Seq<(Seq<char>, Seq<char>)>, se: Seq<Instance>|
                max_slot_ok(self.log(), maxn) && dict_dump_ok(self.dict_v(), sd) && exec_dump_ok(
                    self.executed_set(),
                    se,
                ) && r@ == format_log_chars(n, self.log(), maxn, sd, se),
    {
        let ghost log = self.log();
        let maxn = max_slot(&self.cmds);
        let sdv = sort_dict(&self.dict);
        let sev = sort_executed(&self.executed);
        let ghost sd = pairs_v(sdv@);
        let ghost se = sev@;
        let mut out: Vec<char> = Vec::new();
        push_str_chars("BEGIN CMD LOG: --------------------------------------------\n", &mut out);
        push_rows(&self.cmds, n, maxn, &mut out);
        push_str_chars("END CMD LOG: ----------------------------------------------\n", &mut out);
        push_str_chars("Dict Status:\n", &mut out);
        push_str_chars("[", &mut out);
        push_dict_items(&sdv, &mut out);
        push_str_chars("]\n", &mut out);
        push_str_chars("\n", &mut out);
        push_str_chars("Executed command instances:\n", &mut out);
        push_str_chars("[", &mut out);
        push_exec_items(&sev, &mut out);
        push_str_chars("]\n", &mut out);
        proof {
            assert(out@ =~= format_log_chars(n, log, maxn, sd, se));
        }
        chars_to_string(&out)
    }
}

} // verus!
