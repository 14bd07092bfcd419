use vstd::prelude::*;
use vstd::string::{StrSliceExecFns, StringExecFns};

use crate::numeral::{parse_u8, parses_to_max, spec_dec, spec_hex, push_dec_u64, push_hex32};
use crate::snapshot::BinSet;

verus! {

/// The characters str::split_whitespace splits on: the Unicode white-space
/// code points.
pub open spec fn is_ws_char(c: char) -> bool {
    let u = c as u32;
    ||| u == 0x09
    ||| u == 0x0A
    ||| u == 0x0B
    ||| u == 0x0C
    ||| u == 0x0D
    ||| u == 0x20
    ||| u == 0x85
    ||| u == 0xA0
    ||| u == 0x1680
    ||| (0x2000 <= u && u <= 0x200A)
    ||| u == 0x2028
    ||| u == 0x2029
    ||| u == 0x202F
    ||| u == 0x205F
    ||| u == 0x3000
}

fn ws_char(c: char) -> (r: bool)
    ensures
        r == is_ws_char(c),
{
    let u: u32 = c as u32;
    u == 0x09 || u == 0x0A || u == 0x0B || u == 0x0C || u == 0x0D || u == 0x20 || u == 0x85
        || u == 0xA0 || u == 0x1680 || (0x2000 <= u && u <= 0x200A) || u == 0x2028 || u == 0x2029
        || u == 0x202F || u == 0x205F || u == 0x3000
}

/// The length of the leading run of non-white-space characters.
pub open spec fn token_len(s: Seq<char>) -> nat
    decreases s.len(),
{
    if s.len() == 0 || is_ws_char(s[0]) {
        0
    } else {
        1 + token_len(s.drop_first())
    }
}

proof fn lemma_token_len_le(s: Seq<char>)
    ensures
        token_len(s) <= s.len(),
    decreases s.len(),
{
    if s.len() > 0 && !is_ws_char(s[0]) {
        lemma_token_len_le(s.drop_first());
    }
}

/// A run of k non-white-space characters ended by white space or the end of
/// the sequence is exactly the leading token.
proof fn lemma_token_len_run(t: Seq<char>, k: int)
    requires
        0 <= k <= t.len(),
        forall|m: int| 0 <= m < k ==> !is_ws_char(#[trigger] t[m]),
        k == t.len() || is_ws_char(t[k]),
    ensures
        token_len(t) == k,
    decreases t.len(),
{
    if k > 0 {
        let d = t.drop_first();
        assert(forall|m: int| 0 <= m < k - 1 ==> !is_ws_char(#[trigger] d[m]));
        lemma_token_len_run(d, k - 1);
    }
}

/// What str::split_whitespace yields: the maximal runs of non-white-space
/// characters, in order, with all white space dropped.
pub open spec fn split_ws(s: Seq<char>) -> Seq<Seq<char>>
    decreases s.len(),
    via split_ws_decreases
{
    if s.len() == 0 {
        Seq::empty()
    } else if is_ws_char(s[0]) {
        split_ws(s.drop_first())
    } else {
        seq![s.take(token_len(s) as int)] + split_ws(s.skip(token_len(s) as int))
    }
}

#[via_fn]
proof fn split_ws_decreases(s: Seq<char>) {
    if s.len() > 0 && !is_ws_char(s[0]) {
        lemma_token_len_le(s);
    }
}

/// Splits a line into its white-space-separated tokens.
pub fn split_tokens(s: &str) -> (toks: Vec<String>)
    ensures
        toks@.map_values(|t: String| t@) == split_ws(s@),
{
    let n: usize = s.unicode_len();
    let mut toks: Vec<String> = Vec::new();
    let mut i: usize = 0;
    proof {
        assert(toks@.map_values(|t: String| t@) =~= Seq::<Seq<char>>::empty());
        assert(s@.skip(0) =~= s@);
        assert(split_ws(s@) =~= toks@.map_values(|t: String| t@) + split_ws(s@.skip(0)));
    }
    while i < n
        invariant
            i <= n,
            n == s@.len(),
            split_ws(s@) == toks@.map_values(|t: String| t@) + split_ws(s@.skip(i as int)),
        decreases n - i,
    {
        let c: char = s.get_char(i);
        if ws_char(c) {
            proof {
                let rest = s@.skip(i as int);
                assert(rest[0] == s@[i as int]);
                assert(rest.drop_first() =~= s@.skip(i + 1));
            }
            i = i + 1;
        } else {
            let mut j: usize = i + 1;
            while j < n && !ws_char(s.get_char(j))
                invariant
                    i < j <= n,
                    n == s@.len(),
                    !is_ws_char(s@[i as int]),
                    forall|m: int| i <= m < j ==> !is_ws_char(#[trigger] s@[m]),
                decreases n - j,
            {
                j = j + 1;
            }
            let tok: String = s.substring_char(i, j).to_owned();
            proof {
                let rest = s@.skip(i as int);
                assert forall|m: int| 0 <= m < j - i implies !is_ws_char(#[trigger] rest[m]) by {
                    assert(rest[m] == s@[i + m]);
                }
                if j < n {
                    assert(rest[j - i] == s@[j as int]);
                }
                lemma_token_len_run(rest, j - i);
                assert(rest.take(j - i) =~= s@.subrange(i as int, j as int));
                assert(rest.skip(j - i) =~= s@.skip(j as int));
                assert(rest[0] == s@[i as int]);
                assert(split_ws(rest) == seq![tok@] + split_ws(s@.skip(j as int)));
                assert((toks@.push(tok)).map_values(|t: String| t@) =~= toks@.map_values(
                    |t: String| t@,
                ).push(tok@));
                assert(toks@.map_values(|t: String| t@) + (seq![tok@] + split_ws(
                    s@.skip(j as int),
                )) =~= (toks@.push(tok)).map_values(|t: String| t@) + split_ws(s@.skip(j as int)));
            }
            toks.push(tok);
            i = j;
        }
    }
    proof {
        assert(s@.skip(n as int) =~= Seq::<char>::empty());
        assert(split_ws(s@) =~= toks@.map_values(|t: String| t@));
    }
    toks
}

/// Compares a candidate credential against the secret without an early exit
/// on content: the XOR of every character pair is OR-accumulated and tested
/// once at the end, so timing reveals nothing of where a mismatch lies.
/// Only a length mismatch returns at once.
pub fn constant_time_eq(secret: &str, candidate: &str) -> (r: bool)
    ensures
        r == (secret@ == candidate@),
{
    let n: usize = secret.unicode_len();
    if n != candidate.unicode_len() {
        proof {
            if secret@ == candidate@ {
                assert(secret@.len() == candidate@.len());
            }
        }
        return false;
    }
    let mut acc: u32 = 0;
    let mut i: usize = 0;
    while i < n
        invariant
            i <= n,
            n == secret@.len(),
            n == candidate@.len(),
            (acc == 0) <==> (forall|j: int| 0 <= j < i ==> secret@[j] == candidate@[j]),
        decreases n - i,
    {
        let x: u32 = secret.get_char(i) as u32;
        let y: u32 = candidate.get_char(i) as u32;
        let ghost oldacc = acc;
        acc = acc | (x ^ y);
        proof {
            assert(((x ^ y) == 0) == (x == y)) by (bit_vector);
            assert((((oldacc | (x ^ y)) == 0) == (oldacc == 0 && (x ^ y) == 0))) by (bit_vector);
            assert((secret@[i as int] == candidate@[i as int]) == (x == y));
        }
        i = i + 1;
    }
    proof {
        if acc == 0 {
            assert(secret@ =~= candidate@);
        }
    }
    acc == 0
}

/// One line of the serialized dump: timestamp, size, document count and
/// hex digest, space separated.
pub open spec fn spec_snapshot_line(b: BinSet) -> Seq<char> {
    spec_dec(b.timestamp as nat) + " "@ + spec_dec(b.size as nat) + " "@ + spec_dec(
        b.document_count as nat,
    ) + " "@ + spec_hex(b.data_hash@)
}

/// The serialized dump: one line per snapshot, newline separated.
pub open spec fn spec_dump_text(s: Seq<BinSet>) -> Seq<char>
    decreases s.len(),
{
    if s.len() == 0 {
        Seq::empty()
    } else if s.len() == 1 {
        spec_snapshot_line(s[0])
    } else {
        spec_dump_text(s.drop_last()) + "\n"@ + spec_snapshot_line(s.last())
    }
}

/// Serializes a snapshot dump as text, one snapshot per line.
pub fn render_dump(snaps: &Vec<BinSet>) -> (out: String)
    ensures
        out@ == spec_dump_text(snaps@),
{
    let mut out = String::new();
    proof {
        assert(out@ =~= spec_dump_text(snaps@.take(0)));
    }
    let mut i: usize = 0;
    while i < snaps.len()
        invariant
            i <= snaps@.len(),
            out@ == spec_dump_text(snaps@.take(i as int)),
        decreases snaps@.len() - i,
    {
        if i > 0 {
            out.append("\n");
        }
        let b: BinSet = snaps[i];
        push_dec_u64(&mut out, b.timestamp);
        out.append(" ");
        push_dec_u64(&mut out, b.size);
        out.append(" ");
        push_dec_u64(&mut out, b.document_count as u64);
        out.append(" ");
        push_hex32(&mut out, &b.data_hash);
        proof {
            let cur = snaps@.take(i + 1 as int);
            assert(cur.drop_last() =~= snaps@.take(i as int));
            assert(cur.last() == b);
            assert(cur[0] == snaps@[0]);
            if i == 0 {
                assert(cur.len() == 1);
                assert(out@ =~= spec_snapshot_line(b));
            } else {
                assert(out@ =~= spec_dump_text(cur.drop_last()) + "\n"@ + spec_snapshot_line(b));
            }
        }
        i = i + 1;
    }
    proof {
        assert(snaps@.take(snaps@.len() as int) =~= snaps@);
    }
    out
}

/// The reply the command protocol owes for one request line, given the
/// configured secret and the published snapshots: the error texts for an
/// empty or short line, too few tokens, or a failed authentication; then
/// the verb's reply, with unknown or undispatched verbs refused.
pub open spec fn spec_reply(secret: Seq<char>, snaps: Seq<BinSet>, line: Seq<char>) -> Seq<char> {
    if line.len() == 0 || line.len() < secret.len() {
        "INVALID Empty message not allowed"@
    } else {
        let toks = split_ws(line);
        if toks.len() < 2 {
            "Expected at least two arguments"@
        } else if toks[0] != secret {
            "Invalid Password"@
        } else if toks[1] == "URL"@ {
            if toks.len() == 2 {
                "test"@
            } else if !parses_to_max(toks[2], 255) {
                "INVALID week given"@
            } else {
                "INVALID request"@
            }
        } else if toks[1] == "BINRECORD"@ {
            spec_dump_text(snaps)
        } else {
            // JSONLATEST, JSONDATA and JSONRECORD belong to the excluded
            // collaborators; this core refuses them like an unknown verb.
            "INVALID request"@
        }
    }
}

/// Parses, authenticates and dispatches one request line against the given
/// secret and the published snapshots, returning the one-line reply.
pub fn msg_dispatch(secret: &str, snapshots: &Vec<BinSet>, value: &str) -> (r: String)
    ensures
        r@ == spec_reply(secret@, snapshots@, value@),
{
    if value.unicode_len() == 0 || value.unicode_len() < secret.unicode_len() {
        return "INVALID Empty message not allowed".to_owned();
    }
    let args: Vec<String> = split_tokens(value);
    let ghost toks = split_ws(value@);
    proof {
        assert(args@.map_values(|t: String| t@).len() == args@.len());
    }
    if args.len() < 2 {
        return "Expected at least two arguments".to_owned();
    }
    proof {
        assert(toks[0] == args@[0]@);
        assert(toks[1] == args@[1]@);
    }
    let authed: bool = constant_time_eq(secret, args[0].as_str());
    if !authed {
        return "Invalid Password".to_owned();
    }
    let url: String = "URL".to_owned();
    let binrecord: String = "BINRECORD".to_owned();
    if args[1] == url {
        if args.len() == 2 {
            return "test".to_owned();
        }
        proof {
            assert(toks[2] == args@[2]@);
        }
        match parse_u8(args[2].as_str()) {
            Some(_) => "INVALID request".to_owned(),
            None => "INVALID week given".to_owned(),
        }
    } else if args[1] == binrecord {
        render_dump(snapshots)
    } else {
        "INVALID request".to_owned()
    }
}

/// The little-endian bytes of n, least significant first.
pub open spec fn spec_le_bytes(n: nat, count: nat) -> Seq<u8>
    decreases count,
{
    if count == 0 {
        Seq::empty()
    } else {
        seq![(n % 256) as u8] + spec_le_bytes(n / 256, (count - 1) as nat)
    }
}

/// The keepalive pong payload: the given milliseconds timestamp encoded as
/// 16 little-endian bytes.
pub fn pong_payload(millis: u128) -> (v: Vec<u8>)
    ensures
        v@ == spec_le_bytes(millis as nat, 16),
{
    let mut v: Vec<u8> = Vec::new();
    let mut r: u128 = millis;
    let mut i: usize = 0;
    proof {
        assert(spec_le_bytes(millis as nat, 16) =~= v@ + spec_le_bytes(millis as nat, 16));
    }
    while i < 16
        invariant
            i <= 16,
            v@.len() == i,
            spec_le_bytes(millis as nat, 16) == v@ + spec_le_bytes(r as nat, (16 - i) as nat),
        decreases 16 - i,
    {
        let ghost oldv = v@;
        let ghost oldr = r as nat;
        let byte: u8 = (r % 256) as u8;
        v.push(byte);
        r = r / 256;
        proof {
            assert(spec_le_bytes(oldr, (16 - i) as nat) == seq![byte] + spec_le_bytes(
                r as nat,
                (16 - (i + 1)) as nat,
            ));
            assert(oldv + (seq![byte] + spec_le_bytes(r as nat, (16 - (i + 1)) as nat)) =~= v@
                + spec_le_bytes(r as nat, (16 - (i + 1)) as nat));
        }
        i = i + 1;
    }
    proof {
        assert(spec_le_bytes(r as nat, 0) =~= Seq::<u8>::empty());
        assert(v@ + Seq::<u8>::empty() =~= v@);
    }
    v
}

} // verus!
