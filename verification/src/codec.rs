//! The wire format of a collection snapshot, as the cache stores it.
//!
//! A snapshot is framed as: the record count as eight little-endian bytes,
//! then each record as four little-endian bytes holding the identifier in
//! two's complement, eight little-endian bytes holding the name's byte
//! length, and the name bytes themselves.  `encode` and `decode` are exact
//! inverses; `decode` rejects every byte sequence that is not the encoding
//! of some well-formed snapshot.

use vstd::arithmetic::div_mod::{lemma_fundamental_div_mod, lemma_fundamental_div_mod_converse};
use vstd::prelude::*;

use crate::snapshot::{Record, RecordV};

verus! {

/// `256^k`, the number of values that `k` bytes can carry.
pub open spec fn pow256(k: nat) -> nat
    decreases k,
{
    if k == 0 {
        1
    } else {
        256 * pow256((k - 1) as nat)
    }
}

/// The `k` little-endian bytes of `n` (high bits beyond `k` bytes are dropped).
pub open spec fn le_bytes(n: nat, k: nat) -> Seq<u8>
    decreases k,
{
    if k == 0 {
        Seq::empty()
    } else {
        seq![(n % 256) as u8] + le_bytes(n / 256, (k - 1) as nat)
    }
}

/// The value that a little-endian byte sequence denotes.
pub open spec fn le_val(b: Seq<u8>) -> nat
    decreases b.len(),
{
    if b.len() == 0 {
        0nat
    } else {
        b[0] as nat + 256 * le_val(b.skip(1))
    }
}

/// The four-byte two's-complement representation of a 32-bit identifier.
pub open spec fn rep_of_id(id: int) -> nat {
    if id >= 0 {
        id as nat
    } else {
        (id + 0x1_0000_0000) as nat
    }
}

/// The identifier a four-byte two's-complement representation denotes.
pub open spec fn id_of_rep(rep: nat) -> int {
    if rep < 0x8000_0000 {
        rep as int
    } else {
        rep - 0x1_0000_0000
    }
}

/// A record the wire format can carry: a 32-bit identifier and a name whose
/// byte length fits in eight bytes.
pub open spec fn wf_record(r: RecordV) -> bool {
    &&& -0x8000_0000 <= r.id < 0x8000_0000
    &&& r.name.len() < pow256(8)
}

/// A snapshot the wire format can carry.
pub open spec fn wf_snapshot(s: Seq<RecordV>) -> bool {
    &&& s.len() < pow256(8)
    &&& forall|i: int| 0 <= i < s.len() ==> wf_record(#[trigger] s[i])
}

/// The encoding of one record.
pub open spec fn enc_record(r: RecordV) -> Seq<u8> {
    le_bytes(rep_of_id(r.id), 4) + le_bytes(r.name.len(), 8) + r.name
}

/// The concatenated encodings of a sequence of records.
pub open spec fn enc_records(s: Seq<RecordV>) -> Seq<u8>
    decreases s.len(),
{
    if s.len() == 0 {
        Seq::empty()
    } else {
        enc_record(s[0]) + enc_records(s.skip(1))
    }
}

/// The encoding of a whole snapshot: count, then the records.
pub open spec fn encoded(s: Seq<RecordV>) -> Seq<u8> {
    le_bytes(s.len(), 8) + enc_records(s)
}

/// The parse of one record off the front of `b`, with the bytes left over.
pub open spec fn parse_record(b: Seq<u8>) -> Option<(RecordV, Seq<u8>)> {
    if b.len() < 12 {
        None
    } else {
        let rep = le_val(b.take(4));
        let nlen = le_val(b.subrange(4, 12));
        if b.len() - 12 < nlen {
            None
        } else {
            Some(
                (
                    RecordV { id: id_of_rep(rep), name: b.subrange(12, 12 + nlen as int) },
                    b.skip(12 + nlen as int),
                ),
            )
        }
    }
}

/// The parse of exactly `n` records, which must consume `b` entirely.
pub open spec fn parse_records(b: Seq<u8>, n: nat) -> Option<Seq<RecordV>>
    decreases n,
{
    if n == 0 {
        if b.len() == 0 {
            Some(Seq::empty())
        } else {
            None
        }
    } else {
        match parse_record(b) {
            Option::None => None,
            Option::Some((r, rest)) => match parse_records(rest, (n - 1) as nat) {
                Option::None => None,
                Option::Some(tail) => Some(seq![r] + tail),
            },
        }
    }
}

/// The parse of a whole snapshot: the mathematical model of [`decode`].
pub open spec fn parse(b: Seq<u8>) -> Option<Seq<RecordV>> {
    if b.len() < 8 {
        None
    } else {
        parse_records(b.skip(8), le_val(b.take(8)))
    }
}

proof fn lemma_pow256_increases(a: nat, b: nat)
    requires
        a <= b,
    ensures
        pow256(a) <= pow256(b),
        pow256(a) >= 1,
    decreases b,
{
    if b == 0 {
    } else if a == b {
        lemma_pow256_increases((a - 1) as nat, (b - 1) as nat);
    } else {
        lemma_pow256_increases(a, (b - 1) as nat);
    }
}

proof fn lemma_pow256_64()
    ensures
        pow256(4) == 0x1_0000_0000,
        pow256(8) == 0x1_0000_0000_0000_0000,
{
    reveal_with_fuel(pow256, 9);
}

proof fn lemma_le_bytes_len(n: nat, k: nat)
    ensures
        le_bytes(n, k).len() == k,
    decreases k,
{
    if k > 0 {
        lemma_le_bytes_len(n / 256, (k - 1) as nat);
    }
}

/// Reading back the bytes of `n` yields `n`.
proof fn lemma_le_val_of_le_bytes(n: nat, k: nat)
    requires
        n < pow256(k),
    ensures
        le_val(le_bytes(n, k)) == n,
    decreases k,
{
    if k == 0 {
    } else {
        lemma_fundamental_div_mod(n as int, 256);
        assert(n / 256 < pow256((k - 1) as nat)) by {
            lemma_fundamental_div_mod(n as int, 256);
            assert(n == 256 * (n / 256) + n % 256);
            assert(n < 256 * pow256((k - 1) as nat));
            assert(256 * (n / 256) <= n);
            assert(n / 256 < pow256((k - 1) as nat)) by (nonlinear_arith)
                requires
                    256 * (n / 256) <= n,
                    n < 256 * pow256((k - 1) as nat),
            ;
        };
        lemma_le_val_of_le_bytes(n / 256, (k - 1) as nat);
        let whole = le_bytes(n, k);
        assert(whole.skip(1) =~= le_bytes(n / 256, (k - 1) as nat));
        assert(whole[0] == (n % 256) as u8);
        assert(le_val(whole) == n % 256 + 256 * (n / 256));
    }
}

/// A byte sequence denotes a value below `256^len`, whose bytes are itself.
proof fn lemma_le_bytes_of_le_val(b: Seq<u8>)
    ensures
        le_val(b) < pow256(b.len()),
        le_bytes(le_val(b), b.len()) =~= b,
    decreases b.len(),
{
    if b.len() == 0 {
    } else {
        lemma_le_bytes_of_le_val(b.skip(1));
        let v = le_val(b.skip(1));
        let b0 = b[0] as nat;
        assert(le_val(b) == b0 + 256 * v);
        assert(b0 + 256 * v < 256 * pow256((b.len() - 1) as nat)) by (nonlinear_arith)
            requires
                b0 < 256,
                v < pow256((b.len() - 1) as nat),
        ;
        lemma_fundamental_div_mod_converse((b0 + 256 * v) as int, 256, v as int, b0 as int);
        assert((b0 + 256 * v) % 256 == b0);
        assert((b0 + 256 * v) / 256 == v);
        assert(le_bytes(le_val(b), b.len()) =~= seq![(b0 % 256) as u8] + le_bytes(
            v,
            (b.len() - 1) as nat,
        ));
    }
}

/// Identifier representation and its reading are inverses, both ways round.
proof fn lemma_id_rep_roundtrip(id: int, rep: nat)
    ensures
        -0x8000_0000 <= id < 0x8000_0000 ==> rep_of_id(id) < 0x1_0000_0000 && id_of_rep(
            rep_of_id(id),
        ) == id,
        rep < 0x1_0000_0000 ==> -0x8000_0000 <= id_of_rep(rep) < 0x8000_0000 && rep_of_id(
            id_of_rep(rep),
        ) == rep,
{
}

/// Round-trip at the record level: parsing an encoded record, with anything
/// appended, yields the record and the appended bytes.
proof fn lemma_parse_record_of_enc(r: RecordV, rest: Seq<u8>)
    requires
        wf_record(r),
    ensures
        parse_record(enc_record(r) + rest) == Some((r, rest)),
{
    let b = enc_record(r) + rest;
    lemma_pow256_64();
    lemma_le_bytes_len(rep_of_id(r.id), 4);
    lemma_le_bytes_len(r.name.len(), 8);
    assert(b.take(4) =~= le_bytes(rep_of_id(r.id), 4));
    assert(b.subrange(4, 12) =~= le_bytes(r.name.len(), 8));
    lemma_id_rep_roundtrip(r.id, 0);
    lemma_le_val_of_le_bytes(rep_of_id(r.id), 4);
    lemma_le_val_of_le_bytes(r.name.len(), 8);
    assert(b.subrange(12, 12 + r.name.len() as int) =~= r.name);
    assert(b.skip(12 + r.name.len() as int) =~= rest);
    let parsed = parse_record(b).unwrap();
    assert(parsed.0 =~= r);
}

proof fn lemma_parse_records_of_enc(s: Seq<RecordV>)
    requires
        wf_snapshot(s),
    ensures
        parse_records(enc_records(s), s.len()) == Some(s),
    decreases s.len(),
{
    if s.len() == 0 {
        assert(enc_records(s).len() == 0);
    } else {
        let tail = s.skip(1);
        assert(wf_snapshot(tail)) by {
            lemma_pow256_64();
            assert(forall|i: int| 0 <= i < tail.len() ==> #[trigger] tail[i] == s[i + 1]);
        };
        lemma_parse_record_of_enc(s[0], enc_records(tail));
        lemma_parse_records_of_enc(tail);
        assert(seq![s[0]] + tail =~= s);
    }
}

/// The round-trip law: the encoding of any well-formed snapshot parses back
/// to exactly that snapshot.  Together with the contract of [`decode`] this
/// says `decode(encode(s)) == Some(s)`, and that `encoded` is injective on
/// well-formed snapshots.
pub proof fn lemma_parse_of_encoded(s: Seq<RecordV>)
    requires
        wf_snapshot(s),
    ensures
        parse(encoded(s)) == Some(s),
{
    let b = encoded(s);
    lemma_le_bytes_len(s.len(), 8);
    assert(b.take(8) =~= le_bytes(s.len(), 8));
    assert(b.skip(8) =~= enc_records(s));
    lemma_le_val_of_le_bytes(s.len(), 8);
    lemma_parse_records_of_enc(s);
}

proof fn lemma_parse_records_sound(b: Seq<u8>, n: nat)
    requires
        parse_records(b, n) is Some,
    ensures
        ({
            let s = parse_records(b, n).unwrap();
            &&& s.len() == n
            &&& forall|i: int| 0 <= i < s.len() ==> wf_record(#[trigger] s[i])
            &&& enc_records(s) == b
        }),
    decreases n,
{
    if n == 0 {
        assert(enc_records(parse_records(b, n).unwrap()) =~= b);
    } else {
        let (r, rest) = parse_record(b).unwrap();
        let rep = le_val(b.take(4));
        let nlen = le_val(b.subrange(4, 12));
        lemma_pow256_64();
        lemma_le_bytes_of_le_val(b.take(4));
        lemma_le_bytes_of_le_val(b.subrange(4, 12));
        lemma_id_rep_roundtrip(0, rep);
        assert(wf_record(r));
        lemma_parse_records_sound(rest, (n - 1) as nat);
        let tail = parse_records(rest, (n - 1) as nat).unwrap();
        let s = parse_records(b, n).unwrap();
        assert(s == seq![r] + tail);
        assert(s.len() == n);
        assert(forall|i: int| 0 <= i < tail.len() ==> #[trigger] tail[i] == s[i + 1]);
        assert(forall|i: int| 0 <= i < s.len() ==> wf_record(#[trigger] s[i]));
        assert(enc_record(r) =~= b.take(12 + nlen as int)) by {
            assert(le_bytes(rep_of_id(r.id), 4) =~= b.take(4));
            assert(le_bytes(r.name.len(), 8) =~= b.subrange(4, 12));
        };
        assert(s[0] == r);
        assert(s.skip(1) =~= tail);
        assert(enc_records(s) == enc_record(r) + enc_records(tail));
        assert(enc_records(s) =~= b);
    }
}

/// Soundness of the parse: whatever parses is a well-formed snapshot whose
/// encoding is exactly the input bytes.
pub proof fn lemma_parse_sound(b: Seq<u8>)
    requires
        parse(b) is Some,
    ensures
        wf_snapshot(parse(b).unwrap()),
        encoded(parse(b).unwrap()) == b,
{
    let n = le_val(b.take(8));
    lemma_le_bytes_of_le_val(b.take(8));
    lemma_parse_records_sound(b.skip(8), n);
    let s = parse(b).unwrap();
    assert(le_bytes(s.len(), 8) =~= b.take(8));
    assert(encoded(s) =~= b);
}

/// Appends the `k` little-endian bytes of `n` to `out`.
fn push_le(out: &mut Vec<u8>, n: u64, k: usize)
    ensures
        final(out)@ == old(out)@ + le_bytes(n as nat, k as nat),
{
    let ghost base = out@;
    let mut x: u64 = n;
    let mut t: usize = 0;
    while t < k
        invariant
            t <= k,
            out@.len() == base.len() + t,
            le_bytes(n as nat, k as nat) =~= out@.skip(base.len() as int) + le_bytes(
                x as nat,
                (k - t) as nat,
            ),
            base =~= out@.take(base.len() as int),
        decreases k - t,
    {
        out.push((x % 256) as u8);
        x = x / 256;
        t = t + 1;
    }
    assert(out@ =~= base + le_bytes(n as nat, k as nat));
}

/// Reads the value of the `k <= 8` little-endian bytes of `b` at `i`.
fn read_le(b: &Vec<u8>, i: usize, k: usize) -> (r: u64)
    requires
        i + k <= b@.len(),
        k <= 8,
    ensures
        r as nat == le_val(b@.subrange(i as int, i as int + k as int)),
{
    let ghost sub = b@.subrange(i as int, i as int + k as int);
    let blen: usize = b.len();
    let mut r: u64 = 0;
    let mut t: usize = k;
    proof {
        assert(sub.skip(k as int) =~= Seq::<u8>::empty());
    }
    while t > 0
        invariant
            t <= k,
            k <= 8,
            i + k <= b@.len(),
            b@.len() == blen,
            sub == b@.subrange(i as int, i as int + k as int),
            r as nat == le_val(sub.skip(t as int)),
            (r as nat) < pow256((k - t) as nat),
        decreases t,
    {
        proof {
            lemma_pow256_increases((k - t) as nat, 7);
            reveal_with_fuel(pow256, 9);
            assert(sub.skip(t as int - 1).skip(1) =~= sub.skip(t as int));
            assert(sub.skip(t as int - 1)[0] == sub[t as int - 1]);
        }
        t = t - 1;
        r = r * 256 + b[i + t] as u64;
        proof {
            assert(sub[t as int] == b@[i as int + t as int]);
        }
    }
    proof {
        assert(sub.skip(0) =~= sub);
    }
    r
}

/// Encodes a snapshot into the wire format.
///
/// Every actual `Vec<Record>` is a well-formed snapshot, so the result is
/// always the exact encoding of the input's view.
pub fn encode(records: &Vec<Record>) -> (out: Vec<u8>)
    ensures
        wf_snapshot(records.deep_view()),
        out@ == encoded(records.deep_view()),
{
    let ghost s = records.deep_view();
    proof {
        lemma_pow256_64();
        assert(s.len() == records@.len());
        assert(forall|i: int| 0 <= i < s.len() ==> #[trigger] s[i] == records@[i].deep_view());
    }
    let n = records.len();
    let mut out: Vec<u8> = Vec::new();
    push_le(&mut out, n as u64, 8);
    let mut j: usize = 0;
    while j < records.len()
        invariant
            j <= records@.len(),
            records@.len() == s.len(),
            s == records.deep_view(),
            wf_snapshot(s.take(j as int)),
            forall|i: int| 0 <= i < s.len() ==> #[trigger] s[i] == records@[i].deep_view(),
            out@ == le_bytes(s.len(), 8) + enc_records(s.take(j as int)),
        decreases records@.len() - j,
    {
        let ghost before = out@;
        let r = &records[j];
        let rep: u64 = if r.id >= 0 {
            r.id as u64
        } else {
            ((r.id as i64) + 0x1_0000_0000i64) as u64
        };
        proof {
            lemma_pow256_64();
            assert(rep as nat == rep_of_id(s[j as int].id));
        }
        push_le(&mut out, rep, 4);
        push_le(&mut out, r.name.len() as u64, 8);
        let mut t: usize = 0;
        let ghost mid = out@;
        while t < r.name.len()
            invariant
                t <= r.name@.len(),
                out@ == mid + r.name@.take(t as int),
                r == records@[j as int],
                j < records@.len(),
            decreases r.name@.len() - t,
        {
            out.push(r.name[t]);
            proof {
                assert(r.name@.take(t as int + 1) =~= r.name@.take(t as int).push(
                    r.name@[t as int],
                ));
            }
            t = t + 1;
        }
        proof {
            lemma_pow256_64();
            assert(r.name@.take(r.name@.len() as int) =~= r.name@);
            assert(out@ =~= before + enc_record(s[j as int]));
            lemma_enc_records_snoc(s.take(j as int), s[j as int]);
            assert(s.take(j as int).push(s[j as int]) =~= s.take(j as int + 1));
            assert(out@ =~= le_bytes(s.len(), 8) + enc_records(s.take(j as int + 1)));
            assert(wf_record(s[j as int]));
        }
        j = j + 1;
    }
    proof {
        assert(s.take(s.len() as int) =~= s);
    }
    out
}

proof fn lemma_enc_records_snoc(s: Seq<RecordV>, r: RecordV)
    ensures
        enc_records(s.push(r)) == enc_records(s) + enc_record(r),
    decreases s.len(),
{
    let whole = s.push(r);
    if s.len() == 0 {
        assert(enc_records(Seq::<RecordV>::empty()) == Seq::<u8>::empty());
        assert(whole.skip(1) =~= Seq::<RecordV>::empty());
        assert(whole[0] == r);
        assert(enc_records(whole) =~= enc_record(r) + Seq::<u8>::empty());
        assert(enc_record(r) + Seq::<u8>::empty() =~= enc_record(r));
        assert(enc_records(s) + enc_record(r) =~= enc_record(r));
    } else {
        lemma_enc_records_snoc(s.skip(1), r);
        assert(whole.skip(1) =~= s.skip(1).push(r));
        assert(whole[0] == s[0]);
        assert(enc_records(whole) == enc_record(s[0]) + enc_records(s.skip(1).push(r)));
        assert(enc_records(whole) =~= enc_records(s) + enc_record(r));
    }
}

/// Prepends a parsed prefix to the outcome of parsing the remainder.
pub open spec fn opt_prepend(pre: Seq<RecordV>, o: Option<Seq<RecordV>>) -> Option<Seq<RecordV>> {
    match o {
        Option::Some(tail) => Some(pre + tail),
        Option::None => None,
    }
}

/// Decodes wire-format bytes back into a snapshot.
///
/// Returns `Some` exactly on the byte sequences that are the encoding of a
/// well-formed snapshot, and then returns that snapshot; every other input
/// is rejected with `None`.
pub fn decode(b: &Vec<u8>) -> (r: Option<Vec<Record>>)
    ensures
        match r {
            Option::Some(v) => parse(b@) == Some(v.deep_view()),
            Option::None => parse(b@) is None,
        },
{
    proof {
        lemma_pow256_64();
    }
    if b.len() < 8 {
        return None;
    }
    let count = read_le(b, 0, 8);
    proof {
        assert(b@.subrange(0, 8) =~= b@.take(8));
    }
    let mut out: Vec<Record> = Vec::new();
    let mut i: usize = 8;
    let mut j: u64 = 0;
    proof {
        assert(out.deep_view() =~= Seq::<RecordV>::empty());
        assert(opt_prepend(out.deep_view(), parse_records(b@.skip(8), count as nat)) == parse(b@));
    }
    while j < count
        invariant
            8 <= i <= b@.len(),
            b@.len() <= usize::MAX,
            j <= count,
            parse(b@) == opt_prepend(
                out.deep_view(),
                parse_records(b@.skip(i as int), (count - j) as nat),
            ),
        decreases count - j,
    {
        let ghost pre = out.deep_view();
        let ghost remaining = b@.skip(i as int);
        let ghost n_left = (count - j) as nat;
        if b.len() - i < 12 {
            proof {
                assert(remaining.len() < 12);
            }
            return None;
        }
        let rep = read_le(b, i, 4);
        let nlen64 = read_le(b, i + 4, 8);
        proof {
            assert(remaining.take(4) =~= b@.subrange(i as int, i as int + 4));
            assert(remaining.subrange(4, 12) =~= b@.subrange(i as int + 4, i as int + 12));
            lemma_le_bytes_of_le_val(remaining.take(4));
            lemma_le_bytes_of_le_val(remaining.subrange(4, 12));
            lemma_pow256_64();
        }
        let rem: usize = b.len() - (i + 12);
        if nlen64 > rem as u64 {
            proof {
                assert(remaining.len() - 12 < le_val(remaining.subrange(4, 12)));
            }
            return None;
        }
        let nlen: usize = nlen64 as usize;
        let mut name: Vec<u8> = Vec::new();
        let mut t: usize = 0;
        while t < nlen
            invariant
                t <= nlen,
                i + 12 + nlen <= b@.len(),
                b@.len() <= usize::MAX,
                name@ == b@.subrange(i as int + 12, i as int + 12 + t as int),
            decreases nlen - t,
        {
            name.push(b[i + 12 + t]);
            proof {
                assert(b@.subrange(i as int + 12, i as int + 12 + t as int + 1) =~= b@.subrange(
                    i as int + 12,
                    i as int + 12 + t as int,
                ).push(b@[i as int + 12 + t as int]));
            }
            t = t + 1;
        }
        let id: i32 = if rep < 0x8000_0000 {
            rep as i32
        } else {
            ((rep as i64) - 0x1_0000_0000i64) as i32
        };
        let ghost parsed = parse_record(remaining).unwrap();
        proof {
            lemma_id_rep_roundtrip(0, rep as nat);
            assert(remaining.subrange(12, 12 + nlen as int) =~= b@.subrange(
                i as int + 12,
                i as int + 12 + nlen as int,
            ));
            assert(parsed.0 =~= (RecordV { id: id as int, name: name@ }));
            assert(parsed.1 =~= b@.skip(i as int + 12 + nlen as int));
        }
        out.push(Record { id, name });
        proof {
            assert(out.deep_view() =~= pre.push(parsed.0));
            let tail_opt = parse_records(parsed.1, (n_left - 1) as nat);
            assert(parse_records(remaining, n_left) == match tail_opt {
                Option::Some(tail) => Some(seq![parsed.0] + tail),
                Option::None => None::<Seq<RecordV>>,
            });
            if tail_opt is Some {
                assert(pre + (seq![parsed.0] + tail_opt.unwrap()) =~= pre.push(parsed.0)
                    + tail_opt.unwrap());
            }
        }
        i = i + 12 + nlen;
        j = j + 1;
    }
    if i != b.len() {
        proof {
            assert(b@.skip(i as int).len() != 0);
        }
        return None;
    }
    proof {
        assert(b@.skip(i as int) =~= Seq::<u8>::empty());
        assert(out.deep_view() + Seq::<RecordV>::empty() =~= out.deep_view());
    }
    Some(out)
}

} // verus!
