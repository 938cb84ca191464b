//! The persisted layout of a Transform record: in order, the initialization
//! flag, the metadata block, the input mapping and the output mapping. Each
//! variable-length part carries a 32-bit little-endian length prefix; asset
//! addresses are 32 raw bytes and amounts 64-bit little-endian. Decoding
//! reads a prefix of the buffer and leaves trailing bytes unread, as stored
//! records live in fixed-size locations.

use vstd::prelude::*;

use crate::error::TransformError;
use crate::state::{
    bytes_lt, entries_sorted, entries_wf, lex_lt, record_wf, tokens_view, Address, Token, TokenV,
    Transform, TransformMetadata, TransformV,
};

verus! {

// ---------------------------------------------------------------------------
// The encoding, as a spec-level function of the record's value.
// ---------------------------------------------------------------------------

pub open spec fn bool_byte(b: bool) -> u8 {
    if b {
        1u8
    } else {
        0u8
    }
}

pub open spec fn u32_le(n: u32) -> Seq<u8> {
    seq![
        (n & 0xff) as u8,
        ((n >> 8) & 0xff) as u8,
        ((n >> 16) & 0xff) as u8,
        ((n >> 24) & 0xff) as u8,
    ]
}

pub open spec fn u64_le(n: u64) -> Seq<u8> {
    seq![
        (n & 0xff) as u8,
        ((n >> 8) & 0xff) as u8,
        ((n >> 16) & 0xff) as u8,
        ((n >> 24) & 0xff) as u8,
        ((n >> 32) & 0xff) as u8,
        ((n >> 40) & 0xff) as u8,
        ((n >> 48) & 0xff) as u8,
        ((n >> 56) & 0xff) as u8,
    ]
}

/// A length-prefixed byte string.
pub open spec fn enc_bytes(b: Seq<u8>) -> Seq<u8> {
    u32_le(b.len() as u32) + b
}

/// One mapping entry: the 32 address bytes, then the amount.
pub open spec fn enc_entry(t: TokenV) -> Seq<u8> {
    t.address + u64_le(t.amount)
}

pub open spec fn enc_entries(s: Seq<TokenV>) -> Seq<u8>
    decreases s.len(),
{
    if s.len() == 0 {
        Seq::empty()
    } else {
        enc_entry(s[0]) + enc_entries(s.skip(1))
    }
}

/// A mapping: an entry count, then the entries in ascending address order.
pub open spec fn enc_map(s: Seq<TokenV>) -> Seq<u8> {
    u32_le(s.len() as u32) + enc_entries(s)
}

pub open spec fn spec_encode(t: TransformV) -> Seq<u8> {
    seq![bool_byte(t.initialized)] + enc_bytes(t.name) + enc_map(t.inputs) + enc_map(t.outputs)
}

// ---------------------------------------------------------------------------
// The decoding, as spec-level parsers that return the value and the rest.
// ---------------------------------------------------------------------------

pub open spec fn u32_of(b0: u8, b1: u8, b2: u8, b3: u8) -> u32 {
    (b0 as u32) | ((b1 as u32) << 8) | ((b2 as u32) << 16) | ((b3 as u32) << 24)
}

pub open spec fn u64_of(b0: u8, b1: u8, b2: u8, b3: u8, b4: u8, b5: u8, b6: u8, b7: u8) -> u64 {
    (b0 as u64) | ((b1 as u64) << 8) | ((b2 as u64) << 16) | ((b3 as u64) << 24)
        | ((b4 as u64) << 32) | ((b5 as u64) << 40) | ((b6 as u64) << 48) | ((b7 as u64) << 56)
}

/// A flag byte must be exactly 0 or 1.
pub open spec fn parse_bool(s: Seq<u8>) -> Option<(bool, Seq<u8>)> {
    if s.len() >= 1 {
        if s[0] == 0 {
            Some((false, s.skip(1)))
        } else if s[0] == 1 {
            Some((true, s.skip(1)))
        } else {
            None
        }
    } else {
        None
    }
}

pub open spec fn parse_u32(s: Seq<u8>) -> Option<(u32, Seq<u8>)> {
    if s.len() >= 4 {
        Some((u32_of(s[0], s[1], s[2], s[3]), s.skip(4)))
    } else {
        None
    }
}

pub open spec fn parse_u64(s: Seq<u8>) -> Option<(u64, Seq<u8>)> {
    if s.len() >= 8 {
        Some((u64_of(s[0], s[1], s[2], s[3], s[4], s[5], s[6], s[7]), s.skip(8)))
    } else {
        None
    }
}

pub open spec fn parse_bytes(s: Seq<u8>) -> Option<(Seq<u8>, Seq<u8>)> {
    match parse_u32(s) {
        None => None,
        Some((n, r)) => if r.len() >= n {
            Some((r.take(n as int), r.skip(n as int)))
        } else {
            None
        },
    }
}

pub open spec fn parse_entry(s: Seq<u8>) -> Option<(TokenV, Seq<u8>)> {
    if s.len() >= 32 {
        match parse_u64(s.skip(32)) {
            None => None,
            Some((amt, r)) => Some((TokenV { address: s.take(32), amount: amt }, r)),
        }
    } else {
        None
    }
}

pub open spec fn parse_entries(s: Seq<u8>, n: nat) -> Option<(Seq<TokenV>, Seq<u8>)>
    decreases n,
{
    if n == 0 {
        Some((Seq::empty(), s))
    } else {
        match parse_entry(s) {
            None => None,
            Some((t, r)) => match parse_entries(r, (n - 1) as nat) {
                None => None,
                Some((ts, r2)) => Some((seq![t] + ts, r2)),
            },
        }
    }
}

/// A mapping parses only when its entries are strictly ascending by address:
/// the stored form of a mapping is canonical.
pub open spec fn parse_map(s: Seq<u8>) -> Option<(Seq<TokenV>, Seq<u8>)> {
    match parse_u32(s) {
        None => None,
        Some((n, r)) => match parse_entries(r, n as nat) {
            None => None,
            Some((ts, r2)) => if entries_sorted(ts) {
                Some((ts, r2))
            } else {
                None
            },
        },
    }
}

pub open spec fn spec_decode(s: Seq<u8>) -> Option<TransformV> {
    match parse_bool(s) {
        None => None,
        Some((init, r1)) => match parse_bytes(r1) {
            None => None,
            Some((name, r2)) => match parse_map(r2) {
                None => None,
                Some((ins, r3)) => match parse_map(r3) {
                    None => None,
                    Some((outs, _r4)) => Some(
                        TransformV { initialized: init, name, inputs: ins, outputs: outs },
                    ),
                },
            },
        },
    }
}

// ---------------------------------------------------------------------------
// Round trip: decoding an encoded well-formed record yields it back.
// ---------------------------------------------------------------------------

proof fn lemma_u32_recompose(n: u32)
    ensures
        u32_of(
            (n & 0xff) as u8,
            ((n >> 8) & 0xff) as u8,
            ((n >> 16) & 0xff) as u8,
            ((n >> 24) & 0xff) as u8,
        ) == n,
{
    assert((((n & 0xff) as u8) as u32) | (((((n >> 8) & 0xff) as u8) as u32) << 8)
        | (((((n >> 16) & 0xff) as u8) as u32) << 16)
        | (((((n >> 24) & 0xff) as u8) as u32) << 24) == n) by (bit_vector);
}

proof fn lemma_u64_recompose(n: u64)
    ensures
        u64_of(
            (n & 0xff) as u8,
            ((n >> 8) & 0xff) as u8,
            ((n >> 16) & 0xff) as u8,
            ((n >> 24) & 0xff) as u8,
            ((n >> 32) & 0xff) as u8,
            ((n >> 40) & 0xff) as u8,
            ((n >> 48) & 0xff) as u8,
            ((n >> 56) & 0xff) as u8,
        ) == n,
{
    assert((((n & 0xff) as u8) as u64) | (((((n >> 8) & 0xff) as u8) as u64) << 8)
        | (((((n >> 16) & 0xff) as u8) as u64) << 16)
        | (((((n >> 24) & 0xff) as u8) as u64) << 24)
        | (((((n >> 32) & 0xff) as u8) as u64) << 32)
        | (((((n >> 40) & 0xff) as u8) as u64) << 40)
        | (((((n >> 48) & 0xff) as u8) as u64) << 48)
        | (((((n >> 56) & 0xff) as u8) as u64) << 56) == n) by (bit_vector);
}

proof fn lemma_parse_u32_enc(n: u32, rest: Seq<u8>)
    ensures
        parse_u32(u32_le(n) + rest) == Some((n, rest)),
{
    let s = u32_le(n) + rest;
    assert(s.len() == 4 + rest.len());
    assert(s[0] == (n & 0xff) as u8);
    assert(s[1] == ((n >> 8) & 0xff) as u8);
    assert(s[2] == ((n >> 16) & 0xff) as u8);
    assert(s[3] == ((n >> 24) & 0xff) as u8);
    lemma_u32_recompose(n);
    assert(s.skip(4) =~= rest);
}

proof fn lemma_parse_u64_enc(n: u64, rest: Seq<u8>)
    ensures
        parse_u64(u64_le(n) + rest) == Some((n, rest)),
{
    let s = u64_le(n) + rest;
    assert(s.len() == 8 + rest.len());
    assert(s[0] == (n & 0xff) as u8);
    assert(s[1] == ((n >> 8) & 0xff) as u8);
    assert(s[2] == ((n >> 16) & 0xff) as u8);
    assert(s[3] == ((n >> 24) & 0xff) as u8);
    assert(s[4] == ((n >> 32) & 0xff) as u8);
    assert(s[5] == ((n >> 40) & 0xff) as u8);
    assert(s[6] == ((n >> 48) & 0xff) as u8);
    assert(s[7] == ((n >> 56) & 0xff) as u8);
    lemma_u64_recompose(n);
    assert(s.skip(8) =~= rest);
}

proof fn lemma_parse_bytes_enc(b: Seq<u8>, rest: Seq<u8>)
    requires
        b.len() < 0x1_0000_0000,
    ensures
        parse_bytes(enc_bytes(b) + rest) == Some((b, rest)),
{
    let n = b.len() as u32;
    assert(enc_bytes(b) + rest =~= u32_le(n) + (b + rest));
    lemma_parse_u32_enc(n, b + rest);
    assert(n as int == b.len());
    assert((b + rest).take(n as int) =~= b);
    assert((b + rest).skip(n as int) =~= rest);
}

proof fn lemma_parse_entry_enc(t: TokenV, rest: Seq<u8>)
    requires
        t.address.len() == 32,
    ensures
        parse_entry(enc_entry(t) + rest) == Some((t, rest)),
{
    let s = enc_entry(t) + rest;
    assert(s.len() >= 32);
    assert(s.take(32) =~= t.address);
    assert(s.skip(32) =~= u64_le(t.amount) + rest);
    lemma_parse_u64_enc(t.amount, rest);
    assert(TokenV { address: s.take(32), amount: t.amount } =~= t);
}

proof fn lemma_parse_entries_enc(s: Seq<TokenV>, rest: Seq<u8>)
    requires
        forall|i: int| 0 <= i < s.len() ==> (#[trigger] s[i]).address.len() == 32,
    ensures
        parse_entries(enc_entries(s) + rest, s.len() as nat) == Some((s, rest)),
    decreases s.len(),
{
    if s.len() == 0 {
        assert(enc_entries(s) + rest =~= rest);
        assert(s =~= Seq::<TokenV>::empty());
    } else {
        let tail = s.skip(1);
        assert(enc_entries(s) + rest =~= enc_entry(s[0]) + (enc_entries(tail) + rest));
        lemma_parse_entry_enc(s[0], enc_entries(tail) + rest);
        lemma_parse_entries_enc(tail, rest);
        assert(seq![s[0]] + tail =~= s);
    }
}

proof fn lemma_parse_map_enc(s: Seq<TokenV>, rest: Seq<u8>)
    requires
        entries_wf(s),
        s.len() < 0x1_0000_0000,
    ensures
        parse_map(enc_map(s) + rest) == Some((s, rest)),
{
    let n = s.len() as u32;
    assert(enc_map(s) + rest =~= u32_le(n) + (enc_entries(s) + rest));
    lemma_parse_u32_enc(n, enc_entries(s) + rest);
    assert(n as nat == s.len());
    lemma_parse_entries_enc(s, rest);
}

/// Round trip: for every well-formed record value, decoding its encoding
/// yields exactly that record.
pub proof fn lemma_round_trip(t: TransformV)
    requires
        record_wf(t),
    ensures
        spec_decode(spec_encode(t)) == Some(t),
{
    let s = spec_encode(t);
    let r1 = enc_bytes(t.name) + (enc_map(t.inputs) + enc_map(t.outputs));
    assert(s.len() >= 1);
    assert(s[0] == bool_byte(t.initialized));
    assert(s.skip(1) =~= r1);
    assert(parse_bool(s) == Some((t.initialized, r1)));
    lemma_parse_bytes_enc(t.name, enc_map(t.inputs) + enc_map(t.outputs));
    lemma_parse_map_enc(t.inputs, enc_map(t.outputs));
    lemma_parse_map_enc(t.outputs, Seq::empty());
    assert(enc_map(t.outputs) + Seq::empty() =~= enc_map(t.outputs));
    assert(TransformV {
        initialized: t.initialized,
        name: t.name,
        inputs: t.inputs,
        outputs: t.outputs,
    } =~= t);
}

// ---------------------------------------------------------------------------
// Executable encoding.
// ---------------------------------------------------------------------------

fn push_u32_le(out: &mut Vec<u8>, n: u32)
    ensures
        final(out)@ == old(out)@ + u32_le(n),
{
    out.push((n & 0xff) as u8);
    out.push(((n >> 8) & 0xff) as u8);
    out.push(((n >> 16) & 0xff) as u8);
    out.push(((n >> 24) & 0xff) as u8);
    proof {
        assert(out@ =~= old(out)@ + u32_le(n));
    }
}

fn push_u64_le(out: &mut Vec<u8>, n: u64)
    ensures
        final(out)@ == old(out)@ + u64_le(n),
{
    out.push((n & 0xff) as u8);
    out.push(((n >> 8) & 0xff) as u8);
    out.push(((n >> 16) & 0xff) as u8);
    out.push(((n >> 24) & 0xff) as u8);
    out.push(((n >> 32) & 0xff) as u8);
    out.push(((n >> 40) & 0xff) as u8);
    out.push(((n >> 48) & 0xff) as u8);
    out.push(((n >> 56) & 0xff) as u8);
    proof {
        assert(out@ =~= old(out)@ + u64_le(n));
    }
}

fn push_raw(out: &mut Vec<u8>, b: &Vec<u8>)
    ensures
        final(out)@ == old(out)@ + b@,
{
    let mut i: usize = 0;
    while i < b.len()
        invariant
            i <= b@.len(),
            out@ == old(out)@ + b@.subrange(0, i as int),
        decreases b@.len() - i,
    {
        out.push(b[i]);
        proof {
            assert(old(out)@ + b@.subrange(0, i as int + 1) =~= (old(out)@ + b@.subrange(
                0,
                i as int,
            )).push(b@[i as int]));
        }
        i += 1;
    }
    proof {
        assert(b@.subrange(0, b@.len() as int) =~= b@);
    }
}

fn push_bytes(out: &mut Vec<u8>, b: &Vec<u8>)
    ensures
        final(out)@ == old(out)@ + enc_bytes(b@),
{
    push_u32_le(out, b.len() as u32);
    push_raw(out, b);
    proof {
        assert(old(out)@ + u32_le(b@.len() as u32) + b@ =~= old(out)@ + enc_bytes(b@));
    }
}

fn push_entry(out: &mut Vec<u8>, t: &Token)
    ensures
        final(out)@ == old(out)@ + enc_entry(t@),
{
    push_raw(out, &t.address.bytes);
    push_u64_le(out, t.amount);
    proof {
        assert(old(out)@ + t.address@ + u64_le(t.amount) =~= old(out)@ + enc_entry(t@));
    }
}

proof fn lemma_enc_entries_push(s: Seq<TokenV>, t: TokenV)
    ensures
        enc_entries(s.push(t)) == enc_entries(s) + enc_entry(t),
    decreases s.len(),
{
    if s.len() == 0 {
        assert(s.push(t)[0] == t);
        assert(s.push(t).skip(1) =~= Seq::<TokenV>::empty());
        assert(enc_entries(Seq::<TokenV>::empty()) == Seq::<u8>::empty());
        assert(enc_entries(s.push(t)) == enc_entry(t) + Seq::<u8>::empty());
        assert(enc_entry(t) + Seq::<u8>::empty() =~= enc_entry(t));
        assert(enc_entries(s) + enc_entry(t) =~= enc_entry(t));
    } else {
        assert(s.push(t)[0] == s[0]);
        assert(s.push(t).skip(1) =~= s.skip(1).push(t));
        lemma_enc_entries_push(s.skip(1), t);
        assert(enc_entry(s[0]) + (enc_entries(s.skip(1)) + enc_entry(t)) =~= (enc_entry(s[0])
            + enc_entries(s.skip(1))) + enc_entry(t));
    }
}

fn push_map(out: &mut Vec<u8>, v: &Vec<Token>)
    ensures
        final(out)@ == old(out)@ + enc_map(tokens_view(v@)),
{
    push_u32_le(out, v.len() as u32);
    let ghost pre = out@;
    let mut i: usize = 0;
    while i < v.len()
        invariant
            i <= v@.len(),
            out@ == pre + enc_entries(tokens_view(v@).take(i as int)),
        decreases v@.len() - i,
    {
        proof {
            lemma_enc_entries_push(tokens_view(v@).take(i as int), v@[i as int]@);
            assert(tokens_view(v@).take(i as int).push(v@[i as int]@) =~= tokens_view(v@).take(
                i as int + 1,
            ));
        }
        push_entry(out, &v[i]);
        proof {
            assert(out@ =~= pre + enc_entries(tokens_view(v@).take(i as int + 1)));
        }
        i += 1;
    }
    proof {
        assert(tokens_view(v@).take(v@.len() as int) =~= tokens_view(v@));
        assert(tokens_view(v@).len() == v@.len());
        assert(pre =~= old(out)@ + u32_le(v@.len() as u32));
        assert(old(out)@ + u32_le(v@.len() as u32) + enc_entries(tokens_view(v@)) =~= old(out)@
            + enc_map(tokens_view(v@)));
    }
}

/// Encodes a record into the persisted layout.
pub fn encode(t: &Transform) -> (out: Vec<u8>)
    ensures
        out@ == spec_encode(t@),
{
    let mut out: Vec<u8> = Vec::new();
    out.push(if t.initialized { 1 } else { 0 });
    proof {
        assert(out@ =~= Seq::<u8>::empty() + seq![bool_byte(t@.initialized)]);
    }
    push_bytes(&mut out, &t.metadata.name);
    push_map(&mut out, &t.inputs);
    push_map(&mut out, &t.outputs);
    proof {
        assert(out@ =~= spec_encode(t@));
    }
    out
}

// ---------------------------------------------------------------------------
// Executable decoding.
// ---------------------------------------------------------------------------

fn read_bool(bytes: &Vec<u8>, pos: usize) -> (r: Option<(bool, usize)>)
    requires
        pos <= bytes@.len(),
    ensures
        match r {
            Some(p) => {
                &&& parse_bool(bytes@.skip(pos as int)) == Some((p.0, bytes@.skip(p.1 as int)))
                &&& pos < p.1 <= bytes@.len()
            },
            None => parse_bool(bytes@.skip(pos as int)) is None,
        },
{
    if pos < bytes.len() {
        let b = bytes[pos];
        proof {
            assert(bytes@.skip(pos as int)[0] == bytes@[pos as int]);
            assert(bytes@.skip(pos as int).skip(1) =~= bytes@.skip(pos as int + 1));
        }
        if b == 0 {
            Some((false, pos + 1))
        } else if b == 1 {
            Some((true, pos + 1))
        } else {
            None
        }
    } else {
        None
    }
}

fn read_u32(bytes: &Vec<u8>, pos: usize) -> (r: Option<(u32, usize)>)
    requires
        pos <= bytes@.len(),
    ensures
        match r {
            Some(p) => {
                &&& parse_u32(bytes@.skip(pos as int)) == Some((p.0, bytes@.skip(p.1 as int)))
                &&& pos < p.1 <= bytes@.len()
            },
            None => parse_u32(bytes@.skip(pos as int)) is None,
        },
{
    if bytes.len() - pos >= 4 {
        let b0 = bytes[pos];
        let b1 = bytes[pos + 1];
        let b2 = bytes[pos + 2];
        let b3 = bytes[pos + 3];
        let v = (b0 as u32) | ((b1 as u32) << 8) | ((b2 as u32) << 16) | ((b3 as u32) << 24);
        proof {
            let s = bytes@.skip(pos as int);
            assert(s[0] == bytes@[pos as int]);
            assert(s[1] == bytes@[pos as int + 1]);
            assert(s[2] == bytes@[pos as int + 2]);
            assert(s[3] == bytes@[pos as int + 3]);
            assert(s.skip(4) =~= bytes@.skip(pos as int + 4));
        }
        Some((v, pos + 4))
    } else {
        None
    }
}

fn read_u64(bytes: &Vec<u8>, pos: usize) -> (r: Option<(u64, usize)>)
    requires
        pos <= bytes@.len(),
    ensures
        match r {
            Some(p) => {
                &&& parse_u64(bytes@.skip(pos as int)) == Some((p.0, bytes@.skip(p.1 as int)))
                &&& pos < p.1 <= bytes@.len()
            },
            None => parse_u64(bytes@.skip(pos as int)) is None,
        },
{
    if bytes.len() - pos >= 8 {
        let b0 = bytes[pos];
        let b1 = bytes[pos + 1];
        let b2 = bytes[pos + 2];
        let b3 = bytes[pos + 3];
        let b4 = bytes[pos + 4];
        let b5 = bytes[pos + 5];
        let b6 = bytes[pos + 6];
        let b7 = bytes[pos + 7];
        let v = (b0 as u64) | ((b1 as u64) << 8) | ((b2 as u64) << 16) | ((b3 as u64) << 24)
            | ((b4 as u64) << 32) | ((b5 as u64) << 40) | ((b6 as u64) << 48) | ((b7 as u64) << 56);
        proof {
            let s = bytes@.skip(pos as int);
            assert(s[0] == bytes@[pos as int]);
            assert(s[1] == bytes@[pos as int + 1]);
            assert(s[2] == bytes@[pos as int + 2]);
            assert(s[3] == bytes@[pos as int + 3]);
            assert(s[4] == bytes@[pos as int + 4]);
            assert(s[5] == bytes@[pos as int + 5]);
            assert(s[6] == bytes@[pos as int + 6]);
            assert(s[7] == bytes@[pos as int + 7]);
            assert(s.skip(8) =~= bytes@.skip(pos as int + 8));
        }
        Some((v, pos + 8))
    } else {
        None
    }
}

fn read_chunk(bytes: &Vec<u8>, pos: usize, n: usize) -> (r: Vec<u8>)
    requires
        pos + n <= bytes@.len(),
    ensures
        r@ == bytes@.subrange(pos as int, pos as int + n as int),
{
    let _total: usize = bytes.len();
    let end: usize = pos + n;
    let mut out: Vec<u8> = Vec::new();
    let mut j: usize = pos;
    while j < end
        invariant
            pos <= j <= end,
            end == pos + n <= bytes@.len(),
            out@ == bytes@.subrange(pos as int, j as int),
        decreases end - j,
    {
        out.push(bytes[j]);
        proof {
            assert(bytes@.subrange(pos as int, j as int + 1) =~= bytes@.subrange(
                pos as int,
                j as int,
            ).push(bytes@[j as int]));
        }
        j += 1;
    }
    proof {
        assert(out@ == bytes@.subrange(pos as int, pos as int + n as int));
    }
    out
}

fn read_bytes(bytes: &Vec<u8>, pos: usize) -> (r: Option<(Vec<u8>, usize)>)
    requires
        pos <= bytes@.len(),
    ensures
        match r {
            Some(p) => {
                &&& parse_bytes(bytes@.skip(pos as int)) == Some((p.0@, bytes@.skip(p.1 as int)))
                &&& pos < p.1 <= bytes@.len()
                &&& p.0@.len() < 0x1_0000_0000
            },
            None => parse_bytes(bytes@.skip(pos as int)) is None,
        },
{
    match read_u32(bytes, pos) {
        None => None,
        Some((n, p1)) => {
            let n_us = n as usize;
            if bytes.len() - p1 >= n_us {
                let v = read_chunk(bytes, p1, n_us);
                proof {
                    let s = bytes@.skip(p1 as int);
                    assert(s.len() >= n);
                    assert(s.take(n as int) =~= bytes@.subrange(p1 as int, p1 as int + n as int));
                    assert(s.skip(n as int) =~= bytes@.skip(p1 as int + n as int));
                }
                Some((v, p1 + n_us))
            } else {
                proof {
                    assert(bytes@.skip(p1 as int).len() < n);
                }
                None
            }
        },
    }
}

fn read_entry(bytes: &Vec<u8>, pos: usize) -> (r: Option<(Token, usize)>)
    requires
        pos <= bytes@.len(),
    ensures
        match r {
            Some(p) => {
                &&& parse_entry(bytes@.skip(pos as int)) == Some((p.0@, bytes@.skip(p.1 as int)))
                &&& pos < p.1 <= bytes@.len()
                &&& p.0.address@.len() == 32
            },
            None => parse_entry(bytes@.skip(pos as int)) is None,
        },
{
    if bytes.len() - pos >= 32 {
        let addr_bytes = read_chunk(bytes, pos, 32);
        proof {
            let s = bytes@.skip(pos as int);
            assert(s.len() >= 32);
            assert(s.take(32) =~= bytes@.subrange(pos as int, pos as int + 32));
            assert(s.skip(32) =~= bytes@.skip(pos as int + 32));
        }
        match read_u64(bytes, pos + 32) {
            None => None,
            Some((amt, p2)) => {
                let t = Token { address: Address { bytes: addr_bytes }, amount: amt };
                proof {
                    let s = bytes@.skip(pos as int);
                    assert(t@ =~= TokenV { address: s.take(32), amount: amt });
                }
                Some((t, p2))
            },
        }
    } else {
        proof {
            assert(bytes@.skip(pos as int).len() < 32);
        }
        None
    }
}

fn read_entries(bytes: &Vec<u8>, pos: usize, n: u32) -> (r: Option<(Vec<Token>, usize)>)
    requires
        pos <= bytes@.len(),
    ensures
        match r {
            Some(p) => {
                &&& parse_entries(bytes@.skip(pos as int), n as nat) == Some(
                    (tokens_view(p.0@), bytes@.skip(p.1 as int)),
                )
                &&& pos <= p.1 <= bytes@.len()
                &&& p.0@.len() == n
                &&& forall|j: int|
                    0 <= j < p.0@.len() ==> (#[trigger] p.0@[j]).address@.len() == 32
            },
            None => parse_entries(bytes@.skip(pos as int), n as nat) is None,
        },
{
    let mut acc: Vec<Token> = Vec::new();
    let mut cur: usize = pos;
    let mut i: u32 = 0;
    proof {
        if parse_entries(bytes@.skip(pos as int), n as nat) is Some {
            let (ts, r) = parse_entries(bytes@.skip(pos as int), n as nat)->Some_0;
            assert(tokens_view(acc@) =~= Seq::<TokenV>::empty());
            assert(tokens_view(acc@) + ts =~= ts);
        }
    }
    while i < n
        invariant
            i <= n,
            pos <= cur <= bytes@.len(),
            acc@.len() == i,
            forall|j: int| 0 <= j < acc@.len() ==> (#[trigger] acc@[j]).address@.len() == 32,
            ({
                let full = parse_entries(bytes@.skip(pos as int), n as nat);
                let part = parse_entries(bytes@.skip(cur as int), (n - i) as nat);
                match part {
                    None => full is None,
                    Some((ts, r)) => full == Some((tokens_view(acc@) + ts, r)),
                }
            }),
        decreases n - i,
    {
        match read_entry(bytes, cur) {
            None => {
                return None;
            },
            Some((t, p2)) => {
                proof {
                    let part = parse_entries(bytes@.skip(cur as int), (n - i) as nat);
                    let part2 = parse_entries(bytes@.skip(p2 as int), (n - i - 1) as nat);
                    if part2 is Some {
                        let (ts2, r2) = part2->Some_0;
                        assert(part == Some((seq![t@] + ts2, r2)));
                        assert(tokens_view(acc@.push(t)) =~= tokens_view(acc@).push(t@));
                        assert(tokens_view(acc@) + (seq![t@] + ts2) =~= tokens_view(acc@).push(t@)
                            + ts2);
                    }
                }
                acc.push(t);
                cur = p2;
                i += 1;
            },
        }
    }
    proof {
        assert(parse_entries(bytes@.skip(cur as int), 0) == Some(
            (Seq::<TokenV>::empty(), bytes@.skip(cur as int)),
        ));
        assert(tokens_view(acc@) + Seq::<TokenV>::empty() =~= tokens_view(acc@));
    }
    Some((acc, cur))
}

#[verifier::loop_isolation(false)]
fn read_map(bytes: &Vec<u8>, pos: usize) -> (r: Option<(Vec<Token>, usize)>)
    requires
        pos <= bytes@.len(),
    ensures
        match r {
            Some(p) => {
                &&& parse_map(bytes@.skip(pos as int)) == Some(
                    (tokens_view(p.0@), bytes@.skip(p.1 as int)),
                )
                &&& pos <= p.1 <= bytes@.len()
                &&& entries_wf(tokens_view(p.0@))
                &&& p.0@.len() < 0x1_0000_0000
            },
            None => parse_map(bytes@.skip(pos as int)) is None,
        },
{
    match read_u32(bytes, pos) {
        None => None,
        Some((n, p1)) => match read_entries(bytes, p1, n) {
            None => None,
            Some((v, p2)) => {
                let mut k: usize = 1;
                while k < v.len()
                    invariant
                        1 <= k <= v@.len() || v@.len() == 0,
                        forall|j: int|
                            0 <= j && j + 1 < k ==> lex_lt(
                                (#[trigger] v@[j]).address@,
                                v@[j + 1].address@,
                            ),
                    decreases v@.len() - k,
                {
                    if !bytes_lt(&v[k - 1].address.bytes, &v[k].address.bytes) {
                        proof {
                            let ts = tokens_view(v@);
                            assert(!lex_lt(ts[k - 1].address, ts[k as int].address));
                            assert(!entries_sorted(ts));
                        }
                        return None;
                    }
                    k += 1;
                }
                proof {
                    let ts = tokens_view(v@);
                    assert(forall|j: int|
                        0 <= j && j + 1 < ts.len() ==> lex_lt(
                            (#[trigger] ts[j]).address,
                            ts[j + 1].address,
                        ));
                    assert(entries_sorted(ts));
                }
                Some((v, p2))
            },
        },
    }
}

/// Decodes a record from the persisted layout; trailing bytes after the
/// record are ignored.
pub fn decode(bytes: &Vec<u8>) -> (r: Result<Transform, TransformError>)
    ensures
        match r {
            Ok(t) => spec_decode(bytes@) == Some(t@) && t.wf(),
            Err(e) => spec_decode(bytes@) is None && e == TransformError::SerializationError,
        },
{
    proof {
        assert(bytes@.skip(0) =~= bytes@);
    }
    let (init, p1) = match read_bool(bytes, 0) {
        None => {
            return Err(TransformError::SerializationError);
        },
        Some(p) => p,
    };
    let (name, p2) = match read_bytes(bytes, p1) {
        None => {
            return Err(TransformError::SerializationError);
        },
        Some(p) => p,
    };
    let (inputs, p3) = match read_map(bytes, p2) {
        None => {
            return Err(TransformError::SerializationError);
        },
        Some(p) => p,
    };
    let (outputs, _p4) = match read_map(bytes, p3) {
        None => {
            return Err(TransformError::SerializationError);
        },
        Some(p) => p,
    };
    let t = Transform { initialized: init, metadata: TransformMetadata { name }, inputs, outputs };
    proof {
        assert(t@ =~= spec_decode(bytes@)->Some_0);
    }
    Ok(t)
}

} // verus!
