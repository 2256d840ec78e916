//! Binary wire codec for the poll record, the cast-vote payload and the
//! instruction envelope.
//!
//! The format is schema-ordered and length-prefixed: text is a 4-byte
//! little-endian byte count followed by its UTF-8 bytes, sequences are a
//! 4-byte little-endian element count followed by the elements, vote
//! tallies are 4-byte little-endian integers, and the whole record must be
//! consumed exactly (trailing bytes are a decode error).

use vstd::prelude::*;

use vstd::bytes::{
    lemma_auto_spec_u32_to_from_le_bytes, lemma_auto_spec_u64_to_from_le_bytes,
    spec_u32_to_le_bytes, spec_u64_to_le_bytes, u32_from_le_bytes, u32_to_le_bytes,
    u64_from_le_bytes, u64_to_le_bytes,
};
use vstd::slice::{slice_subrange, slice_to_vec};
use vstd::string::StrSliceExecFns;
use vstd::utf8::{
    decode_utf8, decode_utf8_encode_utf8, encode_utf8, encode_utf8_decode_utf8,
    encode_utf8_valid_utf8, valid_utf8,
};

use crate::envelope::{CastVote, CastVoteV, Instruction, InstructionV};
use crate::errors::{DecodeError, EncodeError};
use crate::poll::{Poll, PollV};

verus! {

// ---------------------------------------------------------------------
// The wire format, as spec functions over byte sequences.
// ---------------------------------------------------------------------

/// `p` is a prefix of `s`.
pub open spec fn starts_with(s: Seq<u8>, p: Seq<u8>) -> bool {
    p.len() <= s.len() && s.subrange(0, p.len() as int) == p
}

/// A raw byte field fits its 4-byte length prefix.
pub open spec fn bytes_ok(b: Seq<u8>) -> bool {
    b.len() <= u32::MAX
}

/// Length-prefixed raw bytes.
pub open spec fn enc_bytes(b: Seq<u8>) -> Seq<u8> {
    spec_u32_to_le_bytes(b.len() as u32) + b
}

/// A text field fits its 4-byte length prefix once UTF-8 encoded.
pub open spec fn str_ok(s: Seq<char>) -> bool {
    encode_utf8(s).len() <= u32::MAX
}

/// Length-prefixed UTF-8 text.
pub open spec fn enc_str(s: Seq<char>) -> Seq<u8> {
    enc_bytes(encode_utf8(s))
}

/// The elements of a text sequence, one after the other.
pub open spec fn enc_str_seq(ss: Seq<Seq<char>>) -> Seq<u8>
    decreases ss.len(),
{
    if ss.len() == 0 {
        Seq::<u8>::empty()
    } else {
        enc_str(ss[0]) + enc_str_seq(ss.drop_first())
    }
}

/// Every element encodable, and the count fits its prefix.
pub open spec fn str_seq_ok(ss: Seq<Seq<char>>) -> bool {
    ss.len() <= u32::MAX && forall|i: int| 0 <= i < ss.len() ==> str_ok(#[trigger] ss[i])
}

/// Count-prefixed text sequence.
pub open spec fn enc_str_vec(ss: Seq<Seq<char>>) -> Seq<u8> {
    spec_u32_to_le_bytes(ss.len() as u32) + enc_str_seq(ss)
}

/// The elements of a tally sequence, 4 bytes each.
pub open spec fn enc_u32_seq(vs: Seq<u32>) -> Seq<u8>
    decreases vs.len(),
{
    if vs.len() == 0 {
        Seq::<u8>::empty()
    } else {
        spec_u32_to_le_bytes(vs[0]) + enc_u32_seq(vs.drop_first())
    }
}

/// Count-prefixed tally sequence.
pub open spec fn enc_u32_vec(vs: Seq<u32>) -> Seq<u8> {
    spec_u32_to_le_bytes(vs.len() as u32) + enc_u32_seq(vs)
}

/// A poll value every field of which fits the wire format.
pub open spec fn poll_ok(p: PollV) -> bool {
    &&& str_ok(p.owner)
    &&& str_ok(p.id)
    &&& str_ok(p.question)
    &&& str_seq_ok(p.options)
    &&& p.votes.len() <= u32::MAX
    &&& str_ok(p.timestamp)
}

/// The poll record on the wire: owner, id, question, options, votes,
/// seed bump, timestamp, in that fixed order.
pub open spec fn enc_poll(p: PollV) -> Seq<u8> {
    enc_str(p.owner) + (enc_str(p.id) + (enc_str(p.question) + (enc_str_vec(p.options) + (
    enc_u32_vec(p.votes) + (seq![p.seed_bump] + enc_str(p.timestamp))))))
}

/// The unique poll value a byte string encodes, if any.
pub open spec fn dec_poll(b: Seq<u8>) -> Option<PollV> {
    if exists|p: PollV| poll_ok(p) && enc_poll(p) == b {
        Some(choose|p: PollV| poll_ok(p) && enc_poll(p) == b)
    } else {
        None
    }
}

pub open spec fn cast_vote_ok(v: CastVoteV) -> bool {
    str_ok(v.option)
}

/// The cast-vote payload on the wire: the chosen option's text.
pub open spec fn enc_cast_vote(v: CastVoteV) -> Seq<u8> {
    enc_str(v.option)
}

pub open spec fn dec_cast_vote(b: Seq<u8>) -> Option<CastVoteV> {
    if exists|v: CastVoteV| cast_vote_ok(v) && enc_cast_vote(v) == b {
        Some(choose|v: CastVoteV| cast_vote_ok(v) && enc_cast_vote(v) == b)
    } else {
        None
    }
}

pub open spec fn instruction_ok(ix: InstructionV) -> bool {
    bytes_ok(ix.data)
}

/// The envelope on the wire: action code, payload bytes, requested space,
/// initial balance, in that fixed order.
pub open spec fn enc_instruction(ix: InstructionV) -> Seq<u8> {
    seq![ix.action] + (enc_bytes(ix.data) + (spec_u64_to_le_bytes(ix.space)
        + spec_u64_to_le_bytes(ix.lamports)))
}

pub open spec fn dec_instruction(b: Seq<u8>) -> Option<InstructionV> {
    if exists|ix: InstructionV| instruction_ok(ix) && enc_instruction(ix) == b {
        Some(choose|ix: InstructionV| instruction_ok(ix) && enc_instruction(ix) == b)
    } else {
        None
    }
}

// ---------------------------------------------------------------------
// Framing: a length-prefixed field is determined by any stream it opens.
// ---------------------------------------------------------------------

pub proof fn lemma_starts_with_concat(s: Seq<u8>, a: Seq<u8>, b: Seq<u8>)
    requires
        starts_with(s, a + b),
    ensures
        starts_with(s, a),
        starts_with(s.skip(a.len() as int), b),
{
    let ab = a + b;
    assert(s.subrange(0, a.len() as int) =~= a);
    assert forall|i: int| 0 <= i < b.len() implies s.skip(a.len() as int)[i] == b[i] by {
        assert(ab[a.len() + i] == b[i]);
        assert(s.subrange(0, ab.len() as int)[a.len() + i] == s[a.len() + i]);
    }
    assert(s.skip(a.len() as int).subrange(0, b.len() as int) =~= b);
}

pub proof fn lemma_prefix_eq(s: Seq<u8>, a: Seq<u8>, b: Seq<u8>)
    requires
        starts_with(s, a),
        starts_with(s, b),
        a.len() == b.len(),
    ensures
        a == b,
{
    assert(a =~= b);
}

/// Two length-prefixed byte fields opening the same stream are the same.
pub proof fn lemma_enc_bytes_prefix(s: Seq<u8>, a: Seq<u8>, b: Seq<u8>)
    requires
        bytes_ok(a),
        bytes_ok(b),
        starts_with(s, enc_bytes(a)),
        starts_with(s, enc_bytes(b)),
    ensures
        a == b,
{
    lemma_auto_spec_u32_to_from_le_bytes();
    lemma_starts_with_concat(s, spec_u32_to_le_bytes(a.len() as u32), a);
    lemma_starts_with_concat(s, spec_u32_to_le_bytes(b.len() as u32), b);
    lemma_prefix_eq(s, spec_u32_to_le_bytes(a.len() as u32), spec_u32_to_le_bytes(b.len() as u32));
    assert(a.len() == b.len());
    lemma_prefix_eq(s.skip(4), a, b);
}

/// Two length-prefixed text fields opening the same stream are the same.
pub proof fn lemma_enc_str_prefix(s: Seq<u8>, t1: Seq<char>, t2: Seq<char>)
    requires
        str_ok(t1),
        str_ok(t2),
        starts_with(s, enc_str(t1)),
        starts_with(s, enc_str(t2)),
    ensures
        t1 == t2,
        enc_str(t1) == enc_str(t2),
{
    lemma_enc_bytes_prefix(s, encode_utf8(t1), encode_utf8(t2));
    encode_utf8_decode_utf8(t1);
    encode_utf8_decode_utf8(t2);
}

pub proof fn lemma_enc_str_seq_push(ss: Seq<Seq<char>>, t: Seq<char>)
    ensures
        enc_str_seq(ss.push(t)) == enc_str_seq(ss) + enc_str(t),
    decreases ss.len(),
{
    if ss.len() == 0 {
        assert(ss.push(t)[0] == t);
        assert(ss.push(t).drop_first() =~= Seq::<Seq<char>>::empty());
        assert(enc_str_seq(ss.push(t)) == enc_str(t) + enc_str_seq(ss.push(t).drop_first()));
        assert(enc_str(t) + enc_str_seq(Seq::<Seq<char>>::empty()) =~= enc_str_seq(ss) + enc_str(
            t));
    } else {
        lemma_enc_str_seq_push(ss.drop_first(), t);
        assert(ss.push(t)[0] == ss[0]);
        assert(ss.push(t).drop_first() =~= ss.drop_first().push(t));
        assert(enc_str_seq(ss.push(t)) == enc_str(ss[0]) + enc_str_seq(ss.drop_first().push(t)));
        assert(enc_str_seq(ss) == enc_str(ss[0]) + enc_str_seq(ss.drop_first()));
        assert(enc_str(ss[0]) + (enc_str_seq(ss.drop_first()) + enc_str(t)) =~= (enc_str(ss[0])
            + enc_str_seq(ss.drop_first())) + enc_str(t));
    }
}

pub proof fn lemma_enc_u32_seq_push(vs: Seq<u32>, v: u32)
    ensures
        enc_u32_seq(vs.push(v)) == enc_u32_seq(vs) + spec_u32_to_le_bytes(v),
    decreases vs.len(),
{
    if vs.len() == 0 {
        assert(vs.push(v)[0] == v);
        assert(vs.push(v).drop_first() =~= Seq::<u32>::empty());
        assert(enc_u32_seq(vs.push(v)) == spec_u32_to_le_bytes(v) + enc_u32_seq(
            vs.push(v).drop_first()));
        assert(spec_u32_to_le_bytes(v) + enc_u32_seq(Seq::<u32>::empty()) =~= enc_u32_seq(vs)
            + spec_u32_to_le_bytes(v));
    } else {
        lemma_enc_u32_seq_push(vs.drop_first(), v);
        assert(vs.push(v)[0] == vs[0]);
        assert(vs.push(v).drop_first() =~= vs.drop_first().push(v));
        assert(enc_u32_seq(vs.push(v)) == spec_u32_to_le_bytes(vs[0]) + enc_u32_seq(
            vs.drop_first().push(v)));
        assert(enc_u32_seq(vs) == spec_u32_to_le_bytes(vs[0]) + enc_u32_seq(vs.drop_first()));
        assert(spec_u32_to_le_bytes(vs[0]) + (enc_u32_seq(vs.drop_first())
            + spec_u32_to_le_bytes(v)) =~= (spec_u32_to_le_bytes(vs[0]) + enc_u32_seq(
            vs.drop_first())) + spec_u32_to_le_bytes(v));
    }
}

/// Walking a stream that opens with two text sequences: the shorter one is
/// a prefix of the longer, and the stream continues with the remainder.
pub proof fn lemma_str_seq_advance(u: Seq<u8>, ss: Seq<Seq<char>>, tt: Seq<Seq<char>>)
    requires
        forall|i: int| 0 <= i < ss.len() ==> str_ok(#[trigger] ss[i]),
        forall|i: int| 0 <= i < tt.len() ==> str_ok(#[trigger] tt[i]),
        ss.len() <= tt.len(),
        starts_with(u, enc_str_seq(ss)),
        starts_with(u, enc_str_seq(tt)),
    ensures
        tt.take(ss.len() as int) == ss,
        enc_str_seq(tt.take(ss.len() as int)) == enc_str_seq(ss),
        starts_with(
            u.skip(enc_str_seq(ss).len() as int),
            enc_str_seq(tt.skip(ss.len() as int)),
        ),
    decreases ss.len(),
{
    if ss.len() == 0 {
        assert(tt.take(0) =~= ss);
        assert(u.skip(0) =~= u);
        assert(tt.skip(0) =~= tt);
    } else {
        let e_ss = enc_str(ss[0]);
        lemma_starts_with_concat(u, e_ss, enc_str_seq(ss.drop_first()));
        lemma_starts_with_concat(u, enc_str(tt[0]), enc_str_seq(tt.drop_first()));
        lemma_enc_str_prefix(u, ss[0], tt[0]);
        let u2 = u.skip(e_ss.len() as int);
        lemma_str_seq_advance(u2, ss.drop_first(), tt.drop_first());
        assert(tt.take(ss.len() as int) =~= ss) by {
            assert(tt.drop_first().take(ss.len() - 1) == ss.drop_first());
            assert forall|i: int| 0 <= i < ss.len() implies tt.take(ss.len() as int)[i] == ss[i] by {
                if i > 0 {
                    assert(ss.drop_first()[i - 1] == ss[i]);
                    assert(tt.drop_first().take(ss.len() - 1)[i - 1] == tt[i]);
                }
            }
        }
        assert(enc_str_seq(tt.take(ss.len() as int)) == enc_str_seq(ss));
        assert(u2.skip(enc_str_seq(ss.drop_first()).len() as int) =~= u.skip(
            enc_str_seq(ss).len() as int,
        ));
        assert(tt.drop_first().skip(ss.len() - 1) =~= tt.skip(ss.len() as int));
    }
}

/// The tally analogue of `lemma_str_seq_advance`.
pub proof fn lemma_u32_seq_advance(u: Seq<u8>, vs: Seq<u32>, ws: Seq<u32>)
    requires
        vs.len() <= ws.len(),
        starts_with(u, enc_u32_seq(vs)),
        starts_with(u, enc_u32_seq(ws)),
    ensures
        ws.take(vs.len() as int) == vs,
        enc_u32_seq(ws.take(vs.len() as int)) == enc_u32_seq(vs),
        starts_with(
            u.skip(enc_u32_seq(vs).len() as int),
            enc_u32_seq(ws.skip(vs.len() as int)),
        ),
    decreases vs.len(),
{
    if vs.len() == 0 {
        assert(ws.take(0) =~= vs);
        assert(u.skip(0) =~= u);
        assert(ws.skip(0) =~= ws);
    } else {
        lemma_auto_spec_u32_to_from_le_bytes();
        let e_vs = spec_u32_to_le_bytes(vs[0]);
        lemma_starts_with_concat(u, e_vs, enc_u32_seq(vs.drop_first()));
        lemma_starts_with_concat(u, spec_u32_to_le_bytes(ws[0]), enc_u32_seq(ws.drop_first()));
        lemma_prefix_eq(u, e_vs, spec_u32_to_le_bytes(ws[0]));
        assert(vs[0] == ws[0]);
        let u2 = u.skip(e_vs.len() as int);
        lemma_u32_seq_advance(u2, vs.drop_first(), ws.drop_first());
        assert(ws.take(vs.len() as int) =~= vs) by {
            assert(ws.drop_first().take(vs.len() - 1) == vs.drop_first());
            assert forall|i: int| 0 <= i < vs.len() implies ws.take(vs.len() as int)[i] == vs[i] by {
                if i > 0 {
                    assert(vs.drop_first()[i - 1] == vs[i]);
                    assert(ws.drop_first().take(vs.len() - 1)[i - 1] == ws[i]);
                }
            }
        }
        assert(enc_u32_seq(ws.take(vs.len() as int)) == enc_u32_seq(vs));
        assert(u2.skip(enc_u32_seq(vs.drop_first()).len() as int) =~= u.skip(
            enc_u32_seq(vs).len() as int,
        ));
        assert(ws.drop_first().skip(vs.len() - 1) =~= ws.skip(vs.len() as int));
    }
}

/// Two count-prefixed text sequences opening the same stream are the same.
pub proof fn lemma_enc_str_vec_prefix(u: Seq<u8>, ss: Seq<Seq<char>>, tt: Seq<Seq<char>>)
    requires
        str_seq_ok(ss),
        str_seq_ok(tt),
        starts_with(u, enc_str_vec(ss)),
        starts_with(u, enc_str_vec(tt)),
    ensures
        ss == tt,
        enc_str_vec(ss) == enc_str_vec(tt),
{
    lemma_auto_spec_u32_to_from_le_bytes();
    lemma_starts_with_concat(u, spec_u32_to_le_bytes(ss.len() as u32), enc_str_seq(ss));
    lemma_starts_with_concat(u, spec_u32_to_le_bytes(tt.len() as u32), enc_str_seq(tt));
    lemma_prefix_eq(u, spec_u32_to_le_bytes(ss.len() as u32), spec_u32_to_le_bytes(
        tt.len() as u32));
    assert(ss.len() == tt.len());
    lemma_str_seq_advance(u.skip(4), ss, tt);
    assert(tt.take(ss.len() as int) =~= tt);
}

/// Two count-prefixed tally sequences opening the same stream are the same.
pub proof fn lemma_enc_u32_vec_prefix(u: Seq<u8>, vs: Seq<u32>, ws: Seq<u32>)
    requires
        vs.len() <= u32::MAX,
        ws.len() <= u32::MAX,
        starts_with(u, enc_u32_vec(vs)),
        starts_with(u, enc_u32_vec(ws)),
    ensures
        vs == ws,
        enc_u32_vec(vs) == enc_u32_vec(ws),
{
    lemma_auto_spec_u32_to_from_le_bytes();
    lemma_starts_with_concat(u, spec_u32_to_le_bytes(vs.len() as u32), enc_u32_seq(vs));
    lemma_starts_with_concat(u, spec_u32_to_le_bytes(ws.len() as u32), enc_u32_seq(ws));
    lemma_prefix_eq(u, spec_u32_to_le_bytes(vs.len() as u32), spec_u32_to_le_bytes(
        ws.len() as u32));
    assert(vs.len() == ws.len());
    lemma_u32_seq_advance(u.skip(4), vs, ws);
    assert(ws.take(vs.len() as int) =~= ws);
}

// ---------------------------------------------------------------------
// Injectivity and the round-trip law.
// ---------------------------------------------------------------------

/// No two encodable poll values share an encoding.
pub proof fn lemma_enc_poll_inj(a: PollV, b: PollV)
    requires
        poll_ok(a),
        poll_ok(b),
        enc_poll(a) == enc_poll(b),
    ensures
        a == b,
{
    let s = enc_poll(a);
    assert(starts_with(s, enc_poll(a))) by {
        assert(s.subrange(0, s.len() as int) =~= s);
    }
    let r_a1 = enc_str(a.id) + (enc_str(a.question) + (enc_str_vec(a.options) + (enc_u32_vec(
        a.votes) + (seq![a.seed_bump] + enc_str(a.timestamp)))));
    let r_b1 = enc_str(b.id) + (enc_str(b.question) + (enc_str_vec(b.options) + (enc_u32_vec(
        b.votes) + (seq![b.seed_bump] + enc_str(b.timestamp)))));
    lemma_starts_with_concat(s, enc_str(a.owner), r_a1);
    lemma_starts_with_concat(s, enc_str(b.owner), r_b1);
    lemma_enc_str_prefix(s, a.owner, b.owner);
    let u1 = s.skip(enc_str(a.owner).len() as int);

    let r_a2 = enc_str(a.question) + (enc_str_vec(a.options) + (enc_u32_vec(a.votes) + (seq![
        a.seed_bump] + enc_str(a.timestamp))));
    let r_b2 = enc_str(b.question) + (enc_str_vec(b.options) + (enc_u32_vec(b.votes) + (seq![
        b.seed_bump] + enc_str(b.timestamp))));
    lemma_starts_with_concat(u1, enc_str(a.id), r_a2);
    lemma_starts_with_concat(u1, enc_str(b.id), r_b2);
    lemma_enc_str_prefix(u1, a.id, b.id);
    let u2 = u1.skip(enc_str(a.id).len() as int);

    let r_a3 = enc_str_vec(a.options) + (enc_u32_vec(a.votes) + (seq![a.seed_bump] + enc_str(
        a.timestamp)));
    let r_b3 = enc_str_vec(b.options) + (enc_u32_vec(b.votes) + (seq![b.seed_bump] + enc_str(
        b.timestamp)));
    lemma_starts_with_concat(u2, enc_str(a.question), r_a3);
    lemma_starts_with_concat(u2, enc_str(b.question), r_b3);
    lemma_enc_str_prefix(u2, a.question, b.question);
    let u3 = u2.skip(enc_str(a.question).len() as int);

    let r_a4 = enc_u32_vec(a.votes) + (seq![a.seed_bump] + enc_str(a.timestamp));
    let r_b4 = enc_u32_vec(b.votes) + (seq![b.seed_bump] + enc_str(b.timestamp));
    lemma_starts_with_concat(u3, enc_str_vec(a.options), r_a4);
    lemma_starts_with_concat(u3, enc_str_vec(b.options), r_b4);
    lemma_enc_str_vec_prefix(u3, a.options, b.options);
    let u4 = u3.skip(enc_str_vec(a.options).len() as int);

    let r_a5 = seq![a.seed_bump] + enc_str(a.timestamp);
    let r_b5 = seq![b.seed_bump] + enc_str(b.timestamp);
    lemma_starts_with_concat(u4, enc_u32_vec(a.votes), r_a5);
    lemma_starts_with_concat(u4, enc_u32_vec(b.votes), r_b5);
    lemma_enc_u32_vec_prefix(u4, a.votes, b.votes);
    let u5 = u4.skip(enc_u32_vec(a.votes).len() as int);

    lemma_starts_with_concat(u5, seq![a.seed_bump], enc_str(a.timestamp));
    lemma_starts_with_concat(u5, seq![b.seed_bump], enc_str(b.timestamp));
    assert(a.seed_bump == b.seed_bump) by {
        assert(u5.subrange(0, 1)[0] == a.seed_bump);
        assert(u5.subrange(0, 1)[0] == b.seed_bump);
    }
    let u6 = u5.skip(1);
    lemma_enc_str_prefix(u6, a.timestamp, b.timestamp);
    assert(a =~= b);
}

/// Round trip for the poll record: decoding an encoding yields the value
/// encoded.
pub proof fn lemma_poll_round_trip(p: PollV)
    requires
        poll_ok(p),
    ensures
        dec_poll(enc_poll(p)) == Some(p),
{
    assert(poll_ok(p) && enc_poll(p) == enc_poll(p));
    let q = choose|q: PollV| poll_ok(q) && enc_poll(q) == enc_poll(p);
    lemma_enc_poll_inj(q, p);
}

/// No two encodable cast-vote values share an encoding.
pub proof fn lemma_enc_cast_vote_inj(a: CastVoteV, b: CastVoteV)
    requires
        cast_vote_ok(a),
        cast_vote_ok(b),
        enc_cast_vote(a) == enc_cast_vote(b),
    ensures
        a == b,
{
    let s = enc_cast_vote(a);
    assert(starts_with(s, enc_cast_vote(a))) by {
        assert(s.subrange(0, s.len() as int) =~= s);
    }
    lemma_enc_str_prefix(s, a.option, b.option);
    assert(a =~= b);
}

/// Round trip for the cast-vote payload.
pub proof fn lemma_cast_vote_round_trip(v: CastVoteV)
    requires
        cast_vote_ok(v),
    ensures
        dec_cast_vote(enc_cast_vote(v)) == Some(v),
{
    assert(cast_vote_ok(v) && enc_cast_vote(v) == enc_cast_vote(v));
    let w = choose|w: CastVoteV| cast_vote_ok(w) && enc_cast_vote(w) == enc_cast_vote(v);
    lemma_enc_cast_vote_inj(w, v);
}

/// No two encodable envelopes share an encoding.
pub proof fn lemma_enc_instruction_inj(a: InstructionV, b: InstructionV)
    requires
        instruction_ok(a),
        instruction_ok(b),
        enc_instruction(a) == enc_instruction(b),
    ensures
        a == b,
{
    lemma_auto_spec_u64_to_from_le_bytes();
    let s = enc_instruction(a);
    assert(starts_with(s, enc_instruction(a))) by {
        assert(s.subrange(0, s.len() as int) =~= s);
    }
    let r_a1 = enc_bytes(a.data) + (spec_u64_to_le_bytes(a.space) + spec_u64_to_le_bytes(
        a.lamports));
    let r_b1 = enc_bytes(b.data) + (spec_u64_to_le_bytes(b.space) + spec_u64_to_le_bytes(
        b.lamports));
    lemma_starts_with_concat(s, seq![a.action], r_a1);
    lemma_starts_with_concat(s, seq![b.action], r_b1);
    assert(a.action == b.action) by {
        assert(s.subrange(0, 1)[0] == a.action);
        assert(s.subrange(0, 1)[0] == b.action);
    }
    let u1 = s.skip(1);
    lemma_starts_with_concat(u1, enc_bytes(a.data), spec_u64_to_le_bytes(a.space)
        + spec_u64_to_le_bytes(a.lamports));
    lemma_starts_with_concat(u1, enc_bytes(b.data), spec_u64_to_le_bytes(b.space)
        + spec_u64_to_le_bytes(b.lamports));
    lemma_enc_bytes_prefix(u1, a.data, b.data);
    let u2 = u1.skip(enc_bytes(a.data).len() as int);
    lemma_starts_with_concat(u2, spec_u64_to_le_bytes(a.space), spec_u64_to_le_bytes(a.lamports));
    lemma_starts_with_concat(u2, spec_u64_to_le_bytes(b.space), spec_u64_to_le_bytes(b.lamports));
    lemma_prefix_eq(u2, spec_u64_to_le_bytes(a.space), spec_u64_to_le_bytes(b.space));
    assert(a.space == b.space);
    let u3 = u2.skip(8);
    lemma_prefix_eq(u3, spec_u64_to_le_bytes(a.lamports), spec_u64_to_le_bytes(b.lamports));
    assert(a.lamports == b.lamports);
    assert(a =~= b);
}

/// Round trip for the instruction envelope.
pub proof fn lemma_instruction_round_trip(ix: InstructionV)
    requires
        instruction_ok(ix),
    ensures
        dec_instruction(enc_instruction(ix)) == Some(ix),
{
    assert(instruction_ok(ix) && enc_instruction(ix) == enc_instruction(ix));
    let jx = choose|jx: InstructionV| instruction_ok(jx) && enc_instruction(jx) == enc_instruction(
        ix);
    lemma_enc_instruction_inj(jx, ix);
}

// ---------------------------------------------------------------------
// Bridges between parsed subranges and prefix facts.
// ---------------------------------------------------------------------

pub proof fn lemma_subrange_starts_with(s: Seq<u8>, pos: int, x: Seq<u8>)
    requires
        0 <= pos,
        pos + x.len() <= s.len(),
        s.subrange(pos, pos + x.len() as int) == x,
    ensures
        starts_with(s.skip(pos), x),
{
    assert forall|i: int| 0 <= i < x.len() implies s.skip(pos)[i] == x[i] by {
        assert(s.subrange(pos, pos + x.len() as int)[i] == s[pos + i]);
    }
    assert(s.skip(pos).subrange(0, x.len() as int) =~= x);
}

pub proof fn lemma_subrange_split(s: Seq<u8>, a: int, b: int, c: int)
    requires
        0 <= a <= b <= c <= s.len(),
    ensures
        s.subrange(a, c) == s.subrange(a, b) + s.subrange(b, c),
{
    assert(s.subrange(a, c) =~= s.subrange(a, b) + s.subrange(b, c));
}

pub proof fn lemma_skip_skip(s: Seq<u8>, a: int, b: int)
    requires
        0 <= a,
        0 <= b,
        a + b <= s.len(),
    ensures
        s.skip(a).skip(b) == s.skip(a + b),
{
    assert(s.skip(a).skip(b) =~= s.skip(a + b));
}

// ---------------------------------------------------------------------
// Field readers. Each reader consumes exactly one field at `pos` and, on
// failure, rules out every value that field could have encoded there.
// ---------------------------------------------------------------------

/// Relies on `String::from_utf8`: it succeeds exactly on valid UTF-8 and
/// returns the text the bytes encode.
#[verifier::external_body]
fn bytes_to_string(v: Vec<u8>) -> (r: Option<String>)
    ensures
        r is Some <==> valid_utf8(v@),
        r matches Some(s) ==> s@ == decode_utf8(v@),
{
    String::from_utf8(v).ok()
}

fn read_u8(bytes: &[u8], pos: usize) -> (r: Option<(u8, usize)>)
    requires
        pos <= bytes@.len(),
    ensures
        match r {
            Some(v) => v.1 == pos + 1 && pos + 1 <= bytes@.len() && bytes@[pos as int] == v.0,
            None => bytes@.len() == pos,
        },
{
    if pos < bytes.len() {
        Some((*vstd::slice::slice_index_get(bytes, pos), pos + 1))
    } else {
        None
    }
}

fn read_u32(bytes: &[u8], pos: usize) -> (r: Option<(u32, usize)>)
    requires
        pos <= bytes@.len(),
    ensures
        match r {
            Some(v) => v.1 == pos + 4 && pos + 4 <= bytes@.len() && spec_u32_to_le_bytes(v.0)
                == bytes@.subrange(pos as int, pos as int + 4),
            None => bytes@.len() - pos < 4,
        },
{
    proof {
        lemma_auto_spec_u32_to_from_le_bytes();
    }
    if bytes.len() - pos >= 4 {
        let s = slice_subrange(bytes, pos, pos + 4);
        let v = u32_from_le_bytes(s);
        Some((v, pos + 4))
    } else {
        None
    }
}

fn read_u64(bytes: &[u8], pos: usize) -> (r: Option<(u64, usize)>)
    requires
        pos <= bytes@.len(),
    ensures
        match r {
            Some(v) => v.1 == pos + 8 && pos + 8 <= bytes@.len() && spec_u64_to_le_bytes(v.0)
                == bytes@.subrange(pos as int, pos as int + 8),
            None => bytes@.len() - pos < 8,
        },
{
    proof {
        lemma_auto_spec_u64_to_from_le_bytes();
    }
    if bytes.len() - pos >= 8 {
        let s = slice_subrange(bytes, pos, pos + 8);
        let v = u64_from_le_bytes(s);
        Some((v, pos + 8))
    } else {
        None
    }
}

fn read_bytes(bytes: &[u8], pos: usize) -> (r: Option<(Vec<u8>, usize)>)
    requires
        pos <= bytes@.len(),
    ensures
        match r {
            Some(v) => {
                &&& bytes_ok(v.0@)
                &&& v.1 == pos + enc_bytes(v.0@).len()
                &&& v.1 <= bytes@.len()
                &&& bytes@.subrange(pos as int, v.1 as int) == enc_bytes(v.0@)
            },
            None => forall|b: Seq<u8>|
                bytes_ok(b) ==> !starts_with(bytes@.skip(pos as int), #[trigger] enc_bytes(b)),
        },
{
    proof {
        lemma_auto_spec_u32_to_from_le_bytes();
    }
    match read_u32(bytes, pos) {
        Some((n, p2)) => {
            let n_us = n as usize;
            if bytes.len() - p2 >= n_us {
                let v = slice_to_vec(slice_subrange(bytes, p2, p2 + n_us));
                proof {
                    assert(bytes@.subrange(pos as int, (p2 + n_us) as int) =~= spec_u32_to_le_bytes(
                        n) + v@);
                }
                Some((v, p2 + n_us))
            } else {
                proof {
                    assert forall|b: Seq<u8>| bytes_ok(b) implies !starts_with(
                        bytes@.skip(pos as int),
                        enc_bytes(b),
                    ) by {
                        if starts_with(bytes@.skip(pos as int), enc_bytes(b)) {
                            let u = bytes@.skip(pos as int);
                            lemma_starts_with_concat(u, spec_u32_to_le_bytes(b.len() as u32), b);
                            assert(u.subrange(0, 4) =~= bytes@.subrange(
                                pos as int,
                                pos as int + 4,
                            ));
                            assert(spec_u32_to_le_bytes(b.len() as u32) == spec_u32_to_le_bytes(n));
                            assert(b.len() == n);
                        }
                    }
                }
                None
            }
        },
        None => {
            proof {
                assert forall|b: Seq<u8>| bytes_ok(b) implies !starts_with(
                    bytes@.skip(pos as int),
                    enc_bytes(b),
                ) by {
                    assert(enc_bytes(b).len() >= 4);
                }
            }
            None
        },
    }
}

fn read_string(bytes: &[u8], pos: usize) -> (r: Option<(String, usize)>)
    requires
        pos <= bytes@.len(),
    ensures
        match r {
            Some(v) => {
                &&& str_ok(v.0@)
                &&& v.1 == pos + enc_str(v.0@).len()
                &&& v.1 <= bytes@.len()
                &&& bytes@.subrange(pos as int, v.1 as int) == enc_str(v.0@)
            },
            None => forall|t: Seq<char>|
                str_ok(t) ==> !starts_with(bytes@.skip(pos as int), #[trigger] enc_str(t)),
        },
{
    match read_bytes(bytes, pos) {
        Some((v, p2)) => {
            let ghost vbytes = v@;
            match bytes_to_string(v) {
                Some(s) => {
                    proof {
                        decode_utf8_encode_utf8(vbytes);
                        assert(enc_str(s@) == enc_bytes(vbytes));
                    }
                    Some((s, p2))
                },
                None => {
                    proof {
                        assert forall|t: Seq<char>| str_ok(t) implies !starts_with(
                            bytes@.skip(pos as int),
                            enc_str(t),
                        ) by {
                            if starts_with(bytes@.skip(pos as int), enc_str(t)) {
                                let u = bytes@.skip(pos as int);
                                lemma_subrange_starts_with(bytes@, pos as int, enc_bytes(vbytes));
                                lemma_enc_bytes_prefix(u, encode_utf8(t), vbytes);
                                encode_utf8_valid_utf8(t);
                            }
                        }
                    }
                    None
                },
            }
        },
        None => {
            proof {
                assert forall|t: Seq<char>| str_ok(t) implies !starts_with(
                    bytes@.skip(pos as int),
                    enc_str(t),
                ) by {
                    assert(bytes_ok(encode_utf8(t)));
                }
            }
            None
        },
    }
}

fn read_string_vec(bytes: &[u8], pos: usize) -> (r: Option<(Vec<String>, usize)>)
    requires
        pos <= bytes@.len(),
    ensures
        match r {
            Some(v) => {
                &&& str_seq_ok(v.0.deep_view())
                &&& v.1 == pos + enc_str_vec(v.0.deep_view()).len()
                &&& v.1 <= bytes@.len()
                &&& bytes@.subrange(pos as int, v.1 as int) == enc_str_vec(v.0.deep_view())
            },
            None => forall|tt: Seq<Seq<char>>|
                str_seq_ok(tt) ==> !starts_with(bytes@.skip(pos as int), #[trigger] enc_str_vec(
                    tt,
                )),
        },
{
    proof {
        lemma_auto_spec_u32_to_from_le_bytes();
    }
    match read_u32(bytes, pos) {
        None => {
            proof {
                assert forall|tt: Seq<Seq<char>>| str_seq_ok(tt) implies !starts_with(
                    bytes@.skip(pos as int),
                    enc_str_vec(tt),
                ) by {
                    assert(enc_str_vec(tt).len() >= 4);
                }
            }
            None
        },
        Some((n, start)) => {
            let mut acc: Vec<String> = Vec::new();
            let mut cur = start;
            let mut i: u32 = 0;
            proof {
                assert(bytes@.subrange(start as int, start as int) =~= enc_str_seq(
                    acc.deep_view()));
            }
            while i < n
                invariant
                    pos + 4 == start <= cur <= bytes@.len(),
                    i <= n,
                    acc.deep_view().len() == i,
                    forall|j: int|
                        0 <= j < acc.deep_view().len() ==> str_ok(#[trigger] acc.deep_view()[j]),
                    cur == start + enc_str_seq(acc.deep_view()).len(),
                    bytes@.subrange(start as int, cur as int) == enc_str_seq(acc.deep_view()),
                    spec_u32_to_le_bytes(n) == bytes@.subrange(pos as int, pos as int + 4),
                decreases n - i,
            {
                match read_string(bytes, cur) {
                    Some((s, p2)) => {
                        let ghost pre = acc.deep_view();
                        proof {
                            lemma_enc_str_seq_push(pre, s@);
                            lemma_subrange_split(bytes@, start as int, cur as int, p2 as int);
                        }
                        acc.push(s);
                        cur = p2;
                        i = i + 1;
                        proof {
                            assert(acc.deep_view() =~= pre.push(s@));
                        }
                    },
                    None => {
                        proof {
                            assert forall|tt: Seq<Seq<char>>| str_seq_ok(tt) implies !starts_with(
                                bytes@.skip(pos as int),
                                enc_str_vec(tt),
                            ) by {
                                if starts_with(bytes@.skip(pos as int), enc_str_vec(tt)) {
                                    lemma_auto_spec_u32_to_from_le_bytes();
                                    let u = bytes@.skip(pos as int);
                                    lemma_starts_with_concat(
                                        u,
                                        spec_u32_to_le_bytes(tt.len() as u32),
                                        enc_str_seq(tt),
                                    );
                                    assert(u.subrange(0, 4) =~= bytes@.subrange(
                                        pos as int,
                                        pos as int + 4,
                                    ));
                                    assert(spec_u32_to_le_bytes(tt.len() as u32)
                                        == spec_u32_to_le_bytes(n));
                                    assert(tt.len() == n);
                                    assert(u.skip(4) =~= bytes@.skip(start as int));
                                    lemma_subrange_starts_with(
                                        bytes@,
                                        start as int,
                                        enc_str_seq(acc.deep_view()),
                                    );
                                    lemma_str_seq_advance(
                                        bytes@.skip(start as int),
                                        acc.deep_view(),
                                        tt,
                                    );
                                    lemma_skip_skip(
                                        bytes@,
                                        start as int,
                                        enc_str_seq(acc.deep_view()).len() as int,
                                    );
                                    let rest = tt.skip(i as int);
                                    assert(rest.len() > 0);
                                    assert(enc_str_seq(rest) == enc_str(rest[0]) + enc_str_seq(
                                        rest.drop_first(),
                                    ));
                                    lemma_starts_with_concat(
                                        bytes@.skip(cur as int),
                                        enc_str(rest[0]),
                                        enc_str_seq(rest.drop_first()),
                                    );
                                    assert(str_ok(tt[i as int]));
                                    assert(rest[0] == tt[i as int]);
                                }
                            }
                        }
                        return None;
                    },
                }
            }
            proof {
                lemma_auto_spec_u32_to_from_le_bytes();
                lemma_subrange_split(bytes@, pos as int, start as int, cur as int);
                assert(bytes@.subrange(pos as int, cur as int) == enc_str_vec(acc.deep_view()));
            }
            Some((acc, cur))
        },
    }
}

fn read_u32_vec(bytes: &[u8], pos: usize) -> (r: Option<(Vec<u32>, usize)>)
    requires
        pos <= bytes@.len(),
    ensures
        match r {
            Some(v) => {
                &&& v.0@.len() <= u32::MAX
                &&& v.1 == pos + enc_u32_vec(v.0@).len()
                &&& v.1 <= bytes@.len()
                &&& bytes@.subrange(pos as int, v.1 as int) == enc_u32_vec(v.0@)
            },
            None => forall|ws: Seq<u32>|
                ws.len() <= u32::MAX ==> !starts_with(
                    bytes@.skip(pos as int),
                    #[trigger] enc_u32_vec(ws),
                ),
        },
{
    proof {
        lemma_auto_spec_u32_to_from_le_bytes();
    }
    match read_u32(bytes, pos) {
        None => {
            proof {
                assert forall|ws: Seq<u32>| ws.len() <= u32::MAX implies !starts_with(
                    bytes@.skip(pos as int),
                    enc_u32_vec(ws),
                ) by {
                    assert(enc_u32_vec(ws).len() >= 4);
                }
            }
            None
        },
        Some((n, start)) => {
            let mut acc: Vec<u32> = Vec::new();
            let mut cur = start;
            let mut i: u32 = 0;
            proof {
                assert(bytes@.subrange(start as int, start as int) =~= enc_u32_seq(acc@));
            }
            while i < n
                invariant
                    pos + 4 == start <= cur <= bytes@.len(),
                    i <= n,
                    acc@.len() == i,
                    cur == start + enc_u32_seq(acc@).len(),
                    bytes@.subrange(start as int, cur as int) == enc_u32_seq(acc@),
                    spec_u32_to_le_bytes(n) == bytes@.subrange(pos as int, pos as int + 4),
                decreases n - i,
            {
                match read_u32(bytes, cur) {
                    Some((w, p2)) => {
                        proof {
                            lemma_enc_u32_seq_push(acc@, w);
                            lemma_subrange_split(bytes@, start as int, cur as int, p2 as int);
                        }
                        acc.push(w);
                        cur = p2;
                        i = i + 1;
                    },
                    None => {
                        proof {
                            assert forall|ws: Seq<u32>| ws.len() <= u32::MAX implies !starts_with(
                                bytes@.skip(pos as int),
                                enc_u32_vec(ws),
                            ) by {
                                if starts_with(bytes@.skip(pos as int), enc_u32_vec(ws)) {
                                    lemma_auto_spec_u32_to_from_le_bytes();
                                    let u = bytes@.skip(pos as int);
                                    lemma_starts_with_concat(
                                        u,
                                        spec_u32_to_le_bytes(ws.len() as u32),
                                        enc_u32_seq(ws),
                                    );
                                    assert(u.subrange(0, 4) =~= bytes@.subrange(
                                        pos as int,
                                        pos as int + 4,
                                    ));
                                    assert(spec_u32_to_le_bytes(ws.len() as u32)
                                        == spec_u32_to_le_bytes(n));
                                    assert(ws.len() == n);
                                    assert(u.skip(4) =~= bytes@.skip(start as int));
                                    lemma_subrange_starts_with(bytes@, start as int, enc_u32_seq(
                                        acc@));
                                    lemma_u32_seq_advance(bytes@.skip(start as int), acc@, ws);
                                    lemma_skip_skip(
                                        bytes@,
                                        start as int,
                                        enc_u32_seq(acc@).len() as int,
                                    );
                                    let rest = ws.skip(i as int);
                                    assert(rest.len() > 0);
                                    assert(enc_u32_seq(rest) == spec_u32_to_le_bytes(rest[0])
                                        + enc_u32_seq(rest.drop_first()));
                                    lemma_starts_with_concat(
                                        bytes@.skip(cur as int),
                                        spec_u32_to_le_bytes(rest[0]),
                                        enc_u32_seq(rest.drop_first()),
                                    );
                                }
                            }
                        }
                        return None;
                    },
                }
            }
            proof {
                lemma_auto_spec_u32_to_from_le_bytes();
                lemma_subrange_split(bytes@, pos as int, start as int, cur as int);
                assert(bytes@.subrange(pos as int, cur as int) == enc_u32_vec(acc@));
            }
            Some((acc, cur))
        },
    }
}

// ---------------------------------------------------------------------
// Decoding. Each decoder accepts exactly the encodings of encodable
// values: it returns the encoded value, and fails precisely when no value
// encodes to the input (truncation, malformed prefixes, bad UTF-8,
// trailing bytes).
// ---------------------------------------------------------------------

/// Decode a cast-vote payload, consuming the whole input.
pub fn decode_cast_vote(bytes: &[u8]) -> (r: Result<CastVote, DecodeError>)
    ensures
        match r {
            Ok(v) => cast_vote_ok(v@) && enc_cast_vote(v@) == bytes@ && dec_cast_vote(bytes@)
                == Some(v@),
            Err(_) => dec_cast_vote(bytes@) is None,
        },
{
    proof {
        assert(bytes@.skip(0) =~= bytes@);
    }
    match read_string(bytes, 0) {
        Some((option, pos)) => {
            if pos == bytes.len() {
                let v = CastVote { option };
                proof {
                    assert(bytes@.subrange(0, bytes@.len() as int) =~= bytes@);
                    lemma_cast_vote_round_trip(v@);
                }
                Ok(v)
            } else {
                proof {
                    assert forall|w: CastVoteV| !(cast_vote_ok(w) && enc_cast_vote(w)
                        == bytes@) by {
                        if cast_vote_ok(w) && enc_cast_vote(w) == bytes@ {
                            assert(bytes@.subrange(0, bytes@.len() as int) =~= bytes@);
                            assert(starts_with(bytes@, enc_str(w.option)));
                            lemma_subrange_starts_with(bytes@, 0, enc_str(option@));
                            lemma_enc_str_prefix(bytes@, w.option, option@);
                        }
                    }
                }
                Err(DecodeError)
            }
        },
        None => {
            proof {
                assert forall|w: CastVoteV| !(cast_vote_ok(w) && enc_cast_vote(w) == bytes@) by {
                    if cast_vote_ok(w) && enc_cast_vote(w) == bytes@ {
                        assert(bytes@.subrange(0, bytes@.len() as int) =~= bytes@);
                        assert(starts_with(bytes@, enc_str(w.option)));
                    }
                }
            }
            Err(DecodeError)
        },
    }
}

/// The envelope after its action byte.
spec fn ix_rest1(ix: InstructionV) -> Seq<u8> {
    enc_bytes(ix.data) + (spec_u64_to_le_bytes(ix.space) + spec_u64_to_le_bytes(ix.lamports))
}

/// The envelope after its payload field.
spec fn ix_rest2(ix: InstructionV) -> Seq<u8> {
    spec_u64_to_le_bytes(ix.space) + spec_u64_to_le_bytes(ix.lamports)
}

/// Decode an instruction envelope, consuming the whole input.
pub fn decode_instruction(bytes: &[u8]) -> (r: Result<Instruction, DecodeError>)
    ensures
        match r {
            Ok(ix) => instruction_ok(ix@) && enc_instruction(ix@) == bytes@ && dec_instruction(
                bytes@,
            ) == Some(ix@),
            Err(_) => dec_instruction(bytes@) is None,
        },
{
    proof {
        lemma_auto_spec_u64_to_from_le_bytes();
        assert(bytes@.skip(0) =~= bytes@);
        assert(bytes@.subrange(0, bytes@.len() as int) =~= bytes@);
    }
    let (action, q1) = match read_u8(bytes, 0) {
        Some(x) => x,
        None => {
            proof {
                assert forall|jx: InstructionV| !(instruction_ok(jx) && enc_instruction(jx)
                    == bytes@) by {
                    assert(enc_instruction(jx).len() >= 1);
                }
            }
            return Err(DecodeError);
        },
    };
    proof {
        assert forall|jx: InstructionV| (instruction_ok(jx) && enc_instruction(jx) == bytes@)
            implies (jx.action == action && starts_with(bytes@.skip(q1 as int), ix_rest1(
            jx,
        ))) by {
            assert(starts_with(bytes@, seq![jx.action] + ix_rest1(jx)));
            lemma_starts_with_concat(bytes@, seq![jx.action], ix_rest1(jx));
            assert(bytes@.subrange(0, 1)[0] == jx.action);
        }
    }
    let (data, q2) = match read_bytes(bytes, q1) {
        Some(x) => x,
        None => {
            proof {
                assert forall|jx: InstructionV| !(instruction_ok(jx) && enc_instruction(jx)
                    == bytes@) by {
                    if instruction_ok(jx) && enc_instruction(jx) == bytes@ {
                        lemma_starts_with_concat(bytes@.skip(q1 as int), enc_bytes(jx.data),
                            ix_rest2(jx));
                    }
                }
            }
            return Err(DecodeError);
        },
    };
    proof {
        assert forall|jx: InstructionV| (instruction_ok(jx) && enc_instruction(jx) == bytes@)
            implies (jx.action == action && jx.data == data@ && starts_with(
            bytes@.skip(q2 as int),
            ix_rest2(jx),
        )) by {
            if instruction_ok(jx) && enc_instruction(jx) == bytes@ {
                let u = bytes@.skip(q1 as int);
                lemma_starts_with_concat(u, enc_bytes(jx.data), ix_rest2(jx));
                lemma_subrange_starts_with(bytes@, q1 as int, enc_bytes(data@));
                lemma_enc_bytes_prefix(u, jx.data, data@);
                lemma_skip_skip(bytes@, q1 as int, enc_bytes(data@).len() as int);
            }
        }
    }
    let (space, q3) = match read_u64(bytes, q2) {
        Some(x) => x,
        None => {
            proof {
                assert forall|jx: InstructionV| !(instruction_ok(jx) && enc_instruction(jx)
                    == bytes@) by {
                    if instruction_ok(jx) && enc_instruction(jx) == bytes@ {
                        lemma_starts_with_concat(
                            bytes@.skip(q2 as int),
                            spec_u64_to_le_bytes(jx.space),
                            spec_u64_to_le_bytes(jx.lamports),
                        );
                    }
                }
            }
            return Err(DecodeError);
        },
    };
    proof {
        assert forall|jx: InstructionV| (instruction_ok(jx) && enc_instruction(jx) == bytes@)
            implies (jx.action == action && jx.data == data@ && jx.space == space && starts_with(
            bytes@.skip(q3 as int),
            spec_u64_to_le_bytes(jx.lamports),
        )) by {
            if instruction_ok(jx) && enc_instruction(jx) == bytes@ {
                let u = bytes@.skip(q2 as int);
                lemma_starts_with_concat(u, spec_u64_to_le_bytes(jx.space), spec_u64_to_le_bytes(
                    jx.lamports));
                lemma_subrange_starts_with(bytes@, q2 as int, spec_u64_to_le_bytes(space));
                lemma_prefix_eq(u, spec_u64_to_le_bytes(jx.space), spec_u64_to_le_bytes(space));
                lemma_skip_skip(bytes@, q2 as int, 8);
            }
        }
    }
    let (lamports, q4) = match read_u64(bytes, q3) {
        Some(x) => x,
        None => {
            proof {
                assert forall|jx: InstructionV| !(instruction_ok(jx) && enc_instruction(jx)
                    == bytes@) by {}
            }
            return Err(DecodeError);
        },
    };
    proof {
        assert forall|jx: InstructionV| (instruction_ok(jx) && enc_instruction(jx) == bytes@)
            implies (jx.action == action && jx.data == data@ && jx.space == space && jx.lamports
            == lamports) by {
            if instruction_ok(jx) && enc_instruction(jx) == bytes@ {
                lemma_subrange_starts_with(bytes@, q3 as int, spec_u64_to_le_bytes(lamports));
                lemma_prefix_eq(
                    bytes@.skip(q3 as int),
                    spec_u64_to_le_bytes(jx.lamports),
                    spec_u64_to_le_bytes(lamports),
                );
            }
        }
        lemma_subrange_split(bytes@, 0, q1 as int, q2 as int);
        lemma_subrange_split(bytes@, 0, q2 as int, q3 as int);
        lemma_subrange_split(bytes@, 0, q3 as int, q4 as int);
        assert(bytes@.subrange(0, 1) =~= seq![action]);
        assert(bytes@.subrange(0, q4 as int) =~= seq![action] + (enc_bytes(data@) + (
        spec_u64_to_le_bytes(space) + spec_u64_to_le_bytes(lamports))));
    }
    if q4 != bytes.len() {
        proof {
            assert forall|jx: InstructionV| !(instruction_ok(jx) && enc_instruction(jx)
                == bytes@) by {
                if instruction_ok(jx) && enc_instruction(jx) == bytes@ {
                    let ghost pv = InstructionV {
                        action: action,
                        data: data@,
                        space: space,
                        lamports: lamports,
                    };
                    assert(jx =~= pv);
                    assert(enc_instruction(jx).len() == q4);
                }
            }
        }
        return Err(DecodeError);
    }
    let ix = Instruction { action, data, space, lamports };
    proof {
        assert(bytes@.subrange(0, bytes@.len() as int) =~= bytes@);
        assert(enc_instruction(ix@) == bytes@);
        lemma_instruction_round_trip(ix@);
    }
    Ok(ix)
}

/// The poll record after its owner field.
spec fn poll_rest1(p: PollV) -> Seq<u8> {
    enc_str(p.id) + (enc_str(p.question) + (enc_str_vec(p.options) + (enc_u32_vec(p.votes) + (seq![
    p.seed_bump] + enc_str(p.timestamp)))))
}

/// The poll record after its id field.
spec fn poll_rest2(p: PollV) -> Seq<u8> {
    enc_str(p.question) + (enc_str_vec(p.options) + (enc_u32_vec(p.votes) + (seq![p.seed_bump]
        + enc_str(p.timestamp))))
}

/// The poll record after its question field.
spec fn poll_rest3(p: PollV) -> Seq<u8> {
    enc_str_vec(p.options) + (enc_u32_vec(p.votes) + (seq![p.seed_bump] + enc_str(p.timestamp)))
}

/// The poll record after its options field.
spec fn poll_rest4(p: PollV) -> Seq<u8> {
    enc_u32_vec(p.votes) + (seq![p.seed_bump] + enc_str(p.timestamp))
}

/// The poll record after its votes field.
spec fn poll_rest5(p: PollV) -> Seq<u8> {
    seq![p.seed_bump] + enc_str(p.timestamp)
}

/// Decode a poll record, consuming the whole input.
#[verifier::spinoff_prover]
#[verifier::rlimit(100)]
pub fn decode_poll(bytes: &[u8]) -> (r: Result<Poll, DecodeError>)
    ensures
        match r {
            Ok(p) => poll_ok(p@) && enc_poll(p@) == bytes@ && dec_poll(bytes@) == Some(p@),
            Err(_) => dec_poll(bytes@) is None,
        },
{
    proof {
        assert(bytes@.skip(0) =~= bytes@);
        assert(bytes@.subrange(0, bytes@.len() as int) =~= bytes@);
    }
    let (owner, q1) = match read_string(bytes, 0) {
        Some(x) => x,
        None => {
            proof {
                assert forall|p: PollV| !(poll_ok(p) && enc_poll(p) == bytes@) by {
                    if poll_ok(p) && enc_poll(p) == bytes@ {
                        lemma_starts_with_concat(bytes@, enc_str(p.owner), poll_rest1(p));
                    }
                }
            }
            return Err(DecodeError);
        },
    };
    proof {
        assert forall|p: PollV| (poll_ok(p) && enc_poll(p) == bytes@) implies (p.owner == owner@
            && starts_with(bytes@.skip(q1 as int), poll_rest1(p))) by {
            if poll_ok(p) && enc_poll(p) == bytes@ {
                lemma_starts_with_concat(bytes@, enc_str(p.owner), poll_rest1(p));
                lemma_subrange_starts_with(bytes@, 0, enc_str(owner@));
                lemma_enc_str_prefix(bytes@, p.owner, owner@);
            }
        }
    }
    let (id, q2) = match read_string(bytes, q1) {
        Some(x) => x,
        None => {
            proof {
                assert forall|p: PollV| !(poll_ok(p) && enc_poll(p) == bytes@) by {
                    if poll_ok(p) && enc_poll(p) == bytes@ {
                        lemma_starts_with_concat(bytes@.skip(q1 as int), enc_str(p.id), poll_rest2(
                            p));
                    }
                }
            }
            return Err(DecodeError);
        },
    };
    proof {
        assert forall|p: PollV| (poll_ok(p) && enc_poll(p) == bytes@) implies (p.owner == owner@
            && p.id == id@ && starts_with(bytes@.skip(q2 as int), poll_rest2(p))) by {
            if poll_ok(p) && enc_poll(p) == bytes@ {
                let u = bytes@.skip(q1 as int);
                lemma_starts_with_concat(u, enc_str(p.id), poll_rest2(p));
                lemma_subrange_starts_with(bytes@, q1 as int, enc_str(id@));
                lemma_enc_str_prefix(u, p.id, id@);
                lemma_skip_skip(bytes@, q1 as int, enc_str(id@).len() as int);
            }
        }
    }
    let (question, q3) = match read_string(bytes, q2) {
        Some(x) => x,
        None => {
            proof {
                assert forall|p: PollV| !(poll_ok(p) && enc_poll(p) == bytes@) by {
                    if poll_ok(p) && enc_poll(p) == bytes@ {
                        lemma_starts_with_concat(
                            bytes@.skip(q2 as int),
                            enc_str(p.question),
                            poll_rest3(p),
                        );
                    }
                }
            }
            return Err(DecodeError);
        },
    };
    proof {
        assert forall|p: PollV| (poll_ok(p) && enc_poll(p) == bytes@) implies (p.owner == owner@
            && p.id == id@ && p.question == question@ && starts_with(
            bytes@.skip(q3 as int),
            poll_rest3(p),
        )) by {
            if poll_ok(p) && enc_poll(p) == bytes@ {
                let u = bytes@.skip(q2 as int);
                lemma_starts_with_concat(u, enc_str(p.question), poll_rest3(p));
                lemma_subrange_starts_with(bytes@, q2 as int, enc_str(question@));
                lemma_enc_str_prefix(u, p.question, question@);
                lemma_skip_skip(bytes@, q2 as int, enc_str(question@).len() as int);
            }
        }
    }
    let (options, q4) = match read_string_vec(bytes, q3) {
        Some(x) => x,
        None => {
            proof {
                assert forall|p: PollV| !(poll_ok(p) && enc_poll(p) == bytes@) by {
                    if poll_ok(p) && enc_poll(p) == bytes@ {
                        lemma_starts_with_concat(
                            bytes@.skip(q3 as int),
                            enc_str_vec(p.options),
                            poll_rest4(p),
                        );
                    }
                }
            }
            return Err(DecodeError);
        },
    };
    proof {
        assert forall|p: PollV| (poll_ok(p) && enc_poll(p) == bytes@) implies (p.owner == owner@
            && p.id == id@ && p.question == question@ && p.options == options.deep_view()
            && starts_with(bytes@.skip(q4 as int), poll_rest4(p))) by {
            if poll_ok(p) && enc_poll(p) == bytes@ {
                let u = bytes@.skip(q3 as int);
                lemma_starts_with_concat(u, enc_str_vec(p.options), poll_rest4(p));
                lemma_subrange_starts_with(bytes@, q3 as int, enc_str_vec(options.deep_view()));
                lemma_enc_str_vec_prefix(u, p.options, options.deep_view());
                lemma_skip_skip(bytes@, q3 as int, enc_str_vec(options.deep_view()).len() as int);
            }
        }
    }
    let (votes, q5) = match read_u32_vec(bytes, q4) {
        Some(x) => x,
        None => {
            proof {
                assert forall|p: PollV| !(poll_ok(p) && enc_poll(p) == bytes@) by {
                    if poll_ok(p) && enc_poll(p) == bytes@ {
                        lemma_starts_with_concat(
                            bytes@.skip(q4 as int),
                            enc_u32_vec(p.votes),
                            poll_rest5(p),
                        );
                    }
                }
            }
            return Err(DecodeError);
        },
    };
    proof {
        assert forall|p: PollV| (poll_ok(p) && enc_poll(p) == bytes@) implies (p.owner == owner@
            && p.id == id@ && p.question == question@ && p.options == options.deep_view()
            && p.votes == votes@ && starts_with(bytes@.skip(q5 as int), poll_rest5(p))) by {
            if poll_ok(p) && enc_poll(p) == bytes@ {
                let u = bytes@.skip(q4 as int);
                lemma_starts_with_concat(u, enc_u32_vec(p.votes), poll_rest5(p));
                lemma_subrange_starts_with(bytes@, q4 as int, enc_u32_vec(votes@));
                lemma_enc_u32_vec_prefix(u, p.votes, votes@);
                lemma_skip_skip(bytes@, q4 as int, enc_u32_vec(votes@).len() as int);
            }
        }
    }
    let (seed_bump, q6) = match read_u8(bytes, q5) {
        Some(x) => x,
        None => {
            proof {
                assert forall|p: PollV| !(poll_ok(p) && enc_poll(p) == bytes@) by {
                    if poll_ok(p) && enc_poll(p) == bytes@ {
                        lemma_starts_with_concat(
                            bytes@.skip(q5 as int),
                            seq![p.seed_bump],
                            enc_str(p.timestamp),
                        );
                    }
                }
            }
            return Err(DecodeError);
        },
    };
    proof {
        assert forall|p: PollV| (poll_ok(p) && enc_poll(p) == bytes@) implies (p.owner == owner@
            && p.id == id@ && p.question == question@ && p.options == options.deep_view()
            && p.votes == votes@ && p.seed_bump == seed_bump && starts_with(
            bytes@.skip(q6 as int),
            enc_str(p.timestamp),
        )) by {
            if poll_ok(p) && enc_poll(p) == bytes@ {
                let u = bytes@.skip(q5 as int);
                lemma_starts_with_concat(u, seq![p.seed_bump], enc_str(p.timestamp));
                assert(u.subrange(0, 1)[0] == p.seed_bump);
                assert(u[0] == bytes@[q5 as int]);
                lemma_skip_skip(bytes@, q5 as int, 1);
            }
        }
    }
    let (timestamp, q7) = match read_string(bytes, q6) {
        Some(x) => x,
        None => {
            proof {
                assert forall|p: PollV| !(poll_ok(p) && enc_poll(p) == bytes@) by {}
            }
            return Err(DecodeError);
        },
    };
    proof {
        assert forall|p: PollV| (poll_ok(p) && enc_poll(p) == bytes@) implies (p.owner == owner@
            && p.id == id@ && p.question == question@ && p.options == options.deep_view()
            && p.votes == votes@ && p.seed_bump == seed_bump && p.timestamp == timestamp@) by {
            if poll_ok(p) && enc_poll(p) == bytes@ {
                let u = bytes@.skip(q6 as int);
                lemma_subrange_starts_with(bytes@, q6 as int, enc_str(timestamp@));
                lemma_enc_str_prefix(u, p.timestamp, timestamp@);
            }
        }
        lemma_subrange_split(bytes@, 0, q1 as int, q2 as int);
        lemma_subrange_split(bytes@, 0, q2 as int, q3 as int);
        lemma_subrange_split(bytes@, 0, q3 as int, q4 as int);
        lemma_subrange_split(bytes@, 0, q4 as int, q5 as int);
        lemma_subrange_split(bytes@, 0, q5 as int, q6 as int);
        lemma_subrange_split(bytes@, 0, q6 as int, q7 as int);
        assert(bytes@.subrange(q5 as int, q6 as int) =~= seq![seed_bump]);
        assert(bytes@.subrange(0, q7 as int) =~= enc_str(owner@) + (enc_str(id@) + (enc_str(
            question@,
        ) + (enc_str_vec(options.deep_view()) + (enc_u32_vec(votes@) + (seq![seed_bump] + enc_str(
            timestamp@,
        )))))));
    }
    if q7 != bytes.len() {
        proof {
            assert forall|p: PollV| !(poll_ok(p) && enc_poll(p) == bytes@) by {
                if poll_ok(p) && enc_poll(p) == bytes@ {
                    let ghost pv = PollV {
                        owner: owner@,
                        id: id@,
                        question: question@,
                        options: options.deep_view(),
                        votes: votes@,
                        seed_bump: seed_bump,
                        timestamp: timestamp@,
                    };
                    assert(p =~= pv);
                    assert(enc_poll(p).len() == q7);
                }
            }
        }
        return Err(DecodeError);
    }
    let p = Poll { owner, id, question, options, votes, seed_bump, timestamp };
    proof {
        assert(enc_poll(p@) == bytes@);
        lemma_poll_round_trip(p@);
    }
    Ok(p)
}

// ---------------------------------------------------------------------
// Encoding. Each encoder emits exactly the spec-level encoding, and fails
// precisely when a field is too long for its length prefix.
// ---------------------------------------------------------------------

fn push_all(out: &mut Vec<u8>, src: &[u8])
    ensures
        final(out)@ == old(out)@ + src@,
{
    let mut i: usize = 0;
    while i < src.len()
        invariant
            i <= src@.len(),
            out@ == old(out)@ + src@.take(i as int),
        decreases src@.len() - i,
    {
        out.push(*vstd::slice::slice_index_get(src, i));
        proof {
            assert(old(out)@ + src@.take(i + 1) =~= (old(out)@ + src@.take(i as int)).push(
                src@[i as int]));
        }
        i = i + 1;
    }
    proof {
        assert(src@.take(src@.len() as int) =~= src@);
    }
}

fn push_u32(out: &mut Vec<u8>, v: u32)
    ensures
        final(out)@ == old(out)@ + spec_u32_to_le_bytes(v),
{
    let b = u32_to_le_bytes(v);
    push_all(out, b.as_slice());
}

fn push_u64(out: &mut Vec<u8>, v: u64)
    ensures
        final(out)@ == old(out)@ + spec_u64_to_le_bytes(v),
{
    let b = u64_to_le_bytes(v);
    push_all(out, b.as_slice());
}

fn push_bytes_field(out: &mut Vec<u8>, b: &Vec<u8>) -> (ok: bool)
    ensures
        ok ==> bytes_ok(b@) && final(out)@ == old(out)@ + enc_bytes(b@),
        !ok ==> !bytes_ok(b@) && final(out)@ == old(out)@,
{
    if b.len() > u32::MAX as usize {
        return false;
    }
    push_u32(out, b.len() as u32);
    push_all(out, b.as_slice());
    proof {
        assert(old(out)@ + enc_bytes(b@) =~= (old(out)@ + spec_u32_to_le_bytes(b@.len() as u32))
            + b@);
    }
    true
}

fn push_str_field(out: &mut Vec<u8>, s: &String) -> (ok: bool)
    ensures
        ok ==> str_ok(s@) && final(out)@ == old(out)@ + enc_str(s@),
        !ok ==> !str_ok(s@) && final(out)@ == old(out)@,
{
    let b = s.as_str().as_bytes_vec();
    if b.len() > u32::MAX as usize {
        return false;
    }
    push_u32(out, b.len() as u32);
    push_all(out, b.as_slice());
    proof {
        assert(old(out)@ + enc_str(s@) =~= (old(out)@ + spec_u32_to_le_bytes(b@.len() as u32))
            + b@);
    }
    true
}

/// Encode a cast-vote payload.
pub fn encode_cast_vote(v: &CastVote) -> (r: Result<Vec<u8>, EncodeError>)
    ensures
        match r {
            Ok(b) => cast_vote_ok(v@) && b@ == enc_cast_vote(v@),
            Err(_) => !cast_vote_ok(v@),
        },
{
    let mut out: Vec<u8> = Vec::new();
    if !push_str_field(&mut out, &v.option) {
        return Err(EncodeError);
    }
    proof {
        assert(out@ =~= enc_cast_vote(v@));
    }
    Ok(out)
}

/// Encode an instruction envelope.
pub fn encode_instruction(ix: &Instruction) -> (r: Result<Vec<u8>, EncodeError>)
    ensures
        match r {
            Ok(b) => instruction_ok(ix@) && b@ == enc_instruction(ix@),
            Err(_) => !instruction_ok(ix@),
        },
{
    let mut out: Vec<u8> = Vec::new();
    out.push(ix.action);
    if !push_bytes_field(&mut out, &ix.data) {
        return Err(EncodeError);
    }
    push_u64(&mut out, ix.space);
    push_u64(&mut out, ix.lamports);
    proof {
        assert(Seq::<u8>::empty().push(ix.action) =~= seq![ix.action]);
        assert(out@ =~= enc_instruction(ix@));
    }
    Ok(out)
}

/// Encode a poll record.
pub fn encode_poll(p: &Poll) -> (r: Result<Vec<u8>, EncodeError>)
    ensures
        match r {
            Ok(b) => poll_ok(p@) && b@ == enc_poll(p@),
            Err(_) => !poll_ok(p@),
        },
{
    let mut out: Vec<u8> = Vec::new();
    if !push_str_field(&mut out, &p.owner) {
        return Err(EncodeError);
    }
    if !push_str_field(&mut out, &p.id) {
        return Err(EncodeError);
    }
    if !push_str_field(&mut out, &p.question) {
        return Err(EncodeError);
    }
    if p.options.len() > u32::MAX as usize {
        return Err(EncodeError);
    }
    push_u32(&mut out, p.options.len() as u32);
    let ghost base = out@;
    let mut i: usize = 0;
    proof {
        assert(base + enc_str_seq(p.options.deep_view().take(0)) =~= base);
    }
    while i < p.options.len()
        invariant
            i <= p.options@.len(),
            p.options.deep_view().len() == p.options@.len(),
            forall|j: int|
                0 <= j < i ==> str_ok(#[trigger] p.options.deep_view()[j]),
            out@ == base + enc_str_seq(p.options.deep_view().take(i as int)),
        decreases p.options@.len() - i,
    {
        if !push_str_field(&mut out, &p.options[i]) {
            proof {
                assert(p.options.deep_view()[i as int] == p.options@[i as int]@);
                assert(!str_seq_ok(p@.options));
            }
            return Err(EncodeError);
        }
        proof {
            let dv = p.options.deep_view();
            lemma_enc_str_seq_push(dv.take(i as int), dv[i as int]);
            assert(dv.take(i as int).push(dv[i as int]) =~= dv.take(i + 1));
            assert(base + (enc_str_seq(dv.take(i as int)) + enc_str(dv[i as int])) =~= (base
                + enc_str_seq(dv.take(i as int))) + enc_str(dv[i as int]));
        }
        i = i + 1;
    }
    proof {
        assert(p.options.deep_view().take(p.options@.len() as int) =~= p.options.deep_view());
    }
    if p.votes.len() > u32::MAX as usize {
        return Err(EncodeError);
    }
    push_u32(&mut out, p.votes.len() as u32);
    let ghost base2 = out@;
    let mut k: usize = 0;
    proof {
        assert(base2 + enc_u32_seq(p.votes@.take(0)) =~= base2);
    }
    while k < p.votes.len()
        invariant
            k <= p.votes@.len(),
            out@ == base2 + enc_u32_seq(p.votes@.take(k as int)),
        decreases p.votes@.len() - k,
    {
        push_u32(&mut out, p.votes[k]);
        proof {
            lemma_enc_u32_seq_push(p.votes@.take(k as int), p.votes@[k as int]);
            assert(p.votes@.take(k as int).push(p.votes@[k as int]) =~= p.votes@.take(k + 1));
            assert(base2 + (enc_u32_seq(p.votes@.take(k as int)) + spec_u32_to_le_bytes(
                p.votes@[k as int])) =~= (base2 + enc_u32_seq(p.votes@.take(k as int)))
                + spec_u32_to_le_bytes(p.votes@[k as int]));
        }
        k = k + 1;
    }
    proof {
        assert(p.votes@.take(p.votes@.len() as int) =~= p.votes@);
    }
    out.push(p.seed_bump);
    if !push_str_field(&mut out, &p.timestamp) {
        return Err(EncodeError);
    }
    proof {
        assert(out@ =~= enc_poll(p@));
    }
    Ok(out)
}

} // verus!
