//! The protocol laws the library guarantees, stated over the pure models
//! of the decoder, the reassembler and the encoder, and proved once and
//! for all.

use vstd::prelude::*;
use vstd::arithmetic::div_mod::{
    lemma_div_denominator, lemma_div_is_ordered, lemma_div_pos_is_pos, lemma_fundamental_div_mod,
    lemma_small_mod,
};
use vstd::utf8::{valid_utf8, valid_utf8_concat};
use crate::frame::{FrameView, Opcode};
use crate::reader::{
    reassembly_step, spec_decode, spec_len16, spec_len64, spec_unmask, state_wf, FragState,
    StepOut, WireParse,
};
use crate::text::{
    incomplete_suffix, lemma_prefix_of_valid_scans_clean, lemma_scan_append,
    lemma_scan_complete_iff_valid, lemma_scan_prefix_valid, lemma_scan_valid_len_bounds,
    scan_valid_len,
};
use crate::writer::{spec_encode, spec_first_byte, spec_len_field};

verus! {

/// The payload bytes of a frame sequence, concatenated in wire order.
pub open spec fn concat_payloads(frames: Seq<FrameView>) -> Seq<u8>
    decreases frames.len(),
{
    if frames.len() == 0 {
        Seq::<u8>::empty()
    } else {
        frames[0].data + concat_payloads(frames.drop_first())
    }
}

/// `frames` carves one text message into fragments: a Text frame first,
/// Continuation frames after it, the final-fragment flag exactly on the
/// last frame.
pub open spec fn is_text_fragmentation(frames: Seq<FrameView>) -> bool {
    &&& frames.len() >= 1
    &&& frames[0].opcode == Opcode::Text
    &&& forall|i: int| 1 <= i < frames.len() ==> frames[i].opcode == Opcode::Continuation
    &&& forall|i: int| 0 <= i < frames.len() - 1 ==> !frames[i].fin
    &&& frames.last().fin
}

/// The reassembly state after feeding `frames` one by one.
pub open spec fn run_state(max: nat, st: FragState, frames: Seq<FrameView>) -> FragState
    decreases frames.len(),
{
    if frames.len() == 0 {
        st
    } else {
        run_state(max, reassembly_step(max, st, frames[0]).0, frames.drop_first())
    }
}

/// Feeding `frames` one by one raises no error and emits nothing: every
/// step asks for more.
pub open spec fn run_quiet(max: nat, st: FragState, frames: Seq<FrameView>) -> bool
    decreases frames.len(),
{
    if frames.len() == 0 {
        true
    } else {
        &&& reassembly_step(max, st, frames[0]).1 is More
        &&& run_quiet(max, reassembly_step(max, st, frames[0]).0, frames.drop_first())
    }
}

/// The canonical text state after absorbing the first `i` bytes of the
/// eventual message `w`: the scanned prefix buffered, the rest stashed.
pub open spec fn text_state_at(w: Seq<u8>, i: int) -> FragState {
    let s = w.take(i);
    FragState::TextFrag { buf: s.take(scan_valid_len(s)), trail: s.skip(scan_valid_len(s)) }
}

proof fn lemma_text_run(max: nat, w: Seq<u8>, i: int, frames: Seq<FrameView>)
    requires
        valid_utf8(w),
        w.len() <= max,
        0 <= i <= w.len(),
        frames.len() >= 1,
        forall|k: int| 0 <= k < frames.len() ==> frames[k].opcode == Opcode::Continuation,
        forall|k: int| 0 <= k < frames.len() - 1 ==> !frames[k].fin,
        frames.last().fin,
        concat_payloads(frames) == w.skip(i),
    ensures
        run_quiet(max, text_state_at(w, i), frames.drop_last()),
        reassembly_step(max, run_state(max, text_state_at(w, i), frames.drop_last()),
            frames.last()).1 == StepOut::Emit(
            FrameView { fin: true, opcode: Opcode::Text, data: w },
        ),
        reassembly_step(max, run_state(max, text_state_at(w, i), frames.drop_last()),
            frames.last()).0 is Idle,
    decreases frames.len(),
{
    let s = w.take(i);
    let v = scan_valid_len(s);
    let bb = s.take(v);
    let tt = s.skip(v);
    let st = text_state_at(w, i);
    lemma_scan_valid_len_bounds(s);
    lemma_scan_prefix_valid(s);
    lemma_prefix_of_valid_scans_clean(w, i);
    let d = frames[0].data;
    assert(w.skip(i).len() == d.len() + concat_payloads(frames.drop_first()).len()) by {
        lemma_concat_payloads_len(frames);
    }
    let j = i + d.len();
    assert(d =~= w.subrange(i, j)) by {
        assert forall|k: int| 0 <= k < d.len() implies d[k] == w.skip(i)[k] by {}
    }
    assert(bb.len() + tt.len() == i);
    let c = tt + d;
    assert(bb + c =~= w.take(j));
    assert(valid_utf8(bb));
    lemma_scan_append(bb, c);
    let sj = w.take(j);
    let vj = scan_valid_len(sj);
    lemma_scan_valid_len_bounds(sj);
    assert(vj == bb.len() + scan_valid_len(c));
    lemma_prefix_of_valid_scans_clean(w, j);
    let rem = c.skip(scan_valid_len(c));
    assert(rem =~= sj.skip(vj));
    assert(rem.len() == 0 || incomplete_suffix(rem));
    let step0 = reassembly_step(max, st, frames[0]);
    assert(bb.len() + tt.len() + d.len() <= max);
    if frames.len() == 1 {
        assert(frames[0].fin);
        assert(concat_payloads(frames.drop_first()) =~= Seq::<u8>::empty());
        assert(j == w.len());
        assert(sj =~= w);
        lemma_scan_complete_iff_valid(w);
        assert(rem.len() == 0);
        assert(bb + c == w);
        assert(step0.1 == StepOut::Emit(FrameView { fin: true, opcode: Opcode::Text, data: w }));
        assert(step0.0 is Idle);
        assert(frames.drop_last() =~= Seq::<FrameView>::empty());
        assert(run_state(max, st, frames.drop_last()) == st);
    } else {
        assert(!frames[0].fin);
        assert(step0.1 is More);
        let bb2 = bb + c.take(scan_valid_len(c));
        let st2 = text_state_at(w, j);
        assert(bb2 =~= sj.take(vj));
        assert(step0.0 == st2);
        let rest = frames.drop_first();
        assert(rest.last() == frames.last());
        assert(concat_payloads(rest) =~= w.skip(j)) by {
            assert(concat_payloads(frames) == d + concat_payloads(rest));
            assert forall|k: int| 0 <= k < concat_payloads(rest).len() implies concat_payloads(
                rest,
            )[k] == w.skip(j)[k] by {
                assert(concat_payloads(rest)[k] == w.skip(i)[k + d.len()]);
            }
        }
        lemma_text_run(max, w, j, rest);
        assert(frames.drop_last()[0] == frames[0]);
        assert(frames.drop_last().drop_first() =~= rest.drop_last());
        assert(run_quiet(max, st, frames.drop_last()));
        assert(run_state(max, st, frames.drop_last()) == run_state(max, st2, rest.drop_last()));
    }
}

proof fn lemma_concat_payloads_len(frames: Seq<FrameView>)
    requires
        frames.len() >= 1,
    ensures
        concat_payloads(frames).len() == frames[0].data.len() + concat_payloads(
            frames.drop_first(),
        ).len(),
{
}

/// Any fragmentation of a valid text message reassembles to exactly that
/// message: feeding the frames in order raises no error, emits nothing
/// until the final fragment, and the final fragment yields one Text frame
/// whose payload is the concatenation of all the fragments' payloads,
/// leaving the reassembler idle.
pub proof fn lemma_fragmented_text_reassembles(max: nat, frames: Seq<FrameView>)
    requires
        is_text_fragmentation(frames),
        valid_utf8(concat_payloads(frames)),
        concat_payloads(frames).len() <= max,
    ensures
        run_quiet(max, FragState::Idle, frames.drop_last()),
        reassembly_step(max, run_state(max, FragState::Idle, frames.drop_last()),
            frames.last()).1 == StepOut::Emit(
            FrameView { fin: true, opcode: Opcode::Text, data: concat_payloads(frames) },
        ),
        reassembly_step(max, run_state(max, FragState::Idle, frames.drop_last()),
            frames.last()).0 is Idle,
{
    let w = concat_payloads(frames);
    let d0 = frames[0].data;
    assert(w.len() == d0.len() + concat_payloads(frames.drop_first()).len()) by {
        lemma_concat_payloads_len(frames);
    }
    assert(d0 =~= w.take(d0.len() as int)) by {
        assert forall|k: int| 0 <= k < d0.len() implies d0[k] == w[k] by {}
    }
    if frames.len() == 1 {
        assert(frames[0].fin);
        assert(concat_payloads(frames.drop_first()) =~= Seq::<u8>::empty());
        assert(d0 =~= w);
        let step0 = reassembly_step(max, FragState::Idle, frames[0]);
        assert(frames[0] == (FrameView { fin: true, opcode: Opcode::Text, data: w }));
        assert(step0.1 == StepOut::Emit(FrameView { fin: true, opcode: Opcode::Text, data: w }));
        assert(frames.drop_last() =~= Seq::<FrameView>::empty());
    } else {
        assert(!frames[0].fin);
        let i = d0.len() as int;
        let step0 = reassembly_step(max, FragState::Idle, frames[0]);
        lemma_prefix_of_valid_scans_clean(w, i);
        assert(w.take(i) =~= d0);
        lemma_scan_valid_len_bounds(d0);
        assert(step0.1 is More);
        assert(step0.0 == text_state_at(w, i));
        let rest = frames.drop_first();
        assert(rest.last() == frames.last());
        assert(concat_payloads(rest) =~= w.skip(i)) by {
            assert forall|k: int| 0 <= k < concat_payloads(rest).len() implies concat_payloads(
                rest,
            )[k] == w.skip(i)[k] by {}
        }
        lemma_text_run(max, w, i, rest);
        assert(frames.drop_last()[0] == frames[0]);
        assert(frames.drop_last().drop_first() =~= rest.drop_last());
        assert(run_quiet(max, FragState::Idle, frames.drop_last()));
        assert(run_state(max, FragState::Idle, frames.drop_last()) == run_state(
            max,
            text_state_at(w, i),
            rest.drop_last(),
        ));
    }
}

/// A Text message the reassembler emits is always valid UTF-8: bytes that
/// are not valid UTF-8 never leave the reassembler inside a Text frame.
pub proof fn lemma_emitted_text_valid(max: nat, st: FragState, f: FrameView)
    requires
        state_wf(st, max),
    ensures
        match reassembly_step(max, st, f).1 {
            StepOut::Emit(g) => g.opcode == Opcode::Text ==> valid_utf8(g.data),
            _ => true,
        },
{
    if f.opcode == Opcode::Continuation {
        match st {
            FragState::TextFrag { buf, trail } => {
                if buf.len() + trail.len() + f.data.len() <= max {
                    let c = trail + f.data;
                    let rem = c.skip(scan_valid_len(c));
                    if rem.len() == 0 || incomplete_suffix(rem) {
                        lemma_scan_valid_len_bounds(c);
                        lemma_scan_prefix_valid(c);
                        if f.fin && rem.len() == 0 {
                            lemma_scan_complete_iff_valid(c);
                            valid_utf8_concat(buf, c);
                        }
                    }
                }
            },
            _ => {},
        }
    }
}

/// What a client would put on the wire for the server frame `e`: the
/// mask bit set, a 4-byte masking key, and the payload XORed with it.
pub open spec fn spec_mask_client(e: Seq<u8>, key: Seq<u8>) -> Seq<u8> {
    let len7 = e[1] & 0x7f;
    let ext: int = if len7 == 126 {
        2
    } else if len7 == 127 {
        8
    } else {
        0
    };
    seq![e[0], e[1] | 0x80] + e.subrange(2, 2 + ext) + key + spec_unmask(
        e.subrange(2 + ext, e.len() as int),
        key,
    )
}

proof fn lemma_be2_value(n: int)
    requires
        0 <= n <= 0xffff,
    ensures
        ((n / 0x100) % 0x100) * 0x100 + n % 0x100 == n,
{
    lemma_fundamental_div_mod(n, 0x100);
    lemma_div_is_ordered(n, 0xffff, 0x100);
    lemma_div_pos_is_pos(n, 0x100);
    lemma_small_mod((n / 0x100) as nat, 0x100);
}

proof fn lemma_be8_value(n: int)
    requires
        0 <= n < 0x10000000000000000,
    ensures
        ((n / 0x100000000000000) % 0x100) * 0x100000000000000 + ((n / 0x1000000000000) % 0x100)
            * 0x1000000000000 + ((n / 0x10000000000) % 0x100) * 0x10000000000 + ((n / 0x100000000)
            % 0x100) * 0x100000000 + ((n / 0x1000000) % 0x100) * 0x1000000 + ((n / 0x10000)
            % 0x100) * 0x10000 + ((n / 0x100) % 0x100) * 0x100 + n % 0x100 == n,
{
    lemma_fundamental_div_mod(n, 0x100);
    lemma_div_denominator(n, 0x100, 0x100);
    lemma_fundamental_div_mod(n / 0x100, 0x100);
    lemma_div_denominator(n, 0x10000, 0x100);
    lemma_fundamental_div_mod(n / 0x10000, 0x100);
    lemma_div_denominator(n, 0x1000000, 0x100);
    lemma_fundamental_div_mod(n / 0x1000000, 0x100);
    lemma_div_denominator(n, 0x100000000, 0x100);
    lemma_fundamental_div_mod(n / 0x100000000, 0x100);
    lemma_div_denominator(n, 0x10000000000, 0x100);
    lemma_fundamental_div_mod(n / 0x10000000000, 0x100);
    lemma_div_denominator(n, 0x1000000000000, 0x100);
    lemma_fundamental_div_mod(n / 0x1000000000000, 0x100);
    lemma_div_denominator(n, 0x100000000000000, 0x100);
    lemma_fundamental_div_mod(n / 0x100000000000000, 0x100);
    lemma_div_is_ordered(n, 0xffffffffffffffff, 0x100000000000000);
    lemma_div_pos_is_pos(n, 0x100000000000000);
    lemma_small_mod((n / 0x100000000000000) as nat, 0x100);
}

/// Encode, then decode: a frame a server encodes, reinterpreted as a
/// masked client frame under any 4-byte key, decodes back to the same
/// flag, opcode and payload.  (A Ping over 125 bytes and a Close with a
/// 1-byte payload are rejected by the decoder by design, so they are
/// excluded here, as are payloads past the configured limit.)
#[verifier::rlimit(60)]
pub proof fn lemma_encode_decode_roundtrip(f: FrameView, key: Seq<u8>, max: nat)
    requires
        f.fin,
        key.len() == 4,
        f.data.len() <= max,
        f.data.len() < 0x10000000000000000,
        !(f.opcode == Opcode::Ping && f.data.len() > 125),
        !(f.opcode == Opcode::Close && f.data.len() == 1),
    ensures
        spec_decode(spec_mask_client(spec_encode(f), key), max) == (WireParse::Parsed {
            fin: true,
            opcode: f.opcode,
            data: f.data,
            used: spec_encode(f).len() + 4 as int,
        }),
{
    let e = spec_encode(f);
    let n = f.data.len() as int;
    let w = f.opcode.spec_wire();
    let b0 = spec_first_byte(true, f.opcode);
    assert(b0 == (0x80u8 | w));
    assert((0x80u8 | w) & 0x70 == 0 && (0x80u8 | w) & 0x0f == w && ((0x80u8 | w) & 0x80) != 0)
        by (bit_vector)
        requires
            w == 0 || w == 1 || w == 2 || w == 8 || w == 9 || w == 10,
    ;
    assert(Opcode::spec_from_u8(w) == Some(f.opcode));
    let lf = spec_len_field(n);
    let l0 = lf[0];
    assert(e[0] == b0);
    assert(e[1] == l0);
    assert(l0 <= 0x7f) by {
        if n <= 125 {
            assert(l0 == n as u8);
        }
    }
    assert(((l0 | 0x80) & 0x7f) == l0 && ((l0 | 0x80) & 0x80) != 0 && (l0 & 0x7f) == l0)
        by (bit_vector)
        requires
            l0 <= 0x7f,
    ;
    let m = spec_mask_client(e, key);
    let ext: int = if l0 == 126 {
        2
    } else if l0 == 127 {
        8
    } else {
        0
    };
    assert(lf.len() == 1 + ext) by {
        if n <= 125 {
            assert(l0 == n as u8 && n <= 125);
        }
    }
    assert(e.len() == 2 + ext + n);
    assert(e.subrange(2 + ext, e.len() as int) =~= f.data);
    assert(m.len() == 2 + ext + 4 + n);
    assert(m[0] == b0 && m[1] == (l0 | 0x80));
    assert(forall|k: int| 0 <= k < ext ==> #[trigger] m[2 + k] == e[2 + k]);
    assert(forall|k: int| 0 <= k < 4 ==> #[trigger] m[2 + ext + k] == key[k]);
    let md = spec_unmask(f.data, key);
    assert(forall|k: int| 0 <= k < n ==> #[trigger] m[2 + ext + 4 + k] == md[k]);
    let raw = m.subrange(2 + ext + 4, m.len() as int);
    assert(raw =~= md);
    assert(m.subrange(2 + ext, 2 + ext + 4) =~= key);
    let back = spec_unmask(raw, key);
    assert forall|k: int| 0 <= k < n implies back[k] == f.data[k] by {
        let x = f.data[k];
        let kb = key[k % 4];
        assert((x ^ kb) ^ kb == x) by (bit_vector);
    }
    assert(back =~= f.data);
    // the decoder recomputes the payload length
    if n <= 125 {
        assert(l0 == n as u8);
        assert((l0 & 0x7f) == l0);
    } else if n <= 0xffff {
        assert(l0 == 126);
        assert(m[2] == e[2] && m[3] == e[3]);
        assert(e[2] == ((n / 0x100) % 0x100) as u8 && e[3] == (n % 0x100) as u8);
        lemma_be2_value(n);
        assert(spec_len16(m[2], m[3]) == n);
    } else {
        assert(l0 == 127);
        let b = m.subrange(2, 10);
        assert forall|k: int| 0 <= k < 8 implies b[k] == e[2 + k] by {}
        lemma_be8_value(n);
        assert(spec_len64(b) == n);
    }
    assert(spec_decode(m, max) == (WireParse::Parsed {
        fin: true,
        opcode: f.opcode,
        data: f.data,
        used: spec_encode(f).len() + 4 as int,
    }));
}

/// A control frame passes through the reassembler untouched: it is
/// emitted at once, exactly as it arrived, and the fragment state of the
/// surrounding data message does not change.  Control frames are
/// therefore delivered in wire order and never merged into a message.
pub proof fn lemma_control_passes_through(max: nat, st: FragState, f: FrameView)
    requires
        f.opcode.spec_is_control(),
    ensures
        reassembly_step(max, st, f).0 == st,
        reassembly_step(max, st, f).1 == StepOut::Emit(f),
{
}

} // verus!
