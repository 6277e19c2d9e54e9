//! The codec as mathematics: the dictionary's evolution, the greedy encoder,
//! the decoder, the stream layout, and the laws that tie them together.
use crate::bits::{
    bits_of_value, byte_padded, lemma_bits_of_value_len, lemma_padding_bound,
    lemma_value_of_bits_of_value, two_pow, value_of_bits, zero_bits, padding_for,
};
use crate::policy::{
    lemma_growing_width_fits, Capacity, LzwError, OnFull, Policy, WidthMode, INITIAL_SIZE,
};
use vstd::prelude::*;

verus! {

/// The 256 single-byte phrases: code `i` stands for byte `i`.
pub open spec fn initial_dict() -> Seq<Seq<u8>> {
    Seq::new(256, |i: int| seq![i as u8])
}

/// The dictionary once the check for a reset has been made.
pub open spec fn dict_after_reset(p: Policy, d: Seq<Seq<u8>>) -> Seq<Seq<u8>> {
    if p.resets() && d.len() == p.limit() {
        initial_dict()
    } else {
        d
    }
}

/// The dictionary after an attempt to register `e` under the next code.
pub open spec fn dict_with(p: Policy, d: Seq<Seq<u8>>, e: Seq<u8>) -> Seq<Seq<u8>> {
    if p.has_room(d.len()) {
        d.push(e)
    } else {
        d
    }
}

/// The code of a phrase that the dictionary holds.
pub open spec fn code_of(d: Seq<Seq<u8>>, phrase: Seq<u8>) -> nat {
    choose|i: nat| i < d.len() && #[trigger] d[i as int] == phrase
}

/// The policy as the header carries it: an unbounded stream never resets.
pub open spec fn canonical(p: Policy) -> Policy {
    match p.capacity {
        Capacity::Unbounded => Policy {
            width_mode: WidthMode::Growing,
            capacity: Capacity::Unbounded,
            on_full: OnFull::Freeze,
        },
        Capacity::Bounded(_) => p,
    }
}

/// The header: the maximum width in 8 bits (0 when unbounded), then, when
/// bounded, one bit for a reset when full and one for fixed-width codes.
pub open spec fn header_bits(p: Policy) -> Seq<bool> {
    match p.capacity {
        Capacity::Unbounded => bits_of_value(0, 8),
        Capacity::Bounded(w) => bits_of_value(w as nat, 8).push(p.on_full == OnFull::Reset).push(
            p.width_mode == WidthMode::Fixed,
        ),
    }
}

/// The encoder between two input bytes.
pub struct EncodeState {
    pub dict: Seq<Seq<u8>>,
    /// The longest match so far, not yet sent.
    pub pending: Seq<u8>,
    /// The codes sent so far.
    pub bits: Seq<bool>,
}

/// One input byte: extend the match while the dictionary knows it; else send
/// the match's code, check for a reset, and register the extended phrase.
pub open spec fn encode_byte(p: Policy, st: EncodeState, b: u8) -> EncodeState {
    let ext = st.pending.push(b);
    if st.dict.contains(ext) {
        EncodeState { dict: st.dict, pending: ext, bits: st.bits }
    } else {
        EncodeState {
            dict: dict_with(p, dict_after_reset(p, st.dict), ext),
            pending: seq![b],
            bits: st.bits + bits_of_value(code_of(st.dict, st.pending), p.width_for(st.dict.len())),
        }
    }
}

/// The encoder after the bytes `s`.
pub open spec fn encode_state(p: Policy, s: Seq<u8>) -> EncodeState
    decreases s.len(),
{
    if s.len() == 0 {
        EncodeState { dict: initial_dict(), pending: Seq::empty(), bits: Seq::empty() }
    } else {
        encode_byte(p, encode_state(p, s.drop_last()), s.last())
    }
}

/// The codes of `s`: those sent on the way, then the code of the final match.
pub open spec fn encode_body(p: Policy, s: Seq<u8>) -> Seq<bool> {
    let st = encode_state(p, s);
    if st.pending.len() == 0 {
        st.bits
    } else {
        st.bits + bits_of_value(code_of(st.dict, st.pending), p.width_for(st.dict.len()))
    }
}

/// The stream for `s` under `p`, before the padding to a whole byte.
pub open spec fn encode_stream(p: Policy, s: Seq<u8>) -> Seq<bool> {
    header_bits(p) + encode_body(canonical(p), s)
}

/// The decoder after at least one code.
pub struct DecodeState {
    pub dict: Seq<Seq<u8>>,
    /// The phrase of the last code.
    pub prev: Seq<u8>,
    /// Every byte decoded so far.
    pub out: Seq<u8>,
}

/// The first code names one of the 256 single-byte phrases.
pub open spec fn decode_first(c: nat) -> Option<DecodeState> {
    if c < 256 {
        Some(DecodeState { dict: initial_dict(), prev: seq![c as u8], out: seq![c as u8] })
    } else {
        None
    }
}

/// A later code: after the check for a reset, a known code gives its phrase;
/// the code about to be assigned gives the previous phrase and its first byte.
pub open spec fn decode_next(p: Policy, st: DecodeState, c: nat) -> Option<DecodeState> {
    let d = dict_after_reset(p, st.dict);
    if c < d.len() {
        let e = d[c as int];
        Some(DecodeState { dict: dict_with(p, d, st.prev.push(e[0])), prev: e, out: st.out + e })
    } else if c == d.len() && p.has_room(d.len()) {
        let e = st.prev.push(st.prev[0]);
        Some(DecodeState { dict: dict_with(p, d, e), prev: e, out: st.out + e })
    } else {
        None
    }
}

pub open spec fn decode_step(p: Policy, st: Option<DecodeState>, c: nat) -> Option<DecodeState> {
    match st {
        None => decode_first(c),
        Some(s) => decode_next(p, s, c),
    }
}

/// The dictionary size that the encoder had when it sent the next code.
pub open spec fn sender_size(p: Policy, st: Option<DecodeState>) -> nat {
    match st {
        None => INITIAL_SIZE as nat,
        Some(s) => p.next_size(s.dict.len()),
    }
}

pub open spec fn decoded(st: Option<DecodeState>) -> Seq<u8> {
    match st {
        None => Seq::empty(),
        Some(s) => s.out,
    }
}

/// Decoding the codes in `bits`: fewer bits than a byte left is the clean end;
/// more, but fewer than a code, is a truncated stream.
pub open spec fn decode_body(p: Policy, bits: Seq<bool>, st: Option<DecodeState>) -> Result<
    Seq<u8>,
    LzwError,
>
    decreases bits.len(),
{
    let w = p.width_for(sender_size(p, st));
    if bits.len() < w {
        if bits.len() < 8 {
            Ok(decoded(st))
        } else {
            Err(LzwError::UnexpectedEnd)
        }
    } else if w == 0 {
        Err(LzwError::InvalidConfig)
    } else {
        match decode_step(p, st, value_of_bits(bits.take(w as int))) {
            None => Err(LzwError::InvalidCode),
            Some(s) => decode_body(p, bits.skip(w as int), Some(s)),
        }
    }
}

/// The policy that a header of at least 10 bits declares, for a bounded width `w`.
pub open spec fn bounded_policy_of(bits: Seq<bool>, w: nat) -> Policy {
    Policy {
        width_mode: if bits[9] { WidthMode::Fixed } else { WidthMode::Growing },
        capacity: Capacity::Bounded(w as u8),
        on_full: if bits[8] { OnFull::Reset } else { OnFull::Freeze },
    }
}

/// Decoding a whole stream: the header, then the codes.
pub open spec fn decode_stream(bits: Seq<bool>) -> Result<Seq<u8>, LzwError> {
    if bits.len() < 8 {
        Err(LzwError::UnexpectedEnd)
    } else {
        let m = value_of_bits(bits.take(8));
        if m == 0 {
            decode_body(canonical(Policy::unbounded_spec()), bits.skip(8), None)
        } else if 8 <= m <= 16 {
            if bits.len() < 10 {
                Err(LzwError::UnexpectedEnd)
            } else {
                decode_body(bounded_policy_of(bits, m), bits.skip(10), None)
            }
        } else {
            Err(LzwError::InvalidConfig)
        }
    }
}

impl Policy {
    pub open spec fn unbounded_spec() -> Policy {
        Policy { width_mode: WidthMode::Growing, capacity: Capacity::Unbounded, on_full: OnFull::Freeze }
    }
}

/// The shape every dictionary keeps: the single-byte phrases first, no empty
/// phrase, and no more entries than the policy allows.
pub open spec fn dict_ok(p: Policy, d: Seq<Seq<u8>>) -> bool {
    &&& 256 <= d.len()
    &&& p.is_bounded() ==> d.len() <= p.limit()
    &&& forall|i: int| 0 <= i < 256 ==> #[trigger] d[i] == seq![i as u8]
    &&& forall|i: int| 0 <= i < d.len() ==> #[trigger] d[i].len() > 0
}

/// The encoder after some input is one step ahead of the decoder after the
/// codes sent so far: it has already registered the phrase that the decoder
/// registers on the next code.
pub open spec fn in_step(p: Policy, st: EncodeState, ds: Option<DecodeState>, s: Seq<u8>) -> bool {
    &&& dict_ok(p, st.dict)
    &&& (st.pending.len() == 0 <==> s.len() == 0)
    &&& st.pending.len() > 0 ==> st.dict.contains(st.pending)
    &&& match ds {
        None => st.dict == initial_dict() && st.pending == s,
        Some(d) => {
            &&& st.dict == dict_with(p, dict_after_reset(p, d.dict), d.prev.push(st.pending[0]))
            &&& d.out + st.pending == s
            &&& d.prev.len() > 0
            &&& st.pending.len() > 0
        },
    }
}

proof fn lemma_initial_dict_ok(p: Policy)
    requires
        p.valid(),
    ensures
        dict_ok(p, initial_dict()),
{
    crate::policy::lemma_two_pow_values();
    if p.is_bounded() {
        crate::bits::lemma_two_pow_monotonic(8, p.max_width());
    }
}

proof fn lemma_step_dict_ok(p: Policy, d: Seq<Seq<u8>>, e: Seq<u8>)
    requires
        p.valid(),
        dict_ok(p, d),
        e.len() > 0,
    ensures
        dict_ok(p, dict_with(p, dict_after_reset(p, d), e)),
        dict_with(p, dict_after_reset(p, d), e).len() == p.next_size(d.len()),
{
    lemma_initial_dict_ok(p);
    let r = dict_after_reset(p, d);
    assert(dict_ok(p, r));
    let n = dict_with(p, r, e);
    assert forall|i: int| 0 <= i < 256 implies #[trigger] n[i] == seq![i as u8] by {
        assert(r[i] == seq![i as u8]);
    }
    assert forall|i: int| 0 <= i < n.len() implies #[trigger] n[i].len() > 0 by {
        if i < r.len() {
            assert(r[i].len() > 0);
        }
    }
}

/// The code of a phrase held in a valid dictionary fits the width of the next code.
pub proof fn lemma_code_fits(p: Policy, d: Seq<Seq<u8>>, x: Seq<u8>)
    requires
        p.valid(),
        dict_ok(p, d),
        d.contains(x),
    ensures
        code_of(d, x) < d.len(),
        d[code_of(d, x) as int] == x,
        code_of(d, x) < two_pow(p.width_for(d.len())),
        p.width_for(d.len()) >= 8,
{
    let i = choose|i: int| 0 <= i < d.len() && d[i] == x;
    assert(d[(i as nat) as int] == x);
    match p.width_mode {
        WidthMode::Growing => {
            lemma_growing_width_fits(d.len());
        },
        WidthMode::Fixed => {
            assert(p.is_bounded());
        },
    }
}

/// In a dictionary without repeats, the code of a phrase is where it stands.
pub proof fn lemma_code_of_unique(d: Seq<Seq<u8>>, i: int)
    requires
        0 <= i < d.len(),
        forall|a: int, b: int| 0 <= a < d.len() && 0 <= b < d.len() && a != b ==> d[a] != d[b],
    ensures
        code_of(d, d[i]) == i,
{
    assert(d[(i as nat) as int] == d[i]);
    let c = code_of(d, d[i]);
    assert(d[c as int] == d[i]);
}

/// Reading one code of the expected width off the front of the bits is one
/// decoder step.
proof fn lemma_decode_one(p: Policy, st: Option<DecodeState>, c: nat, t: Seq<bool>)
    requires
        p.width_for(sender_size(p, st)) >= 8,
        c < two_pow(p.width_for(sender_size(p, st))),
    ensures
        decode_body(p, bits_of_value(c, p.width_for(sender_size(p, st))) + t, st) == match decode_step(
            p,
            st,
            c,
        ) {
            None => Err(LzwError::InvalidCode),
            Some(s) => decode_body(p, t, Some(s)),
        },
{
    let w = p.width_for(sender_size(p, st));
    let b = bits_of_value(c, w) + t;
    lemma_bits_of_value_len(c, w);
    assert(b.take(w as int) =~= bits_of_value(c, w));
    assert(b.skip(w as int) =~= t);
    lemma_value_of_bits_of_value(c, w);
}

/// After any input the encoder is one step ahead of a decoder that read its
/// codes, and decoding those codes followed by anything reaches that decoder.
proof fn lemma_encode_in_step(p: Policy, s: Seq<u8>) -> (ds: Option<DecodeState>)
    requires
        p.valid(),
    ensures
        in_step(p, encode_state(p, s), ds, s),
        forall|t: Seq<bool>|
            #[trigger] decode_body(p, encode_state(p, s).bits + t, None) == decode_body(p, t, ds),
    decreases s.len(),
{
    if s.len() == 0 {
        lemma_initial_dict_ok(p);
        assert(encode_state(p, s).pending =~= s);
        assert forall|t: Seq<bool>|
            #[trigger] decode_body(p, encode_state(p, s).bits + t, None) == decode_body(p, t, None) by {
            assert(encode_state(p, s).bits + t =~= t);
        }
        None
    } else {
        let s0 = s.drop_last();
        let b = s.last();
        let ds0 = lemma_encode_in_step(p, s0);
        let st = encode_state(p, s0);
        let ext = st.pending.push(b);
        assert(s0.push(b) =~= s);
        if st.dict.contains(ext) {
            match ds0 {
                None => {
                    assert(ext =~= s);
                },
                Some(d) => {
                    assert(ext[0] == st.pending[0]);
                    assert(d.out + ext =~= s);
                },
            }
            ds0
        } else {
            if st.pending.len() == 0 {
                assert(ext =~= seq![b]);
                assert(st.dict[b as int] == seq![b]);
                assert(false);
            }
            lemma_code_fits(p, st.dict, st.pending);
            let c = code_of(st.dict, st.pending);
            let w = p.width_for(st.dict.len());
            let ds1: Option<DecodeState> = match ds0 {
                None => Some(
                    DecodeState { dict: initial_dict(), prev: st.pending, out: st.pending },
                ),
                Some(d) => Some(
                    DecodeState { dict: st.dict, prev: st.pending, out: d.out + st.pending },
                ),
            };
            // The decoder reads the code with the width the encoder used.
            match ds0 {
                None => {
                    assert(sender_size(p, ds0) == st.dict.len());
                    assert(c < 256);
                    assert(st.pending =~= seq![c as u8]);
                    assert(decode_step(p, ds0, c) == ds1);
                },
                Some(d) => {
                    lemma_step_dict_ok_len(p, d.dict, d.prev.push(st.pending[0]));
                    assert(sender_size(p, ds0) == st.dict.len());
                    let r = dict_after_reset(p, d.dict);
                    if c < r.len() {
                        assert(r[c as int] == st.dict[c as int]);
                        assert(decode_step(p, ds0, c) == ds1);
                    } else {
                        assert(p.has_room(r.len()));
                        assert(c == r.len());
                        assert(st.pending == d.prev.push(st.pending[0]));
                        assert(st.pending[0] == d.prev[0]);
                        assert(d.prev.push(d.prev[0]) == st.pending);
                        assert(decode_step(p, ds0, c) == ds1);
                    }
                },
            }
            let st1 = encode_state(p, s);
            assert(st1.bits == st.bits + bits_of_value(c, w));
            assert forall|t: Seq<bool>|
                #[trigger] decode_body(p, st1.bits + t, None) == decode_body(p, t, ds1) by {
                assert(st1.bits + t =~= st.bits + (bits_of_value(c, w) + t));
                lemma_decode_one(p, ds0, c, t);
            }
            lemma_step_dict_ok(p, st.dict, ext);
            let d1 = ds1.unwrap();
            assert(st1.dict[b as int] == seq![b]);
            assert(st1.dict.contains(st1.pending));
            assert(st1.pending[0] == b);
            assert(d1.prev.push(st1.pending[0]) =~= ext);
            match ds0 {
                None => {
                    assert(d1.out + st1.pending =~= s);
                },
                Some(d) => {
                    assert(d1.out + st1.pending =~= s);
                },
            }
            ds1
        }
    }
}

proof fn lemma_step_dict_ok_len(p: Policy, d: Seq<Seq<u8>>, e: Seq<u8>)
    ensures
        dict_with(p, dict_after_reset(p, d), e).len() == p.next_size(d.len()),
{
}

/// Round trip: decoding the stream that encoding `s` under a valid policy
/// produces, padded to whole bytes, gives back exactly `s`.
pub proof fn lemma_round_trip(p: Policy, s: Seq<u8>)
    requires
        p.valid(),
    ensures
        decode_stream(byte_padded(encode_stream(p, s))) == Ok::<Seq<u8>, LzwError>(s),
{
    let q = canonical(p);
    assert(q.valid());
    let ds = lemma_encode_in_step(q, s);
    let st = encode_state(q, s);
    let body = encode_body(q, s);
    let h = header_bits(p);
    let all = byte_padded(encode_stream(p, s));
    let pad = zero_bits(padding_for(encode_stream(p, s).len()));
    lemma_padding_bound(encode_stream(p, s).len());
    lemma_bits_of_value_len(p.max_width(), 8);
    lemma_bits_of_value_len(0, 8);
    assert(all =~= h + (body + pad));
    // The decoder reads the policy back from the header.
    let hl: int = if p.is_bounded() { 10 } else { 8 };
    assert(all.take(8) =~= h.take(8));
    assert(all.skip(hl) =~= body + pad);
    match p.capacity {
        Capacity::Unbounded => {
            assert(h.take(8) =~= bits_of_value(0, 8));
            crate::bits::lemma_two_pow_positive(8);
            lemma_value_of_bits_of_value(0, 8);
            assert(canonical(Policy::unbounded_spec()) == q);
        },
        Capacity::Bounded(w) => {
            assert(h.take(8) =~= bits_of_value(w as nat, 8));
            crate::policy::lemma_two_pow_values();
            lemma_value_of_bits_of_value(w as nat, 8);
            assert(all[8] == h[8]);
            assert(all[9] == h[9]);
            assert(bounded_policy_of(all, w as nat) == q);
        },
    }
    // The body decodes to the input.
    if st.pending.len() == 0 {
        assert(body + pad =~= st.bits + pad);
        assert(decode_body(q, st.bits + pad, None) == decode_body(q, pad, ds));
        assert(s.len() == 0);
        assert(ds is None);
        assert(decoded(ds) =~= s);
    } else {
        lemma_code_fits(q, st.dict, st.pending);
        let c = code_of(st.dict, st.pending);
        let w = q.width_for(st.dict.len());
        assert(body + pad =~= st.bits + (bits_of_value(c, w) + pad));
        assert(decode_body(q, st.bits + (bits_of_value(c, w) + pad), None) == decode_body(
            q,
            bits_of_value(c, w) + pad,
            ds,
        ));
        match ds {
            None => {
                assert(sender_size(q, ds) == st.dict.len());
            },
            Some(d) => {
                lemma_step_dict_ok_len(q, d.dict, d.prev.push(st.pending[0]));
            },
        }
        lemma_decode_one(q, ds, c, pad);
        let d1: DecodeState = match ds {
            None => DecodeState { dict: initial_dict(), prev: st.pending, out: st.pending },
            Some(d) => DecodeState { dict: st.dict, prev: st.pending, out: d.out + st.pending },
        };
        match ds {
            None => {
                assert(c < 256);
                assert(st.pending =~= seq![c as u8]);
                assert(decode_step(q, ds, c) == Some(d1));
            },
            Some(d) => {
                let r = dict_after_reset(q, d.dict);
                if c < r.len() {
                    assert(r[c as int] == st.dict[c as int]);
                } else {
                    assert(st.pending == d.prev.push(st.pending[0]));
                    assert(st.pending[0] == d.prev[0]);
                    assert(d.prev.push(d.prev[0]) == st.pending);
                }
                assert(decode_step(q, ds, c) == Some(d1));
            },
        }
        match ds {
            None => { assert(d1.out =~= s); },
            Some(d) => { assert(d1.out =~= s); },
        }
    }
}


/// A reset, when it comes, restores exactly the 256 single-byte phrases, and
/// in growing mode the width of 8 bits.
pub proof fn lemma_reset_restores(p: Policy, d: Seq<Seq<u8>>)
    requires
        p.valid(),
        p.resets(),
        d.len() == p.limit(),
    ensures
        dict_after_reset(p, d) == initial_dict(),
        dict_after_reset(p, d).len() == 256,
        p.width_mode == WidthMode::Growing ==> p.width_for(dict_after_reset(p, d).len()) == 8,
{
    crate::policy::lemma_reset_size(p);
}

/// An empty input gives a stream of the header alone, which decodes to nothing.
pub proof fn lemma_empty_input(p: Policy)
    requires
        p.valid(),
    ensures
        encode_stream(p, Seq::empty()) == header_bits(p),
        decode_stream(byte_padded(header_bits(p))) == Ok::<Seq<u8>, LzwError>(Seq::empty()),
{
    assert(encode_stream(p, Seq::empty()) =~= header_bits(p));
    lemma_round_trip(p, Seq::empty());
}

/// A header whose width field is neither 0 nor from 8 to 16 is refused as a
/// configuration error.
pub proof fn lemma_bad_width_rejected(bits: Seq<bool>)
    requires
        bits.len() >= 8,
        value_of_bits(bits.take(8)) != 0,
        value_of_bits(bits.take(8)) < 8 || value_of_bits(bits.take(8)) > 16,
    ensures
        decode_stream(bits) == Err::<Seq<u8>, LzwError>(LzwError::InvalidConfig),
{
}

} // verus!
