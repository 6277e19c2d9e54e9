//! The decoder: reads the header, then replays the dictionary from the codes.
use crate::bits::{bits_of_bytes, lemma_bits_of_bytes_len, value_of_bits};
use crate::channel::{bits_unread, new_reader, read_bits, BitSource};
use crate::dictionary::{copy_bytes, Dictionary};
use crate::model::{
    bounded_policy_of, canonical, decode_body, decode_step, decode_stream, decoded, initial_dict, sender_size, DecodeState,
};
use crate::policy::{Capacity, LzwError, OnFull, Policy, WidthMode};
use vstd::prelude::*;

verus! {

/// Appends the bytes of `e` to `out`.
pub fn append_bytes(out: &mut Vec<u8>, e: &Vec<u8>)
    ensures
        final(out)@ == old(out)@ + e@,
{
    let mut i: usize = 0;
    while i < e.len()
        invariant
            i <= e.len(),
            out@ == old(out)@ + e@.take(i as int),
        decreases e.len() - i,
    {
        out.push(e[i]);
        i = i + 1;
        proof {
            assert(out@ =~= old(out)@ + e@.take(i as int));
        }
    }
    proof {
        assert(e@.take(e.len() as int) =~= e@);
    }
}

/// Decodes the codes that follow the header, until fewer bits than a byte
/// remain.
pub fn decode_codes(src: &mut BitSource, remaining: u64, policy: Policy) -> (r: Result<
    Vec<u8>,
    LzwError,
>)
    requires
        policy.valid(),
        remaining == bits_unread(*old(src)).len(),
        remaining <= 0x8000_0000_0000_0000,
    ensures
        match r {
            Ok(v) => decode_body(policy, bits_unread(*old(src)), None) == Ok::<Seq<u8>, LzwError>(
                v@,
            ),
            Err(e) => decode_body(policy, bits_unread(*old(src)), None) == Err::<Seq<u8>, LzwError>(
                e,
            ),
        },
{
    let ghost goal = decode_body(policy, bits_unread(*old(src)), None);
    let ghost rem0 = remaining;
    let ghost mut st: Option<DecodeState> = None;
    let mut remaining = remaining;
    let mut dict = Dictionary::new(policy);
    let mut prev: Vec<u8> = Vec::new();
    let mut out: Vec<u8> = Vec::new();
    let mut started = false;
    loop
        invariant
            policy.valid(),
            remaining == bits_unread(*src).len(),
            remaining <= rem0,
            rem0 <= 0x8000_0000_0000_0000,
            decode_body(policy, bits_unread(*src), st) == goal,
            goal == decode_body(policy, bits_unread(*old(src)), None),
            started == st is Some,
            !started ==> out@.len() == 0,
            !started ==> dict@ == initial_dict(),
            dict.wf(),
            dict.policy() == policy,
            dict@.len() * 8 + remaining <= 2048 + rem0,
            started ==> dict@ == st.unwrap().dict,
            started ==> prev@ == st.unwrap().prev,
            started ==> out@ == st.unwrap().out,
            started ==> prev@.len() > 0,
        decreases remaining,
    {
        proof {
            dict.lemma_shape();
        }
        let size_next: u64 = if !started {
            256
        } else {
            policy.size_after_step(dict.size())
        };
        let w = policy.code_width(size_next);
        assert(w as nat == policy.width_for(sender_size(policy, st)));
        if remaining < w as u64 {
            if remaining < 8 {
                proof {
                    if !started {
                        assert(out@ =~= Seq::<u8>::empty());
                    }
                    assert(decoded(st) == out@);
                    assert(decode_body(policy, bits_unread(*src), st) == Ok::<Seq<u8>, LzwError>(
                        decoded(st),
                    ));
                }
                return Ok(out);
            } else {
                return Err(LzwError::UnexpectedEnd);
            }
        }
        let ghost unread = bits_unread(*src);
        let c = read_bits(src, w).unwrap();
        remaining = remaining - w as u64;
        if !started {
            if c >= 256 {
                return Err(LzwError::InvalidCode);
            }
            let mut e: Vec<u8> = Vec::new();
            e.push(c as u8);
            out.push(c as u8);
            prev = e;
            started = true;
            proof {
                let s1 = DecodeState { dict: dict@, prev: prev@, out: out@ };
                assert(prev@ =~= seq![c as u8]);
                assert(out@ =~= seq![c as u8]);
                assert(decode_step(policy, st, c as nat) == Some(s1));
                st = Some(s1);
            }
        } else {
            let ghost s0 = st.unwrap();
            dict.maybe_reset();
            proof {
                dict.lemma_shape();
            }
            let ghost d = dict@;
            let size = dict.size();
            let entry: Vec<u8>;
            if c < size {
                entry = dict.lookup_backward(c).unwrap();
                let mut cand = copy_bytes(&prev);
                cand.push(entry[0]);
                dict.insert(cand);
            } else if c == size && dict.has_room() {
                let mut e = copy_bytes(&prev);
                e.push(prev[0]);
                entry = copy_bytes(&e);
                dict.insert(e);
            } else {
                return Err(LzwError::InvalidCode);
            }
            append_bytes(&mut out, &entry);
            prev = entry;
            proof {
                let s1 = DecodeState { dict: dict@, prev: prev@, out: out@ };
                if c < size {
                    assert(prev@ == d[c as int]);
                } else {
                    assert(prev@ == s0.prev.push(s0.prev[0]));
                }
                assert(decode_step(policy, st, c as nat) == Some(s1));
                assert(unread.take(w as int).len() == w);
                st = Some(s1);
            }
        }
    }
}

/// Decodes a whole stream: its header, then its codes.
pub fn decompress(input: Vec<u8>) -> (r: Result<Vec<u8>, LzwError>)
    requires
        input@.len() < 0x1000_0000_0000_0000,
    ensures
        match r {
            Ok(v) => decode_stream(bits_of_bytes(input@)) == Ok::<Seq<u8>, LzwError>(v@),
            Err(e) => decode_stream(bits_of_bytes(input@)) == Err::<Seq<u8>, LzwError>(e),
        },
{
    let ghost all = bits_of_bytes(input@);
    proof {
        lemma_bits_of_bytes_len(input@);
    }
    let total: u64 = (input.len() as u64) * 8;
    let mut src = new_reader(input);
    if total < 8 {
        return Err(LzwError::UnexpectedEnd);
    }
    let m = read_bits(&mut src, 8).unwrap();
    let mut remaining: u64 = total - 8;
    proof {
        assert(bits_unread(src) == all.skip(8));
    }
    let policy: Policy;
    if m == 0 {
        policy = Policy::unbounded();
        proof {
            assert(policy == canonical(Policy::unbounded_spec()));
        }
    } else if 8 <= m && m <= 16 {
        if remaining < 2 {
            return Err(LzwError::UnexpectedEnd);
        }
        let reset_bit = read_bits(&mut src, 1).unwrap();
        let fixed_bit = read_bits(&mut src, 1).unwrap();
        remaining = remaining - 2;
        proof {
            let a = all.skip(8).take(1);
            assert(a.drop_last() =~= Seq::<bool>::empty());
            assert(a.last() == all[8]);
            let b = all.skip(9).take(1);
            assert(all.skip(8).skip(1) =~= all.skip(9));
            assert(b.drop_last() =~= Seq::<bool>::empty());
            assert(b.last() == all[9]);
            assert(all.skip(9).skip(1) =~= all.skip(10));
            reveal_with_fuel(value_of_bits, 2);
            assert(value_of_bits(a) == if all[8] { 1nat } else { 0nat });
            assert(value_of_bits(b) == if all[9] { 1nat } else { 0nat });
        }
        policy = Policy {
            width_mode: if fixed_bit == 1 {
                WidthMode::Fixed
            } else {
                WidthMode::Growing
            },
            capacity: Capacity::Bounded(m as u8),
            on_full: if reset_bit == 1 {
                OnFull::Reset
            } else {
                OnFull::Freeze
            },
        };
        proof {
            assert(policy == bounded_policy_of(all, m as nat));
        }
    } else {
        return Err(LzwError::InvalidConfig);
    }
    decode_codes(&mut src, remaining, policy)
}

} // verus!
