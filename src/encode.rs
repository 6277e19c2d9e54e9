//! The encoder: writes the header, then the codes of the longest matches.
use crate::bits::{bits_of_bytes, bits_of_value, byte_padded};
use crate::channel::{align_to_byte, bits_written, into_bytes, new_writer, write_bits, BitSink};
use crate::dictionary::copy_bytes;
use crate::index::PhraseIndex;
use crate::model::{
    canonical, encode_state, encode_stream, header_bits, initial_dict,
    lemma_code_fits, lemma_code_of_unique,
};
use crate::policy::{Capacity, LzwError, OnFull, Policy, WidthMode};
use vstd::prelude::*;

verus! {

/// Writes the header of `policy`.
fn write_header(w: &mut BitSink, policy: Policy)
    requires
        policy.valid(),
    ensures
        bits_written(*final(w)) == bits_written(*old(w)) + header_bits(policy),
{
    proof {
        crate::policy::lemma_two_pow_values();
        reveal_with_fuel(crate::bits::two_pow, 2);
    }
    match policy.capacity {
        Capacity::Unbounded => {
            write_bits(w, 8, 0);
        },
        Capacity::Bounded(m) => {
            write_bits(w, 8, m as u64);
            let reset: u64 = if policy.on_full == OnFull::Reset {
                1
            } else {
                0
            };
            let fixed: u64 = if policy.width_mode == WidthMode::Fixed {
                1
            } else {
                0
            };
            write_bits(w, 1, reset);
            write_bits(w, 1, fixed);
            proof {
                reveal_with_fuel(bits_of_value, 2);
                assert(bits_of_value(reset as nat, 1) =~= seq![policy.on_full == OnFull::Reset]);
                assert(bits_of_value(fixed as nat, 1) =~= seq![policy.width_mode == WidthMode::Fixed]);
                assert(bits_written(*w) =~= bits_written(*old(w)) + header_bits(policy));
            }
        },
    }
}

/// Encodes `input` under `policy`: the header, the code of each longest
/// match, and zero bits up to a whole byte.
pub fn compress(input: &Vec<u8>, policy: Policy) -> (r: Result<Vec<u8>, LzwError>)
    requires
        input@.len() < 0x1000_0000_0000_0000,
    ensures
        r is Err <==> !policy.valid(),
        r is Err ==> r == Err::<Vec<u8>, LzwError>(LzwError::InvalidConfig),
        r is Ok ==> bits_of_bytes(r.unwrap()@) == byte_padded(encode_stream(policy, input@)),
{
    match policy.check() {
        Ok(()) => {},
        Err(e) => {
            return Err(e);
        },
    }
    let q = match policy.capacity {
        Capacity::Unbounded => Policy::unbounded(),
        Capacity::Bounded(_) => policy,
    };
    assert(q == canonical(policy));
    let mut w = new_writer();
    write_header(&mut w, policy);
    let mut index = PhraseIndex::new(q);
    let mut word: Vec<u8> = Vec::new();
    let mut code: u64 = 0;
    let mut i: usize = 0;
    while i < input.len()
        invariant
            q.valid(),
            i <= input@.len(),
            input@.len() < 0x1000_0000_0000_0000,
            index.wf(),
            index.policy() == q,
            index@.len() <= 256 + i,
            index@ == encode_state(q, input@.take(i as int)).dict,
            word@ == encode_state(q, input@.take(i as int)).pending,
            word@.len() > 0 ==> code < index@.len() && index@[code as int] == word@,
            bits_written(w) == header_bits(policy) + encode_state(q, input@.take(i as int)).bits,
        decreases input.len() - i,
    {
        let b = input[i];
        let ghost st = encode_state(q, input@.take(i as int));
        proof {
            assert(input@.take(i + 1) =~= input@.take(i as int).push(b));
            assert(input@.take(i + 1).drop_last() =~= input@.take(i as int));
            index.lemma_shape();
        }
        if word.len() == 0 {
            proof {
                assert(word@.push(b) =~= seq![b]);
                assert(index@[b as int] == seq![b]);
                assert(index@.contains(word@.push(b)));
            }
            word.push(b);
            code = b as u64;
        } else {
            match index.lookup_forward(code, b) {
                Some(c) => {
                    word.push(b);
                    code = c;
                },
                None => {
                    let width = index.current_width();
                    proof {
                        assert(index@.contains(word@)) by {
                            assert(index@[code as int] == word@);
                        }
                        lemma_code_fits(q, index@, word@);
                        lemma_code_of_unique(index@, code as int);
                    }
                    write_bits(&mut w, width, code);
                    let ghost before = index@;
                    let reset = index.maybe_reset();
                    let mut ext = copy_bytes(&word);
                    ext.push(b);
                    let prefix: Option<u64> = if !reset || code < 256 {
                        Some(code)
                    } else {
                        None
                    };
                    proof {
                        index.lemma_shape();
                        if reset {
                            assert(index@ == initial_dict());
                            if code < 256 {
                                assert(before[code as int] == seq![code as u8]);
                                assert(index@[code as int] == seq![code as u8]);
                            } else {
                                if word@.len() == 1 {
                                    let x = word@[0];
                                    assert(word@ =~= seq![x]);
                                    assert(before[x as int] == seq![x]);
                                    assert(before[code as int] == before[x as int]);
                                    assert(false);
                                }
                                if index@.contains(word@) {
                                    let j = choose|j: int| 0 <= j < index@.len() && index@[j] == word@;
                                    assert(index@[j] == seq![j as u8]);
                                    assert(false);
                                }
                            }
                            if index@.contains(ext@) {
                                let j = choose|j: int| 0 <= j < index@.len() && index@[j] == ext@;
                                assert(index@[j] == seq![j as u8]);
                                assert(false);
                            }
                        }
                        assert(ext@.drop_last() =~= word@);
                    }
                    index.insert(&ext, prefix);
                    let mut fresh: Vec<u8> = Vec::new();
                    fresh.push(b);
                    word = fresh;
                    code = b as u64;
                    proof {
                        index.lemma_shape();
                        assert(word@ =~= seq![b]);
                        assert(index@[b as int] == seq![b]);
                        assert(bits_written(w) =~= header_bits(policy) + encode_state(
                            q,
                            input@.take(i + 1),
                        ).bits);
                    }
                },
            }
        }
        i = i + 1;
    }
    proof {
        assert(input@.take(input@.len() as int) =~= input@);
        index.lemma_shape();
    }
    if word.len() > 0 {
        let width = index.current_width();
        proof {
            assert(index@.contains(word@)) by {
                assert(index@[code as int] == word@);
            }
            lemma_code_fits(q, index@, word@);
            lemma_code_of_unique(index@, code as int);
        }
        write_bits(&mut w, width, code);
    }
    proof {
        assert(bits_written(w) =~= encode_stream(policy, input@));
    }
    align_to_byte(&mut w);
    proof {
        crate::bits::lemma_padding_bound(encode_stream(policy, input@).len());
    }
    Ok(into_bytes(w))
}

} // verus!
