use lzw::{
    compress, decompress, validate_table_size, Arguments, Capacity, Dictionary, LzwError, Mode,
    OnFull, PhraseIndex, Policy, WidthMode,
};

fn all_policies() -> Vec<Policy> {
    let mut v = vec![Policy::unbounded()];
    for w in 8u8..=16 {
        for on_full in [OnFull::Freeze, OnFull::Reset] {
            for mode in [WidthMode::Growing, WidthMode::Fixed] {
                v.push(Policy::bounded(w, on_full, mode));
            }
        }
    }
    v
}

fn sample(len: usize, seed: u32) -> Vec<u8> {
    let mut x = seed;
    let mut v = Vec::new();
    for _ in 0..len {
        x = x.wrapping_mul(1103515245).wrapping_add(12345);
        // A small alphabet gives long repeats.
        v.push(b'a' + ((x >> 16) % 5) as u8);
    }
    v
}

fn round_trip(input: &[u8], policy: Policy) {
    let packed = compress(&input.to_vec(), policy).expect("valid policy");
    let back = decompress(packed).expect("well-formed stream");
    assert_eq!(back, input.to_vec());
}

#[test]
fn abababa_unbounded_exact_stream() {
    let input = vec![0x41, 0x42, 0x41, 0x42, 0x41, 0x42, 0x41];
    let packed = compress(&input, Policy::unbounded()).unwrap();
    // Header 0, then codes 65 (8 bits), 66, 256 = AB, 258 = ABA (9 bits each).
    assert_eq!(packed, vec![0x00, 0x41, 0x21, 0x40, 0x20, 0x40]);
    assert_eq!(decompress(packed).unwrap(), input);
}

#[test]
fn abababa_fixed_width_exact_stream() {
    let input = b"ABABABA".to_vec();
    let policy = Policy::bounded(12, OnFull::Reset, WidthMode::Fixed);
    let packed = compress(&input, policy).unwrap();
    assert_eq!(packed, vec![0x0c, 0xc1, 0x04, 0x10, 0x84, 0x00, 0x40, 0x80]);
    assert_eq!(decompress(packed).unwrap(), input);
}

#[test]
fn abababa_dictionary_entries() {
    let mut index = PhraseIndex::new(Policy::unbounded());
    assert_eq!(index.lookup_forward(0x41, 0x42), None);
    assert_eq!(index.insert(&b"AB".to_vec(), Some(0x41)), Some(256));
    assert_eq!(index.lookup_forward(0x41, 0x42), Some(256));
    assert_eq!(index.insert(&b"BA".to_vec(), Some(0x42)), Some(257));
    assert_eq!(index.lookup_forward(0x42, 0x41), Some(257));

    let mut dict = Dictionary::new(Policy::unbounded());
    assert_eq!(dict.insert(b"AB".to_vec()), Some(256));
    assert_eq!(dict.insert(b"BA".to_vec()), Some(257));
    assert_eq!(dict.lookup_backward(256), Some(b"AB".to_vec()));
    assert_eq!(dict.lookup_backward(257), Some(b"BA".to_vec()));
    assert_eq!(dict.lookup_backward(258), None);
}

#[test]
fn self_referential_code_decodes() {
    // Codes 65 then 256, the code about to be assigned: "A" then "AA".
    assert_eq!(decompress(vec![0x00, 0x41, 0x80, 0x00]).unwrap(), b"AAA".to_vec());
}

#[test]
fn empty_input_is_header_only() {
    let packed = compress(&Vec::new(), Policy::unbounded()).unwrap();
    assert_eq!(packed, vec![0x00]);
    assert_eq!(decompress(packed).unwrap(), Vec::<u8>::new());

    let packed = compress(&Vec::new(), Policy::bounded(9, OnFull::Freeze, WidthMode::Growing)).unwrap();
    assert_eq!(packed, vec![0x09, 0x00]);
    assert_eq!(decompress(packed).unwrap(), Vec::<u8>::new());
}

#[test]
fn corrupt_header_width_rejected() {
    assert_eq!(decompress(vec![20, 0x00, 0x41]), Err(LzwError::InvalidConfig));
    assert_eq!(decompress(vec![7, 0x00]), Err(LzwError::InvalidConfig));
    assert_eq!(decompress(vec![17, 0x00]), Err(LzwError::InvalidConfig));
    assert_eq!(decompress(vec![255]), Err(LzwError::InvalidConfig));
}

#[test]
fn invalid_policy_rejected_before_writing() {
    for w in [0u8, 7, 17, 20, 255] {
        let p = Policy::bounded(w, OnFull::Reset, WidthMode::Fixed);
        assert_eq!(compress(&b"abc".to_vec(), p), Err(LzwError::InvalidConfig));
    }
    let p = Policy { width_mode: WidthMode::Fixed, capacity: Capacity::Unbounded, on_full: OnFull::Freeze };
    assert_eq!(compress(&b"abc".to_vec(), p), Err(LzwError::InvalidConfig));
    assert_eq!(p.check(), Err(LzwError::InvalidConfig));
    assert_eq!(Policy::unbounded().check(), Ok(()));
}

#[test]
fn table_size_validation() {
    assert_eq!(validate_table_size(7), Err(LzwError::InvalidConfig));
    assert_eq!(validate_table_size(8), Ok(()));
    assert_eq!(validate_table_size(12), Ok(()));
    assert_eq!(validate_table_size(16), Ok(()));
    assert_eq!(validate_table_size(17), Err(LzwError::InvalidConfig));
}

#[test]
fn truncated_streams_are_errors() {
    assert_eq!(decompress(Vec::new()), Err(LzwError::UnexpectedEnd));
    // A bounded header needs two more bits after the width.
    assert_eq!(decompress(vec![0x09]), Err(LzwError::UnexpectedEnd));
    // Eight bits left where a 9-bit code is due.
    assert_eq!(decompress(vec![0x00, 0x41, 0x21]), Err(LzwError::UnexpectedEnd));
}

#[test]
fn unknown_code_is_an_error() {
    // 300 is neither known nor the code about to be assigned (256).
    assert_eq!(decompress(vec![0x00, 0x41, 0x96, 0x00]), Err(LzwError::InvalidCode));
}

#[test]
fn round_trip_all_policies() {
    let inputs = vec![
        Vec::new(),
        vec![0u8],
        vec![0xff; 3],
        b"TOBEORNOTTOBEORTOBEORNOT".to_vec(),
        sample(5000, 7),
        (0..=255u8).cycle().take(3000).collect::<Vec<u8>>(),
    ];
    for p in all_policies() {
        for input in &inputs {
            round_trip(input, p);
        }
    }
}

#[test]
fn degenerate_bound_never_grows() {
    let p = Policy::bounded(8, OnFull::Freeze, WidthMode::Growing);
    let input = sample(1000, 3);
    let packed = compress(&input, p).unwrap();
    // No phrase is ever registered: one 8-bit code per byte after a 10-bit header.
    assert_eq!(packed.len(), (10 + 8 * input.len() + 7) / 8);
    assert_eq!(decompress(packed).unwrap(), input);

    let mut dict = Dictionary::new(p);
    assert!(!dict.has_room());
    assert_eq!(dict.insert(b"ab".to_vec()), None);
    assert_eq!(dict.size(), 256);
}

#[test]
fn width_grows_at_257_entries() {
    let mut input = Vec::new();
    for a in 0u8..20 {
        for b in 0u8..15 {
            input.push(a);
            input.push(100 + b);
        }
    }
    assert_eq!(input.len(), 600);
    round_trip(&input, Policy::unbounded());

    let mut dict = Dictionary::new(Policy::unbounded());
    assert_eq!(dict.current_width(), 8);
    assert_eq!(dict.insert(vec![1, 2]), Some(256));
    assert_eq!(dict.size(), 257);
    assert_eq!(dict.current_width(), 9);
    for i in 0..255u32 {
        dict.insert(vec![3, (i % 256) as u8, 4]);
    }
    assert_eq!(dict.size(), 512);
    assert_eq!(dict.current_width(), 9);
    dict.insert(vec![5, 6]);
    assert_eq!(dict.size(), 513);
    assert_eq!(dict.current_width(), 10);
}

#[test]
fn long_run_resets_and_round_trips() {
    let input = vec![0x58u8; 100_000];
    let reset = Policy::bounded(9, OnFull::Reset, WidthMode::Growing);
    let freeze = Policy::bounded(9, OnFull::Freeze, WidthMode::Growing);
    let with_reset = compress(&input, reset).unwrap();
    let with_freeze = compress(&input, freeze).unwrap();
    // The run needs more than 256 new phrases, so the two policies part ways.
    assert_ne!(with_reset[1..], with_freeze[1..]);
    assert_eq!(decompress(with_reset).unwrap(), input);
    assert_eq!(decompress(with_freeze).unwrap(), input);

    // Replaying the greedy matching on the index shows the resets themselves.
    let mut index = PhraseIndex::new(reset);
    let mut word: Vec<u8> = Vec::new();
    let mut code: u64 = 0;
    let mut resets = 0;
    for &b in &input {
        if word.is_empty() {
            word.push(b);
            code = b as u64;
            continue;
        }
        match index.lookup_forward(code, b) {
            Some(c) => {
                word.push(b);
                code = c;
            }
            None => {
                let was_reset = index.maybe_reset();
                if was_reset {
                    resets += 1;
                    assert_eq!(index.size(), 256);
                    assert_eq!(index.current_width(), 8);
                }
                let mut ext = word.clone();
                ext.push(b);
                let prefix = if !was_reset || code < 256 { Some(code) } else { None };
                index.insert(&ext, prefix);
                assert!(index.size() <= 512);
                word = vec![b];
                code = b as u64;
            }
        }
    }
    assert!(resets >= 1);
}

#[test]
fn reset_restores_initial_state() {
    let p = Policy::bounded(9, OnFull::Reset, WidthMode::Growing);
    let mut dict = Dictionary::new(p);
    for i in 0..256u32 {
        assert_eq!(dict.insert(vec![7, (i % 256) as u8]), Some(256 + i as u64));
    }
    assert_eq!(dict.size(), 512);
    assert_eq!(dict.current_width(), 9);
    assert!(!dict.has_room());
    assert!(dict.maybe_reset());
    assert_eq!(dict.size(), 256);
    assert_eq!(dict.current_width(), 8);
    assert!(!dict.maybe_reset());

    let mut index = PhraseIndex::new(p);
    let mut i: u64 = 0;
    while index.size() < 512 {
        let b = (i % 256) as u8;
        let prefix = 7 + (i / 256);
        assert_eq!(index.insert(&vec![prefix as u8, b], Some(prefix)), Some(256 + i));
        i += 1;
    }
    assert!(index.maybe_reset());
    assert_eq!(index.size(), 256);
    assert_eq!(index.current_width(), 8);
    assert_eq!(index.lookup_forward(7, 0), None);
}

#[test]
fn freeze_keeps_full_dictionary() {
    let p = Policy::bounded(9, OnFull::Freeze, WidthMode::Fixed);
    let mut dict = Dictionary::new(p);
    assert_eq!(dict.current_width(), 9);
    for i in 0..256u32 {
        dict.insert(vec![9, (i % 256) as u8]);
    }
    assert_eq!(dict.insert(vec![1, 1]), None);
    assert!(!dict.maybe_reset());
    assert_eq!(dict.size(), 512);
    assert_eq!(dict.current_width(), 9);
}

#[test]
fn arguments_policy() {
    let args = Arguments {
        input_file: "in.bin".to_string(),
        output_file: "out.lzw".to_string(),
        mode: Mode::Compress,
        length: 12,
    };
    let p = args.policy();
    assert_eq!(p, Policy::bounded(12, OnFull::Reset, WidthMode::Fixed));
    round_trip(b"hello hello hello", p);
}
