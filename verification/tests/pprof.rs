//! Sampling and profiles.

use std::io::Read;

use clmalloc::global::ClMalloc;
use clmalloc::global::HeapSlot;
use clmalloc::heap::HeapIds;
use clmalloc::pprof::maybe_remove_sample;
use clmalloc::pprof::pprof_config;
use clmalloc::pprof::push_frame;
use clmalloc::pprof::record_sample;
use clmalloc::pprof::set_pprof_config;
use clmalloc::pprof::should_sample;
use clmalloc::pprof::PprofConfig;
use clmalloc::pprof::PprofControl;
use clmalloc::pprof::PprofState;
use clmalloc::pprof::ReentrancyGuard;
use clmalloc::pprof::Sampler;
use clmalloc::profile::assemble_profile;
use clmalloc::profile::build_profile;
use clmalloc::profile::choose_name;
use clmalloc::profile::dump;
use clmalloc::profile::dumped;
use clmalloc::profile::note_name;
use clmalloc::profile::resolve_symbol;
use clmalloc::profile::DumpError;
use clmalloc::profile::StringTable;
use clmalloc::sys::SystemAllocator;
use clmalloc::wire::encode_label;
use clmalloc::wire::encode_value_type;
use clmalloc::wire::encode_varint;
use clmalloc::wire::encode_varint_field;
use clmalloc::Layout;
use pprof::protos::Message;
use pprof::protos::Profile;
use rand::rngs::SmallRng;
use rand::RngExt;
use rand::SeedableRng;

/// ceil(-mean * ln(U)) where U is uniform (0,1).
fn geometric(rng: &mut SmallRng, mean: u64) -> u64 {
    let u: f64 = rng.random();
    let u = if u <= 0.0 { f64::MIN_POSITIVE } else { u };
    let result = -(mean as f64) * u.ln();
    (result.ceil() as u64).max(1)
}

#[test]
fn sampler_triggers_near_interval() {
    let mut control = PprofControl::new();
    set_pprof_config(&mut control, Some(PprofConfig { sample_interval: 1024 }));
    let interval = pprof_config(&control).unwrap().sample_interval;
    let mut rng = SmallRng::seed_from_u64(42);
    let draw = geometric(&mut rng, interval);
    let mut sampler = Sampler::new(interval, draw);
    let mut triggers = 0;
    let total_bytes = 1024 * 1000;
    let mut allocated = 0usize;
    while allocated < total_bytes {
        if sampler.check(64) {
            sampler.reset(geometric(&mut rng, sampler.interval));
            triggers += 1;
        }
        allocated += 64;
    }
    // Expected: ~total_bytes/interval = 1000 samples.
    // With randomness, allow wide tolerance.
    assert!(
        triggers > 500 && triggers < 2000,
        "expected ~1000 triggers, got {triggers}"
    );
}

#[test]
fn sampler_check_does_not_trigger_every_time() {
    let mut control = PprofControl::new();
    set_pprof_config(&mut control, Some(PprofConfig::default()));
    let interval = pprof_config(&control).unwrap().sample_interval;
    let mut rng = SmallRng::seed_from_u64(123);
    let draw = geometric(&mut rng, interval);
    let mut sampler = Sampler::new(interval, draw);
    let mut triggered = false;
    for _ in 0..10 {
        if sampler.check(64) {
            triggered = true;
        }
    }
    assert!(
        !triggered,
        "64-byte allocs should not trigger at 512K interval"
    );
}

#[test]
fn sampler_counts_down_to_zero() {
    let mut sampler = Sampler::new(100, 130);
    assert!(!sampler.check(64));
    assert_eq!(sampler.countdown, 66);
    assert!(!sampler.check(65));
    assert!(sampler.check(1));
    assert_eq!(sampler.countdown, 0);
    sampler.reset(7);
    assert_eq!(sampler.countdown, 7);
    assert!(sampler.check(8));
    assert_eq!(sampler.interval, 100);
}

#[test]
fn should_sample_reflects_active_flag() {
    let mut control = PprofControl::new();
    set_pprof_config(&mut control, None);
    assert!(
        !should_sample(&control),
        "should_sample must return false when inactive"
    );
    set_pprof_config(&mut control, Some(PprofConfig::default()));
    assert!(
        should_sample(&control),
        "should_sample must return true when active"
    );
    set_pprof_config(&mut control, None);
}

#[test]
fn configuration_is_read_back() {
    let mut control = PprofControl::new();
    assert!(pprof_config(&control).is_none());
    assert_eq!(control.backtrace_depth, 64);
    set_pprof_config(&mut control, Some(PprofConfig { sample_interval: 77 }));
    assert_eq!(pprof_config(&control).unwrap().sample_interval, 77);
    set_pprof_config(&mut control, None);
    assert!(pprof_config(&control).is_none());
    assert_eq!(control.sample_interval, 77);
    assert_eq!(PprofConfig::default().sample_interval, 512 * 1024);
}

#[test]
fn side_table_tracks_live_samples() {
    let mut control = PprofControl::new();
    set_pprof_config(&mut control, Some(PprofConfig { sample_interval: 1 }));
    let mut state = PprofState::new();
    let mut guard = ReentrancyGuard::new();

    let ptr = 0xDEAD_BEEFusize;
    record_sample(&mut guard, &mut state, &control, ptr, 128, 5, 1);

    let record = state
        .side
        .map
        .get(&ptr)
        .copied()
        .expect("sampled pointer should be in side table");
    let live = state.stacks.counters[record.stack_id as usize].live_count;
    assert!(live > 0, "live count should be positive after sample");
    assert_eq!((record.size, record.class_idx, record.interval), (128, 5, 1));

    maybe_remove_sample(&mut guard, &mut state, ptr);

    assert!(
        !state.side.map.contains_key(&ptr),
        "freed pointer should be removed from side table"
    );
    let live = state.stacks.counters[record.stack_id as usize].live_count;
    assert_eq!(live, 0, "live count should be 0 after free");
}

fn decompress(bytes: &[u8]) -> Vec<u8> {
    let mut decoder = flate2::read::GzDecoder::new(bytes);
    let mut decompressed = Vec::new();
    decoder.read_to_end(&mut decompressed).unwrap();
    decompressed
}

#[test]
fn dump_produces_valid_pprof_protobuf() {
    let mut control = PprofControl::new();
    set_pprof_config(&mut control, Some(PprofConfig { sample_interval: 1 }));
    let mut state = PprofState::new();
    let mut guard = ReentrancyGuard::new();

    let ptr = 0xCAFE_0000usize;
    record_sample(&mut guard, &mut state, &control, ptr, 256, 2, 1);

    let buf = dump(&mut guard, &state, &control, 1_700_000_000_000_000_000).unwrap();
    assert!(!guard.held);

    // Decompress.
    let decompressed = decompress(&buf);

    // Decode as pprof Profile protobuf.
    let profile = Profile::decode(decompressed.as_slice())
        .expect("dump output must be a valid pprof Profile protobuf");

    // string_table[0] must be "".
    assert_eq!(profile.string_table[0], "");

    // Four sample types: alloc_objects, alloc_space, inuse_objects, inuse_space.
    let type_names: Vec<&str> = profile
        .sample_type
        .iter()
        .map(|st| profile.string_table[st.ty as usize].as_str())
        .collect();
    assert_eq!(
        type_names,
        [
            "alloc_objects",
            "alloc_space",
            "inuse_objects",
            "inuse_space"
        ]
    );

    // At least one sample with 4 values.
    assert!(!profile.sample.is_empty(), "profile should have samples");
    for sample in &profile.sample {
        assert_eq!(sample.value.len(), 4, "each sample must have 4 values");
    }

    // Locations and functions should exist.
    assert!(
        !profile.location.is_empty(),
        "profile should have locations"
    );
    assert!(
        !profile.function.is_empty(),
        "profile should have functions"
    );

    // At least one sample should have a size_class label.
    let size_class_key = profile
        .string_table
        .iter()
        .position(|s| s == "size_class")
        .expect("string table must contain 'size_class'") as i64;
    let has_class_label = profile
        .sample
        .iter()
        .any(|s| s.label.iter().any(|l| l.key == size_class_key));
    assert!(
        has_class_label,
        "at least one sample should have a size_class label"
    );

    // time_nanos should be a recent timestamp.
    assert!(profile.time_nanos > 0, "time_nanos should be set");

    // period_type should be ("space", "bytes").
    let pt = profile
        .period_type
        .as_ref()
        .expect("period_type should be set");
    assert_eq!(profile.string_table[pt.ty as usize], "space");
    assert_eq!(profile.string_table[pt.unit as usize], "bytes");

    // period should match our sample interval.
    assert_eq!(profile.period, 1, "period should match sample interval");

    maybe_remove_sample(&mut guard, &mut state, ptr);
}

#[test]
fn duplicate_stacks_share_id() {
    let mut control = PprofControl::new();
    set_pprof_config(&mut control, Some(PprofConfig { sample_interval: 1 }));
    let mut state = PprofState::new();
    let mut guard = ReentrancyGuard::new();

    // Hidden from the optimizer, so that the loop has one call site.
    let addrs = std::hint::black_box(vec![0xAAAA_0001usize, 0xAAAA_0002]);
    for &addr in &addrs {
        record_sample(&mut guard, &mut state, &control, addr, 64, 0, 1);
    }

    let r1 = state.side.map.get(&addrs[0]).unwrap();
    let r2 = state.side.map.get(&addrs[1]).unwrap();
    assert_eq!(
        r1.stack_id, r2.stack_id,
        "samples from same call site must share a deduped stack ID"
    );

    for &addr in &addrs {
        maybe_remove_sample(&mut guard, &mut state, addr);
    }
}

#[test]
fn pprof_100pct_sample_rate_does_not_stack_overflow() {
    let mut alloc = ClMalloc::new(SystemAllocator::new());
    let mut ids = HeapIds::new();
    let mut slot = HeapSlot::Unset;
    let mut control = PprofControl::new();
    set_pprof_config(&mut control, Some(PprofConfig { sample_interval: 1 }));
    let mut state = PprofState::new();
    let mut guard = ReentrancyGuard::new();

    let layout = Layout::from_size_align(256, 1).unwrap();
    for _ in 0..100 {
        let ptr = alloc.allocate(&mut slot, &mut ids, true, layout);
        record_sample(&mut guard, &mut state, &control, ptr, 256, 20, 1);
        // What the profiler itself allocates and frees meanwhile is not sampled.
        assert!(guard.acquire());
        let known = state.side.map.len();
        record_sample(&mut guard, &mut state, &control, ptr + 1, 32, 8, 1);
        maybe_remove_sample(&mut guard, &mut state, ptr);
        assert_eq!(state.side.map.len(), known);
        assert!(guard.held);
        guard.release();
        maybe_remove_sample(&mut guard, &mut state, ptr);
        alloc.dealloc(&mut slot, &mut ids, true, ptr, layout);
    }

    let buf = dump(&mut guard, &state, &control, 1).unwrap();
    assert!(!buf.is_empty());

    set_pprof_config(&mut control, None);
}

#[test]
fn weights_add_up_and_come_off() {
    let mut state = PprofState::new();
    state.record_frames(vec![1, 2], 0x100, 64, 3, 512, 10);
    state.record_frames(vec![1, 2], 0x200, 32, 4, 512, 20);
    state.record_frames(vec![3], 0x300, 8, 0, 512, 1);
    assert_eq!(state.stacks.frames, vec![vec![1, 2], vec![3]]);
    let c = state.stacks.counters[0];
    assert_eq!((c.alloc_count, c.alloc_bytes), (30, 1280));
    assert_eq!((c.live_count, c.live_bytes), (30, 1280));
    state.remove(0x100);
    let c = state.stacks.counters[0];
    assert_eq!((c.alloc_count, c.alloc_bytes), (30, 1280));
    assert_eq!((c.live_count, c.live_bytes), (20, 640));
    state.remove(0x100);
    assert_eq!(state.stacks.counters[0], c);
}

#[test]
fn counters_that_would_overflow_are_noticed() {
    let mut state = PprofState::new();
    assert!(state.can_record(8, 1));
    assert!(!state.can_record(8, u64::MAX));
    assert!(!state.can_record(usize::MAX, 2));
    state.record_frames(vec![1], 0x10, 8, 0, 512, 1 << 59);
    assert!(state.can_remove_sample(0x10));
    assert!(state.can_remove_sample(0x20));
    assert!(state.can_record(8, 1 << 58));
    assert!(!state.can_record(8, 1 << 59));
    state.stacks.counters[0].live_count = i64::MIN;
    assert!(!state.can_remove_sample(0x10));
}

#[test]
fn backtrace_depth_limits_frames() {
    let mut control = PprofControl::new();
    control.set_backtrace_depth(2);
    let mut state = PprofState::new();
    let mut guard = ReentrancyGuard::new();
    record_sample(&mut guard, &mut state, &control, 1, 8, 0, 1);
    assert!(!state.stacks.frames[0].is_empty());
    assert!(state.stacks.frames[0].len() <= 2);
    assert!(state.stacks.frames[0].iter().all(|&ip| ip != 0));

    let mut frames = Vec::new();
    assert!(push_frame(&mut frames, 7, 2));
    assert!(!push_frame(&mut frames, 8, 2));
    assert_eq!(frames, vec![7, 8]);
}

#[test]
fn profile_of_known_stacks_is_exact() {
    let mut state = PprofState::new();
    state.record_frames(vec![0x10, 0x20], 0x1000, 64, 12, 512, 10);
    state.record_frames(vec![0x30], 0x2000, 8, 0, 512, 1);
    state.record_frames(vec![0x20, 0x30], 0x3000, 16, 4, 512, 2);
    state.remove(0x3000);
    let names: Vec<Vec<u8>> = ["main", "alloc", "main"].iter().map(|s| s.as_bytes().to_vec()).collect();
    let bytes = assemble_profile(&state, &names, 99, 512);
    let profile = Profile::decode(bytes.as_slice()).unwrap();
    assert_eq!(
        profile.string_table,
        [
            "", "alloc_objects", "alloc_space", "inuse_objects", "inuse_space", "count", "bytes",
            "size_class", "space", "main", "alloc", "12", "0", "4"
        ]
    );
    let samples: Vec<(Vec<u64>, Vec<i64>)> = profile
        .sample
        .iter()
        .map(|s| (s.location_id.clone(), s.value.clone()))
        .collect();
    assert_eq!(
        samples,
        vec![
            (vec![1, 2], vec![10, 640, 10, 640]),
            (vec![3], vec![1, 8, 1, 8]),
            (vec![2, 3], vec![2, 32, 0, 0]),
        ]
    );
    let labelled: Vec<Vec<(i64, i64)>> = profile
        .sample
        .iter()
        .map(|s| s.label.iter().map(|l| (l.key, l.str)).collect())
        .collect();
    assert_eq!(labelled, vec![vec![(7, 11)], vec![(7, 12)], vec![(7, 13)]]);
    let functions: Vec<(u64, i64, i64)> = profile
        .function
        .iter()
        .map(|f| (f.id, f.name, f.system_name))
        .collect();
    assert_eq!(functions, vec![(1, 9, 9), (2, 10, 10), (3, 9, 9)]);
    let lines: Vec<(u64, u64)> = profile
        .location
        .iter()
        .map(|l| (l.id, l.line[0].function_id))
        .collect();
    assert_eq!(lines, vec![(1, 1), (2, 2), (3, 3)]);
    assert_eq!((profile.time_nanos, profile.period), (99, 512));
}

#[test]
fn negative_live_counts_are_encoded() {
    let mut state = PprofState::new();
    state.record_frames(vec![5], 0x10, 8, 0, 512, 3);
    state.remove(0x10);
    state.stacks.counters[0].live_count = -2;
    state.stacks.counters[0].live_bytes = -16;
    let bytes = assemble_profile(&state, &vec![b"f".to_vec()], 0, 1);
    let profile = Profile::decode(bytes.as_slice()).unwrap();
    assert_eq!(profile.sample[0].value, vec![3, 24, -2, -16]);
}

#[test]
fn stacks_without_counts_are_left_out() {
    let mut state = PprofState::new();
    state.stacks.intern(vec![1, 2, 3]);
    let bytes = build_profile(&state, 5, 6);
    let profile = Profile::decode(bytes.as_slice()).unwrap();
    assert!(profile.sample.is_empty());
    assert_eq!(profile.location.len(), 3);
}

#[test]
fn samples_are_labelled_with_their_size_classes() {
    let labels = |state: &PprofState| -> Vec<String> {
        let profile = Profile::decode(build_profile(state, 5, 6).as_slice()).unwrap();
        let sample = &profile.sample[0];
        assert!(sample.label.iter().all(|l| profile.string_table[l.key as usize] == "size_class"));
        sample
            .label
            .iter()
            .map(|l| profile.string_table[l.str as usize].clone())
            .collect()
    };
    let mut state = PprofState::new();
    state.record_frames(vec![9], 0x10, 8, 33, 512, 1);
    assert_eq!(labels(&state), ["33"]);
    state.record_frames(vec![9], 0x20, 8, 7, 512, 1);
    state.record_frames(vec![9], 0x30, 8, 33, 512, 1);
    assert_eq!(labels(&state), ["33", "7"]);
    for ptr in [0x10, 0x20, 0x30] {
        state.remove(ptr);
    }
    assert_eq!(state.stacks.counters[0].live_count, 0);
    assert_eq!(labels(&state), ["33", "7"]);
}

#[test]
fn symbols_are_named_or_given_in_hexadecimal() {
    let known = symbols_are_named_or_given_in_hexadecimal as fn() as usize;
    let name = String::from_utf8(resolve_symbol(known)).unwrap();
    assert!(name == format!("0x{known:x}") || name.contains("symbols_are_named"));
    assert_eq!(resolve_symbol(1), b"0x1".to_vec());
    assert_eq!(choose_name(0, &vec![]), b"0x0".to_vec());
    assert_eq!(choose_name(0xdead_beef, &vec![]), b"0xdeadbeef".to_vec());
    let mut found = Vec::new();
    note_name(&mut found, Some(b"outer".to_vec()));
    note_name(&mut found, None);
    note_name(&mut found, Some(b"inner".to_vec()));
    assert_eq!(choose_name(1, &found), b"inner".to_vec());
}

#[test]
fn captured_frames_resolve_to_this_program() {
    let control = PprofControl::new();
    let mut state = PprofState::new();
    let mut guard = ReentrancyGuard::new();
    record_sample(&mut guard, &mut state, &control, 1, 8, 0, 1);
    let names: Vec<String> = state.stacks.frames[0]
        .iter()
        .map(|&ip| String::from_utf8(resolve_symbol(ip)).unwrap())
        .collect();
    assert!(names.iter().any(|n| !n.starts_with("0x")));
}

#[test]
fn strings_are_interned_once() {
    let mut strings = StringTable::new();
    assert_eq!(strings.intern(b"a"), 0);
    assert_eq!(strings.intern(b"b"), 1);
    assert_eq!(strings.intern(b"a"), 0);
    assert_eq!(strings.table.len(), 2);
}

#[test]
fn varints_have_the_documented_bytes() {
    let cases: [(u64, &[u8]); 5] = [
        (0, &[0]),
        (127, &[0x7f]),
        (128, &[0x80, 1]),
        (300, &[0xac, 2]),
        (u64::MAX, &[255, 255, 255, 255, 255, 255, 255, 255, 255, 1]),
    ];
    for (value, expected) in cases {
        let mut buf = Vec::new();
        encode_varint(&mut buf, value);
        assert_eq!(buf, expected);
    }
    let mut buf = Vec::new();
    encode_varint_field(&mut buf, 12, 1);
    assert_eq!(buf, vec![0x60, 1]);
    assert_eq!(encode_value_type(3, 4), vec![8, 3, 16, 4]);
    assert_eq!(encode_label(7, 200), vec![8, 7, 16, 200, 1]);
}

#[test]
fn compression_errors_are_reported() {
    let error = std::io::Error::from(std::io::ErrorKind::WriteZero);
    assert_eq!(dumped(Err(error)), Err(DumpError::Compress));
    assert_eq!(dumped(Ok(vec![1, 2])), Ok(vec![1, 2]));
}

#[test]
fn dump_is_compressed_and_reads_back() {
    let mut state = PprofState::new();
    state.record_frames(vec![1], 0x10, 8, 1, 512, 1);
    let control = PprofControl::new();
    let mut guard = ReentrancyGuard::new();
    assert!(guard.acquire());
    let z = dump(&mut guard, &state, &control, 3).unwrap();
    // The guard was held before, so it stays held.
    assert!(guard.held);
    assert_eq!(z[..10], [0x1f, 0x8b, 8, 0, 0, 0, 0, 0, 0, 255]);
    let plain = build_profile(&state, 3, control.sample_interval);
    assert_ne!(z, plain);
    assert_eq!(decompress(&z), plain);
    assert_eq!(dump(&mut guard, &state, &control, 3).unwrap(), z);
}

#[test]
fn frees_use_the_weight_of_the_sample() {
    let mut control = PprofControl::new();
    let mut guard = ReentrancyGuard::new();
    let mut state = PprofState::new();
    set_pprof_config(&mut control, Some(PprofConfig { sample_interval: 512 }));
    record_sample(&mut guard, &mut state, &control, 0x10, 64, 3, 8);
    let before = state.stacks.counters[0];
    assert_eq!((before.live_count, before.live_bytes), (8, 512));
    set_pprof_config(&mut control, Some(PprofConfig { sample_interval: 7 }));
    for _ in 0..2 {
        maybe_remove_sample(&mut guard, &mut state, 0x10);
        let after = state.stacks.counters[0];
        assert_eq!((after.live_count, after.live_bytes), (0, 0));
        assert_eq!((after.alloc_count, after.alloc_bytes), (8, 512));
        assert!(state.side.map.is_empty());
    }
}

#[test]
fn guard_is_held_by_one_at_a_time() {
    let mut guard = ReentrancyGuard::new();
    assert!(guard.acquire());
    assert!(!guard.acquire());
    assert!(!guard.acquire());
    guard.release();
    assert!(guard.acquire());
}
