use lru_sim::lru::MainMemory;
use lru_sim::simulation::{CacheHit, Simulation, SimulationError};
use lru_sim::simulation_result::{CacheHit as RecordedHit, SimulationResult};
use lru_sim::trace::TraceParseError;

type Sim = Simulation<1_600, 1, 100>;

#[test]
fn counts_hits_and_misses_per_trace() {
    let memory = MainMemory::<256, 4>::new([0u8; 256]);
    let mut cache = memory.create_cache::<8, 4>();
    // 16 one-byte instructions over 4 lines: one miss per line.
    let text = "compare 'seq' {\n 0..8..16\n}\ncompare 'twice' {\n loop(2) {\n  0..32..8\n }\n}\n";
    let results = Sim::simulate(&mut cache, text, 16).unwrap();
    assert_eq!(results.len(), 2);
    assert_eq!(results[0].name(), "seq");
    assert_eq!(results[0].hit_count(), 12);
    assert_eq!(results[0].miss_count(), 4);
    // Each trace starts from an empty cache: 2 misses, then 2 hits.
    assert_eq!(results[1].name(), "twice");
    assert_eq!(results[1].hit_count(), 2);
    assert_eq!(results[1].miss_count(), 2);
}

#[test]
fn simulation_reports_refused_files() {
    let memory = MainMemory::<256, 4>::new([0u8; 256]);
    let mut cache = memory.create_cache::<8, 4>();
    assert!(matches!(
        Sim::simulate(&mut cache, "compare 'x' {", 16),
        Err(SimulationError::Parse(TraceParseError::ParseError { .. }))
    ));
    assert!(matches!(
        Sim::simulate(&mut cache, "compare 'x' {\n y()\n}\n", 16),
        Err(SimulationError::Parse(TraceParseError::UnknownBlock { .. }))
    ));
    assert!(matches!(
        Sim::simulate(&mut cache, "compare 'x' {\n x()\n}\n", 16),
        Err(SimulationError::CallDepth)
    ));
}

#[test]
fn simulation_refuses_addresses_without_a_set() {
    // 2 sets but 4 ways: line 2 goes to set 2, which does not exist.
    let memory = MainMemory::<256, 4>::new([0u8; 256]);
    let mut cache = memory.create_cache::<2, 4>();
    let r = Simulation::<1_600, 1, 100>::simulate(&mut cache, "compare 'x' {\n 0..8..12\n}\n", 16);
    assert!(matches!(r, Err(SimulationError::SetOutOfRange { address: 8 })));
}

#[test]
fn outcomes_read_as_text() {
    assert_eq!(CacheHit::Hit.describe(), "Hit");
    assert_eq!(CacheHit::Miss { prev: None }.describe(), "Miss");
    assert_eq!(CacheHit::Miss { prev: Some(0x1F) }.describe(), "Miss prev=0x1F");
    assert_eq!(RecordedHit::Miss { prev: Some(0) }.describe(), "Miss prev=0x0");
    assert_eq!(RecordedHit::Miss { prev: Some(0xABC0) }.describe(), format!("Miss prev={:#X}", 0xABC0));
    assert_eq!(RecordedHit::Miss { prev: Some(usize::MAX) }.describe(), format!("Miss prev={:#X}", usize::MAX));
}

#[test]
fn new_record_is_empty() {
    let r = SimulationResult::new(128, 4, 64);
    assert_eq!((r.cache_sets, r.cache_ways, r.line_size), (128, 4, 64));
    assert!(r.data.is_empty());
    assert_eq!((r.hit_count, r.miss_count), (0, 0));
    let d = SimulationResult::default();
    assert_eq!((d.cache_sets, d.hit_count), (0, 0));
}

#[test]
fn default_simulation_is_empty() {
    let s = Sim::default();
    assert_eq!(s.name(), "");
    assert_eq!((s.hit_count(), s.miss_count()), (0, 0));
}

#[test]
fn refused_file_keeps_its_error_and_the_cache() {
    let memory = MainMemory::<256, 4>::new([0u8; 256]);
    let mut cache = memory.create_cache::<8, 4>();
    assert_eq!(cache.get(0).1, lru_sim::lru::CacheHit::Miss);
    let r = Sim::simulate(&mut cache, "'a' {\n}\n'a' {\n}\n", 16);
    match r {
        Err(SimulationError::Parse(e)) => {
            assert!(matches!(&e, TraceParseError::DuplicateBlock { name } if name == b"a"));
            assert_eq!(e.describe(), "block 'a()' defined multiple times");
        }
        _ => panic!("expected a parse error"),
    }
    // The cache was not reset: the line looked up before is still there.
    assert_eq!(cache.get(0).1, lru_sim::lru::CacheHit::Hit);
}

#[test]
fn overflowing_weights_matter_only_where_a_trace_reaches_them() {
    let memory = MainMemory::<256, 4>::new([0u8; 256]);
    let mut cache = memory.create_cache::<8, 4>();
    let unused = format!(
        "'unused' {{\n switch:\n  ({}): {{\n  }}\n  (1): {{\n  }}\n endswitch\n}}\ncompare 'a' {{\n 0..8..2\n}}\n",
        usize::MAX
    );
    let results = Sim::simulate(&mut cache, &unused, 16).unwrap();
    assert_eq!(results.len(), 1);
    assert_eq!((results[0].hit_count(), results[0].miss_count()), (1, 1));
    let used = format!(
        "compare 'a' {{\n switch:\n  ({}): {{\n  }}\n  (1): {{\n  }}\n endswitch\n}}\n",
        usize::MAX
    );
    assert!(matches!(Sim::simulate(&mut cache, &used, 16), Err(SimulationError::WeightOverflow)));
}

#[test]
fn results_do_not_depend_on_what_the_cache_held() {
    let memory = MainMemory::<256, 4>::new([0u8; 256]);
    let mut fresh = memory.create_cache::<8, 4>();
    let mut used = memory.create_cache::<8, 4>();
    for a in [0usize, 16, 32, 48, 64, 4, 8] {
        used.get(a);
    }
    let text = "compare 'one' {\n 0..8..20\n}\ncompare 'two' {\n loop(3) {\n  0..32..64\n }\n}\n";
    let r1 = Sim::simulate(&mut fresh, text, 16).unwrap();
    let r2 = Sim::simulate(&mut used, text, 16).unwrap();
    assert_eq!(r1.len(), r2.len());
    for (a, b) in r1.iter().zip(r2.iter()) {
        assert_eq!((a.name(), a.hit_count(), a.miss_count()), (b.name(), b.hit_count(), b.miss_count()));
    }
    // The cache keeps what the last trace left: line 0 is still there.
    assert_eq!(used.get(0).1, lru_sim::lru::CacheHit::Hit);
}
