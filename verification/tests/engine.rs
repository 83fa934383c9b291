use llmca::entity::{Entity, EntityState};
use llmca::manager::LifeManager;
use llmca::resolver::{resolver_pool_from_parts, LLMResolver, ResolverConfigError};
use llmca::space::{build_lattice_with_memory, CognitiveSpaceWithMemory};
use llmca::step::StepPlan;
use llmca::unit::{CognitiveUnitComplex, CognitiveUnitPair, CognitiveUnitWithMemory};

fn record(ts: u64, rule: &str, state: &str) -> CognitiveUnitComplex {
    CognitiveUnitComplex::new(ts, rule.to_string(), state.to_string(), Vec::new(), String::new())
}

fn seeds(rule: &str, state: &str) -> Vec<CognitiveUnitPair> {
    vec![CognitiveUnitPair::new(rule.to_string(), state.to_string())]
}

#[test]
fn memory_stays_bounded_and_fifo() {
    let mut unit = CognitiveUnitWithMemory::new((0, 0), vec![record(0, "r", "s0")], 2);
    assert_eq!(unit.memory.len(), 1);
    unit.add_memory(record(1, "r", "s1"));
    assert_eq!(unit.memory.len(), 2);
    unit.add_memory(record(2, "r", "s2"));
    assert_eq!(unit.memory.len(), 2);
    unit.add_memory(record(3, "r", "s3"));
    assert_eq!(unit.memory.len(), 2);
    // the two most recent records are retained, oldest first
    assert_eq!(unit.memory[0].state, "s2");
    assert_eq!(unit.memory[1].state, "s3");
    assert_eq!(unit.latest().state, "s3");
}

#[test]
fn memory_grows_until_capacity() {
    let mut unit = CognitiveUnitWithMemory::new((0, 0), vec![record(0, "r", "s0")], 4);
    for i in 1..10u64 {
        unit.add_memory(record(i, "r", &format!("s{}", i)));
        assert_eq!(unit.memory.len(), std::cmp::min(i as usize + 1, 4));
    }
    assert_eq!(unit.memory[0].state, "s6");
    assert_eq!(unit.memory[3].state, "s9");
}

#[test]
fn toroidal_lattice_has_eight_distinct_neighbors() {
    let space = build_lattice_with_memory(3, 4, 1, &seeds("r", "s"), 7);
    assert_eq!(space.unit_count(), 12);
    for k in 0..space.unit_count() {
        let adj = space.neighbor_indices(k);
        assert_eq!(adj.len(), 8);
        for (a, &x) in adj.iter().enumerate() {
            assert!(x < space.unit_count());
            assert_ne!(x, k, "self loop at {}", k);
            for &y in adj.iter().skip(a + 1) {
                assert_ne!(x, y, "duplicate edge at {}", k);
            }
        }
    }
}

#[test]
fn small_lattice_suppresses_duplicate_edges() {
    let space = build_lattice_with_memory(2, 2, 1, &seeds("r", "s"), 7);
    for k in 0..space.unit_count() {
        let adj = space.neighbor_indices(k);
        // on a 2x2 torus every other cell is a neighbor exactly once
        assert_eq!(adj.len(), 3);
        assert!(!adj.contains(&k));
    }
}

#[test]
fn degenerate_lattices_suppress_self_loops() {
    let single = build_lattice_with_memory(1, 1, 1, &seeds("r", "s"), 0);
    assert_eq!(single.unit_count(), 1);
    assert_eq!(single.neighbor_indices(0).len(), 0);
    let row = build_lattice_with_memory(1, 3, 1, &seeds("r", "s"), 0);
    for k in 0..row.unit_count() {
        let adj = row.neighbor_indices(k);
        // a ring of three: only the left and right cells remain
        assert_eq!(adj.len(), 2);
        assert!(!adj.contains(&k));
    }
}

#[test]
fn lattice_seeds_every_unit() {
    let many = vec![
        CognitiveUnitPair::new("r0".to_string(), "s0".to_string()),
        CognitiveUnitPair::new("r1".to_string(), "s1".to_string()),
    ];
    let space = build_lattice_with_memory(3, 3, 2, &many, 11);
    let units = space.get_units();
    assert_eq!(units.len(), 9);
    for (k, unit) in units.iter().enumerate() {
        let (row, col) = (k / 3, k % 3);
        assert_eq!(unit.memory.len(), 1);
        assert_eq!(unit.memory_size, 2);
        assert_eq!(unit.position, (row, col));
        let expect = (row + col * 3) % 2;
        assert_eq!(unit.memory[0].rule, format!("r{}", expect));
        assert_eq!(unit.memory[0].state, format!("s{}", expect));
        assert_eq!(unit.memory[0].timestamp, 11);
    }
}

#[test]
fn seed_assignment_interleaves_by_row_and_scaled_column() {
    let many = vec![
        CognitiveUnitPair::new("r0".to_string(), "s0".to_string()),
        CognitiveUnitPair::new("r1".to_string(), "s1".to_string()),
    ];
    let space = build_lattice_with_memory(3, 4, 1, &many, 0);
    for (k, unit) in space.get_units().iter().enumerate() {
        let (row, col) = (k / 4, k % 4);
        // with four columns and two seeds, (row + col * 4) % 2 == row % 2
        assert_eq!(unit.memory[0].rule, format!("r{}", row % 2));
        assert_eq!(unit.memory[0].state, format!("s{}", row % 2));
    }
}

#[test]
fn set_unit_replaces_history_only() {
    let mut space = build_lattice_with_memory(3, 3, 2, &seeds("r", "s"), 0);
    let injected = CognitiveUnitWithMemory::new((7, 7), vec![record(9, "nr", "ns")], 2);
    space.set_unit(1, 2, injected);
    let unit = &space.get_units()[1 * 3 + 2];
    assert_eq!(unit.memory[0].rule, "nr");
    assert_eq!(unit.memory[0].state, "ns");
    // the cell keeps its own position
    assert_eq!(unit.position, (1, 2));
}

#[test]
fn fallback_repeats_previous_state_with_feedback() {
    let previous = CognitiveUnitComplex::new(
        0,
        "r0".to_string(),
        "s0".to_string(),
        vec!["old-snapshot".to_string()],
        String::new(),
    );
    let unit = CognitiveUnitWithMemory::new((0, 0), vec![previous], 2);
    let garbage = "this is not json".to_string();
    let fresh = vec![CognitiveUnitPair::new("nr".to_string(), "fresh".to_string())];
    let next = unit.calculate_next_complex(Some(&garbage), &fresh, 5);
    assert_eq!(next.rule, "r0");
    assert_eq!(next.state, "s0");
    // the failed computation keeps the previous neighbor snapshots
    assert_eq!(next.neighbors, vec!["old-snapshot".to_string()]);
    assert!(!next.feedback.is_empty());
    assert_eq!(next.timestamp, 5);
}

#[test]
fn parse_success_adopts_resolver_pair() {
    let unit = CognitiveUnitWithMemory::new((0, 0), vec![record(0, "r0", "s0")], 2);
    let neighbors = vec![
        CognitiveUnitPair::new("nr".to_string(), "alive".to_string()),
        CognitiveUnitPair::new("nr".to_string(), "dead".to_string()),
    ];
    let response = "{\"rule\": \"r1\", \"state\": \"s1\"}".to_string();
    let next = unit.calculate_next_complex(Some(&response), &neighbors, 6);
    assert_eq!(next.rule, "r1");
    assert_eq!(next.state, "s1");
    assert_eq!(next.neighbors, vec!["alive".to_string(), "dead".to_string()]);
    assert_eq!(next.feedback, "");
}

#[test]
fn fenced_response_is_trimmed_before_parsing() {
    let unit = CognitiveUnitWithMemory::new((0, 0), vec![record(0, "r0", "s0")], 2);
    let response = "```json\n{\"rule\": \"r2\", \"state\": \"s2\"}\n```".to_string();
    let next = unit.calculate_next_complex(Some(&response), &Vec::new(), 6);
    assert_eq!(next.rule, "r2");
    assert_eq!(next.state, "s2");
}

#[test]
fn transport_failure_substitutes_default_record() {
    let unit = CognitiveUnitWithMemory::new((0, 0), vec![record(3, "r0", "s0")], 2);
    let next = unit.calculate_next_complex(None, &Vec::new(), 6);
    assert_eq!(next.rule, "");
    assert_eq!(next.state, "");
    assert_eq!(next.timestamp, 0);
    assert_eq!(next.feedback, "");
    assert!(next.neighbors.is_empty());
}

#[test]
fn serialization_round_trip_reproduces_space() {
    let many = vec![
        CognitiveUnitPair::new("rule one".to_string(), "{\"cell\": 1}".to_string()),
        CognitiveUnitPair::new("règle deux".to_string(), "état—2".to_string()),
    ];
    let mut space = build_lattice_with_memory(3, 4, 3, &many, 42);
    // mutate one unit so histories differ
    let injected = CognitiveUnitWithMemory::new(
        (0, 0),
        vec![record(1, "x", "y"), record(2, "x2", "y2")],
        3,
    );
    space.set_unit(2, 1, injected);
    let bytes = space.serialize();
    let reloaded = CognitiveSpaceWithMemory::load_from_serialized(&bytes)
        .expect("round trip must decode");
    assert_eq!(space, reloaded);
}

#[test]
fn malformed_snapshots_are_rejected() {
    assert!(CognitiveSpaceWithMemory::load_from_serialized(&Vec::new()).is_none());
    assert!(CognitiveSpaceWithMemory::load_from_serialized(&vec![1, 2, 3, 4, 5]).is_none());
    let space = build_lattice_with_memory(2, 2, 1, &seeds("r", "s"), 0);
    let mut bytes = space.serialize();
    bytes.pop();
    assert!(CognitiveSpaceWithMemory::load_from_serialized(&bytes).is_none());
    let mut tail = space.serialize();
    tail.push(0);
    assert!(CognitiveSpaceWithMemory::load_from_serialized(&tail).is_none());
}

fn echo_responses(tasks: &[llmca::step::ResolveTask]) -> Vec<Option<String>> {
    tasks
        .iter()
        .map(|t| {
            let last = t.memory_pairs.last().expect("memory is never empty");
            Some(format!("{{\"rule\": \"{}\", \"state\": \"{}\"}}", last.rule, last.state))
        })
        .collect()
}

fn run_one_step(entity: &mut Entity, pool_len: usize, ts: u64) -> usize {
    assert!(entity.evolve());
    let mut plan = StepPlan::new(entity.space().unit_count(), pool_len);
    let mut batches = 0;
    while !plan.is_done() {
        let tasks = plan.next_chunk_tasks(entity.space());
        assert!(tasks.len() <= pool_len);
        let responses = echo_responses(&tasks);
        plan.commit_chunk(entity.space_mut(), &tasks, &responses, ts);
        batches += 1;
    }
    entity.complete_evolution();
    batches
}

#[test]
fn echo_scenario_five_steps() {
    let seeds = seeds("echo", "seed-state");
    let mut entity = Entity::new_2d_lattice(&seeds, 3, 3, 2, 100);
    assert_eq!(entity.current_step(), 0);
    for step in 0..5u64 {
        run_one_step(&mut entity, 1, 101 + step);
    }
    assert_eq!(entity.current_step(), 5);
    for unit in entity.space().get_units() {
        assert_eq!(unit.memory.len(), 2);
        assert_eq!(unit.memory.last().unwrap().state, "seed-state");
        assert_eq!(unit.memory.last().unwrap().rule, "echo");
    }
}

#[test]
fn nine_nodes_two_resolvers_take_five_chunks() {
    let seeds = seeds("echo", "s");
    let mut entity = Entity::new_2d_lattice(&seeds, 3, 3, 1, 0);
    let batches = run_one_step(&mut entity, 2, 1);
    assert_eq!(batches, 5);
}

#[test]
fn every_node_is_dispatched_exactly_once_per_step() {
    let space = build_lattice_with_memory(4, 5, 1, &seeds("r", "s"), 0);
    let plan = StepPlan::new(space.unit_count(), 3);
    let mut plan = plan;
    let mut space = space;
    let mut nodes: Vec<usize> = Vec::new();
    while !plan.is_done() {
        let tasks = plan.next_chunk_tasks(&space);
        for (i, t) in tasks.iter().enumerate() {
            assert_eq!(t.resolver_index, i);
            nodes.push(t.node);
        }
        let responses: Vec<Option<String>> = tasks.iter().map(|_| None).collect();
        plan.commit_chunk(&mut space, &tasks, &responses, 0);
    }
    nodes.sort();
    let expected: Vec<usize> = (0..20).collect();
    assert_eq!(nodes, expected);
}

#[test]
fn evolve_twice_accepts_only_once() {
    let seeds = seeds("r", "s");
    let mut entity = Entity::new_2d_lattice(&seeds, 3, 3, 1, 0);
    assert_eq!(entity.state(), EntityState::Idle);
    assert!(entity.evolve());
    assert_eq!(entity.state(), EntityState::ComputingStep(1));
    // the second request while one is in flight is a rejected no-op
    assert!(!entity.evolve());
    assert_eq!(entity.state(), EntityState::ComputingStep(1));
    assert_eq!(entity.current_step(), 0);
    entity.complete_evolution();
    assert_eq!(entity.state(), EntityState::Idle);
    assert_eq!(entity.current_step(), 1);
}

#[test]
fn aborted_evolution_leaves_entity_idle_and_unadvanced() {
    let seeds = seeds("r", "s");
    let mut entity = Entity::new_2d_lattice(&seeds, 3, 3, 1, 0);
    assert!(entity.evolve());
    entity.abort_evolution();
    assert_eq!(entity.state(), EntityState::Idle);
    assert_eq!(entity.current_step(), 0);
    assert!(entity.evolve());
}

#[test]
fn entity_id_is_digest_and_timestamp() {
    let seeds = seeds("r", "s");
    let entity = Entity::new_2d_lattice(&seeds, 3, 3, 1, 1234567890);
    let expected_digest = format!("{:x}", md5::compute(entity.space().serialize()));
    assert_eq!(entity.id(), format!("{}-{}", expected_digest, 1234567890));
}

#[test]
fn unique_states_deduplicates() {
    let many = vec![
        CognitiveUnitPair::new("r".to_string(), "a".to_string()),
        CognitiveUnitPair::new("r".to_string(), "b".to_string()),
    ];
    let entity = Entity::new_2d_lattice(&many, 3, 3, 1, 0);
    let mut states = entity.calculate_unique_states();
    states.sort();
    assert_eq!(states, vec!["a".to_string(), "b".to_string()]);
}

#[test]
fn resolver_pool_rejects_mismatched_lists() {
    let r = resolver_pool_from_parts(
        vec!["u1".to_string(), "u2".to_string()],
        vec!["k1".to_string()],
        vec!["m1".to_string(), "m2".to_string()],
    );
    assert_eq!(r.unwrap_err(), ResolverConfigError::LengthMismatch);
}

#[test]
fn resolver_pool_rejects_empty_lists() {
    let r = resolver_pool_from_parts(Vec::new(), Vec::new(), Vec::new());
    assert_eq!(r.unwrap_err(), ResolverConfigError::EmptyPool);
}

#[test]
fn resolver_pool_zips_parallel_lists() {
    let pool = resolver_pool_from_parts(
        vec!["u1".to_string(), "u2".to_string()],
        vec!["k1".to_string(), "k2".to_string()],
        vec!["m1".to_string(), "m2".to_string()],
    )
    .unwrap();
    assert_eq!(pool.len(), 2);
    assert_eq!(pool[1].api_url, "u2");
    assert_eq!(pool[1].api_key, "k2");
    assert_eq!(pool[1].model_name, "m2");
}

#[test]
fn manager_registers_and_finds_entities() {
    let pool = vec![LLMResolver::new(
        "u".to_string(),
        "SECRET-REDACTED".to_string(),
        "m".to_string(),
    )];
    let mut manager = LifeManager::new(".life".to_string(), pool);
    assert_eq!(manager.root_folder().as_str(), ".life");
    let a = Entity::new_2d_lattice(&seeds("r", "a"), 3, 3, 1, 1);
    let b = Entity::new_2d_lattice(&seeds("r", "b"), 3, 3, 1, 2);
    let a_id = a.id().to_string();
    let b_id = b.id().to_string();
    assert!(manager.register_entity(a));
    assert!(manager.register_entity(b));
    assert_eq!(manager.list_entities(), vec![a_id.clone(), b_id.clone()]);
    assert_eq!(manager.get_entity(&a_id).unwrap().id(), a_id);
    assert!(manager.get_entity("missing").is_none());
    assert_eq!(manager.get_all_entities().len(), 2);
}

#[test]
fn manager_rejects_duplicate_identity() {
    let pool = vec![LLMResolver::new("u".to_string(), "k".to_string(), "m".to_string())];
    let mut manager = LifeManager::new(".life".to_string(), pool);
    let a = Entity::new_2d_lattice(&seeds("r", "a"), 3, 3, 1, 1);
    let a_again = Entity::new_2d_lattice(&seeds("r", "a"), 3, 3, 1, 1);
    assert!(manager.register_entity(a));
    assert!(!manager.register_entity(a_again));
    assert_eq!(manager.get_all_entities().len(), 1);
}

#[test]
fn manager_takes_and_restores_entities() {
    let pool = vec![LLMResolver::new("u".to_string(), "k".to_string(), "m".to_string())];
    let mut manager = LifeManager::new(".life".to_string(), pool);
    let a = Entity::new_2d_lattice(&seeds("r", "a"), 3, 3, 1, 1);
    let a_id = a.id().to_string();
    assert!(manager.register_entity(a));
    let mut taken = manager.take_entity(&a_id).expect("entity was registered");
    assert!(manager.get_entity(&a_id).is_none());
    assert!(taken.evolve());
    taken.complete_evolution();
    assert!(manager.register_entity(taken));
    assert_eq!(manager.get_entity(&a_id).unwrap().current_step(), 1);
}

#[test]
fn manager_swaps_resolver_pool() {
    let pool = vec![LLMResolver::new("u".to_string(), "k".to_string(), "m".to_string())];
    let mut manager = LifeManager::new(".life".to_string(), pool);
    let fresh = vec![
        LLMResolver::new("u1".to_string(), "k1".to_string(), "m1".to_string()),
        LLMResolver::new("u2".to_string(), "k2".to_string(), "m2".to_string()),
    ];
    manager.set_resolvers(fresh);
    assert_eq!(manager.resolvers().len(), 2);
    assert_eq!(manager.resolvers()[0].api_url, "u1");
}

#[test]
fn entity_rebuilds_from_persisted_parts() {
    let entity = Entity::new_2d_lattice(&seeds("r", "s"), 3, 3, 2, 9);
    let bytes = entity.space().serialize();
    let space = CognitiveSpaceWithMemory::load_from_serialized(&bytes).unwrap();
    let reloaded = Entity::from_parts(entity.id().to_string(), 4, space);
    assert_eq!(reloaded.id(), entity.id());
    assert_eq!(reloaded.current_step(), 4);
    assert_eq!(*reloaded.space(), *entity.space());
}

#[test]
fn decimal_rendering_matches() {
    assert_eq!(llmca::entity::u64_to_dec_string(0), "0");
    assert_eq!(llmca::entity::u64_to_dec_string(7), "7");
    assert_eq!(llmca::entity::u64_to_dec_string(1234567890), "1234567890");
    assert_eq!(llmca::entity::u64_to_dec_string(u64::MAX), "18446744073709551615");
}
