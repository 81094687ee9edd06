use sim::{line_to_command, results_to_string, Cache, CacheInstruction, CacheResult, Cmd};

/* INPUT LINE TESTS */

#[test]
fn fileio_line_to_command_test() {
    let cmd_string = "L  ffff,2";

    let cmd = line_to_command(cmd_string).unwrap();

    println!("{:?} {}", cmd.inst, cmd.address);

    assert_eq!(CacheInstruction::Load, cmd.inst);
    assert_eq!(0xffff, cmd.address);
}

#[test]
fn test_line_to_command_test() {
    /* A normal Load instruction with a hexa address */
    let cmd_string = "L  ffff,2";
    let cmd = line_to_command(cmd_string).unwrap();

    assert_eq!(CacheInstruction::Load, cmd.inst);
    assert_eq!(0xffff, cmd.address);

    /* Instructions should work too even though we dont use them */
    let cmd_string = " I deadbeef,2";
    let cmd = line_to_command(cmd_string).unwrap();

    assert_eq!(CacheInstruction::Instruction, cmd.inst);
    assert_eq!(0xdeadbeef, cmd.address);

    /* Modify works, and the 0x10 is interpreted as 16 not decimal 10 */
    let cmd_string = "M 10,2";
    let cmd = line_to_command(cmd_string).unwrap();

    assert_eq!(CacheInstruction::Modify, cmd.inst);
    assert_eq!(16, cmd.address);
}

#[test]
fn line_to_command_none() {
    /* Invalid operations do not crash the program but just return nothing */
    let cmd_string = "J  ffff,2";
    let cmd = line_to_command(cmd_string);
    assert!(cmd.is_none());
    /* Sometimes the trace files contain comments or non-parseable text */
    let cmd_string = "--- ----";
    let cmd = line_to_command(cmd_string);
    assert!(cmd.is_none());
    /* We should anticipate empty lines */
    let cmd_string = "";
    let cmd = line_to_command(cmd_string);
    assert!(cmd.is_none());
}

#[test]
fn line_to_command_more_shapes() {
    /* Upper-case hexadecimal digits are accepted */
    let cmd = line_to_command("S DEAD,4").unwrap();
    assert_eq!(CacheInstruction::Store, cmd.inst);
    assert_eq!(0xdead, cmd.address);

    /* Commas separate fields just like spaces */
    let cmd = line_to_command("L,10,2").unwrap();
    assert_eq!(CacheInstruction::Load, cmd.inst);
    assert_eq!(16, cmd.address);

    /* The largest address that fits */
    let cmd = line_to_command("L ffffffffffffffff").unwrap();
    assert_eq!(u64::MAX, cmd.address);

    /* Address zero */
    let cmd = line_to_command("M 0").unwrap();
    assert_eq!(0, cmd.address);

    /* A line of separators has no first field */
    assert!(line_to_command("  ,, ").is_none());

    /* A two-letter first field is not an operation */
    assert!(line_to_command("LL ffff,2").is_none());
}

#[test]
fn line_to_command_missing_address() {
    /* An operation letter with no address field is a malformed line and
     * parses to no command, it is not an error. */
    assert!(line_to_command("L").is_none());
    assert!(line_to_command("M ").is_none());
    assert!(line_to_command("S ,,").is_none());
    assert!(line_to_command(" I").is_none());
}

/* CACHE TESTS */

#[test]
fn test_direct_cache() {
    let addrs = [
        0b00001111,     //miss (set 0)
        0b01011111,     //miss (set 1)
        0b10101111,     //miss (set 2)
        0b11111111,     //miss (set 3)
        0b100001111,    //miss (set 0)
        0b11111111,     //hit (set 3)
        0b101100001111, //miss, eviction (set 0)
    ];

    let mut direct_cache = Cache::new(2, 4, 2);

    addrs.map(|address| direct_cache.operate(address));

    assert_eq!(direct_cache.sets.len(), 4);
    assert_eq!(direct_cache.sets[0].len(), 2);
    assert_eq!(direct_cache.cache_results(), "hits:1 misses:6 evictions:1");
}

#[test]
fn test_tiny_cache() {
    let addrs = [1, 2, 3, 4, 5, 6, 7, 8, 9, 10];

    let mut cache = Cache::new(0, 0, 1);

    addrs.map(|address| cache.operate(address));

    assert_eq!(cache.sets.len(), 1);
    assert!(cache.sets[0].contains(&10));
    assert_eq!(cache.cache_results(), "hits:0 misses:10 evictions:9");
}

#[test]
fn test_tiny_cache_2() {
    let addrs = [1, 1, 0, 0, 1, 1, 0, 0, 1, 1, 0, 0, 1, 1, 0, 0, 1, 1, 0, 0];

    let mut cache = Cache::new(0, 0, 1);

    addrs.map(|address| cache.operate(address));

    assert_eq!(cache.cache_results(), "hits:10 misses:10 evictions:9");
}

#[test]
fn test_operation_insert() {
    //add address to different sets and assert set bits == correct set
    let mut cache = Cache::new(2, 4, 4);

    cache.run_command(Cmd { inst: CacheInstruction::Load, address: 0b1000000 });
    cache.run_command(Cmd { inst: CacheInstruction::Load, address: 0b10010000 });
    cache.run_command(Cmd { inst: CacheInstruction::Load, address: 0b11100000 });
    cache.run_command(Cmd { inst: CacheInstruction::Load, address: 0b100110000 });

    let mut i = cache.sets.into_iter();

    assert_eq!(1, *i.next().unwrap().get(0).unwrap());
    assert_eq!(2, *i.next().unwrap().get(0).unwrap());
    assert_eq!(3, *i.next().unwrap().get(0).unwrap());
    assert_eq!(4, *i.next().unwrap().get(0).unwrap());
}

#[test]
fn test_lru() {
    let mut cache = Cache::new(0, 0, 4);

    cache.run_command(Cmd { inst: CacheInstruction::Load, address: 0b11 });
    cache.run_command(Cmd { inst: CacheInstruction::Load, address: 0b10 });
    cache.run_command(Cmd { inst: CacheInstruction::Load, address: 0b01 });
    cache.run_command(Cmd { inst: CacheInstruction::Load, address: 0b00 });

    assert_eq!(vec![3, 2, 1, 0], *cache.sets.get(0).unwrap());

    cache.run_command(Cmd { inst: CacheInstruction::Load, address: 0b100 });
    cache.run_command(Cmd { inst: CacheInstruction::Load, address: 0b101 });

    assert_eq!(vec![1, 0, 4, 5], *cache.sets.get(0).unwrap());

    cache.run_command(Cmd { inst: CacheInstruction::Load, address: 0b00 });
    cache.run_command(Cmd { inst: CacheInstruction::Load, address: 0b1000 });

    assert_eq!(vec![4, 5, 0, 8], *cache.sets.get(0).unwrap());
}

#[test]
fn test_yi_example_inst() {
    let commands: [Cmd; 7] = [
        Cmd { inst: CacheInstruction::Load, address: 0x10 },
        Cmd { inst: CacheInstruction::Modify, address: 0x20 },
        Cmd { inst: CacheInstruction::Load, address: 0x22 },
        Cmd { inst: CacheInstruction::Store, address: 0x18 },
        Cmd { inst: CacheInstruction::Load, address: 0x110 },
        Cmd { inst: CacheInstruction::Load, address: 0x210 },
        Cmd { inst: CacheInstruction::Modify, address: 0x12 },
    ];

    /* EXAMPLE 1 */
    let mut cache = Cache::new(4, 4, 1);
    commands.map(|cmd| cache.run_command(cmd));
    assert_eq!(cache.cache_results(), "hits:4 misses:5 evictions:3");

    /* EXAMPLE 2 */
    let mut cache = Cache::new(8, 4, 2);
    commands.map(|cmd| cache.run_command(cmd));
    assert_eq!(cache.cache_results(), "hits:5 misses:4 evictions:0");
}

#[test]
fn test_decode_tags() {
    /* s=2, b=4: the tag is the address above the low six bits and lands in
     * the set named by bits four and five. */
    let mut cache = Cache::new(2, 4, 2);
    cache.operate(0xAF); // set 2, tag 2
    assert_eq!(cache.sets[2], vec![2]);

    /* b=0: there is no offset field, the set index is the low bits. */
    let mut cache = Cache::new(1, 0, 2);
    cache.operate(0b101); // set 1, tag 0b10
    assert_eq!(cache.sets[1], vec![2]);

    /* s=0: every address maps to set 0 and the tag is the address above the
     * offset. */
    let mut cache = Cache::new(0, 3, 2);
    cache.operate(0xFF); // set 0, tag 0x1F
    assert_eq!(cache.sets[0], vec![0x1F]);
}

#[test]
fn test_modify_always_hits_second() {
    /* On an empty set: miss, then the guaranteed hit. */
    let mut cache = Cache::new(0, 0, 1);
    let results = cache.run_command(Cmd { inst: CacheInstruction::Modify, address: 0x20 });
    assert_eq!(results, vec![CacheResult::Miss, CacheResult::Hit]);

    /* On the resident tag: two hits. */
    let results = cache.run_command(Cmd { inst: CacheInstruction::Modify, address: 0x20 });
    assert_eq!(results, vec![CacheResult::Hit, CacheResult::Hit]);

    /* On a full set holding another tag: miss, eviction, then the hit. */
    let results = cache.run_command(Cmd { inst: CacheInstruction::Modify, address: 0x30 });
    assert_eq!(results, vec![CacheResult::Miss, CacheResult::Eviction, CacheResult::Hit]);
}

#[test]
fn test_instruction_fetch_is_ignored() {
    let mut cache = Cache::new(4, 4, 2);
    let results = cache.run_command(Cmd { inst: CacheInstruction::Instruction, address: 0xdeadbeef });
    assert!(results.is_empty());
    assert_eq!(cache.cache_results(), "hits:0 misses:0 evictions:0");
}

#[test]
fn test_counters_match_access_count() {
    /* Every access is one hit or one miss, and evictions never outnumber
     * misses: 9 single accesses and 2 read-modify-writes are 13 accesses. */
    let mut cache = Cache::new(1, 1, 2);
    let mut accesses = 0u64;
    for addr in [1, 2, 3, 4, 5, 6, 7, 8, 9] {
        cache.operate(addr);
        accesses += 1;
    }
    for addr in [3, 9] {
        cache.run_command(Cmd { inst: CacheInstruction::Modify, address: addr });
        accesses += 2;
    }
    let summary = cache.cache_results();
    let hits: u64 = summary.split(' ').nth(0).unwrap()[5..].parse().unwrap();
    let misses: u64 = summary.split(' ').nth(1).unwrap()[7..].parse().unwrap();
    let evictions: u64 = summary.split(' ').nth(2).unwrap()[10..].parse().unwrap();
    assert_eq!(hits + misses, accesses);
    assert!(evictions <= misses);
}

#[test]
fn test_sets_stay_bounded_and_unique() {
    /* Hammer one set far past its capacity: it must never hold more than
     * two lines, and never the same tag twice. */
    let mut cache = Cache::new(0, 0, 2);
    for addr in [7, 8, 9, 7, 7, 10, 8, 11, 12, 7, 9, 9] {
        cache.operate(addr);
        let set = &cache.sets[0];
        assert!(set.len() <= 2);
        for i in 0..set.len() {
            for j in 0..set.len() {
                assert!(i == j || set[i] != set[j]);
            }
        }
    }
}

#[test]
fn test_summary_idempotent() {
    let mut cache = Cache::new(2, 2, 2);
    assert_eq!(cache.cache_results(), "hits:0 misses:0 evictions:0");
    assert_eq!(cache.cache_results(), cache.cache_results());

    cache.operate(0x40);
    cache.operate(0x40);
    let first = cache.cache_results();
    let second = cache.cache_results();
    assert_eq!(first, second);
    assert_eq!(first, "hits:1 misses:1 evictions:0");
}

/* RESULT RENDERING TESTS */

#[test]
fn test_result_names() {
    assert_eq!(CacheResult::Hit.as_str(), "hit");
    assert_eq!(CacheResult::Miss.as_str(), "miss");
    assert_eq!(CacheResult::Eviction.as_str(), "eviction");
}

#[test]
fn test_results_to_string() {
    assert_eq!(results_to_string(&vec![]), "");
    assert_eq!(results_to_string(&vec![CacheResult::Hit]), "hit");
    assert_eq!(
        results_to_string(&vec![CacheResult::Miss, CacheResult::Eviction]),
        "miss eviction"
    );
    assert_eq!(
        results_to_string(&vec![CacheResult::Miss, CacheResult::Eviction, CacheResult::Hit]),
        "miss eviction hit"
    );
}
