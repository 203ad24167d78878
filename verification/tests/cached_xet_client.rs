use std::collections::HashMap;

use hf_mount::cached_xet_client::{
    derive_range_response, CachedXetClient, FileRange, MerkleHash, Plan, RangeDescriptor,
    RangeFetch, ReconStep, Term, Xorb, CACHE_TTL_SECS, MAX_CACHE_ENTRIES,
};
use hf_mount::time::Duration;

#[derive(Clone, Copy)]
enum Mode {
    ReturnSome,
    ReturnNone,
    ReturnErr,
}

/// A server that counts what it is asked.
struct Server {
    mode: Mode,
    calls: HashMap<(u64, Option<(u64, u64)>), usize>,
    total: usize,
}

impl Server {
    fn new(mode: Mode) -> Self {
        Server { mode, calls: HashMap::new(), total: 0 }
    }

    fn get(&mut self, hash: MerkleHash, range: Option<FileRange>) -> Result<Option<Plan>, String> {
        let key = (hash.w0, range.map(|r| (r.start, r.end)));
        *self.calls.entry(key).or_insert(0) += 1;
        self.total += 1;
        match self.mode {
            Mode::ReturnSome => Ok(Some(Plan {
                offset_into_first_range: range.map_or(0, |r| r.start),
                terms: Vec::new(),
                xorbs: Vec::new(),
            })),
            Mode::ReturnNone => Ok(None),
            Mode::ReturnErr => Err("boom".to_string()),
        }
    }

    fn call_count(&self, hash: MerkleHash, range: Option<FileRange>) -> usize {
        let key = (hash.w0, range.map(|r| (r.start, r.end)));
        self.calls.get(&key).copied().unwrap_or(0)
    }
}

fn ask(
    client: &mut CachedXetClient,
    server: &mut Server,
    hash: MerkleHash,
    range: Option<FileRange>,
) -> Result<Option<Plan>, String> {
    ask_at(client, server, hash, range, Duration::from_secs(1))
}

fn ask_at(
    client: &mut CachedXetClient,
    server: &mut Server,
    hash: MerkleHash,
    range: Option<FileRange>,
    now: Duration,
) -> Result<Option<Plan>, String> {
    match client.get_reconstruction(hash, range, now) {
        ReconStep::Answer(plan) => Ok(plan),
        ReconStep::Wait => panic!("nobody else is asking"),
        ReconStep::Lead => {
            let result = server.get(hash, range);
            let kept = match &result {
                Ok(Some(plan)) => Some(plan.clone()),
                _ => None,
            };
            client.fetched(hash, range, kept, now);
            result
        }
    }
}

fn hash_for(i: usize) -> MerkleHash {
    MerkleHash { w0: i as u64, w1: 7, w2: 8, w3: 9 }
}

fn range(start: u64, end: u64) -> FileRange {
    FileRange { start, end }
}

#[test]
fn caches_successful_response_for_same_key() {
    let mut server = Server::new(Mode::ReturnSome);
    let mut client = CachedXetClient::new();
    let key = hash_for(1);

    let r1 = ask(&mut client, &mut server, key, None).unwrap().unwrap();
    let r2 = ask(&mut client, &mut server, key, None).unwrap().unwrap();

    assert_eq!(r1.offset_into_first_range, 0);
    assert_eq!(r2.offset_into_first_range, 0);
    assert_eq!(server.call_count(key, None), 1);
    assert_eq!(server.total, 1);
}

#[test]
fn none_responses_are_not_cached() {
    let mut server = Server::new(Mode::ReturnNone);
    let mut client = CachedXetClient::new();
    let key = hash_for(2);

    assert!(ask(&mut client, &mut server, key, None).unwrap().is_none());
    assert!(ask(&mut client, &mut server, key, None).unwrap().is_none());
    assert_eq!(server.call_count(key, None), 2);
}

#[test]
fn errors_are_not_cached() {
    let mut server = Server::new(Mode::ReturnErr);
    let mut client = CachedXetClient::new();
    let key = hash_for(3);

    assert!(ask(&mut client, &mut server, key, None).is_err());
    assert!(ask(&mut client, &mut server, key, None).is_err());
    assert_eq!(server.call_count(key, None), 2);
}

#[test]
fn range_derived_from_full_file_plan() {
    let mut server = Server::new(Mode::ReturnSome);
    let mut client = CachedXetClient::new();
    let key = hash_for(4);
    let r = Some(range(10, 20));

    ask(&mut client, &mut server, key, None).unwrap();
    ask(&mut client, &mut server, key, None).unwrap();
    ask(&mut client, &mut server, key, r).unwrap();
    ask(&mut client, &mut server, key, Some(range(20, 30))).unwrap();

    assert_eq!(server.call_count(key, None), 1);
    assert_eq!(server.call_count(key, r), 0);
    assert_eq!(server.total, 1);
}

#[test]
fn range_query_cached_when_no_full_file_plan() {
    let mut server = Server::new(Mode::ReturnSome);
    let mut client = CachedXetClient::new();
    let key = hash_for(40);
    let r = Some(range(10, 20));

    ask(&mut client, &mut server, key, r).unwrap();
    ask(&mut client, &mut server, key, r).unwrap();

    assert_eq!(server.call_count(key, r), 1);
    assert_eq!(server.total, 1);
}

#[test]
fn expired_entries_are_evicted_and_refetched() {
    let mut server = Server::new(Mode::ReturnSome);
    let mut client = CachedXetClient::new_with_ttl(Duration::from_secs(0));
    let key = hash_for(50);

    ask(&mut client, &mut server, key, None).unwrap();
    ask(&mut client, &mut server, key, None).unwrap();

    assert_eq!(server.call_count(key, None), 2);
}

#[test]
fn cache_evicts_one_when_capacity_is_reached() {
    let mut server = Server::new(Mode::ReturnSome);
    let mut client = CachedXetClient::new();

    for i in 0..MAX_CACHE_ENTRIES {
        ask(&mut client, &mut server, hash_for(i), None).unwrap();
    }
    let overflow = hash_for(MAX_CACHE_ENTRIES);
    ask(&mut client, &mut server, overflow, None).unwrap();

    assert_eq!(server.call_count(overflow, None), 1);
    ask(&mut client, &mut server, overflow, None).unwrap();
    assert_eq!(server.call_count(overflow, None), 1);
    assert_eq!(server.total, MAX_CACHE_ENTRIES + 1);
    assert_eq!(client.len(), MAX_CACHE_ENTRIES);
}

#[test]
fn eviction_preserves_full_plans_over_range_entries() {
    let mut server = Server::new(Mode::ReturnSome);
    let mut client = CachedXetClient::new();
    let key = hash_for(1);

    ask(&mut client, &mut server, key, None).unwrap();
    for i in 0..MAX_CACHE_ENTRIES {
        let r = Some(range(i as u64 * 100, i as u64 * 100 + 50));
        ask(&mut client, &mut server, hash_for(i + 1000), r).unwrap();
    }

    ask(&mut client, &mut server, key, None).unwrap();
    assert_eq!(server.call_count(key, None), 1);
}

#[test]
fn full_plan_insert_purges_stale_range_entries() {
    let mut server = Server::new(Mode::ReturnSome);
    let mut client = CachedXetClient::new();
    let key = hash_for(70);

    let r = Some(range(100, 200));
    ask(&mut client, &mut server, key, r).unwrap();
    assert_eq!(server.call_count(key, r), 1);

    ask(&mut client, &mut server, key, None).unwrap();
    assert_eq!(client.len(), 1);

    let r2 = Some(range(100, 200));
    ask(&mut client, &mut server, key, r2).unwrap();
    assert_eq!(server.call_count(key, r2), 1);
    assert_eq!(server.total, 2);
}

#[test]
fn range_entry_cached_when_full_of_full_plans_evicts_one() {
    let mut server = Server::new(Mode::ReturnSome);
    let mut client = CachedXetClient::new();

    for i in 0..MAX_CACHE_ENTRIES {
        ask(&mut client, &mut server, hash_for(i), None).unwrap();
    }

    let overflow_hash = hash_for(MAX_CACHE_ENTRIES + 1);
    let r = Some(range(0, 100));
    ask(&mut client, &mut server, overflow_hash, r).unwrap();
    ask(&mut client, &mut server, overflow_hash, r).unwrap();
    assert_eq!(server.call_count(overflow_hash, r), 1);

    let total_before = server.total;
    ask(&mut client, &mut server, hash_for(1), None).unwrap();
    assert!(server.total <= total_before + 1);
}

#[test]
fn concurrent_same_key_coalesces_via_single_flight() {
    let contenders = 8usize;
    let mut server = Server::new(Mode::ReturnSome);
    let mut client = CachedXetClient::new();
    let key = hash_for(99);
    let now = Duration::from_secs(1);

    let mut leaders = 0;
    let mut waiting = 0;
    for _ in 0..contenders {
        match client.get_reconstruction(key, None, now) {
            ReconStep::Lead => leaders += 1,
            ReconStep::Wait => waiting += 1,
            ReconStep::Answer(_) => panic!("there is no answer yet"),
        }
    }
    assert_eq!(leaders, 1);
    assert_eq!(waiting, contenders - 1);

    let plan = server.get(key, None).unwrap();
    client.fetched(key, None, plan, now);
    for _ in 0..waiting {
        let step = client.get_reconstruction(key, None, now);
        assert!(matches!(step, ReconStep::Answer(Some(_))));
    }
    assert_eq!(server.call_count(key, None), 1);
    assert_eq!(server.total, 1);
}

#[test]
fn a_failed_request_lets_the_next_caller_lead() {
    let mut client = CachedXetClient::new();
    let key = hash_for(5);
    let now = Duration::from_secs(1);
    assert!(matches!(client.get_reconstruction(key, None, now), ReconStep::Lead));
    client.fetched(key, None, None, now);
    assert!(matches!(client.get_reconstruction(key, None, now), ReconStep::Lead));
}

#[test]
fn plans_expire_just_before_their_urls() {
    let mut server = Server::new(Mode::ReturnSome);
    let mut client = CachedXetClient::new();
    let key = hash_for(6);
    assert_eq!(CACHE_TTL_SECS, 59 * 60);
    ask_at(&mut client, &mut server, key, None, Duration::from_secs(10)).unwrap();
    let last = Duration::from_secs(10 + CACHE_TTL_SECS - 1);
    ask_at(&mut client, &mut server, key, None, last).unwrap();
    assert_eq!(server.total, 1);
    let late = Duration::from_secs(10 + CACHE_TTL_SECS);
    ask_at(&mut client, &mut server, key, None, late).unwrap();
    assert_eq!(server.total, 2);
}

fn term(hash: u64, unpacked_length: u32) -> Term {
    Term { hash: hash_for(hash as usize), unpacked_length, chunk_start: 0, chunk_end: 4 }
}

fn xorb(hash: u64) -> Xorb {
    Xorb {
        hash: hash_for(hash as usize),
        fetches: vec![RangeFetch {
            url: format!("https://cas.example.com/{hash}"),
            ranges: vec![RangeDescriptor {
                chunk_start: 0,
                chunk_end: 4,
                byte_start: 0,
                byte_end: 99,
            }],
        }],
    }
}

fn three_terms() -> Plan {
    Plan {
        offset_into_first_range: 0,
        terms: vec![term(1, 100), term(2, 50), term(3, 200)],
        xorbs: vec![xorb(1), xorb(2), xorb(3)],
    }
}

#[test]
fn a_part_keeps_the_terms_that_overlap_it() {
    let part = derive_range_response(&three_terms(), range(120, 180));
    assert_eq!(part.terms, vec![term(2, 50), term(3, 200)]);
    assert_eq!(part.offset_into_first_range, 20);
    let kept: Vec<u64> = part.xorbs.iter().map(|x| x.hash.w0).collect();
    assert_eq!(kept, vec![2, 3]);
    assert_eq!(part.xorbs[0].fetches[0].url, "https://cas.example.com/2");
    assert_eq!(part.xorbs[0].fetches[0].ranges[0].byte_end, 99);
}

#[test]
fn a_part_at_a_boundary_leaves_the_neighbours_out() {
    let part = derive_range_response(&three_terms(), range(100, 150));
    assert_eq!(part.terms, vec![term(2, 50)]);
    assert_eq!(part.offset_into_first_range, 0);
}

#[test]
fn a_part_may_reach_past_the_end() {
    let part = derive_range_response(&three_terms(), range(349, u64::MAX));
    assert_eq!(part.terms, vec![term(3, 200)]);
    assert_eq!(part.offset_into_first_range, 199);
}

#[test]
fn a_part_past_the_end_is_empty() {
    let part = derive_range_response(&three_terms(), range(350, 400));
    assert!(part.terms.is_empty());
    assert!(part.xorbs.is_empty());
    assert_eq!(part.offset_into_first_range, 0);
}

#[test]
fn past_the_end_there_is_no_plan() {
    let mut client = CachedXetClient::new();
    let key = hash_for(8);
    let now = Duration::from_secs(1);
    assert!(matches!(client.get_reconstruction(key, None, now), ReconStep::Lead));
    client.fetched(key, None, Some(three_terms()), now);
    let past = client.get_reconstruction(key, Some(range(350, 400)), now);
    assert!(matches!(past, ReconStep::Answer(None)));
    let within = client.get_reconstruction(key, Some(range(0, 1)), now);
    match within {
        ReconStep::Answer(Some(plan)) => assert_eq!(plan.terms, vec![term(1, 100)]),
        _ => panic!("the whole plan answers this"),
    }
}

#[test]
fn an_empty_file_has_a_plan_only_from_its_start() {
    let mut client = CachedXetClient::new();
    let key = hash_for(9);
    let now = Duration::from_secs(1);
    assert!(matches!(client.get_reconstruction(key, None, now), ReconStep::Lead));
    let empty = Plan { offset_into_first_range: 0, terms: Vec::new(), xorbs: Vec::new() };
    client.fetched(key, None, Some(empty), now);
    let from_start = client.get_reconstruction(key, Some(range(0, 10)), now);
    assert!(matches!(from_start, ReconStep::Answer(Some(_))));
    let later = client.get_reconstruction(key, Some(range(1, 10)), now);
    assert!(matches!(later, ReconStep::Answer(None)));
}
