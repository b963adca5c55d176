use rios::ospf::{LSA_MAX_AGE, LSA_MAX_SEQUENCE};
use rios::{LsaDatabase, OspfLsa};

const ROUTER: u32 = 0x0a00_0001;
const INITIAL: i32 = -2147483647;

fn router_lsa(body: Vec<u32>, sequence: i32) -> OspfLsa {
    OspfLsa { kind: 1, link_state_id: ROUTER, advertising_router: ROUTER, age: 0, sequence, body }
}

fn wanted(lsa: OspfLsa) -> Vec<((u32, u8, u32, u32), OspfLsa)> {
    vec![((0, lsa.kind, lsa.link_state_id, lsa.advertising_router), lsa)]
}

fn seconds(s: u64) -> u64 {
    s * 1_000_000
}

#[test]
fn new_lsas_are_installed_and_flooded_once() {
    let mut db = LsaDatabase::new();
    let out = db.originate(&wanted(router_lsa(vec![1, 2], INITIAL)), ROUTER, 0, 100, false);
    assert_eq!(out.len(), 1);
    assert_eq!((out[0].0, out[0].1.sequence, out[0].1.body.clone()), (0, INITIAL, vec![1, 2]));
    assert_eq!(db.len(), 1);
    let again = db.originate(&wanted(router_lsa(vec![1, 2], INITIAL)), ROUTER, seconds(10), 100, false);
    assert!(again.is_empty());
}

#[test]
fn changed_and_old_lsas_take_the_next_sequence_number() {
    let mut db = LsaDatabase::new();
    db.originate(&wanted(router_lsa(vec![1], INITIAL)), ROUTER, 0, 100, false);
    let changed = db.originate(&wanted(router_lsa(vec![2], INITIAL)), ROUTER, seconds(5), 100, false);
    assert_eq!(changed.len(), 1);
    assert_eq!(changed[0].1.sequence, INITIAL + 1);
    assert_eq!(changed[0].1.body, vec![2]);
    assert!(db.originate(&wanted(router_lsa(vec![2], INITIAL)), ROUTER, seconds(1804), 100, false).is_empty());
    let refreshed = db.originate(&wanted(router_lsa(vec![2], INITIAL)), ROUTER, seconds(1805), 100, false);
    assert_eq!(refreshed.len(), 1);
    assert_eq!(refreshed[0].1.sequence, INITIAL + 2);
}

#[test]
fn unwanted_lsas_are_flushed_and_purged_once_drained() {
    let mut db = LsaDatabase::new();
    db.originate(&wanted(router_lsa(vec![1], INITIAL)), ROUTER, 0, 100, false);
    let flushed = db.originate(&Vec::new(), ROUTER, seconds(60), 100, false);
    assert_eq!(flushed.len(), 1);
    assert_eq!(flushed[0].1.age, LSA_MAX_AGE);
    assert_eq!(db.len(), 1);
    assert!(db.originate(&Vec::new(), ROUTER, seconds(62), 100, true).is_empty());
    assert_eq!(db.len(), 1);
    db.originate(&Vec::new(), ROUTER, seconds(65), 100, true);
    assert_eq!(db.len(), 0);
}

#[test]
fn an_lsa_at_the_last_sequence_number_is_aged_out_first() {
    let mut db = LsaDatabase::new();
    db.originate(&wanted(router_lsa(vec![1], LSA_MAX_SEQUENCE)), ROUTER, 0, 100, false);
    let out = db.originate(&wanted(router_lsa(vec![2], INITIAL)), ROUTER, seconds(1), 100, false);
    assert_eq!(out.len(), 1);
    assert_eq!((out[0].1.age, out[0].1.sequence, out[0].1.body.clone()), (LSA_MAX_AGE, LSA_MAX_SEQUENCE, vec![1]));
    assert!(db.originate(&wanted(router_lsa(vec![2], INITIAL)), ROUTER, seconds(2), 100, false).is_empty());
}

#[test]
fn the_database_keeps_to_its_limit() {
    let mut db = LsaDatabase::new();
    let mut both = wanted(router_lsa(vec![1], INITIAL));
    let other = OspfLsa { kind: 2, ..router_lsa(vec![3], INITIAL) };
    both.push(((0, 2, ROUTER, ROUTER), other));
    let out = db.originate(&both, ROUTER, 0, 1, false);
    assert_eq!(out.len(), 1);
    assert_eq!(out[0].1.kind, 1);
    assert_eq!(db.len(), 1);
}

#[test]
fn stored_lsas_and_flushes_go_in_key_order() {
    let mut db = LsaDatabase::new();
    let network = OspfLsa { kind: 2, ..router_lsa(vec![3], INITIAL) };
    let mut wanted_both = vec![((0, 2, ROUTER, ROUTER), network)];
    wanted_both.extend(wanted(router_lsa(vec![1], INITIAL)));
    db.originate(&wanted_both, ROUTER, 0, 100, false);
    let kinds: Vec<u8> = db.lsas().iter().map(|(k, _)| k.1).collect();
    assert_eq!(kinds, vec![1, 2]);
    // Neither is wanted any more: both are flushed, router LSA first.
    let flushed = db.originate(&Vec::new(), ROUTER, seconds(60), 100, false);
    let kinds: Vec<u8> = flushed.iter().map(|(_, l)| l.kind).collect();
    assert_eq!(kinds, vec![1, 2]);
    assert!(flushed.iter().all(|(_, l)| l.age == LSA_MAX_AGE));
}

#[test]
fn without_a_router_identifier_nothing_is_originated_and_floods_are_appended() {
    let mut db = LsaDatabase::new();
    let mut out = Vec::new();
    rios::ospf_originate_step(None, &mut db, &wanted(router_lsa(vec![1], INITIAL)), 0, 100, false, &mut out);
    assert_eq!(db.len(), 0);
    assert!(out.is_empty());
    out.push((7, router_lsa(vec![9], INITIAL)));
    rios::ospf_originate_step(Some(ROUTER), &mut db, &wanted(router_lsa(vec![1], INITIAL)), 0, 100, false, &mut out);
    assert_eq!(db.len(), 1);
    assert_eq!(out.len(), 2);
    assert_eq!(out[0].0, 7);
    assert_eq!(out[1].1.body, vec![1]);
}
