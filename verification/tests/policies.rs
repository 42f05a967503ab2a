use std::hash::Hash;
use std::hash::Hasher;

use loadbalancer::chash::first_min_index;
use loadbalancer::chash::Bounded;
use loadbalancer::chash::Consistent;
use loadbalancer::chash::Ring;
use loadbalancer::load::Counter;
use loadbalancer::load::EwmaState;
use loadbalancer::load::Load;
use loadbalancer::node::Node;
use loadbalancer::node::WeightedNode;
use loadbalancer::p2c::at_least;
use loadbalancer::p2c::busier;
use loadbalancer::p2c::busier_of;
use loadbalancer::p2c::hash_slot;
use loadbalancer::p2c::P2C;
use loadbalancer::policies::chash::sort_ascending;
use loadbalancer::policies::chash::sort_by_inner;
use loadbalancer::policies::chash::CHash;
use loadbalancer::policies::chash::CHashLL;
use loadbalancer::policies::p2c::first_is_lighter;
use loadbalancer::policies::p2c::lighter_place;
use loadbalancer::policies::p2c::P2C as CountedP2C;
use loadbalancer::policies::round_robin::next_turn;
use loadbalancer::policies::round_robin::RoundRobin as CopyingRoundRobin;
use loadbalancer::policies::server_sets::ServerSet;
use loadbalancer::policies::CompletableDistributor;
use loadbalancer::policies::Distributor;
use loadbalancer::policies::Loaded;
use loadbalancer::round_robin::turn_slot;
use loadbalancer::round_robin::RoundRobin;
use loadbalancer::server_list::ServerList;
use loadbalancer::Balancer;
use loadbalancer::KeyedBalancer;

fn metro_of_str(s: &str) -> u64 {
    let mut h = metrohash::MetroHash64::default();
    s.hash(&mut h);
    h.finish()
}

fn metro_of_bytes(b: &[u8]) -> u64 {
    let mut h = metrohash::MetroHash64::default();
    h.write(b);
    h.finish()
}

fn xx_of_bytes(b: &[u8]) -> u64 {
    let mut h = twox_hash::XxHash64::default();
    h.write(b);
    h.finish()
}

fn hosts_of<L: Load>(list: &ServerList<String, L>) -> Vec<String> {
    list.list().iter().map(|n| n.value().clone()).collect()
}

fn names(v: &[&str]) -> Vec<String> {
    v.iter().map(|s| s.to_string()).collect()
}

#[test]
fn it_works() {
    assert_eq!(2 + 2, 4);
}

#[test]
fn node_id_is_metrohash_of_the_host_name() {
    let host = "10.0.0.1:80".to_string();
    assert_eq!(host.id(), metro_of_str("10.0.0.1:80"));
    assert_ne!(host.id(), "10.0.0.2:80".to_string().id());
    let node: WeightedNode<String, ()> = WeightedNode::new(host.clone());
    assert_eq!(node.id(), host.id());
    assert_eq!(node.value(), &host);
}

#[test]
fn unsorted_list_keeps_insertion_order_and_drops_duplicates() {
    let mut list: ServerList<String, ()> = ServerList::new(false);
    list.add("c".to_string());
    list.add("a".to_string());
    list.add("c".to_string());
    list.add("b".to_string());
    assert_eq!(hosts_of(&list), names(&["c", "a", "b"]));
}

#[test]
fn sorted_list_orders_by_identity() {
    let mut list: ServerList<String, ()> = ServerList::new(true);
    for h in ["h1", "h2", "h3", "h4", "h5", "h2"] {
        list.add(h.to_string());
    }
    let ids: Vec<u64> = list.list().iter().map(|n| n.id()).collect();
    assert_eq!(ids.len(), 5);
    for w in ids.windows(2) {
        assert!(w[0] < w[1]);
    }
    let mut expected: Vec<u64> = ["h1", "h2", "h3", "h4", "h5"].iter().map(|h| metro_of_str(h)).collect();
    expected.sort();
    assert_eq!(ids, expected);
}

#[test]
fn remove_drops_the_host_with_that_identity() {
    let mut list: ServerList<String, ()> = ServerList::new(false);
    list.update(names(&["a", "b", "c"]));
    list.remove(&"b".to_string());
    assert_eq!(hosts_of(&list), names(&["a", "c"]));
    list.remove(&"zzz".to_string());
    assert_eq!(hosts_of(&list), names(&["a", "c"]));
}

#[test]
fn set_keeps_listed_hosts_and_adds_the_new_ones() {
    let mut list: ServerList<String, Counter> = ServerList::new(false);
    list.update(names(&["a", "b", "c"]));
    list.list()[0].start();
    list.set(names(&["d", "a"]));
    assert_eq!(hosts_of(&list), names(&["a", "d"]));
    // "a" kept its load figure
    assert_eq!(list.list()[0].load().load(), 1);
    assert_eq!(list.list()[1].load().load(), 0);
}

#[test]
fn round_robin_visits_servers_in_turn() {
    let mut list: ServerList<String, ()> = ServerList::new(false);
    list.update(names(&["a", "b", "c"]));
    let rr = RoundRobin::new(list);
    let picks: Vec<String> = (0..7).map(|_| rr.balance().value().clone()).collect();
    assert_eq!(picks, names(&["a", "b", "c", "a", "b", "c", "a"]));
    assert_eq!(turn_slot(7, 3), 1);
}

#[test]
fn random_p2c_picks_a_listed_server() {
    let mut list: ServerList<String, Counter> = ServerList::new(false);
    list.update(names(&["a", "b", "c"]));
    let p = P2C::new(list);
    for _ in 0..20 {
        let n = Balancer::balance(&p);
        assert!(["a", "b", "c"].contains(&n.value().as_str()));
    }
}

#[test]
fn keyed_p2c_picks_between_the_two_hash_places() {
    let mut list: ServerList<String, Counter> = ServerList::new(false);
    list.update(names(&["a", "b", "c", "d", "e"]));
    let key = b"user-42";
    let first = (metro_of_bytes(key) as usize) % 5;
    let second = (xx_of_bytes(key) as usize) % 5;
    assert_ne!(first, second);
    let p = P2C::new(list);
    let n = KeyedBalancer::balance(&p, key);
    let hosts = hosts_of(Balancer::servers(&p));
    assert!(n.value() == &hosts[first] || n.value() == &hosts[second]);
    // with equal loads the MetroHash place wins (its load is not below)
    assert_eq!(n.value(), &hosts[first]);
    // the busier one is preferred
    Balancer::servers(&p).list()[second].start();
    let n = KeyedBalancer::balance(&p, key);
    assert_eq!(n.value(), &hosts[second]);
}

#[test]
fn busier_prefers_the_first_on_a_tie() {
    let a: WeightedNode<String, Counter> = WeightedNode::new("a".to_string());
    let b: WeightedNode<String, Counter> = WeightedNode::new("b".to_string());
    assert_eq!(busier(&a, &b).value(), "a");
    b.start();
    assert_eq!(busier(&a, &b).value(), "b");
    assert!(at_least(&3usize, &3usize));
    assert!(!at_least(&2usize, &3usize));
    assert_eq!(hash_slot(17, 5), 2);
}

#[test]
fn ring_replicas_follow_the_bucket_around() {
    let mut list: ServerList<String, Counter> = ServerList::new(false);
    list.update(names(&["a", "b", "c", "d"]));
    let ring = Ring::new(list, 3);
    let reps: Vec<String> = ring.replicas(2).iter().map(|n| n.value().clone()).collect();
    assert_eq!(reps, names(&["c", "d", "a"]));
    assert_eq!(ring.get_node(1).value(), "b");
    ring.get_node(2).start();
    assert_eq!(ring.least_loaded(2).value(), "d");
    assert_eq!(Ring::<String, Counter>::key_hash(b"k"), metro_of_bytes(b"k"));
}

#[test]
fn consistent_and_bounded_send_a_bucket_to_its_server() {
    let mut list: ServerList<String, ()> = ServerList::new(false);
    list.update(names(&["a", "b"]));
    let c = Consistent { ring: Ring::new(list, 1) };
    assert_eq!(c.balance(1).value(), "b");
    let mut list: ServerList<String, Counter> = ServerList::new(false);
    list.update(names(&["a", "b"]));
    let b = Bounded { ring: Ring::new(list, 2) };
    assert_eq!(b.balance(0).value(), "a");
    assert_eq!(b.servers().list().len(), 2);
}

#[test]
fn first_min_index_takes_the_first_smallest() {
    assert_eq!(first_min_index(&vec![5usize, 2, 7, 2, 9]), 1);
    assert_eq!(first_min_index(&vec![4i64]), 0);
    assert_eq!(first_min_index(&vec![3u64, 3, 3]), 0);
}

#[test]
fn ewma_state_tracks_pending_and_cost() {
    let mut s = EwmaState::new(0);
    assert_eq!(s.load(), 0);
    let ts = s.start(100);
    assert_eq!(ts, 100);
    // a request in flight with no measured cost: the penalty plus one
    assert_eq!(s.load(), 1073741823 + 1);
    s.end(600, ts, 700);
    // the first round trip (500 ns) does not replace a zero estimate within
    // the decay window
    assert_eq!(s.load(), 0);
    let ts = s.start(20_000_000_000);
    s.end(20_000_000_250, ts, 20_000_000_300);
    // past the window, the measured round trip replaces the estimate
    assert_eq!(s.load(), 250);
    let ts = s.start(20_000_000_400);
    assert_eq!(s.load(), 500);
    s.end(20_000_000_500, ts, 20_000_000_500);
    // a faster round trip replaces the estimate at once
    assert_eq!(s.load(), 100);
}

#[test]
fn copying_round_robin_hands_out_copies_in_turn() {
    let mut rr: CopyingRoundRobin<String> = CopyingRoundRobin::from(names(&["a", "b"]));
    assert_eq!(rr.pick(), Some("a".to_string()));
    assert_eq!(rr.pick(), Some("b".to_string()));
    assert_eq!(rr.pick(), Some("a".to_string()));
    rr.add_node("c".to_string());
    rr.add_nodes(names(&["d", "b"]));
    rr.remove_node("b".to_string());
    assert_eq!(rr.list_nodes(), names(&["a", "c", "d", "b"]));
    rr.remove_nodes(names(&["b", "a"]));
    assert_eq!(rr.list_nodes(), names(&["c", "d"]));
    assert_eq!(next_turn(1, 2), 0);
    assert_eq!(next_turn(usize::MAX, 3), ((usize::MAX % 3) + 1) % 3);
}

#[test]
fn counted_p2c_picks_the_lighter_and_counts_it() {
    let mut p: CountedP2C<String> = CountedP2C::from(names(&["a"]));
    assert_eq!(p.pick(), Some("a".to_string()));
    p.done("a".to_string());
    p.add_node("b".to_string());
    p.add_nodes(names(&["c"]));
    p.remove_node("c".to_string());
    assert_eq!(ServerSet::list(&p), names(&["a", "b"]));
    for _ in 0..10 {
        let x = p.pick().unwrap();
        assert!(x == "a" || x == "b");
    }
    assert!(first_is_lighter(1, 1));
    assert!(!first_is_lighter(2, 1));
}

#[test]
fn server_sets_resolve() {
    let mut rr: CopyingRoundRobin<String> = ServerSet::new();
    ServerSet::add_nodes(&mut rr, names(&["a", "b"]));
    rr.resolve(names(&["x"]));
    assert_eq!(ServerSet::list(&rr), names(&["x"]));

    let mut p: CountedP2C<String> = ServerSet::new();
    ServerSet::add_nodes(&mut p, names(&["a", "b", "c"]));
    p.resolve(names(&["a", "c", "d"]));
    // kept: a, c; then each host that some kept server differs from
    assert_eq!(ServerSet::list(&p), names(&["a", "c", "a", "c", "d"]));
    let mut q: CountedP2C<String> = ServerSet::new();
    ServerSet::add(&mut q, "a".to_string());
    q.resolve(names(&["a"]));
    assert_eq!(ServerSet::list(&q), names(&["a"]));
    ServerSet::remove(&mut q, "a".to_string());
    assert_eq!(ServerSet::list(&q), Vec::<String>::new());
}

#[test]
fn loaded_counts_requests() {
    let l = Loaded::new("a".to_string());
    assert_eq!(l.load(), 0);
    l.incr();
    l.incr();
    l.decr();
    assert_eq!(l.load(), 1);
    let c = l.clone();
    assert_eq!(c.load(), 1);
    assert_eq!(c.inner, "a");
    let k = Counter::default();
    assert_eq!(k.incr(), 0);
    assert_eq!(k.incr(), 1);
    assert_eq!(k.decr(), 2);
    assert_eq!(Load::load(&k), 1);
}

#[test]
fn chash_keeps_servers_sorted() {
    let mut c: CHash<u64> = CHash::from(vec![5, 1, 3]);
    assert_eq!(ServerSet::list(&c), vec![1, 3, 5]);
    ServerSet::add(&mut c, 2);
    assert_eq!(ServerSet::list(&c), vec![1, 2, 3, 5]);
    ServerSet::add_nodes(&mut c, vec![9, 0, 3]);
    assert_eq!(ServerSet::list(&c), vec![0, 1, 2, 3, 3, 5, 9]);
    ServerSet::remove(&mut c, 3);
    assert_eq!(ServerSet::list(&c), vec![0, 1, 2, 3, 5, 9]);
    ServerSet::remove_nodes(&mut c, vec![0, 9, 42]);
    assert_eq!(ServerSet::list(&c), vec![1, 2, 3, 5]);
    c.resolve(vec![8, 7]);
    assert_eq!(ServerSet::list(&c), vec![7, 8]);
}

#[test]
fn chash_ll_sorts_after_each_change() {
    let mut c: CHashLL<u64> = CHashLL::from(vec![5, 1, 3]);
    // built from a list, the order is kept as given
    assert_eq!(ServerSet::list(&c), vec![5, 1, 3]);
    ServerSet::add(&mut c, 2);
    assert_eq!(ServerSet::list(&c), vec![1, 2, 3, 5]);
    ServerSet::remove(&mut c, 1);
    assert_eq!(ServerSet::list(&c), vec![2, 3, 5]);
    c.resolve(vec![3, 4]);
    // kept: 3; then each of 3, 4 that the kept 3 differs from: 4
    assert_eq!(ServerSet::list(&c), vec![3, 4]);
    ServerSet::add_nodes(&mut c, vec![0, 4]);
    assert_eq!(ServerSet::list(&c), vec![0, 3, 4, 4]);
    ServerSet::remove_nodes(&mut c, vec![4]);
    assert_eq!(ServerSet::list(&c), vec![0, 3]);
}

#[test]
fn sorting_helpers_order_and_keep_entries() {
    let mut v = vec![4u64, 2, 9, 2, 0];
    sort_ascending(&mut v);
    assert_eq!(v, vec![0, 2, 2, 4, 9]);
    let mut w = vec![Loaded::new(3u64), Loaded::new(1), Loaded::new(2)];
    w[0].incr();
    sort_by_inner(&mut w);
    let inners: Vec<u64> = w.iter().map(|l| l.inner).collect();
    assert_eq!(inners, vec![1, 2, 3]);
    assert_eq!(w[2].load(), 1);
}

#[test]
fn add_twice_is_add_once() {
    let mut once: ServerList<String, ()> = ServerList::new(true);
    once.update(names(&["a", "b"]));
    let mut twice: ServerList<String, ()> = ServerList::new(true);
    twice.update(names(&["a", "b", "b"]));
    twice.add("a".to_string());
    assert_eq!(hosts_of(&once), hosts_of(&twice));
}

#[test]
fn remove_undoes_add() {
    for sorted in [false, true] {
        let mut list: ServerList<String, ()> = ServerList::new(sorted);
        list.update(names(&["a", "b", "c"]));
        let before = hosts_of(&list);
        list.add("z".to_string());
        list.remove(&"z".to_string());
        assert_eq!(hosts_of(&list), before);
    }
}

#[test]
fn set_holds_exactly_the_hosts_given() {
    let mut list: ServerList<String, ()> = ServerList::new(true);
    list.update(names(&["a", "b", "c"]));
    list.set(names(&["c", "x", "y", "x"]));
    let mut got = hosts_of(&list);
    got.sort();
    assert_eq!(got, names(&["c", "x", "y"]));
}

#[test]
fn replicas_of_a_bucket_are_distinct_when_they_fit() {
    let mut list: ServerList<String, ()> = ServerList::new(false);
    list.update(names(&["a", "b", "c", "d", "e"]));
    let ring = Ring::new(list, 5);
    let mut reps: Vec<String> = ring.replicas(3).iter().map(|n| n.value().clone()).collect();
    reps.sort();
    reps.dedup();
    assert_eq!(reps.len(), 5);
}

#[test]
fn removing_nodes_leaves_none_of_them() {
    let mut rr: CopyingRoundRobin<String> = CopyingRoundRobin::from(names(&["a", "b", "a", "c"]));
    rr.remove_nodes(names(&["a"]));
    assert!(!rr.list_nodes().contains(&"a".to_string()));
    let mut p: CountedP2C<String> = CountedP2C::from(names(&["a", "b"]));
    p.add_node("c".to_string());
    p.remove_node("c".to_string());
    assert_eq!(ServerSet::list(&p), names(&["a", "b"]));
}

#[test]
fn ewma_load_never_negative() {
    let mut s = EwmaState::new(1000);
    for t in 0..5i64 {
        let ts = s.start(2000 + t * 10);
        // a clock that runs backwards gives a zero round trip, never a negative one
        s.end(ts - 50, ts, ts + 5);
        assert!(s.load() >= 0);
    }
    assert_eq!(s.load_checked(), Some(s.load()));
    assert_eq!(s.in_flight(), 0);
}

#[test]
fn busier_of_follows_the_figures_given() {
    let a: WeightedNode<String, Counter> = WeightedNode::new("a".to_string());
    let b: WeightedNode<String, Counter> = WeightedNode::new("b".to_string());
    assert_eq!(busier_of(&a, &b, &3, &3).value(), "a");
    assert_eq!(busier_of(&a, &b, &2, &3).value(), "b");
    assert_eq!(busier_of(&a, &b, &4, &3).value(), "a");
}

#[test]
fn copy_at_hands_out_the_server_at_a_place() {
    let rr: CopyingRoundRobin<String> = CopyingRoundRobin::from(names(&["a", "b"]));
    assert_eq!(rr.copy_at(1), "b".to_string());
    assert_eq!(rr.pick_at(0), Some("a".to_string()));
    assert_eq!(rr.pick_at(2), None);
}

#[test]
fn lighter_place_prefers_the_smaller_count() {
    assert_eq!(lighter_place(0, 1, 1, 0), 1);
    assert_eq!(lighter_place(0, 1, 0, 1), 0);
    assert_eq!(lighter_place(3, 5, 2, 2), 3);
}

#[test]
fn kept_nodes_keep_their_load_through_update_and_set() {
    let mut list: ServerList<String, Counter> = ServerList::new(true);
    list.update(names(&["a", "b"]));
    for n in list.list() {
        if n.value() == "a" {
            n.start();
        }
    }
    list.update(names(&["a", "c"]));
    list.set(names(&["c", "a"]));
    let a = list.list().iter().find(|n| n.value() == "a").unwrap();
    assert_eq!(a.load().load(), 1);
    assert_eq!(hosts_of(&list).len(), 2);
}

#[test]
fn numbers_and_slices_have_identities() {
    let mut h = metrohash::MetroHash64::default();
    42u64.hash(&mut h);
    assert_eq!(42u64.id(), h.finish());
    assert_ne!(42u64.id(), 42);
    assert_eq!("10.0.0.1:80".id(), "10.0.0.1:80".to_string().id());
    let mut list: ServerList<u64, ()> = ServerList::new(true);
    list.update(vec![7, 3, 7, 9]);
    assert_eq!(list.list().len(), 3);
}
