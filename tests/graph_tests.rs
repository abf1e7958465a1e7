use dataflow::graph::{make_to_lowercase, Graph, Producer, Row, ToLowercase};
use dataflow::index::{NoIndex, Query};
use dataflow::value::{lowercased, new_value, same_value};
use std::rc::Rc;

fn value(s: &str) -> Rc<String> {
    Rc::new(String::from(s))
}

fn query(s: &str) -> Query {
    Query { equal_to: value(s) }
}

#[test]
fn end_to_end_scenario() {
    let mut g = Graph::new();
    let r1 = g.new_source("Foo");
    let r2 = g.new_source("BAr");
    let tl = make_to_lowercase(&mut g, r1);
    let idx = NoIndex::new(&vec![tl, r2]);
    assert_eq!(idx.run_query(&mut g, &query("quux")), Vec::<usize>::new());
    assert_eq!(idx.run_query(&mut g, &query("foo")), vec![0]);
    assert_eq!(idx.run_query(&mut g, &query("BAr")), vec![1]);
    g.set(r1, value("QUUX"));
    assert_eq!(idx.run_query(&mut g, &query("quux")), vec![0]);
    assert_eq!(idx.run_query(&mut g, &query("foo")), Vec::<usize>::new());
}

#[test]
fn repeated_queries_give_the_same_answer() {
    let mut g = Graph::new();
    let r1 = g.new_source("Foo");
    let r2 = g.new_source("BAr");
    let tl = make_to_lowercase(&mut g, r1);
    let idx = NoIndex::new(&vec![tl, r2]);
    for _ in 0..100 {
        assert_eq!(idx.run_query(&mut g, &query("foo")).len(), 1);
        assert_eq!(idx.run_query(&mut g, &query("BAr")).len(), 1);
    }
}

#[test]
fn second_read_uses_the_cache() {
    let mut g = Graph::new();
    let s = g.new_source("MiXeD");
    let t = make_to_lowercase(&mut g, s);
    let t_slot = match t {
        Producer::Transform(k) => k,
        Producer::Source(_) => panic!("expected a transform"),
    };
    assert!(g.slots[t_slot].as_ref().unwrap().current.is_none());
    let first = g.get_current(t);
    let cached = g.slots[t_slot].as_ref().unwrap().current.clone().unwrap();
    assert!(Rc::ptr_eq(&first, &cached));
    let second = g.get_current(t);
    assert_eq!(*first, *second);
    assert_eq!(first.as_str(), "mixed");
    // no recomputation: the second read hands out the very object cached
    assert!(Rc::ptr_eq(&second, &cached));
}

#[test]
fn set_invalidates_a_stale_cache() {
    let mut g = Graph::new();
    let s = g.new_source("Alpha");
    let t = make_to_lowercase(&mut g, s);
    assert_eq!(g.get_current(t).as_str(), "alpha");
    g.set(s, value("BETA"));
    assert!(g.slots[0].as_ref().unwrap().current.is_none());
    assert_eq!(g.get_current(t).as_str(), "beta");
    assert_eq!(g.get_current(s).as_str(), "BETA");
}

#[test]
fn many_sets_between_reads() {
    let mut g = Graph::new();
    let s = g.new_source("a");
    let t = make_to_lowercase(&mut g, s);
    g.set(s, value("B"));
    g.set(s, value("C"));
    g.set(s, value("DdD"));
    assert_eq!(g.get_current(t).as_str(), "ddd");
}

#[test]
fn mark_dirty_twice_is_a_no_op() {
    let mut tl = ToLowercase::new(3);
    tl.set_dirty();
    assert!(tl.current.is_none());
    assert_eq!(tl.input, 3);
    tl.set_dirty();
    assert!(tl.current.is_none());
    assert_eq!(tl.input, 3);
}

#[test]
fn set_dirty_clears_a_cache() {
    let row = Row::new("XY");
    let mut tl = ToLowercase::new(0);
    assert_eq!(tl.get_current(&row).as_str(), "xy");
    assert!(tl.current.is_some());
    tl.set_dirty();
    assert!(tl.current.is_none());
}

#[test]
fn released_transform_is_skipped() {
    let mut g = Graph::new();
    let s = g.new_source("Foo");
    let t = make_to_lowercase(&mut g, s);
    assert_eq!(g.get_current(t).as_str(), "foo");
    g.release(t);
    assert!(g.slots[0].is_none());
    g.set(s, value("Bar"));
    assert!(g.slots[0].is_none());
    assert_eq!(g.get_current(s).as_str(), "Bar");
}

#[test]
fn released_transform_beside_a_live_one() {
    let mut g = Graph::new();
    let s = g.new_source("One");
    let gone = make_to_lowercase(&mut g, s);
    let kept = make_to_lowercase(&mut g, s);
    assert_eq!(g.get_current(kept).as_str(), "one");
    g.release(gone);
    g.set(s, value("TWO"));
    assert_eq!(g.get_current(kept).as_str(), "two");
}

#[test]
fn row_set_notifies_each_live_listener() {
    let mut row = Row::new("Q");
    let mut slots = vec![Some(ToLowercase::new(0)), None, Some(ToLowercase::new(0))];
    for slot in slots.iter_mut() {
        if let Some(tl) = slot.as_mut() {
            assert_eq!(tl.get_current(&row).as_str(), "q");
        }
    }
    row.add_listener(0);
    row.add_listener(1);
    row.add_listener(7);
    row.set(value("R"), &mut slots);
    assert_eq!(row.get_current().as_str(), "R");
    assert!(slots[0].as_ref().unwrap().current.is_none());
    assert!(slots[1].is_none());
    // slot 2 is not a listener and keeps its cache
    assert!(slots[2].as_ref().unwrap().current.is_some());
}

#[test]
fn duplicate_registrations_are_kept() {
    let mut row = Row::new("z");
    row.add_listener(0);
    row.add_listener(0);
    assert_eq!(row.listeners, vec![0, 0]);
    let mut tl = ToLowercase::new(0);
    tl.add_listener(5);
    assert!(tl.current.is_none());
}

#[test]
fn index_positions_are_ascending() {
    let mut g = Graph::new();
    let a = g.new_source("x");
    let b = g.new_source("y");
    let c = g.new_source("x");
    let idx = NoIndex::new(&vec![a, b, c]);
    assert_eq!(idx.rows, vec![a, b, c]);
    assert_eq!(idx.run_query(&mut g, &query("x")), vec![0, 2]);
    assert_eq!(idx.run_query(&mut g, &query("y")), vec![1]);
    assert_eq!(idx.run_query(&mut g, &query("z")), Vec::<usize>::new());
}

#[test]
fn index_may_hold_a_producer_twice() {
    let mut g = Graph::new();
    let a = g.new_source("Dup");
    let t = make_to_lowercase(&mut g, a);
    let idx = NoIndex::new(&vec![t, a, t]);
    assert_eq!(idx.run_query(&mut g, &query("dup")), vec![0, 2]);
    assert_eq!(idx.run_query(&mut g, &query("Dup")), vec![1]);
}

#[test]
fn empty_index_matches_nothing() {
    let mut g = Graph::new();
    let idx = NoIndex::new(&Vec::new());
    assert_eq!(idx.run_query(&mut g, &query("")), Vec::<usize>::new());
}

#[test]
fn empty_value_is_matched() {
    let mut g = Graph::new();
    let a = g.new_source("");
    let t = make_to_lowercase(&mut g, a);
    let idx = NoIndex::new(&vec![a, t]);
    assert_eq!(idx.run_query(&mut g, &query("")), vec![0, 1]);
}

#[test]
fn query_recomputes_dirty_transforms() {
    let mut g = Graph::new();
    let a = g.new_source("Up");
    let t = make_to_lowercase(&mut g, a);
    let idx = NoIndex::new(&vec![t]);
    assert!(g.slots[0].as_ref().unwrap().current.is_none());
    assert_eq!(idx.run_query(&mut g, &query("up")), vec![0]);
    assert!(g.slots[0].as_ref().unwrap().current.is_some());
}

#[test]
fn value_helpers() {
    let v = new_value("HeLLo");
    assert_eq!(v.as_str(), "HeLLo");
    let l = lowercased(&v);
    assert_eq!(l.as_str(), "hello");
    assert!(!same_value(&v, &l));
    assert!(same_value(&l, &value("hello")));
}

#[test]
fn lowercase_handles_non_ascii() {
    let mut g = Graph::new();
    let a = g.new_source("ÀÉÎ");
    let t = make_to_lowercase(&mut g, a);
    assert_eq!(g.get_current(t).as_str(), "àéî");
}

#[test]
fn sources_and_transforms_get_their_slots() {
    let mut g = Graph::new();
    assert_eq!(g.new_source("a"), Producer::Source(0));
    assert_eq!(g.new_source("b"), Producer::Source(1));
    assert_eq!(make_to_lowercase(&mut g, Producer::Source(1)), Producer::Transform(0));
    assert_eq!(g.rows[1].listeners, vec![0]);
    assert!(g.rows[0].listeners.is_empty());
}

#[test]
fn graph_add_listener_dispatches() {
    let mut g = Graph::new();
    let s = g.new_source("k");
    let t = make_to_lowercase(&mut g, s);
    g.add_listener(s, 4);
    assert_eq!(g.rows[0].listeners, vec![0, 4]);
    assert_eq!(g.get_current(t).as_str(), "k");
    g.add_listener(t, 9);
    assert!(g.slots[0].as_ref().unwrap().current.is_some());
    assert_eq!(g.rows[0].listeners, vec![0, 4]);
}
