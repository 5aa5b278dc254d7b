use pserve::signal::DirtySet;
use pserve::state::{
    DefaultValue, InnerCollection, IsMultipleValue, IsSingleValue, PartialStateEvent, StateEvent,
    StatefulClientEvent, pairs_json_text, stateful_event_json,
};

fn multiple_mirror(name: &str) -> StateEvent<Vec<u32>, IsMultipleValue> {
    StateEvent::new(String::from(name), Vec::new(), IsMultipleValue)
}

#[test]
fn set_at_updates_in_bounds() {
    let mut v: Vec<u32> = vec![1, 2, 3];
    v.set_at(1, 9);
    assert_eq!(v, vec![1, 9, 3]);
}

#[test]
fn growth_on_gap_fills_defaults() {
    // update (50, v) against a 10-element mirror
    let mut v: Vec<u32> = (0..10).map(|i| i + 100).collect();
    v.set_at(50, 7);
    assert_eq!(v.len(), 51);
    for i in 0..10 {
        assert_eq!(v[i], 100 + i as u32);
    }
    for i in 10..50 {
        assert_eq!(v[i], 0);
    }
    assert_eq!(v[50], 7);
}

#[test]
fn full_then_partial_convergence() {
    // full snapshot [a0..an] followed by update (3, x)
    let mut mirror = multiple_mirror("items");
    let mut dirty = DirtySet::new();
    let snapshot: Vec<(u32, u32)> = (0..6).map(|i| (i, i * 10)).collect();
    let applied = mirror.set(
        StatefulClientEvent { state_key: String::from("items"), event: snapshot },
        &mut dirty,
    );
    assert!(applied);
    let applied = mirror.set(
        StatefulClientEvent { state_key: String::from("items"), event: vec![(3, 777)] },
        &mut dirty,
    );
    assert!(applied);
    assert_eq!(*mirror.get(0), vec![0, 10, 20, 777, 40, 50]);
}

#[test]
fn name_mismatch_is_dropped_silently() {
    // an update tagged "memeList" must not alter a "checkBoxes" mirror
    let mut mirror = multiple_mirror("checkBoxes");
    let mut dirty = DirtySet::new();
    mirror.set(
        StatefulClientEvent { state_key: String::from("checkBoxes"), event: vec![(0, 1), (1, 2)] },
        &mut dirty,
    );
    let applied = mirror.set(
        StatefulClientEvent { state_key: String::from("memeList"), event: vec![(0, 99)] },
        &mut dirty,
    );
    assert!(!applied);
    assert_eq!(*mirror.get(0), vec![1, 2]);
}

#[test]
fn keyed_isolation_dirties_only_affected_keys() {
    // 100 flags; node 1 reads key 5, node 2 reads key 6; toggling key 5
    // dirties node 1 only
    let flags: Vec<bool> = vec![false; 100];
    let mut mirror = StateEvent::new(String::from("flags"), flags, IsMultipleValue);
    mirror.get_with_index(5, 1);
    mirror.get_with_index(6, 2);
    let mut dirty = DirtySet::new();
    let applied = mirror.set(
        StatefulClientEvent { state_key: String::from("flags"), event: vec![(5, true)] },
        &mut dirty,
    );
    assert!(applied);
    assert!(dirty.contains(1));
    assert!(!dirty.contains(2));
}

#[test]
fn unkeyed_dependents_dirty_on_any_update() {
    let mut mirror = multiple_mirror("rows");
    mirror.get(42);
    let mut dirty = DirtySet::new();
    mirror.set(
        StatefulClientEvent { state_key: String::from("rows"), event: vec![(7, 1)] },
        &mut dirty,
    );
    assert!(dirty.contains(42));
}

#[test]
fn single_mirror_replaces_wholesale() {
    let mut mirror = StateEvent::new(String::from("title"), String::new(), IsSingleValue);
    mirror.get(3);
    let mut dirty = DirtySet::new();
    let applied = mirror.set(
        StatefulClientEvent { state_key: String::from("title"), event: String::from("hi") },
        &mut dirty,
    );
    assert!(applied);
    assert_eq!(mirror.get(0).as_str(), "hi");
    assert!(dirty.contains(3));
}

#[test]
fn partial_mirror_takes_its_key_alone() {
    let mut mirror = PartialStateEvent::new(String::from("rows"), 2, 0u32);
    let mut dirty = DirtySet::new();
    let applied = mirror.set(
        StatefulClientEvent {
            state_key: String::from("rows"),
            event: vec![(1, 10), (2, 20), (3, 30)],
        },
        &mut dirty,
    );
    assert!(applied);
    assert_eq!(*mirror.get(0), 20);
    let applied = mirror.set(
        StatefulClientEvent { state_key: String::from("rows"), event: vec![(9, 90)] },
        &mut dirty,
    );
    assert!(!applied);
    assert_eq!(*mirror.get(0), 20);
}

#[test]
fn on_update_token_is_kept() {
    let mirror = StateEvent::new(String::from("t"), 0u32, IsSingleValue).on_update(13);
    assert_eq!(mirror.data.peek().on_update, Some(13));
}

#[test]
fn default_values_are_the_fill_values() {
    assert_eq!(u32::default_value(), 0);
    assert_eq!(u64::default_value(), 0);
    assert_eq!(i32::default_value(), 0);
    assert_eq!(bool::default_value(), false);
    assert_eq!(String::default_value(), String::new());
}

#[test]
fn collection_len_and_emptiness() {
    let v: Vec<bool> = vec![true, false];
    assert_eq!(InnerCollection::len(&v), 2);
    assert!(!InnerCollection::is_empty(&v));
    let e: Vec<bool> = Vec::new();
    assert!(InnerCollection::is_empty(&e));
}

#[test]
fn stateful_envelope_wire_text() {
    let text = stateful_event_json("memeList", "[1,2]");
    assert_eq!(text, "{\"stateKey\":\"memeList\",\"event\":[1,2]}");
}

#[test]
fn pairs_delta_wire_text() {
    let pairs = vec![(3u32, String::from("\"a\"")), (50u32, String::from("true"))];
    let text = pairs_json_text(&pairs);
    assert_eq!(text, "[[3,\"a\"],[50,true]]");
    let empty: Vec<(u32, String)> = Vec::new();
    assert_eq!(pairs_json_text(&empty), "[]");
}

#[test]
fn repeated_keys_in_one_delta_apply_in_order() {
    let mut mirror = multiple_mirror("items");
    let mut dirty = DirtySet::new();
    mirror.set(
        StatefulClientEvent {
            state_key: String::from("items"),
            event: vec![(0, 1), (0, 2), (0, 3)],
        },
        &mut dirty,
    );
    assert_eq!(*mirror.get(0), vec![3]);
}

#[test]
fn partial_mirror_takes_the_first_match() {
    let mut mirror = PartialStateEvent::new(String::from("rows"), 4, 0u32);
    let mut dirty = DirtySet::new();
    mirror.set(
        StatefulClientEvent { state_key: String::from("rows"), event: vec![(4, 11), (4, 22)] },
        &mut dirty,
    );
    assert_eq!(*mirror.get(0), 11);
}
