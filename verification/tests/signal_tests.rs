use pserve::signal::{DirtySet, Signal, SignalData};

#[test]
fn read_registers_active_node() {
    let mut sig: Signal<u32> = Signal::new(5);
    let v = *sig.get(7);
    assert_eq!(v, 5);
    assert_eq!(sig.inner.registered_dom_nodes, vec![7]);
}

#[test]
fn read_outside_render_registers_nothing() {
    let mut sig: Signal<u32> = Signal::new(5);
    let v = *sig.get(0);
    assert_eq!(v, 5);
    assert!(sig.inner.registered_dom_nodes.is_empty());
}

#[test]
fn repeated_reads_register_once() {
    let mut sig: Signal<u32> = Signal::new(1);
    sig.get(3);
    sig.get(3);
    sig.get(4);
    assert_eq!(sig.inner.registered_dom_nodes, vec![3, 4]);
}

#[test]
fn keyed_read_last_writer_wins() {
    let mut sig: Signal<u32> = Signal::new(1);
    sig.get_with_key(5, 10);
    sig.get_with_key(5, 11);
    assert_eq!(sig.inner.registered_dom_nodes_by_key, vec![(5, 11)]);
}

#[test]
fn set_marks_every_dependent_dirty() {
    let mut sig: Signal<u32> = Signal::new(1);
    sig.get(3);
    sig.get_with_key(2, 4);
    let mut dirty = DirtySet::new();
    sig.set(9, &mut dirty);
    assert!(dirty.contains(3));
    assert!(dirty.contains(4));
    assert_eq!(*sig.get(0), 9);
}

#[test]
fn write_never_dirties_a_stranger_node() {
    // dependency soundness: node 9 never read this signal
    let mut sig: Signal<u32> = Signal::new(1);
    sig.get(3);
    let mut dirty = DirtySet::new();
    sig.set(2, &mut dirty);
    assert!(!dirty.contains(9));
}

#[test]
fn reset_clears_dependents() {
    let mut sig: Signal<u32> = Signal::new(1);
    sig.get(3);
    sig.get_with_key(1, 4);
    sig.reset();
    assert!(sig.inner.registered_dom_nodes.is_empty());
    assert!(sig.inner.registered_dom_nodes_by_key.is_empty());
}

#[test]
fn dirty_set_keeps_insertion_order_and_dedupes() {
    let mut dirty = DirtySet::new();
    dirty.insert(4);
    dirty.insert(2);
    dirty.insert(4);
    dirty.insert(8);
    assert_eq!(dirty.len(), 3);
    let drained = dirty.drain();
    assert_eq!(drained, vec![4, 2, 8]);
    assert_eq!(dirty.len(), 0);
}

#[test]
fn signal_data_new_starts_empty() {
    let data: SignalData<bool> = SignalData::new(true);
    assert!(data.registered_dom_nodes.is_empty());
    assert!(data.registered_dom_nodes_by_key.is_empty());
}
