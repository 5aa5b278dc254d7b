use pserve::client::{NodeIdGen, PersistentState};
use pserve::dom::{Components, DomNodeBuilder, DomNodeUnbuiltBody};

/// A component set for the tests: constructor 1 produces one `p` element
/// whose body (constructor 2) is the literal text of `label`; any other
/// token produces nothing.
struct TestComponents {
    label: &'static str,
}

impl Components for TestComponents {
    fn construct(&mut self, ctor: u32, ids: &mut NodeIdGen) -> DomNodeBuilder {
        if ctor == 1 {
            DomNodeBuilder::default().push(ids, "p", 2)
        } else if ctor == 2 {
            DomNodeBuilder::text(ids, String::from(self.label))
        } else {
            DomNodeBuilder::default()
        }
    }
}

#[test]
fn builder_records_nodes_in_order() {
    let mut ids = NodeIdGen::new();
    let b = DomNodeBuilder::default()
        .push(&mut ids, "div", 7)
        .attr(String::from("id"), String::from("status"))
        .on_click(33)
        .push(&mut ids, "span", 8)
        .on_input(44);
    assert_eq!(b.children.len(), 2);
    assert_eq!(b.children[0].id, 1);
    assert_eq!(b.children[0].tag, "div");
    assert_eq!(b.children[0].attributes, vec![(String::from("id"), String::from("status"))]);
    assert_eq!(b.children[0].on_click, Some(33));
    assert_eq!(b.children[0].on_input, None);
    assert_eq!(b.children[1].id, 2);
    assert_eq!(b.children[1].tag, "span");
    assert_eq!(b.children[1].on_input, Some(44));
    assert!(matches!(b.children[0].body, Some(DomNodeUnbuiltBody::Constructor(7))));
}

#[test]
fn handler_and_attr_on_empty_builder_do_nothing() {
    let b = DomNodeBuilder::default()
        .on_click(1)
        .on_input(2)
        .attr(String::from("k"), String::from("v"));
    assert!(b.children.is_empty());
}

#[test]
fn from_makes_a_server_side_text_node() {
    let b = DomNodeBuilder::from(String::from("hello"));
    assert_eq!(b.children.len(), 1);
    assert_eq!(b.children[0].id, 0);
    assert_eq!(b.children[0].tag, "");
}

#[test]
fn build_expands_constructors_and_records_nodes() {
    let mut ps = PersistentState::new();
    let mut comps = TestComponents { label: "hey" };
    let b = DomNodeBuilder::default().push(&mut ps.ids, "div", 1);
    let root_id = b.children[0].id;
    let roots = b.build(
        &mut comps,
        &mut ps.ids,
        &mut ps.builders,
        &mut ps.built_nodes,
        true,
        10,
    );
    assert_eq!(roots, vec![root_id]);
    assert!(ps.builders.contains_key(root_id));
    assert!(ps.built_nodes.contains_key(root_id));
}

#[test]
fn render_emits_the_subtree_markup() {
    let mut ps = PersistentState::new();
    let mut comps = TestComponents { label: "hey" };
    let b = DomNodeBuilder::default().push(&mut ps.ids, "div", 1);
    let root_id = b.children[0].id;
    b.build(&mut comps, &mut ps.ids, &mut ps.builders, &mut ps.built_nodes, true, 10);
    let html = ps.render(root_id, 10);
    assert_eq!(
        html,
        "<div data-pserve-id=1><p data-pserve-id=2>hey</p></div>"
    );
}

#[test]
fn render_emits_handlers_and_attributes() {
    let mut ps = PersistentState::new();
    let mut comps = TestComponents { label: "x" };
    let b = DomNodeBuilder::default()
        .push(&mut ps.ids, "button", 3)
        .attr(String::from("id"), String::from("go"))
        .attr(String::from("disabled"), String::new())
        .on_click(77);
    let root_id = b.children[0].id;
    b.build(&mut comps, &mut ps.ids, &mut ps.builders, &mut ps.built_nodes, true, 10);
    let html = ps.render(root_id, 10);
    assert_eq!(
        html,
        "<button data-pserve-id=1 id='go'  disabled  onclick=\"call_wasm_fn_ptr(this.value, 77)\"></button>"
    );
}

#[test]
fn render_multi_concatenates() {
    let mut ps = PersistentState::new();
    let mut comps = TestComponents { label: "a" };
    let b = DomNodeBuilder::text(&mut ps.ids, String::from("one"));
    let id1 = b.children[0].id;
    b.build(&mut comps, &mut ps.ids, &mut ps.builders, &mut ps.built_nodes, true, 10);
    let b = DomNodeBuilder::text(&mut ps.ids, String::from("two"));
    let id2 = b.children[0].id;
    b.build(&mut comps, &mut ps.ids, &mut ps.builders, &mut ps.built_nodes, true, 10);
    let html = ps.render_multi(&vec![id1, id2], 10);
    assert_eq!(html, "onetwo");
}

#[test]
fn rerender_rebuilds_dirty_nodes() {
    let mut ps = PersistentState::new();
    let mut comps = TestComponents { label: "before" };
    let b = DomNodeBuilder::default().push(&mut ps.ids, "div", 1);
    let root_id = b.children[0].id;
    b.build(&mut comps, &mut ps.ids, &mut ps.builders, &mut ps.built_nodes, true, 10);
    comps.label = "after";
    ps.to_re_render.insert(root_id);
    let out = ps.rerender_dirty(&mut comps, 10);
    assert_eq!(out.len(), 1);
    assert_eq!(out[0].0, root_id);
    assert!(out[0].1.contains("after"));
    assert!(!out[0].1.contains("before"));
}

#[test]
fn rebuild_discards_stale_descendant_records() {
    // rebuild isolation: the old subtree's records are gone afterwards
    let mut ps = PersistentState::new();
    let mut comps = TestComponents { label: "x" };
    let b = DomNodeBuilder::default().push(&mut ps.ids, "div", 1);
    let root_id = b.children[0].id;
    b.build(&mut comps, &mut ps.ids, &mut ps.builders, &mut ps.built_nodes, true, 10);
    // the expansion created a `p` child and its text grandchild
    let old_child = root_id + 1;
    let old_grandchild = root_id + 2;
    assert!(ps.builders.contains_key(old_child));
    assert!(ps.builders.contains_key(old_grandchild));
    ps.to_re_render.insert(root_id);
    ps.rerender_dirty(&mut comps, 10);
    assert!(!ps.builders.contains_key(old_child));
    assert!(!ps.built_nodes.contains_key(old_child));
    assert!(!ps.builders.contains_key(old_grandchild));
    assert!(!ps.built_nodes.contains_key(old_grandchild));
}

#[test]
fn descendant_dirty_in_same_pass_is_skipped() {
    // a descendant id also marked dirty is skipped without error once its
    // ancestor's rebuild removed it
    let mut ps = PersistentState::new();
    let mut comps = TestComponents { label: "x" };
    let b = DomNodeBuilder::default().push(&mut ps.ids, "div", 1);
    let root_id = b.children[0].id;
    b.build(&mut comps, &mut ps.ids, &mut ps.builders, &mut ps.built_nodes, true, 10);
    let descendant = root_id + 1;
    ps.to_re_render.insert(root_id);
    ps.to_re_render.insert(descendant);
    let out = ps.rerender_dirty(&mut comps, 10);
    let emitted: Vec<u32> = out.iter().map(|p| p.0).collect();
    assert_eq!(emitted, vec![root_id]);
}

#[test]
fn rebuild_of_unknown_id_is_a_no_op() {
    let mut ps = PersistentState::new();
    let mut comps = TestComponents { label: "x" };
    ps.to_re_render.insert(999);
    let out = ps.rerender_dirty(&mut comps, 10);
    assert!(out.is_empty());
}

#[test]
fn node_id_generation_is_monotonic() {
    let mut ids = NodeIdGen::new();
    assert_eq!(ids.next_dom_id(), 1);
    assert_eq!(ids.next_dom_id(), 2);
    assert_eq!(ids.current_dom_id(), 0);
    ids.set_current_dom_id(7);
    assert_eq!(ids.current_dom_id(), 7);
}
