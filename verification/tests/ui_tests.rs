use pserve::ui::{
    Direction, Element, ElementKind, Layout, Size, SizeKind, State, Tree, Vector2Like,
};

fn exact(v: i32) -> Size {
    Size { kind: SizeKind::Exact, value: v }
}

fn layout(dir: Direction, sx: Size, sy: Size) -> Layout {
    Layout { dir, pos: [0, 0], size: [sx, sy] }
}

#[test]
fn tree_push_links_children() {
    let mut t: Tree<256, u32> = Tree::new();
    let a = t.push(10);
    let b = t.push(20);
    t.step_up();
    let c = t.push(30);
    assert_eq!((a, b, c), (0, 1, 2));
    assert_eq!(t.items[0].first, Some(1));
    assert_eq!(t.items[0].last, Some(2));
    assert_eq!(t.items[1].next, Some(2));
    assert_eq!(t.items[2].prev, Some(1));
    assert_eq!(t.items[1].parent, Some(0));
    assert_eq!(t.items[2].parent, Some(0));
    assert_eq!(t.len, 3);
}

#[test]
fn tree_parent_access_and_update() {
    let mut t: Tree<256, u32> = Tree::new();
    t.push(10);
    assert_eq!(*t.curr_parent(), 10);
    t.update_parent(99);
    assert_eq!(*t.curr_parent(), 99);
}

#[test]
fn tree_clear_forgets_the_slots() {
    let mut t: Tree<256, u32> = Tree::new();
    t.push(1);
    t.clear();
    assert_eq!(t.len, 0);
    assert_eq!(t.curr_parent, None);
}

#[test]
fn close_element_sums_fit_container_along_its_flow() {
    let mut state = State::new();
    state.open_element(
        ElementKind::Container,
        layout(
            Direction::LeftToRight,
            Size { kind: SizeKind::Fit, value: 0 },
            Size { kind: SizeKind::Fit, value: 0 },
        ),
        Vec::new(),
    );
    state.open_element(ElementKind::Container, layout(Direction::LeftToRight, exact(10), exact(5)), Vec::new());
    state.close_element();
    state.open_element(ElementKind::Container, layout(Direction::LeftToRight, exact(20), exact(8)), Vec::new());
    state.close_element();
    let interaction = state.close_element();
    // x: 10 + 20 along the flow; y: the children's maximum across it
    assert_eq!(interaction.layout.size[0].value, 30);
    assert_eq!(interaction.layout.size[1].value, 8);
}

#[test]
fn close_element_measures_text() {
    let mut state = State::new();
    state.open_element(
        ElementKind::Text(String::from("abcd")),
        layout(
            Direction::LeftToRight,
            Size { kind: SizeKind::Fit, value: 0 },
            Size { kind: SizeKind::Fit, value: 0 },
        ),
        Vec::new(),
    );
    let interaction = state.close_element();
    assert_eq!(interaction.layout.size[0].value, 36);
    assert_eq!(interaction.layout.size[1].value, 16);
}

#[test]
fn compute_layout_places_siblings_along_the_flow() {
    let mut state = State::new();
    state.open_element(
        ElementKind::Container,
        layout(Direction::LeftToRight, exact(100), exact(50)),
        Vec::new(),
    );
    state.open_element(ElementKind::Container, layout(Direction::LeftToRight, exact(10), exact(5)), Vec::new());
    state.close_element();
    state.open_element(ElementKind::Container, layout(Direction::LeftToRight, exact(20), exact(5)), Vec::new());
    state.close_element();
    state.close_element();
    state.compute_layout();
    assert_eq!(state.elements.items[1].data.layout.pos, [0, 0]);
    assert_eq!(state.elements.items[2].data.layout.pos, [10, 0]);
}

#[test]
fn compute_layout_grows_children_evenly() {
    let mut state = State::new();
    state.open_element(
        ElementKind::Container,
        layout(Direction::LeftToRight, exact(100), exact(40)),
        Vec::new(),
    );
    state.open_element(
        ElementKind::Container,
        layout(
            Direction::LeftToRight,
            Size { kind: SizeKind::Grow, value: 0 },
            Size { kind: SizeKind::Grow, value: 0 },
        ),
        Vec::new(),
    );
    state.close_element();
    state.open_element(
        ElementKind::Container,
        layout(
            Direction::LeftToRight,
            Size { kind: SizeKind::Grow, value: 0 },
            Size { kind: SizeKind::Grow, value: 0 },
        ),
        Vec::new(),
    );
    state.close_element();
    state.close_element();
    state.compute_layout();
    // two growing children split the 100 along the flow and take the whole
    // 40 across it
    assert_eq!(state.elements.items[1].data.layout.size[0].value, 50);
    assert_eq!(state.elements.items[2].data.layout.size[0].value, 50);
    assert_eq!(state.elements.items[1].data.layout.size[1].value, 40);
}

#[test]
fn user_data_round_trips_through_the_arena() {
    let mut state = State::new();
    let e = Element::new(
        &mut state,
        ElementKind::Container,
        Layout::default(),
        vec![1, 2, 3],
    );
    assert_eq!(e.user_data, Some(0));
    let fetched = state.fetch_user_data(0, 3);
    assert_eq!(fetched, Some(vec![1, 2, 3]));
    assert_eq!(state.fetch_user_data(1, 3), None);
}

#[test]
fn empty_user_data_is_not_stored() {
    let mut state = State::new();
    let e = Element::new(&mut state, ElementKind::Container, Layout::default(), Vec::new());
    assert_eq!(e.user_data, None);
}

#[test]
fn reset_forgets_elements_and_arena() {
    let mut state = State::new();
    state.open_element(ElementKind::Container, Layout::default(), vec![9]);
    state.reset();
    assert_eq!(state.elements.len, 0);
    assert_eq!(state.fetch_user_data(0, 1), None);
}

#[test]
fn layout_from_direction() {
    let l = Layout::from(Direction::TopToBottom);
    assert!(matches!(l.dir, Direction::TopToBottom));
    assert_eq!(l.pos, [0, 0]);
    assert_eq!(l.size[0].kind, SizeKind::Fit);
}

#[test]
fn size_difference_keeps_the_kind() {
    let d = exact(30).sub(exact(12));
    assert_eq!(d.kind, SizeKind::Exact);
    assert_eq!(d.value, 18);
}

#[test]
fn vector_accessors() {
    let mut v: [i32; 2] = [3, 4];
    assert_eq!(v.x(), 3);
    assert_eq!(v.y(), 4);
    *v.x_mut() = 9;
    assert_eq!(v.x(), 9);
    v.set_zero();
    assert_eq!(v, [0, 0]);
    let s: [Size; 2] = [exact(5), exact(6)];
    assert_eq!(s.x().value, 5);
    let z = s.sub(&s);
    assert_eq!(z.x().value, 0);
    assert_eq!(z.x().kind, SizeKind::Exact);
}
