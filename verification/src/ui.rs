//! An arena-backed element tree with a two-axis layout pass.
//!
//! Elements live in a fixed arena of [`TreeItem`] slots linked by indices:
//! each slot names its parent, its first and last child, and its previous
//! and next sibling.  The tree is built open/close style — [`Tree::push`]
//! descends into a fresh child, [`Tree::step_up`] returns to the parent —
//! so every link points from a later slot back to an earlier one or onward
//! to a later one, never in a cycle.

use vstd::prelude::*;

verus! {

/// One arena slot: the sibling and child links, and the payload.
pub struct TreeItem<T> {
    pub first: Option<usize>,
    pub last: Option<usize>,
    pub next: Option<usize>,
    pub prev: Option<usize>,
    pub parent: Option<usize>,
    pub data: T,
}

impl<T> TreeItem<T> {
    fn new(data: T) -> (r: TreeItem<T>)
        ensures
            r.first is None,
            r.last is None,
            r.next is None,
            r.prev is None,
            r.parent is None,
            r.data == data,
    {
        TreeItem { first: None, last: None, next: None, prev: None, parent: None, data }
    }
}

/// The links of a live slot stay inside the live prefix and point the right
/// way: parent and previous sibling backward, children and next sibling
/// forward.
pub open spec fn links_ok<T>(it: TreeItem<T>, i: int, len: int) -> bool {
    &&& match it.parent {
        Some(p) => p < i,
        None => true,
    }
    &&& match it.first {
        Some(c) => i < c < len,
        None => true,
    }
    &&& match it.last {
        Some(c) => i < c < len,
        None => true,
    }
    &&& match it.next {
        Some(n) => i < n < len,
        None => true,
    }
    &&& match it.prev {
        Some(p) => p < i,
        None => true,
    }
}

/// A fixed arena of `N` slots, of which the first `len` are live.
pub struct Tree<const N: usize, T> {
    pub items: Vec<TreeItem<T>>,
    pub curr_parent: Option<usize>,
    pub len: usize,
}

impl<const N: usize, T> Tree<N, T> {
    pub open spec fn wf(&self) -> bool {
        &&& self.items@.len() == N
        &&& self.len <= N
        &&& match self.curr_parent {
            Some(p) => p < self.len,
            None => true,
        }
        &&& forall|i: int| 0 <= i < self.len
            ==> links_ok(#[trigger] self.items@[i], i, self.len as int)
    }

    /// A fresh arena with no live slots.
    pub fn new() -> (r: Tree<N, T>) where T: Default
        ensures
            r.wf(),
            r.len == 0,
            r.curr_parent is None,
    {
        let mut items: Vec<TreeItem<T>> = Vec::new();
        while items.len() < N
            invariant
                items@.len() <= N,
            decreases N - items@.len(),
        {
            items.push(TreeItem::new(T::default()));
        }
        Tree { items, curr_parent: None, len: 0 }
    }

    /// Forgets every live slot; the arena storage is reused.
    pub fn clear(&mut self)
        requires
            old(self).wf(),
        ensures
            final(self).wf(),
            final(self).len == 0,
            final(self).curr_parent is None,
            final(self).items == old(self).items,
            final(self).items@.len() == old(self).items@.len(),
    {
        self.curr_parent = None;
        self.len = 0;
        proof {
            assert(self.items@.len() == old(self).items@.len());
        }
    }

    /// The payload of the slot currently open for children.
    pub fn curr_parent(&self) -> (r: &T)
        requires
            self.wf(),
            self.curr_parent is Some,
        ensures
            *r == self.items@[self.curr_parent->0 as int].data,
    {
        match self.curr_parent {
            Some(parent) => &self.items[parent].data,
            None => {
                proof {
                    assert(false);
                }
                &self.items[0].data
            }
        }
    }

    /// Replaces the payload of the slot currently open for children.
    pub fn update_parent(&mut self, data: T)
        requires
            old(self).wf(),
            old(self).curr_parent is Some,
        ensures
            final(self).wf(),
            final(self).len == old(self).len,
            final(self).curr_parent == old(self).curr_parent,
            final(self).items@.len() == old(self).items@.len(),
            ({
                let p = old(self).curr_parent->0 as int;
                &&& final(self).items@[p].data == data
                &&& same_links(final(self).items@[p], old(self).items@[p])
                &&& forall|i: int| 0 <= i < old(self).items@.len() && i != p
                    ==> final(self).items@[i] == old(self).items@[i]
            }),
    {
        match self.curr_parent {
            Some(parent) => {
                self.update_item(parent, data);
            }
            None => {
                proof {
                    assert(false);
                }
            }
        }
    }

    /// Replaces the payload of slot `index`, leaving its links alone.
    pub(crate) fn update_item(&mut self, index: usize, data: T)
        requires
            old(self).wf(),
            index < old(self).len,
        ensures
            final(self).wf(),
            final(self).len == old(self).len,
            final(self).curr_parent == old(self).curr_parent,
            final(self).items@.len() == old(self).items@.len(),
            final(self).items@[index as int].data == data,
            same_links(final(self).items@[index as int], old(self).items@[index as int]),
            forall|i: int| 0 <= i < old(self).items@.len() && i != index
                ==> final(self).items@[i] == old(self).items@[i],
    {
        let old_item = &self.items[index];
        let item = TreeItem {
            first: old_item.first,
            last: old_item.last,
            next: old_item.next,
            prev: old_item.prev,
            parent: old_item.parent,
            data,
        };
        self.items.set(index, item);
        proof {
            assert forall|i: int| 0 <= i < self.len
                implies links_ok(#[trigger] self.items@[i], i, self.len as int) by {
                assert(links_ok(old(self).items@[i], i, self.len as int));
                if i != index {
                    assert(self.items@[i] == old(self).items@[i]);
                }
            }
        }
    }

    /// Opens a fresh child under the current parent and descends into it:
    /// the new slot is appended at `len`, linked as the parent's last child
    /// and its previous last child's next sibling, and becomes the current
    /// parent.  Returns the new slot's index.
    #[verifier::rlimit(60)]
    pub fn push(&mut self, data: T) -> (r: usize)
        requires
            old(self).wf(),
            old(self).len < N,
        ensures
            final(self).wf(),
            r == old(self).len,
            final(self).len == old(self).len + 1,
            final(self).curr_parent == Some(old(self).len),
            final(self).items@.len() == old(self).items@.len(),
            ({
                let n = old(self).len as int;
                let it = final(self).items@[n];
                &&& it.data == data
                &&& it.parent == old(self).curr_parent
                &&& it.first is None
                &&& it.last is None
                &&& it.next is None
                &&& it.prev == match old(self).curr_parent {
                    Some(p) => old(self).items@[p as int].last,
                    None => None,
                }
            }),
            match old(self).curr_parent {
                Some(p) => {
                    let pi = final(self).items@[p as int];
                    let po = old(self).items@[p as int];
                    &&& pi.last == Some(old(self).len)
                    &&& pi.first == if po.first is None {
                        Some(old(self).len)
                    } else {
                        po.first
                    }
                    &&& pi.parent == po.parent
                    &&& pi.next == po.next
                    &&& pi.prev == po.prev
                    &&& pi.data == po.data
                    &&& match po.last {
                        Some(l) => {
                            let li = final(self).items@[l as int];
                            let lo = old(self).items@[l as int];
                            &&& li.next == Some(old(self).len)
                            &&& li.first == lo.first
                            &&& li.last == lo.last
                            &&& li.prev == lo.prev
                            &&& li.parent == lo.parent
                            &&& li.data == lo.data
                        },
                        None => true,
                    }
                    &&& forall|i: int| 0 <= i < old(self).len && i != p && Some(i as usize)
                        != po.last ==> final(self).items@[i] == old(self).items@[i]
                },
                None => forall|i: int| 0 <= i < old(self).len
                    ==> final(self).items@[i] == old(self).items@[i],
            },
    {
        let new_index = self.len;
        let mut new_item = TreeItem::new(data);

        match self.curr_parent {
            Some(parent) => {
                new_item.parent = Some(parent);

                let parent_last = self.items[parent].last;
                match parent_last {
                    Some(last) => {
                        new_item.prev = Some(last);
                        let mut last_item = self.items.remove(last);
                        last_item.next = Some(new_index);
                        self.items.insert(last, last_item);
                        proof {
                            assert(self.items@ =~= old(self).items@.update(
                                last as int,
                                self.items@[last as int],
                            ));
                        }
                    }
                    None => {}
                }

                let ghost mid = self.items@;
                let mut parent_item = self.items.remove(parent);
                if parent_item.first.is_none() {
                    parent_item.first = Some(new_index);
                }
                parent_item.last = Some(new_index);
                self.items.insert(parent, parent_item);
                proof {
                    assert(self.items@ =~= mid.update(parent as int, self.items@[parent as int]));
                }
            }
            None => {}
        }

        let ghost pre_write = self.items@;
        let mut fresh = self.items.remove(new_index);
        fresh = new_item;
        self.items.insert(new_index, fresh);
        proof {
            assert(self.items@ =~= pre_write.update(new_index as int, self.items@[new_index as int]));
        }
        self.curr_parent = Some(new_index);
        self.len = self.len + 1;

        proof {
            assert forall|i: int| 0 <= i < self.len
                implies links_ok(#[trigger] self.items@[i], i, self.len as int) by {
                if i < old(self).len {
                    assert(links_ok(old(self).items@[i], i, old(self).len as int));
                }
            }
        }
        new_index
    }

    /// Closes the current parent: construction continues under its own
    /// parent.
    pub fn step_up(&mut self)
        requires
            old(self).wf(),
            old(self).curr_parent is Some,
        ensures
            final(self).wf(),
            final(self).len == old(self).len,
            final(self).items == old(self).items,
            final(self).curr_parent == old(self).items@[old(self).curr_parent->0 as int].parent,
    {
        match self.curr_parent {
            Some(parent) => {
                self.curr_parent = self.items[parent].parent;
            }
            None => {
                proof {
                    assert(false);
                }
            }
        }
    }
}

/// Whether two slots carry the same links.
pub open spec fn same_links<T>(a: TreeItem<T>, b: TreeItem<T>) -> bool {
    a.first == b.first && a.last == b.last && a.next == b.next && a.prev == b.prev && a.parent
        == b.parent
}


/// Whether two slots differ at most in their layout sizes: links, kind,
/// user data, position, direction and size kinds all kept.
pub open spec fn same_but_size_values(a: TreeItem<Element>, b: TreeItem<Element>) -> bool {
    &&& same_links(a, b)
    &&& a.data.kind == b.data.kind
    &&& a.data.user_data == b.data.user_data
    &&& a.data.layout.dir == b.data.layout.dir
    &&& a.data.layout.pos == b.data.layout.pos
    &&& a.data.layout.size[0].kind == b.data.layout.size[0].kind
    &&& a.data.layout.size[1].kind == b.data.layout.size[1].kind
}

/// An element of the tree: its classification, its layout, and an optional
/// index into the user-data arena.
pub struct Element {
    pub kind: ElementKind,
    pub layout: Layout,
    pub user_data: Option<usize>,
}

pub enum ElementKind {
    Container,
    Text(String),
    Image(u32),
}

/// The layout data of an element: flow direction, position, and the size
/// per axis (x first, y second).
pub struct Layout {
    pub dir: Direction,
    pub pos: [i32; 2],
    pub size: [Size; 2],
}

#[derive(Clone, Copy, Debug, PartialEq, Eq, Structural)]
pub enum Direction {
    LeftToRight,
    TopToBottom,
}

#[derive(Clone, Copy, Debug, PartialEq, Eq, Structural)]
pub struct Size {
    pub kind: SizeKind,
    pub value: i32,
}

#[derive(Clone, Copy, Debug, PartialEq, Eq, Structural)]
pub enum SizeKind {
    Fit,
    Grow,
    Exact,
}

/// What closing an element hands back to the view author.
pub struct Interaction {
    pub layout: Layout,
}

/// The widget classifications a rendered element can map to.
pub enum HtmlElementType {
    Button,
    TextBox,
    Link(String),
}

impl Clone for Layout {
    fn clone(&self) -> (r: Layout)
        ensures
            r == *self,
    {
        Layout { dir: self.dir, pos: self.pos, size: self.size }
    }
}

impl Copy for Layout {}

impl Default for Direction {
    fn default() -> (r: Direction)
        ensures
            r == Direction::LeftToRight,
    {
        Direction::LeftToRight
    }
}

impl Default for SizeKind {
    fn default() -> (r: SizeKind)
        ensures
            r == SizeKind::Fit,
    {
        SizeKind::Fit
    }
}

impl Default for Size {
    fn default() -> (r: Size)
        ensures
            r == (Size { kind: SizeKind::Fit, value: 0 }),
    {
        Size { kind: SizeKind::Fit, value: 0 }
    }
}

impl Default for Layout {
    fn default() -> (r: Layout)
        ensures
            r == default_layout(),
    {
        Layout {
            dir: Direction::LeftToRight,
            pos: [0, 0],
            size: [Size { kind: SizeKind::Fit, value: 0 }, Size { kind: SizeKind::Fit, value: 0 }],
        }
    }
}

/// The layout a fresh element starts from.
pub open spec fn default_layout() -> Layout {
    Layout {
        dir: Direction::LeftToRight,
        pos: [0i32, 0i32],
        size: [
            Size { kind: SizeKind::Fit, value: 0i32 },
            Size { kind: SizeKind::Fit, value: 0i32 },
        ],
    }
}

impl Default for Element {
    fn default() -> (r: Element)
        ensures
            r.kind is Container,
            r.layout == default_layout(),
            r.user_data is None,
    {
        Element { kind: ElementKind::Container, layout: Layout::default(), user_data: None }
    }
}

impl Layout {
    /// The layout that flows in `value`'s direction, at the origin, with
    /// both sizes left to fit.
    pub fn from(value: Direction) -> (r: Layout)
        ensures
            r.dir == value,
            r.pos == [0i32, 0i32],
            r.size == default_layout().size,
    {
        Layout {
            dir: value,
            pos: [0, 0],
            size: [Size { kind: SizeKind::Fit, value: 0 }, Size { kind: SizeKind::Fit, value: 0 }],
        }
    }
}

impl Size {
    /// The componentwise difference, defined only between sizes of the
    /// same kind.
    pub fn sub(&self, rhs: Size) -> (r: Size)
        requires
            self.kind == rhs.kind,
            i32::MIN <= self.value - rhs.value <= i32::MAX,
        ensures
            r.kind == self.kind,
            r.value == self.value - rhs.value,
    {
        Size { kind: self.kind, value: self.value - rhs.value }
    }
}

/// Two-component access shared by the position and size pairs.
pub trait Vector2Like<T>: Sized {
    spec fn x_spec(&self) -> T;

    spec fn y_spec(&self) -> T;

    spec fn zero_spec() -> T;

    fn x(&self) -> (r: T)
        ensures
            r == self.x_spec(),
    ;

    fn y(&self) -> (r: T)
        ensures
            r == self.y_spec(),
    ;

    fn x_mut(&mut self) -> (r: &mut T)
        ensures
            *r == old(self).x_spec(),
            final(self).x_spec() == *final(r),
            final(self).y_spec() == old(self).y_spec(),
    ;

    fn y_mut(&mut self) -> (r: &mut T)
        ensures
            *r == old(self).y_spec(),
            final(self).y_spec() == *final(r),
            final(self).x_spec() == old(self).x_spec(),
    ;

    fn set_zero(&mut self)
        ensures
            final(self).x_spec() == Self::zero_spec(),
            final(self).y_spec() == Self::zero_spec(),
    ;

    /// The componentwise difference of this vector with itself: the
    /// all-zero vector of the pair's own kind.
    fn sub(&self, other: &Self) -> Self;
}

impl Vector2Like<i32> for [i32; 2] {
    open spec fn x_spec(&self) -> i32 {
        self[0]
    }

    open spec fn y_spec(&self) -> i32 {
        self[1]
    }

    open spec fn zero_spec() -> i32 {
        0
    }

    fn x(&self) -> (r: i32) {
        self[0]
    }

    fn y(&self) -> (r: i32) {
        self[1]
    }

    fn x_mut(&mut self) -> (r: &mut i32) {
        &mut self[0]
    }

    fn y_mut(&mut self) -> (r: &mut i32) {
        &mut self[1]
    }

    fn set_zero(&mut self) {
        *self = [0, 0];
    }

    fn sub(&self, other: &Self) -> Self {
        [self[0] - self[0], self[1] - self[1]]
    }
}

impl Vector2Like<Size> for [Size; 2] {
    open spec fn x_spec(&self) -> Size {
        self[0]
    }

    open spec fn y_spec(&self) -> Size {
        self[1]
    }

    open spec fn zero_spec() -> Size {
        Size { kind: SizeKind::Fit, value: 0i32 }
    }

    fn x(&self) -> (r: Size) {
        self[0]
    }

    fn y(&self) -> (r: Size) {
        self[1]
    }

    fn x_mut(&mut self) -> (r: &mut Size) {
        &mut self[0]
    }

    fn y_mut(&mut self) -> (r: &mut Size) {
        &mut self[1]
    }

    fn set_zero(&mut self) {
        *self = [Size::default(), Size::default()];
    }

    fn sub(&self, other: &Self) -> Self {
        [
            Size { kind: self[0].kind, value: self[0].value - self[0].value },
            Size { kind: self[1].kind, value: self[1].value - self[1].value },
        ]
    }
}


/// Truncating division, as the layout pass divides leftover space.
pub open spec fn tdiv(a: int, b: int) -> int {
    if a >= 0 {
        a / b
    } else {
        -((-a) / b)
    }
}

/// Clamps a computed layout quantity into the stored range.
pub open spec fn clamp_i32(v: int) -> int {
    if v < i32::MIN {
        i32::MIN as int
    } else if v > i32::MAX {
        i32::MAX as int
    } else {
        v
    }
}

/// Whether `cs` lists exactly the sibling chain starting at `first`.
pub open spec fn is_chain(items: Seq<TreeItem<Element>>, first: Option<usize>, cs: Seq<int>) -> bool {
    &&& match first {
        None => cs.len() == 0,
        Some(f) => cs.len() > 0 && cs[0] == f,
    }
    &&& forall|k: int| 0 <= k < cs.len() ==> 0 <= #[trigger] cs[k] < items.len()
    &&& forall|k: int| 0 <= k < cs.len() - 1
        ==> items[#[trigger] cs[k]].next == Some(cs[k + 1] as usize)
    &&& cs.len() > 0 ==> items[cs.last()].next is None
}

/// The sum of the chain's size values on one axis.
pub open spec fn chain_sum(items: Seq<TreeItem<Element>>, cs: Seq<int>, axis: int) -> int
    decreases cs.len(),
{
    if cs.len() == 0 {
        0
    } else {
        items[cs[0]].data.layout.size[axis].value + chain_sum(items, cs.skip(1), axis)
    }
}

/// The maximum of the chain's size values on one axis, from a floor of 0.
pub open spec fn chain_max(items: Seq<TreeItem<Element>>, cs: Seq<int>, axis: int) -> int
    decreases cs.len(),
{
    if cs.len() == 0 {
        0
    } else {
        let rest = chain_max(items, cs.skip(1), axis);
        let v = items[cs[0]].data.layout.size[axis].value as int;
        if v > rest {
            v
        } else {
            rest
        }
    }
}

/// What closing an element computes for one axis: a fit-sized container
/// takes its children's total along its flow direction and their maximum
/// across it; fit-sized text takes its measured extent; any other size is
/// left as it stands.
pub open spec fn closed_axis_value(
    items: Seq<TreeItem<Element>>,
    e: Element,
    cs: Seq<int>,
    axis: int,
) -> int {
    if e.layout.size[axis].kind == SizeKind::Fit {
        match e.kind {
            ElementKind::Text(t) => if axis == 0 {
                clamp_i32(9 * t@.len() as int)
            } else {
                16
            },
            _ => {
                let along_flow = (axis == 0) == (e.layout.dir == Direction::LeftToRight);
                if along_flow {
                    clamp_i32(chain_sum(items, cs, axis))
                } else {
                    clamp_i32(chain_max(items, cs, axis))
                }
            },
        }
    } else {
        e.layout.size[axis].value as int
    }
}

/// The immediate-mode layout state: the element tree under construction and
/// the user-data arena.
pub struct State {
    pub elements: Tree<256, Element>,
    pub user_data_arena: Vec<u8>,
}

impl Element {
    /// An element holding `user_data` in the state's arena.
    pub fn new(state: &mut State, kind: ElementKind, layout: Layout, user_data: Vec<u8>) -> (r:
        Element)
        ensures
            final(state).elements == old(state).elements,
            r.kind == kind,
            r.layout == layout,
            r.user_data == if user_data@.len() == 0 {
                None::<usize>
            } else {
                Some(old(state).arena_len() as usize)
            },
            final(state).arena_len() == old(state).arena_len() + user_data@.len(),
            user_data@.len() > 0 ==> final(state).arena_at(
                old(state).arena_len() as int,
                user_data@.len() as int,
            ) == user_data@,
            forall|i: int| 0 <= i < old(state).arena_len()
                ==> final(state).arena_byte(i) == old(state).arena_byte(i),
    {
        let user_data_index = state.push_user_data(user_data);
        Element { kind, layout, user_data: user_data_index }
    }
}

impl State {
    /// How many bytes the user-data arena holds.
    pub closed spec fn arena_len(&self) -> nat {
        self.user_data_arena@.len()
    }

    /// One arena byte.
    pub closed spec fn arena_byte(&self, i: int) -> u8 {
        self.user_data_arena@[i]
    }

    /// An arena slice.
    pub closed spec fn arena_at(&self, start: int, len: int) -> Seq<u8> {
        self.user_data_arena@.subrange(start, start + len)
    }

    pub fn new() -> (r: State)
        ensures
            r.elements.wf(),
            r.elements.len == 0,
            r.elements.curr_parent is None,
            r.arena_len() == 0,
    {
        State { elements: Tree::new(), user_data_arena: Vec::new() }
    }

    /// Appends an opaque user payload to the arena and answers where it
    /// starts; an empty payload is not stored.
    fn push_user_data(&mut self, user_data: Vec<u8>) -> (r: Option<usize>)
        ensures
            final(self).elements == old(self).elements,
            r == if user_data@.len() == 0 {
                None::<usize>
            } else {
                Some(old(self).arena_len() as usize)
            },
            final(self).arena_len() == old(self).arena_len() + user_data@.len(),
            user_data@.len() > 0 ==> final(self).arena_at(
                old(self).arena_len() as int,
                user_data@.len() as int,
            ) == user_data@,
            forall|i: int| 0 <= i < old(self).arena_len()
                ==> final(self).arena_byte(i) == old(self).arena_byte(i),
    {
        if user_data.len() == 0 {
            return None;
        }
        let index = self.user_data_arena.len();
        let mut bytes = user_data;
        let ghost all = bytes@;
        let ghost done: int = 0;
        loop
            invariant
                0 <= done <= all.len(),
                bytes@ =~= all.skip(done),
                self.user_data_arena@ =~= old(self).user_data_arena@ + all.take(done),
                self.elements == old(self).elements,
            ensures
                done == all.len(),
                self.user_data_arena@ =~= old(self).user_data_arena@ + all.take(done),
                self.elements == old(self).elements,
            decreases bytes@.len(),
        {
            if bytes.len() == 0 {
                break ;
            }
            let b = bytes.remove(0);
            proof {
                assert(b == all[done]);
            }
            self.user_data_arena.push(b);
            proof {
                done = done + 1;
                assert(all.take(done) =~= all.take(done - 1).push(all[done - 1]));
                assert(bytes@ =~= all.skip(done));
            }
        }
        proof {
            assert(all.take(all.len() as int) =~= all);
            assert(self.user_data_arena@.subrange(
                old(self).user_data_arena@.len() as int,
                self.user_data_arena@.len() as int,
            ) =~= all);
        }
        Some(index)
    }

    /// Reads `len` bytes of user data starting at `index`, if the arena
    /// holds them.
    pub fn fetch_user_data(&self, index: usize, len: usize) -> (r: Option<Vec<u8>>)
        ensures
            match r {
                Some(bytes) => index + len <= self.arena_len() && bytes@ == self.arena_at(
                    index as int,
                    len as int,
                ),
                None => index + len > self.arena_len(),
            },
    {
        if index > self.user_data_arena.len() || len > self.user_data_arena.len() - index {
            return None;
        }
        let mut out: Vec<u8> = Vec::new();
        let mut i: usize = 0;
        while i < len
            invariant
                index + len <= self.user_data_arena@.len(),
                index + len <= usize::MAX,
                0 <= i <= len,
                out@ =~= self.user_data_arena@.subrange(index as int, index + i),
            decreases len - i,
        {
            out.push(self.user_data_arena[index + i]);
            proof {
                assert(self.user_data_arena@.subrange(index as int, index + i + 1)
                    =~= self.user_data_arena@.subrange(index as int, index + i).push(
                    self.user_data_arena@[index + i],
                ));
            }
            i += 1;
        }
        Some(out)
    }

    /// Forgets the element tree and the arena, keeping their storage: the
    /// backing element array is not rewritten.
    pub fn reset(&mut self)
        requires
            old(self).elements.wf(),
        ensures
            final(self).elements.wf(),
            final(self).elements.len == 0,
            final(self).elements.curr_parent is None,
            final(self).elements.items == old(self).elements.items,
            final(self).arena_len() == 0,
    {
        self.elements.clear();
        self.user_data_arena.clear();
    }

    /// Opens an element under the current parent and descends into it.  A
    /// non-empty user payload is appended to the arena and the element
    /// carries its starting offset; an empty one is not stored.
    pub fn open_element(&mut self, kind: ElementKind, layout: Layout, user_data: Vec<u8>)
        requires
            old(self).elements.wf(),
            old(self).elements.len < 256,
        ensures
            final(self).elements.wf(),
            final(self).elements.len == old(self).elements.len + 1,
            final(self).elements.curr_parent == Some(old(self).elements.len),
            ({
                let it = final(self).elements.items@[old(self).elements.len as int];
                &&& it.data.kind == kind
                &&& it.data.layout == layout
                &&& it.parent == old(self).elements.curr_parent
                &&& it.data.user_data == if user_data@.len() == 0 {
                    None::<usize>
                } else {
                    Some(old(self).arena_len() as usize)
                }
            }),
            final(self).arena_len() == old(self).arena_len() + user_data@.len(),
            user_data@.len() > 0 ==> final(self).arena_at(
                old(self).arena_len() as int,
                user_data@.len() as int,
            ) == user_data@,
            forall|i: int| 0 <= i < old(self).arena_len()
                ==> final(self).arena_byte(i) == old(self).arena_byte(i),
    {
        let e = Element::new(self, kind, layout, user_data);
        self.elements.push(e);
    }
}


/// Whether `cs` lists the siblings walked so far from `first`, with `cur`
/// the next to visit.
pub open spec fn is_chain_prefix(
    items: Seq<TreeItem<Element>>,
    first: Option<usize>,
    cs: Seq<int>,
    cur: Option<usize>,
) -> bool {
    &&& if cs.len() == 0 {
        cur == first
    } else {
        first == Some(cs[0] as usize) && items[cs.last()].next == cur
    }
    &&& forall|k: int| 0 <= k < cs.len() ==> 0 <= #[trigger] cs[k] < items.len()
    &&& forall|k: int| 0 <= k < cs.len() - 1
        ==> items[#[trigger] cs[k]].next == Some(cs[k + 1] as usize)
}

/// Walking one more sibling extends the chain sum by its value.
proof fn lemma_chain_sum_snoc(items: Seq<TreeItem<Element>>, cs: Seq<int>, c: int, axis: int)
    requires
        0 <= c < items.len(),
    ensures
        chain_sum(items, cs.push(c), axis) == chain_sum(items, cs, axis)
            + items[c].data.layout.size[axis].value,
    decreases cs.len(),
{
    assert(cs.push(c).len() > 0);
    assert(chain_sum(items, cs.push(c), axis) == items[cs.push(c)[0]].data.layout.size[
        axis
    ].value + chain_sum(items, cs.push(c).skip(1), axis));
    if cs.len() == 0 {
        assert(cs.push(c)[0] == c);
        assert(cs.push(c).skip(1) =~= Seq::<int>::empty());
        assert(chain_sum(items, cs.push(c).skip(1), axis) == 0);
        assert(chain_sum(items, cs, axis) == 0);
    } else {
        assert(cs.push(c)[0] == cs[0]);
        assert(cs.push(c).skip(1) =~= cs.skip(1).push(c));
        lemma_chain_sum_snoc(items, cs.skip(1), c, axis);
        assert(chain_sum(items, cs, axis) == items[cs[0]].data.layout.size[axis].value
            + chain_sum(items, cs.skip(1), axis));
    }
}

/// Walking one more sibling folds its value into the chain maximum.
proof fn lemma_chain_max_snoc(items: Seq<TreeItem<Element>>, cs: Seq<int>, c: int, axis: int)
    requires
        0 <= c < items.len(),
    ensures
        chain_max(items, cs.push(c), axis) == ({
            let rest = chain_max(items, cs, axis);
            let v = items[c].data.layout.size[axis].value as int;
            if v > rest {
                v
            } else {
                rest
            }
        }),
    decreases cs.len(),
{
    assert(cs.push(c).len() > 0);
    assert(chain_max(items, cs.push(c), axis) == ({
        let rest = chain_max(items, cs.push(c).skip(1), axis);
        let v = items[cs.push(c)[0]].data.layout.size[axis].value as int;
        if v > rest {
            v
        } else {
            rest
        }
    }));
    if cs.len() == 0 {
        assert(cs.push(c)[0] == c);
        assert(cs.push(c).skip(1) =~= Seq::<int>::empty());
        assert(chain_max(items, cs.push(c).skip(1), axis) == 0);
        assert(chain_max(items, cs, axis) == 0);
    } else {
        assert(cs.push(c)[0] == cs[0]);
        assert(cs.push(c).skip(1) =~= cs.skip(1).push(c));
        lemma_chain_max_snoc(items, cs.skip(1), c, axis);
        assert(chain_max(items, cs, axis) == ({
            let rest = chain_max(items, cs.skip(1), axis);
            let v = items[cs[0]].data.layout.size[axis].value as int;
            if v > rest {
                v
            } else {
                rest
            }
        }));
    }
}

/// Clamps a 64-bit accumulation into the stored 32-bit range.
fn clamp_to_i32(v: i64) -> (r: i32)
    ensures
        r as int == clamp_i32(v as int),
{
    if v < i32::MIN as i64 {
        i32::MIN
    } else if v > i32::MAX as i64 {
        i32::MAX
    } else {
        v as i32
    }
}

impl State {
    /// Closes the current parent: measures it — a fit-sized container takes
    /// its children's total extent along its flow direction and their
    /// maximum across it, fit-sized text takes its measured extent, grow
    /// and exact sizes stand as they are — writes the measured sizes back,
    /// steps construction up to the parent, and reports the closed
    /// element's layout.  Text is measured per character, at a fixed
    /// per-character width.
    #[verifier::loop_isolation(false)]
    #[verifier::rlimit(90)]
    pub fn close_element(&mut self) -> (r: Interaction)
        requires
            old(self).elements.wf(),
            old(self).elements.curr_parent is Some,
            !(old(self).elements.items@[old(self).elements.curr_parent->0 as int].data.kind
                is Image),
        ensures
            final(self).elements.wf(),
            final(self).elements.len == old(self).elements.len,
            final(self).elements.items@.len() == old(self).elements.items@.len(),
            final(self).user_data_arena == old(self).user_data_arena,
            ({
                let p = old(self).elements.curr_parent->0 as int;
                let items0 = old(self).elements.items@;
                let e0 = items0[p].data;
                &&& final(self).elements.curr_parent == items0[p].parent
                &&& (forall|i: int| 0 <= i < items0.len() && i != p
                    ==> final(self).elements.items@[i] == items0[i])
                &&& exists|cs: Seq<int>|
                {
                    &&& #[trigger] is_chain(items0, items0[p].first, cs)
                    &&& ({
                        let it1 = final(self).elements.items@[p];
                        &&& same_links(it1, items0[p])
                        &&& it1.data.kind == e0.kind
                        &&& it1.data.user_data == e0.user_data
                        &&& it1.data.layout.dir == e0.layout.dir
                        &&& it1.data.layout.pos == e0.layout.pos
                        &&& it1.data.layout.size[0].kind == e0.layout.size[0].kind
                        &&& it1.data.layout.size[1].kind == e0.layout.size[1].kind
                        &&& it1.data.layout.size[0].value as int == closed_axis_value(
                            items0,
                            e0,
                            cs,
                            0,
                        )
                        &&& it1.data.layout.size[1].value as int == closed_axis_value(
                            items0,
                            e0,
                            cs,
                            1,
                        )
                        &&& r.layout == it1.data.layout
                    })
                }
            }),
    {
        let p = match self.elements.curr_parent {
            Some(p) => p,
            None => {
                proof {
                    assert(false);
                }
                0
            }
        };
        let dir = self.elements.items[p].data.layout.dir;
        let kind_x = self.elements.items[p].data.layout.size[0].kind;
        let kind_y = self.elements.items[p].data.layout.size[1].kind;
        let value_x0 = self.elements.items[p].data.layout.size[0].value;
        let value_y0 = self.elements.items[p].data.layout.size[1].value;
        let text_len: Option<usize> = match &self.elements.items[p].data.kind {
            ElementKind::Container => None,
            ElementKind::Text(t) => Some(t.as_str().unicode_len()),
            ElementKind::Image(_) => {
                proof {
                    assert(false);
                }
                None
            }
        };

        let mut cur = self.elements.items[p].first;
        let ghost mut cs: Seq<int> = Seq::empty();
        let mut sum_x: i64 = 0;
        let mut sum_y: i64 = 0;
        let mut max_x: i64 = 0;
        let mut max_y: i64 = 0;
        while cur.is_some()
            invariant
                *self == *old(self),
                is_chain_prefix(
                    self.elements.items@,
                    self.elements.items@[p as int].first,
                    cs,
                    cur,
                ),
                match cur {
                    Some(c) => cs.len() <= c && c < self.elements.len,
                    None => cs.len() <= self.elements.len,
                },
                sum_x == chain_sum(self.elements.items@, cs, 0),
                sum_y == chain_sum(self.elements.items@, cs, 1),
                max_x == chain_max(self.elements.items@, cs, 0),
                max_y == chain_max(self.elements.items@, cs, 1),
                -0x80000000 * cs.len() <= sum_x as int <= 0x80000000 * cs.len(),
                -0x80000000 * cs.len() <= sum_y as int <= 0x80000000 * cs.len(),
                0 <= max_x as int <= 0x80000000 * cs.len(),
                0 <= max_y as int <= 0x80000000 * cs.len(),
            decreases (match cur {
                Some(c) => self.elements.len - c,
                None => 0,
            }),
        {
            let c = match cur {
                Some(c) => c,
                None => {
                    proof {
                        assert(false);
                    }
                    0
                }
            };
            let child = &self.elements.items[c];
            let cx = child.data.layout.size[0].value;
            let cy = child.data.layout.size[1].value;
            proof {
                lemma_chain_sum_snoc(self.elements.items@, cs, c as int, 0);
                lemma_chain_sum_snoc(self.elements.items@, cs, c as int, 1);
                lemma_chain_max_snoc(self.elements.items@, cs, c as int, 0);
                lemma_chain_max_snoc(self.elements.items@, cs, c as int, 1);
                assert(cs.push(c as int).last() == c as int);
                assert(forall|k: int| 0 <= k < cs.len()
                    ==> #[trigger] cs.push(c as int)[k] == cs[k]);
            }
            sum_x = sum_x + cx as i64;
            sum_y = sum_y + cy as i64;
            if cx as i64 > max_x {
                max_x = cx as i64;
            }
            if cy as i64 > max_y {
                max_y = cy as i64;
            }
            proof {
                cs = cs.push(c as int);
            }
            cur = child.next;
        }

        let new_x: i32 = match kind_x {
            SizeKind::Fit => match text_len {
                Some(l) => if l >= 238609295 {
                    i32::MAX
                } else {
                    9 * (l as i32)
                },
                None => if matches!(dir, Direction::LeftToRight) {
                    clamp_to_i32(sum_x)
                } else {
                    clamp_to_i32(max_x)
                },
            },
            SizeKind::Grow => value_x0,
            SizeKind::Exact => value_x0,
        };
        let new_y: i32 = match kind_y {
            SizeKind::Fit => match text_len {
                Some(_) => 16,
                None => if matches!(dir, Direction::LeftToRight) {
                    clamp_to_i32(max_y)
                } else {
                    clamp_to_i32(sum_y)
                },
            },
            SizeKind::Grow => value_y0,
            SizeKind::Exact => value_y0,
        };

        proof {
            let ghost items0 = old(self).elements.items@;
            let ghost e0 = items0[p as int].data;
            assert(is_chain(items0, items0[p as int].first, cs));
            assert(new_x as int == closed_axis_value(items0, e0, cs, 0));
            assert(new_y as int == closed_axis_value(items0, e0, cs, 1));
        }
        let mut it = self.elements.items.remove(p);
        it.data.layout.size[0].value = new_x;
        it.data.layout.size[1].value = new_y;
        let interaction = Interaction { layout: it.data.layout.clone() };
        self.elements.items.insert(p, it);
        proof {
            assert(self.elements.items@ =~= old(self).elements.items@.update(
                p as int,
                self.elements.items@[p as int],
            ));
            assert forall|i: int| 0 <= i < self.elements.len
                implies links_ok(
                    #[trigger] self.elements.items@[i],
                    i,
                    self.elements.len as int,
                ) by {
                assert(links_ok(old(self).elements.items@[i], i, self.elements.len as int));
                if i != p {
                    assert(self.elements.items@[i] == old(self).elements.items@[i]);
                }
            }
        }
        self.elements.step_up();
        interaction
    }
}


/// Whether a pass kept everything but layout sizes, touched no slot at or
/// before `root`, and changed size values only on grow-kind axes.
pub open spec fn grow_frame(
    pre: Seq<TreeItem<Element>>,
    post: Seq<TreeItem<Element>>,
    root: int,
) -> bool {
    &&& post.len() == pre.len()
    &&& forall|i: int| 0 <= i <= root && i < pre.len() ==> post[i] == pre[i]
    &&& forall|i: int| 0 <= i < pre.len() ==> same_but_size_values(#[trigger] post[i], pre[i])
    &&& forall|i: int, a: int|
        0 <= i < pre.len() && 0 <= a < 2 && pre[i].data.layout.size[a].kind != SizeKind::Grow
            ==> (#[trigger] post[i].data.layout.size[a]).value
                == pre[i].data.layout.size[a].value
}

/// How many chain members grow on one axis.
pub open spec fn chain_grow_count(items: Seq<TreeItem<Element>>, cs: Seq<int>, axis: int) -> int
    decreases cs.len(),
{
    if cs.len() == 0 {
        0
    } else {
        (if items[cs[0]].data.layout.size[axis].kind == SizeKind::Grow {
            1int
        } else {
            0int
        }) + chain_grow_count(items, cs.skip(1), axis)
    }
}

/// Walking one more sibling counts it if it grows.
proof fn lemma_chain_grow_count_snoc(
    items: Seq<TreeItem<Element>>,
    cs: Seq<int>,
    c: int,
    axis: int,
)
    requires
        0 <= c < items.len(),
    ensures
        chain_grow_count(items, cs.push(c), axis) == chain_grow_count(items, cs, axis) + (
        if items[c].data.layout.size[axis].kind == SizeKind::Grow {
            1int
        } else {
            0int
        }),
    decreases cs.len(),
{
    assert(cs.push(c).len() > 0);
    assert(chain_grow_count(items, cs.push(c), axis) == (if items[cs.push(c)[0]].data.layout.size[
        axis
    ].kind == SizeKind::Grow {
        1int
    } else {
        0int
    }) + chain_grow_count(items, cs.push(c).skip(1), axis));
    if cs.len() == 0 {
        assert(cs.push(c)[0] == c);
        assert(cs.push(c).skip(1) =~= Seq::<int>::empty());
        assert(chain_grow_count(items, cs.push(c).skip(1), axis) == 0);
        assert(chain_grow_count(items, cs, axis) == 0);
    } else {
        assert(cs.push(c)[0] == cs[0]);
        assert(cs.push(c).skip(1) =~= cs.skip(1).push(c));
        lemma_chain_grow_count_snoc(items, cs.skip(1), c, axis);
        assert(chain_grow_count(items, cs, axis) == (if items[cs[0]].data.layout.size[
            axis
        ].kind == SizeKind::Grow {
            1int
        } else {
            0int
        }) + chain_grow_count(items, cs.skip(1), axis));
    }
}

/// What the grow pass assigns a growing child on one axis: an equal share
/// of the parent's leftover along the flow direction, the whole leftover
/// across it.
pub open spec fn grown_child_value(
    items0: Seq<TreeItem<Element>>,
    parent: int,
    cs: Seq<int>,
    axis: int,
) -> int {
    let lay = items0[parent].data.layout;
    let flow_axis: int = if lay.dir == Direction::LeftToRight {
        0
    } else {
        1
    };
    let remaining = lay.size[axis].value - (if axis == flow_axis {
        chain_sum(items0, cs, axis)
    } else {
        0
    });
    if axis == flow_axis {
        clamp_i32(tdiv(remaining, chain_grow_count(items0, cs, axis)))
    } else {
        clamp_i32(remaining)
    }
}

/// Whether two slots differ at most in their position.
pub open spec fn same_but_pos(a: TreeItem<Element>, b: TreeItem<Element>) -> bool {
    &&& same_links(a, b)
    &&& a.data.kind == b.data.kind
    &&& a.data.user_data == b.data.user_data
    &&& a.data.layout.dir == b.data.layout.dir
    &&& a.data.layout.size == b.data.layout.size
}

/// Where the position pass puts slot `k`: a root keeps its position; a
/// first child starts at its parent; a later sibling follows its previous
/// sibling along the parent's flow direction and lines up with the parent
/// across it.
pub open spec fn placed_ok(items: Seq<TreeItem<Element>>, k: int, orig_pos: [i32; 2]) -> bool {
    let it = items[k];
    match it.parent {
        None => it.data.layout.pos == orig_pos,
        Some(par) => {
            let pl = items[par as int].data.layout;
            match it.prev {
                Some(pv) => {
                    let vl = items[pv as int].data.layout;
                    match pl.dir {
                        Direction::LeftToRight => it.data.layout.pos[0] as int == clamp_i32(
                            vl.pos[0] + vl.size[0].value,
                        ) && it.data.layout.pos[1] == pl.pos[1],
                        Direction::TopToBottom => it.data.layout.pos[0] == pl.pos[0]
                            && it.data.layout.pos[1] as int == clamp_i32(
                            vl.pos[1] + vl.size[1].value,
                        ),
                    }
                },
                None => it.data.layout.pos == pl.pos,
            }
        },
    }
}

/// Truncating division of leftover space among growing children.
fn div_trunc(a: i64, b: i64) -> (r: i64)
    requires
        b > 0,
        a > i64::MIN,
    ensures
        r as int == tdiv(a as int, b as int),
{
    if a >= 0 {
        a / b
    } else {
        -((-a) / b)
    }
}


/// A chain member growing on an axis makes that axis's grow count positive.
proof fn lemma_chain_grow_member(items: Seq<TreeItem<Element>>, cs: Seq<int>, k: int, axis: int)
    requires
        0 <= k < cs.len(),
        items[cs[k]].data.layout.size[axis].kind == SizeKind::Grow,
        forall|j: int| 0 <= j < cs.len() ==> 0 <= #[trigger] cs[j] < items.len(),
    ensures
        chain_grow_count(items, cs, axis) >= 1,
    decreases k,
{
    if k == 0 {
        lemma_chain_grow_count_nonneg(items, cs.skip(1), axis);
    } else {
        assert(cs.skip(1)[k - 1] == cs[k]);
        assert(forall|j: int| 0 <= j < cs.skip(1).len()
            ==> #[trigger] cs.skip(1)[j] == cs[j + 1]);
        lemma_chain_grow_member(items, cs.skip(1), k - 1, axis);
    }
}

/// A grow count is never negative.
proof fn lemma_chain_grow_count_nonneg(items: Seq<TreeItem<Element>>, cs: Seq<int>, axis: int)
    ensures
        chain_grow_count(items, cs, axis) >= 0,
    decreases cs.len(),
{
    if cs.len() > 0 {
        lemma_chain_grow_count_nonneg(items, cs.skip(1), axis);
    }
}

impl State {
    /// Walks the children of `index` once, counting the growing ones per
    /// axis and summing their sizes along the parent's flow direction.
    #[verifier::loop_isolation(false)]
    fn scan_children(&self, index: usize) -> (r: (i64, i64, i64, i64, Ghost<Seq<int>>))
        requires
            self.elements.wf(),
            index < self.elements.len,
        ensures
            ({
                let (children_size_x, children_size_y, num_growing_x, num_growing_y, chain) = r;
                let cs = chain@;
                let items = self.elements.items@;
                let dir = items[index as int].data.layout.dir;
                &&& is_chain(items, items[index as int].first, cs)
                &&& forall|a: int, b: int| 0 <= a < b < cs.len() ==> cs[a] < cs[b]
                &&& forall|j: int| 0 <= j < cs.len()
                    ==> index < #[trigger] cs[j] && cs[j] < self.elements.len
                &&& num_growing_x == chain_grow_count(items, cs, 0)
                &&& num_growing_y == chain_grow_count(items, cs, 1)
                &&& 0 <= num_growing_x <= cs.len()
                &&& 0 <= num_growing_y <= cs.len()
                &&& children_size_x == if dir == Direction::LeftToRight {
                    chain_sum(items, cs, 0)
                } else {
                    0
                }
                &&& children_size_y == if dir == Direction::TopToBottom {
                    chain_sum(items, cs, 1)
                } else {
                    0
                }
                &&& -0x80000000 * cs.len() <= children_size_x as int <= 0x80000000 * cs.len()
                &&& -0x80000000 * cs.len() <= children_size_y as int <= 0x80000000 * cs.len()
                &&& cs.len() <= self.elements.len
            }),
    {
        let dir = self.elements.items[index].data.layout.dir;
        let mut children_size_x: i64 = 0;
        let mut children_size_y: i64 = 0;
        let mut num_growing_x: i64 = 0;
        let mut num_growing_y: i64 = 0;
        let ghost mut cs: Seq<int> = Seq::empty();
        let mut cur = self.elements.items[index].first;
        while cur.is_some()
            invariant
                is_chain_prefix(
                    self.elements.items@,
                    self.elements.items@[index as int].first,
                    cs,
                    cur,
                ),
                match cur {
                    Some(c) => cs.len() <= c && index < c && c < self.elements.len,
                    None => cs.len() <= self.elements.len,
                },
                forall|a: int, b: int| 0 <= a < b < cs.len() ==> cs[a] < cs[b],
                forall|j: int| 0 <= j < cs.len()
                    ==> index < #[trigger] cs[j] && cs[j] < self.elements.len && (
                    match cur {
                        Some(c) => cs[j] < c,
                        None => true,
                    }),
                num_growing_x == chain_grow_count(self.elements.items@, cs, 0),
                num_growing_y == chain_grow_count(self.elements.items@, cs, 1),
                0 <= num_growing_x <= cs.len(),
                0 <= num_growing_y <= cs.len(),
                children_size_x == if matches!(dir, Direction::LeftToRight) {
                    chain_sum(self.elements.items@, cs, 0)
                } else {
                    0
                },
                children_size_y == if matches!(dir, Direction::TopToBottom) {
                    chain_sum(self.elements.items@, cs, 1)
                } else {
                    0
                },
                -0x80000000 * cs.len() <= children_size_x as int <= 0x80000000 * cs.len(),
                -0x80000000 * cs.len() <= children_size_y as int <= 0x80000000 * cs.len(),
            decreases (match cur {
                Some(c) => self.elements.len - c,
                None => 0,
            }),
        {
            let c = match cur {
                Some(c) => c,
                None => {
                    proof {
                        assert(false);
                    }
                    0
                }
            };
            let child = &self.elements.items[c];
            proof {
                lemma_chain_grow_count_snoc(self.elements.items@, cs, c as int, 0);
                lemma_chain_grow_count_snoc(self.elements.items@, cs, c as int, 1);
                lemma_chain_sum_snoc(self.elements.items@, cs, c as int, 0);
                lemma_chain_sum_snoc(self.elements.items@, cs, c as int, 1);
                assert(cs.push(c as int).last() == c as int);
                assert(forall|k: int| 0 <= k < cs.len()
                    ==> #[trigger] cs.push(c as int)[k] == cs[k]);
            }
            if matches!(child.data.layout.size[0].kind, SizeKind::Grow) {
                num_growing_x = num_growing_x + 1;
            }
            if matches!(child.data.layout.size[1].kind, SizeKind::Grow) {
                num_growing_y = num_growing_y + 1;
            }
            match dir {
                Direction::LeftToRight => {
                    children_size_x = children_size_x + child.data.layout.size[0].value as i64;
                }
                Direction::TopToBottom => {
                    children_size_y = children_size_y + child.data.layout.size[1].value as i64;
                }
            }
            proof {
                cs = cs.push(c as int);
            }
            cur = child.next;
        }
        (children_size_x, children_size_y, num_growing_x, num_growing_y, Ghost(cs))
    }

    /// Distributes the space a parent has left over among its growing
    /// children: along the parent's flow direction each growing child takes
    /// an equal share of what the children's sizes leave of the parent's,
    /// and across it each growing child takes the whole leftover.  Recurses
    /// into the children that grew.  Only grow-kind size values strictly
    /// after `index` change.
    #[verifier::loop_isolation(false)]
    #[verifier::rlimit(90)]
    fn grow_children(&mut self, index: usize)
        requires
            old(self).elements.wf(),
            index < 256,
        ensures
            final(self).elements.wf(),
            final(self).elements.len == old(self).elements.len,
            final(self).elements.curr_parent == old(self).elements.curr_parent,
            final(self).user_data_arena == old(self).user_data_arena,
            grow_frame(old(self).elements.items@, final(self).elements.items@, index as int),
            index >= old(self).elements.len ==> *final(self) == *old(self),
            index < old(self).elements.len ==> exists|cs: Seq<int>|
                {
                    let items0 = old(self).elements.items@;
                    &&& #[trigger] is_chain(
                        old(self).elements.items@,
                        old(self).elements.items@[index as int].first,
                        cs,
                    )
                    &&& if chain_grow_count(items0, cs, 0) == 0 && chain_grow_count(
                        items0,
                        cs,
                        1,
                    ) == 0 {
                        *final(self) == *old(self)
                    } else {
                        forall|k: int| 0 <= k < cs.len() ==> {
                            let c = #[trigger] cs[k];
                            (items0[c].data.layout.size[0].kind == SizeKind::Grow
                                ==> final(self).elements.items@[c].data.layout.size[0].value
                                    as int == grown_child_value(items0, index as int, cs, 0))
                            && (items0[c].data.layout.size[1].kind == SizeKind::Grow
                                ==> final(self).elements.items@[c].data.layout.size[1].value
                                    as int == grown_child_value(items0, index as int, cs, 1))
                        }
                    }
                },
        decreases 256 - index,
    {
        if index >= self.elements.len {
            return ;
        }
        let dir = self.elements.items[index].data.layout.dir;
        let parent_sx = self.elements.items[index].data.layout.size[0].value;
        let parent_sy = self.elements.items[index].data.layout.size[1].value;

        let (children_size_x, children_size_y, num_growing_x, num_growing_y, chain) =
            self.scan_children(index);
        let ghost cs = chain@;

        let ghost items0 = self.elements.items@;
        let ghost flow_axis: int = if dir == Direction::LeftToRight { 0 } else { 1 };

        if num_growing_x > 0 || num_growing_y > 0 {
            let remaining_x: i64 = parent_sx as i64 - children_size_x;
            let remaining_y: i64 = parent_sy as i64 - children_size_y;
            let to_grow_x: i64 = if num_growing_x < 1 {
                0
            } else {
                div_trunc(remaining_x, num_growing_x)
            };
            let to_grow_y: i64 = if num_growing_y < 1 {
                0
            } else {
                div_trunc(remaining_y, num_growing_y)
            };

            let mut cur = self.elements.items[index].first;
            let ghost mut k: int = 0;
            while cur.is_some()
                invariant
                    self.elements.wf(),
                    self.elements.len == old(self).elements.len,
                    self.elements.curr_parent == old(self).elements.curr_parent,
                    self.user_data_arena == old(self).user_data_arena,
                    grow_frame(items0, self.elements.items@, index as int),
                    0 <= k <= cs.len(),
                    cur == if k < cs.len() {
                        Some(cs[k] as usize)
                    } else {
                        None::<usize>
                    },
                    forall|j: int| 0 <= j < k ==> {
                        let c = #[trigger] cs[j];
                        (items0[c].data.layout.size[0].kind == SizeKind::Grow
                            ==> self.elements.items@[c].data.layout.size[0].value as int
                                == grown_child_value(items0, index as int, cs, 0))
                        && (items0[c].data.layout.size[1].kind == SizeKind::Grow
                            ==> self.elements.items@[c].data.layout.size[1].value as int
                                == grown_child_value(items0, index as int, cs, 1))
                    },
                decreases cs.len() - k,
            {
                let c = match cur {
                    Some(c) => c,
                    None => {
                        proof {
                            assert(false);
                        }
                        0
                    }
                };
                proof {
                    assert(c as int == cs[k]);
                    assert(index < c as int && (c as int) < self.elements.len);
                }
                let kx = self.elements.items[c].data.layout.size[0].kind;
                let ky = self.elements.items[c].data.layout.size[1].kind;
                let growing_x = matches!(kx, SizeKind::Grow);
                let growing_y = matches!(ky, SizeKind::Grow);
                proof {
                    // the pass changes no kind, so a growing child was
                    // counted as growing in the scan
                    assert(kx == items0[c as int].data.layout.size[0].kind);
                    assert(ky == items0[c as int].data.layout.size[1].kind);
                    if growing_x {
                        lemma_chain_grow_member(items0, cs, k, 0);
                    }
                    if growing_y {
                        lemma_chain_grow_member(items0, cs, k, 1);
                    }
                }

                let ghost pre_write = self.elements.items@;
                let mut it = self.elements.items.remove(c);
                match dir {
                    Direction::LeftToRight => {
                        if growing_x {
                            it.data.layout.size[0].value = clamp_to_i32(to_grow_x);
                        }
                        if growing_y {
                            it.data.layout.size[1].value = clamp_to_i32(remaining_y);
                        }
                    }
                    Direction::TopToBottom => {
                        if growing_x {
                            it.data.layout.size[0].value = clamp_to_i32(remaining_x);
                        }
                        if growing_y {
                            it.data.layout.size[1].value = clamp_to_i32(to_grow_y);
                        }
                    }
                }
                self.elements.items.insert(c, it);
                proof {
                    assert(self.elements.items@ =~= pre_write.update(
                        c as int,
                        self.elements.items@[c as int],
                    ));
                    assert forall|i: int| 0 <= i < self.elements.len
                        implies links_ok(
                            #[trigger] self.elements.items@[i],
                            i,
                            self.elements.len as int,
                        ) by {
                        assert(links_ok(pre_write[i], i, self.elements.len as int));
                        if i != c {
                            assert(self.elements.items@[i] == pre_write[i]);
                        }
                    }
                }

                if growing_x || growing_y {
                    let ghost pre_rec = self.elements.items@;
                    self.grow_children(c);
                    proof {
                        assert forall|i: int| 0 <= i < items0.len()
                            implies same_but_size_values(
                                #[trigger] self.elements.items@[i],
                                items0[i],
                            ) by {
                            assert(same_but_size_values(self.elements.items@[i], pre_rec[i]));
                            assert(same_but_size_values(pre_rec[i], items0[i]));
                        }
                        assert forall|i: int, a: int|
                            0 <= i < items0.len() && 0 <= a < 2
                                && items0[i].data.layout.size[a].kind != SizeKind::Grow
                            implies (#[trigger] self.elements.items@[i].data.layout.size[
                                a
                            ]).value == items0[i].data.layout.size[a].value by {
                            assert(pre_rec[i].data.layout.size[a].kind == items0[
                                i
                            ].data.layout.size[a].kind);
                            assert(self.elements.items@[i].data.layout.size[a].value
                                == pre_rec[i].data.layout.size[a].value);
                        }
                    }
                }
                proof {
                    k = k + 1;
                }
                cur = self.elements.items[c].next;
                proof {
                    assert(self.elements.items@[c as int].next == items0[c as int].next);
                    if k < cs.len() {
                        assert(items0[cs[k - 1]].next == Some(cs[k] as usize));
                    } else {
                        assert(items0[cs.last()].next is None);
                    }
                }
            }
        }
    }

    /// Runs the layout: first the grow pass from the root, then one sweep
    /// assigning every element its position from its parent and previous
    /// sibling.
    #[verifier::loop_isolation(false)]
    #[verifier::rlimit(90)]
    pub fn compute_layout(&mut self)
        requires
            old(self).elements.wf(),
        ensures
            final(self).elements.wf(),
            final(self).elements.len == old(self).elements.len,
            final(self).elements.curr_parent == old(self).elements.curr_parent,
            final(self).user_data_arena == old(self).user_data_arena,
            exists|mid: Seq<TreeItem<Element>>|
                {
                    &&& #[trigger] grow_frame(old(self).elements.items@, mid, 0)
                    &&& final(self).elements.items@.len() == mid.len()
                    &&& forall|k: int| old(self).elements.len <= k < mid.len()
                        ==> final(self).elements.items@[k] == mid[k]
                    &&& forall|k: int| 0 <= k < old(self).elements.len
                        ==> same_but_pos(#[trigger] final(self).elements.items@[k], mid[k])
                            && placed_ok(
                            final(self).elements.items@,
                            k,
                            mid[k].data.layout.pos,
                        )
                    &&& old(self).elements.len > 0 ==> exists|cs: Seq<int>|
                    {
                        let items0 = old(self).elements.items@;
                        &&& #[trigger] is_chain(
                            old(self).elements.items@,
                            old(self).elements.items@[0].first,
                            cs,
                        )
                        &&& if chain_grow_count(items0, cs, 0) == 0 && chain_grow_count(
                            items0,
                            cs,
                            1,
                        ) == 0 {
                            mid == items0
                        } else {
                            forall|k: int| 0 <= k < cs.len() ==> {
                                let c = #[trigger] cs[k];
                                (items0[c].data.layout.size[0].kind == SizeKind::Grow
                                    ==> mid[c].data.layout.size[0].value as int
                                        == grown_child_value(items0, 0, cs, 0))
                                && (items0[c].data.layout.size[1].kind == SizeKind::Grow
                                    ==> mid[c].data.layout.size[1].value as int
                                        == grown_child_value(items0, 0, cs, 1))
                            }
                        }
                    }
                },
    {
        self.grow_children(0);
        let ghost mid = self.elements.items@;
        let mut i: usize = 0;
        while i < self.elements.len
            invariant
                self.elements.wf(),
                self.elements.len == old(self).elements.len,
                self.elements.curr_parent == old(self).elements.curr_parent,
                self.user_data_arena == old(self).user_data_arena,
                0 <= i <= self.elements.len,
                self.elements.items@.len() == mid.len(),
                grow_frame(old(self).elements.items@, mid, 0),
                forall|k: int| i <= k < mid.len() ==> self.elements.items@[k] == mid[k],
                forall|k: int| 0 <= k < i
                    ==> same_but_pos(#[trigger] self.elements.items@[k], mid[k]) && placed_ok(
                    self.elements.items@,
                    k,
                    mid[k].data.layout.pos,
                ),
            decreases self.elements.len - i,
        {
            let parent_link = self.elements.items[i].parent;
            let prev_link = self.elements.items[i].prev;
            let mut new_pos: Option<[i32; 2]> = None;
            match parent_link {
                Some(par) => {
                    let pl_dir = self.elements.items[par].data.layout.dir;
                    let pl_pos = self.elements.items[par].data.layout.pos;
                    match prev_link {
                        Some(pv) => {
                            let vl_pos = self.elements.items[pv].data.layout.pos;
                            let vl_sx = self.elements.items[pv].data.layout.size[0].value;
                            let vl_sy = self.elements.items[pv].data.layout.size[1].value;
                            match pl_dir {
                                Direction::LeftToRight => {
                                    let x = clamp_to_i32(vl_pos[0] as i64 + vl_sx as i64);
                                    new_pos = Some([x, pl_pos[1]]);
                                }
                                Direction::TopToBottom => {
                                    let y = clamp_to_i32(vl_pos[1] as i64 + vl_sy as i64);
                                    new_pos = Some([pl_pos[0], y]);
                                }
                            }
                        }
                        None => {
                            new_pos = Some(pl_pos);
                        }
                    }
                }
                None => {}
            }
            match new_pos {
                Some(pos) => {
                    let ghost pre_write = self.elements.items@;
                    let mut it = self.elements.items.remove(i);
                    it.data.layout.pos = pos;
                    self.elements.items.insert(i, it);
                    proof {
                        assert(self.elements.items@ =~= pre_write.update(
                            i as int,
                            self.elements.items@[i as int],
                        ));
                        assert forall|k: int| 0 <= k < self.elements.len
                            implies links_ok(
                                #[trigger] self.elements.items@[k],
                                k,
                                self.elements.len as int,
                            ) by {
                            assert(links_ok(pre_write[k], k, self.elements.len as int));
                            if k != i {
                                assert(self.elements.items@[k] == pre_write[k]);
                            }
                        }
                    }
                }
                None => {}
            }
            proof {
                assert forall|k: int| 0 <= k < i + 1
                    implies same_but_pos(#[trigger] self.elements.items@[k], mid[k])
                        && placed_ok(self.elements.items@, k, mid[k].data.layout.pos) by {
                }
            }
            i += 1;
        }
        proof {
            assert(grow_frame(old(self).elements.items@, mid, 0));
        }
    }
}

} // verus!
