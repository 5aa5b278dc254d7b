//! The view tree: unbuilt node specs, built node records, and the builder.
//!
//! A view node carries a process-wide unique integer id, a tag, declared
//! attributes, at most one input-change and one click handler, and a body
//! that is either literal text or a *constructor*: a token that the
//! application's [`Components`] implementation turns into a fresh subtree
//! when the node is (re)built.  Handlers are likewise tokens that the
//! application interprets; the render engine only emits them.

use vstd::prelude::*;
use crate::client::NodeIdGen;
use crate::idmap::IdMap;

verus! {

/// A node spec, as declared by a view function.
pub struct DomNodeUnbuilt {
    pub id: u32,
    pub tag: &'static str,
    pub attributes: Vec<(String, String)>,
    pub body: Option<DomNodeUnbuiltBody>,
    pub on_input: Option<u32>,
    pub on_click: Option<u32>,
}

/// The body of a node spec.
pub enum DomNodeUnbuiltBody {
    Text(String),
    /// A constructor token, resolved by [`Components::construct`].
    Constructor(u32),
}

/// The built record of a node: what its body resolved to.
pub struct DomNodeBuilt {
    pub id: u32,
    pub body: DomNodeBuiltBody,
}

/// The resolved body: literal text, or the ids of the children the
/// constructor produced.
pub enum DomNodeBuiltBody {
    Text(String),
    Nodes(Vec<u32>),
}

/// The application's component set: resolves a constructor token to a fresh
/// subtree spec.  The node being rebuilt is `ids.current_dom_id()` while the
/// constructor runs, so signal reads inside it register against that node.
pub trait Components {
    fn construct(&mut self, ctor: u32, ids: &mut NodeIdGen) -> DomNodeBuilder;
}

/// An ordered list of sibling node specs under construction.
pub struct DomNodeBuilder {
    pub children: Vec<DomNodeUnbuilt>,
}

impl Default for DomNodeBuilder {
    fn default() -> (r: DomNodeBuilder)
        ensures
            r.children@ =~= Seq::<DomNodeUnbuilt>::empty(),
    {
        DomNodeBuilder { children: Vec::new() }
    }
}

/// The ids of a builder's children, in order.
pub open spec fn child_ids(children: Seq<DomNodeUnbuilt>) -> Seq<u32> {
    children.map_values(|c: DomNodeUnbuilt| c.id)
}

/// Names a pair of record-table states: a matching aid for the
/// existentials over the intermediate tables of a build.
pub open spec fn record_tables(b: Map<u32, DomNodeUnbuilt>, t: Map<u32, DomNodeBuilt>) -> bool {
    true
}

/// What building a child list does to the two record tables: the children
/// are recorded left to right, each by one [`build_step`].
pub open spec fn build_rel(
    b0: Map<u32, DomNodeUnbuilt>,
    t0: Map<u32, DomNodeBuilt>,
    children: Seq<DomNodeUnbuilt>,
    b1: Map<u32, DomNodeUnbuilt>,
    t1: Map<u32, DomNodeBuilt>,
    run_children: bool,
    fuel: nat,
) -> bool
    decreases fuel, 0nat, children.len(),
{
    if children.len() == 0 {
        b1 == b0 && t1 == t0
    } else {
        exists|bm: Map<u32, DomNodeUnbuilt>, tm: Map<u32, DomNodeBuilt>|
            #[trigger] record_tables(bm, tm) && build_step(
                b0,
                t0,
                children[0],
                bm,
                tm,
                run_children,
                fuel,
            ) && build_rel(bm, tm, children.skip(1), b1, t1, run_children, fuel)
    }
}

/// What recording one child does to the tables: a text child gets its spec
/// and a text record; a constructor child — when constructors run and fuel
/// remains — gets the records of a recursively built subtree, its spec, and
/// a built record naming that subtree's roots; anything else inserts
/// nothing.
pub open spec fn build_step(
    b0: Map<u32, DomNodeUnbuilt>,
    t0: Map<u32, DomNodeBuilt>,
    c: DomNodeUnbuilt,
    b1: Map<u32, DomNodeUnbuilt>,
    t1: Map<u32, DomNodeBuilt>,
    run_children: bool,
    fuel: nat,
) -> bool
    decreases fuel, 0nat, 0nat,
{
    match c.body {
        Some(DomNodeUnbuiltBody::Text(tx)) => exists|s: String|
            s@ == tx@ && b1 == b0.insert(c.id, c) && t1 == t0.insert(
                c.id,
                DomNodeBuilt { id: c.id, body: DomNodeBuiltBody::Text(s) },
            ),
        Some(DomNodeUnbuiltBody::Constructor(_)) => if run_children && fuel > 0 {
            &&& t1.dom().contains(c.id)
            &&& t1[c.id].id == c.id
            &&& t1[c.id].body matches DomNodeBuiltBody::Nodes(_)
            &&& exists|bm: Map<u32, DomNodeUnbuilt>, tm: Map<u32, DomNodeBuilt>|
                {
                    &&& #[trigger] record_tables(bm, tm)
                    &&& subtree_built(
                        b0,
                        t0,
                        bm,
                        tm,
                        nodes_of(t1[c.id]),
                        run_children,
                        (fuel - 1) as nat,
                    )
                    &&& b1 == bm.insert(c.id, c)
                    &&& t1 == tm.insert(c.id, t1[c.id])
                }
        } else {
            b1 == b0 && t1 == t0
        },
        None => b1 == b0 && t1 == t0,
    }
}

/// Whether the tables went from one state to the other by building the
/// children of some constructor output whose roots are `out`.
pub open spec fn subtree_built(
    b0: Map<u32, DomNodeUnbuilt>,
    t0: Map<u32, DomNodeBuilt>,
    b1: Map<u32, DomNodeUnbuilt>,
    t1: Map<u32, DomNodeBuilt>,
    out: Seq<u32>,
    run_children: bool,
    fuel: nat,
) -> bool
    decreases fuel, 1nat, 0nat,
{
    exists|sub: Seq<DomNodeUnbuilt>|
        #[trigger] child_ids(sub) == out && build_rel(b0, t0, sub, b1, t1, run_children, fuel)
}

/// The root ids a built record names: empty for a text body.
pub open spec fn nodes_of(rec: DomNodeBuilt) -> Seq<u32> {
    match rec.body {
        DomNodeBuiltBody::Text(_) => Seq::<u32>::empty(),
        DomNodeBuiltBody::Nodes(ns) => ns@,
    }
}

/// Recording one more child extends a build of the children before it.
proof fn lemma_build_rel_snoc(
    b0: Map<u32, DomNodeUnbuilt>,
    t0: Map<u32, DomNodeBuilt>,
    children: Seq<DomNodeUnbuilt>,
    c: DomNodeUnbuilt,
    bm: Map<u32, DomNodeUnbuilt>,
    tm: Map<u32, DomNodeBuilt>,
    b1: Map<u32, DomNodeUnbuilt>,
    t1: Map<u32, DomNodeBuilt>,
    run_children: bool,
    fuel: nat,
)
    requires
        build_rel(b0, t0, children, bm, tm, run_children, fuel),
        build_step(bm, tm, c, b1, t1, run_children, fuel),
    ensures
        build_rel(b0, t0, children.push(c), b1, t1, run_children, fuel),
    decreases children.len(),
{
    reveal_with_fuel(build_rel, 3);
    let pushed = children.push(c);
    assert(pushed.len() > 0);
    if children.len() == 0 {
        assert(pushed[0] == c);
        assert(pushed.skip(1) =~= Seq::<DomNodeUnbuilt>::empty());
        assert(bm == b0 && tm == t0);
        assert(build_step(b0, t0, pushed[0], b1, t1, run_children, fuel));
        assert(build_rel(b1, t1, pushed.skip(1), b1, t1, run_children, fuel));
        assert(record_tables(b1, t1));
        assert(build_rel(b0, t0, pushed, b1, t1, run_children, fuel));
    } else {
        let (bs, ts) = choose|bs: Map<u32, DomNodeUnbuilt>, ts: Map<u32, DomNodeBuilt>|
            #[trigger] record_tables(bs, ts) && build_step(
                b0,
                t0,
                children[0],
                bs,
                ts,
                run_children,
                fuel,
            ) && build_rel(bs, ts, children.skip(1), bm, tm, run_children, fuel);
        lemma_build_rel_snoc(bs, ts, children.skip(1), c, bm, tm, b1, t1, run_children, fuel);
        assert(pushed[0] == children[0]);
        assert(pushed.skip(1) =~= children.skip(1).push(c));
        assert(build_step(b0, t0, pushed[0], bs, ts, run_children, fuel));
        assert(build_rel(bs, ts, pushed.skip(1), b1, t1, run_children, fuel));
        assert(record_tables(bs, ts));
        assert(build_rel(b0, t0, pushed, b1, t1, run_children, fuel));
    }
}

impl DomNodeBuilder {
    /// A builder holding one fresh text node, as a view function declares a
    /// literal.
    pub fn text(ids: &mut NodeIdGen, value: String) -> (r: DomNodeBuilder)
        requires
            old(ids).next_spec() < u32::MAX,
        ensures
            final(ids).next_spec() == old(ids).next_spec() + 1,
            final(ids).current_spec() == old(ids).current_spec(),
            r.children@.len() == 1,
            r.children@[0].id == old(ids).next_spec(),
            r.children@[0].tag@ =~= Seq::<char>::empty(),
            r.children@[0].attributes@ =~= Seq::<(String, String)>::empty(),
            r.children@[0].body == Some(DomNodeUnbuiltBody::Text(value)),
            r.children@[0].on_input is None,
            r.children@[0].on_click is None,
    {
        proof {
            reveal_strlit("");
        }
        DomNodeBuilder {
            children: vec![
                DomNodeUnbuilt {
                    id: ids.next_dom_id(),
                    tag: "",
                    attributes: Vec::new(),
                    body: Some(DomNodeUnbuiltBody::Text(value)),
                    on_input: None,
                    on_click: None,
                },
            ],
        }
    }

    /// A builder holding one text node with id 0, for server-side emission
    /// where no session assigns ids.
    pub fn from(value: String) -> (r: DomNodeBuilder)
        ensures
            r.children@.len() == 1,
            r.children@[0].id == 0u32,
            r.children@[0].tag@ =~= Seq::<char>::empty(),
            r.children@[0].attributes@ =~= Seq::<(String, String)>::empty(),
            r.children@[0].body == Some(DomNodeUnbuiltBody::Text(value)),
            r.children@[0].on_input is None,
            r.children@[0].on_click is None,
    {
        proof {
            reveal_strlit("");
        }
        DomNodeBuilder {
            children: vec![
                DomNodeUnbuilt {
                    id: 0,
                    tag: "",
                    attributes: Vec::new(),
                    body: Some(DomNodeUnbuiltBody::Text(value)),
                    on_input: None,
                    on_click: None,
                },
            ],
        }
    }

    /// Appends a fresh element node whose body is the constructor `ctor`.
    pub fn push(self, ids: &mut NodeIdGen, tag: &'static str, ctor: u32) -> (r: DomNodeBuilder)
        requires
            old(ids).next_spec() < u32::MAX,
        ensures
            final(ids).next_spec() == old(ids).next_spec() + 1,
            final(ids).current_spec() == old(ids).current_spec(),
            r.children@.len() == self.children@.len() + 1,
            forall|k: int| 0 <= k < self.children@.len()
                ==> r.children@[k] == self.children@[k],
            r.children@.last().id == old(ids).next_spec(),
            r.children@.last().tag == tag,
            r.children@.last().attributes@ =~= Seq::<(String, String)>::empty(),
            r.children@.last().body == Some(DomNodeUnbuiltBody::Constructor(ctor)),
            r.children@.last().on_input is None,
            r.children@.last().on_click is None,
    {
        let mut me = self;
        me.children.push(
            DomNodeUnbuilt {
                id: ids.next_dom_id(),
                tag,
                attributes: Vec::new(),
                body: Some(DomNodeUnbuiltBody::Constructor(ctor)),
                on_input: None,
                on_click: None,
            },
        );
        me
    }

    /// Declares the click handler of the most recently pushed node.
    pub fn on_click(self, handler: u32) -> (r: DomNodeBuilder)
        ensures
            r.children@.len() == self.children@.len(),
            self.children@.len() == 0 ==> r.children@ == self.children@,
            forall|k: int| 0 <= k < self.children@.len() - 1
                ==> r.children@[k] == self.children@[k],
            self.children@.len() > 0 ==> {
                let l = r.children@.last();
                let o = self.children@.last();
                l.id == o.id && l.tag == o.tag && l.attributes == o.attributes
                    && l.body == o.body && l.on_input == o.on_input
                    && l.on_click == Some(handler)
            },
    {
        let mut me = self;
        let n = me.children.len();
        if n > 0 {
            let node = me.children.remove(n - 1);
            me.children.push(
                DomNodeUnbuilt {
                    id: node.id,
                    tag: node.tag,
                    attributes: node.attributes,
                    body: node.body,
                    on_input: node.on_input,
                    on_click: Some(handler),
                },
            );
            proof {
                assert(me.children@ =~= self.children@.drop_last().push(me.children@.last()));
            }
        }
        me
    }

    /// Declares the input-change handler of the most recently pushed node.
    pub fn on_input(self, handler: u32) -> (r: DomNodeBuilder)
        ensures
            r.children@.len() == self.children@.len(),
            self.children@.len() == 0 ==> r.children@ == self.children@,
            forall|k: int| 0 <= k < self.children@.len() - 1
                ==> r.children@[k] == self.children@[k],
            self.children@.len() > 0 ==> {
                let l = r.children@.last();
                let o = self.children@.last();
                l.id == o.id && l.tag == o.tag && l.attributes == o.attributes
                    && l.body == o.body && l.on_click == o.on_click
                    && l.on_input == Some(handler)
            },
    {
        let mut me = self;
        let n = me.children.len();
        if n > 0 {
            let node = me.children.remove(n - 1);
            me.children.push(
                DomNodeUnbuilt {
                    id: node.id,
                    tag: node.tag,
                    attributes: node.attributes,
                    body: node.body,
                    on_input: Some(handler),
                    on_click: node.on_click,
                },
            );
            proof {
                assert(me.children@ =~= self.children@.drop_last().push(me.children@.last()));
            }
        }
        me
    }

    /// Declares an attribute on the most recently pushed node.
    pub fn attr(self, key: String, value: String) -> (r: DomNodeBuilder)
        ensures
            r.children@.len() == self.children@.len(),
            self.children@.len() == 0 ==> r.children@ == self.children@,
            forall|k: int| 0 <= k < self.children@.len() - 1
                ==> r.children@[k] == self.children@[k],
            self.children@.len() > 0 ==> {
                let l = r.children@.last();
                let o = self.children@.last();
                l.id == o.id && l.tag == o.tag && l.body == o.body
                    && l.on_input == o.on_input && l.on_click == o.on_click
                    && l.attributes@ == o.attributes@.push((key, value))
            },
    {
        let mut me = self;
        let n = me.children.len();
        if n > 0 {
            let mut node = me.children.remove(n - 1);
            node.attributes.push((key, value));
            me.children.push(node);
            proof {
                assert(me.children@ =~= self.children@.drop_last().push(me.children@.last()));
            }
        }
        me
    }

    /// Walks the declared children, records each one, and — for constructor
    /// bodies, when `run_children` holds and `fuel` is not exhausted —
    /// invokes the constructor with the child marked as currently rendering,
    /// then records what it produced.  Returns the children's ids in
    /// document order.
    ///
    /// `fuel` bounds the constructor nesting depth this call expands.
    pub fn build<C: Components>(
        self,
        c: &mut C,
        ids: &mut NodeIdGen,
        unbuilt_nodes: &mut IdMap<DomNodeUnbuilt>,
        built_nodes: &mut IdMap<DomNodeBuilt>,
        run_children: bool,
        fuel: u32,
    ) -> (r: Vec<u32>)
        requires
            old(unbuilt_nodes).wf(),
            old(built_nodes).wf(),
        ensures
            final(unbuilt_nodes).wf(),
            final(built_nodes).wf(),
            r@ == child_ids(self.children@),
            build_rel(
                old(unbuilt_nodes)@,
                old(built_nodes)@,
                self.children@,
                final(unbuilt_nodes)@,
                final(built_nodes)@,
                run_children,
                fuel as nat,
            ),
        decreases fuel, self.children@.len(),
    {
        let mut built: Vec<u32> = Vec::new();
        let mut children = self.children;
        let ghost all = children@;
        let ghost done: int = 0;

        proof {
            assert(child_ids(all).take(0) =~= Seq::<u32>::empty());
            assert(all.take(0) =~= Seq::<DomNodeUnbuilt>::empty());
        }

        loop
            invariant
                unbuilt_nodes.wf(),
                built_nodes.wf(),
                0 <= done <= all.len(),
                children@ =~= all.skip(done),
                built@ =~= child_ids(all).take(done),
                build_rel(
                    old(unbuilt_nodes)@,
                    old(built_nodes)@,
                    all.take(done),
                    unbuilt_nodes@,
                    built_nodes@,
                    run_children,
                    fuel as nat,
                ),
            ensures
                done == all.len(),
                built@ =~= child_ids(all).take(done),
                build_rel(
                    old(unbuilt_nodes)@,
                    old(built_nodes)@,
                    all.take(done),
                    unbuilt_nodes@,
                    built_nodes@,
                    run_children,
                    fuel as nat,
                ),
            decreases fuel, children@.len(),
        {
            if children.len() == 0 {
                break ;
            }
            let child = children.remove(0);
            proof {
                assert(child == all[done]);
                assert(child_ids(all)[done] == child.id);
            }
            let child_id = child.id;
            let ghost b_pre = unbuilt_nodes@;
            let ghost t_pre = built_nodes@;

            let run_this = match &child.body {
                Some(DomNodeUnbuiltBody::Text(_)) => false,
                Some(DomNodeUnbuiltBody::Constructor(_)) => run_children && fuel > 0,
                None => false,
            };

            match &child.body {
                Some(DomNodeUnbuiltBody::Text(text)) => {
                    let body_text = copy_string(text);
                    let ghost body_ghost = body_text;
                    built_nodes.insert(
                        child_id,
                        DomNodeBuilt { id: child_id, body: DomNodeBuiltBody::Text(body_text) },
                    );
                    unbuilt_nodes.insert(child_id, child);
                    proof {
                        assert(body_ghost@ == text@);
                        assert(unbuilt_nodes@ == b_pre.insert(child_id, child));
                        assert(built_nodes@ == t_pre.insert(
                            child_id,
                            DomNodeBuilt { id: child_id, body: DomNodeBuiltBody::Text(body_ghost) },
                        ));
                        assert(build_step(
                            b_pre,
                            t_pre,
                            child,
                            unbuilt_nodes@,
                            built_nodes@,
                            run_children,
                            fuel as nat,
                        ));
                    }
                }
                Some(DomNodeUnbuiltBody::Constructor(ctor)) => {
                    if run_this {
                        let ctor = *ctor;
                        ids.set_current_dom_id(child_id);
                        let builder = c.construct(ctor, ids);
                        let ghost sub = builder.children@;
                        let child_body = builder.build(
                            c,
                            ids,
                            unbuilt_nodes,
                            built_nodes,
                            run_children,
                            fuel - 1,
                        );
                        ids.set_current_dom_id(0);
                        let ghost b_mid = unbuilt_nodes@;
                        let ghost t_mid = built_nodes@;
                        let ghost out = child_body@;
                        built_nodes.insert(
                            child_id,
                            DomNodeBuilt {
                                id: child_id,
                                body: DomNodeBuiltBody::Nodes(child_body),
                            },
                        );
                        unbuilt_nodes.insert(child_id, child);
                        proof {
                            assert(child_ids(sub) == out);
                            assert(subtree_built(
                                b_pre,
                                t_pre,
                                b_mid,
                                t_mid,
                                out,
                                run_children,
                                (fuel - 1) as nat,
                            ));
                            let rec = built_nodes@[child_id];
                            assert(rec.id == child_id);
                            assert(nodes_of(rec) == out);
                            assert(record_tables(b_mid, t_mid));
                            assert(unbuilt_nodes@ == b_mid.insert(child_id, child));
                            assert(built_nodes@ == t_mid.insert(child_id, rec));
                            assert(build_step(
                                b_pre,
                                t_pre,
                                child,
                                unbuilt_nodes@,
                                built_nodes@,
                                run_children,
                                fuel as nat,
                            ));
                        }
                    } else {
                        proof {
                            assert(build_step(
                                b_pre,
                                t_pre,
                                child,
                                unbuilt_nodes@,
                                built_nodes@,
                                run_children,
                                fuel as nat,
                            ));
                        }
                    }
                }
                None => {
                    proof {
                        assert(build_step(
                            b_pre,
                            t_pre,
                            child,
                            unbuilt_nodes@,
                            built_nodes@,
                            run_children,
                            fuel as nat,
                        ));
                    }
                }
            }

            built.push(child_id);
            proof {
                lemma_build_rel_snoc(
                    old(unbuilt_nodes)@,
                    old(built_nodes)@,
                    all.take(done),
                    child,
                    b_pre,
                    t_pre,
                    unbuilt_nodes@,
                    built_nodes@,
                    run_children,
                    fuel as nat,
                );
                done = done + 1;
                assert(all.take(done) =~= all.take(done - 1).push(child));
                assert(built@ =~= child_ids(all).take(done));
                assert(children@ =~= all.skip(done));
            }
        }
        proof {
            assert(built@ =~= child_ids(all));
            assert(all.take(all.len() as int) =~= all);
        }
        built
    }
}

/// A copy of `s` with the same characters.
fn copy_string(s: &String) -> (r: String)
    ensures
        r@ == s@,
{
    s.clone()
}

} // verus!
