//! The client runtime.
//!
//! Holds the persistent per-session records — unbuilt node specs, built node
//! records, the dirty set, the node-id source and the named-value
//! subscriptions — and drives the incremental re-render pass over them.

use vstd::prelude::*;
use vstd::string::StringExecFns;
use crate::dom::{Components, DomNodeBuilt, DomNodeBuiltBody, DomNodeUnbuilt, DomNodeUnbuiltBody, record_tables, subtree_built};
use crate::idmap::IdMap;
use crate::numfmt::{dec_str, u32_to_string};
use crate::signal::DirtySet;
use crate::state::{InnerUpdate, IsMultipleValue, IsSingleValue, StateEvent, StateInner, StatefulClientEvent};

verus! {

/// The node-id source and the "currently rendering node" context.
///
/// Node ids are assigned monotonically, starting at 1, and never reused
/// within a session.  Id 0 is reserved to mean "no node is rendering":
/// signal reads performed outside a render pass register nothing.
pub struct NodeIdGen {
    next_id: u32,
    current: u32,
}

impl NodeIdGen {
    pub closed spec fn next_spec(&self) -> u32 {
        self.next_id
    }

    pub closed spec fn current_spec(&self) -> u32 {
        self.current
    }

    pub fn new() -> (r: NodeIdGen)
        ensures
            r.next_spec() == 1u32,
            r.current_spec() == 0u32,
    {
        NodeIdGen { next_id: 1, current: 0 }
    }

    /// Hands out the next fresh node id.
    pub fn next_dom_id(&mut self) -> (r: u32)
        requires
            old(self).next_spec() < u32::MAX,
        ensures
            r == old(self).next_spec(),
            final(self).next_spec() == old(self).next_spec() + 1,
            final(self).current_spec() == old(self).current_spec(),
    {
        let id = self.next_id;
        self.next_id = self.next_id + 1;
        id
    }

    /// The id of the node whose constructor is running, or 0.
    pub fn current_dom_id(&self) -> (r: u32)
        ensures
            r == self.current_spec(),
    {
        self.current
    }

    /// Marks `id` as the node whose constructor is about to run.
    pub fn set_current_dom_id(&mut self, id: u32)
        ensures
            final(self).next_spec() == old(self).next_spec(),
            final(self).current_spec() == id,
    {
        self.current = id;
    }
}

/// The markup emitted for one attribute: ` key ` when the value is empty,
/// ` key='value' ` otherwise.
pub open spec fn attr_markup(a: (String, String)) -> Seq<char> {
    if a.1@.len() == 0 {
        " "@ + a.0@ + " "@
    } else {
        " "@ + a.0@ + "='"@ + a.1@ + "' "@
    }
}

/// The markup emitted for a node's attributes, in declaration order.
pub open spec fn attrs_markup(attrs: Seq<(String, String)>) -> Seq<char>
    decreases attrs.len(),
{
    if attrs.len() == 0 {
        Seq::<char>::empty()
    } else {
        attr_markup(attrs[0]) + attrs_markup(attrs.skip(1))
    }
}

/// The markup emitted for a handler declaration.
pub open spec fn handler_markup(event_attr: Seq<char>, handler: Option<u32>) -> Seq<char> {
    match handler {
        Some(h) => " "@ + event_attr + "=\"call_wasm_fn_ptr(this.value, "@ + dec_str(
            h as nat,
        ) + ")\""@,
        None => Seq::<char>::empty(),
    }
}

/// The opening markup of a node: the tag with the node's id, the declared
/// attributes, the handler declarations, and the closing `>`.  An untagged
/// leaf emits only its text: no attribute or handler pieces.
pub open spec fn open_markup(b: DomNodeUnbuilt, id: u32) -> Seq<char> {
    if b.tag@.len() > 0 {
        "<"@ + b.tag@ + " data-pserve-id="@ + dec_str(id as nat) + attrs_markup(b.attributes@)
            + handler_markup("oninput"@, b.on_input) + handler_markup("onclick"@, b.on_click)
            + ">"@
    } else {
        Seq::<char>::empty()
    }
}

/// The closing markup of a tagged node.
pub open spec fn close_markup(b: DomNodeUnbuilt) -> Seq<char> {
    if b.tag@.len() > 0 {
        "</"@ + b.tag@ + ">"@
    } else {
        Seq::<char>::empty()
    }
}

/// The textual serialization of the built subtree rooted at `id`: empty when
/// `id` has no builder or no built record (or when `fuel` is exhausted),
/// else the node's opening markup, its body — literal text, or the children
/// in document order — and its closing markup.
pub open spec fn markup(
    builders: Map<u32, DomNodeUnbuilt>,
    built: Map<u32, DomNodeBuilt>,
    id: u32,
    fuel: nat,
) -> Seq<char>
    decreases fuel, 0nat, 0nat,
{
    if fuel == 0 {
        Seq::<char>::empty()
    } else if builders.dom().contains(id) && built.dom().contains(id) {
        let b = builders[id];
        open_markup(b, id) + (match built[id].body {
            DomNodeBuiltBody::Text(t) => t@,
            DomNodeBuiltBody::Nodes(ns) => markup_seq(builders, built, ns@, (fuel - 1) as nat),
        }) + close_markup(b)
    } else {
        Seq::<char>::empty()
    }
}

/// The concatenated serialization of the subtrees rooted at `ids`, in order.
pub open spec fn markup_seq(
    builders: Map<u32, DomNodeUnbuilt>,
    built: Map<u32, DomNodeBuilt>,
    ids: Seq<u32>,
    fuel: nat,
) -> Seq<char>
    decreases fuel, 1nat, ids.len(),
{
    if ids.len() == 0 {
        Seq::<char>::empty()
    } else {
        markup(builders, built, ids[0], fuel) + markup_seq(builders, built, ids.skip(1), fuel)
    }
}

/// Splitting the last root off a serialization of several subtrees.
proof fn lemma_markup_seq_snoc(
    builders: Map<u32, DomNodeUnbuilt>,
    built: Map<u32, DomNodeBuilt>,
    ids: Seq<u32>,
    last: u32,
    fuel: nat,
)
    ensures
        markup_seq(builders, built, ids.push(last), fuel) =~= markup_seq(
            builders,
            built,
            ids,
            fuel,
        ) + markup(builders, built, last, fuel),
    decreases ids.len(),
{
    if ids.len() == 0 {
        assert(ids.push(last)[0] == last);
        assert(ids.push(last).skip(1) =~= Seq::<u32>::empty());
        assert(ids.push(last).len() == 1);
        assert(markup_seq(builders, built, ids.push(last), fuel) == markup(
            builders,
            built,
            ids.push(last)[0],
            fuel,
        ) + markup_seq(builders, built, ids.push(last).skip(1), fuel));
        assert(markup_seq(builders, built, ids.push(last).skip(1), fuel)
            =~= Seq::<char>::empty());
        assert(markup_seq(builders, built, ids, fuel) =~= Seq::<char>::empty());
    } else {
        assert(ids.push(last)[0] == ids[0]);
        assert(ids.push(last).skip(1) =~= ids.skip(1).push(last));
        lemma_markup_seq_snoc(builders, built, ids.skip(1), last, fuel);
    }
}

/// The persistent per-session client records: the node-id source, the
/// unbuilt and built node tables, and the dirty set.
pub struct PersistentState {
    pub ids: NodeIdGen,
    pub builders: IdMap<DomNodeUnbuilt>,
    pub built_nodes: IdMap<DomNodeBuilt>,
    pub to_re_render: DirtySet,
}

impl PersistentState {
    pub open spec fn wf(&self) -> bool {
        &&& self.builders.wf()
        &&& self.built_nodes.wf()
        &&& self.to_re_render.wf()
    }

    pub fn new() -> (r: PersistentState)
        ensures
            r.wf(),
            r.builders@ =~= Map::<u32, DomNodeUnbuilt>::empty(),
            r.built_nodes@ =~= Map::<u32, DomNodeBuilt>::empty(),
            r.to_re_render@ =~= Seq::<u32>::empty(),
            r.ids.next_spec() == 1u32,
            r.ids.current_spec() == 0u32,
    {
        PersistentState {
            ids: NodeIdGen::new(),
            builders: IdMap::new(),
            built_nodes: IdMap::new(),
            to_re_render: DirtySet::new(),
        }
    }

    pub fn get_builders(&self) -> (r: &IdMap<DomNodeUnbuilt>)
        ensures
            r == &self.builders,
    {
        &self.builders
    }

    pub fn get_builders_mut(&mut self) -> (r: &mut IdMap<DomNodeUnbuilt>)
        ensures
            *r == old(self).builders,
            final(self).builders == *final(r),
            final(self).built_nodes == old(self).built_nodes,
            final(self).ids == old(self).ids,
            final(self).to_re_render == old(self).to_re_render,
    {
        &mut self.builders
    }

    pub fn get_built_nodes(&self) -> (r: &IdMap<DomNodeBuilt>)
        ensures
            r == &self.built_nodes,
    {
        &self.built_nodes
    }

    pub fn get_built_nodes_mut(&mut self) -> (r: &mut IdMap<DomNodeBuilt>)
        ensures
            *r == old(self).built_nodes,
            final(self).built_nodes == *final(r),
            final(self).builders == old(self).builders,
            final(self).ids == old(self).ids,
            final(self).to_re_render == old(self).to_re_render,
    {
        &mut self.built_nodes
    }

    /// Emits the serialization of the built subtree rooted at `dom_id`.
    /// `fuel` bounds the tree depth the emission follows.
    pub fn render(&self, dom_id: u32, fuel: u32) -> (r: String)
        requires
            self.wf(),
        ensures
            r@ =~= markup(self.builders@, self.built_nodes@, dom_id, fuel as nat),
    {
        render_at(&self.builders, &self.built_nodes, dom_id, fuel)
    }

    /// Emits the concatenated serializations of the subtrees rooted at
    /// `dom_ids`, in order.
    #[verifier::loop_isolation(false)]
    pub fn render_multi(&self, dom_ids: &Vec<u32>, fuel: u32) -> (r: String)
        requires
            self.wf(),
        ensures
            r@ =~= markup_seq(
                self.builders@,
                self.built_nodes@,
                dom_ids@,
                fuel as nat,
            ),
    {
        let mut out = String::new();
        let mut i: usize = 0;
        proof {
            assert(dom_ids@.take(0) =~= Seq::<u32>::empty());
        }
        while i < dom_ids.len()
            invariant
                self.wf(),
                0 <= i <= dom_ids@.len(),
                out@ =~= markup_seq(
                    self.builders@,
                    self.built_nodes@,
                    dom_ids@.take(i as int),
                    fuel as nat,
                ),
            decreases dom_ids@.len() - i,
        {
            let piece = self.render(dom_ids[i], fuel);
            out.append(piece.as_str());
            proof {
                lemma_markup_seq_snoc(
                    self.builders@,
                    self.built_nodes@,
                    dom_ids@.take(i as int),
                    dom_ids@[i as int],
                    fuel as nat,
                );
                assert(dom_ids@.take(i + 1) =~= dom_ids@.take(i as int).push(dom_ids@[i as int]));
            }
            i += 1;
        }
        proof {
            assert(dom_ids@.take(dom_ids@.len() as int) =~= dom_ids@);
        }
        out
    }
}

/// The emission behind [`PersistentState::render`], recursing through
/// children in document order.
#[verifier::loop_isolation(false)]
fn render_at(
    builders: &IdMap<DomNodeUnbuilt>,
    built_nodes: &IdMap<DomNodeBuilt>,
    dom_id: u32,
    fuel: u32,
) -> (r: String)
    requires
        builders.wf(),
        built_nodes.wf(),
    ensures
        r@ =~= markup(builders@, built_nodes@, dom_id, fuel as nat),
    decreases fuel,
{
    let mut out = String::new();
    if fuel == 0 {
        return out;
    }
    let builder = builders.get(dom_id);
    let built = built_nodes.get(dom_id);
    match (built, builder) {
        (Some(built_node), Some(builder)) => {
            if !builder.tag.is_empty() {
                out.append("<");
                out.append(builder.tag);
                out.append(" data-pserve-id=");
                let id_text = u32_to_string(dom_id);
                out.append(id_text.as_str());
                append_attrs(&mut out, &builder.attributes);
                append_handler(&mut out, "oninput", builder.on_input);
                append_handler(&mut out, "onclick", builder.on_click);
                out.append(">");
                proof {
                    reveal_strlit("<");
                    reveal_strlit(" data-pserve-id=");
                    reveal_strlit(">");
                    reveal_strlit("oninput");
                    reveal_strlit("onclick");
                }
            }
            proof {
                assert(out@ =~= open_markup(builders@[dom_id], dom_id));
            }

            match &built_node.body {
                DomNodeBuiltBody::Text(text) => {
                    out.append(text.as_str());
                }
                DomNodeBuiltBody::Nodes(nodes) => {
                    let ghost before_children = out@;
                    let mut k: usize = 0;
                    proof {
                        assert(nodes@.take(0) =~= Seq::<u32>::empty());
                    }
                    while k < nodes.len()
                        invariant
                            0 <= k <= nodes@.len(),
                            out@ =~= before_children + markup_seq(
                                builders@,
                                built_nodes@,
                                nodes@.take(k as int),
                                (fuel - 1) as nat,
                            ),
                        decreases nodes@.len() - k,
                    {
                        let piece = render_at(builders, built_nodes, nodes[k], fuel - 1);
                        out.append(piece.as_str());
                        proof {
                            lemma_markup_seq_snoc(
                                builders@,
                                built_nodes@,
                                nodes@.take(k as int),
                                nodes@[k as int],
                                (fuel - 1) as nat,
                            );
                            assert(nodes@.take(k + 1) =~= nodes@.take(k as int).push(
                                nodes@[k as int],
                            ));
                        }
                        k += 1;
                    }
                    proof {
                        assert(nodes@.take(nodes@.len() as int) =~= nodes@);
                    }
                }
            }

            if !builder.tag.is_empty() {
                out.append("</");
                out.append(builder.tag);
                out.append(">");
                proof {
                    reveal_strlit("</");
                    reveal_strlit(">");
                }
            }
        }
        _ => {}
    }
    out
}

/// Appends the attribute markup, in declaration order.
#[verifier::loop_isolation(false)]
pub(crate) fn append_attrs(out: &mut String, attrs: &Vec<(String, String)>)
    ensures
        final(out)@ =~= old(out)@ + attrs_markup(attrs@),
{
    let mut i: usize = 0;
    proof {
        assert(attrs@.take(0) =~= Seq::<(String, String)>::empty());
    }
    while i < attrs.len()
        invariant
            0 <= i <= attrs@.len(),
            out@ =~= old(out)@ + attrs_markup(attrs@.take(i as int)),
        decreases attrs@.len() - i,
    {
        let ghost at_entry = out@;
        let pair = &attrs[i];
        let attr = &pair.0;
        let value = &pair.1;
        proof {
            assert(*pair == attrs@[i as int]);
        }
        out.append(" ");
        out.append(attr.as_str());
        if value.as_str().is_empty() {
            out.append(" ");
        } else {
            out.append("='");
            out.append(value.as_str());
            out.append("' ");
        }
        proof {
            reveal_strlit(" ");
            reveal_strlit("='");
            reveal_strlit("' ");
            assert(out@ =~= at_entry + attr_markup(attrs@[i as int]));
            lemma_attrs_markup_snoc(attrs@.take(i as int), attrs@[i as int]);
            assert(attrs@.take(i + 1) =~= attrs@.take(i as int).push(attrs@[i as int]));
        }
        i += 1;
    }
    proof {
        assert(attrs@.take(attrs@.len() as int) =~= attrs@);
    }
}

/// Appends one handler declaration, or nothing when no handler is declared.
fn append_handler(out: &mut String, event_attr: &str, handler: Option<u32>)
    ensures
        final(out)@ =~= old(out)@ + handler_markup(event_attr@, handler),
{
    match handler {
        Some(h) => {
            out.append(" ");
            out.append(event_attr);
            out.append("=\"call_wasm_fn_ptr(this.value, ");
            let text = u32_to_string(h);
            out.append(text.as_str());
            out.append(")\"");
            proof {
                reveal_strlit(" ");
                reveal_strlit("=\"call_wasm_fn_ptr(this.value, ");
                reveal_strlit(")\"");
            }
        }
        None => {}
    }
}

/// Names a pass state: a matching aid for the existentials over the
/// intermediate states of a re-render pass.
pub open spec fn pass_state(s: PersistentState) -> bool {
    true
}

/// Names one step's emission: a matching aid beside [`pass_state`].
pub open spec fn emitted_step(e: Option<String>) -> bool {
    true
}

/// What one re-render step does, as [`PersistentState::rebuild_node`]
/// ensures it: a pending id whose builder record is gone is skipped with no
/// emission and no change; one still built is rebuilt and its updated
/// serialization emitted.
pub open spec fn rebuild_step(
    pre: PersistentState,
    dom_id: u32,
    fuel: nat,
    post: PersistentState,
    emitted: Option<String>,
) -> bool {
    &&& post.to_re_render == pre.to_re_render
    &&& !pre.builders@.dom().contains(dom_id) ==> emitted is None && post == pre
    &&& pre.builders@.dom().contains(dom_id) ==> (emitted matches Some(html) && html@ == markup(
        post.builders@,
        post.built_nodes@,
        dom_id,
        fuel,
    ))
}

/// What a re-render pass does for a drained id list: one
/// [`rebuild_step`] per id, left to right, the emissions collected in
/// order.
pub open spec fn rerender_steps(
    pre: PersistentState,
    ids: Seq<u32>,
    post: PersistentState,
    emitted: Seq<(u32, String)>,
    fuel: nat,
) -> bool
    decreases ids.len(),
{
    if ids.len() == 0 {
        post == pre && emitted.len() == 0
    } else {
        exists|mid: PersistentState, e1: Option<String>|
            #![trigger pass_state(mid), emitted_step(e1)]
            {
                &&& pass_state(mid)
                &&& emitted_step(e1)
                &&& rebuild_step(pre, ids[0], fuel, mid, e1)
                &&& match e1 {
                    Some(html) => emitted.len() > 0 && emitted[0] == (ids[0], html)
                        && rerender_steps(mid, ids.skip(1), post, emitted.skip(1), fuel),
                    None => rerender_steps(mid, ids.skip(1), post, emitted, fuel),
                }
            }
    }
}

/// One more step extends a pass over the ids before it.
proof fn lemma_rerender_steps_snoc(
    pre: PersistentState,
    ids: Seq<u32>,
    id: u32,
    mid: PersistentState,
    post: PersistentState,
    emitted: Seq<(u32, String)>,
    e1: Option<String>,
    fuel: nat,
)
    requires
        rerender_steps(pre, ids, mid, emitted, fuel),
        rebuild_step(mid, id, fuel, post, e1),
    ensures
        rerender_steps(
            pre,
            ids.push(id),
            post,
            match e1 {
                Some(html) => emitted.push((id, html)),
                None => emitted,
            },
            fuel,
        ),
    decreases ids.len(),
{
    let pushed = ids.push(id);
    let emitted1 = match e1 {
        Some(html) => emitted.push((id, html)),
        None => emitted,
    };
    assert(pushed.len() > 0);
    if ids.len() == 0 {
        assert(pushed[0] == id);
        assert(pushed.skip(1) =~= Seq::<u32>::empty());
        assert(mid == pre && emitted.len() == 0);
        assert(pass_state(post));
        assert(emitted_step(e1));
        match e1 {
            Some(html) => {
                assert(emitted1 =~= seq![(id, html)]);
                assert(emitted1[0] == (pushed[0], html));
                assert(emitted1.skip(1) =~= Seq::<(u32, String)>::empty());
                assert(rerender_steps(post, pushed.skip(1), post, emitted1.skip(1), fuel));
            }
            None => {
                assert(rerender_steps(post, pushed.skip(1), post, emitted1, fuel));
            }
        }
        assert(rerender_steps(pre, pushed, post, emitted1, fuel));
    } else {
        let (m0, h0) = choose|m0: PersistentState, h0: Option<String>|
            #![trigger pass_state(m0), emitted_step(h0)]
            {
                &&& pass_state(m0)
                &&& emitted_step(h0)
                &&& rebuild_step(pre, ids[0], fuel, m0, h0)
                &&& match h0 {
                    Some(html) => emitted.len() > 0 && emitted[0] == (ids[0], html)
                        && rerender_steps(m0, ids.skip(1), mid, emitted.skip(1), fuel),
                    None => rerender_steps(m0, ids.skip(1), mid, emitted, fuel),
                }
            };
        assert(pushed[0] == ids[0]);
        assert(pushed.skip(1) =~= ids.skip(1).push(id));
        match h0 {
            Some(html) => {
                lemma_rerender_steps_snoc(
                    m0,
                    ids.skip(1),
                    id,
                    mid,
                    post,
                    emitted.skip(1),
                    e1,
                    fuel,
                );
                assert(emitted1.len() > 0 && emitted1[0] == (pushed[0], html));
                match e1 {
                    Some(h2) => {
                        assert(emitted1.skip(1) =~= emitted.skip(1).push((id, h2)));
                        assert(rerender_steps(
                            m0,
                            pushed.skip(1),
                            post,
                            emitted1.skip(1),
                            fuel,
                        ));
                    }
                    None => {
                        assert(emitted1.skip(1) =~= emitted.skip(1));
                        assert(rerender_steps(
                            m0,
                            pushed.skip(1),
                            post,
                            emitted1.skip(1),
                            fuel,
                        ));
                    }
                }
                assert(pass_state(m0));
                assert(emitted_step(h0));
                assert(rerender_steps(pre, pushed, post, emitted1, fuel));
            }
            None => {
                lemma_rerender_steps_snoc(m0, ids.skip(1), id, mid, post, emitted, e1, fuel);
                assert(rerender_steps(m0, pushed.skip(1), post, emitted1, fuel));
                assert(pass_state(m0));
                assert(emitted_step(h0));
                assert(rerender_steps(pre, pushed, post, emitted1, fuel));
            }
        }
    }
}

impl PersistentState {
    /// Rebuilds the one node `dom_id`: discards its previous built record
    /// and — recursively — every descendant's built and builder records,
    /// re-invokes its constructor with the node marked as currently
    /// rendering, records what it produced, and emits the node's updated
    /// serialization.
    ///
    /// When `dom_id` has no builder record — an ancestor's rebuild in the
    /// same pass already removed it — nothing is done and nothing is
    /// emitted: rebuilding an ancestor makes descendant rebuilds redundant
    /// and they must not double-apply.
    pub fn rebuild_node<C: Components>(&mut self, comp: &mut C, dom_id: u32, fuel: u32) -> (r:
        Option<String>)
        requires
            old(self).wf(),
        ensures
            final(self).wf(),
            final(self).to_re_render == old(self).to_re_render,
            !old(self).builders@.dom().contains(dom_id) ==> r is None && *final(self) == *old(
                self,
            ),
            old(self).builders@.dom().contains(dom_id) ==> match r {
                Some(html) => html@ =~= markup(
                    final(self).builders@,
                    final(self).built_nodes@,
                    dom_id,
                    fuel as nat,
                ),
                None => false,
            },
            // what the rebuild did to the record tables, by the node's body
            old(self).builders@.dom().contains(dom_id) ==> (match old(self).builders@[dom_id].body {
                Some(DomNodeUnbuiltBody::Text(tx)) => final(self).builders@ == old(self).builders@ && final(self).built_nodes@.dom().contains(dom_id) && final(self).built_nodes@[dom_id].id == dom_id && (final(self).built_nodes@[dom_id].body
                    matches DomNodeBuiltBody::Text(s) && s@ == tx@) && final(self).built_nodes@
                    == old(self).built_nodes@.insert(dom_id, final(self).built_nodes@[dom_id]),
                Some(DomNodeUnbuiltBody::Constructor(_)) => {
                    // the stale subtree was discarded — root and, per the
                    // discard closure, every descendant record — and the
                    // constructor's output was built over the discarded
                    // state, its roots recorded under the node
                    &&& final(self).built_nodes@.dom().contains(dom_id)
                    &&& final(self).built_nodes@[dom_id].id == dom_id
                    &&& final(self).built_nodes@[dom_id].body matches DomNodeBuiltBody::Nodes(_)
                    &&& exists|
                        bm: Map<u32, DomNodeUnbuilt>,
                        tm: Map<u32, DomNodeBuilt>,
                        bb: Map<u32, DomNodeUnbuilt>,
                        tb: Map<u32, DomNodeBuilt>,
                    |
                        #![trigger record_tables(bm, tm), record_tables(bb, tb)]
                        {
                            &&& record_tables(bm, tm)
                            &&& record_tables(bb, tb)
                            &&& bm.submap_of(old(self).builders@.remove(dom_id))
                            &&& tm.submap_of(old(self).built_nodes@)
                            &&& !tm.dom().contains(dom_id)
                            &&& discard_closed(old(self).built_nodes@, tm, bm)
                            &&& subtree_built(
                                bm,
                                tm,
                                bb,
                                tb,
                                built_children(final(self).built_nodes@[dom_id]),
                                true,
                                fuel as nat,
                            )
                            &&& final(self).builders@ == bb.insert(
                                dom_id,
                                old(self).builders@[dom_id],
                            )
                            &&& final(self).built_nodes@ == tb.insert(
                                dom_id,
                                final(self).built_nodes@[dom_id],
                            )
                        }
                },
                None => final(self).builders@ == old(self).builders@ && final(self).built_nodes@ == old(self).built_nodes@,
            }),
    {
        match self.builders.remove(dom_id) {
            None => None,
            Some(node) => {
                match &node.body {
                    Some(DomNodeUnbuiltBody::Text(text)) => {
                        let body_text = text.clone();
                        let ghost body_ghost = body_text;
                        self.built_nodes.insert(
                            dom_id,
                            DomNodeBuilt { id: dom_id, body: DomNodeBuiltBody::Text(body_text) },
                        );
                        proof {
                            assert(body_ghost@ == old(self).builders@[dom_id].body->Some_0->Text_0@);
                        }
                    }
                    Some(DomNodeUnbuiltBody::Constructor(ctor)) => {
                        let ctor = *ctor;
                        self.ids.set_current_dom_id(dom_id);
                        discard_subtree(&mut self.builders, &mut self.built_nodes, dom_id);
                        let ghost bm = self.builders@;
                        let ghost tm = self.built_nodes@;
                        let builder = comp.construct(ctor, &mut self.ids);
                        let ghost sub = builder.children@;
                        let child_body = builder.build(
                            comp,
                            &mut self.ids,
                            &mut self.builders,
                            &mut self.built_nodes,
                            true,
                            fuel,
                        );
                        self.ids.set_current_dom_id(0);
                        let ghost bb = self.builders@;
                        let ghost tb = self.built_nodes@;
                        let ghost out = child_body@;
                        self.built_nodes.insert(
                            dom_id,
                            DomNodeBuilt { id: dom_id, body: DomNodeBuiltBody::Nodes(child_body) },
                        );
                        proof {
                            assert(record_tables(bm, tm));
                            assert(record_tables(bb, tb));
                            assert(crate::dom::child_ids(sub) == out);
                            assert(subtree_built(bm, tm, bb, tb, out, true, fuel as nat));
                            assert(self.built_nodes@[dom_id].body == DomNodeBuiltBody::Nodes(
                                child_body,
                            ));
                            assert(built_children(self.built_nodes@[dom_id]) == out);
                        }
                    }
                    None => {}
                }
                self.builders.insert(dom_id, node);
                proof {
                    if !(old(self).builders@[dom_id].body matches Some(
                        DomNodeUnbuiltBody::Constructor(_),
                    )) {
                        assert(self.builders@ =~= old(self).builders@);
                    }
                }
                Some(self.render(dom_id, fuel))
            }
        }
    }

    /// Drains the dirty set, in insertion order, and performs one
    /// [`PersistentState::rebuild_node`] step per drained id: each id that
    /// still has a builder record is rebuilt and its `(node id, markup)`
    /// emission collected, in order; the rest are skipped.
    #[verifier::loop_isolation(false)]
    pub fn rerender_dirty<C: Components>(&mut self, comp: &mut C, fuel: u32) -> (r: Vec<
        (u32, String),
    >)
        requires
            old(self).wf(),
        ensures
            final(self).wf(),
            final(self).to_re_render@ =~= Seq::<u32>::empty(),
            forall|k: int| 0 <= k < r@.len()
                ==> old(self).to_re_render@.contains((#[trigger] r@[k]).0),
            // the pass is the drained ids' rebuild steps, from the drained
            // state, with the emissions collected in order
            exists|start: PersistentState|
                #![trigger pass_state(start)]
                {
                    &&& pass_state(start)
                    &&& start.builders == old(self).builders
                    &&& start.built_nodes == old(self).built_nodes
                    &&& start.ids == old(self).ids
                    &&& start.to_re_render@ =~= Seq::<u32>::empty()
                    &&& rerender_steps(
                        start,
                        old(self).to_re_render@,
                        *final(self),
                        r@,
                        fuel as nat,
                    )
                },
    {
        let dirty = self.to_re_render.drain();
        let ghost start = *self;
        let mut out: Vec<(u32, String)> = Vec::new();
        let mut i: usize = 0;
        proof {
            assert(dirty@.take(0) =~= Seq::<u32>::empty());
            assert(rerender_steps(start, dirty@.take(0), *self, out@, fuel as nat));
        }
        while i < dirty.len()
            invariant
                0 <= i <= dirty@.len(),
                self.wf(),
                self.to_re_render@ =~= Seq::<u32>::empty(),
                forall|k: int| 0 <= k < out@.len()
                    ==> dirty@.contains((#[trigger] out@[k]).0),
                rerender_steps(start, dirty@.take(i as int), *self, out@, fuel as nat),
            decreases dirty@.len() - i,
        {
            let dom_id = dirty[i];
            let ghost pre_step = *self;
            let ghost out_pre = out@;
            let step = self.rebuild_node(comp, dom_id, fuel);
            let ghost e1 = step;
            match step {
                Some(html) => {
                    out.push((dom_id, html));
                }
                None => {}
            }
            proof {
                assert(rebuild_step(pre_step, dom_id, fuel as nat, *self, e1));
                lemma_rerender_steps_snoc(
                    start,
                    dirty@.take(i as int),
                    dom_id,
                    pre_step,
                    *self,
                    out_pre,
                    e1,
                    fuel as nat,
                );
                assert(dirty@.take(i + 1) =~= dirty@.take(i as int).push(dom_id));
            }
            i += 1;
        }
        proof {
            assert(dirty@.take(dirty@.len() as int) =~= dirty@);
            assert(pass_state(start));
        }
        out
    }
}

/// The children ids of a built record: empty for a text body.
pub open spec fn built_children(rec: DomNodeBuilt) -> Seq<u32> {
    match rec.body {
        DomNodeBuiltBody::Text(_) => Seq::<u32>::empty(),
        DomNodeBuiltBody::Nodes(ns) => ns@,
    }
}

/// Whether `n` is a strict descendant of `root` in `built`, reached within
/// `depth` child edges.  Child edges lead to larger ids: nodes are assigned
/// ids monotonically, so a well-formed built tree only points downward to
/// later-created children, and the discard pass follows only such edges.
pub open spec fn descendant_of(
    built: Map<u32, DomNodeBuilt>,
    root: u32,
    n: u32,
    depth: nat,
) -> bool
    decreases depth,
{
    &&& depth > 0
    &&& built.dom().contains(root)
    &&& exists|i: int|
        {
            &&& 0 <= i < built_children(built[root]).len()
            &&& (#[trigger] built_children(built[root])[i]) > root
            &&& (built_children(built[root])[i] == n || descendant_of(
                built,
                built_children(built[root])[i],
                n,
                (depth - 1) as nat,
            ))
        }
}

/// Discard closure: whenever the pass removed a built record, it also
/// removed the built and builder records of every child that record named.
pub open spec fn discard_closed(
    before: Map<u32, DomNodeBuilt>,
    after_built: Map<u32, DomNodeBuilt>,
    after_builders: Map<u32, DomNodeUnbuilt>,
) -> bool {
    forall|x: u32, i: int|
        #![trigger built_children(before[x])[i]]
        before.dom().contains(x) && !after_built.dom().contains(x) && 0 <= i < built_children(
            before[x],
        ).len() && built_children(before[x])[i] > x
            ==> !after_built.dom().contains(built_children(before[x])[i])
                && !after_builders.dom().contains(built_children(before[x])[i])
}

/// Removes the built and builder records of `root` and, recursively, of
/// every descendant its built record names, so that no record of a stale
/// subtree survives an ancestor's rebuild.
#[verifier::loop_isolation(false)]
fn discard_subtree(
    builders: &mut IdMap<DomNodeUnbuilt>,
    built_nodes: &mut IdMap<DomNodeBuilt>,
    root: u32,
)
    requires
        old(builders).wf(),
        old(built_nodes).wf(),
    ensures
        final(builders).wf(),
        final(built_nodes).wf(),
        final(builders)@.submap_of(old(builders)@),
        final(built_nodes)@.submap_of(old(built_nodes)@),
        !final(builders)@.dom().contains(root),
        !final(built_nodes)@.dom().contains(root),
        discard_closed(old(built_nodes)@, final(built_nodes)@, final(builders)@),
    decreases u32::MAX - root,
{
    builders.remove(root);
    let rec = built_nodes.remove(root);
    proof {
        assert(builders@.submap_of(old(builders)@)) by {
            assert(builders@ == old(builders)@.remove(root));
        }
        assert(built_nodes@.submap_of(old(built_nodes)@)) by {
            assert(built_nodes@ == old(built_nodes)@.remove(root));
        }
    }
    match rec {
        None => {
            proof {
                assert(discard_closed(old(built_nodes)@, built_nodes@, builders@)) by {
                    assert(forall|x: u32| old(built_nodes)@.dom().contains(x)
                        && !built_nodes@.dom().contains(x) ==> x == root);
                }
            }
        }
        Some(rec) => {
            match rec.body {
                DomNodeBuiltBody::Text(_) => {
                    proof {
                        assert(discard_closed(old(built_nodes)@, built_nodes@, builders@)) by {
                            assert(forall|x: u32| old(built_nodes)@.dom().contains(x)
                                && !built_nodes@.dom().contains(x) ==> x == root);
                            assert(built_children(old(built_nodes)@[root]).len() == 0);
                        }
                    }
                }
                DomNodeBuiltBody::Nodes(children) => {
                    let ghost cs = children@;
                    proof {
                        assert(old(built_nodes)@[root] == rec);
                        assert(built_children(old(built_nodes)@[root]) == cs);
                    }
                    let mut k: usize = 0;
                    while k < children.len()
                        invariant
                            0 <= k <= cs.len(),
                            children@ == cs,
                            builders.wf(),
                            built_nodes.wf(),
                            builders@.submap_of(old(builders)@),
                            built_nodes@.submap_of(old(built_nodes)@),
                            !builders@.dom().contains(root),
                            !built_nodes@.dom().contains(root),
                            forall|x: u32, i: int|
                                #![trigger built_children(old(built_nodes)@[x])[i]]
                                old(built_nodes)@.dom().contains(x)
                                    && !built_nodes@.dom().contains(x)
                                    && 0 <= i < built_children(old(built_nodes)@[x]).len()
                                    && built_children(old(built_nodes)@[x])[i] > x
                                    ==> (!built_nodes@.dom().contains(
                                        built_children(old(built_nodes)@[x])[i],
                                    ) && !builders@.dom().contains(
                                        built_children(old(built_nodes)@[x])[i],
                                    )) || (x == root && i >= k),
                        decreases cs.len() - k,
                    {
                        let ghost bt_mid = built_nodes@;
                        let ghost b_mid = builders@;
                        let child = children[k];
                        if child > root {
                            discard_subtree(builders, built_nodes, child);
                            proof {
                                lemma_submap_trans(builders@, b_mid, old(builders)@);
                                lemma_submap_trans(built_nodes@, bt_mid, old(built_nodes)@);
                            }
                        }
                        proof {
                            let ghost bt_new = built_nodes@;
                            let ghost b_new = builders@;
                            assert forall|x: u32, i: int|
                                old(built_nodes)@.dom().contains(x)
                                    && !bt_new.dom().contains(x)
                                    && 0 <= i < built_children(old(built_nodes)@[x]).len()
                                    && (#[trigger] built_children(old(built_nodes)@[x])[i]) > x
                                implies (!bt_new.dom().contains(
                                    built_children(old(built_nodes)@[x])[i],
                                ) && !b_new.dom().contains(
                                    built_children(old(built_nodes)@[x])[i],
                                )) || (x == root && i >= k + 1) by {
                                let ch = built_children(old(built_nodes)@[x])[i];
                                if bt_mid.dom().contains(x) {
                                    // removed by this iteration's recursive discard
                                    assert(child > root);
                                    assert(bt_mid[x] == old(built_nodes)@[x]);
                                    assert(built_children(bt_mid[x])[i] == ch);
                                    assert(!bt_new.dom().contains(ch) && !b_new.dom().contains(
                                        ch,
                                    ));
                                } else {
                                    // removed in an earlier iteration (or root itself)
                                    if x == root && i == k {
                                        if child > root {
                                            assert(ch == child);
                                            assert(!bt_new.dom().contains(ch)
                                                && !b_new.dom().contains(ch));
                                        } else {
                                            assert(ch == child && ch > x);
                                            assert(false);
                                        }
                                    } else if !(x == root && i >= k) {
                                        assert(!bt_mid.dom().contains(ch)
                                            && !b_mid.dom().contains(ch));
                                        assert(!bt_new.dom().contains(ch)
                                            && !b_new.dom().contains(ch));
                                    }
                                }
                            }
                        }
                        k += 1;
                    }
                    proof {
                        assert(discard_closed(old(built_nodes)@, built_nodes@, builders@)) by {
                            assert(forall|x: u32, i: int|
                                old(built_nodes)@.dom().contains(x)
                                    && !built_nodes@.dom().contains(x)
                                    && 0 <= i < built_children(old(built_nodes)@[x]).len()
                                    && (#[trigger] built_children(old(built_nodes)@[x])[i]) > x
                                    ==> !built_nodes@.dom().contains(
                                        built_children(old(built_nodes)@[x])[i],
                                    ) && !builders@.dom().contains(
                                        built_children(old(built_nodes)@[x])[i],
                                    ));
                        }
                    }
                }
            }
        }
    }
}

/// Submaps compose.
proof fn lemma_submap_trans<V>(a: Map<u32, V>, b: Map<u32, V>, c: Map<u32, V>)
    requires
        a.submap_of(b),
        b.submap_of(c),
    ensures
        a.submap_of(c),
{
    vstd::map_lib::lemma_submap_of_trans(a, b, c);
}

/// Rebuild isolation: after a discard pass rooted at `root` — one that
/// removed `root` and satisfies the discard closure — no descendant of
/// `root` keeps a built or builder record.
pub proof fn lemma_rebuild_isolation(
    before_built: Map<u32, DomNodeBuilt>,
    after_built: Map<u32, DomNodeBuilt>,
    after_builders: Map<u32, DomNodeUnbuilt>,
    root: u32,
    n: u32,
    depth: nat,
)
    requires
        discard_closed(before_built, after_built, after_builders),
        !after_built.dom().contains(root),
        !after_builders.dom().contains(root),
        n == root || descendant_of(before_built, root, n, depth),
    ensures
        !after_built.dom().contains(n),
        !after_builders.dom().contains(n),
    decreases depth,
{
    if n != root {
        let i = choose|i: int|
            {
                &&& 0 <= i < built_children(before_built[root]).len()
                &&& (#[trigger] built_children(before_built[root])[i]) > root
                &&& (built_children(before_built[root])[i] == n || descendant_of(
                    before_built,
                    built_children(before_built[root])[i],
                    n,
                    (depth - 1) as nat,
                ))
            };
        let c = built_children(before_built[root])[i];
        assert(!after_built.dom().contains(c) && !after_builders.dom().contains(c));
        if c != n {
            lemma_rebuild_isolation(
                before_built,
                after_built,
                after_builders,
                c,
                n,
                (depth - 1) as nat,
            );
        }
    }
}

/// The result a rendering entry point hands to its embedder.
pub struct RenderResult {
    pub html: String,
}

impl From<String> for RenderResult {
    fn from(s: String) -> (r: RenderResult) {
        RenderResult { html: s }
    }
}

impl vstd::std_specs::convert::FromSpecImpl<String> for RenderResult {
    open spec fn obeys_from_spec() -> bool {
        true
    }

    open spec fn from_spec(s: String) -> RenderResult {
        RenderResult { html: s }
    }
}

/// A stateful value persisted in the client-local durable string store: its
/// mirror is re-hydrated from the store at subscription time and echoed
/// back to the server whenever the change callback fires.
pub trait CookieEvent {
    /// The store key, at the specification level.
    spec fn cookie_name_spec() -> Seq<char>;

    fn cookie_name() -> (r: &'static str)
        ensures
            r@ == Self::cookie_name_spec(),
    ;
}

/// A decoded update payload: a whole Single replacement, or a Multiple
/// delta of `(key, value)` pairs, each value carried as its wire text.
pub enum UpdatePayload {
    Single(String),
    Multiple(Vec<(u32, String)>),
}

/// One named mirror in the per-session subscription table.
pub enum SubscriptionMirror {
    Single(StateEvent<String, IsSingleValue>),
    Multiple(StateEvent<Vec<String>, IsMultipleValue>),
}

impl SubscriptionMirror {
    /// The name of the stateful value this mirror watches.
    pub open spec fn name_of(&self) -> Seq<char> {
        match self {
            SubscriptionMirror::Single(e) => e.state_key@,
            SubscriptionMirror::Multiple(e) => e.state_key@,
        }
    }

    pub open spec fn wf(&self) -> bool {
        match self {
            SubscriptionMirror::Single(e) => e.wf(),
            SubscriptionMirror::Multiple(e) => e.wf() && e.cached()@.len() <= u32::MAX as int
                + 1,
        }
    }

    /// The mirror's change-callback token, if one is declared.
    pub open spec fn on_update_of(&self) -> Option<u32> {
        match self {
            SubscriptionMirror::Single(e) => e.data.inner.value_spec().on_update,
            SubscriptionMirror::Multiple(e) => e.data.inner.value_spec().on_update,
        }
    }

    /// The mirror's unkeyed dependents.
    pub open spec fn deps_of(&self) -> Seq<u32> {
        match self {
            SubscriptionMirror::Single(e) => e.data.inner.deps(),
            SubscriptionMirror::Multiple(e) => e.data.inner.deps(),
        }
    }

    fn name_str(&self) -> (r: &String)
        ensures
            r@ == self.name_of(),
    {
        match self {
            SubscriptionMirror::Single(e) => &e.state_key,
            SubscriptionMirror::Multiple(e) => &e.state_key,
        }
    }
}

/// What dispatching one update to the one mirror whose name it carries
/// leaves behind: a payload of the mirror's shape is applied — wholesale for
/// a Single mirror, pair by pair for a Multiple one — its dependents are
/// marked dirty, and the mirror's change-callback token is reported;
/// a payload of the other shape is dropped and nothing is reported.
pub open spec fn mirror_applied(
    before: SubscriptionMirror,
    after: SubscriptionMirror,
    payload: UpdatePayload,
    dirty_after: Seq<u32>,
    fired: Option<u32>,
) -> bool {
    match (before, after, payload) {
        (
            SubscriptionMirror::Single(m0),
            SubscriptionMirror::Single(m1),
            UpdatePayload::Single(v),
        ) => {
            &&& m1.cached()@ == v@
            &&& m1.data.inner.value_spec().on_update == m0.data.inner.value_spec().on_update
            &&& m1.data.inner.deps() == m0.data.inner.deps()
            &&& m1.data.inner.keyed_deps() == m0.data.inner.keyed_deps()
            &&& forall|n: u32| m0.data.inner.deps().contains(n) ==> dirty_after.contains(n)
            &&& fired == m0.data.inner.value_spec().on_update
        },
        (
            SubscriptionMirror::Multiple(m0),
            SubscriptionMirror::Multiple(m1),
            UpdatePayload::Multiple(pairs),
        ) => {
            &&& exists|ps: Seq<(u32, String)>|
                #[trigger] crate::state::pair_views(ps) == crate::state::pair_views(pairs@)
                    && crate::state::apply_pairs_spec(m0.cached()@, ps, m1.cached()@)
            &&& m1.data.inner.value_spec().on_update == m0.data.inner.value_spec().on_update
            &&& m1.data.inner.deps() == m0.data.inner.deps()
            &&& m1.data.inner.keyed_deps() == m0.data.inner.keyed_deps()
            &&& forall|n: u32| m0.data.inner.deps().contains(n) ==> dirty_after.contains(n)
            &&& forall|k: u32, n: u32|
                #[trigger] m0.data.inner.keyed_dep_of(k, n) && crate::state::pair_keys(
                    pairs@,
                ).contains(k) ==> dirty_after.contains(n)
            &&& fired == m0.data.inner.value_spec().on_update
        },
        _ => after == before && fired is None,
    }
}

/// The mirror a first subscription creates: named, empty, with no
/// dependents and no change callback.  Stated as a predicate — the mirror
/// holds owned collections that a specification cannot construct.
pub open spec fn mirror_matches_fresh(m: SubscriptionMirror, name: Seq<char>, multiple: bool) -> bool {
    if multiple {
        m matches SubscriptionMirror::Multiple(e) && e.state_key@ == name && e.cached()@
            =~= Seq::<String>::empty() && e.data.inner.value_spec().on_update is None
            && e.data.inner.deps() =~= Seq::<u32>::empty() && e.data.inner.keyed_deps()
            =~= Seq::<(u32, u32)>::empty()
    } else {
        m matches SubscriptionMirror::Single(e) && e.state_key@ == name && e.cached()@
            =~= Seq::<char>::empty() && e.data.inner.value_spec().on_update is None
            && e.data.inner.deps() =~= Seq::<u32>::empty() && e.data.inner.keyed_deps()
            =~= Seq::<(u32, u32)>::empty()
    }
}

/// What hydrating a cookie-backed mirror leaves behind: the change callback
/// is declared, and a stored payload of the mirror's shape has been applied
/// to it, with its dependents marked dirty; a stored payload of the other
/// shape — or none — leaves the cached copy as the subscription made it.
pub open spec fn hydrated_ok(
    before: SubscriptionMirror,
    after: SubscriptionMirror,
    handler: u32,
    stored: Option<UpdatePayload>,
    dirty_after: Seq<u32>,
) -> bool {
    match (before, after) {
        (SubscriptionMirror::Single(m0), SubscriptionMirror::Single(m1)) => {
            &&& m1.state_key == m0.state_key
            &&& m1.data.inner.value_spec().on_update == Some(handler)
            &&& m1.data.inner.deps() == m0.data.inner.deps()
            &&& m1.data.inner.keyed_deps() == m0.data.inner.keyed_deps()
            &&& match stored {
                Some(UpdatePayload::Single(v)) => m1.cached() == v && (forall|n: u32|
                    m0.data.inner.deps().contains(n) ==> dirty_after.contains(n)),
                _ => m1.cached() == m0.cached(),
            }
        },
        (SubscriptionMirror::Multiple(m0), SubscriptionMirror::Multiple(m1)) => {
            &&& m1.state_key == m0.state_key
            &&& m1.data.inner.value_spec().on_update == Some(handler)
            &&& m1.data.inner.deps() == m0.data.inner.deps()
            &&& m1.data.inner.keyed_deps() == m0.data.inner.keyed_deps()
            &&& match stored {
                Some(UpdatePayload::Multiple(pairs)) => crate::state::apply_pairs_spec(
                    m0.cached()@,
                    pairs@,
                    m1.cached()@,
                ) && (forall|n: u32| m0.data.inner.deps().contains(n) ==> dirty_after.contains(
                    n,
                )) && (forall|k: u32, n: u32|
                    #[trigger] m0.data.inner.keyed_dep_of(k, n) && crate::state::pair_keys(
                        pairs@,
                    ).contains(k) ==> dirty_after.contains(n)),
                _ => m1.cached() == m0.cached(),
            }
        },
        _ => false,
    }
}

/// The index of the first entry named `name`, or -1.
pub open spec fn find_name(names: Seq<Seq<char>>, name: Seq<char>) -> int
    decreases names.len(),
{
    if names.len() == 0 {
        -1
    } else if names[0] == name {
        0
    } else {
        let rest = find_name(names.skip(1), name);
        if rest < 0 {
            -1
        } else {
            rest + 1
        }
    }
}

/// What subscribing to `name` does to the subscribed names: an already
/// subscribed name is left alone and answered with its existing mirror; a
/// fresh name is appended and a request for full state goes out.  The
/// result: whether a request is sent, the mirror's index, and the names
/// afterwards.
pub open spec fn subscribe_spec(names: Seq<Seq<char>>, name: Seq<char>) -> (
    bool,
    int,
    Seq<Seq<char>>,
) {
    let at = find_name(names, name);
    if at >= 0 {
        (false, at, names)
    } else {
        (true, names.len() as int, names.push(name))
    }
}

/// Idempotent subscription: subscribing twice to the same named value
/// yields one request-full-state message and one shared mirror — the second
/// subscription sends nothing, changes nothing, and answers with the same
/// mirror as the first.
pub proof fn lemma_subscription_idempotent(names: Seq<Seq<char>>, name: Seq<char>)
    ensures
        ({
            let (req1, i1, names1) = subscribe_spec(names, name);
            let (req2, i2, names2) = subscribe_spec(names1, name);
            !req2 && names2 == names1 && i2 == i1
        }),
{
    let (req1, i1, names1) = subscribe_spec(names, name);
    if find_name(names, name) >= 0 {
        lemma_find_name_found(names, name);
    } else {
        lemma_find_name_push(names, name);
    }
}

/// A found index points at the name, and searching again finds it again.
proof fn lemma_find_name_found(names: Seq<Seq<char>>, name: Seq<char>)
    requires
        find_name(names, name) >= 0,
    ensures
        0 <= find_name(names, name) < names.len(),
        names[find_name(names, name)] == name,
    decreases names.len(),
{
    if names.len() > 0 && names[0] != name {
        lemma_find_name_push_helper(names, name);
        lemma_find_name_found(names.skip(1), name);
    }
}

/// Appending a fresh name puts its first occurrence at the end.
proof fn lemma_find_name_push(names: Seq<Seq<char>>, name: Seq<char>)
    requires
        find_name(names, name) < 0,
    ensures
        find_name(names.push(name), name) == names.len(),
    decreases names.len(),
{
    let pushed = names.push(name);
    if names.len() == 0 {
        assert(pushed[0] == name);
    } else {
        assert(pushed[0] == names[0]);
        assert(names[0] != name);
        assert(pushed.skip(1) =~= names.skip(1).push(name));
        lemma_find_name_push(names.skip(1), name);
    }
}

/// Skipping the head shifts a search by one.
proof fn lemma_find_name_push_helper(names: Seq<Seq<char>>, name: Seq<char>)
    requires
        names.len() > 0,
        names[0] != name,
    ensures
        find_name(names, name) == if find_name(names.skip(1), name) < 0 {
            -1
        } else {
            find_name(names.skip(1), name) + 1
        },
{
}

/// The per-session subscription table: one shared mirror per stateful value
/// name, so repeat subscriptions from different call-sites share a mirror.
pub struct Subscriptions {
    pub entries: Vec<SubscriptionMirror>,
}

impl Subscriptions {
    /// The subscribed names, in subscription order.
    pub open spec fn names(&self) -> Seq<Seq<char>> {
        self.entries@.map_values(|m: SubscriptionMirror| m.name_of())
    }

    pub open spec fn wf(&self) -> bool {
        &&& forall|i: int| 0 <= i < self.entries@.len() ==> (#[trigger] self.entries@[i]).wf()
        &&& forall|i: int, j: int| 0 <= i < j < self.entries@.len()
            ==> (#[trigger] self.entries@[i]).name_of() != (#[trigger] self.entries@[j]).name_of()
    }

    pub fn new() -> (r: Subscriptions)
        ensures
            r.wf(),
            r.names() =~= Seq::<Seq<char>>::empty(),
    {
        Subscriptions { entries: Vec::new() }
    }

    /// Subscribes to the named value: the first subscription creates the
    /// mirror — Single or Multiple per `multiple` — and sends one *request
    /// full state* message; any repeat subscription returns the shared
    /// mirror's index and sends nothing.
    #[verifier::loop_isolation(false)]
    pub fn use_state_event(&mut self, name: String, multiple: bool) -> (r: (
        usize,
        Option<crate::server::ToServerEvent>,
    ))
        requires
            old(self).wf(),
        ensures
            final(self).wf(),
            ({
                let (requests, index, names_after) = subscribe_spec(old(self).names(), name@);
                &&& final(self).names() =~= names_after
                &&& r.0 == index
                &&& (r.1 is Some) == requests
                &&& match r.1 {
                    Some(e) => e matches crate::server::ToServerEvent::RequestFullState {
                        name: n,
                    } && n@ == name@,
                    None => true,
                }
                &&& !requests ==> *final(self) == *old(self)
                &&& requests ==> final(self).entries@.len() == old(self).entries@.len() + 1
                    && (forall|j: int| 0 <= j < old(self).entries@.len()
                        ==> final(self).entries@[j] == old(self).entries@[j])
                    && (multiple ==> (final(self).entries@.last() matches
                        SubscriptionMirror::Multiple(e) && e.cached()@ =~= Seq::<String>::empty()
                        && e.data.inner.value_spec().on_update is None
                        && e.data.inner.deps() =~= Seq::<u32>::empty()
                        && e.data.inner.keyed_deps() =~= Seq::<(u32, u32)>::empty()))
                    && (!multiple ==> (final(self).entries@.last() matches
                        SubscriptionMirror::Single(e) && e.cached()@ =~= Seq::<char>::empty()
                        && e.data.inner.value_spec().on_update is None
                        && e.data.inner.deps() =~= Seq::<u32>::empty()
                        && e.data.inner.keyed_deps() =~= Seq::<(u32, u32)>::empty()))
            }),
    {
        let mut i: usize = 0;
        while i < self.entries.len()
            invariant
                0 <= i <= self.entries@.len(),
                forall|k: int| 0 <= k < i ==> (#[trigger] self.entries@[k]).name_of() != name@,
                *self == *old(self),
            decreases self.entries@.len() - i,
        {
            let entry_name = self.entries[i].name_str();
            if *entry_name == name {
                proof {
                    assert(self.names()[i as int] == name@);
                    lemma_find_name_at(self.names(), name@, i as int);
                }
                return (i, None);
            }
            proof {
                assert(self.entries@[i as int].name_of() != name@);
            }
            i += 1;
        }
        proof {
            assert forall|k: int| 0 <= k < self.names().len()
                implies self.names()[k] != name@ by {
                assert(self.entries@[k].name_of() != name@);
            }
            lemma_find_name_missing(self.names(), name@);
        }
        let index = self.entries.len();
        let request = crate::server::ToServerEvent::RequestFullState { name: name.clone() };
        let mirror = if multiple {
            SubscriptionMirror::Multiple(
                StateEvent::new(name, Vec::new(), IsMultipleValue),
            )
        } else {
            SubscriptionMirror::Single(StateEvent::new(name, String::new(), IsSingleValue))
        };
        self.entries.push(mirror);
        proof {
            assert(self.names() =~= old(self).names().push(name@));
            assert forall|a: int, b: int| 0 <= a < b < self.entries@.len()
                implies (#[trigger] self.entries@[a]).name_of() != (
                #[trigger] self.entries@[b]).name_of() by {
                assert(self.entries@[a] == old(self).entries@[a]);
                if b < old(self).entries@.len() {
                    assert(self.entries@[b] == old(self).entries@[b]);
                } else {
                    assert(self.entries@[b].name_of() == name@);
                    assert(old(self).entries@[a].name_of() != name@);
                }
            }
        }
        (index, Some(request))
    }

    /// Subscribes to a cookie-backed value: the named value is subscribed
    /// as usual, its change callback is declared, and — when the durable
    /// store held a value of the mirror's shape — the stored payload is
    /// applied to the mirror before any network reply arrives, as an update
    /// tagged with the value's own name, with the dependents marked dirty.
    pub fn use_cookie(
        &mut self,
        name: String,
        multiple: bool,
        handler: u32,
        stored: Option<UpdatePayload>,
        to_re_render: &mut DirtySet,
    ) -> (r: (usize, Option<crate::server::ToServerEvent>))
        requires
            old(self).wf(),
            old(to_re_render).wf(),
        ensures
            final(self).wf(),
            final(to_re_render).wf(),
            r.0 < final(self).entries@.len(),
            (r.1 is Some) == subscribe_spec(old(self).names(), name@).0,
            r.0 == subscribe_spec(old(self).names(), name@).1,
            final(self).names() =~= subscribe_spec(old(self).names(), name@).2,
            forall|n: u32| old(to_re_render)@.contains(n) ==> final(to_re_render)@.contains(n),
            // entries other than the subscribed one are untouched
            forall|j: int| 0 <= j < old(self).entries@.len() && j != r.0
                ==> final(self).entries@[j] == old(self).entries@[j],
            // the callback is declared and the stored payload applied: the
            // final mirror is the subscription's mirror — the prior entry,
            // or a fresh one — hydrated with the stored payload
            ({
                let (requests, index, _) = subscribe_spec(old(self).names(), name@);
                exists|before: SubscriptionMirror|
                    {
                        &&& if requests {
                            mirror_matches_fresh(before, name@, multiple)
                        } else {
                            before == old(self).entries@[index]
                        }
                        &&& #[trigger] hydrated_ok(
                            before,
                            final(self).entries@[index],
                            handler,
                            stored,
                            final(to_re_render)@,
                        )
                    }
            }),
    {
        let ghost names0 = old(self).names();
        let (index, request) = self.use_state_event(name, multiple);
        proof {
            assert(0 <= index < self.entries@.len()) by {
                let (requests, at, _) = subscribe_spec(names0, name@);
                if !requests {
                    lemma_find_name_found(names0, name@);
                }
            }
            let (requests, at, _) = subscribe_spec(names0, name@);
            if requests {
                assert(self.entries@[index as int] == self.entries@.last());
                assert(self.names() =~= names0.push(name@));
                assert(self.names()[index as int] == name@);
                assert(self.entries@[index as int].name_of() == name@);
                assert(mirror_matches_fresh(self.entries@[index as int], name@, multiple));
            } else {
                assert(self.entries@[index as int] == old(self).entries@[index as int]);
            }
        }
        let ghost entries_mid = self.entries@;
        let ghost subscribed = self.entries@[index as int];
        let entry = vec_index_mut(&mut self.entries, index);
        match entry {
            SubscriptionMirror::Single(e) => {
                e.set_on_update(handler);
                match stored {
                    Some(UpdatePayload::Single(value)) => {
                        let tag = e.state_key.clone();
                        let ghost mirror_pre = e.data.inner.value_spec();
                        let ghost stored_value = value;
                        let applied = e.set(
                            StatefulClientEvent { state_key: tag, event: value },
                            to_re_render,
                        );
                        proof {
                            assert(applied);
                            let keys = choose|keys: Seq<u32>|
                                #[trigger] <StateInner<String, IsSingleValue> as InnerUpdate<
                                    String,
                                >>::apply_rel(
                                    mirror_pre,
                                    stored_value,
                                    e.data.inner.value_spec(),
                                    keys,
                                );
                            assert(e.cached() == stored_value);
                            assert(e.data.inner.value_spec().on_update == Some(handler));
                            let m0 = match subscribed {
                                SubscriptionMirror::Single(m) => m,
                                _ => arbitrary(),
                            };
                            assert forall|n: u32| m0.data.inner.deps().contains(n)
                                implies to_re_render@.contains(n) by {
                            }
                        }
                    }
                    _ => {}
                }
            }
            SubscriptionMirror::Multiple(e) => {
                e.set_on_update(handler);
                match stored {
                    Some(UpdatePayload::Multiple(pairs)) => {
                        proof {
                            lemma_apply_pre_holds(e);
                        }
                        let ghost mirror_pre = e.data.inner.value_spec();
                        let ghost pre_sig = e.data.inner;
                        let ghost pv = pairs;
                        let tag = e.state_key.clone();
                        let applied = e.set(
                            StatefulClientEvent { state_key: tag, event: pairs },
                            to_re_render,
                        );
                        proof {
                            assert(applied);
                            lemma_bound_preserved(mirror_pre, pv, e.data.inner.value_spec());
                            let keys = choose|keys: Seq<u32>|
                                {
                                    &&& #[trigger] <StateInner<
                                        Vec<String>,
                                        IsMultipleValue,
                                    > as InnerUpdate<Vec<(u32, String)>>>::apply_rel(
                                        mirror_pre,
                                        pv,
                                        e.data.inner.value_spec(),
                                        keys,
                                    )
                                    &&& forall|k: u32, n: u32|
                                        #[trigger] pre_sig.keyed_dep_of(k, n) && keys.contains(
                                            k,
                                        ) ==> to_re_render@.contains(n)
                                };
                            assert(keys =~= crate::state::pair_keys(pv@));
                            assert(e.data.inner.value_spec().on_update == Some(handler));
                            let m0 = match subscribed {
                                SubscriptionMirror::Multiple(m) => m,
                                _ => arbitrary(),
                            };
                            assert(m0.cached() == mirror_pre.inner);
                            assert(crate::state::apply_pairs_spec(
                                m0.cached()@,
                                pv@,
                                e.cached()@,
                            ));
                            assert forall|k: u32, n: u32|
                                #[trigger] m0.data.inner.keyed_dep_of(k, n)
                                    && crate::state::pair_keys(pv@).contains(k)
                                implies to_re_render@.contains(n) by {
                                assert(m0.data.inner.keyed_deps() == pre_sig.keyed_deps());
                                assert(pre_sig.keyed_dep_of(k, n));
                                assert(keys.contains(k));
                            }
                            assert forall|n: u32| m0.data.inner.deps().contains(n)
                                implies to_re_render@.contains(n) by {
                            }
                        }
                    }
                    _ => {}
                }
            }
        }
        proof {
            lemma_names_stable(entries_mid, self.entries@, index as int);
            assert(self.names() =~= subscribe_spec(names0, name@).2);
            assert(hydrated_ok(
                subscribed,
                self.entries@[index as int],
                handler,
                stored,
                to_re_render@,
            ));
        }
        (index, request)
    }

    /// Dispatches an incoming custom event to every subscription: the one
    /// mirror whose name matches applies the update per its shape and has
    /// its dependents marked dirty; every other mirror — and its dependents
    /// — is untouched.  Returns the applying mirror's change-callback token,
    /// for the embedder to fire.
    #[verifier::loop_isolation(false)]
    pub fn handle_custom_event(
        &mut self,
        state_key: &String,
        payload: &UpdatePayload,
        to_re_render: &mut DirtySet,
    ) -> (r: Option<u32>)
        requires
            old(self).wf(),
            old(to_re_render).wf(),
        ensures
            final(self).wf(),
            final(to_re_render).wf(),
            final(self).entries@.len() == old(self).entries@.len(),
            final(self).names() =~= old(self).names(),
            forall|n: u32| old(to_re_render)@.contains(n) ==> final(to_re_render)@.contains(n),
            // name isolation: an update never alters a mirror subscribed to
            // another name
            forall|i: int| 0 <= i < old(self).entries@.len()
                && (#[trigger] old(self).entries@[i]).name_of() != state_key@
                ==> final(self).entries@[i] == old(self).entries@[i],
            // the matching mirror — if one is subscribed — applies the update
            ({
                let at = find_name(old(self).names(), state_key@);
                &&& at < 0 ==> *final(to_re_render) == *old(to_re_render) && r is None
                &&& at >= 0 ==> mirror_applied(
                    old(self).entries@[at],
                    final(self).entries@[at],
                    *payload,
                    final(to_re_render)@,
                    r,
                )
            }),
    {
        let ghost at = find_name(old(self).names(), state_key@);
        proof {
            if at >= 0 {
                lemma_find_name_found(old(self).names(), state_key@);
                assert forall|k: int| 0 <= k < old(self).entries@.len() && k != at
                    implies (#[trigger] old(self).entries@[k]).name_of() != state_key@ by {
                    if old(self).entries@[k].name_of() == state_key@ {
                        assert(old(self).entries@[at].name_of() == state_key@);
                    }
                }
            } else {
                lemma_find_name_negative(old(self).names(), state_key@);
                assert forall|k: int| 0 <= k < old(self).entries@.len()
                    implies (#[trigger] old(self).entries@[k]).name_of() != state_key@ by {
                    assert(old(self).names()[k] == old(self).entries@[k].name_of());
                }
            }
        }
        let mut fired: Option<u32> = None;
        let mut i: usize = 0;
        while i < self.entries.len()
            invariant
                0 <= i <= self.entries@.len(),
                self.wf(),
                to_re_render.wf(),
                self.entries@.len() == old(self).entries@.len(),
                forall|k: int| 0 <= k < self.entries@.len()
                    ==> (#[trigger] self.entries@[k]).name_of() == old(
                    self,
                ).entries@[k].name_of(),
                forall|k: int| 0 <= k < old(self).entries@.len() && k != at
                    ==> self.entries@[k] == old(self).entries@[k],
                forall|n: u32| old(to_re_render)@.contains(n) ==> to_re_render@.contains(n),
                at >= i ==> self.entries@[at] == old(self).entries@[at],
                at < 0 || at >= i ==> *to_re_render == *old(to_re_render) && fired is None,
                0 <= at < i ==> mirror_applied(
                    old(self).entries@[at],
                    self.entries@[at],
                    *payload,
                    to_re_render@,
                    fired,
                ),
            decreases self.entries@.len() - i,
        {
            let ghost entries_mid = self.entries@;
            let ghost dirty_mid = *to_re_render;
            let ghost fired_mid = fired;
            let entry = vec_index_mut(&mut self.entries, i);
            let ghost before = *entry;
            match entry {
                SubscriptionMirror::Single(e) => {
                    match payload {
                        UpdatePayload::Single(value) => {
                            let ghost mirror_pre = e.data.inner.value_spec();
                            let ghost pre_sig = e.data.inner;
                            let tag = state_key.clone();
                            let body = value.clone();
                            let ghost body_ghost = body;
                            let applied = e.set(
                                StatefulClientEvent { state_key: tag, event: body },
                                to_re_render,
                            );
                            if applied {
                                fired = e.data.peek().on_update;
                            }
                            proof {
                                assert(applied == (state_key@ == before.name_of()));
                                if applied {
                                    assert(i as int == at);
                                    let keys = choose|keys: Seq<u32>|
                                        #[trigger] <StateInner<
                                            String,
                                            IsSingleValue,
                                        > as InnerUpdate<String>>::apply_rel(
                                            mirror_pre,
                                            body_ghost,
                                            e.data.inner.value_spec(),
                                            keys,
                                        );
                                    assert(e.cached() == body_ghost);
                                    assert(e.cached()@ == value@);
                                    let m0 = match before {
                                        SubscriptionMirror::Single(m) => m,
                                        _ => arbitrary(),
                                    };
                                    assert(m0.data.inner == pre_sig);
                                    assert(fired == m0.data.inner.value_spec().on_update);
                                    assert forall|n: u32| m0.data.inner.deps().contains(n)
                                        implies to_re_render@.contains(n) by {
                                        assert(pre_sig.deps().contains(n));
                                    }
                                }
                            }
                        }
                        UpdatePayload::Multiple(_) => {}
                    }
                }
                SubscriptionMirror::Multiple(e) => {
                    match payload {
                        UpdatePayload::Multiple(pairs) => {
                            proof {
                                lemma_apply_pre_holds(e);
                            }
                            let ghost mirror_pre = e.data.inner.value_spec();
                            let ghost pre_sig = e.data.inner;
                            let tag = state_key.clone();
                            let body = clone_pairs(pairs);
                            let ghost pv = body;
                            let applied = e.set(
                                StatefulClientEvent { state_key: tag, event: body },
                                to_re_render,
                            );
                            if applied {
                                fired = e.data.peek().on_update;
                            }
                            proof {
                                assert(applied == (state_key@ == before.name_of()));
                                if applied {
                                    assert(i as int == at);
                                    lemma_bound_preserved(
                                        mirror_pre,
                                        pv,
                                        e.data.inner.value_spec(),
                                    );
                                    let keys = choose|keys: Seq<u32>|
                                        {
                                            &&& #[trigger] <StateInner<
                                                Vec<String>,
                                                IsMultipleValue,
                                            > as InnerUpdate<Vec<(u32, String)>>>::apply_rel(
                                                mirror_pre,
                                                pv,
                                                e.data.inner.value_spec(),
                                                keys,
                                            )
                                            &&& forall|k: u32, n: u32|
                                                #[trigger] pre_sig.keyed_dep_of(k, n)
                                                    && keys.contains(k)
                                                    ==> to_re_render@.contains(n)
                                        };
                                    assert(keys =~= crate::state::pair_keys(pv@));
                                    assert(crate::state::pair_views(pv@) =~= crate::state::pair_views(
                                        pairs@,
                                    ));
                                    assert(crate::state::pair_views(pv@) == crate::state::pair_views(
                                        pairs@,
                                    ) && crate::state::apply_pairs_spec(
                                        mirror_pre.inner@,
                                        pv@,
                                        e.cached()@,
                                    ));
                                    assert(crate::state::pair_keys(pv@) =~= crate::state::pair_keys(
                                        pairs@,
                                    ));
                                    let m0 = match before {
                                        SubscriptionMirror::Multiple(m) => m,
                                        _ => arbitrary(),
                                    };
                                    assert(m0.data.inner == pre_sig);
                                    assert(fired == m0.data.inner.value_spec().on_update);
                                    assert forall|k: u32, n: u32|
                                        #[trigger] m0.data.inner.keyed_dep_of(k, n)
                                            && crate::state::pair_keys(pairs@).contains(k)
                                        implies to_re_render@.contains(n) by {
                                        assert(pre_sig.keyed_dep_of(k, n));
                                        assert(keys.contains(k));
                                    }
                                    assert forall|n: u32| m0.data.inner.deps().contains(n)
                                        implies to_re_render@.contains(n) by {
                                        assert(pre_sig.deps().contains(n));
                                    }
                                }
                            }
                        }
                        UpdatePayload::Single(_) => {}
                    }
                }
            }
            proof {
                lemma_names_stable(entries_mid, self.entries@, i as int);
                if i as int != at {
                    assert(self.entries@[i as int] == before);
                    assert(*to_re_render == dirty_mid);
                    assert(fired == fired_mid);
                }
                if 0 <= at && at < i + 1 {
                    assert(mirror_applied(
                        old(self).entries@[at],
                        self.entries@[at],
                        *payload,
                        to_re_render@,
                        fired,
                    ));
                }
            }
            i += 1;
        }
        fired
    }
}

/// Applying a Multiple update keeps the mirror within the length bound the
/// table maintains.
proof fn lemma_bound_preserved(
    mirror_pre: StateInner<Vec<String>, IsMultipleValue>,
    pv: Vec<(u32, String)>,
    mirror_post: StateInner<Vec<String>, IsMultipleValue>,
)
    requires
        mirror_pre.inner@.len() <= u32::MAX as int + 1,
        exists|keys: Seq<u32>|
            #[trigger] <StateInner<Vec<String>, IsMultipleValue> as InnerUpdate<
                Vec<(u32, String)>,
            >>::apply_rel(mirror_pre, pv, mirror_post, keys),
    ensures
        mirror_post.inner@.len() <= u32::MAX as int + 1,
{
    let keys = choose|keys: Seq<u32>|
        #[trigger] <StateInner<Vec<String>, IsMultipleValue> as InnerUpdate<
            Vec<(u32, String)>,
        >>::apply_rel(mirror_pre, pv, mirror_post, keys);
    crate::state::lemma_apply_pairs_len_bound(mirror_pre.inner@, pv@, mirror_post.inner@);
}

/// A Multiple mirror in a well-formed table satisfies the update
/// precondition: applying pairs never grows it past the largest key plus
/// one, so the bound is preserved across updates.
proof fn lemma_apply_pre_holds(e: &StateEvent<Vec<String>, IsMultipleValue>)
    requires
        e.cached()@.len() <= u32::MAX as int + 1,
    ensures
        <StateInner<Vec<String>, IsMultipleValue> as InnerUpdate<Vec<(u32, String)>>>::apply_pre(
            e.data.inner.value_spec(),
        ),
{
}

/// Replacing one entry with an equally named mirror keeps the name table.
proof fn lemma_names_stable(
    before: Seq<SubscriptionMirror>,
    after: Seq<SubscriptionMirror>,
    i: int,
)
    requires
        before.len() == after.len(),
        forall|k: int| 0 <= k < before.len() && k != i ==> after[k] == before[k],
        0 <= i < before.len() ==> after[i].name_of() == before[i].name_of(),
    ensures
        after.map_values(|m: SubscriptionMirror| m.name_of()) =~= before.map_values(
            |m: SubscriptionMirror| m.name_of(),
        ),
{
}

/// A name found at `i`, with no earlier occurrence, is the first match.
proof fn lemma_find_name_at(names: Seq<Seq<char>>, name: Seq<char>, i: int)
    requires
        0 <= i < names.len(),
        forall|m: int| 0 <= m < i ==> names[m] != name,
        names[i] == name,
    ensures
        find_name(names, name) == i,
    decreases i,
{
    if i > 0 {
        assert(forall|m: int| 0 <= m < i - 1 ==> names.skip(1)[m] == names[m + 1]);
        assert(names.skip(1)[i - 1] == names[i]);
        lemma_find_name_at(names.skip(1), name, i - 1);
    }
}

/// A negative search means no entry carries the name.
proof fn lemma_find_name_negative(names: Seq<Seq<char>>, name: Seq<char>)
    requires
        find_name(names, name) < 0,
    ensures
        forall|k: int| 0 <= k < names.len() ==> names[k] != name,
    decreases names.len(),
{
    if names.len() > 0 {
        assert(names[0] != name);
        assert(find_name(names.skip(1), name) < 0);
        lemma_find_name_negative(names.skip(1), name);
        assert forall|k: int| 0 <= k < names.len() implies names[k] != name by {
            if k > 0 {
                assert(names.skip(1)[k - 1] == names[k]);
            }
        }
    }
}

/// A name nowhere in the table is not found.
proof fn lemma_find_name_missing(names: Seq<Seq<char>>, name: Seq<char>)
    requires
        forall|m: int| 0 <= m < names.len() ==> names[m] != name,
    ensures
        find_name(names, name) < 0,
    decreases names.len(),
{
    if names.len() > 0 {
        assert(forall|m: int| 0 <= m < names.skip(1).len() ==> names.skip(1)[m] == names[m + 1]);
        lemma_find_name_missing(names.skip(1), name);
    }
}

/// A mutable borrow of one entry, relating the vector after the caller is
/// done with it to the borrow's final value.
fn vec_index_mut<T>(v: &mut Vec<T>, i: usize) -> (element: &mut T)
    requires
        i < old(v)@.len(),
    ensures
        *element == old(v)@[i as int],
        final(v)@ == old(v)@.update(i as int, *final(element)),
{
    &mut v[i]
}

/// A copy of each pair, with the keys kept and the values' characters kept.
fn clone_pairs(pairs: &Vec<(u32, String)>) -> (r: Vec<(u32, String)>)
    ensures
        r@.len() == pairs@.len(),
        forall|i: int| 0 <= i < pairs@.len()
            ==> (#[trigger] r@[i]).0 == pairs@[i].0 && r@[i].1@ == pairs@[i].1@,
{
    let mut out: Vec<(u32, String)> = Vec::new();
    let mut i: usize = 0;
    while i < pairs.len()
        invariant
            0 <= i <= pairs@.len(),
            out@.len() == i,
            forall|k: int| 0 <= k < i
                ==> (#[trigger] out@[k]).0 == pairs@[k].0 && out@[k].1@ == pairs@[k].1@,
        decreases pairs@.len() - i,
    {
        let value = pairs[i].1.clone();
        out.push((pairs[i].0, value));
        i += 1;
    }
    out
}

/// Splitting the last attribute off an attribute serialization.
proof fn lemma_attrs_markup_snoc(attrs: Seq<(String, String)>, last: (String, String))
    ensures
        attrs_markup(attrs.push(last)) =~= attrs_markup(attrs) + attr_markup(last),
    decreases attrs.len(),
{
    assert(attrs.push(last).len() > 0);
    assert(attrs_markup(attrs.push(last)) == attr_markup(attrs.push(last)[0]) + attrs_markup(
        attrs.push(last).skip(1),
    ));
    if attrs.len() == 0 {
        assert(attrs.push(last)[0] == last);
        assert(attrs.push(last).skip(1) =~= Seq::<(String, String)>::empty());
        assert(attrs_markup(attrs.push(last).skip(1)) =~= Seq::<char>::empty());
        assert(attrs_markup(attrs) =~= Seq::<char>::empty());
    } else {
        assert(attrs.push(last)[0] == attrs[0]);
        assert(attrs.push(last).skip(1) =~= attrs.skip(1).push(last));
        lemma_attrs_markup_snoc(attrs.skip(1), last);
        assert(attrs_markup(attrs) == attr_markup(attrs[0]) + attrs_markup(attrs.skip(1)));
    }
}

} // verus!
