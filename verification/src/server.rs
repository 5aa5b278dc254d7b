//! The server event bus.
//!
//! Mutation handlers and transport tasks enqueue [`Event`]s; a drain loop
//! empties the queue in FIFO order, resolves each event against the live
//! connections, and removes connections whose send failed.  Events produced
//! while draining are appended after the pass, never interleaved mid-pass.
//!
//! The bus holds what can be decided here: the queue, the connection table
//! and the route table.  Performing a send, running a mutation handler and
//! sleeping between passes are the surrounding runtime's work; it reports
//! each send's outcome back, and the bus decides who stays connected.

use vstd::prelude::*;
use crate::dom::{DomNodeBuilder, DomNodeUnbuilt, DomNodeUnbuiltBody, Components};
use crate::client::NodeIdGen;
use vstd::string::StringExecFns;

verus! {

/// A client-originated message, as decoded from the wire.
pub enum ToServerEvent {
    Test(String),
    PageLoad { path: String, params: String },
    RequestFullState { name: String },
    Cookie { name: String, value: String },
    /// An application-defined payload, carried as its wire text.
    Custom(String),
}

/// A server-originated message.
pub enum ToClientEvent {
    Alert { msg: String },
    DomUpdate { dom_id: String, html: String },
    RenderComponent { component_name: String, params: Option<String>, dom_id: Option<String> },
    /// Stateful traffic: the envelope text built by the sync protocol.
    Custom { event: String },
}

/// A queued event: inbound from a specific client, outbound to all clients,
/// or outbound to one specific client.
pub enum Event {
    ToServer { from: u64, event: ToServerEvent },
    ToAllClients(ToClientEvent),
    ToSpecificClient { who: u64, event: ToClientEvent },
}

/// Per-session application data attached by collaborators.
pub struct UserContext {}

/// The bus state: the pending-event queue in FIFO order, the connected
/// clients by network identity, and the route table from path to component
/// name.
pub struct ServerBus {
    pub events_to_be_sent: Vec<Event>,
    pub connected_clients: Vec<u64>,
    pub routes: Vec<(String, String)>,
}

/// The component registered for `path`, if any.
pub open spec fn route_of(routes: Seq<(String, String)>, path: Seq<char>) -> Option<Seq<char>>
    decreases routes.len(),
{
    if routes.len() == 0 {
        None
    } else if routes[0].0@ == path {
        Some(routes[0].1@)
    } else {
        route_of(routes.skip(1), path)
    }
}

impl ServerBus {
    /// No client is connected twice; no path is routed twice.
    pub open spec fn wf(&self) -> bool {
        &&& forall|i: int, j: int|
            0 <= i < j < self.connected_clients@.len()
                ==> self.connected_clients@[i] != self.connected_clients@[j]
        &&& forall|i: int, j: int|
            0 <= i < j < self.routes@.len()
                ==> (#[trigger] self.routes@[i]).0@ != (#[trigger] self.routes@[j]).0@
    }

    pub fn new() -> (r: ServerBus)
        ensures
            r.wf(),
            r.events_to_be_sent@ =~= Seq::<Event>::empty(),
            r.connected_clients@ =~= Seq::<u64>::empty(),
            r.routes@ =~= Seq::<(String, String)>::empty(),
    {
        ServerBus {
            events_to_be_sent: Vec::new(),
            connected_clients: Vec::new(),
            routes: Vec::new(),
        }
    }

    /// Queues an inbound event from client `from`.
    pub fn send_to_server(&mut self, from: u64, event: ToServerEvent)
        ensures
            final(self).events_to_be_sent@ == old(self).events_to_be_sent@.push(
                Event::ToServer { from, event },
            ),
            final(self).connected_clients == old(self).connected_clients,
            final(self).routes == old(self).routes,
    {
        self.events_to_be_sent.push(Event::ToServer { from, event });
    }

    /// Queues an event for every connected client.
    pub fn send_to_all_clients(&mut self, event: ToClientEvent)
        ensures
            final(self).events_to_be_sent@ == old(self).events_to_be_sent@.push(
                Event::ToAllClients(event),
            ),
            final(self).connected_clients == old(self).connected_clients,
            final(self).routes == old(self).routes,
    {
        self.events_to_be_sent.push(Event::ToAllClients(event));
    }

    /// Queues an event for the one client `who`.
    pub fn send_to_specific_client(&mut self, who: u64, event: ToClientEvent)
        ensures
            final(self).events_to_be_sent@ == old(self).events_to_be_sent@.push(
                Event::ToSpecificClient { who, event },
            ),
            final(self).connected_clients == old(self).connected_clients,
            final(self).routes == old(self).routes,
    {
        self.events_to_be_sent.push(Event::ToSpecificClient { who, event });
    }

    /// Takes the oldest queued event, if any: the drain loop empties the
    /// queue front to back.
    pub fn pop_event(&mut self) -> (r: Option<Event>)
        ensures
            final(self).connected_clients == old(self).connected_clients,
            final(self).routes == old(self).routes,
            match r {
                None => old(self).events_to_be_sent@.len() == 0 && *final(self) == *old(self),
                Some(e) => old(self).events_to_be_sent@.len() > 0 && e == old(
                    self,
                ).events_to_be_sent@[0] && final(self).events_to_be_sent@ == old(
                    self,
                ).events_to_be_sent@.skip(1),
            },
    {
        if self.events_to_be_sent.len() == 0 {
            None
        } else {
            let e = self.events_to_be_sent.remove(0);
            Some(e)
        }
    }

    /// Appends the events a drain pass produced, after the pass: they are
    /// queued for the next pass, never interleaved into the current one.
    pub fn append_pending(&mut self, pending: Vec<Event>)
        ensures
            final(self).events_to_be_sent@ == old(self).events_to_be_sent@ + pending@,
            final(self).connected_clients == old(self).connected_clients,
            final(self).routes == old(self).routes,
    {
        let mut rest = pending;
        let ghost all = rest@;
        let ghost done: int = 0;
        proof {
            assert(self.events_to_be_sent@ + all.take(0) =~= self.events_to_be_sent@);
        }
        loop
            invariant
                0 <= done <= all.len(),
                rest@ =~= all.skip(done),
                self.events_to_be_sent@ =~= old(self).events_to_be_sent@ + all.take(done),
                self.connected_clients == old(self).connected_clients,
                self.routes == old(self).routes,
            ensures
                done == all.len(),
                self.events_to_be_sent@ =~= old(self).events_to_be_sent@ + all.take(done),
                self.connected_clients == old(self).connected_clients,
                self.routes == old(self).routes,
            decreases rest@.len(),
        {
            if rest.len() == 0 {
                break ;
            }
            let e = rest.remove(0);
            proof {
                assert(e == all[done]);
            }
            self.events_to_be_sent.push(e);
            proof {
                done = done + 1;
                assert(all.take(done) =~= all.take(done - 1).push(all[done - 1]));
                assert(rest@ =~= all.skip(done));
            }
        }
        proof {
            assert(all.take(all.len() as int) =~= all);
        }
    }

    /// Records a connection upgrade: `who` joins the table unless already
    /// present.
    #[verifier::loop_isolation(false)]
    pub fn add_client(&mut self, who: u64)
        requires
            old(self).wf(),
        ensures
            final(self).wf(),
            final(self).events_to_be_sent == old(self).events_to_be_sent,
            final(self).routes == old(self).routes,
            final(self).connected_clients@ == if old(self).connected_clients@.contains(who) {
                old(self).connected_clients@
            } else {
                old(self).connected_clients@.push(who)
            },
            final(self).connected_clients@.contains(who),
    {
        let mut i: usize = 0;
        while i < self.connected_clients.len()
            invariant
                0 <= i <= self.connected_clients@.len(),
                forall|k: int| 0 <= k < i ==> self.connected_clients@[k] != who,
                *self == *old(self),
            decreases self.connected_clients@.len() - i,
        {
            if self.connected_clients[i] == who {
                proof {
                    assert(old(self).connected_clients@.contains(who));
                }
                return ;
            }
            i += 1;
        }
        proof {
            assert(!old(self).connected_clients@.contains(who));
        }
        self.connected_clients.push(who);
        proof {
            assert(self.connected_clients@.last() == who);
            assert(self.connected_clients@.contains(who));
            assert forall|a: int, b: int| 0 <= a < b < self.connected_clients@.len()
                implies self.connected_clients@[a] != self.connected_clients@[b] by {
                assert(self.connected_clients@[a] == old(self).connected_clients@[a]);
                if b < old(self).connected_clients@.len() {
                    assert(self.connected_clients@[b] == old(self).connected_clients@[b]);
                }
            }
        }
    }

    /// The clients a queued event is delivered to: every connected client
    /// for a broadcast, the one addressee — if still connected — for a
    /// unicast, nobody for an inbound event.
    #[verifier::loop_isolation(false)]
    pub fn targets_for(&self, event: &Event) -> (r: Vec<u64>)
        requires
            self.wf(),
        ensures
            match event {
                Event::ToAllClients(_) => r@ == self.connected_clients@,
                Event::ToSpecificClient { who, .. } => r@ == if self.connected_clients@.contains(
                    *who,
                ) {
                    seq![*who]
                } else {
                    Seq::<u64>::empty()
                },
                Event::ToServer { .. } => r@ =~= Seq::<u64>::empty(),
            },
    {
        match event {
            Event::ToAllClients(_) => {
                let mut r: Vec<u64> = Vec::new();
                let mut i: usize = 0;
                while i < self.connected_clients.len()
                    invariant
                        0 <= i <= self.connected_clients@.len(),
                        r@ =~= self.connected_clients@.take(i as int),
                    decreases self.connected_clients@.len() - i,
                {
                    r.push(self.connected_clients[i]);
                    proof {
                        assert(self.connected_clients@.take(i + 1)
                            =~= self.connected_clients@.take(i as int).push(
                            self.connected_clients@[i as int],
                        ));
                    }
                    i += 1;
                }
                proof {
                    assert(self.connected_clients@.take(self.connected_clients@.len() as int)
                        =~= self.connected_clients@);
                }
                r
            }
            Event::ToSpecificClient { who, .. } => {
                let who = *who;
                let mut r: Vec<u64> = Vec::new();
                let mut i: usize = 0;
                while i < self.connected_clients.len()
                    invariant
                        0 <= i <= self.connected_clients@.len(),
                        forall|k: int| 0 <= k < i ==> self.connected_clients@[k] != who,
                        r@ =~= Seq::<u64>::empty(),
                    decreases self.connected_clients@.len() - i,
                {
                    if self.connected_clients[i] == who {
                        r.push(who);
                        proof {
                            assert(self.connected_clients@.contains(who));
                            assert(r@ =~= seq![who]);
                        }
                        return r;
                    }
                    i += 1;
                }
                proof {
                    assert(!self.connected_clients@.contains(who));
                }
                r
            }
            Event::ToServer { .. } => Vec::new(),
        }
    }

    /// Removes the clients whose send failed — each is fatal to its own
    /// connection only, never retried, and never affects other connections.
    #[verifier::loop_isolation(false)]
    pub fn remove_clients(&mut self, failed: &Vec<u64>)
        requires
            old(self).wf(),
        ensures
            final(self).wf(),
            final(self).events_to_be_sent == old(self).events_to_be_sent,
            final(self).routes == old(self).routes,
            forall|c: u64| #[trigger] final(self).connected_clients@.contains(c) == (old(
                self,
            ).connected_clients@.contains(c) && !failed@.contains(c)),
    {
        let mut kept: Vec<u64> = Vec::new();
        let mut i: usize = 0;
        while i < self.connected_clients.len()
            invariant
                0 <= i <= self.connected_clients@.len(),
                *self == *old(self),
                self.wf(),
                forall|c: u64| #[trigger] kept@.contains(c) ==> old(
                    self,
                ).connected_clients@.take(i as int).contains(c) && !failed@.contains(c),
                forall|k: int| 0 <= k < i && !failed@.contains(
                    #[trigger] old(self).connected_clients@[k],
                ) ==> kept@.contains(old(self).connected_clients@[k]),
                forall|a: int, b: int| 0 <= a < b < kept@.len() ==> kept@[a] != kept@[b],
            decreases self.connected_clients@.len() - i,
        {
            let c = self.connected_clients[i];
            let mut is_failed = false;
            let mut j: usize = 0;
            while j < failed.len()
                invariant
                    0 <= j <= failed@.len(),
                    is_failed == exists|m: int| 0 <= m < j && failed@[m] == c,
                decreases failed@.len() - j,
            {
                if failed[j] == c {
                    is_failed = true;
                }
                j += 1;
            }
            proof {
                assert(is_failed == failed@.contains(c));
            }
            let ghost kept_before = kept@;
            if !is_failed {
                proof {
                    assert(!kept@.contains(c)) by {
                        if kept@.contains(c) {
                            let m = choose|m: int|
                                0 <= m < old(self).connected_clients@.take(i as int).len()
                                    && old(self).connected_clients@.take(i as int)[m] == c;
                            assert(old(self).connected_clients@[m] == c);
                            assert(old(self).connected_clients@[i as int] == c);
                        }
                    }
                }
                kept.push(c);
            }
            proof {
                let ghost pre = old(self).connected_clients@;
                assert(pre.take(i + 1) =~= pre.take(i as int).push(pre[i as int]));
                assert forall|x: u64| #[trigger] kept@.contains(x)
                    implies pre.take(i + 1).contains(x) && !failed@.contains(x) by {
                    let m = choose|m: int| 0 <= m < kept@.len() && kept@[m] == x;
                    if m < kept_before.len() {
                        assert(kept_before[m] == x);
                        assert(kept_before.contains(x));
                        assert(pre.take(i as int).contains(x));
                        let p = choose|p: int|
                            0 <= p < i && pre.take(i as int)[p] == x;
                        assert(pre.take(i + 1)[p] == x);
                    } else {
                        assert(x == c && !is_failed);
                        assert(pre.take(i + 1)[i as int] == c);
                    }
                }
                assert forall|k: int| 0 <= k < i + 1 && !failed@.contains(#[trigger] pre[k])
                    implies kept@.contains(pre[k]) by {
                    if k < i {
                        assert(kept_before.contains(pre[k]));
                        let m = choose|m: int|
                            0 <= m < kept_before.len() && kept_before[m] == pre[k];
                        assert(kept@[m] == pre[k]);
                    } else {
                        assert(pre[k] == c);
                        assert(kept@[kept@.len() - 1] == c);
                    }
                }
                assert forall|a: int, b: int| 0 <= a < b < kept@.len()
                    implies kept@[a] != kept@[b] by {
                    if b < kept_before.len() {
                        assert(kept_before[a] == kept@[a] && kept_before[b] == kept@[b]);
                    } else if kept@.len() > kept_before.len() {
                        assert(kept@[a] == kept_before[a]);
                        assert(kept@[b] == c);
                        assert(!kept_before.contains(c));
                        assert(kept_before[a] == kept@[a]);
                    }
                }
            }
            i += 1;
        }
        proof {
            assert(old(self).connected_clients@.take(old(self).connected_clients@.len() as int)
                =~= old(self).connected_clients@);
        }
        self.connected_clients = kept;
        proof {
            assert forall|c: u64| #[trigger] self.connected_clients@.contains(c)
                implies old(self).connected_clients@.contains(c) && !failed@.contains(c) by {}
            assert forall|c: u64|
                old(self).connected_clients@.contains(c) && !failed@.contains(c)
                implies self.connected_clients@.contains(c) by {
                let m = choose|m: int|
                    0 <= m < old(self).connected_clients@.len()
                        && old(self).connected_clients@[m] == c;
            }
        }
    }

    /// Registers a route from `path` to a component name, overwriting any
    /// previous registration for the path.
    #[verifier::loop_isolation(false)]
    pub fn route(&mut self, path: String, component_name: String)
        requires
            old(self).wf(),
        ensures
            final(self).wf(),
            final(self).events_to_be_sent == old(self).events_to_be_sent,
            final(self).connected_clients == old(self).connected_clients,
            route_of(final(self).routes@, path@) == Some(component_name@),
            forall|p: Seq<char>| p != path@ ==> route_of(final(self).routes@, p) == route_of(
                old(self).routes@,
                p,
            ),
    {
        let mut i: usize = 0;
        while i < self.routes.len()
            invariant
                0 <= i <= self.routes@.len(),
                forall|k: int| 0 <= k < i ==> (#[trigger] self.routes@[k]).0@ != path@,
                *self == *old(self),
                self.wf(),
            decreases self.routes@.len() - i,
        {
            if self.routes[i].0 == path {
                let ghost idx = i as int;
                self.routes.set(i, (path, component_name));
                proof {
                    lemma_route_of_update(old(self).routes@, self.routes@, idx);
                }
                return ;
            }
            proof {
                assert(self.routes@[i as int].0@ != path@);
            }
            i += 1;
        }
        self.routes.push((path, component_name));
        proof {
            lemma_route_of_push(old(self).routes@, path, component_name);
            assert forall|a: int, b: int| 0 <= a < b < self.routes@.len()
                implies (#[trigger] self.routes@[a]).0@ != (#[trigger] self.routes@[b]).0@ by {
                assert(self.routes@[a] == old(self).routes@[a]);
                if b < old(self).routes@.len() {
                    assert(self.routes@[b] == old(self).routes@[b]);
                }
            }
        }
    }

    /// Resolves an inbound page load against the route table: a routed path
    /// is answered with a render-component message to the requesting client
    /// alone; an unrouted path is left unanswered.
    #[verifier::loop_isolation(false)]
    pub fn handle_page_load(&self, from: u64, path: &String, params: String) -> (r: Option<Event>)
        requires
            self.wf(),
        ensures
            match route_of(self.routes@, path@) {
                Some(component) => match r {
                    Some(e) => e matches Event::ToSpecificClient { who, event } && who == from
                        && (event matches ToClientEvent::RenderComponent {
                        component_name,
                        params: p,
                        dom_id,
                    } && component_name@ == component && p == Some(params) && (
                    dom_id matches Some(d) && d@ == "test"@)),
                    None => false,
                },
                None => r is None,
            },
    {
        let mut i: usize = 0;
        while i < self.routes.len()
            invariant
                0 <= i <= self.routes@.len(),
                forall|k: int| 0 <= k < i ==> (#[trigger] self.routes@[k]).0@ != path@,
            decreases self.routes@.len() - i,
        {
            if self.routes[i].0 == *path {
                proof {
                    assert(self.routes@[i as int].0@ == path@);
                    lemma_route_of_at(self.routes@, path@, i as int);
                }
                let component_name = self.routes[i].1.clone();
                let dom_id = String::from_str("test");
                return Some(
                    Event::ToSpecificClient {
                        who: from,
                        event: ToClientEvent::RenderComponent {
                            component_name,
                            params: Some(params),
                            dom_id: Some(dom_id),
                        },
                    },
                );
            }
            i += 1;
        }
        proof {
            lemma_route_of_none(self.routes@, path@);
        }
        None
    }
}

/// When the routes before `i` miss `path` and route `i` hits it, the lookup
/// answers with route `i`'s component.
proof fn lemma_route_of_at(routes: Seq<(String, String)>, path: Seq<char>, i: int)
    requires
        0 <= i < routes.len(),
        forall|m: int| 0 <= m < i ==> (#[trigger] routes[m]).0@ != path,
        routes[i].0@ == path,
    ensures
        route_of(routes, path) == Some(routes[i].1@),
    decreases i,
{
    if i == 0 {
    } else {
        assert(routes.skip(1)[i - 1] == routes[i]);
        assert(forall|m: int| 0 <= m < i - 1 ==> (#[trigger] routes.skip(1)[m]) == routes[m + 1]);
        lemma_route_of_at(routes.skip(1), path, i - 1);
    }
}

/// When no route carries `path`, the lookup misses.
proof fn lemma_route_of_none(routes: Seq<(String, String)>, path: Seq<char>)
    requires
        forall|m: int| 0 <= m < routes.len() ==> (#[trigger] routes[m]).0@ != path,
    ensures
        route_of(routes, path) is None,
    decreases routes.len(),
{
    if routes.len() > 0 {
        assert(forall|m: int| 0 <= m < routes.skip(1).len()
            ==> (#[trigger] routes.skip(1)[m]) == routes[m + 1]);
        lemma_route_of_none(routes.skip(1), path);
    }
}

/// Overwriting route `i` in place changes the lookup for its path alone.
proof fn lemma_route_of_update(before: Seq<(String, String)>, after: Seq<(String, String)>, i: int)
    requires
        0 <= i < before.len(),
        after =~= before.update(i, after[i]),
        after[i].0@ == before[i].0@,
        forall|a: int, b: int| 0 <= a < b < before.len()
            ==> (#[trigger] before[a]).0@ != (#[trigger] before[b]).0@,
    ensures
        forall|a: int, b: int| 0 <= a < b < after.len()
            ==> (#[trigger] after[a]).0@ != (#[trigger] after[b]).0@,
        route_of(after, after[i].0@) == Some(after[i].1@),
        forall|p: Seq<char>| p != after[i].0@ ==> route_of(after, p) == route_of(before, p),
{
    assert forall|a: int, b: int| 0 <= a < b < after.len()
        implies (#[trigger] after[a]).0@ != (#[trigger] after[b]).0@ by {
        assert(before[a].0@ != before[b].0@);
        if a != i {
            assert(after[a] == before[a]);
        }
        if b != i {
            assert(after[b] == before[b]);
        }
    }
    assert(route_of(after, after[i].0@) == Some(after[i].1@)) by {
        assert forall|m: int| 0 <= m < i implies (#[trigger] after[m]).0@ != after[i].0@ by {
            assert(after[m] == before[m]);
            assert(before[m].0@ != before[i].0@);
        }
        lemma_route_of_at(after, after[i].0@, i);
    }
    assert forall|p: Seq<char>| p != after[i].0@
        implies route_of(after, p) == route_of(before, p) by {
        lemma_route_of_frame(before, after, p, i);
    }
}

/// A lookup that misses the updated entry sees the update not at all.
proof fn lemma_route_of_frame(
    before: Seq<(String, String)>,
    after: Seq<(String, String)>,
    p: Seq<char>,
    i: int,
)
    requires
        0 <= i < before.len(),
        after =~= before.update(i, after[i]),
        after[i].0@ == before[i].0@,
        p != after[i].0@,
    ensures
        route_of(after, p) == route_of(before, p),
    decreases before.len(),
{
    if before.len() > 0 {
        if i == 0 {
            assert(after[0].0@ == before[0].0@);
            assert(after.skip(1) =~= before.skip(1));
        } else {
            assert(after[0] == before[0]);
            assert(after.skip(1) =~= before.skip(1).update(i - 1, after.skip(1)[i - 1]));
            assert(after.skip(1)[i - 1] == after[i]);
            assert(before.skip(1)[i - 1] == before[i]);
            lemma_route_of_frame(before.skip(1), after.skip(1), p, i - 1);
        }
    }
}

/// Appending a route for a fresh path changes the lookup for that path
/// alone.
proof fn lemma_route_of_push(routes: Seq<(String, String)>, path: String, component: String)
    requires
        forall|m: int| 0 <= m < routes.len() ==> (#[trigger] routes[m]).0@ != path@,
    ensures
        route_of(routes.push((path, component)), path@) == Some(component@),
        forall|p: Seq<char>| p != path@ ==> route_of(routes.push((path, component)), p)
            == route_of(routes, p),
    decreases routes.len(),
{
    let pushed = routes.push((path, component));
    assert(route_of(pushed, path@) == Some(component@)) by {
        assert(pushed[routes.len() as int] == (path, component));
        assert(forall|m: int| 0 <= m < routes.len() ==> (#[trigger] pushed[m]) == routes[m]);
        lemma_route_of_at(pushed, path@, routes.len() as int);
    }
    assert forall|p: Seq<char>| p != path@
        implies route_of(pushed, p) == route_of(routes, p) by {
        lemma_route_of_push_frame(routes, path, component, p);
    }
}

/// A lookup for another path does not see an appended route.
proof fn lemma_route_of_push_frame(
    routes: Seq<(String, String)>,
    path: String,
    component: String,
    p: Seq<char>,
)
    requires
        p != path@,
    ensures
        route_of(routes.push((path, component)), p) == route_of(routes, p),
    decreases routes.len(),
{
    let pushed = routes.push((path, component));
    if routes.len() == 0 {
        assert(pushed[0] == (path, component));
        assert(pushed[0].0@ != p);
        assert(pushed.skip(1) =~= Seq::<(String, String)>::empty());
        assert(route_of(pushed, p) == route_of(pushed.skip(1), p));
        assert(route_of(pushed.skip(1), p) is None);
        assert(route_of(routes, p) is None);
    } else {
        assert(pushed[0] == routes[0]);
        assert(pushed.skip(1) =~= routes.skip(1).push((path, component)));
        lemma_route_of_push_frame(routes.skip(1), path, component, p);
        if routes[0].0@ == p {
            assert(route_of(pushed, p) == Some(pushed[0].1@));
            assert(route_of(routes, p) == Some(routes[0].1@));
        } else {
            assert(route_of(pushed, p) == route_of(pushed.skip(1), p));
            assert(route_of(routes, p) == route_of(routes.skip(1), p));
        }
    }
}

/// Connection removal: a client whose send failed is absent from the
/// connection table after the dispatch pass, and a client whose sends
/// succeeded is still present — one connection's failure never removes
/// another.
pub proof fn lemma_connection_removal(
    before: Seq<u64>,
    after: Seq<u64>,
    failed: Seq<u64>,
    dead: u64,
    live: u64,
)
    requires
        // what `ServerBus::remove_clients` ensures
        forall|c: u64| #[trigger] after.contains(c) == (before.contains(c) && !failed.contains(
            c,
        )),
        failed.contains(dead),
        before.contains(live),
        !failed.contains(live),
    ensures
        !after.contains(dead),
        after.contains(live),
{
}


/// Whether every child body is literal: no constructor stands in the way of
/// a static serialization.
pub open spec fn no_constructors(children: Seq<DomNodeUnbuilt>) -> bool {
    forall|i: int| 0 <= i < children.len()
        ==> !((#[trigger] children[i]).body matches Some(DomNodeUnbuiltBody::Constructor(_)))
}

/// The bootstrap serialization of one declared node: tag and attributes,
/// literal text body, closing tag — without session node ids, which only
/// the client runtime assigns.
pub open spec fn static_node_markup(b: DomNodeUnbuilt) -> Seq<char> {
    (if b.tag@.len() > 0 {
        "<"@ + b.tag@
    } else {
        Seq::<char>::empty()
    }) + crate::client::attrs_markup(b.attributes@) + (if b.tag@.len() > 0 {
        ">"@
    } else {
        Seq::<char>::empty()
    }) + (match b.body {
        Some(DomNodeUnbuiltBody::Text(t)) => t@,
        _ => Seq::<char>::empty(),
    }) + crate::client::close_markup(b)
}

/// The concatenated bootstrap serialization of declared siblings.
pub open spec fn static_markup(children: Seq<DomNodeUnbuilt>) -> Seq<char>
    decreases children.len(),
{
    if children.len() == 0 {
        Seq::<char>::empty()
    } else {
        static_node_markup(children[0]) + static_markup(children.skip(1))
    }
}

/// Emits the bootstrap document markup for a declared tree, resolving
/// constructor bodies through the application's component set, `fuel` deep.
/// For a declaration with no constructors the emission is pinned exactly;
/// what a constructor produces is the application's to decide.
#[verifier::loop_isolation(false)]
pub fn render<C: Components>(
    builder: DomNodeBuilder,
    c: &mut C,
    ids: &mut NodeIdGen,
    fuel: u32,
) -> (r: String)
    ensures
        no_constructors(builder.children@) ==> r@ =~= static_markup(builder.children@),
    decreases fuel, builder.children@.len(),
{
    let mut out = String::new();
    let mut children = builder.children;
    let ghost all = children@;
    let ghost done: int = 0;
    proof {
        assert(all.take(0) =~= Seq::<DomNodeUnbuilt>::empty());
        assert(static_markup(all.take(0)) =~= Seq::<char>::empty());
    }
    while children.len() > 0
        invariant
            0 <= done <= all.len(),
            children@ =~= all.skip(done),
            no_constructors(all) ==> out@ =~= static_markup(all.take(done)),
        decreases fuel, children@.len(),
    {
        let node = children.remove(0);
        proof {
            assert(node == all[done]);
        }
        let ghost at_entry = out@;

        if !node.tag.is_empty() {
            out.append("<");
            out.append(node.tag);
        }
        crate::client::append_attrs(&mut out, &node.attributes);
        if !node.tag.is_empty() {
            out.append(">");
        }
        match &node.body {
            Some(DomNodeUnbuiltBody::Text(t)) => {
                out.append(t.as_str());
            }
            Some(DomNodeUnbuiltBody::Constructor(ctor)) => {
                if fuel > 0 {
                    let sub = c.construct(*ctor, ids);
                    let piece = render(sub, c, ids, fuel - 1);
                    out.append(piece.as_str());
                }
            }
            None => {}
        }
        if !node.tag.is_empty() {
            out.append("</");
            out.append(node.tag);
            out.append(">");
        }
        proof {
            reveal_strlit("<");
            reveal_strlit(">");
            reveal_strlit("</");
            done = done + 1;
            assert(children@ =~= all.skip(done));
            if no_constructors(all) {
                assert(!(all[done - 1].body matches Some(DomNodeUnbuiltBody::Constructor(_))));
                assert(out@ =~= at_entry + static_node_markup(node));
                lemma_static_markup_snoc(all.take(done - 1), node);
                assert(all.take(done) =~= all.take(done - 1).push(node));
            }
        }
    }
    proof {
        assert(all.take(all.len() as int) =~= all);
    }
    out
}

/// Splitting the last sibling off a bootstrap serialization.
proof fn lemma_static_markup_snoc(children: Seq<DomNodeUnbuilt>, last: DomNodeUnbuilt)
    ensures
        static_markup(children.push(last)) =~= static_markup(children) + static_node_markup(
            last,
        ),
    decreases children.len(),
{
    let pushed = children.push(last);
    assert(pushed.len() > 0);
    assert(static_markup(pushed) == static_node_markup(pushed[0]) + static_markup(
        pushed.skip(1),
    ));
    if children.len() == 0 {
        assert(pushed[0] == last);
        assert(pushed.skip(1) =~= Seq::<DomNodeUnbuilt>::empty());
        assert(static_markup(pushed.skip(1)) =~= Seq::<char>::empty());
        assert(static_markup(children) =~= Seq::<char>::empty());
    } else {
        assert(pushed[0] == children[0]);
        assert(pushed.skip(1) =~= children.skip(1).push(last));
        lemma_static_markup_snoc(children.skip(1), last);
        assert(static_markup(children) == static_node_markup(children[0]) + static_markup(
            children.skip(1),
        ));
    }
}
} // verus!
