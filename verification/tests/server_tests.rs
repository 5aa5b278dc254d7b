use pserve::client::NodeIdGen;
use pserve::dom::{Components, DomNodeBuilder};
use pserve::server::{render, Event, ServerBus, ToClientEvent, ToServerEvent};

struct NoComponents;

impl Components for NoComponents {
    fn construct(&mut self, _ctor: u32, _ids: &mut NodeIdGen) -> DomNodeBuilder {
        DomNodeBuilder::default()
    }
}

fn alert(msg: &str) -> ToClientEvent {
    ToClientEvent::Alert { msg: String::from(msg) }
}

#[test]
fn queue_is_fifo() {
    let mut bus = ServerBus::new();
    bus.send_to_all_clients(alert("a"));
    bus.send_to_server(5, ToServerEvent::Test(String::from("t")));
    bus.send_to_specific_client(9, alert("b"));
    match bus.pop_event() {
        Some(Event::ToAllClients(ToClientEvent::Alert { msg })) => assert_eq!(msg, "a"),
        _ => panic!("expected the broadcast first"),
    }
    match bus.pop_event() {
        Some(Event::ToServer { from, .. }) => assert_eq!(from, 5),
        _ => panic!("expected the inbound event second"),
    }
    match bus.pop_event() {
        Some(Event::ToSpecificClient { who, .. }) => assert_eq!(who, 9),
        _ => panic!("expected the unicast third"),
    }
    assert!(bus.pop_event().is_none());
}

#[test]
fn pending_events_are_appended_after_the_pass() {
    let mut bus = ServerBus::new();
    bus.send_to_all_clients(alert("first"));
    let pending = vec![Event::ToAllClients(alert("second")), Event::ToAllClients(alert("third"))];
    bus.append_pending(pending);
    match bus.pop_event() {
        Some(Event::ToAllClients(ToClientEvent::Alert { msg })) => assert_eq!(msg, "first"),
        _ => panic!("the queued event must drain before the pending ones"),
    }
    match bus.pop_event() {
        Some(Event::ToAllClients(ToClientEvent::Alert { msg })) => assert_eq!(msg, "second"),
        _ => panic!("pending events must keep their order"),
    }
}

#[test]
fn clients_join_once() {
    let mut bus = ServerBus::new();
    bus.add_client(1);
    bus.add_client(2);
    bus.add_client(1);
    assert_eq!(bus.connected_clients, vec![1, 2]);
}

#[test]
fn broadcast_targets_every_client() {
    let mut bus = ServerBus::new();
    bus.add_client(1);
    bus.add_client(2);
    bus.add_client(3);
    let targets = bus.targets_for(&Event::ToAllClients(alert("x")));
    assert_eq!(targets, vec![1, 2, 3]);
}

#[test]
fn unicast_targets_the_addressee_if_connected() {
    let mut bus = ServerBus::new();
    bus.add_client(1);
    let hit = bus.targets_for(&Event::ToSpecificClient { who: 1, event: alert("x") });
    assert_eq!(hit, vec![1]);
    let miss = bus.targets_for(&Event::ToSpecificClient { who: 9, event: alert("x") });
    assert!(miss.is_empty());
}

#[test]
fn failed_send_removes_that_client_only() {
    // connection removal: the dead client is gone after the pass, the
    // others still get their deliveries
    let mut bus = ServerBus::new();
    bus.add_client(1);
    bus.add_client(2);
    bus.add_client(3);
    let targets = bus.targets_for(&Event::ToAllClients(alert("x")));
    assert_eq!(targets, vec![1, 2, 3]);
    bus.remove_clients(&vec![2]);
    assert_eq!(bus.connected_clients, vec![1, 3]);
    let targets = bus.targets_for(&Event::ToAllClients(alert("y")));
    assert_eq!(targets, vec![1, 3]);
}

#[test]
fn page_load_resolves_against_the_route_table() {
    let mut bus = ServerBus::new();
    bus.route(String::from("/"), String::from("home"));
    bus.route(String::from("/about"), String::from("about_page"));
    let reply = bus.handle_page_load(4, &String::from("/about"), String::from("q=1"));
    match reply {
        Some(Event::ToSpecificClient { who, event }) => {
            assert_eq!(who, 4);
            match event {
                ToClientEvent::RenderComponent { component_name, params, dom_id } => {
                    assert_eq!(component_name, "about_page");
                    assert_eq!(params, Some(String::from("q=1")));
                    assert_eq!(dom_id, Some(String::from("test")));
                }
                _ => panic!("expected a render-component message"),
            }
        }
        _ => panic!("expected a unicast reply"),
    }
}

#[test]
fn unrouted_page_load_is_unanswered() {
    let mut bus = ServerBus::new();
    bus.route(String::from("/"), String::from("home"));
    assert!(bus.handle_page_load(4, &String::from("/missing"), String::new()).is_none());
}

#[test]
fn re_routing_a_path_overwrites_it() {
    let mut bus = ServerBus::new();
    bus.route(String::from("/"), String::from("old"));
    bus.route(String::from("/"), String::from("new"));
    let reply = bus.handle_page_load(1, &String::from("/"), String::new());
    match reply {
        Some(Event::ToSpecificClient { event: ToClientEvent::RenderComponent { component_name, .. }, .. }) => {
            assert_eq!(component_name, "new");
        }
        _ => panic!("expected the overwritten route"),
    }
}

#[test]
fn bootstrap_render_emits_static_markup() {
    let mut comps = NoComponents;
    let mut ids = NodeIdGen::new();
    let page = DomNodeBuilder::from(String::from("Disconnected"));
    let html = render(page, &mut comps, &mut ids, 4);
    assert_eq!(html, "Disconnected");

    let mut ids = NodeIdGen::new();
    let page = DomNodeBuilder::default()
        .push(&mut ids, "p", 0)
        .attr(String::from("id"), String::from("status"));
    // the single node's constructor resolves to nothing: an empty body
    let html = render(page, &mut comps, &mut ids, 4);
    assert_eq!(html, "<p id='status' ></p>");
}
