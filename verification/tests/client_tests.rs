use pserve::client::{RenderResult, SubscriptionMirror, Subscriptions, UpdatePayload};
use pserve::server::ToServerEvent;
use pserve::signal::DirtySet;

#[test]
fn first_subscription_requests_full_state() {
    let mut subs = Subscriptions::new();
    let (index, request) = subs.use_state_event(String::from("memeList"), true);
    assert_eq!(index, 0);
    match request {
        Some(ToServerEvent::RequestFullState { name }) => assert_eq!(name, "memeList"),
        _ => panic!("the first subscription must request full state"),
    }
}

#[test]
fn repeat_subscription_shares_the_mirror() {
    // idempotent subscription: two call-sites, one request, one mirror
    let mut subs = Subscriptions::new();
    let (first, request) = subs.use_state_event(String::from("memeList"), true);
    assert!(request.is_some());
    let (second, request) = subs.use_state_event(String::from("memeList"), true);
    assert!(request.is_none());
    assert_eq!(first, second);
    assert_eq!(subs.entries.len(), 1);
}

#[test]
fn distinct_names_get_distinct_mirrors() {
    let mut subs = Subscriptions::new();
    let (a, ra) = subs.use_state_event(String::from("a"), false);
    let (b, rb) = subs.use_state_event(String::from("b"), true);
    assert_ne!(a, b);
    assert!(ra.is_some() && rb.is_some());
    assert_eq!(subs.entries.len(), 2);
}

#[test]
fn custom_event_lands_on_the_matching_mirror_only() {
    let mut subs = Subscriptions::new();
    subs.use_state_event(String::from("checkBoxes"), true);
    subs.use_state_event(String::from("memeList"), true);
    let mut dirty = DirtySet::new();
    subs.handle_custom_event(
        &String::from("memeList"),
        &UpdatePayload::Multiple(vec![(0, String::from("\"meme\""))]),
        &mut dirty,
    );
    match &mut subs.entries[0] {
        SubscriptionMirror::Multiple(e) => assert!(e.get(0).is_empty()),
        _ => panic!("checkBoxes is a multiple mirror"),
    }
    match &mut subs.entries[1] {
        SubscriptionMirror::Multiple(e) => {
            assert_eq!(e.get(0), &vec![String::from("\"meme\"")]);
        }
        _ => panic!("memeList is a multiple mirror"),
    }
}

#[test]
fn single_mirror_takes_whole_payload() {
    let mut subs = Subscriptions::new();
    subs.use_state_event(String::from("title"), false);
    let mut dirty = DirtySet::new();
    subs.handle_custom_event(
        &String::from("title"),
        &UpdatePayload::Single(String::from("\"hi\"")),
        &mut dirty,
    );
    match &mut subs.entries[0] {
        SubscriptionMirror::Single(e) => assert_eq!(e.get(0).as_str(), "\"hi\""),
        _ => panic!("title is a single mirror"),
    }
}

#[test]
fn cookie_subscription_hydrates_from_the_store() {
    let mut subs = Subscriptions::new();
    let mut dirty = DirtySet::new();
    let (index, request) = subs.use_cookie(
        String::from("prefs"),
        false,
        21,
        Some(UpdatePayload::Single(String::from("\"dark\""))),
        &mut dirty,
    );
    assert!(request.is_some());
    match &mut subs.entries[index] {
        SubscriptionMirror::Single(e) => {
            assert_eq!(e.get(0).as_str(), "\"dark\"");
            assert_eq!(e.data.peek().on_update, Some(21));
        }
        _ => panic!("prefs is a single mirror"),
    }
}

#[test]
fn cookie_subscription_without_a_stored_value() {
    let mut subs = Subscriptions::new();
    let mut dirty = DirtySet::new();
    let (index, _) = subs.use_cookie(String::from("prefs"), true, 3, None, &mut dirty);
    match &mut subs.entries[index] {
        SubscriptionMirror::Multiple(e) => assert!(e.get(0).is_empty()),
        _ => panic!("prefs is a multiple mirror"),
    }
}

#[test]
fn custom_event_reports_the_change_callback_token() {
    let mut subs = Subscriptions::new();
    let mut dirty = DirtySet::new();
    subs.use_cookie(String::from("prefs"), false, 21, None, &mut dirty);
    let fired = subs.handle_custom_event(
        &String::from("prefs"),
        &UpdatePayload::Single(String::from("\"light\"")),
        &mut dirty,
    );
    assert_eq!(fired, Some(21));
    let fired = subs.handle_custom_event(
        &String::from("absent"),
        &UpdatePayload::Single(String::from("1")),
        &mut dirty,
    );
    assert_eq!(fired, None);
}

#[test]
fn custom_event_without_a_callback_reports_none() {
    let mut subs = Subscriptions::new();
    subs.use_state_event(String::from("title"), false);
    let mut dirty = DirtySet::new();
    let fired = subs.handle_custom_event(
        &String::from("title"),
        &UpdatePayload::Single(String::from("\"x\"")),
        &mut dirty,
    );
    assert_eq!(fired, None);
}

#[test]
fn fresh_subscription_has_no_change_callback() {
    let mut subs = Subscriptions::new();
    subs.use_state_event(String::from("plain"), false);
    match &subs.entries[0] {
        SubscriptionMirror::Single(e) => assert_eq!(e.data.peek().on_update, None),
        _ => panic!("plain is a single mirror"),
    }
}

#[test]
fn cookie_hydration_dirties_the_existing_dependents() {
    let mut subs = Subscriptions::new();
    subs.use_state_event(String::from("prefs"), false);
    match &mut subs.entries[0] {
        SubscriptionMirror::Single(e) => {
            e.get(77);
        }
        _ => panic!("prefs is a single mirror"),
    }
    let mut dirty = DirtySet::new();
    subs.use_cookie(
        String::from("prefs"),
        false,
        3,
        Some(UpdatePayload::Single(String::from("\"dark\""))),
        &mut dirty,
    );
    assert!(dirty.contains(77));
}

#[test]
fn render_result_wraps_markup() {
    let r = RenderResult::from(String::from("<p></p>"));
    assert_eq!(r.html, "<p></p>");
}
