//! Tests of the event binding: per-widget tracking, the cursor-sink mirror,
//! and the teardown path.

use cursor_stack::binding::{CursorSystem, EntityId, IconId, PointerEvent, Tier};

#[test]
fn baseline_shows_at_start() {
    let sys = CursorSystem::init(IconId(0));
    assert_eq!(sys.current(), IconId(0));
}

#[test]
fn scenario_square_hover_then_press() {
    // Insert priority-0 default; hover pushes priority-0 "Grab" on the
    // square (tie-break to latest), press pushes priority-1 "Grabbing";
    // popping unwinds to "Grab", then to the default.
    let s = EntityId(42);
    let mut sys = CursorSystem::init(IconId(0));
    sys.register(s, Tier::Hover, IconId(1), 0);
    sys.register(s, Tier::Click, IconId(2), 1);

    assert_eq!(sys.on_enter(s), Some(IconId(1)));
    assert_eq!(sys.current(), IconId(1));

    assert_eq!(sys.on_press(s), Some(IconId(2)));
    assert_eq!(sys.current(), IconId(2));

    assert_eq!(sys.on_release(s), Some(IconId(1)));
    assert_eq!(sys.current(), IconId(1));

    assert_eq!(sys.on_exit(s), Some(IconId(0)));
    assert_eq!(sys.current(), IconId(0));
}

#[test]
fn scenario_two_overlapping_widgets() {
    // A entered first, then B, both at priority 0: the most recent wins;
    // exits restore in reverse.
    let a = EntityId(1);
    let b = EntityId(2);
    let mut sys = CursorSystem::init(IconId(0));
    sys.register(a, Tier::Hover, IconId(1), 0);
    sys.register(b, Tier::Hover, IconId(3), 0);

    sys.on_enter(a);
    assert_eq!(sys.current(), IconId(1));
    sys.on_enter(b);
    assert_eq!(sys.current(), IconId(3));
    sys.on_exit(b);
    assert_eq!(sys.current(), IconId(1));
    sys.on_exit(a);
    assert_eq!(sys.current(), IconId(0));
}

#[test]
fn scenario_destroyed_mid_press() {
    // S is destroyed while its click handle is outstanding (no release
    // delivered): both of S's handles must leave the stack at once, and the
    // previous hover-tier top is restored.
    let a = EntityId(1);
    let s = EntityId(2);
    let mut sys = CursorSystem::init(IconId(0));
    sys.register(a, Tier::Hover, IconId(1), 0);
    sys.register(s, Tier::Hover, IconId(3), 0);
    sys.register(s, Tier::Click, IconId(2), 1);

    sys.on_enter(a);
    sys.on_enter(s);
    sys.on_press(s);
    assert_eq!(sys.current(), IconId(2));

    assert_eq!(sys.destroy_entity(s), Some(IconId(1)));
    assert_eq!(sys.current(), IconId(1));
    // Nothing of S is left: its events are silent no-ops now.
    assert_eq!(sys.on_release(s), None);
    assert_eq!(sys.on_exit(s), None);

    sys.on_exit(a);
    assert_eq!(sys.current(), IconId(0));
}

#[test]
fn nested_hovers_unwind_in_reverse_order() {
    // Enter, Enter, Exit, Exit on one widget: the first exit pops the
    // request of the second enter, the second exit pops the first one.
    // Re-registering between the enters makes the two pushes distinguishable.
    let s = EntityId(9);
    let mut sys = CursorSystem::init(IconId(0));
    sys.register(s, Tier::Hover, IconId(1), 0);
    sys.on_enter(s);
    assert_eq!(sys.current(), IconId(1));
    sys.register(s, Tier::Hover, IconId(3), 0);
    sys.on_enter(s);
    assert_eq!(sys.current(), IconId(3));
    assert_eq!(sys.on_exit(s), Some(IconId(1))); // most recent request popped first
    assert_eq!(sys.on_exit(s), Some(IconId(0)));
}

#[test]
fn baseline_persists_when_no_requests_are_active() {
    let s = EntityId(3);
    let mut sys = CursorSystem::init(IconId(0));
    sys.register(s, Tier::Hover, IconId(1), 7);
    for _ in 0..3 {
        sys.on_enter(s);
        assert_eq!(sys.current(), IconId(1));
        sys.on_exit(s);
        assert_eq!(sys.current(), IconId(0));
    }
}

#[test]
fn events_without_a_declaration_do_nothing() {
    let s = EntityId(5);
    let mut sys = CursorSystem::init(IconId(0));
    assert_eq!(sys.on_enter(s), None);
    assert_eq!(sys.on_press(s), None);
    assert_eq!(sys.current(), IconId(0));
}

#[test]
fn pops_without_outstanding_requests_are_silent() {
    let s = EntityId(6);
    let mut sys = CursorSystem::init(IconId(0));
    sys.register(s, Tier::Hover, IconId(1), 0);
    sys.register(s, Tier::Click, IconId(2), 1);
    assert_eq!(sys.on_release(s), None);
    assert_eq!(sys.on_exit(s), None);
    assert_eq!(sys.current(), IconId(0));
}

#[test]
fn destroy_removes_exactly_the_entitys_requests() {
    let a = EntityId(1);
    let b = EntityId(2);
    let mut sys = CursorSystem::init(IconId(0));
    sys.register(a, Tier::Hover, IconId(1), 0);
    sys.register(a, Tier::Click, IconId(2), 1);
    sys.register(b, Tier::Hover, IconId(3), 0);

    sys.on_enter(b);
    sys.on_enter(a);
    sys.on_press(a);
    assert_eq!(sys.current(), IconId(2));

    // A owned two handles across both tiers; destroying A removes exactly
    // those, and B's request becomes the top again.
    assert_eq!(sys.destroy_entity(a), Some(IconId(3)));
    assert_eq!(sys.current(), IconId(3));

    sys.on_exit(b);
    assert_eq!(sys.current(), IconId(0));
}

#[test]
fn priority_beats_recency() {
    let a = EntityId(1);
    let b = EntityId(2);
    let mut sys = CursorSystem::init(IconId(0));
    sys.register(a, Tier::Hover, IconId(2), 1);
    sys.register(b, Tier::Hover, IconId(3), 0);
    sys.on_enter(a);
    sys.on_enter(b); // more recent, but lower priority
    assert_eq!(sys.current(), IconId(2));
    sys.on_exit(a);
    assert_eq!(sys.current(), IconId(3));
}

#[test]
fn push_reports_only_changes_pops_always_report() {
    let a = EntityId(1);
    let b = EntityId(2);
    let mut sys = CursorSystem::init(IconId(0));
    sys.register(a, Tier::Hover, IconId(1), 1);
    sys.register(b, Tier::Hover, IconId(1), 0);
    assert_eq!(sys.on_enter(a), Some(IconId(1)));
    // B's request loses to A's and shows the same icon anyway: no update.
    assert_eq!(sys.on_enter(b), None);
    // Pops reassert whatever the stack now shows.
    assert_eq!(sys.on_exit(b), Some(IconId(1)));
    assert_eq!(sys.on_exit(a), Some(IconId(0)));
}

#[test]
fn register_replaces_the_declaration() {
    let s = EntityId(4);
    let mut sys = CursorSystem::init(IconId(0));
    sys.register(s, Tier::Hover, IconId(1), 0);
    sys.register(s, Tier::Hover, IconId(3), 2);
    sys.on_enter(s);
    assert_eq!(sys.current(), IconId(3));
    sys.on_exit(s);
    assert_eq!(sys.current(), IconId(0));
}

#[test]
fn handle_event_drives_the_four_kinds() {
    let s = EntityId(8);
    let mut sys = CursorSystem::init(IconId(0));
    sys.register(s, Tier::Hover, IconId(1), 0);
    sys.register(s, Tier::Click, IconId(2), 1);
    assert_eq!(sys.handle_event(PointerEvent::Enter(s)), Some(IconId(1)));
    assert_eq!(sys.handle_event(PointerEvent::Press(s)), Some(IconId(2)));
    assert_eq!(sys.handle_event(PointerEvent::Release(s)), Some(IconId(1)));
    assert_eq!(sys.handle_event(PointerEvent::Exit(s)), Some(IconId(0)));
    assert!(sys.has_room());
}
