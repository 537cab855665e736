use raytracing::trace::{closest_hit, respond, Action, Event, MaterialKind, PathTrace, Phase, Response};

#[test]
fn closest_hit_prefers_smallest_key() {
    assert_eq!(closest_hit(&vec![None, Some(5), Some(3), Some(7)]), Some(2));
}

#[test]
fn closest_hit_ties_go_to_first_object() {
    assert_eq!(closest_hit(&vec![Some(4), Some(4)]), Some(0));
    assert_eq!(closest_hit(&vec![None, Some(3), Some(3)]), Some(1));
}

#[test]
fn closest_hit_misses_everything() {
    assert_eq!(closest_hit(&vec![None, None]), None);
    assert_eq!(closest_hit(&vec![]), None);
}

#[test]
fn mirror_always_reflects() {
    assert_eq!(respond(MaterialKind::Mirror, true, false), Response::Reflect);
    assert_eq!(respond(MaterialKind::Mirror, false, false), Response::Reflect);
}

#[test]
fn glass_refracts_or_reflects_totally() {
    assert_eq!(respond(MaterialKind::Glass, true, false), Response::Refract);
    assert_eq!(respond(MaterialKind::Glass, false, true), Response::Reflect);
}

#[test]
fn half_mirror_follows_the_draw() {
    assert_eq!(respond(MaterialKind::HalfMirror, true, true), Response::Reflect);
    assert_eq!(respond(MaterialKind::HalfMirror, true, false), Response::Transmit);
}

#[test]
fn zero_budget_never_searches() {
    let t = PathTrace::new(0);
    assert!(!t.is_searching());
    assert_eq!(t.phase, Phase::Exhausted);
}

#[test]
fn mirror_bounce_then_escape() {
    // a mirror plane struck once, then nothing: start, hit point, far point
    let mut t = PathTrace::new(10);
    let mut vertices = 1;
    assert!(t.is_searching());
    let a = t.step(Event::Hit { kind: MaterialKind::Mirror, refracts: false, reflect_drawn: false });
    assert_eq!(a, Action::Bounce(Response::Reflect));
    vertices += 1;
    assert!(t.is_searching());
    assert_eq!(t.step(Event::Missed), Action::AppendFarPoint);
    vertices += 1;
    assert!(!t.is_searching());
    assert_eq!(t.phase, Phase::Escaped);
    assert_eq!(vertices, 3);
    assert_eq!(t.bounces, 1);
}

#[test]
fn glass_sphere_entry_and_exit() {
    let mut t = PathTrace::new(10);
    let hit = Event::Hit { kind: MaterialKind::Glass, refracts: true, reflect_drawn: false };
    assert_eq!(t.step(hit), Action::Bounce(Response::Refract));
    assert_eq!(t.step(hit), Action::Bounce(Response::Refract));
    assert_eq!(t.step(Event::Missed), Action::AppendFarPoint);
    assert_eq!(t.bounces, 2);
}

#[test]
fn budget_ends_without_far_point() {
    let mut t = PathTrace::new(3);
    let hit = Event::Hit { kind: MaterialKind::Mirror, refracts: false, reflect_drawn: false };
    let mut steps = 0;
    while t.is_searching() {
        assert_eq!(t.step(hit), Action::Bounce(Response::Reflect));
        steps += 1;
    }
    assert_eq!(steps, 3);
    assert_eq!(t.phase, Phase::Exhausted);
    assert_eq!(t.bounces, 3);
}

#[test]
fn path_never_exceeds_budget_plus_one() {
    for max in 0..5u32 {
        for miss_at in 0..6u32 {
            let mut t = PathTrace::new(max);
            let mut vertices = 1u32;
            let mut searches = 0u32;
            while t.is_searching() {
                let event = if searches == miss_at {
                    Event::Missed
                } else {
                    Event::Hit { kind: MaterialKind::HalfMirror, refracts: false, reflect_drawn: false }
                };
                let action = t.step(event);
                if searches != miss_at {
                    assert_eq!(action, Action::Bounce(Response::Transmit));
                }
                searches += 1;
                vertices += 1;
            }
            assert!(vertices <= max + 1);
        }
    }
}
