use ui_core::tween::{Easing, StepResult, Tween, TweenEngine, TweenProperty, TweenSample};
use ui_core::{Color, NodeId, Scalar, UIEvent, UiContext, Vec2};

fn s(v: f32) -> Scalar {
    Scalar::from_bits(v.to_bits())
}

fn f(x: Scalar) -> f32 {
    f32::from_bits(x.bits)
}

fn target() -> NodeId {
    UiContext::new(s(1.0), s(1.0)).root
}

fn tween(property: TweenProperty, duration: f32, on_complete: Vec<UIEvent>) -> Tween {
    Tween {
        property,
        duration: s(duration),
        elapsed: s(0.0),
        easing: Easing::Linear,
        target: target(),
        done: false,
        on_complete,
    }
}

fn step(p: TweenProperty, _e: Easing, elapsed: Scalar, duration: Scalar, dt: Scalar) -> StepResult {
    let el = f(elapsed) + f(dt);
    let t = (el / f(duration)).clamp(0.0, 1.0);
    let v = match p {
        TweenProperty::Opacity { from, to } => TweenSample::Number(s(f(from) + (f(to) - f(from)) * t)),
        TweenProperty::Position { from, to } | TweenProperty::Size { from, to } => TweenSample::Vector(Vec2::new(
            s(f(from.x) + (f(to.x) - f(from.x)) * t),
            s(f(from.y) + (f(to.y) - f(from.y)) * t),
        )),
        TweenProperty::Color { to, .. } => TweenSample::Tint(to),
    };
    (s(el), el >= f(duration), v)
}

fn drain(engine: &mut TweenEngine) -> Vec<UIEvent> {
    engine.drain_events()
}

#[test]
fn each_running_tween_emits_one_edit_per_step() {
    let mut engine = TweenEngine::default();
    engine.add(tween(TweenProperty::Opacity { from: s(0.0), to: s(1.0) }, 4.0, vec![]));
    engine.add(tween(
        TweenProperty::Position { from: Vec2::new(s(0.0), s(0.0)), to: Vec2::new(s(8.0), s(4.0)) },
        4.0,
        vec![],
    ));
    engine.update(s(1.0), &step);
    let evs = drain(&mut engine);
    assert_eq!(evs.len(), 2);
    match &evs[0] {
        UIEvent::SetOpacity { opacity, .. } => assert_eq!(f(*opacity), 0.25),
        _ => panic!("opacity edit expected first"),
    }
    match &evs[1] {
        UIEvent::SetPosition { offset, .. } => {
            assert_eq!(*offset, ui_core::UiVec2::pixels(s(2.0), s(1.0)));
        }
        _ => panic!("position edit expected second"),
    }
    assert!(drain(&mut engine).is_empty());
}

#[test]
fn finishing_tween_queues_completion_first_then_leaves() {
    let mut engine = TweenEngine::new();
    let done = vec![UIEvent::SetVisible { target: target(), visible: false }];
    engine.add(tween(TweenProperty::Color { from: Color::white(), to: Color::new(0, 0, 0, 255) }, 1.0, done));
    engine.update(s(2.0), &step);
    let evs = drain(&mut engine);
    assert_eq!(evs.len(), 2);
    assert!(matches!(evs[0], UIEvent::SetVisible { visible: false, .. }));
    assert!(matches!(evs[1], UIEvent::SetColor { color, .. } if color == Color::new(0, 0, 0, 255)));
    // gone: the next step produces nothing
    engine.update(s(2.0), &step);
    assert!(drain(&mut engine).is_empty());
}

#[test]
fn tween_added_done_is_dropped_silently() {
    let mut engine = TweenEngine::new();
    let mut t = tween(TweenProperty::Opacity { from: s(0.0), to: s(1.0) }, 1.0, vec![UIEvent::SetVisible { target: target(), visible: true }]);
    t.done = true;
    engine.add(t);
    engine.add(tween(TweenProperty::Size { from: Vec2::new(s(0.0), s(0.0)), to: Vec2::new(s(2.0), s(2.0)) }, 2.0, vec![]));
    engine.update(s(1.0), &step);
    let evs = drain(&mut engine);
    assert_eq!(evs.len(), 1);
    assert!(matches!(evs[0], UIEvent::SetSize { .. }));
}

#[test]
fn a_sample_of_the_wrong_kind_queues_nothing() {
    let mut engine = TweenEngine::new();
    engine.add(tween(TweenProperty::Opacity { from: s(0.0), to: s(1.0) }, 2.0, vec![]));
    engine.update(s(1.0), &|_, _, e, _, _| (e, false, TweenSample::Tint(Color::white())));
    assert!(drain(&mut engine).is_empty());
    // still running
    engine.update(s(1.0), &step);
    assert_eq!(drain(&mut engine).len(), 1);
}

#[test]
fn engine_keeps_unfinished_tweens_in_order() {
    let mut engine = TweenEngine::new();
    engine.add(tween(TweenProperty::Opacity { from: s(0.0), to: s(1.0) }, 1.0, vec![]));
    engine.add(tween(TweenProperty::Opacity { from: s(0.0), to: s(1.0) }, 3.0, vec![]));
    engine.add(tween(TweenProperty::Opacity { from: s(1.0), to: s(0.0) }, 3.0, vec![]));
    engine.update(s(1.0), &step);
    assert_eq!(drain(&mut engine).len(), 3);
    engine.update(s(1.0), &step);
    let evs = drain(&mut engine);
    assert_eq!(evs.len(), 2);
    let values: Vec<f32> = evs
        .iter()
        .map(|e| match e {
            UIEvent::SetOpacity { opacity, .. } => f(*opacity),
            _ => panic!(),
        })
        .collect();
    assert!((values[0] - 2.0 / 3.0).abs() < 1e-6);
    assert!((values[1] - 1.0 / 3.0).abs() < 1e-6);
}

#[test]
fn custom_easing_reaches_the_step() {
    let mut engine = TweenEngine::new();
    let mut t = tween(TweenProperty::Opacity { from: s(0.0), to: s(1.0) }, 2.0, vec![]);
    t.easing = Easing::Custom(7);
    engine.add(t);
    engine.update(s(1.0), &|_, e, el, _, _| {
        assert_eq!(e, Easing::Custom(7));
        (el, false, TweenSample::Number(s(0.75)))
    });
    let evs = drain(&mut engine);
    assert!(matches!(evs[0], UIEvent::SetOpacity { opacity, .. } if f(opacity) == 0.75));
}
