use ui_core::{
    Anchor, ButtonStyle, Color, Interact, InteractState, LayoutProps, NodeId, Scalar, UIEvent,
    UIOutputEvent, UiContext, UiUnit, UiVec2, Vec2, VisualKind, VisualProps,
};
use ui_core::tween::{Easing, StepResult, Tween, TweenProperty, TweenSample};

fn s(v: f32) -> Scalar {
    Scalar::from_bits(v.to_bits())
}

fn f(x: Scalar) -> f32 {
    f32::from_bits(x.bits)
}

fn v2(x: f32, y: f32) -> Vec2 {
    Vec2::new(s(x), s(y))
}

fn resolve(unit: UiUnit, sw: f32, sh: f32, parent: f32) -> f32 {
    match unit {
        UiUnit::Pixels(px) => f(px),
        UiUnit::ScreenWidth(r) => f(r) * sw,
        UiUnit::ScreenHeight(r) => f(r) * sh,
        UiUnit::ParentPercent(p) => f(p) * parent,
    }
}

/// Anchor placement on floats, as the application does it.
fn place(
    anchor: Anchor,
    offset: UiVec2,
    size: UiVec2,
    parent_pos: Vec2,
    parent_size: Vec2,
    sw: Scalar,
    sh: Scalar,
) -> (Vec2, Vec2) {
    let (px, py, pw, ph) = (f(parent_pos.x), f(parent_pos.y), f(parent_size.x), f(parent_size.y));
    let ox = resolve(offset.x, f(sw), f(sh), pw);
    let oy = resolve(offset.y, f(sw), f(sh), ph);
    let nw = resolve(size.x, f(sw), f(sh), pw);
    let nh = resolve(size.y, f(sw), f(sh), ph);
    let (x, y) = match anchor {
        Anchor::TopLeft => (px + ox, py + oy),
        Anchor::TopRight => (px + pw - nw - ox, py + oy),
        Anchor::BottomLeft => (px + ox, py + ph - nh - oy),
        Anchor::BottomRight => (px + pw - nw - ox, py + ph - nh - oy),
        Anchor::Center => (px + (pw - nw) / 2.0 + ox, py + (ph - nh) / 2.0 + oy),
    };
    (v2(x, y), v2(nw, nh))
}

fn setup() -> (UiContext, LayoutProps, VisualProps) {
    (
        UiContext::new(s(1920.0), s(1080.0)),
        LayoutProps::new(
            Anchor::Center,
            UiVec2::pixels(s(20.0), s(20.0)),
            UiVec2::pixels(s(180.0), s(40.0)),
        ),
        VisualProps::default(),
    )
}

fn children(ctx: &UiContext, id: NodeId) -> Vec<NodeId> {
    ctx.node(id).unwrap().children.clone()
}

#[test]
fn test_regression() {
    let (mut ui_ctx, layout, visual) = setup();
    let id_child = ui_ctx.add_node(ui_ctx.root, layout, visual);

    ui_ctx.remove_node(id_child);
    let is_empty = ui_ctx.node(ui_ctx.root).unwrap().children.is_empty();
    assert!(is_empty);
}

#[test]
fn test_taversal_order() {
    let (mut ui_ctx, layout1, visual1) = setup();
    let (_, layout2, visual2) = setup();
    let (_, layout3, visual3) = setup();

    ui_ctx.add_node(ui_ctx.root, layout1, visual1);
    ui_ctx.add_node(ui_ctx.root, layout2, visual2);
    ui_ctx.add_node(ui_ctx.root, layout3, visual3);

    let order = ui_ctx.build_traversal_order();

    assert_eq!(order[0], ui_ctx.root);
    assert_eq!(order.len(), 4);
}

#[test]
fn test_pipline() {
    let mut ui_ctx = UiContext::new(s(1920.0), s(1080.0));
    let layout = LayoutProps::new(
        Anchor::TopRight,
        UiVec2::pixels(s(20.0), s(20.0)),
        UiVec2::pixels(s(180.0), s(40.0)),
    );
    let node_id = ui_ctx.add_node(ui_ctx.root, layout, VisualProps::default());
    ui_ctx.resolve_layout(&place);

    let node = ui_ctx.node(node_id).expect("node devrait exister");
    let expected = v2(1720.0, 20.0);
    assert_eq!(node.layout.computed_pos, expected);
}

#[test]
fn new_context_has_only_the_root() {
    let ctx = UiContext::new(s(800.0), s(600.0));
    assert_eq!(ctx.root.index, 0);
    let root = ctx.node(ctx.root).unwrap();
    assert_eq!(root.layout.computed_pos, v2(0.0, 0.0));
    assert_eq!(root.layout.computed_size, v2(800.0, 600.0));
    assert_eq!(root.layout.size, UiVec2::pixels(s(800.0), s(600.0)));
    assert_eq!(root.layout.anchor, Anchor::Center);
    assert!(root.visual.visible);
    assert_eq!(f(root.visual.opacity), 0.0);
    assert_eq!(root.visual.kind, VisualKind::Rect);
    assert!(root.parent.is_none());
    assert!(root.children.is_empty());
    assert_eq!(ctx.build_traversal_order(), vec![ctx.root]);
    assert_eq!(ctx.size(), (s(800.0), s(600.0)));
}

#[test]
fn add_node_links_parent_and_child() {
    let (mut ctx, layout, visual) = setup();
    let a = ctx.add_node(ctx.root, layout, visual);
    let b = ctx.add_node(a, LayoutProps::new(Anchor::TopLeft, UiVec2::pixels(s(1.0), s(2.0)), UiVec2::pixels(s(3.0), s(4.0))), VisualProps::default());
    assert_eq!(a.index, 1);
    assert_eq!(b.index, 2);
    assert_eq!(children(&ctx, ctx.root), vec![a]);
    assert_eq!(children(&ctx, a), vec![b]);
    let nb = ctx.node(b).unwrap();
    assert_eq!(nb.parent, Some(a));
    assert!(nb.dirty.layout_dirty && nb.dirty.visual_dirty);
    assert_eq!(nb.layout.computed_pos, v2(0.0, 0.0));
    assert!(nb.interact.is_none());
}

#[test]
fn add_node_under_a_missing_parent_stays_detached() {
    let (mut ctx, layout, visual) = setup();
    let a = ctx.add_node(ctx.root, layout, visual);
    ctx.remove_node(a);
    let b = ctx.add_node(a, LayoutProps::new(Anchor::TopLeft, UiVec2::pixels(s(1.0), s(2.0)), UiVec2::pixels(s(3.0), s(4.0))), VisualProps::default());
    assert_eq!(ctx.node(b).unwrap().parent, Some(a));
    assert_eq!(ctx.build_traversal_order(), vec![ctx.root]);
}

#[test]
fn remove_node_detaches_whole_subtree() {
    let (mut ctx, layout, visual) = setup();
    let a = ctx.add_node(ctx.root, layout, visual);
    let b = ctx.add_node(a, LayoutProps::new(Anchor::TopLeft, UiVec2::pixels(s(1.0), s(2.0)), UiVec2::pixels(s(3.0), s(4.0))), VisualProps::default());
    let c = ctx.add_node(ctx.root, LayoutProps::new(Anchor::TopLeft, UiVec2::pixels(s(1.0), s(2.0)), UiVec2::pixels(s(3.0), s(4.0))), VisualProps::default());
    ctx.remove_node(a);
    assert!(ctx.node(a).is_none());
    assert!(ctx.node(b).is_some());
    assert_eq!(children(&ctx, ctx.root), vec![c]);
    assert_eq!(ctx.build_traversal_order(), vec![ctx.root, c]);
    // removing again does nothing
    ctx.remove_node(a);
    assert_eq!(children(&ctx, ctx.root), vec![c]);
}

#[test]
fn traversal_is_breadth_first() {
    let (mut ctx, layout, visual) = setup();
    let lay = || LayoutProps::new(Anchor::TopLeft, UiVec2::pixels(s(0.0), s(0.0)), UiVec2::pixels(s(1.0), s(1.0)));
    let a = ctx.add_node(ctx.root, layout, visual);
    let b = ctx.add_node(ctx.root, lay(), VisualProps::default());
    let a1 = ctx.add_node(a, lay(), VisualProps::default());
    let b1 = ctx.add_node(b, lay(), VisualProps::default());
    let a2 = ctx.add_node(a, lay(), VisualProps::default());
    let a11 = ctx.add_node(a1, lay(), VisualProps::default());
    assert_eq!(ctx.build_traversal_order(), vec![ctx.root, a, b, a1, a2, b1, a11]);
}

fn style() -> ButtonStyle {
    ButtonStyle {
        normal: Color::new(1, 1, 1, 255),
        hover: Color::new(2, 2, 2, 255),
        pressed: Color::new(3, 3, 3, 255),
    }
}

fn inside(m: Vec2, p: Vec2, z: Vec2) -> bool {
    f(m.x) >= f(p.x) && f(m.x) <= f(p.x) + f(z.x) && f(m.y) >= f(p.y) && f(m.y) <= f(p.y) + f(z.y)
}

#[test]
fn interact_state_round_trip() {
    let (mut ctx, layout, visual) = setup();
    let a = ctx.add_node(ctx.root, layout, visual);
    assert_eq!(ctx.get_interact_state(a), InteractState::Normal);
    ctx.set_interact(a, Interact { state: InteractState::Hover, style: style() });
    assert_eq!(ctx.get_interact_state(a), InteractState::Hover);
    ctx.remove_node(a);
    assert_eq!(ctx.get_interact_state(a), InteractState::Normal);
    ctx.set_interact(a, Interact { state: InteractState::Pressed, style: style() });
    assert_eq!(ctx.get_interact_state(a), InteractState::Normal);
}

#[test]
fn pointer_reaches_topmost_node_only() {
    let mut ctx = UiContext::new(s(100.0), s(100.0));
    let full = LayoutProps::new(Anchor::TopLeft, UiVec2::pixels(s(0.0), s(0.0)), UiVec2::pixels(s(50.0), s(50.0)));
    let a = ctx.add_node(ctx.root, full, VisualProps::default());
    let full2 = LayoutProps::new(Anchor::TopLeft, UiVec2::pixels(s(0.0), s(0.0)), UiVec2::pixels(s(50.0), s(50.0)));
    let b = ctx.add_node(ctx.root, full2, VisualProps::default());
    ctx.set_interact(a, Interact { state: InteractState::Normal, style: style() });
    ctx.set_interact(b, Interact { state: InteractState::Normal, style: style() });
    ctx.resolve_layout(&place);

    // over both: only b, drawn last, is reached
    let out = ctx.process_input(v2(10.0, 10.0), false, false, &inside);
    assert_eq!(out, vec![UIOutputEvent::Hovered { id: b }]);
    assert_eq!(ctx.get_interact_state(b), InteractState::Hover);
    assert_eq!(ctx.get_interact_state(a), InteractState::Normal);
    assert_eq!(ctx.node(b).unwrap().visual.color, style().hover);
    assert!(ctx.node(b).unwrap().dirty.visual_dirty);

    let out = ctx.process_input(v2(10.0, 10.0), true, false, &inside);
    assert_eq!(out, vec![UIOutputEvent::Clicked { id: b }]);
    assert_eq!(ctx.node(b).unwrap().visual.color, style().pressed);

    // pointer leaves while released: b reports the release, a nothing
    let out = ctx.process_input(v2(90.0, 90.0), false, true, &inside);
    assert_eq!(out, vec![UIOutputEvent::Released { id: b }]);
    assert_eq!(ctx.get_interact_state(b), InteractState::Normal);
    assert_eq!(ctx.node(b).unwrap().visual.color, style().normal);
}

#[test]
fn events_apply_on_update_in_order() {
    let (mut ctx, layout, visual) = setup();
    let a = ctx.add_node(ctx.root, layout, visual);
    ctx.update(s(0.0), &|_, _, e, _, _| (e, false, TweenSample::Number(s(0.0))), &place);
    assert!(!ctx.node(a).unwrap().dirty.layout_dirty);
    ctx.send_event(UIEvent::SetColor { target: a, color: Color::new(9, 8, 7, 6) });
    ctx.send_event(UIEvent::SetColor { target: a, color: Color::new(1, 2, 3, 4) });
    ctx.send_event(UIEvent::SetVisible { target: a, visible: false });
    ctx.send_event(UIEvent::SetOpacity { target: a, opacity: s(0.5) });
    ctx.send_event(UIEvent::SetText { target: a, content: String::from("ignored") });
    ctx.send_event(UIEvent::SetSize { target: a, size: UiVec2::pixels(s(10.0), s(10.0)) });
    // not applied yet
    assert_eq!(ctx.node(a).unwrap().visual.color, Color::white());
    ctx.update(s(0.0), &|_, _, e, _, _| (e, false, TweenSample::Number(s(0.0))), &place);
    let n = ctx.node(a).unwrap();
    assert_eq!(n.visual.color, Color::new(1, 2, 3, 4));
    assert!(!n.visual.visible);
    assert_eq!(f(n.visual.opacity), 0.5);
    assert_eq!(n.visual.kind, VisualKind::Rect);
    // layout resolved with the new size, then everything marked clean
    assert_eq!(n.layout.computed_size, v2(10.0, 10.0));
    assert_eq!(n.layout.computed_pos, v2(975.0, 555.0));
    assert!(!n.dirty.layout_dirty && !n.dirty.visual_dirty);
}

#[test]
fn set_text_and_material_events() {
    let (mut ctx, layout, _) = setup();
    let mut visual = VisualProps::default();
    visual.kind = VisualKind::Text { content: String::from("old"), font_size: s(12.0) };
    let a = ctx.add_node(ctx.root, layout, visual);
    ctx.send_event(UIEvent::SetText { target: a, content: String::from("new") });
    ctx.update(s(0.0), &|_, _, e, _, _| (e, false, TweenSample::Number(s(0.0))), &place);
    assert_eq!(ctx.node(a).unwrap().visual.kind, VisualKind::Text { content: String::from("new"), font_size: s(12.0) });
    ctx.send_event(UIEvent::SetMaterial {
        target: a,
        id: ui_core::MaterialId { index: 3 },
        texture_id: None,
        uniform_data: vec![1, 2],
    });
    ctx.update(s(0.0), &|_, _, e, _, _| (e, false, TweenSample::Number(s(0.0))), &place);
    assert_eq!(
        ctx.node(a).unwrap().visual.kind,
        VisualKind::Material { material_id: ui_core::MaterialId { index: 3 }, texture_id: None, uniform_data: vec![1, 2] }
    );
}

fn opacity_tween(target: NodeId, done_event: Vec<UIEvent>) -> Tween {
    Tween {
        property: TweenProperty::Opacity { from: s(0.0), to: s(1.0) },
        duration: s(1.0),
        elapsed: s(0.0),
        easing: Easing::Linear,
        target,
        done: false,
        on_complete: done_event,
    }
}

fn sample(p: TweenProperty, _e: Easing, elapsed: Scalar, duration: Scalar, dt: Scalar) -> StepResult {
    let el = f(elapsed) + f(dt);
    let t = (el / f(duration)).clamp(0.0, 1.0);
    let v = match p {
        TweenProperty::Opacity { from, to } => TweenSample::Number(s(f(from) + (f(to) - f(from)) * t)),
        TweenProperty::Position { from, to } | TweenProperty::Size { from, to } => TweenSample::Vector(v2(
            f(from.x) + (f(to.x) - f(from.x)) * t,
            f(from.y) + (f(to.y) - f(from.y)) * t,
        )),
        TweenProperty::Color { to, .. } => TweenSample::Tint(to),
    };
    (s(el), el >= f(duration), v)
}

#[test]
fn tween_drives_opacity_and_completes_once() {
    let (mut ctx, layout, visual) = setup();
    let a = ctx.add_node(ctx.root, layout, visual);
    ctx.tween.add(opacity_tween(a, vec![UIEvent::SetVisible { target: a, visible: false }]));
    ctx.update(s(0.5), &sample, &place);
    let n = ctx.node(a).unwrap();
    assert_eq!(f(n.visual.opacity), 0.5);
    assert!(n.visual.visible);
    ctx.update(s(0.5), &sample, &place);
    let n = ctx.node(a).unwrap();
    assert_eq!(f(n.visual.opacity), 1.0);
    assert!(!n.visual.visible);
    // the finished tween is gone: nothing changes any more
    ctx.send_event(UIEvent::SetVisible { target: a, visible: true });
    ctx.update(s(0.5), &sample, &place);
    let n = ctx.node(a).unwrap();
    assert!(n.visual.visible);
    assert_eq!(f(n.visual.opacity), 1.0);
}

#[test]
fn resize_lays_out_again() {
    let mut ctx = UiContext::new(s(1920.0), s(1080.0));
    let layout = LayoutProps::new(Anchor::BottomRight, UiVec2::pixels(s(10.0), s(10.0)), UiVec2::pixels(s(100.0), s(50.0)));
    let a = ctx.add_node(ctx.root, layout, VisualProps::default());
    ctx.resize(s(800.0), s(600.0), &place);
    assert_eq!(ctx.size(), (s(800.0), s(600.0)));
    assert_eq!(ctx.node(ctx.root).unwrap().layout.computed_size, v2(800.0, 600.0));
    assert_eq!(ctx.node(a).unwrap().layout.computed_pos, v2(690.0, 540.0));
}

#[test]
fn screen_units_follow_the_screen() {
    let mut ctx = UiContext::new(s(1000.0), s(500.0));
    let layout = LayoutProps::new(Anchor::TopLeft, UiVec2::screen(s(0.1), s(0.2)), UiVec2::screen(s(0.5), s(0.5)));
    let a = ctx.add_node(ctx.root, layout, VisualProps::default());
    ctx.resolve_layout(&place);
    assert_eq!(ctx.node(a).unwrap().layout.computed_pos, v2(100.0, 100.0));
    assert_eq!(ctx.node(a).unwrap().layout.computed_size, v2(500.0, 250.0));
}

#[test]
fn edits_of_a_removed_node_are_ignored() {
    let (mut ctx, layout, visual) = setup();
    let a = ctx.add_node(ctx.root, layout, visual);
    let b = ctx.add_node(ctx.root, LayoutProps::new(Anchor::TopLeft, UiVec2::pixels(s(0.0), s(0.0)), UiVec2::pixels(s(5.0), s(5.0))), VisualProps::default());
    ctx.update(s(0.0), &|_, _, e, _, _| (e, false, TweenSample::Number(s(0.0))), &place);
    ctx.remove_node(a);
    ctx.send_event(UIEvent::SetColor { target: a, color: Color::new(0, 0, 0, 0) });
    ctx.send_event(UIEvent::SetPosition { target: a, offset: UiVec2::pixels(s(3.0), s(3.0)) });
    ctx.update(s(0.0), &|_, _, e, _, _| (e, false, TweenSample::Number(s(0.0))), &place);
    assert!(ctx.node(a).is_none());
    // the other node is untouched by edits aimed elsewhere
    let n = ctx.node(b).unwrap();
    assert_eq!(n.visual.color, Color::white());
    assert_eq!(n.layout.computed_pos, v2(0.0, 0.0));
    assert!(!n.dirty.layout_dirty && !n.dirty.visual_dirty);
}

#[test]
fn layout_twice_changes_nothing() {
    let mut ctx = UiContext::new(s(640.0), s(480.0));
    let a = ctx.add_node(ctx.root, LayoutProps::new(Anchor::BottomLeft, UiVec2::pixels(s(4.0), s(6.0)), UiVec2::screen(s(0.25), s(0.5))), VisualProps::default());
    let b = ctx.add_node(a, LayoutProps::new(Anchor::Center, UiVec2::pixels(s(1.0), s(1.0)), UiVec2::new(UiUnit::ParentPercent(s(0.5)), UiUnit::ScreenWidth(s(0.1)))), VisualProps::default());
    ctx.resolve_layout(&place);
    let first: Vec<(Vec2, Vec2)> = [a, b].iter().map(|id| {
        let n = ctx.node(*id).unwrap();
        (n.layout.computed_pos, n.layout.computed_size)
    }).collect();
    ctx.resolve_layout(&place);
    let second: Vec<(Vec2, Vec2)> = [a, b].iter().map(|id| {
        let n = ctx.node(*id).unwrap();
        (n.layout.computed_pos, n.layout.computed_size)
    }).collect();
    assert_eq!(first, second);
    assert_eq!(first[0], (v2(4.0, 234.0), v2(160.0, 240.0)));
    // a screen-width ratio on the vertical axis is of the screen width
    assert_eq!(first[1].1, v2(80.0, 64.0));
}

#[test]
fn size_reports_the_last_resize() {
    let mut ctx = UiContext::new(s(100.0), s(50.0));
    assert_eq!(ctx.size(), (s(100.0), s(50.0)));
    let a = ctx.add_node(ctx.root, LayoutProps::new(Anchor::TopLeft, UiVec2::pixels(s(0.0), s(0.0)), UiVec2::pixels(s(1.0), s(1.0))), VisualProps::default());
    ctx.update(s(0.1), &|_, _, e, _, _| (e, false, TweenSample::Number(s(0.0))), &place);
    ctx.remove_node(a);
    assert_eq!(ctx.size(), (s(100.0), s(50.0)));
    ctx.resize(s(300.0), s(200.0), &place);
    ctx.resize(s(30.0), s(20.0), &place);
    ctx.send_event(UIEvent::SetVisible { target: ctx.root, visible: false });
    ctx.update(s(0.1), &|_, _, e, _, _| (e, false, TweenSample::Number(s(0.0))), &place);
    assert_eq!(ctx.size(), (s(30.0), s(20.0)));
}
