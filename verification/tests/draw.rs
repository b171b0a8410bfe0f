use ui_core::{
    Anchor, Color, DrawCommand, DrawCommandBuffer, LayoutProps, MaterialId, NinePatchMargins, Scalar,
    TextureId, UiContext, UiVec2, Vec2, VisualKind, VisualProps,
};

fn s(v: f32) -> Scalar {
    Scalar::from_bits(v.to_bits())
}

fn v2(x: f32, y: f32) -> Vec2 {
    Vec2::new(s(x), s(y))
}

fn alpha(c: Color, opacity: Scalar) -> Color {
    Color::new(c.r, c.g, c.b, (f32::from_bits(opacity.bits).clamp(0.0, 1.0) * 255.0) as u8)
}

fn key(c: &DrawCommand) -> (u8, u32, u32) {
    match c {
        DrawCommand::Rect { layer, .. } => (*layer, 0, 0),
        DrawCommand::Texture { layer, texture_id, .. } => (*layer, texture_id.index as u16 as u32, 0),
        DrawCommand::Material { layer, texture_id, material_id, .. } => {
            (*layer, texture_id.map(|t| t.index as u16 as u32).unwrap_or(0), material_id.index as u16 as u32)
        }
        DrawCommand::NinePatch { layer, texture_id, .. } => (*layer, texture_id.index as u16 as u32, 0),
        DrawCommand::Text { layer, .. } => (*layer, 0, 0),
    }
}

fn rect(layer: u8) -> DrawCommand {
    DrawCommand::Rect { pos: v2(0.0, 0.0), size: v2(1.0, 1.0), color: Color::white(), layer }
}

fn texture(layer: u8, index: u32) -> DrawCommand {
    DrawCommand::Texture { texture_id: TextureId { index }, pos: v2(0.0, 0.0), size: v2(1.0, 1.0), tint: Color::white(), layer }
}

fn material(layer: u8, tex: Option<u32>, mat: u32) -> DrawCommand {
    DrawCommand::Material {
        material_id: MaterialId { index: mat },
        texture_id: tex.map(|index| TextureId { index }),
        pos: v2(0.0, 0.0),
        size: v2(1.0, 1.0),
        tint: Color::white(),
        uniform_data: vec![],
        layer,
    }
}

#[test]
fn buffer_push_and_clear() {
    let mut buf = DrawCommandBuffer::new(4);
    assert!(buf.commands().is_empty());
    buf.push(rect(3));
    buf.push(rect(1));
    assert_eq!(buf.commands().len(), 2);
    buf.clear();
    assert!(buf.commands().is_empty());
}

#[test]
fn sort_orders_by_layer_then_texture_then_material() {
    let mut buf = DrawCommandBuffer::new(0);
    buf.push(material(2, Some(5), 9));
    buf.push(rect(2));
    buf.push(texture(1, 7));
    buf.push(material(2, None, 4));
    buf.push(texture(2, 5));
    buf.push(material(2, Some(5), 1));
    buf.push(rect(0));
    buf.sort();
    let keys: Vec<(u8, u32, u32)> = buf.commands().iter().map(key).collect();
    assert_eq!(keys, vec![(0, 0, 0), (1, 7, 0), (2, 0, 0), (2, 0, 4), (2, 5, 0), (2, 5, 1), (2, 5, 9)]);
}

#[test]
fn sort_key_cuts_ids_to_16_bits() {
    let mut buf = DrawCommandBuffer::new(0);
    buf.push(texture(0, 70_000));
    buf.push(texture(0, 5_000));
    buf.sort();
    let keys: Vec<(u8, u32, u32)> = buf.commands().iter().map(key).collect();
    assert_eq!(keys, vec![(0, 4_464, 0), (0, 5_000, 0)]);
}

#[test]
fn sort_of_empty_and_single() {
    let mut buf = DrawCommandBuffer::new(0);
    buf.sort();
    assert!(buf.commands().is_empty());
    buf.push(rect(9));
    buf.sort();
    assert_eq!(buf.commands().len(), 1);
}

fn small(anchor: Anchor) -> LayoutProps {
    LayoutProps::new(anchor, UiVec2::pixels(s(0.0), s(0.0)), UiVec2::pixels(s(10.0), s(10.0)))
}

#[test]
fn collect_skips_root_hidden_subtrees_and_containers() {
    let mut ctx = UiContext::new(s(100.0), s(100.0));
    let a = ctx.add_node(ctx.root, small(Anchor::TopLeft), VisualProps::default());
    let mut invisible = VisualProps::default();
    invisible.visible = false;
    let c = ctx.add_node(ctx.root, small(Anchor::TopLeft), invisible);
    let mut container = VisualProps::default();
    container.kind = VisualKind::Container;
    let e = ctx.add_node(ctx.root, small(Anchor::TopLeft), container);
    let mut text = VisualProps::default();
    text.kind = VisualKind::Text { content: String::from("hi"), font_size: s(14.0) };
    text.opacity = s(0.5);
    let b = ctx.add_node(a, small(Anchor::TopLeft), text);
    let _d = ctx.add_node(c, small(Anchor::TopLeft), VisualProps::default());
    let _f = ctx.add_node(e, small(Anchor::TopLeft), VisualProps::default());
    assert_eq!(ctx.build_traversal_order().len(), 7);

    let mut buf = DrawCommandBuffer::new(8);
    buf.push(rect(200));
    ctx.collect(&mut buf, &alpha);
    let cmds = buf.commands();
    assert_eq!(cmds.len(), 4);
    assert!(matches!(cmds[0], DrawCommand::Rect { layer: 200, .. }));
    match &cmds[1] {
        DrawCommand::Rect { layer, color, .. } => {
            assert_eq!(*layer, 1);
            assert_eq!(*color, Color::new(255, 255, 255, 255));
        }
        _ => panic!("expected the rectangle of `a`"),
    }
    // order: root, a, c, e, b, d, f -> b is entry 4, f entry 6
    match &cmds[2] {
        DrawCommand::Text { layer, text, font_size, color, .. } => {
            assert_eq!(*layer, 4);
            assert_eq!(text, "hi");
            assert_eq!(*font_size, s(14.0));
            assert_eq!(color.a, 127);
        }
        _ => panic!("expected the text of `b`"),
    }
    assert!(matches!(cmds[3], DrawCommand::Rect { layer: 6, .. }));
    let _ = b;
}

#[test]
fn collect_draws_every_kind() {
    let mut ctx = UiContext::new(s(100.0), s(100.0));
    let kinds = vec![
        VisualKind::Texture { id: TextureId { index: 1 } },
        VisualKind::Material { material_id: MaterialId { index: 2 }, texture_id: Some(TextureId { index: 3 }), uniform_data: vec![7, 8] },
        VisualKind::NinePatch {
            id: TextureId { index: 4 },
            margins: NinePatchMargins { left: s(1.0), right: s(2.0), top: s(3.0), bottom: s(4.0) },
        },
    ];
    for kind in kinds {
        let mut v = VisualProps::default();
        v.kind = kind;
        v.color = Color::new(10, 20, 30, 40);
        ctx.add_node(ctx.root, small(Anchor::TopLeft), v);
    }
    let mut buf = DrawCommandBuffer::new(0);
    ctx.collect(&mut buf, &alpha);
    let cmds = buf.commands();
    assert_eq!(cmds.len(), 3);
    match &cmds[0] {
        DrawCommand::Texture { texture_id, tint, layer, .. } => {
            assert_eq!(texture_id.index, 1);
            assert_eq!(*tint, Color::new(10, 20, 30, 255));
            assert_eq!(*layer, 1);
        }
        _ => panic!("texture expected"),
    }
    match &cmds[1] {
        DrawCommand::Material { material_id, texture_id, uniform_data, layer, .. } => {
            assert_eq!(material_id.index, 2);
            assert_eq!(*texture_id, Some(TextureId { index: 3 }));
            assert_eq!(uniform_data, &vec![7, 8]);
            assert_eq!(*layer, 2);
        }
        _ => panic!("material expected"),
    }
    match &cmds[2] {
        DrawCommand::NinePatch { texture_id, margins, layer, .. } => {
            assert_eq!(texture_id.index, 4);
            assert_eq!(margins.bottom, s(4.0));
            assert_eq!(*layer, 3);
        }
        _ => panic!("nine-patch expected"),
    }
}

#[test]
fn layers_stop_at_255() {
    let mut ctx = UiContext::new(s(100.0), s(100.0));
    for _ in 0..300 {
        ctx.add_node(ctx.root, small(Anchor::TopLeft), VisualProps::default());
    }
    let mut buf = DrawCommandBuffer::new(0);
    ctx.collect(&mut buf, &alpha);
    let cmds = buf.commands();
    assert_eq!(cmds.len(), 300);
    let layers: Vec<u8> = cmds.iter().map(|c| key(c).0).collect();
    assert_eq!(layers[0], 1);
    assert_eq!(layers[253], 254);
    assert_eq!(layers[254], 255);
    assert_eq!(layers[299], 255);
}
