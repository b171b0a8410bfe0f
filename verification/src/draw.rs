//! Draw commands, the buffer that collects them for the renderer, and which
//! nodes of the tree are drawn.

use vstd::prelude::*;

use crate::NodeId;
use crate::node::{UiNode, VisualKind};
use crate::primitives::{Color, MaterialId, NinePatchMargins, Scalar, TextureId, Vec2};
use crate::tree::{live, node, Nodes};

verus! {

broadcast use vstd::seq_lib::group_to_multiset_ensures;

pub enum DrawCommand {
    Rect { pos: Vec2, size: Vec2, color: Color, layer: u8 },
    Texture { texture_id: TextureId, pos: Vec2, size: Vec2, tint: Color, layer: u8 },
    Material {
        material_id: MaterialId,
        texture_id: Option<TextureId>,
        pos: Vec2,
        size: Vec2,
        tint: Color,
        /// Custom data handed to the shader; empty when it takes none.
        uniform_data: Vec<u8>,
        layer: u8,
    },
    NinePatch {
        texture_id: TextureId,
        pos: Vec2,
        size: Vec2,
        margins: NinePatchMargins,
        tint: Color,
        layer: u8,
    },
    Text { text: String, pos: Vec2, font_size: Scalar, color: Color, layer: u8 },
}

/// The batching key of a command: its layer, then its texture (0 when it has
/// none), then its material (0 when it has none).  Ids are cut to 16 bits.
pub open spec fn draw_key(command: DrawCommand) -> (u8, u16, u16) {
    match command {
        DrawCommand::Rect { layer, .. } => (layer, 0, 0),
        DrawCommand::Texture { layer, texture_id, .. } => (layer, texture_id.index as u16, 0),
        DrawCommand::Material { material_id, texture_id, layer, .. } => match texture_id {
            Some(t) => (layer, t.index as u16, material_id.index as u16),
            None => (layer, 0, material_id.index as u16),
        },
        DrawCommand::NinePatch { texture_id, layer, .. } => (layer, texture_id.index as u16, 0),
        DrawCommand::Text { layer, .. } => (layer, 0, 0),
    }
}

/// The layer a command is drawn on, as the command carries it.
pub open spec fn command_layer(c: DrawCommand) -> u8 {
    match c {
        DrawCommand::Rect { layer, .. } => layer,
        DrawCommand::Texture { layer, .. } => layer,
        DrawCommand::Material { layer, .. } => layer,
        DrawCommand::NinePatch { layer, .. } => layer,
        DrawCommand::Text { layer, .. } => layer,
    }
}

/// A list ordered by batching key is ordered by layer: whatever the kind of
/// command, the key leads with the command's own layer.
pub proof fn lemma_sorted_by_layer(s: Seq<DrawCommand>)
    requires
        sorted_by_key(s),
    ensures
        forall|a: int, b: int|
            0 <= a < b < s.len() ==> command_layer(#[trigger] s[a]) <= command_layer(#[trigger] s[b]),
{
    assert forall|a: int, b: int| 0 <= a < b < s.len() implies command_layer(#[trigger] s[a]) <= command_layer(
        #[trigger] s[b],
    ) by {
        assert(key_le(draw_key(s[a]), draw_key(s[b])));
        assert(draw_key(s[a]).0 == command_layer(s[a]));
        assert(draw_key(s[b]).0 == command_layer(s[b]));
    }
}

/// Lexicographic order on batching keys.
pub open spec fn key_le(a: (u8, u16, u16), b: (u8, u16, u16)) -> bool {
    a.0 < b.0 || (a.0 == b.0 && (a.1 < b.1 || (a.1 == b.1 && a.2 <= b.2)))
}

/// `s` is ordered by batching key.
pub open spec fn sorted_by_key(s: Seq<DrawCommand>) -> bool {
    forall|a: int, b: int| 0 <= a < b < s.len() ==> key_le(#[trigger] draw_key(s[a]), #[trigger] draw_key(s[b]))
}

fn sort_key(command: &DrawCommand) -> (k: (u8, u16, u16))
    ensures
        k == draw_key(*command),
{
    match command {
        DrawCommand::Rect { layer, .. } => (*layer, 0, 0),
        DrawCommand::Texture { layer, texture_id, .. } => (*layer, texture_id.index as u16, 0),
        DrawCommand::Material { material_id, texture_id, layer, .. } => {
            if let Some(texture_id) = texture_id {
                (*layer, texture_id.index as u16, material_id.index as u16)
            } else {
                (*layer, 0, material_id.index as u16)
            }
        },
        DrawCommand::NinePatch { texture_id, layer, .. } => (*layer, texture_id.index as u16, 0),
        DrawCommand::Text { layer, .. } => (*layer, 0, 0),
    }
}

fn key_greater(a: (u8, u16, u16), b: (u8, u16, u16)) -> (r: bool)
    ensures
        r == !key_le(a, b),
{
    a.0 > b.0 || (a.0 == b.0 && (a.1 > b.1 || (a.1 == b.1 && a.2 > b.2)))
}

pub struct DrawCommandBuffer {
    buffer: Vec<DrawCommand>,
}

impl View for DrawCommandBuffer {
    type V = Seq<DrawCommand>;

    closed spec fn view(&self) -> Seq<DrawCommand> {
        self.buffer@
    }
}

impl DrawCommandBuffer {
    /// An empty buffer with room for `capacity` commands.
    pub fn new(capacity: usize) -> (b: Self)
        ensures
            b@ == Seq::<DrawCommand>::empty(),
    {
        Self { buffer: Vec::with_capacity(capacity) }
    }

    pub fn push(&mut self, command: DrawCommand)
        ensures
            final(self)@ == old(self)@.push(command),
    {
        self.buffer.push(command);
    }

    pub fn clear(&mut self)
        ensures
            final(self)@ == Seq::<DrawCommand>::empty(),
    {
        self.buffer.clear();
    }

    /// The commands, in buffer order.
    pub fn commands(&self) -> (c: &Vec<DrawCommand>)
        ensures
            c@ == self@,
    {
        &self.buffer
    }

    /// Orders the commands by batching key.  Commands with equal keys may
    /// come out in any order.
    pub fn sort(&mut self)
        ensures
            sorted_by_key(final(self)@),
            forall|a: int, b: int|
                0 <= a < b < final(self)@.len() ==> command_layer(#[trigger] final(self)@[a]) <= command_layer(
                    #[trigger] final(self)@[b],
                ),
            final(self)@.to_multiset() == old(self)@.to_multiset(),
    {
        let ghost m = self.buffer@.to_multiset();
        let mut i: usize = 1;
        if self.buffer.len() == 0 {
            return;
        }
        while i < self.buffer.len()
            invariant
                1 <= i <= self.buffer@.len(),
                self.buffer@.to_multiset() == m,
                forall|a: int, b: int|
                    0 <= a < b < i ==> key_le(#[trigger] draw_key(self.buffer@[a]), #[trigger] draw_key(self.buffer@[b])),
            decreases self.buffer@.len() - i,
        {
            let ghost b0 = self.buffer@;
            let k = sort_key(&self.buffer[i]);
            let mut j = i;
            while j > 0 && key_greater(sort_key(&self.buffer[j - 1]), k)
                invariant
                    0 <= j <= i < self.buffer@.len(),
                    self.buffer@ == b0,
                    k == draw_key(b0[i as int]),
                    forall|c: int| j <= c < i ==> !key_le(#[trigger] draw_key(b0[c]), k),
                decreases j,
            {
                j -= 1;
            }
            let x = self.buffer.remove(i);
            self.buffer.insert(j, x);
            proof {
                let n = self.buffer@;
                assert(n == b0.remove(i as int).insert(j as int, x));
                assert(j > 0 ==> key_le(draw_key(b0[j - 1]), k));
                assert forall|a: int, b: int|
                    0 <= a < b < i + 1 implies key_le(#[trigger] draw_key(n[a]), #[trigger] draw_key(n[b])) by {
                    let oa = if a < j { a } else if a == j { i as int } else { a - 1 };
                    let ob = if b < j { b } else if b == j { i as int } else { b - 1 };
                    assert(n[a] == b0[oa]);
                    assert(n[b] == b0[ob]);
                    if a == j {
                        // x against a later, larger element
                        assert(!key_le(draw_key(b0[ob]), k));
                    } else if b == j {
                        if a < j - 1 {
                            assert(key_le(draw_key(b0[a]), draw_key(b0[j - 1])));
                        }
                    } else {
                        assert(key_le(draw_key(b0[oa]), draw_key(b0[ob])));
                    }
                }
            }
            i += 1;
        }
        proof {
            lemma_sorted_by_layer(self.buffer@);
        }
    }
}

/// Whether node `x` is hidden in a walk from `root`: it is live, and it is
/// invisible or (unless it is `root`) its parent is hidden.
pub open spec fn hidden(s: Nodes, root: NodeId, x: NodeId) -> bool
    decreases x.index,
{
    live(s, x) && (!node(s, x).visual.visible || (x != root && match node(s, x).parent {
        Some(q) => q.index < x.index && hidden(s, root, q),
        None => false,
    }))
}

/// Whether entry `p` of the walk `t` from `root` is drawn: it is not the
/// first entry, and it is a live, non-hidden node that draws something.
pub open spec fn drawn(s: Nodes, root: NodeId, t: Seq<NodeId>, p: int) -> bool {
    &&& 1 <= p < t.len()
    &&& live(s, t[p])
    &&& !hidden(s, root, t[p])
    &&& !(node(s, t[p]).visual.kind is Container)
}

/// The drawn entries among the first `n` of `t`, in order.
pub open spec fn draw_positions(s: Nodes, root: NodeId, t: Seq<NodeId>, n: int) -> Seq<int>
    decreases n,
{
    if n <= 0 {
        Seq::empty()
    } else if drawn(s, root, t, n - 1) {
        draw_positions(s, root, t, n - 1).push(n - 1)
    } else {
        draw_positions(s, root, t, n - 1)
    }
}

/// The layer of the command drawn for entry `p` of the walk.
pub open spec fn layer_of(p: int) -> u8 {
    if p < 255 {
        p as u8
    } else {
        255
    }
}

/// The colour a command is drawn with.
pub open spec fn command_tint(c: DrawCommand) -> Color {
    match c {
        DrawCommand::Rect { color, .. } => color,
        DrawCommand::Texture { tint, .. } => tint,
        DrawCommand::Material { tint, .. } => tint,
        DrawCommand::NinePatch { tint, .. } => tint,
        DrawCommand::Text { color, .. } => color,
    }
}

/// `c` draws node `n` on `layer`: the command kind follows the node's
/// visual kind, and it carries the node's ids, data and computed rectangle.
pub open spec fn draws_node(c: DrawCommand, n: UiNode, layer: u8) -> bool {
    let pos = n.layout.computed_pos;
    let size = n.layout.computed_size;
    match n.visual.kind {
        VisualKind::Rect => c matches DrawCommand::Rect { pos: p, size: z, layer: l, .. } && p == pos && z
            == size && l == layer,
        VisualKind::Texture { id } => c matches DrawCommand::Texture {
            texture_id,
            pos: p,
            size: z,
            layer: l,
            ..
        } && texture_id == id && p == pos && z == size && l == layer,
        VisualKind::Material { material_id, texture_id, uniform_data } => c matches DrawCommand::Material {
            material_id: m,
            texture_id: t,
            pos: p,
            size: z,
            uniform_data: u,
            layer: l,
            ..
        } && m == material_id && t == texture_id && p == pos && z == size && u@ == uniform_data@ && l
            == layer,
        VisualKind::NinePatch { id, margins } => c matches DrawCommand::NinePatch {
            texture_id,
            pos: p,
            size: z,
            margins: g,
            layer: l,
            ..
        } && texture_id == id && p == pos && z == size && g == margins && l == layer,
        VisualKind::Text { content, font_size } => c matches DrawCommand::Text {
            text,
            pos: p,
            font_size: f,
            layer: l,
            ..
        } && text@ == content@ && p == pos && f == font_size && l == layer,
        VisualKind::Container => false,
    }
}

/// `alpha` can be asked anything.
pub open spec fn alpha_total<A: Fn(Color, Scalar) -> Color>(alpha: A) -> bool {
    forall|c: Color, o: Scalar| #[trigger] call_requires(alpha, (c, o))
}

/// The command for node `n` on `layer`, tinted `tint`; none for a container.
pub(crate) fn draw_command(n: &UiNode, layer: u8, tint: Color) -> (c: Option<DrawCommand>)
    ensures
        match c {
            Some(c) => draws_node(c, *n, layer) && command_tint(c) == tint,
            None => n.visual.kind is Container,
        },
{
    let pos = n.layout.computed_pos;
    let size = n.layout.computed_size;
    match &n.visual.kind {
        VisualKind::Rect => Some(DrawCommand::Rect { pos, size, color: tint, layer }),
        VisualKind::Texture { id } => Some(DrawCommand::Texture { texture_id: *id, pos, size, tint, layer }),
        VisualKind::Material { material_id, texture_id, uniform_data } => Some(
            DrawCommand::Material {
                material_id: *material_id,
                texture_id: *texture_id,
                pos,
                size,
                tint,
                uniform_data: uniform_data.clone(),
                layer,
            },
        ),
        VisualKind::NinePatch { id, margins } => Some(
            DrawCommand::NinePatch { texture_id: *id, pos, size, margins: *margins, tint, layer },
        ),
        VisualKind::Text { content, font_size } => Some(
            DrawCommand::Text { text: content.clone(), pos, font_size: *font_size, color: tint, layer },
        ),
        VisualKind::Container => None,
    }
}

} // verus!
