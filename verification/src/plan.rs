//! The draw list of a frame, as integers: which vertices each primitive takes in the vertex
//! buffer, and the commands that draw them.
//!
//! Primitives are drawn in layers; a layer keeps its own vertices and commands, and the layers
//! are put one after the other at the end, the vertex offsets of each shifted past the vertices
//! of the layers before it. A clip that leaves nothing on screen stops drawing until another
//! clip is set.
use vstd::prelude::*;

use crate::draw::{append_defined, append_spec, Command};

verus! {

/// What drawing a primitive does to the draw list: clips, layers, and the vertices of shapes.
#[derive(Debug, Clone, Copy, PartialEq, Eq, Structural)]
pub enum PrimShape {
    /// Sets the clip `scissor` until it is popped; `valid` tells whether it leaves anything on
    /// screen.
    PushClip { scissor: usize, valid: bool },
    /// Goes back to the clip set before the last one pushed.
    PopClip,
    /// Draws on the layer above.
    LayerUp,
    /// Draws on the layer below.
    LayerDown,
    /// A shape of `count` vertices without texture.
    Colored { count: usize },
    /// A shape of `count` vertices drawn with `texture`.
    Textured { texture: usize, count: usize },
}

/// The draw list while it is planned.
pub struct PlanV {
    /// The commands of each layer.
    pub layers: Seq<Seq<Command<usize>>>,
    /// The number of vertices of each layer.
    pub sizes: Seq<usize>,
    /// The layer drawn on.
    pub layer: int,
    /// The clips set, the one in force last, each with whether it leaves anything on screen.
    pub clips: Seq<(usize, bool)>,
    /// Whether shapes are drawn.
    pub enabled: bool,
    /// For each primitive so far, the layer and offset in it of its vertices, for a shape drawn.
    pub places: Seq<Option<(usize, usize)>>,
}

/// Appends `c` to a list of commands: it joins the last command where `Command::append` joins
/// them, and follows it otherwise.
pub open spec fn push_cmd(cmds: Seq<Command<usize>>, c: Command<usize>) -> Seq<Command<usize>> {
    let (last, next) = append_spec(cmds.last(), c);
    let kept = cmds.drop_last().push(last);
    match next {
        Some(n) => kept.push(n),
        None => kept,
    }
}

/// The plan with `c` appended to the commands of the layer drawn on.
pub open spec fn with_cmd(st: PlanV, c: Command<usize>) -> PlanV {
    PlanV { layers: st.layers.update(st.layer, push_cmd(st.layers[st.layer], c)), ..st }
}

/// The plan with a shape of `count` vertices drawn as `c` at the end of the layer drawn on, where
/// drawing is enabled.
pub open spec fn with_shape(st: PlanV, count: usize, c: Command<usize>) -> PlanV {
    if st.enabled {
        let offset = st.sizes[st.layer];
        let s2 = with_cmd(st, c);
        PlanV {
            sizes: s2.sizes.update(st.layer, (offset + count) as usize),
            places: s2.places.push(Some((st.layer as usize, offset))),
            ..s2
        }
    } else {
        PlanV { places: st.places.push(None), ..st }
    }
}

/// The plan after one more primitive.
pub open spec fn step(st: PlanV, p: PrimShape) -> PlanV {
    match p {
        PrimShape::PushClip { scissor, valid } => {
            let s1 = PlanV {
                clips: st.clips.push((scissor, valid)),
                enabled: valid,
                places: st.places.push(None),
                ..st
            };
            if valid {
                with_cmd(s1, Command::Clip { scissor })
            } else {
                s1
            }
        },
        PrimShape::PopClip => {
            let clips = st.clips.drop_last();
            let top = clips.last();
            let s1 = PlanV { clips, enabled: top.1, places: st.places.push(None), ..st };
            if top.1 {
                with_cmd(s1, Command::Clip { scissor: top.0 })
            } else {
                s1
            }
        },
        PrimShape::LayerUp => {
            let l = st.layer + 1;
            if l >= st.layers.len() {
                PlanV {
                    layers: st.layers.push(seq![Command::Nop]),
                    sizes: st.sizes.push(0),
                    layer: l,
                    places: st.places.push(None),
                    ..st
                }
            } else {
                PlanV { layer: l, places: st.places.push(None), ..st }
            }
        },
        PrimShape::LayerDown => PlanV { layer: st.layer - 1, places: st.places.push(None), ..st },
        PrimShape::Colored { count } => with_shape(
            st,
            count,
            Command::Colored { offset: st.sizes[st.layer], count },
        ),
        PrimShape::Textured { texture, count } => with_shape(
            st,
            count,
            Command::Textured { texture, offset: st.sizes[st.layer], count },
        ),
    }
}

/// The plan before any primitive: one empty layer, drawn on, under the clip `root`.
pub open spec fn plan_start(root: (usize, bool)) -> PlanV {
    PlanV {
        layers: seq![seq![Command::Nop]],
        sizes: seq![0usize],
        layer: 0,
        clips: seq![root],
        enabled: true,
        places: Seq::empty(),
    }
}

/// The plan after the first `n` primitives.
pub open spec fn plan_from(prims: Seq<PrimShape>, root: (usize, bool), n: int) -> PlanV
    decreases n,
{
    if n <= 0 {
        plan_start(root)
    } else {
        step(plan_from(prims, root, n - 1), prims[n - 1])
    }
}

/// Whether a primitive can follow: a clip can be popped only above the root clip, and the layer
/// can go down only above the bottom layer.
pub open spec fn applicable(st: PlanV, p: PrimShape) -> bool {
    match p {
        PrimShape::PopClip => st.clips.len() >= 2,
        PrimShape::LayerDown => st.layer >= 1,
        _ => true,
    }
}

/// The number of vertices of the first `n` primitives.
pub open spec fn count_upto(prims: Seq<PrimShape>, n: int) -> int
    decreases n,
{
    if n <= 0 {
        0
    } else {
        count_upto(prims, n - 1) + match prims[n - 1] {
            PrimShape::Colored { count } => count as int,
            PrimShape::Textured { count, .. } => count as int,
            _ => 0,
        }
    }
}

/// Whether the primitives can be planned: every pop and step down has something below it, and
/// all their vertices, and the primitives themselves, can be counted in a `usize`.
pub open spec fn plan_ok(prims: Seq<PrimShape>, root: (usize, bool)) -> bool {
    &&& prims.len() < usize::MAX
    &&& forall|n: int| 0 <= n < prims.len() ==> #[trigger] applicable(plan_from(prims, root, n), prims[n])
    &&& count_upto(prims, prims.len() as int) <= usize::MAX
}

/// The sum of `s`.
pub open spec fn seq_sum(s: Seq<usize>) -> int
    decreases s.len(),
{
    if s.len() == 0 {
        0
    } else {
        seq_sum(s.drop_last()) + s.last()
    }
}

/// The vertex range `(offset, end)` that a command draws, if it draws any.
pub open spec fn range_of(c: Command<usize>) -> Option<(int, int)> {
    match c {
        Command::Colored { offset, count } => Some((offset as int, offset + count)),
        Command::Textured { offset, count, .. } => Some((offset as int, offset + count)),
        _ => None,
    }
}

/// A command with its vertices moved `base` further into the vertex buffer.
pub open spec fn shift(c: Command<usize>, base: int) -> Command<usize> {
    match c {
        Command::Colored { offset, count } => Command::Colored { offset: (offset + base) as usize, count },
        Command::Textured { texture, offset, count } => Command::Textured {
            texture,
            offset: (offset + base) as usize,
            count,
        },
        other => other,
    }
}

/// The commands of the first `k` layers, each layer's shifted past the vertices of those before.
pub open spec fn flat(layers: Seq<Seq<Command<usize>>>, sizes: Seq<usize>, k: int) -> Seq<Command<usize>>
    decreases k,
{
    if k <= 0 {
        Seq::empty()
    } else {
        flat(layers, sizes, k - 1) + layers[k - 1].map_values(
            |c: Command<usize>| shift(c, seq_sum(sizes.take(k - 1))),
        )
    }
}

/// The commands of the draw list of `prims`.
pub open spec fn plan_commands(prims: Seq<PrimShape>, root: (usize, bool)) -> Seq<Command<usize>> {
    let st = plan_from(prims, root, prims.len() as int);
    flat(st.layers, st.sizes, st.layers.len() as int)
}

/// For each primitive, the offset of its vertices in the vertex buffer, for a shape drawn.
pub open spec fn plan_places(prims: Seq<PrimShape>, root: (usize, bool)) -> Seq<Option<usize>> {
    let st = plan_from(prims, root, prims.len() as int);
    st.places.map_values(
        |p: Option<(usize, usize)>| match p {
            Some((l, o)) => Some((seq_sum(st.sizes.take(l as int)) + o) as usize),
            None => None,
        },
    )
}

/// The number of vertices of the draw list of `prims`.
pub open spec fn plan_total(prims: Seq<PrimShape>, root: (usize, bool)) -> int {
    seq_sum(plan_from(prims, root, prims.len() as int).sizes)
}

/// Whether command `b` draws no vertex before the last one that command `a` draws.
pub open spec fn starts_after(a: Command<usize>, b: Command<usize>) -> bool {
    match (range_of(a), range_of(b)) {
        (Some((_, e)), Some((s, _))) => e <= s,
        _ => true,
    }
}

/// Whether the vertex ranges of the commands come one after the other, so that no two overlap.
pub open spec fn ordered(cmds: Seq<Command<usize>>) -> bool {
    forall|i: int, j: int| 0 <= i < j < cmds.len() ==> starts_after(#[trigger] cmds[i], #[trigger] cmds[j])
}

/// What a plan keeps: every layer has a command to append to and its vertex commands end within
/// its vertices, the layer drawn on exists, a clip is in force, every shape placed lies within
/// its layer, and the layers hold no more than `bound` vertices.
pub open spec fn plan_inv(st: PlanV, bound: int) -> bool {
    &&& st.layers.len() == st.sizes.len()
    &&& st.layers.len() <= st.places.len() + 1
    &&& 0 <= st.layer < st.layers.len()
    &&& st.clips.len() >= 1
    &&& forall|k: int| 0 <= k < st.layers.len() ==> #[trigger] st.layers[k].len() >= 1
    &&& forall|k: int| 0 <= k < st.layers.len() ==> ordered(#[trigger] st.layers[k])
    &&& forall|k: int, i: int|
        0 <= k < st.layers.len() && 0 <= i < st.layers[k].len() ==> (#[trigger] range_of(st.layers[k][i]) matches Some((
            _,
            e,
        )) ==> e <= st.sizes[k])
    &&& forall|i: int|
        0 <= i < st.places.len() ==> (#[trigger] st.places[i] matches Some((l, o)) ==> l < st.sizes.len() && o
            <= st.sizes[l as int])
    &&& seq_sum(st.sizes) <= bound
}

/// A part of a sum is no more than the sum.
proof fn lemma_sum_part(s: Seq<usize>, k: int)
    requires
        0 <= k < s.len(),
    ensures
        s[k] <= seq_sum(s),
        seq_sum(s.take(k)) + s[k] <= seq_sum(s),
        seq_sum(s.take(k)) >= 0,
    decreases s.len(),
{
    lemma_sum_nonneg(s.take(k));
    if k < s.len() - 1 {
        lemma_sum_part(s.drop_last(), k);
        assert(s.drop_last().take(k) =~= s.take(k));
        assert(s.drop_last()[k] == s[k]);
    } else {
        assert(s.drop_last() =~= s.take(k));
    }
}

proof fn lemma_sum_nonneg(s: Seq<usize>)
    ensures
        seq_sum(s) >= 0,
    decreases s.len(),
{
    if s.len() > 0 {
        lemma_sum_nonneg(s.drop_last());
    }
}

/// Changing one part changes the sum by as much.
proof fn lemma_sum_update(s: Seq<usize>, k: int, v: usize)
    requires
        0 <= k < s.len(),
    ensures
        seq_sum(s.update(k, v)) == seq_sum(s) - s[k] + v,
    decreases s.len(),
{
    if k < s.len() - 1 {
        lemma_sum_update(s.drop_last(), k, v);
        assert(s.update(k, v).drop_last() =~= s.drop_last().update(k, v));
    } else {
        assert(s.update(k, v).drop_last() =~= s.drop_last());
    }
}

/// The sum of the parts before `k + 1` adds part `k` to those before `k`.
proof fn lemma_sum_take(s: Seq<usize>, k: int)
    requires
        0 <= k < s.len(),
    ensures
        seq_sum(s.take(k + 1)) == seq_sum(s.take(k)) + s[k],
{
    assert(s.take(k + 1).drop_last() =~= s.take(k));
}

/// Appending a command keeps a layer's vertex commands within `size`, when the new one is.
proof fn lemma_push_cmd_within(cmds: Seq<Command<usize>>, c: Command<usize>, size: int)
    requires
        cmds.len() >= 1,
        append_defined(cmds.last(), c),
        forall|i: int| 0 <= i < cmds.len() ==> (#[trigger] range_of(cmds[i]) matches Some((_, e)) ==> e <= size),
        range_of(c) matches Some((_, e)) ==> e <= size,
        ordered(cmds),
        range_of(c) matches Some((b, _)) ==> forall|i: int|
            0 <= i < cmds.len() ==> (#[trigger] range_of(cmds[i]) matches Some((_, e)) ==> e <= b),
    ensures
        push_cmd(cmds, c).len() >= 1,
        ordered(push_cmd(cmds, c)),
        forall|i: int|
            0 <= i < push_cmd(cmds, c).len() ==> (#[trigger] range_of(push_cmd(cmds, c)[i]) matches Some((_, e))
                ==> e <= size),
{
    let last = cmds.last();
    assert(range_of(last) matches Some((_, e)) ==> e <= size) by {
        assert(cmds[cmds.len() - 1] == last);
    }
    let r = push_cmd(cmds, c);
    let n = cmds.len();
    assert forall|i: int| 0 <= i < r.len() implies (#[trigger] range_of(r[i]) matches Some((_, e)) ==> e <= size) by {
        if i < cmds.len() - 1 {
            assert(r[i] == cmds[i]);
        }
    }
    let (l2, nx) = append_spec(last, c);
    assert(r[n - 1] == l2);
    assert(range_of(l2) matches Some((s2, _)) ==> (range_of(last) matches Some((s1, _)) && s1 == s2) || l2 == c);
    assert forall|i: int, j: int| 0 <= i < j < r.len() implies starts_after(#[trigger] r[i], #[trigger] r[j]) by {
        if j < n - 1 {
            assert(r[i] == cmds[i] && r[j] == cmds[j]);
            assert(starts_after(cmds[i], cmds[j]));
        } else if j == n - 1 {
            assert(r[i] == cmds[i]);
            assert(starts_after(cmds[i], cmds[n - 1]));
            assert(range_of(cmds[i]) matches Some((_, e)) ==> e <= size);
        } else {
            assert(nx == Some(c));
            assert(l2 == last);
            if i < n - 1 {
                assert(r[i] == cmds[i]);
            }
            assert(range_of(cmds[i]) matches Some((_, e)) ==> e <= size);
        }
    }
}

/// One more primitive keeps what a plan keeps, with room for its vertices.
proof fn lemma_step(prims: Seq<PrimShape>, root: (usize, bool), n: int)
    requires
        0 <= n < prims.len(),
        plan_inv(plan_from(prims, root, n), count_upto(prims, n)),
        applicable(plan_from(prims, root, n), prims[n]),
        count_upto(prims, n + 1) <= usize::MAX,
        plan_from(prims, root, n).places.len() == n,
        n < usize::MAX,
    ensures
        plan_inv(plan_from(prims, root, n + 1), count_upto(prims, n + 1)),
        plan_from(prims, root, n + 1).places.len() == plan_from(prims, root, n).places.len() + 1,
{
    let st = plan_from(prims, root, n);
    let b = count_upto(prims, n);
    let nx = plan_from(prims, root, n + 1);
    assert(nx == step(st, prims[n]));
    lemma_sum_part(st.sizes, st.layer);
    let size = st.sizes[st.layer] as int;
    let cur = st.layers[st.layer];
    assert(cur.len() >= 1);
    assert(forall|i: int| 0 <= i < cur.len() ==> (#[trigger] range_of(cur[i]) matches Some((_, e)) ==> e <= size));
    assert(range_of(cur.last()) matches Some((_, e)) ==> e <= size) by {
        assert(cur[cur.len() - 1] == cur.last());
    }
    match prims[n] {
        PrimShape::PushClip { scissor, valid } => {
            if valid {
                lemma_push_cmd_within(cur, Command::Clip { scissor }, size);
            }
            assert(forall|i: int| 0 <= i < st.places.len() ==> nx.places[i] == st.places[i]);
        },
        PrimShape::PopClip => {
            let top = st.clips.drop_last().last();
            if top.1 {
                lemma_push_cmd_within(cur, Command::Clip { scissor: top.0 }, size);
            }
            assert(forall|i: int| 0 <= i < st.places.len() ==> nx.places[i] == st.places[i]);
        },
        PrimShape::LayerUp => {
            if st.layer + 1 >= st.layers.len() {
                assert(st.sizes.push(0).drop_last() =~= st.sizes);
                assert forall|k: int, i: int|
                    0 <= k < nx.layers.len() && 0 <= i < nx.layers[k].len() implies (#[trigger] range_of(
                    nx.layers[k][i],
                ) matches Some((_, e)) ==> e <= nx.sizes[k]) by {
                    if k < st.layers.len() {
                        assert(nx.layers[k] == st.layers[k]);
                    }
                }
            }
            assert(forall|i: int| 0 <= i < st.places.len() ==> nx.places[i] == st.places[i]);
        },
        PrimShape::LayerDown => {
            assert(forall|i: int| 0 <= i < st.places.len() ==> nx.places[i] == st.places[i]);
        },
        PrimShape::Colored { count } => {
            if st.enabled {
                let c = Command::Colored { offset: st.sizes[st.layer], count };
                lemma_push_cmd_within(cur, c, size + count);
                lemma_sum_update(st.sizes, st.layer, (size + count) as usize);
                assert(nx.places[st.places.len() as int] == Some((st.layer as usize, st.sizes[st.layer])));
                assert(nx.sizes[st.layer] == size + count);
                assert forall|k: int, i: int|
                    0 <= k < nx.layers.len() && 0 <= i < nx.layers[k].len() implies (#[trigger] range_of(
                    nx.layers[k][i],
                ) matches Some((_, e)) ==> e <= nx.sizes[k]) by {
                    if k != st.layer {
                        assert(nx.layers[k] == st.layers[k]);
                    }
                }
            }
            assert(forall|i: int| 0 <= i < st.places.len() ==> nx.places[i] == st.places[i]);
        },
        PrimShape::Textured { texture, count } => {
            if st.enabled {
                let c = Command::Textured { texture, offset: st.sizes[st.layer], count };
                lemma_push_cmd_within(cur, c, size + count);
                lemma_sum_update(st.sizes, st.layer, (size + count) as usize);
                assert(nx.places[st.places.len() as int] == Some((st.layer as usize, st.sizes[st.layer])));
                assert(nx.sizes[st.layer] == size + count);
                assert forall|k: int, i: int|
                    0 <= k < nx.layers.len() && 0 <= i < nx.layers[k].len() implies (#[trigger] range_of(
                    nx.layers[k][i],
                ) matches Some((_, e)) ==> e <= nx.sizes[k]) by {
                    if k != st.layer {
                        assert(nx.layers[k] == st.layers[k]);
                    }
                }
            }
            assert(forall|i: int| 0 <= i < st.places.len() ==> nx.places[i] == st.places[i]);
        },
    }
    assert(nx.sizes.len() >= st.sizes.len());
    assert forall|l: int| 0 <= l < st.sizes.len() implies st.sizes[l] <= #[trigger] nx.sizes[l] by {}
    assert forall|i: int| 0 <= i < nx.places.len() implies (#[trigger] nx.places[i] matches Some((l, o)) ==> l
        < nx.sizes.len() && o <= nx.sizes[l as int]) by {
        if i < st.places.len() {
            assert(nx.places[i] == st.places[i]);
            if let Some((l, o)) = st.places[i] {
                assert(st.sizes[l as int] <= nx.sizes[l as int]);
            }
        } else {
            assert(st.layer as usize as int == st.layer);
        }
    }
}


/// The commands of each layer, as sequences.
pub open spec fn layers_view(layers: Seq<Vec<Command<usize>>>) -> Seq<Seq<Command<usize>>> {
    layers.map_values(|v: Vec<Command<usize>>| v@)
}

/// Appends `c` to the commands of layer `k`; see `push_cmd`.
fn add_command(layers: &mut Vec<Vec<Command<usize>>>, k: usize, c: Command<usize>)
    requires
        k < old(layers)@.len(),
        old(layers)@[k as int]@.len() >= 1,
        append_defined(old(layers)@[k as int]@.last(), c),
    ensures
        layers_view(final(layers)@) == layers_view(old(layers)@).update(
            k as int,
            push_cmd(old(layers)@[k as int]@, c),
        ),
{
    let ghost before = old(layers)@[k as int]@;
    let mut cmds: Vec<Command<usize>> = Vec::new();
    std::mem::swap(&mut cmds, &mut layers[k]);
    let n = cmds.len();
    let next = cmds[n - 1].append(c);
    match next {
        Some(x) => cmds.push(x),
        None => {},
    }
    proof {
        assert(cmds@ =~= push_cmd(before, c));
    }
    layers.set(k, cmds);
    proof {
        assert(layers_view(layers@) =~= layers_view(old(layers)@).update(k as int, push_cmd(before, c)));
    }
}

/// A command with its vertices moved `base` further into the vertex buffer.
fn shift_command(c: &Command<usize>, base: usize) -> (r: Command<usize>)
    requires
        range_of(*c) matches Some((s, _)) ==> s + base <= usize::MAX,
    ensures
        r == shift(*c, base as int),
{
    match c {
        Command::Nop => Command::Nop,
        Command::Clip { scissor } => Command::Clip { scissor: *scissor },
        Command::Colored { offset, count } => Command::Colored { offset: *offset + base, count: *count },
        Command::Textured { texture, offset, count } => Command::Textured {
            texture: *texture,
            offset: *offset + base,
            count: *count,
        },
    }
}

/// A command appended to a layer whose vertex commands end within its vertices, where the
/// vertices after them can be counted, joins the last command without leaving the `usize` range.
proof fn lemma_append_defined(cmds: Seq<Command<usize>>, c: Command<usize>, size: int)
    requires
        cmds.len() >= 1,
        forall|i: int| 0 <= i < cmds.len() ==> (#[trigger] range_of(cmds[i]) matches Some((_, e)) ==> e <= size),
        range_of(c) matches Some((o, e)) ==> o == size && e <= usize::MAX,
        size <= usize::MAX,
    ensures
        append_defined(cmds.last(), c),
{
    assert(cmds[cmds.len() - 1] == cmds.last());
    assert(range_of(cmds[cmds.len() - 1]) matches Some((_, e)) ==> e <= size);
}

/// A layer with no vertices yet, whose first command is a `Nop` to append to.
fn empty_layer() -> (r: Vec<Command<usize>>)
    ensures
        r@ == seq![Command::<usize>::Nop],
{
    let mut r: Vec<Command<usize>> = Vec::new();
    r.push(Command::Nop);
    proof {
        assert(r@ =~= seq![Command::<usize>::Nop]);
    }
    r
}

/// Plans the draw list of a frame: the commands that draw the primitives, layer above layer,
/// each shape's vertex offset in the vertex buffer, and the number of vertices. `root` is the clip
/// of the whole view, with whether it leaves anything on screen.
pub fn plan_draw(prims: &Vec<PrimShape>, root: (usize, bool)) -> (r: (Vec<Command<usize>>, Vec<Option<usize>>, usize))
    requires
        plan_ok(prims@, root),
    ensures
        r.0@ == plan_commands(prims@, root),
        r.1@ == plan_places(prims@, root),
        r.2 == plan_total(prims@, root),
        forall|i: int| 0 <= i < r.0@.len() ==> (#[trigger] range_of(r.0@[i]) matches Some((_, e)) ==> e <= r.2),
        ordered(r.0@),
        forall|i: int| 0 <= i < r.1@.len() ==> (#[trigger] r.1@[i] matches Some(o) ==> o <= r.2),
        r.1@.len() == prims@.len(),
{
    let mut layers: Vec<Vec<Command<usize>>> = Vec::new();
    layers.push(empty_layer());
    let mut sizes: Vec<usize> = Vec::new();
    sizes.push(0);
    let mut layer: usize = 0;
    let mut clips: Vec<(usize, bool)> = Vec::new();
    clips.push(root);
    let mut enabled = true;
    let mut places: Vec<Option<(usize, usize)>> = Vec::new();
    proof {
        assert(layers_view(layers@) =~= plan_start(root).layers);
        assert(sizes@ =~= plan_start(root).sizes);
        assert(clips@ =~= plan_start(root).clips);
        assert(places@ =~= plan_start(root).places);
        assert(plan_from(prims@, root, 0) == plan_start(root));
        assert(seq_sum(sizes@) == 0) by {
            assert(sizes@.drop_last() =~= Seq::<usize>::empty());
            assert(sizes@.last() == 0);
            assert(seq_sum(Seq::<usize>::empty()) == 0);
        }
    }
    let mut i: usize = 0;
    while i < prims.len()
        invariant
            plan_ok(prims@, root),
            i <= prims@.len(),
            ({
                let st = plan_from(prims@, root, i as int);
                &&& layers_view(layers@) == st.layers
                &&& sizes@ == st.sizes
                &&& layer as int == st.layer
                &&& clips@ == st.clips
                &&& enabled == st.enabled
                &&& places@ == st.places
                &&& plan_inv(st, count_upto(prims@, i as int))
            }),
            places@.len() == i,
        decreases prims@.len() - i,
    {
        let ghost st = plan_from(prims@, root, i as int);
        proof {
            assert(applicable(st, prims@[i as int]));
            lemma_count_mono(prims@, i as int + 1, prims@.len() as int);
            lemma_sum_part(st.sizes, st.layer);
            lemma_step(prims@, root, i as int);
            assert(layers@[layer as int]@ == st.layers[st.layer]);
        }
        let p = prims[i];
        match p {
            PrimShape::PushClip { scissor, valid } => {
                clips.push((scissor, valid));
                enabled = valid;
                places.push(None);
                if valid {
                    proof {
                        lemma_append_defined(st.layers[st.layer], Command::Clip { scissor }, st.sizes[st.layer] as int);
                    }
                    add_command(&mut layers, layer, Command::Clip { scissor });
                }
            },
            PrimShape::PopClip => {
                clips.pop();
                let top = clips[clips.len() - 1];
                enabled = top.1;
                places.push(None);
                if top.1 {
                    proof {
                        lemma_append_defined(st.layers[st.layer], Command::Clip { scissor: top.0 }, st.sizes[st.layer] as int);
                    }
                    add_command(&mut layers, layer, Command::Clip { scissor: top.0 });
                }
            },
            PrimShape::LayerUp => {
                layer += 1;
                if layer >= layers.len() {
                    layers.push(empty_layer());
                    sizes.push(0);
                }
                places.push(None);
            },
            PrimShape::LayerDown => {
                layer -= 1;
                places.push(None);
            },
            PrimShape::Colored { count } => {
                if enabled {
                    let offset = sizes[layer];
                    proof {
                        lemma_append_defined(st.layers[st.layer], Command::Colored { offset, count }, offset as int);
                    }
                    add_command(&mut layers, layer, Command::Colored { offset, count });
                    sizes.set(layer, offset + count);
                    places.push(Some((layer, offset)));
                } else {
                    places.push(None);
                }
            },
            PrimShape::Textured { texture, count } => {
                if enabled {
                    let offset = sizes[layer];
                    proof {
                        lemma_append_defined(st.layers[st.layer], Command::Textured { texture, offset, count }, offset as int);
                    }
                    add_command(&mut layers, layer, Command::Textured { texture, offset, count });
                    sizes.set(layer, offset + count);
                    places.push(Some((layer, offset)));
                } else {
                    places.push(None);
                }
            },
        }
        proof {
            let nx = plan_from(prims@, root, i as int + 1);
            assert(nx == step(st, prims@[i as int]));
            assert(layers_view(layers@) =~= nx.layers);
            assert(sizes@ =~= nx.sizes);
            assert(clips@ =~= nx.clips);
            assert(places@ =~= nx.places);
        }
        i += 1;
    }
    let ghost st = plan_from(prims@, root, prims@.len() as int);
    let ghost total = seq_sum(st.sizes);
    // the offset of each layer's vertices in the vertex buffer
    let mut bases: Vec<usize> = Vec::new();
    let mut base: usize = 0;
    let mut commands: Vec<Command<usize>> = Vec::new();
    let mut k: usize = 0;
    while k < layers.len()
        invariant
            layers_view(layers@) == st.layers,
            sizes@ == st.sizes,
            plan_inv(st, count_upto(prims@, prims@.len() as int)),
            count_upto(prims@, prims@.len() as int) <= usize::MAX,
            total == seq_sum(st.sizes),
            k <= layers@.len(),
            base == seq_sum(st.sizes.take(k as int)),
            bases@.len() == k,
            forall|j: int| 0 <= j < k ==> #[trigger] bases@[j] == seq_sum(st.sizes.take(j)),
            commands@ == flat(st.layers, st.sizes, k as int),
            forall|j: int| 0 <= j < commands@.len() ==> (#[trigger] range_of(commands@[j]) matches Some((_, e)) ==> e <= base),
            ordered(commands@),
        decreases layers@.len() - k,
    {
        proof {
            lemma_sum_part(st.sizes, k as int);
            lemma_sum_take(st.sizes, k as int);
        }
        let ghost before = commands@;
        let ghost cmds = st.layers[k as int];
        assert(layers@[k as int]@ == cmds);
        let n = layers[k].len();
        let mut j: usize = 0;
        while j < n
            invariant
                layers_view(layers@) == st.layers,
                k < layers@.len(),
                n == cmds.len(),
                cmds == st.layers[k as int],
                j <= n,
                base == seq_sum(st.sizes.take(k as int)),
                base + st.sizes[k as int] <= total,
                total <= usize::MAX,
                forall|x: int| 0 <= x < cmds.len() ==> (#[trigger] range_of(cmds[x]) matches Some((_, e)) ==> e <= st.sizes[k as int]),
                commands@ == before + cmds.take(j as int).map_values(|c: Command<usize>| shift(c, base as int)),
                forall|x: int| 0 <= x < before.len() ==> (#[trigger] range_of(before[x]) matches Some((_, e)) ==> e <= base),
                ordered(commands@),
                ordered(cmds),
                forall|x: int| 0 <= x < commands@.len() ==> (#[trigger] range_of(commands@[x]) matches Some((_, e)) ==> e <= base + st.sizes[k as int]),
            decreases n - j,
        {
            assert(layers@[k as int]@[j as int] == cmds[j as int]);
            let c = shift_command(&layers[k][j], base);
            let ghost prev = commands@;
            commands.push(c);
            proof {
                assert(cmds.take(j + 1).map_values(|c: Command<usize>| shift(c, base as int)) =~= cmds.take(
                    j as int,
                ).map_values(|c: Command<usize>| shift(c, base as int)).push(shift(cmds[j as int], base as int)));
                assert(commands@[prev.len() as int] == shift(cmds[j as int], base as int));
                let m = prev.len() as int;
                assert forall|a: int, b: int| 0 <= a < b < commands@.len() implies starts_after(
                    #[trigger] commands@[a],
                    #[trigger] commands@[b],
                ) by {
                    if b < m {
                        assert(commands@[a] == prev[a] && commands@[b] == prev[b]);
                    } else if a < before.len() {
                        assert(commands@[a] == before[a]);
                    } else {
                        let x = a - before.len();
                        assert(commands@[a] == shift(cmds[x], base as int));
                        assert(starts_after(cmds[x], cmds[j as int]));
                    }
                }
            }
            j += 1;
        }
        proof {
            assert(cmds.take(n as int) =~= cmds);
            lemma_sum_nonneg(st.sizes.take(k as int));
        }
        bases.push(base);
        base = base + sizes[k];
        k += 1;
    }
    proof {
        assert(st.sizes.take(st.sizes.len() as int) =~= st.sizes);
    }
    let mut offsets: Vec<Option<usize>> = Vec::new();
    let mut x: usize = 0;
    while x < places.len()
        invariant
            places@ == st.places,
            plan_inv(st, count_upto(prims@, prims@.len() as int)),
            bases@.len() == st.sizes.len(),
            forall|j: int| 0 <= j < bases@.len() ==> #[trigger] bases@[j] == seq_sum(st.sizes.take(j)),
            total == seq_sum(st.sizes),
            total <= usize::MAX,
            x <= places@.len(),
            offsets@ == st.places.take(x as int).map_values(
                |p: Option<(usize, usize)>| match p {
                    Some((l, o)) => Some((seq_sum(st.sizes.take(l as int)) + o) as usize),
                    None => None,
                },
            ),
            forall|j: int| 0 <= j < offsets@.len() ==> (#[trigger] offsets@[j] matches Some(o) ==> o <= total),
        decreases places@.len() - x,
    {
        let o = match places[x] {
            Some((l, o)) => {
                proof {
                    assert(st.places[x as int] == Some((l, o)));
                    lemma_sum_part(st.sizes, l as int);
                }
                Some(bases[l] + o)
            },
            None => None,
        };
        offsets.push(o);
        proof {
            assert(st.places.take(x + 1) =~= st.places.take(x as int).push(st.places[x as int]));
        }
        x += 1;
    }
    proof {
        assert(st.places.take(x as int) =~= st.places);
    }
    (commands, offsets, base)
}

/// The count of the first primitives grows with their number.
proof fn lemma_count_mono(prims: Seq<PrimShape>, a: int, b: int)
    requires
        0 <= a <= b,
    ensures
        count_upto(prims, a) <= count_upto(prims, b),
    decreases b - a,
{
    if a < b {
        lemma_count_mono(prims, a, b - 1);
    }
}

} // verus!
