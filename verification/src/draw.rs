//! The commands of a render pass.

use vstd::prelude::*;
use crate::gpu::{slot_kind, GroupKind};
use crate::model::RenderItem;
use crate::single::{Single, ONE_BITS};

verus! {

/// What drawing a primitive depends on.
#[derive(Clone, Copy, Debug, PartialEq, Eq, Structural)]
pub struct PrimitiveInfo {
    pub indexed: bool,
    pub index_count: u32,
    pub material: usize,
}

/// A bind group, by the material or the item that it belongs to.
#[derive(Clone, Copy, Debug, PartialEq, Eq, Structural)]
pub enum Group {
    Camera,
    Material(usize),
    Object(usize),
}

impl Group {
    /// The kind of the bind group.
    pub open spec fn kind(self) -> GroupKind {
        match self {
            Group::Camera => GroupKind::Camera,
            Group::Material(_) => GroupKind::Material,
            Group::Object(_) => GroupKind::Object,
        }
    }
}

/// A command of a render pass.
#[derive(Clone, Copy, Debug, PartialEq, Eq, Structural)]
pub enum Command {
    SetPipeline,
    SetBindGroup { slot: u32, group: Group },
    SetVertexBuffer { primitive: usize },
    SetIndexBuffer { primitive: usize },
    /// Draws indices from 0 to `count`, once.
    DrawIndexed { count: u32 },
    /// Draws vertices from 0 to `count`, once.
    Draw { count: u32 },
}

/// What the frame is cleared to before a pass draws.
#[derive(Clone, Copy, Debug, PartialEq, Eq, Structural)]
pub struct ClearValues {
    pub red: Single,
    pub green: Single,
    pub blue: Single,
    pub alpha: Single,
    pub depth: Single,
}

/// Opaque black, at the greatest depth.
pub open spec fn black_and_far() -> ClearValues {
    let zero = Single { bits: 0 };
    let one = Single { bits: ONE_BITS };
    ClearValues { red: zero, green: zero, blue: zero, alpha: one, depth: one }
}

/// A render pass, and how many items it draws.
#[derive(Debug)]
pub struct DrawPass {
    pub clear: ClearValues,
    pub commands: Vec<Command>,
    pub drawn: usize,
}

/// What a pass starts with.
pub open spec fn prologue() -> Seq<Command> {
    seq![Command::SetPipeline, Command::SetBindGroup { slot: 0, group: Group::Camera }]
}

/// The commands that draw item `i`.
pub open spec fn item_commands(i: int, primitive: usize, info: PrimitiveInfo) -> Seq<Command> {
    let bindings = seq![
        Command::SetBindGroup { slot: 2, group: Group::Object(i as usize) },
        Command::SetBindGroup { slot: 1, group: Group::Material(info.material) },
        Command::SetVertexBuffer { primitive },
    ];
    if info.indexed {
        bindings + seq![Command::SetIndexBuffer { primitive }, Command::DrawIndexed { count: info.index_count }]
    } else {
        bindings + seq![Command::Draw { count: info.index_count }]
    }
}

/// The commands of a pass over the first `n` items. Items that are not visible
/// are passed over.
pub open spec fn pass_commands(
    items: Seq<RenderItem>,
    primitives: Seq<PrimitiveInfo>,
    visible: Seq<bool>,
    n: int,
) -> Seq<Command>
    decreases n,
{
    if n <= 0 {
        prologue()
    } else {
        let before = pass_commands(items, primitives, visible, n - 1);
        let p = items[n - 1].primitive;
        if visible[n - 1] {
            before + item_commands(n - 1, p, primitives[p as int])
        } else {
            before
        }
    }
}

/// How many of the first `n` items are visible.
pub open spec fn visible_count(visible: Seq<bool>, n: int) -> nat
    decreases n,
{
    if n <= 0 {
        0
    } else {
        visible_count(visible, n - 1) + (if visible[n - 1] {
            1nat
        } else {
            0nat
        })
    }
}

/// `pass` clears the frame and draws the visible items in order.
pub open spec fn records(
    pass: DrawPass,
    items: Seq<RenderItem>,
    primitives: Seq<PrimitiveInfo>,
    visible: Seq<bool>,
) -> bool {
    &&& pass.clear == black_and_far()
    &&& pass.commands@ == pass_commands(items, primitives, visible, items.len() as int)
    &&& pass.drawn == visible_count(visible, items.len() as int)
}

/// Records a pass that clears the frame and draws the visible items in order.
pub fn record_pass(items: &Vec<RenderItem>, primitives: &Vec<PrimitiveInfo>, visible: &Vec<bool>) -> (r: DrawPass)
    requires
        visible@.len() == items@.len(),
        forall|i: int| 0 <= i < items@.len() ==> (#[trigger] items@[i]).primitive < primitives@.len(),
    ensures
        records(r, items@, primitives@, visible@),
        r.drawn <= items@.len(),
        r.clear.red.bits == 0 && r.clear.green.bits == 0 && r.clear.blue.bits == 0,
        r.clear.alpha.bits == 0x3f80_0000 && r.clear.depth.bits == 0x3f80_0000,
        draws_exactly(r.commands@, items@, primitives@, visible@),
        r.drawn == draw_calls(r.commands@).len(),
{
    let mut commands: Vec<Command> = Vec::new();
    commands.push(Command::SetPipeline);
    commands.push(Command::SetBindGroup { slot: 0, group: Group::Camera });
    assert(commands@ =~= prologue());
    let mut drawn: usize = 0;
    let mut i: usize = 0;
    while i < items.len()
        invariant
            visible@.len() == items@.len(),
            forall|j: int| 0 <= j < items@.len() ==> (#[trigger] items@[j]).primitive < primitives@.len(),
            0 <= i <= items@.len(),
            commands@ == pass_commands(items@, primitives@, visible@, i as int),
            drawn == visible_count(visible@, i as int),
            drawn <= i,
        decreases items@.len() - i,
    {
        if visible[i] {
            let ghost before = commands@;
            let p: usize = items[i].primitive;
            let info = primitives[p];
            commands.push(Command::SetBindGroup { slot: 2, group: Group::Object(i) });
            commands.push(Command::SetBindGroup { slot: 1, group: Group::Material(info.material) });
            commands.push(Command::SetVertexBuffer { primitive: p });
            if info.indexed {
                commands.push(Command::SetIndexBuffer { primitive: p });
                commands.push(Command::DrawIndexed { count: info.index_count });
            } else {
                commands.push(Command::Draw { count: info.index_count });
            }
            assert(commands@ =~= before + item_commands(i as int, p, info));
            drawn = drawn + 1;
        }
        i = i + 1;
    }
    let zero = Single { bits: 0 };
    let one = Single { bits: ONE_BITS };
    let clear = ClearValues { red: zero, green: zero, blue: zero, alpha: one, depth: one };
    proof {
        lemma_pass_draws_exactly(items@, primitives@, visible@);
    }
    DrawPass { clear, commands, drawn }
}

/// What a pass has bound so far.
pub struct PassState {
    pub pipeline: bool,
    pub slots: Map<u32, Group>,
    pub vertices: Option<usize>,
    pub indices: Option<usize>,
}

/// A draw call with everything that it reads.
pub struct DrawCall {
    pub camera: Group,
    pub material: Group,
    pub object: Group,
    pub vertices: Option<usize>,
    /// The buffer that indices are taken from, for an indexed draw.
    pub indices: Option<Option<usize>>,
    pub count: u32,
}

/// A draw call with what is bound in `state`.
pub open spec fn call_with(state: PassState, indexed: bool, count: u32) -> DrawCall {
    DrawCall {
        camera: state.slots[0u32],
        material: state.slots[1u32],
        object: state.slots[2u32],
        vertices: state.vertices,
        indices: if indexed {
            Some(state.indices)
        } else {
            None
        },
        count,
    }
}

/// What is bound after one more command.
pub open spec fn step(state: PassState, command: Command) -> PassState {
    match command {
        Command::SetPipeline => PassState { pipeline: true, ..state },
        Command::SetBindGroup { slot, group } => PassState { slots: state.slots.insert(slot, group), ..state },
        Command::SetVertexBuffer { primitive } => PassState { vertices: Some(primitive), ..state },
        Command::SetIndexBuffer { primitive } => PassState { indices: Some(primitive), ..state },
        Command::DrawIndexed { count } => state,
        Command::Draw { count } => state,
    }
}

/// What is bound after `commands`.
pub open spec fn state_after(commands: Seq<Command>) -> PassState
    decreases commands.len(),
{
    if commands.len() == 0 {
        PassState { pipeline: false, slots: Map::empty(), vertices: None, indices: None }
    } else {
        step(state_after(commands.drop_last()), commands.last())
    }
}

/// The draw calls that `commands` amount to.
pub open spec fn draw_calls(commands: Seq<Command>) -> Seq<DrawCall>
    decreases commands.len(),
{
    if commands.len() == 0 {
        Seq::empty()
    } else {
        let before = draw_calls(commands.drop_last());
        let state = state_after(commands.drop_last());
        match commands.last() {
            Command::DrawIndexed { count } => before.push(call_with(state, true, count)),
            Command::Draw { count } => before.push(call_with(state, false, count)),
            _ => before,
        }
    }
}

proof fn lemma_one_more(commands: Seq<Command>, c: Command)
    ensures
        state_after(commands.push(c)) == step(state_after(commands), c),
        draw_calls(commands.push(c)) == match c {
            Command::DrawIndexed { count } => draw_calls(commands).push(
                call_with(state_after(commands), true, count),
            ),
            Command::Draw { count } => draw_calls(commands).push(call_with(state_after(commands), false, count)),
            _ => draw_calls(commands),
        },
{
    assert(commands.push(c).drop_last() =~= commands);
}

/// The draw call of item `i`: its own matrix, the material of its primitive,
/// and the primitive's own buffers.
pub open spec fn item_call(i: int, primitive: usize, info: PrimitiveInfo) -> DrawCall {
    DrawCall {
        camera: Group::Camera,
        material: Group::Material(info.material),
        object: Group::Object(i as usize),
        vertices: Some(primitive),
        indices: if info.indexed {
            Some(Some(primitive))
        } else {
            None
        },
        count: info.index_count,
    }
}

/// One draw call for each visible item, in order.
pub open spec fn visible_calls(
    items: Seq<RenderItem>,
    primitives: Seq<PrimitiveInfo>,
    visible: Seq<bool>,
    n: int,
) -> Seq<DrawCall>
    decreases n,
{
    if n <= 0 {
        Seq::empty()
    } else {
        let before = visible_calls(items, primitives, visible, n - 1);
        let p = items[n - 1].primitive;
        if visible[n - 1] {
            before.push(item_call(n - 1, p, primitives[p as int]))
        } else {
            before
        }
    }
}

proof fn lemma_item_draws_itself(before: Seq<Command>, i: int, primitive: usize, info: PrimitiveInfo)
    requires
        state_after(before).pipeline,
        state_after(before).slots.dom().contains(0u32),
        state_after(before).slots[0u32] == Group::Camera,
    ensures
        ({
            let after = before + item_commands(i, primitive, info);
            &&& draw_calls(after) == draw_calls(before).push(item_call(i, primitive, info))
            &&& state_after(after).pipeline
            &&& state_after(after).slots.dom().contains(0u32)
            &&& state_after(after).slots[0u32] == Group::Camera
        }),
{
    let c0 = Command::SetBindGroup { slot: 2, group: Group::Object(i as usize) };
    let c1 = Command::SetBindGroup { slot: 1, group: Group::Material(info.material) };
    let c2 = Command::SetVertexBuffer { primitive };
    let s0 = before.push(c0);
    let s1 = s0.push(c1);
    let s2 = s1.push(c2);
    lemma_one_more(before, c0);
    lemma_one_more(s0, c1);
    lemma_one_more(s1, c2);
    if info.indexed {
        let c3 = Command::SetIndexBuffer { primitive };
        let c4 = Command::DrawIndexed { count: info.index_count };
        let s3 = s2.push(c3);
        lemma_one_more(s2, c3);
        lemma_one_more(s3, c4);
        assert(before + item_commands(i, primitive, info) =~= s3.push(c4));
    } else {
        let c3 = Command::Draw { count: info.index_count };
        lemma_one_more(s2, c3);
        assert(before + item_commands(i, primitive, info) =~= s2.push(c3));
    }
}

/// A recorded pass draws every visible item once, in order, and each with the
/// camera, its own matrix, its own material and its own buffers bound; no
/// binding is left over from an earlier item.
pub proof fn lemma_pass_draws_visible_items(
    items: Seq<RenderItem>,
    primitives: Seq<PrimitiveInfo>,
    visible: Seq<bool>,
    n: int,
)
    requires
        0 <= n <= items.len(),
        visible.len() == items.len(),
    ensures
        draw_calls(pass_commands(items, primitives, visible, n)) == visible_calls(items, primitives, visible, n),
        visible_calls(items, primitives, visible, n).len() == visible_count(visible, n),
        state_after(pass_commands(items, primitives, visible, n)).pipeline,
        state_after(pass_commands(items, primitives, visible, n)).slots.dom().contains(0u32),
        state_after(pass_commands(items, primitives, visible, n)).slots[0u32] == Group::Camera,
    decreases n,
{
    if n <= 0 {
        let none = Seq::<Command>::empty();
        let c0 = Command::SetPipeline;
        let c1 = Command::SetBindGroup { slot: 0, group: Group::Camera };
        lemma_one_more(none, c0);
        lemma_one_more(none.push(c0), c1);
        assert(prologue() =~= none.push(c0).push(c1));
    } else {
        lemma_pass_draws_visible_items(items, primitives, visible, n - 1);
        let before = pass_commands(items, primitives, visible, n - 1);
        let p = items[n - 1].primitive;
        if visible[n - 1] {
            lemma_item_draws_itself(before, n - 1, p, primitives[p as int]);
        }
    }
}

/// The numbers of the items that are visible, in order.
pub open spec fn visible_items(visible: Seq<bool>) -> Seq<int> {
    Seq::new(visible.len(), |i: int| i).filter(|i: int| visible[i])
}

/// The commands make one draw call for each visible item, in order, and no other.
/// The call reads the camera, the item's own matrix, the material of its
/// primitive and the primitive's vertices; if the primitive has indices, they are
/// gone through, and otherwise the vertices. The pipeline is set before, and
/// there are no more commands than that takes.
pub open spec fn draws_exactly(
    commands: Seq<Command>,
    items: Seq<RenderItem>,
    primitives: Seq<PrimitiveInfo>,
    visible: Seq<bool>,
) -> bool {
    let calls = draw_calls(commands);
    let shown = visible_items(visible);
    let indexed = shown.filter(|i: int| primitives[items[i].primitive as int].indexed);
    &&& calls.len() == shown.len()
    &&& forall|j: int|
        0 <= j < shown.len() ==> {
            let p = items[shown[j]].primitive;
            &&& (#[trigger] calls[j]).camera is Camera
            &&& calls[j].object == Group::Object(shown[j] as usize)
            &&& calls[j].material == Group::Material(primitives[p as int].material)
            &&& calls[j].vertices == Some(p)
            &&& calls[j].indices == (if primitives[p as int].indexed { Some(Some(p)) } else { None })
            &&& calls[j].count == primitives[p as int].index_count
        }
    &&& commands.len() == 2 + 4 * shown.len() + indexed.len()
    &&& commands[0] is SetPipeline
}

proof fn lemma_one_more_item(visible: Seq<bool>, n: int)
    requires
        0 < n <= visible.len(),
    ensures
        visible[n - 1] ==> visible_items(visible.take(n)) == visible_items(visible.take(n - 1)).push(n - 1),
        !visible[n - 1] ==> visible_items(visible.take(n)) == visible_items(visible.take(n - 1)),
{
    reveal(Seq::filter);
    let all = Seq::new(n as nat, |i: int| i);
    let fewer = Seq::new((n - 1) as nat, |i: int| i);
    assert(all.drop_last() =~= fewer);
    let a = |i: int| visible.take(n)[i];
    let b = |i: int| visible.take(n - 1)[i];
    lemma_filter_by_the_same(fewer, a, b);
}

proof fn lemma_filter_by_the_same(list: Seq<int>, a: spec_fn(int) -> bool, b: spec_fn(int) -> bool)
    requires
        forall|k: int| 0 <= k < list.len() ==> a(#[trigger] list[k]) == b(list[k]),
    ensures
        list.filter(a) == list.filter(b),
    decreases list.len(),
{
    reveal(Seq::filter);
    if list.len() > 0 {
        assert(a(list[list.len() - 1]) == b(list[list.len() - 1]));
        assert forall|k: int| 0 <= k < list.drop_last().len() implies a(#[trigger] list.drop_last()[k]) == b(
            list.drop_last()[k],
        ) by {
            assert(a(list[k]) == b(list[k]));
        }
        lemma_filter_by_the_same(list.drop_last(), a, b);
    }
}

proof fn lemma_first_items_draw_exactly(
    items: Seq<RenderItem>,
    primitives: Seq<PrimitiveInfo>,
    visible: Seq<bool>,
    n: int,
)
    requires
        0 <= n <= items.len(),
        visible.len() == items.len(),
    ensures
        draws_exactly(pass_commands(items, primitives, visible, n), items, primitives, visible.take(n)),
        visible_count(visible, n) == visible_items(visible.take(n)).len(),
    decreases n,
{
    reveal(Seq::filter);
    let shown = visible_items(visible.take(n));
    let commands = pass_commands(items, primitives, visible, n);
    lemma_pass_draws_visible_items(items, primitives, visible, n);
    if n == 0 {
        assert(shown =~= Seq::<int>::empty());
    } else {
        lemma_first_items_draw_exactly(items, primitives, visible, n - 1);
        lemma_pass_draws_visible_items(items, primitives, visible, n - 1);
        lemma_one_more_item(visible, n);
        let fewer = visible_items(visible.take(n - 1));
        let before = pass_commands(items, primitives, visible, n - 1);
        let f = |i: int| primitives[items[i].primitive as int].indexed;
        assert(commands[0] == before[0]);
        if visible[n - 1] {
            assert(shown.drop_last() =~= fewer);
            assert(shown.last() == n - 1);
            let calls = draw_calls(commands);
            let earlier = draw_calls(before);
            assert(calls == earlier.push(item_call(n - 1, items[n - 1].primitive, primitives[items[n - 1].primitive as int])));
            assert forall|j: int| 0 <= j < shown.len() implies {
                let p = items[shown[j]].primitive;
                &&& (#[trigger] calls[j]).camera is Camera
                &&& calls[j].object == Group::Object(shown[j] as usize)
                &&& calls[j].material == Group::Material(primitives[p as int].material)
                &&& calls[j].vertices == Some(p)
                &&& calls[j].indices == (if primitives[p as int].indexed { Some(Some(p)) } else { None })
                &&& calls[j].count == primitives[p as int].index_count
            } by {
                if j < fewer.len() {
                    assert(calls[j] == earlier[j]);
                    assert(shown[j] == fewer[j]);
                }
            }
        }
    }
}

/// A recorded pass draws exactly the visible items.
pub proof fn lemma_pass_draws_exactly(items: Seq<RenderItem>, primitives: Seq<PrimitiveInfo>, visible: Seq<bool>)
    requires
        visible.len() == items.len(),
    ensures
        draws_exactly(pass_commands(items, primitives, visible, items.len() as int), items, primitives, visible),
        visible_count(visible, items.len() as int) == visible_items(visible).len(),
        black_and_far().red.bits == 0 && black_and_far().green.bits == 0 && black_and_far().blue.bits == 0,
        black_and_far().alpha.bits == 0x3f80_0000 && black_and_far().depth.bits == 0x3f80_0000,
{
    lemma_first_items_draw_exactly(items, primitives, visible, items.len() as int);
    assert(visible.take(visible.len() as int) =~= visible);
}

/// Every bind group goes into the slot in which the pipeline expects its kind.
pub proof fn lemma_groups_go_into_their_slots(
    items: Seq<RenderItem>,
    primitives: Seq<PrimitiveInfo>,
    visible: Seq<bool>,
    n: int,
)
    ensures
        forall|c: int|
            0 <= c < pass_commands(items, primitives, visible, n).len() ==> (#[trigger] pass_commands(
                items,
                primitives,
                visible,
                n,
            )[c] matches Command::SetBindGroup { slot, group } ==> slot < 3 && group.kind() == slot_kind(slot as int)),
    decreases n,
{
    if n > 0 {
        lemma_groups_go_into_their_slots(items, primitives, visible, n - 1);
    }
}

/// What a command refers to exists, where there are so many items, primitives
/// and materials.
pub open spec fn command_in_range(command: Command, items: nat, primitives: nat, materials: nat) -> bool {
    match command {
        Command::SetBindGroup { slot, group } => match group {
            Group::Camera => true,
            Group::Material(m) => m < materials,
            Group::Object(i) => i < items,
        },
        Command::SetVertexBuffer { primitive } => primitive < primitives,
        Command::SetIndexBuffer { primitive } => primitive < primitives,
        _ => true,
    }
}

/// Every command refers to an item, a primitive or a material that exists,
/// provided that the items name existing primitives and these name existing
/// materials; and an index buffer is set only for a primitive that has one.
pub proof fn lemma_commands_in_range(
    items: Seq<RenderItem>,
    primitives: Seq<PrimitiveInfo>,
    visible: Seq<bool>,
    n: int,
    materials: nat,
)
    requires
        0 <= n <= items.len() <= usize::MAX,
        forall|i: int| 0 <= i < items.len() ==> (#[trigger] items[i]).primitive < primitives.len(),
        forall|p: int| 0 <= p < primitives.len() ==> (#[trigger] primitives[p]).material < materials,
    ensures
        forall|c: int|
            0 <= c < pass_commands(items, primitives, visible, n).len() ==> {
                let command = #[trigger] pass_commands(items, primitives, visible, n)[c];
                &&& command_in_range(command, items.len(), primitives.len(), materials)
                &&& command matches Command::SetIndexBuffer { primitive } ==> primitives[primitive as int].indexed
            },
    decreases n,
{
    if n > 0 {
        lemma_commands_in_range(items, primitives, visible, n - 1, materials);
        assert(items[n - 1].primitive < primitives.len());
    }
}

/// Recording again changes nothing: two passes over the same items clear the
/// frame to the same values and make the same draw calls, each of them with
/// everything bound that it reads, whatever was drawn before the pass.
pub proof fn lemma_second_pass_is_the_same(
    first: DrawPass,
    second: DrawPass,
    items: Seq<RenderItem>,
    primitives: Seq<PrimitiveInfo>,
    visible: Seq<bool>,
)
    requires
        visible.len() == items.len(),
        records(first, items, primitives, visible),
        records(second, items, primitives, visible),
    ensures
        first.clear == second.clear,
        first.commands@ == second.commands@,
        first.drawn == second.drawn,
        draw_calls(second.commands@) == visible_calls(items, primitives, visible, items.len() as int),
{
    lemma_pass_draws_visible_items(items, primitives, visible, items.len() as int);
}

} // verus!
