use vstd::prelude::*;

use crate::dialogue::Line;
use crate::world::{Entity, World};

verus! {

/// How the dialogue graph goes on from an entity once its part is done.
#[derive(Clone, Copy, Debug, PartialEq, Eq, Structural)]
pub enum NodeLink {
    /// To the part on this entity.
    Next(usize),
    /// To the node that starts on this entity, for good.
    Jump(usize),
    /// Into the node that starts on `into`, then back to `back` when it
    /// returns.
    Tunnel { into: usize, back: usize },
    /// Back to where the tunnel into this node was taken.
    Return,
    /// The story ends here.
    GameOver,
}

/// A node that, once entered, does not come back.
#[derive(Clone, Copy, Debug, PartialEq, Eq, Structural)]
pub struct TreeNode(pub usize);

/// A node that is entered through a tunnel and returns from it.
#[derive(Clone, Copy, Debug, PartialEq, Eq, Structural)]
pub struct TunnelNode(pub usize);

/// A handle on the entity where a node starts.
pub trait NodeHandle: Sized {
    spec fn entity(&self) -> usize;

    fn from_entity(e: usize) -> (r: Self)
        ensures
            r.entity() == e;
}

impl NodeHandle for TreeNode {
    open spec fn entity(&self) -> usize {
        self.0
    }

    fn from_entity(e: usize) -> (r: TreeNode) {
        TreeNode(e)
    }
}

impl NodeHandle for TunnelNode {
    open spec fn entity(&self) -> usize {
        self.0
    }

    fn from_entity(e: usize) -> (r: TunnelNode) {
        TunnelNode(e)
    }
}

/// A node whose parts are not added yet; `next` is the entity where its
/// first part goes.
pub struct NodeStub<T> {
    pub node: T,
    pub next: usize,
}

/// A node being built; `next` is the entity where its next part goes.
pub struct NodeBuilder<T> {
    pub node: T,
    pub next: usize,
}

/// An entity as spawned: no parts, no history, not speaking, no link.
pub open spec fn blank(e: Entity) -> bool {
    &&& e.concept is None
    &&& e.evoked is None
    &&& e.evokes is None
    &&& e.clears is None
    &&& e.line is None
    &&& e.spoken.0@.len() == 0
    &&& e.speaking is None
    &&& e.link is None
}

/// `entities` with `link` put on entity `e`, if there is one.
pub open spec fn linked(entities: Seq<Entity>, e: usize, link: NodeLink) -> Seq<Entity> {
    if e < entities.len() {
        entities.update(e as int, (Entity { link: Some(link), ..entities[e as int] }))
    } else {
        entities
    }
}

/// `entities` with `line` put on entity `e`, in place of any line it held,
/// if there is such an entity.
pub open spec fn lined(entities: Seq<Entity>, e: usize, line: Line) -> Seq<Entity> {
    if e < entities.len() {
        entities.update(e as int, (Entity { line: Some(line), ..entities[e as int] }))
    } else {
        entities
    }
}

/// `after` is `before` with one blank entity added at the end, and the
/// entities that were there changed to `changed`.
pub open spec fn grown(before: World, after: World, changed: Seq<Entity>) -> bool {
    &&& after.clock == before.clock
    &&& after.size() == before.size() + 1
    &&& after.entities@.take(before.size()) == changed
    &&& blank(after.entities@[before.size()])
}

/// Something that can be added to a node being built.
pub trait NodePart<Builder> {
    type Return;

    /// Adding `self` to `b` took the world from `before` to `after` and
    /// returned `r`.
    spec fn added(&self, b: Builder, before: World, after: World, r: Self::Return) -> bool;

    fn add_to(self, builder: Builder, world: &mut World) -> (r: Self::Return)
        requires
            old(world).wf(),
            old(world).size() < usize::MAX,
        ensures
            final(world).wf(),
            self.added(builder, *old(world), *final(world), r),
    ;
}

impl<T: NodeHandle> NodeStub<T> {
    /// A new node, starting on a new empty entity; returns the stub and a
    /// handle on the node, so that other nodes can link to it before it is
    /// built.
    pub fn new(world: &mut World) -> (r: (NodeStub<T>, T))
        requires
            old(world).wf(),
            old(world).size() < usize::MAX,
        ensures
            final(world).wf(),
            final(world).size() == old(world).size() + 1,
            final(world).clock == old(world).clock,
            final(world).entities@.take(old(world).size()) == old(world).entities@,
            blank(final(world).entities@[old(world).size()]),
            r.0.next == old(world).size(),
            r.0.node.entity() == r.0.next,
            r.1.entity() == r.0.next,
    {
        let next = world.spawn_group();
        let node = T::from_entity(next);
        let node2 = T::from_entity(next);
        (NodeStub { node, next }, node2)
    }

    /// Starts adding parts to the node.
    pub fn with_commands(self) -> (b: NodeBuilder<T>)
        ensures
            b.next == self.next,
            b.node == self.node,
    {
        NodeBuilder { node: self.node, next: self.next }
    }
}

impl<T> NodeBuilder<T> {
    /// Adds `part` to the node.
    pub fn add<P: NodePart<NodeBuilder<T>>>(self, part: P, world: &mut World) -> (r: P::Return)
        requires
            old(world).wf(),
            old(world).size() < usize::MAX,
        ensures
            final(world).wf(),
            part.added(self, *old(world), *final(world), r),
    {
        part.add_to(self, world)
    }
}

impl World {
    /// Puts `link` on entity `e`, if there is one.
    fn set_link(&mut self, e: usize, link: NodeLink)
        requires
            old(self).wf(),
        ensures
            final(self).wf(),
            final(self).size() == old(self).size(),
            final(self).entities@ == linked(old(self).entities@, e, link),
            final(self).clock == old(self).clock,
    {
        if e < self.entities.len() {
            let ghost o = *self;
            self.entities[e].link = Some(link);
            proof {
                crate::concepts::lemma_wf_activation_only(o, *self);
            }
        }
    }

    /// Puts `line` on entity `e`, in place of any line it held, if there is
    /// such an entity.
    fn set_line(&mut self, e: usize, line: Line)
        requires
            old(self).wf(),
        ensures
            final(self).wf(),
            final(self).size() == old(self).size(),
            final(self).entities@ == lined(old(self).entities@, e, line),
            final(self).clock == old(self).clock,
    {
        if e < self.entities.len() {
            let ghost o = *self;
            self.entities[e].line = Some(line);
            proof {
                assert forall|i: int| 0 <= i < self.size() implies crate::world::history_ok(
                    #[trigger] self.history(i),
                    self.clock,
                ) by {
                    assert(self.history(i) == o.history(i));
                }
                assert forall|i: int, j: int| self.is_speaking(i) && self.is_speaking(j) implies i
                    == j by {
                    assert(o.is_speaking(i) && o.is_speaking(j));
                }
                assert forall|i: int| #[trigger]
                    self.is_speaking(i) implies self.entities@[i].line is Some && self.has_spoken(i) by {
                    assert(o.is_speaking(i));
                    assert(self.history(i) == o.history(i));
                }
            }
        }
    }
}

/// A line to add to a node.
pub struct LineBundle {
    pub line: Line,
}

impl<T> NodePart<NodeBuilder<T>> for LineBundle {
    type Return = NodeBuilder<T>;

    /// The line went on the builder's entity (replacing any line there), which now
    /// leads to a new blank entity where the next part goes.
    open spec fn added(
        &self,
        b: NodeBuilder<T>,
        before: World,
        after: World,
        r: NodeBuilder<T>,
    ) -> bool {
        &&& r.node == b.node
        &&& r.next == before.size()
        &&& grown(
            before,
            after,
            linked(lined(before.entities@, b.next, self.line), b.next, NodeLink::Next(r.next)),
        )
    }

    fn add_to(self, builder: NodeBuilder<T>, world: &mut World) -> (r: NodeBuilder<T>) {
        let next = world.entities.len();
        world.set_line(builder.next, self.line);
        world.set_link(builder.next, NodeLink::Next(next));
        let id = world.spawn_group();
        NodeBuilder { node: builder.node, next: id }
    }
}

/// A jump to another node, for good.
#[derive(Clone, Copy, Debug, PartialEq, Eq, Structural)]
pub struct JumpChoice {
    pub target: TreeNode,
}

/// A detour through another node, which then returns.
#[derive(Clone, Copy, Debug, PartialEq, Eq, Structural)]
pub struct TunnelChoice {
    pub target: TunnelNode,
}

impl JumpChoice {
    /// The link that takes the dialogue to the target node.
    pub fn bundle(self) -> (r: NodeLink)
        ensures
            r == NodeLink::Jump(self.target.0),
    {
        NodeLink::Jump(self.target.0)
    }
}

impl TunnelChoice {
    /// The link that takes the dialogue into the target node and, when it
    /// returns, on to `next`.
    pub fn bundle(self, next: usize) -> (r: NodeLink)
        ensures
            r == (NodeLink::Tunnel { into: self.target.0, back: next }),
    {
        NodeLink::Tunnel { into: self.target.0, back: next }
    }
}

impl<T> NodePart<NodeBuilder<T>> for TunnelChoice {
    type Return = NodeBuilder<T>;

    /// The tunnel went on the builder's entity; the node goes on at a new
    /// blank entity once the tunnel returns.
    open spec fn added(
        &self,
        b: NodeBuilder<T>,
        before: World,
        after: World,
        r: NodeBuilder<T>,
    ) -> bool {
        &&& r.node == b.node
        &&& r.next == before.size()
        &&& grown(
            before,
            after,
            linked(
                before.entities@,
                b.next,
                NodeLink::Tunnel { into: self.target.0, back: r.next },
            ),
        )
    }

    fn add_to(self, builder: NodeBuilder<T>, world: &mut World) -> (r: NodeBuilder<T>) {
        let next = world.entities.len();
        world.set_link(builder.next, self.bundle(next));
        let id = world.spawn_group();
        NodeBuilder { node: builder.node, next: id }
    }
}

impl NodePart<NodeBuilder<TreeNode>> for JumpChoice {
    type Return = ();

    /// The jump went on the builder's entity and ended the node.
    open spec fn added(&self, b: NodeBuilder<TreeNode>, before: World, after: World, r: ()) -> bool {
        &&& after.clock == before.clock
        &&& after.entities@ == linked(before.entities@, b.next, NodeLink::Jump(self.target.0))
    }

    fn add_to(self, builder: NodeBuilder<TreeNode>, world: &mut World) {
        world.set_link(builder.next, self.bundle());
    }
}

impl NodeBuilder<TunnelNode> {
    /// Ends the node by returning from the tunnel that led into it.
    pub fn tunnel_return(self, world: &mut World)
        requires
            old(world).wf(),
        ensures
            final(world).wf(),
            final(world).clock == old(world).clock,
            final(world).entities@ == linked(old(world).entities@, self.next, NodeLink::Return),
    {
        world.set_link(self.next, NodeLink::Return);
    }
}

impl NodeBuilder<TreeNode> {
    /// Ends the node, and the story with it.
    pub fn game_over(self, world: &mut World)
        requires
            old(world).wf(),
        ensures
            final(world).wf(),
            final(world).clock == old(world).clock,
            final(world).entities@ == linked(old(world).entities@, self.next, NodeLink::GameOver),
    {
        world.set_link(self.next, NodeLink::GameOver);
    }
}

} // verus!
