use seance::{
    JumpChoice, Line, LineBundle, NodeLink, NodeStub, TreeNode, TunnelChoice, TunnelNode, World,
};

fn said(text: &str) -> LineBundle {
    let mut line = Line::default();
    line.text = text.to_string();
    LineBundle { line }
}

#[test]
fn jump_bundle_links_to_target() {
    let j = JumpChoice { target: TreeNode(7) };
    assert_eq!(j.bundle(), NodeLink::Jump(7));
    let t = TunnelChoice { target: TunnelNode(3) };
    assert_eq!(t.bundle(9), NodeLink::Tunnel { into: 3, back: 9 });
}

#[test]
fn builder_chains_lines_and_links() {
    let mut world = World::new();
    let (stub, intro): (NodeStub<TreeNode>, TreeNode) = NodeStub::new(&mut world);
    let (other_stub, other): (NodeStub<TreeNode>, TreeNode) = NodeStub::new(&mut world);
    assert_eq!(intro, TreeNode(0));
    assert_eq!(other, TreeNode(1));

    let b = stub.with_commands();
    let b = b.add(said("Hello."), &mut world);
    let b = b.add(said("Who is there?"), &mut world);
    b.add(JumpChoice { target: other }, &mut world);

    assert_eq!(world.entities[0].line.as_ref().unwrap().text, "Hello.");
    assert_eq!(world.entities[0].link, Some(NodeLink::Next(2)));
    assert_eq!(world.entities[2].line.as_ref().unwrap().text, "Who is there?");
    assert_eq!(world.entities[2].link, Some(NodeLink::Next(3)));
    assert_eq!(world.entities[3].link, Some(NodeLink::Jump(1)));

    let ob = other_stub.with_commands();
    let ob = ob.add(said("Goodbye."), &mut world);
    ob.game_over(&mut world);
    assert_eq!(world.entities[1].link, Some(NodeLink::Next(4)));
    assert_eq!(world.entities[4].link, Some(NodeLink::GameOver));
}

#[test]
fn tunnel_returns() {
    let mut world = World::new();
    let (stub, _main): (NodeStub<TreeNode>, TreeNode) = NodeStub::new(&mut world);
    let (tstub, side): (NodeStub<TunnelNode>, TunnelNode) = NodeStub::new(&mut world);
    let b = stub.with_commands().add(TunnelChoice { target: side }, &mut world);
    assert_eq!(world.entities[0].link, Some(NodeLink::Tunnel { into: 1, back: 2 }));
    b.add(said("Back again."), &mut world);
    let t = tstub.with_commands().add(said("A detour."), &mut world);
    t.tunnel_return(&mut world);
    assert_eq!(world.entities[1].link, Some(NodeLink::Next(4)));
    assert_eq!(world.entities[4].link, Some(NodeLink::Return));
}

#[test]
fn line_part_replaces_an_existing_line_and_adds_a_blank_entity() {
    let mut world = World::new();
    let (stub, _n): (NodeStub<TreeNode>, TreeNode) = NodeStub::new(&mut world);
    let b = stub.with_commands();
    let first = b.next;
    let b = b.add(said("One."), &mut world);
    assert_eq!(b.next, 1);
    assert_eq!(world.entities.len(), 2);
    assert!(world.entities[1].line.is_none() && world.entities[1].link.is_none());
    let again = seance::NodeBuilder { node: b.node, next: first };
    let b2 = again.add(said("Two."), &mut world);
    assert_eq!(world.entities[first].line.as_ref().unwrap().text, "Two.");
    assert_eq!(world.entities[first].link, Some(NodeLink::Next(b2.next)));
}
