use obj2brs::arena::{Error, Octree, ProxyData};

#[test]
fn fresh_arena_has_a_void_root() {
    let t: Octree<u8> = Octree::new();
    let c = t.cursor();
    assert!(matches!(c.proxy().data(), ProxyData::Void));
    assert!(c.data().is_none());
}

#[test]
fn root_has_no_parent() {
    let t: Octree<u8> = Octree::new();
    let c = t.cursor();
    assert!(matches!(c.parent(), Err(Error::ParentOfRoot)));
    let mut m = t.cursor();
    assert_eq!(m.parent_mut(), Err(Error::ParentOfRoot));
}

#[test]
fn non_branch_nodes_have_no_children() {
    let t: Octree<u8> = Octree::new();
    let c = t.cursor();
    assert!(matches!(c.child(0), Err(Error::NoChildren)));
    assert!(matches!(c.child(12), Err(Error::NoChildren)));
    assert!(c.children().is_empty());
    let mut m = t.cursor();
    assert_eq!(m.child_mut(3), Err(Error::NoChildren));
}
