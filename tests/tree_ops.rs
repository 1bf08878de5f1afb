use alisa::delta::{ProjectContext, Recorder};
use alisa::object::{ObjList, ObjPtr};
use alisa::tree::{create_child, delete_child, transfer, transfer_inverse, Children, TreeObj};
use vstd::seq::Seq;

#[derive(Clone, Debug, PartialEq)]
struct Root {
    top: Vec<ObjPtr>,
}

#[derive(Clone, Debug, PartialEq)]
struct Node {
    name: String,
    parent: u64,
    children: Option<Vec<ObjPtr>>,
}

impl TreeObj<Root> for Node {
    fn parent_of(&self) -> u64 {
        self.parent
    }

    fn with_parent(self, parent: u64) -> Self {
        Node { parent, ..self }
    }

    fn children_of(&self) -> Option<Seq<ObjPtr>> {
        None
    }

    fn with_children(self, _children: Seq<ObjPtr>) -> Self {
        self
    }

    fn root_children(_r: Root) -> Option<Seq<ObjPtr>> {
        None
    }

    fn with_root_children(r: Root, _children: Seq<ObjPtr>) -> Root {
        r
    }

    fn lemma_parent_lens(_o: Self, _a: u64, _b: u64) {}

    fn lemma_children_lens(_o: Self, _a: Seq<ObjPtr>, _b: Seq<ObjPtr>) {}

    fn lemma_root_lens(_r: Root, _a: Seq<ObjPtr>, _b: Seq<ObjPtr>) {}

    fn parent(&self) -> u64 {
        self.parent
    }

    fn set_parent(self, parent: u64) -> Self {
        Node { parent, ..self }
    }

    fn children(&self) -> Option<Vec<ObjPtr>> {
        self.children.clone()
    }

    fn set_children(self, children: Vec<ObjPtr>) -> Self {
        Node { children: Some(children), ..self }
    }

    fn root_children_of(r: &Root) -> Option<Vec<ObjPtr>> {
        Some(r.top.clone())
    }

    fn set_root_children(_r: Root, children: Vec<ObjPtr>) -> Root {
        Root { top: children }
    }

    fn duplicate(&self) -> Self {
        self.clone()
    }

    fn duplicate_root(r: &Root) -> Root {
        r.clone()
    }
}

fn p(k: u64) -> ObjPtr {
    ObjPtr::from_key(k)
}

fn node(name: &str, parent: u64, children: Option<Vec<u64>>) -> Node {
    Node { name: name.to_string(), parent, children: children.map(|c| c.into_iter().map(p).collect()) }
}

fn sample() -> (Root, ObjList<Node>) {
    let mut objects = ObjList::new();
    objects.insert(p(1), node("a", 0, Some(vec![3])));
    objects.insert(p(2), node("b", 0, Some(vec![])));
    objects.insert(p(3), node("c", 1, None));
    (Root { top: vec![p(1), p(2)] }, objects)
}

fn view(ctx: &ProjectContext<Root, Node>) -> (Root, Vec<Option<Node>>) {
    (ctx.project().clone(), (1..=4).map(|k| ctx.obj_list().get(p(k)).cloned()).collect())
}

#[test]
fn transfer_moves_between_lists_and_back() {
    let (root, objects) = sample();
    let ctx = ProjectContext::new(root, objects);
    let before = view(&ctx);
    let back = transfer_inverse(ctx.project(), ctx.obj_list(), p(3));
    assert_eq!(back, Some((1, 0)));
    let mut rec = Recorder::new(ctx);
    transfer(&mut rec, p(3), 2, 5);
    assert_eq!(rec.obj_list().get(p(3)).unwrap().parent, 2);
    assert_eq!(rec.obj_list().get(p(1)).unwrap().children, Some(vec![]));
    assert_eq!(rec.obj_list().get(p(2)).unwrap().children, Some(vec![p(3)]));
    let (parent, idx) = back.unwrap();
    transfer(&mut rec, p(3), parent, idx);
    let (ctx, _) = rec.finish();
    assert_eq!(view(&ctx), before);
}

#[test]
fn transfer_to_root_and_recorded_deltas_undo() {
    let (root, objects) = sample();
    let ctx = ProjectContext::new(root, objects);
    let before = view(&ctx);
    let mut rec = Recorder::new(ctx);
    transfer(&mut rec, p(3), 0, 1);
    assert_eq!(rec.project().top, vec![p(1), p(3), p(2)]);
    assert_eq!(rec.obj_list().get(p(3)).unwrap().parent, 0);
    let (mut ctx, mut deltas) = rec.finish();
    while let Some(d) = deltas.pop() {
        d.perform(&mut ctx);
    }
    assert_eq!(view(&ctx), before);
}

#[test]
fn transfer_to_missing_parent_is_a_no_op() {
    let (root, objects) = sample();
    let ctx = ProjectContext::new(root, objects);
    let before = view(&ctx);
    let mut rec = Recorder::new(ctx);
    transfer(&mut rec, p(3), 9, 0);
    transfer(&mut rec, p(3), 3, 0);
    transfer(&mut rec, p(8), 2, 0);
    let (ctx, deltas) = rec.finish();
    assert!(deltas.is_empty());
    assert_eq!(view(&ctx), before);
    assert_eq!(transfer_inverse(ctx.project(), ctx.obj_list(), p(8)), None);
}

#[test]
fn create_and_delete_children() {
    let (root, objects) = sample();
    let ctx = ProjectContext::new(root, objects);
    let before = view(&ctx);
    let mut rec = Recorder::new(ctx);
    assert!(create_child(&mut rec, p(4), node("d", 1, None), 0));
    assert_eq!(rec.obj_list().get(p(1)).unwrap().children, Some(vec![p(4), p(3)]));
    assert!(!create_child(&mut rec, p(4), node("again", 2, None), 0));
    assert!(!create_child(&mut rec, p(5), node("orphan", 7, None), 0));
    assert!(!create_child(&mut rec, p(6), node("leafchild", 3, None), 0));
    assert!(delete_child(&mut rec, p(3)));
    assert!(!delete_child(&mut rec, p(3)));
    assert_eq!(rec.obj_list().get(p(1)).unwrap().children, Some(vec![p(4)]));
    assert!(!rec.obj_list().contains(p(3)));
    let (mut ctx, mut deltas) = rec.finish();
    while let Some(d) = deltas.pop() {
        d.perform(&mut ctx);
    }
    assert_eq!(view(&ctx), before);
}

#[test]
fn child_list_operations() {
    let mut c: Vec<ObjPtr> = vec![p(1), p(2), p(1)];
    assert_eq!(c.n_children(), 3);
    assert_eq!(Children::index_of(&c, p(1)), Some(0));
    assert_eq!(Children::index_of(&c, p(9)), None);
    assert_eq!(Children::remove(&mut c, p(1)), Some(0));
    assert_eq!(c, vec![p(2), p(1)]);
    assert_eq!(Children::remove(&mut c, p(7)), None);
    Children::insert(&mut c, 1, p(5));
    Children::insert(&mut c, 99, p(6));
    assert_eq!(c, vec![p(2), p(5), p(1), p(6)]);
}
