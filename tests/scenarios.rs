use alisa::action::{perform, Action, Client, UndoRedoManager};
use alisa::codec::{rmpv_decode, rmpv_encode};
use alisa::collab::CollabClient;
use alisa::datum::{rmpv_get, Datum, DatumView};
use alisa::delta::{ProjectContext, ProjectState, Recorder};
use alisa::local::{root_fields, LocalClient};
use alisa::message::{parse_message, Message};
use alisa::object::{ObjList, ObjPtr};
use alisa::operation::Operation;
use alisa::serialization::{
    deep, shallow, Encoded, EncodedView, LoadMode, LoadingContext, ObjBox, Serializable, ALREADY_STORED_EXT,
};
use alisa::keyset::KeySet;
use alisa::server::{ClientId, Server};

#[derive(Clone, Debug, PartialEq)]
struct Proj {
    n: i64,
    folders: Vec<ObjBox>,
}

fn empty_project() -> Proj {
    Proj { n: 0, folders: Vec::new() }
}

fn s(x: &str) -> String {
    x.to_string()
}

impl Serializable for Proj {
    fn encoding(&self) -> EncodedView {
        EncodedView::Plain(DatumView::Nil)
    }

    fn decodes_to(_mode: LoadMode, _d: DatumView, _v: Self) -> bool {
        false
    }

    fn lemma_round_trip(&self) {}

    fn store(&self) -> Encoded {
        Encoded::Record(vec![(s("n"), self.n.store()), (s("folders"), self.folders.store())])
    }

    fn load(data: &Datum, loader: &mut LoadingContext) -> Option<Self> {
        let mut p = empty_project();
        if let Some(v) = rmpv_get(data, &s("n")) {
            if let Some(x) = i64::load(v, loader) {
                p.n = x;
            }
        }
        if let Some(v) = rmpv_get(data, &s("folders")) {
            if let Some(x) = Vec::<ObjBox>::load(v, loader) {
                p.folders = x;
            }
        }
        Some(p)
    }
}

#[derive(Clone, Debug, PartialEq)]
struct Folder {
    name: String,
    parent: u64,
    inner: Vec<ObjBox>,
}

impl Serializable for Folder {
    fn encoding(&self) -> EncodedView {
        EncodedView::Plain(DatumView::Nil)
    }

    fn decodes_to(_mode: LoadMode, _d: DatumView, _v: Self) -> bool {
        false
    }

    fn lemma_round_trip(&self) {}

    fn store(&self) -> Encoded {
        Encoded::Record(vec![
            (s("name"), self.name.store()),
            (s("parent"), self.parent.store()),
            (s("inner"), self.inner.store()),
        ])
    }

    fn load(data: &Datum, loader: &mut LoadingContext) -> Option<Self> {
        let mut f = Folder { name: s("Folder"), parent: 0, inner: Vec::new() };
        if let Some(v) = rmpv_get(data, &s("name")) {
            if let Some(x) = String::load(v, loader) {
                f.name = x;
            }
        }
        if let Some(v) = rmpv_get(data, &s("parent")) {
            if let Some(x) = u64::load(v, loader) {
                f.parent = x;
            }
        }
        if let Some(v) = rmpv_get(data, &s("inner")) {
            if let Some(x) = Vec::<ObjBox>::load(v, loader) {
                f.inner = x;
            }
        }
        Some(f)
    }
}

#[derive(Clone, Debug, PartialEq)]
enum Op {
    IncrN,
    DecrN,
    CreateFolder { ptr: u64, name: String, parent: u64 },
    DeleteFolder { ptr: u64 },
    SetFolderName { ptr: u64, name: String },
}

fn record(fields: Vec<(&str, Datum)>) -> Datum {
    Datum::Dict(fields.into_iter().map(|(k, v)| (Datum::Str(s(k)), v)).collect())
}

fn get_u64(data: &Datum, key: &str) -> Option<u64> {
    match rmpv_get(data, &s(key)) {
        Some(Datum::UInt(n)) => Some(*n),
        _ => None,
    }
}

fn get_str(data: &Datum, key: &str) -> Option<String> {
    match rmpv_get(data, &s(key)) {
        Some(Datum::Str(x)) => Some(x.clone()),
        _ => None,
    }
}

impl Operation<Proj, Folder> for Op {
    fn effect(&self, s: ProjectState<Proj, Folder>) -> ProjectState<Proj, Folder> {
        s
    }

    fn name_view(&self) -> vstd::seq::Seq<char> {
        vstd::seq::Seq::empty()
    }

    fn data_view(&self) -> DatumView {
        DatumView::Nil
    }

    fn decoded(_name: vstd::seq::Seq<char>, _data: DatumView) -> Option<Self> {
        None
    }

    fn lemma_round_trip(&self) {}

    fn inverse_of(&self, _s: ProjectState<Proj, Folder>) -> Option<Self> {
        None
    }

    fn lemma_inverse(&self, _s: ProjectState<Proj, Folder>) {}

    fn lemma_inverse_inverse(&self, _s: ProjectState<Proj, Folder>) {}

    fn name(&self) -> String {
        s(match self {
            Op::IncrN => "IncrN",
            Op::DecrN => "DecrN",
            Op::CreateFolder { .. } => "CreateFolder",
            Op::DeleteFolder { .. } => "DeleteFolder",
            Op::SetFolderName { .. } => "SetFolderName",
        })
    }

    fn serialize(&self) -> Datum {
        match self {
            Op::IncrN | Op::DecrN => record(vec![]),
            Op::CreateFolder { ptr, name, parent } => record(vec![
                ("ptr", Datum::UInt(*ptr)),
                ("name", Datum::Str(name.clone())),
                ("parent", Datum::UInt(*parent)),
            ]),
            Op::DeleteFolder { ptr } => record(vec![("ptr", Datum::UInt(*ptr))]),
            Op::SetFolderName { ptr, name } => {
                record(vec![("ptr", Datum::UInt(*ptr)), ("name", Datum::Str(name.clone()))])
            }
        }
    }

    fn deserialize(name: &String, data: &Datum) -> Option<Self> {
        let ptr = get_u64(data, "ptr").unwrap_or(0);
        match name.as_str() {
            "IncrN" => Some(Op::IncrN),
            "DecrN" => Some(Op::DecrN),
            "CreateFolder" => Some(Op::CreateFolder {
                ptr,
                name: get_str(data, "name").unwrap_or(s("Folder")),
                parent: get_u64(data, "parent").unwrap_or(0),
            }),
            "DeleteFolder" => Some(Op::DeleteFolder { ptr }),
            "SetFolderName" => Some(Op::SetFolderName {
                ptr,
                name: get_str(data, "name").unwrap_or(s("Folder")),
            }),
            _ => None,
        }
    }

    fn perform(&self, recorder: &mut Recorder<Proj, Folder>) {
        match self {
            Op::IncrN => {
                let mut p = recorder.project().clone();
                p.n += 1;
                recorder.set_project(p);
            }
            Op::DecrN => {
                let mut p = recorder.project().clone();
                p.n -= 1;
                recorder.set_project(p);
            }
            Op::CreateFolder { ptr, name, parent } => {
                let key = ObjPtr::from_key(*ptr);
                if recorder.obj_list().contains(key) {
                    return;
                }
                if *parent != 0 && !recorder.obj_list().contains(ObjPtr::from_key(*parent)) {
                    return;
                }
                let mut p = recorder.project().clone();
                p.folders.push(ObjBox::new(key));
                recorder.set_project(p);
                recorder.add_object(key, Folder { name: name.clone(), parent: *parent, inner: Vec::new() });
            }
            Op::DeleteFolder { ptr } => {
                let key = ObjPtr::from_key(*ptr);
                if !recorder.obj_list().contains(key) {
                    return;
                }
                let mut p = recorder.project().clone();
                p.folders.retain(|b| b.ptr() != key);
                recorder.set_project(p);
                recorder.delete_object(key);
            }
            Op::SetFolderName { ptr, name } => {
                let key = ObjPtr::from_key(*ptr);
                let Some(f) = recorder.obj_list().get(key) else { return };
                let mut f = f.clone();
                f.name = name.clone();
                recorder.set_object(key, f);
            }
        }
    }

    fn inverse(&self, _project: &Proj, objects: &ObjList<Folder>) -> Option<Self> {
        match self {
            Op::IncrN => Some(Op::DecrN),
            Op::DecrN => Some(Op::IncrN),
            Op::CreateFolder { ptr, .. } => Some(Op::DeleteFolder { ptr: *ptr }),
            Op::DeleteFolder { ptr } => {
                let f = objects.get(ObjPtr::from_key(*ptr))?;
                Some(Op::CreateFolder { ptr: *ptr, name: f.name.clone(), parent: f.parent })
            }
            Op::SetFolderName { ptr, .. } => {
                let f = objects.get(ObjPtr::from_key(*ptr))?;
                Some(Op::SetFolderName { ptr: *ptr, name: f.name.clone() })
            }
        }
    }
}

type Collab = CollabClient<Proj, Folder, Op>;

fn local_perform(client: &mut LocalClient<Proj, Folder>, op: Op) {
    Client::<Proj, Folder, Op>::perform_op(client, op);
}

fn folder_name_local(client: &LocalClient<Proj, Folder>, key: u64) -> Option<String> {
    client.objects().get(ObjPtr::from_key(key)).map(|f| f.name.clone())
}

fn folder_name_collab(client: &Collab, key: u64) -> Option<String> {
    Client::<Proj, Folder, Op>::objects(client).get(ObjPtr::from_key(key)).map(|f| f.name.clone())
}

fn collab_project(client: &Collab) -> Proj {
    Client::<Proj, Folder, Op>::project(client).clone()
}

fn deliver(server: &mut Server<Proj, Folder>, id: ClientId, client: &mut Collab) {
    for m in server.get_msgs_to_send(id).unwrap() {
        client.receive_message(&m).unwrap();
    }
}

fn upload(server: &mut Server<Proj, Folder>, id: ClientId, client: &mut Collab) {
    for m in client.take_messages() {
        server.receive_message::<Op>(id, &m).unwrap();
    }
}

fn reopen(client: &mut LocalClient<Proj, Folder>) -> LocalClient<Proj, Folder> {
    let plan = client.save_changes();
    let (ptr, record) = plan.project.unwrap();
    let bytes = rmpv_encode(&record).unwrap();
    let root = rmpv_encode(&plan.root.unwrap()).unwrap();
    let (curr_key, proj_ptr) = root_fields(&rmpv_decode(&root).unwrap());
    assert_eq!(proj_ptr, Some(ptr));
    let mut loader = LoadingContext::new(LoadMode::Shallow);
    let project = Proj::load(&rmpv_decode(&bytes).unwrap(), &mut loader).unwrap();
    LocalClient::open(project, ObjList::new(), curr_key.unwrap(), ptr)
}

#[test]
fn standalone_counter() {
    let mut client = LocalClient::<Proj, Folder>::create(empty_project(), None, 7);
    local_perform(&mut client, Op::IncrN);
    local_perform(&mut client, Op::IncrN);
    local_perform(&mut client, Op::DecrN);
    assert_eq!(client.project().n, 1);
    let reopened = reopen(&mut client);
    assert_eq!(reopened.project().n, 1);
}

#[test]
fn undo_across_create() {
    let mut client = LocalClient::<Proj, Folder>::create(empty_project(), None, 1);
    let mut manager = UndoRedoManager::new();
    let mut action = Action::new();
    perform(&mut client, &mut action, Op::CreateFolder { ptr: 42, name: s("A"), parent: 0 });
    manager.add(action);
    let first = client.save_changes();
    assert!(first.writes.iter().any(|(k, _)| *k == 42));
    assert_eq!(folder_name_local(&client, 42), Some(s("A")));
    manager.undo(&mut client);
    assert_eq!(folder_name_local(&client, 42), None);
    assert!(client.project().folders.is_empty());
    let plan = client.save_changes();
    assert_eq!(plan.deletes, vec![42]);
    assert!(plan.writes.is_empty());
    let again = client.save_changes();
    assert!(again.deletes.is_empty());
}

fn server_with_folder(key: u64, name: &str) -> Server<Proj, Folder> {
    let mut local = LocalClient::<Proj, Folder>::create(empty_project(), None, 1);
    local_perform(&mut local, Op::CreateFolder { ptr: key, name: s(name), parent: 0 });
    Server::new(local)
}

#[test]
fn concurrent_rename() {
    let mut server = server_with_folder(7, "old");
    let (ida, wa) = server.add_client().unwrap();
    let (idb, wb) = server.add_client().unwrap();
    let mut a = Collab::from_welcome(&wa).unwrap();
    let mut b = Collab::from_welcome(&wb).unwrap();
    assert_eq!(folder_name_collab(&a, 7), Some(s("old")));
    a.perform(Op::SetFolderName { ptr: 7, name: s("a-edit") });
    b.perform(Op::SetFolderName { ptr: 7, name: s("b-edit") });
    upload(&mut server, ida, &mut a);
    upload(&mut server, idb, &mut b);
    deliver(&mut server, ida, &mut a);
    deliver(&mut server, idb, &mut b);
    assert_eq!(folder_name_local(server.local_client(), 7), Some(s("b-edit")));
    assert_eq!(folder_name_collab(&a, 7), Some(s("b-edit")));
    assert_eq!(folder_name_collab(&b, 7), Some(s("b-edit")));
}

#[test]
fn create_under_deleted_parent() {
    let mut server = server_with_folder(1, "P1");
    let (ida, wa) = server.add_client().unwrap();
    let (idb, wb) = server.add_client().unwrap();
    let mut a = Collab::from_welcome(&wa).unwrap();
    let mut b = Collab::from_welcome(&wb).unwrap();
    a.perform(Op::CreateFolder { ptr: 10, name: s("child"), parent: 1 });
    assert_eq!(folder_name_collab(&a, 10), Some(s("child")));
    b.perform(Op::DeleteFolder { ptr: 1 });
    upload(&mut server, idb, &mut b);
    deliver(&mut server, ida, &mut a);
    assert_eq!(folder_name_collab(&a, 10), None);
    assert_eq!(folder_name_collab(&a, 1), None);
    upload(&mut server, ida, &mut a);
    deliver(&mut server, ida, &mut a);
    deliver(&mut server, idb, &mut b);
    assert_eq!(folder_name_collab(&a, 10), None);
    assert_eq!(folder_name_collab(&b, 10), None);
    assert_eq!(folder_name_local(server.local_client(), 10), None);
    assert_eq!(collab_project(&a), collab_project(&b));
}

fn count_sentinels(d: &Datum) -> usize {
    match d {
        Datum::Ext(t, b) if *t == ALREADY_STORED_EXT && b.is_empty() => 1,
        Datum::Array(a) => a.iter().map(count_sentinels).sum(),
        Datum::Dict(m) => m.iter().map(|(_, v)| count_sentinels(v)).sum(),
        _ => 0,
    }
}

fn count_inline(d: &Datum, key: u64) -> usize {
    match d {
        Datum::Array(a) => {
            let here = a.len() == 2 && a[0] == Datum::UInt(key) && matches!(a[1], Datum::Dict(_));
            (here as usize) + a.iter().map(|x| count_inline(x, key)).sum::<usize>()
        }
        Datum::Dict(m) => m.iter().map(|(_, v)| count_inline(v, key)).sum(),
        _ => 0,
    }
}

#[test]
fn cycle_safe_deep_snapshot() {
    let mut local = LocalClient::<Proj, Folder>::create(empty_project(), None, 1);
    local_perform(&mut local, Op::CreateFolder { ptr: 5, name: s("X"), parent: 0 });
    let mut f = local.objects().get(ObjPtr::from_key(5)).unwrap().clone();
    f.inner.push(ObjBox::new(ObjPtr::from_key(5)));
    let mut objects = ObjList::new();
    objects.insert(ObjPtr::from_key(5), f);
    let mut server = Server::new(LocalClient::open(local.project().clone(), objects, 100, 1));
    let (_, welcome) = server.add_client().unwrap();
    let project = rmpv_get(&welcome, &s("project")).unwrap();
    assert_eq!(count_inline(project, 5), 1);
    assert_eq!(count_sentinels(project), 1);
    let a = Collab::from_welcome(&welcome).unwrap();
    let x = Client::<Proj, Folder, Op>::objects(&a).get(ObjPtr::from_key(5)).unwrap();
    assert_eq!(x.name, s("X"));
    assert_eq!(x.inner, vec![ObjBox::new(ObjPtr::from_key(5))]);
    assert_eq!(collab_project(&a).folders, vec![ObjBox::new(ObjPtr::from_key(5))]);
    let _ = server.project();
}

#[test]
fn key_range_exhaustion() {
    let local = LocalClient::<Proj, Folder>::open(empty_project(), ObjList::new(), 1000, 1);
    let mut server = Server::new(local);
    let (id, welcome) = server.add_client().unwrap();
    let mut a = Collab::from_welcome(&welcome).unwrap();
    assert_eq!(a.next_key(), None);
    let out = a.take_messages();
    assert_eq!(out.len(), 1);
    assert_eq!(parse_message(&out[0]), Some(Message::KeyRequest));
    server.receive_message::<Op>(id, &out[0]).unwrap();
    let grant = server.get_msgs_to_send(id).unwrap();
    assert_eq!(parse_message(&grant[0]), Some(Message::KeyGrant { first: 1000, last: 1511 }));
    a.receive_message(&grant[0]).unwrap();
    let mut keys = Vec::new();
    for _ in 0..512 {
        keys.push(a.next_key().unwrap());
    }
    assert_eq!(keys, (1000..=1511).collect::<Vec<u64>>());
    let _ = a.take_messages();
    assert_eq!(a.next_key(), None);
    let later = a.take_messages();
    assert!(later.iter().any(|m| parse_message(m) == Some(Message::KeyRequest)));
}

#[test]
fn low_key_chain_requests_once() {
    let mut a = Collab::collab(empty_project(), ObjList::new());
    assert_eq!(a.next_key(), None);
    assert_eq!(a.next_key(), None);
    assert_eq!(a.take_messages().len(), 1);
}

#[test]
fn operation_round_trip() {
    let ops = vec![
        Op::IncrN,
        Op::DecrN,
        Op::CreateFolder { ptr: 3, name: s("x"), parent: 9 },
        Op::DeleteFolder { ptr: 4 },
        Op::SetFolderName { ptr: 5, name: s("y") },
    ];
    for op in ops {
        let back = Op::deserialize(&op.name(), &op.serialize());
        assert_eq!(back, Some(op.clone()));
        let wire = Message::Operation { name: op.name(), data: op.serialize() }.to_datum();
        let bytes = rmpv_encode(&wire).unwrap();
        let parsed = parse_message(&rmpv_decode(&bytes).unwrap()).unwrap();
        match parsed {
            Message::Operation { name, data } => assert_eq!(Op::deserialize(&name, &data), Some(op)),
            other => panic!("unexpected {:?}", other),
        }
    }
}

fn snapshot(client: &LocalClient<Proj, Folder>, keys: &[u64]) -> (Proj, Vec<Option<Folder>>) {
    (
        client.project().clone(),
        keys.iter().map(|k| client.objects().get(ObjPtr::from_key(*k)).cloned()).collect(),
    )
}

#[test]
fn operation_then_inverse_restores() {
    let mut client = LocalClient::<Proj, Folder>::create(empty_project(), None, 1);
    local_perform(&mut client, Op::CreateFolder { ptr: 2, name: s("keep"), parent: 0 });
    let ops = vec![
        Op::IncrN,
        Op::CreateFolder { ptr: 3, name: s("new"), parent: 2 },
        Op::SetFolderName { ptr: 2, name: s("renamed") },
        Op::DeleteFolder { ptr: 2 },
    ];
    for op in ops {
        let before = snapshot(&client, &[2, 3]);
        let inv = op.inverse(client.project(), client.objects()).unwrap();
        local_perform(&mut client, op);
        local_perform(&mut client, inv);
        assert_eq!(snapshot(&client, &[2, 3]), before);
    }
}

#[test]
fn undo_redo_undo() {
    let mut client = LocalClient::<Proj, Folder>::create(empty_project(), None, 1);
    let mut manager = UndoRedoManager::new();
    let mut action = Action::new();
    perform(&mut client, &mut action, Op::IncrN);
    perform(&mut client, &mut action, Op::CreateFolder { ptr: 8, name: s("a"), parent: 0 });
    perform(&mut client, &mut action, Op::SetFolderName { ptr: 8, name: s("b") });
    manager.add(action);
    let done = snapshot(&client, &[8]);
    assert!(manager.can_undo());
    manager.undo(&mut client);
    let undone = snapshot(&client, &[8]);
    assert_eq!(undone, (empty_project(), vec![None]));
    assert!(manager.can_redo());
    manager.redo(&mut client);
    assert_eq!(snapshot(&client, &[8]), done);
    manager.undo(&mut client);
    assert_eq!(snapshot(&client, &[8]), undone);
    assert!(!manager.can_undo());
}

#[test]
fn recorded_deltas_undo_operation() {
    let mut objects = ObjList::new();
    objects.insert(ObjPtr::from_key(1), Folder { name: s("f"), parent: 0, inner: Vec::new() });
    let project = Proj { n: 4, folders: vec![ObjBox::new(ObjPtr::from_key(1))] };
    let mut recorder = Recorder::new(ProjectContext::new(project.clone(), objects));
    Op::IncrN.perform(&mut recorder);
    Op::SetFolderName { ptr: 1, name: s("g") }.perform(&mut recorder);
    Op::CreateFolder { ptr: 2, name: s("h"), parent: 1 }.perform(&mut recorder);
    Op::DeleteFolder { ptr: 1 }.perform(&mut recorder);
    let (mut context, mut deltas) = recorder.finish();
    assert_eq!(context.project().n, 5);
    assert!(!context.obj_list().contains(ObjPtr::from_key(1)));
    while let Some(d) = deltas.pop() {
        d.perform(&mut context);
    }
    assert_eq!(context.project(), &project);
    assert_eq!(context.obj_list().get(ObjPtr::from_key(1)).unwrap().name, s("f"));
    assert!(!context.obj_list().contains(ObjPtr::from_key(2)));
}

#[test]
fn unconfirmed_operations_rebase() {
    let mut server = server_with_folder(1, "base");
    let (ida, wa) = server.add_client().unwrap();
    let (idb, wb) = server.add_client().unwrap();
    let mut a = Collab::from_welcome(&wa).unwrap();
    let mut b = Collab::from_welcome(&wb).unwrap();
    a.perform(Op::IncrN);
    a.perform(Op::SetFolderName { ptr: 1, name: s("mine") });
    b.perform(Op::IncrN);
    b.perform(Op::IncrN);
    upload(&mut server, idb, &mut b);
    deliver(&mut server, ida, &mut a);
    assert_eq!(collab_project(&a).n, 3);
    assert_eq!(folder_name_collab(&a, 1), Some(s("mine")));
    upload(&mut server, ida, &mut a);
    deliver(&mut server, ida, &mut a);
    deliver(&mut server, idb, &mut b);
    assert_eq!(collab_project(&a), collab_project(&b));
    assert_eq!(collab_project(&a).n, 3);
    assert_eq!(folder_name_collab(&b, 1), Some(s("mine")));
    assert_eq!(server.project().n, 3);
}

#[test]
fn clients_converge() {
    let mut server = server_with_folder(1, "start");
    let (ida, wa) = server.add_client().unwrap();
    let (idb, wb) = server.add_client().unwrap();
    let mut a = Collab::from_welcome(&wa).unwrap();
    let mut b = Collab::from_welcome(&wb).unwrap();
    a.perform(Op::CreateFolder { ptr: 20, name: s("a"), parent: 1 });
    b.perform(Op::CreateFolder { ptr: 30, name: s("b"), parent: 1 });
    b.perform(Op::DecrN);
    a.perform(Op::DeleteFolder { ptr: 30 });
    upload(&mut server, idb, &mut b);
    upload(&mut server, ida, &mut a);
    deliver(&mut server, ida, &mut a);
    deliver(&mut server, idb, &mut b);
    assert_eq!(collab_project(&a), collab_project(&b));
    assert_eq!(collab_project(&a), server.project().clone());
    assert_eq!(folder_name_collab(&a, 30), None);
    assert_eq!(folder_name_collab(&b, 20), Some(s("a")));
    assert_eq!(collab_project(&a).n, -1);
}

#[test]
fn unknown_operation_is_confirmed_not_relayed() {
    let mut server = server_with_folder(1, "x");
    let (ida, _) = server.add_client().unwrap();
    let (idb, _) = server.add_client().unwrap();
    let msg = Message::Operation { name: s("Nope"), data: Datum::Nil }.to_datum();
    server.receive_message::<Op>(ida, &msg).unwrap();
    let to_a = server.get_msgs_to_send(ida).unwrap();
    assert_eq!(to_a.len(), 1);
    assert_eq!(parse_message(&to_a[0]), Some(Message::Confirm));
    assert!(server.get_msgs_to_send(idb).unwrap().is_empty());
    assert_eq!(server.get_msgs_to_send(ClientId(99)), None);
    assert_eq!(server.receive_message::<Op>(ida, &Datum::UInt(3)), None);
}

#[test]
fn shallow_and_deep_owning_references() {
    let mut objects = ObjList::new();
    objects.insert(ObjPtr::from_key(4), Folder { name: s("four"), parent: 0, inner: Vec::new() });
    let p = Proj { n: -2, folders: vec![ObjBox::new(ObjPtr::from_key(4)), ObjBox::new(ObjPtr::from_key(4))] };
    let flat = shallow(&p.store());
    assert_eq!(rmpv_get(&flat, &s("folders")), Some(&Datum::Array(vec![Datum::UInt(4), Datum::UInt(4)])));
    assert_eq!(rmpv_get(&flat, &s("n")), Some(&Datum::NegInt(-2)));
    let mut loader = LoadingContext::new(LoadMode::Shallow);
    let back = Proj::load(&flat, &mut loader).unwrap();
    assert_eq!(back, p);
    assert_eq!(loader.take_wanted(), vec![4]);
    let mut stored = KeySet::new();
    let full = deep(&p.store(), &objects, &mut stored);
    let folders = rmpv_get(&full, &s("folders")).unwrap();
    match folders {
        Datum::Array(items) => {
            assert_eq!(items.len(), 2);
            assert!(matches!(&items[0], Datum::Array(x) if x.len() == 2 && x[0] == Datum::UInt(4)));
            assert_eq!(items[1], Datum::Array(vec![Datum::UInt(4), Datum::Ext(ALREADY_STORED_EXT, vec![])]));
        }
        _ => panic!("not an array"),
    }
    assert!(stored.contains(4));
}
