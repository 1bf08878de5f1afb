use vstd::prelude::*;

use crate::action::Client;
use crate::datum::{field_of, rmpv_get, Datum, DatumView};
use crate::delta::{ProjectContext, ProjectState, Recorder};
use crate::object::{ObjList, ObjPtr};
use crate::operation::Operation;
use crate::serialization::{shallow, shallow_view, LoadMode, LoadingContext, Serializable};

verus! {

/// What the root record of a block store holds: the next free key and the
/// pointer of the project's record.
pub open spec fn root_field(root: DatumView, name: Seq<char>) -> Option<u64> {
    match field_of(root, name) {
        Some(DatumView::UInt(n)) => Some(n),
        _ => None,
    }
}

fn uint_field(root: &Datum, name: &str) -> (r: Option<u64>)
    ensures
        r == root_field(root@, name@),
{
    let key = name.to_owned();
    match rmpv_get(root, &key) {
        Some(Datum::UInt(n)) => Some(*n),
        _ => None,
    }
}

/// Reads the root record: `(curr_key, proj_ptr)`, each `None` where it is
/// missing or not an unsigned integer.
pub fn root_fields(root: &Datum) -> (r: (Option<u64>, Option<u64>))
    ensures
        r.0 == root_field(root@, seq!['c', 'u', 'r', 'r', '_', 'k', 'e', 'y']),
        r.1 == root_field(root@, seq!['p', 'r', 'o', 'j', '_', 'p', 't', 'r']),
{
    proof {
        reveal_strlit("curr_key");
        reveal_strlit("proj_ptr");
        assert("curr_key"@ == seq!['c', 'u', 'r', 'r', '_', 'k', 'e', 'y']);
        assert("proj_ptr"@ == seq!['p', 'r', 'o', 'j', '_', 'p', 't', 'r']);
    }
    (uint_field(root, "curr_key"), uint_field(root, "proj_ptr"))
}

/// The writes and deletions that persist a local client's changes to its
/// block store. Objects are addressed by key.
pub struct SavePlan {
    /// The new root record, when it changed.
    pub root: Option<Datum>,
    /// The project's record and its pointer, when the project changed.
    pub project: Option<(u64, Datum)>,
    /// The records of objects to write, by key.
    pub writes: Vec<(u64, Datum)>,
    /// The keys of the records to reclaim.
    pub deletes: Vec<u64>,
}

/// A client that holds a project persisted in a block store and owns the
/// key counter of that project.
#[verifier::reject_recursive_types(O)]
pub struct LocalClient<R, O> {
    context: Option<ProjectContext<R, O>>,
    curr_key: u64,
    project_ptr: u64,
    root_data_modified: bool,
}

impl<R, O> LocalClient<R, O> {
    pub closed spec fn wf(&self) -> bool {
        self.context is Some && self.context->0.wf()
    }

    pub closed spec fn state(&self) -> ProjectState<R, O> {
        self.context->0.state()
    }

    /// The next key to hand out.
    pub closed spec fn curr_key(&self) -> u64 {
        self.curr_key
    }

    pub closed spec fn project_ptr(&self) -> u64 {
        self.project_ptr
    }

    /// Whether the root record must be written again.
    pub closed spec fn root_data_modified(&self) -> bool {
        self.root_data_modified
    }

    /// Whether the project's record must be written again.
    pub closed spec fn project_modified(&self) -> bool {
        self.context->0.project_modified()
    }

    pub closed spec fn modified(&self) -> Set<u64> {
        self.context->0.objects.modified()
    }

    pub closed spec fn to_delete(&self) -> Set<u64> {
        self.context->0.objects.to_delete()
    }

    /// A client on a store that already holds a project.
    pub fn open(project: R, objects: ObjList<O>, curr_key: u64, project_ptr: u64) -> (r: Self)
        requires
            objects.wf(),
        ensures
            r.wf(),
            r.state() == (ProjectState { project, objects: objects.objects() }),
            r.curr_key() == curr_key,
            r.project_ptr() == project_ptr,
            !r.root_data_modified(),
            !r.project_modified(),
    {
        LocalClient {
            context: Some(ProjectContext::new(project, objects)),
            curr_key,
            project_ptr,
            root_data_modified: false,
        }
    }

    /// A client on a store that holds no valid project: `project` is the
    /// fresh project, to be stored at `project_ptr`. Keys start at the
    /// store's counter where it had one, else at 1. The root record and the
    /// project's record are both due to be written.
    pub fn create(project: R, curr_key: Option<u64>, project_ptr: u64) -> (r: Self)
        ensures
            r.wf(),
            r.state().project == project,
            r.state().objects == Map::<u64, O>::empty(),
            r.curr_key() == match curr_key {
                Some(k) => k,
                None => 1,
            },
            r.project_ptr() == project_ptr,
            r.root_data_modified(),
            r.project_modified(),
    {
        let mut context = ProjectContext::new(project, ObjList::new());
        proof {
            context.lemma_unfold();
        }
        context.project_modified = true;
        proof {
            context.lemma_unfold();
        }
        LocalClient {
            context: Some(context),
            curr_key: match curr_key {
                Some(k) => k,
                None => 1,
            },
            project_ptr,
            root_data_modified: true,
        }
    }

    pub fn project(&self) -> (r: &R)
        requires
            self.wf(),
        ensures
            *r == self.state().project,
    {
        self.context.as_ref().unwrap().project()
    }

    pub fn objects(&self) -> (r: &ObjList<O>)
        requires
            self.wf(),
        ensures
            r.objects() == self.state().objects,
            r.wf(),
    {
        let c = self.context.as_ref().unwrap();
        proof {
            c.lemma_unfold();
        }
        c.obj_list()
    }

    /// Hands out the next key and advances the counter; `None` once the
    /// counter is exhausted.
    pub fn next_key(&mut self) -> (r: Option<u64>)
        requires
            old(self).wf(),
        ensures
            final(self).wf(),
            final(self).state() == old(self).state(),
            final(self).project_ptr() == old(self).project_ptr(),
            old(self).curr_key() < u64::MAX ==> {
                &&& r == Some(old(self).curr_key())
                &&& final(self).curr_key() == old(self).curr_key() + 1
                &&& final(self).root_data_modified()
            },
            old(self).curr_key() == u64::MAX ==> r is None && final(self).curr_key() == old(self).curr_key()
                && final(self).root_data_modified() == old(self).root_data_modified(),
    {
        if self.curr_key == u64::MAX {
            return None;
        }
        let key = self.curr_key;
        self.curr_key = key + 1;
        self.root_data_modified = true;
        Some(key)
    }

    /// Hands out the `n` keys `first..=last` and advances the counter past
    /// them; `None` when `n` is zero or the counter cannot hold them.
    pub fn next_key_range(&mut self, n: u64) -> (r: Option<(u64, u64)>)
        requires
            old(self).wf(),
        ensures
            final(self).wf(),
            final(self).state() == old(self).state(),
            final(self).project_ptr() == old(self).project_ptr(),
            n > 0 && old(self).curr_key() + n <= u64::MAX ==> {
                &&& r == Some((old(self).curr_key(), (old(self).curr_key() + n - 1) as u64))
                &&& final(self).curr_key() == old(self).curr_key() + n
                &&& final(self).root_data_modified()
            },
            !(n > 0 && old(self).curr_key() + n <= u64::MAX) ==> r is None && final(self).curr_key()
                == old(self).curr_key() && final(self).root_data_modified() == old(self).root_data_modified(),
    {
        if n == 0 || self.curr_key > u64::MAX - n {
            return None;
        }
        let first = self.curr_key;
        self.curr_key = first + n;
        self.root_data_modified = true;
        Some((first, first + (n - 1)))
    }

    /// The root record: `{ curr_key, proj_ptr }`.
    pub fn root_record(&self) -> (r: Datum)
        ensures
            root_field(r@, seq!['c', 'u', 'r', 'r', '_', 'k', 'e', 'y']) == Some(self.curr_key()),
            root_field(r@, seq!['p', 'r', 'o', 'j', '_', 'p', 't', 'r']) == Some(self.project_ptr()),
    {
        let entries = vec![
            (Datum::Str("curr_key".to_owned()), Datum::UInt(self.curr_key)),
            (Datum::Str("proj_ptr".to_owned()), Datum::UInt(self.project_ptr)),
        ];
        let r = Datum::Dict(entries);
        let found_key = uint_field(&r, "curr_key");
        let found_ptr = uint_field(&r, "proj_ptr");
        proof {
            reveal_strlit("curr_key");
            reveal_strlit("proj_ptr");
            assert("curr_key"@ == seq!['c', 'u', 'r', 'r', '_', 'k', 'e', 'y']);
            assert("proj_ptr"@ == seq!['p', 'r', 'o', 'j', '_', 'p', 't', 'r']);
            crate::datum::lemma_entries_view(entries@);
            let ev = crate::datum::entries_view(entries@);
            assert(crate::datum::is_key(ev[0].0, "curr_key"@));
            assert(!crate::datum::is_key(ev[0].0, "proj_ptr"@)) by {
                assert("curr_key"@[0] != "proj_ptr"@[0]);
            }
            assert(ev.drop_first()[0] == ev[1]);
            assert(crate::datum::first_key_index(ev, "curr_key"@) == Some(0int));
            assert(crate::datum::first_key_index(ev.drop_first(), "proj_ptr"@) == Some(0int));
            assert(crate::datum::first_key_index(ev, "proj_ptr"@) == Some(1int));
        }
        r
    }

    /// Records a failed write of an object's record, to be retried.
    pub fn retry_write(&mut self, key: u64)
        requires
            old(self).wf(),
        ensures
            final(self).wf(),
            final(self).state() == old(self).state(),
            final(self).modified() == old(self).modified().insert(key),
            final(self).to_delete() == old(self).to_delete(),
    {
        let mut context = self.context.take().unwrap();
        proof {
            context.lemma_unfold();
        }
        context.objects.mark_modified(ObjPtr::from_key(key));
        proof {
            context.lemma_unfold();
        }
        self.context = Some(context);
    }

    /// Records a failed deletion of an object's record, to be retried.
    pub fn retry_delete(&mut self, key: u64)
        requires
            old(self).wf(),
        ensures
            final(self).wf(),
            final(self).state() == old(self).state(),
            final(self).modified() == old(self).modified(),
            final(self).to_delete() == old(self).to_delete().insert(key),
    {
        let mut context = self.context.take().unwrap();
        proof {
            context.lemma_unfold();
        }
        context.objects.mark_to_delete(ObjPtr::from_key(key));
        proof {
            context.lemma_unfold();
        }
        self.context = Some(context);
    }

    /// Records a failed write of the root record or of the project's record.
    pub fn retry_root(&mut self, root: bool, project: bool)
        requires
            old(self).wf(),
        ensures
            final(self).wf(),
            final(self).state() == old(self).state(),
            final(self).modified() == old(self).modified(),
            final(self).to_delete() == old(self).to_delete(),
            final(self).root_data_modified() == (old(self).root_data_modified() || root),
            final(self).project_modified() == (old(self).project_modified() || project),
    {
        if root {
            self.root_data_modified = true;
        }
        if project {
            let mut context = self.context.take().unwrap();
            proof {
                context.lemma_unfold();
            }
            context.project_modified = true;
            proof {
                context.lemma_unfold();
            }
            self.context = Some(context);
        }
    }
}

impl<R: Serializable, O: Serializable> LocalClient<R, O> {
    /// Collects what must be persisted and clears the marks: the root record
    /// if it changed, the project's shallow record if it changed, the shallow
    /// record of each modified object still present, and the keys of the
    /// deleted objects.
    pub fn save_changes(&mut self) -> (plan: SavePlan)
        requires
            old(self).wf(),
        ensures
            final(self).wf(),
            final(self).state() == old(self).state(),
            final(self).curr_key() == old(self).curr_key(),
            final(self).project_ptr() == old(self).project_ptr(),
            !final(self).root_data_modified(),
            !final(self).project_modified(),
            final(self).modified() == Set::<u64>::empty(),
            final(self).to_delete() == Set::<u64>::empty(),
            plan.root is Some == old(self).root_data_modified(),
            plan.root matches Some(r) ==> root_field(r@, seq!['c', 'u', 'r', 'r', '_', 'k', 'e', 'y'])
                == Some(old(self).curr_key()) && root_field(r@, seq!['p', 'r', 'o', 'j', '_', 'p', 't', 'r'])
                == Some(old(self).project_ptr()),
            plan.project is Some == old(self).project_modified(),
            plan.project matches Some(p) ==> p.0 == old(self).project_ptr() && p.1@ == shallow_view(
                old(self).state().project.encoding(),
            ),
            forall|i: int|
                0 <= i < plan.writes@.len() ==> (#[trigger] plan.writes@[i]).1@ == shallow_view(
                    old(self).state().objects[plan.writes@[i].0].encoding(),
                ),
            forall|i: int|
                0 <= i < plan.writes@.len() ==> old(self).modified().contains(#[trigger] plan.writes@[i].0)
                    && old(self).state().objects.contains_key(plan.writes@[i].0),
            forall|k: u64|
                old(self).modified().contains(k) && old(self).state().objects.contains_key(k) ==> exists|i: int|
                    0 <= i < plan.writes@.len() && #[trigger] plan.writes@[i].0 == k,
            plan.deletes@.to_set() == old(self).to_delete(),
    {
        let root = if self.root_data_modified {
            self.root_data_modified = false;
            Some(self.root_record())
        } else {
            None
        };
        let mut context = self.context.take().unwrap();
        proof {
            context.lemma_unfold();
        }
        let project = if context.project_modified {
            context.project_modified = false;
            Some((self.project_ptr, shallow(&context.project.store())))
        } else {
            None
        };
        let ghost objs = context.objects.objects();
        let ghost modified = context.objects.modified();
        assert(old(self).state().objects == objs);
        assert(old(self).modified() == modified);
        let keys = context.objects.take_modified();
        let mut writes: Vec<(u64, Datum)> = Vec::new();
        let mut i: usize = 0;
        while i < keys.len()
            invariant
                context.objects.wf(),
                !context.project_modified,
                context.objects.objects() == objs,
                keys@.to_set() == modified,
                0 <= i <= keys@.len(),
                forall|j: int| 0 <= j < writes@.len() ==> modified.contains(#[trigger] writes@[j].0)
                    && objs.contains_key(writes@[j].0),
                forall|j: int| 0 <= j < writes@.len() ==> (#[trigger] writes@[j]).1@ == shallow_view(
                    objs[writes@[j].0].encoding(),
                ),
                forall|j: int|
                    0 <= j < i && objs.contains_key(#[trigger] keys@[j]) ==> exists|w: int|
                        0 <= w < writes@.len() && writes@[w].0 == keys@[j],
            decreases keys@.len() - i,
        {
            let k = keys[i];
            proof {
                assert(keys@.contains(k));
            }
            match context.objects.get(ObjPtr::from_key(k)) {
                Some(obj) => {
                    let d = shallow(&obj.store());
                    let ghost before = writes@;
                    writes.push((k, d));
                    proof {
                        assert forall|j: int|
                            0 <= j < i + 1 && objs.contains_key(#[trigger] keys@[j]) implies exists|w: int|
                            0 <= w < writes@.len() && writes@[w].0 == keys@[j] by {
                            if j < i {
                                let w = choose|w: int| 0 <= w < before.len() && before[w].0 == keys@[j];
                                assert(writes@[w] == before[w]);
                            } else {
                                assert(writes@[before.len() as int].0 == keys@[j]);
                            }
                        }
                    }
                },
                None => {},
            }
            i += 1;
        }
        let deletes = context.objects.take_to_delete();
        proof {
            context.lemma_unfold();
        }
        self.context = Some(context);
        proof {
            assert forall|k: u64| modified.contains(k) && objs.contains_key(k) implies exists|w: int|
                0 <= w < writes@.len() && #[trigger] writes@[w].0 == k by {
                assert(keys@.to_set().contains(k));
                let j = choose|j: int| 0 <= j < keys@.len() && keys@[j] == k;
                assert(objs.contains_key(keys@[j]));
                let w = choose|w: int| 0 <= w < writes@.len() && writes@[w].0 == keys@[j];
                assert(writes@[w].0 == k);
            }
        }
        let plan = SavePlan { root, project, writes, deletes };
        proof {
            assert forall|k: u64| old(self).modified().contains(k) && old(self).state().objects.contains_key(k) implies exists|i: int|
                0 <= i < plan.writes@.len() && #[trigger] plan.writes@[i].0 == k by {
                let w = choose|w: int| 0 <= w < writes@.len() && #[trigger] writes@[w].0 == k;
                assert(plan.writes@[w].0 == k);
            }
        }
        plan
    }

    /// Decodes an object's record read from the block store and adds it
    /// under `key`; owning references in it are read through `loader`.
    /// Returns whether the record decoded. An object already present is not
    /// replaced.
    pub fn load_record(&mut self, key: u64, data: &Datum, loader: &mut LoadingContext) -> (r: bool)
        requires
            old(self).wf(),
            old(loader).wf(),
        ensures
            final(self).wf(),
            final(loader).wf(),
            final(self).state().project == old(self).state().project,
            final(loader).extends(*old(loader)),
            r == exists|v: O| O::decodes_to(old(loader).mode(), data@, v),
            r ==> final(self).state().objects.contains_key(key),
            final(self).state().objects.remove(key) == old(self).state().objects.remove(key),
            old(self).state().objects.contains_key(key) || !r ==> final(self).state() == old(self).state(),
            r && !old(self).state().objects.contains_key(key) ==> O::decodes_to(
                old(loader).mode(),
                data@,
                final(self).state().objects[key],
            ),
            final(self).curr_key() == old(self).curr_key(),
            final(self).project_ptr() == old(self).project_ptr(),
    {
        let mut context = self.context.take().unwrap();
        proof {
            context.lemma_unfold();
        }
        let ghost before = context.objects.objects();
        let r = match O::load(data, loader) {
            Some(obj) => {
                context.objects.insert(ObjPtr::from_key(key), obj);
                assert(context.objects.objects().remove(key) =~= before.remove(key));
                true
            },
            None => false,
        };
        proof {
            context.lemma_unfold();
        }
        self.context = Some(context);
        r
    }
}

impl<R, O, Op: Operation<R, O>> Client<R, O, Op> for LocalClient<R, O> {
    open spec fn client_wf(&self) -> bool {
        self.wf()
    }

    open spec fn client_state(&self) -> ProjectState<R, O> {
        self.state()
    }

    fn project(&self) -> (r: &R) {
        self.context.as_ref().unwrap().project()
    }

    fn objects(&self) -> (r: &ObjList<O>) {
        self.context.as_ref().unwrap().obj_list()
    }

    fn perform_op(&mut self, op: Op)
        ensures
            final(self).curr_key() == old(self).curr_key(),
            final(self).project_ptr() == old(self).project_ptr(),
    {
        let context = self.context.take().unwrap();
        let mut recorder = Recorder::new(context);
        op.perform(&mut recorder);
        let (context, _deltas) = recorder.finish();
        self.context = Some(context);
    }
}

/// What a save writes reads back on reopening: the project's record, read
/// in shallow mode, stands for the project, and each object's record for
/// the object. Values are related by `decodes_to`, which compares strings
/// and vectors by their contents.
pub proof fn lemma_saved_records_read_back<R: Serializable, O: Serializable>(project: R, objects: Map<u64, O>, key: u64)
    requires
        objects.contains_key(key),
    ensures
        R::decodes_to(LoadMode::Shallow, shallow_view(project.encoding()), project),
        O::decodes_to(LoadMode::Shallow, shallow_view(objects[key].encoding()), objects[key]),
{
    project.lemma_round_trip();
    objects[key].lemma_round_trip();
}

} // verus!
