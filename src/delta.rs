use vstd::prelude::*;

use crate::object::{ObjList, ObjPtr};

verus! {

/// What a project is, mathematically: its root record and its objects by key.
/// Flags that only drive persistence are not part of it.
#[verifier::reject_recursive_types(O)]
pub struct ProjectState<R, O> {
    pub project: R,
    pub objects: Map<u64, O>,
}

/// A reified, reversible unit of project mutation. Each is recorded as the
/// inverse of a change made while an operation runs.
pub enum Delta<R, O> {
    /// Restores the root record to the held value.
    SetProject(R),
    /// Removes the object (undoes its creation).
    DeleteObject(ObjPtr),
    /// Adds the held object back (undoes its deletion); no effect if the key
    /// is present.
    RecreateObject(ObjPtr, O),
    /// Restores an existing object to the held value.
    SetObject(ObjPtr, O),
}

impl<R, O> Delta<R, O> {
    /// The key of the object the delta acts on (`0` for the root record).
    pub open spec fn key(self) -> u64 {
        match self {
            Delta::SetProject(_) => 0,
            Delta::DeleteObject(p) => p.key,
            Delta::RecreateObject(p, _) => p.key,
            Delta::SetObject(p, _) => p.key,
        }
    }

    /// The effect of performing this delta on a project.
    pub open spec fn apply(self, s: ProjectState<R, O>) -> ProjectState<R, O> {
        match self {
            Delta::SetProject(r) => ProjectState { project: r, objects: s.objects },
            Delta::DeleteObject(p) => ProjectState { project: s.project, objects: s.objects.remove(p.key) },
            Delta::RecreateObject(p, o) => if s.objects.contains_key(p.key) {
                s
            } else {
                ProjectState { project: s.project, objects: s.objects.insert(p.key, o) }
            },
            Delta::SetObject(p, o) => if s.objects.contains_key(p.key) {
                ProjectState { project: s.project, objects: s.objects.insert(p.key, o) }
            } else {
                s
            },
        }
    }

    /// Performs the delta on a project context.
    pub fn perform(self, context: &mut ProjectContext<R, O>)
        requires
            old(context).wf(),
        ensures
            final(context).wf(),
            final(context).state() == self.apply(old(context).state()),
            final(context).project_modified() == (old(context).project_modified() || self is SetProject),
            ({
                let had = self matches Delta::SetProject(_) || old(context).state().objects.contains_key(
                    self.key(),
                );
                match self {
                    Delta::SetProject(_) => final(context).modified() == old(context).modified()
                        && final(context).to_delete() == old(context).to_delete(),
                    Delta::DeleteObject(p) => final(context).modified() == old(context).modified()
                        && final(context).to_delete() == if had {
                        old(context).to_delete().insert(p.key)
                    } else {
                        old(context).to_delete()
                    },
                    Delta::RecreateObject(p, _) => if had {
                        final(context).modified() == old(context).modified() && final(context).to_delete()
                            == old(context).to_delete()
                    } else {
                        final(context).modified() == old(context).modified().insert(p.key)
                            && final(context).to_delete() == old(context).to_delete().remove(p.key)
                    },
                    Delta::SetObject(p, _) => final(context).to_delete() == old(context).to_delete()
                        && final(context).modified() == if had {
                        old(context).modified().insert(p.key)
                    } else {
                        old(context).modified()
                    },
                }
            }),
    {
        match self {
            Delta::SetProject(r) => {
                context.project = r;
                context.project_modified = true;
            },
            Delta::DeleteObject(p) => {
                let r = context.objects.delete(p);
                if r.is_none() {
                    assert(old(context).state().objects.remove(p.key) =~= old(context).state().objects);
                }
            },
            Delta::RecreateObject(p, o) => {
                context.objects.insert(p, o);
            },
            Delta::SetObject(p, o) => {
                context.objects.replace(p, o);
            },
        }
    }
}

/// The state of `s` after the deltas `ds` are performed last to first.
pub open spec fn undo_all<R, O>(ds: Seq<Delta<R, O>>, s: ProjectState<R, O>) -> ProjectState<R, O>
    decreases ds.len(),
{
    if ds.len() == 0 {
        s
    } else {
        undo_all(ds.drop_last(), ds.last().apply(s))
    }
}

proof fn lemma_undo_all_push<R, O>(ds: Seq<Delta<R, O>>, d: Delta<R, O>, s: ProjectState<R, O>)
    ensures
        undo_all(ds.push(d), s) == undo_all(ds, d.apply(s)),
{
    assert(ds.push(d).drop_last() =~= ds);
}

/// The root record and objects of a project, with the flag that says the
/// root must be persisted again.
#[verifier::reject_recursive_types(O)]
pub struct ProjectContext<R, O> {
    pub(crate) project: R,
    pub(crate) objects: ObjList<O>,
    pub(crate) project_modified: bool,
}

impl<R, O> ProjectContext<R, O> {
    pub closed spec fn wf(&self) -> bool {
        self.objects.wf()
    }

    pub closed spec fn state(&self) -> ProjectState<R, O> {
        ProjectState { project: self.project, objects: self.objects.objects() }
    }

    /// Whether the root record must be persisted again.
    pub closed spec fn project_modified(&self) -> bool {
        self.project_modified
    }

    /// The keys of objects to persist again.
    pub closed spec fn modified(&self) -> Set<u64> {
        self.objects.modified()
    }

    /// The keys of stored records to reclaim.
    pub closed spec fn to_delete(&self) -> Set<u64> {
        self.objects.to_delete()
    }

    pub(crate) proof fn lemma_unfold(&self)
        ensures
            self.wf() == self.objects.wf(),
            self.state() == (ProjectState { project: self.project, objects: self.objects.objects() }),
            self.project_modified() == self.project_modified,
            self.modified() == self.objects.modified(),
            self.to_delete() == self.objects.to_delete(),
    {
    }

    pub fn new(project: R, objects: ObjList<O>) -> (r: ProjectContext<R, O>)
        requires
            objects.wf(),
        ensures
            r.wf(),
            r.state() == (ProjectState { project, objects: objects.objects() }),
            !r.project_modified(),
            r.modified() == objects.modified(),
            r.to_delete() == objects.to_delete(),
    {
        ProjectContext { project, objects, project_modified: false }
    }

    pub fn project(&self) -> (r: &R)
        ensures
            *r == self.state().project,
    {
        &self.project
    }

    pub fn obj_list(&self) -> (r: &ObjList<O>)
        ensures
            r.objects() == self.state().objects,
            self.wf() ==> r.wf(),
    {
        &self.objects
    }
}

/// The capture target an operation runs against: it owns the project while
/// the operation runs and records, for every change, the delta that undoes
/// it. Changes can only be made through its methods, so the recorded deltas,
/// performed last to first, always bring the project back to where it was
/// when recording started.
#[verifier::reject_recursive_types(O)]
pub struct Recorder<R, O> {
    context: ProjectContext<R, O>,
    deltas: Vec<Delta<R, O>>,
    start: Ghost<ProjectState<R, O>>,
}

impl<R, O> Recorder<R, O> {
    pub closed spec fn wf(&self) -> bool {
        &&& self.context.wf()
        &&& undo_all(self.deltas@, self.context.state()) == self.start@
    }

    /// The project as it stands now.
    pub closed spec fn state(&self) -> ProjectState<R, O> {
        self.context.state()
    }

    /// The project as it stood when recording started.
    pub closed spec fn start(&self) -> ProjectState<R, O> {
        self.start@
    }

    pub closed spec fn deltas(&self) -> Seq<Delta<R, O>> {
        self.deltas@
    }

    /// The keys of objects to persist again.
    pub closed spec fn modified(&self) -> Set<u64> {
        self.context.objects.modified()
    }

    /// The keys of stored records to reclaim.
    pub closed spec fn to_delete(&self) -> Set<u64> {
        self.context.objects.to_delete()
    }

    pub fn new(context: ProjectContext<R, O>) -> (r: Recorder<R, O>)
        requires
            context.wf(),
        ensures
            r.wf(),
            r.state() == context.state(),
            r.start() == context.state(),
            r.deltas() == Seq::<Delta<R, O>>::empty(),
    {
        Recorder { context, deltas: Vec::new(), start: Ghost(context.state()) }
    }

    /// Ends recording: hands back the project and the recorded deltas.
    pub fn finish(self) -> (r: (ProjectContext<R, O>, Vec<Delta<R, O>>))
        requires
            self.wf(),
        ensures
            r.0.wf(),
            r.0.state() == self.state(),
            r.1@ == self.deltas(),
            undo_all(r.1@, r.0.state()) == self.start(),
    {
        (self.context, self.deltas)
    }

    pub fn project(&self) -> (r: &R)
        ensures
            *r == self.state().project,
    {
        &self.context.project
    }

    pub fn obj_list(&self) -> (r: &ObjList<O>)
        ensures
            r.objects() == self.state().objects,
    {
        &self.context.objects
    }

    /// Replaces the root record, recording the delta that restores it.
    pub fn set_project(&mut self, project: R)
        requires
            old(self).wf(),
        ensures
            final(self).wf(),
            final(self).start() == old(self).start(),
            final(self).state() == (ProjectState { project, objects: old(self).state().objects }),
            final(self).deltas() == old(self).deltas().push(Delta::SetProject(old(self).state().project)),
            final(self).modified() == old(self).modified(),
            final(self).to_delete() == old(self).to_delete(),
    {
        let mut prev = project;
        std::mem::swap(&mut prev, &mut self.context.project);
        self.context.project_modified = true;
        let ghost s = self.context.state();
        let d = Delta::SetProject(prev);
        proof {
            lemma_undo_all_push(self.deltas@, d, s);
            assert(d.apply(s) == old(self).context.state());
        }
        self.deltas.push(d);
    }

    /// Adds an object under a key that is not in use, recording the delta
    /// that removes it. Returns whether it was added; nothing changes when the
    /// key is in use.
    pub fn add_object(&mut self, ptr: ObjPtr, obj: O) -> (added: bool)
        requires
            old(self).wf(),
        ensures
            final(self).wf(),
            final(self).start() == old(self).start(),
            added == !old(self).state().objects.contains_key(ptr.key),
            final(self).state() == (if added {
                ProjectState { project: old(self).state().project, objects: old(self).state().objects.insert(ptr.key, obj) }
            } else {
                old(self).state()
            }),
            final(self).deltas() == if added {
                old(self).deltas().push(Delta::DeleteObject(ptr))
            } else {
                old(self).deltas()
            },
            final(self).modified() == if added {
                old(self).modified().insert(ptr.key)
            } else {
                old(self).modified()
            },
            final(self).to_delete() == if added {
                old(self).to_delete().remove(ptr.key)
            } else {
                old(self).to_delete()
            },
    {
        let added = self.context.objects.insert(ptr, obj);
        if added {
            let ghost s = self.context.state();
            let d = Delta::DeleteObject(ptr);
            proof {
                lemma_undo_all_push(self.deltas@, d, s);
                assert(d.apply(s).objects =~= old(self).context.state().objects);
            }
            self.deltas.push(d);
        }
        added
    }

    /// Deletes an object, recording the delta that recreates it. Returns
    /// whether there was one; nothing changes when there was not.
    pub fn delete_object(&mut self, ptr: ObjPtr) -> (deleted: bool)
        requires
            old(self).wf(),
        ensures
            final(self).wf(),
            final(self).start() == old(self).start(),
            deleted == old(self).state().objects.contains_key(ptr.key),
            final(self).state() == (if deleted {
                ProjectState { project: old(self).state().project, objects: old(self).state().objects.remove(ptr.key) }
            } else {
                old(self).state()
            }),
            final(self).deltas() == if deleted {
                old(self).deltas().push(Delta::RecreateObject(ptr, old(self).state().objects[ptr.key]))
            } else {
                old(self).deltas()
            },
            final(self).modified() == old(self).modified(),
            final(self).to_delete() == if deleted {
                old(self).to_delete().insert(ptr.key)
            } else {
                old(self).to_delete()
            },
    {
        match self.context.objects.delete(ptr) {
            Some(obj) => {
                let ghost s = self.context.state();
                let d = Delta::RecreateObject(ptr, obj);
                proof {
                    lemma_undo_all_push(self.deltas@, d, s);
                    assert(d.apply(s).objects =~= old(self).context.state().objects);
                }
                self.deltas.push(d);
                true
            },
            None => {
                assert(self.context.state() == old(self).context.state());
                false
            },
        }
    }

    /// Replaces the value of an existing object, recording the delta that
    /// restores it. Returns whether there was one; nothing changes when there
    /// was not.
    pub fn set_object(&mut self, ptr: ObjPtr, obj: O) -> (set: bool)
        requires
            old(self).wf(),
        ensures
            final(self).wf(),
            final(self).start() == old(self).start(),
            set == old(self).state().objects.contains_key(ptr.key),
            final(self).state() == (if set {
                ProjectState { project: old(self).state().project, objects: old(self).state().objects.insert(ptr.key, obj) }
            } else {
                old(self).state()
            }),
            final(self).deltas() == if set {
                old(self).deltas().push(Delta::SetObject(ptr, old(self).state().objects[ptr.key]))
            } else {
                old(self).deltas()
            },
            final(self).modified() == if set {
                old(self).modified().insert(ptr.key)
            } else {
                old(self).modified()
            },
            final(self).to_delete() == old(self).to_delete(),
    {
        match self.context.objects.replace(ptr, obj) {
            Some(prev) => {
                let ghost s = self.context.state();
                let d = Delta::SetObject(ptr, prev);
                proof {
                    lemma_undo_all_push(self.deltas@, d, s);
                    assert(d.apply(s).objects =~= old(self).context.state().objects);
                }
                self.deltas.push(d);
                true
            },
            None => {
                assert(self.context.state() == old(self).context.state());
                false
            },
        }
    }
}

/// Performing an operation's recorded deltas in reverse order on the
/// project after it gives the project before it.
pub proof fn lemma_recorded_deltas_undo<R, O>(r: Recorder<R, O>)
    requires
        r.wf(),
    ensures
        undo_all(r.deltas(), r.state()) == r.start(),
{
}

} // verus!
