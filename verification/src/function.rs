//! Applications, functions, and their registry.

use vstd::prelude::*;

verus! {

/// An immutable template describing runtime resource requirements of one
/// application: each of its containers needs `cores` and `memory`, takes
/// `deployment_time` ticks to deploy, and runs at most
/// `concurrent_invocations` invocations at once.
#[derive(Clone, Copy, Debug)]
pub struct Application {
    /// Application id.
    pub id: usize,
    /// Cores required by one container.
    pub cores: u64,
    /// Memory required by one container.
    pub memory: u64,
    /// Ticks needed to deploy one container.
    pub deployment_time: u64,
    /// Invocations one container may run at once.
    pub concurrent_invocations: usize,
}

/// A named entrypoint belonging to exactly one application.
#[derive(Clone, Copy, Debug)]
pub struct Function {
    /// Function id.
    pub id: usize,
    /// The owning application.
    pub app_id: usize,
}

/// Holds all applications and functions, keyed by sequential ids.
#[derive(Clone, Debug)]
pub struct FunctionRegistry {
    apps: Vec<Application>,
    functions: Vec<Function>,
}

impl FunctionRegistry {
    /// The registered applications, in id order.
    pub closed spec fn apps(self) -> Seq<Application> {
        self.apps@
    }

    /// The registered functions, in id order.
    pub closed spec fn functions(self) -> Seq<Function> {
        self.functions@
    }

    /// Ids are positions, and every function's application exists.
    pub open spec fn wf(self) -> bool {
        &&& forall|i: int| 0 <= i < self.apps().len() ==> (#[trigger] self.apps()[i]).id == i
        &&& forall|i: int|
            0 <= i < self.functions().len() ==> (#[trigger] self.functions()[i]).id == i
                && self.functions()[i].app_id < self.apps().len()
    }

    /// Creates an empty registry.
    pub fn new() -> (r: FunctionRegistry)
        ensures
            r.wf(),
            r.apps().len() == 0,
            r.functions().len() == 0,
    {
        FunctionRegistry { apps: Vec::new(), functions: Vec::new() }
    }

    /// Registers an application and returns its id.
    pub fn add_app(
        &mut self,
        cores: u64,
        memory: u64,
        deployment_time: u64,
        concurrent_invocations: usize,
    ) -> (id: usize)
        requires
            old(self).wf(),
        ensures
            final(self).wf(),
            id == old(self).apps().len(),
            final(self).apps() == old(self).apps().push(
                Application { id, cores, memory, deployment_time, concurrent_invocations },
            ),
            final(self).functions() == old(self).functions(),
    {
        let id = self.apps.len();
        let ghost pre = self.apps@;
        self.apps.push(Application { id, cores, memory, deployment_time, concurrent_invocations });
        proof {
            assert(pre == old(self).apps());
            assert(self.functions@ == old(self).functions());
            assert forall|i: int|
                0 <= i < self.functions@.len() implies (#[trigger] self.functions@[i]).id == i
                && self.functions@[i].app_id < self.apps@.len() by {
                assert(old(self).functions()[i].id == i && old(self).functions()[i].app_id < old(
                    self,
                ).apps().len());
            }
            assert forall|i: int| 0 <= i < self.apps@.len() implies (#[trigger] self.apps@[i]).id
                == i by {
                if i < pre.len() {
                    assert(self.apps@[i] == pre[i]);
                    assert(old(self).apps()[i].id == i);
                } else {
                    assert(self.apps@[i] == Application {
                        id,
                        cores,
                        memory,
                        deployment_time,
                        concurrent_invocations,
                    });
                }
            }
        }
        id
    }

    /// Registers a function of an existing application; returns its id.
    pub fn add_function(&mut self, app_id: usize) -> (id: usize)
        requires
            old(self).wf(),
            app_id < old(self).apps().len(),
        ensures
            final(self).wf(),
            id == old(self).functions().len(),
            final(self).functions() == old(self).functions().push(Function { id, app_id }),
            final(self).apps() == old(self).apps(),
    {
        let id = self.functions.len();
        let ghost pre = self.functions@;
        self.functions.push(Function { id, app_id });
        proof {
            assert(pre == old(self).functions());
            assert(self.apps@ == old(self).apps());
            assert forall|i: int| 0 <= i < self.functions@.len() implies (
            #[trigger] self.functions@[i]).id == i && self.functions@[i].app_id
                < self.apps@.len() by {
                if i < pre.len() {
                    assert(self.functions@[i] == pre[i]);
                    assert(old(self).functions()[i].id == i && old(self).functions()[i].app_id
                        < old(self).apps().len());
                } else {
                    assert(self.functions@[i] == Function { id, app_id });
                }
            }
        }
        id
    }

    /// Returns the application with the given id, if registered.
    pub fn get_app(&self, id: usize) -> (r: Option<&Application>)
        requires
            self.wf(),
        ensures
            match r {
                Some(a) => id < self.apps().len() && *a == self.apps()[id as int],
                None => id >= self.apps().len(),
            },
    {
        if id < self.apps.len() {
            Some(&self.apps[id])
        } else {
            None
        }
    }

    /// Returns the function with the given id, if registered.
    pub fn get_function(&self, id: usize) -> (r: Option<&Function>)
        requires
            self.wf(),
        ensures
            match r {
                Some(f) => id < self.functions().len() && *f == self.functions()[id as int],
                None => id >= self.functions().len(),
            },
    {
        if id < self.functions.len() {
            Some(&self.functions[id])
        } else {
            None
        }
    }
}

} // verus!
