//! Sequences of pushes, and what they make of a storage.
use vstd::prelude::*;

use crate::identifier::PersistentIdentifier;
use crate::instance::InstanceView;
use crate::keys::InstanceParameters;
use crate::keys::TriangleParameters;
use crate::resource::Handle;
use crate::resource::SurfaceResource;
use crate::storage::StorageView;

verus! {

/// A push of a surface instance.
pub struct InstancePush {
    pub parameters: InstanceParameters,
    pub sort_index: u64,
    pub instance: InstanceView,
}

/// A push of triangles. Where a bundle was opened for them, `data` is the surface data that was
/// made for it, and `identifier` identifies its instance.
pub struct TrianglesPush {
    pub parameters: TriangleParameters,
    pub sort_index: u64,
    pub node_handle: Handle,
    pub data: SurfaceResource,
    pub identifier: PersistentIdentifier,
}

/// A push into a storage.
pub enum Push {
    Instance(InstancePush),
    Triangles(TrianglesPush),
}

impl Push {
    /// The key of the bundle that what is pushed belongs to.
    pub open spec fn key(self) -> u64 {
        match self {
            Push::Instance(push) => push.parameters.key(),
            Push::Triangles(push) => push.parameters.key(),
        }
    }
}

impl StorageView {
    /// The storage after triangles were pushed: if there is no bundle for them, one was opened.
    pub open spec fn after_triangles(self, push: TrianglesPush) -> StorageView {
        if self.index.contains_key(push.parameters.key()) {
            self
        } else {
            self.with_triangles(
                push.parameters,
                push.sort_index,
                push.node_handle,
                push.data,
                push.identifier,
            )
        }
    }

    /// The storage after a push.
    pub open spec fn after(self, push: Push) -> StorageView {
        match push {
            Push::Instance(push) => self.with_instance(
                push.parameters,
                push.sort_index,
                push.instance,
            ),
            Push::Triangles(push) => self.after_triangles(push),
        }
    }

    /// The storage after several pushes, one after another.
    pub open spec fn replay(self, pushes: Seq<Push>) -> StorageView
        decreases pushes.len(),
    {
        if pushes.len() == 0 {
            self
        } else {
            self.replay(pushes.drop_last()).after(pushes.last())
        }
    }

    /// The surface data that triangles with the given parameters are written into, where `made` is
    /// what is made for a bundle that is opened for them.
    pub open spec fn surface_for(
        self,
        parameters: TriangleParameters,
        made: SurfaceResource,
    ) -> SurfaceResource {
        let key = parameters.key();
        if self.index.contains_key(key) {
            self.bundles[self.index[key] as int].data
        } else {
            made
        }
    }
}

/// One push more is replayed after those before it.
pub proof fn replaying_ends_with_the_last_push(s: StorageView, pushes: Seq<Push>, push: Push)
    ensures
        s.replay(pushes.push(push)) == s.replay(pushes).after(push),
{
    assert(pushes.push(push).drop_last() == pushes);
}

} // verus!
