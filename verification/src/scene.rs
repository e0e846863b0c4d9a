use vstd::prelude::*;

verus! {

/// Identifies a mesh of a scene: its position in the scene's mesh list.
#[derive(Debug, Clone, Copy)]
pub struct MeshId(u32);

impl View for MeshId {
    type V = u32;

    closed spec fn view(&self) -> u32 {
        self.0
    }
}

/// Identifies what a ray hit: the scene's spheres, or one mesh instance by its
/// position in the scene's instance list.
#[derive(Debug, Clone, Copy)]
pub enum InstanceId {
    Sphere,
    Mesh(u32),
}

/// A list of primitives that one hierarchy is built over.
pub struct SubObject<T> {
    primitives: Vec<T>,
}

impl<T> View for SubObject<T> {
    type V = Seq<T>;

    closed spec fn view(&self) -> Seq<T> {
        self.primitives@
    }
}

impl<T> SubObject<T> {
    pub fn new(primitives: Vec<T>) -> (object: Self)
        ensures
            object@ == primitives@,
    {
        Self { primitives }
    }

    pub fn primitives(&self) -> (primitives: &[T])
        ensures
            primitives@ == self@,
    {
        self.primitives.as_slice()
    }
}

/// The objects of a scene and the ids that name them: spheres with their
/// materials, meshes with the hierarchy built over each, and placed instances of
/// meshes.
pub struct SceneObjects<S, M, T, B, I> {
    spheres: SubObject<S>,
    sphere_materials: Vec<M>,
    meshes: Vec<(SubObject<T>, B)>,
    blas_instances: Vec<I>,
}

impl<S, M, T, B, I> SceneObjects<S, M, T, B, I> {
    pub closed spec fn sphere_seq(&self) -> Seq<S> {
        self.spheres@
    }

    pub closed spec fn sphere_material_seq(&self) -> Seq<M> {
        self.sphere_materials@
    }

    /// The primitives of each mesh.
    pub closed spec fn mesh_seq(&self) -> Seq<Seq<T>> {
        self.meshes@.map_values(|entry: (SubObject<T>, B)| entry.0@)
    }

    /// The hierarchy of each mesh.
    pub closed spec fn blas_seq(&self) -> Seq<B> {
        self.meshes@.map_values(|entry: (SubObject<T>, B)| entry.1)
    }

    pub closed spec fn instance_seq(&self) -> Seq<I> {
        self.blas_instances@
    }

    /// Every sphere has its material, and every id fits in 32 bits.
    pub open spec fn wf(&self) -> bool {
        &&& self.sphere_seq().len() == self.sphere_material_seq().len()
        &&& self.sphere_material_seq().len() <= u32::MAX
        &&& self.mesh_seq().len() <= u32::MAX
        &&& self.instance_seq().len() <= u32::MAX
    }

    /// Every sphere has its material: a well-formed scene holds as many sphere
    /// materials as spheres, so material `k` belongs to sphere `k`.
    pub proof fn lemma_one_material_per_sphere(&self)
        requires
            self.wf(),
        ensures
            self.sphere_material_seq().len() == self.sphere_seq().len(),
    {
    }

    /// Whether `id` names a mesh of this scene.
    pub open spec fn valid_mesh_id(&self, id: MeshId) -> bool {
        id@ < self.mesh_seq().len()
    }

    /// Whether `id` names a mesh instance of this scene.
    pub open spec fn valid_instance_id(&self, id: InstanceId) -> bool {
        match id {
            InstanceId::Mesh(i) => i < self.instance_seq().len(),
            InstanceId::Sphere => false,
        }
    }

    /// A scene without objects.
    pub fn new() -> (scene: Self)
        ensures
            scene.wf(),
            scene.sphere_seq().len() == 0,
            scene.sphere_material_seq().len() == 0,
            scene.mesh_seq().len() == 0,
            scene.blas_seq().len() == 0,
            scene.instance_seq().len() == 0,
    {
        let scene = Self {
            spheres: SubObject::new(Vec::new()),
            sphere_materials: Vec::new(),
            meshes: Vec::new(),
            blas_instances: Vec::new(),
        };
        assert(scene.mesh_seq() =~= Seq::empty());
        assert(scene.blas_seq() =~= Seq::empty());
        scene
    }

    /// Adds a mesh, with the hierarchy built over it, and returns its id: the
    /// number of meshes added before it.
    pub fn add_mesh(&mut self, mesh: SubObject<T>, blas: B) -> (id: MeshId)
        requires
            old(self).wf(),
            mesh@.len() > 0,
            old(self).mesh_seq().len() < u32::MAX,
        ensures
            final(self).wf(),
            id@ == old(self).mesh_seq().len(),
            final(self).mesh_seq() == old(self).mesh_seq().push(mesh@),
            final(self).blas_seq() == old(self).blas_seq().push(blas),
            final(self).sphere_seq() == old(self).sphere_seq(),
            final(self).sphere_material_seq() == old(self).sphere_material_seq(),
            final(self).instance_seq() == old(self).instance_seq(),
    {
        let id = self.meshes.len() as u32;
        let ghost mesh_view = mesh@;
        self.meshes.push((mesh, blas));
        assert(self.mesh_seq() =~= old(self).mesh_seq().push(mesh_view));
        assert(self.blas_seq() =~= old(self).blas_seq().push(blas));
        MeshId(id)
    }

    /// Adds a placed instance of a mesh and returns its id, which carries the
    /// number of instances added before it.
    pub fn add_blas_instance(&mut self, instance: I) -> (id: InstanceId)
        requires
            old(self).wf(),
            old(self).instance_seq().len() < u32::MAX,
        ensures
            final(self).wf(),
            id == InstanceId::Mesh(old(self).instance_seq().len() as u32),
            final(self).instance_seq() == old(self).instance_seq().push(instance),
            final(self).mesh_seq() == old(self).mesh_seq(),
            final(self).blas_seq() == old(self).blas_seq(),
            final(self).sphere_seq() == old(self).sphere_seq(),
            final(self).sphere_material_seq() == old(self).sphere_material_seq(),
    {
        let id = self.blas_instances.len() as u32;
        self.blas_instances.push(instance);
        InstanceId::Mesh(id)
    }

    /// Adds a sphere with its material and returns its id: the number of
    /// spheres added before it.
    pub fn add_sphere(&mut self, sphere: S, material: M) -> (id: u32)
        requires
            old(self).wf(),
            old(self).sphere_seq().len() < u32::MAX,
        ensures
            final(self).wf(),
            id == old(self).sphere_seq().len(),
            final(self).sphere_seq() == old(self).sphere_seq().push(sphere),
            final(self).sphere_material_seq() == old(self).sphere_material_seq().push(material),
            final(self).sphere_material_seq().len() == final(self).sphere_seq().len(),
            final(self).mesh_seq() == old(self).mesh_seq(),
            final(self).blas_seq() == old(self).blas_seq(),
            final(self).instance_seq() == old(self).instance_seq(),
    {
        let id = self.sphere_materials.len() as u32;
        self.spheres.primitives.push(sphere);
        self.sphere_materials.push(material);
        id
    }

    /// The primitives of mesh `mesh_id`.
    pub fn get_mesh(&self, mesh_id: MeshId) -> (mesh: &SubObject<T>)
        requires
            self.valid_mesh_id(mesh_id),
        ensures
            mesh@ == self.mesh_seq()[mesh_id@ as int],
    {
        &self.meshes[mesh_id.0 as usize].0
    }

    /// The hierarchy built over mesh `blas_id`.
    pub fn get_blas(&self, blas_id: MeshId) -> (blas: &B)
        requires
            self.valid_mesh_id(blas_id),
        ensures
            *blas == self.blas_seq()[blas_id@ as int],
    {
        &self.meshes[blas_id.0 as usize].1
    }

    /// The mesh instance that `instance_id` names.
    pub fn get_blas_instance(&self, instance_id: InstanceId) -> (instance: &I)
        requires
            self.valid_instance_id(instance_id),
        ensures
            instance_id matches InstanceId::Mesh(i) && *instance == self.instance_seq()[i as int],
    {
        match instance_id {
            InstanceId::Mesh(id) => &self.blas_instances[id as usize],
            InstanceId::Sphere => {
                proof {
                    assert(false);
                }
                &self.blas_instances[0]
            },
        }
    }

    /// Sphere number `id`.
    pub fn get_sphere(&self, id: u32) -> (sphere: &S)
        requires
            id < self.sphere_seq().len(),
        ensures
            *sphere == self.sphere_seq()[id as int],
    {
        &self.spheres.primitives[id as usize]
    }

    /// The material of sphere number `id`.
    pub fn get_sphere_material(&self, id: u32) -> (material: &M)
        requires
            self.wf(),
            id < self.sphere_seq().len(),
        ensures
            self.sphere_material_seq().len() == self.sphere_seq().len(),
            *material == self.sphere_material_seq()[id as int],
    {
        &self.sphere_materials[id as usize]
    }

    /// All spheres, as the primitive list of their hierarchy.
    pub fn spheres(&self) -> (spheres: &SubObject<S>)
        ensures
            spheres@ == self.sphere_seq(),
    {
        &self.spheres
    }

    /// Whether `id` names a mesh of this scene.
    pub fn contains_mesh(&self, id: MeshId) -> (valid: bool)
        ensures
            valid == self.valid_mesh_id(id),
    {
        (id.0 as usize) < self.meshes.len()
    }

    /// The number of meshes.
    pub fn num_meshes(&self) -> (count: usize)
        ensures
            count == self.mesh_seq().len(),
    {
        self.meshes.len()
    }

    /// The number of mesh instances.
    pub fn num_instances(&self) -> (count: usize)
        ensures
            count == self.instance_seq().len(),
    {
        self.blas_instances.len()
    }

    /// The ids of all mesh instances, in the order they were added.
    pub fn get_instance_ids(&self) -> (ids: Vec<InstanceId>)
        requires
            self.wf(),
        ensures
            ids@.len() == self.instance_seq().len(),
            forall|i: int| 0 <= i < ids@.len() ==> #[trigger] ids@[i] == InstanceId::Mesh(i as u32),
            forall|i: int| 0 <= i < ids@.len() ==> self.valid_instance_id(#[trigger] ids@[i]),
    {
        let count = self.blas_instances.len();
        let mut result: Vec<InstanceId> = Vec::with_capacity(count);
        let mut i: usize = 0;
        while i < count
            invariant
                count == self.instance_seq().len(),
                count <= u32::MAX,
                i <= count,
                result@.len() == i,
                forall|k: int| 0 <= k < i ==> #[trigger] result@[k] == InstanceId::Mesh(k as u32),
            decreases count - i,
        {
            result.push(InstanceId::Mesh(i as u32));
            i += 1;
        }
        result
    }
}

} // verus!
