use raytracer::scene::{InstanceId, SceneObjects, SubObject};

type Objects = SceneObjects<&'static str, u8, u32, &'static str, &'static str>;

#[test]
fn sub_object_keeps_primitives() {
    let object = SubObject::new(vec![3u32, 1, 2]);
    assert_eq!(object.primitives(), &[3, 1, 2]);
}

#[test]
fn mesh_ids_count_up_and_read_back() {
    let mut scene: Objects = SceneObjects::new();
    let a = scene.add_mesh(SubObject::new(vec![1, 2]), "blas a");
    let b = scene.add_mesh(SubObject::new(vec![7]), "blas b");
    assert_eq!(scene.get_mesh(a).primitives(), &[1, 2]);
    assert_eq!(scene.get_mesh(b).primitives(), &[7]);
    assert_eq!(*scene.get_blas(a), "blas a");
    assert_eq!(*scene.get_blas(b), "blas b");
}

#[test]
fn instance_ids_count_up_and_read_back() {
    let mut scene: Objects = SceneObjects::new();
    let first = scene.add_blas_instance("first");
    let second = scene.add_blas_instance("second");
    assert!(matches!(first, InstanceId::Mesh(0)));
    assert!(matches!(second, InstanceId::Mesh(1)));
    assert_eq!(*scene.get_blas_instance(first), "first");
    assert_eq!(*scene.get_blas_instance(second), "second");
    assert_eq!(scene.num_instances(), 2);
    let ids = scene.get_instance_ids();
    assert_eq!(ids.len(), 2);
    assert!(matches!(ids[0], InstanceId::Mesh(0)));
    assert!(matches!(ids[1], InstanceId::Mesh(1)));
}

#[test]
fn sphere_ids_count_up_and_read_back() {
    let mut scene: Objects = SceneObjects::new();
    assert_eq!(scene.add_sphere("ground", 1), 0);
    assert_eq!(scene.add_sphere("ball", 2), 1);
    assert_eq!(*scene.get_sphere(1), "ball");
    assert_eq!(*scene.get_sphere_material(0), 1);
    assert_eq!(scene.spheres().primitives(), &["ground", "ball"]);
}

#[test]
fn empty_scene_has_no_instance_ids() {
    let scene: Objects = SceneObjects::new();
    assert!(scene.get_instance_ids().is_empty());
    assert_eq!(scene.num_instances(), 0);
}
