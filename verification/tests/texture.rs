use raytracer::components::material::DiffuseLight;
use raytracer::components::texture::checker_is_even;
use raytracer::scene::BuiltinScene;

#[test]
fn checker_parity_of_cells() {
    assert!(checker_is_even(0, 0, 0));
    assert!(checker_is_even(1, 2, 3));
    assert!(!checker_is_even(1, 1, 1));
    assert!(!checker_is_even(-1, 0, 0));
    assert!(checker_is_even(-1, -1, 0));
}

#[test]
fn checker_parity_of_extreme_cells() {
    assert!(checker_is_even(i32::MAX, i32::MAX, 0));
    assert!(!checker_is_even(i32::MAX, i32::MAX, i32::MAX));
    assert!(checker_is_even(i32::MIN, i32::MIN, i32::MIN));
}

#[test]
fn diffuse_light_emits_its_texture() {
    let light = DiffuseLight::new("sky");
    assert_eq!(*light.texture(), "sky");
}

#[test]
fn default_scene_is_first() {
    assert_eq!(BuiltinScene::default(), BuiltinScene::First);
}
