use pathtracer::renderer::path_tracer::{dispatch_size, workgroup_count, WORKGROUP_SIZE};
use pathtracer::renderer::renderer_state::{route_key, KeyRoute};
use pathtracer::renderer::renderer_uniforms::RendererUniforms;
use pathtracer::scene::camera::KeyCode;

#[test]
fn uniforms_update_reports_change() {
    let mut u = RendererUniforms { frame: 3 };
    assert!(u.apply_update(RendererUniforms { frame: 4 }));
    assert_eq!(u, RendererUniforms { frame: 4 });
}

#[test]
fn uniforms_same_value_twice_uploads_once() {
    let mut u = RendererUniforms { frame: 0 };
    let next = u.next_frame();
    assert!(u.apply_update(next));
    assert!(!u.apply_update(next));
    assert_eq!(u.frame, 1);
}

#[test]
fn uniforms_next_frame_counts_up() {
    let u = RendererUniforms { frame: 41 };
    assert_eq!(u.next_frame().frame, 42);
    let top = RendererUniforms { frame: u32::MAX - 1 };
    assert_eq!(top.next_frame().frame, u32::MAX);
}

#[test]
fn workgroups_cover_the_texture() {
    assert_eq!(WORKGROUP_SIZE, 8);
    assert_eq!(workgroup_count(0), 0);
    assert_eq!(workgroup_count(1), 1);
    assert_eq!(workgroup_count(8), 1);
    assert_eq!(workgroup_count(9), 2);
    assert_eq!(workgroup_count(u32::MAX), 536_870_912);
    assert_eq!(dispatch_size(1920, 1080), (240, 135));
    assert_eq!(dispatch_size(801, 601), (101, 76));
}

#[test]
fn escape_press_exits_other_keys_go_to_camera() {
    assert_eq!(route_key(KeyCode::Escape, true), KeyRoute::Exit);
    assert_eq!(route_key(KeyCode::Escape, false), KeyRoute::Camera);
    assert_eq!(route_key(KeyCode::KeyW, true), KeyRoute::Camera);
    assert_eq!(route_key(KeyCode::Other, true), KeyRoute::Camera);
}
