use voxel_mesh::render_config::PresentMode;
use voxel_mesh::render_config::choose_image_count;
use voxel_mesh::render_config::choose_swap_extent;
use voxel_mesh::render_config::choose_swap_present_mode;
use voxel_mesh::render_config::choose_swap_surface_format;
use voxel_mesh::render_config::device_suitable;

#[test]
fn present_mode_prefers_mailbox_then_immediate() {
    assert_eq!(choose_swap_present_mode(true, true), PresentMode::Mailbox);
    assert_eq!(choose_swap_present_mode(true, false), PresentMode::Mailbox);
    assert_eq!(choose_swap_present_mode(false, true), PresentMode::Immediate);
    assert_eq!(choose_swap_present_mode(false, false), PresentMode::Fifo);
}

#[test]
fn surface_format_prefers_requested_pair() {
    let offered = vec![(7, 1), (44, 0), (44, 1)];
    assert_eq!(choose_swap_surface_format(&offered, (44, 0)), (44, 0));
    assert_eq!(choose_swap_surface_format(&offered, (99, 9)), (7, 1));
}

#[test]
fn swap_extent_takes_current_when_reported() {
    assert_eq!(
        choose_swap_extent(Some((1024, 768)), (800, 600), (1, 1), (4096, 4096)),
        (1024, 768)
    );
}

#[test]
fn swap_extent_clamps_preferred_into_range() {
    assert_eq!(
        choose_swap_extent(None, (800, 600), (1, 1), (4096, 4096)),
        (800, 600)
    );
    assert_eq!(
        choose_swap_extent(None, (800, 600), (1, 1), (400, 400)),
        (400, 400)
    );
    assert_eq!(
        choose_swap_extent(None, (800, 600), (1000, 1000), (2000, 2000)),
        (1000, 1000)
    );
}

#[test]
fn image_count_is_min_plus_one_capped() {
    assert_eq!(choose_image_count(2, None), 3);
    assert_eq!(choose_image_count(2, Some(8)), 3);
    assert_eq!(choose_image_count(2, Some(3)), 3);
    assert_eq!(choose_image_count(3, Some(3)), 3);
}

#[test]
fn device_suitability_needs_all_capabilities() {
    assert!(device_suitable(true, true, true, true));
    assert!(!device_suitable(false, true, true, true));
    assert!(!device_suitable(true, false, true, true));
    assert!(!device_suitable(true, true, false, true));
    assert!(!device_suitable(true, true, true, false));
}
