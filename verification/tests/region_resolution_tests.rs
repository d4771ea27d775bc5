use gamereader::region::{ActiveRegion, CaptureGeometry, MonitorRect, RegionManager};
use gamereader::resolution::{parse_base_resolution, parse_resolution, SUPPORTED_RESOLUTIONS};

#[test]
fn test_region_manager_new() {
    let manager = RegionManager::new(false);
    assert_eq!(manager.active_region(), ActiveRegion::Monitor1);
    assert!(!manager.is_monitor2_enabled());
}

#[test]
fn test_switch_to_monitor2() {
    let mut manager = RegionManager::new(true);

    manager.switch_to(ActiveRegion::Monitor2).unwrap();
    assert_eq!(manager.active_region(), ActiveRegion::Monitor2);
}

#[test]
fn test_switch_to_disabled_monitor2() {
    let mut manager = RegionManager::new(false);

    let result = manager.switch_to(ActiveRegion::Monitor2);
    assert!(result.is_err());
    assert_eq!(manager.active_region(), ActiveRegion::Monitor1);
}

#[test]
fn test_toggle_between_regions() {
    let mut manager = RegionManager::new(true);

    assert_eq!(manager.active_region(), ActiveRegion::Monitor1);

    let region = manager.toggle().unwrap();
    assert_eq!(region, ActiveRegion::Monitor2);
    assert_eq!(manager.active_region(), ActiveRegion::Monitor2);

    let region = manager.toggle().unwrap();
    assert_eq!(region, ActiveRegion::Monitor1);
    assert_eq!(manager.active_region(), ActiveRegion::Monitor1);
}

#[test]
fn test_toggle_when_monitor2_disabled() {
    let mut manager = RegionManager::new(false);

    let result = manager.toggle();
    assert!(result.is_err());
    assert_eq!(manager.active_region(), ActiveRegion::Monitor1);
}

#[test]
fn test_disable_monitor2_while_active() {
    let mut manager = RegionManager::new(true);

    manager.switch_to(ActiveRegion::Monitor2).unwrap();
    assert_eq!(manager.active_region(), ActiveRegion::Monitor2);

    manager.set_monitor2_enabled(false);
    assert_eq!(manager.active_region(), ActiveRegion::Monitor1);
    assert!(!manager.is_monitor2_enabled());
}

#[test]
fn test_get_active_rect() {
    let geometry = CaptureGeometry {
        monitor: MonitorRect { top: 100, left: 200, width: 1600, height: 900 },
        monitor2_enabled: false,
        monitor2_top: 50,
        monitor2_left: 100,
        monitor2_width: 800,
        monitor2_height: 450,
    };

    let mut manager = RegionManager::new(true);

    let rect = manager.get_active_rect(&geometry);
    assert_eq!(rect.top, 100);
    assert_eq!(rect.left, 200);
    assert_eq!(rect.width, 1600);
    assert_eq!(rect.height, 900);

    manager.switch_to(ActiveRegion::Monitor2).unwrap();
    let rect = manager.get_active_rect(&geometry);
    assert_eq!(rect.top, 50);
    assert_eq!(rect.left, 100);
    assert_eq!(rect.width, 800);
    assert_eq!(rect.height, 450);
}

#[test]
fn region_test_reset() {
    let mut manager = RegionManager::new(true);

    manager.switch_to(ActiveRegion::Monitor2).unwrap();
    assert_eq!(manager.active_region(), ActiveRegion::Monitor2);

    manager.reset();
    assert_eq!(manager.active_region(), ActiveRegion::Monitor1);
}

#[test]
fn test_enable_monitor2_after_creation() {
    let mut manager = RegionManager::new(false);
    assert!(!manager.is_monitor2_enabled());

    manager.set_monitor2_enabled(true);
    assert!(manager.is_monitor2_enabled());

    manager.switch_to(ActiveRegion::Monitor2).unwrap();
    assert_eq!(manager.active_region(), ActiveRegion::Monitor2);
}

#[test]
fn toggle_twice_returns_to_start() {
    let mut manager = RegionManager::new(true);
    let start = manager.active_region();
    manager.toggle().unwrap();
    manager.toggle().unwrap();
    assert_eq!(manager.active_region(), start);
}

#[test]
fn active_monitor_selection() {
    let geometry = CaptureGeometry {
        monitor: MonitorRect::default(),
        monitor2_enabled: true,
        monitor2_top: 1,
        monitor2_left: 2,
        monitor2_width: 3,
        monitor2_height: 4,
    };
    assert_eq!(geometry.get_active_monitor(2), MonitorRect { top: 1, left: 2, width: 3, height: 4 });
    assert_eq!(geometry.get_active_monitor(1), MonitorRect { top: 900, left: 375, width: 1170, height: 120 });
    let off = CaptureGeometry { monitor2_enabled: false, ..geometry };
    assert_eq!(off.get_active_monitor(2), MonitorRect::default());
}

#[test]
fn test_parse_resolution() {
    assert_eq!(parse_resolution("1920x1080"), Some((1920, 1080)));
    assert_eq!(parse_resolution("2560x1440"), Some((2560, 1440)));
    assert_eq!(parse_resolution("3840x2160"), Some((3840, 2160)));
    assert_eq!(parse_resolution("invalid"), None);
    assert_eq!(parse_resolution("1920"), None);
}

#[test]
fn test_supported_resolutions() {
    assert!(SUPPORTED_RESOLUTIONS.contains(&"1280x720"));
    assert!(SUPPORTED_RESOLUTIONS.contains(&"1920x1080"));
    assert!(SUPPORTED_RESOLUTIONS.contains(&"2560x1440"));
    assert!(SUPPORTED_RESOLUTIONS.contains(&"3840x2160"));
    assert!(SUPPORTED_RESOLUTIONS.contains(&"5120x2880"));
}

#[test]
fn base_resolution_parsing_and_fallback() {
    assert_eq!(parse_base_resolution("1280 X 720"), (1280, 720));
    assert_eq!(parse_base_resolution("3440x1440"), (3440, 1440));
    assert_eq!(parse_base_resolution("0x1080"), (1920, 1080));
    assert_eq!(parse_base_resolution("abc"), (1920, 1080));
    assert_eq!(parse_base_resolution("1x2x3"), (1920, 1080));
}

#[test]
fn test_monitor_rect_default() {
    let rect = MonitorRect::default();
    assert_eq!(rect.width, 1170);
    assert_eq!(rect.height, 120);
}

#[test]
fn test_get_active_monitor() {
    // The capture geometry of the default configuration, with the second
    // region enabled and moved.
    let mut geometry = CaptureGeometry {
        monitor: MonitorRect::default(),
        monitor2_enabled: false,
        monitor2_top: 100,
        monitor2_left: 375,
        monitor2_width: 1170,
        monitor2_height: 120,
    };
    geometry.monitor2_enabled = true;
    geometry.monitor2_top = 200;
    geometry.monitor2_width = 2000;

    let mon1 = geometry.get_active_monitor(1);
    assert_eq!(mon1.top, 900);

    let mon2 = geometry.get_active_monitor(2);
    assert_eq!(mon2.top, 200);
    assert_eq!(mon2.width, 2000);
}
