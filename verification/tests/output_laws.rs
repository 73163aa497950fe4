use atria::model::{Point, Rect, Size};
use atria::output::{IdentitySource, OutputIdentity, OutputInfo, OutputSet};

fn info(width: u32, height: u32) -> OutputInfo {
    OutputInfo {
        size: Size { width, height },
        physical_millimetres: Size {
            width: 300,
            height: 200,
        },
        scale_numerator: 1,
        scale_denominator: 1,
        refresh_millihertz: 60_000,
    }
}

#[test]
fn reapplying_the_same_topology_reports_nothing() {
    let mut outputs = OutputSet::new();
    let listing = [
        (OutputIdentity(5), IdentitySource::Panel, info(1920, 1080)),
        (OutputIdentity(2), IdentitySource::Position, info(1280, 720)),
    ];
    let first = outputs.apply(&listing);
    assert_eq!(first.arrived, vec![OutputIdentity(5), OutputIdentity(2)]);
    let second = outputs.apply(&listing);
    assert!(second.is_empty());
    assert_eq!(outputs.present(), vec![OutputIdentity(2), OutputIdentity(5)]);
}

#[test]
fn departures_are_reported_in_identity_order_and_remembered() {
    let mut outputs = OutputSet::new();
    outputs.apply(&[
        (OutputIdentity(9), IdentitySource::Panel, info(800, 600)),
        (OutputIdentity(3), IdentitySource::Panel, info(800, 600)),
        (OutputIdentity(6), IdentitySource::Panel, info(800, 600)),
    ]);
    let delta = outputs.apply(&[(OutputIdentity(6), IdentitySource::Panel, info(800, 600))]);
    assert_eq!(delta.departed, vec![OutputIdentity(3), OutputIdentity(9)]);
    assert!(delta.arrived.is_empty() && delta.returned.is_empty() && delta.reconfigured.is_empty());
    assert_eq!(outputs.len(), 3);
    assert!(outputs.is_known(OutputIdentity(3)));
    assert!(!outputs.is_present(OutputIdentity(3)));
}

#[test]
fn a_placement_survives_an_unplug_and_replug() {
    let mut outputs = OutputSet::new();
    let panel = OutputIdentity(1);
    outputs.apply(&[(panel, IdentitySource::Panel, info(1920, 1080))]);
    assert!(outputs.place(panel, Point { x: 100, y: 50 }));
    outputs.apply(&[]);
    assert_eq!(outputs.area(panel), None, "an absent display covers nothing");
    outputs.apply(&[(panel, IdentitySource::Panel, info(1920, 1080))]);
    assert_eq!(
        outputs.area(panel),
        Some(Rect {
            x: 100,
            y: 50,
            width: 1920,
            height: 1080
        })
    );
}

#[test]
fn placing_an_unknown_display_is_refused() {
    let mut outputs = OutputSet::new();
    assert!(!outputs.place(OutputIdentity(4), Point { x: 0, y: 0 }));
    assert!(outputs.is_empty());
}

#[test]
fn a_forgotten_display_arrives_as_new() {
    let mut outputs = OutputSet::new();
    let panel = OutputIdentity(12);
    outputs.apply(&[(panel, IdentitySource::Panel, info(640, 480))]);
    outputs.apply(&[]);
    assert!(outputs.forget(panel));
    assert!(!outputs.forget(panel));
    assert!(outputs.is_empty());
    let delta = outputs.apply(&[(panel, IdentitySource::Panel, info(640, 480))]);
    assert_eq!(delta.arrived, vec![panel]);
    assert!(delta.returned.is_empty());
}

#[test]
fn a_display_listed_twice_takes_its_last_report() {
    let mut outputs = OutputSet::new();
    let panel = OutputIdentity(8);
    let delta = outputs.apply(&[
        (panel, IdentitySource::Position, info(640, 480)),
        (panel, IdentitySource::Panel, info(800, 600)),
    ]);
    assert_eq!(delta.arrived, vec![panel]);
    assert_eq!(delta.reconfigured, vec![panel]);
    assert_eq!(outputs.info(panel), Some(info(800, 600)));
    assert_eq!(outputs.source(panel), Some(IdentitySource::Panel));
    assert_eq!(outputs.len(), 1);
}

#[test]
fn an_unplaced_display_reaches_nothing() {
    let mut outputs = OutputSet::new();
    outputs.apply(&[(OutputIdentity(1), IdentitySource::Panel, info(1920, 1080))]);
    let area = Rect {
        x: 10,
        y: 10,
        width: 10,
        height: 10,
    };
    assert!(!outputs.is_reachable(area));
    assert_eq!(outputs.nearest_reachable(area), None);
}

#[test]
fn a_reachable_area_stays_where_it_is() {
    let mut outputs = OutputSet::new();
    outputs.apply(&[(OutputIdentity(1), IdentitySource::Panel, info(1920, 1080))]);
    outputs.place(OutputIdentity(1), Point { x: 0, y: 0 });
    let area = Rect {
        x: 1900,
        y: 1000,
        width: 500,
        height: 500,
    };
    assert_eq!(outputs.nearest_reachable(area), Some(Point { x: 1900, y: 1000 }));
}

#[test]
fn equally_near_displays_rescue_onto_the_lowest_identity() {
    let mut outputs = OutputSet::new();
    outputs.apply(&[
        (OutputIdentity(7), IdentitySource::Panel, info(100, 100)),
        (OutputIdentity(3), IdentitySource::Panel, info(100, 100)),
    ]);
    outputs.place(OutputIdentity(7), Point { x: 350, y: 0 });
    outputs.place(OutputIdentity(3), Point { x: -200, y: 0 });
    let stranded = Rect {
        x: 100,
        y: 0,
        width: 50,
        height: 50,
    };
    assert_eq!(outputs.nearest_reachable(stranded), Some(Point { x: -150, y: 0 }));
}

#[test]
fn an_area_larger_than_its_screen_is_pinned_to_the_screen_origin() {
    let mut outputs = OutputSet::new();
    outputs.apply(&[(OutputIdentity(1), IdentitySource::Panel, info(100, 100))]);
    outputs.place(OutputIdentity(1), Point { x: 0, y: 0 });
    let huge = Rect {
        x: 5000,
        y: -5000,
        width: 400,
        height: 400,
    };
    assert_eq!(outputs.nearest_reachable(huge), Some(Point { x: 0, y: 0 }));
}

#[test]
fn edges_saturate_instead_of_wrapping() {
    let mut outputs = OutputSet::new();
    outputs.apply(&[(OutputIdentity(1), IdentitySource::Panel, info(u32::MAX, 10))]);
    outputs.place(OutputIdentity(1), Point { x: i32::MAX - 5, y: 0 });
    let near_edge = Rect {
        x: i32::MAX - 1,
        y: 0,
        width: 1,
        height: 1,
    };
    assert!(outputs.is_reachable(near_edge));
}

#[test]
fn an_area_without_width_or_height_is_never_reachable() {
    let mut outputs = OutputSet::new();
    outputs.apply(&[(OutputIdentity(1), IdentitySource::Panel, info(1920, 1080))]);
    outputs.place(OutputIdentity(1), Point { x: 0, y: 0 });
    let flat = Rect { x: 100, y: 100, width: 0, height: 50 };
    assert!(!outputs.is_reachable(flat));
    let thin = Rect { x: 100, y: 100, width: 50, height: 0 };
    assert!(!outputs.is_reachable(thin));
    let real = Rect { x: 100, y: 100, width: 1, height: 1 };
    assert!(outputs.is_reachable(real));
}
