//! The interval between full walks, and power supplies.
use autobahn::power::{interval_for, linux_on_battery, PowerSaver, Supply};

#[test]
fn saving_stretches_only_the_full_walk_interval() {
    assert_eq!(interval_for(false), 120);
    assert_eq!(interval_for(true), 600);
}

fn supply(kind: &str, status: &str, online: &str) -> Supply {
    Supply { kind: kind.into(), status: status.into(), online: online.into() }
}

#[test]
fn linux_power_supplies_are_read_as_the_kernel_reports_them() {
    // A laptop unplugged.
    let unplugged = [supply("Mains", "", "0"), supply("Battery", "Discharging", "")];
    assert_eq!(linux_on_battery(Some(&unplugged)), Some(true));

    // Plugged in: charging, full, or not charging, the mains is online.
    let plugged = [supply("Mains", "", "1"), supply("Battery", "Discharging", "")];
    assert_eq!(linux_on_battery(Some(&plugged)), Some(false));

    // On a USB-C charger, with the battery still reporting discharge for a
    // moment: the online supply wins.
    let usb = [supply("USB", "", "1"), supply("Battery", "Discharging", "")];
    assert_eq!(linux_on_battery(Some(&usb)), Some(false));

    // A server: no supplies at all, or no battery.
    assert_eq!(linux_on_battery(Some(&[])), Some(false));
    assert_eq!(linux_on_battery(None), None);
}

#[test]
fn the_power_source_is_read_again_once_it_is_old() {
    let mut saver = PowerSaver::new();
    saver.set_enabled(true);
    assert!(saver.needs_reading(0));
    let (interval, note) = saver.full_walk_interval(0, Some(true));
    assert_eq!(interval, 600);
    assert!(note.is_some());
    assert!(!saver.needs_reading(59_999));
    assert!(saver.needs_reading(60_000));
    let (interval, _) = saver.full_walk_interval(60_000, Some(false));
    assert_eq!(interval, 120);
    saver.set_enabled(false);
    assert_eq!(saver.full_walk_interval(200_000, Some(true)).0, 120);
}
