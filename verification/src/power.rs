//! Saving power: the full walk of a root runs less often on battery.
//!
//! Every root is walked in full now and then, whatever its watcher says, since
//! events can be lost. On battery that may take longer; what a watcher reports
//! arrives as fast as ever.
use crate::text::same_text;
use vstd::prelude::*;

verus! {

/// How often a root is walked in full, in seconds.
pub const FULL_WALK_INTERVAL: u64 = 120;

/// How often, while saving power on battery.
pub const FULL_WALK_INTERVAL_ON_BATTERY: u64 = 600;

/// For how long a reading of the power source is trusted, in milliseconds.
pub const POWER_SOURCE_TTL: u64 = 60000;

/// How long a root may go between full walks, in seconds.
pub fn interval_for(saving: bool) -> (r: u64)
    ensures
        r == (if saving {
            FULL_WALK_INTERVAL_ON_BATTERY
        } else {
            FULL_WALK_INTERVAL
        }),
{
    if saving {
        FULL_WALK_INTERVAL_ON_BATTERY
    } else {
        FULL_WALK_INTERVAL
    }
}

/// Something to say in the log.
#[derive(Clone, Copy, Debug, PartialEq, Eq, Structural)]
pub enum PowerNote {
    /// Saving power was turned off.
    Off,
    /// The machine is on battery.
    Battery,
    /// The machine is not.
    Mains,
}

impl PowerNote {
    /// What is said.
    pub open spec fn text(self) -> Seq<char> {
        match self {
            PowerNote::Off => "power saver: off; full walks every 2 minutes"@,
            PowerNote::Battery => "power saver: on battery; full walks every 10 minutes"@,
            PowerNote::Mains => "power saver: on AC power; full walks every 2 minutes"@,
        }
    }

    /// What is said.
    pub fn words(self) -> (r: &'static str)
        ensures
            r@ == self.text(),
    {
        match self {
            PowerNote::Off => "power saver: off; full walks every 2 minutes",
            PowerNote::Battery => "power saver: on battery; full walks every 10 minutes",
            PowerNote::Mains => "power saver: on AC power; full walks every 2 minutes",
        }
    }
}

/// What is known of the power source.
#[derive(Clone, Copy, Debug)]
pub struct PowerSaver {
    /// Whether power is saved at all.
    pub enabled: bool,
    /// When the source was last read, in milliseconds, and whether it was a
    /// battery.
    pub reading: Option<(u64, bool)>,
}

/// Whether a reading is still trusted.
pub open spec fn trusted(reading: Option<(u64, bool)>, now: u64) -> Option<bool> {
    match reading {
        Some((at, battery)) => if now < at || now - at < POWER_SOURCE_TTL {
            Some(battery)
        } else {
            None
        },
        None => None,
    }
}

impl PowerSaver {
    /// Nothing is known, and no power is saved.
    pub fn new() -> (r: PowerSaver)
        ensures
            r == (PowerSaver { enabled: false, reading: None }),
    {
        PowerSaver { enabled: false, reading: None }
    }

    /// Turns saving power on or off. A change forgets the last reading, so
    /// that the next interval asks afresh.
    pub fn set_enabled(&mut self, enabled: bool) -> (r: Option<PowerNote>)
        ensures
            *final(self) == (PowerSaver {
                enabled,
                reading: if old(self).enabled == enabled {
                    old(self).reading
                } else {
                    None
                },
            }),
            r == (if old(self).enabled && !enabled {
                Some(PowerNote::Off)
            } else {
                None
            }),
    {
        let was = self.enabled;
        self.enabled = enabled;
        if was != enabled {
            self.reading = None;
            if !enabled {
                return Some(PowerNote::Off);
            }
        }
        None
    }

    /// Whether the power source has to be read before the interval is known.
    pub fn needs_reading(&self, now: u64) -> (r: bool)
        ensures
            r == (self.enabled && trusted(self.reading, now) is None),
    {
        if !self.enabled {
            return false;
        }
        match self.reading {
            Some((at, _)) => !(now < at || now - at < POWER_SOURCE_TTL),
            None => true,
        }
    }

    /// How long a root may go between full walks, in seconds, given what
    /// reading the power source came to where that was needed; what cannot be
    /// read counts as no battery. A change is said.
    pub fn full_walk_interval(&mut self, now: u64, read: Option<bool>) -> (r: (
        u64,
        Option<PowerNote>,
    ))
        ensures
            r.0 == walk_interval(*old(self), now, read == Some(true)),
            ({
                let fresh = read == Some(true);
                let before = trusted(old(self).reading, now);
                let battery = if before is Some {
                    before->0
                } else {
                    fresh
                };
                &&& r.0 == (if old(self).enabled && battery {
                    FULL_WALK_INTERVAL_ON_BATTERY
                } else {
                    FULL_WALK_INTERVAL
                })
                &&& if old(self).enabled && before is None {
                    &&& *final(self) == (PowerSaver {
                        enabled: true,
                        reading: Some((now, fresh)),
                    })
                    &&& r.1 == (if old(self).reading matches Some((_, was)) && was == fresh {
                        None
                    } else if fresh {
                        Some(PowerNote::Battery)
                    } else {
                        Some(PowerNote::Mains)
                    })
                } else {
                    *final(self) == *old(self) && r.1 is None
                }
            }),
    {
        if !self.enabled {
            return (interval_for(false), None);
        }
        if let Some((at, battery)) = self.reading {
            if now < at || now - at < POWER_SOURCE_TTL {
                return (interval_for(battery), None);
            }
        }
        let battery = match read {
            Some(battery) => battery,
            None => false,
        };
        let same = match self.reading {
            Some((_, was)) => was == battery,
            None => false,
        };
        let note = if same {
            None
        } else if battery {
            Some(PowerNote::Battery)
        } else {
            Some(PowerNote::Mains)
        };
        self.reading = Some((now, battery));
        (interval_for(battery), note)
    }
}

/// A power supply as the kernel reports it.
#[derive(Debug)]
pub struct Supply {
    /// What it is.
    pub kind: String,
    /// What a battery does.
    pub status: String,
    /// Whether another supply is there.
    pub online: String,
}

/// Whether a supply is a battery that runs down.
pub open spec fn runs_down(supply: Supply) -> bool {
    supply.kind@ == "Battery"@ && supply.status@ == "Discharging"@
}

/// Whether a supply is one that is plugged in.
pub open spec fn plugged_in(supply: Supply) -> bool {
    supply.kind@ != "Battery"@ && supply.online@ == "1"@
}

/// Whether supplies mean that a machine is on battery: one runs down, and none
/// is plugged in.
pub open spec fn means_battery(supplies: Seq<Supply>) -> bool {
    &&& forall|i: int| 0 <= i < supplies.len() ==> !plugged_in(#[trigger] supplies[i])
    &&& exists|i: int| 0 <= i < supplies.len() && runs_down(#[trigger] supplies[i])
}

/// Whether a machine is on battery, by its power supplies where they could be
/// listed. One without a battery is not.
pub fn linux_on_battery(supplies: Option<&[Supply]>) -> (r: Option<bool>)
    ensures
        match supplies {
            Some(list) => r == Some(means_battery(list@)),
            None => r is None,
        },
{
    let list = match supplies {
        Some(list) => list,
        None => {
            return None;
        },
    };
    let mut discharging = false;
    let mut i: usize = 0;
    while i < list.len()
        invariant
            i <= list@.len(),
            supplies == Some(list),
            forall|k: int| 0 <= k < i ==> !plugged_in(#[trigger] list@[k]),
            discharging == (exists|k: int| 0 <= k < i && runs_down(#[trigger] list@[k])),
        decreases list@.len() - i,
    {
        let supply = &list[i];
        if same_text(supply.kind.as_str(), "Battery") {
            if same_text(supply.status.as_str(), "Discharging") {
                assert(runs_down(list@[i as int]));
                discharging = true;
            }
        } else if same_text(supply.online.as_str(), "1") {
            assert(plugged_in(list@[i as int]));
            return Some(false);
        }
        i += 1;
    }
    Some(discharging)
}

/// How long a root may go between full walks, in seconds.
pub open spec fn walk_interval(saver: PowerSaver, now: u64, fresh: bool) -> u64 {
    let battery = match trusted(saver.reading, now) {
        Some(battery) => battery,
        None => fresh,
    };
    if saver.enabled && battery {
        FULL_WALK_INTERVAL_ON_BATTERY
    } else {
        FULL_WALK_INTERVAL
    }
}

/// A root is walked in full every two minutes, and every ten where power is
/// saved and the machine is on battery; by a reading of the power source that
/// is less than a minute old, and by a new one otherwise.
pub proof fn law_full_walks_are_rarer_on_battery(
    reading: Option<(u64, bool)>,
    at: u64,
    battery: bool,
    now: u64,
    fresh: bool,
)
    ensures
        walk_interval(PowerSaver { enabled: false, reading }, now, fresh) == 120,
        walk_interval(PowerSaver { enabled: true, reading: None }, now, fresh) == (if fresh {
            600u64
        } else {
            120
        }),
        now - at < 60000 ==> walk_interval(
            PowerSaver { enabled: true, reading: Some((at, battery)) },
            now,
            fresh,
        ) == (if battery {
            600u64
        } else {
            120
        }),
        now - at >= 60000 ==> walk_interval(
            PowerSaver { enabled: true, reading: Some((at, battery)) },
            now,
            fresh,
        ) == (if fresh {
            600u64
        } else {
            120
        }),
{
}

/// A machine is on battery exactly where no supply that is no battery is
/// online, and some battery is being discharged.
pub proof fn law_a_machine_is_on_battery_where_nothing_feeds_it(supplies: Seq<Supply>, i: int)
    requires
        0 <= i < supplies.len(),
    ensures
        supplies[i].kind@ != "Battery"@ && supplies[i].online@ == "1"@ ==> !means_battery(supplies),
        (forall|k: int|
            0 <= k < supplies.len() ==> (#[trigger] supplies[k]).kind@ == "Battery"@
                || supplies[k].online@ != "1"@) && supplies[i].kind@ == "Battery"@
            && supplies[i].status@ == "Discharging"@ ==> means_battery(supplies),
        (forall|k: int|
            0 <= k < supplies.len() ==> (#[trigger] supplies[k]).kind@ != "Battery"@
                || supplies[k].status@ != "Discharging"@) ==> !means_battery(supplies),
{
    if supplies[i].kind@ != "Battery"@ && supplies[i].online@ == "1"@ {
        assert(plugged_in(supplies[i]));
    }
    if supplies[i].kind@ == "Battery"@ && supplies[i].status@ == "Discharging"@ {
        assert(runs_down(supplies[i]));
    }
}

} // verus!
