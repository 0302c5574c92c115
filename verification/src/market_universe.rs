//! Curated hub-trade items: liquid, high-value items worth pricing across the
//! trade hubs (T2 modules, drones, capital modules, common consumables). Kept
//! as names, not type ids, so the list survives data-export changes; names
//! resolve to ids when a scan runs.

use vstd::prelude::*;

verus! {

/// Item names to price across hubs, grouped by intent: T2 drones, T2
/// tackle and propulsion, T2 tank, T2 weapons, utility modules,
/// consumables, capital modules.
pub const CURATED_TRADE_ITEMS: [&'static str; 61] = [
    "Hobgoblin II",
    "Hammerhead II",
    "Ogre II",
    "Warrior II",
    "Valkyrie II",
    "Berserker II",
    "Acolyte II",
    "Infiltrator II",
    "Praetor II",
    "Vespa II",
    "Wasp II",
    "Hornet II",
    "Warp Scrambler II",
    "Warp Disruptor II",
    "Stasis Webifier II",
    "1MN Afterburner II",
    "10MN Afterburner II",
    "5MN Microwarpdrive II",
    "50MN Microwarpdrive II",
    "500MN Microwarpdrive II",
    "Damage Control II",
    "Assault Damage Control II",
    "Medium Shield Extender II",
    "Large Shield Extender II",
    "Adaptive Invulnerability Field II",
    "Multispectrum Shield Hardener II",
    "800mm Steel Plates II",
    "1600mm Steel Plates II",
    "Medium Armor Repairer II",
    "Large Armor Repairer II",
    "Multispectrum Energized Membrane II",
    "Reactive Armor Hardener",
    "200mm AutoCannon II",
    "425mm AutoCannon II",
    "220mm Vulcan AutoCannon II",
    "150mm Railgun II",
    "250mm Railgun II",
    "Heavy Assault Missile Launcher II",
    "Rapid Light Missile Launcher II",
    "Heavy Missile Launcher II",
    "Torpedo Launcher II",
    "Sensor Booster II",
    "Tracking Computer II",
    "Signal Amplifier II",
    "Co-Processor II",
    "Nanofiber Internal Structure II",
    "Inertial Stabilizers II",
    "Expanded Cargohold II",
    "Cap Recharger II",
    "Capacitor Power Relay II",
    "Nanite Repair Paste",
    "Mobile Depot",
    "Mobile Tractor Unit",
    "Capital Shield Booster II",
    "Capital Armor Repairer II",
    "Capital Cap Battery II",
    "Capital Shield Extender II",
    "Capital Energy Neutralizer II",
    "Capital Remote Shield Booster II",
    "Capital Remote Armor Repairer II",
    "Capital Ancillary Current Router II",
];

} // verus!
