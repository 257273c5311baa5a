//! Monitor status: the four bytes of mode 01 pid 01.
use vstd::prelude::*;

verus! {

/// Decoded monitor status.
#[derive(Debug, Clone)]
pub struct MonitorStatusResult {
    /// The malfunction lamp is on.
    pub mil_on: bool,
    /// Confirmed trouble codes.
    pub dtc_count: u8,
    /// "gasoline" (spark ignition) or "diesel" (compression ignition).
    pub engine_type: String,
    pub continuous_monitors: ContinuousMonitors,
    /// Which monitors the vehicle has.
    pub non_continuous_availability: NonContinuousMonitors,
    /// Which monitors have completed; on the wire a clear bit stands for
    /// complete.
    pub non_continuous_completeness: NonContinuousMonitors,
}

/// Monitors that always run.
#[derive(Debug, Clone, Copy, PartialEq, Eq, Structural)]
pub struct ContinuousMonitors {
    pub misfire: bool,
    pub fuel_system: bool,
    pub component_monitor: bool,
}

/// Monitors that run on occasion; which of them apply depends on the engine.
#[derive(Debug, Clone, Copy, PartialEq, Eq, Structural)]
pub struct NonContinuousMonitors {
    pub catalyst: Option<bool>,
    pub heated_catalyst: Option<bool>,
    pub evap_system: Option<bool>,
    pub secondary_air: Option<bool>,
    pub oxygen_sensor: Option<bool>,
    pub oxygen_sensor_heater: Option<bool>,
    pub egr_system: Option<bool>,
    pub nmhc_catalyst: Option<bool>,
    pub nox_aftertreatment: Option<bool>,
    pub boost_pressure: Option<bool>,
    pub exhaust_sensor: Option<bool>,
    pub pm_filter: Option<bool>,
    pub egr_vvt: Option<bool>,
}

/// Whether the bit of weight `weight` is set in `b`.
pub open spec fn has_bit(b: u8, weight: u8) -> bool {
    (b / weight) % 2 == 1
}

fn bit(b: u8, weight: u8) -> (r: bool)
    requires
        weight > 0,
    ensures
        r == has_bit(b, weight),
{
    (b / weight) % 2 == 1
}

/// The flags of a spark ignition engine.
pub open spec fn gasoline(b: u8) -> NonContinuousMonitors {
    NonContinuousMonitors {
        catalyst: Some(has_bit(b, 1)),
        heated_catalyst: Some(has_bit(b, 2)),
        evap_system: Some(has_bit(b, 4)),
        secondary_air: Some(has_bit(b, 8)),
        oxygen_sensor: Some(has_bit(b, 32)),
        oxygen_sensor_heater: Some(has_bit(b, 64)),
        egr_system: Some(has_bit(b, 128)),
        nmhc_catalyst: None,
        nox_aftertreatment: None,
        boost_pressure: None,
        exhaust_sensor: None,
        pm_filter: None,
        egr_vvt: None,
    }
}

/// The flags of a compression ignition engine.
pub open spec fn diesel(b: u8) -> NonContinuousMonitors {
    NonContinuousMonitors {
        catalyst: None,
        heated_catalyst: None,
        evap_system: None,
        secondary_air: None,
        oxygen_sensor: None,
        oxygen_sensor_heater: None,
        egr_system: None,
        nmhc_catalyst: Some(has_bit(b, 1)),
        nox_aftertreatment: Some(has_bit(b, 2)),
        boost_pressure: Some(has_bit(b, 8)),
        exhaust_sensor: Some(has_bit(b, 32)),
        pm_filter: Some(has_bit(b, 64)),
        egr_vvt: Some(has_bit(b, 128)),
    }
}

fn parse_gasoline_monitors(b: u8) -> (r: NonContinuousMonitors)
    ensures
        r == gasoline(b),
{
    NonContinuousMonitors {
        catalyst: Some(bit(b, 1)),
        heated_catalyst: Some(bit(b, 2)),
        evap_system: Some(bit(b, 4)),
        secondary_air: Some(bit(b, 8)),
        oxygen_sensor: Some(bit(b, 32)),
        oxygen_sensor_heater: Some(bit(b, 64)),
        egr_system: Some(bit(b, 128)),
        nmhc_catalyst: None,
        nox_aftertreatment: None,
        boost_pressure: None,
        exhaust_sensor: None,
        pm_filter: None,
        egr_vvt: None,
    }
}

fn parse_diesel_monitors(b: u8) -> (r: NonContinuousMonitors)
    ensures
        r == diesel(b),
{
    NonContinuousMonitors {
        catalyst: None,
        heated_catalyst: None,
        evap_system: None,
        secondary_air: None,
        oxygen_sensor: None,
        oxygen_sensor_heater: None,
        egr_system: None,
        nmhc_catalyst: Some(bit(b, 1)),
        nox_aftertreatment: Some(bit(b, 2)),
        boost_pressure: Some(bit(b, 8)),
        exhaust_sensor: Some(bit(b, 32)),
        pm_filter: Some(bit(b, 64)),
        egr_vvt: Some(bit(b, 128)),
    }
}

/// `b` with every bit turned: a completeness byte has its bits clear where the
/// monitors have completed.
pub open spec fn turned(b: u8) -> u8 {
    (0xFF - b) as u8
}

/// Whether `r` is what four bytes say: lamp and code count; continuous monitors
/// and the engine type; availability; completeness, where a clear bit stands
/// for complete.
pub open spec fn is_status(d: Seq<u8>, r: MonitorStatusResult) -> bool {
    let compression = has_bit(d[1], 8);
    &&& r.mil_on == has_bit(d[0], 128)
    &&& r.dtc_count == d[0] % 128
    &&& r.engine_type@ == (if compression {
        "diesel"@
    } else {
        "gasoline"@
    })
    &&& r.continuous_monitors == (ContinuousMonitors {
        misfire: has_bit(d[1], 1),
        fuel_system: has_bit(d[1], 2),
        component_monitor: has_bit(d[1], 4),
    })
    &&& r.non_continuous_availability == (if compression {
        diesel(d[2])
    } else {
        gasoline(d[2])
    })
    &&& r.non_continuous_completeness == (if compression {
        diesel(turned(d[3]))
    } else {
        gasoline(turned(d[3]))
    })
}

/// Reads the monitor status from the data of a reply, the echo stripped; fewer
/// than four bytes say nothing.
pub fn parse_monitor_status(data_bytes: &[u8]) -> (r: Option<MonitorStatusResult>)
    ensures
        r is Some <==> data_bytes@.len() >= 4,
        r matches Some(s) ==> is_status(data_bytes@, s),
{
    if data_bytes.len() < 4 {
        return None;
    }
    let a = data_bytes[0];
    let b = data_bytes[1];
    let compression = bit(b, 8);
    let complete: u8 = 0xFF - data_bytes[3];
    let (availability, completeness) = if compression {
        (parse_diesel_monitors(data_bytes[2]), parse_diesel_monitors(complete))
    } else {
        (parse_gasoline_monitors(data_bytes[2]), parse_gasoline_monitors(complete))
    };
    Some(
        MonitorStatusResult {
            mil_on: bit(a, 128),
            dtc_count: a % 128,
            engine_type: if compression {
                "diesel".to_owned()
            } else {
                "gasoline".to_owned()
            },
            continuous_monitors: ContinuousMonitors {
                misfire: bit(b, 1),
                fuel_system: bit(b, 2),
                component_monitor: bit(b, 4),
            },
            non_continuous_availability: availability,
            non_continuous_completeness: completeness,
        },
    )
}

/// Turning a byte turns each of its bits: what `parse_monitor_status` reports as
/// complete is what the wire leaves clear.
pub proof fn turned_bits(b: u8)
    ensures
        has_bit(turned(b), 1) == !has_bit(b, 1),
        has_bit(turned(b), 2) == !has_bit(b, 2),
        has_bit(turned(b), 4) == !has_bit(b, 4),
        has_bit(turned(b), 8) == !has_bit(b, 8),
        has_bit(turned(b), 32) == !has_bit(b, 32),
        has_bit(turned(b), 64) == !has_bit(b, 64),
        has_bit(turned(b), 128) == !has_bit(b, 128),
{
}

/// A flag by its weight.
pub open spec fn weighed(flag: Option<bool>, weight: int) -> int {
    if flag == Some(true) {
        weight
    } else {
        0
    }
}

/// The bits that the flags of a spark ignition engine stand for, together.
pub open spec fn gasoline_bits(m: NonContinuousMonitors) -> int {
    weighed(m.catalyst, 0x01) + weighed(m.heated_catalyst, 0x02) + weighed(m.evap_system, 0x04)
        + weighed(m.secondary_air, 0x08) + weighed(m.oxygen_sensor, 0x20) + weighed(
        m.oxygen_sensor_heater,
        0x40,
    ) + weighed(m.egr_system, 0x80)
}

/// The bits that the flags of a compression ignition engine stand for, together.
pub open spec fn diesel_bits(m: NonContinuousMonitors) -> int {
    weighed(m.nmhc_catalyst, 0x01) + weighed(m.nox_aftertreatment, 0x02) + weighed(
        m.boost_pressure,
        0x08,
    ) + weighed(m.exhaust_sensor, 0x20) + weighed(m.pm_filter, 0x40) + weighed(m.egr_vvt, 0x80)
}

/// Whether exactly the monitors of a spark ignition engine are told.
pub open spec fn tells_gasoline(m: NonContinuousMonitors) -> bool {
    m.catalyst is Some && m.heated_catalyst is Some && m.evap_system is Some && m.secondary_air
        is Some && m.oxygen_sensor is Some && m.oxygen_sensor_heater is Some && m.egr_system is Some
        && m.nmhc_catalyst is None && m.nox_aftertreatment is None && m.boost_pressure is None
        && m.exhaust_sensor is None && m.pm_filter is None && m.egr_vvt is None
}

/// Whether exactly the monitors of a compression ignition engine are told.
pub open spec fn tells_diesel(m: NonContinuousMonitors) -> bool {
    m.catalyst is None && m.heated_catalyst is None && m.evap_system is None && m.secondary_air
        is None && m.oxygen_sensor is None && m.oxygen_sensor_heater is None && m.egr_system is None
        && m.nmhc_catalyst is Some && m.nox_aftertreatment is Some && m.boost_pressure is Some
        && m.exhaust_sensor is Some && m.pm_filter is Some && m.egr_vvt is Some
}

proof fn lemma_byte_bits(b: u8)
    ensures
        (b % 2) + (b / 2 % 2) * 2 + (b / 4 % 2) * 4 + (b / 8 % 2) * 8 + (b / 32 % 2) * 32 + (b / 64
            % 2) * 64 + (b / 128 % 2) * 128 == b & 0xEF,
        (b % 2) + (b / 2 % 2) * 2 + (b / 8 % 2) * 8 + (b / 32 % 2) * 32 + (b / 64 % 2) * 64 + (b
            / 128 % 2) * 128 == b & 0xEB,
        (b % 2) + (b / 2 % 2) * 2 + (b / 4 % 2) * 4 == b & 0x07,
        (b / 8 % 2 == 1) == (b & 0x08 != 0),
        (b / 128 % 2) * 128 + b % 128 == b,
        (b & 0xEF) + (((0xFF - b) as u8) & 0xEF) == 0xEF,
        (b & 0xEB) + (((0xFF - b) as u8) & 0xEB) == 0xEB,
{
    assert((b % 2) + (b / 2 % 2) * 2 + (b / 4 % 2) * 4 + (b / 8 % 2) * 8 + (b / 32 % 2) * 32 + (b
        / 64 % 2) * 64 + (b / 128 % 2) * 128 == b & 0xEF) by (bit_vector);
    assert((b % 2) + (b / 2 % 2) * 2 + (b / 8 % 2) * 8 + (b / 32 % 2) * 32 + (b / 64 % 2) * 64 + (b
        / 128 % 2) * 128 == b & 0xEB) by (bit_vector);
    assert((b % 2) + (b / 2 % 2) * 2 + (b / 4 % 2) * 4 == b & 0x07) by (bit_vector);
    assert((b / 8 % 2 == 1) == (b & 0x08 != 0)) by (bit_vector);
    assert((b & 0xEF) + (((0xFF - b) as u8) & 0xEF) == 0xEF) by (bit_vector);
    assert((b & 0xEB) + (((0xFF - b) as u8) & 0xEB) == 0xEB) by (bit_vector);
}

/// The status says what the four bytes hold, bit for bit: the lamp and the count
/// make up the first byte; the continuous monitors are the three low bits of the
/// second, whose bit 3 tells the engine; only the monitors of that engine are
/// told, and their flags are the bits of the third byte and, turned, of the
/// fourth.
pub proof fn the_status_is_in_the_bits(d: Seq<u8>, r: MonitorStatusResult)
    requires
        d.len() >= 4,
        is_status(d, r),
    ensures
        (if r.mil_on {
            128int
        } else {
            0
        }) + r.dtc_count == d[0],
        r.dtc_count < 128,
        weighed(Some(r.continuous_monitors.misfire), 1) + weighed(
            Some(r.continuous_monitors.fuel_system),
            2,
        ) + weighed(Some(r.continuous_monitors.component_monitor), 4) == d[1] & 0x07,
        r.engine_type@ == "diesel"@ <==> d[1] & 0x08 != 0,
        r.engine_type@ == "gasoline"@ <==> d[1] & 0x08 == 0,
        d[1] & 0x08 == 0 ==> tells_gasoline(r.non_continuous_availability) && tells_gasoline(
            r.non_continuous_completeness,
        ) && gasoline_bits(r.non_continuous_availability) == d[2] & 0xEF && gasoline_bits(
            r.non_continuous_completeness,
        ) + (d[3] & 0xEF) == 0xEF,
        d[1] & 0x08 != 0 ==> tells_diesel(r.non_continuous_availability) && tells_diesel(
            r.non_continuous_completeness,
        ) && diesel_bits(r.non_continuous_availability) == d[2] & 0xEB && diesel_bits(
            r.non_continuous_completeness,
        ) + (d[3] & 0xEB) == 0xEB,
{
    reveal_strlit("diesel");
    reveal_strlit("gasoline");
    lemma_byte_bits(d[0]);
    lemma_byte_bits(d[1]);
    lemma_byte_bits(d[2]);
    lemma_byte_bits(d[3]);
    lemma_byte_bits(turned(d[3]));
    assert("diesel"@.len() != "gasoline"@.len());
}

} // verus!
