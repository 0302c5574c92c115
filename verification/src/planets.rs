//! Planetary colonies: the status of a colony from its pins, for the
//! "extractors about to stop" view.

use vstd::prelude::*;

verus! {

/// One colony.
#[derive(Debug, Clone, PartialEq)]
pub struct Colony {
    pub planet_id: i64,
    pub solar_system_id: i64,
    pub planet_type: String,
    pub upgrade_level: i64,
    pub num_pins: i64,
    pub last_update: String,
}

/// What an extractor pin is extracting.
#[derive(Debug, Clone, PartialEq)]
pub struct ExtractorDetails {
    pub product_type_id: Option<i64>,
    pub qty_per_cycle: Option<i64>,
    pub cycle_time: Option<i64>,
}

/// One pin of a colony's layout.
#[derive(Debug, Clone, PartialEq)]
pub struct Pin {
    pub pin_id: i64,
    pub type_id: i64,
    /// When the current extractor program ends (extractors only), RFC 3339.
    pub expiry_time: Option<String>,
    pub extractor_details: Option<ExtractorDetails>,
    pub schematic_id: Option<i64>,
}

/// A colony's status.
#[derive(Debug, Clone, PartialEq)]
pub struct ColonyStatus {
    pub planet_id: i64,
    pub solar_system_id: i64,
    pub planet_type: String,
    pub upgrade_level: i64,
    pub num_pins: i64,
    pub extractor_count: usize,
    /// Soonest extractor expiry (as written), if any extractor is running.
    pub soonest_expiry: Option<String>,
    /// Seconds until that soonest expiry (0 if passed or none).
    pub seconds_remaining: i64,
    /// Product type ids being extracted, first-seen order, each once.
    pub products: Vec<i64>,
}

/// Nanoseconds of 3.17 million years: beyond any instant `time` represents.
pub open spec fn time_bound() -> int {
    100_000_000_000_000_000_000_000
}

/// The instant (Unix nanoseconds) `time` parses from an RFC 3339 text, if
/// it parses.
pub uninterp spec fn rfc3339_instant(text: Seq<char>) -> Option<i128>;

/// `time::OffsetDateTime::parse` with the RFC 3339 format, as Unix
/// nanoseconds. The calendar rules are not restated: the result is tied to
/// the text through [`rfc3339_instant`]; it lies within the years `time`
/// represents (at most 999,999 either side of year 0), hence within
/// [`time_bound`].
#[verifier::external_body]
fn parse_rfc3339(text: &str) -> (r: Option<i128>)
    ensures
        r == rfc3339_instant(text@),
        r matches Some(t) ==> -time_bound() < t < time_bound(),
{
    let t = time::OffsetDateTime::parse(text, &time::format_description::well_known::Rfc3339).ok()?;
    Some(t.unix_timestamp_nanos())
}

/// Number of extractor pins (pins with extractor details).
pub open spec fn extractor_count_spec(pins: Seq<Pin>) -> nat
    decreases pins.len(),
{
    if pins.len() == 0 {
        0
    } else {
        extractor_count_spec(pins.drop_last()) + if pins.last().extractor_details is Some {
            1nat
        } else {
            0nat
        }
    }
}

/// The products the extractors name, first-seen order, each once.
pub open spec fn products_spec(pins: Seq<Pin>) -> Seq<i64>
    decreases pins.len(),
{
    if pins.len() == 0 {
        seq![]
    } else {
        let prev = products_spec(pins.drop_last());
        match pins.last().extractor_details {
            Some(ed) => match ed.product_type_id {
                Some(p) => if prev.contains(p) {
                    prev
                } else {
                    prev.push(p)
                },
                None => prev,
            },
            None => prev,
        }
    }
}

/// The soonest parsable expiry of the pins, with its text as written (the
/// first of equally soon ones).
pub open spec fn soonest_spec(pins: Seq<Pin>) -> Option<(i128, Seq<char>)>
    decreases pins.len(),
{
    if pins.len() == 0 {
        None
    } else {
        let prev = soonest_spec(pins.drop_last());
        match pins.last().expiry_time {
            Some(raw) => match rfc3339_instant(raw@) {
                Some(t) => match prev {
                    Some(p) => if t < p.0 {
                        Some((t, raw@))
                    } else {
                        prev
                    },
                    None => Some((t, raw@)),
                },
                None => prev,
            },
            None => prev,
        }
    }
}

/// Whole seconds from `now` until `t` (nanoseconds), 0 once `t` has passed.
pub open spec fn seconds_until(t: int, now: int) -> int {
    if t > now {
        (t - now) / 1_000_000_000
    } else {
        0
    }
}

/// The status of `colony` with layout `pins` at `now` (Unix nanoseconds): the
/// colony's own figures, how many extractors run and what they extract, and
/// the soonest extractor expiry with the whole seconds left until it (0 if
/// it has passed or there is none).
pub fn summarize_colony(colony: &Colony, pins: &[Pin], now: i128) -> (s: ColonyStatus)
    requires
        -time_bound() < now < time_bound(),
    ensures
        s.planet_id == colony.planet_id,
        s.solar_system_id == colony.solar_system_id,
        s.planet_type@ == colony.planet_type@,
        s.upgrade_level == colony.upgrade_level,
        s.num_pins == colony.num_pins,
        s.extractor_count == extractor_count_spec(pins@),
        s.products@ == products_spec(pins@),
        match soonest_spec(pins@) {
            Some((t, raw)) => s.soonest_expiry matches Some(e) && e@ == raw && s.seconds_remaining
                == seconds_until(t as int, now as int),
            None => s.soonest_expiry is None && s.seconds_remaining == 0,
        },
{
    let ghost ps = pins@;
    let mut soonest: Option<(i128, String)> = None;
    let mut extractor_count: usize = 0;
    let mut products: Vec<i64> = Vec::new();
    let mut k: usize = 0;
    while k < pins.len()
        invariant
            ps == pins@,
            k <= ps.len(),
            extractor_count == extractor_count_spec(ps.take(k as int)),
            extractor_count <= k,
            products@ == products_spec(ps.take(k as int)),
            match soonest_spec(ps.take(k as int)) {
                Some((t, raw)) => soonest matches Some(x) && x.0 == t && x.1@ == raw,
                None => soonest is None,
            },
            match soonest {
                Some(x) => -time_bound() < x.0 < time_bound(),
                None => true,
            },
        decreases ps.len() - k,
    {
        let pin = &pins[k];
        proof {
            assert(ps.take(k + 1).drop_last() =~= ps.take(k as int));
            assert(ps.take(k + 1).last() == *pin);
        }
        if let Some(ed) = &pin.extractor_details {
            extractor_count += 1;
            if let Some(p) = ed.product_type_id {
                let mut j: usize = 0;
                while j < products.len() && products[j] != p
                    invariant
                        j <= products@.len(),
                        forall|m: int| 0 <= m < j ==> products@[m] != p,
                    decreases products@.len() - j,
                {
                    j += 1;
                }
                if j == products.len() {
                    products.push(p);
                } else {
                    assert(products@.contains(p)) by {
                        assert(products@[j as int] == p);
                    }
                }
            }
        }
        if let Some(raw) = &pin.expiry_time {
            if let Some(t) = parse_rfc3339(raw.as_str()) {
                let sooner = match &soonest {
                    Some(x) => t < x.0,
                    None => true,
                };
                if sooner {
                    soonest = Some((t, raw.clone()));
                }
            }
        }
        k += 1;
    }
    assert(ps.take(ps.len() as int) =~= ps);
    let (soonest_expiry, seconds_remaining) = match soonest {
        Some((t, raw)) => {
            let secs: i64 = if t > now {
                ((t - now) / 1_000_000_000) as i64
            } else {
                0
            };
            (Some(raw), secs)
        },
        None => (None, 0),
    };
    ColonyStatus {
        planet_id: colony.planet_id,
        solar_system_id: colony.solar_system_id,
        planet_type: colony.planet_type.clone(),
        upgrade_level: colony.upgrade_level,
        num_pins: colony.num_pins,
        extractor_count,
        soonest_expiry,
        seconds_remaining,
        products,
    }
}

} // verus!
