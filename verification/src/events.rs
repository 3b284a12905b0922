//! Economic-calendar event rows.
//!
//! An event row carries its raw text fields; the impact level is decoded
//! exactly, and the start text is parsed into a timestamp through the
//! calendar collaborator.

use crate::vector_utils::contains_val;
use crate::vector_utils::Stamp;
use vstd::prelude::*;

verus! {

/// One row of the calendar feed, as read from its raw text fields.
#[derive(Clone, Debug)]
pub struct EventRow {
    pub _id: String,
    pub _start: String,
    pub name: String,
    pub _impact: String,
    pub currency: String,
}

/// Impact level encoded by the `_impact` text: `LOW`, `MED` and `HIGH` map
/// to 1, 2 and 3; anything else to 0.
pub open spec fn impact_spec(impact: Seq<char>) -> i32 {
    if impact == "LOW"@ {
        1i32
    } else if impact == "MED"@ {
        2i32
    } else if impact == "HIGH"@ {
        3i32
    } else {
        0i32
    }
}

/// What `NaiveDateTime::parse_from_str` with the `%m/%d/%Y %H:%M:%S` format
/// makes of a text: `None` when the text does not parse, otherwise the day
/// number and the seconds past midnight. A pure function of the text.
pub uninterp spec fn parse_mdy_hms(s: Seq<char>) -> Option<(i64, u32)>;

/// Relies on `chrono::NaiveDateTime::parse_from_str` (month/day/year,
/// then hours:minutes:seconds): success and value depend on the text alone;
/// the day number is the proleptic Gregorian day count and the seconds past
/// midnight are below one day.
#[verifier::external_body]
pub(crate) fn parse_event_datetime(s: &str) -> (r: Option<Stamp>)
    ensures
        (r is Some) == (parse_mdy_hms(s@) is Some),
        r is Some ==> {
            let p = parse_mdy_hms(s@)->Some_0;
            r->Some_0.day == p.0 && r->Some_0.secs == p.1 && p.1 < 86400
        },
{
    match chrono::NaiveDateTime::parse_from_str(s, "%m/%d/%Y %H:%M:%S") {
        Ok(dt) => Some(
            Stamp {
                day: chrono::Datelike::num_days_from_ce(&dt.date()) as i64,
                secs: chrono::Timelike::num_seconds_from_midnight(&dt.time()),
            },
        ),
        Err(_) => None,
    }
}

impl EventRow {
    /// The row's timestamp, when its start text parses.
    pub fn datetime(&self) -> (r: Option<Stamp>)
        ensures
            (r is Some) == (parse_mdy_hms(self._start@) is Some),
            r is Some ==> {
                let p = parse_mdy_hms(self._start@)->Some_0;
                r->Some_0.day == p.0 && r->Some_0.secs == p.1 && r->Some_0.wf()
            },
    {
        parse_event_datetime(self._start.as_str())
    }

    /// The row's impact level.
    pub fn impact(&self) -> (r: i32)
        ensures
            r == impact_spec(self._impact@),
    {
        if self._impact == "LOW".to_owned() {
            1
        } else if self._impact == "MED".to_owned() {
            2
        } else if self._impact == "HIGH".to_owned() {
            3
        } else {
            0
        }
    }
}

/// Indices of the rows whose impact level is one of `impacts`, ascending.
pub fn filter_events_by_impact(rows: &Vec<EventRow>, impacts: &Vec<i32>) -> (kept: Vec<usize>)
    ensures
        forall|k: int|
            0 <= k < kept@.len() ==> kept@[k] < rows@.len() && impacts@.contains(
                impact_spec(rows@[#[trigger] kept@[k] as int]._impact@),
            ),
        forall|i: int, j: int| 0 <= i < j < kept@.len() ==> kept@[i] < kept@[j],
        forall|i: int|
            0 <= i < rows@.len() && impacts@.contains(impact_spec(rows@[i]._impact@)) ==> exists|
                k: int,
            | 0 <= k < kept@.len() && #[trigger] kept@[k] as int == i,
{
    let mut kept: Vec<usize> = Vec::new();
    let mut i: usize = 0;
    while i < rows.len()
        invariant
            i <= rows@.len(),
            forall|k: int|
                0 <= k < kept@.len() ==> kept@[k] < i && impacts@.contains(
                    impact_spec(rows@[#[trigger] kept@[k] as int]._impact@),
                ),
            forall|i2: int, j2: int| 0 <= i2 < j2 < kept@.len() ==> kept@[i2] < kept@[j2],
            forall|i2: int|
                0 <= i2 < i && impacts@.contains(impact_spec(rows@[i2]._impact@)) ==> exists|
                    k: int,
                | 0 <= k < kept@.len() && #[trigger] kept@[k] as int == i2,
        decreases rows@.len() - i,
    {
        let imp = rows[i].impact();
        if contains_val(impacts, imp) {
            let ghost old_kept = kept@;
            kept.push(i);
            proof {
                assert forall|i2: int|
                    0 <= i2 < i + 1 && impacts@.contains(impact_spec(rows@[i2]._impact@)) implies
                    exists|k: int| 0 <= k < kept@.len() && #[trigger] kept@[k] as int == i2 by {
                    if i2 < i {
                        let k = choose|k: int|
                            0 <= k < old_kept.len() && #[trigger] old_kept[k] as int == i2;
                        assert(kept@[k] as int == i2);
                    } else {
                        assert(kept@[kept@.len() - 1] as int == i2);
                    }
                }
            }
        }
        i = i + 1;
    }
    kept
}

} // verus!
