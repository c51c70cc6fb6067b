//! The design matrix handed to the regression: one row of 19 columns per
//! record and the win rates as the target. Orthodox is the baseline stance
//! and flyweight the baseline weight class; neither has a column.

use vstd::prelude::*;
use crate::numeric::SCALE;
use crate::preprocess::{CleanRecord, WeightClass};

verus! {

/// Number of columns of the design matrix.
pub const NUM_DESIGN_COLUMNS: usize = 19;

/// One whole unit when `b` holds, else 0.
pub open spec fn indicator(b: bool) -> i128 {
    if b { SCALE as i128 } else { 0 }
}

/// The design row of `r`, column by column.
pub open spec fn design_row_spec(r: CleanRecord) -> Seq<i128> {
    seq![
        r.is_southpaw,
        r.is_switch,
        indicator(r.weight_class == WeightClass::Bantamweight),
        indicator(r.weight_class == WeightClass::Featherweight),
        indicator(r.weight_class == WeightClass::Lightweight),
        indicator(r.weight_class == WeightClass::Welterweight),
        indicator(r.weight_class == WeightClass::Middleweight),
        indicator(r.weight_class == WeightClass::LightHeavyweight),
        indicator(r.weight_class == WeightClass::Heavyweight),
        r.weight_height_ratio,
        r.reach_height_ratio,
        r.submission_per_takedown,
        r.age,
        r.significant_strikes_lpm,
        r.strike_diff,
        r.takedown_lpm,
        r.submission_lpm,
        r.takedown_accuracy,
        r.takedown_defense,
    ]
}

/// The name of design column `k`.
pub open spec fn column_name_spec(k: int) -> Seq<char> {
    if k == 0 { "is_southpaw"@ }
    else if k == 1 { "is_switch"@ }
    else if k == 2 { "wc_bantamweight"@ }
    else if k == 3 { "wc_featherweight"@ }
    else if k == 4 { "wc_lightweight"@ }
    else if k == 5 { "wc_welterweight"@ }
    else if k == 6 { "wc_middleweight"@ }
    else if k == 7 { "wc_light_heavyweight"@ }
    else if k == 8 { "wc_heavyweight"@ }
    else if k == 9 { "weight_height_ratio"@ }
    else if k == 10 { "reach_height_ratio"@ }
    else if k == 11 { "submission_per_takedown"@ }
    else if k == 12 { "age"@ }
    else if k == 13 { "significant_strikes_lpm"@ }
    else if k == 14 { "strike_diff"@ }
    else if k == 15 { "takedown_lpm"@ }
    else if k == 16 { "submission_lpm"@ }
    else if k == 17 { "takedown_accuracy"@ }
    else { "takedown_defense"@ }
}

/// The name of design column `k`.
pub fn column_name(k: usize) -> (r: &'static str)
    requires
        k < NUM_DESIGN_COLUMNS,
    ensures
        r@ == column_name_spec(k as int),
{
    if k == 0 { "is_southpaw" }
    else if k == 1 { "is_switch" }
    else if k == 2 { "wc_bantamweight" }
    else if k == 3 { "wc_featherweight" }
    else if k == 4 { "wc_lightweight" }
    else if k == 5 { "wc_welterweight" }
    else if k == 6 { "wc_middleweight" }
    else if k == 7 { "wc_light_heavyweight" }
    else if k == 8 { "wc_heavyweight" }
    else if k == 9 { "weight_height_ratio" }
    else if k == 10 { "reach_height_ratio" }
    else if k == 11 { "submission_per_takedown" }
    else if k == 12 { "age" }
    else if k == 13 { "significant_strikes_lpm" }
    else if k == 14 { "strike_diff" }
    else if k == 15 { "takedown_lpm" }
    else if k == 16 { "submission_lpm" }
    else if k == 17 { "takedown_accuracy" }
    else { "takedown_defense" }
}

fn indicator_of(b: bool) -> (r: i128)
    ensures
        r == indicator(b),
{
    if b { SCALE as i128 } else { 0 }
}

/// The design row of one record.
pub fn design_row(r: &CleanRecord) -> (v: Vec<i128>)
    ensures
        v@ == design_row_spec(*r),
{
    let wc = r.weight_class;
    let mut v: Vec<i128> = Vec::new();
    v.push(r.is_southpaw);
    v.push(r.is_switch);
    v.push(indicator_of(wc == WeightClass::Bantamweight));
    v.push(indicator_of(wc == WeightClass::Featherweight));
    v.push(indicator_of(wc == WeightClass::Lightweight));
    v.push(indicator_of(wc == WeightClass::Welterweight));
    v.push(indicator_of(wc == WeightClass::Middleweight));
    v.push(indicator_of(wc == WeightClass::LightHeavyweight));
    v.push(indicator_of(wc == WeightClass::Heavyweight));
    v.push(r.weight_height_ratio);
    v.push(r.reach_height_ratio);
    v.push(r.submission_per_takedown);
    v.push(r.age);
    v.push(r.significant_strikes_lpm);
    v.push(r.strike_diff);
    v.push(r.takedown_lpm);
    v.push(r.submission_lpm);
    v.push(r.takedown_accuracy);
    v.push(r.takedown_defense);
    assert(v@ =~= design_row_spec(*r));
    v
}

/// The design rows of all records, and the win rates as the target.
pub fn design_matrix(records: &[CleanRecord]) -> (m: (Vec<Vec<i128>>, Vec<i128>))
    ensures
        m.0.len() == records.len(),
        m.1.len() == records.len(),
        forall|i: int| 0 <= i < records.len() ==> (#[trigger] m.0@[i])@ == design_row_spec(records@[i]),
        forall|i: int| 0 <= i < records.len() ==> #[trigger] m.1@[i] == records@[i].win_rate,
{
    let mut rows: Vec<Vec<i128>> = Vec::new();
    let mut target: Vec<i128> = Vec::new();
    let mut i: usize = 0;
    while i < records.len()
        invariant
            i <= records.len(),
            rows.len() == i,
            target.len() == i,
            forall|j: int| 0 <= j < i ==> (#[trigger] rows@[j])@ == design_row_spec(records@[j]),
            forall|j: int| 0 <= j < i ==> #[trigger] target@[j] == records@[j].win_rate,
        decreases records.len() - i,
    {
        rows.push(design_row(&records[i]));
        target.push(records[i].win_rate);
        i = i + 1;
    }
    (rows, target)
}

} // verus!
