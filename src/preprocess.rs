//! The feature engineer: validity filtering, derived features and
//! min-max normalization over the surviving records.
//!
//! A record survives only with a positive weight, a positive height and a
//! known stance. Its features are derived in fixed point with floored
//! divisions, and every division by zero is replaced by 0. Normalization
//! then rescales each feature over all survivors.

use vstd::prelude::*;
use crate::date::{Date, age_in_years, age_on, today};
use crate::loader::{FighterRecord, FighterRecordView, bytes, load_records, records_view};
use crate::numeric::SCALE;

verus! {

/// A fighting stance.
#[derive(Clone, Copy, Debug, PartialEq, Eq, Structural)]
pub enum Stance {
    Orthodox,
    Southpaw,
    Switch,
}

/// A stance label that is none of the three known ones, kept as it was read.
#[derive(Clone, Debug, PartialEq, Eq)]
pub struct UnknownStance {
    pub label: String,
}

/// The stance a label names, matched exactly and case-sensitively.
pub open spec fn stance_of(b: Seq<u8>) -> Option<Stance> {
    if b == seq![79u8, 114u8, 116u8, 104u8, 111u8, 100u8, 111u8, 120u8] {
        Some(Stance::Orthodox)
    } else if b == seq![83u8, 111u8, 117u8, 116u8, 104u8, 112u8, 97u8, 119u8] {
        Some(Stance::Southpaw)
    } else if b == seq![83u8, 119u8, 105u8, 116u8, 99u8, 104u8] {
        Some(Stance::Switch)
    } else {
        None
    }
}

impl Stance {
    /// Reads `Orthodox`, `Southpaw` or `Switch`.
    pub fn from_label(s: &str) -> (r: Option<Stance>)
        ensures
            r == stance_of(bytes(s@)),
    {
        let b = s.as_bytes();
        if b.len() == 8 && b[0] == 79 && b[1] == 114 && b[2] == 116 && b[3] == 104 && b[4] == 111
            && b[5] == 100 && b[6] == 111 && b[7] == 120 {
            assert(b@ =~= seq![79u8, 114u8, 116u8, 104u8, 111u8, 100u8, 111u8, 120u8]);
            Some(Stance::Orthodox)
        } else if b.len() == 8 && b[0] == 83 && b[1] == 111 && b[2] == 117 && b[3] == 116 && b[4]
            == 104 && b[5] == 112 && b[6] == 97 && b[7] == 119 {
            assert(b@ =~= seq![83u8, 111u8, 117u8, 116u8, 104u8, 112u8, 97u8, 119u8]);
            Some(Stance::Southpaw)
        } else if b.len() == 6 && b[0] == 83 && b[1] == 119 && b[2] == 105 && b[3] == 116 && b[4]
            == 99 && b[5] == 104 {
            assert(b@ =~= seq![83u8, 119u8, 105u8, 116u8, 99u8, 104u8]);
            Some(Stance::Switch)
        } else {
            proof {
                if b@ == seq![79u8, 114u8, 116u8, 104u8, 111u8, 100u8, 111u8, 120u8] {
                    assert(b@[7] == 120u8);
                }
                if b@ == seq![83u8, 111u8, 117u8, 116u8, 104u8, 112u8, 97u8, 119u8] {
                    assert(b@[7] == 119u8);
                }
                if b@ == seq![83u8, 119u8, 105u8, 116u8, 99u8, 104u8] {
                    assert(b@[5] == 104u8);
                }
            }
            None
        }
    }
}

impl core::str::FromStr for Stance {
    type Err = UnknownStance;

    fn from_str(s: &str) -> (r: Result<Stance, UnknownStance>)
        ensures
            r matches Ok(st) ==> stance_of(bytes(s@)) == Some(st),
            r matches Err(e) ==> stance_of(bytes(s@)) is None && e.label@ == s@,
    {
        match Stance::from_label(s) {
            Some(st) => Ok(st),
            None => Err(UnknownStance { label: s.to_owned() }),
        }
    }
}

/// The label of each stance, as bytes.
pub open spec fn stance_label(st: Stance) -> Seq<u8> {
    match st {
        Stance::Orthodox => seq![79u8, 114u8, 116u8, 104u8, 111u8, 100u8, 111u8, 120u8],
        Stance::Southpaw => seq![83u8, 111u8, 117u8, 116u8, 104u8, 112u8, 97u8, 119u8],
        Stance::Switch => seq![83u8, 119u8, 105u8, 116u8, 99u8, 104u8],
    }
}

/// Each stance's label reads back as that stance, and no two stances share
/// a label.
pub proof fn lemma_stance_label_round_trip(st: Stance)
    ensures
        stance_of(stance_label(st)) == Some(st),
{
    let o = seq![79u8, 114u8, 116u8, 104u8, 111u8, 100u8, 111u8, 120u8];
    let p = seq![83u8, 111u8, 117u8, 116u8, 104u8, 112u8, 97u8, 119u8];
    let w = seq![83u8, 119u8, 105u8, 116u8, 99u8, 104u8];
    assert(o[0] != p[0]);
    assert(o.len() != w.len());
    assert(p[1] != w[1]);
}

/// Weight classes by the fighter's weight.
#[derive(Clone, Copy, Debug, PartialEq, Eq, Structural)]
pub enum WeightClass {
    Flyweight,
    Bantamweight,
    Featherweight,
    Lightweight,
    Welterweight,
    Middleweight,
    LightHeavyweight,
    Heavyweight,
}

/// The class of a weight in fixed-point kilograms: below 56.7, 61.2, 65.8,
/// 70.3, 77.1, 83.9 and 93.0 in turn, and heavyweight from 93.0 up.
pub open spec fn weight_class_spec(w: int) -> WeightClass {
    if w < 56_700_000 {
        WeightClass::Flyweight
    } else if w < 61_200_000 {
        WeightClass::Bantamweight
    } else if w < 65_800_000 {
        WeightClass::Featherweight
    } else if w < 70_300_000 {
        WeightClass::Lightweight
    } else if w < 77_100_000 {
        WeightClass::Welterweight
    } else if w < 83_900_000 {
        WeightClass::Middleweight
    } else if w < 93_000_000 {
        WeightClass::LightHeavyweight
    } else {
        WeightClass::Heavyweight
    }
}

/// Buckets a weight in fixed-point kilograms.
pub fn weight_class_of(w: u64) -> (r: WeightClass)
    ensures
        r == weight_class_spec(w as int),
{
    if w < 56_700_000 {
        WeightClass::Flyweight
    } else if w < 61_200_000 {
        WeightClass::Bantamweight
    } else if w < 65_800_000 {
        WeightClass::Featherweight
    } else if w < 70_300_000 {
        WeightClass::Lightweight
    } else if w < 77_100_000 {
        WeightClass::Welterweight
    } else if w < 83_900_000 {
        WeightClass::Middleweight
    } else if w < 93_000_000 {
        WeightClass::LightHeavyweight
    } else {
        WeightClass::Heavyweight
    }
}

/// A record that survived filtering, with its engineered features in
/// fixed-point units. After normalization every feature but the stance
/// indicators lies between 0 and `SCALE`.
#[derive(Clone, Copy, Debug, PartialEq, Eq, Structural)]
pub struct CleanRecord {
    pub stance: Stance,
    pub is_orthodox: i128,
    pub is_southpaw: i128,
    pub is_switch: i128,
    pub weight_height_ratio: i128,
    pub reach_height_ratio: i128,
    pub submission_per_takedown: i128,
    pub weight_class: WeightClass,
    pub age: i128,
    pub significant_strikes_lpm: i128,
    pub strike_diff: i128,
    pub takedown_lpm: i128,
    pub submission_lpm: i128,
    pub takedown_accuracy: i128,
    pub takedown_defense: i128,
    pub win_rate: i128,
}

/// The numeric features that normalization rescales.
#[derive(Clone, Copy, Debug, PartialEq, Eq, Structural)]
pub enum Feature {
    WeightHeightRatio,
    ReachHeightRatio,
    SubmissionPerTakedown,
    Age,
    SignificantStrikesLpm,
    StrikeDiff,
    TakedownLpm,
    SubmissionLpm,
    TakedownAccuracy,
    TakedownDefense,
    WinRate,
}

pub open spec fn feature_of(r: CleanRecord, f: Feature) -> int {
    match f {
        Feature::WeightHeightRatio => r.weight_height_ratio as int,
        Feature::ReachHeightRatio => r.reach_height_ratio as int,
        Feature::SubmissionPerTakedown => r.submission_per_takedown as int,
        Feature::Age => r.age as int,
        Feature::SignificantStrikesLpm => r.significant_strikes_lpm as int,
        Feature::StrikeDiff => r.strike_diff as int,
        Feature::TakedownLpm => r.takedown_lpm as int,
        Feature::SubmissionLpm => r.submission_lpm as int,
        Feature::TakedownAccuracy => r.takedown_accuracy as int,
        Feature::TakedownDefense => r.takedown_defense as int,
        Feature::WinRate => r.win_rate as int,
    }
}

impl CleanRecord {
    /// The value of one normalized feature.
    pub fn feature(&self, f: Feature) -> (r: i128)
        ensures
            r == feature_of(*self, f),
    {
        match f {
            Feature::WeightHeightRatio => self.weight_height_ratio,
            Feature::ReachHeightRatio => self.reach_height_ratio,
            Feature::SubmissionPerTakedown => self.submission_per_takedown,
            Feature::Age => self.age,
            Feature::SignificantStrikesLpm => self.significant_strikes_lpm,
            Feature::StrikeDiff => self.strike_diff,
            Feature::TakedownLpm => self.takedown_lpm,
            Feature::SubmissionLpm => self.submission_lpm,
            Feature::TakedownAccuracy => self.takedown_accuracy,
            Feature::TakedownDefense => self.takedown_defense,
            Feature::WinRate => self.win_rate,
        }
    }
}

/// Number of normalized features.
pub const NUM_FEATURES: usize = 11;

/// The normalized features in their fixed order.
pub open spec fn feature_at_spec(k: int) -> Feature {
    if k == 0 {
        Feature::WeightHeightRatio
    } else if k == 1 {
        Feature::ReachHeightRatio
    } else if k == 2 {
        Feature::SubmissionPerTakedown
    } else if k == 3 {
        Feature::Age
    } else if k == 4 {
        Feature::SignificantStrikesLpm
    } else if k == 5 {
        Feature::StrikeDiff
    } else if k == 6 {
        Feature::TakedownLpm
    } else if k == 7 {
        Feature::SubmissionLpm
    } else if k == 8 {
        Feature::TakedownAccuracy
    } else if k == 9 {
        Feature::TakedownDefense
    } else {
        Feature::WinRate
    }
}

/// The `k`-th normalized feature.
pub fn feature_at(k: usize) -> (r: Feature)
    ensures
        r == feature_at_spec(k as int),
{
    if k == 0 {
        Feature::WeightHeightRatio
    } else if k == 1 {
        Feature::ReachHeightRatio
    } else if k == 2 {
        Feature::SubmissionPerTakedown
    } else if k == 3 {
        Feature::Age
    } else if k == 4 {
        Feature::SignificantStrikesLpm
    } else if k == 5 {
        Feature::StrikeDiff
    } else if k == 6 {
        Feature::TakedownLpm
    } else if k == 7 {
        Feature::SubmissionLpm
    } else if k == 8 {
        Feature::TakedownAccuracy
    } else if k == 9 {
        Feature::TakedownDefense
    } else {
        Feature::WinRate
    }
}

/// Largest magnitude that an engineered feature can reach.
pub const FEATURE_BOUND: i128 = 1_000_000_000_000_000_000_000_000_000;

/// Every normalized feature of `r` lies within `FEATURE_BOUND`.
pub open spec fn within_bound(r: CleanRecord) -> bool {
    forall|f: Feature| -FEATURE_BOUND <= #[trigger] feature_of(r, f) <= FEATURE_BOUND
}

/// The three stance indicators: exactly the one for `r.stance` is one whole unit.
pub open spec fn one_hot_ok(r: CleanRecord) -> bool {
    &&& r.is_orthodox == (if r.stance == Stance::Orthodox { SCALE as i128 } else { 0 })
    &&& r.is_southpaw == (if r.stance == Stance::Southpaw { SCALE as i128 } else { 0 })
    &&& r.is_switch == (if r.stance == Stance::Switch { SCALE as i128 } else { 0 })
}

/// Floor of `a / b` with `0` in place of a division by zero.
pub open spec fn guarded_div(a: int, b: int) -> int {
    if b > 0 { a / b } else { 0 }
}

/// The cleaned record that a raw record makes on the date `today`, or
/// `None` when it is filtered out: weight or height missing or zero, or a
/// stance outside the three known labels. Missing measurements and rates
/// count as zero.
pub open spec fn engineer_spec(v: FighterRecordView, today: Date) -> Option<CleanRecord> {
    let weight = v.weight_in_kg.unwrap_or(0) as int;
    let height = v.height_cm.unwrap_or(0) as int;
    let reach = v.reach_in_cm.unwrap_or(0) as int;
    let s_lpm = v.significant_strikes_landed_per_minute.unwrap_or(0) as int;
    let s_abs = v.significant_strikes_absorbed_per_minute.unwrap_or(0) as int;
    let td15 = v.average_takedowns_landed_per_15_minutes.unwrap_or(0) as int;
    let sub15 = v.average_submissions_attempted_per_15_minutes.unwrap_or(0) as int;
    let td_acc = v.takedown_accuracy.unwrap_or(0) as int;
    let td_def = v.takedown_defense.unwrap_or(0) as int;
    let td_lpm = td15 / 15;
    let sub_lpm = sub15 / 15;
    let total = v.wins + v.losses + v.draws;
    if weight <= 0 || height <= 0 {
        None
    } else {
        match stance_of(bytes(v.stance)) {
            None => None,
            Some(st) => Some(
                CleanRecord {
                    stance: st,
                    is_orthodox: if st == Stance::Orthodox { SCALE as i128 } else { 0 },
                    is_southpaw: if st == Stance::Southpaw { SCALE as i128 } else { 0 },
                    is_switch: if st == Stance::Switch { SCALE as i128 } else { 0 },
                    weight_height_ratio: (weight * SCALE / height) as i128,
                    reach_height_ratio: (reach * SCALE / height) as i128,
                    submission_per_takedown: guarded_div(sub_lpm * SCALE, td_lpm) as i128,
                    weight_class: weight_class_spec(weight),
                    age: (age_on(v.date_of_birth, today) * SCALE) as i128,
                    significant_strikes_lpm: s_lpm as i128,
                    strike_diff: (s_lpm - s_abs) as i128,
                    takedown_lpm: td_lpm as i128,
                    submission_lpm: sub_lpm as i128,
                    takedown_accuracy: td_acc as i128,
                    takedown_defense: td_def as i128,
                    win_rate: guarded_div(v.wins * SCALE, total) as i128,
                },
            ),
        }
    }
}

proof fn lemma_div_within(a: int, b: int)
    requires
        a >= 0,
        b >= 1,
    ensures
        0 <= a / b <= a,
{
    assert(a / b <= a) by (nonlinear_arith)
        requires
            a >= 0,
            b >= 1,
    {
        vstd::arithmetic::div_mod::lemma_div_is_ordered_by_denominator(a, 1, b);
    }
    vstd::arithmetic::div_mod::lemma_div_pos_is_pos(a, b);
}

proof fn lemma_div_magnitude(a: int, b: int)
    requires
        b >= 1,
    ensures
        -(if a < 0 { -a } else { a }) <= a / b <= (if a < 0 { -a } else { a }),
{
    if a >= 0 {
        lemma_div_within(a, b);
    } else {
        lemma_div_within(-a, b);
        vstd::arithmetic::div_mod::lemma_fundamental_div_mod(a, b);
        vstd::arithmetic::div_mod::lemma_fundamental_div_mod(-a, b);
        let q = a / b;
        let r = a % b;
        assert(q <= 0) by (nonlinear_arith)
            requires
                a == b * q + r,
                0 <= r < b,
                a < 0,
                b >= 1,
        ;
        if q + 1 <= 0 {
            assert(b * (q + 1) <= q + 1) by (nonlinear_arith)
                requires
                    q + 1 <= 0,
                    b >= 1,
            ;
            assert(a < b * (q + 1)) by (nonlinear_arith)
                requires
                    a == b * q + r,
                    r < b,
            ;
        }
    }
}

/// Floor of `a / b` for a positive `b`.
fn floor_div(a: i128, b: i128) -> (r: i128)
    requires
        b >= 1,
        -FEATURE_BOUND <= a <= FEATURE_BOUND,
    ensures
        r == a / b,
{
    if a >= 0 {
        a / b
    } else {
        let n = -a;
        let q = n / b;
        let m = n % b;
        proof {
            vstd::arithmetic::div_mod::lemma_fundamental_div_mod(n as int, b as int);
            lemma_div_within(n as int, b as int);
        }
        if m == 0 {
            proof {
                assert(a == (-q) * b + 0) by (nonlinear_arith)
                    requires
                        n == b * q + m,
                        m == 0,
                        a == -n,
                ;
                vstd::arithmetic::div_mod::lemma_fundamental_div_mod_converse(
                    a as int,
                    b as int,
                    -q,
                    0,
                );
            }
            -q
        } else {
            proof {
                assert(a == (-q - 1) * b + (b - m)) by (nonlinear_arith)
                    requires
                        n == b * q + m,
                        a == -n,
                ;
                vstd::arithmetic::div_mod::lemma_fundamental_div_mod_converse(
                    a as int,
                    b as int,
                    -q - 1,
                    b - m,
                );
            }
            -q - 1
        }
    }
}

/// Filters one raw record and derives its features on the date `today`.
pub fn engineer(r: &FighterRecord, today: Date) -> (out: Option<CleanRecord>)
    ensures
        out == engineer_spec(r@, today),
        out matches Some(c) ==> within_bound(c) && one_hot_ok(c),
{
    let weight = r.weight_in_kg.unwrap_or(0) as i128;
    let height = r.height_cm.unwrap_or(0) as i128;
    let reach = r.reach_in_cm.unwrap_or(0) as i128;
    if weight <= 0 || height <= 0 {
        return None;
    }
    let stance = match Stance::from_label(r.stance.as_str()) {
        Some(st) => st,
        None => {
            return None;
        },
    };
    let s_lpm = r.significant_strikes_landed_per_minute.unwrap_or(0) as i128;
    let s_abs = r.significant_strikes_absorbed_per_minute.unwrap_or(0) as i128;
    let td15 = r.average_takedowns_landed_per_15_minutes.unwrap_or(0) as i128;
    let sub15 = r.average_submissions_attempted_per_15_minutes.unwrap_or(0) as i128;
    let td_acc = r.takedown_accuracy.unwrap_or(0) as i128;
    let td_def = r.takedown_defense.unwrap_or(0) as i128;
    let scale = SCALE as i128;
    let (iso, isp, iss): (i128, i128, i128) = match stance {
        Stance::Orthodox => (scale, 0, 0),
        Stance::Southpaw => (0, scale, 0),
        Stance::Switch => (0, 0, scale),
    };
    let total = r.wins as i128 + r.losses as i128 + r.draws as i128;
    let win_rate = if total > 0 { r.wins as i128 * scale / total } else { 0 };
    let age = age_in_years(r.date_of_birth, today) as i128 * scale;
    let takedown_lpm = floor_div(td15, 15);
    let submission_lpm = floor_div(sub15, 15);
    proof {
        lemma_div_magnitude(td15 as int, 15);
        lemma_div_magnitude(sub15 as int, 15);
        lemma_div_within(weight * scale, height as int);
        lemma_div_magnitude(reach * scale, height as int);
        if total > 0 {
            lemma_div_within(r.wins * scale, total as int);
        }
    }
    let submission_per_takedown = if takedown_lpm > 0 {
        proof {
            lemma_div_magnitude(submission_lpm * scale, takedown_lpm as int);
        }
        floor_div(submission_lpm * scale, takedown_lpm)
    } else {
        0
    };
    let reach_height_ratio = floor_div(reach * scale, height);
    let c = CleanRecord {
        stance,
        is_orthodox: iso,
        is_southpaw: isp,
        is_switch: iss,
        weight_height_ratio: weight * scale / height,
        reach_height_ratio,
        submission_per_takedown,
        weight_class: weight_class_of(weight as u64),
        age,
        significant_strikes_lpm: s_lpm,
        strike_diff: s_lpm - s_abs,
        takedown_lpm,
        submission_lpm,
        takedown_accuracy: td_acc,
        takedown_defense: td_def,
        win_rate,
    };
    assert forall|f: Feature| -FEATURE_BOUND <= #[trigger] feature_of(c, f) <= FEATURE_BOUND by {}
    Some(c)
}

/// Least value of feature `f` over `cs` (0 for no records).
pub open spec fn min_feature(cs: Seq<CleanRecord>, f: Feature) -> int
    decreases cs.len(),
{
    if cs.len() == 0 {
        0
    } else if cs.len() == 1 {
        feature_of(cs[0], f)
    } else {
        let m = min_feature(cs.drop_last(), f);
        let v = feature_of(cs.last(), f);
        if v < m { v } else { m }
    }
}

/// Greatest value of feature `f` over `cs` (0 for no records).
pub open spec fn max_feature(cs: Seq<CleanRecord>, f: Feature) -> int
    decreases cs.len(),
{
    if cs.len() == 0 {
        0
    } else if cs.len() == 1 {
        feature_of(cs[0], f)
    } else {
        let m = max_feature(cs.drop_last(), f);
        let v = feature_of(cs.last(), f);
        if v > m { v } else { m }
    }
}

/// Min-max rescaling of `v` onto `0..=SCALE`, floored; every value maps to
/// 0 when the range is empty.
pub open spec fn rescale(v: int, lo: int, hi: int) -> int {
    if hi > lo {
        (v - lo) * SCALE / (hi - lo)
    } else {
        0
    }
}

/// Feature `f` of `r`, rescaled by its range over `cs`.
pub open spec fn normalized_feature(cs: Seq<CleanRecord>, r: CleanRecord, f: Feature) -> i128 {
    rescale(feature_of(r, f), min_feature(cs, f), max_feature(cs, f)) as i128
}

/// `r` with every normalized feature rescaled by its range over `cs`; the
/// stance, its indicators and the weight class are kept.
pub open spec fn normalized_record(cs: Seq<CleanRecord>, r: CleanRecord) -> CleanRecord {
    CleanRecord {
        stance: r.stance,
        is_orthodox: r.is_orthodox,
        is_southpaw: r.is_southpaw,
        is_switch: r.is_switch,
        weight_height_ratio: normalized_feature(cs, r, Feature::WeightHeightRatio),
        reach_height_ratio: normalized_feature(cs, r, Feature::ReachHeightRatio),
        submission_per_takedown: normalized_feature(cs, r, Feature::SubmissionPerTakedown),
        weight_class: r.weight_class,
        age: normalized_feature(cs, r, Feature::Age),
        significant_strikes_lpm: normalized_feature(cs, r, Feature::SignificantStrikesLpm),
        strike_diff: normalized_feature(cs, r, Feature::StrikeDiff),
        takedown_lpm: normalized_feature(cs, r, Feature::TakedownLpm),
        submission_lpm: normalized_feature(cs, r, Feature::SubmissionLpm),
        takedown_accuracy: normalized_feature(cs, r, Feature::TakedownAccuracy),
        takedown_defense: normalized_feature(cs, r, Feature::TakedownDefense),
        win_rate: normalized_feature(cs, r, Feature::WinRate),
    }
}

/// Every record of `cs` normalized over the whole of `cs`.
pub open spec fn normalized(cs: Seq<CleanRecord>) -> Seq<CleanRecord> {
    cs.map_values(|r: CleanRecord| normalized_record(cs, r))
}

/// The range of a feature holds every value of it, and both its ends are taken.
pub proof fn lemma_range_bounds(cs: Seq<CleanRecord>, f: Feature)
    requires
        cs.len() > 0,
    ensures
        forall|i: int|
            0 <= i < cs.len() ==> min_feature(cs, f) <= #[trigger] feature_of(cs[i], f)
                <= max_feature(cs, f),
        exists|i: int| 0 <= i < cs.len() && feature_of(cs[i], f) == min_feature(cs, f),
        exists|i: int| 0 <= i < cs.len() && feature_of(cs[i], f) == max_feature(cs, f),
    decreases cs.len(),
{
    if cs.len() == 1 {
        assert(feature_of(cs[0], f) == min_feature(cs, f));
        assert(feature_of(cs[0], f) == max_feature(cs, f));
    } else {
        let p = cs.drop_last();
        lemma_range_bounds(p, f);
        assert forall|i: int|
            0 <= i < cs.len() implies min_feature(cs, f) <= #[trigger] feature_of(cs[i], f)
            <= max_feature(cs, f) by {
            if i < p.len() {
                assert(cs[i] == p[i]);
            }
        }
        let last = cs.len() - 1;
        if feature_of(cs.last(), f) < min_feature(p, f) {
            assert(feature_of(cs[last], f) == min_feature(cs, f));
        } else {
            let i = choose|i: int| 0 <= i < p.len() && feature_of(p[i], f) == min_feature(p, f);
            assert(cs[i] == p[i]);
        }
        if feature_of(cs.last(), f) > max_feature(p, f) {
            assert(feature_of(cs[last], f) == max_feature(cs, f));
        } else {
            let i = choose|i: int| 0 <= i < p.len() && feature_of(p[i], f) == max_feature(p, f);
            assert(cs[i] == p[i]);
        }
    }
}

/// The least and greatest value of one feature.
pub fn feature_range(cs: &Vec<CleanRecord>, f: Feature) -> (r: (i128, i128))
    requires
        cs.len() > 0,
        forall|i: int| 0 <= i < cs.len() ==> within_bound(#[trigger] cs@[i]),
    ensures
        r.0 == min_feature(cs@, f),
        r.1 == max_feature(cs@, f),
{
    let mut lo = cs[0].feature(f);
    let mut hi = lo;
    let mut i: usize = 1;
    assert(cs@.take(1).len() == 1 && cs@.take(1)[0] == cs@[0]);
    while i < cs.len()
        invariant
            1 <= i <= cs.len(),
            lo == min_feature(cs@.take(i as int), f),
            hi == max_feature(cs@.take(i as int), f),
        decreases cs.len() - i,
    {
        let v = cs[i].feature(f);
        assert(cs@.take(i + 1).drop_last() =~= cs@.take(i as int));
        assert(cs@.take(i + 1).last() == cs@[i as int]);
        if v < lo {
            lo = v;
        }
        if v > hi {
            hi = v;
        }
        i = i + 1;
    }
    assert(cs@.take(cs.len() as int) =~= cs@);
    (lo, hi)
}

/// Computes `rescale(v, lo, hi)` for a value within its range.
pub fn rescale_value(v: i128, lo: i128, hi: i128) -> (r: i128)
    requires
        lo <= v <= hi,
        -FEATURE_BOUND <= lo,
        hi <= FEATURE_BOUND,
    ensures
        r == rescale(v as int, lo as int, hi as int),
        0 <= r <= SCALE,
{
    if hi > lo {
        let diff = v - lo;
        assert(0 <= diff * 1_000_000 <= 2 * FEATURE_BOUND * 1_000_000) by (nonlinear_arith)
            requires
                0 <= diff <= 2 * FEATURE_BOUND,
        ;
        let num = diff * (SCALE as i128);
        let den = hi - lo;
        proof {
            lemma_rescale_within(v as int, lo as int, hi as int);
        }
        num / den
    } else {
        0
    }
}

proof fn lemma_rescale_within(v: int, lo: int, hi: int)
    requires
        lo <= v <= hi,
        lo < hi,
    ensures
        0 <= rescale(v, lo, hi) <= SCALE,
{
    let a = (v - lo) * SCALE;
    let d = hi - lo;
    assert(a <= d * SCALE) by (nonlinear_arith)
        requires
            a == (v - lo) * SCALE,
            d == hi - lo,
            v <= hi,
    ;
    assert(a >= 0) by (nonlinear_arith)
        requires
            a == (v - lo) * SCALE,
            v >= lo,
    ;
    vstd::arithmetic::div_mod::lemma_div_pos_is_pos(a, d);
    vstd::arithmetic::div_mod::lemma_div_is_ordered(a, d * SCALE, d);
    vstd::arithmetic::div_mod::lemma_div_multiples_vanish(SCALE as int, d);
}

/// Rescales every normalized feature of every record to its range over all
/// the records.
pub fn normalize(records: &mut Vec<CleanRecord>)
    requires
        forall|i: int| 0 <= i < old(records).len() ==> within_bound(#[trigger] old(records)@[i]),
    ensures
        final(records)@ == normalized(old(records)@),
{
    let ghost cs = records@;
    if records.len() == 0 {
        assert(normalized(cs) =~= cs);
        return;
    }
    let mut ranges: Vec<(i128, i128)> = Vec::new();
    let mut k: usize = 0;
    while k < NUM_FEATURES
        invariant
            cs == records@,
            records.len() > 0,
            forall|i: int| 0 <= i < records.len() ==> within_bound(#[trigger] records@[i]),
            k <= NUM_FEATURES,
            ranges.len() == k,
            forall|j: int|
                0 <= j < k ==> (#[trigger] ranges@[j]).0 == min_feature(cs, feature_at_spec(j))
                    && ranges@[j].1 == max_feature(cs, feature_at_spec(j)),
        decreases NUM_FEATURES - k,
    {
        let f = feature_at(k);
        ranges.push(feature_range(records, f));
        k = k + 1;
    }
    let mut out: Vec<CleanRecord> = Vec::new();
    let mut i: usize = 0;
    while i < records.len()
        invariant
            cs == records@,
            forall|i: int| 0 <= i < records.len() ==> within_bound(#[trigger] records@[i]),
            ranges.len() == NUM_FEATURES,
            forall|j: int|
                0 <= j < NUM_FEATURES ==> (#[trigger] ranges@[j]).0 == min_feature(
                    cs,
                    feature_at_spec(j),
                ) && ranges@[j].1 == max_feature(cs, feature_at_spec(j)),
            i <= records.len(),
            out@ =~= normalized(cs).take(i as int),
        decreases records.len() - i,
    {
        let r = records[i];
        proof {
            assert forall|f: Feature|
                min_feature(cs, f) <= #[trigger] feature_of(r, f) <= max_feature(cs, f)
                && -FEATURE_BOUND <= min_feature(cs, f) && max_feature(cs, f) <= FEATURE_BOUND by {
                lemma_range_bounds(cs, f);
                let a = choose|a: int| 0 <= a < cs.len() && feature_of(cs[a], f) == min_feature(cs, f);
                let b = choose|b: int| 0 <= b < cs.len() && feature_of(cs[b], f) == max_feature(cs, f);
                assert(within_bound(cs[a]) && within_bound(cs[b]));
            }
        }
        let n = CleanRecord {
            stance: r.stance,
            is_orthodox: r.is_orthodox,
            is_southpaw: r.is_southpaw,
            is_switch: r.is_switch,
            weight_height_ratio: rescale_value(r.weight_height_ratio, ranges[0].0, ranges[0].1),
            reach_height_ratio: rescale_value(r.reach_height_ratio, ranges[1].0, ranges[1].1),
            submission_per_takedown: rescale_value(
                r.submission_per_takedown,
                ranges[2].0,
                ranges[2].1,
            ),
            weight_class: r.weight_class,
            age: rescale_value(r.age, ranges[3].0, ranges[3].1),
            significant_strikes_lpm: rescale_value(
                r.significant_strikes_lpm,
                ranges[4].0,
                ranges[4].1,
            ),
            strike_diff: rescale_value(r.strike_diff, ranges[5].0, ranges[5].1),
            takedown_lpm: rescale_value(r.takedown_lpm, ranges[6].0, ranges[6].1),
            submission_lpm: rescale_value(r.submission_lpm, ranges[7].0, ranges[7].1),
            takedown_accuracy: rescale_value(r.takedown_accuracy, ranges[8].0, ranges[8].1),
            takedown_defense: rescale_value(r.takedown_defense, ranges[9].0, ranges[9].1),
            win_rate: rescale_value(r.win_rate, ranges[10].0, ranges[10].1),
        };
        assert(n == normalized_record(cs, cs[i as int]));
        out.push(n);
        i = i + 1;
    }
    assert(normalized(cs).take(cs.len() as int) =~= normalized(cs));
    *records = out;
}

/// The records that survive filtering, engineered on `today`, in input order.
pub open spec fn engineered_all(vs: Seq<FighterRecordView>, today: Date) -> Seq<CleanRecord>
    decreases vs.len(),
{
    if vs.len() == 0 {
        Seq::empty()
    } else {
        let prev = engineered_all(vs.drop_last(), today);
        match engineer_spec(vs.last(), today) {
            Some(c) => prev.push(c),
            None => prev,
        }
    }
}

/// The whole pipeline after loading: filter and engineer, then normalize.
pub open spec fn preprocessed(vs: Seq<FighterRecordView>, today: Date) -> Seq<CleanRecord> {
    normalized(engineered_all(vs, today))
}

/// Cleans the raw records and engineers their normalized features, with
/// ages taken on the date `today`.
pub fn preprocess_at(records: &[FighterRecord], today: Date) -> (out: Vec<CleanRecord>)
    ensures
        out@ == preprocessed(records_view(records@), today),
{
    let ghost vs = records_view(records@);
    let mut cleaned: Vec<CleanRecord> = Vec::new();
    let mut i: usize = 0;
    while i < records.len()
        invariant
            vs == records_view(records@),
            i <= records.len(),
            cleaned@ == engineered_all(vs.take(i as int), today),
            forall|j: int| 0 <= j < cleaned.len() ==> within_bound(#[trigger] cleaned@[j]),
        decreases records.len() - i,
    {
        assert(vs.take(i + 1).drop_last() =~= vs.take(i as int));
        assert(vs.take(i + 1).last() == records@[i as int]@);
        match engineer(&records[i], today) {
            Some(c) => {
                cleaned.push(c);
            },
            None => {},
        }
        i = i + 1;
    }
    assert(vs.take(records.len() as int) =~= vs);
    normalize(&mut cleaned);
    cleaned
}

/// Cleans the raw records and engineers their normalized features, with
/// ages taken on today's date.
pub fn preprocess(records: &[FighterRecord]) -> (out: Vec<CleanRecord>)
    ensures
        exists|d: Date|
            1 <= d.month <= 12 && 1 <= d.day <= 31 && out@ == preprocessed(
                records_view(records@),
                d,
            ),
{
    let d = today();
    preprocess_at(records, d)
}

/// Loads the records of a delimited text and preprocesses them.
pub fn weight_driven_data(text: &str) -> (out: Vec<CleanRecord>)
    ensures
        exists|d: Date|
            1 <= d.month <= 12 && 1 <= d.day <= 31 && out@ == preprocessed(
                crate::loader::accepted(
                    crate::loader::header_of(crate::loader::csv_rows_of(text@)),
                    crate::loader::data_rows(crate::loader::csv_rows_of(text@)),
                ),
                d,
            ),
{
    let o = load_records(text);
    preprocess(o.records.as_slice())
}

proof fn lemma_feature_of_normalized(cs: Seq<CleanRecord>, r: CleanRecord, f: Feature)
    ensures
        feature_of(normalized_record(cs, r), f) == normalized_feature(cs, r, f) as int,
{
}

/// After normalization each feature lies between 0 and one whole unit.
/// Where the feature took one value throughout, it is 0 everywhere;
/// otherwise its least value is exactly 0 and its greatest exactly one
/// whole unit.
pub proof fn lemma_normalized_unit_range(cs: Seq<CleanRecord>, f: Feature)
    requires
        cs.len() > 0,
    ensures
        forall|i: int|
            0 <= i < cs.len() ==> 0 <= #[trigger] feature_of(normalized(cs)[i], f) <= SCALE,
        (forall|i: int| 0 <= i < cs.len() ==> #[trigger] feature_of(cs[i], f) == feature_of(cs[0], f))
            ==> forall|i: int| 0 <= i < cs.len() ==> #[trigger] feature_of(normalized(cs)[i], f) == 0,
        !(forall|i: int| 0 <= i < cs.len() ==> #[trigger] feature_of(cs[i], f) == feature_of(cs[0], f))
            ==> (exists|i: int| 0 <= i < cs.len() && #[trigger] feature_of(normalized(cs)[i], f) == 0)
            && (exists|i: int| 0 <= i < cs.len() && #[trigger] feature_of(normalized(cs)[i], f) == SCALE),
{
    lemma_range_bounds(cs, f);
    let lo = min_feature(cs, f);
    let hi = max_feature(cs, f);
    assert forall|i: int|
        0 <= i < cs.len() implies 0 <= #[trigger] feature_of(normalized(cs)[i], f) <= SCALE by {
        lemma_feature_of_normalized(cs, cs[i], f);
        if hi > lo {
            lemma_rescale_within(feature_of(cs[i], f), lo, hi);
        }
    }
    if forall|i: int| 0 <= i < cs.len() ==> #[trigger] feature_of(cs[i], f) == feature_of(cs[0], f) {
        let a = choose|a: int| 0 <= a < cs.len() && feature_of(cs[a], f) == lo;
        let b = choose|b: int| 0 <= b < cs.len() && feature_of(cs[b], f) == hi;
        assert(lo == hi);
        assert forall|i: int| 0 <= i < cs.len() implies #[trigger] feature_of(normalized(cs)[i], f)
            == 0 by {
            lemma_feature_of_normalized(cs, cs[i], f);
        }
    } else {
        let w = choose|w: int|
            0 <= w < cs.len() && !(#[trigger] feature_of(cs[w], f) == feature_of(cs[0], f));
        assert(lo < hi);
        let a = choose|a: int| 0 <= a < cs.len() && feature_of(cs[a], f) == lo;
        let b = choose|b: int| 0 <= b < cs.len() && feature_of(cs[b], f) == hi;
        lemma_feature_of_normalized(cs, cs[a], f);
        lemma_feature_of_normalized(cs, cs[b], f);
        assert(rescale(lo, lo, hi) == 0);
        vstd::arithmetic::div_mod::lemma_div_multiples_vanish(SCALE as int, hi - lo);
        assert((hi - lo) * SCALE == SCALE * (hi - lo)) by (nonlinear_arith);
        assert(rescale(hi, lo, hi) == SCALE);
        assert(feature_of(normalized(cs)[a], f) == 0);
        assert(feature_of(normalized(cs)[b], f) == SCALE);
    }
}

/// A single surviving record has every normalized feature at 0.
pub proof fn lemma_single_record_all_zero(cs: Seq<CleanRecord>, f: Feature)
    requires
        cs.len() == 1,
    ensures
        feature_of(normalized(cs)[0], f) == 0,
{
    lemma_normalized_unit_range(cs, f);
}

proof fn lemma_engineered_one_hot(vs: Seq<FighterRecordView>, today: Date)
    ensures
        forall|i: int|
            0 <= i < engineered_all(vs, today).len() ==> one_hot_ok(
                #[trigger] engineered_all(vs, today)[i],
            ),
    decreases vs.len(),
{
    if vs.len() > 0 {
        let p = engineered_all(vs.drop_last(), today);
        lemma_engineered_one_hot(vs.drop_last(), today);
        let all = engineered_all(vs, today);
        assert forall|i: int| 0 <= i < all.len() implies one_hot_ok(#[trigger] all[i]) by {
            if i < p.len() {
                assert(all[i] == p[i]);
            }
        }
    }
}

/// Every record that comes out of preprocessing has exactly one stance
/// indicator at one whole unit, the one for its stance, and the others at 0.
pub proof fn lemma_stance_one_hot(vs: Seq<FighterRecordView>, today: Date)
    ensures
        forall|i: int|
            0 <= i < preprocessed(vs, today).len() ==> one_hot_ok(
                #[trigger] preprocessed(vs, today)[i],
            ),
{
    lemma_engineered_one_hot(vs, today);
    let cs = engineered_all(vs, today);
    assert forall|i: int| 0 <= i < preprocessed(vs, today).len() implies one_hot_ok(
        #[trigger] preprocessed(vs, today)[i],
    ) by {
        assert(one_hot_ok(cs[i]));
    }
}

/// Submissions per takedown is 0 whenever takedowns per minute is 0.
pub proof fn lemma_no_takedowns_no_efficiency(v: FighterRecordView, today: Date)
    ensures
        engineer_spec(v, today) matches Some(c) ==> (c.takedown_lpm == 0
            ==> c.submission_per_takedown == 0),
{
}

/// The win rate is 0 whenever a fighter has no recorded bouts.
pub proof fn lemma_no_bouts_no_win_rate(v: FighterRecordView, today: Date)
    requires
        v.wins + v.losses + v.draws == 0,
    ensures
        engineer_spec(v, today) matches Some(c) ==> c.win_rate == 0,
{
}

proof fn lemma_engineered_prefix(vs: Seq<FighterRecordView>, j: int, today: Date)
    requires
        0 <= j <= vs.len(),
    ensures
        engineered_all(vs.take(j), today).len() <= engineered_all(vs, today).len(),
        forall|k: int|
            0 <= k < engineered_all(vs.take(j), today).len() ==> #[trigger] engineered_all(
                vs.take(j),
                today,
            )[k] == engineered_all(vs, today)[k],
    decreases vs.len(),
{
    if j == vs.len() {
        assert(vs.take(j) =~= vs);
    } else {
        let p = vs.drop_last();
        assert(p.take(j) =~= vs.take(j));
        lemma_engineered_prefix(p, j, today);
        let all = engineered_all(vs, today);
        let before = engineered_all(p, today);
        assert forall|k: int| 0 <= k < before.len() implies #[trigger] before[k] == all[k] by {}
    }
}

proof fn lemma_win_rates_nonnegative(vs: Seq<FighterRecordView>, today: Date)
    ensures
        forall|k: int|
            0 <= k < engineered_all(vs, today).len() ==> (#[trigger] engineered_all(vs, today)[k]).win_rate
                >= 0,
    decreases vs.len(),
{
    if vs.len() > 0 {
        let p = vs.drop_last();
        lemma_win_rates_nonnegative(p, today);
        let v = vs.last();
        let total = v.wins + v.losses + v.draws;
        if total > 0 {
            vstd::arithmetic::div_mod::lemma_div_pos_is_pos(v.wins * SCALE, total as int);
        }
        let all = engineered_all(vs, today);
        let before = engineered_all(p, today);
        assert forall|k: int| 0 <= k < all.len() implies (#[trigger] all[k]).win_rate >= 0 by {
            if k < before.len() {
                assert(all[k] == before[k]);
            }
        }
    }
}

/// A surviving fighter with no recorded bouts has a normalized win rate of
/// exactly 0. Survivors keep their input order, so the fighter at input
/// position `i` is output number `engineered_all(vs.take(i), today).len()`.
pub proof fn lemma_no_bouts_normalized_win_rate(
    vs: Seq<FighterRecordView>,
    today: Date,
    i: int,
)
    requires
        0 <= i < vs.len(),
        engineer_spec(vs[i], today) is Some,
        vs[i].wins + vs[i].losses + vs[i].draws == 0,
    ensures
        engineered_all(vs.take(i), today).len() < preprocessed(vs, today).len(),
        preprocessed(vs, today)[engineered_all(vs.take(i), today).len() as int].win_rate == 0,
{
    let k = engineered_all(vs.take(i), today).len() as int;
    let c = engineer_spec(vs[i], today).unwrap();
    assert(vs.take(i + 1).drop_last() =~= vs.take(i));
    assert(vs.take(i + 1).last() == vs[i]);
    assert(engineered_all(vs.take(i + 1), today) == engineered_all(vs.take(i), today).push(c));
    lemma_engineered_prefix(vs, i + 1, today);
    let cs = engineered_all(vs, today);
    assert(cs[k] == engineered_all(vs.take(i + 1), today)[k]);
    assert(cs[k] == c);
    assert(c.win_rate == 0);
    lemma_win_rates_nonnegative(vs, today);
    lemma_range_bounds(cs, Feature::WinRate);
    let lo = min_feature(cs, Feature::WinRate);
    let hi = max_feature(cs, Feature::WinRate);
    assert(feature_of(cs[k], Feature::WinRate) == 0);
    let a = choose|a: int| 0 <= a < cs.len() && feature_of(cs[a], Feature::WinRate) == lo;
    assert(cs[a].win_rate >= 0);
    assert(lo == 0);
    if hi > lo {
        assert((0 - lo) * SCALE == 0);
    }
    assert(rescale(0, lo, hi) == 0);
    assert(preprocessed(vs, today)[k] == normalized_record(cs, cs[k]));
}

} // verus!
