use fighter_features::date::{age_in_years, Date};
use fighter_features::design::{column_name, design_matrix, design_row, NUM_DESIGN_COLUMNS};
use fighter_features::loader::{load_records, schema_column_name, FighterRecord, RejectReason};
use fighter_features::numeric::{parse_count, parse_decimal, SCALE};
use fighter_features::preprocess::{
    engineer, normalize, preprocess, preprocess_at, weight_class_of, weight_driven_data,
    CleanRecord, Feature, Stance, UnknownStance, WeightClass,
};

const HEADER: &str = "name,nickname,wins,losses,draws,\
    height_cm,weight_in_kg,reach_in_cm,stance,\
    date_of_birth,\
    significant_strikes_landed_per_minute,\
    significant_striking_accuracy,\
    significant_strikes_absorbed_per_minute,\
    significant_strike_defence,\
    average_takedowns_landed_per_15_minutes,\
    takedown_accuracy,takedown_defense,\
    average_submissions_attempted_per_15_minutes\n";

fn source(rows: &[&str]) -> String {
    let mut text = String::from(HEADER);
    text.push('\n');
    for row in rows {
        text.push_str(row);
        text.push('\n');
    }
    text
}

fn raw(weight: Option<i64>, height: Option<i64>, stance: &str) -> FighterRecord {
    FighterRecord {
        name: "X".to_string(),
        nickname: None,
        wins: 10,
        losses: 2,
        draws: 1,
        height_cm: height,
        weight_in_kg: weight,
        reach_in_cm: Some(190 * ONE),
        stance: stance.to_string(),
        date_of_birth: Date { year: 1990, month: 6, day: 15 },
        significant_strikes_landed_per_minute: Some(5 * ONE),
        significant_striking_accuracy: Some(ONE / 2),
        significant_strikes_absorbed_per_minute: Some(3 * ONE),
        significant_strike_defence: Some(600_000),
        average_takedowns_landed_per_15_minutes: Some(30 * ONE),
        takedown_accuracy: Some(400_000),
        takedown_defense: Some(700_000),
        average_submissions_attempted_per_15_minutes: Some(15 * ONE),
    }
}

/// One whole unit, as the loader stores measurements and rates.
const ONE: i64 = SCALE as i64;

const ON: Date = Date { year: 2024, month: 6, day: 15 };

#[test]
fn test_load_csv() {
    let text = source(&["A,,10,2,1,\
        180.0,70.0,190.0,Orthodox,\
        1990-01-01,\
        5.0,0.5,3.0,0.6,\
        30.0,0.4,0.7,\
        15.0"]);
    let out = load_records(&text);
    let recs = out.records;
    assert_eq!(recs.len(), 1);
    let r = &recs[0];
    assert_eq!(r.name, "A");
    assert_eq!(r.nickname, None);
    assert_eq!(r.wins, 10);
    assert_eq!(r.height_cm.unwrap(), 180 * ONE);
    assert_eq!(r.stance, "Orthodox");
    assert_eq!(r.date_of_birth, Date { year: 1990, month: 1, day: 1 });
    assert!(out.rejections.is_empty());
}

#[test]
fn test_preprocess_filters_and_features() {
    let text = source(&[
        "A,,10,2,1,180.0,90.0,190.0,Orthodox,1990-01-01,\
        5.0,0.5,3.0,0.6,30.0,0.4,0.7,15.0",
        "B,,8,3,1,180.0,,190.0,Southpaw,1992-06-01,\
        4.0,0.4,2.0,0.5,20.0,0.3,0.6,10.0",
    ]);
    let raw = load_records(&text).records;
    assert_eq!(raw.len(), 2);
    assert_eq!(raw[1].date_of_birth, Date { year: 1992, month: 6, day: 1 });
    let cleaned = preprocess(&raw);
    assert_eq!(cleaned.len(), 1);
    let cr = &cleaned[0];
    assert_eq!(cr.is_orthodox, SCALE as i128);
    assert_eq!(cr.is_southpaw, 0);
    assert_eq!(cr.weight_height_ratio, 0);
    assert_eq!(cr.reach_height_ratio, 0);
    assert_eq!(cr.submission_per_takedown, 0);
    assert_eq!(cr.takedown_lpm, 0);
    assert_eq!(cr.submission_lpm, 0);
}

#[test]
fn empty_weight_row_is_dropped() {
    let text = source(&["A,,10,2,1,180.0,,190.0,Orthodox,1990-01-01,5.0,0.5,3.0,0.6,30.0,0.4,0.7,15.0"]);
    let cleaned = weight_driven_data(&text);
    assert_eq!(cleaned.len(), 0);
}

#[test]
fn two_stances_normalize_to_ends() {
    let text = source(&[
        "A,,10,2,1,180.0,90.0,190.0,Orthodox,1990-01-01,5.0,0.5,3.0,0.6,30.0,0.4,0.7,15.0",
        "B,,8,3,1,180.0,70.0,190.0,Southpaw,1992-06-01,4.0,0.4,2.0,0.5,20.0,0.3,0.6,10.0",
    ]);
    let cleaned = weight_driven_data(&text);
    assert_eq!(cleaned.len(), 2);
    for c in &cleaned {
        assert_eq!(c.is_orthodox + c.is_southpaw + c.is_switch, SCALE as i128);
    }
    assert_eq!((cleaned[0].is_orthodox, cleaned[0].is_southpaw), (SCALE as i128, 0));
    assert_eq!((cleaned[1].is_orthodox, cleaned[1].is_southpaw), (0, SCALE as i128));
    assert_eq!(cleaned[0].weight_height_ratio, SCALE as i128);
    assert_eq!(cleaned[1].weight_height_ratio, 0);
    assert_eq!(cleaned[0].reach_height_ratio, 0);
}

#[test]
fn wrong_field_count_is_rejected_with_its_line() {
    let text = source(&[
        "A,,10,2,1,180.0,90.0,190.0,Orthodox,1990-01-01,5.0,0.5,3.0,0.6,30.0,0.4,0.7,15.0",
        "B,,8,3,1,180.0,70.0",
    ]);
    let out = load_records(&text);
    assert_eq!(out.records.len(), 1);
    assert_eq!(out.rejections.len(), 1);
    assert_eq!(out.rejections[0].line, 4);
    assert_eq!(out.rejections[0].reason, RejectReason::FieldCount { expected: 18, found: 7 });
}

#[test]
fn bad_date_and_bad_number_are_rejected() {
    let text = source(&[
        "A,,10,2,1,180.0,90.0,190.0,Orthodox,1990-13-01,5.0,0.5,3.0,0.6,30.0,0.4,0.7,15.0",
        "B,,8,3,1,180.0,7x,190.0,Southpaw,1992-06-01,4.0,0.4,2.0,0.5,20.0,0.3,0.6,10.0",
        "C,,x,3,1,180.0,70.0,190.0,Southpaw,1992-06-01,4.0,0.4,2.0,0.5,20.0,0.3,0.6,10.0",
        "D,,8,3,1,180.0,70.0,190.0,Switch,1992-06-01,4.0,0.4,2.0,0.5,20.0,0.3,0.6,10.0",
    ]);
    let out = load_records(&text);
    assert_eq!(out.records.len(), 1);
    assert_eq!(out.records[0].name, "D");
    let reasons: Vec<RejectReason> = out.rejections.iter().map(|r| r.reason).collect();
    assert_eq!(
        reasons,
        vec![
            RejectReason::BadField { column: 9 },
            RejectReason::BadField { column: 6 },
            RejectReason::BadField { column: 2 },
        ]
    );
}

#[test]
fn blank_rows_are_skipped_silently() {
    let text = source(&[
        " , ,,,,,,,,,,,,,,,,",
        "A,,10,2,1,180.0,90.0,190.0,Orthodox,1990-01-01,5.0,0.5,3.0,0.6,30.0,0.4,0.7,15.0",
    ]);
    let out = load_records(&text);
    assert_eq!(out.records.len(), 1);
    assert!(out.rejections.is_empty());
}

#[test]
fn unicode_white_space_rows_are_blank() {
    let text = "name\n\u{a0},\u{a0}\n\u{3000}\u{2009}\n";
    let out = load_records(text);
    assert!(out.records.is_empty());
    assert!(out.rejections.is_empty());
}

#[test]
fn missing_required_column_is_rejected() {
    let text = "name,wins\nA,10\n";
    let out = load_records(text);
    assert!(out.records.is_empty());
    assert_eq!(out.rejections[0].reason, RejectReason::MissingField { column: 3 });
    assert_eq!(out.rejections[0].line, 2);
}

#[test]
fn columns_are_placed_by_header_name() {
    let text = "stance,wins,losses,draws,name,date_of_birth,weight_in_kg,height_cm,extra\n\
                Southpaw,7,1,0,B,1992-06-01,70.5,175,whatever\n";
    let out = load_records(text);
    assert!(out.rejections.is_empty());
    let r = &out.records[0];
    assert_eq!(r.name, "B");
    assert_eq!(r.stance, "Southpaw");
    assert_eq!((r.wins, r.losses, r.draws), (7, 1, 0));
    assert_eq!(r.weight_in_kg, Some(70_500_000));
    assert_eq!(r.height_cm, Some(175 * ONE));
    assert_eq!(r.reach_in_cm, None);
    assert_eq!(r.nickname, None);
    assert_eq!(r.takedown_accuracy, None);
    assert_eq!(schema_column_name(6), "weight_in_kg");
}

#[test]
fn quoted_fields_and_nickname() {
    let text = source(&[
        "\"Smith, Jr.\",Ace,10,2,1,180.0,90.0,190.0,Orthodox,1990-01-01,5.0,0.5,3.0,0.6,30.0,0.4,0.7,15.0",
    ]);
    let out = load_records(&text);
    assert_eq!(out.records[0].name, "Smith, Jr.");
    assert_eq!(out.records[0].nickname, Some("Ace".to_string()));
}

#[test]
fn empty_source_loads_nothing() {
    let out = load_records("");
    assert!(out.records.is_empty());
    assert!(out.rejections.is_empty());
}

#[test]
fn decimals_in_fixed_point() {
    assert_eq!(parse_decimal(b"180.0"), Some(180_000_000));
    assert_eq!(parse_decimal(b"0.1234567"), Some(123_456));
    assert_eq!(parse_decimal(b"+5"), Some(5_000_000));
    assert_eq!(parse_decimal(b".5"), Some(500_000));
    assert_eq!(parse_decimal(b"7."), Some(7_000_000));
    assert_eq!(parse_decimal(b"1000000000000"), Some(1_000_000_000_000_000_000));
    assert_eq!(parse_decimal(b"1000000000001"), None);
    assert_eq!(parse_decimal(b"-1"), Some(-1_000_000));
    assert_eq!(parse_decimal(b"-2.5"), Some(-2_500_000));
    assert_eq!(parse_decimal(b"-+1"), None);
    assert_eq!(parse_decimal(b"-"), None);
    assert_eq!(parse_decimal(b"."), None);
    assert_eq!(parse_decimal(b"1e5"), None);
    assert_eq!(parse_decimal(b"NaN"), None);
    assert_eq!(parse_decimal(b""), None);
}

#[test]
fn counters() {
    assert_eq!(parse_count(b"10"), Some(10));
    assert_eq!(parse_count(b"+0"), Some(0));
    assert_eq!(parse_count(b"18446744073709551615"), Some(u64::MAX));
    assert_eq!(parse_count(b"18446744073709551616"), None);
    assert_eq!(parse_count(b"1.0"), None);
    assert_eq!(parse_count(b""), None);
}

#[test]
fn weight_class_breakpoints() {
    assert_eq!(weight_class_of(56_699_999), WeightClass::Flyweight);
    assert_eq!(weight_class_of(56_700_000), WeightClass::Bantamweight);
    assert_eq!(weight_class_of(65_799_999), WeightClass::Featherweight);
    assert_eq!(weight_class_of(70_300_000), WeightClass::Welterweight);
    assert_eq!(weight_class_of(83_900_000), WeightClass::LightHeavyweight);
    assert_eq!(weight_class_of(93_000_000), WeightClass::Heavyweight);
}

#[test]
fn stance_labels() {
    assert_eq!(Stance::from_label("Orthodox"), Some(Stance::Orthodox));
    assert_eq!(Stance::from_label("Southpaw"), Some(Stance::Southpaw));
    assert_eq!(Stance::from_label("Switch"), Some(Stance::Switch));
    assert_eq!(Stance::from_label("orthodox"), None);
    assert_eq!(Stance::from_label("Open Stance"), None);
    assert_eq!("Switch".parse::<Stance>(), Ok(Stance::Switch));
    assert!("".parse::<Stance>().is_err());
}

#[test]
fn stance_from_str_keeps_the_unknown_label() {
    assert_eq!(
        "orthodox".parse::<Stance>(),
        Err(UnknownStance { label: "orthodox".to_string() })
    );
    assert_eq!(
        " Southpaw".parse::<Stance>(),
        Err(UnknownStance { label: " Southpaw".to_string() })
    );
    assert_eq!("Orthodox".parse::<Stance>(), Ok(Stance::Orthodox));
    assert_eq!("Southpaw".parse::<Stance>(), Ok(Stance::Southpaw));
}

#[test]
fn stance_labels_round_trip() {
    for v in [Stance::Orthodox, Stance::Southpaw, Stance::Switch] {
        assert_eq!(format!("{:?}", v).parse::<Stance>(), Ok(v));
    }
}

#[test]
fn no_bouts_gives_zero_normalized_win_rate() {
    let mut idle = raw(Some(70 * ONE), Some(180 * ONE), "Orthodox");
    idle.wins = 0;
    idle.losses = 0;
    idle.draws = 0;
    let recs = vec![
        raw(Some(60 * ONE), Some(180 * ONE), "Switch"),
        idle,
        raw(Some(80 * ONE), None, "Orthodox"),
    ];
    let out = preprocess_at(&recs, ON);
    assert_eq!(out.len(), 2);
    assert_eq!(out[1].win_rate, 0);
    assert_eq!(out[0].win_rate, SCALE as i128);
}

#[test]
fn ages_turn_on_the_birthday() {
    let dob = Date { year: 1990, month: 6, day: 15 };
    assert_eq!(age_in_years(dob, Date { year: 2024, month: 6, day: 14 }), 33);
    assert_eq!(age_in_years(dob, Date { year: 2024, month: 6, day: 15 }), 34);
    assert_eq!(age_in_years(dob, Date { year: 2024, month: 5, day: 30 }), 33);
}

#[test]
fn engineered_features_exact() {
    let c = engineer(&raw(Some(90 * ONE), Some(180 * ONE), "Southpaw"), ON).unwrap();
    assert_eq!(c.stance, Stance::Southpaw);
    assert_eq!((c.is_orthodox, c.is_southpaw, c.is_switch), (0, SCALE as i128, 0));
    assert_eq!(c.weight_height_ratio, 500_000);
    assert_eq!(c.reach_height_ratio, 1_055_555);
    assert_eq!(c.takedown_lpm, 2_000_000);
    assert_eq!(c.submission_lpm, 1_000_000);
    assert_eq!(c.submission_per_takedown, 500_000);
    assert_eq!(c.win_rate, 769_230);
    assert_eq!(c.age, 34 * SCALE as i128);
    assert_eq!(c.strike_diff, 2 * SCALE as i128);
    assert_eq!(c.weight_class, WeightClass::LightHeavyweight);
}

#[test]
fn negative_values_floor() {
    let mut r = raw(Some(70 * ONE), Some(180 * ONE), "Orthodox");
    r.reach_in_cm = Some(-ONE);
    r.average_takedowns_landed_per_15_minutes = Some(-ONE);
    r.average_submissions_attempted_per_15_minutes = Some(-ONE);
    let c = engineer(&r, ON).unwrap();
    assert_eq!(c.reach_height_ratio, -5_556);
    assert_eq!(c.takedown_lpm, -66_667);
    assert_eq!(c.submission_lpm, -66_667);
    assert_eq!(c.submission_per_takedown, 0);
}

#[test]
fn negative_measurements_load_and_filter() {
    let text = source(&[
        "A,,10,2,1,180.0,-70.0,190.0,Orthodox,1990-01-01,5.0,0.5,3.0,0.6,30.0,0.4,0.7,15.0",
        "B,,10,2,1,180.0,70.0,-1.5,Orthodox,1990-01-01,-5.0,0.5,3.0,0.6,30.0,0.4,0.7,15.0",
    ]);
    let out = load_records(&text);
    assert!(out.rejections.is_empty());
    assert_eq!(out.records[0].weight_in_kg, Some(-70 * ONE));
    assert_eq!(out.records[1].significant_strikes_landed_per_minute, Some(-5 * ONE));
    let cleaned = weight_driven_data(&text);
    assert_eq!(cleaned.len(), 1);
}

#[test]
fn zero_guards() {
    let mut r = raw(Some(70 * ONE), Some(180 * ONE), "Switch");
    r.wins = 0;
    r.losses = 0;
    r.draws = 0;
    r.average_takedowns_landed_per_15_minutes = None;
    let c = engineer(&r, ON).unwrap();
    assert_eq!(c.win_rate, 0);
    assert_eq!(c.takedown_lpm, 0);
    assert_eq!(c.submission_per_takedown, 0);
    assert_eq!(c.is_switch, SCALE as i128);
}

#[test]
fn invalid_records_are_filtered() {
    assert!(engineer(&raw(None, Some(180 * ONE), "Orthodox"), ON).is_none());
    assert!(engineer(&raw(Some(70 * ONE), None, "Orthodox"), ON).is_none());
    assert!(engineer(&raw(Some(70 * ONE), Some(0), "Orthodox"), ON).is_none());
    assert!(engineer(&raw(Some(70 * ONE), Some(180 * ONE), "Sideways"), ON).is_none());
}

#[test]
fn normalization_of_three_records() {
    let recs = vec![
        raw(Some(60 * ONE), Some(180 * ONE), "Orthodox"),
        raw(Some(90 * ONE), Some(180 * ONE), "Southpaw"),
        raw(Some(70 * ONE), Some(180 * ONE), "Switch"),
    ];
    let out = preprocess_at(&recs, ON);
    assert_eq!(out.len(), 3);
    assert_eq!(out[0].weight_height_ratio, 0);
    assert_eq!(out[1].weight_height_ratio, SCALE as i128);
    assert_eq!(out[2].weight_height_ratio, 333_329);
    for c in &out {
        assert_eq!(c.win_rate, 0);
        assert_eq!(c.age, 0);
        assert_eq!(c.is_orthodox + c.is_southpaw + c.is_switch, SCALE as i128);
    }
    for k in 0..11 {
        let f = fighter_features::preprocess::feature_at(k);
        let values: Vec<i128> = out.iter().map(|c| c.feature(f)).collect();
        assert!(values.iter().all(|v| *v >= 0 && *v <= SCALE as i128));
    }
}

#[test]
fn normalize_in_place() {
    let mut cs: Vec<CleanRecord> = [10i64, 40, 20]
        .iter()
        .map(|w| engineer(&raw(Some(w * ONE), Some(10 * ONE), "Orthodox"), ON).unwrap())
        .collect();
    normalize(&mut cs);
    let values: Vec<i128> = cs.iter().map(|c| c.feature(Feature::WeightHeightRatio)).collect();
    assert_eq!(values, vec![0, 1_000_000, 333_333]);
    let mut one = vec![engineer(&raw(Some(80 * ONE), Some(180 * ONE), "Orthodox"), ON).unwrap()];
    normalize(&mut one);
    assert_eq!(one[0].weight_height_ratio, 0);
    assert_eq!(one[0].strike_diff, 0);
    assert_eq!(one[0].is_orthodox, SCALE as i128);
}

#[test]
fn design_columns() {
    let c = engineer(&raw(Some(90 * ONE), Some(180 * ONE), "Southpaw"), ON).unwrap();
    let row = design_row(&c);
    assert_eq!(row.len(), NUM_DESIGN_COLUMNS);
    assert_eq!(row[0], SCALE as i128);
    assert_eq!(row[1], 0);
    assert_eq!(&row[2..9], &[0, 0, 0, 0, 0, SCALE as i128, 0]);
    assert_eq!(row[9], 500_000);
    assert_eq!(column_name(9), "weight_height_ratio");
    assert_eq!(column_name(0), "is_southpaw");
    assert_eq!(column_name(18), "takedown_defense");
    let (rows, target) = design_matrix(&[c, c]);
    assert_eq!(rows.len(), 2);
    assert_eq!(target, vec![769_230, 769_230]);
}
