use presence::date::Date;
use presence::report::{
    after_failed_attempt, assemble, build_llm_prompt, french_month, week_days, week_is_reportable,
    weekday_name, worked_day_count, AfterFailure, DayKind, DaySchedule, LlmWeekOutput,
    MAX_SCHEDULE_ATTEMPTS,
};

const VALID_PAIRS: [(&str, &str); 5] = [
    ("12h00", "13h00"),
    ("12h30", "13h30"),
    ("13h00", "14h00"),
    ("13h30", "14h30"),
    ("14h00", "15h00"),
];

fn d(y: i32, m: u32, day: u32) -> Date {
    Date::from_ymd_opt(y, m, day).unwrap()
}

fn make_schedule(pairs: &[(&str, &str)]) -> LlmWeekOutput {
    LlmWeekOutput {
        days: pairs
            .iter()
            .map(|(s, e)| DaySchedule {
                lunch_start: s.to_string(),
                lunch_end: e.to_string(),
            })
            .collect(),
    }
}

/// Every day of an inclusive range, as the off-days file expands it.
fn expand(start: Date, end: Date) -> Vec<Date> {
    let mut out = Vec::new();
    let mut d = start;
    while d.num_days_from_ce() <= end.num_days_from_ce() {
        out.push(d);
        d = d.checked_add_days(1).unwrap();
    }
    out
}

// --- fix_pairs ---

#[test]
fn fix_pairs_corrects_mismatched_end() {
    let mut output = make_schedule(&[
        ("12h00", "14h00"), // wrong end
        ("13h30", "13h30"), // wrong end
        ("14h00", "12h00"), // wrong end
    ]);
    output.fix_pairs();
    assert_eq!(output.days[0].lunch_end, "13h00");
    assert_eq!(output.days[1].lunch_end, "14h30");
    assert_eq!(output.days[2].lunch_end, "15h00");
}

#[test]
fn fix_pairs_preserves_correct_pairs() {
    let mut output = make_schedule(&[
        ("12h00", "13h00"),
        ("12h30", "13h30"),
        ("13h00", "14h00"),
        ("13h30", "14h30"),
        ("14h00", "15h00"),
    ]);
    output.fix_pairs();
    for (day, (_, expected_end)) in output.days.iter().zip(VALID_PAIRS.iter()) {
        assert_eq!(day.lunch_end, *expected_end);
    }
}

#[test]
fn fix_pairs_handles_unknown_start() {
    let mut output = make_schedule(&[("11h00", "12h00")]);
    output.fix_pairs();
    // Unknown start falls back to "13h30"
    assert_eq!(output.days[0].lunch_end, "13h30");
}

// --- validate ---

#[test]
fn validate_ok_with_valid_pairs() {
    let output = make_schedule(&[("12h00", "13h00"), ("13h30", "14h30"), ("14h00", "15h00")]);
    assert!(output.validate(3).is_ok());
}

#[test]
fn validate_fails_wrong_count() {
    let output = make_schedule(&[("12h00", "13h00")]);
    let err = output.validate(3).unwrap_err();
    assert!(err.contains("expected 3 days, got 1"));
}

#[test]
fn validate_fails_invalid_pair() {
    let output = make_schedule(&[("12h00", "14h00")]); // bad pairing
    let err = output.validate(1).unwrap_err();
    assert!(err.contains("invalid lunch pair"));
}

// --- week_days ---

#[test]
fn week_days_returns_5_days_mon_to_fri() {
    // 2026-04-16 is a Wednesday
    let days = week_days(d(2026, 4, 16), &[]);
    assert_eq!(days.len(), 5);
    assert_eq!(days[0].1, "Lundi");
    assert_eq!(days[4].1, "Vendredi");
    assert_eq!(days[0].0, d(2026, 4, 13)); // Monday
    assert_eq!(days[4].0, d(2026, 4, 17)); // Friday
}

#[test]
fn week_days_from_friday_same_week() {
    // Friday April 17 2026
    let days = week_days(d(2026, 4, 17), &[]);
    assert_eq!(days[0].0, d(2026, 4, 13)); // still Monday of same week
}

#[test]
fn week_days_from_monday() {
    let days = week_days(d(2026, 4, 13), &[]);
    assert_eq!(days[0].0, d(2026, 4, 13));
}

#[test]
fn week_days_detects_holiday() {
    // Week of May 1 2026 (Friday)
    let days = week_days(d(2026, 5, 1), &[]);
    // May 1 is Fête du Travail (Friday = index 4)
    assert_eq!(days[4].2, DayKind::Holiday("Fête du Travail"));
    assert_eq!(days[0].2, DayKind::Worked);
}

#[test]
fn week_days_detects_personal_off() {
    // Week of Apr 13-17 2026 (no holidays). Mark Friday Apr 17 as personal off.
    let days = week_days(d(2026, 4, 13), &[d(2026, 4, 17)]);
    assert_eq!(days[4].2, DayKind::Off);
    assert_eq!(days[0].2, DayKind::Worked);
}

#[test]
fn holiday_takes_precedence_over_personal_off() {
    // May 1 2026 is a holiday; even if marked as off, holiday wins.
    let days = week_days(d(2026, 5, 1), &[d(2026, 5, 1)]);
    assert_eq!(days[4].2, DayKind::Holiday("Fête du Travail"));
}

// --- worked_day_count ---

#[test]
fn worked_day_count_normal_week() {
    // Week of April 13 2026 — no holidays
    assert_eq!(worked_day_count(d(2026, 4, 16), &[]), 5);
}

#[test]
fn worked_day_count_with_holiday() {
    // Week of May 1 2026 — Fête du Travail on Friday
    assert_eq!(worked_day_count(d(2026, 5, 1), &[]), 4);
}

#[test]
fn worked_day_count_with_personal_off() {
    // Week Apr 13-17 2026 has no holidays. Friday Apr 17 off → 4 worked.
    assert_eq!(worked_day_count(d(2026, 4, 13), &[d(2026, 4, 17)]), 4);
}

#[test]
fn worked_day_count_with_holiday_and_personal_off() {
    // Week of May 11-15 2026: Thu May 14 = Ascension, Fri May 15 = personal off
    assert_eq!(worked_day_count(d(2026, 5, 12), &[d(2026, 5, 15)]), 3);
}

#[test]
fn worked_day_count_ascension_week_2026() {
    // Ascension 2026 = May 14 (Thursday)
    assert_eq!(worked_day_count(d(2026, 5, 14), &[]), 4);
}

// --- build_llm_prompt ---

#[test]
fn prompt_contains_day_count() {
    let prompt = build_llm_prompt(d(2026, 4, 16), &[]);
    assert!(prompt.contains("5 jours"));
}

#[test]
fn prompt_excludes_holiday_days() {
    // May 1 2026 is Friday (Fête du Travail)
    let prompt = build_llm_prompt(d(2026, 5, 1), &[]);
    assert!(prompt.contains("4 jours"));
    assert!(!prompt.contains("Vendredi")); // holiday day excluded from worked list
}

#[test]
fn prompt_excludes_personal_off_days() {
    // Week Apr 13-17 2026 (no holidays). Friday Apr 17 marked as personal off.
    let prompt = build_llm_prompt(d(2026, 4, 13), &[d(2026, 4, 17)]);
    assert!(prompt.contains("4 jours"));
    assert!(!prompt.contains("Vendredi"));
}

#[test]
fn prompt_contains_valid_pairs_example() {
    let prompt = build_llm_prompt(d(2026, 4, 16), &[]);
    assert!(prompt.contains("12h00"));
    assert!(prompt.contains("13h30"));
}

// --- assemble ---

#[test]
fn assemble_normal_week() {
    let schedule = make_schedule(&[
        ("12h00", "13h00"),
        ("12h30", "13h30"),
        ("13h00", "14h00"),
        ("13h30", "14h30"),
        ("14h00", "15h00"),
    ]);
    let week = assemble(d(2026, 4, 16), &[], &schedule);
    assert_eq!(week.days.len(), 5);
    assert_eq!(week.total_hours, 35);
    assert_eq!(week.off_hours, 0);
    assert!(week.days.iter().all(|d| d.kind == DayKind::Worked));
    assert!(week.days.iter().all(|d| d.schedule.is_some()));
}

#[test]
fn assemble_with_holiday() {
    // May 1 2026 is Friday — Fête du Travail
    let schedule = make_schedule(&[
        ("12h00", "13h00"),
        ("12h30", "13h30"),
        ("13h00", "14h00"),
        ("13h30", "14h30"),
    ]);
    let week = assemble(d(2026, 5, 1), &[], &schedule);
    assert_eq!(week.total_hours, 28); // 4 * 7
    assert_eq!(week.off_hours, 7);
    assert!(matches!(week.days[4].kind, DayKind::Holiday(_)));
    assert!(week.days[4].schedule.is_none());
}

#[test]
fn assemble_with_personal_off() {
    // Week Apr 13-17 2026 (no holidays). Friday Apr 17 personal off.
    let schedule = make_schedule(&[
        ("12h00", "13h00"),
        ("12h30", "13h30"),
        ("13h00", "14h00"),
        ("13h30", "14h30"),
    ]);
    let week = assemble(d(2026, 4, 13), &[d(2026, 4, 17)], &schedule);
    assert_eq!(week.total_hours, 28);
    assert_eq!(week.off_hours, 7);
    assert_eq!(week.days[4].kind, DayKind::Off);
    assert!(week.days[4].schedule.is_none());
}

#[test]
fn assemble_with_holiday_and_personal_off() {
    // Week of May 11-15 2026: Thu May 14 = Ascension, Fri May 15 = personal off
    let schedule = make_schedule(&[
        ("12h00", "13h00"),
        ("12h30", "13h30"),
        ("13h00", "14h00"),
    ]);
    let week = assemble(d(2026, 5, 12), &[d(2026, 5, 15)], &schedule);
    assert_eq!(week.total_hours, 21); // 3 * 7
    assert_eq!(week.off_hours, 14); // 2 * 7
    assert!(matches!(week.days[3].kind, DayKind::Holiday(_)));
    assert_eq!(week.days[4].kind, DayKind::Off);
}

// --- to_mail_body ---

#[test]
fn mail_body_format_normal_week() {
    let schedule = make_schedule(&[
        ("12h00", "13h00"),
        ("12h30", "13h30"),
        ("13h00", "14h00"),
        ("13h30", "14h30"),
        ("14h00", "15h00"),
    ]);
    let week = assemble(d(2026, 4, 16), &[], &schedule);
    let body = week.to_mail_body();

    assert!(body.contains("Lundi 13 avril"));
    assert!(body.contains("Vendredi 17 avril"));
    assert!(body.contains("Pause déjeuner entre 12h00 et 13h00"));
    assert!(body.contains("Temps de travail journalier : 7h."));
    assert!(body.contains("TOTAL DURÉE DE TRAVAIL HEBDOMADAIRE : 35h"));
    assert!(body.contains("TOTAL CONGES HEBDOMADAIRE : 0h"));
}

#[test]
fn mail_body_format_with_holiday() {
    let schedule = make_schedule(&[
        ("12h00", "13h00"),
        ("12h30", "13h30"),
        ("13h00", "14h00"),
        ("13h30", "14h30"),
    ]);
    let week = assemble(d(2026, 5, 1), &[], &schedule);
    let body = week.to_mail_body();

    assert!(body.contains("Férié"));
    assert!(body.contains("Fête du Travail"));
    assert!(body.contains("TOTAL DURÉE DE TRAVAIL HEBDOMADAIRE : 28h"));
    assert!(body.contains("TOTAL CONGES HEBDOMADAIRE : 7h"));
}

#[test]
fn mail_body_format_with_personal_off() {
    // Week Apr 13-17 2026 (no holidays). Friday Apr 17 personal off.
    let schedule = make_schedule(&[
        ("12h00", "13h00"),
        ("12h30", "13h30"),
        ("13h00", "14h00"),
        ("13h30", "14h30"),
    ]);
    let week = assemble(d(2026, 4, 13), &[d(2026, 4, 17)], &schedule);
    let body = week.to_mail_body();
    assert!(body.contains("Vendredi 17 avril - Congé. Temps de travail journalier : 0h."));
    assert!(body.contains("TOTAL DURÉE DE TRAVAIL HEBDOMADAIRE : 28h"));
    assert!(body.contains("TOTAL CONGES HEBDOMADAIRE : 7h"));
}

#[test]
fn range_covering_full_week_marks_all_days_off() {
    // 4-week summer range Aug 3 → Aug 28 2026 (no public holiday in window).
    // Pick a fully-covered week (Aug 10-14).
    let off = expand(d(2026, 8, 3), d(2026, 8, 28));
    let days = week_days(d(2026, 8, 12), &off);
    assert!(days.iter().all(|(_, _, k)| *k == DayKind::Off));
    assert_eq!(worked_day_count(d(2026, 8, 12), &off), 0);
}

#[test]
fn range_partial_at_start_of_range() {
    // Range Aug 3 → Aug 28 2026; Aug 3 is a Monday → full week off.
    let off = expand(d(2026, 8, 3), d(2026, 8, 28));
    let days = week_days(d(2026, 8, 3), &off);
    assert!(days.iter().all(|(_, _, k)| *k == DayKind::Off));
}

#[test]
fn range_partial_at_end_of_range() {
    // Range Aug 3 → Aug 28 2026; Aug 28 is a Friday → final week fully off.
    let off = expand(d(2026, 8, 3), d(2026, 8, 28));
    let days = week_days(d(2026, 8, 24), &off);
    assert!(days.iter().all(|(_, _, k)| *k == DayKind::Off));
    // Following week (Aug 31 - Sep 4) should be fully worked.
    let next = week_days(d(2026, 8, 31), &off);
    assert!(next.iter().all(|(_, _, k)| *k == DayKind::Worked));
}

#[test]
fn range_partial_overlap_week_boundary() {
    // Range Wed Aug 5 → Tue Aug 11 2026 — splits across two weeks, no holidays.
    let off = expand(d(2026, 8, 5), d(2026, 8, 11));
    // Week of Aug 3: Mon/Tue worked, Wed/Thu/Fri off
    let w1 = week_days(d(2026, 8, 3), &off);
    assert_eq!(w1[0].2, DayKind::Worked); // Mon 3
    assert_eq!(w1[1].2, DayKind::Worked); // Tue 4
    assert_eq!(w1[2].2, DayKind::Off); // Wed 5
    assert_eq!(w1[3].2, DayKind::Off); // Thu 6
    assert_eq!(w1[4].2, DayKind::Off); // Fri 7
    // Week of Aug 10: Mon/Tue off, Wed/Thu/Fri worked
    let w2 = week_days(d(2026, 8, 10), &off);
    assert_eq!(w2[0].2, DayKind::Off); // Mon 10
    assert_eq!(w2[1].2, DayKind::Off); // Tue 11
    assert_eq!(w2[2].2, DayKind::Worked); // Wed 12
    assert_eq!(w2[3].2, DayKind::Worked); // Thu 13
    assert_eq!(w2[4].2, DayKind::Worked); // Fri 14
}

#[test]
fn range_spanning_public_holiday() {
    // Range Mon Jul 13 → Fri Jul 17 2026 includes Tue 14 (Fête Nationale).
    // The holiday must still display as "Férié", not "Congé".
    let off = expand(d(2026, 7, 13), d(2026, 7, 17));
    let days = week_days(d(2026, 7, 13), &off);
    assert_eq!(days[0].2, DayKind::Off); // Mon 13
    assert_eq!(days[1].2, DayKind::Holiday("Fête Nationale")); // Tue 14
    assert_eq!(days[2].2, DayKind::Off); // Wed 15
    assert_eq!(days[3].2, DayKind::Off); // Thu 16
    assert_eq!(days[4].2, DayKind::Off); // Fri 17
    // Total off hours = 5 * 7 = 35h (4 personal off + 1 holiday)
    let week = assemble(d(2026, 7, 13), &off, &LlmWeekOutput { days: vec![] });
    assert_eq!(week.total_hours, 0);
    assert_eq!(week.off_hours, 35);
    let body = week.to_mail_body();
    assert!(body.contains("Mardi 14 juillet - Férié (Fête Nationale)"));
    assert_eq!(body.matches("Congé").count(), 4);
}

#[test]
fn fully_off_week_produces_zero_worked_hours() {
    // Range fully covers week of Aug 10-14 2026. LLM gets 0 worked days → empty schedule.
    let off = expand(d(2026, 8, 3), d(2026, 8, 28));
    let schedule = LlmWeekOutput { days: vec![] };
    let week = assemble(d(2026, 8, 12), &off, &schedule);
    assert_eq!(week.total_hours, 0);
    assert_eq!(week.off_hours, 35);
    let body = week.to_mail_body();
    assert!(body.contains("TOTAL DURÉE DE TRAVAIL HEBDOMADAIRE : 0h"));
    assert!(body.contains("TOTAL CONGES HEBDOMADAIRE : 35h"));
    // Every day must be a Congé line, no schedule
    assert_eq!(body.matches("Congé").count(), 5);
}

#[test]
fn prompt_for_fully_off_week_requests_zero_days() {
    let off = expand(d(2026, 8, 3), d(2026, 8, 28));
    let prompt = build_llm_prompt(d(2026, 8, 12), &off);
    assert!(prompt.contains("0 jours"));
}

#[test]
fn off_day_in_future_week_does_not_affect_current_week() {
    // We're computing for week of Apr 13 2026, but off day is Jul 17 2026 — unrelated.
    let off = vec![d(2026, 7, 17)];
    let days = week_days(d(2026, 4, 13), &off);
    assert!(days.iter().all(|(_, _, k)| *k == DayKind::Worked));
    assert_eq!(worked_day_count(d(2026, 4, 13), &off), 5);
}

#[test]
fn mail_body_format_with_holiday_and_personal_off() {
    // Week of May 11 2026: Thu = Ascension (férié), Fri = perso off
    let schedule = make_schedule(&[
        ("12h00", "13h00"),
        ("12h30", "13h30"),
        ("13h00", "14h00"),
    ]);
    let week = assemble(d(2026, 5, 12), &[d(2026, 5, 15)], &schedule);
    let body = week.to_mail_body();
    assert!(body.contains("Jeudi 14 mai - Férié (Ascension)"));
    assert!(body.contains("Vendredi 15 mai - Congé"));
    assert!(body.contains("TOTAL DURÉE DE TRAVAIL HEBDOMADAIRE : 21h"));
    assert!(body.contains("TOTAL CONGES HEBDOMADAIRE : 14h"));
}

#[test]
fn mail_body_no_greetings() {
    let schedule = make_schedule(&[
        ("12h00", "13h00"),
        ("12h30", "13h30"),
        ("13h00", "14h00"),
        ("13h30", "14h30"),
        ("14h00", "15h00"),
    ]);
    let week = assemble(d(2026, 4, 16), &[], &schedule);
    let body = week.to_mail_body();

    // Must NOT contain greetings or signature
    assert!(!body.contains("Bonjour"));
    assert!(!body.contains("Cordialement"));
    assert!(!body.contains("Bonne"));
    // Must start directly with "Lundi"
    assert!(body.starts_with("Lundi"));
}

#[test]
fn mail_body_uses_per_day_month_across_boundary() {
    // Week containing Jan 1 2027 (Friday): Mon Dec 28 → Fri Jan 1.
    // Each day must show its own month, not Monday's.
    let schedule = make_schedule(&[
        ("12h00", "13h00"),
        ("12h30", "13h30"),
        ("13h00", "14h00"),
        ("13h30", "14h30"),
    ]);
    let week = assemble(d(2027, 1, 1), &[], &schedule);
    let body = week.to_mail_body();
    assert!(body.contains("Lundi 28 décembre"));
    assert!(body.contains("Mardi 29 décembre"));
    assert!(body.contains("Mercredi 30 décembre"));
    assert!(body.contains("Jeudi 31 décembre"));
    assert!(body.contains("Vendredi 1 janvier"));
}

#[test]
fn mail_body_april_to_may_2026_no_april_1_for_labour_day() {
    // Reproduces the prod bug: week of May 1 2026 (Fête du Travail Friday)
    // spans Mon Apr 27 → Fri May 1. May 1 must show "1 mai", not "1 avril".
    let schedule = make_schedule(&[
        ("12h00", "13h00"),
        ("12h30", "13h30"),
        ("13h00", "14h00"),
        ("13h30", "14h30"),
    ]);
    let week = assemble(d(2026, 5, 1), &[], &schedule);
    let body = week.to_mail_body();
    assert!(body.contains("Jeudi 30 avril"));
    assert!(body.contains("Vendredi 1 mai"));
    assert!(body.contains("Fête du Travail"));
    assert!(!body.contains("1 avril"));
}

// --- further checks of the library ---

#[test]
fn validate_error_texts_are_exact() {
    let output = make_schedule(&[("12h00", "13h00")]);
    assert_eq!(output.validate(12).unwrap_err(), "expected 12 days, got 1");
    let output = make_schedule(&[("12h00", "13h00"), ("12h30", "14h30")]);
    assert_eq!(output.validate(2).unwrap_err(), "day 2: invalid lunch pair (12h30, 14h30)");
}

#[test]
fn validate_reports_first_invalid_day() {
    let output = make_schedule(&[("12h00", "13h00"), ("11h00", "12h00"), ("9h", "10h")]);
    assert_eq!(output.validate(3).unwrap_err(), "day 2: invalid lunch pair (11h00, 12h00)");
}

#[test]
fn fixed_pairs_validate_when_starts_allowed() {
    let mut output = make_schedule(&[("13h00", "12h00"), ("14h00", "")]);
    output.fix_pairs();
    assert!(output.validate(2).is_ok());
    let mut output = make_schedule(&[("13h00", "12h00"), ("15h00", "")]);
    output.fix_pairs();
    assert_eq!(output.validate(2).unwrap_err(), "day 2: invalid lunch pair (15h00, 13h30)");
}

#[test]
fn fix_pairs_keeps_starts_and_is_idempotent() {
    let mut output = make_schedule(&[("13h30", "x"), ("bad", "y")]);
    output.fix_pairs();
    assert_eq!(output.days[0].lunch_start, "13h30");
    assert_eq!(output.days[1].lunch_start, "bad");
    let before: Vec<String> = output.days.iter().map(|d| d.lunch_end.clone()).collect();
    output.fix_pairs();
    let after: Vec<String> = output.days.iter().map(|d| d.lunch_end.clone()).collect();
    assert_eq!(before, after);
}

#[test]
fn weekday_and_month_names() {
    assert_eq!(weekday_name(0), "Lundi");
    assert_eq!(weekday_name(6), "Dimanche");
    assert_eq!(french_month(2), "février");
    assert_eq!(french_month(8), "août");
    assert_eq!(french_month(13), "???");
    assert_eq!(french_month(0), "???");
}

#[test]
fn assemble_fills_missing_schedules_with_default() {
    let schedule = make_schedule(&[("12h00", "13h00")]);
    let week = assemble(d(2026, 4, 16), &[], &schedule);
    let first = week.days[0].schedule.as_ref().unwrap();
    assert_eq!((first.lunch_start.as_str(), first.lunch_end.as_str()), ("12h00", "13h00"));
    let second = week.days[1].schedule.as_ref().unwrap();
    assert_eq!((second.lunch_start.as_str(), second.lunch_end.as_str()), ("12h30", "13h30"));
    assert_eq!(week.total_hours + week.off_hours, 35);
}

#[test]
fn assemble_takes_schedules_in_order_of_worked_days() {
    // Week of May 11 2026: Thu May 14 is Ascension, so Friday takes the 4th entry.
    let schedule = make_schedule(&[
        ("12h00", "13h00"),
        ("12h30", "13h30"),
        ("13h00", "14h00"),
        ("14h00", "15h00"),
    ]);
    let week = assemble(d(2026, 5, 13), &[], &schedule);
    assert!(week.days[3].schedule.is_none());
    assert_eq!(week.days[4].schedule.as_ref().unwrap().lunch_start, "14h00");
}

#[test]
fn mail_body_exact_lines() {
    let schedule = make_schedule(&[
        ("12h00", "13h00"),
        ("12h30", "13h30"),
        ("13h00", "14h00"),
    ]);
    let week = assemble(d(2026, 5, 12), &[d(2026, 5, 15)], &schedule);
    let body = week.to_mail_body();
    let expected = "Lundi 11 mai - Durée de ma journée de travail : 9h à 17h. Pause déjeuner entre 12h00 et 13h00. Temps de travail journalier : 7h.\n\
Mardi 12 mai - Durée de ma journée de travail : 9h à 17h. Pause déjeuner entre 12h30 et 13h30. Temps de travail journalier : 7h.\n\
Mercredi 13 mai - Durée de ma journée de travail : 9h à 17h. Pause déjeuner entre 13h00 et 14h00. Temps de travail journalier : 7h.\n\
Jeudi 14 mai - Férié (Ascension). Temps de travail journalier : 0h.\n\
Vendredi 15 mai - Congé. Temps de travail journalier : 0h.\n\
\nTOTAL DURÉE DE TRAVAIL HEBDOMADAIRE : 21h\nTOTAL CONGES HEBDOMADAIRE : 14h\n";
    assert_eq!(body, expected);
}

#[test]
fn prompt_lists_worked_days() {
    let prompt = build_llm_prompt(d(2026, 5, 12), &[d(2026, 5, 15)]);
    assert!(prompt.starts_with(
        "Génère un JSON avec des horaires de pause déjeuner pour 3 jours travaillés (Lundi, Mardi, Mercredi).\n\nRÈGLES STRICTES :\n"
    ));
    assert!(prompt.contains("- Exactement 3 entrées dans \"days\"\n"));
    assert!(prompt.ends_with(
        "{\"days\":[{\"lunch_start\":\"12h30\",\"lunch_end\":\"13h30\"},{\"lunch_start\":\"13h00\",\"lunch_end\":\"14h00\"}]}"
    ));
}

#[test]
fn mail_body_lines_have_no_trailing_space() {
    let off = expand(d(2026, 7, 16), d(2026, 7, 17));
    let schedule = make_schedule(&[("12h00", "13h00")]);
    let week = assemble(d(2026, 7, 13), &off, &schedule);
    let body = week.to_mail_body();
    assert!(body.lines().all(|line| !line.ends_with(' ')));
    assert!(body.ends_with("TOTAL CONGES HEBDOMADAIRE : 21h\n"));
}

#[test]
fn reportable_weeks() {
    assert!(week_is_reportable(d(2026, 4, 16)));
    assert!(week_is_reportable(d(0, 1, 7)));
    // Easter of year -2 would fall on February 31, so its holidays cannot be computed.
    assert!(!week_is_reportable(d(-2, 6, 10)));
    // The week of chrono's last day runs past it.
    assert!(!week_is_reportable(d(262142, 12, 31)));
}

#[test]
fn schedule_attempts_stop_after_five() {
    assert_eq!(MAX_SCHEDULE_ATTEMPTS, 5);
    for n in 0..5 {
        assert_eq!(after_failed_attempt(n), AfterFailure::TryAgain);
    }
    assert_eq!(after_failed_attempt(5), AfterFailure::GiveUp);
    assert_eq!(after_failed_attempt(6), AfterFailure::GiveUp);
}
