use midimi::library::{
    builtin_column, find_soundfont, now_unix, soundfont_display_name, soundfont_name_for_path,
    soundfont_row_from_columns, unix_secs_or_zero, Setting, SoundfontRow,
};

fn row(id: i64, name: &str) -> SoundfontRow {
    SoundfontRow { id, path: format!("/{name}.sf2"), name: name.to_string(), is_builtin: false }
}

#[test]
fn find_soundfont_picks_the_row_with_the_id() {
    let rows = vec![row(1, "a"), row(2, "b"), row(2, "c")];
    let found = find_soundfont(rows, 2).unwrap();
    assert_eq!(found.name, "b");
}

#[test]
fn find_soundfont_reports_an_unknown_id() {
    let rows = vec![row(1, "a")];
    assert_eq!(find_soundfont(rows, 7).unwrap_err(), "unknown soundfont id");
    assert_eq!(find_soundfont(Vec::new(), 1).unwrap_err(), "unknown soundfont id");
}

#[test]
fn builtin_flag_round_trips_through_its_column() {
    for b in [true, false] {
        let r = soundfont_row_from_columns(3, "/x.sf2".into(), "x".into(), builtin_column(b));
        assert_eq!(r.is_builtin, b);
    }
    assert_eq!(builtin_column(true), 1);
    assert_eq!(builtin_column(false), 0);
    assert!(soundfont_row_from_columns(1, String::new(), String::new(), -5).is_builtin);
}

#[test]
fn soundfont_names_come_from_the_file_stem() {
    assert_eq!(soundfont_name_for_path("/fonts/GeneralUser GS.sf2"), "GeneralUser GS");
    assert_eq!(soundfont_name_for_path("/"), "SoundFont");
    assert_eq!(soundfont_name_for_path(""), "SoundFont");
    assert_eq!(soundfont_name_for_path("GeneralUser"), "GeneralUser");
    assert_eq!(soundfont_name_for_path("/fonts/gm.sf2"), "gm");
    assert_eq!(soundfont_name_for_path("fonts/a.b.sf2"), "a.b");
    assert_eq!(soundfont_display_name(None), "SoundFont");
    assert_eq!(soundfont_display_name(Some("Piano".to_string())), "Piano");
}

#[test]
fn unix_time_falls_back_to_zero() {
    assert_eq!(unix_secs_or_zero(None), 0);
    assert_eq!(unix_secs_or_zero(Some(1_700_000_000)), 1_700_000_000);
    assert_eq!(unix_secs_or_zero(Some(u64::MAX)), -1);
    assert!(now_unix() > 1_600_000_000);
}

#[test]
fn settings_hold_text() {
    let s = Setting { key: "theme".into(), value: "aurora".into() };
    assert_eq!(s.clone().value, "aurora");
}
