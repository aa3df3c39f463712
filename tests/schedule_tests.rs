use data_shuffler::schedule::{
    add_entry, cron_entry, day_from_lowercase, is_valid_time, parse_day, parse_schedule_args, parse_schedule_words,
    parse_time,
    remove_entries, schtasks_command, ScheduleError, ScheduleSpec, Weekday,
};

fn words(ws: &[&str]) -> Vec<String> {
    ws.iter().map(|w| w.to_string()).collect()
}

#[test]
fn valid_time_examples() {
    assert!(is_valid_time("00:00"));
    assert!(!is_valid_time("24:00"));
    assert!(!is_valid_time("9:5"));
}

#[test]
fn valid_time_bounds() {
    assert!(is_valid_time("23:59"));
    assert!(is_valid_time("13:30"));
    assert!(!is_valid_time("23:60"));
    assert!(!is_valid_time("12-30"));
    assert!(!is_valid_time("ab:cd"));
    assert!(!is_valid_time(""));
    assert!(!is_valid_time("12:30:00"));
    assert!(!is_valid_time("09:5"));
}

#[test]
fn time_is_read_as_hour_and_minute() {
    assert_eq!(parse_time("07:45"), Some((7, 45)));
    assert_eq!(parse_time("23:09"), Some((23, 9)));
    assert_eq!(parse_time("24:00"), None);
}

#[test]
fn day_names_and_short_forms() {
    assert_eq!(day_from_lowercase("su"), Some(Weekday::Sun));
    assert_eq!(day_from_lowercase("monday"), Some(Weekday::Mon));
    assert_eq!(day_from_lowercase("tues"), Some(Weekday::Tue));
    assert_eq!(day_from_lowercase("w"), Some(Weekday::Wed));
    assert_eq!(day_from_lowercase("h"), Some(Weekday::Thu));
    assert_eq!(day_from_lowercase("f"), Some(Weekday::Fri));
    assert_eq!(day_from_lowercase("s"), Some(Weekday::Sat));
    assert_eq!(day_from_lowercase("x"), None);
    assert_eq!(day_from_lowercase("Mon"), None);
}

#[test]
fn day_names_ignore_case() {
    assert_eq!(parse_day("MONDAY"), Some(Weekday::Mon));
    assert_eq!(parse_day("Fri"), Some(Weekday::Fri));
    assert_eq!(parse_day("ThUrS"), Some(Weekday::Thu));
    assert_eq!(parse_day("someday"), None);
}

#[test]
fn schedule_defaults_to_sunday_midnight() {
    let spec = parse_schedule_args(&words(&[])).unwrap();
    assert_eq!(spec, ScheduleSpec { day: Weekday::Sun, hour: 0, minute: 0 });
    assert_eq!(ScheduleSpec::default_weekly(), spec);
}

#[test]
fn schedule_day_and_time() {
    let spec = parse_schedule_args(&words(&["wed", "at", "13:30"])).unwrap();
    assert_eq!(spec, ScheduleSpec { day: Weekday::Wed, hour: 13, minute: 30 });
    let spec = parse_schedule_args(&words(&["AT", "06:05"])).unwrap();
    assert_eq!(spec, ScheduleSpec { day: Weekday::Sun, hour: 6, minute: 5 });
    let spec = parse_schedule_args(&words(&["Saturday"])).unwrap();
    assert_eq!(spec, ScheduleSpec { day: Weekday::Sat, hour: 0, minute: 0 });
}

#[test]
fn schedule_rejects_bad_time() {
    assert_eq!(parse_schedule_args(&words(&["mon", "at", "25:00"])), Err(ScheduleError::InvalidTime));
    assert_eq!(parse_schedule_args(&words(&["mon", "at"])), Err(ScheduleError::InvalidTime));
    assert_eq!(parse_schedule_args(&words(&["at", "9:5"])), Err(ScheduleError::InvalidTime));
}

#[test]
fn schedule_rejects_unknown_word() {
    assert_eq!(parse_schedule_args(&words(&["someday"])), Err(ScheduleError::InvalidScheduleOption));
    assert_eq!(
        parse_schedule_args(&words(&["mon", "noon"])),
        Err(ScheduleError::InvalidScheduleOption)
    );
}

#[test]
fn cron_line_for_spec() {
    let spec = ScheduleSpec { day: Weekday::Tue, hour: 7, minute: 5 };
    assert_eq!(
        cron_entry(&spec, "/home/u", "/usr/bin/shuffler"),
        "05 07 * * Tue cd /home/u && /usr/bin/shuffler --no-warning"
    );
}

#[test]
fn schtasks_line_for_spec() {
    let spec = ScheduleSpec { day: Weekday::Fri, hour: 23, minute: 0 };
    assert_eq!(
        schtasks_command(&spec, "C:\\data", "C:\\bin\\shuffler.exe"),
        "schtasks /create /tn DataShuffler /tr \"cmd /c cd /d C:\\data && C:\\bin\\shuffler.exe --no-warning\" /sc weekly /d Fri /st 23:00"
    );
}

#[test]
fn cancel_removes_only_our_lines() {
    let table = words(&[
        "0 1 * * * backup.sh",
        "00 00 * * Sun cd /w && /usr/bin/shuffler --no-warning",
        "5 5 * * * /usr/bin/shuffler-other run",
    ]);
    let kept = remove_entries(&table, "/usr/bin/shuffler");
    assert_eq!(kept, words(&["0 1 * * * backup.sh", "5 5 * * * /usr/bin/shuffler-other run"]));
    assert_eq!(remove_entries(&words(&[]), "/usr/bin/shuffler"), words(&[]));
}

#[test]
fn register_replaces_earlier_entry() {
    let spec = ScheduleSpec { day: Weekday::Mon, hour: 12, minute: 30 };
    let table = words(&["0 1 * * * backup.sh", "00 00 * * Sun cd /w && /usr/bin/shuffler --no-warning"]);
    let once = add_entry(&table, &spec, "/w", "/usr/bin/shuffler");
    assert_eq!(
        once,
        words(&["0 1 * * * backup.sh", "30 12 * * Mon cd /w && /usr/bin/shuffler --no-warning"])
    );
    let twice = add_entry(&once, &spec, "/w", "/usr/bin/shuffler");
    assert_eq!(twice, once);
    assert_eq!(remove_entries(&once, "/usr/bin/shuffler"), words(&["0 1 * * * backup.sh"]));
}

#[test]
fn lowered_words_select_day_and_time() {
    let spec = parse_schedule_words(&words(&["mon", "at", "13:30"]), &words(&["Mon", "at", "13:30"])).unwrap();
    assert_eq!(spec, ScheduleSpec { day: Weekday::Mon, hour: 13, minute: 30 });
    assert_eq!(
        parse_schedule_words(&words(&["mon", "at", "9:5"]), &words(&["MON", "AT", "9:5"])),
        Err(ScheduleError::InvalidTime)
    );
    assert_eq!(
        parse_schedule_words(&words(&["Mon"]), &words(&["Mon"])),
        Err(ScheduleError::InvalidScheduleOption)
    );
}
