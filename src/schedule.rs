//! Weekly schedule specifications: time-of-day validation, day names, and the
//! arguments that select them.
use vstd::prelude::*;
use crate::text::{digit_char, owned, push_char, push_str, push_two_digits};

verus! {

/// Value of an ASCII decimal digit.
pub open spec fn digit_value(c: char) -> int {
    c as int - '0' as int
}

pub open spec fn is_digit(c: char) -> bool {
    '0' <= c && c <= '9'
}

/// Two ASCII digits read as a number from 0 to 99.
pub open spec fn two_digit_value(hi: char, lo: char) -> int {
    10 * digit_value(hi) + digit_value(lo)
}

/// `s` is a time of day written `HH:MM`: exactly two digits, a colon and two
/// digits, with the hour at most 23 and the minute at most 59.
pub open spec fn valid_time(s: Seq<char>) -> bool {
    &&& s.len() == 5
    &&& is_digit(s[0]) && is_digit(s[1])
    &&& s[2] == ':'
    &&& is_digit(s[3]) && is_digit(s[4])
    &&& two_digit_value(s[0], s[1]) <= 23
    &&& two_digit_value(s[3], s[4]) <= 59
}

fn char_is_digit(c: char) -> (r: bool)
    ensures
        r == is_digit(c),
{
    '0' <= c && c <= '9'
}

fn digit_of(c: char) -> (r: u8)
    requires
        is_digit(c),
    ensures
        r as int == digit_value(c),
        r <= 9,
{
    (c as u32 - '0' as u32) as u8
}

/// Tells whether `time` is a valid `HH:MM` time of day.
pub fn is_valid_time(time: &str) -> (r: bool)
    ensures
        r == valid_time(time@),
{
    if time.unicode_len() != 5 {
        return false;
    }
    let h1 = time.get_char(0);
    let h0 = time.get_char(1);
    let sep = time.get_char(2);
    let m1 = time.get_char(3);
    let m0 = time.get_char(4);
    if !(char_is_digit(h1) && char_is_digit(h0) && sep == ':' && char_is_digit(m1) && char_is_digit(m0)) {
        return false;
    }
    let hour: u8 = 10 * digit_of(h1) + digit_of(h0);
    let minute: u8 = 10 * digit_of(m1) + digit_of(m0);
    hour <= 23 && minute <= 59
}

/// A day of the week.
#[derive(PartialEq, Eq, Structural, Clone, Copy, Debug)]
pub enum Weekday {
    Sun,
    Mon,
    Tue,
    Wed,
    Thu,
    Fri,
    Sat,
}

/// When a weekly run happens: a day and a time of day.
#[derive(PartialEq, Eq, Structural, Clone, Copy, Debug)]
pub struct ScheduleSpec {
    pub day: Weekday,
    pub hour: u8,
    pub minute: u8,
}

/// Why schedule arguments are refused.
#[derive(PartialEq, Eq, Structural, Clone, Copy, Debug)]
pub enum ScheduleError {
    /// A time that is missing or not a valid `HH:MM`.
    InvalidTime,
    /// A word that names neither a day nor `at`.
    InvalidScheduleOption,
}

impl ScheduleSpec {
    pub open spec fn wf(&self) -> bool {
        self.hour <= 23 && self.minute <= 59
    }

    /// Sunday at midnight, used when nothing else is asked for.
    pub fn default_weekly() -> (r: ScheduleSpec)
        ensures
            r == (ScheduleSpec { day: Weekday::Sun, hour: 0, minute: 0 }),
    {
        ScheduleSpec { day: Weekday::Sun, hour: 0, minute: 0 }
    }
}

/// The three-letter name of a day, as schedulers spell it.
pub open spec fn day_abbreviation(d: Weekday) -> Seq<char> {
    match d {
        Weekday::Sun => "Sun"@,
        Weekday::Mon => "Mon"@,
        Weekday::Tue => "Tue"@,
        Weekday::Wed => "Wed"@,
        Weekday::Thu => "Thu"@,
        Weekday::Fri => "Fri"@,
        Weekday::Sat => "Sat"@,
    }
}

impl Weekday {
    /// The three-letter name of the day.
    pub fn abbreviation(&self) -> (r: &'static str)
        ensures
            r@ == day_abbreviation(*self),
    {
        match self {
            Weekday::Sun => "Sun",
            Weekday::Mon => "Mon",
            Weekday::Tue => "Tue",
            Weekday::Wed => "Wed",
            Weekday::Thu => "Thu",
            Weekday::Fri => "Fri",
            Weekday::Sat => "Sat",
        }
    }
}

/// The day that a lower-case word names, with its accepted short forms.
pub open spec fn day_named(w: Seq<char>) -> Option<Weekday> {
    if w == "su"@ || w == "sun"@ || w == "sunday"@ {
        Some(Weekday::Sun)
    } else if w == "m"@ || w == "mon"@ || w == "monday"@ {
        Some(Weekday::Mon)
    } else if w == "t"@ || w == "tu"@ || w == "tue"@ || w == "tues"@ || w == "tuesday"@ {
        Some(Weekday::Tue)
    } else if w == "w"@ || w == "wed"@ || w == "wednesday"@ {
        Some(Weekday::Wed)
    } else if w == "h"@ || w == "th"@ || w == "thu"@ || w == "thurs"@ || w == "thursday"@ {
        Some(Weekday::Thu)
    } else if w == "f"@ || w == "fri"@ || w == "friday"@ {
        Some(Weekday::Fri)
    } else if w == "s"@ || w == "sa"@ || w == "sat"@ || w == "saturday"@ {
        Some(Weekday::Sat)
    } else {
        None
    }
}

/// What `str::to_lowercase` returns for a text.
pub uninterp spec fn lowercase_of(s: Seq<char>) -> Seq<char>;

/// Relies on `str::to_lowercase`: the result depends on the characters alone.
#[verifier::external_body]
fn lowercase(s: &str) -> (r: String)
    ensures
        r@ == lowercase_of(s@),
{
    s.to_lowercase()
}

/// Tells whether `a` and `b` hold the same characters.
fn text_is(a: &str, b: &str) -> (r: bool)
    ensures
        r == (a@ == b@),
{
    let n = a.unicode_len();
    if n != b.unicode_len() {
        return false;
    }
    let mut i: usize = 0;
    while i < n
        invariant
            n == a@.len(),
            n == b@.len(),
            i <= n,
            forall|j: int| 0 <= j < i ==> a@[j] == b@[j],
        decreases n - i,
    {
        if a.get_char(i) != b.get_char(i) {
            return false;
        }
        i = i + 1;
    }
    assert(a@ =~= b@);
    true
}

/// The day that a word already in lower case names.
pub fn day_from_lowercase(w: &str) -> (r: Option<Weekday>)
    ensures
        r == day_named(w@),
{
    if text_is(w, "su") || text_is(w, "sun") || text_is(w, "sunday") {
        Some(Weekday::Sun)
    } else if text_is(w, "m") || text_is(w, "mon") || text_is(w, "monday") {
        Some(Weekday::Mon)
    } else if text_is(w, "t") || text_is(w, "tu") || text_is(w, "tue") || text_is(w, "tues") || text_is(w, "tuesday") {
        Some(Weekday::Tue)
    } else if text_is(w, "w") || text_is(w, "wed") || text_is(w, "wednesday") {
        Some(Weekday::Wed)
    } else if text_is(w, "h") || text_is(w, "th") || text_is(w, "thu") || text_is(w, "thurs") || text_is(w, "thursday") {
        Some(Weekday::Thu)
    } else if text_is(w, "f") || text_is(w, "fri") || text_is(w, "friday") {
        Some(Weekday::Fri)
    } else if text_is(w, "s") || text_is(w, "sa") || text_is(w, "sat") || text_is(w, "saturday") {
        Some(Weekday::Sat)
    } else {
        None
    }
}

/// The day that a word names, in any letter case.
pub fn parse_day(word: &str) -> (r: Option<Weekday>)
    ensures
        r == day_named(lowercase_of(word@)),
{
    let w = lowercase(word);
    day_from_lowercase(w.as_str())
}

/// The hour of a valid `HH:MM` time.
pub open spec fn hour_of(s: Seq<char>) -> int {
    two_digit_value(s[0], s[1])
}

/// The minute of a valid `HH:MM` time.
pub open spec fn minute_of(s: Seq<char>) -> int {
    two_digit_value(s[3], s[4])
}

/// Reads an `HH:MM` time of day as hour and minute.
pub fn parse_time(time: &str) -> (r: Option<(u8, u8)>)
    ensures
        r.is_some() == valid_time(time@),
        match r {
            Some((h, m)) => h as int == hour_of(time@) && m as int == minute_of(time@),
            None => true,
        },
{
    if !is_valid_time(time) {
        return None;
    }
    let hour: u8 = 10 * digit_of(time.get_char(0)) + digit_of(time.get_char(1));
    let minute: u8 = 10 * digit_of(time.get_char(3)) + digit_of(time.get_char(4));
    Some((hour, minute))
}

/// The schedule that the words after the schedule flag select, starting from
/// `cur`; `lower[i]` is `raw[i]` in lower case. A day name sets the day, `at`
/// followed by a time sets the time, and a later word overrides an earlier
/// one. The first bad word decides the error.
pub open spec fn parse_words(lower: Seq<Seq<char>>, raw: Seq<Seq<char>>, cur: ScheduleSpec) -> Result<ScheduleSpec, ScheduleError>
    decreases raw.len(),
{
    if raw.len() == 0 {
        Ok(cur)
    } else if lower[0] == "at"@ {
        if raw.len() < 2 || !valid_time(raw[1]) {
            Err(ScheduleError::InvalidTime)
        } else {
            parse_words(
                lower.subrange(2, lower.len() as int),
                raw.subrange(2, raw.len() as int),
                ScheduleSpec { day: cur.day, hour: hour_of(raw[1]) as u8, minute: minute_of(raw[1]) as u8 },
            )
        }
    } else {
        match day_named(lower[0]) {
            Some(d) => parse_words(
                lower.drop_first(),
                raw.drop_first(),
                ScheduleSpec { day: d, hour: cur.hour, minute: cur.minute },
            ),
            None => Err(ScheduleError::InvalidScheduleOption),
        }
    }
}

pub open spec fn word_views(v: Seq<String>) -> Seq<Seq<char>> {
    v.map_values(|s: String| s@)
}

/// Each word in lower case.
pub open spec fn lowered_words(ws: Seq<Seq<char>>) -> Seq<Seq<char>> {
    ws.map_values(|w: Seq<char>| lowercase_of(w))
}

/// Reads the words `[DAY] [at HH:MM]` that follow the schedule flag, given
/// each word both in lower case (`lowered`) and as written (`raw`); what is
/// not given stays Sunday at midnight.
pub fn parse_schedule_words(lowered: &Vec<String>, raw: &Vec<String>) -> (r: Result<ScheduleSpec, ScheduleError>)
    requires
        lowered@.len() == raw@.len(),
    ensures
        r == parse_words(word_views(lowered@), word_views(raw@), ScheduleSpec { day: Weekday::Sun, hour: 0, minute: 0 }),
        r.is_ok() ==> r->Ok_0.wf(),
{
    let ghost lo = word_views(lowered@);
    let ghost all = word_views(raw@);
    let mut cur = ScheduleSpec::default_weekly();
    let mut i: usize = 0;
    assert(all.subrange(0, all.len() as int) =~= all);
    assert(lo.subrange(0, lo.len() as int) =~= lo);
    while i < raw.len()
        invariant
            all == word_views(raw@),
            lo == word_views(lowered@),
            lowered@.len() == raw@.len(),
            i <= raw.len(),
            cur.wf(),
            parse_words(lo, all, ScheduleSpec { day: Weekday::Sun, hour: 0, minute: 0 }) == parse_words(
                lo.subrange(i as int, lo.len() as int),
                all.subrange(i as int, all.len() as int),
                cur,
            ),
        decreases raw.len() - i,
    {
        let ghost rest = all.subrange(i as int, all.len() as int);
        let ghost lrest = lo.subrange(i as int, lo.len() as int);
        assert(rest[0] == raw@[i as int]@);
        assert(lrest[0] == lowered@[i as int]@);
        if text_is(lowered[i].as_str(), "at") {
            if i + 1 >= raw.len() {
                return Err(ScheduleError::InvalidTime);
            }
            assert(rest[1] == raw@[i + 1]@);
            match parse_time(raw[i + 1].as_str()) {
                None => {
                    return Err(ScheduleError::InvalidTime);
                },
                Some((h, m)) => {
                    assert(rest.subrange(2, rest.len() as int) =~= all.subrange(i + 2, all.len() as int));
                    assert(lrest.subrange(2, lrest.len() as int) =~= lo.subrange(i + 2, lo.len() as int));
                    cur = ScheduleSpec { day: cur.day, hour: h, minute: m };
                    i = i + 2;
                },
            }
        } else {
            match day_from_lowercase(lowered[i].as_str()) {
                None => {
                    return Err(ScheduleError::InvalidScheduleOption);
                },
                Some(d) => {
                    assert(rest.drop_first() =~= all.subrange(i + 1, all.len() as int));
                    assert(lrest.drop_first() =~= lo.subrange(i + 1, lo.len() as int));
                    cur = ScheduleSpec { day: d, hour: cur.hour, minute: cur.minute };
                    i = i + 1;
                },
            }
        }
    }
    assert(all.subrange(i as int, all.len() as int) =~= Seq::<Seq<char>>::empty());
    Ok(cur)
}

/// Reads the words `[DAY] [at HH:MM]` that follow the schedule flag, in any
/// letter case; what is not given stays Sunday at midnight.
pub fn parse_schedule_args(words: &Vec<String>) -> (r: Result<ScheduleSpec, ScheduleError>)
    ensures
        r == parse_words(
            lowered_words(word_views(words@)),
            word_views(words@),
            ScheduleSpec { day: Weekday::Sun, hour: 0, minute: 0 },
        ),
        r.is_ok() ==> r->Ok_0.wf(),
{
    let mut lowered: Vec<String> = Vec::new();
    let mut i: usize = 0;
    while i < words.len()
        invariant
            i <= words.len(),
            word_views(lowered@) =~= lowered_words(word_views(words@)).subrange(0, i as int),
        decreases words.len() - i,
    {
        let w = lowercase(words[i].as_str());
        assert(word_views(lowered@.push(w)) =~= word_views(lowered@).push(w@));
        lowered.push(w);
        i = i + 1;
    }
    assert(word_views(lowered@) =~= lowered_words(word_views(words@)));
    parse_schedule_words(&lowered, words)
}

/// `n` as exactly two decimal digits.
pub open spec fn two_digits(n: int) -> Seq<char> {
    seq![digit_char((n / 10) as nat), digit_char((n % 10) as nat)]
}

/// The crontab line that runs `exe` from `cwd` every week at `spec`, with the
/// warning prompt switched off.
pub open spec fn cron_line(spec: ScheduleSpec, cwd: Seq<char>, exe: Seq<char>) -> Seq<char> {
    two_digits(spec.minute as int) + " "@ + two_digits(spec.hour as int) + " * * "@ + day_abbreviation(spec.day)
        + " cd "@ + cwd + " && "@ + exe + " --no-warning"@
}

/// The crontab line for a weekly run of `exe` from `cwd`.
pub fn cron_entry(spec: &ScheduleSpec, cwd: &str, exe: &str) -> (r: String)
    requires
        spec.wf(),
    ensures
        r@ == cron_line(*spec, cwd@, exe@),
{
    let mut s = String::new();
    push_two_digits(&mut s, spec.minute);
    push_str(&mut s, " ");
    push_two_digits(&mut s, spec.hour);
    push_str(&mut s, " * * ");
    push_str(&mut s, spec.day.abbreviation());
    push_str(&mut s, " cd ");
    push_str(&mut s, cwd);
    push_str(&mut s, " && ");
    push_str(&mut s, exe);
    push_str(&mut s, " --no-warning");
    assert(s@ =~= cron_line(*spec, cwd@, exe@));
    s
}

/// The Windows task-scheduler command that registers a weekly run of `exe`
/// from `cwd` at `spec`.
pub open spec fn schtasks_line(spec: ScheduleSpec, cwd: Seq<char>, exe: Seq<char>) -> Seq<char> {
    "schtasks /create /tn DataShuffler /tr \"cmd /c cd /d "@ + cwd + " && "@ + exe + " --no-warning\" /sc weekly /d "@
        + day_abbreviation(spec.day) + " /st "@ + two_digits(spec.hour as int) + ":"@ + two_digits(
        spec.minute as int,
    )
}

/// The Windows task-scheduler command for a weekly run of `exe` from `cwd`.
pub fn schtasks_command(spec: &ScheduleSpec, cwd: &str, exe: &str) -> (r: String)
    requires
        spec.wf(),
    ensures
        r@ == schtasks_line(*spec, cwd@, exe@),
{
    let mut s = owned("schtasks /create /tn DataShuffler /tr \"cmd /c cd /d ");
    push_str(&mut s, cwd);
    push_str(&mut s, " && ");
    push_str(&mut s, exe);
    push_str(&mut s, " --no-warning\" /sc weekly /d ");
    push_str(&mut s, spec.day.abbreviation());
    push_str(&mut s, " /st ");
    push_two_digits(&mut s, spec.hour);
    push_str(&mut s, ":");
    push_two_digits(&mut s, spec.minute);
    assert(s@ =~= schtasks_line(*spec, cwd@, exe@));
    s
}

/// `p` occurs somewhere in `s`.
pub open spec fn contains_text(s: Seq<char>, p: Seq<char>) -> bool {
    exists|i: int| 0 <= i && i + p.len() <= s.len() && #[trigger] s.subrange(i, i + p.len()) == p
}

/// What marks a crontab line as one that runs `exe`: the path between spaces.
pub open spec fn entry_marker(exe: Seq<char>) -> Seq<char> {
    seq![' '] + exe + seq![' ']
}

/// The crontab lines that do not run `exe`, in their order.
pub open spec fn without_entries(lines: Seq<Seq<char>>, exe: Seq<char>) -> Seq<Seq<char>>
    decreases lines.len(),
{
    if lines.len() == 0 {
        seq![]
    } else if contains_text(lines.last(), entry_marker(exe)) {
        without_entries(lines.drop_last(), exe)
    } else {
        without_entries(lines.drop_last(), exe).push(lines.last())
    }
}

/// Tells whether `p` occurs in `s`.
fn has_text(s: &str, p: &String) -> (r: bool)
    ensures
        r == contains_text(s@, p@),
{
    let n = s.unicode_len();
    let m = p.unicode_len();
    if m > n {
        assert(!contains_text(s@, p@));
        return false;
    }
    let mut i: usize = 0;
    while i <= n - m
        invariant
            n == s@.len(),
            m == p@.len(),
            m <= n,
            i <= n - m + 1,
            forall|q: int| 0 <= q < i ==> #[trigger] s@.subrange(q, q + m) != p@,
        decreases n - i,
    {
        let mut j: usize = 0;
        while j < m && s.get_char(i + j) == p.as_str().get_char(j)
            invariant
                n == s@.len(),
                m == p@.len(),
                i + m <= n,
                j <= m,
                forall|t: int| 0 <= t < j ==> s@[i + t] == p@[t],
            decreases m - j,
        {
            j = j + 1;
        }
        if j == m {
            assert(s@.subrange(i as int, i + m) =~= p@);
            return true;
        }
        assert(s@.subrange(i as int, i + m)[j as int] != p@[j as int]);
        i = i + 1;
    }
    assert(!contains_text(s@, p@));
    false
}

/// The crontab without the lines that run `exe`: cancelling a schedule.
pub fn remove_entries(lines: &Vec<String>, exe: &str) -> (r: Vec<String>)
    ensures
        word_views(r@) == without_entries(word_views(lines@), exe@),
{
    let mut marker = String::new();
    push_char(&mut marker, ' ');
    push_str(&mut marker, exe);
    push_char(&mut marker, ' ');
    assert(marker@ =~= entry_marker(exe@));
    let ghost lv = word_views(lines@);
    let mut kept: Vec<String> = Vec::new();
    let mut i: usize = 0;
    while i < lines.len()
        invariant
            lv == word_views(lines@),
            marker@ == entry_marker(exe@),
            i <= lines.len(),
            word_views(kept@) == without_entries(lv.subrange(0, i as int), exe@),
        decreases lines.len() - i,
    {
        let ghost pre = lv.subrange(0, i as int);
        let ghost next = lv.subrange(0, i + 1);
        assert(next.drop_last() =~= pre);
        assert(next.last() == lines@[i as int]@);
        if !has_text(lines[i].as_str(), &marker) {
            let l = lines[i].clone();
            assert(word_views(kept@.push(l)) =~= word_views(kept@).push(l@));
            kept.push(l);
        }
        i = i + 1;
    }
    assert(lv.subrange(0, i as int) =~= lv);
    kept
}

/// The crontab with exactly one line that runs `exe`, the one for `spec`:
/// registering a schedule replaces any earlier one.
pub fn add_entry(lines: &Vec<String>, spec: &ScheduleSpec, cwd: &str, exe: &str) -> (r: Vec<String>)
    requires
        spec.wf(),
    ensures
        word_views(r@) == without_entries(word_views(lines@), exe@).push(cron_line(*spec, cwd@, exe@)),
{
    let mut kept = remove_entries(lines, exe);
    let e = cron_entry(spec, cwd, exe);
    assert(word_views(kept@.push(e)) =~= word_views(kept@).push(e@));
    kept.push(e);
    kept
}

proof fn lemma_cron_line_marked(spec: ScheduleSpec, cwd: Seq<char>, exe: Seq<char>)
    ensures
        contains_text(cron_line(spec, cwd, exe), entry_marker(exe)),
{
    reveal_strlit(" && ");
    reveal_strlit(" --no-warning");
    let head = two_digits(spec.minute as int) + " "@ + two_digits(spec.hour as int) + " * * "@
        + day_abbreviation(spec.day) + " cd "@ + cwd + " && "@;
    let line = cron_line(spec, cwd, exe);
    assert(line =~= head + exe + " --no-warning"@);
    let i = head.len() - 1;
    assert(head[i] == ' ');
    assert(line.subrange(i, i + entry_marker(exe).len()) =~= entry_marker(exe));
}

proof fn lemma_without_entries_idempotent(lines: Seq<Seq<char>>, exe: Seq<char>)
    ensures
        without_entries(without_entries(lines, exe), exe) == without_entries(lines, exe),
        forall|i: int|
            0 <= i < without_entries(lines, exe).len() ==> !contains_text(
                #[trigger] without_entries(lines, exe)[i],
                entry_marker(exe),
            ),
    decreases lines.len(),
{
    if lines.len() > 0 {
        lemma_without_entries_idempotent(lines.drop_last(), exe);
        let r = without_entries(lines.drop_last(), exe);
        if !contains_text(lines.last(), entry_marker(exe)) {
            let w = r.push(lines.last());
            assert(w.drop_last() =~= r);
        }
    }
}

/// Cancelling undoes registering: the crontab after a registration and a
/// cancellation is the crontab cancelled alone, whatever it held before.
pub proof fn lemma_cancel_undoes_register(lines: Seq<Seq<char>>, spec: ScheduleSpec, cwd: Seq<char>, exe: Seq<char>)
    ensures
        without_entries(without_entries(lines, exe).push(cron_line(spec, cwd, exe)), exe) == without_entries(
            lines,
            exe,
        ),
{
    lemma_cron_line_marked(spec, cwd, exe);
    lemma_without_entries_idempotent(lines, exe);
    let w = without_entries(lines, exe).push(cron_line(spec, cwd, exe));
    assert(w.drop_last() =~= without_entries(lines, exe));
}

/// Registering is idempotent and keeps a single entry: registering the same
/// schedule twice gives the crontab that registering once gives, and in it the
/// last line is the only one that runs `exe`.
pub proof fn lemma_register_idempotent(lines: Seq<Seq<char>>, spec: ScheduleSpec, cwd: Seq<char>, exe: Seq<char>)
    ensures
        ({
            let once = without_entries(lines, exe).push(cron_line(spec, cwd, exe));
            &&& without_entries(once, exe).push(cron_line(spec, cwd, exe)) == once
            &&& forall|i: int| 0 <= i < once.len() - 1 ==> !contains_text(#[trigger] once[i], entry_marker(exe))
            &&& contains_text(once.last(), entry_marker(exe))
        }),
{
    lemma_cancel_undoes_register(lines, spec, cwd, exe);
    lemma_without_entries_idempotent(lines, exe);
    lemma_cron_line_marked(spec, cwd, exe);
    let once = without_entries(lines, exe).push(cron_line(spec, cwd, exe));
    assert forall|i: int| 0 <= i < once.len() - 1 implies !contains_text(#[trigger] once[i], entry_marker(exe)) by {
        assert(once[i] == without_entries(lines, exe)[i]);
    }
}

} // verus!
