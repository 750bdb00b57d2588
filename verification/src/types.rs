use vstd::prelude::*;
use vstd::std_specs::cmp::PartialEqSpecImpl;

verus! {

/// Whether two optional strings hold the same text.
pub open spec fn opt_text_eq(a: Option<String>, b: Option<String>) -> bool {
    match (a, b) {
        (Some(x), Some(y)) => x@ == y@,
        (None, None) => true,
        _ => false,
    }
}

pub fn opt_string_eq(a: &Option<String>, b: &Option<String>) -> (r: bool)
    ensures
        r == opt_text_eq(*a, *b),
{
    match (a, b) {
        (Some(x), Some(y)) => *x == *y,
        (None, None) => true,
        _ => false,
    }
}

/// How a string value was quoted in the source text.
#[derive(Debug, Clone, Copy, PartialEq, Eq, Structural)]
pub enum StrType {
    Basic,
    MLBasic,
    Literal,
    MLLiteral,
}

/// `+` or `-` and the hours and minutes of an offset from UTC.
#[derive(Debug, Clone)]
pub struct TimeOffsetAmount {
    pub pos_neg: String,
    pub hour: String,
    pub minute: String,
}

impl TimeOffsetAmount {
    pub fn new_str(pos_neg: &str, hour: &str, minute: &str) -> (r: TimeOffsetAmount)
        ensures
            r.pos_neg@ == pos_neg@,
            r.hour@ == hour@,
            r.minute@ == minute@,
    {
        TimeOffsetAmount {
            pos_neg: String::from_str(pos_neg),
            hour: String::from_str(hour),
            minute: String::from_str(minute),
        }
    }

    pub open spec fn same(&self, other: &TimeOffsetAmount) -> bool {
        &&& self.pos_neg@ == other.pos_neg@
        &&& self.hour@ == other.hour@
        &&& self.minute@ == other.minute@
    }

    /// `<pos_neg><hour>:<minute>`
    pub open spec fn text(&self) -> Seq<char> {
        self.pos_neg@ + self.hour@ + seq![':'] + self.minute@
    }

    pub fn to_string(&self) -> (s: String)
        ensures
            s@ == self.text(),
    {
        let mut s = String::new();
        s.append(self.pos_neg.as_str());
        s.append(self.hour.as_str());
        s.append(":");
        s.append(self.minute.as_str());
        proof {
            reveal_strlit(":");
        }
        s
    }
}

impl PartialEq for TimeOffsetAmount {
    fn eq(&self, other: &TimeOffsetAmount) -> (r: bool) {
        self.pos_neg == other.pos_neg && self.hour == other.hour && self.minute == other.minute
    }
}

impl PartialEqSpecImpl for TimeOffsetAmount {
    open spec fn obeys_eq_spec() -> bool {
        true
    }

    open spec fn eq_spec(&self, other: &TimeOffsetAmount) -> bool {
        self.same(other)
    }
}

} // verus!

verus! {

/// The offset part of a time: `Z` or an explicit amount.
#[derive(Debug, Clone)]
pub enum TimeOffset {
    Zulu,
    Time(TimeOffsetAmount),
}

impl TimeOffset {
    pub open spec fn same(&self, other: &TimeOffset) -> bool {
        match (self, other) {
            (TimeOffset::Zulu, TimeOffset::Zulu) => true,
            (TimeOffset::Time(a), TimeOffset::Time(b)) => a.same(b),
            _ => false,
        }
    }

    /// `Z`, or the amount's text.
    pub open spec fn text(&self) -> Seq<char> {
        match self {
            TimeOffset::Zulu => seq!['Z'],
            TimeOffset::Time(a) => a.text(),
        }
    }

    pub fn to_string(&self) -> (s: String)
        ensures
            s@ == self.text(),
    {
        match self {
            TimeOffset::Zulu => {
                proof {
                    reveal_strlit("Z");
                }
                String::from_str("Z")
            },
            TimeOffset::Time(a) => a.to_string(),
        }
    }
}

impl PartialEq for TimeOffset {
    fn eq(&self, other: &TimeOffset) -> (r: bool) {
        match (self, other) {
            (TimeOffset::Zulu, TimeOffset::Zulu) => true,
            (TimeOffset::Time(a), TimeOffset::Time(b)) => a == b,
            _ => false,
        }
    }
}

impl PartialEqSpecImpl for TimeOffset {
    open spec fn obeys_eq_spec() -> bool {
        true
    }

    open spec fn eq_spec(&self, other: &TimeOffset) -> bool {
        self.same(other)
    }
}

/// A calendar date as written: year, month and day digits.
#[derive(Debug, Clone)]
pub struct Date {
    pub year: String,
    pub month: String,
    pub day: String,
}

impl Date {
    pub fn new_str(year: &str, month: &str, day: &str) -> (r: Date)
        ensures
            r.year@ == year@,
            r.month@ == month@,
            r.day@ == day@,
    {
        Date { year: String::from_str(year), month: String::from_str(month), day: String::from_str(day) }
    }

    pub open spec fn same(&self, other: &Date) -> bool {
        &&& self.year@ == other.year@
        &&& self.month@ == other.month@
        &&& self.day@ == other.day@
    }

    /// `<year>-<month>-<day>`
    pub open spec fn text(&self) -> Seq<char> {
        self.year@ + seq!['-'] + self.month@ + seq!['-'] + self.day@
    }

    pub fn to_string(&self) -> (s: String)
        ensures
            s@ == self.text(),
    {
        proof {
            reveal_strlit("-");
        }
        let mut s = String::new();
        s.append(self.year.as_str());
        s.append("-");
        s.append(self.month.as_str());
        s.append("-");
        s.append(self.day.as_str());
        s
    }
}

impl PartialEq for Date {
    fn eq(&self, other: &Date) -> (r: bool) {
        self.year == other.year && self.month == other.month && self.day == other.day
    }
}

impl PartialEqSpecImpl for Date {
    open spec fn obeys_eq_spec() -> bool {
        true
    }

    open spec fn eq_spec(&self, other: &Date) -> bool {
        self.same(other)
    }
}

/// A time of day as written, with an optional fraction of a second and offset.
#[derive(Debug, Clone)]
pub struct Time {
    pub hour: String,
    pub minute: String,
    pub second: String,
    pub fraction: Option<String>,
    pub offset: Option<TimeOffset>,
}

pub open spec fn opt_offset_same(a: Option<TimeOffset>, b: Option<TimeOffset>) -> bool {
    match (a, b) {
        (Some(x), Some(y)) => x.same(&y),
        (None, None) => true,
        _ => false,
    }
}

impl Time {
    pub fn new_str(
        hour: &str,
        minute: &str,
        second: &str,
        fraction: Option<&str>,
        offset: Option<TimeOffset>,
    ) -> (r: Time)
        ensures
            r.hour@ == hour@,
            r.minute@ == minute@,
            r.second@ == second@,
            r.fraction.is_some() == fraction.is_some(),
            fraction.is_some() ==> r.fraction.unwrap()@ == fraction.unwrap()@,
            r.offset == offset,
    {
        let fraction = match fraction {
            Some(f) => Some(String::from_str(f)),
            None => None,
        };
        Time {
            hour: String::from_str(hour),
            minute: String::from_str(minute),
            second: String::from_str(second),
            fraction,
            offset,
        }
    }

    pub open spec fn same(&self, other: &Time) -> bool {
        &&& self.hour@ == other.hour@
        &&& self.minute@ == other.minute@
        &&& self.second@ == other.second@
        &&& opt_text_eq(self.fraction, other.fraction)
        &&& opt_offset_same(self.offset, other.offset)
    }

    /// `<hour>:<minute>:<second>`, then `.<fraction>` and the offset where present.
    pub open spec fn text(&self) -> Seq<char> {
        let hms = self.hour@ + seq![':'] + self.minute@ + seq![':'] + self.second@;
        let frac = match self.fraction {
            Some(f) => seq!['.'] + f@,
            None => Seq::empty(),
        };
        let off = match self.offset {
            Some(o) => o.text(),
            None => Seq::empty(),
        };
        hms + frac + off
    }

    pub fn to_string(&self) -> (s: String)
        ensures
            s@ == self.text(),
    {
        proof {
            reveal_strlit(":");
            reveal_strlit(".");
        }
        let mut s = String::new();
        s.append(self.hour.as_str());
        s.append(":");
        s.append(self.minute.as_str());
        s.append(":");
        s.append(self.second.as_str());
        if let Some(f) = &self.fraction {
            s.append(".");
            s.append(f.as_str());
        }
        if let Some(o) = &self.offset {
            let os = o.to_string();
            s.append(os.as_str());
        }
        s
    }
}

impl PartialEq for Time {
    fn eq(&self, other: &Time) -> (r: bool) {
        let off = match (&self.offset, &other.offset) {
            (Some(x), Some(y)) => x == y,
            (None, None) => true,
            _ => false,
        };
        self.hour == other.hour && self.minute == other.minute && self.second == other.second
            && opt_string_eq(&self.fraction, &other.fraction) && off
    }
}

impl PartialEqSpecImpl for Time {
    open spec fn obeys_eq_spec() -> bool {
        true
    }

    open spec fn eq_spec(&self, other: &Time) -> bool {
        self.same(other)
    }
}

/// A date, optionally followed by `T` and a time.
#[derive(Debug, Clone)]
pub struct DateTime {
    pub date: Date,
    pub time: Option<Time>,
}

impl DateTime {
    pub fn new(date: Date, time: Option<Time>) -> (r: DateTime)
        ensures
            r.date == date,
            r.time == time,
    {
        DateTime { date, time }
    }

    pub open spec fn same(&self, other: &DateTime) -> bool {
        &&& self.date.same(&other.date)
        &&& match (self.time, other.time) {
            (Some(x), Some(y)) => x.same(&y),
            (None, None) => true,
            _ => false,
        }
    }

    /// The date, then `T<time>` where there is a time.
    pub open spec fn text(&self) -> Seq<char> {
        match self.time {
            Some(t) => self.date.text() + seq!['T'] + t.text(),
            None => self.date.text(),
        }
    }

    pub fn to_string(&self) -> (s: String)
        ensures
            s@ == self.text(),
    {
        let mut s = self.date.to_string();
        if let Some(t) = &self.time {
            proof {
                reveal_strlit("T");
            }
            s.append("T");
            let ts = t.to_string();
            s.append(ts.as_str());
        }
        s
    }
}

impl PartialEq for DateTime {
    fn eq(&self, other: &DateTime) -> (r: bool) {
        let t = match (&self.time, &other.time) {
            (Some(x), Some(y)) => x == y,
            (None, None) => true,
            _ => false,
        };
        self.date == other.date && t
    }
}

impl PartialEqSpecImpl for DateTime {
    open spec fn obeys_eq_spec() -> bool {
        true
    }

    open spec fn eq_spec(&self, other: &DateTime) -> bool {
        self.same(other)
    }
}

/// The names of a run of keys.
pub open spec fn key_names(v: Seq<String>) -> Seq<Seq<char>> {
    v.map_values(|s: String| s@)
}

/// What an entry knows of the keys below it, as numbers and texts.
pub enum SubkeysView {
    Count(nat),
    Keys(Seq<Seq<char>>),
}

impl View for Children {
    type V = SubkeysView;

    open spec fn view(&self) -> SubkeysView {
        match self {
            Children::Count(c) => SubkeysView::Count(*c as nat),
            Children::Keys(k) => SubkeysView::Keys(key_names(k@)),
        }
    }
}

/// What a key of the document knows of the keys below it: for an array of
/// tables, how many tables it holds; otherwise the names of its direct subkeys,
/// each once, in the order they were added.
#[derive(Debug, Clone)]
pub enum Children {
    Count(usize),
    Keys(Vec<String>),
}

} // verus!
