//! The declarative configuration: the entries to watch and the poll interval.
use vstd::prelude::*;

verus! {

/// Number of nanoseconds in one second.
pub const NANOS_PER_SEC: u32 = 1_000_000_000;

/// Poll interval used when the configuration gives none, in seconds.
pub const DEFAULT_POLL_SECS: u64 = 30;

/// Time between two poll ticks: whole seconds and a sub-second part.
#[derive(Clone, Copy, Debug, PartialEq, Eq, Structural)]
pub struct PollInterval {
    pub secs: u64,
    pub nanos: u32,
}

impl PollInterval {
    pub open spec fn wf(self) -> bool {
        self.nanos < NANOS_PER_SEC
    }

    /// The interval in nanoseconds.
    pub open spec fn total_nanos(self) -> int {
        self.secs * 1_000_000_000 + self.nanos
    }

    /// The interval used when none is configured.
    pub fn default_interval() -> (r: PollInterval)
        ensures
            r.secs == DEFAULT_POLL_SECS,
            r.nanos == 0,
            r.wf(),
    {
        PollInterval { secs: DEFAULT_POLL_SECS, nanos: 0 }
    }
}

/// A configured endpoint. `name` identifies it; `polling_url`, where present,
/// is probed instead of `public_url`.
#[derive(Clone, Debug)]
pub struct Entry {
    pub name: String,
    pub public_url: String,
    pub polling_url: Option<String>,
}

/// The view of an optional URL.
pub open spec fn opt_view(o: Option<String>) -> Option<Seq<char>> {
    match o {
        Some(s) => Some(s@),
        None => None,
    }
}

/// The mathematical content of a configured entry.
pub struct EntryView {
    pub name: Seq<char>,
    pub public_url: Seq<char>,
    pub polling_url: Option<Seq<char>>,
}

impl View for Entry {
    type V = EntryView;

    open spec fn view(&self) -> EntryView {
        EntryView {
            name: self.name@,
            public_url: self.public_url@,
            polling_url: opt_view(self.polling_url),
        }
    }
}

/// The configured entries in mathematical form.
pub open spec fn cfg_view(es: Seq<Entry>) -> Seq<EntryView> {
    es.map_values(|e: Entry| e@)
}

/// Whether a configured entry carries the name `n`.
pub open spec fn cfg_has(cs: Seq<EntryView>, n: Seq<char>) -> bool {
    exists|j: int| 0 <= j < cs.len() && (#[trigger] cs[j]).name == n
}

/// The whole configuration.
pub struct Config {
    pub poll_interval: Option<PollInterval>,
    pub entries: Vec<Entry>,
}

/// Why a configuration is rejected.
#[derive(Debug)]
pub enum ConfigError {
    /// The poll interval text is not a duration.
    InvalidPollInterval(String),
    /// Two configured entries share this name.
    DuplicateName(String),
}

/// What `parse_duration::parse` makes of a text: seconds and nanoseconds, or
/// nothing where it rejects the text.
pub uninterp spec fn parsed_duration(s: Seq<char>) -> Option<(u64, u32)>;

/// The error type of `parse_duration::parse`, carried through unread.
#[verifier::external_type_specification]
#[verifier::external_body]
pub struct ExParseDurationError(parse_duration::parse::Error);

/// Relies on `parse_duration::parse`: it reads a duration from a text and
/// depends on the text alone; the `Duration` it returns keeps its sub-second
/// part under one second.
#[verifier::external_body]
fn parse_duration_text(s: &str) -> (r: Result<(u64, u32), parse_duration::parse::Error>)
    ensures
        match r {
            Ok(v) => parsed_duration(s@) == Some(v) && v.1 < NANOS_PER_SEC,
            Err(_) => parsed_duration(s@) is None,
        },
{
    match parse_duration::parse(s) {
        Ok(d) => Ok((d.as_secs(), d.subsec_nanos())),
        Err(e) => Err(e),
    }
}

/// Reads the optional poll interval of the configuration: absent stays absent,
/// a text is parsed as a duration.
pub fn deser_duration(text: Option<&str>) -> (r: Result<Option<PollInterval>, ConfigError>)
    ensures
        text is None ==> r is Ok && r->Ok_0 is None,
        text is Some ==> match parsed_duration(text->Some_0@) {
            Some(v) => r is Ok && r->Ok_0 == Some(PollInterval { secs: v.0, nanos: v.1 }),
            None => r is Err && r->Err_0 is InvalidPollInterval
                && r->Err_0->InvalidPollInterval_0@ == text->Some_0@,
        },
        r is Ok && r->Ok_0 is Some ==> r->Ok_0->Some_0.wf(),
{
    match text {
        None => Ok(None),
        Some(t) => match parse_duration_text(t) {
            Ok(v) => Ok(Some(PollInterval { secs: v.0, nanos: v.1 })),
            Err(_) => Err(ConfigError::InvalidPollInterval(t.to_string())),
        },
    }
}

impl Config {
    /// The configured poll interval, or thirty seconds where none is given.
    pub fn poll_interval_or_default(&self) -> (r: PollInterval)
        ensures
            r == match self.poll_interval {
                Some(p) => p,
                None => PollInterval { secs: DEFAULT_POLL_SECS, nanos: 0 },
            },
    {
        match self.poll_interval {
            Some(p) => p,
            None => PollInterval::default_interval(),
        }
    }
}

/// No two configured entries share a name.
pub open spec fn cfg_names_unique(cs: Seq<EntryView>) -> bool {
    forall|i: int, j: int| 0 <= i < j < cs.len() ==> (#[trigger] cs[i]).name != (#[trigger] cs[j]).name
}

/// Accepts a list of configured entries only where no two share a name;
/// otherwise names a repeated one.
pub fn check_entries(entries: &Vec<Entry>) -> (r: Result<(), ConfigError>)
    ensures
        r is Ok <==> cfg_names_unique(cfg_view(entries@)),
        r is Err ==> r->Err_0 is DuplicateName && exists|i: int, j: int|
            0 <= i < j < entries@.len() && (#[trigger] entries@[i]).name@ == r->Err_0->DuplicateName_0@
                && (#[trigger] entries@[j]).name@ == r->Err_0->DuplicateName_0@,
{
    let ghost cs = cfg_view(entries@);
    let mut j: usize = 0;
    while j < entries.len()
        invariant
            j <= entries.len(),
            cs == cfg_view(entries@),
            forall|a: int, b: int| 0 <= a < b < j ==> (#[trigger] cs[a]).name != (#[trigger] cs[b]).name,
        decreases entries.len() - j,
    {
        let mut i: usize = 0;
        while i < j
            invariant
                i <= j < entries.len(),
                cs == cfg_view(entries@),
                forall|a: int| 0 <= a < i ==> (#[trigger] cs[a]).name != cs[j as int].name,
            decreases j - i,
        {
            if entries[i].name == entries[j].name {
                assert(cs[i as int].name == cs[j as int].name);
                return Err(ConfigError::DuplicateName(entries[j].name.clone()));
            }
            i = i + 1;
        }
        j = j + 1;
    }
    Ok(())
}

} // verus!
