//! The configuration as it stands once its text has been read, and the
//! test that admits it.

use vstd::prelude::*;

verus! {

/// A simulation's configuration: the processes' service and arrival times,
/// in the order in which they were configured, and the two quanta.
#[derive(Debug)]
pub struct Config {
    pub pr_count: i32,
    pub service_times: Vec<i32>,
    pub arrival_times: Vec<i64>,
    pub rr_quantum: i32,
    pub multi_level_rr_quantum: i32,
}

/// Why a configuration was refused.
#[derive(Clone, Copy, Debug, PartialEq, Eq, Structural)]
pub enum ConfigurationError {
    /// The text has fewer lines than a configuration takes.
    TooFewLines,
    /// A number of the text cannot be read.
    Malformed,
    /// The two lists of times are not both as long as the process count says.
    LengthMismatch,
    /// There are more processes than letters to name them by.
    TooManyProcesses,
}

/// The largest number of processes that a configuration can hold: one for
/// each letter.
pub const MAX_PROCESSES: usize = 26;

/// Whether a configuration of `count` processes with `services` service times
/// and `arrivals` arrival times is refused, and why.
pub open spec fn config_refusal(count: int, services: int, arrivals: int) -> Option<ConfigurationError> {
    if count != services || count != arrivals {
        Some(ConfigurationError::LengthMismatch)
    } else if count > MAX_PROCESSES {
        Some(ConfigurationError::TooManyProcesses)
    } else {
        None
    }
}

/// The lines that a configuration takes: the process count, the service
/// times, the arrival times and the two quanta.
pub const CONFIG_LINES: usize = 5;

/// What `parse` of std reads from `text` as an `i32`, if anything.
pub uninterp spec fn parsed_i32(text: Seq<char>) -> Option<i32>;

/// What `parse` of std reads from `text` as an `i64`, if anything.
pub uninterp spec fn parsed_i64(text: Seq<char>) -> Option<i64>;

/// `text` as `trim` of std leaves it: without the white space at its ends.
pub uninterp spec fn trimmed(text: Seq<char>) -> Seq<char>;

/// The pieces of `text` between its commas, in their order: one more than
/// there are commas.
pub open spec fn comma_split(text: Seq<char>) -> Seq<Seq<char>>
    decreases text.len(),
{
    if text.len() == 0 {
        seq![Seq::empty()]
    } else if text.last() == ',' {
        comma_split(text.drop_last()).push(Seq::empty())
    } else {
        let before = comma_split(text.drop_last());
        before.update(before.len() - 1, before.last().push(text.last()))
    }
}

/// The texts of a list of strings, in the list's order.
pub open spec fn texts(lines: Seq<String>) -> Seq<Seq<char>> {
    lines.map_values(|line: String| line@)
}

/// Reads an `i32`.
///
/// Calls `str::parse::<i32>` of std, and gives its result the name
/// `parsed_i32`; an error of std becomes `None`.
#[verifier::external_body]
fn parse_i32(text: &str) -> (r: Option<i32>)
    ensures
        r == parsed_i32(text@),
{
    text.parse::<i32>().ok()
}

/// Reads an `i64`.
///
/// Calls `str::parse::<i64>` of std, and gives its result the name
/// `parsed_i64`; an error of std becomes `None`.
#[verifier::external_body]
fn parse_i64(text: &str) -> (r: Option<i64>)
    ensures
        r == parsed_i64(text@),
{
    text.parse::<i64>().ok()
}

/// Takes the white space from both ends.
///
/// Calls `str::trim` of std, and gives its result the name `trimmed`.
#[verifier::external_body]
fn trim(text: &str) -> (r: &str)
    ensures
        r@ == trimmed(text@),
{
    text.trim()
}

/// Splits at the commas.
///
/// Calls `str::split` of std with a comma, which this contract takes to
/// return the pieces between the commas, in their order, empty ones too.
#[verifier::external_body]
fn split_commas(text: &str) -> (r: Vec<String>)
    ensures
        texts(r@) == comma_split(text@),
{
    text.split(',').map(String::from).collect()
}

/// The service times that the pieces of a line hold, where each piece,
/// without the white space at its ends, reads as a number.
pub open spec fn times32(fields: Seq<Seq<char>>) -> Option<Seq<i32>> {
    if forall|i: int| 0 <= i < fields.len() ==> parsed_i32(trimmed(#[trigger] fields[i])) is Some {
        Some(Seq::new(fields.len(), |i: int| parsed_i32(trimmed(fields[i])).unwrap()))
    } else {
        None
    }
}

/// The arrival times that the pieces of a line hold, where each piece,
/// without the white space at its ends, reads as a number.
pub open spec fn times64(fields: Seq<Seq<char>>) -> Option<Seq<i64>> {
    if forall|i: int| 0 <= i < fields.len() ==> parsed_i64(trimmed(#[trigger] fields[i])) is Some {
        Some(Seq::new(fields.len(), |i: int| parsed_i64(trimmed(fields[i])).unwrap()))
    } else {
        None
    }
}

/// Whether the lines of a configuration are refused, and why. The first
/// line holds the process count, the second the service times and the third
/// the arrival times, each list with commas between its numbers, the fourth
/// and the fifth the two quanta.
pub open spec fn lines_refusal(lines: Seq<Seq<char>>) -> Option<ConfigurationError> {
    if lines.len() < CONFIG_LINES {
        Some(ConfigurationError::TooFewLines)
    } else if parsed_i32(lines[0]) is None || times32(comma_split(lines[1])) is None || times64(
        comma_split(lines[2]),
    ) is None || parsed_i32(lines[3]) is None || parsed_i32(lines[4]) is None {
        Some(ConfigurationError::Malformed)
    } else {
        config_refusal(
            parsed_i32(lines[0]).unwrap() as int,
            times32(comma_split(lines[1])).unwrap().len() as int,
            times64(comma_split(lines[2])).unwrap().len() as int,
        )
    }
}

/// Reads each piece, without the white space at its ends, as a service time.
fn read_times32(fields: &Vec<String>) -> (r: Option<Vec<i32>>)
    ensures
        match r {
            Some(times) => times32(texts(fields@)) == Some(times@),
            None => times32(texts(fields@)) is None,
        },
{
    let ghost all = texts(fields@);
    let mut times: Vec<i32> = Vec::new();
    let mut i: usize = 0;
    while i < fields.len()
        invariant
            i <= fields.len(),
            all == texts(fields@),
            times@.len() == i,
            forall|k: int| 0 <= k < i ==> parsed_i32(trimmed(#[trigger] all[k])) == Some(times@[k]),
        decreases fields.len() - i,
    {
        proof {
            assert(all[i as int] == fields@[i as int]@);
        }
        match parse_i32(trim(fields[i].as_str())) {
            Some(n) => {
                times.push(n);
            },
            None => {
                return None;
            },
        }
        i += 1;
    }
    proof {
        assert(times@ =~= Seq::new(all.len(), |k: int| parsed_i32(trimmed(all[k])).unwrap()));
    }
    Some(times)
}

/// Reads each piece, without the white space at its ends, as an arrival time.
fn read_times64(fields: &Vec<String>) -> (r: Option<Vec<i64>>)
    ensures
        match r {
            Some(times) => times64(texts(fields@)) == Some(times@),
            None => times64(texts(fields@)) is None,
        },
{
    let ghost all = texts(fields@);
    let mut times: Vec<i64> = Vec::new();
    let mut i: usize = 0;
    while i < fields.len()
        invariant
            i <= fields.len(),
            all == texts(fields@),
            times@.len() == i,
            forall|k: int| 0 <= k < i ==> parsed_i64(trimmed(#[trigger] all[k])) == Some(times@[k]),
        decreases fields.len() - i,
    {
        proof {
            assert(all[i as int] == fields@[i as int]@);
        }
        match parse_i64(trim(fields[i].as_str())) {
            Some(n) => {
                times.push(n);
            },
            None => {
                return None;
            },
        }
        i += 1;
    }
    proof {
        assert(times@ =~= Seq::new(all.len(), |k: int| parsed_i64(trimmed(all[k])).unwrap()));
    }
    Some(times)
}

impl Config {
    /// The configuration that the lines of a text hold.
    ///
    /// Refused where there are too few lines, where a number cannot be read,
    /// and where `from` refuses what was read.
    pub fn from_lines(lines: &Vec<String>) -> (r: Result<Config, ConfigurationError>)
        ensures
            match r {
                Ok(config) => {
                    &&& lines_refusal(texts(lines@)) is None
                    &&& config.well_formed()
                    &&& Some(config.pr_count) == parsed_i32(texts(lines@)[0])
                    &&& Some(config.service_times@) == times32(comma_split(texts(lines@)[1]))
                    &&& Some(config.arrival_times@) == times64(comma_split(texts(lines@)[2]))
                    &&& Some(config.rr_quantum) == parsed_i32(texts(lines@)[3])
                    &&& Some(config.multi_level_rr_quantum) == parsed_i32(texts(lines@)[4])
                },
                Err(e) => lines_refusal(texts(lines@)) == Some(e),
            },
    {
        if lines.len() < CONFIG_LINES {
            return Err(ConfigurationError::TooFewLines);
        }
        proof {
            let all = texts(lines@);
            assert(all[0] == lines@[0]@);
            assert(all[1] == lines@[1]@);
            assert(all[2] == lines@[2]@);
            assert(all[3] == lines@[3]@);
            assert(all[4] == lines@[4]@);
        }
        let pr_count = parse_i32(lines[0].as_str());
        let service_fields = split_commas(lines[1].as_str());
        let service_times = read_times32(&service_fields);
        let arrival_fields = split_commas(lines[2].as_str());
        let arrival_times = read_times64(&arrival_fields);
        let rr_quantum = parse_i32(lines[3].as_str());
        let multi_level_rr_quantum = parse_i32(lines[4].as_str());
        match (pr_count, service_times, arrival_times, rr_quantum, multi_level_rr_quantum) {
            (Some(count), Some(services), Some(arrivals), Some(quantum1), Some(quantum2)) => Config::from(
                count,
                services,
                arrivals,
                quantum1,
                quantum2,
            ),
            _ => Err(ConfigurationError::Malformed),
        }
    }

    /// The process count agrees with both lists, and there is a letter for
    /// each process.
    pub open spec fn well_formed(&self) -> bool {
        config_refusal(self.pr_count as int, self.service_times@.len() as int, self.arrival_times@.len() as int)
            is None
    }

    /// The configuration made of what was read, where the lists agree with
    /// the process count and there are no more processes than letters.
    pub fn from(
        pr_count: i32,
        service_times: Vec<i32>,
        arrival_times: Vec<i64>,
        rr_quantum: i32,
        multi_level_rr_quantum: i32,
    ) -> (r: Result<Config, ConfigurationError>)
        ensures
            match r {
                Ok(config) => {
                    &&& config_refusal(pr_count as int, service_times@.len() as int, arrival_times@.len() as int)
                        is None
                    &&& config.well_formed()
                    &&& config.pr_count == pr_count
                    &&& config.service_times@ == service_times@
                    &&& config.arrival_times@ == arrival_times@
                    &&& config.rr_quantum == rr_quantum
                    &&& config.multi_level_rr_quantum == multi_level_rr_quantum
                },
                Err(e) => config_refusal(
                    pr_count as int,
                    service_times@.len() as int,
                    arrival_times@.len() as int,
                ) == Some(e),
            },
    {
        if pr_count < 0 {
            return Err(ConfigurationError::LengthMismatch);
        }
        let count: usize = pr_count as usize;
        if service_times.len() != count || arrival_times.len() != count {
            return Err(ConfigurationError::LengthMismatch);
        }
        if count > MAX_PROCESSES {
            return Err(ConfigurationError::TooManyProcesses);
        }
        Ok(Config { pr_count, service_times, arrival_times, rr_quantum, multi_level_rr_quantum })
    }
}

} // verus!
