use cpu_scheduling_utils::config::parser::{Config, ConfigurationError};
use cpu_scheduling_utils::schedule::intake::{screen, take_arrivals};
use cpu_scheduling_utils::schedule::order::sort_by_arrival;
use cpu_scheduling_utils::schedule::scheduler::{Process, ScheduleError, Scheduler, Timestamp};

fn process(name: &str, burst_time: i32, arrival_time: i64) -> Process {
    Process { name: name.to_string(), burst_time, arrival_time, waiting_time: 0 }
}

fn configured(service_times: Vec<i32>, arrival_times: Vec<i64>) -> Vec<Process> {
    let count = service_times.len() as i32;
    let config = Config::from(count, service_times, arrival_times, 2, 2).unwrap();
    Process::from(&config)
}

fn summary(trace: &Vec<Timestamp>) -> Vec<(String, i64, i32)> {
    trace.iter().map(|t| (t.process.name.clone(), t.time, t.process.burst_time)).collect()
}

fn entry(name: &str, time: i64, left: i32) -> (String, i64, i32) {
    (name.to_string(), time, left)
}

#[test]
fn config_from_keeps_what_it_is_given() {
    let config = Config::from(2, vec![4, 2], vec![0, 1], 3, 5).unwrap();
    assert_eq!(config.pr_count, 2);
    assert_eq!(config.service_times, vec![4, 2]);
    assert_eq!(config.arrival_times, vec![0, 1]);
    assert_eq!(config.rr_quantum, 3);
    assert_eq!(config.multi_level_rr_quantum, 5);
}

#[test]
fn config_from_refuses_short_arrival_times() {
    let r = Config::from(2, vec![4, 2], vec![0], 3, 5);
    assert_eq!(r.err(), Some(ConfigurationError::LengthMismatch));
}

#[test]
fn config_from_refuses_a_wrong_count() {
    let r = Config::from(3, vec![4, 2], vec![0, 0], 3, 5);
    assert_eq!(r.err(), Some(ConfigurationError::LengthMismatch));
    let r = Config::from(-1, vec![], vec![], 3, 5);
    assert_eq!(r.err(), Some(ConfigurationError::LengthMismatch));
}

#[test]
fn config_from_refuses_more_processes_than_letters() {
    let r = Config::from(27, vec![1; 27], vec![0; 27], 3, 5);
    assert_eq!(r.err(), Some(ConfigurationError::TooManyProcesses));
    assert!(Config::from(26, vec![1; 26], vec![0; 26], 3, 5).is_ok());
}

fn lines(text: &[&str]) -> Vec<String> {
    text.iter().map(|l| l.to_string()).collect()
}

#[test]
fn config_from_lines_reads_the_five_lines() {
    let config = Config::from_lines(&lines(&["3", "4, 2,7", " 0 ,1,  5", "2", "-4"])).unwrap();
    assert_eq!(config.pr_count, 3);
    assert_eq!(config.service_times, vec![4, 2, 7]);
    assert_eq!(config.arrival_times, vec![0, 1, 5]);
    assert_eq!(config.rr_quantum, 2);
    assert_eq!(config.multi_level_rr_quantum, -4);
}

#[test]
fn config_from_lines_reads_wide_arrival_times() {
    let config = Config::from_lines(&lines(&["1", "5", "9223372036854775807", "1", "1", "more"])).unwrap();
    assert_eq!(config.arrival_times, vec![i64::MAX]);
}

#[test]
fn config_from_lines_refuses_too_few_lines() {
    let r = Config::from_lines(&lines(&["1", "5", "0", "1"]));
    assert_eq!(r.err(), Some(ConfigurationError::TooFewLines));
    assert_eq!(Config::from_lines(&vec![]).err(), Some(ConfigurationError::TooFewLines));
}

#[test]
fn config_from_lines_refuses_what_is_no_number() {
    for text in [
        ["x", "5", "0", "1", "1"],
        ["1", "5,", "0", "1", "1"],
        ["1", "5", "0;1", "1", "1"],
        ["1", "2147483648", "0", "1", "1"],
        ["1", "5", "0", " 1", "1"],
        ["1", "5", "0", "1", ""],
        [" 1", "5", "0", "1", "1"],
    ] {
        assert_eq!(Config::from_lines(&lines(&text)).err(), Some(ConfigurationError::Malformed));
    }
}

#[test]
fn config_from_lines_refuses_lists_of_another_length() {
    let r = Config::from_lines(&lines(&["2", "5,1", "0", "1", "1"]));
    assert_eq!(r.err(), Some(ConfigurationError::LengthMismatch));
    let r = Config::from_lines(&lines(&["1", "5,1", "0,0", "1", "1"]));
    assert_eq!(r.err(), Some(ConfigurationError::LengthMismatch));
}

#[test]
fn process_from_names_by_letter() {
    let processes = configured(vec![4, 2, 7], vec![0, 1, 5]);
    assert_eq!(processes.len(), 3);
    assert_eq!(processes[0].name, "A");
    assert_eq!(processes[1].name, "B");
    assert_eq!(processes[2].name, "C");
    assert_eq!(processes[2].burst_time, 7);
    assert_eq!(processes[2].arrival_time, 5);
    assert_eq!(processes[1].waiting_time, 0);
}

#[test]
fn process_from_reaches_the_last_letter() {
    let processes = configured(vec![1; 26], vec![0; 26]);
    assert_eq!(processes[25].name, "Z");
}

#[test]
fn process_snapshot_is_equal() {
    let p = Process { name: "Q".to_string(), burst_time: 9, arrival_time: 4, waiting_time: 2 };
    let q = p.snapshot();
    assert_eq!(q.name, "Q");
    assert_eq!((q.burst_time, q.arrival_time, q.waiting_time), (9, 4, 2));
}

#[test]
fn sort_by_arrival_is_stable() {
    let sorted = sort_by_arrival(&vec![
        process("A", 1, 2),
        process("B", 1, 0),
        process("C", 1, 2),
        process("D", 1, 0),
    ]);
    let names: Vec<String> = sorted.iter().map(|p| p.name.clone()).collect();
    assert_eq!(names, vec!["B", "D", "A", "C"]);
}

#[test]
fn rr_two_processes_quantum_two() {
    let processes = configured(vec![4, 2], vec![0, 0]);
    let trace = Timestamp::rr(&processes, 2).unwrap();
    assert_eq!(summary(&trace), vec![entry("A", 2, 2), entry("B", 4, 0), entry("A", 6, 0)]);
}

#[test]
fn rr_lets_arrivals_in_ahead_of_the_requeued() {
    let processes = configured(vec![4, 2], vec![0, 1]);
    let trace = Timestamp::rr(&processes, 2).unwrap();
    assert_eq!(summary(&trace), vec![entry("A", 2, 2), entry("B", 4, 0), entry("A", 6, 0)]);
}

#[test]
fn rr_idles_until_the_first_arrival() {
    let trace = Timestamp::rr(&vec![process("A", 2, 3)], 5).unwrap();
    assert_eq!(summary(&trace), vec![entry("A", 5, 0)]);
}

#[test]
fn rr_sorts_by_arrival() {
    let trace = Timestamp::rr(&vec![process("A", 1, 4), process("B", 1, 0)], 3).unwrap();
    assert_eq!(summary(&trace), vec![entry("B", 1, 0), entry("A", 5, 0)]);
}

#[test]
fn rr_of_nothing_is_empty() {
    assert!(Timestamp::rr(&vec![], 1).unwrap().is_empty());
}

#[test]
fn rr_refuses_a_quantum_that_is_not_positive() {
    let processes = configured(vec![4, 2], vec![0, 0]);
    assert_eq!(Timestamp::rr(&processes, 0).err(), Some(ScheduleError::InvalidParameter));
    assert_eq!(Timestamp::rr(&processes, -3).err(), Some(ScheduleError::InvalidParameter));
    assert_eq!(Timestamp::rr(&vec![process("A", 0, 0)], 0).err(), Some(ScheduleError::InvalidParameter));
}

#[test]
fn rr_refuses_invalid_processes() {
    assert_eq!(Timestamp::rr(&vec![process("A", 0, 0)], 2).err(), Some(ScheduleError::InvalidProcess));
    assert_eq!(Timestamp::rr(&vec![process("A", 1, -1)], 2).err(), Some(ScheduleError::InvalidProcess));
}

#[test]
fn rr_refuses_a_clock_overflow() {
    let r = Timestamp::rr(&vec![process("A", 1, i64::MAX)], 2);
    assert_eq!(r.err(), Some(ScheduleError::ClockOverflow));
    let r = Timestamp::rr(&vec![process("A", 3, 0), process("B", 1, i64::MAX - 3)], 2);
    assert_eq!(r.err(), Some(ScheduleError::ClockOverflow));
}

#[test]
fn rr_conserves_burst_time() {
    let processes = configured(vec![5, 3, 8], vec![0, 2, 4]);
    let trace = Timestamp::rr(&processes, 3).unwrap();
    for p in &processes {
        let mut left = p.burst_time;
        let mut ran = 0;
        for t in trace.iter().filter(|t| t.process.name == p.name) {
            ran += left - t.process.burst_time;
            left = t.process.burst_time;
        }
        assert_eq!(ran, p.burst_time);
        assert_eq!(left, 0);
    }
}

#[test]
fn rr_waits_no_longer_than_the_others_run() {
    let processes = configured(vec![7, 7, 7], vec![0, 0, 0]);
    let quantum = 2;
    let trace = Timestamp::rr(&processes, quantum).unwrap();
    for p in &processes {
        let mut last: Option<i64> = None;
        for t in trace.iter().filter(|t| t.process.name == p.name) {
            if let Some(before) = last {
                let ran = std::cmp::min(quantum as i64, t.time - before);
                assert!(t.time - before - ran <= 2 * quantum as i64);
            }
            last = Some(t.time);
        }
    }
}

#[test]
fn srtn_preempts_for_the_shorter() {
    let processes = configured(vec![3, 1], vec![0, 1]);
    let trace = Timestamp::shortest_remaining_time_next(&processes).unwrap();
    assert_eq!(
        summary(&trace),
        vec![entry("A", 1, 2), entry("B", 2, 0), entry("A", 3, 1), entry("A", 4, 0)]
    );
}

#[test]
fn srtn_breaks_ties_by_place() {
    let processes = configured(vec![2, 2], vec![0, 0]);
    let trace = Timestamp::shortest_remaining_time_next(&processes).unwrap();
    assert_eq!(
        summary(&trace),
        vec![entry("A", 1, 1), entry("A", 2, 0), entry("B", 3, 1), entry("B", 4, 0)]
    );
}

#[test]
fn srtn_idles_between_arrivals() {
    let processes = configured(vec![1, 1], vec![0, 3]);
    let trace = Timestamp::shortest_remaining_time_next(&processes).unwrap();
    assert_eq!(summary(&trace), vec![entry("A", 1, 0), entry("B", 4, 0)]);
}

#[test]
fn srtn_refuses_invalid_processes() {
    let r = Timestamp::shortest_remaining_time_next(&vec![process("A", -2, 0)]);
    assert_eq!(r.err(), Some(ScheduleError::InvalidProcess));
    let r = Timestamp::shortest_remaining_time_next(&vec![process("A", 2, i64::MAX - 1)]);
    assert_eq!(r.err(), Some(ScheduleError::ClockOverflow));
}

#[test]
fn hrrn_starts_with_the_earliest() {
    let processes = configured(vec![3, 1, 2], vec![0, 0, 0]);
    let trace = Timestamp::highest_response_ratio_next(&processes).unwrap();
    assert_eq!(trace[0].process.name, "A");
    assert_eq!(trace[0].time, 3);
}

#[test]
fn hrrn_prefers_the_greater_ratio() {
    let processes = configured(vec![3, 6, 2], vec![0, 1, 2]);
    let trace = Timestamp::highest_response_ratio_next(&processes).unwrap();
    assert_eq!(summary(&trace), vec![entry("A", 3, 0), entry("C", 5, 0), entry("B", 11, 0)]);
    let waited: Vec<i64> = trace.iter().map(|t| t.process.waiting_time).collect();
    assert_eq!(waited, vec![0, 1, 4]);
}

#[test]
fn hrrn_keeps_the_first_of_equal_ratios() {
    let processes = configured(vec![4, 2, 2], vec![0, 2, 2]);
    let trace = Timestamp::highest_response_ratio_next(&processes).unwrap();
    assert_eq!(summary(&trace), vec![entry("A", 4, 0), entry("B", 6, 0), entry("C", 8, 0)]);
}

#[test]
fn hrrn_idles_until_an_arrival() {
    let trace = Timestamp::highest_response_ratio_next(&vec![process("A", 2, 4)]).unwrap();
    assert_eq!(summary(&trace), vec![entry("A", 6, 0)]);
}

#[test]
fn hrrn_refuses_invalid_processes() {
    let r = Timestamp::highest_response_ratio_next(&vec![process("A", 2, 0), process("B", 0, 0)]);
    assert_eq!(r.err(), Some(ScheduleError::InvalidProcess));
}

#[test]
fn mlfq_lets_long_processes_sink() {
    let processes = configured(vec![5, 2], vec![0, 0]);
    let mut scheduler = Scheduler { time: 0, timestamps: vec![] };
    scheduler.multi_level_feedback_queue(&processes, 2, 2).unwrap();
    assert_eq!(
        summary(&scheduler.timestamps),
        vec![entry("A", 2, 3), entry("B", 4, 0), entry("A", 6, 1), entry("A", 7, 0)]
    );
    assert_eq!(scheduler.time, 7);
}

#[test]
fn mlfq_advances_time_when_a_process_ends() {
    let mut scheduler = Scheduler { time: 0, timestamps: vec![] };
    scheduler.multi_level_feedback_queue(&vec![process("A", 3, 0), process("B", 1, 0)], 4, 4).unwrap();
    assert_eq!(summary(&scheduler.timestamps), vec![entry("A", 3, 0), entry("B", 4, 0)]);
}

#[test]
fn mlfq_lets_arrivals_in_after_a_pass() {
    let mut scheduler = Scheduler { time: 0, timestamps: vec![] };
    scheduler.multi_level_feedback_queue(&vec![process("A", 5, 0), process("B", 1, 1)], 2, 2).unwrap();
    assert_eq!(
        summary(&scheduler.timestamps),
        vec![entry("A", 2, 3), entry("A", 4, 1), entry("A", 5, 0), entry("B", 6, 0)]
    );
}

#[test]
fn mlfq_starts_at_the_scheduler_time_and_idles() {
    let mut scheduler = Scheduler { time: 10, timestamps: vec![] };
    scheduler.multi_level_feedback_queue(&vec![process("A", 1, 12), process("B", 1, 0)], 2, 2).unwrap();
    assert_eq!(summary(&scheduler.timestamps), vec![entry("B", 11, 0), entry("A", 13, 0)]);
    assert_eq!(scheduler.time, 13);
}

#[test]
fn mlfq_refuses_and_leaves_the_scheduler() {
    let processes = configured(vec![5, 2], vec![0, 0]);
    let mut scheduler = Scheduler { time: 4, timestamps: vec![] };
    assert_eq!(
        scheduler.multi_level_feedback_queue(&processes, 0, 2).err(),
        Some(ScheduleError::InvalidParameter)
    );
    assert_eq!(
        scheduler.multi_level_feedback_queue(&processes, 2, -1).err(),
        Some(ScheduleError::InvalidParameter)
    );
    assert_eq!(
        scheduler.multi_level_feedback_queue(&vec![process("A", 0, 0)], 2, 2).err(),
        Some(ScheduleError::InvalidProcess)
    );
    scheduler.time = i64::MAX - 1;
    assert_eq!(
        scheduler.multi_level_feedback_queue(&processes, 2, 2).err(),
        Some(ScheduleError::ClockOverflow)
    );
    assert_eq!(scheduler.time, i64::MAX - 1);
    assert!(scheduler.timestamps.is_empty());
}

#[test]
fn every_discipline_is_causal_and_ends_each_process_once() {
    let processes = configured(vec![5, 3, 8, 1], vec![0, 2, 4, 20]);
    let mut scheduler = Scheduler { time: 0, timestamps: vec![] };
    scheduler.multi_level_feedback_queue(&processes, 2, 3).unwrap();
    let traces = vec![
        Timestamp::rr(&processes, 3).unwrap(),
        Timestamp::shortest_remaining_time_next(&processes).unwrap(),
        Timestamp::highest_response_ratio_next(&processes).unwrap(),
        scheduler.timestamps,
    ];
    for trace in &traces {
        let mut last = 0;
        for t in trace {
            assert!(t.time >= t.process.arrival_time);
            assert!(t.time >= last);
            last = t.time;
        }
        for p in &processes {
            let ends = trace.iter().filter(|t| t.process.name == p.name && t.process.burst_time == 0).count();
            assert_eq!(ends, 1);
        }
    }
}

#[test]
fn a_second_run_gives_the_same_trace() {
    let processes = configured(vec![5, 3, 8], vec![0, 2, 4]);
    let again: Vec<Process> = processes.iter().map(|p| p.snapshot()).collect();
    assert_eq!(
        summary(&Timestamp::rr(&processes, 2).unwrap()),
        summary(&Timestamp::rr(&again, 2).unwrap())
    );
    assert_eq!(
        summary(&Timestamp::shortest_remaining_time_next(&processes).unwrap()),
        summary(&Timestamp::shortest_remaining_time_next(&again).unwrap())
    );
    assert_eq!(
        summary(&Timestamp::highest_response_ratio_next(&processes).unwrap()),
        summary(&Timestamp::highest_response_ratio_next(&again).unwrap())
    );
}

#[test]
fn screen_tells_why_a_list_is_refused() {
    assert_eq!(screen(&vec![process("A", 2, 0), process("B", 1, 7)], 0), Ok(()));
    assert_eq!(screen(&vec![], i64::MAX), Ok(()));
    assert_eq!(screen(&vec![process("A", 2, 0), process("B", 0, 7)], 0), Err(ScheduleError::InvalidProcess));
    assert_eq!(screen(&vec![process("A", 2, -1)], 0), Err(ScheduleError::InvalidProcess));
    assert_eq!(screen(&vec![process("A", 2, 0)], i64::MAX - 1), Err(ScheduleError::ClockOverflow));
    assert_eq!(screen(&vec![process("A", 2, 0)], i64::MAX - 2), Ok(()));
    assert_eq!(
        screen(&vec![process("A", 2, -1), process("B", 1, i64::MAX)], 0),
        Err(ScheduleError::InvalidProcess)
    );
}

#[test]
fn take_arrivals_moves_the_head_that_has_arrived() {
    let mut backlog = vec![process("A", 1, 0), process("B", 1, 2), process("C", 1, 5), process("D", 1, 1)];
    let mut ready = vec![process("Z", 1, 0)];
    take_arrivals(&mut backlog, &mut ready, 2);
    let left: Vec<String> = backlog.iter().map(|p| p.name.clone()).collect();
    let moved: Vec<String> = ready.iter().map(|p| p.name.clone()).collect();
    assert_eq!(left, vec!["C", "D"]);
    assert_eq!(moved, vec!["Z", "A", "B"]);
    take_arrivals(&mut backlog, &mut ready, 4);
    assert_eq!(backlog.len(), 2);
    assert_eq!(ready.len(), 3);
}

#[test]
fn mlfq_conserves_burst_time() {
    let processes = configured(vec![9, 3, 8], vec![0, 2, 40]);
    let mut scheduler = Scheduler { time: 0, timestamps: vec![] };
    scheduler.multi_level_feedback_queue(&processes, 2, 3).unwrap();
    for p in &processes {
        let mut left = p.burst_time;
        let mut ran = 0;
        for t in scheduler.timestamps.iter().filter(|t| t.process.name == p.name) {
            ran += left - t.process.burst_time;
            left = t.process.burst_time;
        }
        assert_eq!(ran, p.burst_time);
        assert_eq!(left, 0);
    }
    assert_eq!(scheduler.time, 40 + 8);
}
