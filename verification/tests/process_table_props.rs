use highlighter::monitor::{ProcessColumn, ProcessInfo};
use highlighter::process_table::{apply_filter, matches_filter, sort_processes};

fn proc(pid: u32, name: &str, cpu: u64, memory: u64, disk: u64) -> ProcessInfo {
    ProcessInfo {
        pid,
        name: name.to_string(),
        cpu_centi_percent: cpu,
        memory,
        disk_usage: disk,
    }
}

fn sample() -> Vec<ProcessInfo> {
    vec![
        proc(42, "Editor", 1250, 900, 10),
        proc(7, "shell", 50, 30, 0),
        proc(180, "Browser", 3300, 4096, 77),
        proc(9, "daemon", 50, 64, 5),
    ]
}

#[test]
fn filter_matches_name_case_insensitively() {
    let ps = sample();
    let query = "EDIT".to_lowercase();
    let kept = apply_filter(&ps, query.as_str());
    assert_eq!(kept.len(), 1);
    assert_eq!(kept[0].name, "Editor");
}

#[test]
fn filter_matches_pid_digits() {
    let ps = sample();
    let kept = apply_filter(&ps, "18");
    assert_eq!(kept.len(), 1);
    assert_eq!(kept[0].pid, 180);
    assert!(matches_filter(&ps[2], "80"));
    assert!(!matches_filter(&ps[2], "81"));
}

#[test]
fn empty_filter_keeps_every_row() {
    let ps = sample();
    let kept = apply_filter(&ps, "");
    assert_eq!(kept.len(), 4);
    assert_eq!(kept[3].name, "daemon");
}

#[test]
fn sort_by_memory_descending() {
    let ps = sample();
    let sorted = sort_processes(&ps, ProcessColumn::Memory, false);
    let memories: Vec<u64> = sorted.iter().map(|p| p.memory).collect();
    assert_eq!(memories, vec![4096, 900, 64, 30]);
}

#[test]
fn sort_by_pid_ascending() {
    let ps = sample();
    let sorted = sort_processes(&ps, ProcessColumn::Pid, true);
    let pids: Vec<u32> = sorted.iter().map(|p| p.pid).collect();
    assert_eq!(pids, vec![7, 9, 42, 180]);
}

#[test]
fn sort_by_name_is_byte_lexicographic() {
    let ps = sample();
    let sorted = sort_processes(&ps, ProcessColumn::Name, true);
    let names: Vec<&str> = sorted.iter().map(|p| p.name.as_str()).collect();
    // upper-case letters order before lower-case ones byte-wise
    assert_eq!(names, vec!["Browser", "Editor", "daemon", "shell"]);
}

#[test]
fn sort_keeps_equal_keys_together() {
    let ps = sample();
    let sorted = sort_processes(&ps, ProcessColumn::Cpu, true);
    let cpus: Vec<u64> = sorted.iter().map(|p| p.cpu_centi_percent).collect();
    assert_eq!(cpus, vec![50, 50, 1250, 3300]);
}

#[test]
fn sort_is_stable_on_equal_keys() {
    let ps = vec![
        proc(3, "late", 50, 10, 0),
        proc(1, "first", 50, 20, 0),
        proc(2, "second", 50, 30, 0),
    ];
    let sorted = sort_processes(&ps, ProcessColumn::Cpu, true);
    let names: Vec<&str> = sorted.iter().map(|p| p.name.as_str()).collect();
    // all keys equal: input order is kept
    assert_eq!(names, vec!["late", "first", "second"]);
    let desc = sort_processes(&ps, ProcessColumn::Cpu, false);
    let names_desc: Vec<&str> = desc.iter().map(|p| p.name.as_str()).collect();
    assert_eq!(names_desc, vec!["late", "first", "second"]);
}
