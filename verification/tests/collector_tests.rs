use jev_sentinel::collectors::{
    drain_step, exec_verdict, free_pages, http_verdict, key_path, nvidia_fields, parse_stat_num,
    scan_macos_probe, services_present, ssh_args, ssh_failure_verdict, tcp_verdict, BoundedCapture,
    CaptureStep, ConnectOutcome, DrainResult, ExecOutcome, ProcessOutput, MACOS_PROBE_COMMAND,
};
use jev_sentinel::models::TargetStatus;

#[test]
fn missing_metrics_stay_null_and_real_capacity_is_used() {
    let missing = scan_macos_probe("permission denied");
    assert_eq!(missing.pages_free, None);
    assert!(missing.swap_used.is_empty());
    assert_eq!(free_pages(&missing), None);
    let actual = scan_macos_probe("hw.memsize: 34359738368\n");
    assert_eq!(actual.memsize_bytes, Some(34359738368));
    let no_page_size = scan_macos_probe("Pages free: 1.\nPages inactive: 2.\n");
    assert!(no_page_size.page_size.is_empty());
    assert_eq!(free_pages(&no_page_size), Some(3));
    assert_eq!(scan_macos_probe("hw.memsize: 0").memsize_bytes, None);
}

#[test]
fn test_parse_macos_probe_zero_swap_preservation() {
    let sample = "\
vm.swapusage: total = 3072.00M  used = 0.00M  free = 3072.00M  (encrypted)
===VM_STAT===
Mach Virtual Memory Statistics: (page size of 16384 bytes)
Pages free:                               125000.
Pages active:                             250000.
Pages inactive:                           100000.
Pages wired down:                         150000.
===PROCESSES===
slovn 100 0.0 osaurus
";
    let m = scan_macos_probe(sample);
    assert_eq!(m.swap_total, vec!["3072.00".to_string()]);
    assert_eq!(m.swap_used, vec!["0.00".to_string()]);
    assert_eq!(m.swap_free, vec!["3072.00".to_string()]);
    assert_eq!(m.page_size, vec!["16384".to_string()]);
    assert_eq!(m.pages_free, Some(125000));
    assert_eq!(m.pages_active, Some(250000));
    assert_eq!(m.pages_inactive, Some(100000));
    assert_eq!(m.pages_wired, Some(150000));
    let services = services_present(sample, &vec!["osaurus".to_string(), "gemma".to_string()]);
    assert_eq!(services, vec![true, false]);
}

#[test]
fn test_parse_macos_probe_intel_page_size() {
    let sample = "\
vm.swapusage: total = 1024.00M  used = 512.00M  free = 512.00M
===VM_STAT===
Mach Virtual Memory Statistics: (page size of 4096 bytes)
Pages free:                               100000.
Pages active:                             100000.
Pages inactive:                           100000.
Pages wired down:                         100000.
===PROCESSES===
";
    let m = scan_macos_probe(sample);
    assert_eq!(m.swap_used, vec!["512.00".to_string()]);
    assert_eq!(m.page_size, vec!["4096".to_string()]);
    assert_eq!(free_pages(&m), Some(200000));
}

#[test]
fn stat_numbers() {
    assert_eq!(parse_stat_num("Pages free:      125000."), Some(125000));
    assert_eq!(parse_stat_num("Pages free: 12.."), Some(12));
    assert_eq!(parse_stat_num("no colon"), None);
    assert_eq!(parse_stat_num("a: 1: 2"), Some(1));
    assert_eq!(parse_stat_num("a: x"), None);
}

#[test]
fn capture_is_cut_at_its_limit() {
    let mut c = BoundedCapture::new(32);
    assert_eq!(c.accept(&[b'A'; 20]), CaptureStep::Continue);
    assert!(!c.truncated);
    assert_eq!(c.accept(&[b'B'; 181]), CaptureStep::Discard);
    assert!(c.truncated);
    assert_eq!(c.bytes.len(), 32);
    let out = ProcessOutput::finished(&c, &BoundedCapture::new(10), Some(0), true);
    assert!(out.truncated);
    assert_eq!(out.stdout.len(), 32);
    let mut c = BoundedCapture::new(16);
    c.accept(b"  hello world\n ");
    let out = ProcessOutput::finished(&c, &BoundedCapture::new(10), None, false);
    assert_eq!(out.stdout, "hello world");
    assert_eq!(out.exit_code, -1);
}

#[test]
fn drain_counts_until_the_budget() {
    assert_eq!(drain_step(0, 12), Ok(12));
    assert_eq!(drain_step(60 * 1024, 16 * 1024), Err(DrainResult::BudgetReached(76 * 1024)));
    assert_eq!(drain_step(usize::MAX - 1, 5), Err(DrainResult::BudgetReached(usize::MAX)));
}

#[test]
fn probe_verdicts() {
    let v = http_verdict(200, 200);
    assert_eq!(v.status, TargetStatus::Online);
    assert_eq!(v.error_message, None);
    let v = http_verdict(503, 200);
    assert_eq!(v.status, TargetStatus::Unreachable);
    assert_eq!(v.error_message, Some("Unexpected HTTP status 503".to_string()));
    assert_eq!(http_verdict(404, 200).status, TargetStatus::Degraded);
    let v = tcp_verdict(ConnectOutcome::TimedOut, 3);
    assert_eq!(v.status, TargetStatus::Timeout);
    assert_eq!(v.error_message, Some("Connection timed out after 3s".to_string()));
    assert_eq!(tcp_verdict(ConnectOutcome::Connected, 3).status, TargetStatus::Online);
}

fn ran(stdout: &str, success: bool, code: i32) -> ExecOutcome {
    ExecOutcome::Ran(ProcessOutput {
        stdout: stdout.into(),
        stderr: String::new(),
        exit_code: code,
        success,
        timed_out: false,
        truncated: false,
    })
}

#[test]
fn malformed_or_missing_exec_metrics_are_not_healthy() {
    for output in ["not-json", "null", "42"] {
        let v = exec_verdict(ran(output, true, 0), 2);
        assert_eq!(v.verdict.status, TargetStatus::Unknown);
        assert!(!v.metrics_from_output);
    }
    assert_eq!(exec_verdict(ExecOutcome::EmptyCommand, 2).verdict.status, TargetStatus::Unknown);
    let valid = exec_verdict(ran("{\"cpu_pct\":0}", true, 0), 2);
    assert_eq!(valid.verdict.status, TargetStatus::Online);
    assert!(valid.metrics_from_output);
    let failed = exec_verdict(ran("[]", false, -3), 2);
    assert_eq!(failed.verdict.status, TargetStatus::Degraded);
    assert_eq!(failed.verdict.error_message, Some("Command exited with status code -3".to_string()));
    let timed = exec_verdict(ExecOutcome::Ran(ProcessOutput::timed_out("slow".into())), 7);
    assert_eq!(timed.verdict.error_message, Some("Command timed out after 7s".to_string()));
}

#[test]
fn ssh_collectors_require_pinned_host_keys_and_preserve_failure() {
    let args = ssh_args(1, None, None, true, "fixture", "never-connect.invalid", MACOS_PROBE_COMMAND);
    assert!(args.contains(&"StrictHostKeyChecking=yes".to_string()));
    assert!(args.contains(&"BatchMode=yes".to_string()));
    assert!(args.contains(&"fixture@never-connect.invalid".to_string()));
    assert!(!args.iter().any(|a| a.contains("StrictHostKeyChecking=no")));
    assert_eq!(args[5], "ConnectTimeout=1");
    assert_eq!(args[6], "--");
    let with_port = ssh_args(5, Some(2222), Some("/k".into()), false, "u", "h", "cmd");
    assert_eq!(with_port[6..], ["-p", "2222", "-i", "/k", "u@h", "cmd"]);
    let failed = ProcessOutput {
        stdout: String::new(),
        stderr: "Host key verification failed\n".into(),
        exit_code: 255,
        success: false,
        timed_out: false,
        truncated: false,
    };
    let v = ssh_failure_verdict(&failed, 1).unwrap();
    assert_eq!(v.status, TargetStatus::Unreachable);
    assert_eq!(v.error_message, Some("Host key verification failed".to_string()));
    assert_eq!(key_path("~/.ssh/id", &Some("/home/u".into())), "/home/u/.ssh/id");
    assert_eq!(key_path("~/.ssh/id", &None), "~/.ssh/id");
}

#[test]
fn nvidia_lines_are_split_into_fields() {
    let f = nvidia_fields("\n  \nNVIDIA GeForce RTX 5060 Ti, 29, 14040, 16384, 0\n").unwrap();
    assert_eq!(f, vec!["NVIDIA GeForce RTX 5060 Ti", "29", "14040", "16384", "0"]);
    assert_eq!(nvidia_fields("a, b"), None);
    assert_eq!(nvidia_fields(""), None);
}
