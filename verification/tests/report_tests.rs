use metashrew::report::{generate_database_diff_report, generate_diff_report, generate_summary_report};

#[test]
fn an_empty_comparison_reports_no_differences() {
    assert_eq!(generate_diff_report(7, &[], &[], &[]), "=== DIFF REPORT FOR BLOCK 7 ===\nNo differences found.\n");
    assert_eq!(
        generate_database_diff_report(1700000000, &[], &[], &[]),
        "=== DIFF REPORT (Timestamp: 1700000000) ===\nNo differences found.\n"
    );
}

#[test]
fn block_reports_list_every_difference_in_hex() {
    let report = generate_diff_report(
        880000,
        &[vec![0xab]],
        &[vec![1, 2], vec![3]],
        &[(vec![0x2f], vec![0x00], vec![0xff])],
    );
    let expected = "=== DIFF REPORT FOR BLOCK 880000 ===\n\
Keys in primary but not in compare (1):\n  ab\n\
Keys in compare but not in primary (2):\n  0102\n  03\n\
Keys with different values (1):\n  Key: 2f\n    Primary value: 00\n    Compare value: ff\n\
=== END DIFF REPORT ===\n";
    assert_eq!(report, expected);
}

#[test]
fn database_reports_show_twenty_and_count_the_rest() {
    let keys: Vec<Vec<u8>> = (0u8..23).map(|i| vec![i]).collect();
    let report = generate_database_diff_report(5, &keys, &[], &[(vec![1], vec![2], vec![3])]);
    assert!(report.starts_with("=== DIFF REPORT (Timestamp: 5) ===\n\nKeys in primary but not in compare (23):\n  00\n"));
    assert!(report.contains("  13\n  ... and 3 more\n"));
    assert!(!report.contains("  14\n"));
    assert!(report.ends_with("\nKeys with different values (1):\n  Key: 01\n    Primary:   02\n    Compare:   03\n\n=== END DIFF REPORT ===\n"));
}

#[test]
fn summaries_list_the_blocks_with_differences() {
    assert_eq!(
        generate_summary_report(2, &[880001, 880005], 880000, 880010),
        "=== DIFF ANALYSIS SUMMARY ===\nTotal diffs found: 2\nBlocks with differences:\n  Block 880001\n  Block 880005\nAnalyzed blocks from 880000 to 880010\n=== END SUMMARY ===\n"
    );
    assert_eq!(
        generate_summary_report(0, &[], 5, 9),
        "=== DIFF ANALYSIS SUMMARY ===\nTotal diffs found: 0\nNo differences found in any blocks.\nAnalyzed blocks from 5 to 9\n=== END SUMMARY ===\n"
    );
}
