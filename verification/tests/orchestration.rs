use unl_scrub::load_script;
use unl_scrub::name_listed;
use unl_scrub::processable_tables;
use unl_scrub::retry_outcome;
use unl_scrub::should_retry;
use unl_scrub::summarize;
use unl_scrub::Error;
use unl_scrub::RunResult;
use unl_scrub::TableCatalog;
use unl_scrub::TableInfo;

fn two_table_catalog() -> TableCatalog {
    let mut catalog = TableCatalog::new();
    catalog.insert(
        "customers".to_string(),
        TableInfo {
            unl_file: "custo00100.unl".to_string(),
            fields: vec!["id".to_string(), "first_name".to_string()],
        },
    );
    catalog.insert(
        "training_config".to_string(),
        TableInfo {
            unl_file: "train00104.unl".to_string(),
            fields: vec!["id".to_string(), "value".to_string()],
        },
    );
    catalog
}

#[test]
fn test_retry_succeeds_on_third_attempt() {
    let (success, attempts) = retry_outcome(&vec![false, false, true]);
    assert!(success);
    assert_eq!(attempts, 3);
}

#[test]
fn test_retry_fails_after_three_attempts() {
    let (success, attempts) = retry_outcome(&vec![false, false, false, true]);
    assert!(!success, "a success past the attempt limit must not count");
    assert_eq!(attempts, 3);

    let (success, attempts) = retry_outcome(&vec![false, false, false]);
    assert!(!success);
    assert_eq!(attempts, 3);
}

#[test]
fn test_retry_first_attempt_success() {
    let (success, attempts) = retry_outcome(&vec![true]);
    assert!(success);
    assert_eq!(attempts, 1);
}

#[test]
fn test_should_retry_respects_limit() {
    assert!(should_retry(1));
    assert!(should_retry(2));
    assert!(!should_retry(3));
}

#[test]
fn test_failed_table_does_not_block_others() {
    let outcomes = vec![
        RunResult::Success { attempts: 1 },
        RunResult::Failed {
            error: Error::Processing("table customers failed".to_string()),
            attempts: 3,
        },
        RunResult::Success { attempts: 3 },
    ];
    let summary = summarize(&outcomes);
    assert_eq!(summary.total_tables, 3);
    assert_eq!(summary.failed_tables, 1);
    assert!(summary.run_failed());

    let all_good = vec![RunResult::Success { attempts: 1 }, RunResult::Success { attempts: 2 }];
    let summary = summarize(&all_good);
    assert_eq!(summary.failed_tables, 0);
    assert!(!summary.run_failed());
}

#[test]
fn test_processable_tables_excludes_listed() {
    let catalog = two_table_catalog();
    let excluded = vec!["training_config".to_string()];
    let tables = processable_tables(&catalog, &excluded);
    assert_eq!(tables, vec!["customers".to_string()]);

    assert!(name_listed(&excluded, "training_config"));
    assert!(!name_listed(&excluded, "customers"));
}

#[test]
fn test_sql_generation() {
    let catalog = two_table_catalog();
    let excluded = vec!["training_config".to_string()];
    let script = load_script(&catalog, &excluded);

    assert!(script.contains("DELETE FROM customers;"));
    assert!(script.contains("LOAD FROM custo00100.unl INSERT INTO customers;"));

    assert!(!script.contains("training_config"));
}
