use unl_scrub::find_field_index;
use unl_scrub::find_field_index_by_table;
use unl_scrub::generate_random_name;
use unl_scrub::ChecksumConfig;
use unl_scrub::CombinationFieldConfig;
use unl_scrub::Config;
use unl_scrub::DatabaseConfig;
use unl_scrub::DbInstance;
use unl_scrub::Error;
use unl_scrub::ExportConfig;
use unl_scrub::LoggingConfig;
use unl_scrub::RandomNameConfig;
use unl_scrub::RecordCountConfig;
use unl_scrub::ScrubbingConfig;
use unl_scrub::SourceField;
use unl_scrub::StandardizeConfig;
use unl_scrub::StandardizeField;
use unl_scrub::TableCatalog;
use unl_scrub::TableField;
use unl_scrub::TestingConfig;
use unl_scrub::UnlProcessor;
use unl_scrub::UnlRow;
use unl_scrub::VerificationConfig;

fn create_test_schema() -> Vec<String> {
    vec![
        "id".to_string(),
        "first_name".to_string(),
        "last_name".to_string(),
        "email".to_string(),
        "address".to_string(),
        "phone".to_string(),
    ]
}

fn create_test_table_info() -> TableCatalog {
    let mut tables = TableCatalog::new();

    tables.insert(
        "customers".to_string(),
        unl_scrub::TableInfo {
            unl_file: "custo00100.unl".to_string(),
            fields: vec![
                "id".to_string(),
                "first_name".to_string(),
                "last_name".to_string(),
                "email".to_string(),
                "address".to_string(),
                "phone".to_string(),
            ],
        },
    );

    tables.insert(
        "employees".to_string(),
        unl_scrub::TableInfo {
            unl_file: "emplo00101.unl".to_string(),
            fields: vec![
                "id".to_string(),
                "customer_id".to_string(),
                "name".to_string(),
                "email".to_string(),
                "address".to_string(),
                "phone".to_string(),
            ],
        },
    );

    tables
}

fn std_group(value: &str, targets: Vec<(&str, &str)>) -> StandardizeField {
    StandardizeField {
        value: value.to_string(),
        fields: targets
            .into_iter()
            .map(|(t, f)| TableField { table: t.to_string(), field: f.to_string() })
            .collect(),
    }
}

fn base_config() -> Config {
    Config {
        databases: DatabaseConfig {
            source: DbInstance { name: "test_live".to_string() },
            target: DbInstance { name: "temp_verify".to_string() },
            testing: TestingConfig {
                test_live: "test_live".to_string(),
                temp_verify: "temp_verify".to_string(),
                verification_marker: "VERIFY_TEST_STRING_XYZ_".to_string(),
                cleanup_script: "remove_verify_db.sh".to_string(),
            },
        },
        excluded_tables: vec![],
        export: ExportConfig { random_seed: 42 },
        verification: VerificationConfig {
            logging: LoggingConfig {
                directory: "logs".to_string(),
                prefix: "verify_".to_string(),
            },
            checksums: ChecksumConfig { enabled: true, algorithm: "md5sum".to_string() },
            record_counts: RecordCountConfig { enabled: true, sample_tables: vec![] },
        },
        scrubbing: ScrubbingConfig { random_names: vec![] },
        standardize: StandardizeConfig {
            address: std_group("", vec![]),
            phone: std_group("", vec![]),
            email: std_group("", vec![]),
        },
        combination_fields: vec![],
    }
}

#[test]
fn test_find_field_by_table() {
    let table_info = create_test_table_info();

    assert_eq!(
        find_field_index_by_table("customers", "first_name", &table_info).unwrap(),
        Some(1)
    );
    assert_eq!(
        find_field_index_by_table("customers", "last_name", &table_info).unwrap(),
        Some(2)
    );

    assert_eq!(find_field_index_by_table("employees", "name", &table_info).unwrap(), Some(2));

    assert_eq!(find_field_index_by_table("customers", "nonexistent", &table_info).unwrap(), None);

    assert!(find_field_index_by_table("nonexistent", "name", &table_info).is_err());
}

#[test]
fn test_find_scrubbing_fields_across_tables() {
    let table_info = create_test_table_info();

    let scrubbing_config = ScrubbingConfig {
        random_names: vec![
            RandomNameConfig {
                table: "customers".to_string(),
                fields: vec!["first_name".to_string(), "last_name".to_string()],
                style: "github".to_string(),
            },
            RandomNameConfig {
                table: "employees".to_string(),
                fields: vec!["name".to_string()],
                style: "github".to_string(),
            },
        ],
    };

    let customer_config = &scrubbing_config.random_names[0];
    let mut customer_indices: Vec<usize> = Vec::new();
    for field in &customer_config.fields {
        if let Some(idx) =
            find_field_index_by_table(&customer_config.table, field, &table_info).unwrap()
        {
            customer_indices.push(idx);
        }
    }
    assert_eq!(customer_indices, vec![1, 2]);

    let employee_config = &scrubbing_config.random_names[1];
    let mut employee_indices: Vec<usize> = Vec::new();
    for field in &employee_config.fields {
        if let Some(idx) =
            find_field_index_by_table(&employee_config.table, field, &table_info).unwrap()
        {
            employee_indices.push(idx);
        }
    }
    assert_eq!(employee_indices, vec![2]);
}

#[test]
fn test_find_field_in_schema() {
    let schema = create_test_schema();

    assert_eq!(find_field_index("first_name", &schema), Some(1));
    assert_eq!(find_field_index("last_name", &schema), Some(2));
    assert_eq!(find_field_index("email", &schema), Some(3));

    assert_eq!(find_field_index("nonexistent", &schema), None);
}

#[test]
fn test_find_scrubbing_fields() {
    let schema = create_test_schema();
    let config = RandomNameConfig {
        table: "customers".to_string(),
        fields: vec!["first_name".to_string(), "last_name".to_string()],
        style: "github".to_string(),
    };

    let field_indices: Vec<usize> =
        config.fields.iter().filter_map(|field| find_field_index(field, &schema)).collect();

    assert_eq!(field_indices, vec![1, 2]);
}

#[test]
fn test_find_nonexistent_scrubbing_fields() {
    let schema = create_test_schema();
    let config = RandomNameConfig {
        table: "customers".to_string(),
        fields: vec!["nonexistent1".to_string(), "nonexistent2".to_string()],
        style: "github".to_string(),
    };

    let field_indices: Vec<usize> =
        config.fields.iter().filter_map(|field| find_field_index(field, &schema)).collect();

    assert!(field_indices.is_empty());
}

#[test]
fn test_combination_fields() {
    let mut config = base_config();
    config.combination_fields = vec![
        CombinationFieldConfig {
            table: "projects".to_string(),
            fields: vec![
                SourceField { source_field: "name1".to_string(), random_style: String::new() },
                SourceField { source_field: "name2".to_string(), random_style: String::new() },
            ],
            separator: " -&- ".to_string(),
            target_field: "combo_name".to_string(),
        },
        CombinationFieldConfig {
            table: "repositories".to_string(),
            fields: vec![
                SourceField { source_field: "owner_name".to_string(), random_style: String::new() },
                SourceField { source_field: "repo_name".to_string(), random_style: String::new() },
            ],
            separator: "/".to_string(),
            target_field: "full_path".to_string(),
        },
    ];

    let mut table_info = TableCatalog::new();
    table_info.insert(
        "projects".to_string(),
        unl_scrub::TableInfo {
            unl_file: "proje00102.unl".to_string(),
            fields: vec![
                "id".to_string(),
                "customer_id".to_string(),
                "project_name".to_string(),
                "name1".to_string(),
                "name2".to_string(),
                "combo_name".to_string(),
            ],
        },
    );
    table_info.insert(
        "repositories".to_string(),
        unl_scrub::TableInfo {
            unl_file: "repos00103.unl".to_string(),
            fields: vec![
                "id".to_string(),
                "project_id".to_string(),
                "owner_name".to_string(),
                "repo_name".to_string(),
                "full_path".to_string(),
            ],
        },
    );

    let processor =
        UnlProcessor::new(config, table_info, vec!["test".to_string()], vec!["test".to_string()]);

    let mut project_row = UnlRow::from_line("1|1001|TestProject|FirstName1|LastName1||").unwrap();
    assert_eq!(project_row.num_fields(), 6);
    processor.process_row("projects", &mut project_row).unwrap();
    assert_eq!(
        project_row.get_field(5).unwrap(),
        "FirstName1 -&- LastName1",
        "Projects table combination failed"
    );

    let mut repo_row = UnlRow::from_line("1|1|OwnerA|RepoB||").unwrap();
    assert_eq!(repo_row.num_fields(), 5);
    processor.process_row("repositories", &mut repo_row).unwrap();
    assert_eq!(repo_row.get_field(4).unwrap(), "OwnerA/RepoB", "Repositories table combination failed");
}

#[test]
fn test_random_name_generation() {
    let adjectives = vec!["happy".to_string(), "quick".to_string()];
    let nouns = vec!["fox".to_string(), "dog".to_string()];

    let name = generate_random_name(&adjectives, &nouns);

    assert!(name.contains('-'));

    let parts: Vec<&str> = name.split('-').collect();
    assert_eq!(parts.len(), 2);

    assert!(adjectives.contains(&parts[0].to_string()));
    assert!(nouns.contains(&parts[1].to_string()));
}

#[test]
fn test_scrub_scenario_github_style() {
    let mut config = base_config();
    config.scrubbing.random_names = vec![RandomNameConfig {
        table: "customers".to_string(),
        fields: vec!["first_name".to_string(), "last_name".to_string()],
        style: "github".to_string(),
    }];

    let processor = UnlProcessor::new(
        config,
        create_test_table_info(),
        vec!["happy".to_string()],
        vec!["fox".to_string()],
    );

    let mut row = UnlRow::from_line("1001|John|Doe|j@x.com|somewhere|555-1234|").unwrap();
    processor.process_row("customers", &mut row).unwrap();
    assert_eq!(row.get_field(1).unwrap(), "happy-fox");
    assert_eq!(row.get_field(2).unwrap(), "happy-fox");
    // Untouched fields keep their values.
    assert_eq!(row.get_field(0).unwrap(), "1001");
    assert_eq!(row.get_field(3).unwrap(), "j@x.com");
}

#[test]
fn test_standardize_scenario() {
    let mut config = base_config();
    config.standardize.address =
        std_group("123 Training St", vec![("customers", "address")]);

    let processor = UnlProcessor::new(
        config,
        create_test_table_info(),
        vec!["happy".to_string()],
        vec!["fox".to_string()],
    );

    for line in [
        "1001|John|Doe|j@x.com|10 Old Rd|555-1234|",
        "1002|Jane|Smith|jane@x.com||555-5678|",
    ] {
        let mut row = UnlRow::from_line(line).unwrap();
        processor.process_row("customers", &mut row).unwrap();
        assert_eq!(row.get_field(4).unwrap(), "123 Training St");
    }
}

#[test]
fn test_rule_ordering_combine_sees_standardized() {
    // "address" is both a standardize target and a combine source: the
    // combined value must hold the standardized text, not the original.
    let mut config = base_config();
    config.standardize.address = std_group("123 Training St", vec![("customers", "address")]);
    config.combination_fields = vec![CombinationFieldConfig {
        table: "customers".to_string(),
        fields: vec![SourceField {
            source_field: "address".to_string(),
            random_style: String::new(),
        }],
        separator: ", ".to_string(),
        target_field: "phone".to_string(),
    }];

    let processor = UnlProcessor::new(
        config,
        create_test_table_info(),
        vec!["happy".to_string()],
        vec!["fox".to_string()],
    );

    let mut row = UnlRow::from_line("1001|John|Doe|j@x.com|10 Old Rd|555-1234|").unwrap();
    processor.process_row("customers", &mut row).unwrap();
    assert_eq!(row.get_field(4).unwrap(), "123 Training St");
    assert_eq!(row.get_field(5).unwrap(), "123 Training St");
}

#[test]
fn test_skip_on_miss_leaves_row_untouched() {
    let mut config = base_config();
    config.scrubbing.random_names = vec![RandomNameConfig {
        table: "customers".to_string(),
        fields: vec!["no_such_column".to_string()],
        style: "github".to_string(),
    }];
    config.standardize.phone = std_group("555-0000", vec![("customers", "missing_field")]);

    let processor = UnlProcessor::new(
        config,
        create_test_table_info(),
        vec!["happy".to_string()],
        vec!["fox".to_string()],
    );

    let line = "1001|John|Doe|j@x.com|10 Old Rd|555-1234|";
    let mut row = UnlRow::from_line(line).unwrap();
    processor.process_row("customers", &mut row).unwrap();
    assert_eq!(row.to_line(), line);
}

#[test]
fn test_out_of_range_rule_is_fatal() {
    let mut config = base_config();
    config.standardize.address = std_group("123 Training St", vec![("customers", "address")]);

    let processor = UnlProcessor::new(
        config,
        create_test_table_info(),
        vec!["happy".to_string()],
        vec!["fox".to_string()],
    );

    // Only two fields, but "address" resolves to position 4.
    let mut row = UnlRow::from_line("1001|John|").unwrap();
    let result = processor.process_row("customers", &mut row);
    match result {
        Err(Error::Processing(_)) => {}
        other => panic!("expected a processing error, got {:?}", other),
    }
}

#[test]
fn test_unsupported_style_is_config_error() {
    let mut config = base_config();
    config.scrubbing.random_names = vec![RandomNameConfig {
        table: "customers".to_string(),
        fields: vec!["first_name".to_string()],
        style: "fancy".to_string(),
    }];

    let processor = UnlProcessor::new(
        config,
        create_test_table_info(),
        vec!["happy".to_string()],
        vec!["fox".to_string()],
    );

    let mut row = UnlRow::from_line("1001|John|Doe|j@x.com|a|b|").unwrap();
    match processor.process_row("customers", &mut row) {
        Err(Error::Config(_)) => {}
        other => panic!("expected a configuration error, got {:?}", other),
    }
}

#[test]
fn test_empty_word_list_is_processing_error() {
    let mut config = base_config();
    config.scrubbing.random_names = vec![RandomNameConfig {
        table: "customers".to_string(),
        fields: vec!["first_name".to_string()],
        style: "github".to_string(),
    }];

    let processor = UnlProcessor::new(config, create_test_table_info(), vec![], vec![]);

    let mut row = UnlRow::from_line("1001|John|Doe|j@x.com|a|b|").unwrap();
    match processor.process_row("customers", &mut row) {
        Err(Error::Processing(_)) => {}
        other => panic!("expected a processing error, got {:?}", other),
    }
}

#[test]
fn test_process_lines_standardizes_each_row() {
    let mut config = base_config();
    config.standardize.address =
        std_group("123 Training St, Test City, ST 12345", vec![("customers", "address")]);
    config.standardize.phone = std_group("555-0123", vec![("customers", "phone")]);
    config.standardize.email = std_group("test@example.com", vec![("customers", "email")]);

    let processor = UnlProcessor::new(
        config,
        create_test_table_info(),
        vec!["happy".to_string(), "quick".to_string()],
        vec!["fox".to_string(), "dog".to_string()],
    );

    let lines = vec![
        "1001|John|Doe|john@example.com|123 Main St|555-1234|".to_string(),
        "1002|Jane|Smith|jane@example.com|456 Oak St|555-5678|".to_string(),
    ];
    let output = processor.process_lines("customers", &lines).unwrap();
    assert_eq!(output.len(), 2);

    for line in &output {
        assert!(line.ends_with('|'));
        let fields: Vec<&str> = line.split('|').collect();
        assert_eq!(fields.len(), 7, "Expected 6 fields plus empty string after final pipe");

        let row = UnlRow::from_line(line).unwrap();
        assert_eq!(row.get_field(4).unwrap(), "123 Training St, Test City, ST 12345");
        assert_eq!(row.get_field(5).unwrap(), "555-0123");
    }
}

#[test]
fn test_styled_combination_source() {
    // A combine source with a style contributes a fresh synthesized value.
    let mut config = base_config();
    config.combination_fields = vec![CombinationFieldConfig {
        table: "customers".to_string(),
        fields: vec![
            SourceField { source_field: "first_name".to_string(), random_style: "github".to_string() },
            SourceField { source_field: "last_name".to_string(), random_style: String::new() },
        ],
        separator: " ".to_string(),
        target_field: "email".to_string(),
    }];

    let processor = UnlProcessor::new(
        config,
        create_test_table_info(),
        vec!["happy".to_string()],
        vec!["fox".to_string()],
    );

    let mut row = UnlRow::from_line("1001|John|Doe|j@x.com|a|b|").unwrap();
    processor.process_row("customers", &mut row).unwrap();
    assert_eq!(row.get_field(3).unwrap(), "happy-fox Doe");
}

#[test]
fn test_error_message_rendering() {
    assert_eq!(Error::Config("bad style".to_string()).message(), "Configuration error: bad style");
    assert_eq!(Error::Processing("oops".to_string()).message(), "Processing error: oops");
    assert_eq!(Error::Io("gone".to_string()).message(), "IO error: gone");
    assert_eq!(Error::Yaml("syntax".to_string()).message(), "YAML parsing error: syntax");
}
