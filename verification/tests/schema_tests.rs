use unl_scrub::parse_sql_file;
use unl_scrub::Error;
use unl_scrub::TableInfo;

#[test]
fn test_parse_create_table_statements() {
    let sql = r#"
        { DATABASE test_live  delimiter | }

        { TABLE "informix".customers row size = 429 number of columns = 6 index size = 0 }
        { unload file name = custo00100.unl number of rows = 73 }
        create table "informix".customers
        (
            id serial not null,
            first_name varchar(50),
            last_name varchar(50),
            email varchar(100),
            address varchar(200),
            phone varchar(20)
        ) extent size 16 next size 16 lock mode row;

        { TABLE "informix".employees row size = 432 number of columns = 6 index size = 0 }
        { unload file name = emplo00101.unl number of rows = 53 }
        create table "informix".employees
        (
            id serial not null,
            customer_id integer,
            name varchar(100),
            email varchar(100),
            address varchar(200),
            phone varchar(20)
        ) extent size 16 next size 16 lock mode row;
    "#;

    let result = parse_sql_file(sql).unwrap();
    assert_eq!(result.len(), 2);

    let customers = result.get("customers").unwrap();
    assert_eq!(
        *customers,
        TableInfo {
            unl_file: "custo00100.unl".to_string(),
            fields: vec![
                "id".to_string(),
                "first_name".to_string(),
                "last_name".to_string(),
                "email".to_string(),
                "address".to_string(),
                "phone".to_string(),
            ],
        }
    );

    let employees = result.get("employees").unwrap();
    assert_eq!(
        *employees,
        TableInfo {
            unl_file: "emplo00101.unl".to_string(),
            fields: vec![
                "id".to_string(),
                "customer_id".to_string(),
                "name".to_string(),
                "email".to_string(),
                "address".to_string(),
                "phone".to_string(),
            ],
        }
    );
}

#[test]
fn test_parse_table_with_complex_fields() {
    let sql = r#"
        { TABLE "informix".complex_table row size = 500 number of columns = 8 index size = 0 }
        { unload file name = compl00102.unl number of rows = 100 }
        create table "informix".complex_table
        (
            id serial not null,
            decimal_field decimal(10,2),
            date_field date,
            timestamp_field datetime year to fraction(5),
            blob_field blob,
            list_field set(integer not null),
            varying_field varchar(255, 512),
            fixed_field char(10)
        ) extent size 16 next size 16 lock mode row;
    "#;

    let result = parse_sql_file(sql).unwrap();
    assert_eq!(result.len(), 1);

    let complex = result.get("complex_table").unwrap();
    assert_eq!(
        *complex,
        TableInfo {
            unl_file: "compl00102.unl".to_string(),
            fields: vec![
                "id".to_string(),
                "decimal_field".to_string(),
                "date_field".to_string(),
                "timestamp_field".to_string(),
                "blob_field".to_string(),
                "list_field".to_string(),
                "varying_field".to_string(),
                "fixed_field".to_string(),
            ],
        }
    );
}

#[test]
fn test_error_handling() {
    // Missing unload file name: the block is skipped, leaving no tables.
    let sql = r#"
        { TABLE "informix".missing_unl row size = 100 number of columns = 2 index size = 0 }
        create table "informix".missing_unl
        (
            id serial not null,
            name varchar(50)
        ) extent size 16 next size 16 lock mode row;
    "#;
    assert!(parse_sql_file(sql).is_err());
}

#[test]
fn test_parse_deterministic() {
    let sql = r#"
        { TABLE "informix".customers row size = 429 number of columns = 2 index size = 0 }
        { unload file name = custo00100.unl number of rows = 73 }
        create table "informix".customers
        (
            id serial not null,
            first_name varchar(50)
        ) extent size 16 next size 16 lock mode row;
    "#;
    let first = parse_sql_file(sql).unwrap();
    let second = parse_sql_file(sql).unwrap();
    assert_eq!(first.len(), second.len());
    assert_eq!(first.get("customers"), second.get("customers"));
}

#[test]
fn test_parse_table_with_no_columns_is_fatal() {
    let sql = r#"
        { TABLE "informix".empty_table row size = 0 number of columns = 0 index size = 0 }
        { unload file name = empty00105.unl number of rows = 0 }
        create table "informix".empty_table
        (
            primary key (nothing recognizable here)
        ) extent size 16 next size 16 lock mode row;
    "#;
    match parse_sql_file(sql) {
        Err(Error::Processing(_)) => {}
        other => panic!("expected a processing error, got {:?}", other),
    }
}

#[test]
fn test_parse_empty_input_is_fatal() {
    match parse_sql_file("") {
        Err(Error::Processing(_)) => {}
        other => panic!("expected a processing error, got {:?}", other),
    }
}
