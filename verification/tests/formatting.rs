use oxisql::connector::{
    cell_display, classify_command, is_mutation_statement, MySqlOutputTable, MySqlResult,
    MySqlRowsAffected, ShellCommand,
};
use oxisql::formatter::{format_result, format_rows_affected, format_table};

#[test]
fn a_table_is_drawn_with_aligned_columns() {
    let table = MySqlOutputTable {
        headers: vec!["id".to_string(), "name".to_string()],
        values: vec![
            vec!["1".to_string(), "alice".to_string()],
            vec!["22".to_string(), "bob".to_string()],
        ],
    };
    let expected = "┌────┬───────┐\n\
                    │ id │  name │ \n\
                    ├────┼───────┤\n\
                    │  1 │ alice │ \n\
                    │ 22 │   bob │ \n\
                    └────┴───────┘\n";
    assert_eq!(format_table(&table), expected.to_string());
}

#[test]
fn a_wide_cell_stretches_its_column() {
    let table = MySqlOutputTable {
        headers: vec!["c".to_string()],
        values: vec![vec!["longer".to_string()]],
    };
    let expected = "┌────────┐\n\
                    │      c │ \n\
                    ├────────┤\n\
                    │ longer │ \n\
                    └────────┘\n";
    assert_eq!(format_table(&table), expected.to_string());
}

#[test]
fn an_empty_result_set_still_draws_its_headers() {
    let table = MySqlOutputTable { headers: vec!["a".to_string()], values: vec![] };
    let expected = "┌───┐\n\
                    │ a │ \n\
                    ├───┤\n\
                    └───┘\n";
    assert_eq!(format_table(&table), expected.to_string());
}

#[test]
fn row_counts_read_as_sentences() {
    assert_eq!(
        format_rows_affected(&MySqlRowsAffected { affected_rows: 0 }),
        "No rows affected\n".to_string()
    );
    assert_eq!(
        format_rows_affected(&MySqlRowsAffected { affected_rows: 1 }),
        "1 Row affected\n".to_string()
    );
    assert_eq!(
        format_rows_affected(&MySqlRowsAffected { affected_rows: 120 }),
        "120 Rows affected\n".to_string()
    );
}

#[test]
fn a_result_renders_by_its_kind() {
    let rows = MySqlResult::RowsAffected(MySqlRowsAffected { affected_rows: 2 });
    assert_eq!(format_result(&rows), "2 Rows affected\n".to_string());
    let table = MySqlResult::Table(MySqlOutputTable {
        headers: vec!["x".to_string()],
        values: vec![],
    });
    assert!(format_result(&table).starts_with("┌"));
}

#[test]
fn shell_commands_are_recognised_literally() {
    assert!(classify_command("exit;") == ShellCommand::Exit);
    assert!(classify_command("quit;") == ShellCommand::Exit);
    assert!(classify_command("clear;") == ShellCommand::Clear);
    assert!(classify_command("SELECT 1;") == ShellCommand::Statement);
    assert!(classify_command("exit") == ShellCommand::Statement);
    assert!(classify_command(" exit;") == ShellCommand::Statement);
}

#[test]
fn the_execute_path_is_taken_by_mutating_verbs_only() {
    assert!(is_mutation_statement("INSERT INTO t VALUES (1);"));
    assert!(is_mutation_statement("insert into t values (1);"));
    assert!(is_mutation_statement("  Update t SET x = 1;"));
    assert!(is_mutation_statement("delete from t;"));
    assert!(is_mutation_statement("REPLACE INTO t VALUES (1);"));
    assert!(!is_mutation_statement("SELECT * FROM t;"));
    assert!(!is_mutation_statement("SHOW TABLES;"));
    assert!(!is_mutation_statement(""));
    assert!(!is_mutation_statement("   "));
}

#[test]
fn cells_without_values_show_null() {
    assert_eq!(cell_display(Some("5".to_string())), "5".to_string());
    assert_eq!(cell_display(None), "NULL".to_string());
}

#[test]
fn a_fresh_output_table_is_empty() {
    let t = MySqlOutputTable::new();
    assert_eq!(t.headers.len(), 0);
    assert_eq!(t.values.len(), 0);
}
