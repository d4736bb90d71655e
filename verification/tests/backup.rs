//! Copies of configuration files.

use cc_switch::backup::{
    backup_name, backup_prefix, expired_backups, free_name, names_backup, BackupFile,
};
use cc_switch::dsh_config::{cleanup_dsh_backups, create_dsh_backup};
use cc_switch::zcode_config::cleanup_zcode_backups;

fn names(list: &[&str]) -> Vec<String> {
    list.iter().map(|s| s.to_string()).collect()
}

fn file(name: &str, modified: Option<i128>) -> BackupFile {
    BackupFile { name: name.to_string(), modified }
}

#[test]
fn the_first_free_name_is_taken() {
    assert_eq!(free_name("a", "yaml", &names(&[])), "a.yaml");
    assert_eq!(free_name("a", "yaml", &names(&["a.yaml"])), "a_1.yaml");
    assert_eq!(free_name("a", "yaml", &names(&["a_1.yaml", "a.yaml"])), "a_2.yaml");
    assert_eq!(free_name("a", "yaml", &names(&["a_1.yaml"])), "a.yaml");
    let many: Vec<String> = (0..12)
        .map(|n| if n == 0 { "a.json".to_string() } else { format!("a_{n}.json") })
        .collect();
    assert_eq!(free_name("a", "json", &many), "a_12.json");
}

#[test]
fn names_carry_the_time() {
    let name = create_dsh_backup("settings", &Vec::new());
    assert!(name.starts_with("dsh_settings_") && name.ends_with(".yaml"));
    let stamp = &name["dsh_settings_".len()..name.len() - ".yaml".len()];
    assert_eq!(stamp.len(), 15);
    assert_eq!(stamp.as_bytes()[8], b'_');
    assert!(stamp.chars().all(|c| c.is_ascii_digit() || c == '_'));
    assert_eq!(backup_prefix("zcode", "cli"), "zcode_cli_");
    assert!(backup_name("x", "y", "json", &Vec::new()).starts_with("x_y_"));
}

#[test]
fn copies_are_known_by_their_names() {
    let yaml = names(&["yaml", "yml"]);
    assert!(names_backup("dsh_settings_1.yaml", "dsh_settings_", &yaml));
    assert!(names_backup("dsh_settings_1.2.yml", "dsh_settings_", &yaml));
    assert!(!names_backup("dsh_settings_1.json", "dsh_settings_", &yaml));
    assert!(!names_backup("dsh_settings_1", "dsh_settings_", &yaml));
    assert!(!names_backup("dsh_credentials_1.yaml", "dsh_settings_", &yaml));
    assert!(!names_backup(".yaml", "", &yaml));
}

#[test]
fn the_oldest_copies_go() {
    let files = vec![
        file("dsh_settings_c.yaml", Some(3)),
        file("dsh_settings_a.yaml", Some(1)),
        file("dsh_credentials_a.yaml", Some(0)),
        file("dsh_settings_b.yml", Some(2)),
        file("dsh_settings_x.txt", Some(0)),
    ];
    assert_eq!(
        cleanup_dsh_backups(&files, "settings", 1),
        names(&["dsh_settings_a.yaml", "dsh_settings_b.yml"])
    );
    assert_eq!(cleanup_dsh_backups(&files, "settings", 3), names(&[]));
    assert_eq!(
        cleanup_dsh_backups(&files, "settings", 0),
        names(&["dsh_settings_a.yaml", "dsh_settings_b.yml", "dsh_settings_c.yaml"])
    );
}

#[test]
fn copies_of_the_same_time_stay_in_order() {
    let files = vec![
        file("zcode_cli_b.json", Some(1)),
        file("zcode_cli_a.json", Some(1)),
        file("zcode_cli_c.json", None),
    ];
    assert_eq!(
        cleanup_zcode_backups(&files, "cli", 0),
        names(&["zcode_cli_c.json", "zcode_cli_b.json", "zcode_cli_a.json"])
    );
    assert_eq!(
        expired_backups(&files, "zcode_cli_", &names(&["json"]), 2),
        names(&["zcode_cli_c.json"])
    );
}
