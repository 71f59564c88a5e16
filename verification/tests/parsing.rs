//! Marker text, instance-directory and command-token parsing.

use wallctl::control::{parse_command, Command};
use wallctl::text::{contains_subslice, get_instance_num, parse_percent, parse_u32_digits};

#[test]
fn contains_finds_markers_anywhere() {
    assert!(contains_subslice(b"now generating terrain", b"generating"));
    assert!(contains_subslice(b"generating", b"generating"));
    assert!(!contains_subslice(b"now loading terrain", b"generating"));
    assert!(!contains_subslice(b"gen", b"generating"));
    assert!(contains_subslice(b"anything", b""));
}

#[test]
fn percent_field_follows_the_first_comma() {
    assert_eq!(parse_percent(b"previewing,85"), Some(85));
    assert_eq!(parse_percent(b"previewing,7,noise"), Some(7));
    assert_eq!(parse_percent(b"previewing,0"), Some(0));
    assert_eq!(parse_percent(b"previewing"), None);
    assert_eq!(parse_percent(b"previewing,"), None);
    assert_eq!(parse_percent(b"previewing,12x"), None);
    assert_eq!(parse_percent(b"previewing, 85"), None);
    assert_eq!(parse_percent(b"previewing,4294967295"), Some(4294967295));
    assert_eq!(parse_percent(b"previewing,4294967296"), None);
}

#[test]
fn digit_runs_parse_exactly() {
    assert_eq!(parse_u32_digits(b"0"), Some(0));
    assert_eq!(parse_u32_digits(b"0042"), Some(42));
    assert_eq!(parse_u32_digits(b""), None);
    assert_eq!(parse_u32_digits(b"1e3"), None);
    assert_eq!(parse_u32_digits(b"99999999999999999999"), None);
}

#[test]
fn instance_num_sits_between_rsg_and_slash() {
    assert_eq!(get_instance_num(b"/home/u/MultiMC/instances/RSG 12/.minecraft"), Some(12));
    assert_eq!(get_instance_num(b"RSG 3/"), Some(3));
    assert_eq!(get_instance_num(b"no marker here"), None);
    assert_eq!(get_instance_num(b"RSG 12"), None);
    assert_eq!(get_instance_num(b"RSG twelve/"), None);
    assert_eq!(get_instance_num(b"RSG /"), None);
    assert_eq!(get_instance_num(b"RSG 99999999999/"), None);
    assert_eq!(get_instance_num(b"prefix RSG 7/ suffix RSG 9/"), Some(7));
}

#[test]
fn command_tokens_dispatch_or_are_ignored() {
    assert_eq!(parse_command(b"reset_bag"), Some(Command::ResetBag));
    assert_eq!(parse_command(b"lock"), Some(Command::Lock));
    assert_eq!(parse_command(b"toggle_thin"), Some(Command::ToggleThin));
    assert_eq!(parse_command(b"exit_instance"), Some(Command::ExitInstance));
    assert_eq!(parse_command(b"reset-bag"), None);
    assert_eq!(parse_command(b"Lock"), None);
    assert_eq!(parse_command(b""), None);
}
