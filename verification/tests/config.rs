use peer_ledger::config::{data_dir_name, node_data_dir, parse_cli, NodeConfig};
use std::path::PathBuf;

fn args(v: &[&str]) -> Vec<String> {
    v.iter().map(|s| s.to_string()).collect()
}

#[test]
fn default_config() {
    let config = NodeConfig::default();
    assert_eq!(config.difficulty, 4);
    assert_eq!(config.data_dir_base, "ledger_data");
}

#[test]
fn reads_port_and_options() {
    let options = parse_cli(&args(&[
        "9001",
        "--peers",
        "127.0.0.1:9000,host",
        "--bind-ip",
        "0.0.0.0",
        "--data-dir",
        "runs",
        "--difficulty",
        "2",
        "--peers",
        "127.0.0.1:9000",
    ]))
    .unwrap();
    assert_eq!(options.port, "9001");
    assert_eq!(options.bind_ip, "0.0.0.0");
    assert_eq!(options.peers, vec!["127.0.0.1:9000", "host:9001"]);
    assert_eq!(options.config.difficulty, 2);
    assert_eq!(options.config.data_dir_base, "runs");
}

#[test]
fn defaults_without_options() {
    let options = parse_cli(&args(&["9000"])).unwrap();
    assert_eq!(options.port, "9000");
    assert_eq!(options.bind_ip, "127.0.0.1");
    assert!(options.peers.is_empty());
    assert_eq!(options.config.difficulty, 4);
    assert_eq!(options.config.data_dir_base, "ledger_data");
}

#[test]
fn usage_and_help() {
    let end = parse_cli(&args(&[])).unwrap_err();
    assert_eq!((end.code, end.usage, end.message.as_str()), (1, true, ""));
    let end = parse_cli(&args(&["9000", "--help"])).unwrap_err();
    assert_eq!((end.code, end.usage), (0, true));
    let end = parse_cli(&args(&["-h"])).unwrap_err();
    assert_eq!(end.code, 0);
}

#[test]
fn bad_arguments_end_with_code_two() {
    let end = parse_cli(&args(&["9000", "--peers"])).unwrap_err();
    assert_eq!((end.code, end.message.as_str(), end.usage), (2, "--peers needs a value", false));
    let end = parse_cli(&args(&["9000", "--difficulty", "-1"])).unwrap_err();
    assert_eq!(end.message, "--difficulty must be a non-negative integer");
    let end = parse_cli(&args(&["9000", "--difficulty", "4294967296"])).unwrap_err();
    assert_eq!(end.code, 2);
    let end = parse_cli(&args(&["9000", "--verbose"])).unwrap_err();
    assert_eq!((end.code, end.message.as_str(), end.usage), (2, "unknown option: --verbose", true));
    let end = parse_cli(&args(&["9000", "extra"])).unwrap_err();
    assert_eq!(end.message, "unexpected positional argument: extra");
}

#[test]
fn data_dir_is_named_by_port() {
    assert_eq!(data_dir_name("127.0.0.1:9000"), "9000");
    assert_eq!(data_dir_name("localhost"), "localhost");
    assert_eq!(data_dir_name("a:b:7"), "7");
    assert_eq!(data_dir_name("x:"), "");
}

#[test]
fn node_data_dir_joins_port_under_base() {
    let dir = node_data_dir("127.0.0.1:9000", PathBuf::from("ledger_data"));
    assert_eq!(dir, PathBuf::from("ledger_data").join("9000"));
    assert!(dir.ends_with("9000"));
    assert_eq!(dir, PathBuf::from("ledger_data/9000"));
    assert_eq!(node_data_dir("node", PathBuf::from("d")), PathBuf::from("d/node"));
    assert_eq!(node_data_dir("localhost", PathBuf::from("base")), PathBuf::from("base").join("localhost"));
}
