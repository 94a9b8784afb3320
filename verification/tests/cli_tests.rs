use cluster_manager::cli::{parse_replication_factor, Cli, Command, CommonArgs};
use cluster_manager::common::Config;

#[test]
fn parse_replication_factor_rejects_zero() {
    assert!(parse_replication_factor("0").is_err());
}

#[test]
fn parse_replication_factor_rejects_non_positive_or_non_int() {
    assert!(parse_replication_factor("-1").is_err());
    assert!(parse_replication_factor("abc").is_err());
}

#[test]
fn parse_replication_factor_accepts_positive_int() {
    assert_eq!(parse_replication_factor("1").unwrap(), 1);
    assert_eq!(parse_replication_factor("3").unwrap(), 3);
}

#[test]
fn parse_replication_factor_reports_each_error() {
    assert_eq!(
        parse_replication_factor("0"),
        Err("replication_factor must be at least 1".to_string())
    );
    assert_eq!(
        parse_replication_factor("abc"),
        Err("replication_factor must be a positive integer".to_string())
    );
    assert_eq!(
        parse_replication_factor(""),
        Err("replication_factor must be a positive integer".to_string())
    );
    assert_eq!(
        parse_replication_factor("+"),
        Err("replication_factor must be a positive integer".to_string())
    );
    assert_eq!(
        parse_replication_factor("99999999999999999999999"),
        Err("replication_factor must be a positive integer".to_string())
    );
}

#[test]
fn parse_replication_factor_reads_like_usize_parsing() {
    assert_eq!(parse_replication_factor("+7"), Ok(7));
    assert_eq!(parse_replication_factor("007"), Ok(7));
    assert_eq!(parse_replication_factor("120"), Ok(120));
    assert!(parse_replication_factor(" 3").is_err());
    assert!(parse_replication_factor("3 ").is_err());
    assert!(parse_replication_factor("++3").is_err());
    assert_eq!(
        parse_replication_factor("18446744073709551615"),
        Ok(18446744073709551615usize)
    );
}

#[test]
fn common_args_self_port_defaults_to_grpc_port() {
    let args = CommonArgs {
        grpc_port: 1234,
        self_host: "127.0.0.1".to_string(),
        self_port: None,
    };
    assert_eq!(args.self_port(), 1234);
}

#[test]
fn common_args_self_port_overrides_grpc_port() {
    let args = CommonArgs {
        grpc_port: 1234,
        self_host: "127.0.0.1".to_string(),
        self_port: Some(5678),
    };
    assert_eq!(args.self_port(), 5678);
}

#[test]
fn common_args_new_keeps_the_given_ports() {
    let args = CommonArgs::new(1, "h".to_string(), Some(2));
    assert_eq!(args.grpc_port, 1);
    assert_eq!(args.self_port(), 2);
    let args = CommonArgs::new(3, "h".to_string(), None);
    assert_eq!(args.self_port(), 3);
}

#[test]
fn config_from_cli_manager_sets_replication_factor_and_optional_manager_addr() {
    // The value the command line
    // `manager --grpc-port 5000 --self-host 127.0.0.1 --replication-factor 5` parses to.
    let cli = Cli {
        command: Command::Manager {
            common: CommonArgs {
                grpc_port: 5000,
                self_host: "127.0.0.1".to_string(),
                self_port: None,
            },
            manager_host: None,
            manager_port: None,
            replication_factor: parse_replication_factor("5").unwrap(),
        },
    };

    let cfg: Config = cli.into();
    match cfg {
        Config::Manager {
            grpc_port,
            self_host_port,
            manager_host_port,
            replication_factor,
        } => {
            assert_eq!(grpc_port, 5000);
            assert_eq!(self_host_port, ("127.0.0.1".to_string(), 5000));
            assert_eq!(manager_host_port, None);
            assert_eq!(replication_factor, 5);
        }
        other => panic!("unexpected config: {:?}", other),
    }
}

#[test]
fn config_from_cli_worker_sets_manager_addr_and_has_no_replication_factor() {
    // The value the command line `worker --grpc-port 5001 --self-host 127.0.0.1
    // --self-port 7777 --manager-host 10.0.0.1 --manager-port 6000` parses to.
    let cli = Cli {
        command: Command::Worker {
            common: CommonArgs {
                grpc_port: 5001,
                self_host: "127.0.0.1".to_string(),
                self_port: Some(7777),
            },
            manager_host: "10.0.0.1".to_string(),
            manager_port: 6000,
        },
    };

    let cfg: Config = cli.into();
    match cfg {
        Config::Worker {
            grpc_port,
            self_host_port,
            manager_host_port,
        } => {
            assert_eq!(grpc_port, 5001);
            assert_eq!(self_host_port, ("127.0.0.1".to_string(), 7777));
            assert_eq!(manager_host_port, ("10.0.0.1".to_string(), 6000));
        }
        other => panic!("unexpected config: {:?}", other),
    }
}

#[test]
fn config_from_cli_manager_with_upstream_manager() {
    let cli = Cli {
        command: Command::Manager {
            common: CommonArgs {
                grpc_port: 5000,
                self_host: "host".to_string(),
                self_port: Some(5100),
            },
            manager_host: Some("10.0.0.1".to_string()),
            manager_port: Some(6000),
            replication_factor: 3,
        },
    };
    let cfg = Config::from(cli);
    assert_eq!(cfg.grpc_port(), 5000);
    assert_eq!(cfg.self_host_port(), &("host".to_string(), 5100));
    assert_eq!(
        cfg.manager_host_port(),
        Some(&("10.0.0.1".to_string(), 6000))
    );
    assert_eq!(cfg.replication_factor(), 3);
}

#[test]
fn config_replication_factor_can_be_changed_in_place() {
    let mut cfg = Config::Manager {
        grpc_port: 1,
        self_host_port: ("h".to_string(), 1),
        manager_host_port: None,
        replication_factor: 3,
    };
    *cfg.replication_factor_mut() = 2;
    assert_eq!(cfg.replication_factor(), 2);
    assert_eq!(cfg.grpc_port(), 1);
}

#[test]
fn worker_config_has_a_manager_address() {
    let cfg = Config::Worker {
        grpc_port: 1,
        self_host_port: ("h".to_string(), 2),
        manager_host_port: ("m".to_string(), 3),
    };
    assert_eq!(cfg.manager_host_port(), Some(&("m".to_string(), 3)));
    assert_eq!(cfg.self_host_port(), &("h".to_string(), 2));
}
