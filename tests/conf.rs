use dns_stub::args::nameserver_from_conf;
use dns_stub::{Args, DnsError};

#[test]
fn nameserver_gets_default_port() {
    let conf = "# generated\nsearch lan\nnameserver 192.168.1.1\nnameserver 8.8.8.8\n";
    assert_eq!(nameserver_from_conf(conf).unwrap(), "192.168.1.1:53");
}

#[test]
fn nameserver_with_port_is_kept() {
    assert_eq!(nameserver_from_conf("nameserver\t10.0.0.1:5353\r\n").unwrap(), "10.0.0.1:5353");
    assert_eq!(nameserver_from_conf("nameserver   ::1").unwrap(), "::1");
}

#[test]
fn nameserver_missing_is_a_configuration_error() {
    assert_eq!(nameserver_from_conf("search lan\n").unwrap_err(), DnsError::ConfigurationError);
    assert_eq!(nameserver_from_conf("").unwrap_err(), DnsError::ConfigurationError);
    assert_eq!(nameserver_from_conf("nameserver   \n").unwrap_err(), DnsError::ConfigurationError);
}

#[test]
fn args_keep_the_name() {
    let a = Args::new("example.com".to_string());
    assert_eq!(a.name(), "example.com");
}
