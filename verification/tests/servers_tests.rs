use tdx_maintain_core::tdx_servers::{
    dedup_addresses, extract_number, parse_hq_host_section, parse_key_value, rustdx_probe_order,
    AddrKey,
};

#[test]
fn test_parse_hq_host_section() {
    let sample = r#"
[HQHOST]
HostNum=2
PrimaryHost=1

HostName01=通达信深圳双线主站1
IPAddress01=110.41.147.114
Port01=7709

HostName02=通达信上海双线主站1
IPAddress02=124.223.163.242
Port02=7709

[OTHER]
foo=bar
"#;
    let servers = parse_hq_host_section(sample);
    assert_eq!(servers.len(), 2);
    assert_eq!(servers[0].name, "通达信深圳双线主站1");
    assert_eq!(servers[0].addr_text(), "110.41.147.114:7709");
    assert_eq!(servers[1].name, "通达信上海双线主站1");
    assert_eq!(servers[1].addr_text(), "124.223.163.242:7709");
}

#[test]
fn test_parse_empty_content() {
    let servers = parse_hq_host_section("");
    assert!(servers.is_empty());
}

#[test]
fn test_parse_no_hq_host_section() {
    let content = "[OTHER]\na=b\n";
    let servers = parse_hq_host_section(content);
    assert!(servers.is_empty());
}

#[test]
fn default_port_and_name() {
    let servers = parse_hq_host_section("[hqhost]\nIPAddress07=1.2.3.4\n");
    assert_eq!(servers.len(), 1);
    assert_eq!(servers[0].port, 7709);
    assert_eq!(servers[0].name, "TDX-07");
}

#[test]
fn key_value_and_number() {
    assert_eq!(
        parse_key_value(" IPAddress01 = 110.41.147.114 "),
        Some(("IPAddress01".to_string(), "110.41.147.114".to_string()))
    );
    assert_eq!(parse_key_value("novalue"), None);
    assert_eq!(parse_key_value(" =x"), None);
    assert_eq!(extract_number("IPAddress01", "IPAddress"), Some("01".to_string()));
    assert_eq!(extract_number("IPAddress", "IPAddress"), None);
    assert_eq!(extract_number("IPAddressX1", "IPAddress"), None);
    assert_eq!(extract_number("Port01", "IPAddress"), None);
}

#[test]
fn addresses_deduplicated_in_order() {
    let k = |ip: u128, port: u16| AddrKey { v6: false, ip, port };
    let keys = vec![k(1, 7709), k(2, 7709), k(1, 7709), k(1, 7711)];
    assert_eq!(dedup_addresses(&keys), vec![0, 1, 3]);
}

#[test]
fn probe_order_prefers_reachable() {
    assert_eq!(rustdx_probe_order(&vec![false, true, false, true]), vec![1, 3]);
    assert_eq!(
        rustdx_probe_order(&vec![false, false, false, false, false, false]),
        vec![0, 1, 2, 3, 4]
    );
}
