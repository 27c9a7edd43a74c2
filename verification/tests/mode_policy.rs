use amclaw::mode_policy::{check_url, AgentMode};
use amclaw::task_store::url_guard::IpAddress;

fn unresolved(_: &str) -> Vec<IpAddress> {
    vec![]
}

#[test]
fn restricted_denies_localhost_url() {
    let decision = check_url(AgentMode::Restricted, "http://localhost:8080/api", unresolved);
    assert!(!decision.allowed);
}

#[test]
fn restricted_denies_file_protocol() {
    let decision = check_url(AgentMode::Restricted, "file:///etc/passwd", unresolved);
    assert!(!decision.allowed);
}

#[test]
fn restricted_allows_public_url() {
    let decision = check_url(AgentMode::Restricted, "https://example.com/article", unresolved);
    assert!(decision.allowed);
}

#[test]
fn restricted_allows_172_32() {
    // 172.32.x.x 不属于 RFC1918 私网段（172.16.0.0/12）
    let decision = check_url(AgentMode::Restricted, "http://172.32.1.1/a", unresolved);
    assert!(decision.allowed);
}

#[test]
fn restricted_denies_172_16() {
    let decision = check_url(AgentMode::Restricted, "http://172.16.1.1/a", unresolved);
    assert!(!decision.allowed);
}

#[test]
fn restricted_denies_127_0_0_1() {
    let decision = check_url(AgentMode::Restricted, "http://127.0.0.1/a", unresolved);
    assert!(!decision.allowed);
}

#[test]
fn restricted_denies_ipv6_loopback() {
    let decision = check_url(AgentMode::Restricted, "http://[::1]/a", unresolved);
    assert!(!decision.allowed);
}
