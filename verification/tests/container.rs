use egressd::container::{
    any_name_has_prefix, list_filters, name_has_prefix, names_match_prefix, proxy_container_spec,
    proxy_volumes, removal_verdict, RemovalVerdict,
};

#[test]
fn volumes_of_a_proxy() {
    assert_eq!(proxy_volumes("egressd-abc"), vec!["egressd-abc-data".to_string(), "egressd-abc-cache".to_string()]);
}

#[test]
fn container_spec_shape() {
    let c = proxy_container_spec("egressd-abc", "warpgate:local", "egressd-net");
    assert_eq!(c.name, "egressd-abc");
    assert_eq!(c.image, "warpgate:local");
    assert_eq!(c.network_mode, "egressd-net");
    assert_eq!(c.cap_add, vec!["NET_ADMIN".to_string()]);
    assert_eq!(c.devices.len(), 1);
    assert_eq!(c.devices[0].path_on_host, "/dev/net/tun");
    assert_eq!(c.mounts.len(), 2);
    assert_eq!(c.mounts[0].source, "egressd-abc-data");
    assert_eq!(c.mounts[0].target, "/var/lib/cloudflare-warp");
    assert_eq!(c.mounts[1].source, "egressd-abc-cache");
    assert_eq!(c.mounts[1].target, "/var/cache");
    assert_eq!(c.sysctls, vec![("net.ipv6.conf.all.disable_ipv6".to_string(), "0".to_string())]);
    assert!(c.auto_remove);
    assert_eq!(c.env, vec!["WARP_WAIT_RETRIES=15".to_string(), "WARP_WAIT_INTERVAL=2".to_string()]);
}

#[test]
fn filters_for_listing() {
    assert!(list_filters(true).is_empty());
    let f = list_filters(false);
    assert_eq!(f, vec![("status".to_string(), vec!["running".to_string()])]);
}

#[test]
fn name_prefixes() {
    assert!(name_has_prefix("/egressd-abc", "egressd-"));
    assert!(name_has_prefix("//egressd-abc", "egressd-"));
    assert!(name_has_prefix("egressd-abc", "egressd-"));
    assert!(!name_has_prefix("/warpgate-1", "egressd-"));
    assert!(name_has_prefix("/x", ""));
    let names = vec!["/other".to_string(), "/egressd-1".to_string()];
    assert!(any_name_has_prefix(&names, "egressd-"));
    assert!(!any_name_has_prefix(&names, "zzz"));
    assert!(names_match_prefix(Some(&names), "egressd-"));
    assert!(!names_match_prefix(None, "egressd-"));
}

#[test]
fn removal_answers() {
    assert_eq!(removal_verdict(Ok(())), RemovalVerdict::Removed);
    assert_eq!(removal_verdict(Err(Some(404))), RemovalVerdict::AlreadyGone);
    assert_eq!(removal_verdict(Err(Some(500))), RemovalVerdict::Failed);
    assert_eq!(removal_verdict(Err(None)), RemovalVerdict::Failed);
}
