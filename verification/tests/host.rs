use gfs::control::{HostResponse, MountRequest, MountSummary};
use gfs::error::{ErrorCode, GfsError};
use gfs::fs::FsConfig;
use gfs::host::{
    acquire_lock, bind, create_mount, default_socket, list, runtime_dir, stops, BindPlan, HostConfig, MountHost,
};
use gfs::lease::{HealthState, LeasePolicy};
use gfs::limits::STATE_FORMAT_VERSION;
use gfs::local::RepositoryId;

#[test]
fn the_default_socket_is_per_user_and_short_enough_to_bind() {
    for session in [None, Some("/run/user/1000".to_owned())] {
        let socket = default_socket(&runtime_dir(session, 1000));
        assert!(socket.starts_with('/'), "{socket}");
        // A Unix socket path is capped near 108 bytes and the failure is opaque.
        assert!(socket.len() < 100, "{socket}");
    }
    assert_ne!(
        default_socket(&runtime_dir(None, 1)),
        default_socket(&runtime_dir(None, 2))
    );
}

fn config() -> HostConfig {
    HostConfig {
        socket: "/run/gfs/host.sock".to_owned(),
        grpc_endpoint: "http://g".to_owned(),
        http_endpoint: "http://h".to_owned(),
        token: "t".to_owned(),
        lease_policy: LeasePolicy::standard(),
        fs: FsConfig::default(),
        odb_residency_bytes: 0,
    }
}

fn request() -> MountRequest {
    MountRequest {
        state_format_version: STATE_FORMAT_VERSION,
        workspace: "/ws".to_owned(),
        state_dir: "/state".to_owned(),
        cache_dir: "/cache".to_owned(),
        repository_id: "r-1".to_owned(),
        revision_selector: "main".to_owned(),
        cache_quota_bytes: 1,
        overlay_quota_bytes: 2,
        allow_other: false,
        fuse_threads: None,
        grpc_endpoint: None,
        http_endpoint: Some("http://other".to_owned()),
        token: None,
    }
}

#[test]
fn a_request_falls_back_to_the_hosts_endpoints() {
    let spec = create_mount(request(), Ok(repository_id()), &config(), 4).unwrap();
    assert_eq!(spec.grpc_endpoint, "http://g");
    assert_eq!(spec.http_endpoint, "http://other");
    assert_eq!(spec.token, "t");
    assert_eq!(spec.threads, 4);
    assert_eq!(spec.workspace, "/ws");
}

fn repository_id() -> RepositoryId {
    RepositoryId::new("r-parsed".to_owned())
}

#[test]
fn a_repository_id_that_does_not_parse_is_refused() {
    let verdict = GfsError::invalid("not a repository ID");
    let e = create_mount(request(), Err(verdict), &config(), 1).unwrap_err();
    assert_eq!(e.message, "not a repository ID");
    let spec = create_mount(request(), Ok(repository_id()), &config(), 1).unwrap();
    assert_eq!(spec.repository_id, "r-parsed");
}

#[test]
fn a_request_of_another_format_is_refused() {
    let mut r = request();
    r.state_format_version = STATE_FORMAT_VERSION + 1;
    assert!(create_mount(r, Ok(repository_id()), &config(), 1).is_err());
}

#[test]
fn one_mount_per_workspace() {
    let mut host = MountHost::new(config());
    host.mount("/ws").unwrap();
    host.register("/ws");
    assert!(host.mount_at("/ws"));
    assert_eq!(host.mount("/ws").unwrap_err().code, ErrorCode::Conflict);
    assert_eq!(host.info("1.0", 7).mounts, 1);
    host.destroy_mount("/ws").unwrap();
    assert!(!host.mount_at("/ws"));
    assert_eq!(
        host.destroy_mount("/ws").unwrap_err().code,
        ErrorCode::NotFound
    );
}

#[test]
fn a_stale_host_socket_is_replaced_and_a_live_one_is_not() {
    assert_eq!(bind(false, false, "/s").unwrap(), BindPlan::Bind);
    assert_eq!(bind(true, false, "/s").unwrap(), BindPlan::RemoveThenBind);
    assert_eq!(bind(true, true, "/s").unwrap_err().code, ErrorCode::Conflict);
}

#[test]
fn shutting_down_forgets_the_mounts_and_ends_the_host() {
    let mut host = MountHost::new(config());
    host.register("/a");
    host.register("/b");
    assert!(host.forget("/a"));
    assert!(!host.forget("/a"));
    host.shutdown();
    assert!(!host.mount_at("/b"));
    assert!(stops(&HostResponse::ShuttingDown));
    assert!(!stops(&HostResponse::Destroyed));
}

#[test]
fn the_list_shows_every_mount_ordered_by_workspace() {
    let summary = |workspace: &str| MountSummary {
        workspace: workspace.to_owned(),
        state_dir: format!("{workspace}.state"),
        repository_id: "r".to_owned(),
        mount_id: "m".to_owned(),
        revision_selector: "main".to_owned(),
        commit: "c".to_owned(),
        generation: 1,
        health: HealthState::Healthy,
    };
    let listed = list(&vec![summary("/w-x"), summary("/w/b"), summary("/a"), summary("/w")]);
    let order: Vec<&str> = listed.iter().map(|s| s.workspace.as_str()).collect();
    assert_eq!(order, ["/a", "/w", "/w/b", "/w-x"]);
    assert_eq!(listed[3].state_dir, "/w-x.state");
}

#[test]
fn one_host_per_socket_and_the_lock_outlives_a_stale_socket() {
    acquire_lock("/run/host.lock", None).expect("the first host takes the lock");
    let second = acquire_lock("/run/host.lock", Some("busy".to_owned())).unwrap_err();
    assert_eq!(second.code, ErrorCode::Conflict);
    assert_eq!(second.message, "another GFS host holds /run/host.lock (busy)");
    // The lock goes with its holder, whose socket may stay behind.
    acquire_lock("/run/host.lock", None).expect("the lock is free once its holder is gone");
    assert_eq!(bind(true, false, "/s").unwrap(), BindPlan::RemoveThenBind);
}
