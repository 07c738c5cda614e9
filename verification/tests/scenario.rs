use playform_server::protocol::{ClientId, ClientToServer, PlayerId, ServerToClient, Voxel, VoxelReason};
use playform_server::server::Server;
use playform_server::space::Bounds;

fn world() -> Bounds {
    Bounds { x: 0, y: 0, z: 0, lg_size: 20 }
}

#[test]
fn scenario_lease_player_and_deduplicated_request() {
    let mut s = Server::new(world());
    for i in 0..6 {
        s.handle(ClientToServer::Init(format!("client-{}", i)));
    }
    let out = s.handle(ClientToServer::Init(String::from("addr")));
    assert_eq!(out.messages.len(), 1);
    assert_eq!(out.tasks.len(), 0);
    match &out.messages[0] {
        (cid, ServerToClient::LeaseId(id)) => {
            assert_eq!(*cid, ClientId(7));
            assert_eq!(*id, ClientId(7));
        },
        other => panic!("expected LeaseId, got {:?}", other),
    }

    let out = s.handle(ClientToServer::AddPlayer(ClientId(7)));
    assert_eq!(out.messages.len(), 1);
    match &out.messages[0] {
        (cid, ServerToClient::PlayerAdded(pid, _spawn)) => {
            assert_eq!(*cid, ClientId(7));
            assert_eq!(*pid, PlayerId(1));
        },
        other => panic!("expected PlayerAdded, got {:?}", other),
    }

    let b1 = Bounds { x: 1, y: 2, z: 3, lg_size: 4 };
    let out = s.handle(ClientToServer::RequestVoxels {
        time_requested_ns: 1000,
        client_id: ClientId(7),
        voxels: vec![b1],
    });
    assert_eq!(out.messages.len(), 0);
    assert_eq!(out.tasks.len(), 1);
    assert_eq!(out.tasks[0], (b1, 4));

    s.handle(ClientToServer::Init(String::from("addr-2")));
    let out = s.handle(ClientToServer::RequestVoxels {
        time_requested_ns: 2000,
        client_id: ClientId(8),
        voxels: vec![b1],
    });
    assert_eq!(out.messages.len(), 0);
    assert_eq!(out.tasks.len(), 0, "duplicate request must not spawn a second task");

    let out = s.complete_generation(b1, 4, Voxel::Volume(9));
    assert_eq!(out.messages.len(), 2, "both waiters get exactly one delivery");
    match &out.messages[0] {
        (cid, ServerToClient::Voxels { voxels, reason }) => {
            assert_eq!(*cid, ClientId(7));
            assert_eq!(voxels.as_slice(), &[(b1, Voxel::Volume(9))]);
            assert!(matches!(reason, VoxelReason::Requested { at: 1000 }));
        },
        other => panic!("expected Voxels, got {:?}", other),
    }
    match &out.messages[1] {
        (cid, ServerToClient::Voxels { voxels, reason }) => {
            assert_eq!(*cid, ClientId(8));
            assert_eq!(voxels.as_slice(), &[(b1, Voxel::Volume(9))]);
            assert!(matches!(reason, VoxelReason::Requested { at: 2000 }));
        },
        other => panic!("expected Voxels, got {:?}", other),
    }

    let out = s.handle(ClientToServer::RequestVoxels {
        time_requested_ns: 3000,
        client_id: ClientId(7),
        voxels: vec![b1],
    });
    assert_eq!(out.tasks.len(), 0);
    assert_eq!(out.messages.len(), 1, "a generated region is answered at once");
    match &out.messages[0] {
        (cid, ServerToClient::Voxels { voxels, reason }) => {
            assert_eq!(*cid, ClientId(7));
            assert_eq!(voxels.as_slice(), &[(b1, Voxel::Volume(9))]);
            assert!(matches!(reason, VoxelReason::Requested { at: 3000 }));
        },
        other => panic!("expected Voxels, got {:?}", other),
    }
}

#[test]
fn messages_before_lease_are_discarded() {
    let mut s = Server::new(world());
    let out = s.handle(ClientToServer::Ping(ClientId(1)));
    assert_eq!(out.messages.len(), 0, "ping before lease is a no-op");
    assert_eq!(out.tasks.len(), 0);
    let out = s.handle(ClientToServer::AddPlayer(ClientId(1)));
    assert_eq!(out.messages.len(), 0);
    assert_eq!(s.players.len(), 0);
    let out = s.handle(ClientToServer::RequestVoxels {
        time_requested_ns: 5,
        client_id: ClientId(1),
        voxels: vec![Bounds { x: 0, y: 0, z: 0, lg_size: 1 }],
    });
    assert_eq!(out.messages.len(), 0);
    assert_eq!(out.tasks.len(), 0);

    s.handle(ClientToServer::Init(String::from("addr")));
    let out = s.handle(ClientToServer::Ping(ClientId(1)));
    assert_eq!(out.messages.len(), 1);
    assert!(matches!(&out.messages[0], (ClientId(1), ServerToClient::Ping)));
}

#[test]
fn request_outside_the_world_is_discarded() {
    let mut s = Server::new(world());
    s.handle(ClientToServer::Init(String::from("addr")));
    let outside = Bounds { x: 0x200000, y: 0, z: 0, lg_size: 4 };
    let out = s.handle(ClientToServer::RequestVoxels {
        time_requested_ns: 1,
        client_id: ClientId(1),
        voxels: vec![outside],
    });
    assert_eq!(out.messages.len(), 0);
    assert_eq!(out.tasks.len(), 0);
}

#[test]
fn completion_for_dropped_key_is_discarded() {
    let mut s = Server::new(world());
    let out = s.complete_generation(Bounds { x: 4, y: 4, z: 4, lg_size: 2 }, 2, Voxel::Volume(1));
    assert_eq!(out.messages.len(), 0);
    assert_eq!(s.octree.lookup(Bounds { x: 4, y: 4, z: 4, lg_size: 2 }), None);
}
