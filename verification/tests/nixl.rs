use velo_core::nixl::{
    build_fabric, deserialize_block, serialize_block, DmaBlockManager, Fabric, NixlNodeId,
    NodeRegistry, TransferOutcome, WIRE_HEADER_LEN,
};
use velo_core::radix_cache::KvCacheHandle;
use velo_core::scalar::F32;

fn f(v: f32) -> F32 {
    F32::from_bits(v.to_bits())
}

fn dummy_handle(block_id: u64, token_len: usize) -> KvCacheHandle {
    KvCacheHandle { block_id, token_len }
}

// --- Wire format ---

#[test]
fn round_trip_serialize_deserialize() {
    let handle = dummy_handle(42, 8);
    let payload = vec![0xABu8; 64];
    let wire = serialize_block(handle, &payload);

    assert_eq!(wire.len(), WIRE_HEADER_LEN + 64);
    let (out_handle, out_payload) = deserialize_block(&wire).unwrap();
    assert_eq!(out_handle, handle);
    assert_eq!(out_payload, payload.as_slice());
}

#[test]
fn deserialize_rejects_short_header() {
    assert!(deserialize_block(&[0u8; WIRE_HEADER_LEN - 1]).is_none());
}

#[test]
fn deserialize_rejects_truncated_payload() {
    let handle = dummy_handle(1, 4);
    let payload = vec![0u8; 32];
    let mut wire = serialize_block(handle, &payload);
    wire.truncate(wire.len() - 1); // corrupt: cut last byte
    assert!(deserialize_block(&wire).is_none());
}

#[test]
fn serialize_empty_payload() {
    let handle = dummy_handle(7, 0);
    let wire = serialize_block(handle, &[]);
    assert_eq!(wire.len(), WIRE_HEADER_LEN);
    let (h, p) = deserialize_block(&wire).unwrap();
    assert_eq!(h, handle);
    assert!(p.is_empty());
}

// --- DmaBlockManager ---

#[test]
fn dma_write_and_read_back() {
    let mut mgr = DmaBlockManager::new(128, 4);
    assert_eq!(mgr.pool_size(), 4);
    assert_eq!(mgr.free_regions(), 4);

    let handle = dummy_handle(1, 4);
    let payload = vec![0x55u8; 64];
    let idx = mgr.acquire();
    let wire = mgr.write_and_serialize(idx, handle, &payload);
    mgr.release(idx);

    assert_eq!(mgr.stats().blocks_serialized, 1);
    assert_eq!(mgr.stats().bytes_transferred, 64);

    let recv_idx = mgr.acquire();
    let (h, len) = mgr.receive_into(recv_idx, &wire).unwrap();
    assert_eq!(h, handle);
    assert_eq!(len, 64);
    assert_eq!(&mgr.region(recv_idx)[..64], &[0x55u8; 64]);
    mgr.release(recv_idx);
}

#[test]
fn dma_pool_grows_on_demand() {
    let mut mgr = DmaBlockManager::new(64, 1);
    let _a = mgr.acquire();
    let _b = mgr.acquire(); // should trigger growth
    assert!(mgr.pool_size() >= 2);
}

#[test]
fn dma_receive_rejects_bad_wire() {
    let mut mgr = DmaBlockManager::new(64, 2);
    let idx = mgr.acquire();
    assert!(mgr.receive_into(idx, &[0u8; 4]).is_none());
    mgr.release(idx);
}

// --- NodeRegistry ---

#[test]
fn registry_registers_and_discovers_peers() {
    let mut registry = NodeRegistry::new();
    let a = registry.register(1000);
    let b = registry.register(2000);
    let c = registry.register(500);

    assert_eq!(registry.node_count(), 3);

    let peers = registry.peers_except(a);
    assert_eq!(peers.len(), 2);
    assert!(peers.iter().any(|p| p.node_id == b));
    assert!(peers.iter().any(|p| p.node_id == c));
}

#[test]
fn registry_selects_least_loaded_peer() {
    let mut registry = NodeRegistry::new();
    let a = registry.register(1000);
    let b = registry.register(1000);
    let c = registry.register(1000);

    registry.heartbeat(b, f(0.8), 200);
    registry.heartbeat(c, f(0.2), 800);

    let best = registry.best_peer(a, 100).unwrap();
    assert_eq!(best.node_id, c);
}

#[test]
fn registry_returns_none_when_all_full() {
    let mut registry = NodeRegistry::new();
    let a = registry.register(10);
    let b = registry.register(10);
    registry.heartbeat(b, f(1.0), 0);

    assert!(registry.best_peer(a, 100).is_none());
}

// --- CacheTransferAgent ---

#[test]
fn handoff_sends_blocks_to_peer() {
    let Fabric { registry, mut inboxes, mut agents } = build_fabric(2, 256, 4, 10_000);
    assert_eq!(registry.node_count(), 2);

    let sender = &mut agents[0];
    let handles = vec![dummy_handle(1, 8), dummy_handle(2, 4)];
    let payloads = vec![vec![0xAAu8; 64], vec![0xBBu8; 32]];

    let outcomes = sender.handoff(&registry, &mut inboxes, 0, &handles, &payloads);
    assert_eq!(outcomes.len(), 2);
    for outcome in &outcomes {
        assert!(matches!(outcome, TransferOutcome::Sent { .. }));
    }
    assert_eq!(sender.stats.blocks_sent, 2);
    assert!(sender.stats.bytes_sent > 0);
}

#[test]
fn handoff_drops_when_no_peer_available() {
    let Fabric { registry, mut inboxes, mut agents } = build_fabric(1, 256, 2, 1000);
    let handles = vec![dummy_handle(99, 5)];
    let outcomes = agents[0].handoff(&registry, &mut inboxes, 0, &handles, &[]);

    assert_eq!(outcomes, vec![TransferOutcome::DroppedLocally]);
    assert_eq!(agents[0].stats.blocks_dropped, 1);
}

#[test]
fn receiver_drains_inbox() {
    let Fabric { registry, mut inboxes, mut agents } = build_fabric(2, 256, 4, 10_000);

    // Agent 0 ships a block to Agent 1's inbox.
    let handles = vec![dummy_handle(7, 4)];
    let payloads = vec![vec![0xCCu8; 32]];
    agents[0].handoff(&registry, &mut inboxes, 17, &handles, &payloads);

    let received = agents[1].drain_inbox(&mut inboxes);
    assert_eq!(received.len(), 1);
    assert_eq!(received[0].handle, dummy_handle(7, 4));
    assert_eq!(received[0].origin, agents[0].node_id);
    assert_eq!(received[0].received_at, 17);

    // Second drain should be empty.
    assert!(agents[1].drain_inbox(&mut inboxes).is_empty());
}

#[test]
fn handoff_without_payloads_uses_zero_bytes() {
    let Fabric { registry, mut inboxes, mut agents } = build_fabric(2, 64, 2, 5000);
    let handles = vec![dummy_handle(3, 2)];
    // no payload slice
    let outcomes = agents[0].handoff(&registry, &mut inboxes, 0, &handles, &[]);
    assert!(matches!(outcomes[0], TransferOutcome::Sent { .. }));
}

#[test]
fn dma_stats_accumulate_across_handoffs() {
    let Fabric { registry, mut inboxes, mut agents } = build_fabric(2, 128, 4, 10_000);
    let handles = vec![dummy_handle(10, 4), dummy_handle(11, 4), dummy_handle(12, 4)];
    agents[0].handoff(&registry, &mut inboxes, 0, &handles, &[]);
    assert_eq!(agents[0].dma_stats().blocks_serialized, 3);
}

#[test]
fn nixl_node_id_display() {
    let id = NixlNodeId(5);
    assert_eq!(id.to_string(), "node-5");
}

#[test]
fn remote_block_carries_origin_and_payload() {
    let Fabric { registry, mut inboxes, mut agents } = build_fabric(3, 256, 4, 10_000);
    let payload = vec![0xDEu8; 100];
    agents[0].handoff(&registry, &mut inboxes, 0, &[dummy_handle(1, 8)], &[payload.clone()]);

    // Drain either agent 1 or agent 2 — one should have it.
    let mut received = agents[1].drain_inbox(&mut inboxes);
    received.extend(agents[2].drain_inbox(&mut inboxes));
    assert_eq!(received.len(), 1);
    assert_eq!(received[0].origin, agents[0].node_id);
    assert!(!received[0].payload.is_empty());
}

#[test]
fn numbers_travel_in_little_endian() {
    let wire = serialize_block(dummy_handle(0x0102, 3), &[9]);
    assert_eq!(&wire[0..8], &[2, 1, 0, 0, 0, 0, 0, 0]);
    assert_eq!(&wire[8..16], &[3, 0, 0, 0, 1, 0, 0, 0]);
    assert_eq!(&wire[16..], &[9]);
}
