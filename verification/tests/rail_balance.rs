//! Flows of a rail network choose spines by load.

use network_sim::rail::sglb::RailSGLBRouter;
use network_sim::rail::topology::{RailTree, RailTreeRouter};
use network_sim::routing::balance::{SGLBConfig, SpineLayer, Weight};
use network_sim::routing::load::{get_count, raise};
use network_sim::simulator::context::MLContext;

// 2 pods, 2 blocks/pod, block_size 4 => 16 GPUs.
// Pod 0 = hosts 0..8 (block0: 0..4, block1: 4..8). Pod 1 = hosts 8..16.
fn make_topo(num_spines: usize) -> RailTree {
    RailTree::new(4, 2, 2, num_spines)
}

fn spine_of(r: &RailSGLBRouter, flow: usize) -> Option<usize> {
    r.balancer.flow_bindings.get(&flow).unwrap().spine
}

#[test]
fn cross_pod_selects_spine_and_tracks_two_links() {
    let topo = make_topo(4);
    let ctx = MLContext::new(16);
    let mut r = RailSGLBRouter::new(SGLBConfig::default());
    let src = topo.get_host_by_index(0).unwrap();
    let dst = topo.get_host_by_index(8).unwrap();

    let path = r.route(&topo, &ctx, src, dst, 1).unwrap();
    assert_eq!(path.len(), 4, "cross-pod path must have 4 links");

    let b = r.balancer.flow_bindings.get(&1).expect("binding must exist");
    assert_eq!(b.src, 0);
    assert_eq!(b.dst, 4);
    let spine_idx = b.spine.expect("expected cross-pod flow");
    assert!(spine_idx < 4);

    let up = topo.up_link(0, spine_idx);
    let down = topo.down_link(4, spine_idx);
    assert_eq!(b.links, vec![up, down], "must track exactly the two spine links");
    assert_eq!(path[1], up, "path[1] must be src_rail->spine");
    assert_eq!(path[2], down, "path[2] must be spine->dst_rail");
    assert_eq!(get_count(&r.balancer.link_flow_count, up), 1);
    assert_eq!(get_count(&r.balancer.link_flow_count, down), 1);
}

#[test]
fn intra_pod_uses_no_spine_and_tracks_nothing() {
    let topo = make_topo(4);
    let ctx = MLContext::new(16);
    let mut r = RailSGLBRouter::new(SGLBConfig::default());
    let src = topo.get_host_by_index(0).unwrap();
    let dst = topo.get_host_by_index(5).unwrap();

    let path = r.route(&topo, &ctx, src, dst, 7).unwrap();
    assert!(path.len() >= 2);

    let b = r.balancer.flow_bindings.get(&7).unwrap();
    assert!(b.spine.is_none());
    assert!(b.links.is_empty(), "intra-pod flow must track no spine links");
    assert!(r.balancer.link_flow_count.is_empty(), "no spine link load for intra-pod traffic");
}

#[test]
fn same_rail_intra_pod_is_intra() {
    let topo = make_topo(4);
    let ctx = MLContext::new(16);
    let mut r = RailSGLBRouter::new(SGLBConfig::default());
    let src = topo.get_host_by_index(0).unwrap();
    let dst = topo.get_host_by_index(4).unwrap();
    r.route(&topo, &ctx, src, dst, 3).unwrap();
    assert!(spine_of(&r, 3).is_none());
    assert!(r.balancer.link_flow_count.is_empty());
}

#[test]
fn complete_flow_releases_link_load() {
    let topo = make_topo(4);
    let ctx = MLContext::new(16);
    let mut r = RailSGLBRouter::new(SGLBConfig::default());
    let src = topo.get_host_by_index(0).unwrap();
    let dst = topo.get_host_by_index(8).unwrap();
    r.route(&topo, &ctx, src, dst, 1).unwrap();
    let links = r.balancer.link_flow_count.keys();
    let total: usize = links.iter().map(|l| get_count(&r.balancer.link_flow_count, *l)).sum();
    assert_eq!(total, 2);

    r.complete_flow(1);
    assert!(r.balancer.flow_bindings.is_empty(), "binding removed on completion");
    assert!(r.balancer.link_flow_count.is_empty(), "link load released on completion");
}

#[test]
fn load_spreads_across_multiple_spines() {
    let topo = make_topo(4);
    let ctx = MLContext::new(16);
    let mut r = RailSGLBRouter::new(SGLBConfig::with_k(2));
    let src = topo.get_host_by_index(0).unwrap();
    let dst = topo.get_host_by_index(8).unwrap();

    let n = 8;
    for fid in 0..n {
        r.route(&topo, &ctx, src, dst, fid).unwrap();
    }

    let mut used = 0usize;
    let mut max_on_one = 0usize;
    for s in 0..4 {
        let c = get_count(&r.balancer.link_flow_count, topo.up_link(0, s));
        if c > 0 {
            used += 1;
        }
        max_on_one = max_on_one.max(c);
    }
    assert!(used >= 2, "expected load spread over >=2 spines, got {}", used);
    assert!(max_on_one < n, "no single spine should carry all {} flows (max={})", n, max_on_one);
    let total: usize = (0..4).map(|s| get_count(&r.balancer.link_flow_count, topo.up_link(0, s))).sum();
    assert_eq!(total, n);
}

#[test]
fn remap_moves_flow_whose_spine_left_top_k() {
    let topo = make_topo(4);
    let ctx = MLContext::new(16);
    let mut r = RailSGLBRouter::new(SGLBConfig::with_k(1));
    let src = topo.get_host_by_index(0).unwrap();
    let dst = topo.get_host_by_index(8).unwrap();

    r.route(&topo, &ctx, src, dst, 1).unwrap();
    let old_spine = spine_of(&r, 1).unwrap();

    let up_old = topo.up_link(0, old_spine);
    for _ in 0..5 {
        raise(&mut r.balancer.link_flow_count, up_old);
    }

    r.remap_ineligible_flows(&topo);

    let b = r.balancer.flow_bindings.get(&1).unwrap();
    let new_spine = b.spine.unwrap();
    assert_ne!(new_spine, old_spine, "flow should have been remapped off the overloaded spine");

    let up_new = topo.up_link(0, new_spine);
    let down_new = topo.down_link(4, new_spine);
    assert_eq!(b.links, vec![up_new, down_new]);
    assert_eq!(b.path[1], up_new);
    assert_eq!(b.path[2], down_new);
}

#[test]
fn new_arrival_can_remap_an_existing_flow() {
    let ctx = MLContext::new(16);

    let topo = make_topo(2);
    let mut control = RailSGLBRouter::new(SGLBConfig::with_k(1));
    let h0 = topo.get_host_by_index(0).unwrap();
    let h8 = topo.get_host_by_index(8).unwrap();
    let h11 = topo.get_host_by_index(11).unwrap();
    control.route(&topo, &ctx, h0, h11, 10).unwrap();
    control.route(&topo, &ctx, h0, h8, 1).unwrap();
    let a_spine_control = spine_of(&control, 1).unwrap();
    control.remap_ineligible_flows(&topo);
    assert_eq!(spine_of(&control, 1), Some(a_spine_control), "without a new arrival, A must stay on its spine");

    let mut r = RailSGLBRouter::new(SGLBConfig::with_k(1));
    let h4 = topo.get_host_by_index(4).unwrap();
    r.route(&topo, &ctx, h0, h11, 10).unwrap();
    r.route(&topo, &ctx, h0, h8, 1).unwrap();
    let a_spine_before = spine_of(&r, 1).unwrap();
    r.route(&topo, &ctx, h4, h11, 2).unwrap();
    r.remap_ineligible_flows(&topo);
    let a_spine_after = spine_of(&r, 1).unwrap();
    assert_ne!(a_spine_after, a_spine_before, "B's arrival should have caused A to be remapped off its spine");
}

#[test]
fn lone_flow_is_never_remapped() {
    let topo = make_topo(4);
    let ctx = MLContext::new(16);
    let mut r = RailSGLBRouter::new(SGLBConfig::with_k(2));
    let src = topo.get_host_by_index(0).unwrap();
    let dst = topo.get_host_by_index(8).unwrap();
    r.route(&topo, &ctx, src, dst, 1).unwrap();
    let initial = spine_of(&r, 1);

    for _ in 0..10 {
        r.remap_ineligible_flows(&topo);
        assert_eq!(spine_of(&r, 1), initial, "uncontended lone flow must stay on its initial spine");
    }
}

#[test]
fn the_figures_count_flows_and_links() {
    let topo = make_topo(4);
    let ctx = MLContext::new(16);
    let mut r = RailSGLBRouter::with_k(0);
    assert_eq!(r.balancer.config.k, 1);
    r.route(&topo, &ctx, 0, 8, 1).unwrap();
    r.route(&topo, &ctx, 0, 4, 2).unwrap();
    let stats = r.get_stats();
    assert_eq!((stats.active_flows, stats.links_with_flows, stats.max_link_count), (2, 2, 1));
}

#[test]
fn weights_may_be_fractions() {
    let topo = make_topo(2);
    let first = |w1: Weight, w2: Weight| {
        let mut r = RailSGLBRouter::new(SGLBConfig::with_weights(1, w1, w2));
        raise(&mut r.balancer.link_flow_count, topo.up_link(0, 0));
        raise(&mut r.balancer.link_flow_count, topo.down_link(4, 1));
        r.balancer.compute_eligible_spines(&topo, 0, 4, &vec![])
    };
    let one = Weight::new(1, 1);
    let half = Weight::new(1, 2);
    assert_eq!(first(one, half), vec![1]);
    assert_eq!(first(half, one), vec![0]);
    assert_eq!(first(half, Weight::new(3, 6)), vec![0]);
    assert_eq!(first(Weight::new(1, 3), Weight::new(3, 10)), vec![1]);
    assert_eq!(first(Weight::new(-1, 2), Weight::new(-1, 4)), vec![0]);
    assert_eq!(SGLBConfig::default().w1, one);
}
