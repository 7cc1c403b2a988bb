//! The render batcher: resolves each drawable entity's current image from
//! elapsed time, then groups draw requests by depth layer (ascending) and,
//! within a layer, by resolved image path, so that one batched submission per
//! (layer, path) group covers every destination sharing that image.

use vstd::prelude::*;
use crate::components::{Position, Renderable, RenderableKind};
use itertools::Itertools;

verus! {

broadcast use vstd::seq_lib::group_to_multiset_ensures;

/// Grid cells are drawn this many pixels wide and tall.
pub const TILE_WIDTH: u32 = 32;

/// The path index an elapsed time selects: a fixed cycle with period 1000 ms
/// in four equal 250 ms sub-intervals, reduced modulo the path count; a
/// static renderable always selects its single path.
pub open spec fn resolved_path_index(r: Renderable, delta_ms: u64) -> int {
    if r.paths@.len() == 1 {
        0
    } else {
        ((delta_ms as int % 1000) / 250) % (r.paths@.len() as int)
    }
}

/// The image path an elapsed time resolves the renderable to.
pub open spec fn resolved_path(r: Renderable, delta_ms: u64) -> Seq<char> {
    r.paths@[resolved_path_index(r, delta_ms)]@
}

/// The screen-space destination of a grid position.
pub open spec fn dest_of(p: Position) -> (u32, u32) {
    ((p.x * TILE_WIDTH) as u32, (p.y * TILE_WIDTH) as u32)
}

/// Law: frame selection is periodic with period 1000 ms, always lands within
/// the renderable's paths, and a static renderable selects index 0 whatever
/// the elapsed time.
pub proof fn lemma_frame_selection_periodic(r: Renderable, delta_ms: u64)
    requires
        r.wf(),
        delta_ms + 1000 <= u64::MAX,
    ensures
        resolved_path_index(r, (delta_ms + 1000) as u64) == resolved_path_index(r, delta_ms),
        0 <= resolved_path_index(r, delta_ms) < r.paths@.len(),
        r.paths@.len() == 1 ==> resolved_path_index(r, delta_ms) == 0,
{
    let t = delta_ms as int;
    assert((t + 1000) % 1000 == t % 1000) by (nonlinear_arith);
    assert(0 <= t % 1000 < 1000) by (nonlinear_arith);
    if r.paths@.len() > 1 {
        let n = r.paths@.len() as int;
        assert(0 <= ((t % 1000) / 250) % n < n) by (nonlinear_arith)
            requires
                n > 1,
        ;
    }
}

/// Law: the selection splits the 1000 ms cycle into four equal 250 ms
/// sub-intervals: two elapsed times falling into the same sub-interval of
/// their cycles select the same frame.
pub proof fn lemma_frame_selection_sub_intervals(r: Renderable, t1: u64, t2: u64)
    requires
        r.wf(),
        (t1 as int % 1000) / 250 == (t2 as int % 1000) / 250,
    ensures
        resolved_path_index(r, t1) == resolved_path_index(r, t2),
{
}

/// Resolve the image a renderable shows after `delta_ms` elapsed
/// milliseconds: a static renderable always shows its single path, an
/// animated one cycles through its paths in 250 ms steps over a 1000 ms
/// period.
pub fn get_image(renderable: &Renderable, delta_ms: u64) -> (r: String)
    requires
        renderable.wf(),
    ensures
        r@ == resolved_path(*renderable, delta_ms),
{
    let path_index: usize = match renderable.kind() {
        RenderableKind::Static => 0,
        RenderableKind::Animated => ((delta_ms % 1000) / 250) as usize,
    };
    proof {
        if renderable.paths@.len() == 1 {
            assert(path_index as int % renderable.paths@.len() as int == 0) by (nonlinear_arith)
                requires
                    path_index == 0,
                    renderable.paths@.len() == 1,
            ;
        }
    }
    renderable.path(path_index)
}

/// One batched draw submission: every destination on one depth layer whose
/// drawable resolves to one image path.
#[derive(Debug, Clone)]
pub struct DrawBatch {
    pub z: u8,
    pub path: String,
    pub dests: Vec<(u32, u32)>,
}

/// The destinations, in input order, of the drawables on layer `z` whose
/// renderable resolves to `path`.
pub open spec fn dests_of(
    items: Seq<(Position, Renderable)>,
    delta_ms: u64,
    z: int,
    path: Seq<char>,
) -> Seq<(u32, u32)>
    decreases items.len(),
{
    if items.len() == 0 {
        Seq::empty()
    } else {
        let pre = dests_of(items.drop_last(), delta_ms, z, path);
        let e = items.last();
        if e.0.z == z && resolved_path(e.1, delta_ms) == path {
            pre.push(dest_of(e.0))
        } else {
            pre
        }
    }
}

/// Relies on itertools' `sorted` over a `Vec<u8>` iterator: it sorts the
/// elements ascending by `u8`'s numeric order and returns exactly the input
/// elements, reordered.
#[verifier::external_body]
fn sorted_u8s(v: Vec<u8>) -> (r: Vec<u8>)
    ensures
        r@.len() == v@.len(),
        forall|a: int, b: int| 0 <= a <= b < r@.len() ==> r@[a] <= r@[b],
        r@.to_multiset() == v@.to_multiset(),
{
    v.into_iter().sorted().collect()
}

/// A non-empty destination group names at least one drawable of the prefix
/// with that layer and resolved path.
proof fn lemma_dests_of_member(
    items: Seq<(Position, Renderable)>,
    delta_ms: u64,
    z: int,
    path: Seq<char>,
)
    requires
        dests_of(items, delta_ms, z, path).len() > 0,
    ensures
        exists|i: int|
            0 <= i < items.len() && (#[trigger] items[i]).0.z == z && resolved_path(
                items[i].1,
                delta_ms,
            ) == path,
    decreases items.len(),
{
    let e = items.last();
    if e.0.z == z && resolved_path(e.1, delta_ms) == path {
        assert(items[items.len() - 1] == e);
    } else {
        lemma_dests_of_member(items.drop_last(), delta_ms, z, path);
        let i = choose|i: int|
            0 <= i < items.drop_last().len() && (#[trigger] items.drop_last()[i]).0.z == z
                && resolved_path(items.drop_last()[i].1, delta_ms) == path;
        assert(items[i] == items.drop_last()[i]);
    }
}

/// The index of the first batch at or after `start` whose path equals `path`,
/// or the batch count when the layer has no batch with that path.
fn find_batch_with_path(batches: &Vec<DrawBatch>, start: usize, path: &String) -> (r: usize)
    requires
        start <= batches@.len(),
    ensures
        start <= r <= batches@.len(),
        r < batches@.len() ==> batches@[r as int].path@ == path@,
        forall|k: int| start <= k < r ==> (#[trigger] batches@[k]).path@ != path@,
{
    let mut k = start;
    while k < batches.len()
        invariant
            start <= k <= batches@.len(),
            forall|k0: int| start <= k0 < k ==> (#[trigger] batches@[k0]).path@ != path@,
        decreases batches@.len() - k,
    {
        if batches[k].path == *path {
            return k;
        }
        k += 1;
    }
    k
}

/// Some batch carries the drawable's layer and resolved path.
pub open spec fn has_batch_for(
    item: (Position, Renderable),
    delta_ms: u64,
    batches: Seq<DrawBatch>,
) -> bool {
    exists|k: int|
        0 <= k < batches.len() && (#[trigger] batches[k]).z == item.0.z && batches[k].path@
            == resolved_path(item.1, delta_ms)
}

/// Every drawable has a batch with its layer and resolved path.
pub open spec fn covers(
    items: Seq<(Position, Renderable)>,
    delta_ms: u64,
    batches: Seq<DrawBatch>,
) -> bool {
    forall|i: int| 0 <= i < items.len() ==> has_batch_for(#[trigger] items[i], delta_ms, batches)
}

/// Group the drawables into batches: one batch per (layer, resolved path)
/// pair that occurs, layers ascending, each batch carrying the destinations
/// of exactly the drawables sharing its layer and path, in input order.
pub fn build_render_batches(items: &Vec<(Position, Renderable)>, delta_ms: u64) -> (r: Vec<
    DrawBatch,
>)
    requires
        forall|i: int| 0 <= i < items@.len() ==> (#[trigger] items@[i]).1.wf(),
    ensures
        forall|k1: int, k2: int| 0 <= k1 <= k2 < r@.len() ==> r@[k1].z <= r@[k2].z,
        forall|k: int|
            0 <= k < r@.len() ==> (#[trigger] r@[k]).dests@ == dests_of(
                items@,
                delta_ms,
                r@[k].z as int,
                r@[k].path@,
            ) && r@[k].dests@.len() > 0,
        forall|k1: int, k2: int|
            0 <= k1 < k2 < r@.len() ==> !(r@[k1].z == r@[k2].z && r@[k1].path@ == r@[k2].path@),
        covers(items@, delta_ms, r@),
{
    let ghost iseq = items@;
    let mut zs: Vec<u8> = Vec::new();
    let mut i: usize = 0;
    while i < items.len()
        invariant
            i <= iseq.len(),
            iseq == items@,
            zs@.len() == i,
            forall|j: int| 0 <= j < i ==> zs@[j] == (#[trigger] iseq[j]).0.z,
        decreases iseq.len() - i,
    {
        zs.push(items[i].0.z);
        i += 1;
    }
    let sorted = sorted_u8s(zs);
    proof {
        assert forall|i0: int| 0 <= i0 < iseq.len() implies sorted@.contains(
            (#[trigger] iseq[i0]).0.z,
        ) by {
            assert(zs@[i0] == iseq[i0].0.z);
            assert(zs@.contains(iseq[i0].0.z));
            assert(zs@.to_multiset().count(iseq[i0].0.z) > 0);
        }
    }
    let mut batches: Vec<DrawBatch> = Vec::new();
    let mut t: usize = 0;
    while t < sorted.len()
        invariant
            t <= sorted@.len(),
            iseq == items@,
            forall|i0: int| 0 <= i0 < iseq.len() ==> (#[trigger] iseq[i0]).1.wf(),
            forall|a: int, b: int| 0 <= a <= b < sorted@.len() ==> sorted@[a] <= sorted@[b],
            forall|i0: int| 0 <= i0 < iseq.len() ==> sorted@.contains((#[trigger] iseq[i0]).0.z),
            forall|k1: int, k2: int|
                0 <= k1 <= k2 < batches@.len() ==> batches@[k1].z <= batches@[k2].z,
            forall|k: int|
                0 <= k < batches@.len() ==> (#[trigger] batches@[k]).dests@ == dests_of(
                    iseq,
                    delta_ms,
                    batches@[k].z as int,
                    batches@[k].path@,
                ) && batches@[k].dests@.len() > 0,
            forall|k1: int, k2: int|
                0 <= k1 < k2 < batches@.len() ==> !(batches@[k1].z == batches@[k2].z
                    && batches@[k1].path@ == batches@[k2].path@),
            forall|k: int|
                0 <= k < batches@.len() ==> sorted@.take(t as int).contains(
                    (#[trigger] batches@[k]).z,
                ),
            forall|i0: int|
                0 <= i0 < iseq.len() && sorted@.take(t as int).contains((#[trigger] iseq[i0]).0.z)
                    ==> exists|k: int|
                    0 <= k < batches@.len() && batches@[k].z == iseq[i0].0.z && batches@[k].path@
                        == resolved_path(iseq[i0].1, delta_ms),
        decreases sorted@.len() - t,
    {
        let z = sorted[t];
        proof {
            assert(sorted@.take(t as int + 1).drop_last() =~= sorted@.take(t as int));
            assert(sorted@.take(t as int + 1).last() == sorted@[t as int]);
        }
        if t > 0 && sorted[t - 1] == z {
            proof {
                assert(sorted@.take(t as int)[t as int - 1] == z);
                assert(sorted@.take(t as int).contains(z));
                assert forall|i0: int|
                    0 <= i0 < iseq.len() && sorted@.take(t as int + 1).contains(
                        (#[trigger] iseq[i0]).0.z,
                    ) implies sorted@.take(t as int).contains(iseq[i0].0.z) by {
                    let a = choose|a: int|
                        0 <= a < t as int + 1 && #[trigger] sorted@.take(t as int + 1)[a]
                            == iseq[i0].0.z;
                    if a < t as int {
                        assert(sorted@.take(t as int)[a] == iseq[i0].0.z);
                    }
                }
                assert forall|k: int| 0 <= k < batches@.len() implies sorted@.take(
                    t as int + 1,
                ).contains((#[trigger] batches@[k]).z) by {
                    let a = choose|a: int|
                        0 <= a < t as int && #[trigger] sorted@.take(t as int)[a] == batches@[k].z;
                    assert(sorted@.take(t as int + 1)[a] == batches@[k].z);
                }
            }
            t += 1;
            continue ;
        }
        proof {
            // ascending order keeps equal layer values adjacent, so this one
            // is fresh
            assert(!sorted@.take(t as int).contains(z)) by {
                if sorted@.take(t as int).contains(z) {
                    let a = choose|a: int|
                        0 <= a < t as int && #[trigger] sorted@.take(t as int)[a] == z;
                    assert(sorted@[a] == z);
                    if t > 0 {
                        assert(sorted@[a] <= sorted@[t as int - 1] <= sorted@[t as int]);
                    }
                }
            }
        }
        let layer_start = batches.len();
        let ghost old_batches = batches@;
        let mut j: usize = 0;
        proof {
            assert(iseq.take(0) =~= Seq::<(Position, Renderable)>::empty());
        }
        while j < items.len()
            invariant
                j <= iseq.len(),
                iseq == items@,
                forall|i0: int| 0 <= i0 < iseq.len() ==> (#[trigger] iseq[i0]).1.wf(),
                layer_start as int <= batches@.len(),
                batches@.take(layer_start as int) == old_batches,
                old_batches.len() == layer_start as int,
                forall|k: int|
                    layer_start as int <= k < batches@.len() ==> (#[trigger] batches@[k]).z == z,
                forall|k: int|
                    layer_start as int <= k < batches@.len() ==> (#[trigger] batches@[k]).dests@
                        == dests_of(iseq.take(j as int), delta_ms, z as int, batches@[k].path@)
                        && batches@[k].dests@.len() > 0,
                forall|k1: int, k2: int|
                    layer_start as int <= k1 < k2 < batches@.len() ==> batches@[k1].path@
                        != batches@[k2].path@,
                forall|i0: int|
                    0 <= i0 < j && (#[trigger] iseq[i0]).0.z == z ==> exists|k: int|
                        layer_start as int <= k < batches@.len() && (#[trigger] batches@[k]).path@
                            == resolved_path(iseq[i0].1, delta_ms),
            decreases iseq.len() - j,
        {
            proof {
                assert(iseq.take(j as int + 1).drop_last() =~= iseq.take(j as int));
                assert(iseq.take(j as int + 1).last() == iseq[j as int]);
            }
            let item_z = items[j].0.z;
            if item_z == z {
                let path = get_image(&items[j].1, delta_ms);
                let x = items[j].0.x;
                let y = items[j].0.y;
                let dest = ((x as u32) * TILE_WIDTH, (y as u32) * TILE_WIDTH);
                proof {
                    assert(dest == dest_of(iseq[j as int].0));
                }
                let found = find_batch_with_path(&batches, layer_start, &path);
                if found < batches.len() {
                    let ghost before = batches@;
                    batches[found].dests.push(dest);
                    proof {
                        assert(batches@[found as int].dests@ == before[found as int].dests@.push(
                            dest,
                        ));
                        assert(batches@[found as int].path == before[found as int].path);
                        assert(batches@[found as int].z == before[found as int].z);
                        assert forall|k0: int|
                            0 <= k0 < batches@.len() && k0 != found as int implies batches@[k0]
                            == before[k0] by {}
                        assert(batches@.take(layer_start as int) =~= before.take(
                            layer_start as int,
                        ));
                        assert forall|k0: int|
                            layer_start as int <= k0 < batches@.len() implies (
                        #[trigger] batches@[k0]).dests@ == dests_of(
                            iseq.take(j as int + 1),
                            delta_ms,
                            z as int,
                            batches@[k0].path@,
                        ) && batches@[k0].dests@.len() > 0 by {
                            assert(resolved_path(iseq[j as int].1, delta_ms) == path@);
                            if k0 != found as int {
                                assert(batches@[k0] == before[k0]);
                                assert(batches@[k0].path@ != path@);
                            }
                        }
                        assert forall|i0: int|
                            0 <= i0 < j as int + 1 && (#[trigger] iseq[i0]).0.z
                                == z implies exists|k0: int|
                            layer_start as int <= k0 < batches@.len() && (
                            #[trigger] batches@[k0]).path@ == resolved_path(
                                iseq[i0].1,
                                delta_ms,
                            ) by {
                            if i0 < j as int {
                                let k0 = choose|k0: int|
                                    layer_start as int <= k0 < before.len() && (
                                    #[trigger] before[k0]).path@ == resolved_path(
                                        iseq[i0].1,
                                        delta_ms,
                                    );
                                assert(batches@[k0].path@ == before[k0].path@);
                            } else {
                                assert(batches@[found as int].path@ == resolved_path(
                                    iseq[i0].1,
                                    delta_ms,
                                ));
                            }
                        }
                    }
                } else {
                    let ghost before = batches@;
                    let mut dests: Vec<(u32, u32)> = Vec::new();
                    dests.push(dest);
                    batches.push(DrawBatch { z, path, dests });
                    proof {
                        assert(batches@.drop_last() =~= before);
                        assert(batches@.take(layer_start as int) =~= before.take(
                            layer_start as int,
                        ));
                        let nb = batches@[batches@.len() - 1];
                        assert(nb.dests@ =~= Seq::<(u32, u32)>::empty().push(dest));
                        assert(resolved_path(iseq[j as int].1, delta_ms) == nb.path@);
                        assert(dests_of(iseq.take(j as int), delta_ms, z as int, nb.path@).len()
                            == 0) by {
                            if dests_of(iseq.take(j as int), delta_ms, z as int, nb.path@).len()
                                > 0 {
                                lemma_dests_of_member(
                                    iseq.take(j as int),
                                    delta_ms,
                                    z as int,
                                    nb.path@,
                                );
                                let i0 = choose|i0: int|
                                    0 <= i0 < iseq.take(j as int).len() && (#[trigger] iseq.take(
                                        j as int,
                                    )[i0]).0.z == z as int && resolved_path(
                                        iseq.take(j as int)[i0].1,
                                        delta_ms,
                                    ) == nb.path@;
                                assert(iseq[i0] == iseq.take(j as int)[i0]);
                                let k0 = choose|k0: int|
                                    layer_start as int <= k0 < before.len() && (
                                    #[trigger] before[k0]).path@ == resolved_path(
                                        iseq[i0].1,
                                        delta_ms,
                                    );
                                assert(before[k0].path@ == nb.path@);
                                assert(false);
                            }
                        }
                        assert(dests_of(iseq.take(j as int), delta_ms, z as int, nb.path@) =~= Seq::<
                            (u32, u32),
                        >::empty());
                        assert forall|k0: int|
                            layer_start as int <= k0 < batches@.len() implies (
                        #[trigger] batches@[k0]).dests@ == dests_of(
                            iseq.take(j as int + 1),
                            delta_ms,
                            z as int,
                            batches@[k0].path@,
                        ) && batches@[k0].dests@.len() > 0 by {
                            if k0 < batches@.len() - 1 {
                                assert(batches@[k0] == before[k0]);
                                assert(batches@[k0].path@ != nb.path@) by {
                                    if batches@[k0].path@ == nb.path@ {
                                        assert(before[k0].path@ == nb.path@);
                                    }
                                }
                            }
                        }
                        assert forall|i0: int|
                            0 <= i0 < j as int + 1 && (#[trigger] iseq[i0]).0.z
                                == z implies exists|k0: int|
                            layer_start as int <= k0 < batches@.len() && (
                            #[trigger] batches@[k0]).path@ == resolved_path(
                                iseq[i0].1,
                                delta_ms,
                            ) by {
                            if i0 < j as int {
                                let k0 = choose|k0: int|
                                    layer_start as int <= k0 < before.len() && (
                                    #[trigger] before[k0]).path@ == resolved_path(
                                        iseq[i0].1,
                                        delta_ms,
                                    );
                                assert(batches@[k0].path@ == before[k0].path@);
                            } else {
                                assert(batches@[batches@.len() - 1].path@ == resolved_path(
                                    iseq[i0].1,
                                    delta_ms,
                                ));
                            }
                        }
                    }
                }
            } else {
                proof {
                    assert(iseq[j as int].0.z != z);
                    assert forall|k0: int|
                        layer_start as int <= k0 < batches@.len() implies (
                    #[trigger] batches@[k0]).dests@ == dests_of(
                        iseq.take(j as int + 1),
                        delta_ms,
                        z as int,
                        batches@[k0].path@,
                    ) && batches@[k0].dests@.len() > 0 by {}
                }
            }
            j += 1;
        }
        proof {
            assert(iseq.take(iseq.len() as int) =~= iseq);
            assert forall|k: int| 0 <= k < layer_start as int implies batches@[k]
                == old_batches[k] by {
                assert(batches@.take(layer_start as int)[k] == batches@[k]);
            }
            // earlier batches stand on layers already processed, all below
            // the fresh one
            assert forall|k: int| 0 <= k < layer_start as int implies (#[trigger] batches@[k]).z
                < z by {
                let a = choose|a: int|
                    0 <= a < t as int && #[trigger] sorted@.take(t as int)[a] == old_batches[k].z;
                assert(sorted@[a] <= sorted@[t as int]);
                assert(!sorted@.take(t as int).contains(z));
            }
            assert forall|k: int| 0 <= k < batches@.len() implies (#[trigger] batches@[k]).dests@
                == dests_of(iseq, delta_ms, batches@[k].z as int, batches@[k].path@)
                && batches@[k].dests@.len() > 0 by {
                if k < layer_start as int {
                    assert(batches@[k] == old_batches[k]);
                    assert(old_batches[k].dests@ == dests_of(
                        iseq,
                        delta_ms,
                        old_batches[k].z as int,
                        old_batches[k].path@,
                    ));
                } else {
                    assert(batches@[k].z == z);
                    assert(batches@[k].dests@ == dests_of(
                        iseq.take(iseq.len() as int),
                        delta_ms,
                        z as int,
                        batches@[k].path@,
                    ));
                }
            }
            assert forall|k1: int, k2: int| 0 <= k1 <= k2 < batches@.len() implies batches@[k1].z
                <= batches@[k2].z by {
                if k2 < layer_start as int {
                    assert(old_batches[k1].z <= old_batches[k2].z);
                } else if k1 >= layer_start as int {
                } else {
                    assert(batches@[k1].z < z);
                    assert(batches@[k2].z == z);
                }
            }
            assert forall|k1: int, k2: int| 0 <= k1 < k2 < batches@.len() implies !(batches@[k1].z
                == batches@[k2].z && batches@[k1].path@ == batches@[k2].path@) by {
                if k2 < layer_start as int {
                    assert(batches@[k1] == old_batches[k1]);
                    assert(batches@[k2] == old_batches[k2]);
                    assert(!(old_batches[k1].z == old_batches[k2].z && old_batches[k1].path@
                        == old_batches[k2].path@));
                } else if k1 >= layer_start as int {
                    assert(batches@[k1].path@ != batches@[k2].path@);
                } else {
                    assert(batches@[k1].z < z);
                    assert(batches@[k2].z == z);
                }
            }
            assert forall|k: int| 0 <= k < batches@.len() implies sorted@.take(
                t as int + 1,
            ).contains((#[trigger] batches@[k]).z) by {
                if k < layer_start as int {
                    assert(batches@[k] == old_batches[k]);
                    assert(sorted@.take(t as int).contains(old_batches[k].z));
                    let a = choose|a: int|
                        0 <= a < t as int && #[trigger] sorted@.take(t as int)[a] == old_batches[
                            k].z;
                    assert(sorted@.take(t as int + 1)[a] == batches@[k].z);
                } else {
                    assert(sorted@.take(t as int + 1)[t as int] == z);
                }
            }
            assert forall|i0: int|
                0 <= i0 < iseq.len() && sorted@.take(t as int + 1).contains(
                    (#[trigger] iseq[i0]).0.z,
                ) implies exists|k: int|
                0 <= k < batches@.len() && batches@[k].z == iseq[i0].0.z && batches@[k].path@
                    == resolved_path(iseq[i0].1, delta_ms) by {
                if iseq[i0].0.z == z {
                    let k = choose|k: int|
                        layer_start as int <= k < batches@.len() && (#[trigger] batches@[k]).path@
                            == resolved_path(iseq[i0].1, delta_ms);
                    assert(batches@[k].z == iseq[i0].0.z);
                } else {
                    let a = choose|a: int|
                        0 <= a < t as int + 1 && #[trigger] sorted@.take(t as int + 1)[a]
                            == iseq[i0].0.z;
                    assert(a < t as int);
                    assert(sorted@.take(t as int)[a] == iseq[i0].0.z);
                    assert(sorted@.take(t as int).contains(iseq[i0].0.z));
                    let k = choose|k: int|
                        0 <= k < old_batches.len() && (#[trigger] old_batches[k]).z
                            == iseq[i0].0.z && old_batches[k].path@ == resolved_path(
                            iseq[i0].1,
                            delta_ms,
                        );
                    assert(batches@[k] == old_batches[k]);
                }
            }
        }
        t += 1;
    }
    proof {
        assert(sorted@.take(t as int) =~= sorted@);
        assert forall|i0: int| 0 <= i0 < items@.len() implies has_batch_for(
            #[trigger] items@[i0],
            delta_ms,
            batches@,
        ) by {
            assert(iseq == items@);
            assert(sorted@.contains(iseq[i0].0.z));
            assert(sorted@.take(t as int).contains(iseq[i0].0.z));
            let k0 = choose|k: int|
                0 <= k < batches@.len() && batches@[k].z == iseq[i0].0.z && batches@[k].path@
                    == resolved_path(iseq[i0].1, delta_ms);
            assert(0 <= k0 < batches@.len() && batches@[k0].z == items@[i0].0.z
                && batches@[k0].path@ == resolved_path(items@[i0].1, delta_ms));
        }
        assert(covers(items@, delta_ms, batches@));
    }
    batches
}

} // verus!
