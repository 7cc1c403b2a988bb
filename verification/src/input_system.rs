//! The movement resolver and applier. One tick consumes at most one queued
//! directional input, scans the grid line from the player's cell outward to
//! the map boundary, and either moves the player together with the contiguous
//! run of movable entities in front of it, or reports the push as blocked.

use vstd::prelude::*;
use crate::components::Position;
use crate::events::{EntityMoved, Event};
use crate::resources::{Direction, EventQueue, Gameplay, InputQueue};
use crate::spatial::{
    cell_of, has_tag, index_of, lemma_index_complete, lemma_index_exact, lemma_index_injective,
    lemma_index_membership, tagged_cells_distinct, world_wf, EntityState, SpatialIndex,
};

verus! {

/// The unit step a direction makes along the x axis.
pub open spec fn dx(d: Direction) -> int {
    match d {
        Direction::Left => -1,
        Direction::Right => 1,
        _ => 0,
    }
}

/// The unit step a direction makes along the y axis.
pub open spec fn dy(d: Direction) -> int {
    match d {
        Direction::Up => -1,
        Direction::Down => 1,
        _ => 0,
    }
}

/// The cell reached after `k` unit steps from `(x, y)` in direction `d`.
pub open spec fn cell_at(x: int, y: int, d: Direction, k: nat) -> (int, int)
    decreases k,
{
    if k == 0 {
        (x, y)
    } else {
        let p = cell_at(x, y, d, (k - 1) as nat);
        (p.0 + dx(d), p.1 + dy(d))
    }
}

/// Closed form of [`cell_at`]: only the direction's axis varies, by one unit
/// per step.
pub proof fn lemma_cell_at_value(x: int, y: int, d: Direction, k: nat)
    ensures
        cell_at(x, y, d, k) == match d {
            Direction::Up => (x, y - k),
            Direction::Down => (x, y + k),
            Direction::Left => (x - k, y),
            Direction::Right => (x + k, y),
        },
    decreases k,
{
    if k > 0 {
        lemma_cell_at_value(x, y, d, (k - 1) as nat);
    }
}

/// Stepping the start of the ray by one unit shifts every scanned cell by one
/// index.
pub proof fn lemma_cell_at_shift(x: int, y: int, d: Direction, k: nat)
    ensures
        cell_at(x + dx(d), y + dy(d), d, k) == cell_at(x, y, d, (k + 1) as nat),
    decreases k,
{
    if k > 0 {
        lemma_cell_at_shift(x, y, d, (k - 1) as nat);
        assert(cell_at(x + dx(d), y + dy(d), d, k) == (
            cell_at(x + dx(d), y + dy(d), d, (k - 1) as nat).0 + dx(d),
            cell_at(x + dx(d), y + dy(d), d, (k - 1) as nat).1 + dy(d),
        ));
        assert(cell_at(x, y, d, (k + 1) as nat) == (
            cell_at(x, y, d, k).0 + dx(d),
            cell_at(x, y, d, k).1 + dy(d),
        ));
    } else {
        assert(cell_at(x, y, d, 1nat) == (cell_at(x, y, d, 0nat).0 + dx(d), cell_at(
            x,
            y,
            d,
            0nat,
        ).1 + dy(d)));
    }
}

/// What a scan of the grid line decides.
pub enum ScanOutcome {
    /// An empty cell was found; the handles are the entities to move, the one
    /// on the player's cell first, then outward in scan order.
    Chain(Seq<u64>),
    /// An immovable entity was encountered first: the push is fully
    /// obstructed and the accumulated chain is discarded.
    Obstructed,
    /// The inclusive scan range was exhausted without an empty cell or an
    /// obstruction: the push would leave the grid and nothing moves.
    Edge,
}

/// The scan, cell by cell from `(x, y)` outward: a movable entity joins the
/// chain, an immovable entity obstructs the whole push, an empty cell ends
/// the scan successfully, and an exhausted range means the boundary blocked
/// the push. A cell occupied by both categories counts as movable, matching
/// the order the spatial index is consulted in.
pub open spec fn scan(
    mov: Map<(int, int), u64>,
    immov: Map<(int, int), u64>,
    x: int,
    y: int,
    d: Direction,
    remaining: nat,
) -> ScanOutcome
    decreases remaining,
{
    if remaining == 0 {
        ScanOutcome::Edge
    } else if mov.contains_key((x, y)) {
        match scan(mov, immov, x + dx(d), y + dy(d), d, (remaining - 1) as nat) {
            ScanOutcome::Chain(ids) => ScanOutcome::Chain(seq![mov[(x, y)]] + ids),
            ScanOutcome::Obstructed => ScanOutcome::Obstructed,
            ScanOutcome::Edge => ScanOutcome::Edge,
        }
    } else if immov.contains_key((x, y)) {
        ScanOutcome::Obstructed
    } else {
        ScanOutcome::Chain(Seq::empty())
    }
}

/// How many cells the inclusive scan range holds: from the player's
/// coordinate on the varying axis to the map boundary on that axis. Toward
/// the growing side the range ends one past the last in-bounds cell, an
/// out-of-grid marker cell no well-formed index contains.
pub open spec fn scan_len(d: Direction, px: int, py: int, width: int, height: int) -> nat {
    match d {
        Direction::Up => (py + 1) as nat,
        Direction::Down => (height + 1 - py) as nat,
        Direction::Left => (px + 1) as nat,
        Direction::Right => (width + 1 - px) as nat,
    }
}

/// A chain prefix already accumulated by the resolver, prepended to what the
/// rest of the scan decides.
pub open spec fn prepend_outcome(pre: Seq<u64>, o: ScanOutcome) -> ScanOutcome {
    match o {
        ScanOutcome::Chain(ids) => ScanOutcome::Chain(pre + ids),
        ScanOutcome::Obstructed => ScanOutcome::Obstructed,
        ScanOutcome::Edge => ScanOutcome::Edge,
    }
}

/// What the resolver decided for one directional input.
pub enum Resolution {
    /// Move these entities, in order, by one unit each.
    Chain(Vec<u64>),
    /// An immovable entity obstructs the push; nothing moves and the player
    /// is notified of the obstacle.
    Obstructed,
    /// The push runs against the grid edge; nothing moves and no event is
    /// raised.
    AtEdge,
}

/// The scan outcome an executable resolution stands for.
pub open spec fn outcome_of(r: Resolution) -> ScanOutcome {
    match r {
        Resolution::Chain(v) => ScanOutcome::Chain(v@),
        Resolution::Obstructed => ScanOutcome::Obstructed,
        Resolution::AtEdge => ScanOutcome::Edge,
    }
}

/// Walk the grid line from the player's cell `(px, py)` to the boundary in
/// direction `d` and decide the chain of entities to move, exactly as
/// [`scan`] describes.
pub fn resolve_move(
    width: u8,
    height: u8,
    px: u8,
    py: u8,
    d: Direction,
    mov: &SpatialIndex,
    immov: &SpatialIndex,
) -> (r: Resolution)
    requires
        px < width,
        py < height,
    ensures
        outcome_of(r) == scan(
            mov@,
            immov@,
            px as int,
            py as int,
            d,
            scan_len(d, px as int, py as int, width as int, height as int),
        ),
{
    let ghost total = scan(
        mov@,
        immov@,
        px as int,
        py as int,
        d,
        scan_len(d, px as int, py as int, width as int, height as int),
    );
    let mut rem: usize = match d {
        Direction::Up => py as usize + 1,
        Direction::Down => height as usize + 1 - py as usize,
        Direction::Left => px as usize + 1,
        Direction::Right => width as usize + 1 - px as usize,
    };
    let mut cx = px;
    let mut cy = py;
    let mut acc: Vec<u64> = Vec::new();
    proof {
        if let ScanOutcome::Chain(ids) = total {
            assert(Seq::<u64>::empty() + ids =~= ids);
        }
    }
    while rem > 0
        invariant
            total == scan(
                mov@,
                immov@,
                px as int,
                py as int,
                d,
                scan_len(d, px as int, py as int, width as int, height as int),
            ),
            prepend_outcome(acc@, scan(mov@, immov@, cx as int, cy as int, d, rem as nat))
                == total,
            rem > 0 ==> match d {
                Direction::Up => rem == cy as int + 1,
                Direction::Down => rem == height as int + 1 - cy as int,
                Direction::Left => rem == cx as int + 1,
                Direction::Right => rem == width as int + 1 - cx as int,
            },
        decreases rem,
    {
        let ghost rem0 = rem as nat;
        let ghost acc0 = acc@;
        let ghost sub = scan(
            mov@,
            immov@,
            cx as int + dx(d),
            cy as int + dy(d),
            d,
            (rem0 - 1) as nat,
        );
        match mov.get(cx, cy) {
            Some(id) => {
                proof {
                    assert(scan(mov@, immov@, cx as int, cy as int, d, rem0) == match sub {
                        ScanOutcome::Chain(ids) => ScanOutcome::Chain(seq![id] + ids),
                        ScanOutcome::Obstructed => ScanOutcome::Obstructed,
                        ScanOutcome::Edge => ScanOutcome::Edge,
                    });
                    if let ScanOutcome::Chain(ids) = sub {
                        assert(acc0.push(id) + ids =~= acc0 + (seq![id] + ids));
                    }
                }
                acc.push(id);
                rem -= 1;
                if rem > 0 {
                    match d {
                        Direction::Up => {
                            cy = cy - 1;
                        },
                        Direction::Down => {
                            cy = cy + 1;
                        },
                        Direction::Left => {
                            cx = cx - 1;
                        },
                        Direction::Right => {
                            cx = cx + 1;
                        },
                    }
                }
            },
            None => {
                match immov.get(cx, cy) {
                    Some(_) => {
                        proof {
                            assert(scan(mov@, immov@, cx as int, cy as int, d, rem0)
                                == ScanOutcome::Obstructed);
                        }
                        return Resolution::Obstructed;
                    },
                    None => {
                        proof {
                            assert(scan(mov@, immov@, cx as int, cy as int, d, rem0)
                                == ScanOutcome::Chain(Seq::<u64>::empty()));
                            assert(acc@ + Seq::<u64>::empty() =~= acc@);
                        }
                        return Resolution::Chain(acc);
                    },
                }
            },
        }
    }
    proof {
        assert(scan(mov@, immov@, cx as int, cy as int, d, 0nat) == ScanOutcome::Edge);
    }
    Resolution::AtEdge
}

/// A successful scan names exactly the contiguous run of indexed movables
/// from the start of the ray, and ends on a cell that neither index holds.
pub proof fn lemma_scan_chain(
    mov: Map<(int, int), u64>,
    immov: Map<(int, int), u64>,
    x: int,
    y: int,
    d: Direction,
    rem: nat,
)
    requires
        scan(mov, immov, x, y, d, rem) is Chain,
    ensures
        ({
            let ids = scan(mov, immov, x, y, d, rem)->Chain_0;
            &&& ids.len() < rem
            &&& forall|k: int|
                0 <= k < ids.len() ==> mov.contains_key(#[trigger] cell_at(x, y, d, k as nat))
                    && ids[k] == mov[cell_at(x, y, d, k as nat)]
            &&& !mov.contains_key(cell_at(x, y, d, ids.len()))
            &&& !immov.contains_key(cell_at(x, y, d, ids.len()))
        }),
    decreases rem,
{
    let ids = scan(mov, immov, x, y, d, rem)->Chain_0;
    if rem == 0 {
        assert(false);
    } else if mov.contains_key((x, y)) {
        let sub = scan(mov, immov, x + dx(d), y + dy(d), d, (rem - 1) as nat);
        match sub {
            ScanOutcome::Chain(sub_ids) => {
                lemma_scan_chain(mov, immov, x + dx(d), y + dy(d), d, (rem - 1) as nat);
                assert(ids == seq![mov[(x, y)]] + sub_ids);
                assert(ids.len() == 1 + sub_ids.len());
                assert forall|k: int| 0 <= k < ids.len() implies mov.contains_key(
                    #[trigger] cell_at(x, y, d, k as nat),
                ) && ids[k] == mov[cell_at(x, y, d, k as nat)] by {
                    if k == 0 {
                        assert(cell_at(x, y, d, 0nat) == (x, y));
                    } else {
                        lemma_cell_at_shift(x, y, d, (k - 1) as nat);
                        assert(cell_at(x + dx(d), y + dy(d), d, (k - 1) as nat) == cell_at(
                            x,
                            y,
                            d,
                            k as nat,
                        ));
                        assert(ids[k] == sub_ids[k - 1]);
                    }
                }
                lemma_cell_at_shift(x, y, d, sub_ids.len());
                assert(cell_at(x + dx(d), y + dy(d), d, sub_ids.len()) == cell_at(
                    x,
                    y,
                    d,
                    ids.len(),
                ));
            },
            _ => {
                assert(false);
            },
        }
    } else if immov.contains_key((x, y)) {
        assert(false);
    } else {
        assert(ids == Seq::<u64>::empty());
        assert(cell_at(x, y, d, 0nat) == (x, y));
    }
}

/// If the first cell of the ray that holds no movable holds an immovable,
/// the scan is obstructed.
pub proof fn lemma_obstruction_blocks(
    mov: Map<(int, int), u64>,
    immov: Map<(int, int), u64>,
    x: int,
    y: int,
    d: Direction,
    rem: nat,
    n: nat,
)
    requires
        n < rem,
        forall|k: nat| k < n ==> mov.contains_key(#[trigger] cell_at(x, y, d, k)),
        !mov.contains_key(cell_at(x, y, d, n)),
        immov.contains_key(cell_at(x, y, d, n)),
    ensures
        scan(mov, immov, x, y, d, rem) == ScanOutcome::Obstructed,
    decreases n,
{
    assert(cell_at(x, y, d, 0nat) == (x, y));
    if n == 0 {
    } else {
        assert(mov.contains_key(cell_at(x, y, d, 0nat)));
        assert forall|k: nat| k < n - 1 implies mov.contains_key(
            #[trigger] cell_at(x + dx(d), y + dy(d), d, k),
        ) by {
            lemma_cell_at_shift(x, y, d, k);
        }
        lemma_cell_at_shift(x, y, d, (n - 1) as nat);
        lemma_obstruction_blocks(
            mov,
            immov,
            x + dx(d),
            y + dy(d),
            d,
            (rem - 1) as nat,
            (n - 1) as nat,
        );
    }
}

/// If every cell of the inclusive range holds a movable, the scan exhausts
/// the range and the push is blocked at the grid edge.
pub proof fn lemma_edge_blocks(
    mov: Map<(int, int), u64>,
    immov: Map<(int, int), u64>,
    x: int,
    y: int,
    d: Direction,
    rem: nat,
)
    requires
        forall|k: nat| k < rem ==> mov.contains_key(#[trigger] cell_at(x, y, d, k)),
    ensures
        scan(mov, immov, x, y, d, rem) == ScanOutcome::Edge,
    decreases rem,
{
    if rem > 0 {
        assert(cell_at(x, y, d, 0nat) == (x, y));
        assert(mov.contains_key(cell_at(x, y, d, 0nat)));
        assert forall|k: nat| k < rem - 1 implies mov.contains_key(
            #[trigger] cell_at(x + dx(d), y + dy(d), d, k),
        ) by {
            lemma_cell_at_shift(x, y, d, k);
        }
        lemma_edge_blocks(mov, immov, x + dx(d), y + dy(d), d, (rem - 1) as nat);
    }
}

/// The position one unit from `p` in direction `d`; meaningful when the step
/// stays within the coordinate type.
pub open spec fn moved_position(p: Position, d: Direction) -> Position {
    Position { x: (p.x + dx(d)) as u8, y: (p.y + dy(d)) as u8, z: p.z }
}

/// The entity after the move: same handle and tags, position shifted one
/// unit.
pub open spec fn moved_entity(e: EntityState, d: Direction) -> EntityState {
    EntityState { id: e.id, position: moved_position(e.position, d), movable: e.movable, immovable: e.immovable, player: e.player }
}

/// The snapshot after committing a chain: every entity whose handle the chain
/// names is shifted one unit in direction `d`; every other entity is
/// untouched.
pub open spec fn apply_chain(s: Seq<EntityState>, chain: Seq<u64>, d: Direction) -> Seq<
    EntityState,
> {
    Seq::new(
        s.len(),
        |i: int|
            if chain.contains(s[i].id) {
                moved_entity(s[i], d)
            } else {
                s[i]
            },
    )
}

/// The index of the first entity with the given handle, if any.
fn find_by_id(entities: &Vec<EntityState>, id: u64) -> (r: Option<usize>)
    ensures
        match r {
            Some(i) => i < entities@.len() && entities@[i as int].id == id,
            None => forall|i: int|
                0 <= i < entities@.len() ==> (#[trigger] entities@[i]).id != id,
        },
{
    let mut i: usize = 0;
    while i < entities.len()
        invariant
            i <= entities@.len(),
            forall|j: int| 0 <= j < i ==> (#[trigger] entities@[j]).id != id,
        decreases entities@.len() - i,
    {
        if entities[i].id == id {
            return Some(i);
        }
        i += 1;
    }
    None
}

/// Commit a resolved chain: adjust each named entity's position by exactly
/// one unit in the resolved direction. A handle the snapshot does not hold is
/// skipped, never an error.
pub fn apply_move(entities: &mut Vec<EntityState>, chain: &Vec<u64>, d: Direction)
    requires
        forall|i: int, j: int|
            0 <= i < old(entities)@.len() && 0 <= j < old(entities)@.len() && i != j ==> (
            #[trigger] old(entities)@[i]).id != (#[trigger] old(entities)@[j]).id,
        forall|a: int, b: int|
            0 <= a < chain@.len() && 0 <= b < chain@.len() && a != b ==> chain@[a] != chain@[b],
        forall|i: int|
            0 <= i < old(entities)@.len() && chain@.contains((#[trigger] old(entities)@[i]).id)
                ==> 0 <= old(entities)@[i].position.x + dx(d) <= 255 && 0 <= old(
                entities,
            )@[i].position.y + dy(d) <= 255,
    ensures
        final(entities)@ == apply_chain(old(entities)@, chain@, d),
{
    let ghost s = old(entities)@;
    let mut k: usize = 0;
    proof {
        assert(entities@ =~= apply_chain(s, chain@.take(0), d));
    }
    while k < chain.len()
        invariant
            k <= chain@.len(),
            entities@ == apply_chain(s, chain@.take(k as int), d),
            forall|i: int, j: int|
                0 <= i < s.len() && 0 <= j < s.len() && i != j ==> (#[trigger] s[i]).id != (
                #[trigger] s[j]).id,
            forall|a: int, b: int|
                0 <= a < chain@.len() && 0 <= b < chain@.len() && a != b ==> chain@[a]
                    != chain@[b],
            forall|i: int|
                0 <= i < s.len() && chain@.contains((#[trigger] s[i]).id) ==> 0 <= s[i].position.x
                    + dx(d) <= 255 && 0 <= s[i].position.y + dy(d) <= 255,
        decreases chain@.len() - k,
    {
        let id = chain[k];
        proof {
            assert(chain@.take(k as int + 1).drop_last() =~= chain@.take(k as int));
            assert(chain@[k as int] == chain@.take(k as int + 1).last());
        }
        match find_by_id(entities, id) {
            Some(i) => {
                proof {
                    // the entity is still in its pre-move state: its handle is
                    // not among the chain entries already applied
                    assert(entities@[i as int] == apply_chain(s, chain@.take(k as int), d)[
                        i as int]);
                    assert(s[i as int].id == id) by {
                        if chain@.take(k as int).contains(s[i as int].id) {
                            assert(moved_entity(s[i as int], d).id == s[i as int].id);
                        }
                    }
                    assert(!chain@.take(k as int).contains(s[i as int].id)) by {
                        if chain@.take(k as int).contains(s[i as int].id) {
                            let a = choose|a: int|
                                0 <= a < k as int && #[trigger] chain@.take(k as int)[a] == s[i as int].id;
                            assert(chain@[a] == chain@[k as int]);
                        }
                    }
                    assert(entities@[i as int] == s[i as int]);
                    assert(chain@.contains(s[i as int].id));
                }
                let e = entities[i];
                let new_pos = match d {
                    Direction::Up => Position { x: e.position.x, y: e.position.y - 1, z: e.position.z },
                    Direction::Down => Position { x: e.position.x, y: e.position.y + 1, z: e.position.z },
                    Direction::Left => Position { x: e.position.x - 1, y: e.position.y, z: e.position.z },
                    Direction::Right => Position { x: e.position.x + 1, y: e.position.y, z: e.position.z },
                };
                entities[i] = EntityState {
                    id: e.id,
                    position: new_pos,
                    movable: e.movable,
                    immovable: e.immovable,
                    player: e.player,
                };
                proof {
                    assert(entities@[i as int] == moved_entity(s[i as int], d));
                    assert forall|j: int| 0 <= j < s.len() implies entities@[j] == apply_chain(
                        s,
                        chain@.take(k as int + 1),
                        d,
                    )[j] by {
                        if j != i as int {
                            assert(s[j].id != s[i as int].id);
                            assert(chain@.take(k as int + 1).contains(s[j].id) == chain@.take(
                                k as int,
                            ).contains(s[j].id)) by {
                                if chain@.take(k as int + 1).contains(s[j].id) {
                                    let a = choose|a: int|
                                        0 <= a < k as int + 1 && #[trigger] chain@.take(k as int + 1)[a]
                                            == s[j].id;
                                    if a == k as int {
                                        assert(s[j].id == id);
                                        assert(false);
                                    } else {
                                        assert(chain@.take(k as int)[a] == s[j].id);
                                    }
                                } else if chain@.take(k as int).contains(s[j].id) {
                                    let a = choose|a: int|
                                        0 <= a < k as int && #[trigger] chain@.take(k as int)[a] == s[j].id;
                                    assert(chain@.take(k as int + 1)[a] == s[j].id);
                                }
                            }
                        } else {
                            assert(chain@.take(k as int + 1).contains(s[j].id)) by {
                                assert(chain@.take(k as int + 1)[k as int] == s[j].id);
                            }
                        }
                    }
                    assert(entities@ =~= apply_chain(s, chain@.take(k as int + 1), d));
                }
            },
            None => {
                proof {
                    assert forall|j: int| 0 <= j < s.len() implies entities@[j] == apply_chain(
                        s,
                        chain@.take(k as int + 1),
                        d,
                    )[j] by {
                        assert(entities@[j].id == s[j].id || entities@[j] == moved_entity(
                            s[j],
                            d,
                        ));
                        assert(entities@[j].id == s[j].id);
                        assert(s[j].id != id);
                        assert(chain@.take(k as int + 1).contains(s[j].id) == chain@.take(
                            k as int,
                        ).contains(s[j].id)) by {
                            if chain@.take(k as int + 1).contains(s[j].id) {
                                let a = choose|a: int|
                                    0 <= a < k as int + 1 && #[trigger] chain@.take(
                                        k as int + 1,
                                    )[a] == s[j].id;
                                if a == k as int {
                                    assert(false);
                                } else {
                                    assert(chain@.take(k as int)[a] == s[j].id);
                                }
                            } else if chain@.take(k as int).contains(s[j].id) {
                                let a = choose|a: int|
                                    0 <= a < k as int && #[trigger] chain@.take(k as int)[a] == s[j].id;
                                assert(chain@.take(k as int + 1)[a] == s[j].id);
                            }
                        }
                    }
                    assert(entities@ =~= apply_chain(s, chain@.take(k as int + 1), d));
                }
            },
        }
        k += 1;
    }
    proof {
        assert(chain@.take(chain@.len() as int) =~= chain@);
    }
}

/// The index of the world's player entity; meaningful when exactly one
/// entity carries the player tag.
pub open spec fn player_index_of(s: Seq<EntityState>) -> int {
    choose|i: int| 0 <= i < s.len() && (#[trigger] s[i]).player
}

/// What one directional input resolves to on the given world snapshot: the
/// scan from the player's cell, over the movable and immovable indices.
pub open spec fn resolve_spec(
    s: Seq<EntityState>,
    width: int,
    height: int,
    d: Direction,
) -> ScanOutcome {
    let p = s[player_index_of(s)].position;
    scan(
        index_of(s, true),
        index_of(s, false),
        p.x as int,
        p.y as int,
        d,
        scan_len(d, p.x as int, p.y as int, width, height),
    )
}

/// One moved notification per chain entry, in chain order.
pub open spec fn moved_events(chain: Seq<u64>) -> Seq<Event> {
    Seq::new(chain.len(), |i: int| Event::EntityMoved(EntityMoved { id: chain[i] }))
}

/// The index of the player entity.
fn find_player(entities: &Vec<EntityState>) -> (r: usize)
    requires
        exists|i: int| 0 <= i < entities@.len() && (#[trigger] entities@[i]).player,
    ensures
        r < entities@.len(),
        entities@[r as int].player,
{
    let mut i: usize = 0;
    while i < entities.len()
        invariant
            i <= entities@.len(),
            exists|j: int| 0 <= j < entities@.len() && (#[trigger] entities@[j]).player,
            forall|j: int| 0 <= j < i ==> !(#[trigger] entities@[j]).player,
        decreases entities@.len() - i,
    {
        if entities[i].player {
            return i;
        }
        i += 1;
    }
    proof {
        assert(false);
    }
    0
}

/// The system that turns one queued directional input into movement.
pub struct InputSystem {}

impl InputSystem {
    /// One simulation tick. At most one queued input is consumed, in
    /// first-in-first-out order; the scan from the player's cell then decides
    /// everything, as [`resolve_spec`] states: a successful chain is committed
    /// ([`apply_chain`]), one moved notification is emitted per chain entry in
    /// player-first scan order, and the move counter grows by one exactly when
    /// the chain is non-empty; an obstructed push changes nothing and emits
    /// one obstacle notification; a push against the grid edge changes
    /// nothing and emits nothing.
    pub fn run(
        &self,
        width: u8,
        height: u8,
        input_queue: &mut InputQueue,
        events: &mut EventQueue,
        gameplay: &mut Gameplay,
        entities: &mut Vec<EntityState>,
    )
        requires
            world_wf(old(entities)@, width as int, height as int),
            old(gameplay).moves_count < u64::MAX,
        ensures
            old(input_queue).keys_pressed@.len() == 0 ==> {
                &&& final(input_queue).keys_pressed@ == old(input_queue).keys_pressed@
                &&& final(events).events@ == old(events).events@
                &&& *final(gameplay) == *old(gameplay)
                &&& final(entities)@ == old(entities)@
            },
            old(input_queue).keys_pressed@.len() > 0 ==> {
                let d = old(input_queue).keys_pressed@[0];
                &&& final(input_queue).keys_pressed@ == old(
                    input_queue,
                ).keys_pressed@.drop_first()
                &&& match resolve_spec(old(entities)@, width as int, height as int, d) {
                    ScanOutcome::Chain(ids) => {
                        &&& final(entities)@ == apply_chain(old(entities)@, ids, d)
                        &&& final(events).events@ == old(events).events@ + moved_events(ids)
                        &&& final(gameplay).moves_count == old(gameplay).moves_count + (if ids.len()
                            > 0 {
                            1int
                        } else {
                            0int
                        })
                        &&& final(gameplay).state == old(gameplay).state
                    },
                    ScanOutcome::Obstructed => {
                        &&& final(entities)@ == old(entities)@
                        &&& final(events).events@ == old(events).events@.push(
                            Event::PlayerHitObstacle,
                        )
                        &&& *final(gameplay) == *old(gameplay)
                    },
                    ScanOutcome::Edge => {
                        &&& final(entities)@ == old(entities)@
                        &&& final(events).events@ == old(events).events@
                        &&& *final(gameplay) == *old(gameplay)
                    },
                }
            },
    {
        if input_queue.keys_pressed.len() == 0 {
            return ;
        }
        let d = input_queue.keys_pressed.remove(0);
        proof {
            assert(input_queue.keys_pressed@ =~= old(input_queue).keys_pressed@.drop_first());
        }
        let ghost s = entities@;
        let pi = find_player(entities);
        proof {
            assert(player_index_of(s) == pi as int) by {
                let c = player_index_of(s);
                assert(0 <= c < s.len() && s[c].player);
            }
        }
        let px = entities[pi].position.x;
        let py = entities[pi].position.y;
        let mov = SpatialIndex::build(entities, true);
        let immov = SpatialIndex::build(entities, false);
        let ghost movm = index_of(s, true);
        let ghost immovm = index_of(s, false);
        let ghost lsc = scan_len(d, px as int, py as int, width as int, height as int);
        let res = resolve_move(width, height, px, py, d, &mov, &immov);
        match res {
            Resolution::Chain(chain) => {
                if chain.len() > 0 {
                    gameplay.moves_count = gameplay.moves_count + 1;
                }
                proof {
                    let n = chain@.len() as int;
                    lemma_scan_chain(movm, immovm, px as int, py as int, d, lsc);
                    assert forall|a: int, b: int|
                        0 <= a < n && 0 <= b < n && a != b implies #[trigger] chain@[a]
                        != #[trigger] chain@[b] by {
                        lemma_cell_at_value(px as int, py as int, d, a as nat);
                        lemma_cell_at_value(px as int, py as int, d, b as nat);
                        lemma_index_injective(
                            s,
                            true,
                            cell_at(px as int, py as int, d, a as nat),
                            cell_at(px as int, py as int, d, b as nat),
                        );
                    }
                    assert forall|i: int|
                        0 <= i < s.len() && chain@.contains((#[trigger] s[i]).id) implies 0 <= s[
                        i].position.x + dx(d) <= 255 && 0 <= s[i].position.y + dy(d) <= 255 by {
                        let k = choose|k: int| 0 <= k < n && #[trigger] chain@[k] == s[i].id;
                        let c = cell_at(px as int, py as int, d, k as nat);
                        lemma_index_membership(s, true, c);
                        let j = choose|j: int|
                            0 <= j < s.len() && has_tag(#[trigger] s[j], true) && cell_of(s[j])
                                == c && s[j].id == movm[c];
                        assert(s[j].id == s[i].id);
                        assert(j == i);
                        lemma_cell_at_value(px as int, py as int, d, k as nat);
                        assert(cell_of(s[i]) == c);
                    }
                }
                apply_move(entities, &chain, d);
                let ghost base = events.events@;
                let mut k: usize = 0;
                proof {
                    assert(events.events@ =~= base + moved_events(chain@.take(0)));
                }
                while k < chain.len()
                    invariant
                        k <= chain@.len(),
                        events.events@ == base + moved_events(chain@.take(k as int)),
                    decreases chain@.len() - k,
                {
                    let id = chain[k];
                    events.events.push(Event::EntityMoved(EntityMoved { id }));
                    proof {
                        assert(events.events@ =~= base + moved_events(chain@.take(k as int + 1)));
                    }
                    k += 1;
                }
                proof {
                    assert(chain@.take(chain@.len() as int) =~= chain@);
                }
            },
            Resolution::Obstructed => {
                events.events.push(Event::PlayerHitObstacle);
            },
            Resolution::AtEdge => {},
        }
    }
}

/// Law: a push into an empty cell moves exactly the player plus the
/// contiguous run of movable entities between the player's cell and the
/// first empty cell — an entity moves precisely when it is movable and
/// stands on that run — each by exactly one unit in the input direction,
/// while every other entity is untouched; and the cell the run ends on holds
/// neither a movable nor an immovable entity. Together with
/// [`InputSystem::run`]'s contract this pins the whole world after a
/// successful push. The premise that no two movable entities share a cell
/// rules out doubly occupied cells, a level-authoring error under which the
/// index keeps only the later entity.
pub proof fn lemma_push_moves_contiguous_run(
    s: Seq<EntityState>,
    width: int,
    height: int,
    d: Direction,
)
    requires
        world_wf(s, width, height),
        tagged_cells_distinct(s, true),
        width <= 255,
        height <= 255,
        resolve_spec(s, width, height, d) is Chain,
    ensures
        ({
            let ids = resolve_spec(s, width, height, d)->Chain_0;
            let p = s[player_index_of(s)].position;
            let after = apply_chain(s, ids, d);
            &&& after.len() == s.len()
            &&& forall|i: int|
                0 <= i < s.len() ==> (ids.contains((#[trigger] s[i]).id) <==> (s[i].movable
                    && exists|k: int|
                    0 <= k < ids.len() && cell_of(s[i]) == #[trigger] cell_at(
                        p.x as int,
                        p.y as int,
                        d,
                        k as nat,
                    )))
            &&& forall|i: int|
                0 <= i < s.len() && ids.contains((#[trigger] s[i]).id) ==> after[i].position.x
                    as int == s[i].position.x as int + dx(d) && after[i].position.y as int == s[
                    i].position.y as int + dy(d) && after[i].position.z == s[i].position.z
                    && after[i].id == s[i].id && after[i].movable == s[i].movable
                    && after[i].immovable == s[i].immovable && after[i].player == s[i].player
            &&& forall|i: int|
                0 <= i < s.len() && !ids.contains((#[trigger] s[i]).id) ==> after[i] == s[i]
            &&& forall|i: int|
                0 <= i < s.len() ==> !((#[trigger] s[i]).movable && cell_of(s[i]) == cell_at(
                    p.x as int,
                    p.y as int,
                    d,
                    ids.len(),
                )) && !(s[i].immovable && cell_of(s[i]) == cell_at(
                    p.x as int,
                    p.y as int,
                    d,
                    ids.len(),
                ))
        }),
{
    let ids = resolve_spec(s, width, height, d)->Chain_0;
    let p = s[player_index_of(s)].position;
    let px = p.x as int;
    let py = p.y as int;
    let movm = index_of(s, true);
    let immovm = index_of(s, false);
    let n = ids.len() as int;
    let lsc = scan_len(d, px, py, width, height);
    lemma_scan_chain(movm, immovm, px, py, d, lsc);
    assert(0 <= player_index_of(s) < s.len() && s[player_index_of(s)].player);
    assert forall|i: int| 0 <= i < s.len() implies (ids.contains((#[trigger] s[i]).id) <==> (
    s[i].movable && exists|k: int|
        0 <= k < ids.len() && cell_of(s[i]) == #[trigger] cell_at(
            px,
            py,
            d,
            k as nat,
        ))) by {
        if ids.contains(s[i].id) {
            let k = choose|k: int| 0 <= k < n && #[trigger] ids[k] == s[i].id;
            let c = cell_at(px, py, d, k as nat);
            lemma_index_membership(s, true, c);
            let j = choose|j: int|
                0 <= j < s.len() && has_tag(#[trigger] s[j], true) && cell_of(s[j]) == c && s[j].id
                    == movm[c];
            assert(s[j].id == s[i].id);
            assert(j == i);
            assert(cell_of(s[i]) == cell_at(px, py, d, k as nat));
        }
        if s[i].movable && exists|k: int|
            0 <= k < ids.len() && cell_of(s[i]) == #[trigger] cell_at(px, py, d, k as nat) {
            let k = choose|k: int|
                0 <= k < ids.len() && cell_of(s[i]) == #[trigger] cell_at(px, py, d, k as nat);
            lemma_index_exact(s, true, i);
            assert(ids[k as int] == movm[cell_at(px, py, d, k as nat)]);
            assert(ids[k as int] == s[i].id);
        }
    }
    assert forall|i: int|
        0 <= i < s.len() && ids.contains((#[trigger] s[i]).id) implies apply_chain(s, ids, d)[
        i].position.x as int == s[i].position.x as int + dx(d) && apply_chain(s, ids, d)[
        i].position.y as int == s[i].position.y as int + dy(d) && apply_chain(s, ids, d)[
        i].position.z == s[i].position.z && apply_chain(s, ids, d)[i].id == s[i].id && apply_chain(
        s,
        ids,
        d,
    )[i].movable == s[i].movable && apply_chain(s, ids, d)[i].immovable == s[i].immovable
        && apply_chain(s, ids, d)[i].player == s[i].player by {
        let k = choose|k: int| 0 <= k < n && #[trigger] ids[k] == s[i].id;
        let c = cell_at(px, py, d, k as nat);
        lemma_index_membership(s, true, c);
        let j = choose|j: int|
            0 <= j < s.len() && has_tag(#[trigger] s[j], true) && cell_of(s[j]) == c && s[j].id
                == movm[c];
        assert(s[j].id == s[i].id);
        assert(j == i);
        lemma_cell_at_value(px, py, d, k as nat);
        assert(cell_of(s[i]) == c);
        assert(apply_chain(s, ids, d)[i] == moved_entity(s[i], d));
        assert(0 <= s[i].position.x + dx(d) <= 255 && 0 <= s[i].position.y + dy(d) <= 255);
    }
    assert forall|i: int| 0 <= i < s.len() implies !((#[trigger] s[i]).movable && cell_of(s[i])
        == cell_at(px, py, d, ids.len())) && !(s[i].immovable && cell_of(s[i]) == cell_at(
        px,
        py,
        d,
        ids.len(),
    )) by {
        if s[i].movable && cell_of(s[i]) == cell_at(px, py, d, ids.len()) {
            lemma_index_complete(s, true, i);
        }
        if s[i].immovable && cell_of(s[i]) == cell_at(px, py, d, ids.len()) {
            lemma_index_complete(s, false, i);
        }
    }
}

/// Law: when the first cell of the scan that holds no movable entity holds
/// an immovable one, the push resolves as obstructed — so by
/// [`InputSystem::run`]'s contract no position changes, exactly one
/// obstacle notification is emitted, and the move counter is unchanged.
pub proof fn lemma_immovable_obstruction(
    s: Seq<EntityState>,
    width: int,
    height: int,
    d: Direction,
    n: nat,
)
    requires
        world_wf(s, width, height),
        ({
            let p = s[player_index_of(s)].position;
            &&& n < scan_len(d, p.x as int, p.y as int, width, height)
            &&& forall|k: nat|
                k < n ==> exists|i: int|
                    0 <= i < s.len() && (#[trigger] s[i]).movable && cell_of(s[i])
                        == #[trigger] cell_at(p.x as int, p.y as int, d, k)
            &&& forall|i: int|
                0 <= i < s.len() && (#[trigger] s[i]).movable ==> cell_of(s[i]) != cell_at(
                    p.x as int,
                    p.y as int,
                    d,
                    n,
                )
            &&& exists|i: int|
                0 <= i < s.len() && (#[trigger] s[i]).immovable && cell_of(s[i]) == cell_at(
                    p.x as int,
                    p.y as int,
                    d,
                    n,
                )
        }),
    ensures
        resolve_spec(s, width, height, d) == ScanOutcome::Obstructed,
{
    let p = s[player_index_of(s)].position;
    let px = p.x as int;
    let py = p.y as int;
    let movm = index_of(s, true);
    let immovm = index_of(s, false);
    assert forall|k: nat| k < n implies movm.contains_key(#[trigger] cell_at(px, py, d, k)) by {
        let i = choose|i: int|
            0 <= i < s.len() && (#[trigger] s[i]).movable && cell_of(s[i]) == cell_at(px, py, d, k);
        lemma_index_complete(s, true, i);
    }
    assert(!movm.contains_key(cell_at(px, py, d, n))) by {
        if movm.contains_key(cell_at(px, py, d, n)) {
            lemma_index_membership(s, true, cell_at(px, py, d, n));
        }
    }
    assert(immovm.contains_key(cell_at(px, py, d, n))) by {
        let i = choose|i: int|
            0 <= i < s.len() && (#[trigger] s[i]).immovable && cell_of(s[i]) == cell_at(
                px,
                py,
                d,
                n,
            );
        lemma_index_complete(s, false, i);
    }
    lemma_obstruction_blocks(
        movm,
        immovm,
        px,
        py,
        d,
        scan_len(d, px, py, width, height),
        n,
    );
}

/// Law: a tick moves at least one entity exactly when its resolved chain is
/// non-empty — so by [`InputSystem::run`]'s contract the move counter grows
/// by exactly one per tick in which some entity moved, by zero otherwise,
/// and never decreases.
pub proof fn lemma_counter_tracks_movement(
    s: Seq<EntityState>,
    width: int,
    height: int,
    d: Direction,
)
    requires
        world_wf(s, width, height),
        width <= 255,
        height <= 255,
        resolve_spec(s, width, height, d) is Chain,
    ensures
        ({
            let ids = resolve_spec(s, width, height, d)->Chain_0;
            &&& ids.len() > 0 ==> exists|i: int|
                0 <= i < s.len() && (#[trigger] apply_chain(s, ids, d)[i]).position != s[i].position
            &&& ids.len() == 0 ==> apply_chain(s, ids, d) == s
        }),
{
    let ids = resolve_spec(s, width, height, d)->Chain_0;
    let p = s[player_index_of(s)].position;
    let px = p.x as int;
    let py = p.y as int;
    let movm = index_of(s, true);
    let immovm = index_of(s, false);
    let lsc = scan_len(d, px, py, width, height);
    lemma_scan_chain(movm, immovm, px, py, d, lsc);
    if ids.len() == 0 {
        assert(apply_chain(s, ids, d) =~= s);
    } else {
        assert(cell_at(px, py, d, 0nat) == (px, py));
        assert(ids[0] == movm[(px, py)]);
        lemma_index_membership(s, true, (px, py));
        let j = choose|j: int|
            0 <= j < s.len() && has_tag(#[trigger] s[j], true) && cell_of(s[j]) == (px, py) && s[
                j].id == movm[(px, py)];
        assert(ids.contains(s[j].id)) by {
            assert(ids[0] == s[j].id);
        }
        assert(apply_chain(s, ids, d)[j] == moved_entity(s[j], d));
        assert(s[j].position.x == px && s[j].position.y == py);
        lemma_cell_at_value(px, py, d, ids.len());
        assert(ids.len() < lsc);
        assert(0 <= s[j].position.x + dx(d) <= 255 && 0 <= s[j].position.y + dy(d) <= 255);
        assert(moved_entity(s[j], d).position != s[j].position) by {
            assert(dx(d) != 0 || dy(d) != 0);
        }
    }
}

/// Law: one tick's moved notifications name pairwise distinct entities — no
/// notification is duplicated — and the first chain entry is the occupant of
/// the player's own cell, so with [`InputSystem::run`]'s contract the
/// notifications come player-first, then in push order.
pub proof fn lemma_moved_events_distinct(
    s: Seq<EntityState>,
    width: int,
    height: int,
    d: Direction,
)
    requires
        world_wf(s, width, height),
        resolve_spec(s, width, height, d) is Chain,
    ensures
        ({
            let ids = resolve_spec(s, width, height, d)->Chain_0;
            let p = s[player_index_of(s)].position;
            &&& forall|a: int, b: int|
                0 <= a < b < ids.len() ==> moved_events(ids)[a] != moved_events(ids)[b]
            &&& ids.len() > 0 ==> index_of(s, true).contains_key((p.x as int, p.y as int))
                && ids[0] == index_of(s, true)[(p.x as int, p.y as int)]
        }),
{
    let ids = resolve_spec(s, width, height, d)->Chain_0;
    let p = s[player_index_of(s)].position;
    let px = p.x as int;
    let py = p.y as int;
    let movm = index_of(s, true);
    let immovm = index_of(s, false);
    let lsc = scan_len(d, px, py, width, height);
    lemma_scan_chain(movm, immovm, px, py, d, lsc);
    assert(cell_at(px, py, d, 0nat) == (px, py));
    assert forall|a: int, b: int| 0 <= a < b < ids.len() implies moved_events(ids)[a]
        != moved_events(ids)[b] by {
        lemma_cell_at_value(px, py, d, a as nat);
        lemma_cell_at_value(px, py, d, b as nat);
        lemma_index_injective(
            s,
            true,
            cell_at(px, py, d, a as nat),
            cell_at(px, py, d, b as nat),
        );
        assert(ids[a] != ids[b]);
        assert(moved_events(ids)[a] == Event::EntityMoved(EntityMoved { id: ids[a] }));
        assert(moved_events(ids)[b] == Event::EntityMoved(EntityMoved { id: ids[b] }));
    }
}

} // verus!


