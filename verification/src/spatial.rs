//! The per-input spatial index: an ephemeral mapping from occupied grid cell
//! to occupying entity, built separately for movable and immovable entities,
//! together with the snapshot type it is built from and the facts the movement
//! resolver needs about it.

use vstd::prelude::*;
use crate::components::Position;

verus! {

/// The snapshot of one entity as handed to the input system by the external
/// component store: its handle, its position, and which tags it carries.
#[derive(Debug, Clone, Copy, PartialEq, Eq, Structural)]
pub struct EntityState {
    pub id: u64,
    pub position: Position,
    pub movable: bool,
    pub immovable: bool,
    pub player: bool,
}

/// The grid cell an entity occupies.
pub open spec fn cell_of(e: EntityState) -> (int, int) {
    (e.position.x as int, e.position.y as int)
}

/// Whether the entity carries the selected tag: the movable tag when
/// `movables` is true, the immovable tag otherwise.
pub open spec fn has_tag(e: EntityState, movables: bool) -> bool {
    if movables {
        e.movable
    } else {
        e.immovable
    }
}

/// The cell-to-entity mapping over the tagged entities of a snapshot; when
/// two tagged entities occupy one cell the later one wins.
pub open spec fn index_of(s: Seq<EntityState>, movables: bool) -> Map<(int, int), u64>
    decreases s.len(),
{
    if s.len() == 0 {
        Map::empty()
    } else {
        let m = index_of(s.drop_last(), movables);
        if has_tag(s.last(), movables) {
            m.insert(cell_of(s.last()), s.last().id)
        } else {
            m
        }
    }
}

/// A well-formed world snapshot: every position within the grid, handles
/// unique, no entity both movable and immovable, and exactly one player.
pub open spec fn world_wf(s: Seq<EntityState>, width: int, height: int) -> bool {
    &&& forall|i: int| 0 <= i < s.len() ==> (#[trigger] s[i]).position.x < width
        && s[i].position.y < height
    &&& forall|i: int, j: int|
        0 <= i < s.len() && 0 <= j < s.len() && i != j ==> (#[trigger] s[i]).id != (#[trigger] s[j]).id
    &&& forall|i: int| 0 <= i < s.len() ==> !((#[trigger] s[i]).movable && s[i].immovable)
    &&& exists|i: int| 0 <= i < s.len() && (#[trigger] s[i]).player
    &&& forall|i: int, j: int|
        0 <= i < s.len() && 0 <= j < s.len() && (#[trigger] s[i]).player && (#[trigger] s[j]).player
            ==> i == j
}

/// No two entities with the selected tag share a cell.
pub open spec fn tagged_cells_distinct(s: Seq<EntityState>, movables: bool) -> bool {
    forall|i: int, j: int|
        0 <= i < s.len() && 0 <= j < s.len() && i != j && has_tag(#[trigger] s[i], movables)
            && has_tag(#[trigger] s[j], movables) ==> cell_of(s[i]) != cell_of(s[j])
}

/// The mapping held by a [`SpatialIndex`]: entries inserted in order, so the
/// later entry on a cell wins.
pub open spec fn cells_map(s: Seq<(u8, u8, u64)>) -> Map<(int, int), u64>
    decreases s.len(),
{
    if s.len() == 0 {
        Map::empty()
    } else {
        cells_map(s.drop_last()).insert((s.last().0 as int, s.last().1 as int), s.last().2)
    }
}

/// An ephemeral spatial index, rebuilt per input event: occupied grid cell to
/// occupying entity handle, for one tag category.
pub struct SpatialIndex {
    cells: Vec<(u8, u8, u64)>,
}

impl SpatialIndex {
    pub closed spec fn view(&self) -> Map<(int, int), u64> {
        cells_map(self.cells@)
    }

    /// Build the index over the tagged entities of the snapshot, in snapshot
    /// order, so that on a doubly occupied cell the last write wins.
    pub fn build(entities: &Vec<EntityState>, movables: bool) -> (r: Self)
        ensures
            r@ == index_of(entities@, movables),
    {
        let mut cells: Vec<(u8, u8, u64)> = Vec::new();
        let mut i: usize = 0;
        while i < entities.len()
            invariant
                i <= entities@.len(),
                cells_map(cells@) == index_of(entities@.take(i as int), movables),
            decreases entities@.len() - i,
        {
            let e = entities[i];
            proof {
                assert(entities@.take(i as int + 1).drop_last() =~= entities@.take(i as int));
                assert(entities@.take(i as int + 1).last() == entities@[i as int]);
            }
            if (movables && e.movable) || (!movables && e.immovable) {
                let ghost prev = cells@;
                cells.push((e.position.x, e.position.y, e.id));
                proof {
                    assert(cells@.drop_last() =~= prev);
                }
            }
            i += 1;
        }
        proof {
            assert(entities@.take(entities@.len() as int) =~= entities@);
        }
        SpatialIndex { cells }
    }

    /// Look up the cell `(x, y)`; the newest entry for the cell is returned.
    pub fn get(&self, x: u8, y: u8) -> (r: Option<u64>)
        ensures
            r == (if self@.contains_key((x as int, y as int)) {
                Some(self@[(x as int, y as int)])
            } else {
                None::<u64>
            }),
    {
        let ghost key = (x as int, y as int);
        let mut i: usize = self.cells.len();
        proof {
            assert(self.cells@.take(i as int) =~= self.cells@);
        }
        while i > 0
            invariant
                key == (x as int, y as int),
                i <= self.cells@.len(),
                cells_map(self.cells@.take(i as int)).contains_key(key) == self@.contains_key(
                    key,
                ),
                cells_map(self.cells@.take(i as int)).contains_key(key) ==> cells_map(
                    self.cells@.take(i as int),
                )[key] == self@[key],
            decreases i,
        {
            let entry = self.cells[i - 1];
            proof {
                let pre = self.cells@.take(i as int);
                assert(pre.len() == i as int);
                assert(pre.drop_last() =~= self.cells@.take(i as int - 1));
                assert(pre.last() == self.cells@[i as int - 1]);
                assert(cells_map(pre) == cells_map(self.cells@.take(i as int - 1)).insert(
                    (entry.0 as int, entry.1 as int),
                    entry.2,
                ));
            }
            if entry.0 == x && entry.1 == y {
                proof {
                    assert((entry.0 as int, entry.1 as int) == key);
                    assert(cells_map(self.cells@.take(i as int))[key] == entry.2);
                }
                return Some(entry.2);
            }
            proof {
                assert((entry.0 as int, entry.1 as int) != key);
            }
            i -= 1;
        }
        None
    }
}

/// Every key of the index is the cell of some tagged entity, whose handle the
/// index holds for that key.
pub proof fn lemma_index_membership(s: Seq<EntityState>, movables: bool, c: (int, int))
    requires
        index_of(s, movables).contains_key(c),
    ensures
        exists|i: int|
            0 <= i < s.len() && has_tag(#[trigger] s[i], movables) && cell_of(s[i]) == c && s[i].id
                == index_of(s, movables)[c],
    decreases s.len(),
{
    let m = index_of(s, movables);
    if s.len() == 0 {
        assert(false);
    } else {
        let last = s.last();
        if has_tag(last, movables) && cell_of(last) == c {
            assert(s[s.len() - 1] == last);
            assert(m[c] == last.id);
        } else {
            lemma_index_membership(s.drop_last(), movables, c);
            let i = choose|i: int|
                0 <= i < s.drop_last().len() && has_tag(#[trigger] s.drop_last()[i], movables)
                    && cell_of(s.drop_last()[i]) == c && s.drop_last()[i].id == index_of(
                    s.drop_last(),
                    movables,
                )[c];
            assert(s[i] == s.drop_last()[i]);
        }
    }
}

/// The cell of every tagged entity is a key of the index.
pub proof fn lemma_index_complete(s: Seq<EntityState>, movables: bool, i: int)
    requires
        0 <= i < s.len(),
        has_tag(s[i], movables),
    ensures
        index_of(s, movables).contains_key(cell_of(s[i])),
    decreases s.len(),
{
    if i == s.len() - 1 {
        assert(s.last() == s[i]);
    } else {
        lemma_index_complete(s.drop_last(), movables, i);
        assert(s.drop_last()[i] == s[i]);
    }
}

/// When no two tagged entities share a cell, the index maps each tagged
/// entity's cell to that entity's own handle.
pub proof fn lemma_index_exact(s: Seq<EntityState>, movables: bool, i: int)
    requires
        tagged_cells_distinct(s, movables),
        0 <= i < s.len(),
        has_tag(s[i], movables),
    ensures
        index_of(s, movables).contains_key(cell_of(s[i])),
        index_of(s, movables)[cell_of(s[i])] == s[i].id,
    decreases s.len(),
{
    lemma_index_complete(s, movables, i);
    if i == s.len() - 1 {
        assert(s.last() == s[i]);
    } else {
        assert forall|a: int, b: int|
            0 <= a < s.drop_last().len() && 0 <= b < s.drop_last().len() && a != b && has_tag(
                #[trigger] s.drop_last()[a],
                movables,
            ) && has_tag(#[trigger] s.drop_last()[b], movables) implies cell_of(s.drop_last()[a])
            != cell_of(s.drop_last()[b]) by {
            assert(s.drop_last()[a] == s[a]);
            assert(s.drop_last()[b] == s[b]);
        }
        assert(s.drop_last()[i] == s[i]);
        lemma_index_exact(s.drop_last(), movables, i);
        if has_tag(s.last(), movables) {
            assert(s.last() == s[s.len() - 1]);
            assert(cell_of(s[s.len() - 1]) != cell_of(s[i]));
        }
    }
}

/// With unique handles, distinct keys of the index hold distinct handles.
pub proof fn lemma_index_injective(
    s: Seq<EntityState>,
    movables: bool,
    c1: (int, int),
    c2: (int, int),
)
    requires
        forall|i: int, j: int|
            0 <= i < s.len() && 0 <= j < s.len() && i != j ==> (#[trigger] s[i]).id != (
            #[trigger] s[j]).id,
        index_of(s, movables).contains_key(c1),
        index_of(s, movables).contains_key(c2),
        c1 != c2,
    ensures
        index_of(s, movables)[c1] != index_of(s, movables)[c2],
{
    lemma_index_membership(s, movables, c1);
    lemma_index_membership(s, movables, c2);
    let i1 = choose|i: int|
        0 <= i < s.len() && has_tag(#[trigger] s[i], movables) && cell_of(s[i]) == c1 && s[i].id
            == index_of(s, movables)[c1];
    let i2 = choose|i: int|
        0 <= i < s.len() && has_tag(#[trigger] s[i], movables) && cell_of(s[i]) == c2 && s[i].id
            == index_of(s, movables)[c2];
    assert(i1 != i2);
}

} // verus!
