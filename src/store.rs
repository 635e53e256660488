use vstd::prelude::*;
use std::collections::HashMap;
use crate::grid::{in_range, key_at, key_of, lemma_key_bounds, lemma_key_injective, Coord, TileKind};

verus! {

/// What a merge does with a cell that the window shows.
#[derive(Clone, Copy, Debug, PartialEq, Eq, Structural)]
pub enum MergePolicy {
    /// The first observation of a cell is kept forever; `Void` is recorded too.
    KeepFirst,
    /// As `KeepFirst`, but `Void` observations are never recorded.
    SkipVoid,
    /// As `KeepFirst`, but a stored `Void` gives way to a later real tile.
    ReplaceVoid,
}

/// The tile recorded for `c`, if any.
pub open spec fn lookup(m: Map<(int, int), TileKind>, c: (int, int)) -> Option<TileKind> {
    if m.contains_key(c) {
        Some(m[c])
    } else {
        None
    }
}

/// What a cell holds after tile `t` was observed there, when it held `old` before.
pub open spec fn merge_cell(old: Option<TileKind>, t: TileKind, policy: MergePolicy) -> Option<TileKind> {
    match old {
        Some(k) => if policy == MergePolicy::ReplaceVoid && k == TileKind::Void && t != TileKind::Void {
            Some(t)
        } else {
            Some(k)
        },
        None => if policy == MergePolicy::SkipVoid && t == TileKind::Void {
            None
        } else {
            Some(t)
        },
    }
}

/// Side length of an observation window of radius `r`.
pub open spec fn width_of(r: int) -> int {
    2 * r + 1
}

/// Whether `c` lies in the window of radius `r` centred on `pos`.
pub open spec fn in_window(c: (int, int), pos: (int, int), r: int) -> bool {
    pos.0 - r <= c.0 <= pos.0 + r && pos.1 - r <= c.1 <= pos.1 + r
}

/// Row-major index in the window of a cell inside it.
pub open spec fn window_index(c: (int, int), pos: (int, int), r: int) -> int {
    (c.1 - pos.1 + r) * width_of(r) + (c.0 - pos.0 + r)
}

/// What cell `c` holds after merging `window` (radius `r`, centred on `pos`) into `m`.
pub open spec fn merged_at(
    m: Map<(int, int), TileKind>,
    window: Seq<TileKind>,
    r: int,
    pos: (int, int),
    policy: MergePolicy,
    c: (int, int),
) -> Option<TileKind> {
    if in_window(c, pos, r) {
        merge_cell(lookup(m, c), window[window_index(c, pos, r)], policy)
    } else {
        lookup(m, c)
    }
}

/// The map after merging `window` (radius `r`, centred on `pos`) into `m`.
pub open spec fn merged(
    m: Map<(int, int), TileKind>,
    window: Seq<TileKind>,
    r: int,
    pos: (int, int),
    policy: MergePolicy,
) -> Map<(int, int), TileKind> {
    Map::new(
        |c: (int, int)| merged_at(m, window, r, pos, policy, c) is Some,
        |c: (int, int)| merged_at(m, window, r, pos, policy, c)->0,
    )
}

/// Whether the window of radius `r` around `pos` lies within representable coordinates.
pub open spec fn window_fits(pos: (int, int), r: int) -> bool {
    in_range((pos.0 - r, pos.1 - r)) && in_range((pos.0 + r, pos.1 + r))
}

proof fn lemma_window_index_unique(a: (int, int), b: (int, int), pos: (int, int), r: int)
    requires
        r >= 0,
        in_window(a, pos, r),
        in_window(b, pos, r),
        window_index(a, pos, r) == window_index(b, pos, r),
    ensures
        a == b,
{
    let w = width_of(r);
    let ar = a.1 - pos.1 + r;
    let br = b.1 - pos.1 + r;
    let ac = a.0 - pos.0 + r;
    let bc = b.0 - pos.0 + r;
    assert(ar == br) by (nonlinear_arith)
        requires
            ar * w + ac == br * w + bc,
            0 <= ac < w,
            0 <= bc < w,
    ;
}

proof fn lemma_window_index_bounds(c: (int, int), pos: (int, int), r: int)
    requires
        r >= 0,
        in_window(c, pos, r),
    ensures
        0 <= window_index(c, pos, r) < width_of(r) * width_of(r),
{
    let w = width_of(r);
    let row = c.1 - pos.1 + r;
    let col = c.0 - pos.0 + r;
    assert(0 <= row * w + col < w * w) by (nonlinear_arith)
        requires
            0 <= row < w,
            0 <= col < w,
    ;
}

/// One observation: a window, its radius and the position it was centred on.
pub type Observation = (Seq<TileKind>, int, (int, int));

/// The map after merging each observation of `obs` in turn into `m`.
pub open spec fn merge_all(m: Map<(int, int), TileKind>, obs: Seq<Observation>, policy: MergePolicy) -> Map<
    (int, int),
    TileKind,
>
    decreases obs.len(),
{
    if obs.len() == 0 {
        m
    } else {
        let o = obs.last();
        merged(merge_all(m, obs.drop_last(), policy), o.0, o.1, o.2, policy)
    }
}

/// A merge never forgets a recorded cell, and changes its tile only where
/// `ReplaceVoid` overwrites a stored `Void`.
pub proof fn lemma_merged_keeps(
    m: Map<(int, int), TileKind>,
    window: Seq<TileKind>,
    r: int,
    pos: (int, int),
    policy: MergePolicy,
    c: (int, int),
)
    requires
        m.contains_key(c),
    ensures
        merged(m, window, r, pos, policy).contains_key(c),
        policy != MergePolicy::ReplaceVoid || m[c] != TileKind::Void ==> merged(m, window, r, pos, policy)[c] == m[c],
{
}

/// Under a policy that keeps first observations, a recorded tile survives any
/// sequence of merges unchanged.
pub proof fn lemma_merge_keeps_known(
    m: Map<(int, int), TileKind>,
    obs: Seq<Observation>,
    policy: MergePolicy,
    c: (int, int),
)
    requires
        policy == MergePolicy::KeepFirst || policy == MergePolicy::SkipVoid,
        m.contains_key(c),
    ensures
        merge_all(m, obs, policy).contains_key(c),
        merge_all(m, obs, policy)[c] == m[c],
    decreases obs.len(),
{
    if obs.len() > 0 {
        lemma_merge_keeps_known(m, obs.drop_last(), policy, c);
        let o = obs.last();
        let prev = merge_all(m, obs.drop_last(), policy);
        assert(merged_at(prev, o.0, o.1, o.2, policy, c) == Some(m[c]));
    }
}

/// Under `ReplaceVoid` a recorded tile other than `Void` survives any sequence
/// of merges unchanged.
pub proof fn lemma_merge_keeps_solid(m: Map<(int, int), TileKind>, obs: Seq<Observation>, c: (int, int))
    requires
        m.contains_key(c),
        m[c] != TileKind::Void,
    ensures
        merge_all(m, obs, MergePolicy::ReplaceVoid).contains_key(c),
        merge_all(m, obs, MergePolicy::ReplaceVoid)[c] == m[c],
    decreases obs.len(),
{
    if obs.len() > 0 {
        lemma_merge_keeps_solid(m, obs.drop_last(), c);
        let o = obs.last();
        let prev = merge_all(m, obs.drop_last(), MergePolicy::ReplaceVoid);
        assert(merged_at(prev, o.0, o.1, o.2, MergePolicy::ReplaceVoid, c) == Some(m[c]));
    }
}

/// Sparse record of observed terrain, keyed by coordinate.
pub struct TileStore {
    cells: HashMap<i128, TileKind>,
}

impl View for TileStore {
    type V = Map<(int, int), TileKind>;

    closed spec fn view(&self) -> Map<(int, int), TileKind> {
        Map::new(
            |c: (int, int)| in_range(c) && self.cells@.contains_key(key_of(c) as i128),
            |c: (int, int)| self.cells@[key_of(c) as i128],
        )
    }
}

impl TileStore {
    /// The raw key set, used to bound searches over the store.
    pub closed spec fn keys(&self) -> Set<i128> {
        self.cells@.dom()
    }

    pub proof fn lemma_keys_finite(&self)
        ensures
            self.keys().finite(),
    {
    }

    pub fn new() -> (r: TileStore)
        ensures
            r@ == Map::<(int, int), TileKind>::empty(),
    {
        let r = TileStore { cells: HashMap::new() };
        assert(r@ =~= Map::<(int, int), TileKind>::empty());
        r
    }

    /// The tile recorded at `(x, y)`; coordinates beyond `Coord`'s range are never recorded.
    pub fn tile_at(&self, x: i128, y: i128) -> (r: Option<TileKind>)
        ensures
            r == lookup(self@, (x as int, y as int)),
            r is Some ==> in_range((x as int, y as int)) && self.keys().contains(
                key_of((x as int, y as int)) as i128,
            ),
    {
        if x < i64::MIN as i128 || x > i64::MAX as i128 || y < i64::MIN as i128 || y > i64::MAX as i128 {
            return None;
        }
        let k = key_at(x, y);
        match self.cells.get(&k) {
            Some(t) => Some(*t),
            None => None,
        }
    }

    /// The tile recorded at `c`, if any.
    pub fn get(&self, c: Coord) -> (r: Option<TileKind>)
        ensures
            r == lookup(self@, c@),
    {
        self.tile_at(c.x as i128, c.y as i128)
    }

    /// Records tile `t` at `c`, replacing what was there.
    fn set(&mut self, x: i128, y: i128, t: TileKind)
        requires
            in_range((x as int, y as int)),
        ensures
            final(self)@ == old(self)@.insert((x as int, y as int), t),
            final(self).keys() == old(self).keys().insert(key_of((x as int, y as int)) as i128),
    {
        let k = key_at(x, y);
        self.cells.insert(k, t);
        proof {
            let c = (x as int, y as int);
            assert forall|d: (int, int)| in_range(d) && key_of(d) as i128 == k implies d == c by {
                lemma_key_bounds(d);
                lemma_key_injective(d, c);
            }
            assert(final(self)@ =~= old(self)@.insert(c, t));
        }
    }

    /// Folds an observation window of radius `radius`, laid out row-major and
    /// centred on `pos`, into the store under `policy`.
    pub fn merge(&mut self, window: &Vec<TileKind>, radius: u16, pos: Coord, policy: MergePolicy)
        requires
            window@.len() == width_of(radius as int) * width_of(radius as int),
            window_fits(pos@, radius as int),
        ensures
            final(self)@ == merged(old(self)@, window@, radius as int, pos@, policy),
            forall|c: (int, int)| #[trigger] old(self)@.contains_key(c) ==> final(self)@.contains_key(c),
            policy != MergePolicy::ReplaceVoid ==> forall|c: (int, int)|
                #[trigger] old(self)@.contains_key(c) ==> final(self)@[c] == old(self)@[c],
    {
        let ghost m0 = self@;
        let ghost r = radius as int;
        let w: usize = 2 * radius as usize + 1;
        let n: usize = window.len();
        let mut row: usize = 0;
        let mut col: usize = 0;
        let mut i: usize = 0;
        while row < w
            invariant
                w == width_of(r),
                r == radius as int,
                window@.len() == w * w,
                n == w * w,
                window_fits(pos@, r),
                col < w,
                row <= w,
                row == w ==> col == 0,
                i == row * w + col,
                i <= w * w,
                forall|c: (int, int)|
                    #![trigger lookup(self@, c)]
                    lookup(self@, c) == if in_window(c, pos@, r) && window_index(c, pos@, r) < i {
                        merged_at(m0, window@, r, pos@, policy, c)
                    } else {
                        lookup(m0, c)
                    },
            decreases w * w - i,
        {
            proof {
                assert(i < w * w) by (nonlinear_arith)
                    requires
                        i == row * w + col,
                        row < w,
                        col < w,
                ;
            }
            let x: i128 = pos.x as i128 + col as i128 - radius as i128;
            let y: i128 = pos.y as i128 + row as i128 - radius as i128;
            let t = window[i];
            let ghost c0 = (x as int, y as int);
            assert(in_window(c0, pos@, r));
            assert(window_index(c0, pos@, r) == i);
            let cur = self.tile_at(x, y);
            let ghost prev = self@;
            match cur {
                Some(k) => {
                    if policy == MergePolicy::ReplaceVoid && k == TileKind::Void && t != TileKind::Void {
                        self.set(x, y, t);
                    }
                },
                None => {
                    if !(policy == MergePolicy::SkipVoid && t == TileKind::Void) {
                        self.set(x, y, t);
                    }
                },
            }
            proof {
                assert(lookup(self@, c0) == merge_cell(lookup(prev, c0), t, policy));
                assert forall|c: (int, int)|
                    #![trigger lookup(self@, c)]
                    lookup(self@, c) == if in_window(c, pos@, r) && window_index(c, pos@, r) < i + 1 {
                        merged_at(m0, window@, r, pos@, policy, c)
                    } else {
                        lookup(m0, c)
                    } by {
                    if c != c0 {
                        assert(lookup(self@, c) == lookup(prev, c));
                        if in_window(c, pos@, r) && window_index(c, pos@, r) == i {
                            lemma_window_index_unique(c, c0, pos@, r);
                        }
                    }
                }
            }
            let ghost (row0, col0) = (row as int, col as int);
            i = i + 1;
            if col + 1 == w {
                col = 0;
                row = row + 1;
            } else {
                col = col + 1;
            }
            proof {
                if col == 0 {
                    assert(row * w == row0 * w + w) by (nonlinear_arith)
                        requires
                            row == row0 + 1,
                    ;
                }
                assert(i <= w * w) by (nonlinear_arith)
                    requires
                        i == row * w + col,
                        row <= w,
                        row == w ==> col == 0,
                        col < w,
                ;
            }
        }
        proof {
            assert forall|c: (int, int)| #![trigger lookup(self@, c)]
                lookup(self@, c) == merged_at(m0, window@, r, pos@, policy, c) by {
                if in_window(c, pos@, r) {
                    lemma_window_index_bounds(c, pos@, r);
                }
            }
            let mm = merged(m0, window@, r, pos@, policy);
            assert forall|c: (int, int)| #[trigger] self@.contains_key(c) == mm.contains_key(c) by {
                assert(lookup(self@, c) == merged_at(m0, window@, r, pos@, policy, c));
            }
            assert forall|c: (int, int)| self@.contains_key(c) implies #[trigger] self@[c] == mm[c] by {
                assert(lookup(self@, c) == merged_at(m0, window@, r, pos@, policy, c));
            }
            assert(self@ =~= mm);
            assert forall|c: (int, int)| #[trigger] m0.contains_key(c) implies self@.contains_key(c) && (policy
                != MergePolicy::ReplaceVoid ==> self@[c] == m0[c]) by {
                lemma_merged_keeps(m0, window@, r, pos@, policy, c);
            }
        }
    }
}

} // verus!
