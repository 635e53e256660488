use vstd::prelude::*;
use std::collections::{HashSet, VecDeque};
use crate::grid::{
    dir_at, direction_at, in_range, is_passable, key_at, key_of, lemma_key_bounds,
    lemma_key_injective, passable, step, Coord, Direction, TileKind,
};
use crate::store::{lookup, TileStore};

verus! {

/// The search ran out of reachable known cells without meeting an unmapped one.
#[derive(Clone, Copy, Debug, PartialEq, Eq, Structural)]
pub struct ExplorationExhausted;

/// The cell reached from `start` by taking the steps `dirs` in order.
pub open spec fn walk(start: (int, int), dirs: Seq<Direction>) -> (int, int)
    decreases dirs.len(),
{
    if dirs.len() == 0 {
        start
    } else {
        step(walk(start, dirs.drop_last()), dirs.last())
    }
}

/// Whether `c` is recorded with a tile that routes may pass through.
pub open spec fn known_passable(m: Map<(int, int), TileKind>, c: (int, int)) -> bool {
    m.contains_key(c) && passable(m[c])
}

/// Every cell entered along `dirs` from `start` is known and passable.
pub open spec fn passable_route(m: Map<(int, int), TileKind>, start: (int, int), dirs: Seq<Direction>) -> bool {
    forall|i: int| 1 <= i <= dirs.len() ==> #[trigger] known_passable(m, walk(start, dirs.take(i)))
}

/// `route` crosses known passable cells only and ends on a cell absent from `m`.
pub open spec fn reaches_unmapped(m: Map<(int, int), TileKind>, start: (int, int), route: Seq<Direction>) -> bool {
    &&& route.len() >= 1
    &&& passable_route(m, start, route.drop_last())
    &&& !m.contains_key(walk(start, route))
}

/// All four neighbours of `c` are mapped, and the passable ones belong to `s`
/// at a level at most one above that of `c`.
pub open spec fn settled(m: Map<(int, int), TileKind>, s: Set<(int, int)>, lvl: Map<(int, int), int>, c: (int, int)) -> bool {
    forall|d: Direction|
        #![trigger step(c, d)]
        m.contains_key(step(c, d)) && (passable(m[step(c, d)]) ==> s.contains(step(c, d)) && lvl[step(c, d)]
            <= lvl[c] + 1)
}

/// Rank of a direction in the order North, South, West, East.
pub open spec fn prio(d: Direction) -> int {
    match d {
        Direction::North => 0,
        Direction::South => 1,
        Direction::West => 2,
        Direction::East => 3,
    }
}

/// `route` reaches an unmapped cell and starts with `d`; no route reaching an
/// unmapped cell is shorter, and none as short starts with a direction that
/// comes before `d` in the order North, South, West, East.
pub open spec fn shortest_with_first(m: Map<(int, int), TileKind>, start: (int, int), route: Seq<Direction>, d: Direction) -> bool {
    &&& reaches_unmapped(m, start, route)
    &&& route[0] == d
    &&& forall|other: Seq<Direction>| #[trigger] reaches_unmapped(m, start, other) ==> route.len() <= other.len()
    &&& forall|other: Seq<Direction>|
        #[trigger] reaches_unmapped(m, start, other) && other.len() == route.len() ==> prio(d) <= prio(other[0])
}

/// Every passable route of length `len` from `start` to `c` begins with a
/// direction of rank at least `p`.
pub open spec fn first_rank_at_most(m: Map<(int, int), TileKind>, start: (int, int), c: (int, int), len: int, p: int) -> bool {
    forall|r: Seq<Direction>|
        #![trigger passable_route(m, start, r), walk(start, r)]
        passable_route(m, start, r) && r.len() == len && len >= 1 && walk(start, r) == c ==> p <= prio(r[0])
}

/// Rank of the first step a search entry carries; the start carries none.
pub open spec fn entry_rank(f: Option<Direction>) -> int {
    match f {
        Some(d) => prio(d),
        None => 0,
    }
}

/// Whether some entry of the search queue holds cell `c`.
pub open spec fn in_queue(q: Seq<(i128, i128, Option<Direction>)>, c: (int, int)) -> bool {
    exists|i: int| 0 <= i < q.len() && (q[i].0 as int, q[i].1 as int) == c
}

proof fn lemma_route_push(m: Map<(int, int), TileKind>, s: (int, int), dirs: Seq<Direction>, d: Direction)
    requires
        passable_route(m, s, dirs),
        known_passable(m, step(walk(s, dirs), d)),
    ensures
        passable_route(m, s, dirs.push(d)),
        walk(s, dirs.push(d)) == step(walk(s, dirs), d),
{
    let e = dirs.push(d);
    assert(e.drop_last() =~= dirs);
    assert forall|i: int| 1 <= i <= e.len() implies #[trigger] known_passable(m, walk(s, e.take(i))) by {
        if i <= dirs.len() {
            assert(e.take(i) =~= dirs.take(i));
        } else {
            assert(e.take(i) =~= e);
        }
    }
}

proof fn lemma_route_drop_last(m: Map<(int, int), TileKind>, s: (int, int), dirs: Seq<Direction>)
    requires
        passable_route(m, s, dirs),
        dirs.len() >= 1,
    ensures
        passable_route(m, s, dirs.drop_last()),
        known_passable(m, walk(s, dirs)),
        walk(s, dirs) == step(walk(s, dirs.drop_last()), dirs.last()),
{
    let p = dirs.drop_last();
    assert forall|i: int| 1 <= i <= p.len() implies #[trigger] known_passable(m, walk(s, p.take(i))) by {
        assert(p.take(i) =~= dirs.take(i));
        assert(known_passable(m, walk(s, dirs.take(i))));
    }
    assert(dirs.take(dirs.len() as int) =~= dirs);
    assert(known_passable(m, walk(s, dirs.take(dirs.len() as int))));
}

proof fn lemma_step_injective(c: (int, int), d1: Direction, d2: Direction)
    requires
        step(c, d1) == step(c, d2),
    ensures
        d1 == d2,
{
}

proof fn lemma_walk_push(s: (int, int), dirs: Seq<Direction>, d: Direction)
    ensures
        walk(s, dirs.push(d)) == step(walk(s, dirs), d),
{
    assert(dirs.push(d).drop_last() =~= dirs);
}

/// A passable route from a cell of a closed set never leaves it.
proof fn lemma_route_stays(
    m: Map<(int, int), TileKind>,
    s: (int, int),
    dirs: Seq<Direction>,
    sc: Set<(int, int)>,
    lvl: Map<(int, int), int>,
    bound: int,
)
    requires
        passable_route(m, s, dirs),
        dirs.len() <= bound,
        sc.contains(s),
        lvl[s] == 0,
        forall|c: (int, int)| #[trigger] sc.contains(c) && lvl[c] < bound ==> settled(m, sc, lvl, c),
    ensures
        sc.contains(walk(s, dirs)),
        lvl[walk(s, dirs)] <= dirs.len(),
    decreases dirs.len(),
{
    if dirs.len() > 0 {
        let p = dirs.drop_last();
        lemma_route_drop_last(m, s, dirs);
        lemma_route_stays(m, s, p, sc, lvl, bound);
        let c = walk(s, p);
        assert(settled(m, sc, lvl, c));
        assert(m.contains_key(step(c, dirs.last())));
    }
}

proof fn lemma_set_diff_insert(a: Set<i128>, b: Set<i128>, k: i128)
    requires
        a.finite(),
        a.contains(k),
        !b.contains(k),
    ensures
        a.difference(b.insert(k)).len() + 1 == a.difference(b).len(),
        a.difference(b.insert(k)).finite(),
{
    assert(a.difference(b.insert(k)) =~= a.difference(b).remove(k));
    vstd::set_lib::lemma_len_difference(a, b);
    assert(a.difference(b).subset_of(a));
    vstd::set_lib::lemma_len_subset(a.difference(b), a);
}

/// Breadth-first search over the known grid from `pos` for the nearest cell
/// absent from `store`, examining neighbours North, South, West, East. Returns
/// the first step of a shortest route found, or `ExplorationExhausted` when
/// every route over known passable cells ends on mapped ground.
#[verifier::rlimit(60)]
pub fn next_direction(store: &TileStore, pos: Coord) -> (r: Result<Direction, ExplorationExhausted>)
    ensures
        match r {
            Ok(d) => exists|route: Seq<Direction>| #[trigger] shortest_with_first(store@, pos@, route, d),
            Err(_) => forall|route: Seq<Direction>| !#[trigger] reaches_unmapped(store@, pos@, route),
        },
{
    let ghost m = store@;
    let ghost start = pos@;
    let ghost keys = store.keys();
    proof {
        store.lemma_keys_finite();
    }
    let mut seen: HashSet<i128> = HashSet::new();
    let mut queue: VecDeque<(i128, i128, Option<Direction>)> = VecDeque::new();
    let start_key = key_at(pos.x as i128, pos.y as i128);
    seen.insert(start_key);
    queue.push_back((pos.x as i128, pos.y as i128, None));
    let ghost mut sc: Set<(int, int)> = set![start];
    let ghost mut lvl: Map<(int, int), int> = map![start => 0int];
    let ghost mut fp: Map<(int, int), int> = map![start => 0int];
    let ghost mut qr: Seq<Seq<Direction>> = seq![Seq::empty()];
    proof {
        assert forall|c: (int, int)| in_range(c) implies (seen@.contains(key_of(c) as i128) <==> #[trigger] sc.contains(c)) by {
            if seen@.contains(key_of(c) as i128) {
                lemma_key_bounds(c);
                lemma_key_bounds(start);
                lemma_key_injective(c, start);
            }
        }
        assert(walk(start, Seq::<Direction>::empty()) == start);
        assert(in_queue(queue@, start)) by {
            assert((queue@[0].0 as int, queue@[0].1 as int) == start);
        }
    }
    while queue.len() > 0
        invariant
            m == store@,
            keys == store.keys(),
            keys.finite(),
            start == pos@,
            sc.contains(start),
            lvl[start] == 0,
            queue@.len() == qr.len(),
            forall|c: (int, int)| #[trigger] sc.contains(c) ==> in_range(c) && lvl.contains_key(c),
            forall|c: (int, int)| in_range(c) ==> (seen@.contains(key_of(c) as i128) <==> #[trigger] sc.contains(c)),
            forall|k: i128| #[trigger] seen@.contains(k) ==> keys.contains(k) || k == key_of(start) as i128,
            forall|i: int|
                #![trigger queue@[i]]
                0 <= i < queue@.len() ==> {
                    let e = queue@[i];
                    let c = (e.0 as int, e.1 as int);
                    &&& walk(start, qr[i]) == c
                    &&& passable_route(m, start, qr[i])
                    &&& sc.contains(c)
                    &&& lvl[c] == qr[i].len()
                    &&& qr[0].len() <= qr[i].len() <= qr[0].len() + 1
                    &&& (e.2 is None <==> qr[i].len() == 0)
                    &&& (e.2 is Some ==> qr[i][0] == e.2->0)
                },
            forall|i: int, j: int| 0 <= i <= j < queue@.len() ==> #[trigger] qr[i].len() <= #[trigger] qr[j].len(),
            queue@.len() > 0 ==> forall|c: (int, int)| #[trigger] sc.contains(c) ==> lvl[c] <= qr[0].len() + 1,
            forall|c: (int, int)| #[trigger] sc.contains(c) ==> settled(m, sc, lvl, c) || in_queue(queue@, c),
            forall|c: (int, int)|
                #[trigger] sc.contains(c) ==> fp.contains_key(c) && first_rank_at_most(m, start, c, lvl[c], fp[c]),
            forall|i: int|
                #![trigger queue@[i]]
                0 <= i < queue@.len() ==> entry_rank(queue@[i].2) == fp[(queue@[i].0 as int, queue@[i].1 as int)]
                    && (queue@[i].2 is None ==> i == 0 && queue@.len() == 1),
            forall|i: int, j: int|
                0 <= i <= j < queue@.len() && #[trigger] qr[i].len() == #[trigger] qr[j].len() ==> entry_rank(queue@[i].2)
                    <= entry_rank(queue@[j].2),
            forall|j: int|
                0 <= j < queue@.len() && #[trigger] qr[j].len() == qr[0].len() + 1 ==> entry_rank(queue@[j].2)
                    <= entry_rank(queue@[0].2),
        decreases 5 * keys.difference(seen@).len() + queue@.len(),
    {
        let ghost m0 = 5 * keys.difference(seen@).len() + queue@.len();
        let ghost q0 = queue@;
        let ghost qr0 = qr;
        let ghost sc0 = sc;
        let ghost lvl0 = lvl;
        let ghost fp0 = fp;
        let (x, y, first) = queue.pop_front().unwrap();
        let ghost head_rank = entry_rank(first);
        let ghost c0 = (x as int, y as int);
        let ghost route = qr[0];
        let ghost lv = route.len() as int;
        proof {
            assert(q0[0] == (x, y, first));
            qr = qr.drop_first();
            assert(queue@ =~= q0.drop_first());
            assert(sc.contains(c0));
            assert(in_range(c0));
            assert forall|c: (int, int)| #[trigger] sc0.contains(c) && lvl0[c] < lv implies settled(m, sc0, lvl0, c) by {
                if !settled(m, sc0, lvl0, c) {
                    let i = choose|i: int| 0 <= i < q0.len() && (q0[i].0 as int, q0[i].1 as int) == c;
                    assert(qr0[0].len() <= qr0[i].len());
                }
            }
            assert forall|c: (int, int)|
                #[trigger] sc0.contains(c) && !settled(m, sc0, lvl0, c) && lvl0[c] == lv implies fp0[c] >= head_rank by {
                let i = choose|i: int| 0 <= i < q0.len() && (q0[i].0 as int, q0[i].1 as int) == c;
                assert(entry_rank(q0[i].2) == fp0[c]);
                assert(qr0[0].len() == qr0[i].len());
            }
            assert forall|i: int| 0 <= i < queue@.len() implies #[trigger] qr[i] == qr0[i + 1] && queue@[i] == q0[i + 1] by {
            }
            assert forall|i: int| #![trigger queue@[i]] 0 <= i < queue@.len() implies queue@[i].2 is Some by {
                assert(q0[i + 1].2 is None ==> q0.len() == 1);
            }
            assert forall|i: int, j: int|
                0 <= i <= j < queue@.len() && #[trigger] qr[i].len() == #[trigger] qr[j].len() implies entry_rank(queue@[i].2)
                    <= entry_rank(queue@[j].2) by {
                assert(qr0[i + 1].len() == qr0[j + 1].len());
            }
            if first is Some {
                assert forall|i: int| 0 <= i < queue@.len() && #[trigger] qr[i].len() == lv + 1 implies entry_rank(queue@[i].2) <= head_rank by {
                    assert(qr0[i + 1].len() == qr0[0].len() + 1);
                }
                assert forall|i: int| 0 <= i < queue@.len() && #[trigger] qr[i].len() == lv implies entry_rank(queue@[i].2) >= head_rank by {
                    assert(qr0[0].len() == qr0[i + 1].len());
                }
            } else {
                assert(q0.len() == 1);
            }
        }
        let mut k: usize = 0;
        while k < 4
            invariant
                m == store@,
                keys == store.keys(),
                keys.finite(),
                start == pos@,
                sc.contains(start),
                lvl[start] == 0,
                sc0.subset_of(sc),
                forall|c: (int, int)| #[trigger] sc0.contains(c) ==> lvl[c] == lvl0[c],
                lvl0[start] == 0,
                sc0.contains(start),
                forall|c: (int, int)| #[trigger] sc0.contains(c) && lvl0[c] < lv ==> settled(m, sc0, lvl0, c),
                sc.contains(c0),
                sc0.contains(c0),
                in_range(c0),
                c0 == (x as int, y as int),
                walk(start, route) == c0,
                passable_route(m, start, route),
                lv == route.len(),
                lvl[c0] == lv,
                first is None <==> route.len() == 0,
                first is Some ==> route[0] == first->0,
                queue@.len() == qr.len(),
                q0.len() >= 1,
                queue@.len() >= q0.len() - 1,
                forall|i: int| 0 <= i < q0.len() - 1 ==> queue@[i] == #[trigger] q0[i + 1],
                forall|c: (int, int)| #[trigger] sc.contains(c) ==> in_range(c) && lvl.contains_key(c) && lvl[c] <= lv + 1,
                forall|c: (int, int)| in_range(c) ==> (seen@.contains(key_of(c) as i128) <==> #[trigger] sc.contains(c)),
                forall|k: i128| #[trigger] seen@.contains(k) ==> keys.contains(k) || k == key_of(start) as i128,
                forall|i: int|
                    #![trigger queue@[i]]
                    0 <= i < queue@.len() ==> {
                        let e = queue@[i];
                        let c = (e.0 as int, e.1 as int);
                        &&& walk(start, qr[i]) == c
                        &&& passable_route(m, start, qr[i])
                        &&& sc.contains(c)
                        &&& lvl[c] == qr[i].len()
                        &&& lv <= qr[i].len() <= lv + 1
                        &&& (e.2 is None <==> qr[i].len() == 0)
                        &&& (e.2 is Some ==> qr[i][0] == e.2->0)
                    },
                forall|i: int, j: int| 0 <= i <= j < queue@.len() ==> #[trigger] qr[i].len() <= #[trigger] qr[j].len(),
                forall|c: (int, int)| #[trigger] sc.contains(c) && !sc0.contains(c) ==> in_queue(queue@, c),
                forall|j: int| 0 <= j < k ==> {
                    let n = #[trigger] step(c0, dir_at(j));
                    m.contains_key(n) && (passable(m[n]) ==> sc.contains(n) && lvl[n] <= lv + 1)
                },
                forall|c: (int, int)|
                    #[trigger] sc0.contains(c) ==> fp0.contains_key(c) && first_rank_at_most(m, start, c, lvl0[c], fp0[c])
                        && fp[c] == fp0[c],
                forall|c: (int, int)|
                    #[trigger] sc0.contains(c) && !settled(m, sc0, lvl0, c) && lvl0[c] == lv ==> fp0[c] >= head_rank,
                head_rank == entry_rank(first),
                forall|c: (int, int)|
                    #[trigger] sc.contains(c) ==> fp.contains_key(c) && first_rank_at_most(m, start, c, lvl[c], fp[c]),
                forall|i: int|
                    #![trigger queue@[i]]
                    0 <= i < queue@.len() ==> entry_rank(queue@[i].2) == fp[(queue@[i].0 as int, queue@[i].1 as int)]
                        && queue@[i].2 is Some,
                forall|i: int, j: int|
                    0 <= i <= j < queue@.len() && #[trigger] qr[i].len() == #[trigger] qr[j].len() ==> entry_rank(queue@[i].2)
                        <= entry_rank(queue@[j].2),
                first is Some ==> forall|i: int|
                    0 <= i < queue@.len() && #[trigger] qr[i].len() == lv + 1 ==> entry_rank(queue@[i].2) <= head_rank,
                first is Some ==> forall|i: int|
                    0 <= i < queue@.len() && #[trigger] qr[i].len() == lv ==> entry_rank(queue@[i].2) >= head_rank,
                first is None ==> lv == 0 && forall|i: int|
                    0 <= i < queue@.len() ==> #[trigger] qr[i].len() == 1 && entry_rank(queue@[i].2) < k,
                k <= 4,
                5 * keys.difference(seen@).len() + queue@.len() < m0,
                keys.difference(seen@).finite(),
            decreases 4 - k,
        {
            let d = direction_at(k);
            let nx: i128 = match d {
                Direction::West => x - 1,
                Direction::East => x + 1,
                _ => x,
            };
            let ny: i128 = match d {
                Direction::North => y - 1,
                Direction::South => y + 1,
                _ => y,
            };
            let ghost n = (nx as int, ny as int);
            assert(n == step(c0, d));
            match store.tile_at(nx, ny) {
                None => {
                    let ghost full = route.push(d);
                    proof {
                        lemma_walk_push(start, route, d);
                        assert(full.drop_last() =~= route);
                        assert(reaches_unmapped(m, start, full));
                        assert forall|other: Seq<Direction>| #[trigger] reaches_unmapped(m, start, other)
                            implies full.len() <= other.len() by {
                            if other.len() <= lv {
                                let p = other.drop_last();
                                lemma_route_stays(m, start, p, sc0, lvl0, lv);
                                lemma_walk_push(start, p, other.last());
                                assert(p.push(other.last()) =~= other);
                                assert(settled(m, sc0, lvl0, walk(start, p)));
                                assert(m.contains_key(step(walk(start, p), other.last())));
                            }
                        }
                    }
                    let res = match first {
                        Some(f) => f,
                        None => d,
                    };
                    assert(full[0] == res);
                    proof {
                        assert forall|other: Seq<Direction>|
                            #[trigger] reaches_unmapped(m, start, other) && other.len() == full.len() implies prio(res)
                            <= prio(other[0]) by {
                            let p = other.drop_last();
                            lemma_route_stays(m, start, p, sc0, lvl0, lv);
                            let c2 = walk(start, p);
                            lemma_walk_push(start, p, other.last());
                            assert(p.push(other.last()) =~= other);
                            if settled(m, sc0, lvl0, c2) {
                                assert(m.contains_key(step(c2, other.last())));
                            }
                            if lv >= 1 {
                                assert(p[0] == other[0]);
                                assert(first_rank_at_most(m, start, c2, lvl0[c2], fp0[c2]));
                                assert(passable_route(m, start, p) && walk(start, p) == c2);
                            } else {
                                assert(p =~= Seq::<Direction>::empty());
                                let j = prio(other[0]);
                                assert(dir_at(j) == other[0]);
                                if j < k {
                                    assert(step(c0, dir_at(j)) == step(c2, other.last()));
                                }
                            }
                        }
                    }
                    assert(shortest_with_first(m, start, full, res));
                    return Ok(res);
                },
                Some(t) => {
                    if is_passable(t) {
                        let nk = key_at(nx, ny);
                        if !seen.contains(&nk) {
                            let ghost full = route.push(d);
                            let ghost seen0 = seen@;
                            proof {
                                lemma_route_push(m, start, route, d);
                                lemma_set_diff_insert(keys, seen0, nk);
                            }
                            seen.insert(nk);
                            let nf = match first {
                                Some(f) => Some(f),
                                None => Some(d),
                            };
                            let ghost qprev = queue@;
                            let ghost qrprev = qr;
                            let ghost scprev = sc;
                            let ghost lvlprev = lvl;
                            let ghost fpprev = fp;
                            let ghost newrank = entry_rank(nf);
                            queue.push_back((nx, ny, nf));
                            proof {
                                assert(first is Some ==> newrank == head_rank);
                                assert(first is None ==> newrank == k);
                                assert forall|r: Seq<Direction>|
                                    #![trigger passable_route(m, start, r), walk(start, r)]
                                    passable_route(m, start, r) && r.len() == lv + 1 && lv + 1 >= 1 && walk(start, r) == n
                                    implies newrank <= prio(r[0]) by {
                                    let p = r.drop_last();
                                    lemma_route_drop_last(m, start, r);
                                    lemma_route_stays(m, start, p, sc0, lvl0, lv);
                                    let c2 = walk(start, p);
                                    assert(step(c2, r.last()) == n);
                                    if settled(m, sc0, lvl0, c2) {
                                        assert(sc0.contains(step(c2, r.last())));
                                    }
                                    if lv >= 1 {
                                        assert(p[0] == r[0]);
                                        assert(first_rank_at_most(m, start, c2, lvl0[c2], fp0[c2]));
                                        assert(passable_route(m, start, p) && walk(start, p) == c2);
                                    } else {
                                        assert(p =~= Seq::<Direction>::empty());
                                        lemma_step_injective(c0, r[0], d);
                                    }
                                }
                                fp = fp.insert(n, newrank);
                                assert(!sc.contains(n));
                                sc = sc.insert(n);
                                lvl = lvl.insert(n, lv + 1);
                                qr = qr.push(full);
                                assert(full[0] == nf->0);
                                assert forall|c: (int, int)| in_range(c) implies (seen@.contains(key_of(c) as i128) <==> #[trigger] sc.contains(c)) by {
                                    if c != n && key_of(c) as i128 == nk {
                                        lemma_key_bounds(c);
                                        lemma_key_bounds(n);
                                        lemma_key_injective(c, n);
                                    }
                                }
                                let last = queue@.len() - 1;
                                assert(queue@[last] == (nx, ny, nf));
                                assert forall|i: int|
                                    #![trigger queue@[i]]
                                    0 <= i < queue@.len() implies {
                                        let e = queue@[i];
                                        let c = (e.0 as int, e.1 as int);
                                        &&& walk(start, qr[i]) == c
                                        &&& passable_route(m, start, qr[i])
                                        &&& sc.contains(c)
                                        &&& lvl[c] == qr[i].len()
                                        &&& lv <= qr[i].len() <= lv + 1
                                        &&& (e.2 is None <==> qr[i].len() == 0)
                                        &&& (e.2 is Some ==> qr[i][0] == e.2->0)
                                    } by {
                                    if i < last {
                                        assert(queue@[i] == qprev[i]);
                                        assert(qr[i] == qrprev[i]);
                                        let c = (qprev[i].0 as int, qprev[i].1 as int);
                                        assert(scprev.contains(c));
                                        assert(c != n);
                                    }
                                }
                                assert forall|i: int, j: int| 0 <= i <= j < queue@.len() implies #[trigger] qr[i].len() <= #[trigger] qr[j].len() by {
                                    if j < last {
                                        assert(qr[i] == qrprev[i]);
                                        assert(qr[j] == qrprev[j]);
                                    } else if i < last {
                                        assert(queue@[i] == qprev[i]);
                                        assert(qr[i] == qrprev[i]);
                                    }
                                }
                                assert forall|c: (int, int)| #[trigger] sc.contains(c) && !sc0.contains(c) implies in_queue(queue@, c) by {
                                    if c == n {
                                        assert((queue@[last].0 as int, queue@[last].1 as int) == c);
                                    } else {
                                        assert(in_queue(qprev, c));
                                        let i = choose|i: int| 0 <= i < qprev.len() && (qprev[i].0 as int, qprev[i].1 as int) == c;
                                        assert(queue@[i] == qprev[i]);
                                    }
                                }
                                assert forall|c: (int, int)| #[trigger] sc0.contains(c) implies lvl[c] == lvl0[c] by {
                                    assert(c != n);
                                }
                                assert forall|j: int| 0 <= j < k + 1 implies {
                                    let nn = #[trigger] step(c0, dir_at(j));
                                    m.contains_key(nn) && (passable(m[nn]) ==> sc.contains(nn) && lvl[nn] <= lv + 1)
                                } by {
                                    let nn = step(c0, dir_at(j));
                                    if j < k && nn != n {
                                        assert(scprev.contains(nn) ==> lvlprev[nn] == lvl[nn]);
                                    }
                                }
                            }
                        }
                    }
                },
            }
            proof {
                assert(step(c0, dir_at(k as int)) == n);
                if m.contains_key(n) && passable(m[n]) {
                    assert(sc.contains(n));
                }
            }
            k = k + 1;
        }
        proof {
            assert forall|dd: Direction| #![trigger step(c0, dd)]
                m.contains_key(step(c0, dd)) && (passable(m[step(c0, dd)]) ==> sc.contains(step(c0, dd)) && lvl[step(c0, dd)] <= lvl[c0] + 1) by {
                let j: int = match dd {
                    Direction::North => 0,
                    Direction::South => 1,
                    Direction::West => 2,
                    Direction::East => 3,
                };
                assert(dir_at(j) == dd);
                assert(step(c0, dir_at(j)) == step(c0, dd));
            }
            assert(settled(m, sc, lvl, c0));
            assert forall|c: (int, int)| #[trigger] sc.contains(c) implies settled(m, sc, lvl, c) || in_queue(queue@, c) by {
                if sc0.contains(c) && c != c0 {
                    if settled(m, sc0, lvl0, c) {
                        assert forall|dd: Direction| #![trigger step(c, dd)]
                            m.contains_key(step(c, dd)) && (passable(m[step(c, dd)]) ==> sc.contains(step(c, dd)) && lvl[step(c, dd)] <= lvl[c] + 1) by {
                            assert(m.contains_key(step(c, dd)));
                            if passable(m[step(c, dd)]) {
                                assert(sc0.contains(step(c, dd)));
                            }
                        }
                    } else {
                        assert(in_queue(q0, c));
                        let i = choose|i: int| 0 <= i < q0.len() && (q0[i].0 as int, q0[i].1 as int) == c;
                        assert(i != 0);
                        let j = i - 1;
                        assert(queue@[j] == q0[j + 1]);
                    }
                }
            }
            if queue@.len() > 0 {
                let e0 = queue@[0];
                assert(qr[0].len() >= lv);
            }
        }
    }
    proof {
        assert forall|route: Seq<Direction>| !#[trigger] reaches_unmapped(m, start, route) by {
            if reaches_unmapped(m, start, route) {
                let p = route.drop_last();
                assert forall|c: (int, int)| #[trigger] sc.contains(c) && lvl[c] < p.len() + 1int implies settled(m, sc, lvl, c) by {
                    if !settled(m, sc, lvl, c) {
                        assert(in_queue(queue@, c));
                    }
                }
                lemma_route_stays(m, start, p, sc, lvl, p.len() + 1int);
                lemma_walk_push(start, p, route.last());
                assert(p.push(route.last()) =~= route);
                assert(settled(m, sc, lvl, walk(start, p)));
                assert(m.contains_key(step(walk(start, p), route.last())));
            }
        }
    }
    Err(ExplorationExhausted)
}

} // verus!
