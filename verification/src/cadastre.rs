//! The town snapshot: all resolved parcels plus the background seed, the
//! merge that builds a new snapshot from candidates, and the full-grid
//! renderers.
use vstd::prelude::*;
use crate::background::{self, Background};
use crate::owner::{Owner, OwnerView};
use crate::parcel::{Parcel, ParcelView};
use crate::pos::Pos;
use crate::strutil;

verus! {

/// The mapping a parcel list denotes, keyed by location: later parcels for
/// a location win.
pub open spec fn places_map(s: Seq<ParcelView>) -> Map<Pos, ParcelView>
    decreases s.len(),
{
    if s.len() == 0 {
        Map::empty()
    } else {
        places_map(s.drop_last()).insert(s.last().location, s.last())
    }
}

/// One full snapshot of the town: the resolved parcels and the background
/// seed. Snapshots are immutable; a rebuild derives a new one.
#[derive(Debug)]
pub struct Cadastre {
    pub places: Vec<Parcel>,
    pub background: Background,
}

/// The mathematical model of a snapshot: a mapping from location to
/// parcel, and the seed.
pub struct CadastreView {
    pub places: Map<Pos, ParcelView>,
    pub seed: i64,
}

impl View for Cadastre {
    type V = CadastreView;

    open spec fn view(&self) -> CadastreView {
        CadastreView {
            places: places_map(self.places@.map_values(|p: Parcel| p@)),
            seed: self.background.0,
        }
    }
}

/// A parcel list contains a location exactly when some parcel claims it.
proof fn lemma_places_map_contains(s: Seq<ParcelView>, loc: Pos)
    ensures
        places_map(s).contains_key(loc) == exists|i: int|
            0 <= i < s.len() && (#[trigger] s[i]).location == loc,
    decreases s.len(),
{
    if s.len() > 0 {
        lemma_places_map_contains(s.drop_last(), loc);
        if loc == s.last().location {
            assert(s[s.len() - 1].location == loc);
        } else {
            if exists|i: int| 0 <= i < s.drop_last().len() && (#[trigger] s.drop_last()[i]).location
                == loc {
                let i = choose|i: int|
                    0 <= i < s.drop_last().len() && (#[trigger] s.drop_last()[i]).location == loc;
                assert(s[i].location == loc);
            }
            if exists|i: int| 0 <= i < s.len() && (#[trigger] s[i]).location == loc {
                let i = choose|i: int| 0 <= i < s.len() && (#[trigger] s[i]).location == loc;
                assert(s.drop_last()[i].location == loc);
            }
        }
    }
}

impl Cadastre {
    /// Every parcel well-formed, and one parcel per location.
    pub open spec fn wf(&self) -> bool {
        &&& forall|i: int| 0 <= i < self.places@.len() ==> (#[trigger] self.places@[i]).wf()
        &&& forall|i: int, j: int|
            0 <= i < j < self.places@.len() ==> (#[trigger] self.places@[i]).location != (
            #[trigger] self.places@[j]).location
    }

    /// The parcels of the snapshot, in their stored order.
    pub open spec fn parcel_seq(&self) -> Seq<ParcelView> {
        self.places@.map_values(|p: Parcel| p@)
    }

    /// The snapshot the system bootstraps from: no parcels, seed one.
    pub fn empty() -> (r: Cadastre)
        ensures
            r@.places == Map::<Pos, ParcelView>::empty(),
            r@.seed == 1,
            r.wf(),
            r.parcel_seq().len() == 0,
    {
        let r = Cadastre { places: Vec::new(), background: Background(1) };
        proof {
            assert(r.places@.map_values(|p: Parcel| p@).len() == 0);
        }
        r
    }

    /// The parcel occupying a location, if one does.
    pub fn parcel(&self, pos: Pos) -> (r: Option<&Parcel>)
        ensures
            match r {
                Some(p) => self@.places.contains_key(pos) && self@.places[pos] == p@ && (self.wf()
                    ==> p.wf()),
                None => !self@.places.contains_key(pos),
            },
    {
        let ghost s = self.places@.map_values(|p: Parcel| p@);
        let n = self.places.len();
        let mut i: usize = n;
        proof {
            assert(s.take(n as int) =~= s);
        }
        while i > 0
            invariant
                0 <= i <= n == self.places@.len(),
                s == self.places@.map_values(|p: Parcel| p@),
                forall|m: int| i <= m < n ==> (#[trigger] s[m]).location != pos,
                places_map(s).contains_key(pos) == places_map(s.take(i as int)).contains_key(pos),
                places_map(s).contains_key(pos) ==> places_map(s)[pos] == places_map(
                    s.take(i as int),
                )[pos],
            decreases i,
        {
            proof {
                assert(s.take(i as int).last() == s[i - 1]);
                assert(s.take(i as int).drop_last() =~= s.take(i - 1));
            }
            if self.places[i - 1].location.x == pos.x && self.places[i - 1].location.y == pos.y {
                proof {
                    assert(s[i - 1].location == pos);
                    if self.wf() {
                        assert(self.places@[i - 1].wf());
                    }
                }
                return Some(&self.places[i - 1]);
            }
            proof {
                assert(s[i - 1] == self.places@[i - 1]@);
            }
            i = i - 1;
        }
        proof {
            assert(s.take(0) =~= Seq::<ParcelView>::empty());
        }
        None
    }

    /// The owner holding a location, if any parcel does.
    pub fn owner_of(&self, pos: Pos) -> (r: Option<Owner>)
        ensures
            match r {
                Some(o) => self@.places.contains_key(pos) && self@.places[pos].owner == o@,
                None => !self@.places.contains_key(pos),
            },
    {
        match self.parcel(pos) {
            Some(p) => Some(p.owner.clone()),
            None => None,
        }
    }
}

/// The owner the previous snapshot had at a location, if any: the
/// incumbent consulted by the tie-break.
pub open spec fn old_owner_at(old_places: Map<Pos, ParcelView>, loc: Pos) -> Option<OwnerView> {
    if old_places.contains_key(loc) {
        Some(old_places[loc].owner)
    } else {
        None
    }
}

/// Whether a candidate takes its location from the current occupant: an
/// empty cell is taken, a higher-priority owner wins, a lower-priority one
/// is dropped, and an equal-priority candidate wins only if it is the
/// previous snapshot's owner of that cell.
pub open spec fn wins(
    current: Map<Pos, ParcelView>,
    old_places: Map<Pos, ParcelView>,
    p: ParcelView,
) -> bool {
    if !current.contains_key(p.location) {
        true
    } else {
        let q = current[p.location];
        if crate::owner::priority_spec(p.owner) > crate::owner::priority_spec(q.owner) {
            true
        } else if crate::owner::priority_spec(p.owner) < crate::owner::priority_spec(q.owner) {
            false
        } else {
            old_owner_at(old_places, p.location) == Some(p.owner)
        }
    }
}

/// The resolved cells after one pass over the candidates: each candidate
/// claims its cell exactly when `wins` says so, the tie-break always
/// consulting the previous snapshot, never an intermediate winner.
pub open spec fn merge_places(
    old_places: Map<Pos, ParcelView>,
    cands: Seq<ParcelView>,
) -> Map<Pos, ParcelView>
    decreases cands.len(),
{
    if cands.len() == 0 {
        Map::empty()
    } else {
        let m = merge_places(old_places, cands.drop_last());
        if wins(m, old_places, cands.last()) {
            m.insert(cands.last().location, cands.last())
        } else {
            m
        }
    }
}

/// In a list of parcels with one location each, the mapping at a parcel's
/// location is that parcel.
proof fn lemma_places_map_unique_get(s: Seq<ParcelView>, i: int)
    requires
        0 <= i < s.len(),
        forall|a: int, b: int|
            0 <= a < b < s.len() ==> (#[trigger] s[a]).location != (#[trigger] s[b]).location,
    ensures
        places_map(s).contains_key(s[i].location),
        places_map(s)[s[i].location] == s[i],
    decreases s.len(),
{
    if i == s.len() - 1 {
    } else {
        assert forall|a: int, b: int|
            0 <= a < b < s.drop_last().len() implies (#[trigger] s.drop_last()[a]).location != (
        #[trigger] s.drop_last()[b]).location by {
            assert(s[a].location != s[b].location);
        }
        lemma_places_map_unique_get(s.drop_last(), i);
        assert(s.drop_last()[i] == s[i]);
        assert(s[i].location != s.last().location);
    }
}

/// Appending a parcel inserts it at its location.
proof fn lemma_places_map_push(s: Seq<ParcelView>, p: ParcelView)
    ensures
        places_map(s.push(p)) == places_map(s).insert(p.location, p),
{
    assert(s.push(p).drop_last() =~= s);
    assert(s.push(p).last() == p);
}

/// Removing the only parcel at a location and appending a new one for it
/// changes the mapping exactly as an insert does.
proof fn lemma_places_map_insert_found(s: Seq<ParcelView>, i: int, p: ParcelView)
    requires
        0 <= i < s.len(),
        s[i].location == p.location,
        forall|m: int| 0 <= m < s.len() && m != i ==> (#[trigger] s[m]).location != p.location,
    ensures
        places_map(s.remove(i).push(p)) == places_map(s).insert(p.location, p),
    decreases s.len(),
{
    lemma_places_map_push(s.remove(i), p);
    if i == s.len() - 1 {
        assert(s.remove(i) =~= s.drop_last());
        assert(places_map(s) == places_map(s.drop_last()).insert(p.location, s[i]));
        assert(places_map(s.drop_last()).insert(p.location, s[i]).insert(p.location, p)
            =~= places_map(s.drop_last()).insert(p.location, p));
    } else {
        let ddl = s.drop_last();
        let last = s.last();
        assert(last.location != p.location);
        assert(ddl[i].location == p.location);
        assert forall|m: int| 0 <= m < ddl.len() && m != i implies (#[trigger] ddl[m]).location
            != p.location by {
            assert(ddl[m] == s[m]);
        }
        lemma_places_map_insert_found(ddl, i, p);
        lemma_places_map_push(ddl.remove(i), p);
        lemma_places_map_push(ddl.remove(i), last);
        assert(s.remove(i) =~= ddl.remove(i).push(last));
        let m1 = places_map(ddl.remove(i));
        let m2 = places_map(ddl);
        assert(m1.insert(p.location, p) == m2.insert(p.location, p));
        assert(places_map(s) == m2.insert(last.location, last));
        assert(m1.insert(last.location, last).insert(p.location, p) =~= m2.insert(
            last.location,
            last,
        ).insert(p.location, p)) by {
            assert forall|x: Pos|
                m1.insert(last.location, last).insert(p.location, p).contains_key(x) == m2.insert(
                    last.location,
                    last,
                ).insert(p.location, p).contains_key(x) by {
                if x != p.location && x != last.location {
                    assert(m1.contains_key(x) == m1.insert(p.location, p).contains_key(x));
                    assert(m2.contains_key(x) == m2.insert(p.location, p).contains_key(x));
                }
            }
            assert forall|x: Pos|
                #![auto]
                m1.insert(last.location, last).insert(p.location, p).contains_key(x) implies
            m1.insert(last.location, last).insert(p.location, p)[x] == m2.insert(
                last.location,
                last,
            ).insert(p.location, p)[x] by {
                if x != p.location && x != last.location {
                    assert(m1[x] == m1.insert(p.location, p)[x]);
                    assert(m2[x] == m2.insert(p.location, p)[x]);
                }
            }
        }
    }
}

impl Cadastre {
    /// Builds a new snapshot from the previous one and a pass over the
    /// candidate parcels, resolving every conflict by owner priority with
    /// the previous snapshot's owner breaking ties, and advances the seed
    /// once.
    pub fn build(old: &Cadastre, parcels: Vec<Parcel>) -> (r: Cadastre)
        ensures
            r@.places == merge_places(old@.places, parcels@.map_values(|p: Parcel| p@)),
            r@.seed == background::next_seed(old@.seed),
            (forall|i: int| 0 <= i < parcels@.len() ==> (#[trigger] parcels@[i]).wf()) ==> r.wf(),
    {
        let ghost all = parcels@;
        let ghost cands = parcels@.map_values(|p: Parcel| p@);
        let ghost oldm = old@.places;
        let mut places: Vec<Parcel> = Vec::new();
        let mut rest = parcels;
        let ghost total = cands.len();
        proof {
            assert(rest@ =~= all.skip(0));
            assert(places@.map_values(|p: Parcel| p@) =~= Seq::<ParcelView>::empty());
            assert(cands.take(0) =~= Seq::<ParcelView>::empty());
        }
        while rest.len() > 0
            invariant
                rest@.len() <= total == cands.len() == all.len(),
                cands == all.map_values(|p: Parcel| p@),
                rest@ == all.skip(total - rest@.len()),
                oldm == old@.places,
                (forall|i: int| 0 <= i < all.len() ==> (#[trigger] all[i]).wf()) ==> (forall|
                    i: int,
                |
                    0 <= i < places@.len() ==> (#[trigger] places@[i]).wf()),
                forall|a: int, b: int|
                    0 <= a < b < places@.len() ==> (#[trigger] places@[a])@.location != (
                #[trigger] places@[b])@.location,
                places_map(places@.map_values(|p: Parcel| p@)) == merge_places(
                    oldm,
                    cands.take(total - rest@.len()),
                ),
            decreases rest@.len(),
        {
            let ghost k = total - rest@.len();
            let ghost pv = places@.map_values(|p: Parcel| p@);
            let ghost rest0 = rest@;
            let p = rest.remove(0);
            proof {
                assert(p == all.skip(k)[0]);
                assert(p == all[k]);
                assert(p@ == cands[k]);
                assert(rest@ =~= all.skip(k).drop_first());
                assert(all.skip(k).drop_first() =~= all.skip(k + 1));
            }
            let key = p.location;
            // look for a current occupant of the candidate's cell
            let mut found: Option<usize> = None;
            let n = places.len();
            let mut i: usize = 0;
            while i < n
                invariant
                    0 <= i <= n == places@.len(),
                    pv == places@.map_values(|q: Parcel| q@),
                    match found {
                        Some(f) => f < n && pv[f as int].location == key,
                        None => forall|m: int| 0 <= m < i ==> (#[trigger] pv[m]).location != key,
                    },
                decreases n - i,
            {
                if found.is_none() && places[i].location.x == key.x && places[i].location.y
                    == key.y {
                    proof {
                        assert(pv[i as int] == places@[i as int]@);
                    }
                    found = Some(i);
                }
                proof {
                    assert(pv[i as int] == places@[i as int]@);
                }
                i = i + 1;
            }
            let can_claim: bool = match found {
                None => true,
                Some(f) => {
                    let pp = p.owner.priority();
                    let qp = places[f].owner.priority();
                    if pp > qp {
                        true
                    } else if pp < qp {
                        false
                    } else {
                        match old.owner_of(key) {
                            Some(o) => o == p.owner,
                            None => false,
                        }
                    }
                },
            };
            proof {
                let m = places_map(pv);
                lemma_places_map_contains(pv, key);
                match found {
                    Some(f) => {
                        lemma_places_map_unique_get(pv, f as int);
                        assert(m.contains_key(key));
                        assert(m[key] == pv[f as int]);
                    },
                    None => {
                        assert(!m.contains_key(key));
                    },
                }
                assert(can_claim == wins(m, oldm, p@));
            }
            if can_claim {
                match found {
                    Some(f) => {
                        proof {
                            assert forall|m: int|
                                0 <= m < pv.len() && m != f implies (#[trigger] pv[m]).location
                                != key by {
                                if m < f {
                                    assert(pv[m].location != pv[f as int].location);
                                } else {
                                    assert(pv[f as int].location != pv[m].location);
                                }
                            }
                            lemma_places_map_insert_found(pv, f as int, p@);
                        }
                        let ghost places0 = places@;
                        places.remove(f);
                        places.push(p);
                        proof {
                            let pv2 = places@.map_values(|q: Parcel| q@);
                            assert(pv2 =~= pv.remove(f as int).push(p@));
                            assert forall|a: int, b: int|
                                0 <= a < b < places@.len() implies (
                            #[trigger] places@[a])@.location != (
                            #[trigger] places@[b])@.location by {
                                let a0 = if a < f { a } else { a + 1 };
                                if b == places@.len() - 1 {
                                    assert(pv2[a] == pv[a0]);
                                    assert(pv[a0].location != key);
                                } else {
                                    let b0 = if b < f { b } else { b + 1 };
                                    assert(pv2[a] == pv[a0]);
                                    assert(pv2[b] == pv[b0]);
                                    if a0 < b0 {
                                        assert(pv[a0].location != pv[b0].location);
                                    } else if b0 < a0 {
                                        assert(pv[b0].location != pv[a0].location);
                                    }
                                }
                            }
                            if forall|i2: int| 0 <= i2 < all.len() ==> (#[trigger] all[i2]).wf() {
                                assert(all[k].wf());
                                assert forall|i2: int| 0 <= i2 < places@.len() implies (
                                #[trigger] places@[i2]).wf() by {
                                    if i2 < places@.len() - 1 {
                                        let i0 = if i2 < f { i2 } else { i2 + 1 };
                                        assert(places@[i2] == places0[i0]);
                                    }
                                }
                            }
                        }
                    },
                    None => {
                        let ghost places0 = places@;
                        places.push(p);
                        proof {
                            let pv2 = places@.map_values(|q: Parcel| q@);
                            assert(pv2 =~= pv.push(p@));
                            lemma_places_map_push(pv, p@);
                            if forall|i2: int| 0 <= i2 < all.len() ==> (#[trigger] all[i2]).wf() {
                                assert(all[k].wf());
                                assert forall|i2: int| 0 <= i2 < places@.len() implies (
                                #[trigger] places@[i2]).wf() by {
                                    if i2 < places@.len() - 1 {
                                        assert(places@[i2] == places0[i2]);
                                    }
                                }
                            }
                            assert forall|a: int, b: int|
                                0 <= a < b < places@.len() implies (
                            #[trigger] places@[a])@.location != (
                            #[trigger] places@[b])@.location by {
                                if b == places@.len() - 1 {
                                    assert(places@[a]@ == pv[a]);
                                    assert(pv[a].location != key);
                                } else {
                                    assert(places@[a] == places0[a]);
                                    assert(places@[b] == places0[b]);
                                }
                            }
                        }
                    },
                }
            }
            proof {
                assert(cands.take(k + 1).drop_last() =~= cands.take(k));
                assert(cands.take(k + 1).last() == cands[k]);
                assert(places_map(places@.map_values(|q: Parcel| q@)) == merge_places(
                    oldm,
                    cands.take(k + 1),
                ));
            }
        }
        proof {
            assert(cands.take(total as int) =~= cands);
        }
        let background = old.background.next();
        Cadastre { places, background }
    }
}

/// Priority always decides: whatever the candidates' order, a cell with
/// any candidate ends occupied, its occupant is one of its candidates, and
/// no candidate for it outranks the occupant — so with unequal priorities
/// the higher-priority owner always wins.
pub proof fn lemma_merge_priority(
    old_places: Map<Pos, ParcelView>,
    cands: Seq<ParcelView>,
    loc: Pos,
)
    ensures
        (exists|i: int| 0 <= i < cands.len() && (#[trigger] cands[i]).location == loc)
            <==> merge_places(old_places, cands).contains_key(loc),
        merge_places(old_places, cands).contains_key(loc) ==> exists|i: int|
            0 <= i < cands.len() && (#[trigger] cands[i]).location == loc && cands[i]
                == merge_places(old_places, cands)[loc],
        forall|i: int|
            0 <= i < cands.len() && (#[trigger] cands[i]).location == loc
                ==> crate::owner::priority_spec(cands[i].owner) <= crate::owner::priority_spec(
                merge_places(old_places, cands)[loc].owner,
            ),
    decreases cands.len(),
{
    if cands.len() > 0 {
        let ddl = cands.drop_last();
        let last = cands.last();
        lemma_merge_priority(old_places, ddl, loc);
        let m = merge_places(old_places, ddl);
        let mm = merge_places(old_places, cands);
        assert forall|i: int| 0 <= i < ddl.len() implies ddl[i] == cands[i] by {}
        if last.location == loc {
            assert(cands[cands.len() - 1].location == loc);
            if wins(m, old_places, last) {
                assert(mm == m.insert(loc, last));
                assert(mm[loc] == last);
                assert forall|i: int|
                    0 <= i < cands.len() && (#[trigger] cands[i]).location == loc implies
                crate::owner::priority_spec(cands[i].owner) <= crate::owner::priority_spec(
                    mm[loc].owner,
                ) by {
                    if i < cands.len() - 1 {
                        assert(ddl[i].location == loc);
                        assert(m.contains_key(loc));
                        assert(crate::owner::priority_spec(ddl[i].owner)
                            <= crate::owner::priority_spec(m[loc].owner));
                        assert(crate::owner::priority_spec(m[loc].owner)
                            <= crate::owner::priority_spec(last.owner));
                    }
                }
            } else {
                assert(mm == m);
                assert(m.contains_key(loc));
                assert(crate::owner::priority_spec(last.owner) <= crate::owner::priority_spec(
                    m[loc].owner,
                ));
                let w = choose|i: int|
                    0 <= i < ddl.len() && (#[trigger] ddl[i]).location == loc && ddl[i] == m[loc];
                assert(cands[w].location == loc && cands[w] == mm[loc]);
            }
        } else {
            if wins(m, old_places, last) {
                assert(mm == m.insert(last.location, last));
                assert(mm.contains_key(loc) == m.contains_key(loc));
                assert(m.contains_key(loc) ==> mm[loc] == m[loc]);
            } else {
                assert(mm == m);
            }
            if exists|i: int| 0 <= i < cands.len() && (#[trigger] cands[i]).location == loc {
                let i = choose|i: int| 0 <= i < cands.len() && (#[trigger] cands[i]).location == loc;
                assert(ddl[i].location == loc);
            }
            if m.contains_key(loc) {
                let w = choose|i: int|
                    0 <= i < ddl.len() && (#[trigger] ddl[i]).location == loc && ddl[i] == m[loc];
                assert(cands[w].location == loc && cands[w] == mm[loc]);
            }
        }
    }
}

/// Tenancy decides ties: when some candidate for a cell carries the
/// previous snapshot's owner of that cell, and no candidate outranks that
/// owner, the previous owner keeps the cell — whatever order the
/// candidates come in.
pub proof fn lemma_merge_tenancy(old_places: Map<Pos, ParcelView>, cands: Seq<ParcelView>, loc: Pos)
    requires
        old_places.contains_key(loc),
        exists|i: int|
            0 <= i < cands.len() && (#[trigger] cands[i]).location == loc && cands[i].owner
                == old_places[loc].owner,
        forall|j: int|
            0 <= j < cands.len() && (#[trigger] cands[j]).location == loc
                ==> crate::owner::priority_spec(cands[j].owner) <= crate::owner::priority_spec(
                old_places[loc].owner,
            ),
    ensures
        merge_places(old_places, cands).contains_key(loc),
        merge_places(old_places, cands)[loc].owner == old_places[loc].owner,
    decreases cands.len(),
{
    let inc = old_places[loc].owner;
    let ddl = cands.drop_last();
    let last = cands.last();
    let m = merge_places(old_places, ddl);
    let mm = merge_places(old_places, cands);
    assert(cands.len() > 0);
    assert forall|i: int| 0 <= i < ddl.len() implies ddl[i] == cands[i] by {}
    if last.location == loc && last.owner == inc {
        if m.contains_key(loc) {
            lemma_merge_priority(old_places, ddl, loc);
            let w = choose|i: int|
                0 <= i < ddl.len() && (#[trigger] ddl[i]).location == loc && ddl[i] == m[loc];
            assert(cands[w].location == loc);
            assert(crate::owner::priority_spec(m[loc].owner) <= crate::owner::priority_spec(inc));
            assert(wins(m, old_places, last));
        } else {
            assert(wins(m, old_places, last));
        }
        assert(mm == m.insert(loc, last));
    } else {
        let i = choose|i: int|
            0 <= i < cands.len() && (#[trigger] cands[i]).location == loc && cands[i].owner == inc;
        assert(i < cands.len() - 1);
        assert(ddl[i].location == loc && ddl[i].owner == inc);
        assert forall|j: int|
            0 <= j < ddl.len() && (#[trigger] ddl[j]).location == loc implies
        crate::owner::priority_spec(ddl[j].owner) <= crate::owner::priority_spec(inc) by {
            assert(cands[j].location == loc);
        }
        lemma_merge_tenancy(old_places, ddl, loc);
        if last.location == loc {
            assert(crate::owner::priority_spec(last.owner) <= crate::owner::priority_spec(inc));
            assert(m[loc].owner == inc);
            if crate::owner::priority_spec(last.owner) == crate::owner::priority_spec(inc) {
                assert(old_owner_at(old_places, loc) == Some(inc));
                assert(last.owner != inc);
                assert(!wins(m, old_places, last));
            } else {
                assert(!wins(m, old_places, last));
            }
            assert(mm == m);
        } else {
            if wins(m, old_places, last) {
                assert(mm == m.insert(last.location, last));
                assert(mm[loc] == m[loc]);
            } else {
                assert(mm == m);
            }
        }
    }
}

impl PartialEq for Cadastre {
    fn eq(&self, other: &Cadastre) -> (r: bool) {
        if !(self.background.0 == other.background.0) {
            return false;
        }
        let n = self.places.len();
        let mut i: usize = 0;
        while i < n
            invariant
                0 <= i <= n == self.places@.len(),
                forall|m: int|
                    0 <= m < i ==> {
                        let loc = (#[trigger] self.places@[m])@.location;
                        &&& other@.places.contains_key(loc)
                        &&& self@.places.contains_key(loc)
                        &&& other@.places[loc] == self@.places[loc]
                    },
            decreases n - i,
        {
            let loc = self.places[i].location;
            proof {
                let s = self.places@.map_values(|p: Parcel| p@);
                lemma_places_map_contains(s, loc);
                assert(s[i as int].location == loc);
            }
            let mine = self.parcel(loc);
            let theirs = other.parcel(loc);
            match (mine, theirs) {
                (Some(a), Some(b)) => {
                    if !(*a == *b) {
                        return false;
                    }
                },
                _ => {
                    return false;
                },
            }
            i = i + 1;
        }
        let m = other.places.len();
        let mut j: usize = 0;
        while j < m
            invariant
                0 <= j <= m == other.places@.len(),
                forall|l: int|
                    0 <= l < j ==> self@.places.contains_key(
                        (#[trigger] other.places@[l])@.location,
                    ),
            decreases m - j,
        {
            let loc = other.places[j].location;
            proof {
                let s = other.places@.map_values(|p: Parcel| p@);
                lemma_places_map_contains(s, loc);
                assert(s[j as int].location == loc);
            }
            match self.parcel(loc) {
                Some(_) => {},
                None => {
                    return false;
                },
            }
            j = j + 1;
        }
        proof {
            let sm = self.places@.map_values(|p: Parcel| p@);
            let om = other.places@.map_values(|p: Parcel| p@);
            assert(self@.places =~= other@.places) by {
                assert forall|x: Pos|
                    self@.places.contains_key(x) == other@.places.contains_key(x) by {
                    lemma_places_map_contains(sm, x);
                    lemma_places_map_contains(om, x);
                    if self@.places.contains_key(x) {
                        let i0 = choose|i0: int|
                            0 <= i0 < sm.len() && (#[trigger] sm[i0]).location == x;
                        assert(self.places@[i0]@.location == x);
                    }
                    if other@.places.contains_key(x) {
                        let j0 = choose|j0: int|
                            0 <= j0 < om.len() && (#[trigger] om[j0]).location == x;
                        assert(other.places@[j0]@.location == x);
                    }
                }
                assert forall|x: Pos| self@.places.contains_key(x) implies self@.places[x]
                    == other@.places[x] by {
                    lemma_places_map_contains(sm, x);
                    let i0 = choose|i0: int| 0 <= i0 < sm.len() && (#[trigger] sm[i0]).location == x;
                    assert(self.places@[i0]@.location == x);
                }
            }
        }
        true
    }
}

impl Eq for Cadastre {

}

impl vstd::std_specs::cmp::PartialEqSpecImpl for Cadastre {
    open spec fn obeys_eq_spec() -> bool {
        true
    }

    open spec fn eq_spec(&self, other: &Cadastre) -> bool {
        self@.places == other@.places && self@.seed == other@.seed
    }
}

/// A location as a snapshot file keys it: the two coordinates in decimal,
/// joined by a comma, no whitespace.
pub open spec fn key_string(p: Pos) -> Seq<char> {
    strutil::i64_dec_spec(p.x) + seq![','] + strutil::i64_dec_spec(p.y)
}

/// Length of the prefix before the first comma, or of the whole text.
pub open spec fn comma_split(s: Seq<char>) -> nat
    decreases s.len(),
{
    if s.len() == 0 || s[0] == ',' {
        0
    } else {
        1 + comma_split(s.drop_first())
    }
}

proof fn lemma_comma_split_boundary(s: Seq<char>, k: int)
    requires
        0 <= k <= s.len(),
        forall|m: int| 0 <= m < k ==> s[m] != ',',
        k == s.len() || s[k] == ',',
    ensures
        comma_split(s) == k,
    decreases k,
{
    if k > 0 {
        assert(s.drop_first() =~= s.skip(1));
        lemma_comma_split_boundary(s.skip(1), k - 1);
    }
}

/// The location a key string denotes: the text before the first comma and
/// the text after it, each a well-formed 64-bit integer.
pub open spec fn key_parse_spec(s: Seq<char>) -> Option<Pos> {
    let k = comma_split(s) as int;
    if k == s.len() {
        None
    } else {
        let xs = strutil::parse_i64_spec(s.take(k));
        let ys = strutil::parse_i64_spec(s.skip(k + 1));
        if xs is Some && ys is Some {
            Some(Pos { x: xs->0, y: ys->0 })
        } else {
            None
        }
    }
}

/// A location in the form snapshot files key parcels by.
#[derive(Debug, Hash, PartialEq, Eq, Structural, Clone, Copy)]
pub struct PosKey(pub Pos);

impl PosKey {
    pub fn new(x: i64, y: i64) -> (r: Self)
        ensures
            r == (PosKey(Pos { x, y })),
    {
        PosKey(Pos { x, y })
    }

    pub fn from_pos(pos: Pos) -> (r: Self)
        ensures
            r == (PosKey(pos)),
    {
        PosKey(pos)
    }

    /// The key as text: "x,y".
    pub fn to_text(&self) -> (r: String)
        ensures
            r@ == key_string(self.0),
    {
        let xs = strutil::i64_to_string(self.0.x);
        let ys = strutil::i64_to_string(self.0.y);
        let mut v = strutil::chars_of(xs.as_str());
        v.push(',');
        let ycs = strutil::chars_of(ys.as_str());
        let mut i: usize = 0;
        while i < ycs.len()
            invariant
                0 <= i <= ycs@.len(),
                ycs@ == strutil::i64_dec_spec(self.0.y),
                v@ =~= strutil::i64_dec_spec(self.0.x) + seq![','] + ycs@.take(i as int),
            decreases ycs@.len() - i,
        {
            v.push(ycs[i]);
            i = i + 1;
        }
        proof {
            assert(v@ =~= key_string(self.0));
        }
        strutil::string_of(&v)
    }

    /// The key a piece of text denotes, if it is one.
    pub fn parse(s: &str) -> (r: Option<PosKey>)
        ensures
            match r {
                Some(k) => key_parse_spec(s@) == Some(k.0),
                None => key_parse_spec(s@) is None,
            },
    {
        let cs = strutil::chars_of(s);
        let n = cs.len();
        let mut k: usize = 0;
        while k < n && cs[k] != ','
            invariant
                0 <= k <= n == s@.len(),
                cs@ == s@,
                forall|m: int| 0 <= m < k ==> s@[m] != ',',
            decreases n - k,
        {
            k = k + 1;
        }
        proof {
            lemma_comma_split_boundary(s@, k as int);
        }
        if k == n {
            return None;
        }
        let mut xs: Vec<char> = Vec::new();
        let mut i: usize = 0;
        while i < k
            invariant
                0 <= i <= k < n == s@.len(),
                cs@ == s@,
                xs@ =~= s@.take(k as int).take(i as int),
            decreases k - i,
        {
            xs.push(cs[i]);
            i = i + 1;
        }
        let mut ys: Vec<char> = Vec::new();
        let mut j: usize = k + 1;
        while j < n
            invariant
                k + 1 <= j <= n,
                n == s@.len(),
                k < n,
                cs@ == s@,
                ys@ =~= s@.skip(k + 1).take(j - k - 1),
            decreases n - j,
        {
            ys.push(cs[j]);
            j = j + 1;
        }
        proof {
            assert(xs@ =~= s@.take(k as int));
            assert(ys@ =~= s@.skip(k + 1));
        }
        let xv = strutil::parse_i64_chars(&xs);
        let yv = strutil::parse_i64_chars(&ys);
        match (xv, yv) {
            (Some(x), Some(y)) => Some(PosKey(Pos { x, y })),
            _ => None,
        }
    }
}

/// Reading back the key text of a location yields the location.
pub proof fn lemma_key_round_trip(p: Pos)
    ensures
        key_parse_spec(key_string(p)) == Some(p),
{
    let s = key_string(p);
    let xlen = strutil::i64_dec_spec(p.x).len() as int;
    strutil::lemma_i64_dec_chars(p.x);
    strutil::lemma_i64_dec_chars(p.y);
    assert forall|m: int| 0 <= m < xlen implies s[m] != ',' by {
        assert(s[m] == strutil::i64_dec_spec(p.x)[m]);
        assert(strutil::is_digit(s[m]) || s[m] == '-');
    }
    assert(s[xlen] == ',');
    lemma_comma_split_boundary(s, xlen);
    assert(s.take(xlen) =~= strutil::i64_dec_spec(p.x));
    assert(s.skip(xlen + 1) =~= strutil::i64_dec_spec(p.y));
    strutil::lemma_parse_i64_round_trip(p.x);
    strutil::lemma_parse_i64_round_trip(p.y);
}

/// A parcel as a snapshot file carries it: plain strings and vectors,
/// ready for a mechanical mapping to a serialized document.
#[derive(Debug)]
pub struct ParcelRecord {
    pub owner: Option<String>,
    pub location: (i64, i64),
    pub art: Vec<String>,
    pub linkmask: Option<Vec<String>>,
    pub links: Vec<(String, String)>,
}

/// The mathematical model of a stored parcel.
pub struct ParcelRecordView {
    pub owner: Option<Seq<char>>,
    pub location: (i64, i64),
    pub art: Seq<Seq<char>>,
    pub linkmask: Option<Seq<Seq<char>>>,
    pub links: Seq<(Seq<char>, Seq<char>)>,
}

impl View for ParcelRecord {
    type V = ParcelRecordView;

    open spec fn view(&self) -> ParcelRecordView {
        ParcelRecordView {
            owner: match self.owner {
                Some(ref s) => Some(s@),
                None => None,
            },
            location: self.location,
            art: self.art@.map_values(|s: String| s@),
            linkmask: match self.linkmask {
                Some(ref m) => Some(m@.map_values(|s: String| s@)),
                None => None,
            },
            links: self.links@.map_values(|e: (String, String)| (e.0@, e.1@)),
        }
    }
}

/// A whole snapshot as a snapshot file carries it: parcels keyed by their
/// location's text form, and the seed.
#[derive(Debug)]
pub struct TownRecord {
    pub places: Vec<(String, ParcelRecord)>,
    pub seed: i64,
}

/// The mathematical model of a stored snapshot.
pub struct TownRecordView {
    pub places: Seq<(Seq<char>, ParcelRecordView)>,
    pub seed: i64,
}

impl View for TownRecord {
    type V = TownRecordView;

    open spec fn view(&self) -> TownRecordView {
        TownRecordView {
            places: self.places@.map_values(|e: (String, ParcelRecord)| (e.0@, e.1@)),
            seed: self.seed,
        }
    }
}

/// The stored form of one parcel: owner in its serialized form, the
/// location as a pair, the art rows, the mask always written, each link
/// key as a one-character string.
pub open spec fn parcel_record_spec(p: Parcel) -> ParcelRecordView {
    ParcelRecordView {
        owner: crate::owner::owner_repr_spec(p.owner@),
        location: (p.location.x, p.location.y),
        art: p.art@.map_values(|s: String| s@),
        linkmask: Some(p.mask@.map_values(|s: String| s@)),
        links: p.links.entries@.map_values(|e: (char, String)| (seq![e.0], e.1@)),
    }
}

/// The stored form of a whole snapshot: each parcel keyed by its
/// location's text form, in the snapshot's stored order, plus the seed.
pub open spec fn town_record_spec(c: Cadastre) -> TownRecordView {
    TownRecordView {
        places: c.places@.map_values(
            |p: Parcel| (key_string(p.location), parcel_record_spec(p)),
        ),
        seed: c.background.0,
    }
}

/// The parcel a stored record denotes, if it is valid: the key must parse
/// and agree with the stored location, both grids must have the fixed
/// dimensions, every link key must be a single character; a missing mask
/// reads as the art, and the owner sentinel reads as `Admin`.
pub open spec fn record_parcel_spec(key: Seq<char>, r: ParcelRecordView) -> Option<ParcelView> {
    match key_parse_spec(key) {
        None => None,
        Some(loc) => {
            if (loc.x, loc.y) != r.location {
                None
            } else if !crate::parcel::grid_wf(r.art) {
                None
            } else {
                let mask_ok = match r.linkmask {
                    Some(m) => crate::parcel::grid_wf(m),
                    None => true,
                };
                let mask = match r.linkmask {
                    Some(m) => m,
                    None => r.art,
                };
                if !mask_ok {
                    None
                } else if !(forall|i: int|
                    0 <= i < r.links.len() ==> (#[trigger] r.links[i]).0.len() == 1) {
                    None
                } else {
                    Some(
                        ParcelView {
                            owner: crate::owner::owner_from_repr_spec(r.owner),
                            location: loc,
                            art: r.art,
                            mask,
                            links: crate::parcel::links_map(
                                r.links.map_values(|e: (Seq<char>, Seq<char>)| (e.0[0], e.1)),
                            ),
                        },
                    )
                }
            }
        },
    }
}

/// The parcels a stored snapshot denotes, in order, if every record is
/// valid and no two records claim one location.
pub open spec fn record_places_spec(entries: Seq<(Seq<char>, ParcelRecordView)>) -> Option<
    Seq<ParcelView>,
>
    decreases entries.len(),
{
    if entries.len() == 0 {
        Some(Seq::empty())
    } else {
        match record_places_spec(entries.drop_last()) {
            None => None,
            Some(done) => match record_parcel_spec(entries.last().0, entries.last().1) {
                None => None,
                Some(pv) => {
                    if exists|i: int| 0 <= i < done.len() && (#[trigger] done[i]).location
                        == pv.location {
                        None
                    } else {
                        Some(done.push(pv))
                    }
                },
            },
        }
    }
}

/// Once a prefix of the stored entries is invalid, the whole snapshot is.
proof fn lemma_record_places_none_prefix(entries: Seq<(Seq<char>, ParcelRecordView)>, k: int)
    requires
        0 <= k <= entries.len(),
        record_places_spec(entries.take(k)) is None,
    ensures
        record_places_spec(entries) is None,
    decreases entries.len() - k,
{
    if k < entries.len() {
        assert(entries.take(k + 1).drop_last() =~= entries.take(k));
        lemma_record_places_none_prefix(entries, k + 1);
    } else {
        assert(entries.take(k) =~= entries);
    }
}

/// Whether both grids have exactly the fixed dimensions, counted in
/// characters.
fn grid_ok(g: &Vec<String>) -> (r: bool)
    ensures
        r == crate::parcel::grid_wf(g@.map_values(|s: String| s@)),
{
    let ghost gv = g@.map_values(|s: String| s@);
    if g.len() != 12 {
        return false;
    }
    let mut i: usize = 0;
    while i < 12
        invariant
            0 <= i <= 12,
            gv == g@.map_values(|s: String| s@),
            gv.len() == g@.len() == 12,
            forall|m: int| 0 <= m < i ==> (#[trigger] gv[m]).len() == 24,
        decreases 12 - i,
    {
        let row = strutil::chars_of(g[i].as_str());
        if row.len() != 24 {
            proof {
                assert(gv[i as int] == g@[i as int]@);
            }
            return false;
        }
        proof {
            assert(gv[i as int] == g@[i as int]@);
        }
        i = i + 1;
    }
    true
}

impl Cadastre {
    /// The snapshot in its stored form, ready to be written out.
    pub fn to_record(&self) -> (r: TownRecord)
        ensures
            r@ == town_record_spec(*self),
    {
        let mut entries: Vec<(String, ParcelRecord)> = Vec::new();
        let n = self.places.len();
        let mut i: usize = 0;
        while i < n
            invariant
                0 <= i <= n == self.places@.len(),
                entries@.map_values(|e: (String, ParcelRecord)| (e.0@, e.1@)) =~= self.places@.map_values(
                    |p: Parcel| (key_string(p.location), parcel_record_spec(p)),
                ).take(i as int),
            decreases n - i,
        {
            let p = &self.places[i];
            let key = PosKey::from_pos(p.location).to_text();
            let owner = p.owner.to_repr();
            let art = crate::parcel::clone_grid(&p.art);
            let linkmask = Some(crate::parcel::clone_grid(&p.mask));
            let mut links: Vec<(String, String)> = Vec::new();
            let ln = p.links.entries.len();
            let mut j: usize = 0;
            while j < ln
                invariant
                    0 <= j <= ln == p.links.entries@.len(),
                    links@.map_values(|e: (String, String)| (e.0@, e.1@))
                        =~= p.links.entries@.map_values(
                        |e: (char, String)| (seq![e.0], e.1@),
                    ).take(j as int),
                decreases ln - j,
            {
                let mut kv: Vec<char> = Vec::new();
                kv.push(p.links.entries[j].0);
                let ks = strutil::string_of(&kv);
                let url = p.links.entries[j].1.clone();
                proof {
                    assert(ks@ =~= seq![p.links.entries@[j as int].0]);
                    let f = |e: (String, String)| (e.0@, e.1@);
                    let g2 = |e: (char, String)| (seq![e.0], e.1@);
                    assert(links@.push((ks, url)).map_values(f) =~= links@.map_values(f).push(
                        (ks@, url@),
                    ));
                    assert(p.links.entries@.map_values(g2).take(j + 1)
                        =~= p.links.entries@.map_values(g2).take(j as int).push(
                        g2(p.links.entries@[j as int]),
                    ));
                }
                links.push((ks, url));
                j = j + 1;
            }
            proof {
                let g2 = |e: (char, String)| (seq![e.0], e.1@);
                assert(p.links.entries@.map_values(g2).take(ln as int) =~= p.links.entries@.map_values(
                    g2,
                ));
            }
            let rec = ParcelRecord { owner, location: (p.location.x, p.location.y), art, linkmask, links };
            proof {
                assert(rec@.owner == crate::owner::owner_repr_spec(p.owner@));
                assert(rec@ =~~= parcel_record_spec(self.places@[i as int]));
                let f = |e: (String, ParcelRecord)| (e.0@, e.1@);
                let g2 = |p2: Parcel| (key_string(p2.location), parcel_record_spec(p2));
                assert(entries@.push((key, rec)).map_values(f) =~= entries@.map_values(f).push(
                    (key@, rec@),
                ));
                assert(self.places@.map_values(g2).take(i + 1) =~= self.places@.map_values(
                    g2,
                ).take(i as int).push(g2(self.places@[i as int])));
            }
            entries.push((key, rec));
            i = i + 1;
        }
        proof {
            let f = |e: (String, ParcelRecord)| (e.0@, e.1@);
            let g2 = |p2: Parcel| (key_string(p2.location), parcel_record_spec(p2));
            assert(self.places@.map_values(g2).take(n as int) =~= self.places@.map_values(g2));
        }
        TownRecord { places: entries, seed: self.background.0 }
    }

    /// The snapshot a stored record denotes, if every parcel record is
    /// valid and no two claim one location.
    #[verifier::loop_isolation(false)]
    #[verifier::rlimit(100)]
    pub fn from_record(rec: &TownRecord) -> (r: Option<Cadastre>)
        ensures
            match r {
                Some(c) => {
                    &&& record_places_spec(rec@.places) == Some(
                        c.places@.map_values(|p: Parcel| p@),
                    )
                    &&& c.background.0 == rec.seed
                    &&& c.wf()
                },
                None => record_places_spec(rec@.places) is None,
            },
    {
        let ghost ev = rec.places@.map_values(|e: (String, ParcelRecord)| (e.0@, e.1@));
        let mut places: Vec<Parcel> = Vec::new();
        let n = rec.places.len();
        let mut i: usize = 0;
        proof {
            assert(ev.take(0) =~= Seq::<(Seq<char>, ParcelRecordView)>::empty());
            assert(places@.map_values(|p: Parcel| p@) =~= Seq::<ParcelView>::empty());
        }
        while i < n
            invariant
                0 <= i <= n == rec.places@.len(),
                ev == rec.places@.map_values(|e: (String, ParcelRecord)| (e.0@, e.1@)),
                record_places_spec(ev.take(i as int)) == Some(
                    places@.map_values(|p: Parcel| p@),
                ),
                forall|m: int| 0 <= m < places@.len() ==> (#[trigger] places@[m]).wf(),
                forall|a: int, b: int|
                    0 <= a < b < places@.len() ==> (#[trigger] places@[a]).location != (
                #[trigger] places@[b]).location,
            decreases n - i,
        {
            proof {
                assert(ev.take(i + 1).drop_last() =~= ev.take(i as int));
                assert(ev.take(i + 1).last() == ev[i as int]);
                assert(ev[i as int] == (rec.places@[i as int].0@, rec.places@[i as int].1@));
            }
            let entry_key = &rec.places[i].0;
            let entry = &rec.places[i].1;
            proof {
                assert(ev.take(i + 1).drop_last() =~= ev.take(i as int));
                assert(ev.take(i + 1).last() == ev[i as int]);
            }
            let loc = match PosKey::parse(entry_key.as_str()) {
                Some(k) => k.0,
                None => {
                    proof {
                        lemma_record_places_none_prefix(ev, i + 1);
                    }
                    return None;
                },
            };
            if !(loc.x == entry.location.0 && loc.y == entry.location.1) {
                proof {
                    lemma_record_places_none_prefix(ev, i + 1);
                }
                return None;
            }
            if !grid_ok(&entry.art) {
                proof {
                    lemma_record_places_none_prefix(ev, i + 1);
                }
                return None;
            }
            let mask_src: &Vec<String> = match &entry.linkmask {
                Some(m) => {
                    if !grid_ok(m) {
                        proof {
                            lemma_record_places_none_prefix(ev, i + 1);
                        }
                        return None;
                    }
                    m
                },
                None => &entry.art,
            };
            let art = crate::parcel::clone_grid(&entry.art);
            let mask = crate::parcel::clone_grid(mask_src);
            let mut links = crate::parcel::Links::new();
            let ln = entry.links.len();
            let mut j: usize = 0;
            let ghost lv = entry.links@.map_values(|e: (String, String)| (e.0@, e.1@));
            while j < ln
                invariant
                    0 <= j <= ln == entry.links@.len(),
                    lv == entry.links@.map_values(|e: (String, String)| (e.0@, e.1@)),
                    forall|m: int| 0 <= m < j ==> (#[trigger] lv[m]).0.len() == 1,
                    links.wf(),
                    links@ == crate::parcel::links_map(
                        lv.take(j as int).map_values(
                            |e: (Seq<char>, Seq<char>)| (e.0[0], e.1),
                        ),
                    ),
                decreases ln - j,
            {
                proof {
                    assert(lv[j as int] == (entry.links@[j as int].0@, entry.links@[j as int].1@));
                }
                let kcs = strutil::chars_of(entry.links[j].0.as_str());
                if kcs.len() != 1 {
                    proof {
                        assert(ev[i as int].1.links[j as int].0.len() != 1);
                        lemma_record_places_none_prefix(ev, i + 1);
                    }
                    return None;
                }
                let url = entry.links[j].1.clone();
                links.insert(kcs[0], url);
                proof {
                    let f = |e: (Seq<char>, Seq<char>)| (e.0[0], e.1);
                    assert(lv.take(j + 1).map_values(f) =~= lv.take(j as int).map_values(f).push(
                        f(lv[j as int]),
                    ));
                    crate::parcel::lemma_links_map_push(
                        lv.take(j as int).map_values(f),
                        f(lv[j as int]),
                    );
                }
                j = j + 1;
            }
            proof {
                assert(lv.take(ln as int) =~= lv);
            }
            let owner = Owner::from_repr(
                match &entry.owner {
                    Some(s) => Some(s.clone()),
                    None => None,
                },
            );
            let p = Parcel { owner, location: loc, art, mask, links };
            // a location may appear only once in a snapshot
            let mut dup = false;
            let pn = places.len();
            let mut m: usize = 0;
            while m < pn
                invariant
                    0 <= m <= pn == places@.len(),
                    dup == exists|a: int|
                        0 <= a < m && (#[trigger] places@[a]).location == loc,
                decreases pn - m,
            {
                if places[m].location.x == loc.x && places[m].location.y == loc.y {
                    proof {
                        assert(places@[m as int].location == loc);
                    }
                    dup = true;
                }
                m = m + 1;
            }
            if dup {
                proof {
                    let done = places@.map_values(|q: Parcel| q@);
                    let a = choose|a: int| 0 <= a < pn && (#[trigger] places@[a]).location == loc;
                    assert(done[a] == places@[a]@);
                    assert(done[a].location == loc);
                    assert(record_parcel_spec(ev[i as int].0, ev[i as int].1) == Some(p@)) by {
                        assert(p@.art =~= ev[i as int].1.art);
                        match rec.places@[i as int].1.linkmask {
                            Some(_) => {
                                assert(p@.mask =~= ev[i as int].1.linkmask->0);
                            },
                            None => {
                                assert(p@.mask =~= ev[i as int].1.art);
                            },
                        }
                        assert(p@.links == crate::parcel::links_map(
                            ev[i as int].1.links.map_values(
                                |e: (Seq<char>, Seq<char>)| (e.0[0], e.1),
                            ),
                        ));
                    }
                    lemma_record_places_none_prefix(ev, i + 1);
                }
                return None;
            }
            proof {
                let done = places@.map_values(|q: Parcel| q@);
                assert(record_parcel_spec(ev[i as int].0, ev[i as int].1) == Some(p@)) by {
                    assert(p@.art =~= ev[i as int].1.art);
                    match rec.places@[i as int].1.linkmask {
                        Some(_) => {
                            assert(p@.mask =~= ev[i as int].1.linkmask->0);
                        },
                        None => {
                            assert(p@.mask =~= ev[i as int].1.art);
                        },
                    }
                    assert(p@.links == crate::parcel::links_map(
                        ev[i as int].1.links.map_values(
                            |e: (Seq<char>, Seq<char>)| (e.0[0], e.1),
                        ),
                    ));
                }
                assert forall|a: int| 0 <= a < done.len() implies (#[trigger] done[a]).location
                    != loc by {
                    assert(done[a] == places@[a]@);
                }
                let pv2 = places@.push(p).map_values(|q: Parcel| q@);
                assert(pv2 =~= done.push(p@));
            }
            let ghost places0 = places@;
            places.push(p);
            proof {
                assert forall|a: int, b: int|
                    0 <= a < b < places@.len() implies (#[trigger] places@[a]).location != (
                #[trigger] places@[b]).location by {
                    if b == places@.len() - 1 {
                        assert(places@[a] == places0[a]);
                        assert(places0[a].location != loc);
                    } else {
                        assert(places@[a] == places0[a]);
                        assert(places@[b] == places0[b]);
                    }
                }
            }
            i = i + 1;
        }
        proof {
            assert(ev.take(n as int) =~= ev);
        }
        Some(Cadastre { places, background: Background(rec.seed) })
    }
}

proof fn lemma_parcel_record_round_trip(p: Parcel)
    requires
        p.wf(),
        p@.owner != OwnerView::User(crate::owner::admin_sentinel()),
    ensures
        record_parcel_spec(key_string(p.location), parcel_record_spec(p)) == Some(p@),
{
    lemma_key_round_trip(p.location);
    crate::owner::lemma_owner_repr_round_trip(p@.owner);
    let r = parcel_record_spec(p);
    assert forall|i: int| 0 <= i < r.links.len() implies (#[trigger] r.links[i]).0.len() == 1 by {
        assert(r.links[i] == (seq![p.links.entries@[i].0], p.links.entries@[i].1@));
    }
    assert(r.links.map_values(|e: (Seq<char>, Seq<char>)| (e.0[0], e.1))
        =~= p.links.entries@.map_values(|e: (char, String)| (e.0, e.1@)));
    assert(record_parcel_spec(key_string(p.location), parcel_record_spec(p)) == Some(p@)) by {
        assert(crate::parcel::grid_wf(r.art));
        assert(r.linkmask == Some(p@.mask));
        assert(crate::parcel::grid_wf(p@.mask));
        assert(crate::parcel::links_map(
            r.links.map_values(|e: (Seq<char>, Seq<char>)| (e.0[0], e.1)),
        ) == p.links@);
    }
}

/// Reading a stored snapshot back yields exactly the snapshot that was
/// stored: for any well-formed snapshot in which no user is named by the
/// reserved owner sentinel, the stored form is valid and denotes the same
/// parcels in the same order, and the same seed.
pub proof fn lemma_snapshot_round_trip(c: Cadastre)
    requires
        c.wf(),
        forall|i: int|
            0 <= i < c.places@.len() ==> (#[trigger] c.places@[i])@.owner != OwnerView::User(
                crate::owner::admin_sentinel(),
            ),
    ensures
        town_record_spec(c).seed == c@.seed,
        record_places_spec(town_record_spec(c).places) == Some(
            c.places@.map_values(|p: Parcel| p@),
        ),
{
    lemma_places_record_round_trip(c.places@);
}

proof fn lemma_places_record_round_trip(s: Seq<Parcel>)
    requires
        forall|i: int| 0 <= i < s.len() ==> (#[trigger] s[i]).wf(),
        forall|i: int|
            0 <= i < s.len() ==> (#[trigger] s[i])@.owner != OwnerView::User(
                crate::owner::admin_sentinel(),
            ),
        forall|a: int, b: int|
            0 <= a < b < s.len() ==> (#[trigger] s[a]).location != (#[trigger] s[b]).location,
    ensures
        record_places_spec(
            s.map_values(|p: Parcel| (key_string(p.location), parcel_record_spec(p))),
        ) == Some(s.map_values(|p: Parcel| p@)),
    decreases s.len(),
{
    let g = |p: Parcel| (key_string(p.location), parcel_record_spec(p));
    let v = |p: Parcel| p@;
    if s.len() > 0 {
        let ddl = s.drop_last();
        let last = s.last();
        assert forall|i: int| 0 <= i < ddl.len() implies (#[trigger] ddl[i]) == s[i] by {}
        lemma_places_record_round_trip(ddl);
        lemma_parcel_record_round_trip(last);
        let es = s.map_values(g);
        assert(es.drop_last() =~= ddl.map_values(g));
        assert(es.last() == g(last));
        let done = ddl.map_values(v);
        assert forall|i: int| 0 <= i < done.len() implies (#[trigger] done[i]).location
            != last@.location by {
            assert(done[i] == ddl[i]@);
            assert(s[i].location != s[s.len() - 1].location);
        }
        assert(s.map_values(v) =~= done.push(last@));
    } else {
        assert(s.map_values(g) =~= Seq::<(Seq<char>, ParcelRecordView)>::empty());
        assert(s.map_values(v) =~= Seq::<ParcelView>::empty());
    }
}

/// A run of background characters along one row, one per character cell.
pub open spec fn bg_run(seed: i64, y: int, x0: int, count: int) -> Seq<char>
    decreases count,
{
    if count <= 0 {
        Seq::empty()
    } else {
        seq![background::char_at_spec(seed, Pos { x: x0 as i64, y: y as i64 })] + bg_run(
            seed,
            y,
            x0 + 1,
            count - 1,
        )
    }
}

/// One plot-wide span of a text output row: the occupying parcel's art
/// row, or background characters for every cell of the span.
pub open spec fn text_cell(v: CadastreView, px: int, y: int) -> Seq<char> {
    let plot = Pos { x: px as i64, y: (y / 12) as i64 };
    if v.places.contains_key(plot) {
        v.places[plot].art[y % 12]
    } else {
        bg_run(v.seed, y, 24 * px, 24)
    }
}

/// A text output row from a plot column on.
pub open spec fn text_row(v: CadastreView, width: int, px: int, y: int) -> Seq<char>
    decreases width - px,
{
    if px >= width {
        Seq::empty()
    } else {
        text_cell(v, px, y) + text_row(v, width, px + 1, y)
    }
}

/// The text output rows from a row index on, each ended by a newline.
pub open spec fn text_rows(v: CadastreView, width: int, y: int, y_end: int) -> Seq<char>
    decreases y_end - y,
{
    if y >= y_end {
        Seq::empty()
    } else {
        text_row(v, width, 0, y) + seq!['\n'] + text_rows(v, width, y + 1, y_end)
    }
}

/// The whole plain-text rendering of a snapshot's viewport.
pub open spec fn render_text_spec(v: CadastreView, width: int, height: int) -> Seq<char> {
    text_rows(v, width, 0, height * 12)
}

/// The anchor span marking a plot's top-left corner in the HTML output.
pub open spec fn plot_anchor(px: int, py: int) -> Seq<char> {
    "<span id=\""@ + strutil::i64_dec_spec(px as i64) + seq![','] + strutil::i64_dec_spec(
        py as i64,
    ) + "\"></span>"@
}

/// One plot-wide span of an HTML output row: on a plot's first row its
/// corner anchor, then the occupying parcel's HTML line or background
/// characters.
pub open spec fn html_cell(v: CadastreView, px: int, y: int) -> Seq<char> {
    let plot = Pos { x: px as i64, y: (y / 12) as i64 };
    let anchor = if y % 12 == 0 {
        plot_anchor(px, y / 12)
    } else {
        Seq::empty()
    };
    if v.places.contains_key(plot) {
        anchor + crate::parcel::html_line_spec(v.places[plot], y % 12)
    } else {
        anchor + bg_run(v.seed, y, 24 * px, 24)
    }
}

/// An HTML output row from a plot column on.
pub open spec fn html_row(v: CadastreView, width: int, px: int, y: int) -> Seq<char>
    decreases width - px,
{
    if px >= width {
        Seq::empty()
    } else {
        html_cell(v, px, y) + html_row(v, width, px + 1, y)
    }
}

/// The HTML output rows from a row index on, each ended by a newline.
pub open spec fn html_rows(v: CadastreView, width: int, y: int, y_end: int) -> Seq<char>
    decreases y_end - y,
{
    if y >= y_end {
        Seq::empty()
    } else {
        html_row(v, width, 0, y) + seq!['\n'] + html_rows(v, width, y + 1, y_end)
    }
}

/// The fixed page shell the HTML output opens with.
pub open spec fn html_shell_open() -> Seq<char> {
    "<!DOCTYPE html>\n<html>\n<!-- See tilde.town/~troido/cadastre for instructions -->\n<head>\n<meta charset='utf-8'>\n<style>\na {text-decoration: none}\n</style>\n</head>\n<body><pre>\n"@
}

/// The fixed page shell the HTML output closes with.
pub open spec fn html_shell_close() -> Seq<char> {
    "</pre></body>\n<!-- Cadastre made by ~troido; art by tilde.town users -->\n</html>\n"@
}

/// The whole HTML rendering of a snapshot's viewport.
pub open spec fn render_html_spec(v: CadastreView, width: int, height: int) -> Seq<char> {
    html_shell_open() + html_rows(v, width, 0, height * 12) + html_shell_close()
}

impl Cadastre {
    /// The background characters for one plot-wide span of a row.
    #[verifier::rlimit(100)]
    fn bg_chunk(&self, px: usize, y: usize) -> (r: Vec<char>)
        requires
            24 * px + 24 <= i64::MAX,
            24 * px + 24 <= usize::MAX,
            y <= i64::MAX,
        ensures
            r@ == bg_run(self@.seed, y as int, 24 * px as int, 24),
    {
        let mut out: Vec<char> = Vec::new();
        let mut k: usize = 0;
        let x0 = 24 * px;
        while k < 24
            invariant
                0 <= k <= 24,
                x0 == 24 * px,
                24 * px + 24 <= i64::MAX,
                24 * px + 24 <= usize::MAX,
                y <= i64::MAX,
                out@ + bg_run(self@.seed, y as int, x0 + k, 24 - k) == bg_run(
                    self@.seed,
                    y as int,
                    x0 as int,
                    24,
                ),
            decreases 24 - k,
        {
            let c = self.background.char_at(Pos::new((x0 + k) as i64, y as i64));
            proof {
                assert(bg_run(self@.seed, y as int, x0 + k, 24 - k) == seq![
                    background::char_at_spec(
                        self@.seed,
                        Pos { x: (x0 + k) as i64, y: y as i64 },
                    ),
                ] + bg_run(self@.seed, y as int, x0 + k + 1, 24 - k - 1));
                assert(out@.push(c) + bg_run(self@.seed, y as int, x0 + k + 1, 24 - k - 1)
                    =~= out@ + (seq![c] + bg_run(self@.seed, y as int, x0 + k + 1, 24 - k - 1)));
            }
            out.push(c);
            k = k + 1;
        }
        proof {
            assert(bg_run(self@.seed, y as int, x0 + 24, 0) == Seq::<char>::empty());
            assert(out@ + Seq::<char>::empty() =~= out@);
        }
        out
    }

    /// The plain-text rendering of the snapshot for a viewport of
    /// `width` by `height` plots: each parcel's art where one stands,
    /// the background pattern everywhere else, one line per character row.
    #[verifier::loop_isolation(false)]
    pub fn render_text(&self, width: usize, height: usize) -> (r: String)
        requires
            self.wf(),
            width * 24 <= i64::MAX,
            height * 12 <= i64::MAX,
            width * 24 <= usize::MAX,
            height * 12 <= usize::MAX,
        ensures
            r@ == render_text_spec(self@, width as int, height as int),
    {
        let ghost v = self@;
        let mut out: Vec<char> = Vec::new();
        let rows = height * 12;
        let mut y: usize = 0;
        while y < rows
            invariant
                0 <= y <= rows,
                out@ + text_rows(v, width as int, y as int, rows as int) == text_rows(
                    v,
                    width as int,
                    0,
                    rows as int,
                ),
            decreases rows - y,
        {
            let ghost row_start = out@;
            let plot_y = y / 12;
            let inner_y = y % 12;
            let mut px: usize = 0;
            while px < width
                invariant
                    0 <= px <= width,
                    0 <= y < rows,
                    plot_y == y / 12,
                    inner_y == y % 12,
                    out@ + text_row(v, width as int, px as int, y as int) == row_start + text_row(
                        v,
                        width as int,
                        0,
                        y as int,
                    ),
                decreases width - px,
            {
                let pos = Pos::new(px as i64, plot_y as i64);
                let ghost cell = text_cell(v, px as int, y as int);
                match self.parcel(pos) {
                    Some(p) => {
                        let line = p.text_line(inner_y);
                        let cs = strutil::chars_of(line);
                        crate::parcel::push_all(&mut out, &cs);
                        proof {
                            assert(cs@ == cell);
                        }
                    },
                    None => {
                        let chunk = self.bg_chunk(px, y);
                        crate::parcel::push_all(&mut out, &chunk);
                        proof {
                            assert(chunk@ == cell);
                        }
                    },
                }
                proof {
                    assert(text_row(v, width as int, px as int, y as int) == cell + text_row(
                        v,
                        width as int,
                        px + 1,
                        y as int,
                    ));
                }
                px = px + 1;
            }
            out.push('\n');
            proof {
                assert(text_rows(v, width as int, y as int, rows as int) == text_row(
                    v,
                    width as int,
                    0,
                    y as int,
                ) + seq!['\n'] + text_rows(v, width as int, y + 1, rows as int));
                assert(text_row(v, width as int, width as int, y as int) == Seq::<char>::empty());
            }
            y = y + 1;
        }
        proof {
            assert(text_rows(v, width as int, rows as int, rows as int) == Seq::<char>::empty());
            assert(out@ =~= text_rows(v, width as int, 0, rows as int));
        }
        strutil::string_of(&out)
    }

    /// The HTML rendering of the snapshot for a viewport of `width` by
    /// `height` plots: the fixed page shell around the rows, a corner
    /// anchor at each plot's first row, each parcel's hyperlinked lines
    /// where one stands, the background pattern everywhere else.
    #[verifier::loop_isolation(false)]
    #[verifier::rlimit(100)]
    pub fn render_html(&self, width: usize, height: usize) -> (r: String)
        requires
            self.wf(),
            width * 24 <= i64::MAX,
            height * 12 <= i64::MAX,
            width * 24 <= usize::MAX,
            height * 12 <= usize::MAX,
        ensures
            r@ == render_html_spec(self@, width as int, height as int),
    {
        let ghost v = self@;
        let mut out: Vec<char> = Vec::new();
        let shell_open = strutil::chars_of(
            "<!DOCTYPE html>\n<html>\n<!-- See tilde.town/~troido/cadastre for instructions -->\n<head>\n<meta charset='utf-8'>\n<style>\na {text-decoration: none}\n</style>\n</head>\n<body><pre>\n",
        );
        crate::parcel::push_all(&mut out, &shell_open);
        let ghost shell_done = out@;
        proof {
            assert(shell_done == html_shell_open());
        }
        let rows = height * 12;
        let mut y: usize = 0;
        while y < rows
            invariant
                0 <= y <= rows,
                out@ + html_rows(v, width as int, y as int, rows as int) == shell_done + html_rows(
                    v,
                    width as int,
                    0,
                    rows as int,
                ),
            decreases rows - y,
        {
            let ghost row_start = out@;
            let plot_y = y / 12;
            let inner_y = y % 12;
            let mut px: usize = 0;
            while px < width
                invariant
                    0 <= px <= width,
                    0 <= y < rows,
                    plot_y == y / 12,
                    inner_y == y % 12,
                    out@ + html_row(v, width as int, px as int, y as int) == row_start + html_row(
                        v,
                        width as int,
                        0,
                        y as int,
                    ),
                decreases width - px,
            {
                let ghost cell = html_cell(v, px as int, y as int);
                let ghost before_cell = out@;
                if inner_y == 0 {
                    let id_open = strutil::chars_of("<span id=\"");
                    crate::parcel::push_all(&mut out, &id_open);
                    let xs = strutil::i64_to_string(px as i64);
                    let xcs = strutil::chars_of(xs.as_str());
                    crate::parcel::push_all(&mut out, &xcs);
                    out.push(',');
                    let ys = strutil::i64_to_string(plot_y as i64);
                    let ycs = strutil::chars_of(ys.as_str());
                    crate::parcel::push_all(&mut out, &ycs);
                    let id_close = strutil::chars_of("\"></span>");
                    crate::parcel::push_all(&mut out, &id_close);
                    proof {
                        assert(out@ =~= before_cell + plot_anchor(px as int, plot_y as int));
                    }
                }
                let ghost after_anchor = out@;
                let pos = Pos::new(px as i64, plot_y as i64);
                match self.parcel(pos) {
                    Some(p) => {
                        let line = p.html_line(inner_y);
                        let cs = strutil::chars_of(line.as_str());
                        crate::parcel::push_all(&mut out, &cs);
                        proof {
                            assert(cs@ == crate::parcel::html_line_spec(
                                v.places[Pos { x: px as i64, y: plot_y as i64 }],
                                inner_y as int,
                            ));
                        }
                    },
                    None => {
                        let chunk = self.bg_chunk(px, y);
                        crate::parcel::push_all(&mut out, &chunk);
                    },
                }
                proof {
                    assert(out@ =~= before_cell + cell);
                    assert(html_row(v, width as int, px as int, y as int) == cell + html_row(
                        v,
                        width as int,
                        px + 1,
                        y as int,
                    ));
                    assert(out@ + html_row(v, width as int, px + 1, y as int) =~= before_cell + (
                    cell + html_row(v, width as int, px + 1, y as int)));
                }
                px = px + 1;
            }
            out.push('\n');
            proof {
                assert(html_rows(v, width as int, y as int, rows as int) == html_row(
                    v,
                    width as int,
                    0,
                    y as int,
                ) + seq!['\n'] + html_rows(v, width as int, y + 1, rows as int));
                assert(html_row(v, width as int, width as int, y as int) == Seq::<char>::empty());
            }
            y = y + 1;
        }
        let shell_close = strutil::chars_of(
            "</pre></body>\n<!-- Cadastre made by ~troido; art by tilde.town users -->\n</html>\n",
        );
        crate::parcel::push_all(&mut out, &shell_close);
        proof {
            assert(html_rows(v, width as int, rows as int, rows as int) == Seq::<char>::empty());
            assert(out@ =~= render_html_spec(v, width as int, height as int));
        }
        strutil::string_of(&out)
    }
}

} // verus!
