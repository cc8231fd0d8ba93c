//! Which intersection a ray keeps.
//!
//! A hit parameter `t` is carried as an order key: for non-negative floats the
//! IEEE-754 bit pattern read as an unsigned integer orders exactly as the
//! numbers do, and every negative float or NaN lies above the key of +infinity.
//! So with a window `(t_min, t_max)` of non-negative bounds, a parameter lies in
//! the window exactly when its key lies strictly between the bounds' keys.
//!
//! Each shape offers the parameters at which the ray meets its surface (the
//! two roots of a sphere, the single plane crossing of a rectangle that falls
//! inside its bounds). A shape's hit is the smallest of them inside the window;
//! a scene's hit is the smallest over all its members.
use vstd::prelude::*;

verus! {

/// `t` lies strictly inside the window `(lo, hi)`.
pub open spec fn in_window(t: u64, lo: u64, hi: u64) -> bool {
    lo < t && t < hi
}

/// `t` is the smallest of `cands` inside the window.
pub open spec fn is_nearest(t: u64, cands: Seq<u64>, lo: u64, hi: u64) -> bool {
    &&& cands.contains(t)
    &&& in_window(t, lo, hi)
    &&& forall|c: u64| #[trigger] cands.contains(c) && in_window(c, lo, hi) ==> t <= c
}

/// The hit of one shape with candidate parameters `cands`: the smallest of
/// them inside the window, if any.
pub open spec fn member_nearest(cands: Seq<u64>, lo: u64, hi: u64) -> Option<u64> {
    if exists|t: u64| is_nearest(t, cands, lo, hi) {
        Some(choose|t: u64| is_nearest(t, cands, lo, hi))
    } else {
        None
    }
}

/// Some member of the scene `ms` has `c` among its candidate parameters.
pub open spec fn scene_has(ms: Seq<Seq<u64>>, c: u64) -> bool {
    exists|m: int| 0 <= m < ms.len() && (#[trigger] ms[m]).contains(c)
}

/// `t` is the smallest candidate of any member inside the window.
pub open spec fn is_scene_nearest(t: u64, ms: Seq<Seq<u64>>, lo: u64, hi: u64) -> bool {
    &&& scene_has(ms, t)
    &&& in_window(t, lo, hi)
    &&& forall|c: u64| #[trigger] scene_has(ms, c) && in_window(c, lo, hi) ==> t <= c
}

/// The parameter of a scene's hit: the smallest candidate of all its members
/// inside the window, if any.
pub open spec fn scene_nearest(ms: Seq<Seq<u64>>, lo: u64, hi: u64) -> Option<u64> {
    if exists|t: u64| is_scene_nearest(t, ms, lo, hi) {
        Some(choose|t: u64| is_scene_nearest(t, ms, lo, hi))
    } else {
        None
    }
}

proof fn lemma_member_nearest_is(t: u64, cands: Seq<u64>, lo: u64, hi: u64)
    requires
        is_nearest(t, cands, lo, hi),
    ensures
        member_nearest(cands, lo, hi) == Some(t),
{
    let u = choose|u: u64| is_nearest(u, cands, lo, hi);
    assert(u <= t && t <= u);
}

proof fn lemma_member_nearest_none(cands: Seq<u64>, lo: u64, hi: u64)
    requires
        forall|c: u64| #[trigger] cands.contains(c) ==> !in_window(c, lo, hi),
    ensures
        member_nearest(cands, lo, hi) is None,
{
}

proof fn lemma_scene_nearest_is(t: u64, ms: Seq<Seq<u64>>, lo: u64, hi: u64)
    requires
        is_scene_nearest(t, ms, lo, hi),
    ensures
        scene_nearest(ms, lo, hi) == Some(t),
{
    let u = choose|u: u64| is_scene_nearest(u, ms, lo, hi);
    assert(u <= t && t <= u);
}

/// The hit of one shape: the smallest of its candidate parameters `cands`
/// that lies strictly inside the window `(lo, hi)`.
pub fn nearest_candidate(cands: &Vec<u64>, lo: u64, hi: u64) -> (r: Option<u64>)
    ensures
        r == member_nearest(cands@, lo, hi),
{
    let mut best: Option<u64> = None;
    let mut i: usize = 0;
    while i < cands.len()
        invariant
            i <= cands@.len(),
            best matches Some(b) ==> is_nearest(b, cands@.take(i as int), lo, hi),
            best is None ==> forall|x: u64| #[trigger]
                cands@.take(i as int).contains(x) ==> !in_window(x, lo, hi),
        decreases cands@.len() - i,
    {
        let c = cands[i];
        let ghost prev = cands@.take(i as int);
        let ghost next = cands@.take(i + 1);
        assert(next =~= prev.push(c));
        assert forall|x: u64| #[trigger] next.contains(x) implies prev.contains(x) || x == c by {
            let k = choose|k: int| 0 <= k < next.len() && next[k] == x;
            if k < i {
                assert(prev[k] == x);
            }
        }
        assert(next[i as int] == c);
        assert forall|x: u64| #[trigger] prev.contains(x) implies next.contains(x) by {
            let k = choose|k: int| 0 <= k < prev.len() && prev[k] == x;
            assert(next[k] == x);
        }
        if lo < c && c < hi {
            match best {
                None => {
                    best = Some(c);
                },
                Some(b) => {
                    if c < b {
                        best = Some(c);
                    }
                },
            }
        }
        i += 1;
    }
    assert(cands@.take(cands@.len() as int) =~= cands@);
    proof {
        match best {
            Some(b) => lemma_member_nearest_is(b, cands@, lo, hi),
            None => lemma_member_nearest_none(cands@, lo, hi),
        }
    }
    best
}

/// The candidate parameters of each member, as sequences.
pub open spec fn candidates_of(members: Seq<Vec<u64>>) -> Seq<Seq<u64>> {
    members.map_values(|v: Vec<u64>| v@)
}

proof fn lemma_scene_nearest_none(ms: Seq<Seq<u64>>, lo: u64, hi: u64)
    requires
        forall|c: u64| #[trigger] scene_has(ms, c) ==> !in_window(c, lo, hi),
    ensures
        scene_nearest(ms, lo, hi) is None,
{
}

/// A scene's hit: the member `i` and parameter `t` of the nearest
/// intersection strictly inside `(lo, hi)`, where `members[m]` holds the
/// candidate parameters of member `m`. Members are tried in turn, each in a
/// window whose upper end has shrunk to the nearest hit found so far; of
/// members that meet the ray at the same nearest `t`, the first is kept.
pub fn scene_hit(members: &Vec<Vec<u64>>, lo: u64, hi: u64) -> (r: Option<(usize, u64)>)
    ensures
        match r {
            Some((i, t)) => {
                &&& scene_nearest(candidates_of(members@), lo, hi) == Some(t)
                &&& i < members@.len()
                &&& members@[i as int]@.contains(t)
                &&& forall|j: int| 0 <= j < i ==> !(#[trigger] members@[j]@).contains(t)
            },
            None => scene_nearest(candidates_of(members@), lo, hi) is None,
        },
{
    let ghost ms = candidates_of(members@);
    let mut best: Option<(usize, u64)> = None;
    let mut closest = hi;
    let mut m: usize = 0;
    while m < members.len()
        invariant
            m <= members@.len(),
            ms == candidates_of(members@),
            best is None ==> closest == hi && forall|x: u64| #[trigger]
                scene_has(ms.take(m as int), x) ==> !in_window(x, lo, hi),
            best matches Some(p) ==> {
                &&& closest == p.1
                &&& p.0 < m
                &&& ms[p.0 as int].contains(p.1)
                &&& is_scene_nearest(p.1, ms.take(m as int), lo, hi)
                &&& forall|j: int| 0 <= j < p.0 ==> !(#[trigger] ms[j]).contains(p.1)
            },
        decreases members@.len() - m,
    {
        let found = nearest_candidate(&members[m], lo, closest);
        let ghost prev = ms.take(m as int);
        let ghost next = ms.take(m + 1);
        assert(next =~= prev.push(ms[m as int]));
        assert(ms[m as int] == members@[m as int]@);
        assert forall|x: u64| #[trigger] scene_has(next, x) implies scene_has(prev, x) || ms[m as int].contains(x) by {
            let k = choose|k: int| 0 <= k < next.len() && (#[trigger] next[k]).contains(x);
            if k < m {
                assert(prev[k] == next[k]);
            }
        }
        assert forall|x: u64| #[trigger] scene_has(prev, x) implies scene_has(next, x) by {
            let k = choose|k: int| 0 <= k < prev.len() && (#[trigger] prev[k]).contains(x);
            assert(next[k] == prev[k]);
        }
        match found {
            Some(t) => {
                assert(is_nearest(t, ms[m as int], lo, closest));
                assert(scene_has(next, t)) by {
                    assert(next[m as int] == ms[m as int]);
                }
                assert forall|j: int| 0 <= j < m implies !(#[trigger] ms[j]).contains(t) by {
                    if ms[j].contains(t) {
                        assert(prev[j] == ms[j]);
                        assert(scene_has(prev, t));
                    }
                }
                assert forall|c: u64| #[trigger] scene_has(next, c) && in_window(c, lo, hi) implies t
                    <= c by {
                    if !ms[m as int].contains(c) {
                        assert(scene_has(prev, c));
                    }
                }
                closest = t;
                best = Some((m, t));
            },
            None => {
                assert forall|c: u64| #[trigger] ms[m as int].contains(c) implies !in_window(c, lo, closest) by {
                    if in_window(c, lo, closest) {
                        let cands = ms[m as int];
                        assert(cands.len() > 0);
                        lemma_exists_nearest(cands, lo, closest, c);
                    }
                }
                match best {
                    Some(p) => {
                        assert(is_scene_nearest(p.1, next, lo, hi)) by {
                            assert(scene_has(next, p.1));
                        }
                    },
                    None => {},
                }
            },
        }
        m += 1;
    }
    assert(ms.take(members@.len() as int) =~= ms);
    proof {
        match best {
            Some(p) => {
                lemma_scene_nearest_is(p.1, ms, lo, hi);
                assert(ms[p.0 as int] == members@[p.0 as int]@);
                assert forall|j: int| 0 <= j < p.0 implies !(#[trigger] members@[j]@).contains(
                    p.1,
                ) by {
                    assert(ms[j] == members@[j]@);
                }
            },
            None => lemma_scene_nearest_none(ms, lo, hi),
        }
    }
    best
}

/// Where some candidate lies in the window, a nearest one exists.
proof fn lemma_exists_nearest(cands: Seq<u64>, lo: u64, hi: u64, c: u64)
    requires
        cands.contains(c),
        in_window(c, lo, hi),
    ensures
        exists|t: u64| is_nearest(t, cands, lo, hi),
    decreases cands.len(),
{
    let rest = cands.drop_last();
    let l = cands.last();
    assert forall|x: u64| #[trigger] cands.contains(x) implies rest.contains(x) || x == l by {
        let k = choose|k: int| 0 <= k < cands.len() && cands[k] == x;
        if k < cands.len() - 1 {
            assert(rest[k] == x);
        }
    }
    assert forall|x: u64| #[trigger] rest.contains(x) implies cands.contains(x) by {
        let k = choose|k: int| 0 <= k < rest.len() && rest[k] == x;
        assert(cands[k] == x);
    }
    assert(cands[cands.len() - 1] == l);
    if exists|x: u64| rest.contains(x) && in_window(x, lo, hi) {
        let x = choose|x: u64| rest.contains(x) && in_window(x, lo, hi);
        lemma_exists_nearest(rest, lo, hi, x);
        let t = choose|t: u64| is_nearest(t, rest, lo, hi);
        if in_window(l, lo, hi) && l < t {
            assert(is_nearest(l, cands, lo, hi));
        } else {
            assert(is_nearest(t, cands, lo, hi));
        }
    } else {
        assert(c == l);
        assert(is_nearest(l, cands, lo, hi));
    }
}

/// A sphere's hit: none when the ray misses it (no real roots) or when
/// neither root lies inside the window; otherwise the smaller root inside it,
/// that is the near root where it lies inside, else the far one.
pub proof fn lemma_sphere_root_choice(near: u64, far: u64, lo: u64, hi: u64)
    requires
        in_window(near, lo, hi) && in_window(far, lo, hi) ==> near <= far,
    ensures
        member_nearest(Seq::empty(), lo, hi) is None,
        member_nearest(seq![near, far], lo, hi) == if in_window(near, lo, hi) {
            Some(near)
        } else if in_window(far, lo, hi) {
            Some(far)
        } else {
            None::<u64>
        },
{
    let roots = seq![near, far];
    assert(roots[0] == near && roots[1] == far);
    assert forall|c: u64| #[trigger] roots.contains(c) implies c == near || c == far by {
        let k = choose|k: int| 0 <= k < roots.len() && roots[k] == c;
    }
    if in_window(near, lo, hi) {
        assert(is_nearest(near, roots, lo, hi));
        lemma_member_nearest_is(near, roots, lo, hi);
    } else if in_window(far, lo, hi) {
        assert(is_nearest(far, roots, lo, hi));
        lemma_member_nearest_is(far, roots, lo, hi);
    } else {
        lemma_member_nearest_none(roots, lo, hi);
    }
}

/// A scene's hit is the nearest of the hits that its members give when each
/// is tested alone against the same window: there is none exactly when no
/// member is hit, and otherwise it is the hit of some member and no member's
/// own hit is nearer.
pub proof fn lemma_scene_is_min_of_members(ms: Seq<Seq<u64>>, lo: u64, hi: u64)
    ensures
        scene_nearest(ms, lo, hi) is None <==> forall|m: int|
            0 <= m < ms.len() ==> (#[trigger] member_nearest(ms[m], lo, hi)) is None,
        scene_nearest(ms, lo, hi) matches Some(t) ==> {
            &&& exists|m: int| 0 <= m < ms.len() && #[trigger] member_nearest(ms[m], lo, hi) == Some(t)
            &&& forall|m: int|
                0 <= m < ms.len() ==> (#[trigger] member_nearest(ms[m], lo, hi) matches Some(u)
                    ==> t <= u)
        },
{
    if exists|t: u64| is_scene_nearest(t, ms, lo, hi) {
        let t = choose|t: u64| is_scene_nearest(t, ms, lo, hi);
        lemma_scene_nearest_is(t, ms, lo, hi);
        let m = choose|m: int| 0 <= m < ms.len() && (#[trigger] ms[m]).contains(t);
        assert(is_nearest(t, ms[m], lo, hi)) by {
            assert forall|c: u64| #[trigger] ms[m].contains(c) && in_window(c, lo, hi) implies t
                <= c by {
                assert(scene_has(ms, c));
            }
        }
        lemma_member_nearest_is(t, ms[m], lo, hi);
        assert forall|k: int| 0 <= k < ms.len() implies (#[trigger] member_nearest(ms[k], lo, hi)
            matches Some(u) ==> t <= u) by {
            if exists|u: u64| is_nearest(u, ms[k], lo, hi) {
                let u = choose|u: u64| is_nearest(u, ms[k], lo, hi);
                assert(scene_has(ms, u));
            }
        }
    } else {
        assert forall|m: int| 0 <= m < ms.len() implies (#[trigger] member_nearest(
            ms[m],
            lo,
            hi,
        )) is None by {
            if exists|u: u64| is_nearest(u, ms[m], lo, hi) {
                let u = choose|u: u64| is_nearest(u, ms[m], lo, hi);
                assert(scene_has(ms, u));
                lemma_scene_exists_nearest(ms, lo, hi, u);
            }
        }
    }
}

/// Where some member has a candidate inside the window, the scene has a
/// nearest one.
proof fn lemma_scene_exists_nearest(ms: Seq<Seq<u64>>, lo: u64, hi: u64, c: u64)
    requires
        scene_has(ms, c),
        in_window(c, lo, hi),
    ensures
        exists|t: u64| is_scene_nearest(t, ms, lo, hi),
    decreases ms.len(),
{
    let rest = ms.drop_last();
    let l = ms.last();
    assert forall|x: u64| #[trigger] scene_has(ms, x) implies scene_has(rest, x) || l.contains(x) by {
        let k = choose|k: int| 0 <= k < ms.len() && (#[trigger] ms[k]).contains(x);
        if k < ms.len() - 1 {
            assert(rest[k] == ms[k]);
        }
    }
    assert forall|x: u64| #[trigger] scene_has(rest, x) implies scene_has(ms, x) by {
        let k = choose|k: int| 0 <= k < rest.len() && (#[trigger] rest[k]).contains(x);
        assert(ms[k] == rest[k]);
    }
    assert forall|x: u64| #[trigger] l.contains(x) implies scene_has(ms, x) by {
        assert(ms[ms.len() - 1] == l);
    }
    let lh = exists|x: u64| l.contains(x) && in_window(x, lo, hi);
    if lh {
        let x = choose|x: u64| l.contains(x) && in_window(x, lo, hi);
        lemma_exists_nearest(l, lo, hi, x);
    }
    if exists|x: u64| scene_has(rest, x) && in_window(x, lo, hi) {
        let x = choose|x: u64| scene_has(rest, x) && in_window(x, lo, hi);
        lemma_scene_exists_nearest(rest, lo, hi, x);
        let t = choose|t: u64| is_scene_nearest(t, rest, lo, hi);
        if lh {
            let u = choose|u: u64| is_nearest(u, l, lo, hi);
            if u < t {
                assert(is_scene_nearest(u, ms, lo, hi));
            } else {
                assert(is_scene_nearest(t, ms, lo, hi));
            }
        } else {
            assert(is_scene_nearest(t, ms, lo, hi));
        }
    } else {
        let u = choose|u: u64| is_nearest(u, l, lo, hi);
        assert(is_scene_nearest(u, ms, lo, hi));
    }
}

/// The order of a scene's members does not change its hit: two scenes with
/// the same members, each as often, give the same nearest parameter.
pub proof fn lemma_scene_order_independent(ms1: Seq<Seq<u64>>, ms2: Seq<Seq<u64>>, lo: u64, hi: u64)
    requires
        ms1.to_multiset() == ms2.to_multiset(),
    ensures
        scene_nearest(ms1, lo, hi) == scene_nearest(ms2, lo, hi),
{
    ms1.to_multiset_ensures();
    ms2.to_multiset_ensures();
    assert forall|c: u64| scene_has(ms1, c) <==> scene_has(ms2, c) by {
        if scene_has(ms1, c) {
            let k = choose|k: int| 0 <= k < ms1.len() && (#[trigger] ms1[k]).contains(c);
            assert(ms1.contains(ms1[k]));
            assert(ms2.to_multiset().count(ms1[k]) > 0);
            let j = choose|j: int| 0 <= j < ms2.len() && ms2[j] == ms1[k];
            assert(ms2[j].contains(c));
        }
        if scene_has(ms2, c) {
            let k = choose|k: int| 0 <= k < ms2.len() && (#[trigger] ms2[k]).contains(c);
            assert(ms2.contains(ms2[k]));
            assert(ms1.to_multiset().count(ms2[k]) > 0);
            let j = choose|j: int| 0 <= j < ms1.len() && ms1[j] == ms2[k];
            assert(ms1[j].contains(c));
        }
    }
    assert forall|t: u64| is_scene_nearest(t, ms1, lo, hi) <==> is_scene_nearest(t, ms2, lo, hi) by {
        assert(scene_has(ms1, t) <==> scene_has(ms2, t));
    }
    if exists|t: u64| is_scene_nearest(t, ms1, lo, hi) {
        let t = choose|t: u64| is_scene_nearest(t, ms1, lo, hi);
        lemma_scene_nearest_is(t, ms1, lo, hi);
        lemma_scene_nearest_is(t, ms2, lo, hi);
    }
}

} // verus!
