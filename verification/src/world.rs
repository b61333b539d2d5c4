//! The consistency maintainer: a minimal entity-component world holding one
//! relationship pair, whose lifecycle operations (insert, replace, remove,
//! despawn) keep every forward link and every reverse collection mutually
//! consistent.

use vstd::prelude::*;
use std::collections::HashMap;
use crate::entity::{Entity, PLACEHOLDER_ID};
use crate::collection::{RelationshipSourceCollection, add_model, ids_of};

verus! {

broadcast use vstd::std_specs::hash::group_hash_axioms;

/// The holders currently pointing at `t`: the keys of `src` mapped to `t`.
pub open spec fn holders_of(src: Map<u64, u64>, t: u64) -> Set<u64> {
    Set::new(|h: u64| src.contains_key(h) && src[h] == t)
}

/// One reverse collection is well formed for the general (not single-slot)
/// variants: its members are exactly the holders pointing at `t`, each of
/// them exactly once.
pub open spec fn target_members_wf(src: Map<u64, u64>, members: Seq<u64>, t: u64) -> bool {
    &&& members.no_duplicates()
    &&& forall|i: int|
        0 <= i < members.len() ==> src.contains_key(#[trigger] members[i]) && src[members[i]]
            == t
    &&& forall|h: u64| #[trigger] src.contains_key(h) && src[h] == t ==> members.contains(h)
}

/// The world state is well formed up to a set of pending holders (used
/// mid-cascade, when entities already scheduled for despawn may still hold
/// a forward link to a target whose component is gone): links only between
/// live entities, no placeholder anywhere, ids below the allocation
/// watermark, and every reverse collection consistent with the forward
/// links. A single-slot collection always holds exactly one occupant whose
/// forward link points back at it; for the other variants membership is
/// exact in both directions and an emptied collection has been discarded.
pub open spec fn state_wf_except(
    alive: Set<u64>,
    src: Map<u64, u64>,
    tgt: Map<u64, Seq<u64>>,
    next: u64,
    single: bool,
    pending: Set<u64>,
) -> bool {
    &&& !alive.contains(PLACEHOLDER_ID)
    &&& forall|x: u64| #[trigger] alive.contains(x) ==> x < next
    &&& forall|h: u64| #[trigger] src.contains_key(h) ==> alive.contains(h)
    &&& forall|h: u64| #[trigger] src.contains_key(h) ==> src[h] < next && src[h]
        != PLACEHOLDER_ID
    &&& forall|t: u64| #[trigger] tgt.contains_key(t) ==> alive.contains(t)
    &&& forall|t: u64| #[trigger] tgt.contains_key(t) ==> tgt[t].len() > 0
    &&& if single {
        forall|t: u64| #[trigger] tgt.contains_key(t) ==> tgt[t].len() == 1 && src.contains_key(
            tgt[t][0],
        ) && src[tgt[t][0]] == t
    } else {
        &&& forall|t: u64| #[trigger] tgt.contains_key(t) ==> target_members_wf(src, tgt[t], t)
        &&& forall|h: u64| #[trigger] src.contains_key(h) ==> tgt.contains_key(src[h])
            || pending.contains(h)
    }
}

/// The world state is well formed, with no pending holders.
pub open spec fn state_wf(
    alive: Set<u64>,
    src: Map<u64, u64>,
    tgt: Map<u64, Seq<u64>>,
    next: u64,
    single: bool,
) -> bool {
    state_wf_except(alive, src, tgt, next, single, Set::<u64>::empty())
}

/// What detaching holder `h` does to the links: its forward link goes
/// away, `h` leaves the reverse collection of its old target, and an
/// emptied collection is discarded together with its target component.
pub open spec fn detach_model(src: Map<u64, u64>, tgt: Map<u64, Seq<u64>>, h: u64) -> (
    Map<u64, u64>,
    Map<u64, Seq<u64>>,
) {
    if src.contains_key(h) {
        let t = src[h];
        let src2 = src.remove(h);
        if tgt.contains_key(t) {
            let m2 = tgt[t].remove_value(h);
            if m2.len() == 0 {
                (src2, tgt.remove(t))
            } else {
                (src2, tgt.insert(t, m2))
            }
        } else {
            (src2, tgt)
        }
    } else {
        (src, tgt)
    }
}

/// What attaching holder `h` to target `t` does to the links, for a holder
/// with no current forward link: the forward link appears, and `h` is
/// added to `t`'s reverse collection, created empty first if absent.
pub open spec fn attach_model(
    src: Map<u64, u64>,
    tgt: Map<u64, Seq<u64>>,
    h: u64,
    t: u64,
    single: bool,
    unique: bool,
) -> (Map<u64, u64>, Map<u64, Seq<u64>>) {
    let members = if tgt.contains_key(t) {
        tgt[t]
    } else {
        Seq::<u64>::empty()
    };
    (src.insert(h, t), tgt.insert(t, add_model(members, h, single, unique)))
}

/// What inserting (or replacing) a source component naming `t` on `h`
/// does: `h` is detached from any old target, then attached to `t`.
pub open spec fn insert_model(
    src: Map<u64, u64>,
    tgt: Map<u64, Seq<u64>>,
    h: u64,
    t: u64,
    single: bool,
    unique: bool,
) -> (Map<u64, u64>, Map<u64, Seq<u64>>) {
    let d = detach_model(src, tgt, h);
    attach_model(d.0, d.1, h, t, single, unique)
}

/// What removing `t`'s target component does to the links: every member
/// of `t`'s reverse collection loses its source component, and the
/// collection is discarded.
pub open spec fn detach_all_model(src: Map<u64, u64>, tgt: Map<u64, Seq<u64>>, t: u64) -> (
    Map<u64, u64>,
    Map<u64, Seq<u64>>,
) {
    if tgt.contains_key(t) {
        (src.remove_keys(tgt[t].to_set()), tgt.remove(t))
    } else {
        (src, tgt)
    }
}

/// What a non-cascading despawn of `e` does to the links: `e` is detached
/// as a holder, then `e`'s own target component is torn down, detaching
/// every remaining member.
pub open spec fn despawn_links_model(src: Map<u64, u64>, tgt: Map<u64, Seq<u64>>, e: u64) -> (
    Map<u64, u64>,
    Map<u64, Seq<u64>>,
) {
    let d = detach_model(src, tgt, e);
    detach_all_model(d.0, d.1, e)
}

/// Every entity alive in `alive2` carries exactly the forward link it had
/// in `src1` (the links of surviving entities are untouched).
pub open spec fn links_preserved(
    alive2: Set<u64>,
    src1: Map<u64, u64>,
    src2: Map<u64, u64>,
) -> bool {
    forall|x: u64|
        #![trigger alive2.contains(x)]
        alive2.contains(x) ==> src2.contains_key(x) == src1.contains_key(x) && (
        src2.contains_key(x) ==> src2[x] == src1[x])
}

/// No entity of `members` is left in `alive2`.
pub open spec fn members_despawned(members: Seq<u64>, alive2: Set<u64>) -> bool {
    forall|x: u64|
        #![trigger alive2.contains(x)]
        members.contains(x) ==> !alive2.contains(x)
}

/// No target component stands in `tgt2` that did not stand in `tgt1`.
pub open spec fn targets_shrink(tgt1: Map<u64, Seq<u64>>, tgt2: Map<u64, Seq<u64>>) -> bool {
    forall|t: u64| #[trigger] tgt2.contains_key(t) ==> tgt1.contains_key(t)
}

/// What removing the first occurrence of a value does to a sequence
/// without duplicates: membership shrinks by exactly that value.
pub proof fn lemma_remove_value_props(s: Seq<u64>, x: u64)
    requires
        s.no_duplicates(),
    ensures
        s.remove_value(x).no_duplicates(),
        forall|y: u64| #[trigger] s.remove_value(x).contains(y) <==> (s.contains(y) && y != x),
        s.contains(x) ==> s.remove_value(x).len() == s.len() - 1,
        !s.contains(x) ==> s.remove_value(x) == s,
{
    s.index_of_first_ensures(x);
    if s.contains(x) {
        let i = s.index_of_first(x)->Some_0;
        let r = s.remove(i);
        s.remove_ensures(i);
        assert forall|y: u64| #[trigger] r.contains(y) implies s.contains(y) && y != x by {
            let j = choose|j: int| 0 <= j < r.len() && r[j] == y;
            if j < i {
                assert(s[j] == y);
                assert(j != i);
            } else {
                assert(s[j + 1] == y);
                assert(j + 1 != i);
            }
        }
        assert forall|y: u64| s.contains(y) && y != x implies #[trigger] r.contains(y) by {
            let j = choose|j: int| 0 <= j < s.len() && s[j] == y;
            assert(j != i);
            if j < i {
                assert(r[j] == y);
            } else {
                assert(r[j - 1] == y);
            }
        }
        assert forall|p: int, q: int|
            0 <= p < r.len() && 0 <= q < r.len() && p != q implies r[p] != r[q] by {
            let sp = if p < i {
                p
            } else {
                p + 1
            };
            let sq = if q < i {
                q
            } else {
                q + 1
            };
            assert(r[p] == s[sp]);
            assert(r[q] == s[sq]);
        }
    }
}

/// Detaching any holder keeps the world state well formed, whatever the
/// pending set.
pub proof fn lemma_detach_preserves_wf(
    alive: Set<u64>,
    src: Map<u64, u64>,
    tgt: Map<u64, Seq<u64>>,
    next: u64,
    single: bool,
    pending: Set<u64>,
    h: u64,
)
    requires
        state_wf_except(alive, src, tgt, next, single, pending),
    ensures
        state_wf_except(
            alive,
            detach_model(src, tgt, h).0,
            detach_model(src, tgt, h).1,
            next,
            single,
            pending,
        ),
{
    if src.contains_key(h) {
        let t = src[h];
        let src2 = src.remove(h);
        if tgt.contains_key(t) {
            let members = tgt[t];
            if single {
                // the slot holds exactly its occupant; removing anyone else
                // leaves it as it was
                if members[0] == h {
                    assert(members =~= seq![h]);
                    assert(members.contains(h));
                    lemma_remove_value_props(members, h);
                    assert(members.remove_value(h).len() == 0);
                } else {
                    assert(forall|j: int| 0 <= j < members.len() ==> members[j] != h);
                    assert(!members.contains(h));
                    members.index_of_first_ensures(h);
                    assert(members.remove_value(h) == members);
                    assert(tgt.insert(t, members) =~= tgt);
                }
            } else {
                let m2 = members.remove_value(h);
                assert(target_members_wf(src, members, t));
                lemma_remove_value_props(members, h);
                let tgt2 = detach_model(src, tgt, h).1;
                assert forall|t2: u64| #[trigger] tgt2.contains_key(t2) implies target_members_wf(
                    src2,
                    tgt2[t2],
                    t2,
                ) by {
                    assert(target_members_wf(src, tgt[t2], t2));
                    if t2 == t {
                        assert forall|i: int| 0 <= i < m2.len() implies src2.contains_key(
                            #[trigger] m2[i],
                        ) && src2[m2[i]] == t2 by {
                            assert(m2.contains(m2[i]));
                        }
                    } else {
                        assert(!tgt[t2].contains(h));
                    }
                }
                assert forall|h2: u64|
                    #[trigger] src2.contains_key(h2) && !pending.contains(h2)
                    implies tgt2.contains_key(src2[h2]) by {
                    assert(src.contains_key(h2));
                    if src[h2] == t {
                        assert(members.contains(h2));
                        assert(m2.contains(h2));
                        assert(m2.len() > 0);
                    }
                }
            }
        } else {
            if !single {
                assert forall|t2: u64| #[trigger] tgt.contains_key(t2) implies target_members_wf(
                    src2,
                    tgt[t2],
                    t2,
                ) by {
                    assert(target_members_wf(src, tgt[t2], t2));
                    assert(!tgt[t2].contains(h));
                }
            }
        }
    }
}

/// Tearing a target component down detaches exactly its members and keeps
/// the world state well formed, whatever the pending set.
pub proof fn lemma_detach_all_preserves_wf(
    alive: Set<u64>,
    src: Map<u64, u64>,
    tgt: Map<u64, Seq<u64>>,
    next: u64,
    single: bool,
    pending: Set<u64>,
    t: u64,
)
    requires
        state_wf_except(alive, src, tgt, next, single, pending),
    ensures
        state_wf_except(
            alive,
            detach_all_model(src, tgt, t).0,
            detach_all_model(src, tgt, t).1,
            next,
            single,
            pending,
        ),
{
    if tgt.contains_key(t) {
        let members = tgt[t];
        let src2 = src.remove_keys(members.to_set());
        let tgt2 = tgt.remove(t);
        if single {
            assert forall|t2: u64| #[trigger] tgt2.contains_key(t2) implies tgt2[t2].len() == 1
                && src2.contains_key(tgt2[t2][0]) && src2[tgt2[t2][0]] == t2 by {
                let o = tgt[t2][0];
                assert(src.contains_key(o) && src[o] == t2);
                // the occupant of another slot is not a member of t's slot
                if members.to_set().contains(o) {
                    assert(members.contains(o));
                    assert(members[0] == o);
                    assert(src[o] == t);
                }
            }
        } else {
            assert(target_members_wf(src, members, t));
            assert forall|t2: u64| #[trigger] tgt2.contains_key(t2) implies target_members_wf(
                src2,
                tgt2[t2],
                t2,
            ) by {
                assert(target_members_wf(src, tgt[t2], t2));
                assert forall|i: int| 0 <= i < tgt2[t2].len() implies src2.contains_key(
                    #[trigger] tgt2[t2][i],
                ) && src2[tgt2[t2][i]] == t2 by {
                    let x = tgt[t2][i];
                    assert(tgt[t2].contains(x));
                    assert(src.contains_key(x) && src[x] == t2);
                    if members.to_set().contains(x) {
                        assert(members.contains(x));
                        assert(src[x] == t);
                    }
                }
                assert forall|h2: u64| #[trigger] src2.contains_key(h2) && src2[h2] == t2
                    implies tgt2[t2].contains(h2) by {
                    assert(src.contains_key(h2));
                }
            }
            assert forall|h2: u64|
                #[trigger] src2.contains_key(h2) && !pending.contains(h2)
                implies tgt2.contains_key(src2[h2]) by {
                assert(src.contains_key(h2));
                if src[h2] == t {
                    assert(members.contains(h2));
                    assert(members.to_set().contains(h2));
                }
            }
        }
    }
}

/// Removing a live entity that holds no link and no target component from
/// the live set keeps the world state well formed.
pub proof fn lemma_unalive_preserves_wf(
    alive: Set<u64>,
    src: Map<u64, u64>,
    tgt: Map<u64, Seq<u64>>,
    next: u64,
    single: bool,
    pending: Set<u64>,
    e: u64,
)
    requires
        state_wf_except(alive, src, tgt, next, single, pending),
        !src.contains_key(e),
        !tgt.contains_key(e),
    ensures
        state_wf_except(alive.remove(e), src, tgt, next, single, pending),
{
}

/// Taking one target component out wholesale (without touching the
/// forward links of its members) keeps the world state well formed once
/// those members are counted as pending.
pub proof fn lemma_take_target_preserves_wf(
    alive: Set<u64>,
    src: Map<u64, u64>,
    tgt: Map<u64, Seq<u64>>,
    next: u64,
    single: bool,
    pending: Set<u64>,
    t: u64,
)
    requires
        state_wf_except(alive, src, tgt, next, single, pending),
        tgt.contains_key(t),
    ensures
        state_wf_except(
            alive,
            src,
            tgt.remove(t),
            next,
            single,
            pending.union(tgt[t].to_set()),
        ),
{
    let members = tgt[t];
    let tgt2 = tgt.remove(t);
    let pending2 = pending.union(members.to_set());
    if !single {
        assert forall|h2: u64|
            #[trigger] src.contains_key(h2) && !pending2.contains(h2)
            implies tgt2.contains_key(src[h2]) by {
            if src[h2] == t {
                assert(target_members_wf(src, members, t));
                assert(members.contains(h2));
                assert(members.to_set().contains(h2));
            }
        }
    }
}

/// A pending set may be exchanged for any set that still covers the
/// pending holders that hold a link.
pub proof fn lemma_pending_exchange(
    alive: Set<u64>,
    src: Map<u64, u64>,
    tgt: Map<u64, Seq<u64>>,
    next: u64,
    single: bool,
    pending: Set<u64>,
    pending2: Set<u64>,
)
    requires
        state_wf_except(alive, src, tgt, next, single, pending),
        forall|h: u64|
            pending.contains(h) && #[trigger] src.contains_key(h) ==> pending2.contains(h),
    ensures
        state_wf_except(alive, src, tgt, next, single, pending2),
{
}

/// The ids found on a stack of entities: appending stacks unions them.
pub proof fn lemma_ids_to_set_append(a: Seq<Entity>, b: Seq<Entity>)
    ensures
        ids_of(a + b).to_set() =~= ids_of(a).to_set().union(ids_of(b).to_set()),
{
    assert forall|y: u64| ids_of(a + b).to_set().contains(y) implies ids_of(a).to_set().union(
        ids_of(b).to_set(),
    ).contains(y) by {
        let j = choose|j: int| 0 <= j < a.len() + b.len() && (#[trigger] ids_of(a + b)[j]) == y;
        if j < a.len() {
            assert(ids_of(a)[j] == y);
        } else {
            assert(ids_of(b)[j - a.len()] == y);
        }
    }
    assert forall|y: u64| ids_of(a).to_set().union(ids_of(b).to_set()).contains(y)
        implies ids_of(a + b).to_set().contains(y) by {
        if ids_of(a).to_set().contains(y) {
            let j = choose|j: int| 0 <= j < a.len() && (#[trigger] ids_of(a)[j]) == y;
            assert(ids_of(a + b)[j] == y);
        } else {
            let j = choose|j: int| 0 <= j < b.len() && (#[trigger] ids_of(b)[j]) == y;
            assert(ids_of(a + b)[a.len() + j] == y);
        }
    }
}

/// The ids on a stack after popping its last entry: every id that was
/// there is still there, except possibly the popped one.
pub proof fn lemma_ids_to_set_pop(s: Seq<Entity>)
    requires
        s.len() > 0,
    ensures
        forall|y: u64|
            #[trigger] ids_of(s).to_set().contains(y) ==> y == s.last().id || ids_of(
                s.drop_last(),
            ).to_set().contains(y),
        forall|y: u64|
            #[trigger] ids_of(s.drop_last()).to_set().contains(y) ==> ids_of(
                s,
            ).to_set().contains(y),
        ids_of(s).to_set().contains(s.last().id),
{
    assert forall|y: u64| #[trigger] ids_of(s).to_set().contains(y) implies y == s.last().id
        || ids_of(s.drop_last()).to_set().contains(y) by {
        let j = choose|j: int| 0 <= j < s.len() && (#[trigger] ids_of(s)[j]) == y;
        if j < s.len() - 1 {
            assert(ids_of(s.drop_last())[j] == y);
        }
    }
    assert forall|y: u64| #[trigger] ids_of(s.drop_last()).to_set().contains(y) implies ids_of(
        s,
    ).to_set().contains(y) by {
        let j = choose|j: int| 0 <= j < s.len() - 1 && (#[trigger] ids_of(s.drop_last())[j]) == y;
        assert(ids_of(s)[j] == y);
    }
    assert(ids_of(s)[s.len() - 1] == s.last().id);
}

/// Attaching a fresh, live holder to a live target keeps the world state
/// well formed.
pub proof fn lemma_attach_preserves_wf(
    alive: Set<u64>,
    src: Map<u64, u64>,
    tgt: Map<u64, Seq<u64>>,
    next: u64,
    single: bool,
    unique: bool,
    h: u64,
    t: u64,
)
    requires
        state_wf(alive, src, tgt, next, single),
        alive.contains(h),
        alive.contains(t),
        !src.contains_key(h),
    ensures
        state_wf(
            alive,
            attach_model(src, tgt, h, t, single, unique).0,
            attach_model(src, tgt, h, t, single, unique).1,
            next,
            single,
        ),
{
    let members = if tgt.contains_key(t) {
        tgt[t]
    } else {
        Seq::<u64>::empty()
    };
    let src2 = attach_model(src, tgt, h, t, single, unique).0;
    let tgt2 = attach_model(src, tgt, h, t, single, unique).1;
    let m2 = add_model(members, h, single, unique);
    if single {
        assert(m2 =~= seq![h]);
    } else {
        // the fresh holder is in no reverse collection yet
        assert forall|t2: u64| #[trigger] tgt.contains_key(t2) implies !tgt[t2].contains(h) by {
            assert(target_members_wf(src, tgt[t2], t2));
        }
        if tgt.contains_key(t) {
            assert(target_members_wf(src, members, t));
        } else {
            // no component, so no holder points at t yet
            assert forall|h2: u64| !(#[trigger] src.contains_key(h2) && src[h2] == t) by {
                if src.contains_key(h2) && src[h2] == t {
                    assert(tgt.contains_key(t));
                }
            }
        }
        assert(!members.contains(h));
        assert(m2 =~= members.push(h));
        assert forall|t2: u64| #[trigger] tgt2.contains_key(t2) implies target_members_wf(
            src2,
            tgt2[t2],
            t2,
        ) by {
            if t2 == t {
                assert forall|i: int| 0 <= i < m2.len() implies src2.contains_key(
                    #[trigger] m2[i],
                ) && src2[m2[i]] == t by {
                    if i < members.len() {
                        assert(members.contains(members[i]));
                        assert(src.contains_key(members[i]));
                    }
                }
                assert forall|h2: u64| #[trigger] src2.contains_key(h2) && src2[h2] == t
                    implies m2.contains(h2) by {
                    if h2 == h {
                        assert(m2[m2.len() - 1] == h);
                    } else {
                        assert(members.contains(h2));
                        let j = choose|j: int| 0 <= j < members.len() && members[j] == h2;
                        assert(m2[j] == h2);
                    }
                }
                assert(m2.no_duplicates()) by {
                    assert forall|p: int, q: int|
                        0 <= p < m2.len() && 0 <= q < m2.len() && p != q implies m2[p] != m2[q] by {
                        if p < members.len() && q < members.len() {
                            assert(members.no_duplicates());
                        } else if p < members.len() {
                            assert(members.contains(members[p]));
                        } else if q < members.len() {
                            assert(members.contains(members[q]));
                        }
                    }
                }
                assert(target_members_wf(src2, m2, t));
            } else {
                assert(target_members_wf(src, tgt[t2], t2));
                assert forall|i: int| 0 <= i < tgt2[t2].len() implies src2.contains_key(
                    #[trigger] tgt2[t2][i],
                ) && src2[tgt2[t2][i]] == t2 by {
                    assert(tgt[t2].contains(tgt[t2][i]));
                }
                assert(target_members_wf(src2, tgt2[t2], t2));
            }
        }
    }
}

/// A world of entities carrying one relationship pair whose reverse
/// collection is `C`. Source components are forward links (holder to
/// target); target components are reverse collections of holders. The
/// lifecycle operations below are the only doors: they maintain `wf`.
pub struct RelationshipWorld<C: RelationshipSourceCollection> {
    alive: HashMap<u64, ()>,
    next: u64,
    sources: HashMap<u64, u64>,
    targets: HashMap<u64, C>,
    cascades: bool,
}

impl<C: RelationshipSourceCollection> RelationshipWorld<C> {
    /// The ids of the live entities.
    pub closed spec fn alive_set(self) -> Set<u64> {
        self.alive@.dom()
    }

    /// The forward links: each holder id to the target id it names.
    pub closed spec fn src_map(self) -> Map<u64, u64> {
        self.sources@
    }

    /// The reverse collections: each target id to the member ids of its
    /// collection, in iteration order.
    pub closed spec fn tgt_map(self) -> Map<u64, Seq<u64>> {
        Map::new(
            |t: u64| self.targets@.contains_key(t),
            |t: u64| self.targets@[t].model(),
        )
    }

    /// The allocation watermark: every id handed out so far is below it.
    pub closed spec fn next_id(self) -> u64 {
        self.next
    }

    /// Whether despawning a target despawns its holders too.
    pub closed spec fn cascades_on(self) -> bool {
        self.cascades
    }

    /// The world's invariant.
    pub open spec fn wf(self) -> bool {
        state_wf(
            self.alive_set(),
            self.src_map(),
            self.tgt_map(),
            self.next_id(),
            C::single_slot(),
        )
    }

    /// Creates an empty world. `cascades` selects what despawning a target
    /// does to its holders: despawn them too, or merely detach them.
    pub fn new(cascades: bool) -> (w: Self)
        ensures
            w.wf(),
            w.alive_set() == Set::<u64>::empty(),
            w.src_map() == Map::<u64, u64>::empty(),
            w.tgt_map() == Map::<u64, Seq<u64>>::empty(),
            w.cascades_on() == cascades,
    {
        let w = RelationshipWorld {
            alive: HashMap::new(),
            next: 0,
            sources: HashMap::new(),
            targets: HashMap::new(),
            cascades,
        };
        proof {
            assert(w.alive_set() =~= Set::<u64>::empty());
            assert(w.tgt_map() =~= Map::<u64, Seq<u64>>::empty());
        }
        w
    }

    /// Spawns a fresh entity: never one seen before, never the
    /// placeholder. Returns `None` only when the id space is exhausted.
    pub fn spawn(&mut self) -> (spawned: Option<Entity>)
        requires
            old(self).wf(),
        ensures
            final(self).wf(),
            final(self).cascades_on() == old(self).cascades_on(),
            final(self).src_map() == old(self).src_map(),
            final(self).tgt_map() == old(self).tgt_map(),
            match spawned {
                Some(e) => {
                    &&& e.id != PLACEHOLDER_ID
                    &&& !old(self).alive_set().contains(e.id)
                    &&& !old(self).src_map().contains_key(e.id)
                    &&& !old(self).tgt_map().contains_key(e.id)
                    &&& final(self).alive_set() == old(self).alive_set().insert(e.id)
                },
                None => final(self).alive_set() == old(self).alive_set(),
            },
    {
        if self.next < u64::MAX {
            let id = self.next;
            self.next = self.next + 1;
            self.alive.insert(id, ());
            proof {
                assert(self.alive_set() =~= old(self).alive_set().insert(id));
                assert(!old(self).src_map().contains_key(id));
                assert(!old(self).tgt_map().contains_key(id));
            }
            Some(Entity { id })
        } else {
            proof {
                assert(self.alive_set() =~= old(self).alive_set());
            }
            None
        }
    }

    /// Whether `e` is a live entity.
    pub fn is_alive(&self, e: Entity) -> (r: bool)
        ensures
            r == self.alive_set().contains(e.id),
    {
        self.alive.contains_key(&e.id)
    }

    /// The target of `holder`'s source component, if it has one.
    pub fn source_of(&self, holder: Entity) -> (r: Option<Entity>)
        ensures
            match r {
                Some(t) => self.src_map().contains_key(holder.id) && self.src_map()[holder.id]
                    == t.id,
                None => !self.src_map().contains_key(holder.id),
            },
    {
        match self.sources.get(&holder.id) {
            Some(t) => Some(Entity { id: *t }),
            None => None,
        }
    }

    /// Whether `target` currently carries a target component.
    pub fn has_target(&self, target: Entity) -> (r: bool)
        ensures
            r == self.tgt_map().contains_key(target.id),
    {
        self.targets.contains_key(&target.id)
    }

    /// The members of `target`'s reverse collection, in iteration order,
    /// if it carries a target component.
    pub fn collection_of(&self, target: Entity) -> (r: Option<Vec<Entity>>)
        ensures
            match r {
                Some(members) => self.tgt_map().contains_key(target.id) && ids_of(members@)
                    == self.tgt_map()[target.id],
                None => !self.tgt_map().contains_key(target.id),
            },
    {
        match self.targets.get(&target.id) {
            Some(c) => Some(c.iter()),
            None => None,
        }
    }

    /// Counting law at the world level: for a general (not single-slot)
    /// reverse collection, the collection of any target with a target
    /// component holds exactly as many members as there are live holders
    /// whose source component points at that target.
    pub proof fn lemma_collection_len_counts_holders(&self, t: u64)
        requires
            self.wf(),
            !C::single_slot(),
            self.tgt_map().contains_key(t),
        ensures
            holders_of(self.src_map(), t).finite(),
            self.tgt_map()[t].len() == holders_of(self.src_map(), t).len(),
    {
        assert(self.src_map().dom().finite());
        crate::laws::lemma_reverse_count_matches_holders(
            self.alive_set(),
            self.src_map(),
            self.tgt_map(),
            self.next_id(),
            t,
        );
    }

    /// Whether despawning a target despawns its holders too.
    pub fn is_cascading(&self) -> (r: bool)
        ensures
            r == self.cascades_on(),
    {
        self.cascades
    }

    /// Detaches `h`'s forward link, if it has one: the link goes away, `h`
    /// leaves its old target's reverse collection, and an emptied
    /// collection is discarded.
    fn detach(&mut self, h: Entity)
        requires
            old(self).src_map().contains_key(h.id) ==> h.id != PLACEHOLDER_ID,
        ensures
            final(self).src_map() == detach_model(
                old(self).src_map(),
                old(self).tgt_map(),
                h.id,
            ).0,
            final(self).tgt_map() == detach_model(
                old(self).src_map(),
                old(self).tgt_map(),
                h.id,
            ).1,
            final(self).alive_set() == old(self).alive_set(),
            final(self).next_id() == old(self).next_id(),
            final(self).cascades_on() == old(self).cascades_on(),
    {
        let ghost old_tgt = self.tgt_map();
        match self.sources.remove(&h.id) {
            Some(t) => {
                match self.targets.remove(&t) {
                    Some(mut c) => {
                        c.remove(h);
                        if c.len() > 0 {
                            self.targets.insert(t, c);
                            proof {
                                assert(self.tgt_map() =~= old_tgt.insert(
                                    t,
                                    old_tgt[t].remove_value(h.id),
                                ));
                            }
                        } else {
                            proof {
                                assert(self.tgt_map() =~= old_tgt.remove(t));
                            }
                        }
                    },
                    None => {
                        proof {
                            assert(self.tgt_map() =~= old_tgt);
                        }
                    },
                }
            },
            None => {},
        }
    }

    /// Attaches holder `h` (currently without a forward link) to target
    /// `t`: records the link and adds `h` to `t`'s reverse collection,
    /// creating the target component first when absent.
    fn attach(&mut self, h: Entity, t: Entity)
        requires
            h.id != PLACEHOLDER_ID,
        ensures
            final(self).src_map() == attach_model(
                old(self).src_map(),
                old(self).tgt_map(),
                h.id,
                t.id,
                C::single_slot(),
                C::unique_membership(),
            ).0,
            final(self).tgt_map() == attach_model(
                old(self).src_map(),
                old(self).tgt_map(),
                h.id,
                t.id,
                C::single_slot(),
                C::unique_membership(),
            ).1,
            final(self).alive_set() == old(self).alive_set(),
            final(self).next_id() == old(self).next_id(),
            final(self).cascades_on() == old(self).cascades_on(),
    {
        let ghost old_tgt = self.tgt_map();
        let mut c = match self.targets.remove(&t.id) {
            Some(c) => c,
            None => C::with_capacity(1),
        };
        c.add(h);
        self.targets.insert(t.id, c);
        self.sources.insert(h.id, t.id);
        proof {
            let members = if old_tgt.contains_key(t.id) {
                old_tgt[t.id]
            } else {
                Seq::<u64>::empty()
            };
            assert(self.tgt_map() =~= old_tgt.insert(
                t.id,
                add_model(members, h.id, C::single_slot(), C::unique_membership()),
            ));
        }
    }

    /// Inserts a source component naming `target` on `holder`, replacing
    /// any source component `holder` already carried: `holder` leaves its
    /// old target's reverse collection and joins `target`'s. On a
    /// single-slot pair the new holder silently displaces any previous
    /// occupant. Links only live entities; otherwise the world is
    /// untouched and `linked` is false.
    pub fn insert_source(&mut self, holder: Entity, target: Entity) -> (linked: bool)
        requires
            old(self).wf(),
        ensures
            final(self).wf(),
            final(self).alive_set() == old(self).alive_set(),
            final(self).next_id() == old(self).next_id(),
            final(self).cascades_on() == old(self).cascades_on(),
            linked == (old(self).alive_set().contains(holder.id) && old(
                self,
            ).alive_set().contains(target.id)),
            linked ==> final(self).src_map() == insert_model(
                old(self).src_map(),
                old(self).tgt_map(),
                holder.id,
                target.id,
                C::single_slot(),
                C::unique_membership(),
            ).0 && final(self).tgt_map() == insert_model(
                old(self).src_map(),
                old(self).tgt_map(),
                holder.id,
                target.id,
                C::single_slot(),
                C::unique_membership(),
            ).1,
            !linked ==> final(self).src_map() == old(self).src_map() && final(self).tgt_map()
                == old(self).tgt_map(),
    {
        if !self.is_alive(holder) || !self.is_alive(target) {
            return false;
        }
        proof {
            lemma_detach_preserves_wf(
                self.alive_set(),
                self.src_map(),
                self.tgt_map(),
                self.next_id(),
                C::single_slot(),
                Set::<u64>::empty(),
                holder.id,
            );
            lemma_attach_preserves_wf(
                self.alive_set(),
                detach_model(self.src_map(), self.tgt_map(), holder.id).0,
                detach_model(self.src_map(), self.tgt_map(), holder.id).1,
                self.next_id(),
                C::single_slot(),
                C::unique_membership(),
                holder.id,
                target.id,
            );
        }
        self.detach(holder);
        self.attach(holder, target);
        true
    }

    /// Tears down `target`'s target component without touching the live
    /// set: every member of its reverse collection loses its source
    /// component, and the collection is discarded.
    #[verifier::loop_isolation(false)]
    fn detach_all(&mut self, target: Entity)
        ensures
            final(self).src_map() == detach_all_model(
                old(self).src_map(),
                old(self).tgt_map(),
                target.id,
            ).0,
            final(self).tgt_map() == detach_all_model(
                old(self).src_map(),
                old(self).tgt_map(),
                target.id,
            ).1,
            final(self).alive_set() == old(self).alive_set(),
            final(self).next_id() == old(self).next_id(),
            final(self).cascades_on() == old(self).cascades_on(),
    {
        match self.targets.remove(&target.id) {
            Some(c) => {
                let members = c.iter();
                let ghost mids = old(self).tgt_map()[target.id];
                proof {
                    assert(self.tgt_map() =~= old(self).tgt_map().remove(target.id));
                    assert(mids.subrange(0, 0).to_set() =~= Set::<u64>::empty());
                    assert(self.src_map().remove_keys(mids.subrange(0, 0).to_set())
                        =~= self.src_map());
                }
                let ghost src0 = self.src_map();
                let mut k: usize = 0;
                while k < members.len()
                    invariant
                        0 <= k <= members@.len(),
                        mids == ids_of(members@),
                        self.src_map() == src0.remove_keys(
                            mids.subrange(0, k as int).to_set(),
                        ),
                        self.targets@ == old(self).targets@.remove(target.id),
                        self.alive_set() == old(self).alive_set(),
                        self.next_id() == old(self).next_id(),
                        self.cascades_on() == old(self).cascades_on(),
                    decreases members@.len() - k,
                {
                    self.sources.remove(&members[k].id);
                    proof {
                        assert(mids.subrange(0, k as int + 1).to_set() =~= mids.subrange(
                            0,
                            k as int,
                        ).to_set().insert(mids[k as int])) by {
                            assert forall|y: u64|
                                mids.subrange(0, k as int + 1).to_set().contains(y) implies
                                mids.subrange(0, k as int).to_set().insert(
                                    mids[k as int],
                                ).contains(y) by {
                                let j = choose|j: int|
                                    0 <= j < k + 1 && (#[trigger] mids.subrange(
                                        0,
                                        k as int + 1,
                                    )[j]) == y;
                                if j < k {
                                    assert(mids.subrange(0, k as int)[j] == y);
                                }
                            }
                            assert forall|y: u64|
                                mids.subrange(0, k as int).to_set().insert(
                                    mids[k as int],
                                ).contains(y) implies mids.subrange(
                                0,
                                k as int + 1,
                            ).to_set().contains(y) by {
                                if y == mids[k as int] {
                                    assert(mids.subrange(0, k as int + 1)[k as int] == y);
                                } else {
                                    let j = choose|j: int|
                                        0 <= j < k && (#[trigger] mids.subrange(
                                            0,
                                            k as int,
                                        )[j]) == y;
                                    assert(mids.subrange(0, k as int + 1)[j] == y);
                                }
                            }
                        }
                        assert(self.src_map() =~= src0.remove_keys(
                            mids.subrange(0, k as int + 1).to_set(),
                        ));
                    }
                    k = k + 1;
                }
                proof {
                    assert(mids.subrange(0, mids.len() as int) =~= mids);
                    assert(self.tgt_map() =~= detach_all_model(
                        old(self).src_map(),
                        old(self).tgt_map(),
                        target.id,
                    ).1);
                }
            },
            None => {
                proof {
                    assert(self.tgt_map() =~= old(self).tgt_map());
                }
            },
        }
    }

    /// Removes `target`'s target component directly, if it carries one:
    /// every member of its reverse collection loses its source component
    /// (they are detached, not despawned), and the collection is
    /// discarded. Stale forward links of displaced one-to-one holders are
    /// left alone, as inserting did not record them here.
    pub fn remove_target(&mut self, target: Entity)
        requires
            old(self).wf(),
        ensures
            final(self).wf(),
            final(self).alive_set() == old(self).alive_set(),
            final(self).next_id() == old(self).next_id(),
            final(self).cascades_on() == old(self).cascades_on(),
            final(self).src_map() == detach_all_model(
                old(self).src_map(),
                old(self).tgt_map(),
                target.id,
            ).0,
            final(self).tgt_map() == detach_all_model(
                old(self).src_map(),
                old(self).tgt_map(),
                target.id,
            ).1,
    {
        proof {
            lemma_detach_all_preserves_wf(
                self.alive_set(),
                self.src_map(),
                self.tgt_map(),
                self.next_id(),
                C::single_slot(),
                Set::<u64>::empty(),
                target.id,
            );
        }
        self.detach_all(target);
    }

    /// Despawns `e`. Acting as a holder, `e` is first detached from its
    /// target. Acting as a target, the fate of the remaining members of
    /// `e`'s reverse collection depends on the pair: with cascading
    /// despawn they are despawned too, recursively; without, they are
    /// merely detached (they lose their source components and survive).
    pub fn despawn(&mut self, e: Entity)
        requires
            old(self).wf(),
        ensures
            final(self).wf(),
            final(self).next_id() == old(self).next_id(),
            final(self).cascades_on() == old(self).cascades_on(),
            !final(self).alive_set().contains(e.id),
            !final(self).src_map().contains_key(e.id),
            !final(self).tgt_map().contains_key(e.id),
            !old(self).alive_set().contains(e.id) ==> {
                &&& final(self).alive_set() == old(self).alive_set()
                &&& final(self).src_map() == old(self).src_map()
                &&& final(self).tgt_map() == old(self).tgt_map()
            },
            old(self).alive_set().contains(e.id) && !old(self).cascades_on() ==> {
                &&& final(self).alive_set() == old(self).alive_set().remove(e.id)
                &&& final(self).src_map() == despawn_links_model(
                    old(self).src_map(),
                    old(self).tgt_map(),
                    e.id,
                ).0
                &&& final(self).tgt_map() == despawn_links_model(
                    old(self).src_map(),
                    old(self).tgt_map(),
                    e.id,
                ).1
            },
            old(self).alive_set().contains(e.id) && old(self).cascades_on() ==> {
                &&& final(self).alive_set().subset_of(old(self).alive_set().remove(e.id))
                &&& old(self).tgt_map().contains_key(e.id) ==> members_despawned(
                    old(self).tgt_map()[e.id],
                    final(self).alive_set(),
                )
                &&& links_preserved(
                    final(self).alive_set(),
                    old(self).src_map(),
                    final(self).src_map(),
                )
                &&& targets_shrink(old(self).tgt_map(), final(self).tgt_map())
            },
    {
        if !self.is_alive(e) {
            proof {
                assert(!old(self).src_map().contains_key(e.id));
                assert(!old(self).tgt_map().contains_key(e.id));
            }
            return ;
        }
        if !self.cascades {
            proof {
                let a0 = self.alive_set();
                let s0 = self.src_map();
                let t0 = self.tgt_map();
                lemma_detach_preserves_wf(
                    a0,
                    s0,
                    t0,
                    self.next_id(),
                    C::single_slot(),
                    Set::<u64>::empty(),
                    e.id,
                );
                let d = detach_model(s0, t0, e.id);
                lemma_detach_all_preserves_wf(
                    a0,
                    d.0,
                    d.1,
                    self.next_id(),
                    C::single_slot(),
                    Set::<u64>::empty(),
                    e.id,
                );
                let d2 = despawn_links_model(s0, t0, e.id);
                lemma_unalive_preserves_wf(
                    a0,
                    d2.0,
                    d2.1,
                    self.next_id(),
                    C::single_slot(),
                    Set::<u64>::empty(),
                    e.id,
                );
            }
            self.detach(e);
            self.detach_all(e);
            self.alive.remove(&e.id);
            proof {
                assert(self.alive_set() =~= old(self).alive_set().remove(e.id));
            }
        } else {
            self.despawn_cascade(e);
        }
    }

    /// Despawns `e` and, transitively, every member of each despawned
    /// target's reverse collection, depth-first over an explicit worklist.
    #[verifier::loop_isolation(false)]
    fn despawn_cascade(&mut self, e: Entity)
        requires
            old(self).wf(),
            old(self).alive_set().contains(e.id),
        ensures
            final(self).wf(),
            final(self).next_id() == old(self).next_id(),
            final(self).cascades_on() == old(self).cascades_on(),
            !final(self).alive_set().contains(e.id),
            !final(self).src_map().contains_key(e.id),
            !final(self).tgt_map().contains_key(e.id),
            final(self).alive_set().subset_of(old(self).alive_set().remove(e.id)),
            old(self).tgt_map().contains_key(e.id) ==> members_despawned(
                old(self).tgt_map()[e.id],
                final(self).alive_set(),
            ),
            links_preserved(final(self).alive_set(), old(self).src_map(), final(self).src_map()),
            targets_shrink(old(self).tgt_map(), final(self).tgt_map()),
    {
        let ghost members0 = if old(self).tgt_map().contains_key(e.id) {
            old(self).tgt_map()[e.id]
        } else {
            Seq::<u64>::empty()
        };
        let mut stack: Vec<Entity> = Vec::new();
        stack.push(e);
        proof {
            assert(stack@ =~= seq![e]);
            lemma_pending_exchange(
                self.alive_set(),
                self.src_map(),
                self.tgt_map(),
                self.next_id(),
                C::single_slot(),
                Set::<u64>::empty(),
                ids_of(stack@).to_set(),
            );
        }
        while stack.len() > 0
            invariant
                state_wf_except(
                    self.alive_set(),
                    self.src_map(),
                    self.tgt_map(),
                    self.next_id(),
                    C::single_slot(),
                    ids_of(stack@).to_set(),
                ),
                self.next_id() == old(self).next_id(),
                self.cascades_on() == old(self).cascades_on(),
                self.alive_set().subset_of(old(self).alive_set()),
                self.alive_set().contains(e.id) ==> stack@ == seq![e] && self.src_map() == old(
                    self,
                ).src_map() && self.tgt_map() == old(self).tgt_map() && self.alive_set() == old(
                    self,
                ).alive_set(),
                !self.alive_set().contains(e.id) ==> !self.src_map().contains_key(e.id)
                    && !self.tgt_map().contains_key(e.id),
                !self.alive_set().contains(e.id) ==> (forall|x: u64|
                    members0.contains(x) ==> !self.alive_set().contains(x) || ids_of(
                        stack@,
                    ).to_set().contains(x)),
                links_preserved(self.alive_set(), old(self).src_map(), self.src_map()),
                targets_shrink(old(self).tgt_map(), self.tgt_map()),
            decreases self.alive_set().len(), stack@.len(),
        {
            let ghost stack_before = stack@;
            let ghost pend_before = ids_of(stack_before).to_set();
            let x = stack.pop().unwrap();
            proof {
                assert(stack@ =~= stack_before.drop_last());
                lemma_ids_to_set_pop(stack_before);
            }
            if self.is_alive(x) {
                let ghost a1 = self.alive_set();
                let ghost s1 = self.src_map();
                let ghost t1 = self.tgt_map();
                proof {
                    lemma_detach_preserves_wf(
                        a1,
                        s1,
                        t1,
                        self.next_id(),
                        C::single_slot(),
                        pend_before,
                        x.id,
                    );
                }
                self.detach(x);
                let ghost s2 = self.src_map();
                let ghost t2 = self.tgt_map();
                let ghost pend2 = if t2.contains_key(x.id) {
                    pend_before.union(t2[x.id].to_set())
                } else {
                    pend_before
                };
                let mut members: Vec<Entity> = match self.targets.remove(&x.id) {
                    Some(c) => c.iter(),
                    None => Vec::new(),
                };
                proof {
                    if t2.contains_key(x.id) {
                        assert(self.tgt_map() =~= t2.remove(x.id));
                        lemma_take_target_preserves_wf(
                            a1,
                            s2,
                            t2,
                            self.next_id(),
                            C::single_slot(),
                            pend_before,
                            x.id,
                        );
                        assert(ids_of(members@) == t2[x.id]);
                    } else {
                        assert(self.tgt_map() =~= t2);
                        assert(ids_of(members@) =~= Seq::<u64>::empty());
                    }
                    lemma_unalive_preserves_wf(
                        a1,
                        s2,
                        self.tgt_map(),
                        self.next_id(),
                        C::single_slot(),
                        pend2,
                        x.id,
                    );
                }
                let ghost t3 = self.tgt_map();
                self.alive.remove(&x.id);
                proof {
                    assert(self.alive_set() =~= a1.remove(x.id));
                }
                let ghost mseq = members@;
                stack.append(&mut members);
                proof {
                    lemma_ids_to_set_append(stack_before.drop_last(), mseq);
                    // members of x's collection still hold their links, so
                    // the new stack covers every pending holder
                    assert forall|h: u64|
                        pend2.contains(h) && #[trigger] s2.contains_key(h) implies ids_of(
                        stack@,
                    ).to_set().contains(h) by {
                        if pend_before.contains(h) {
                            assert(h != x.id);
                            assert(ids_of(stack_before.drop_last()).to_set().contains(h));
                        } else {
                            assert(t2[x.id].to_set().contains(h));
                            assert(ids_of(mseq).to_set().contains(h));
                        }
                    }
                    lemma_pending_exchange(
                        self.alive_set(),
                        s2,
                        t3,
                        self.next_id(),
                        C::single_slot(),
                        pend2,
                        ids_of(stack@).to_set(),
                    );
                    // the entity just killed no longer blocks any clause
                    if self.alive_set().contains(e.id) {
                        assert(stack_before == seq![e]);
                        assert(x == e);
                        assert(!self.alive_set().contains(e.id));
                    }
                    // every member that e's collection held at entry is dead or
                    // still scheduled
                    assert forall|y: u64|
                        members0.contains(y) && self.alive_set().contains(y) implies ids_of(
                        stack@,
                    ).to_set().contains(y) by {
                        if a1.contains(e.id) {
                            // this iteration processed e itself
                            assert(t1 == old(self).tgt_map());
                            if old(self).tgt_map().contains_key(e.id) {
                                assert(y != x.id);
                                if t2.contains_key(e.id) {
                                    if s1.contains_key(e.id) && s1[e.id] == e.id {
                                        if C::single_slot() {
                                            assert(members0.len() == 1);
                                            if t2[e.id] == members0 {
                                                assert(t2[e.id].to_set().contains(y));
                                            } else {
                                                assert(t2[e.id]
                                                    == members0.remove_value(e.id));
                                                assert(members0[0] == y);
                                                members0.index_of_first_ensures(e.id);
                                                assert(t2[e.id].to_set().contains(y));
                                            }
                                        } else {
                                            assert(target_members_wf(s1, members0, e.id));
                                            lemma_remove_value_props(members0, e.id);
                                            assert(t2[e.id].contains(y));
                                            assert(t2[e.id].to_set().contains(y));
                                        }
                                    } else {
                                        assert(t2[e.id] == members0);
                                        assert(t2[e.id].to_set().contains(y));
                                    }
                                    assert(ids_of(mseq).to_set().contains(y));
                                } else {
                                    // e's collection vanished while
                                    // detaching e: it held only e itself
                                    if C::single_slot() {
                                        assert(members0.len() == 1);
                                        assert(members0[0] == y);
                                        members0.index_of_first_ensures(e.id);
                                        if members0[0] != e.id {
                                            assert(!members0.contains(e.id));
                                            assert(members0.remove_value(e.id) == members0);
                                        }
                                        assert(y == e.id);
                                    } else {
                                        assert(target_members_wf(s1, members0, e.id));
                                        lemma_remove_value_props(members0, e.id);
                                        assert(members0.remove_value(e.id).len() == 0);
                                        assert(y == e.id);
                                    }
                                    assert(false);
                                }
                            }
                        } else {
                            // e was already dead; the clause held before
                            assert(!a1.contains(e.id));
                            if pend_before.contains(y) {
                                assert(y != x.id);
                                assert(ids_of(stack_before.drop_last()).to_set().contains(y));
                            }
                        }
                    }
                }
            } else {
                proof {
                    assert forall|h: u64|
                        pend_before.contains(h) && #[trigger] self.src_map().contains_key(h)
                        implies ids_of(stack@).to_set().contains(h) by {
                        assert(self.alive_set().contains(h));
                        assert(h != x.id);
                    }
                    lemma_pending_exchange(
                        self.alive_set(),
                        self.src_map(),
                        self.tgt_map(),
                        self.next_id(),
                        C::single_slot(),
                        pend_before,
                        ids_of(stack@).to_set(),
                    );
                    assert forall|y: u64|
                        members0.contains(y) && self.alive_set().contains(y)
                            && !self.alive_set().contains(e.id) implies ids_of(
                        stack@,
                    ).to_set().contains(y) by {
                        assert(y != x.id);
                    }
                }
            }
        }
        proof {
            assert(ids_of(stack@).to_set() =~= Set::<u64>::empty());
            assert(!self.alive_set().contains(e.id));
            assert(self.alive_set().subset_of(old(self).alive_set().remove(e.id)));
        }
    }

    /// Removes `holder`'s source component, if it carries one: the forward
    /// link goes away, `holder` leaves its target's reverse collection,
    /// and the target component is removed once its collection empties.
    pub fn remove_source(&mut self, holder: Entity)
        requires
            old(self).wf(),
        ensures
            final(self).wf(),
            final(self).alive_set() == old(self).alive_set(),
            final(self).next_id() == old(self).next_id(),
            final(self).cascades_on() == old(self).cascades_on(),
            final(self).src_map() == detach_model(
                old(self).src_map(),
                old(self).tgt_map(),
                holder.id,
            ).0,
            final(self).tgt_map() == detach_model(
                old(self).src_map(),
                old(self).tgt_map(),
                holder.id,
            ).1,
    {
        proof {
            lemma_detach_preserves_wf(
                self.alive_set(),
                self.src_map(),
                self.tgt_map(),
                self.next_id(),
                C::single_slot(),
                Set::<u64>::empty(),
                holder.id,
            );
        }
        self.detach(holder);
    }
}

} // verus!
