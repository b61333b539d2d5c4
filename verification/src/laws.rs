//! The laws of the relationship protocol, stated and proved over the
//! abstract link state that the world operations are specified against.

use vstd::prelude::*;
use crate::collection::{add_model, unique_add};
use crate::world::{
    detach_model, holders_of, insert_model, state_wf, target_members_wf,
};

verus! {

/// Counting law: a well-formed reverse collection of a general (not
/// single-slot) variant has exactly one member per live holder pointing at
/// its target, so its length equals the number of those holders.
pub proof fn lemma_reverse_count_matches_holders(
    alive: Set<u64>,
    src: Map<u64, u64>,
    tgt: Map<u64, Seq<u64>>,
    next: u64,
    t: u64,
)
    requires
        state_wf(alive, src, tgt, next, false),
        src.dom().finite(),
        tgt.contains_key(t),
    ensures
        holders_of(src, t).finite(),
        tgt[t].len() == holders_of(src, t).len(),
{
    broadcast use vstd::seq_lib::group_seq_lib_default;

    let members = tgt[t];
    assert(target_members_wf(src, members, t));
    assert forall|x: u64| members.to_set().contains(x) implies holders_of(src, t).contains(
        x,
    ) by {
        assert(members.contains(x));
    }
    assert forall|x: u64| holders_of(src, t).contains(x) implies members.to_set().contains(
        x,
    ) by {
        assert(src.contains_key(x) && src[x] == t);
        assert(members.contains(x));
    }
    assert(members.to_set() =~= holders_of(src, t));
    members.unique_seq_to_set();
}

/// Round-trip law: inserting a source component naming `t` on a fresh
/// holder `h` (no prior source component, no other holder of `t`) and then
/// removing it puts the links back exactly: `t`'s target component is
/// absent again and `h` carries no source component.
pub proof fn lemma_insert_remove_round_trip(
    src: Map<u64, u64>,
    tgt: Map<u64, Seq<u64>>,
    h: u64,
    t: u64,
    single: bool,
    unique: bool,
)
    requires
        !src.contains_key(h),
        !tgt.contains_key(t),
    ensures
        detach_model(
            insert_model(src, tgt, h, t, single, unique).0,
            insert_model(src, tgt, h, t, single, unique).1,
            h,
        ).0 == src,
        detach_model(
            insert_model(src, tgt, h, t, single, unique).0,
            insert_model(src, tgt, h, t, single, unique).1,
            h,
        ).1 == tgt,
{
    let m = insert_model(src, tgt, h, t, single, unique);
    let slot = add_model(Seq::<u64>::empty(), h, single, unique);
    assert(slot =~= seq![h]);
    assert(m.0 == src.insert(h, t));
    assert(m.1 == tgt.insert(t, slot));
    assert(slot[0] == h);
    assert(slot.contains(h));
    slot.index_of_first_ensures(h);
    assert(slot.remove_value(h) =~= Seq::<u64>::empty());
    assert(detach_model(m.0, m.1, h).0 =~= src);
    assert(detach_model(m.0, m.1, h).1 =~= tgt);
}

/// Idempotence of add for unique-membership collections: adding an id
/// that is already a member changes nothing, so adding twice grows the
/// membership by exactly one, never two.
pub proof fn lemma_unique_add_idempotent(s: Seq<u64>, x: u64)
    ensures
        unique_add(unique_add(s, x), x) == unique_add(s, x),
        !s.contains(x) ==> unique_add(s, x).len() == s.len() + 1,
        s.contains(x) ==> unique_add(s, x) == s,
{
    if !s.contains(x) {
        assert(s.push(x)[s.len() as int] == x);
        assert(s.push(x).contains(x));
    }
}

/// Single-slot replacement: on a one-to-one pair, inserting `h2` naming
/// `t` and then `h1` naming `t` leaves `t`'s slot holding `h1` alone (last
/// write wins), while the displaced `h2` keeps a stale forward pointer to
/// `t` until its own link next changes.
pub proof fn lemma_single_slot_replacement(
    src: Map<u64, u64>,
    tgt: Map<u64, Seq<u64>>,
    h1: u64,
    h2: u64,
    t: u64,
    unique: bool,
)
    requires
        !src.contains_key(h1),
        !src.contains_key(h2),
        h1 != h2,
    ensures
        insert_model(
            insert_model(src, tgt, h2, t, true, unique).0,
            insert_model(src, tgt, h2, t, true, unique).1,
            h1,
            t,
            true,
            unique,
        ).1[t] == seq![h1],
        insert_model(
            insert_model(src, tgt, h2, t, true, unique).0,
            insert_model(src, tgt, h2, t, true, unique).1,
            h1,
            t,
            true,
            unique,
        ).0[h2] == t,
        insert_model(
            insert_model(src, tgt, h2, t, true, unique).0,
            insert_model(src, tgt, h2, t, true, unique).1,
            h1,
            t,
            true,
            unique,
        ).0[h1] == t,
{
    let m1 = insert_model(src, tgt, h2, t, true, unique);
    assert(m1.0 == src.insert(h2, t));
    let m2 = insert_model(m1.0, m1.1, h1, t, true, unique);
    assert(!m1.0.contains_key(h1));
    assert(m2.1[t] == seq![h1]);
    assert(m2.0[h2] == t);
    assert(m2.0[h1] == t);
}

} // verus!
