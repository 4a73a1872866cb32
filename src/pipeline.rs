use crate::catalog::{
    validate_data_source, validate_data_source_with_index_type, validate_index_type, Catalog,
    ValidationKind,
};
use crate::signature::index_signature_of;
use crate::step::{extract_index_from_step, is_step_text, parse_of, SourceType, Step, StepType};
use crate::status::IndexStatus;
use crate::store::{add_member, Environment, Index, Store};
use vstd::prelude::*;

verus! {

/// Whether a request must also name a data source that the catalog pairs
/// with its index type.
#[derive(Clone, Copy, Debug, PartialEq, Eq, Structural)]
pub enum CompatibilityPolicy {
    Enforce,
    Skip,
}

/// Why a materialization stopped, and at which step.
#[derive(Clone, Copy, Debug, PartialEq, Eq, Structural)]
pub enum PipelineError {
    /// The text of the step does not follow the grammar of a request.
    Parse { step: usize },
    /// The request of the step failed a catalog check.
    Validation { step: usize, kind: ValidationKind },
}

/// The error that step `st`, at position `k`, stops a materialization with,
/// if any. Steps that are not Given-steps are passed over.
#[verifier::opaque]
pub open spec fn step_error(k: int, st: Step, catalog: Catalog, policy: CompatibilityPolicy) -> Option<
    PipelineError,
> {
    if st.step_type != StepType::Given {
        None
    } else if !is_step_text(st.value@) {
        Some(PipelineError::Parse { step: k as usize })
    } else {
        let s = parse_of(st.value@);
        if !catalog.has_index_type(s.index_type) {
            Some(PipelineError::Validation { step: k as usize, kind: ValidationKind::UnknownType })
        } else if !catalog.has_data_source(s.data_source) {
            Some(
                PipelineError::Validation { step: k as usize, kind: ValidationKind::UnknownSource },
            )
        } else if policy == CompatibilityPolicy::Enforce && !catalog.has_pair(
            s.data_source,
            s.index_type,
        ) {
            Some(
                PipelineError::Validation {
                    step: k as usize,
                    kind: ValidationKind::IncompatiblePair,
                },
            )
        } else {
            None
        }
    }
}

/// The signatures of the indexes that the Given-steps among `steps` ask for.
pub open spec fn requested(steps: Seq<Step>) -> Set<Seq<char>>
    decreases steps.len(),
{
    if steps.len() == 0 {
        Set::empty()
    } else {
        let p = requested(steps.drop_last());
        if steps.last().step_type == StepType::Given {
            p.insert(index_signature_of(parse_of(steps.last().value@)))
        } else {
            p
        }
    }
}

/// Index `ix`, which is not in store `old`, was added for one of the
/// Given-steps among `steps`: it answers that step's request, has a
/// signature that `old` did not hold, and is not yet available.
pub open spec fn added_for(ix: Index, old: Store, steps: Seq<Step>) -> bool {
    &&& ix.status == IndexStatus::NotAvailable
    &&& !old.signature_set().contains(ix.signature@)
    &&& exists|k: int|
        0 <= k < steps.len() && (#[trigger] steps[k]).step_type == StepType::Given
            && ix.request() == parse_of(steps[k].value@)
}

/// Store `new` is store `old` with the requests of `steps` registered and
/// linked to the environment of background `bg`: the environment keeps its
/// place where it existed, the indexes that were there stay as they were,
/// and each index added answers one of the requests.
#[verifier::opaque]
pub open spec fn materialized(old: Store, new: Store, bg: u128, steps: Seq<Step>) -> bool {
    &&& new.has_environment(bg)
    &&& old.has_environment(bg) ==> new.environment_of(bg) == old.environment_of(bg)
    &&& new.member_signature_set(bg) == old.member_signature_set(bg) + requested(steps)
    &&& new.signature_set() == old.signature_set() + requested(steps)
    &&& old.indexes@.len() <= new.indexes@.len()
    &&& forall|i: int| 0 <= i < old.indexes@.len() ==> new.indexes@[i] == old.indexes@[i]
    &&& forall|i: int|
        old.indexes@.len() <= i < new.indexes@.len() ==> added_for(
            #[trigger] new.indexes@[i],
            old,
            steps,
        )
    &&& members_extended(old, new, bg)
}

/// The members of the environment of `bg` in store `new` are those in
/// store `old`, in the same order, followed by indexes whose signatures
/// were not among the members' in `old`.
pub open spec fn members_extended(old: Store, new: Store, bg: u128) -> bool {
    let om = old.members_of(bg);
    let nm = new.members_of(bg);
    &&& om.len() <= nm.len()
    &&& forall|j: int| 0 <= j < om.len() ==> nm[j] == om[j]
    &&& forall|j: int|
        om.len() <= j < nm.len() ==> !old.member_signature_set(bg).contains(
            new.indexes@[#[trigger] nm[j] as int].signature@,
        )
}

/// Store `new` differs from store `old` only by added indexes and by the
/// members of the environment of background `bg`.
#[verifier::opaque]
pub open spec fn same_elsewhere(old: Store, new: Store, bg: u128) -> bool {
    &&& old.indexes@.len() <= new.indexes@.len()
    &&& forall|i: int| 0 <= i < old.indexes@.len() ==> new.indexes@[i] == old.indexes@[i]
    &&& forall|b: u128|
        b != bg ==> new.has_environment(b) == old.has_environment(b) && new.members_of(b)
            == old.members_of(b)
}

/// Adding indexes leaves the signatures of existing members as they were.
proof fn lemma_member_signatures_stable(a: Store, b: Store, ms: Seq<usize>)
    requires
        a.indexes@.len() <= b.indexes@.len(),
        forall|i: int| 0 <= i < a.indexes@.len() ==> b.indexes@[i] == a.indexes@[i],
        forall|k: int| 0 <= k < ms.len() ==> #[trigger] ms[k] < a.indexes@.len(),
    ensures
        b.member_signatures(ms) == a.member_signatures(ms),
{
    assert(b.member_signatures(ms) =~= a.member_signatures(ms)) by {
        assert forall|k: int| 0 <= k < ms.len() implies b.member_signatures(ms)[k]
            == a.member_signatures(ms)[k] by {
            assert(b.indexes@[ms[k] as int] == a.indexes@[ms[k] as int]);
        }
    }
}

/// The elements of `s` with `x` appended are those of `s` and `x`.
proof fn lemma_push_to_set(s: Seq<Seq<char>>, x: Seq<char>)
    ensures
        s.push(x).to_set() == s.to_set().insert(x),
{
    assert(s.push(x).to_set() =~= s.to_set().insert(x)) by {
        assert forall|y: Seq<char>| s.push(x).to_set().contains(y) implies s.to_set().insert(
            x,
        ).contains(y) by {
            let k = choose|k: int| 0 <= k < s.push(x).len() && s.push(x)[k] == y;
            if k < s.len() {
                assert(s[k] == y);
            }
        }
        assert forall|y: Seq<char>| s.to_set().insert(x).contains(y) implies s.push(
            x,
        ).to_set().contains(y) by {
            if y == x {
                assert(s.push(x)[s.len() as int] == x);
            } else {
                let k = choose|k: int| 0 <= k < s.len() && s[k] == y;
                assert(s.push(x)[k] == y);
            }
        }
    }
}

/// Registers and links the request of one step: after it, the signature of
/// the request is in the store and among the members of the environment.
fn register_and_link(
    store: &mut Store,
    spec: &crate::step::ResourceSpec,
    background: u128,
    now: i64,
)
    requires
        old(store).wf(),
        old(store).has_environment(background),
    ensures
        final(store).wf(),
        final(store).has_environment(background),
        final(store).signature_set() == old(store).signature_set().insert(
            index_signature_of(spec@),
        ),
        final(store).member_signature_set(background) == old(store).member_signature_set(
            background,
        ).insert(index_signature_of(spec@)),
        same_elsewhere(*old(store), *final(store), background),
        old(store).has_environment(background) ==> final(store).environment_of(background) == old(
            store,
        ).environment_of(background),
        forall|i: int|
            old(store).indexes@.len() <= i < final(store).indexes@.len() ==> {
                &&& (#[trigger] final(store).indexes@[i]).status == IndexStatus::NotAvailable
                &&& final(store).indexes@[i].request() == spec@
                &&& !old(store).signature_set().contains(final(store).indexes@[i].signature@)
            },
        members_extended(*old(store), *final(store), background),
{
    reveal(same_elsewhere);
    let ghost s0 = *store;
    let ghost sig = index_signature_of(spec@);
    let ix = store.upsert_index(spec, now);
    let ghost s1 = *store;
    proof {
        let sigs0 = s0.indexes@.map_values(|i: crate::store::Index| i.signature@);
        if s0.has_signature(sig) {
            let w = s0.index_with_signature(sig);
            assert(sigs0[w] == sig);
            assert(s0.signature_set() =~= s0.signature_set().insert(sig));
        } else {
            assert(s1.indexes@.map_values(|i: crate::store::Index| i.signature@) =~= sigs0.push(sig));
            lemma_push_to_set(sigs0, sig);
        }
        assert(ix.id < s1.indexes@.len());
        assert(s1.indexes@[ix.id as int].signature@ == sig);
        let ms = s0.members_of(background);
        let e = s0.environment_of(background);
        assert forall|k: int| 0 <= k < ms.len() implies #[trigger] ms[k] < s0.indexes@.len() by {
            assert(s0.environments@[e].indexes@[k] < s0.indexes@.len());
        }
        lemma_member_signatures_stable(s0, s1, ms);
        assert(s1.members_of(background) == ms);
        s0.lemma_signature_set(sig);
        if !s0.has_signature(sig) {
            let n = s0.indexes@.len() as int;
            assert(s1.indexes@[n].request() =~= spec@);
        }
    }
    let _ = store.link_index(ix.id, background, now);
    proof {
        let ms = s0.members_of(background);
        let ms2 = store.members_of(background);
        assert(ms2 == add_member(ms, ix.id));
        let sigs = s1.member_signatures(ms);
        if ms.contains(ix.id) {
            let k = choose|k: int| 0 <= k < ms.len() && ms[k] == ix.id;
            assert(sigs[k] == sig);
            assert(sigs.to_set() =~= sigs.to_set().insert(sig));
        } else {
            assert(store.member_signatures(ms2) =~= sigs.push(sig));
            lemma_push_to_set(sigs, sig);
            if s0.member_signature_set(background).contains(sig) {
                let k = choose|k: int| 0 <= k < sigs.len() && sigs[k] == sig;
                let m = ms[k];
                assert(s1.indexes@[m as int].signature@ == sig);
                assert(s1.wf());
                if (m as int) < (ix.id as int) {
                    assert(s1.indexes@[m as int].signature@ != s1.indexes@[ix.id as int].signature@);
                } else if (ix.id as int) < (m as int) {
                    assert(s1.indexes@[ix.id as int].signature@ != s1.indexes@[m as int].signature@);
                }
                assert(ms[k] == ix.id);
            }
            assert(ms2[ms.len() as int] == ix.id);
        }
    }
}

/// Handles one step of a materialization: a Given-step is parsed, checked
/// against the catalog, registered and linked; any other step is passed over.
fn process_step(
    store: &mut Store,
    catalog: &Catalog,
    policy: CompatibilityPolicy,
    background: u128,
    st: &Step,
    k: usize,
    now: i64,
) -> (r: Result<(), PipelineError>)
    requires
        old(store).wf(),
        old(store).has_environment(background),
    ensures
        r is Ok <==> step_error(k as int, *st, *catalog, policy) is None,
        r matches Err(e) ==> step_error(k as int, *st, *catalog, policy) == Some(e) && *final(store)
            == *old(store),
        r is Ok ==> {
            &&& final(store).wf()
            &&& final(store).has_environment(background)
            &&& same_elsewhere(*old(store), *final(store), background)
            &&& materialized(*old(store), *final(store), background, seq![*st])
        },
{
    proof {
        lemma_requested_one(*st);
        reveal(step_error);
        reveal(same_elsewhere);
        reveal(materialized);
    }
    if st.step_type != StepType::Given {
        proof {
            assert(store.member_signature_set(background) =~= store.member_signature_set(background)
                + requested(seq![*st]));
            assert(store.signature_set() =~= store.signature_set() + requested(seq![*st]));
        }
        return Ok(());
    }
    let spec = match extract_index_from_step(st.value.as_str()) {
        Ok(s) => s,
        Err(_) => {
            return Err(PipelineError::Parse { step: k });
        },
    };
    if let Err(e) = validate_index_type(spec.index_type.as_str(), catalog) {
        return Err(PipelineError::Validation { step: k, kind: e.kind });
    }
    if let Err(e) = validate_data_source(spec.data_source.as_str(), catalog) {
        return Err(PipelineError::Validation { step: k, kind: e.kind });
    }
    if policy == CompatibilityPolicy::Enforce {
        if let Err(e) = validate_data_source_with_index_type(
            spec.data_source.as_str(),
            spec.index_type.as_str(),
            catalog,
        ) {
            return Err(PipelineError::Validation { step: k, kind: e.kind });
        }
    }
    let ghost s0 = *store;
    register_and_link(store, &spec, background, now);
    proof {
        let sig = index_signature_of(spec@);
        assert(store.member_signature_set(background) =~= s0.member_signature_set(background)
            + requested(seq![*st]));
        assert(store.signature_set() =~= s0.signature_set() + requested(seq![*st]));
    }
    Ok(())
}

/// Builds the environment of background `background` from its steps.
///
/// The Given-steps are handled one after the other, in order: each is
/// parsed, its index type and data source are checked against the catalog
/// (and, under `CompatibilityPolicy::Enforce`, their pairing), the index it
/// asks for is registered and linked to the environment of the background,
/// which is created at the start where it does not exist. The first step
/// that fails stops the whole run with its error; the work of the steps
/// before it stays in the store.
pub fn fetch_background_environment(
    store: &mut Store,
    catalog: &Catalog,
    policy: CompatibilityPolicy,
    background: u128,
    steps: &Vec<Step>,
    now: i64,
) -> (r: Result<Environment, PipelineError>)
    requires
        old(store).wf(),
    ensures
        final(store).wf(),
        same_elsewhere(*old(store), *final(store), background),
        r is Ok <==> forall|k: int|
            0 <= k < steps@.len() ==> step_error(k, #[trigger] steps@[k], *catalog, policy) is None,
        r matches Ok(env) ==> {
            &&& materialized(*old(store), *final(store), background, steps@)
            &&& env@ == final(store).environments@[final(store).environment_of(background)]@
        },
        r matches Err(e) ==> exists|k: int|
            0 <= k < steps@.len() && step_error(k, #[trigger] steps@[k], *catalog, policy) == Some(
                e,
            ) && (forall|j: int|
                0 <= j < k ==> step_error(j, #[trigger] steps@[j], *catalog, policy) is None)
                && materialized(*old(store), *final(store), background, steps@.take(k)),
{
    let ghost s0 = *store;
    let _ = store.ensure_environment(background, now);
    proof {
        reveal(same_elsewhere);
        reveal(materialized);
        assert(requested(steps@.take(0)) =~= Set::empty());
        assert(store.member_signature_set(background) =~= s0.member_signature_set(background)
            + requested(steps@.take(0)));
        assert(store.signature_set() =~= s0.signature_set() + requested(steps@.take(0)));
    }
    let mut i: usize = 0;
    while i < steps.len()
        invariant
            i <= steps@.len(),
            s0 == *old(store),
            store.wf(),
            store.has_environment(background),
            forall|j: int| 0 <= j < i ==> step_error(j, #[trigger] steps@[j], *catalog, policy) is None,
            materialized(s0, *store, background, steps@.take(i as int)),
            same_elsewhere(s0, *store, background),
        decreases steps@.len() - i,
    {
        let ghost before = *store;
        let res = process_step(store, catalog, policy, background, &steps[i], i, now);
        if let Err(e) = res {
            assert(step_error(i as int, steps@[i as int], *catalog, policy) == Some(e));
            assert(*store == before);
            assert(step_error(i as int, steps@[i as int], *catalog, policy) == Some(e) && (forall|j: int|
                0 <= j < i ==> step_error(j, #[trigger] steps@[j], *catalog, policy) is None)
                && materialized(s0, *store, background, steps@.take(i as int)));
            return Err(e);
        }
        proof {
            lemma_materialized_step(s0, before, *store, background, steps@, i as int);
        }
        i = i + 1;
    }
    assert(steps@.take(i as int) =~= steps@);
    let e = store.ensure_environment(background, now);
    Ok(store.environments[e].copy())
}

/// The requests of one more step are those of the steps before it and its own.
proof fn lemma_requested_step(steps: Seq<Step>, i: int)
    requires
        0 <= i < steps.len(),
    ensures
        requested(steps.take(i + 1)) == requested(steps.take(i)) + requested(seq![steps[i]]),
{
    let t = steps.take(i + 1);
    assert(t.drop_last() =~= steps.take(i));
    assert(t.last() == steps[i]);
    let u = seq![steps[i]];
    assert(u.drop_last() =~= Seq::<Step>::empty());
    assert(u.last() == steps[i]);
    lemma_requested_one(steps[i]);
    assert(requested(t) =~= requested(steps.take(i)) + requested(u));
}

/// The request of a single step: its signature for a Given-step, else none.
proof fn lemma_requested_one(st: Step)
    ensures
        requested(seq![st]) == (if st.step_type == StepType::Given {
            Set::<Seq<char>>::empty().insert(index_signature_of(parse_of(st.value@)))
        } else {
            Set::<Seq<char>>::empty()
        }),
{
    let u = seq![st];
    assert(u.drop_last() =~= Seq::<Step>::empty());
    assert(u.last() == st);
    assert(requested(Seq::<Step>::empty()) == Set::<Seq<char>>::empty());
}

/// Materializing the steps before `i` and then step `i` materializes the
/// steps up to and including `i`.
proof fn lemma_materialized_step(
    s0: Store,
    before: Store,
    after: Store,
    bg: u128,
    steps: Seq<Step>,
    i: int,
)
    requires
        0 <= i < steps.len(),
        materialized(s0, before, bg, steps.take(i)),
        materialized(before, after, bg, seq![steps[i]]),
        same_elsewhere(s0, before, bg),
        same_elsewhere(before, after, bg),
        before.wf(),
    ensures
        materialized(s0, after, bg, steps.take(i + 1)),
        same_elsewhere(s0, after, bg),
{
    reveal(same_elsewhere);
    reveal(materialized);
    let om = s0.members_of(bg);
    let bm = before.members_of(bg);
    let nm = after.members_of(bg);
    assert forall|j: int| om.len() <= j < nm.len() implies !s0.member_signature_set(bg).contains(
        after.indexes@[#[trigger] nm[j] as int].signature@,
    ) by {
        if j < bm.len() {
            let e = before.environment_of(bg);
            assert(before.environments@[e].indexes@[j] < before.indexes@.len());
            assert(after.indexes@[bm[j] as int] == before.indexes@[bm[j] as int]);
        } else {
            assert(before.member_signature_set(bg) == s0.member_signature_set(bg) + requested(steps.take(i)));
        }
    }
    lemma_requested_step(steps, i);
    assert(after.member_signature_set(bg) =~= s0.member_signature_set(bg) + requested(
        steps.take(i + 1),
    ));
    assert(after.signature_set() =~= s0.signature_set() + requested(steps.take(i + 1)));
}

/// A run whose requests all have an index already adds no index: the
/// indexes are those that were there, unchanged.
pub proof fn lemma_registered_requests_add_no_index(s0: Store, s1: Store, bg: u128, steps: Seq<Step>)
    requires
        materialized(s0, s1, bg, steps),
        requested(steps).subset_of(s0.signature_set()),
    ensures
        s1.indexes@ == s0.indexes@,
{
    reveal(materialized);
    if s1.indexes@.len() > s0.indexes@.len() {
        let n = s0.indexes@.len() as int;
        let x = s1.indexes@[n];
        assert(added_for(x, s0, steps));
        assert(s1.indexes@.map_values(|i: Index| i.signature@)[n] == x.signature@);
        assert(s1.signature_set().contains(x.signature@));
    }
    assert(s1.indexes@ =~= s0.indexes@);
}

/// Two backgrounds without an environment, each materialized from one
/// Given-step, where the two requests differ only in the order of their
/// regions, end with the same member signatures: the same index serves
/// both.
pub proof fn lemma_region_order_shares_index(
    s0: Store,
    s1: Store,
    s2: Store,
    b1: u128,
    b2: u128,
    st1: Step,
    st2: Step,
)
    requires
        !s0.has_environment(b1),
        !s1.has_environment(b2),
        materialized(s0, s1, b1, seq![st1]),
        materialized(s1, s2, b2, seq![st2]),
        st1.step_type == StepType::Given,
        st2.step_type == StepType::Given,
        parse_of(st1.value@).index_type == parse_of(st2.value@).index_type,
        parse_of(st1.value@).data_source == parse_of(st2.value@).data_source,
        parse_of(st1.value@).regions.to_multiset() == parse_of(st2.value@).regions.to_multiset(),
    ensures
        s1.member_signature_set(b1) == s2.member_signature_set(b2),
        s2.indexes@ == s1.indexes@,
{
    crate::signature::lemma_signature_order_independent(parse_of(st1.value@), parse_of(st2.value@));
    lemma_requested_one(st1);
    lemma_requested_one(st2);
    assert(requested(seq![st1]) == requested(seq![st2]));
    reveal(materialized);
    assert(s0.member_signatures(s0.members_of(b1)) =~= Seq::<Seq<char>>::empty());
    assert(s1.member_signatures(s1.members_of(b2)) =~= Seq::<Seq<char>>::empty());
    assert(s1.member_signature_set(b1) =~= requested(seq![st1]));
    assert(s2.member_signature_set(b2) =~= requested(seq![st2]));
    lemma_registered_requests_add_no_index(s1, s2, b2, seq![st2]);
}

/// Materializing a background again from the same steps adds no index and
/// no member: its environment keeps its place, its members, its status and
/// its signature. From a
/// background that had no environment, the members are exactly the indexes
/// that its Given-steps ask for.
pub proof fn lemma_materialize_idempotent(s0: Store, s1: Store, s2: Store, bg: u128, steps: Seq<Step>)
    requires
        s1.wf(),
        s2.wf(),
        materialized(s0, s1, bg, steps),
        materialized(s1, s2, bg, steps),
    ensures
        s2.member_signature_set(bg) == s1.member_signature_set(bg),
        s2.environments@[s2.environment_of(bg)].status == s1.environments@[s1.environment_of(
            bg,
        )].status,
        s2.environments@[s2.environment_of(bg)].signature@ == s1.environments@[s1.environment_of(
            bg,
        )].signature@,
        s2.signature_set() == s1.signature_set(),
        s2.indexes@ == s1.indexes@,
        s2.environment_of(bg) == s1.environment_of(bg),
        s2.members_of(bg) == s1.members_of(bg),
        !s0.has_environment(bg) ==> s1.member_signature_set(bg) == requested(steps),
{
    reveal(materialized);
    assert(requested(steps).subset_of(s1.signature_set()));
    lemma_registered_requests_add_no_index(s1, s2, bg, steps);
    let m1 = s1.members_of(bg);
    let m2 = s2.members_of(bg);
    if m2.len() > m1.len() {
        let j = m1.len() as int;
        let x = s2.indexes@[m2[j] as int].signature@;
        assert(s2.member_signatures(m2)[j] == x);
        assert(s2.member_signature_set(bg).contains(x));
    }
    assert(m2 =~= m1);
    let e = s1.environment_of(bg);
    assert(s2.environments@[e].indexes@ == m2);
    assert(s1.environments@[e].indexes@ == m1);
    assert(s2.env_consistent(s2.environments@[e]));
    assert(s1.env_consistent(s1.environments@[e]));
    assert(s2.member_statuses(m2) =~= s1.member_statuses(m1));
    assert(s2.member_signatures(m2) =~= s1.member_signatures(m1));
    assert(s2.member_signature_set(bg) =~= s1.member_signature_set(bg));
    assert(s2.signature_set() =~= s1.signature_set());
    if !s0.has_environment(bg) {
        assert(s0.member_signatures(s0.members_of(bg)) =~= Seq::<Seq<char>>::empty());
        assert(s0.member_signature_set(bg) =~= Set::<Seq<char>>::empty());
        assert(s1.member_signature_set(bg) =~= requested(steps));
    }
}

/// In a well-formed store the members of an environment have distinct
/// signatures: requests that share a signature share one member.
pub proof fn lemma_members_distinct(s: Store, bg: u128)
    requires
        s.wf(),
    ensures
        s.member_signatures(s.members_of(bg)).no_duplicates(),
{
    if s.has_environment(bg) {
        let e = s.environment_of(bg);
        let ms = s.members_of(bg);
        let sigs = s.member_signatures(ms);
        assert forall|a: int, b: int| 0 <= a < sigs.len() && 0 <= b < sigs.len() && a != b implies sigs[a]
            != sigs[b] by {
            assert(s.environments@[e].indexes@.no_duplicates());
            assert(ms[a] != ms[b]);
            assert(s.environments@[e].indexes@[a] < s.indexes@.len());
            assert(s.environments@[e].indexes@[b] < s.indexes@.len());
            if ms[a] < ms[b] {
                assert(s.indexes@[ms[a] as int].signature@ != s.indexes@[ms[b] as int].signature@);
            } else {
                assert(s.indexes@[ms[b] as int].signature@ != s.indexes@[ms[a] as int].signature@);
            }
        }
    } else {
        assert(s.member_signatures(s.members_of(bg)) =~= Seq::<Seq<char>>::empty());
    }
}

/// The read operations offered to callers.
pub struct Query;

/// The operations that change the store, offered to callers.
pub struct Mutation;

impl Query {
    /// The environment of the steps of `id`. Scenarios have none, and the
    /// store is left as it is; for a background it is built from its steps
    /// as `fetch_background_environment` does.
    pub fn environment(
        store: &mut Store,
        catalog: &Catalog,
        policy: CompatibilityPolicy,
        id: u128,
        src: SourceType,
        steps: &Vec<Step>,
        now: i64,
    ) -> (r: Result<Option<Environment>, PipelineError>)
        requires
            old(store).wf(),
        ensures
            final(store).wf(),
            src == SourceType::Scenario ==> r == Ok::<Option<Environment>, PipelineError>(None)
                && *final(store) == *old(store),
            src == SourceType::Background ==> {
                &&& same_elsewhere(*old(store), *final(store), id)
                &&& r is Ok <==> forall|k: int|
                    0 <= k < steps@.len() ==> step_error(k, #[trigger] steps@[k], *catalog, policy)
                        is None
                &&& r matches Ok(v) ==> {
                    &&& v is Some
                    &&& materialized(*old(store), *final(store), id, steps@)
                    &&& v->0@ == final(store).environments@[final(store).environment_of(id)]@
                }
                &&& r matches Err(e) ==> exists|k: int|
                    0 <= k < steps@.len() && step_error(k, #[trigger] steps@[k], *catalog, policy)
                        == Some(e) && (forall|j: int|
                        0 <= j < k ==> step_error(j, #[trigger] steps@[j], *catalog, policy) is None)
                        && materialized(*old(store), *final(store), id, steps@.take(k))
            },
    {
        match src {
            SourceType::Scenario => Ok(None),
            SourceType::Background => {
                match fetch_background_environment(store, catalog, policy, id, steps, now) {
                    Ok(env) => Ok(Some(env)),
                    Err(e) => Err(e),
                }
            },
        }
    }

    /// All environments.
    pub fn environments(store: &Store) -> (r: Vec<Environment>)
        ensures
            r@.len() == store.environments@.len(),
            forall|e: int| 0 <= e < r@.len() ==> (#[trigger] r@[e])@ == store.environments@[e]@,
    {
        store.fetch_all_environments()
    }

    /// The member indexes of environment `id`.
    pub fn indexes(store: &Store, id: usize) -> (r: Vec<Index>)
        requires
            store.wf(),
        ensures
            id >= store.environments@.len() ==> r@.len() == 0,
            id < store.environments@.len() ==> {
                &&& r@.len() == store.environments@[id as int].indexes@.len()
                &&& forall|k: int|
                    0 <= k < r@.len() ==> (#[trigger] r@[k])@ == store.indexes@[store.environments@[id as int].indexes@[k] as int]@
            },
    {
        store.fetch_indexes_by_environment_id(id)
    }
}

impl Mutation {
    /// Builds the environment of background `background` from its steps, as
    /// `fetch_background_environment` does.
    pub fn background_environment(
        store: &mut Store,
        catalog: &Catalog,
        policy: CompatibilityPolicy,
        background: u128,
        steps: &Vec<Step>,
        now: i64,
    ) -> (r: Result<Environment, PipelineError>)
        requires
            old(store).wf(),
        ensures
            final(store).wf(),
            same_elsewhere(*old(store), *final(store), background),
            r is Ok <==> forall|k: int|
                0 <= k < steps@.len() ==> step_error(k, #[trigger] steps@[k], *catalog, policy) is None,
            r matches Ok(env) ==> {
                &&& materialized(*old(store), *final(store), background, steps@)
                &&& env@ == final(store).environments@[final(store).environment_of(background)]@
            },
            r matches Err(e) ==> exists|k: int|
                0 <= k < steps@.len() && step_error(k, #[trigger] steps@[k], *catalog, policy)
                    == Some(e) && (forall|j: int|
                    0 <= j < k ==> step_error(j, #[trigger] steps@[j], *catalog, policy) is None)
                    && materialized(*old(store), *final(store), background, steps@.take(k)),
    {
        fetch_background_environment(store, catalog, policy, background, steps, now)
    }
}

} // verus!
