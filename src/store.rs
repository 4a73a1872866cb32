use crate::order::{copy_strings, views};
use crate::signature::{
    environment_signature, environment_signature_of, index_signature, index_signature_of,
    lemma_signature_order_independent,
};
use crate::status::{aggregate, aggregate_status, index_transition, IndexStatus};
use crate::step::{ResourceSpec, SpecView};
use vstd::prelude::*;

verus! {

/// A canonical index: the one record of all the requests that share its
/// signature. Its id is its position in the store.
#[derive(Debug)]
pub struct Index {
    pub id: usize,
    pub signature: String,
    pub index_type: String,
    pub data_source: String,
    pub regions: Vec<String>,
    pub filepath: Option<String>,
    pub status: IndexStatus,
    pub created_at: i64,
    pub updated_at: i64,
}

pub struct IndexView {
    pub id: usize,
    pub signature: Seq<char>,
    pub index_type: Seq<char>,
    pub data_source: Seq<char>,
    pub regions: Seq<Seq<char>>,
    pub filepath: Option<Seq<char>>,
    pub status: IndexStatus,
    pub created_at: i64,
    pub updated_at: i64,
}

impl View for Index {
    type V = IndexView;

    open spec fn view(&self) -> IndexView {
        IndexView {
            id: self.id,
            signature: self.signature@,
            index_type: self.index_type@,
            data_source: self.data_source@,
            regions: views(self.regions@),
            filepath: match self.filepath {
                Some(p) => Some(p@),
                None => None,
            },
            status: self.status,
            created_at: self.created_at,
            updated_at: self.updated_at,
        }
    }
}

/// The set of indexes that a background needs, with the signature and the
/// aggregate status of its members. Its id is its position in the store.
#[derive(Debug)]
pub struct Environment {
    pub id: usize,
    pub background: u128,
    pub signature: String,
    pub status: IndexStatus,
    pub indexes: Vec<usize>,
    pub created_at: i64,
    pub updated_at: i64,
}

pub struct EnvironmentView {
    pub id: usize,
    pub background: u128,
    pub signature: Seq<char>,
    pub status: IndexStatus,
    pub indexes: Seq<usize>,
    pub created_at: i64,
    pub updated_at: i64,
}

impl View for Environment {
    type V = EnvironmentView;

    open spec fn view(&self) -> EnvironmentView {
        EnvironmentView {
            id: self.id,
            background: self.background,
            signature: self.signature@,
            status: self.status,
            indexes: self.indexes@,
            created_at: self.created_at,
            updated_at: self.updated_at,
        }
    }
}

/// Failures of the store.
#[derive(Clone, Copy, Debug, PartialEq, Eq, Structural)]
pub enum StoreError {
    /// A link names an index that the store does not hold.
    UnknownIndex,
    /// The index life cycle does not allow the requested move.
    IllegalTransition,
}

/// The persisted state: indexes, keyed uniquely by signature, and the
/// environments of backgrounds, at most one per background, each with a
/// set of member indexes.
#[derive(Debug)]
pub struct Store {
    pub indexes: Vec<Index>,
    pub environments: Vec<Environment>,
}

/// `ms` with `x` added, unless it is there already.
pub open spec fn add_member(ms: Seq<usize>, x: usize) -> Seq<usize> {
    if ms.contains(x) {
        ms
    } else {
        ms.push(x)
    }
}

impl Index {
    /// The request that this index answers: its type, source and regions.
    pub open spec fn request(&self) -> SpecView {
        SpecView {
            index_type: self.index_type@,
            data_source: self.data_source@,
            regions: views(self.regions@),
        }
    }

    /// A copy of this index.
    pub fn copy(&self) -> (r: Index)
        ensures
            r@ == self@,
    {
        let filepath = match &self.filepath {
            Some(p) => Some(p.clone()),
            None => None,
        };
        Index {
            id: self.id,
            signature: self.signature.clone(),
            index_type: self.index_type.clone(),
            data_source: self.data_source.clone(),
            regions: copy_strings(&self.regions),
            filepath,
            status: self.status,
            created_at: self.created_at,
            updated_at: self.updated_at,
        }
    }
}

impl Environment {
    /// A copy of this environment.
    pub fn copy(&self) -> (r: Environment)
        ensures
            r@ == self@,
    {
        let mut members: Vec<usize> = Vec::new();
        let mut i: usize = 0;
        while i < self.indexes.len()
            invariant
                i <= self.indexes@.len(),
                members@ == self.indexes@.subrange(0, i as int),
            decreases self.indexes@.len() - i,
        {
            members.push(self.indexes[i]);
            assert(members@ =~= self.indexes@.subrange(0, i + 1));
            i = i + 1;
        }
        assert(self.indexes@.subrange(0, i as int) =~= self.indexes@);
        Environment {
            id: self.id,
            background: self.background,
            signature: self.signature.clone(),
            status: self.status,
            indexes: members,
            created_at: self.created_at,
            updated_at: self.updated_at,
        }
    }
}

impl Store {
    /// The statuses of the member indexes `ms`, in order.
    pub open spec fn member_statuses(&self, ms: Seq<usize>) -> Seq<IndexStatus> {
        ms.map_values(|m: usize| self.indexes@[m as int].status)
    }

    /// The signatures of the member indexes `ms`, in order.
    pub open spec fn member_signatures(&self, ms: Seq<usize>) -> Seq<Seq<char>> {
        ms.map_values(|m: usize| self.indexes@[m as int].signature@)
    }

    /// An environment whose status and signature are those of its members.
    pub open spec fn env_consistent(&self, e: Environment) -> bool {
        &&& e.status == aggregate(self.member_statuses(e.indexes@))
        &&& e.signature@ == environment_signature_of(
            self.member_signatures(e.indexes@).to_multiset(),
        )
    }

    /// Everything that `wf` asks but that environments agree with their members.
    pub open spec fn wf_shape(&self) -> bool {
        &&& forall|i: int| 0 <= i < self.indexes@.len() ==> (#[trigger] self.indexes@[i]).id == i
        &&& forall|i: int|
            0 <= i < self.indexes@.len() ==> (#[trigger] self.indexes@[i]).signature@
                == index_signature_of(self.indexes@[i].request())
        &&& forall|i: int, j: int|
            0 <= i < j < self.indexes@.len() ==> (#[trigger] self.indexes@[i]).signature@
                != (#[trigger] self.indexes@[j]).signature@
        &&& forall|e: int|
            0 <= e < self.environments@.len() ==> (#[trigger] self.environments@[e]).id == e
        &&& forall|e: int, f: int|
            0 <= e < f < self.environments@.len() ==> (#[trigger] self.environments@[e]).background
                != (#[trigger] self.environments@[f]).background
        &&& forall|e: int|
            0 <= e < self.environments@.len() ==> (#[trigger] self.environments@[e]).indexes@.no_duplicates()
        &&& forall|e: int, k: int|
            0 <= e < self.environments@.len() && 0 <= k < self.environments@[e].indexes@.len()
                ==> (#[trigger] self.environments@[e].indexes@[k]) < self.indexes@.len()
    }

    pub open spec fn wf(&self) -> bool {
        &&& self.wf_shape()
        &&& forall|e: int|
            0 <= e < self.environments@.len() ==> self.env_consistent(
                #[trigger] self.environments@[e],
            )
    }

    /// Whether some index has signature `sig`.
    pub open spec fn has_signature(&self, sig: Seq<char>) -> bool {
        exists|i: int| 0 <= i < self.indexes@.len() && (#[trigger] self.indexes@[i]).signature@ == sig
    }

    /// The index with signature `sig`, where there is one.
    pub open spec fn index_with_signature(&self, sig: Seq<char>) -> int {
        choose|i: int| 0 <= i < self.indexes@.len() && (#[trigger] self.indexes@[i]).signature@ == sig
    }

    /// Whether background `bg` has an environment.
    pub open spec fn has_environment(&self, bg: u128) -> bool {
        exists|e: int|
            0 <= e < self.environments@.len() && (#[trigger] self.environments@[e]).background == bg
    }

    /// The environment of background `bg`, where it has one.
    pub open spec fn environment_of(&self, bg: u128) -> int {
        choose|e: int|
            0 <= e < self.environments@.len() && (#[trigger] self.environments@[e]).background == bg
    }

    /// The member indexes of the environment of `bg`; none where it has none.
    pub open spec fn members_of(&self, bg: u128) -> Seq<usize> {
        if self.has_environment(bg) {
            self.environments@[self.environment_of(bg)].indexes@
        } else {
            Seq::empty()
        }
    }

    /// The signatures of the member indexes of the environment of `bg`.
    pub open spec fn member_signature_set(&self, bg: u128) -> Set<Seq<char>> {
        self.member_signatures(self.members_of(bg)).to_set()
    }

    /// Whether some index has signature `sig`, as the set of signatures says.
    pub proof fn lemma_signature_set(&self, sig: Seq<char>)
        ensures
            self.signature_set().contains(sig) == self.has_signature(sig),
    {
        let sigs = self.indexes@.map_values(|i: Index| i.signature@);
        if self.has_signature(sig) {
            let i = self.index_with_signature(sig);
            assert(sigs[i] == sig);
        }
        if self.signature_set().contains(sig) {
            let i = choose|i: int| 0 <= i < sigs.len() && sigs[i] == sig;
            assert(self.indexes@[i].signature@ == sig);
        }
    }

    /// The signatures of all indexes.
    pub open spec fn signature_set(&self) -> Set<Seq<char>> {
        self.indexes@.map_values(|i: Index| i.signature@).to_set()
    }

    /// An empty store.
    pub fn new() -> (r: Store)
        ensures
            r.wf(),
            r.indexes@.len() == 0,
            r.environments@.len() == 0,
    {
        Store { indexes: Vec::new(), environments: Vec::new() }
    }

    /// The position of the index with signature `sig`, if there is one.
    pub fn find_signature(&self, sig: &str) -> (r: Option<usize>)
        ensures
            r matches Some(k) ==> k < self.indexes@.len() && self.indexes@[k as int].signature@
                == sig@,
            r is None ==> !self.has_signature(sig@),
    {
        let mut i: usize = 0;
        while i < self.indexes.len()
            invariant
                i <= self.indexes@.len(),
                forall|k: int| 0 <= k < i ==> (#[trigger] self.indexes@[k]).signature@ != sig@,
            decreases self.indexes@.len() - i,
        {
            if crate::order::text_eq(self.indexes[i].signature.as_str(), sig) {
                return Some(i);
            }
            i = i + 1;
        }
        None
    }

    /// The position of the environment of background `bg`, if it has one.
    pub fn find_environment(&self, bg: u128) -> (r: Option<usize>)
        ensures
            r matches Some(e) ==> e < self.environments@.len()
                && self.environments@[e as int].background == bg,
            r is None ==> !self.has_environment(bg),
    {
        let mut i: usize = 0;
        while i < self.environments.len()
            invariant
                i <= self.environments@.len(),
                forall|k: int| 0 <= k < i ==> (#[trigger] self.environments@[k]).background != bg,
            decreases self.environments@.len() - i,
        {
            if self.environments[i].background == bg {
                return Some(i);
            }
            i = i + 1;
        }
        None
    }

    /// The environment with id `id`, if there is one.
    pub fn fetch_environment_by_id(&self, id: usize) -> (r: Option<Environment>)
        requires
            self.wf(),
        ensures
            r is None <==> id >= self.environments@.len(),
            r matches Some(env) ==> env@ == self.environments@[id as int]@,
    {
        if id < self.environments.len() {
            Some(self.environments[id].copy())
        } else {
            None
        }
    }

    /// The environment of background `background`, if it has one.
    pub fn fetch_environment_of_background(&self, background: u128) -> (r: Option<Environment>)
        requires
            self.wf(),
        ensures
            r is None <==> !self.has_environment(background),
            r matches Some(env) ==> env@ == self.environments@[self.environment_of(background)]@,
    {
        match self.find_environment(background) {
            Some(e) => {
                proof {
                    lemma_environment_of(*self, background, e as int);
                }
                Some(self.environments[e].copy())
            },
            None => None,
        }
    }

    /// All environments, in order of creation.
    pub fn fetch_all_environments(&self) -> (r: Vec<Environment>)
        ensures
            r@.len() == self.environments@.len(),
            forall|e: int| 0 <= e < r@.len() ==> (#[trigger] r@[e])@ == self.environments@[e]@,
    {
        let mut r: Vec<Environment> = Vec::new();
        let mut i: usize = 0;
        while i < self.environments.len()
            invariant
                i <= self.environments@.len(),
                r@.len() == i,
                forall|e: int| 0 <= e < i ==> (#[trigger] r@[e])@ == self.environments@[e]@,
            decreases self.environments@.len() - i,
        {
            r.push(self.environments[i].copy());
            i = i + 1;
        }
        r
    }

    /// The member indexes of the environment with id `id`, in the order in
    /// which they were linked; none where there is no such environment.
    pub fn fetch_indexes_by_environment_id(&self, id: usize) -> (r: Vec<Index>)
        requires
            self.wf(),
        ensures
            id >= self.environments@.len() ==> r@.len() == 0,
            id < self.environments@.len() ==> {
                &&& r@.len() == self.environments@[id as int].indexes@.len()
                &&& forall|k: int|
                    0 <= k < r@.len() ==> (#[trigger] r@[k])@ == self.indexes@[self.environments@[id as int].indexes@[k] as int]@
            },
    {
        let mut r: Vec<Index> = Vec::new();
        if id >= self.environments.len() {
            return r;
        }
        let ms = &self.environments[id].indexes;
        let mut i: usize = 0;
        while i < ms.len()
            invariant
                id < self.environments@.len(),
                *ms == self.environments@[id as int].indexes,
                self.wf(),
                i <= ms@.len(),
                r@.len() == i,
                forall|k: int| 0 <= k < i ==> (#[trigger] r@[k])@ == self.indexes@[ms@[k] as int]@,
            decreases ms@.len() - i,
        {
            let m = ms[i];
            assert(self.environments@[id as int].indexes@[i as int] < self.indexes@.len());
            r.push(self.indexes[m].copy());
            i = i + 1;
        }
        r
    }

    /// The signature and the aggregate status of an environment whose
    /// members are `members`.
    fn summarize(&self, members: &Vec<usize>) -> (r: (String, IndexStatus))
        requires
            forall|k: int| 0 <= k < members@.len() ==> #[trigger] members@[k] < self.indexes@.len(),
        ensures
            r.0@ == environment_signature_of(self.member_signatures(members@).to_multiset()),
            r.1 == aggregate(self.member_statuses(members@)),
    {
        let mut sigs: Vec<String> = Vec::new();
        let mut statuses: Vec<IndexStatus> = Vec::new();
        let mut i: usize = 0;
        while i < members.len()
            invariant
                i <= members@.len(),
                forall|k: int| 0 <= k < members@.len() ==> #[trigger] members@[k] < self.indexes@.len(),
                views(sigs@) == self.member_signatures(members@.subrange(0, i as int)),
                statuses@ == self.member_statuses(members@.subrange(0, i as int)),
            decreases members@.len() - i,
        {
            let m = members[i];
            let sg = self.indexes[m].signature.clone();
            let ghost prev = views(sigs@);
            sigs.push(sg);
            assert(views(sigs@) =~= prev.push(sg@));
            statuses.push(self.indexes[m].status);
            assert(views(sigs@) =~= self.member_signatures(members@.subrange(0, i + 1)));
            assert(statuses@ =~= self.member_statuses(members@.subrange(0, i + 1)));
            i = i + 1;
        }
        assert(members@.subrange(0, i as int) =~= members@);
        (environment_signature(&sigs), aggregate_status(&statuses))
    }

    /// What registering request `spec` at time `now` does to store `old`,
    /// giving store `new` and index `r`: where an index has the signature of
    /// the request, nothing changes and that index is returned; otherwise a
    /// new index with the next id and status `NotAvailable` is appended.
    pub open spec fn upserted(old: Store, new: Store, spec: SpecView, r: IndexView, now: i64) -> bool {
        let sig = index_signature_of(spec);
        &&& r.signature == sig
        &&& new.environments == old.environments
        &&& old.has_signature(sig) ==> {
            &&& new == old
            &&& r == old.indexes@[old.index_with_signature(sig)]@
        }
        &&& !old.has_signature(sig) ==> {
            &&& new.indexes@ == old.indexes@.push(new.indexes@.last())
            &&& r == new.indexes@.last()@
            &&& r == (IndexView {
                id: old.indexes@.len() as usize,
                signature: sig,
                index_type: spec.index_type,
                data_source: spec.data_source,
                regions: spec.regions,
                filepath: None,
                status: IndexStatus::NotAvailable,
                created_at: now,
                updated_at: now,
            })
        }
    }

    /// Registers the index that `spec` asks for and returns it.
    ///
    /// Where an index with the same signature exists, that index is returned
    /// and the store is left as it was; otherwise a new index, with status
    /// `NotAvailable` and the next id, is added. There is never more than
    /// one index per signature.
    pub fn upsert_index(&mut self, spec: &ResourceSpec, now: i64) -> (r: Index)
        requires
            old(self).wf(),
        ensures
            final(self).wf(),
            Store::upserted(*old(self), *final(self), spec@, r@, now),
    {
        let sig = index_signature(spec);
        match self.find_signature(sig.as_str()) {
            Some(k) => {
                let r = self.indexes[k].copy();
                proof {
                    let w = self.index_with_signature(sig@);
                    assert(self.indexes@[k as int].signature@ == sig@);
                    if w != k {
                        if w < k {
                            assert(self.indexes@[w].signature@ != self.indexes@[k as int].signature@);
                        } else {
                            assert(self.indexes@[k as int].signature@ != self.indexes@[w].signature@);
                        }
                    }
                }
                r
            },
            None => {
                let ghost old_store = *self;
                let id = self.indexes.len();
                let ix = Index {
                    id,
                    signature: sig,
                    index_type: spec.index_type.clone(),
                    data_source: spec.data_source.clone(),
                    regions: copy_strings(&spec.regions),
                    filepath: None,
                    status: IndexStatus::NotAvailable,
                    created_at: now,
                    updated_at: now,
                };
                let r = ix.copy();
                self.indexes.push(ix);
                proof {
                    lemma_indexes_extended(old_store, *self);
                }
                r
            },
        }
    }

    /// The position of the environment of background `background`, which is
    /// created, empty, where the background has none.
    pub fn ensure_environment(&mut self, background: u128, now: i64) -> (e: usize)
        requires
            old(self).wf(),
        ensures
            final(self).wf(),
            final(self).indexes == old(self).indexes,
            e < final(self).environments@.len(),
            final(self).environments@[e as int].background == background,
            final(self).has_environment(background),
            final(self).environment_of(background) == e,
            final(self).members_of(background) == old(self).members_of(background),
            old(self).has_environment(background) ==> *final(self) == *old(self),
            forall|bg: u128|
                bg != background ==> final(self).has_environment(bg) == old(self).has_environment(bg)
                    && final(self).members_of(bg) == old(self).members_of(bg),
    {
        let ghost old_store = *self;
        let e = match self.find_environment(background) {
            Some(e) => e,
            None => {
                let members: Vec<usize> = Vec::new();
                let (signature, status) = self.summarize(&members);
                let id = self.environments.len();
                let env = Environment {
                    id,
                    background,
                    signature,
                    status,
                    indexes: members,
                    created_at: now,
                    updated_at: now,
                };
                self.environments.push(env);
                proof {
                    assert forall|f: int| 0 <= f < self.environments@.len() implies self.env_consistent(
                        #[trigger] self.environments@[f],
                    ) by {
                        if f < id {
                            assert(self.environments@[f] == old_store.environments@[f]);
                        }
                    }
                    assert forall|f: int| 0 <= f < id implies (#[trigger] self.environments@[f]).background != background by {
                        assert(self.environments@[f] == old_store.environments@[f]);
                    }
                    assert(self.environments@[id as int].indexes@.no_duplicates());
                }
                id
            },
        };
        proof {
            assert(self.environments@[e as int].background == background);
            lemma_environment_of(*self, background, e as int);
            if !old_store.has_environment(background) {
                assert(old_store.members_of(background) =~= self.members_of(background));
            } else {
                lemma_environment_of(old_store, background, e as int);
            }
            assert forall|bg: u128| bg != background implies self.has_environment(bg)
                == old_store.has_environment(bg) && self.members_of(bg) == old_store.members_of(bg) by {
                if old_store.has_environment(bg) {
                    let f = old_store.environment_of(bg);
                    assert(self.environments@[f] == old_store.environments@[f]);
                    lemma_environment_of(*self, bg, f);
                }
                if self.has_environment(bg) {
                    let f = self.environment_of(bg);
                    if f < old_store.environments@.len() {
                        assert(self.environments@[f] == old_store.environments@[f]);
                    }
                }
            }
        }
        e
    }

    /// Store `new` is store `old` with index `id` moved to `status` at time
    /// `now`, and nothing else changed but the environments' aggregates.
    pub open spec fn status_moved(old: Store, new: Store, id: usize, status: IndexStatus, now: i64) -> bool {
        let o = old.indexes@[id as int]@;
        &&& new.indexes@.len() == old.indexes@.len()
        &&& new.indexes@[id as int]@ == (IndexView {
            id: o.id,
            signature: o.signature,
            index_type: o.index_type,
            data_source: o.data_source,
            regions: o.regions,
            filepath: o.filepath,
            status,
            created_at: o.created_at,
            updated_at: now,
        })
        &&& forall|i: int| 0 <= i < old.indexes@.len() && i != id ==> new.indexes@[i] == old.indexes@[i]
        &&& new.environments@.len() == old.environments@.len()
        &&& forall|e: int|
            0 <= e < old.environments@.len() ==> (#[trigger] new.environments@[e]).indexes@
                == old.environments@[e].indexes@ && new.environments@[e].background
                == old.environments@[e].background
    }

    /// Moves index `id` to `status`, where the index life cycle allows it,
    /// at time `now`; the environments that it belongs to take the new
    /// aggregate status.
    pub fn set_index_status(&mut self, id: usize, status: IndexStatus, now: i64) -> (r: Result<
        (),
        StoreError,
    >)
        requires
            old(self).wf(),
        ensures
            final(self).wf(),
            (r == Err::<(), StoreError>(StoreError::UnknownIndex)) <==> id >= old(self).indexes@.len(),
            (r == Err::<(), StoreError>(StoreError::IllegalTransition)) <==> (id < old(self).indexes@.len()
                && !index_transition(old(self).indexes@[id as int].status, status)),
            r is Err ==> *final(self) == *old(self),
            r is Ok ==> Store::status_moved(*old(self), *final(self), id, status, now),
    {
        if id >= self.indexes.len() {
            return Err(StoreError::UnknownIndex);
        }
        if !self.indexes[id].status.can_move_to(status) {
            return Err(StoreError::IllegalTransition);
        }
        let ghost s0 = *self;
        let mut ix = self.indexes[id].copy();
        ix.status = status;
        ix.updated_at = now;
        self.indexes[id] = ix;
        let ghost s1 = *self;
        assert forall|i: int, j: int| 0 <= i < j < self.indexes@.len() implies (#[trigger] self.indexes@[i]).signature@
            != (#[trigger] self.indexes@[j]).signature@ by {
            assert(s0.indexes@[i].signature@ != s0.indexes@[j].signature@);
        }
        let mut e: usize = 0;
        while e < self.environments.len()
            invariant
                self.wf_shape(),
                self.indexes == s1.indexes,
                self.environments@.len() == s0.environments@.len(),
                e <= self.environments@.len(),
                forall|f: int|
                    0 <= f < s0.environments@.len() ==> (#[trigger] self.environments@[f]).indexes@
                        == s0.environments@[f].indexes@ && self.environments@[f].background
                        == s0.environments@[f].background,
                forall|f: int| 0 <= f < e ==> self.env_consistent(#[trigger] self.environments@[f]),
            decreases self.environments@.len() - e,
        {
            let cur = &self.environments[e];
            let mut members: Vec<usize> = Vec::new();
            let mut i: usize = 0;
            while i < cur.indexes.len()
                invariant
                    i <= cur.indexes@.len(),
                    members@ == cur.indexes@.subrange(0, i as int),
                decreases cur.indexes@.len() - i,
            {
                members.push(cur.indexes[i]);
                assert(members@ =~= cur.indexes@.subrange(0, i + 1));
                i = i + 1;
            }
            assert(cur.indexes@.subrange(0, i as int) =~= cur.indexes@);
            assert forall|k: int| 0 <= k < members@.len() implies #[trigger] members@[k] < self.indexes@.len() by {
                assert(self.environments@[e as int].indexes@[k] < self.indexes@.len());
            }
            let (signature, st) = self.summarize(&members);
            let env = Environment {
                id: cur.id,
                background: cur.background,
                signature,
                status: st,
                indexes: members,
                created_at: cur.created_at,
                updated_at: cur.updated_at,
            };
            let ghost before = *self;
            self.environments[e] = env;
            proof {
                assert forall|f: int| 0 <= f < e + 1 implies self.env_consistent(#[trigger] self.environments@[f]) by {
                    if f < e {
                        assert(self.environments@[f] == before.environments@[f]);
                    }
                }
                assert forall|f: int| 0 <= f < self.environments@.len() implies (#[trigger] self.environments@[f]).id == f by {
                    assert(before.environments@[f].id == f);
                }
                assert forall|f: int, g: int| 0 <= f < g < self.environments@.len() implies (#[trigger] self.environments@[f]).background
                    != (#[trigger] self.environments@[g]).background by {
                    assert(before.environments@[f].background != before.environments@[g].background);
                }
                assert forall|f: int| 0 <= f < self.environments@.len() implies (#[trigger] self.environments@[f]).indexes@.no_duplicates() by {
                    assert(before.environments@[f].indexes@.no_duplicates());
                }
                assert forall|f: int, k: int|
                    0 <= f < self.environments@.len() && 0 <= k < self.environments@[f].indexes@.len()
                        implies (#[trigger] self.environments@[f].indexes@[k]) < self.indexes@.len() by {
                    assert(before.environments@[f].indexes@[k] < self.indexes@.len());
                }
            }
            e = e + 1;
        }
        Ok(())
    }

    /// Links index `index_id` to the environment of background `background`,
    /// creating that environment, empty, where the background has none, and
    /// returns the environment with its signature and status recomputed.
    /// Linking an index that is already a member changes no member.
    pub fn link_index(&mut self, index_id: usize, background: u128, now: i64) -> (r: Result<
        Environment,
        StoreError,
    >)
        requires
            old(self).wf(),
        ensures
            final(self).wf(),
            r is Err <==> index_id >= old(self).indexes@.len(),
            r is Err ==> *final(self) == *old(self),
            r matches Ok(env) ==> {
                &&& final(self).indexes == old(self).indexes
                &&& final(self).has_environment(background)
                &&& final(self).members_of(background) == add_member(
                    old(self).members_of(background),
                    index_id,
                )
                &&& env@ == final(self).environments@[final(self).environment_of(background)]@
                &&& env.updated_at == now
                &&& old(self).has_environment(background) ==> final(self).environment_of(background)
                    == old(self).environment_of(background)
                &&& forall|bg: u128|
                    bg != background ==> final(self).has_environment(bg) == old(
                        self,
                    ).has_environment(bg) && final(self).members_of(bg) == old(self).members_of(bg)
            },
    {
        if index_id >= self.indexes.len() {
            return Err(StoreError::UnknownIndex);
        }
        let ghost old_store = *self;
        let e = self.ensure_environment(background, now);
        let ghost mid = *self;
        let cur = &self.environments[e];
        let mut members: Vec<usize> = Vec::new();
        let mut present = false;
        let mut i: usize = 0;
        while i < cur.indexes.len()
            invariant
                i <= cur.indexes@.len(),
                members@ == cur.indexes@.subrange(0, i as int),
                present == cur.indexes@.subrange(0, i as int).contains(index_id),
            decreases cur.indexes@.len() - i,
        {
            let m = cur.indexes[i];
            if m == index_id {
                present = true;
            }
            members.push(m);
            proof {
                let p = cur.indexes@.subrange(0, i + 1);
                assert(members@ =~= p);
                assert(p =~= cur.indexes@.subrange(0, i as int).push(m));
                if p.contains(index_id) && m != index_id {
                    let k = choose|k: int| 0 <= k < p.len() && p[k] == index_id;
                    assert(cur.indexes@.subrange(0, i as int)[k] == index_id);
                }
                if m == index_id {
                    assert(p[i as int] == index_id);
                }
                if cur.indexes@.subrange(0, i as int).contains(index_id) {
                    let k = choose|k: int| 0 <= k < i && cur.indexes@.subrange(0, i as int)[k] == index_id;
                    assert(p[k] == index_id);
                }
            }
            i = i + 1;
        }
        assert(cur.indexes@.subrange(0, i as int) =~= cur.indexes@);
        if !present {
            members.push(index_id);
        }
        let (signature, status) = self.summarize(&members);
        let env = Environment {
            id: e,
            background,
            signature,
            status,
            indexes: members,
            created_at: cur.created_at,
            updated_at: now,
        };
        let r = env.copy();
        self.environments[e] = env;
        proof {
            let cur_ms = mid.environments@[e as int].indexes@;
            assert(self.environments@[e as int].indexes@ == add_member(cur_ms, index_id));
            if !present {
                assert forall|a: int, b: int| 0 <= a < b < cur_ms.len() + 1 implies
                    add_member(cur_ms, index_id)[a] != add_member(cur_ms, index_id)[b] by {
                    if b == cur_ms.len() {
                        assert(add_member(cur_ms, index_id)[a] == cur_ms[a]);
                    }
                }
            }
            assert forall|f: int| 0 <= f < self.environments@.len() implies self.env_consistent(
                #[trigger] self.environments@[f],
            ) by {
                if f != e {
                    assert(self.environments@[f] == mid.environments@[f]);
                }
            }
            assert forall|f: int, k: int|
                0 <= f < self.environments@.len() && 0 <= k < self.environments@[f].indexes@.len()
                    implies (#[trigger] self.environments@[f].indexes@[k]) < self.indexes@.len() by {
                if f != e {
                    assert(self.environments@[f] == mid.environments@[f]);
                } else if k < cur_ms.len() {
                    assert(self.environments@[f].indexes@[k] == cur_ms[k]);
                }
            }
            assert forall|f: int, g: int| 0 <= f < g < self.environments@.len() implies
                (#[trigger] self.environments@[f]).background != (#[trigger] self.environments@[g]).background by {
                assert(mid.environments@[f].background != mid.environments@[g].background);
            }
            lemma_environment_of(*self, background, e as int);
            assert forall|bg: u128| bg != background implies self.has_environment(bg)
                == mid.has_environment(bg) && self.members_of(bg) == mid.members_of(bg) by {
                if mid.has_environment(bg) {
                    let f = mid.environment_of(bg);
                    assert(self.environments@[f] == mid.environments@[f]);
                    lemma_environment_of(*self, bg, f);
                }
                if self.has_environment(bg) {
                    let f = self.environment_of(bg);
                    if f != e {
                        assert(self.environments@[f] == mid.environments@[f]);
                    }
                }
            }
        }
        Ok(r)
    }
}

/// In a well-formed store, the environment of a background is the one
/// position that holds it.
pub proof fn lemma_environment_of(s: Store, bg: u128, e: int)
    requires
        s.wf(),
        0 <= e < s.environments@.len(),
        s.environments@[e].background == bg,
    ensures
        s.has_environment(bg),
        s.environment_of(bg) == e,
        s.members_of(bg) == s.environments@[e].indexes@,
{
    let f = s.environment_of(bg);
    if f != e {
        if f < e {
            assert(s.environments@[f].background != s.environments@[e].background);
        } else {
            assert(s.environments@[e].background != s.environments@[f].background);
        }
    }
}

/// Adding an index with a fresh signature keeps a store well formed.
proof fn lemma_indexes_extended(old_store: Store, new_store: Store)
    requires
        old_store.wf(),
        new_store.environments == old_store.environments,
        new_store.indexes@.len() == old_store.indexes@.len() + 1,
        forall|i: int| 0 <= i < old_store.indexes@.len() ==> new_store.indexes@[i] == old_store.indexes@[i],
        new_store.indexes@.last().id == old_store.indexes@.len(),
        !old_store.has_signature(new_store.indexes@.last().signature@),
        new_store.indexes@.last().signature@ == index_signature_of(new_store.indexes@.last().request()),
    ensures
        new_store.wf(),
        new_store.indexes@ == old_store.indexes@.push(new_store.indexes@.last()),
{
    let n = old_store.indexes@.len() as int;
    assert(new_store.indexes@ =~= old_store.indexes@.push(new_store.indexes@.last()));
    assert forall|i: int| 0 <= i < new_store.indexes@.len() implies (#[trigger] new_store.indexes@[i]).id == i
        && new_store.indexes@[i].signature@ == index_signature_of(new_store.indexes@[i].request()) by {
        if i < n {
            assert(new_store.indexes@[i] == old_store.indexes@[i]);
        }
    }
    assert forall|i: int, j: int| 0 <= i < j < new_store.indexes@.len() implies (#[trigger] new_store.indexes@[i]).signature@
        != (#[trigger] new_store.indexes@[j]).signature@ by {
        assert(new_store.indexes@[i] == old_store.indexes@[i]);
        if j < n {
            assert(new_store.indexes@[j] == old_store.indexes@[j]);
        }
    }
    assert forall|e: int| 0 <= e < new_store.environments@.len() implies new_store.env_consistent(
        #[trigger] new_store.environments@[e],
    ) by {
        let ms = new_store.environments@[e].indexes@;
        assert(old_store.env_consistent(old_store.environments@[e]));
        assert forall|k: int| 0 <= k < ms.len() implies #[trigger] ms[k] < n by {
            assert(old_store.environments@[e].indexes@[k] < n);
        }
        assert(new_store.member_statuses(ms) =~= old_store.member_statuses(ms));
        assert(new_store.member_signatures(ms) =~= old_store.member_signatures(ms));
    }
}

/// Registering a request twice, the second time with its regions in any
/// order, returns the same index both times, and the second registration
/// changes nothing: there is never a duplicate.
pub proof fn lemma_upsert_idempotent(
    s0: Store,
    s1: Store,
    s2: Store,
    a: SpecView,
    b: SpecView,
    r1: IndexView,
    r2: IndexView,
    t1: i64,
    t2: i64,
)
    requires
        s0.wf(),
        s1.wf(),
        Store::upserted(s0, s1, a, r1, t1),
        Store::upserted(s1, s2, b, r2, t2),
        a.index_type == b.index_type,
        a.data_source == b.data_source,
        a.regions.to_multiset() == b.regions.to_multiset(),
    ensures
        r2 == r1,
        r2.id == r1.id,
        s2 == s1,
{
    lemma_signature_order_independent(a, b);
    let sig = index_signature_of(a);
    if s0.has_signature(sig) {
        assert(s1 == s0);
    } else {
        let n = s1.indexes@.len() - 1;
        assert(s1.indexes@[n].signature@ == sig);
        assert(s1.has_signature(sig));
        let w = s1.index_with_signature(sig);
        if w != n {
            assert(s1.indexes@[w].signature@ != s1.indexes@[n].signature@);
        }
    }
}

} // verus!
