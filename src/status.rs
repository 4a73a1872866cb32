use vstd::prelude::*;

verus! {

/// Life cycle of an index, from nothing to ready for use.
///
/// The variants are listed in the order of forward progression; each error
/// state follows the in-progress state that it can be retried from.
#[derive(Clone, Copy, Debug, PartialEq, Eq, Structural)]
pub enum IndexStatus {
    NotAvailable,
    DownloadInProgress,
    DownloadError,
    Downloaded,
    IndexingInProgress,
    IndexingError,
    Indexed,
    ValidationInProgress,
    ValidationError,
    Available,
}

/// Life cycle of a downloadable data item.
#[derive(Clone, Copy, Debug, PartialEq, Eq, Structural)]
pub enum FileStatus {
    NotAvailable,
    DownloadInProgress,
    Available,
    DownloadError,
}

/// Position of a status in the order of forward progression.
pub open spec fn progress(s: IndexStatus) -> nat {
    match s {
        IndexStatus::NotAvailable => 0,
        IndexStatus::DownloadInProgress => 1,
        IndexStatus::DownloadError => 2,
        IndexStatus::Downloaded => 3,
        IndexStatus::IndexingInProgress => 4,
        IndexStatus::IndexingError => 5,
        IndexStatus::Indexed => 6,
        IndexStatus::ValidationInProgress => 7,
        IndexStatus::ValidationError => 8,
        IndexStatus::Available => 9,
    }
}

pub open spec fn is_error(s: IndexStatus) -> bool {
    s is DownloadError || s is IndexingError || s is ValidationError
}

/// How bad a status is when it stands for a whole environment: any error is
/// worse than any other status, and among errors, as among the others, the
/// less progressed status is the worse one. `Available` is the least severe.
pub open spec fn severity(s: IndexStatus) -> nat {
    if is_error(s) {
        (19 - progress(s)) as nat
    } else {
        (9 - progress(s)) as nat
    }
}

/// The more severe of two statuses.
pub open spec fn worse(a: IndexStatus, b: IndexStatus) -> IndexStatus {
    if severity(b) > severity(a) { b } else { a }
}

/// The aggregate status of a collection of member statuses.
pub open spec fn aggregate(s: Seq<IndexStatus>) -> IndexStatus
    decreases s.len(),
{
    if s.len() == 0 {
        IndexStatus::Available
    } else {
        worse(aggregate(s.drop_last()), s.last())
    }
}

/// Two statuses are equally severe only when they are the same status.
pub proof fn lemma_severity_injective(a: IndexStatus, b: IndexStatus)
    ensures
        severity(a) == severity(b) ==> a == b,
{
}

/// The aggregate is `Available` exactly when every member is, and otherwise
/// it is the most severe member.
pub proof fn lemma_aggregate(s: Seq<IndexStatus>)
    ensures
        (aggregate(s) == IndexStatus::Available) <==> (forall|i: int|
            0 <= i < s.len() ==> s[i] == IndexStatus::Available),
        forall|i: int| 0 <= i < s.len() ==> severity(#[trigger] s[i]) <= severity(aggregate(s)),
        s.len() > 0 ==> s.contains(aggregate(s)),
    decreases s.len(),
{
    if s.len() > 0 {
        let p = s.drop_last();
        lemma_aggregate(p);
        assert forall|i: int| 0 <= i < s.len() implies severity(#[trigger] s[i]) <= severity(
            aggregate(s),
        ) by {
            if i < s.len() - 1 {
                assert(s[i] == p[i]);
            }
        }
        if aggregate(s) == IndexStatus::Available {
            assert forall|i: int| 0 <= i < s.len() implies s[i] == IndexStatus::Available by {
                lemma_severity_injective(s[i], IndexStatus::Available);
            }
        }
        if forall|i: int| 0 <= i < s.len() ==> s[i] == IndexStatus::Available {
            assert forall|i: int| 0 <= i < p.len() implies p[i] == IndexStatus::Available by {
                assert(p[i] == s[i]);
            }
            assert(s[s.len() - 1] == IndexStatus::Available);
        }
        if p.len() > 0 && aggregate(s) == aggregate(p) {
            let k = choose|k: int| 0 <= k < p.len() && p[k] == aggregate(p);
            assert(s[k] == p[k]);
        }
        assert(s[s.len() - 1] == s.last());
    }
}

impl IndexStatus {
    /// The severity of this status, as `severity` states it.
    pub fn severity(&self) -> (r: u8)
        ensures
            r as nat == severity(*self),
    {
        match self {
            IndexStatus::NotAvailable => 9,
            IndexStatus::DownloadInProgress => 8,
            IndexStatus::DownloadError => 17,
            IndexStatus::Downloaded => 6,
            IndexStatus::IndexingInProgress => 5,
            IndexStatus::IndexingError => 14,
            IndexStatus::Indexed => 3,
            IndexStatus::ValidationInProgress => 2,
            IndexStatus::ValidationError => 11,
            IndexStatus::Available => 0,
        }
    }

    /// Whether the life cycle allows a move from `self` to `next`: one step
    /// forward, from an in-progress state into its error state, or from an
    /// error state back into the in-progress state that it follows.
    pub fn can_move_to(&self, next: IndexStatus) -> (r: bool)
        ensures
            r == index_transition(*self, next),
    {
        match (self, next) {
            (IndexStatus::NotAvailable, IndexStatus::DownloadInProgress) => true,
            (IndexStatus::DownloadInProgress, IndexStatus::Downloaded) => true,
            (IndexStatus::DownloadInProgress, IndexStatus::DownloadError) => true,
            (IndexStatus::DownloadError, IndexStatus::DownloadInProgress) => true,
            (IndexStatus::Downloaded, IndexStatus::IndexingInProgress) => true,
            (IndexStatus::IndexingInProgress, IndexStatus::Indexed) => true,
            (IndexStatus::IndexingInProgress, IndexStatus::IndexingError) => true,
            (IndexStatus::IndexingError, IndexStatus::IndexingInProgress) => true,
            (IndexStatus::Indexed, IndexStatus::ValidationInProgress) => true,
            (IndexStatus::ValidationInProgress, IndexStatus::Available) => true,
            (IndexStatus::ValidationInProgress, IndexStatus::ValidationError) => true,
            (IndexStatus::ValidationError, IndexStatus::ValidationInProgress) => true,
            _ => false,
        }
    }
}

/// The moves of the index life cycle.
pub open spec fn index_transition(from: IndexStatus, to: IndexStatus) -> bool {
    if is_error(from) {
        progress(to) + 1 == progress(from)
    } else if from is DownloadInProgress || from is IndexingInProgress
        || from is ValidationInProgress {
        progress(to) == progress(from) + 1 || progress(to) == progress(from) + 2
    } else {
        progress(to) == progress(from) + 1 && !(from is Available)
    }
}

/// The more severe of two statuses.
pub fn worse_status(a: IndexStatus, b: IndexStatus) -> (r: IndexStatus)
    ensures
        r == worse(a, b),
{
    if b.severity() > a.severity() {
        b
    } else {
        a
    }
}

/// The status of an environment whose members have the given statuses:
/// `Available` when all are (and when there are none), else the most severe.
pub fn aggregate_status(statuses: &Vec<IndexStatus>) -> (r: IndexStatus)
    ensures
        r == aggregate(statuses@),
        (r == IndexStatus::Available) <==> (forall|i: int|
            0 <= i < statuses@.len() ==> statuses@[i] == IndexStatus::Available),
        forall|i: int|
            0 <= i < statuses@.len() ==> severity(#[trigger] statuses@[i]) <= severity(r),
        statuses@.len() > 0 ==> statuses@.contains(r),
{
    let mut acc = IndexStatus::Available;
    let mut i: usize = 0;
    while i < statuses.len()
        invariant
            i <= statuses@.len(),
            acc == aggregate(statuses@.subrange(0, i as int)),
        decreases statuses@.len() - i,
    {
        proof {
            let s = statuses@.subrange(0, i as int + 1);
            assert(s.drop_last() =~= statuses@.subrange(0, i as int));
        }
        acc = worse_status(acc, statuses[i]);
        i = i + 1;
    }
    assert(statuses@.subrange(0, i as int) =~= statuses@);
    proof {
        lemma_aggregate(statuses@);
    }
    acc
}

} // verus!
