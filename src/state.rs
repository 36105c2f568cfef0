//! Snapshots of observed records and the diff of a new batch against them.
use vstd::prelude::*;

verus! {

/// A scraped record with a stable identity and a checksum over its content.
pub trait IdChecksum {
    /// The identity the record is known by.
    spec fn identity(&self) -> Seq<char>;

    /// The checksum over the record's full content.
    spec fn checksum(&self) -> u64;

    fn id_checksum(&self) -> (r: (String, u64))
        ensures
            r.0@ == self.identity(),
            r.1 == self.checksum(),
    ;
}

/// The map that a sequence of `(identity, checksum)` entries stands for: a
/// later entry for an identity overrides an earlier one.
pub open spec fn entries_map(e: Seq<(String, u64)>) -> Map<Seq<char>, u64>
    decreases e.len(),
{
    if e.len() == 0 {
        Map::empty()
    } else {
        entries_map(e.drop_last()).insert(e.last().0@, e.last().1)
    }
}

/// The state that a batch of records describes, the last record of each
/// identity winning.
pub open spec fn batch_map<T: IdChecksum>(b: Seq<T>) -> Map<Seq<char>, u64>
    decreases b.len(),
{
    if b.len() == 0 {
        Map::empty()
    } else {
        batch_map(b.drop_last()).insert(b.last().identity(), b.last().checksum())
    }
}

/// No identity occurs twice among the entries.
pub open spec fn unique_keys(e: Seq<(String, u64)>) -> bool {
    forall|i: int, j: int|
        0 <= i < e.len() && 0 <= j < e.len() && i != j ==> #[trigger] e[i].0@ != #[trigger] e[j].0@
}

/// A record that the state has never seen.
pub open spec fn is_added<T: IdChecksum>(m: Map<Seq<char>, u64>, r: T) -> bool {
    !m.contains_key(r.identity())
}

/// A record whose identity the state knows under another checksum.
pub open spec fn is_changed<T: IdChecksum>(m: Map<Seq<char>, u64>, r: T) -> bool {
    m.contains_key(r.identity()) && m[r.identity()] != r.checksum()
}

/// The records of `b` that are new to `m`, in batch order.
pub open spec fn added_of<T: IdChecksum>(m: Map<Seq<char>, u64>, b: Seq<T>) -> Seq<T>
    decreases b.len(),
{
    if b.len() == 0 {
        Seq::empty()
    } else if is_added(m, b.last()) {
        added_of(m, b.drop_last()).push(b.last())
    } else {
        added_of(m, b.drop_last())
    }
}

/// The records of `b` whose checksum differs from the one `m` holds, in
/// batch order.
pub open spec fn changed_of<T: IdChecksum>(m: Map<Seq<char>, u64>, b: Seq<T>) -> Seq<T>
    decreases b.len(),
{
    if b.len() == 0 {
        Seq::empty()
    } else if is_changed(m, b.last()) {
        changed_of(m, b.drop_last()).push(b.last())
    } else {
        changed_of(m, b.drop_last())
    }
}

/// The state as last observed: when it was captured, and the checksum of each
/// identity.
pub struct Snapshot {
    pub update_timestamp: u64,
    pub state: Vec<(String, u64)>,
}

/// A batch classified against a snapshot.
pub struct Diff<T> {
    pub added: Vec<T>,
    pub changed: Vec<T>,
}

impl Snapshot {
    /// The identity-to-checksum map the snapshot holds.
    pub open spec fn state_map(&self) -> Map<Seq<char>, u64> {
        entries_map(self.state@)
    }

    /// Each identity is stored once.
    pub open spec fn wf(&self) -> bool {
        unique_keys(self.state@)
    }
}

impl<T: IdChecksum> Diff<T> {
    /// `self` is the classification of batch `b` against state `m`.
    pub open spec fn is_diff_of(&self, m: Map<Seq<char>, u64>, b: Seq<T>) -> bool {
        &&& self.added@ == added_of(m, b)
        &&& self.changed@ == changed_of(m, b)
    }
}

/// Which identities an entry sequence maps, and to what: the value of an
/// identity is the one of its last entry.
pub proof fn lemma_entries_map_lookup(e: Seq<(String, u64)>, k: Seq<char>)
    ensures
        entries_map(e).contains_key(k) <==> exists|i: int| 0 <= i < e.len() && e[i].0@ == k,
        forall|i: int|
            0 <= i < e.len() && e[i].0@ == k && (forall|j: int| i < j < e.len() ==> e[j].0@ != k)
                ==> entries_map(e)[k] == #[trigger] e[i].1,
    decreases e.len(),
{
    if e.len() > 0 {
        let p = e.drop_last();
        lemma_entries_map_lookup(p, k);
        if entries_map(e).contains_key(k) && e.last().0@ != k {
            let i = choose|i: int| 0 <= i < p.len() && p[i].0@ == k;
            assert(e[i].0@ == k);
        }
        if exists|i: int| 0 <= i < e.len() && e[i].0@ == k {
            let i = choose|i: int| 0 <= i < e.len() && e[i].0@ == k;
            if i < e.len() - 1 {
                assert(p[i].0@ == k);
            }
        }
        assert forall|i: int|
            0 <= i < e.len() && e[i].0@ == k && (forall|j: int| i < j < e.len() ==> e[j].0@ != k)
            implies entries_map(e)[k] == #[trigger] e[i].1 by {
            if i < e.len() - 1 {
                assert(e[e.len() - 1].0@ != k);
                assert(p[i] == e[i]);
                assert forall|j: int| i < j < p.len() implies p[j].0@ != k by {
                    assert(p[j] == e[j]);
                }
            }
        }
    }
}


/// Overwriting the checksum of an identity stored once.
proof fn lemma_entries_map_update(e: Seq<(String, u64)>, k: int, c: u64)
    requires
        unique_keys(e),
        0 <= k < e.len(),
    ensures
        unique_keys(e.update(k, (e[k].0, c))),
        entries_map(e.update(k, (e[k].0, c))) == entries_map(e).insert(e[k].0@, c),
{
    let f = e.update(k, (e[k].0, c));
    assert forall|i: int, j: int|
        0 <= i < f.len() && 0 <= j < f.len() && i != j implies #[trigger] f[i].0@
        != #[trigger] f[j].0@ by {
        assert(e[i].0@ != e[j].0@);
    }
    assert forall|q: Seq<char>|
        entries_map(f).contains_key(q) <==> entries_map(e).insert(e[k].0@, c).contains_key(q) by {
        lemma_entries_map_lookup(e, q);
        lemma_entries_map_lookup(f, q);
        if exists|i: int| 0 <= i < e.len() && e[i].0@ == q {
            let i = choose|i: int| 0 <= i < e.len() && e[i].0@ == q;
            assert(f[i].0@ == q);
        }
        if exists|i: int| 0 <= i < f.len() && f[i].0@ == q {
            let i = choose|i: int| 0 <= i < f.len() && f[i].0@ == q;
            assert(e[i].0@ == q);
        }
        if q == e[k].0@ {
            assert(f[k].0@ == q);
        }
    }
    assert forall|q: Seq<char>| #[trigger] entries_map(f).contains_key(q) implies entries_map(f)[q]
        == entries_map(e).insert(e[k].0@, c)[q] by {
        lemma_entries_map_lookup(e, q);
        lemma_entries_map_lookup(f, q);
        let i = choose|i: int| 0 <= i < f.len() && f[i].0@ == q;
        assert(e[i].0@ == q);
        assert forall|j: int| i < j < f.len() implies f[j].0@ != q by {
            assert(f[i].0@ != f[j].0@);
        }
        assert forall|j: int| i < j < e.len() implies e[j].0@ != q by {
            assert(e[i].0@ != e[j].0@);
        }
        assert(entries_map(f)[q] == f[i].1);
        assert(entries_map(e)[q] == e[i].1);
    }
    assert(entries_map(f) =~= entries_map(e).insert(e[k].0@, c));
}

/// The index of the entry for `id`, if any.
fn position(e: &Vec<(String, u64)>, id: &String) -> (r: Option<usize>)
    ensures
        match r {
            Some(k) => k < e@.len() && e@[k as int].0@ == id@,
            None => forall|k: int| 0 <= k < e@.len() ==> e@[k].0@ != id@,
        },
{
    let mut i: usize = 0;
    while i < e.len()
        invariant
            i <= e@.len(),
            forall|k: int| 0 <= k < i ==> e@[k].0@ != id@,
        decreases e@.len() - i,
    {
        if e[i].0 == *id {
            return Some(i);
        }
        i = i + 1;
    }
    None
}

/// Relies on `SystemTime::elapsed` on `UNIX_EPOCH`: the time since the epoch
/// by the system clock, in whole seconds, or `None` for a clock set before it.
#[verifier::external_body]
fn unix_time_secs() -> (r: Option<u64>) {
    std::time::UNIX_EPOCH.elapsed().ok().map(|d| d.as_secs())
}

impl Snapshot {
    /// A snapshot of `items` stamped with the current time (0 when the clock
    /// reads before the Unix epoch).
    pub fn new<T: IdChecksum>(items: Vec<T>) -> (r: Snapshot)
        ensures
            r.wf(),
            r.state_map() == batch_map(items@),
    {
        let ts = match unix_time_secs() {
            Some(t) => t,
            None => 0,
        };
        Snapshot::at(ts, items)
    }

    /// A snapshot of `items` stamped `update_timestamp`. A later record with an
    /// identity overwrites an earlier one.
    pub fn at<T: IdChecksum>(update_timestamp: u64, items: Vec<T>) -> (r: Snapshot)
        ensures
            r.wf(),
            r.update_timestamp == update_timestamp,
            r.state_map() == batch_map(items@),
    {
        let mut state: Vec<(String, u64)> = Vec::new();
        let mut i: usize = 0;
        while i < items.len()
            invariant
                i <= items@.len(),
                unique_keys(state@),
                entries_map(state@) == batch_map(items@.subrange(0, i as int)),
            decreases items@.len() - i,
        {
            let (id, checksum) = items[i].id_checksum();
            let ghost before = state@;
            assert(items@.subrange(0, i + 1).drop_last() =~= items@.subrange(0, i as int));
            match position(&state, &id) {
                Some(k) => {
                    proof {
                        lemma_entries_map_update(before, k as int, checksum);
                    }
                    let name = state[k].0.clone();
                    state.set(k, (name, checksum));
                    assert(state@ =~= before.update(k as int, (before[k as int].0, checksum)));
                },
                None => {
                    state.push((id, checksum));
                    assert(state@.drop_last() =~= before);
                },
            }
            i = i + 1;
        }
        assert(items@.subrange(0, items@.len() as int) =~= items@);
        Snapshot { update_timestamp, state }
    }

    /// The checksum stored for `id`.
    pub fn lookup(&self, id: &String) -> (r: Option<u64>)
        ensures
            r == (if self.state_map().contains_key(id@) {
                Some(self.state_map()[id@])
            } else {
                None::<u64>
            }),
    {
        let mut j: usize = self.state.len();
        while j > 0
            invariant
                j <= self.state@.len(),
                forall|k: int| j <= k < self.state@.len() ==> self.state@[k].0@ != id@,
            decreases j,
        {
            if self.state[j - 1].0 == *id {
                proof {
                    lemma_entries_map_lookup(self.state@, id@);
                    assert(self.state@[j - 1].0@ == id@);
                }
                return Some(self.state[j - 1].1);
            }
            j = j - 1;
        }
        proof {
            lemma_entries_map_lookup(self.state@, id@);
        }
        None
    }

    /// Classifies each record of `items` as added (identity unknown here),
    /// changed (known under another checksum) or neither, keeping batch order.
    pub fn diff<T: IdChecksum>(&self, items: Vec<T>) -> (d: Diff<T>)
        ensures
            d.is_diff_of(self.state_map(), items@),
    {
        let ghost m = self.state_map();
        let mut changed: Vec<T> = Vec::new();
        let mut added: Vec<T> = Vec::new();
        for item in it: items
            invariant
                added@ == added_of(m, it.seq().subrange(0, it.index() as int)),
                changed@ == changed_of(m, it.seq().subrange(0, it.index() as int)),
                m == self.state_map(),
                it.seq() == items@,
        {
            let ghost done = it.seq().subrange(0, it.index() as int);
            assert(it.seq().subrange(0, it.index() + 1).drop_last() =~= done);
            let (id, checksum) = item.id_checksum();
            match self.lookup(&id) {
                Some(old_checksum) => {
                    if old_checksum != checksum {
                        changed.push(item);
                    }
                },
                None => {
                    added.push(item);
                },
            }
        }
        assert(items@.subrange(0, items@.len() as int) =~= items@);
        Diff { added, changed }
    }
}


/// Against a state that maps nothing, every record of a batch is added, in
/// batch order, and none is changed.
pub proof fn lemma_empty_state_all_added<T: IdChecksum>(b: Seq<T>)
    ensures
        added_of(Map::<Seq<char>, u64>::empty(), b) == b,
        changed_of(Map::<Seq<char>, u64>::empty(), b) == Seq::<T>::empty(),
    decreases b.len(),
{
    if b.len() > 0 {
        lemma_empty_state_all_added(b.drop_last());
        assert(b.drop_last().push(b.last()) =~= b);
    }
}

/// In the state built from a batch, an identity maps to the checksum of its
/// last record in the batch.
pub proof fn lemma_batch_map_last_wins<T: IdChecksum>(b: Seq<T>, i: int)
    requires
        0 <= i < b.len(),
        forall|j: int| i < j < b.len() ==> #[trigger] b[j].identity() != b[i].identity(),
    ensures
        batch_map(b).contains_key(b[i].identity()),
        batch_map(b)[b[i].identity()] == b[i].checksum(),
    decreases b.len(),
{
    if i < b.len() - 1 {
        let p = b.drop_last();
        assert forall|j: int| i < j < p.len() implies #[trigger] p[j].identity()
            != p[i].identity() by {
            assert(p[j] == b[j]);
        }
        lemma_batch_map_last_wins(p, i);
        assert(b[b.len() - 1].identity() != b[i].identity());
    }
}

/// A record is in `added_of(m, b)` exactly when it is a record of `b` that is
/// new to `m`.
pub proof fn lemma_added_of_contains<T: IdChecksum>(m: Map<Seq<char>, u64>, b: Seq<T>, x: T)
    ensures
        added_of(m, b).contains(x) <==> b.contains(x) && is_added(m, x),
    decreases b.len(),
{
    if b.len() > 0 {
        let p = b.drop_last();
        lemma_added_of_contains(m, p, x);
        if p.contains(x) {
            let i = choose|i: int| 0 <= i < p.len() && p[i] == x;
            assert(b[i] == x);
        }
        if b.contains(x) && x != b.last() {
            let i = choose|i: int| 0 <= i < b.len() && b[i] == x;
            assert(p[i] == x);
        }
        if is_added(m, b.last()) {
            let a = added_of(m, p);
            if a.push(b.last()).contains(x) && x != b.last() {
                let i = choose|i: int| 0 <= i < a.push(b.last()).len() && a.push(b.last())[i] == x;
                assert(a[i] == x);
            }
            if a.contains(x) {
                let i = choose|i: int| 0 <= i < a.len() && a[i] == x;
                assert(a.push(b.last())[i] == x);
            }
            assert(a.push(b.last())[a.len() as int] == b.last());
        }
        assert(b[b.len() - 1] == b.last());
    }
}

/// A record is in `changed_of(m, b)` exactly when it is a record of `b` whose
/// identity `m` knows under another checksum.
pub proof fn lemma_changed_of_contains<T: IdChecksum>(m: Map<Seq<char>, u64>, b: Seq<T>, x: T)
    ensures
        changed_of(m, b).contains(x) <==> b.contains(x) && is_changed(m, x),
    decreases b.len(),
{
    if b.len() > 0 {
        let p = b.drop_last();
        lemma_changed_of_contains(m, p, x);
        if p.contains(x) {
            let i = choose|i: int| 0 <= i < p.len() && p[i] == x;
            assert(b[i] == x);
        }
        if b.contains(x) && x != b.last() {
            let i = choose|i: int| 0 <= i < b.len() && b[i] == x;
            assert(p[i] == x);
        }
        if is_changed(m, b.last()) {
            let a = changed_of(m, p);
            if a.push(b.last()).contains(x) && x != b.last() {
                let i = choose|i: int| 0 <= i < a.push(b.last()).len() && a.push(b.last())[i] == x;
                assert(a[i] == x);
            }
            if a.contains(x) {
                let i = choose|i: int| 0 <= i < a.len() && a[i] == x;
                assert(a.push(b.last())[i] == x);
            }
            assert(a.push(b.last())[a.len() as int] == b.last());
        }
        assert(b[b.len() - 1] == b.last());
    }
}

/// The added and changed records of a diff are disjoint; together they are
/// exactly the records of the batch whose identity is absent from the state or
/// mapped to another checksum, split by whether the identity is present.
pub proof fn lemma_diff_partition<T: IdChecksum>(m: Map<Seq<char>, u64>, b: Seq<T>)
    ensures
        forall|x: T| added_of(m, b).contains(x) ==> !changed_of(m, b).contains(x),
        forall|x: T|
            #![trigger added_of(m, b).contains(x)]
            #![trigger changed_of(m, b).contains(x)]
            added_of(m, b).contains(x) || changed_of(m, b).contains(x) <==> b.contains(x) && (
            !m.contains_key(x.identity()) || m[x.identity()] != x.checksum()),
        forall|x: T| added_of(m, b).contains(x) ==> !m.contains_key(x.identity()),
        forall|x: T| changed_of(m, b).contains(x) ==> m.contains_key(x.identity()),
{
    assert forall|x: T| #![trigger added_of(m, b).contains(x)] #![trigger changed_of(m, b).contains(x)]
        (added_of(m, b).contains(x) ==> !changed_of(m, b).contains(x))
        && (added_of(m, b).contains(x) || changed_of(m, b).contains(x) <==> b.contains(x) && (
            !m.contains_key(x.identity()) || m[x.identity()] != x.checksum()))
        && (added_of(m, b).contains(x) ==> !m.contains_key(x.identity()))
        && (changed_of(m, b).contains(x) ==> m.contains_key(x.identity())) by {
        lemma_added_of_contains(m, b, x);
        lemma_changed_of_contains(m, b, x);
    }
}

/// Two diffs of the same batch against the same state are identical.
pub proof fn lemma_diff_deterministic<T: IdChecksum>(
    m: Map<Seq<char>, u64>,
    b: Seq<T>,
    d1: Diff<T>,
    d2: Diff<T>,
)
    requires
        d1.is_diff_of(m, b),
        d2.is_diff_of(m, b),
    ensures
        d1.added@ == d2.added@,
        d1.changed@ == d2.changed@,
{
}

} // verus!
