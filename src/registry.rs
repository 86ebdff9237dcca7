use vstd::prelude::*;

verus! {

/// Whether two byte slices hold the same bytes.
pub fn same_bytes(a: &[u8], b: &[u8]) -> (r: bool)
    ensures
        r == (a@ == b@),
{
    if a.len() != b.len() {
        return false;
    }
    let mut i: usize = 0;
    while i < a.len()
        invariant
            a@.len() == b@.len(),
            0 <= i <= a@.len(),
            forall|k: int| 0 <= k < i ==> a@[k] == b@[k],
        decreases a@.len() - i,
    {
        if a[i] != b[i] {
            return false;
        }
        i = i + 1;
    }
    assert(a@ =~= b@);
    true
}

/// What a check-or-insert does to a registry modelled as `m`: the new map and
/// the path that was already stored for the digest, if any. The first writer
/// wins; a stored entry is never overwritten.
pub open spec fn check_or_insert_spec(
    m: Map<Seq<u8>, Seq<char>>,
    digest: Seq<u8>,
    path: Seq<char>,
) -> (Map<Seq<u8>, Seq<char>>, Option<Seq<char>>) {
    if m.contains_key(digest) {
        (m, Some(m[digest]))
    } else {
        (m.insert(digest, path), None)
    }
}

/// The characters of an optional path.
pub open spec fn path_view(p: Option<String>) -> Option<Seq<char>> {
    match p {
        Some(s) => Some(s@),
        None => None,
    }
}

/// Number of buckets that the entries are spread over.
pub const BUCKETS: usize = 4096;

/// The bucket of a digest: its leading twelve bits.
pub open spec fn bucket_of(d: Seq<u8>) -> int {
    if d.len() >= 2 {
        d[0] as int * 16 + d[1] as int / 16
    } else if d.len() == 1 {
        d[0] as int * 16
    } else {
        0
    }
}

fn bucket_index(d: &[u8]) -> (r: usize)
    ensures
        r == bucket_of(d@),
        r < BUCKETS,
{
    if d.len() >= 2 {
        d[0] as usize * 16 + d[1] as usize / 16
    } else if d.len() == 1 {
        d[0] as usize * 16
    } else {
        0
    }
}

/// Maps each digest seen so far to the first path that was seen with it.
/// Entries are indexed by bucket, so that a lookup reads only the entries
/// whose digests share its leading bits.
pub struct Registry {
    entries: Vec<(Vec<u8>, String)>,
    buckets: Vec<Vec<usize>>,
    model: Ghost<Map<Seq<u8>, Seq<char>>>,
}

impl View for Registry {
    type V = Map<Seq<u8>, Seq<char>>;

    closed spec fn view(&self) -> Map<Seq<u8>, Seq<char>> {
        self.model@
    }
}

impl Registry {
    /// The entries hold each digest once, and are exactly what the model maps.
    pub closed spec fn wf(&self) -> bool {
        &&& forall|i: int, j: int|
            0 <= i < j < self.entries@.len() ==> self.entries@[i].0@ != self.entries@[j].0@
        &&& forall|i: int|
            0 <= i < self.entries@.len() ==> #[trigger] self.model@.contains_key(self.entries@[i].0@)
                && self.model@[self.entries@[i].0@] == self.entries@[i].1@
        &&& forall|d: Seq<u8>|
            #[trigger] self.model@.contains_key(d) ==> exists|i: int|
                0 <= i < self.entries@.len() && self.entries@[i].0@ == d
        &&& self.buckets@.len() == BUCKETS
        &&& forall|b: int, k: int|
            0 <= b < BUCKETS && 0 <= k < self.buckets@[b]@.len() ==> #[trigger] self.buckets@[b]@[k]
                < self.entries@.len()
        &&& forall|i: int| 0 <= i < self.entries@.len() ==> #[trigger] self.indexed(i)
    }

    /// Entry `i` is listed in the bucket of its digest.
    closed spec fn indexed(&self, i: int) -> bool {
        exists|k: int|
            0 <= k < self.buckets@[bucket_of(self.entries@[i].0@)]@.len()
                && self.buckets@[bucket_of(self.entries@[i].0@)]@[k] as int == i
    }

    pub fn new() -> (r: Registry)
        ensures
            r.wf(),
            r@ == Map::<Seq<u8>, Seq<char>>::empty(),
    {
        let mut buckets: Vec<Vec<usize>> = Vec::new();
        while buckets.len() < BUCKETS
            invariant
                buckets@.len() <= BUCKETS,
                forall|b: int| 0 <= b < buckets@.len() ==> (#[trigger] buckets@[b])@.len() == 0,
            decreases BUCKETS - buckets@.len(),
        {
            buckets.push(Vec::new());
        }
        Registry { entries: Vec::new(), buckets, model: Ghost(Map::empty()) }
    }

    /// Number of distinct digests recorded.
    pub fn len(&self) -> (r: usize)
        requires
            self.wf(),
        ensures
            r == self@.len(),
    {
        proof {
            self.lemma_dom_len();
        }
        self.entries.len()
    }

    proof fn lemma_dom_len(&self)
        requires
            self.wf(),
        ensures
            self@.dom().len() == self.entries@.len(),
            self@.dom().finite(),
        decreases self.entries@.len(),
    {
        let n = self.entries@.len();
        let keys = Seq::new(n, |i: int| self.entries@[i].0@);
        assert(keys.no_duplicates());
        assert(keys.to_set() =~= self@.dom()) by {
            assert forall|d: Seq<u8>| keys.to_set().contains(d) <==> self@.dom().contains(d) by {
                if self@.dom().contains(d) {
                    let i = choose|i: int| 0 <= i < n && self.entries@[i].0@ == d;
                    assert(keys[i] == d);
                }
                if keys.to_set().contains(d) {
                    let i = choose|i: int| 0 <= i < n && keys[i] == d;
                    assert(self.model@.contains_key(self.entries@[i].0@));
                }
            }
        }
        keys.unique_seq_to_set();
    }

    /// Index of the entry for `digest`, if there is one.
    fn find(&self, digest: &[u8]) -> (r: Option<usize>)
        requires
            self.wf(),
        ensures
            match r {
                Some(i) => i < self.entries@.len() && self.entries@[i as int].0@ == digest@,
                None => !self@.contains_key(digest@),
            },
    {
        let b = bucket_index(digest);
        let bucket = &self.buckets[b];
        let mut k: usize = 0;
        while k < bucket.len()
            invariant
                self.wf(),
                b == bucket_of(digest@),
                b < BUCKETS,
                bucket == &self.buckets@[b as int],
                0 <= k <= bucket@.len(),
                forall|j: int| 0 <= j < k ==> self.entries@[bucket@[j] as int].0@ != digest@,
            decreases bucket@.len() - k,
        {
            let i = bucket[k];
            assert(self.buckets@[b as int]@[k as int] < self.entries@.len());
            if same_bytes(self.entries[i].0.as_slice(), digest) {
                return Some(i);
            }
            k = k + 1;
        }
        proof {
            if self@.contains_key(digest@) {
                let i = choose|i: int| 0 <= i < self.entries@.len() && self.entries@[i].0@ == digest@;
                assert(self.indexed(i));
                assert(bucket@ == self.buckets@[b as int]@);
                let j = choose|j: int| 0 <= j < bucket@.len() && bucket@[j] as int == i;
                assert(self.entries@[bucket@[j] as int].0@ != digest@);
                assert(false);
            }
        }
        None
    }

    /// The path stored for `digest`, if any.
    pub fn get(&self, digest: &[u8]) -> (r: Option<&String>)
        requires
            self.wf(),
        ensures
            match r {
                Some(p) => self@.contains_key(digest@) && p@ == self@[digest@],
                None => !self@.contains_key(digest@),
            },
    {
        match self.find(digest) {
            Some(i) => {
                assert(self.model@.contains_key(self.entries@[i as int].0@));
                Some(&self.entries[i].1)
            },
            None => None,
        }
    }

    /// Atomically looks `digest` up and, when it is absent, records `path` for it.
    /// Returns the path that was already stored, or `None` when this call stored its own.
    pub fn check_or_insert(&mut self, digest: Vec<u8>, path: String) -> (r: Option<String>)
        requires
            old(self).wf(),
        ensures
            final(self).wf(),
            (final(self)@, path_view(r)) == check_or_insert_spec(old(self)@, digest@, path@),
    {
        match self.find(digest.as_slice()) {
            Some(i) => {
                assert(self.model@.contains_key(self.entries@[i as int].0@));
                let p = self.entries[i].1.clone();
                Some(p)
            },
            None => {
                let ghost d = digest@;
                let ghost p = path@;
                let ghost old_entries = self.entries@;
                let ghost old_buckets = self.buckets@;
                let b = bucket_index(digest.as_slice());
                let n = self.entries.len();
                self.entries.push((digest, path));
                self.buckets[b].push(n);
                self.model = Ghost(self.model@.insert(d, p));
                proof {
                    assert(self.entries@[n as int].0@ == d);
                    assert(self.buckets@.len() == BUCKETS);
                    assert forall|c: int| 0 <= c < BUCKETS && c != b implies self.buckets@[c] == old_buckets[c] by {}
                    assert(self.buckets@[b as int]@ == old_buckets[b as int]@.push(n));
                    assert forall|i: int, j: int| 0 <= i < j < self.entries@.len() implies self.entries@[i].0@
                        != self.entries@[j].0@ by {
                        assert(self.entries@[i] == old_entries[i]);
                        if j < n {
                            assert(self.entries@[j] == old_entries[j]);
                        } else {
                            assert(old(self).model@.contains_key(old_entries[i].0@));
                        }
                    }
                    assert forall|c: int, k: int|
                        0 <= c < BUCKETS && 0 <= k < self.buckets@[c]@.len() implies #[trigger] self.buckets@[c]@[k]
                            < self.entries@.len() by {
                        if c != b || k < old_buckets[c]@.len() {
                            assert(self.buckets@[c]@[k] == old_buckets[c]@[k]);
                            assert(old_buckets[c]@[k] < old_entries.len());
                        }
                    }
                    assert forall|i: int| 0 <= i < self.entries@.len() implies #[trigger] self.indexed(i) by {
                        let c = bucket_of(self.entries@[i].0@);
                        if i < n {
                            assert(self.entries@[i] == old_entries[i]);
                            let k = choose|k: int| 0 <= k < old_buckets[c]@.len() && old_buckets[c]@[k] as int == i;
                            assert(old(self).indexed(i));
                            assert(self.buckets@[c]@[k] as int == i);
                        } else {
                            let k = old_buckets[c]@.len() as int;
                            assert(i == n);
                            assert(c == b);
                            assert(self.buckets@[c]@[k] == n);
                            assert(0 <= k < self.buckets@[c]@.len());
                        }
                    }
                    assert forall|e: Seq<u8>| #[trigger] self.model@.contains_key(e) implies exists|i: int|
                        0 <= i < self.entries@.len() && self.entries@[i].0@ == e by {
                        if e == d {
                            assert(self.entries@[n as int].0@ == e);
                        } else {
                            assert(old(self).model@.contains_key(e));
                            let i = choose|i: int| 0 <= i < old_entries.len() && old_entries[i].0@ == e;
                            assert(self.entries@[i].0@ == e);
                        }
                    }
                    assert forall|i: int| 0 <= i < self.entries@.len() implies #[trigger] self.model@.contains_key(self.entries@[i].0@)
                        && self.model@[self.entries@[i].0@] == self.entries@[i].1@ by {
                        if i < n {
                            assert(old_entries[i] == self.entries@[i]);
                            assert(old(self).model@.contains_key(old_entries[i].0@));
                        }
                    }
                }
                None
            },
        }
    }
}

/// Replays a series of check-or-insert calls, in the order in which the
/// registry serialised them: the final map and each call's result.
pub open spec fn replay(
    m: Map<Seq<u8>, Seq<char>>,
    calls: Seq<(Seq<u8>, Seq<char>)>,
) -> (Map<Seq<u8>, Seq<char>>, Seq<Option<Seq<char>>>)
    decreases calls.len(),
{
    if calls.len() == 0 {
        (m, Seq::empty())
    } else {
        let (m1, r) = check_or_insert_spec(m, calls[0].0, calls[0].1);
        let (m2, rs) = replay(m1, calls.drop_first());
        (m2, seq![r] + rs)
    }
}

/// Calls that all carry `digest`, one per path.
pub open spec fn same_digest_calls(digest: Seq<u8>, paths: Seq<Seq<char>>) -> Seq<(Seq<u8>, Seq<char>)> {
    paths.map_values(|p: Seq<char>| (digest, p))
}

proof fn lemma_replay_present(m: Map<Seq<u8>, Seq<char>>, digest: Seq<u8>, paths: Seq<Seq<char>>)
    requires
        m.contains_key(digest),
    ensures
        replay(m, same_digest_calls(digest, paths)).0 == m,
        replay(m, same_digest_calls(digest, paths)).1.len() == paths.len(),
        forall|i: int| 0 <= i < paths.len() ==>
            replay(m, same_digest_calls(digest, paths)).1[i] == Some(m[digest]),
    decreases paths.len(),
{
    if paths.len() > 0 {
        let calls = same_digest_calls(digest, paths);
        assert(calls.drop_first() =~= same_digest_calls(digest, paths.drop_first()));
        lemma_replay_present(m, digest, paths.drop_first());
    }
}

/// Of any series of check-or-insert calls carrying one digest that the
/// registry does not hold yet, exactly the first returns no prior path and
/// stores its own; every later one returns that stored path. Concurrent calls
/// are serialised by the registry, so this holds of every interleaving.
pub proof fn law_first_writer_wins(m: Map<Seq<u8>, Seq<char>>, digest: Seq<u8>, paths: Seq<Seq<char>>)
    requires
        !m.contains_key(digest),
        paths.len() > 0,
    ensures
        ({
            let (m2, rs) = replay(m, same_digest_calls(digest, paths));
            &&& rs.len() == paths.len()
            &&& rs[0] is None
            &&& forall|i: int| 1 <= i < paths.len() ==> rs[i] == Some(paths[0])
            &&& forall|i: int| 0 <= i < paths.len() && rs[i] is None ==> i == 0
            &&& m2 == m.insert(digest, paths[0])
        }),
{
    let calls = same_digest_calls(digest, paths);
    let m1 = m.insert(digest, paths[0]);
    assert(calls.drop_first() =~= same_digest_calls(digest, paths.drop_first()));
    lemma_replay_present(m1, digest, paths.drop_first());
    let (m2, rs) = replay(m, calls);
    assert forall|i: int| 1 <= i < paths.len() implies rs[i] == Some(paths[0]) by {
        assert(rs[i] == replay(m1, same_digest_calls(digest, paths.drop_first())).1[i - 1]);
    }
}

/// A check-or-insert never removes nor overwrites an entry.
pub proof fn law_entries_never_change(m: Map<Seq<u8>, Seq<char>>, digest: Seq<u8>, path: Seq<char>)
    ensures
        m.submap_of(check_or_insert_spec(m, digest, path).0),
        check_or_insert_spec(m, digest, path).0.contains_key(digest),
{
}

/// The digests that a series of calls carries.
pub open spec fn digests_of(calls: Seq<(Seq<u8>, Seq<char>)>) -> Set<Seq<u8>>
    decreases calls.len(),
{
    if calls.len() == 0 {
        Set::empty()
    } else {
        digests_of(calls.drop_first()).insert(calls[0].0)
    }
}

/// How many calls of a replay stored their own path.
pub open spec fn stored_count(results: Seq<Option<Seq<char>>>) -> nat
    decreases results.len(),
{
    if results.len() == 0 {
        0
    } else {
        stored_count(results.drop_first()) + if results[0] is None { 1nat } else { 0nat }
    }
}

proof fn lemma_digests_of(calls: Seq<(Seq<u8>, Seq<char>)>)
    ensures
        digests_of(calls).finite(),
        forall|d: Seq<u8>| #[trigger] digests_of(calls).contains(d) <==> exists|i: int|
            0 <= i < calls.len() && calls[i].0 == d,
    decreases calls.len(),
{
    if calls.len() > 0 {
        let rest = calls.drop_first();
        lemma_digests_of(rest);
        assert forall|d: Seq<u8>| #[trigger] digests_of(calls).contains(d) implies exists|i: int|
            0 <= i < calls.len() && calls[i].0 == d by {
            if d != calls[0].0 {
                let i = choose|i: int| 0 <= i < rest.len() && rest[i].0 == d;
                assert(calls[i + 1] == rest[i]);
            }
        }
        assert forall|d: Seq<u8>| (exists|i: int| 0 <= i < calls.len() && calls[i].0 == d) implies
            #[trigger] digests_of(calls).contains(d) by {
            let i = choose|i: int| 0 <= i < calls.len() && calls[i].0 == d;
            if i > 0 {
                assert(rest[i - 1] == calls[i]);
            }
        }
    }
}

proof fn lemma_replay_counts(m: Map<Seq<u8>, Seq<char>>, calls: Seq<(Seq<u8>, Seq<char>)>)
    requires
        m.dom().finite(),
    ensures
        replay(m, calls).0.dom() == m.dom() + digests_of(calls),
        replay(m, calls).1.len() == calls.len(),
        stored_count(replay(m, calls).1) == digests_of(calls).difference(m.dom()).len(),
    decreases calls.len(),
{
    lemma_digests_of(calls);
    if calls.len() == 0 {
        assert(digests_of(calls).difference(m.dom()) =~= Set::empty());
        assert(m.dom() + digests_of(calls) =~= m.dom());
    } else {
        let rest = calls.drop_first();
        let d0 = calls[0].0;
        let (m1, r) = check_or_insert_spec(m, d0, calls[0].1);
        lemma_replay_counts(m1, rest);
        lemma_digests_of(rest);
        let (m2, rs) = replay(m, calls);
        assert(rs.drop_first() =~= replay(m1, rest).1);
        assert(m2.dom() =~= m.dom() + digests_of(calls));
        let new_all = digests_of(calls).difference(m.dom());
        let new_rest = digests_of(rest).difference(m1.dom());
        if m.contains_key(d0) {
            assert(new_all =~= new_rest);
        } else {
            assert(new_all =~= new_rest.insert(d0));
            assert(!new_rest.contains(d0));
            assert(new_rest.finite());
        }
    }
}

/// Which file of a group is stored first depends on the order, but the
/// outcome as a whole does not: two scans over the same files (any
/// permutation of the same calls) record the same set of digests, store the
/// same number of files, and so report the same number of duplicates.
pub proof fn law_order_independent(calls1: Seq<(Seq<u8>, Seq<char>)>, calls2: Seq<(Seq<u8>, Seq<char>)>)
    requires
        calls1.to_multiset() == calls2.to_multiset(),
    ensures
        replay(Map::empty(), calls1).0.dom() == replay(Map::empty(), calls2).0.dom(),
        replay(Map::empty(), calls1).0.dom() == digests_of(calls1),
        stored_count(replay(Map::empty(), calls1).1) == stored_count(replay(Map::empty(), calls2).1),
        calls1.len() == calls2.len(),
{
    broadcast use vstd::seq_lib::group_to_multiset_ensures;

    let m = Map::<Seq<u8>, Seq<char>>::empty();
    lemma_replay_counts(m, calls1);
    lemma_replay_counts(m, calls2);
    lemma_digests_of(calls1);
    lemma_digests_of(calls2);
    assert forall|d: Seq<u8>| digests_of(calls1).contains(d) <==> digests_of(calls2).contains(d) by {
        if digests_of(calls1).contains(d) {
            let i = choose|i: int| 0 <= i < calls1.len() && calls1[i].0 == d;
            assert(calls1.contains(calls1[i]));
            assert(calls1.to_multiset().count(calls1[i]) > 0);
            assert(calls2.contains(calls1[i]));
        }
        if digests_of(calls2).contains(d) {
            let i = choose|i: int| 0 <= i < calls2.len() && calls2[i].0 == d;
            assert(calls2.contains(calls2[i]));
            assert(calls2.to_multiset().count(calls2[i]) > 0);
            assert(calls1.contains(calls2[i]));
        }
    }
    assert(digests_of(calls1) =~= digests_of(calls2));
    calls1.to_multiset_ensures();
    calls2.to_multiset_ensures();
    assert(m.dom() + digests_of(calls1) =~= digests_of(calls1));
    assert(digests_of(calls1).difference(m.dom()) =~= digests_of(calls1));
    assert(digests_of(calls2).difference(m.dom()) =~= digests_of(calls2));
}

proof fn lemma_replay_reports(m: Map<Seq<u8>, Seq<char>>, calls: Seq<(Seq<u8>, Seq<char>)>)
    ensures
        replay(m, calls).1.len() == calls.len(),
        forall|i: int| 0 <= i < calls.len() && #[trigger] replay(m, calls).1[i] is Some ==> {
            let p = replay(m, calls).1[i]->0;
            (m.contains_key(calls[i].0) && p == m[calls[i].0]) || exists|j: int|
                0 <= j < i && calls[j].0 == calls[i].0 && calls[j].1 == p && replay(m, calls).1[j] is None
        },
    decreases calls.len(),
{
    if calls.len() > 0 {
        let rest = calls.drop_first();
        let (m1, r) = check_or_insert_spec(m, calls[0].0, calls[0].1);
        lemma_replay_reports(m1, rest);
        let rs = replay(m, calls).1;
        let rs1 = replay(m1, rest).1;
        assert forall|i: int| 0 <= i < calls.len() && #[trigger] rs[i] is Some implies {
            let p = rs[i]->0;
            (m.contains_key(calls[i].0) && p == m[calls[i].0]) || exists|j: int|
                0 <= j < i && calls[j].0 == calls[i].0 && calls[j].1 == p && rs[j] is None
        } by {
            if i > 0 {
                assert(rs[i] == rs1[i - 1]);
                assert(calls[i] == rest[i - 1]);
                let p = rs[i]->0;
                if m1.contains_key(rest[i - 1].0) && p == m1[rest[i - 1].0] {
                    if !m.contains_key(calls[i].0) {
                        assert(rs[0] is None);
                    }
                } else {
                    let j = choose|j: int|
                        0 <= j < i - 1 && rest[j].0 == rest[i - 1].0 && rest[j].1 == p && rs1[j] is None;
                    assert(calls[j + 1] == rest[j]);
                    assert(rs[j + 1] == rs1[j]);
                }
            }
        }
    }
}

/// A file is only ever reported as a duplicate of a file with the same
/// digest that was seen before it and stored its own path: never of itself,
/// never of a later file, never of another duplicate.
pub proof fn law_reports_point_to_first(calls: Seq<(Seq<u8>, Seq<char>)>)
    ensures
        forall|i: int| 0 <= i < calls.len() && #[trigger] replay(Map::empty(), calls).1[i] is Some ==> exists|j: int|
            0 <= j < i && calls[j].0 == calls[i].0 && calls[j].1 == replay(Map::empty(), calls).1[i]->0
                && replay(Map::empty(), calls).1[j] is None,
{
    lemma_replay_reports(Map::empty(), calls);
}

} // verus!
