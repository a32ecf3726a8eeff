use std::collections::HashSet;

use vstd::prelude::*;

use crate::arrange::{
    is_index_permutation, keeps_ties_in_order, lemma_insert_keeps_ties, lemma_permutation_insert,
    lists_index, rearranges, stably_rearranges,
};
use crate::model::{duplicate_files, file_views, FileEntry, FileEntryView, Snapshot};
use crate::text::{chars_of, same_text};

verus! {

broadcast use vstd::std_specs::hash::group_hash_axioms;

// ---------------------------------------------------------------------
// Scan results and their cache
// ---------------------------------------------------------------------

/// What a scan result denotes.
pub struct ScanResultView {
    pub files: Seq<FileEntryView>,
    pub scanned_at: Seq<char>,
}

/// The largest files of one mount and when they were found.
#[derive(Clone, Debug)]
pub struct ScanResult {
    pub files: Vec<FileEntry>,
    pub scanned_at: String,
}

impl View for ScanResult {
    type V = ScanResultView;

    open spec fn view(&self) -> ScanResultView {
        ScanResultView { files: file_views(self.files@), scanned_at: self.scanned_at@ }
    }
}

impl ScanResult {
    /// A copy of this result, entry by entry.
    pub fn duplicate(&self) -> (r: ScanResult)
        ensures
            r@ == self@,
    {
        ScanResult { files: duplicate_files(&self.files), scanned_at: self.scanned_at.clone() }
    }
}

/// One mount point's entry in the cache.
struct CacheSlot {
    mount_point: String,
    result: ScanResult,
}

/// The map that a list of slots with distinct mount points stands for.
spec fn slots_map(s: Seq<CacheSlot>) -> Map<Seq<char>, ScanResultView>
    decreases s.len(),
{
    if s.len() == 0 {
        Map::empty()
    } else {
        slots_map(s.drop_last()).insert(s.last().mount_point@, s.last().result@)
    }
}

/// No two slots have the same mount point.
spec fn keys_distinct(s: Seq<CacheSlot>) -> bool {
    forall|i: int, j: int|
        0 <= i < s.len() && 0 <= j < s.len() && i != j ==> #[trigger] s[i].mount_point@
            != #[trigger] s[j].mount_point@
}

proof fn lemma_slots_map(s: Seq<CacheSlot>)
    requires
        keys_distinct(s),
    ensures
        forall|k: Seq<char>|
            #[trigger] slots_map(s).contains_key(k) <==> exists|i: int|
                0 <= i < s.len() && #[trigger] s[i].mount_point@ == k,
        forall|i: int| 0 <= i < s.len() ==> slots_map(s)[#[trigger] s[i].mount_point@] == s[i].result@,
    decreases s.len(),
{
    if s.len() > 0 {
        let t = s.drop_last();
        let n = s.len() - 1;
        assert forall|i: int, j: int|
            0 <= i < t.len() && 0 <= j < t.len() && i != j implies #[trigger] t[i].mount_point@
            != #[trigger] t[j].mount_point@ by {
            assert(t[i] == s[i]);
            assert(t[j] == s[j]);
        }
        lemma_slots_map(t);
        assert forall|k: Seq<char>| #[trigger] slots_map(s).contains_key(k) <==> exists|i: int|
            0 <= i < s.len() && #[trigger] s[i].mount_point@ == k by {
            if slots_map(s).contains_key(k) && k != s[n].mount_point@ {
                assert(slots_map(t).contains_key(k));
                let i = choose|i: int| 0 <= i < t.len() && #[trigger] t[i].mount_point@ == k;
                assert(s[i] == t[i]);
                assert(s[i].mount_point@ == k);
            }
            if exists|i: int| 0 <= i < s.len() && #[trigger] s[i].mount_point@ == k {
                let i = choose|i: int| 0 <= i < s.len() && #[trigger] s[i].mount_point@ == k;
                if i < n {
                    assert(t[i] == s[i]);
                    assert(slots_map(t).contains_key(k));
                }
            }
        }
        assert forall|i: int| 0 <= i < s.len() implies slots_map(s)[#[trigger] s[i].mount_point@]
            == s[i].result@ by {
            if i < n {
                assert(t[i] == s[i]);
                assert(s[i].mount_point@ != s[n].mount_point@);
            }
        }
    }
}

/// The mount points listed in `keep`.
pub open spec fn listed_mount_points(keep: Seq<String>) -> Set<Seq<char>> {
    Set::new(|k: Seq<char>| exists|j: int| 0 <= j < keep.len() && #[trigger] keep[j]@ == k)
}

/// The most recent scan result of each mount point. The sampler reads it
/// when it assembles a snapshot; the scanner writes it after each walk.
pub struct LargestFilesCache {
    slots: Vec<CacheSlot>,
}

impl View for LargestFilesCache {
    type V = Map<Seq<char>, ScanResultView>;

    closed spec fn view(&self) -> Map<Seq<char>, ScanResultView> {
        slots_map(self.slots@)
    }
}

impl LargestFilesCache {
    #[verifier::type_invariant]
    closed spec fn well_formed(&self) -> bool {
        keys_distinct(self.slots@)
    }

    /// An empty cache.
    pub fn new() -> (r: Self)
        ensures
            r@ == Map::<Seq<char>, ScanResultView>::empty(),
    {
        LargestFilesCache { slots: Vec::new() }
    }

    /// The position of the slot for `mount_point`, if there is one.
    fn find(&self, mount_point: &str) -> (r: Option<usize>)
        ensures
            match r {
                Some(i) => i < self.slots@.len() && self.slots@[i as int].mount_point@
                    == mount_point@,
                None => forall|j: int|
                    0 <= j < self.slots@.len() ==> #[trigger] self.slots@[j].mount_point@
                        != mount_point@,
            },
    {
        let mut i: usize = 0;
        while i < self.slots.len()
            invariant
                i <= self.slots@.len(),
                forall|j: int|
                    0 <= j < i ==> #[trigger] self.slots@[j].mount_point@ != mount_point@,
            decreases self.slots@.len() - i,
        {
            if same_text(self.slots[i].mount_point.as_str(), mount_point) {
                return Some(i);
            }
            i = i + 1;
        }
        None
    }

    /// A copy of the result stored for `mount_point`, if any.
    pub fn get(&self, mount_point: &str) -> (r: Option<ScanResult>)
        ensures
            match r {
                Some(v) => self@.contains_key(mount_point@) && v@ == self@[mount_point@],
                None => !self@.contains_key(mount_point@),
            },
    {
        proof {
            use_type_invariant(self);
            lemma_slots_map(self.slots@);
        }
        match self.find(mount_point) {
            Some(i) => Some(self.slots[i].result.duplicate()),
            None => None,
        }
    }

    /// Stores `result` for `mount_point`, replacing what was there.
    pub fn put(&mut self, mount_point: String, result: ScanResult)
        ensures
            final(self)@ == old(self)@.insert(mount_point@, result@),
    {
        proof {
            use_type_invariant(&*self);
            lemma_slots_map(self.slots@);
        }
        let ghost old_slots = self.slots@;
        let ghost key = mount_point@;
        let ghost value = result@;
        let found = self.find(mount_point.as_str());
        let mut slots: Vec<CacheSlot> = Vec::new();
        std::mem::swap(&mut slots, &mut self.slots);
        let slot = CacheSlot { mount_point, result };
        let ghost new_slot = slot;
        match found {
            Some(i) => {
                slots.set(i, slot);
            },
            None => {
                slots.push(slot);
            },
        }
        proof {
            let s = slots@;
            let fi: int = match found {
                Some(x) => x as int,
                None => -1,
            };
            assert forall|i: int, j: int|
                0 <= i < s.len() && 0 <= j < s.len() && i != j implies #[trigger] s[i].mount_point@
                != #[trigger] s[j].mount_point@ by {
                if i < old_slots.len() && j < old_slots.len() {
                    if fi != i {
                        assert(s[i] == old_slots[i]);
                    }
                    if fi != j {
                        assert(s[j] == old_slots[j]);
                    }
                } else if i >= old_slots.len() {
                    assert(s[j] == old_slots[j]);
                } else {
                    assert(s[i] == old_slots[i]);
                }
            }
            lemma_slots_map(s);
            let m = slots_map(old_slots).insert(key, value);
            assert(fi >= 0 ==> s == old_slots.update(fi, new_slot));
            assert(fi < 0 ==> s == old_slots.push(new_slot));
            assert(new_slot.mount_point@ == key && new_slot.result@ == value);
            assert forall|k: Seq<char>| #[trigger] slots_map(s).contains_key(k) <==> m.contains_key(
                k,
            ) by {
                if slots_map(s).contains_key(k) {
                    let i = choose|i: int| 0 <= i < s.len() && #[trigger] s[i].mount_point@ == k;
                    if k != key {
                        assert(i != fi);
                        assert(i < old_slots.len());
                        assert(s[i] == old_slots[i]);
                        assert(slots_map(old_slots).contains_key(k));
                    }
                }
                if m.contains_key(k) {
                    if k == key {
                        if fi >= 0 {
                            assert(s[fi].mount_point@ == key);
                        } else {
                            assert(s[old_slots.len() as int].mount_point@ == key);
                        }
                    } else {
                        assert(slots_map(old_slots).contains_key(k));
                        let i = choose|i: int|
                            0 <= i < old_slots.len() && #[trigger] old_slots[i].mount_point@ == k;
                        assert(i != fi);
                        assert(s[i] == old_slots[i]);
                    }
                }
            }
            assert forall|k: Seq<char>| #[trigger] slots_map(s).contains_key(k) implies slots_map(
                s,
            )[k] == m[k] by {
                let i = choose|i: int| 0 <= i < s.len() && #[trigger] s[i].mount_point@ == k;
                if k != key {
                    assert(i != fi);
                    assert(i < old_slots.len());
                    assert(s[i] == old_slots[i]);
                } else {
                    assert(s[i].result@ == value) by {
                        if i != fi && i < old_slots.len() {
                            assert(s[i] == old_slots[i]);
                        }
                    }
                }
            }
            assert(slots_map(s) =~= m);
        }
        self.slots = slots;
    }

    /// Whether `keep` lists `mount_point`.
    fn is_listed(keep: &[String], mount_point: &String) -> (r: bool)
        ensures
            r == listed_mount_points(keep@).contains(mount_point@),
    {
        let mut j: usize = 0;
        while j < keep.len()
            invariant
                j <= keep@.len(),
                forall|q: int| 0 <= q < j ==> #[trigger] keep@[q]@ != mount_point@,
            decreases keep@.len() - j,
        {
            if same_text(keep[j].as_str(), mount_point.as_str()) {
                assert(keep@[j as int]@ == mount_point@);
                return true;
            }
            j = j + 1;
        }
        false
    }

    /// Drops the entries of mounts that `keep` does not list.
    pub fn retain(&mut self, keep: &[String])
        ensures
            final(self)@ == old(self)@.restrict(listed_mount_points(keep@)),
    {
        proof {
            use_type_invariant(&*self);
            lemma_slots_map(self.slots@);
        }
        let ghost old_slots = self.slots@;
        let mut kept: Vec<CacheSlot> = Vec::new();
        let ghost mut from: Seq<int> = Seq::empty();
        let mut i: usize = 0;
        while i < self.slots.len()
            invariant
                self.slots@ == old_slots,
                keys_distinct(old_slots),
                i <= old_slots.len(),
                from.len() == kept@.len(),
                forall|j: int|
                    0 <= j < from.len() ==> 0 <= #[trigger] from[j] < i && kept@[j].mount_point@
                        == old_slots[from[j]].mount_point@ && kept@[j].result@
                        == old_slots[from[j]].result@,
                forall|j1: int, j2: int|
                    0 <= j1 < j2 < from.len() ==> #[trigger] from[j1] < #[trigger] from[j2],
                forall|t: int|
                    0 <= t < i && listed_mount_points(keep@).contains(
                        #[trigger] old_slots[t].mount_point@,
                    ) ==> exists|j: int| 0 <= j < from.len() && from[j] == t,
                forall|j: int|
                    0 <= j < kept@.len() ==> listed_mount_points(keep@).contains(
                        #[trigger] kept@[j].mount_point@,
                    ),
            decreases old_slots.len() - i,
        {
            if Self::is_listed(keep, &self.slots[i].mount_point) {
                let slot = CacheSlot {
                    mount_point: self.slots[i].mount_point.clone(),
                    result: self.slots[i].result.duplicate(),
                };
                kept.push(slot);
                proof {
                    let prev = from;
                    from = from.push(i as int);
                    assert forall|t: int|
                        0 <= t < i + 1 && listed_mount_points(keep@).contains(
                            #[trigger] old_slots[t].mount_point@,
                        ) implies exists|j: int| 0 <= j < from.len() && from[j] == t by {
                        if t == i {
                            assert(from[prev.len() as int] == t);
                        } else {
                            let j = choose|j: int| 0 <= j < prev.len() && prev[j] == t;
                            assert(from[j] == t);
                        }
                    }
                }
            }
            i = i + 1;
        }
        proof {
            let s = kept@;
            assert forall|a: int, b: int|
                0 <= a < s.len() && 0 <= b < s.len() && a != b implies #[trigger] s[a].mount_point@
                != #[trigger] s[b].mount_point@ by {
                if a < b {
                    assert(from[a] < from[b]);
                } else {
                    assert(from[b] < from[a]);
                }
            }
            lemma_slots_map(s);
            let keys = listed_mount_points(keep@);
            let m = slots_map(old_slots).restrict(keys);
            assert forall|k: Seq<char>| #[trigger] slots_map(s).contains_key(k) <==> m.contains_key(
                k,
            ) by {
                if slots_map(s).contains_key(k) {
                    let j = choose|j: int| 0 <= j < s.len() && #[trigger] s[j].mount_point@ == k;
                    assert(old_slots[from[j]].mount_point@ == k);
                }
                if m.contains_key(k) {
                    let t = choose|t: int|
                        0 <= t < old_slots.len() && #[trigger] old_slots[t].mount_point@ == k;
                    let j = choose|j: int| 0 <= j < from.len() && from[j] == t;
                    assert(s[j].mount_point@ == k);
                }
            }
            assert forall|k: Seq<char>| #[trigger] slots_map(s).contains_key(k) implies slots_map(
                s,
            )[k] == m[k] by {
                let j = choose|j: int| 0 <= j < s.len() && #[trigger] s[j].mount_point@ == k;
                assert(old_slots[from[j]].mount_point@ == k);
            }
            assert(slots_map(s) =~= m);
        }
        self.slots = kept;
    }
}

impl Default for LargestFilesCache {
    fn default() -> (r: Self)
        ensures
            r@ == Map::<Seq<char>, ScanResultView>::empty(),
    {
        LargestFilesCache::new()
    }
}

/// A stored result is read back as it was stored.
pub proof fn law_get_after_put(
    cache: Map<Seq<char>, ScanResultView>,
    mount_point: Seq<char>,
    result: ScanResultView,
)
    ensures
        cache.insert(mount_point, result).contains_key(mount_point),
        cache.insert(mount_point, result)[mount_point] == result,
{
}

/// Storing a result for one mount point leaves the others as they were.
pub proof fn law_put_keeps_other_mounts(
    cache: Map<Seq<char>, ScanResultView>,
    mount_point: Seq<char>,
    result: ScanResultView,
    other: Seq<char>,
)
    requires
        other != mount_point,
    ensures
        cache.insert(mount_point, result).contains_key(other) == cache.contains_key(other),
        cache.contains_key(other) ==> cache.insert(mount_point, result)[other] == cache[other],
{
}

/// After `retain`, a mount point has an entry exactly when it had one
/// before and is listed; the entries kept are unchanged.
pub proof fn law_retain_keeps_listed(
    cache: Map<Seq<char>, ScanResultView>,
    keep: Seq<String>,
    mount_point: Seq<char>,
)
    ensures
        cache.restrict(listed_mount_points(keep)).contains_key(mount_point) <==> (
        cache.contains_key(mount_point) && exists|j: int|
            0 <= j < keep.len() && #[trigger] keep[j]@ == mount_point),
        cache.restrict(listed_mount_points(keep)).contains_key(mount_point) ==> cache.restrict(
            listed_mount_points(keep),
        )[mount_point] == cache[mount_point],
{
}


// ---------------------------------------------------------------------
// Rescan requests
// ---------------------------------------------------------------------

/// A request to the scanner: rescan every mount, or one mount point.
#[derive(Clone, Debug)]
pub enum RescanRequest {
    All,
    One(String),
}

/// What a burst of rescan requests comes to: every mount, or the listed
/// mount points, each once.
#[derive(Debug)]
pub enum RescanPlan {
    All,
    Mounts(Vec<String>),
}

/// Some request of the burst asks for every mount.
pub open spec fn asks_for_all(rs: Seq<RescanRequest>) -> bool {
    exists|i: int| 0 <= i < rs.len() && #[trigger] rs[i] is All
}

/// Some request of the burst asks for mount point `k`.
pub open spec fn asks_for_mount(rs: Seq<RescanRequest>, k: Seq<char>) -> bool {
    exists|i: int| 0 <= i < rs.len() && (#[trigger] rs[i] matches RescanRequest::One(m) && m@ == k)
}

/// The views of a list of strings.
pub open spec fn text_views(v: Seq<String>) -> Seq<Seq<char>> {
    v.map_values(|t: String| t@)
}

/// No two strings of `v` are equal.
pub open spec fn texts_distinct(v: Seq<String>) -> bool {
    forall|i: int, j: int|
        0 <= i < v.len() && 0 <= j < v.len() && i != j ==> #[trigger] v[i]@ != #[trigger] v[j]@
}

/// A request for every mount anywhere in a burst, first, last or in
/// between, makes the plan cover every mount; a burst without one asks for
/// each mount point that one of its requests names, and for no other.
pub proof fn law_rescan_all_anywhere(rs: Seq<RescanRequest>, i: int, k: Seq<char>)
    ensures
        0 <= i < rs.len() && rs[i] is All ==> asks_for_all(rs),
        (forall|j: int| 0 <= j < rs.len() ==> !(#[trigger] rs[j] is All)) ==> !asks_for_all(rs),
        0 <= i < rs.len() && (rs[i] matches RescanRequest::One(m) && m@ == k) ==> asks_for_mount(
            rs,
            k,
        ),
        (forall|j: int|
            0 <= j < rs.len() ==> !(#[trigger] rs[j] matches RescanRequest::One(m) && m@ == k))
            ==> !asks_for_mount(rs, k),
{
}

/// Splitting a burst in two does not change the plan: it covers every
/// mount when either part asks for that, and asks for a mount point when
/// either part does.
pub proof fn law_rescan_burst_split(a: Seq<RescanRequest>, b: Seq<RescanRequest>, k: Seq<char>)
    ensures
        asks_for_all(a + b) <==> (asks_for_all(a) || asks_for_all(b)),
        asks_for_mount(a + b, k) <==> (asks_for_mount(a, k) || asks_for_mount(b, k)),
{
    let ab = a + b;
    if asks_for_all(a) {
        let i = choose|i: int| 0 <= i < a.len() && #[trigger] a[i] is All;
        assert(ab[i] == a[i]);
    }
    if asks_for_all(b) {
        let i = choose|i: int| 0 <= i < b.len() && #[trigger] b[i] is All;
        assert(ab[a.len() + i] == b[i]);
    }
    if asks_for_all(ab) {
        let i = choose|i: int| 0 <= i < ab.len() && #[trigger] ab[i] is All;
        if i < a.len() {
            assert(ab[i] == a[i]);
        } else {
            assert(ab[i] == b[i - a.len()]);
        }
    }
    if asks_for_mount(a, k) {
        let i = choose|i: int| 0 <= i < a.len() && (#[trigger] a[i] matches RescanRequest::One(m) && m@ == k);
        assert(ab[i] == a[i]);
    }
    if asks_for_mount(b, k) {
        let i = choose|i: int| 0 <= i < b.len() && (#[trigger] b[i] matches RescanRequest::One(m) && m@ == k);
        assert(ab[a.len() + i] == b[i]);
    }
    if asks_for_mount(ab, k) {
        let i = choose|i: int| 0 <= i < ab.len() && (#[trigger] ab[i] matches RescanRequest::One(m) && m@ == k);
        if i < a.len() {
            assert(ab[i] == a[i]);
        } else {
            assert(ab[i] == b[i - a.len()]);
        }
    }
}

/// Coalesces a burst of rescan requests (say, several files trashed in a
/// row): one request for every mount covers all; otherwise each requested
/// mount point is scanned once.
pub fn plan_rescan(requests: &Vec<RescanRequest>) -> (r: RescanPlan)
    ensures
        r is All <==> asks_for_all(requests@),
        r matches RescanPlan::Mounts(ms) ==> {
            &&& texts_distinct(ms@)
            &&& forall|k: Seq<char>|
                text_views(ms@).contains(k) <==> #[trigger] asks_for_mount(requests@, k)
        },
{
    let mut targets: Vec<String> = Vec::new();
    let mut i: usize = 0;
    while i < requests.len()
        invariant
            i <= requests@.len(),
            forall|j: int| 0 <= j < i ==> !(#[trigger] requests@[j] is All),
            texts_distinct(targets@),
            forall|k: Seq<char>|
                text_views(targets@).contains(k) <==> #[trigger] asks_for_mount(
                    requests@.take(i as int),
                    k,
                ),
        decreases requests@.len() - i,
    {
        let ghost before = targets@;
        match &requests[i] {
            RescanRequest::All => {
                assert(requests@[i as int] is All);
                return RescanPlan::All;
            },
            RescanRequest::One(mp) => {
                let mut seen = false;
                let mut j: usize = 0;
                while j < targets.len()
                    invariant
                        j <= targets@.len(),
                        !seen ==> forall|q: int| 0 <= q < j ==> #[trigger] targets@[q]@ != mp@,
                        seen ==> text_views(targets@).contains(mp@),
                    decreases targets@.len() - j,
                {
                    if same_text(targets[j].as_str(), mp.as_str()) {
                        assert(text_views(targets@)[j as int] == mp@);
                        seen = true;
                    }
                    j = j + 1;
                }
                if !seen {
                    targets.push(mp.clone());
                }
                proof {
                    assert(requests@.take(i + 1) =~= requests@.take(i as int).push(requests@[i as int]));
                    assert forall|k: Seq<char>| text_views(targets@).contains(k) <==> #[trigger] asks_for_mount(
                        requests@.take(i + 1),
                        k,
                    ) by {
                        let t = requests@.take(i + 1);
                        if k == mp@ {
                            assert(t[i as int] matches RescanRequest::One(m) && m@ == k);
                            if !seen {
                                assert(text_views(targets@)[before.len() as int] == k);
                            }
                        } else {
                            if text_views(targets@).contains(k) {
                                let q = choose|q: int| 0 <= q < text_views(targets@).len() && text_views(targets@)[q] == k;
                                if q < before.len() {
                                    assert(text_views(before)[q] == k);
                                }
                            }
                            if asks_for_mount(t, k) {
                                let w = choose|w: int| 0 <= w < t.len() && (#[trigger] t[w] matches RescanRequest::One(m) && m@ == k);
                                assert(requests@.take(i as int)[w] == t[w]);
                                assert(asks_for_mount(requests@.take(i as int), k));
                                let q = choose|q: int| 0 <= q < text_views(before).len() && text_views(before)[q] == k;
                                assert(text_views(targets@)[q] == k);
                            }
                            if asks_for_mount(requests@.take(i as int), k) {
                                let w = choose|w: int| 0 <= w < i && (#[trigger] requests@.take(i as int)[w] matches RescanRequest::One(m) && m@ == k);
                                assert(t[w] == requests@.take(i as int)[w]);
                            }
                        }
                    }
                    assert forall|a: int, b: int|
                        0 <= a < targets@.len() && 0 <= b < targets@.len() && a != b implies #[trigger] targets@[a]@ != #[trigger] targets@[b]@ by {
                        if a < before.len() && b < before.len() {
                        } else if a == before.len() {
                            assert(targets@[b] == before[b]);
                        } else {
                            assert(targets@[a] == before[a]);
                        }
                    }
                }
            },
        }
        i = i + 1;
    }
    assert(requests@.take(i as int) =~= requests@);
    RescanPlan::Mounts(targets)
}

/// The mount points of a snapshot, in its order.
pub fn mount_points_of(snapshot: &Snapshot) -> (r: Vec<String>)
    ensures
        text_views(r@) == snapshot.mounts@.map_values(|m: crate::model::Mount| m.mount_point@),
{
    let mut r: Vec<String> = Vec::new();
    for i in 0..snapshot.mounts.len()
        invariant
            r@.len() == i,
            forall|j: int| 0 <= j < i ==> #[trigger] r@[j]@ == snapshot.mounts@[j].mount_point@,
    {
        r.push(snapshot.mounts[i].mount_point.clone());
    }
    assert(text_views(r@) =~= snapshot.mounts@.map_values(|m: crate::model::Mount| m.mount_point@));
    r
}

// ---------------------------------------------------------------------
// Scanner settings
// ---------------------------------------------------------------------

/// How the largest-files scanner runs.
#[derive(Debug, Clone)]
pub struct ScannerConfig {
    /// How many files to keep per mount.
    pub top_n: usize,
    /// Seconds between scheduled scans of every mount.
    pub refresh_secs: u64,
    /// Seconds before the first scan, so that it does not compete with the
    /// I/O of a login.
    pub initial_delay_secs: u64,
}

impl Default for ScannerConfig {
    /// Twenty files per mount, a scan every 300 seconds, the first after
    /// 30 seconds.
    fn default() -> (r: Self)
        ensures
            r.top_n == 20,
            r.refresh_secs == 300,
            r.initial_delay_secs == 30,
    {
        ScannerConfig { top_n: 20, refresh_secs: 300, initial_delay_secs: 30 }
    }
}

// ---------------------------------------------------------------------
// The largest files of a walk
// ---------------------------------------------------------------------

/// What the walk reports of one regular file.
pub struct FileVisit {
    pub path: String,
    pub size_bytes: u64,
    /// The number of hard links to the file.
    pub links: u64,
    /// The device and inode number that identify the file.
    pub device: u64,
    pub inode: u64,
}

/// A file with several hard links that an earlier visit already counted.
pub open spec fn repeats_hard_link(earlier: Seq<FileVisit>, v: FileVisit) -> bool {
    &&& v.links > 1
    &&& exists|i: int|
        0 <= i < earlier.len() && (#[trigger] earlier[i]).links > 1 && earlier[i].device == v.device
            && earlier[i].inode == v.inode
}

/// The entry that a visit contributes.
pub open spec fn entry_of_visit(v: FileVisit) -> FileEntry {
    FileEntry { path: v.path, size_bytes: v.size_bytes }
}

/// The files that count, in walk order: every visit except the later
/// visits of a hard-linked file, which counts once.
pub open spec fn counted_files(visits: Seq<FileVisit>) -> Seq<FileEntry>
    decreases visits.len(),
{
    if visits.len() == 0 {
        Seq::empty()
    } else {
        let before = counted_files(visits.drop_last());
        if repeats_hard_link(visits.drop_last(), visits.last()) {
            before
        } else {
            before.push(entry_of_visit(visits.last()))
        }
    }
}

/// `sel` picks, for each entry of `r`, a distinct position of `c` holding
/// it, and no entry of `c` that was not picked is larger than a picked one.
pub open spec fn is_top_selection(r: Seq<FileEntry>, c: Seq<FileEntry>, sel: Seq<int>) -> bool {
    &&& sel.len() == r.len()
    &&& forall|j: int| 0 <= j < r.len() ==> 0 <= #[trigger] sel[j] < c.len() && r[j] == c[sel[j]]
    &&& forall|j1: int, j2: int|
        0 <= j1 < r.len() && 0 <= j2 < r.len() && j1 != j2 ==> #[trigger] sel[j1] != #[trigger] sel[j2]
    &&& forall|t: int, j: int|
        0 <= t < c.len() && !lists_index(sel, t) && 0 <= j < r.len() ==> #[trigger] c[t].size_bytes
            <= #[trigger] r[j].size_bytes
}

/// `r` holds `n` of the largest entries of `c` (all of them, if `c` has
/// fewer): among files of equal size at the cut, which are kept is left
/// open.
pub open spec fn holds_largest(r: Seq<FileEntry>, c: Seq<FileEntry>, n: nat) -> bool {
    &&& r.len() == (if c.len() < n { c.len() } else { n })
    &&& exists|sel: Seq<int>| is_top_selection(r, c, sel)
}

/// Sizes do not grow along `r`.
pub open spec fn by_size_descending(r: Seq<FileEntry>) -> bool {
    forall|i: int, j: int| 0 <= i < j < r.len() ==> r[i].size_bytes >= r[j].size_bytes
}

/// The number that identifies a file: its device and inode number, side
/// by side.
pub open spec fn file_identity(device: u64, inode: u64) -> int {
    device * 0x1_0000_0000_0000_0000 + inode
}

proof fn lemma_file_identity_injective(d1: u64, i1: u64, d2: u64, i2: u64)
    requires
        file_identity(d1, i1) == file_identity(d2, i2),
    ensures
        d1 == d2 && i1 == i2,
{
    assert(d1 == d2) by (nonlinear_arith)
        requires
            d1 * 0x1_0000_0000_0000_0000 + i1 == d2 * 0x1_0000_0000_0000_0000 + i2,
            0 <= i1 < 0x1_0000_0000_0000_0000,
            0 <= i2 < 0x1_0000_0000_0000_0000,
    ;
}

/// The identities of the hard-linked files among `visits`.
pub open spec fn linked_identities(visits: Seq<FileVisit>) -> Set<u128> {
    Set::new(
        |key: u128|
            exists|i: int|
                0 <= i < visits.len() && (#[trigger] visits[i]).links > 1 && key == file_identity(
                    visits[i].device,
                    visits[i].inode,
                ),
    )
}

/// The place of a character in the order of paths: the separator `/`
/// comes before every other character, the others follow by code point.
pub open spec fn path_rank(c: char) -> int {
    if c == '/' {
        0
    } else {
        c as u32 + 1
    }
}

/// Whether path `a` comes before path `b` in the order of `Path`, which
/// compares paths component by component, each by its bytes. For paths
/// written without `.` components and without doubled or trailing
/// separators, as a walk gives them, that is the order of their
/// characters with the separator ranked first: a shorter path that the
/// other begins with comes first.
pub open spec fn path_lt(a: Seq<char>, b: Seq<char>) -> bool
    decreases a.len(),
{
    if b.len() == 0 {
        false
    } else if a.len() == 0 {
        true
    } else if a[0] != b[0] {
        path_rank(a[0]) < path_rank(b[0])
    } else {
        path_lt(a.drop_first(), b.drop_first())
    }
}

proof fn lemma_path_rank_injective(a: char, b: char)
    requires
        path_rank(a) == path_rank(b),
    ensures
        a == b,
{
    vstd::utf8::char_u32_cast(a, a as u32);
    vstd::utf8::char_u32_cast(b, b as u32);
}

/// `path_lt` is transitive.
pub proof fn lemma_path_lt_transitive(a: Seq<char>, b: Seq<char>, c: Seq<char>)
    requires
        path_lt(a, b),
        path_lt(b, c),
    ensures
        path_lt(a, c),
    decreases a.len(),
{
    if a.len() > 0 && b.len() > 0 && c.len() > 0 {
        if a[0] == b[0] && b[0] == c[0] {
            lemma_path_lt_transitive(a.drop_first(), b.drop_first(), c.drop_first());
        } else if a[0] == c[0] {
            if path_rank(a[0]) == path_rank(b[0]) {
                lemma_path_rank_injective(a[0], b[0]);
            }
            if path_rank(b[0]) == path_rank(c[0]) {
                lemma_path_rank_injective(b[0], c[0]);
            }
        }
    }
}

/// `path_lt` is irreflexive.
pub proof fn lemma_path_lt_irreflexive(a: Seq<char>)
    ensures
        !path_lt(a, a),
    decreases a.len(),
{
    if a.len() > 0 {
        lemma_path_lt_irreflexive(a.drop_first());
    }
}

/// Whether path `a` comes before path `b` in the order of `Path`, as
/// `path_lt` states it.
pub fn path_less(a: &str, b: &str) -> (r: bool)
    ensures
        r == path_lt(a@, b@),
{
    let ca = chars_of(a);
    let cb = chars_of(b);
    let mut i: usize = 0;
    assert(ca@.skip(0) =~= ca@);
    assert(cb@.skip(0) =~= cb@);
    while i < ca.len() && i < cb.len()
        invariant
            ca@ == a@,
            cb@ == b@,
            i <= ca@.len(),
            i <= cb@.len(),
            path_lt(a@, b@) == path_lt(ca@.skip(i as int), cb@.skip(i as int)),
        decreases ca@.len() - i,
    {
        let x = ca[i];
        let y = cb[i];
        assert(ca@.skip(i as int)[0] == x);
        assert(cb@.skip(i as int)[0] == y);
        if x != y {
            if x == '/' {
                return true;
            }
            if y == '/' {
                return false;
            }
            return (x as u32) < (y as u32);
        }
        assert(ca@.skip(i as int).drop_first() =~= ca@.skip(i + 1));
        assert(cb@.skip(i as int).drop_first() =~= cb@.skip(i + 1));
        i = i + 1;
    }
    i == ca.len() && i < cb.len()
}

/// The order in which kept files leave the top list: by size, and among
/// files of equal size by path.
pub open spec fn entry_lt(a: FileEntry, b: FileEntry) -> bool {
    ||| a.size_bytes < b.size_bytes
    ||| (a.size_bytes == b.size_bytes && path_lt(a.path@, b.path@))
}

/// Position `m` of `kept` holds a least file in the order of `entry_lt`.
pub open spec fn is_least_kept(kept: Seq<FileEntry>, m: int) -> bool {
    &&& 0 <= m < kept.len()
    &&& forall|q: int| 0 <= q < kept.len() ==> !entry_lt(#[trigger] kept[q], kept[m])
}

/// What taking in the counted file `e` makes of the kept files `kept`,
/// with room for `limit`: while there is room, `e` is added at the end;
/// once the list is full, `e` takes the place of the least kept file if
/// it is larger than that file, and is passed over otherwise.
pub open spec fn takes_in(kept: Seq<FileEntry>, after: Seq<FileEntry>, limit: nat, e: FileEntry) -> bool {
    if kept.len() < limit {
        after == kept.push(e)
    } else {
        ||| exists|m: int|
            is_least_kept(kept, m) && kept[m].size_bytes < e.size_bytes && after == kept.update(m, e)
        ||| (forall|q: int| 0 <= q < kept.len() ==> e.size_bytes <= #[trigger] kept[q].size_bytes)
            && after == kept
    }
}

/// Keeps the `top_n` largest regular files of a walk. Files with several
/// hard links count once, at their first visit.
pub struct LargestFiles {
    top_n: usize,
    kept: Vec<FileEntry>,
    seen: HashSet<u128>,
    visits: Ghost<Seq<FileVisit>>,
    selection: Ghost<Seq<int>>,
}

impl LargestFiles {
    /// How many files are kept at most.
    pub closed spec fn limit(&self) -> nat {
        self.top_n as nat
    }

    /// The files offered so far, in order.
    pub closed spec fn visited(&self) -> Seq<FileVisit> {
        self.visits@
    }

    /// The files kept so far.
    pub closed spec fn kept(&self) -> Seq<FileEntry> {
        self.kept@
    }

    /// The state is consistent: `kept` holds the largest counted files and
    /// `seen` the identities of the hard-linked files visited.
    pub closed spec fn well_formed(&self) -> bool {
        let c = counted_files(self.visits@);
        &&& self.kept@.len() == (if c.len() < self.top_n { c.len() } else { self.top_n as nat })
        &&& is_top_selection(self.kept@, c, self.selection@)
        &&& self.kept@.len() < self.top_n ==> forall|t: int|
            0 <= t < c.len() ==> #[trigger] lists_index(self.selection@, t)
        &&& self.seen@ == linked_identities(self.visits@)
    }

    /// A walk that keeps up to `top_n` files and has seen none yet.
    pub fn new(top_n: usize) -> (r: Self)
        ensures
            r.well_formed(),
            r.limit() == top_n,
            r.visited() == Seq::<FileVisit>::empty(),
    {
        let r = LargestFiles {
            top_n,
            kept: Vec::new(),
            seen: HashSet::new(),
            visits: Ghost(Seq::empty()),
            selection: Ghost(Seq::empty()),
        };
        assert(r.seen@ =~= linked_identities(Seq::empty()));
        r
    }

    /// Whether any file can be kept at all; when none can, the walk is
    /// not worth making.
    pub fn keeps_any(&self) -> (r: bool)
        ensures
            r == (self.limit() > 0),
    {
        self.top_n > 0
    }

    /// The position of the least kept file: the smallest, and among the
    /// smallest the first by path.
    fn smallest_kept(&self) -> (m: usize)
        requires
            self.kept@.len() > 0,
        ensures
            is_least_kept(self.kept@, m as int),
            forall|q: int| 0 <= q < self.kept@.len() ==> self.kept@[m as int].size_bytes <= (
            #[trigger] self.kept@[q]).size_bytes,
    {
        let mut m: usize = 0;
        let mut i: usize = 1;
        proof {
            lemma_path_lt_irreflexive(self.kept@[0].path@);
        }
        while i < self.kept.len()
            invariant
                m < i <= self.kept@.len(),
                forall|q: int| 0 <= q < i ==> !entry_lt(#[trigger] self.kept@[q], self.kept@[m as int]),
            decreases self.kept@.len() - i,
        {
            let smaller = self.kept[i].size_bytes < self.kept[m].size_bytes || (self.kept[i].size_bytes
                == self.kept[m].size_bytes && path_less(
                self.kept[i].path.as_str(),
                self.kept[m].path.as_str(),
            ));
            if smaller {
                proof {
                    let x = self.kept@[i as int];
                    let y = self.kept@[m as int];
                    assert(entry_lt(x, y));
                    assert forall|q: int| 0 <= q <= i implies !entry_lt(#[trigger] self.kept@[q], x) by {
                        let z = self.kept@[q];
                        if q == i {
                            lemma_path_lt_irreflexive(x.path@);
                        } else if entry_lt(z, x) {
                            if z.size_bytes == x.size_bytes && x.size_bytes == y.size_bytes {
                                lemma_path_lt_transitive(z.path@, x.path@, y.path@);
                            }
                            assert(entry_lt(z, y));
                        }
                    }
                }
                m = i;
            }
            i = i + 1;
        }
        m
    }

    /// Takes in the next file of the walk. A later visit of a hard-linked
    /// file leaves the kept files as they are; any other file is taken in
    /// as `takes_in` says.
    pub fn offer(&mut self, file: FileVisit)
        requires
            old(self).well_formed(),
        ensures
            final(self).well_formed(),
            final(self).limit() == old(self).limit(),
            final(self).visited() == old(self).visited().push(file),
            repeats_hard_link(old(self).visited(), file) ==> final(self).kept() == old(self).kept(),
            !repeats_hard_link(old(self).visited(), file) ==> takes_in(
                old(self).kept(),
                final(self).kept(),
                old(self).limit(),
                entry_of_visit(file),
            ),
    {
        let ghost old_visits = self.visits@;
        let ghost c = counted_files(old_visits);
        let ghost sel = self.selection@;
        let ghost f = file;
        let ghost old_seen = self.seen@;
        let counts = if file.links > 1 {
            proof {
                assert(file.device * 0x1_0000_0000_0000_0000 + file.inode
                    <= 0xffff_ffff_ffff_ffff_ffff_ffff_ffff_ffff) by (nonlinear_arith)
                    requires
                        file.device <= 0xffff_ffff_ffff_ffff,
                        file.inode <= 0xffff_ffff_ffff_ffff,
                ;
            }
            let key: u128 = (file.device as u128) * 0x1_0000_0000_0000_0000u128 + (file.inode as u128);
            let fresh = self.seen.insert(key);
            proof {
                if !fresh {
                    assert(linked_identities(old_visits).contains(key));
                    let i = choose|i: int|
                        0 <= i < old_visits.len() && (#[trigger] old_visits[i]).links > 1 && key
                            == file_identity(old_visits[i].device, old_visits[i].inode);
                    lemma_file_identity_injective(old_visits[i].device, old_visits[i].inode, file.device, file.inode);
                    assert(repeats_hard_link(old_visits, file));
                } else {
                    if repeats_hard_link(old_visits, file) {
                        let i = choose|i: int|
                            0 <= i < old_visits.len() && (#[trigger] old_visits[i]).links > 1
                                && old_visits[i].device == file.device && old_visits[i].inode == file.inode;
                        assert(linked_identities(old_visits).contains(key));
                    }
                }
            }
            assert(key == file_identity(file.device, file.inode));
            assert(self.seen@ == old_seen.insert(key));
            fresh
        } else {
            true
        };
        assert(f.links > 1 ==> self.seen@ == old_seen.insert(file_identity(f.device, f.inode) as u128));
        assert(f.links <= 1 ==> self.seen@ == old_seen);
        proof {
            let nv = old_visits.push(f);
            assert(nv.drop_last() =~= old_visits);
            assert(self.seen@ =~= linked_identities(nv)) by {
                assert forall|key: u128| self.seen@.contains(key) <==> linked_identities(nv).contains(key) by {
                    if f.links > 1 && key == file_identity(f.device, f.inode) {
                        assert(nv[old_visits.len() as int] == f);
                    }
                    if linked_identities(old_visits).contains(key) {
                        let i = choose|i: int|
                            0 <= i < old_visits.len() && (#[trigger] old_visits[i]).links > 1 && key
                                == file_identity(old_visits[i].device, old_visits[i].inode);
                        assert(nv[i] == old_visits[i]);
                    }
                    if linked_identities(nv).contains(key) {
                        let i = choose|i: int|
                            0 <= i < nv.len() && (#[trigger] nv[i]).links > 1 && key
                                == file_identity(nv[i].device, nv[i].inode);
                        if i < old_visits.len() {
                            assert(nv[i] == old_visits[i]);
                        }
                    }
                }
            }
            self.visits = Ghost(nv);
        }
        if counts {
            let ghost entry = entry_of_visit(f);
            let e = FileEntry { path: file.path, size_bytes: file.size_bytes };
            assert(e == entry);
            if self.kept.len() < self.top_n {
                self.kept.push(e);
                proof {
                    let nsel = sel.push(c.len() as int);
                    self.selection = Ghost(nsel);
                    let nc = c.push(entry);
                    assert forall|t: int| 0 <= t < nc.len() implies #[trigger] lists_index(nsel, t) by {
                        if t < c.len() {
                            assert(lists_index(sel, t));
                            let k = choose|k: int| 0 <= k < sel.len() && sel[k] == t;
                            assert(nsel[k] == t);
                        } else {
                            assert(nsel[sel.len() as int] == t);
                        }
                    }
                    assert forall|j: int| 0 <= j < self.kept@.len() implies 0 <= #[trigger] nsel[j] < nc.len()
                        && self.kept@[j] == nc[nsel[j]] by {
                        if j < sel.len() {
                            assert(nc[sel[j]] == c[sel[j]]);
                        }
                    }
                }
            } else if self.kept.len() > 0 {
                let m = self.smallest_kept();
                if e.size_bytes > self.kept[m].size_bytes {
                    let ghost old_kept = self.kept@;
                    self.kept.set(m, e);
                    proof {
                        let nsel = sel.update(m as int, c.len() as int);
                        self.selection = Ghost(nsel);
                        let nc = c.push(entry);
                        let r = self.kept@;
                        assert forall|j: int| 0 <= j < r.len() implies 0 <= #[trigger] nsel[j] < nc.len()
                            && r[j] == nc[nsel[j]] by {
                            if j != m {
                                assert(nc[sel[j]] == c[sel[j]]);
                            }
                        }
                        assert forall|j1: int, j2: int|
                            0 <= j1 < r.len() && 0 <= j2 < r.len() && j1 != j2 implies #[trigger] nsel[j1]
                                != #[trigger] nsel[j2] by {
                            if j1 != m && j2 != m {
                                assert(nsel[j1] == sel[j1]);
                                assert(nsel[j2] == sel[j2]);
                            }
                        }
                        assert forall|t: int, j: int|
                            0 <= t < nc.len() && !lists_index(nsel, t) && 0 <= j < r.len() implies #[trigger] nc[t].size_bytes
                                <= #[trigger] r[j].size_bytes by {
                            assert(t < c.len()) by {
                                if t == c.len() {
                                    assert(nsel[m as int] == t);
                                }
                            }
                            assert(nc[t] == c[t]);
                            assert(old_kept[m as int].size_bytes <= old_kept[j].size_bytes);
                            if t == sel[m as int] {
                                assert(c[t] == old_kept[m as int]);
                            } else {
                                assert(!lists_index(sel, t)) by {
                                    if lists_index(sel, t) {
                                        let k = choose|k: int| 0 <= k < sel.len() && sel[k] == t;
                                        assert(nsel[k] == t);
                                    }
                                }
                                assert(c[t].size_bytes <= old_kept[m as int].size_bytes);
                            }
                        }
                    }
                } else {
                    proof {
                        let nc = c.push(entry);
                        let r = self.kept@;
                        assert forall|j: int| 0 <= j < r.len() implies 0 <= #[trigger] sel[j] < nc.len()
                            && r[j] == nc[sel[j]] by {
                            assert(nc[sel[j]] == c[sel[j]]);
                        }
                        assert forall|t: int, j: int|
                            0 <= t < nc.len() && !lists_index(sel, t) && 0 <= j < r.len() implies #[trigger] nc[t].size_bytes
                                <= #[trigger] r[j].size_bytes by {
                            if t < c.len() {
                                assert(nc[t] == c[t]);
                            } else {
                                assert(r[m as int].size_bytes <= r[j].size_bytes);
                            }
                        }
                    }
                }
            } else {
                proof {
                    let nc = c.push(entry);
                    assert(self.kept@.len() == 0);
                }
            }
        }
    }

    /// Ends the walk: the kept files, largest first; files of equal size
    /// in the order in which they are kept.
    pub fn finish(self) -> (r: Vec<FileEntry>)
        requires
            self.well_formed(),
        ensures
            stably_rearranges(r@, self.kept(), |f: FileEntry| f.size_bytes),
            by_size_descending(r@),
            holds_largest(r@, counted_files(self.visited()), self.limit()),
    {
        let ghost c = counted_files(self.visits@);
        let ghost sel = self.selection@;
        let ghost kept = self.kept@;
        let sorted = sort_by_size(self.kept);
        proof {
            let p = crate::arrange::lemma_rearranged_witness(sorted@, kept);
            let nsel = Seq::new(sorted@.len(), |k: int| sel[p[k]]);
            assert forall|t: int| #![trigger lists_index(nsel, t)] lists_index(nsel, t) <==> lists_index(sel, t) by {
                if lists_index(sel, t) {
                    let j = choose|j: int| 0 <= j < sel.len() && sel[j] == t;
                    assert(lists_index(p, j));
                    let k = choose|k: int| 0 <= k < p.len() && p[k] == j;
                    assert(nsel[k] == t);
                }
                if lists_index(nsel, t) {
                    let k = choose|k: int| 0 <= k < nsel.len() && nsel[k] == t;
                    assert(sel[p[k]] == t);
                }
            }
            assert forall|j: int| 0 <= j < sorted@.len() implies 0 <= #[trigger] nsel[j] < c.len()
                && sorted@[j] == c[nsel[j]] by {
                assert(sorted@[j] == kept[p[j]]);
            }
            assert forall|t: int, j: int|
                0 <= t < c.len() && !lists_index(nsel, t) && 0 <= j < sorted@.len() implies #[trigger] c[t].size_bytes
                    <= #[trigger] sorted@[j].size_bytes by {
                assert(sorted@[j] == kept[p[j]]);
            }
            assert(is_top_selection(sorted@, c, nsel));
        }
        sorted
    }
}

/// Sorts files by size, largest first; files of equal size keep their
/// relative order.
pub fn sort_by_size(files: Vec<FileEntry>) -> (r: Vec<FileEntry>)
    ensures
        rearranges(r@, files@),
        stably_rearranges(r@, files@, |f: FileEntry| f.size_bytes),
        by_size_descending(r@),
{
    let ghost orig = files@;
    let mut input = files;
    let n = input.len();
    let mut out: Vec<FileEntry> = Vec::new();
    let ghost mut perm: Seq<int> = Seq::empty();
    let mut i: usize = 0;
    assert(orig.skip(0) =~= orig);
    while i < n
        invariant
            n == orig.len(),
            i <= n,
            input@ == orig.skip(i as int),
            out@.len() == i,
            is_index_permutation(perm, i as nat),
            forall|k: int| 0 <= k < i ==> #[trigger] out@[k] == orig[perm[k]],
            keeps_ties_in_order(out@, perm, |f: FileEntry| f.size_bytes),
            by_size_descending(out@),
        decreases n - i,
    {
        assert(input@[0] == orig[i as int]);
        let x = input.remove(0);
        assert(input@ =~= orig.skip(i + 1));
        let mut p: usize = 0;
        while p < out.len() && out[p].size_bytes >= x.size_bytes
            invariant
                p <= out@.len(),
                forall|q: int| 0 <= q < p ==> (#[trigger] out@[q]).size_bytes >= x.size_bytes,
            decreases out@.len() - p,
        {
            p = p + 1;
        }
        let ghost before = out@;
        proof {
            assert forall|q: int| p <= q < before.len() implies (|f: FileEntry| f.size_bytes)(
                #[trigger] before[q],
            ) != (|f: FileEntry| f.size_bytes)(x) by {
                assert(before[p as int].size_bytes < x.size_bytes);
            }
            lemma_insert_keeps_ties(before, perm, |f: FileEntry| f.size_bytes, x, p as int, i as int);
        }
        out.insert(p, x);
        proof {
            lemma_permutation_insert(perm, i as nat, p as int);
            perm = perm.insert(p as int, i as int);
            assert forall|k: int| 0 <= k < i + 1 implies #[trigger] out@[k] == orig[perm[k]] by {
                if k > p {
                    assert(out@[k] == before[k - 1]);
                }
            }
            assert forall|a: int, b: int| 0 <= a < b < out@.len() implies out@[a].size_bytes
                >= out@[b].size_bytes by {
                let ia = if a < p { a } else { a - 1 };
                let ib = if b < p { b } else { b - 1 };
                if a != p && b != p {
                    assert(out@[a] == before[ia]);
                    assert(out@[b] == before[ib]);
                } else if a == p {
                    assert(out@[b] == before[ib]);
                    assert(before[p as int].size_bytes < x.size_bytes || p == before.len());
                } else {
                    assert(out@[a] == before[ia]);
                }
            }
        }
        i = i + 1;
    }
    assert(is_index_permutation(perm, orig.len()));
    out
}

} // verus!
