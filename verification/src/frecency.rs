//! Frecency tracking: a decaying usage metric for ranking projects.
//!
//! Each project path has an access count and a last-access time. Its score
//! is the count times a recency weight that halves every week. Scores are
//! integers in fixed-point form: a weight of [`decay_scale`] stands for 1,
//! the weight is exact at whole-week ages (half after one week, a quarter
//! after two), and decreases linearly within each week.

use vstd::arithmetic::div_mod::lemma_div_denominator;
use vstd::arithmetic::div_mod::lemma_div_is_ordered;
use vstd::arithmetic::div_mod::lemma_div_is_ordered_by_denominator;
use vstd::arithmetic::div_mod::lemma_div_multiples_vanish;
use vstd::arithmetic::mul::lemma_mul_inequality;
use vstd::arithmetic::power2::lemma_pow2_adds;
use vstd::arithmetic::power2::lemma_pow2_pos;
use vstd::arithmetic::power2::lemma_pow2_strictly_increases;
use vstd::arithmetic::power2::lemma2_to64;
use vstd::arithmetic::power2::pow2;
use vstd::multiset::Multiset;
use vstd::prelude::*;

use crate::discovery::Project;

verus! {

/// Usage record for a single project path.
#[derive(Debug, Clone, Copy, PartialEq, Eq, Structural)]
pub struct FrecencyEntry {
    /// Number of times this project has been accessed.
    pub frequency: u32,
    /// Unix timestamp of the last access, in seconds.
    pub last_access: u64,
}

/// The fixed-point scale: this recency weight stands for 1.
pub open spec fn decay_scale() -> nat {
    0x100000
}

/// Seconds in one week, the half-life of the recency weight.
pub open spec fn week_seconds() -> nat {
    604800
}

/// Elapsed seconds between the last access and `now`; 0 when the clock went
/// backwards.
pub open spec fn spec_age(last_access: nat, now: nat) -> nat {
    if now >= last_access {
        (now - last_access) as nat
    } else {
        0
    }
}

/// The recency weight of an access `age` seconds old, scaled by
/// [`decay_scale`]: exactly the scale at age 0, exactly half the scale after
/// one week, a quarter after two, falling linearly within each week.
pub open spec fn spec_decay(age: nat) -> nat {
    let k = age / week_seconds();
    let r = age % week_seconds();
    ((decay_scale() / pow2(k)) * ((2 * week_seconds() - r) as nat)) / (2 * week_seconds())
}

/// The frecency score: access count times recency weight.
pub open spec fn spec_score(frequency: nat, age: nat) -> nat {
    frequency * spec_decay(age)
}

/// The recency weight never exceeds the scale.
pub proof fn lemma_decay_le_scale(age: nat)
    ensures
        spec_decay(age) <= decay_scale(),
{
    let k = age / week_seconds();
    let r = age % week_seconds();
    let h = decay_scale() / pow2(k);
    let w2 = 2 * week_seconds();
    lemma_pow2_pos(k);
    assert(0 <= r < week_seconds()) by {
        vstd::arithmetic::div_mod::lemma_mod_bound(age as int, week_seconds() as int);
    }
    assert(h * (w2 - r) <= h * w2) by {
        lemma_mul_inequality((w2 - r) as int, w2 as int, h as int);
    }
    lemma_div_is_ordered((h * (w2 - r)) as int, (h * w2) as int, w2 as int);
    assert((h * w2) / w2 == h) by {
        lemma_div_multiples_vanish(h as int, w2 as int);
    }
    assert(h <= decay_scale()) by {
        lemma_div_is_ordered_by_denominator(decay_scale() as int, 1, pow2(k) as int);
    }
}

/// Half of the week-`k` base weight is the week-`k + 1` base weight.
proof fn lemma_half_base(k: nat)
    ensures
        (decay_scale() / pow2(k)) / 2 == decay_scale() / pow2(k + 1),
{
    lemma_pow2_pos(k);
    lemma_div_denominator(decay_scale() as int, pow2(k) as int, 2);
    lemma_pow2_adds(k, 1);
    assert(pow2(1) == 2) by {
        lemma2_to64();
    }
}

/// The recency weight of any age within week `k` lies between the week-`k+1`
/// base weight and the week-`k` base weight.
proof fn lemma_decay_bounds(age: nat)
    ensures
        spec_decay(age) <= decay_scale() / pow2(age / week_seconds()),
        spec_decay(age) >= decay_scale() / pow2(age / week_seconds() + 1),
{
    let k = age / week_seconds();
    let r = age % week_seconds();
    let h = decay_scale() / pow2(k);
    let w = week_seconds();
    let w2 = 2 * w;
    lemma_pow2_pos(k);
    assert(0 <= r < w) by {
        vstd::arithmetic::div_mod::lemma_mod_bound(age as int, w as int);
    }
    // Upper bound: the numerator is at most h * 2w.
    assert(h * (w2 - r) <= h * w2) by {
        lemma_mul_inequality((w2 - r) as int, w2 as int, h as int);
    }
    lemma_div_is_ordered((h * (w2 - r)) as int, (h * w2) as int, w2 as int);
    assert((h * w2) / w2 == h) by {
        lemma_div_multiples_vanish(h as int, w2 as int);
    }
    // Lower bound: the numerator is at least h * w.
    assert(h * w <= h * (w2 - r)) by {
        lemma_mul_inequality(w as int, (w2 - r) as int, h as int);
    }
    lemma_div_is_ordered((h * w) as int, (h * (w2 - r)) as int, w2 as int);
    assert((h * w) / w2 == h / 2) by {
        lemma_div_denominator((h * w) as int, w as int, 2);
        lemma_div_multiples_vanish(h as int, w as int);
    }
    lemma_half_base(k);
}

/// The recency weight is monotonically non-increasing in age.
pub proof fn lemma_decay_monotonic(age1: nat, age2: nat)
    requires
        age1 <= age2,
    ensures
        spec_decay(age1) >= spec_decay(age2),
{
    let w = week_seconds();
    let w2 = 2 * w;
    let k1 = age1 / w;
    let k2 = age2 / w;
    let r1 = age1 % w;
    let r2 = age2 % w;
    vstd::arithmetic::div_mod::lemma_div_is_ordered(age1 as int, age2 as int, w as int);
    if k1 == k2 {
        lemma_pow2_pos(k1);
        let h: nat = decay_scale() / pow2(k1);
        vstd::arithmetic::div_mod::lemma_div_pos_is_pos(decay_scale() as int, pow2(k1) as int);
        assert(r1 <= r2) by {
            vstd::arithmetic::div_mod::lemma_fundamental_div_mod(age1 as int, w as int);
            vstd::arithmetic::div_mod::lemma_fundamental_div_mod(age2 as int, w as int);
        }
        assert(r2 < w) by {
            vstd::arithmetic::div_mod::lemma_mod_bound(age2 as int, w as int);
        }
        let hi: int = h as int;
        let r1i: int = r1 as int;
        let r2i: int = r2 as int;
        let w2i: int = w2 as int;
        assert(0 <= hi);
        assert(hi * (w2i - r2i) <= hi * (w2i - r1i)) by (nonlinear_arith)
            requires
                r1i <= r2i,
                0 <= hi,
        {
        }
        assert(h * ((w2 - r2) as nat) <= h * ((w2 - r1) as nat));
        lemma_div_is_ordered(
            (h * ((w2 - r2) as nat)) as int,
            (h * ((w2 - r1) as nat)) as int,
            w2 as int,
        );
    } else {
        lemma_decay_bounds(age1);
        lemma_decay_bounds(age2);
        assert(decay_scale() / pow2(k2) <= decay_scale() / pow2(k1 + 1)) by {
            lemma_pow2_pos(k1 + 1);
            lemma_pow2_pos(k2);
            if k1 + 1 < k2 {
                lemma_pow2_strictly_increases(k1 + 1, k2);
            }
            lemma_div_is_ordered_by_denominator(
                decay_scale() as int,
                pow2((k1 + 1) as nat) as int,
                pow2(k2) as int,
            );
        }
    }
}

/// The score is monotonically non-increasing in elapsed time for a fixed
/// access count: an older last access never scores higher than a newer one.
pub proof fn lemma_score_monotonic(frequency: nat, age1: nat, age2: nat)
    requires
        age1 <= age2,
    ensures
        spec_score(frequency, age1) >= spec_score(frequency, age2),
{
    lemma_decay_monotonic(age1, age2);
    lemma_mul_inequality(spec_decay(age2) as int, spec_decay(age1) as int, frequency as int);
    vstd::arithmetic::mul::lemma_mul_is_commutative(frequency as int, spec_decay(age1) as int);
    vstd::arithmetic::mul::lemma_mul_is_commutative(frequency as int, spec_decay(age2) as int);
}

/// Compute the frecency score of an entry with access count `frequency`
/// last accessed at `last_access`, as of `now`.
pub fn calculate_score(frequency: u32, last_access: u64, now: u64) -> (r: u64)
    ensures
        r == spec_score(frequency as nat, spec_age(last_access as nat, now as nat)),
{
    let age: u64 = if now >= last_access {
        now - last_access
    } else {
        0
    };
    let k: u64 = age / 604800;
    let r: u64 = age % 604800;
    let decay: u64;
    if k >= 21 {
        proof {
            lemma_pow2_strictly_increases(20, k as nat);
            assert(pow2(20) == 0x100000) by {
                lemma2_to64();
            }
            lemma_pow2_pos(k as nat);
            assert(decay_scale() / pow2(k as nat) == 0) by {
                vstd::arithmetic::div_mod::lemma_basic_div(
                    decay_scale() as int,
                    pow2(k as nat) as int,
                );
            }
        }
        decay = 0;
    } else {
        let mut h: u64 = 0x100000;
        let mut i: u64 = 0;
        proof {
            assert(pow2(0) == 1) by {
                lemma2_to64();
            }
            assert(decay_scale() / pow2(0) == 0x100000) by {
                vstd::arithmetic::div_mod::lemma_div_basics(decay_scale() as int);
            }
        }
        while i < k
            invariant
                0 <= i <= k,
                k < 21,
                h == decay_scale() / pow2(i as nat),
                h <= 0x100000,
            decreases k - i,
        {
            proof {
                lemma_half_base(i as nat);
                lemma_pow2_pos(i as nat);
                assert(decay_scale() / pow2(i as nat) <= decay_scale()) by {
                    lemma_div_is_ordered_by_denominator(decay_scale() as int, 1, pow2(
                        i as nat,
                    ) as int);
                }
            }
            h = h / 2;
            i = i + 1;
        }
        proof {
            assert(r < 604800) by {
                vstd::arithmetic::div_mod::lemma_mod_bound(age as int, 604800);
            }
            assert((h as int) * (1209600 - r as int) <= 0x100000int * 1209600int)
                by (nonlinear_arith)
                requires
                    h <= 0x100000u64,
                    0 <= r as int <= 1209600,
            {
            }
        }
        let num: u64 = h * (1209600 - r);
        decay = num / 1209600;
        proof {
            assert(decay == spec_decay(age as nat));
        }
    }
    proof {
        lemma_decay_le_scale(age as nat);
        assert((frequency as nat) * spec_decay(age as nat) <= (frequency as nat) * decay_scale())
            by {
            lemma_mul_inequality(
                spec_decay(age as nat) as int,
                decay_scale() as int,
                frequency as int,
            );
            vstd::arithmetic::mul::lemma_mul_is_commutative(
                frequency as int,
                spec_decay(age as nat) as int,
            );
            vstd::arithmetic::mul::lemma_mul_is_commutative(
                frequency as int,
                decay_scale() as int,
            );
        }
        assert((frequency as nat) * decay_scale() <= 0xffffffffu64 * 0x100000) by {
            lemma_mul_inequality(frequency as int, 0xffffffffu64 as int, decay_scale() as int);
        }
    }
    (frequency as u64) * decay
}

/// Whether no two pairs of `s` share a key.
pub open spec fn keys_distinct(s: Seq<(Seq<char>, FrecencyEntry)>) -> bool {
    forall|i: int, j: int| 0 <= i < j < s.len() ==> (#[trigger] s[i]).0 != (#[trigger] s[j]).0
}

/// Whether some pair of `s` has key `k`.
pub open spec fn seq_has_key(s: Seq<(Seq<char>, FrecencyEntry)>, k: Seq<char>) -> bool {
    exists|i: int| 0 <= i < s.len() && (#[trigger] s[i]).0 == k
}

/// The map that a sequence of key-entry pairs stands for; later pairs win.
pub open spec fn seq_to_map(s: Seq<(Seq<char>, FrecencyEntry)>) -> Map<Seq<char>, FrecencyEntry>
    decreases s.len(),
{
    if s.len() == 0 {
        Map::empty()
    } else {
        seq_to_map(s.drop_last()).insert(s.last().0, s.last().1)
    }
}

/// With distinct keys, the map agrees with every pair of the sequence.
pub proof fn lemma_seq_to_map_get(s: Seq<(Seq<char>, FrecencyEntry)>, i: int)
    requires
        keys_distinct(s),
        0 <= i < s.len(),
    ensures
        seq_to_map(s).contains_key(s[i].0),
        seq_to_map(s)[s[i].0] == s[i].1,
    decreases s.len(),
{
    if i < s.len() - 1 {
        assert(keys_distinct(s.drop_last()));
        assert(s.drop_last()[i] == s[i]);
        lemma_seq_to_map_get(s.drop_last(), i);
        assert(s[i].0 != s.last().0);
    }
}

/// The map's domain is exactly the keys of the sequence.
pub proof fn lemma_seq_to_map_domain(s: Seq<(Seq<char>, FrecencyEntry)>)
    ensures
        forall|k: Seq<char>| #[trigger] seq_to_map(s).contains_key(k) <==> seq_has_key(s, k),
    decreases s.len(),
{
    if s.len() > 0 {
        lemma_seq_to_map_domain(s.drop_last());
        assert forall|k: Seq<char>| #[trigger]
            seq_to_map(s).contains_key(k) <==> seq_has_key(s, k) by {
            if seq_to_map(s).contains_key(k) {
                if k == s.last().0 {
                    assert(s[s.len() - 1].0 == k);
                } else {
                    assert(seq_to_map(s.drop_last()).contains_key(k));
                    assert(seq_has_key(s.drop_last(), k));
                    let i = choose|i: int|
                        0 <= i < s.drop_last().len() && (#[trigger] s.drop_last()[i]).0 == k;
                    assert(s[i].0 == k);
                }
            }
            if seq_has_key(s, k) {
                let i = choose|i: int| 0 <= i < s.len() && (#[trigger] s[i]).0 == k;
                if i < s.len() - 1 {
                    assert(s.drop_last()[i].0 == k);
                    assert(seq_has_key(s.drop_last(), k));
                    assert(seq_to_map(s.drop_last()).contains_key(k));
                } else {
                    assert(k == s.last().0);
                }
                assert(seq_to_map(s).contains_key(k));
            }
        }
    }
}

/// Updating the entry of one key updates the map at that key alone.
proof fn lemma_seq_to_map_update(s: Seq<(Seq<char>, FrecencyEntry)>, i: int, v: FrecencyEntry)
    requires
        keys_distinct(s),
        0 <= i < s.len(),
    ensures
        seq_to_map(s.update(i, (s[i].0, v))) == seq_to_map(s).insert(s[i].0, v),
    decreases s.len(),
{
    let s2 = s.update(i, (s[i].0, v));
    if i == s.len() - 1 {
        assert(s2.drop_last() =~= s.drop_last());
        assert(seq_to_map(s2) =~= seq_to_map(s).insert(s[i].0, v));
    } else {
        assert(keys_distinct(s.drop_last()));
        assert(s.drop_last()[i] == s[i]);
        lemma_seq_to_map_update(s.drop_last(), i, v);
        assert(s2.drop_last() =~= s.drop_last().update(i, (s[i].0, v)));
        assert(s2.last() == s.last());
        assert(s[i].0 != s.last().0);
        assert(seq_to_map(s2) =~= seq_to_map(s).insert(s[i].0, v));
    }
}

/// Persistent store mapping a project path to its usage record, plus the
/// non-persisted location of the backing file.
#[derive(Debug)]
pub struct FrecencyStore {
    /// Key-entry pairs, in insertion order, with distinct keys.
    entries: Vec<(String, FrecencyEntry)>,
    /// Where the store is persisted; `None` for a purely in-memory store.
    data_path: Option<String>,
}

impl FrecencyStore {
    /// The stored pairs, in store order, as (path, entry) views.
    pub closed spec fn entries_seq(&self) -> Seq<(Seq<char>, FrecencyEntry)> {
        self.entries@.map_values(|e: (String, FrecencyEntry)| (e.0@, e.1))
    }

    /// The stored path keys, in store order.
    pub open spec fn keys_seq(&self) -> Seq<Seq<char>> {
        self.entries_seq().map_values(|e: (Seq<char>, FrecencyEntry)| e.0)
    }

    /// The backing file location.
    pub closed spec fn spec_data_path(&self) -> Option<Seq<char>> {
        match self.data_path {
            Some(p) => Some(p@),
            None => None,
        }
    }

    /// Well-formedness: no path occurs twice.
    pub open spec fn wf(&self) -> bool {
        keys_distinct(self.entries_seq())
    }

    /// The store as a map from path to usage record.
    pub open spec fn map_view(&self) -> Map<Seq<char>, FrecencyEntry> {
        seq_to_map(self.entries_seq())
    }

    /// An empty store bound to the given backing location.
    pub fn empty_with_path(data_path: Option<String>) -> (r: Self)
        ensures
            r.wf(),
            r.entries_seq() == Seq::<(Seq<char>, FrecencyEntry)>::empty(),
            r.map_view() == Map::<Seq<char>, FrecencyEntry>::empty(),
            r.spec_data_path() == match data_path {
                Some(p) => Some::<Seq<char>>(p@),
                None => None::<Seq<char>>,
            },
    {
        let r = FrecencyStore { entries: Vec::new(), data_path };
        proof {
            assert(r.entries_seq() =~= Seq::<(Seq<char>, FrecencyEntry)>::empty());
        }
        r
    }

    /// How many paths the store holds.
    pub fn entry_count(&self) -> (r: usize)
        ensures
            r == self.entries_seq().len(),
    {
        self.entries.len()
    }

    /// The backing file location, for the caller that persists the store.
    pub fn backing_path(&self) -> (r: &Option<String>)
        ensures
            match r {
                Some(p) => self.spec_data_path() == Some(p@),
                None => self.spec_data_path() is None,
            },
    {
        &self.data_path
    }

    /// Index of the pair holding `path`, if any.
    fn find_index(&self, path: &str) -> (r: Option<usize>)
        ensures
            match r {
                Some(i) => i < self.entries_seq().len() && self.entries_seq()[i as int].0
                    == path@,
                None => !seq_has_key(self.entries_seq(), path@),
            },
    {
        let n = self.entries.len();
        let mut i: usize = 0;
        while i < n
            invariant
                0 <= i <= n,
                n == self.entries@.len(),
                forall|j: int| 0 <= j < i ==> (#[trigger] self.entries_seq()[j]).0 != path@,
            decreases n - i,
        {
            if crate::paths::str_eq(self.entries[i].0.as_str(), path) {
                return Some(i);
            }
            i = i + 1;
        }
        None
    }

    /// Look up the usage record for `path`.
    pub fn get_entry(&self, path: &str) -> (r: Option<&FrecencyEntry>)
        requires
            self.wf(),
        ensures
            match r {
                Some(e) => self.map_view().contains_key(path@) && *e == self.map_view()[path@],
                None => !self.map_view().contains_key(path@),
            },
    {
        proof {
            lemma_seq_to_map_domain(self.entries_seq());
        }
        match self.find_index(path) {
            Some(i) => {
                proof {
                    lemma_seq_to_map_get(self.entries_seq(), i as int);
                }
                Some(&self.entries[i].1)
            },
            None => None,
        }
    }

    /// The usage record `path` ends up with after an access at `now`.
    pub open spec fn spec_accessed_entry(&self, path: Seq<char>, now: nat) -> FrecencyEntry {
        FrecencyEntry {
            frequency: if self.map_view().contains_key(path) {
                (self.map_view()[path].frequency + 1) as u32
            } else {
                1u32
            },
            last_access: now as u64,
        }
    }

    /// Record an access to `path` at time `now`: its access count grows by
    /// one (starting from zero for an unknown path) and its last-access time
    /// becomes `now`. Every other record is untouched, and a new path is
    /// appended after the existing ones.
    pub fn record_access(&mut self, path: &str, now: u64)
        requires
            old(self).wf(),
            old(self).map_view().contains_key(path@) ==> old(self).map_view()[path@].frequency
                < u32::MAX,
        ensures
            final(self).wf(),
            final(self).map_view() == old(self).map_view().insert(
                path@,
                old(self).spec_accessed_entry(path@, now as nat),
            ),
            final(self).keys_seq() == if old(self).map_view().contains_key(path@) {
                old(self).keys_seq()
            } else {
                old(self).keys_seq().push(path@)
            },
            final(self).spec_data_path() == old(self).spec_data_path(),
    {
        proof {
            lemma_seq_to_map_domain(self.entries_seq());
        }
        let ghost s = self.entries_seq();
        match self.find_index(path) {
            Some(i) => {
                proof {
                    lemma_seq_to_map_get(s, i as int);
                }
                let key = self.entries[i].0.clone();
                let freq = self.entries[i].1.frequency;
                let entry = FrecencyEntry { frequency: freq + 1, last_access: now };
                self.entries.set(i, (key, entry));
                proof {
                    assert(self.entries_seq() =~= s.update(i as int, (s[i as int].0, entry)));
                    lemma_seq_to_map_update(s, i as int, entry);
                    assert(self.keys_seq() =~= old(self).keys_seq());
                }
            },
            None => {
                let entry = FrecencyEntry { frequency: 1, last_access: now };
                let key = path.to_owned();
                self.entries.push((key, entry));
                proof {
                    assert(self.entries_seq() =~= s.push((path@, entry)));
                    assert(self.entries_seq().drop_last() =~= s);
                    assert(self.map_view() =~= old(self).map_view().insert(path@, entry));
                    assert(self.keys_seq() =~= old(self).keys_seq().push(path@));
                }
            },
        }
    }

    /// The score of `path` as of `now`: zero for an unknown path, else the
    /// record's score.
    pub open spec fn spec_path_score(&self, path: Seq<char>, now: nat) -> nat {
        if self.map_view().contains_key(path) {
            spec_score(
                self.map_view()[path].frequency as nat,
                spec_age(self.map_view()[path].last_access as nat, now),
            )
        } else {
            0
        }
    }

    /// The frecency score of `path` as of `now`; zero for an unknown path.
    pub fn get_score(&self, path: &str, now: u64) -> (r: u64)
        requires
            self.wf(),
        ensures
            r == self.spec_path_score(path@, now as nat),
    {
        match self.get_entry(path) {
            Some(e) => calculate_score(e.frequency, e.last_access, now),
            None => 0,
        }
    }
}

/// Where `p` lands in an already-ranked sequence: after every project
/// scoring at least as much (so equal scores keep their relative order),
/// before the first scoring strictly less.
pub open spec fn spec_insert_ranked(
    store: FrecencyStore,
    s: Seq<Project>,
    p: Project,
    now: nat,
) -> Seq<Project>
    decreases s.len(),
{
    if s.len() == 0 {
        seq![p]
    } else if store.spec_path_score(s[0].path@, now) >= store.spec_path_score(p.path@, now) {
        seq![s[0]] + spec_insert_ranked(store, s.drop_first(), p, now)
    } else {
        seq![p] + s
    }
}

/// The stable ranking of `s` by descending score: each project in turn is
/// placed after the already-ranked projects that score at least as much.
pub open spec fn spec_rank(store: FrecencyStore, s: Seq<Project>, now: nat) -> Seq<Project>
    decreases s.len(),
{
    if s.len() == 0 {
        Seq::empty()
    } else {
        spec_insert_ranked(store, spec_rank(store, s.drop_last(), now), s.last(), now)
    }
}

/// Whether scores never increase along `s`.
pub open spec fn scores_descending(store: FrecencyStore, s: Seq<Project>, now: nat) -> bool {
    forall|a: int, b: int|
        0 <= a < b < s.len() ==> store.spec_path_score((#[trigger] s[a]).path@, now)
            >= store.spec_path_score((#[trigger] s[b]).path@, now)
}

/// Ranked insertion adds exactly the inserted project.
pub proof fn lemma_insert_ranked_multiset(store: FrecencyStore, s: Seq<Project>, p: Project, now: nat)
    ensures
        spec_insert_ranked(store, s, p, now).to_multiset() == s.to_multiset().insert(p),
    decreases s.len(),
{
    broadcast use vstd::seq_lib::group_to_multiset_ensures;
    broadcast use vstd::seq_lib::lemma_multiset_commutative;
    broadcast use vstd::multiset::group_multiset_axioms;

    if s.len() == 0 {
        assert(seq![p] =~= Seq::<Project>::empty().push(p));
        assert(Seq::<Project>::empty().to_multiset() =~= Multiset::<Project>::empty());
        assert(spec_insert_ranked(store, s, p, now).to_multiset() =~= s.to_multiset().insert(p));
    } else if store.spec_path_score(s[0].path@, now) >= store.spec_path_score(p.path@, now) {
        lemma_insert_ranked_multiset(store, s.drop_first(), p, now);
        assert(s =~= seq![s[0]] + s.drop_first());
        assert(spec_insert_ranked(store, s, p, now).to_multiset() =~= s.to_multiset().insert(p));
    } else {
        assert(seq![p] + s =~= (seq![p] + s.take(s.len() as int - 1)).push(s.last()));
        assert(spec_insert_ranked(store, s, p, now).to_multiset() =~= s.to_multiset().insert(p));
    }
}

/// Ranked insertion keeps scores descending.
pub proof fn lemma_insert_ranked_sorted(store: FrecencyStore, s: Seq<Project>, p: Project, now: nat)
    requires
        scores_descending(store, s, now),
    ensures
        scores_descending(store, spec_insert_ranked(store, s, p, now), now),
    decreases s.len(),
{
    broadcast use vstd::seq_lib::group_to_multiset_ensures;

    let out = spec_insert_ranked(store, s, p, now);
    if s.len() == 0 {
    } else if store.spec_path_score(s[0].path@, now) >= store.spec_path_score(p.path@, now) {
        assert(scores_descending(store, s.drop_first(), now)) by {
            assert(forall|a: int, b: int|
                0 <= a < b < s.drop_first().len() ==> store.spec_path_score(
                    (#[trigger] s.drop_first()[a]).path@,
                    now,
                ) >= store.spec_path_score((#[trigger] s.drop_first()[b]).path@, now));
        }
        lemma_insert_ranked_sorted(store, s.drop_first(), p, now);
        let rest = spec_insert_ranked(store, s.drop_first(), p, now);
        lemma_insert_ranked_multiset(store, s.drop_first(), p, now);
        assert forall|a: int, b: int| 0 <= a < b < out.len() implies store.spec_path_score(
            (#[trigger] out[a]).path@,
            now,
        ) >= store.spec_path_score((#[trigger] out[b]).path@, now) by {
            if a == 0 {
                let q = out[b];
                assert(rest[b - 1] == q);
                assert(rest.contains(q));
                assert(rest.to_multiset().count(q) > 0);
                if q == p {
                    assert(store.spec_path_score(s[0].path@, now) >= store.spec_path_score(
                        q.path@,
                        now,
                    ));
                } else {
                    assert(s.drop_first().to_multiset().count(q) > 0);
                    assert(s.drop_first().contains(q));
                    let i = choose|i: int|
                        0 <= i < s.drop_first().len() && s.drop_first()[i] == q;
                    assert(s[i + 1] == q);
                    assert(store.spec_path_score(s[0].path@, now) >= store.spec_path_score(
                        q.path@,
                        now,
                    ));
                }
            } else {
                assert(out[a] == rest[a - 1] && out[b] == rest[b - 1]);
            }
        }
    } else {
        assert forall|a: int, b: int| 0 <= a < b < out.len() implies store.spec_path_score(
            (#[trigger] out[a]).path@,
            now,
        ) >= store.spec_path_score((#[trigger] out[b]).path@, now) by {
            if a == 0 {
                assert(out[b] == s[b - 1]);
                if b > 1 {
                    assert(store.spec_path_score(s[0].path@, now) >= store.spec_path_score(
                        s[b - 1].path@,
                        now,
                    ));
                }
            } else {
                assert(out[a] == s[a - 1] && out[b] == s[b - 1]);
            }
        }
    }
}

/// Ranking keeps exactly the projects it was given.
pub proof fn lemma_rank_multiset(store: FrecencyStore, s: Seq<Project>, now: nat)
    ensures
        spec_rank(store, s, now).to_multiset() == s.to_multiset(),
    decreases s.len(),
{
    broadcast use vstd::seq_lib::group_to_multiset_ensures;

    if s.len() > 0 {
        lemma_rank_multiset(store, s.drop_last(), now);
        lemma_insert_ranked_multiset(store, spec_rank(store, s.drop_last(), now), s.last(), now);
        assert(s =~= s.drop_last().push(s.last()));
        assert(spec_rank(store, s, now).to_multiset() =~= s.to_multiset());
    }
}

/// A ranking's scores are descending: the highest-scored projects come
/// first, equal scores keeping the order they were given in.
pub proof fn lemma_rank_sorted(store: FrecencyStore, s: Seq<Project>, now: nat)
    ensures
        scores_descending(store, spec_rank(store, s, now), now),
    decreases s.len(),
{
    if s.len() > 0 {
        lemma_rank_sorted(store, s.drop_last(), now);
        lemma_insert_ranked_sorted(store, spec_rank(store, s.drop_last(), now), s.last(), now);
    }
}

/// Inserting at the boundary position realizes the ranked insertion.
proof fn lemma_insert_ranked_at(
    store: FrecencyStore,
    s: Seq<Project>,
    p: Project,
    now: nat,
    pos: int,
)
    requires
        0 <= pos <= s.len(),
        forall|i: int|
            0 <= i < pos ==> store.spec_path_score((#[trigger] s[i]).path@, now)
                >= store.spec_path_score(p.path@, now),
        pos < s.len() ==> store.spec_path_score(s[pos].path@, now) < store.spec_path_score(
            p.path@,
            now,
        ),
    ensures
        spec_insert_ranked(store, s, p, now) == s.insert(pos, p),
    decreases pos,
{
    if pos == 0 {
        if s.len() == 0 {
            assert(seq![p] =~= s.insert(0, p));
        } else {
            assert(seq![p] + s =~= s.insert(0, p));
        }
    } else {
        assert(forall|i: int|
            0 <= i < pos - 1 ==> store.spec_path_score(
                (#[trigger] s.drop_first()[i]).path@,
                now,
            ) >= store.spec_path_score(p.path@, now));
        lemma_insert_ranked_at(store, s.drop_first(), p, now, pos - 1);
        assert(seq![s[0]] + s.drop_first().insert(pos - 1, p) =~= s.insert(pos, p));
    }
}

impl FrecencyStore {
    /// First position of `out` whose score falls strictly below `ps`; the
    /// length of `out` when none does.
    fn find_insert_pos(&self, out: &Vec<Project>, ps: u64, now: u64) -> (pos: usize)
        requires
            self.wf(),
        ensures
            pos <= out@.len(),
            forall|i: int|
                0 <= i < pos ==> self.spec_path_score((#[trigger] out@[i]).path@, now as nat)
                    >= ps,
            pos < out@.len() ==> self.spec_path_score(out@[pos as int].path@, now as nat) < ps,
    {
        let n = out.len();
        let mut pos: usize = 0;
        while pos < n
            invariant
                0 <= pos <= n,
                n == out@.len(),
                self.wf(),
                forall|i: int|
                    0 <= i < pos ==> self.spec_path_score(
                        (#[trigger] out@[i]).path@,
                        now as nat,
                    ) >= ps,
            decreases n - pos,
        {
            if self.get_score(out[pos].path.as_str(), now) >= ps {
                pos = pos + 1;
            } else {
                return pos;
            }
        }
        pos
    }

    /// Stable-sort `projects` by descending frecency score as of `now`.
    ///
    /// The result is exactly the stable ranking [`spec_rank`]: a permutation
    /// of the input with scores non-increasing, projects of equal score —
    /// including never-accessed ones, which all score zero — keeping their
    /// input order.
    pub fn sort_by_frecency(&self, projects: &mut Vec<Project>, now: u64)
        requires
            self.wf(),
        ensures
            final(projects)@ == spec_rank(*self, old(projects)@, now as nat),
    {
        let ghost orig = projects@;
        let mut out: Vec<Project> = Vec::new();
        while projects.len() > 0
            invariant
                self.wf(),
                projects@.len() <= orig.len(),
                projects@ == orig.skip(orig.len() - projects@.len()),
                out@ == spec_rank(*self, orig.take(orig.len() - projects@.len()), now as nat),
            decreases projects@.len(),
        {
            let ghost k = orig.len() - projects@.len();
            let p = projects.remove(0);
            proof {
                assert(p == orig[k as int]);
                assert(projects@ =~= orig.skip(k as int + 1));
            }
            let ps = self.get_score(p.path.as_str(), now);
            let pos = self.find_insert_pos(&out, ps, now);
            let ghost out_before = out@;
            out.insert(pos, p);
            proof {
                lemma_insert_ranked_at(*self, out_before, p, now as nat, pos as int);
                assert(orig.take(k as int + 1).drop_last() =~= orig.take(k as int));
                assert(orig.take(k as int + 1).last() == orig[k as int]);
                assert(out@ == spec_rank(*self, orig.take(k as int + 1), now as nat));
            }
        }
        proof {
            assert(orig.take(orig.len() as int) =~= orig);
        }
        projects.append(&mut out);
    }
}

/// Whether any two pairs of `v` share a key.
fn entries_keys_distinct(v: &Vec<(String, FrecencyEntry)>) -> (r: bool)
    ensures
        r == keys_distinct(v@.map_values(|e: (String, FrecencyEntry)| (e.0@, e.1))),
{
    let ghost s = v@.map_values(|e: (String, FrecencyEntry)| (e.0@, e.1));
    let n = v.len();
    let mut i: usize = 0;
    while i < n
        invariant
            0 <= i <= n,
            n == v@.len(),
            s == v@.map_values(|e: (String, FrecencyEntry)| (e.0@, e.1)),
            forall|a: int, b: int| 0 <= a < b < n && a < i ==> (#[trigger] s[a]).0 != (#[trigger] s[b]).0,
        decreases n - i,
    {
        let mut j: usize = i + 1;
        while j < n
            invariant
                i < j <= n,
                i < n,
                n == v@.len(),
                s == v@.map_values(|e: (String, FrecencyEntry)| (e.0@, e.1)),
                forall|b: int| i < b < j ==> (#[trigger] s[b]).0 != s[i as int].0,
            decreases n - j,
        {
            if crate::paths::str_eq(v[i].0.as_str(), v[j].0.as_str()) {
                proof {
                    assert(s[i as int].0 == s[j as int].0);
                }
                return false;
            }
            j = j + 1;
        }
        i = i + 1;
    }
    true
}

impl FrecencyStore {
    /// Render the store as its backing-file text.
    pub fn to_json(&self) -> (r: String)
        ensures
            r@ == crate::jsonstore::render_store(self.entries_seq()),
    {
        crate::jsonstore::render_store_exec(&self.entries)
    }

    /// Load a store from backing-file text: the parsed entries when the
    /// text is exactly a rendered store with distinct keys, an empty store
    /// otherwise — a missing, empty or corrupt backing file is never an
    /// error.
    pub fn load_from_str(content: &str, data_path: Option<String>) -> (r: FrecencyStore)
        ensures
            r.wf(),
            r.spec_data_path() == match data_path {
                Some(p) => Some::<Seq<char>>(p@),
                None => None::<Seq<char>>,
            },
            match crate::jsonstore::parse_store(content@) {
                Some(ps) => r.entries_seq() == if keys_distinct(ps) {
                    ps
                } else {
                    Seq::<(Seq<char>, FrecencyEntry)>::empty()
                },
                None => r.entries_seq() == Seq::<(Seq<char>, FrecencyEntry)>::empty(),
            },
    {
        match crate::jsonstore::parse_store_exec(content) {
            Some(entries) => {
                if entries_keys_distinct(&entries) {
                    FrecencyStore { entries, data_path }
                } else {
                    FrecencyStore::empty_with_path(data_path)
                }
            },
            None => FrecencyStore::empty_with_path(data_path),
        }
    }
}

/// Round-trip law: rendering a well-formed store and parsing the text back
/// yields exactly the entries that were rendered — the persisted state
/// survives a save and load unchanged, but for the backing-file handle.
pub proof fn lemma_save_load_round_trip(store: FrecencyStore)
    requires
        store.wf(),
    ensures
        crate::jsonstore::parse_store(crate::jsonstore::render_store(store.entries_seq()))
            == Some(store.entries_seq()),
        keys_distinct(store.entries_seq()),
{
    crate::jsonstore::lemma_store_round_trip(store.entries_seq());
}

impl Default for FrecencyStore {
    /// The default store is empty and bound to no backing file.
    fn default() -> (r: Self)
        ensures
            r.wf(),
            r.entries_seq() == Seq::<(Seq<char>, FrecencyEntry)>::empty(),
            r.map_view() == Map::<Seq<char>, FrecencyEntry>::empty(),
            r.spec_data_path() is None,
    {
        FrecencyStore::empty_with_path(None)
    }
}

} // verus!
