use vstd::prelude::*;

use crate::codec::chars_of;
use crate::codec::lemma_parse_line_min_len;
use crate::codec::parse_prompt_chars;
use crate::codec::sp_parse_line;
use crate::prompt::Prompt;
use crate::prompt::PromptModel;

verus! {

/// The value `min_number` holds while no record has been counted: the order
/// key of the largest finite double.
pub const NO_DATA_MIN: u64 = 0xFFEF_FFFF_FFFF_FFFF;

/// The value `max_number` holds while no record has been counted: the order
/// key of the smallest finite double.
pub const NO_DATA_MAX: u64 = 0x0010_0000_0000_0000;

/// A frequency table for one text field: observed value and its occurrence
/// count, kept in first-observed order.
pub struct FreqMap {
    pub entries: Vec<(String, usize)>,
}

impl View for FreqMap {
    type V = Seq<(Seq<char>, nat)>;

    open spec fn view(&self) -> Seq<(Seq<char>, nat)> {
        self.entries@.map(|i: int, e: (String, usize)| (e.0@, e.1 as nat))
    }
}

/// Well-formed frequency table: values occur once each, counts are positive.
pub open spec fn freq_wf(m: Seq<(Seq<char>, nat)>) -> bool {
    &&& forall|a: int, b: int|
        0 <= a < b < m.len() ==> (#[trigger] m[a]).0 != (#[trigger] m[b]).0
    &&& forall|a: int| 0 <= a < m.len() ==> (#[trigger] m[a]).1 >= 1
}

/// The count recorded for `v`; 0 when `v` has not been observed.
pub open spec fn freq_count(m: Seq<(Seq<char>, nat)>, v: Seq<char>) -> nat
    decreases m.len(),
{
    if m.len() == 0 {
        0
    } else if m[0].0 == v {
        m[0].1
    } else {
        freq_count(m.subrange(1, m.len() as int), v)
    }
}

/// The sum of all counts.
pub open spec fn freq_total(m: Seq<(Seq<char>, nat)>) -> nat
    decreases m.len(),
{
    if m.len() == 0 {
        0
    } else {
        m[0].1 + freq_total(m.subrange(1, m.len() as int))
    }
}

/// One observation of `v`: its count rises by one, or a fresh entry with
/// count 1 joins at the end.
pub open spec fn freq_step(m: Seq<(Seq<char>, nat)>, v: Seq<char>) -> Seq<(Seq<char>, nat)>
    decreases m.len(),
{
    if m.len() == 0 {
        seq![(v, 1nat)]
    } else if m[0].0 == v {
        seq![(m[0].0, (m[0].1 + 1) as nat)] + m.subrange(1, m.len() as int)
    } else {
        seq![m[0]] + freq_step(m.subrange(1, m.len() as int), v)
    }
}

/// `v` has an entry.
pub open spec fn freq_has(m: Seq<(Seq<char>, nat)>, v: Seq<char>) -> bool {
    exists|i: int| 0 <= i < m.len() && (#[trigger] m[i]).0 == v
}

/// An observation touches exactly the observed value's count.
pub proof fn lemma_freq_step_count(m: Seq<(Seq<char>, nat)>, v: Seq<char>, w: Seq<char>)
    ensures
        freq_count(freq_step(m, v), w) == freq_count(m, w) + (if w == v {
            1nat
        } else {
            0nat
        }),
    decreases m.len(),
{
    let sm = freq_step(m, v);
    if m.len() == 0 {
        assert(sm == seq![(v, 1nat)]);
        assert(sm[0] == (v, 1nat));
        assert(sm.subrange(1, 1) =~= Seq::<(Seq<char>, nat)>::empty());
        if w == v {
            assert(freq_count(sm, w) == 1);
        } else {
            assert(freq_count(sm, w) == freq_count(sm.subrange(1, 1), w));
            assert(freq_count(sm, w) == 0);
        }
    } else {
        let tail = m.subrange(1, m.len() as int);
        if m[0].0 == v {
            assert(sm == seq![(m[0].0, (m[0].1 + 1) as nat)] + tail);
            assert(sm[0] == (m[0].0, (m[0].1 + 1) as nat));
            assert(sm.subrange(1, sm.len() as int) =~= tail);
            if w == v {
                assert(freq_count(sm, w) == m[0].1 + 1);
                assert(freq_count(m, w) == m[0].1);
            } else {
                assert(freq_count(sm, w) == freq_count(tail, w));
                assert(freq_count(m, w) == freq_count(tail, w));
            }
        } else {
            assert(sm == seq![m[0]] + freq_step(tail, v));
            assert(sm[0] == m[0]);
            assert(sm.subrange(1, sm.len() as int) =~= freq_step(tail, v));
            lemma_freq_step_count(tail, v, w);
            if w == m[0].0 {
                assert(freq_count(sm, w) == m[0].1);
                assert(freq_count(m, w) == m[0].1);
            } else {
                assert(freq_count(sm, w) == freq_count(freq_step(tail, v), w));
                assert(freq_count(m, w) == freq_count(tail, w));
            }
        }
    }
}

/// An observation raises the sum of counts by exactly one.
pub proof fn lemma_freq_step_total(m: Seq<(Seq<char>, nat)>, v: Seq<char>)
    ensures
        freq_total(freq_step(m, v)) == freq_total(m) + 1,
    decreases m.len(),
{
    let sm = freq_step(m, v);
    if m.len() == 0 {
        assert(sm[0] == (v, 1nat));
        assert(sm.subrange(1, 1) =~= Seq::<(Seq<char>, nat)>::empty());
        assert(freq_total(sm) == 1 + freq_total(sm.subrange(1, 1)));
    } else {
        let tail = m.subrange(1, m.len() as int);
        if m[0].0 == v {
            assert(sm[0] == (m[0].0, (m[0].1 + 1) as nat));
            assert(sm.subrange(1, sm.len() as int) =~= tail);
            assert(freq_total(sm) == m[0].1 + 1 + freq_total(tail));
        } else {
            assert(sm[0] == m[0]);
            assert(sm.subrange(1, sm.len() as int) =~= freq_step(tail, v));
            lemma_freq_step_total(tail, v);
            assert(freq_total(sm) == m[0].1 + freq_total(freq_step(tail, v)));
        }
    }
}

/// After an observation the table records the observed value, and exactly
/// the values it recorded before plus that one.
pub proof fn lemma_freq_step_keys(m: Seq<(Seq<char>, nat)>, v: Seq<char>, w: Seq<char>)
    ensures
        freq_has(freq_step(m, v), w) <==> freq_has(m, w) || w == v,
    decreases m.len(),
{
    let sm = freq_step(m, v);
    if m.len() == 0 {
        assert(sm[0].0 == v);
        assert(freq_has(sm, w) <==> w == v) by {
            if freq_has(sm, w) {
                let i = choose|i: int| 0 <= i < sm.len() && (#[trigger] sm[i]).0 == w;
                assert(i == 0);
            }
        }
        assert(!freq_has(m, w));
    } else {
        let tail = m.subrange(1, m.len() as int);
        if m[0].0 == v {
            assert(sm.len() == m.len());
            assert(forall|i: int| 1 <= i < sm.len() ==> (#[trigger] sm[i]).0 == m[i].0);
            assert(sm[0].0 == m[0].0);
            if freq_has(sm, w) {
                let i = choose|i: int| 0 <= i < sm.len() && (#[trigger] sm[i]).0 == w;
                assert(m[i].0 == w);
                assert(freq_has(m, w));
            }
            if freq_has(m, w) {
                let i = choose|i: int| 0 <= i < m.len() && (#[trigger] m[i]).0 == w;
                assert(sm[i].0 == w);
                assert(freq_has(sm, w));
            }
        } else {
            lemma_freq_step_keys(tail, v, w);
            assert(sm[0] == m[0]);
            assert(sm.subrange(1, sm.len() as int) =~= freq_step(tail, v));
            if freq_has(sm, w) {
                let i = choose|i: int| 0 <= i < sm.len() && (#[trigger] sm[i]).0 == w;
                if i == 0 {
                    assert(m[0].0 == w);
                    assert(freq_has(m, w));
                } else {
                    assert(freq_step(tail, v)[i - 1].0 == w);
                    assert(freq_has(freq_step(tail, v), w));
                    if freq_has(tail, w) {
                        let k = choose|k: int|
                            0 <= k < tail.len() && (#[trigger] tail[k]).0 == w;
                        assert(m[k + 1].0 == w);
                        assert(freq_has(m, w));
                    }
                }
            }
            if freq_has(m, w) {
                let i = choose|i: int| 0 <= i < m.len() && (#[trigger] m[i]).0 == w;
                if i == 0 {
                    assert(sm[0].0 == w);
                    assert(freq_has(sm, w));
                } else {
                    assert(tail[i - 1].0 == w);
                    assert(freq_has(tail, w));
                    assert(freq_has(freq_step(tail, v), w));
                    let k = choose|k: int|
                        0 <= k < freq_step(tail, v).len() && (#[trigger] freq_step(tail, v)[k]).0
                            == w;
                    assert(sm[k + 1].0 == w);
                    assert(freq_has(sm, w));
                }
            }
            if w == v {
                assert(freq_has(freq_step(tail, v), w));
                let k = choose|k: int|
                    0 <= k < freq_step(tail, v).len() && (#[trigger] freq_step(tail, v)[k]).0 == w;
                assert(sm[k + 1].0 == w);
                assert(freq_has(sm, w));
            }
        }
    }
}

/// Observations keep the table well formed.
pub proof fn lemma_freq_step_wf(m: Seq<(Seq<char>, nat)>, v: Seq<char>)
    requires
        freq_wf(m),
    ensures
        freq_wf(freq_step(m, v)),
    decreases m.len(),
{
    let sm = freq_step(m, v);
    if m.len() == 0 {
    } else {
        let tail = m.subrange(1, m.len() as int);
        if m[0].0 == v {
            assert(forall|i: int| 1 <= i < sm.len() ==> sm[i] == m[i]);
            assert(sm[0].0 == m[0].0);
        } else {
            assert(forall|a: int, b: int|
                0 <= a < b < tail.len() ==> (#[trigger] tail[a]).0 != (#[trigger] tail[b]).0)
                by {
                assert(forall|a: int|
                    0 <= a < tail.len() ==> #[trigger] tail[a] == m[a + 1]);
            }
            lemma_freq_step_wf(tail, v);
            assert(sm[0] == m[0]);
            assert(sm.subrange(1, sm.len() as int) =~= freq_step(tail, v));
            assert(!freq_has(tail, m[0].0)) by {
                if freq_has(tail, m[0].0) {
                    let k = choose|k: int|
                        0 <= k < tail.len() && (#[trigger] tail[k]).0 == m[0].0;
                    assert(m[k + 1].0 == m[0].0);
                }
            }
            lemma_freq_step_keys(tail, v, m[0].0);
            assert(!freq_has(freq_step(tail, v), m[0].0));
            assert forall|a: int, b: int| 0 <= a < b < sm.len() implies (#[trigger] sm[a]).0 != (
            #[trigger] sm[b]).0 by {
                if a == 0 {
                    assert(sm[b] == freq_step(tail, v)[b - 1]);
                    if sm[a].0 == sm[b].0 {
                        assert(freq_has(freq_step(tail, v), m[0].0));
                    }
                } else {
                    assert(sm[a] == freq_step(tail, v)[a - 1]);
                    assert(sm[b] == freq_step(tail, v)[b - 1]);
                }
            }
            assert forall|a: int| 0 <= a < sm.len() implies (#[trigger] sm[a]).1 >= 1 by {
                if a > 0 {
                    assert(sm[a] == freq_step(tail, v)[a - 1]);
                }
            }
        }
    }
}

/// An observation raises no count beyond one more than the largest before.
pub proof fn lemma_freq_step_bound(m: Seq<(Seq<char>, nat)>, v: Seq<char>, b: nat)
    requires
        forall|i: int| 0 <= i < m.len() ==> (#[trigger] m[i]).1 <= b,
    ensures
        forall|i: int|
            0 <= i < freq_step(m, v).len() ==> (#[trigger] freq_step(m, v)[i]).1 <= b + 1,
    decreases m.len(),
{
    let sm = freq_step(m, v);
    if m.len() == 0 {
    } else {
        let tail = m.subrange(1, m.len() as int);
        if m[0].0 == v {
            assert forall|i: int| 0 <= i < sm.len() implies (#[trigger] sm[i]).1 <= b + 1 by {
                if i > 0 {
                    assert(sm[i] == m[i]);
                }
            }
        } else {
            assert(forall|i: int| 0 <= i < tail.len() ==> (#[trigger] tail[i]).1 <= b);
            lemma_freq_step_bound(tail, v, b);
            assert forall|i: int| 0 <= i < sm.len() implies (#[trigger] sm[i]).1 <= b + 1 by {
                if i == 0 {
                    assert(sm[0] == m[0]);
                } else {
                    assert(sm[i] == freq_step(tail, v)[i - 1]);
                }
            }
        }
    }
}

/// A first match at `k` means the observation is an in-place increment.
proof fn lemma_freq_step_found(m: Seq<(Seq<char>, nat)>, v: Seq<char>, k: int)
    requires
        0 <= k < m.len(),
        m[k].0 == v,
        forall|j: int| 0 <= j < k ==> (#[trigger] m[j]).0 != v,
    ensures
        freq_step(m, v) == m.update(k, (v, (m[k].1 + 1) as nat)),
    decreases m.len(),
{
    let tail = m.subrange(1, m.len() as int);
    if k == 0 {
        assert(freq_step(m, v) =~= m.update(0, (v, (m[0].1 + 1) as nat)));
    } else {
        assert(forall|j: int| 0 <= j < k - 1 ==> (#[trigger] tail[j]).0 != v) by {
            assert(forall|j: int| 0 <= j < tail.len() ==> #[trigger] tail[j] == m[j + 1]);
        }
        assert(tail[k - 1] == m[k]);
        lemma_freq_step_found(tail, v, k - 1);
        assert(freq_step(m, v) =~= m.update(k, (v, (m[k].1 + 1) as nat)));
    }
}

/// No match anywhere means the observation appends a fresh entry.
proof fn lemma_freq_step_absent(m: Seq<(Seq<char>, nat)>, v: Seq<char>)
    requires
        forall|j: int| 0 <= j < m.len() ==> (#[trigger] m[j]).0 != v,
    ensures
        freq_step(m, v) == m + seq![(v, 1nat)],
    decreases m.len(),
{
    if m.len() == 0 {
        assert(freq_step(m, v) =~= m + seq![(v, 1nat)]);
    } else {
        let tail = m.subrange(1, m.len() as int);
        assert(forall|j: int| 0 <= j < tail.len() ==> #[trigger] tail[j] == m[j + 1]);
        lemma_freq_step_absent(tail, v);
        assert(freq_step(m, v) =~= m + seq![(v, 1nat)]);
    }
}

impl FreqMap {
    /// An empty table.
    pub fn new() -> (r: FreqMap)
        ensures
            r@.len() == 0,
    {
        let r = FreqMap { entries: Vec::new() };
        proof {
            assert(r@.len() == 0);
        }
        r
    }

    /// Records one observation of `v`.
    pub fn increment(&mut self, v: &String)
        requires
            forall|i: int| 0 <= i < old(self)@.len() ==> (#[trigger] old(self)@[i]).1 < usize::MAX,
        ensures
            final (self)@ == freq_step(old(self)@, v@),
    {
        let n = self.entries.len();
        let mut k: usize = 0;
        while k < n
            invariant
                k <= n,
                n == self.entries.len(),
                *self == *old(self),
                forall|j: int| 0 <= j < k ==> (#[trigger] self@[j]).0 != v@,
                forall|i: int|
                    0 <= i < old(self)@.len() ==> (#[trigger] old(self)@[i]).1 < usize::MAX,
            decreases n - k,
        {
            if self.entries[k].0 == *v {
                proof {
                    assert(self@[k as int].0 == v@);
                }
                let e = self.entries.remove(k);
                let c = e.1;
                self.entries.insert(k, (e.0, c + 1));
                proof {
                    lemma_freq_step_found(old(self)@, v@, k as int);
                    assert(self@ =~= old(self)@.update(k as int, (v@, (old(self)@[k as int].1
                        + 1) as nat)));
                }
                return ;
            }
            k = k + 1;
        }
        self.entries.push((v.clone(), 1));
        proof {
            lemma_freq_step_absent(old(self)@, v@);
            assert(self@ =~= old(self)@ + seq![(v@, 1nat)]);
        }
    }
}

/// In a well-formed table each entry's recorded count is the count of its
/// value: what `most_common` hands out is the value's true tally.
pub proof fn lemma_freq_count_entry(m: Seq<(Seq<char>, nat)>, k: int)
    requires
        freq_wf(m),
        0 <= k < m.len(),
    ensures
        freq_count(m, m[k].0) == m[k].1,
    decreases m.len(),
{
    if k == 0 {
    } else {
        let tail = m.subrange(1, m.len() as int);
        assert(forall|i: int| 0 <= i < tail.len() ==> #[trigger] tail[i] == m[i + 1]);
        assert(m[0].0 != m[k].0);
        lemma_freq_count_entry(tail, k - 1);
    }
}

/// `k` points at the entry with the largest count, earliest first on ties.
pub open spec fn is_first_max(m: Seq<(Seq<char>, nat)>, k: int) -> bool {
    &&& 0 <= k < m.len()
    &&& forall|j: int| 0 <= j < m.len() ==> (#[trigger] m[j]).1 <= m[k].1
    &&& forall|j: int| 0 <= j < k ==> (#[trigger] m[j]).1 < m[k].1
}

/// The most frequently observed value and its count; `None` only for an
/// empty table.  Ties go to the value observed first.
pub fn most_common(m: &FreqMap) -> (r: Option<(String, usize)>)
    ensures
        r is Some <==> m@.len() > 0,
        r matches Some(vc) ==> exists|k: int|
            is_first_max(m@, k) && (#[trigger] m@[k]) == (vc.0@, vc.1 as nat),
{
    if m.entries.len() == 0 {
        return None;
    }
    let mut best: usize = 0;
    let mut k: usize = 1;
    while k < m.entries.len()
        invariant
            0 <= best < k <= m.entries.len(),
            forall|j: int| 0 <= j < k ==> (#[trigger] m@[j]).1 <= m@[best as int].1,
            forall|j: int| 0 <= j < best ==> (#[trigger] m@[j]).1 < m@[best as int].1,
        decreases m.entries.len() - k,
    {
        if m.entries[k].1 > m.entries[best].1 {
            proof {
                assert(m@[k as int].1 > m@[best as int].1);
            }
            best = k;
        }
        k = k + 1;
    }
    let value = m.entries[best].0.clone();
    let count = m.entries[best].1;
    proof {
        assert(is_first_max(m@, best as int));
        assert(m@[best as int] == (value@, count as nat));
    }
    Some((value, count))
}

/// The running aggregate over the records read from the store.
pub struct Stats {
    pub min_number: u64,
    pub max_number: u64,
    pub unit_of_measure: FreqMap,
    pub place: FreqMap,
    pub adjective: FreqMap,
    pub noun: FreqMap,
}

/// The mathematical content of a `Stats`.
#[verifier::ext_equal]
pub struct StatsModel {
    pub min_number: u64,
    pub max_number: u64,
    pub unit_of_measure: Seq<(Seq<char>, nat)>,
    pub place: Seq<(Seq<char>, nat)>,
    pub adjective: Seq<(Seq<char>, nat)>,
    pub noun: Seq<(Seq<char>, nat)>,
}

impl View for Stats {
    type V = StatsModel;

    open spec fn view(&self) -> StatsModel {
        StatsModel {
            min_number: self.min_number,
            max_number: self.max_number,
            unit_of_measure: self.unit_of_measure@,
            place: self.place@,
            adjective: self.adjective@,
            noun: self.noun@,
        }
    }
}

pub open spec fn stats_wf(s: StatsModel) -> bool {
    &&& freq_wf(s.unit_of_measure)
    &&& freq_wf(s.place)
    &&& freq_wf(s.adjective)
    &&& freq_wf(s.noun)
}

/// The aggregate before any record: sentinel extremes, nothing counted.
pub open spec fn init_stats() -> StatsModel {
    StatsModel {
        min_number: NO_DATA_MIN,
        max_number: NO_DATA_MAX,
        unit_of_measure: Seq::empty(),
        place: Seq::empty(),
        adjective: Seq::empty(),
        noun: Seq::empty(),
    }
}

/// Folding one record into the aggregate.
pub open spec fn stats_step(s: StatsModel, p: PromptModel) -> StatsModel {
    StatsModel {
        min_number: if p.number_key < s.min_number {
            p.number_key
        } else {
            s.min_number
        },
        max_number: if p.number_key > s.max_number {
            p.number_key
        } else {
            s.max_number
        },
        unit_of_measure: freq_step(s.unit_of_measure, p.unit_of_measure),
        place: freq_step(s.place, p.place),
        adjective: freq_step(s.adjective, p.adjective),
        noun: freq_step(s.noun, p.noun),
    }
}

/// The aggregate over a sequence of records.
pub open spec fn aggregate(ps: Seq<PromptModel>) -> StatsModel
    decreases ps.len(),
{
    if ps.len() == 0 {
        init_stats()
    } else {
        stats_step(aggregate(ps.drop_last()), ps.last())
    }
}

/// Every count in the table is at most `b`.
pub open spec fn counts_at_most(m: Seq<(Seq<char>, nat)>, b: nat) -> bool {
    forall|i: int| 0 <= i < m.len() ==> (#[trigger] m[i]).1 <= b
}

pub open spec fn stats_counts_at_most(s: StatsModel, b: nat) -> bool {
    &&& counts_at_most(s.unit_of_measure, b)
    &&& counts_at_most(s.place, b)
    &&& counts_at_most(s.adjective, b)
    &&& counts_at_most(s.noun, b)
}

proof fn lemma_counts_mono(m: Seq<(Seq<char>, nat)>, a: nat, b: nat)
    requires
        counts_at_most(m, a),
        a <= b,
    ensures
        counts_at_most(m, b),
{
}

/// Folding a record keeps the tables well formed and raises no count by
/// more than one.
pub proof fn lemma_stats_step_shape(s: StatsModel, p: PromptModel, b: nat)
    requires
        stats_wf(s),
        stats_counts_at_most(s, b),
    ensures
        stats_wf(stats_step(s, p)),
        stats_counts_at_most(stats_step(s, p), b + 1),
{
    lemma_freq_step_wf(s.unit_of_measure, p.unit_of_measure);
    lemma_freq_step_wf(s.place, p.place);
    lemma_freq_step_wf(s.adjective, p.adjective);
    lemma_freq_step_wf(s.noun, p.noun);
    lemma_freq_step_bound(s.unit_of_measure, p.unit_of_measure, b);
    lemma_freq_step_bound(s.place, p.place, b);
    lemma_freq_step_bound(s.adjective, p.adjective, b);
    lemma_freq_step_bound(s.noun, p.noun, b);
}

impl Stats {
    /// The aggregate of an empty store.
    pub fn new() -> (r: Stats)
        ensures
            r@ == init_stats(),
            stats_wf(r@),
    {
        let r = Stats {
            min_number: NO_DATA_MIN,
            max_number: NO_DATA_MAX,
            unit_of_measure: FreqMap::new(),
            place: FreqMap::new(),
            adjective: FreqMap::new(),
            noun: FreqMap::new(),
        };
        proof {
            assert(r@.unit_of_measure =~= Seq::<(Seq<char>, nat)>::empty());
            assert(r@.place =~= Seq::<(Seq<char>, nat)>::empty());
            assert(r@.adjective =~= Seq::<(Seq<char>, nat)>::empty());
            assert(r@.noun =~= Seq::<(Seq<char>, nat)>::empty());
            assert(r@ =~= init_stats());
        }
        r
    }

    /// Folds one record in: extremes move if passed, each text value is
    /// counted once.
    pub fn update_with_prompt(&mut self, prompt: &Prompt)
        requires
            stats_counts_at_most(old(self)@, (usize::MAX - 1) as nat),
        ensures
            final (self)@ == stats_step(old(self)@, prompt@),
    {
        if prompt.number_key < self.min_number {
            self.min_number = prompt.number_key;
        }
        if prompt.number_key > self.max_number {
            self.max_number = prompt.number_key;
        }
        self.unit_of_measure.increment(&prompt.unit_of_measure);
        self.place.increment(&prompt.place);
        self.adjective.increment(&prompt.adjective);
        self.noun.increment(&prompt.noun);
        proof {
            assert(self@ =~= stats_step(old(self)@, prompt@));
        }
    }
}

/// The store's contents cut at line breaks; `cur` is the line under way.
pub open spec fn split_rec(s: Seq<char>, cur: Seq<char>) -> Seq<Seq<char>>
    decreases s.len(),
{
    if s.len() == 0 {
        if cur.len() == 0 {
            Seq::empty()
        } else {
            seq![cur]
        }
    } else if s[0] == '\n' {
        seq![cur] + split_rec(s.subrange(1, s.len() as int), Seq::empty())
    } else {
        split_rec(s.subrange(1, s.len() as int), cur.push(s[0]))
    }
}

/// The lines of the store's contents.
pub open spec fn split_lines(s: Seq<char>) -> Seq<Seq<char>> {
    split_rec(s, Seq::empty())
}

/// The records of the well-formed lines, in order; malformed lines
/// contribute nothing.
pub open spec fn parsed_of(lines: Seq<Seq<char>>) -> Seq<PromptModel>
    decreases lines.len(),
{
    if lines.len() == 0 {
        Seq::empty()
    } else {
        parsed_of(lines.drop_last()) + (match sp_parse_line(lines.last()) {
            Some(p) => seq![p],
            None => Seq::empty(),
        })
    }
}

proof fn lemma_aggregate_snoc(ps: Seq<PromptModel>, p: PromptModel)
    ensures
        aggregate(ps.push(p)) == stats_step(aggregate(ps), p),
{
    assert(ps.push(p).drop_last() =~= ps);
    assert(ps.push(p).last() == p);
}

proof fn lemma_parsed_of_snoc(lines: Seq<Seq<char>>, l: Seq<char>)
    ensures
        parsed_of(lines.push(l)) == parsed_of(lines) + (match sp_parse_line(l) {
            Some(p) => seq![p],
            None => Seq::<PromptModel>::empty(),
        }),
{
    assert(lines.push(l).drop_last() =~= lines);
    assert(lines.push(l).last() == l);
}

/// Aggregates the whole contents of the store: cuts it into lines, reads
/// each independently, skips every malformed line, and folds the records in
/// order.
pub fn stats(contents: &str) -> (r: Stats)
    ensures
        r@ == aggregate(parsed_of(split_lines(contents@))),
        stats_wf(r@),
{
    let cv = chars_of(contents);
    let mut st = Stats::new();
    let mut cur: Vec<char> = Vec::new();
    let ghost mut done: Seq<Seq<char>> = Seq::empty();
    let ghost mut parsed: Seq<PromptModel> = Seq::empty();
    let mut i: usize = 0;
    proof {
        assert(cv@.subrange(0, cv@.len() as int) =~= cv@);
        assert(done + split_rec(cv@, cur@) =~= split_rec(cv@, cur@));
        assert(aggregate(parsed) =~= init_stats());
    }
    while i < cv.len()
        invariant
            i <= cv.len(),
            cv@ == contents@,
            split_lines(cv@) == done + split_rec(cv@.subrange(i as int, cv@.len() as int), cur@),
            parsed == parsed_of(done),
            st@ == aggregate(parsed),
            stats_wf(st@),
            stats_counts_at_most(st@, parsed.len()),
            120 * parsed.len() + cur@.len() <= i,
        decreases cv.len() - i,
    {
        let ghost rem = cv@.subrange(i as int, cv@.len() as int);
        let ghost rem1 = cv@.subrange(i + 1, cv@.len() as int);
        proof {
            assert(rem[0] == cv@[i as int]);
            assert(rem.subrange(1, rem.len() as int) =~= rem1);
        }
        let ghost cur0 = cur@;
        let c = cv[i];
        if c == '\n' {
            proof {
                assert(split_rec(rem, cur@) == seq![cur@] + split_rec(rem1, Seq::empty()));
                assert(done + (seq![cur@] + split_rec(rem1, Seq::empty())) =~= done.push(cur@)
                    + split_rec(rem1, Seq::empty()));
            }
            match parse_prompt_chars(&cur) {
                Some(p) => {
                    proof {
                        lemma_parse_line_min_len(cur@);
                        assert(parsed.len() < usize::MAX);
                        lemma_counts_mono(st@.unit_of_measure, parsed.len(), (usize::MAX
                            - 1) as nat);
                        lemma_counts_mono(st@.place, parsed.len(), (usize::MAX - 1) as nat);
                        lemma_counts_mono(st@.adjective, parsed.len(), (usize::MAX - 1) as nat);
                        lemma_counts_mono(st@.noun, parsed.len(), (usize::MAX - 1) as nat);
                        lemma_stats_step_shape(st@, p@, parsed.len());
                    }
                    st.update_with_prompt(&p);
                    proof {
                        lemma_aggregate_snoc(parsed, p@);
                        parsed = parsed.push(p@);
                    }
                },
                None => {},
            }
            proof {
                lemma_parsed_of_snoc(done, cur@);
                done = done.push(cur@);
                assert(parsed =~= parsed_of(done));
            }
            cur = Vec::new();
            proof {
                assert(cur@ =~= Seq::<char>::empty());
            }
        } else {
            cur.push(c);
            proof {
                assert(cur@ =~= cur0.push(c));
                assert(split_rec(rem, cur0) == split_rec(rem1, cur0.push(rem[0])));
            }
        }
        i = i + 1;
    }
    proof {
        assert(cv@.subrange(cv@.len() as int, cv@.len() as int) =~= Seq::<char>::empty());
    }
    if cur.len() > 0 {
        proof {
            assert(split_rec(Seq::<char>::empty(), cur@) == seq![cur@]);
            assert(done + seq![cur@] =~= done.push(cur@));
        }
        match parse_prompt_chars(&cur) {
            Some(p) => {
                proof {
                    lemma_parse_line_min_len(cur@);
                    assert(parsed.len() < usize::MAX);
                    lemma_counts_mono(st@.unit_of_measure, parsed.len(), (usize::MAX - 1) as nat);
                    lemma_counts_mono(st@.place, parsed.len(), (usize::MAX - 1) as nat);
                    lemma_counts_mono(st@.adjective, parsed.len(), (usize::MAX - 1) as nat);
                    lemma_counts_mono(st@.noun, parsed.len(), (usize::MAX - 1) as nat);
                    lemma_stats_step_shape(st@, p@, parsed.len());
                }
                st.update_with_prompt(&p);
                proof {
                    lemma_aggregate_snoc(parsed, p@);
                    parsed = parsed.push(p@);
                }
            },
            None => {},
        }
        proof {
            lemma_parsed_of_snoc(done, cur@);
            done = done.push(cur@);
            assert(parsed =~= parsed_of(done));
            assert(split_lines(cv@) == done);
        }
    } else {
        proof {
            assert(split_rec(Seq::<char>::empty(), cur@) =~= Seq::<Seq<char>>::empty());
            assert(done + Seq::<Seq<char>>::empty() =~= done);
            assert(split_lines(cv@) == done);
        }
    }
    st
}

} // verus!
