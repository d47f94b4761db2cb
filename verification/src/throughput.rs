//! Fair throughput sharing of one resource.
//!
//! Concurrent activities share a resource of constant throughput `T`: with
//! `N` activities resident, each drains at rate `T / N`. A virtual
//! work-time counter `W` advances at that per-activity rate; an activity
//! admitted at counter value `w` with `work` units (times a constant
//! per-activity factor) completes when `W` reaches `w + work * factor`, so
//! the earliest completion is the entry with the least such key, ties going
//! to the earlier insertion. Completion times are exact rationals; an
//! operation reports failure exactly when a value would leave the
//! representable range.

use crate::ratio::{
    ratio_add, ratio_div_int, ratio_le, ratio_lt, ratio_mul_int, ratio_sub, ratio_wf,
    spec_ratio_le, spec_ratio_lt, Ratio,
};
use vstd::prelude::*;

verus! {

/// One resident activity.
#[derive(Clone, Debug)]
pub struct ModelEntry<A> {
    /// The work-time value at which the activity completes.
    pub key: Ratio,
    /// The activity itself.
    pub item: A,
}

/// Holds iff entry `k` completes first: least key, earliest inserted among
/// equal keys.
pub open spec fn is_first_key<A>(es: Seq<ModelEntry<A>>, k: int) -> bool {
    &&& 0 <= k < es.len()
    &&& forall|j: int| 0 <= j < es.len() ==> spec_ratio_le(es[k].key, (#[trigger] es[j]).key)
    &&& forall|j: int| 0 <= j < k ==> spec_ratio_lt(es[k].key, (#[trigger] es[j]).key)
}

/// The position of the earliest-completing entry.
pub open spec fn first_key_index<A>(es: Seq<ModelEntry<A>>) -> int {
    choose|k: int| is_first_key(es, k)
}

/// `<=` on ratio values is transitive.
pub proof fn lemma_ratio_le_trans(a: Ratio, b: Ratio, c: Ratio)
    requires
        ratio_wf(a),
        ratio_wf(b),
        ratio_wf(c),
        spec_ratio_le(a, b),
        spec_ratio_le(b, c),
    ensures
        spec_ratio_le(a, c),
{
    assert(a.num * b.den <= b.num * a.den && b.num * c.den <= c.num * b.den && a.den >= 1 && b.den
        >= 1 && c.den >= 1 ==> a.num * c.den <= c.num * a.den) by (nonlinear_arith);
}

/// `<` then `<=` on ratio values gives `<`.
pub proof fn lemma_ratio_lt_le_trans(a: Ratio, b: Ratio, c: Ratio)
    requires
        ratio_wf(a),
        ratio_wf(b),
        ratio_wf(c),
        spec_ratio_lt(a, b),
        spec_ratio_le(b, c),
    ensures
        spec_ratio_lt(a, c),
{
    assert(a.num * b.den < b.num * a.den && b.num * c.den <= c.num * b.den && a.den >= 1 && b.den
        >= 1 && c.den >= 1 ==> a.num * c.den < c.num * a.den) by (nonlinear_arith);
}

/// A non-empty entry list has a unique earliest-completing entry.
pub proof fn lemma_first_key_exists<A>(es: Seq<ModelEntry<A>>)
    requires
        es.len() > 0,
        forall|j: int| 0 <= j < es.len() ==> ratio_wf((#[trigger] es[j]).key),
    ensures
        is_first_key(es, first_key_index(es)),
    decreases es.len(),
{
    if es.len() == 1 {
        assert(is_first_key(es, 0));
    } else {
        let prefix = es.drop_last();
        lemma_first_key_exists(prefix);
        let k = first_key_index(prefix);
        let last = es.len() - 1;
        assert(forall|j: int| 0 <= j < last ==> prefix[j] == es[j]);
        if spec_ratio_lt(es[last].key, es[k].key) {
            assert(is_first_key(es, last)) by {
                assert forall|j: int| 0 <= j < es.len() implies spec_ratio_le(
                    es[last].key,
                    (#[trigger] es[j]).key,
                ) by {
                    if j < last {
                        lemma_ratio_lt_le_trans(es[last].key, es[k].key, es[j].key);
                    }
                }
                assert forall|j: int| 0 <= j < last implies spec_ratio_lt(
                    es[last].key,
                    (#[trigger] es[j]).key,
                ) by {
                    lemma_ratio_lt_le_trans(es[last].key, es[k].key, es[j].key);
                }
            }
        } else {
            assert(is_first_key(es, k));
        }
    }
    let k2 = choose|k2: int| is_first_key(es, k2);
}

/// Two earliest-completing positions are the same.
pub proof fn lemma_first_key_unique<A>(es: Seq<ModelEntry<A>>, k1: int, k2: int)
    requires
        is_first_key(es, k1),
        is_first_key(es, k2),
    ensures
        k1 == k2,
{
    if k1 < k2 {
        assert(spec_ratio_lt(es[k2].key, es[k1].key));
        assert(spec_ratio_le(es[k1].key, es[k2].key));
    } else if k2 < k1 {
        assert(spec_ratio_lt(es[k1].key, es[k2].key));
        assert(spec_ratio_le(es[k2].key, es[k1].key));
    }
}

/// A fair throughput-sharing model with constant throughput and a constant
/// per-activity factor.
#[derive(Clone, Debug)]
pub struct FairThroughputSharingModel<A> {
    throughput: u64,
    factor: u64,
    entries: Vec<ModelEntry<A>>,
    work_time: Ratio,
    last_update: Ratio,
}

impl<A> FairThroughputSharingModel<A> {
    /// The resident activities, in insertion order.
    pub closed spec fn entries(self) -> Seq<ModelEntry<A>> {
        self.entries@
    }

    /// The constant throughput `T`.
    pub closed spec fn throughput(self) -> u64 {
        self.throughput
    }

    /// The constant per-activity factor.
    pub closed spec fn factor(self) -> u64 {
        self.factor
    }

    /// The virtual work-time counter `W`.
    pub closed spec fn work_time(self) -> Ratio {
        self.work_time
    }

    /// The time of the last counter update.
    pub closed spec fn last_update(self) -> Ratio {
        self.last_update
    }

    /// The virtual counter advanced to time `now`: unchanged while the
    /// resource is idle, otherwise grown by `(now - last) * T / N` exactly.
    /// The components are meaningful when `spec_insert_fits` holds.
    pub open spec fn spec_advanced_w(self, now: Ratio) -> Ratio {
        if self.entries().len() == 0 {
            self.work_time()
        } else {
            let dt_num = now.num * self.last_update().den - self.last_update().num * now.den;
            let dt_den = now.den * self.last_update().den;
            let inc_num = dt_num * self.throughput();
            let inc_den = dt_den * self.entries().len();
            let w = self.work_time();
            Ratio {
                num: (w.num * inc_den + inc_num * w.den) as u64,
                den: (w.den * inc_den) as u64,
            }
        }
    }

    /// Exactly when admitting `work` units at `now` succeeds: every value of
    /// the admission computation stays representable and no resident key
    /// falls behind the advanced counter.
    pub open spec fn spec_insert_fits(self, work: u64, now: Ratio) -> bool {
        let dt_num = now.num * self.last_update().den - self.last_update().num * now.den;
        let dt_den = now.den * self.last_update().den;
        let inc_num = dt_num * self.throughput();
        let inc_den = dt_den * self.entries().len();
        let w = self.work_time();
        let nw = self.spec_advanced_w(now);
        &&& work * self.factor() <= u64::MAX
        &&& (self.entries().len() > 0 ==> {
            &&& dt_num <= u64::MAX
            &&& dt_den <= u64::MAX
            &&& inc_num <= u64::MAX
            &&& inc_den <= u64::MAX
            &&& w.num * inc_den + inc_num * w.den <= u64::MAX
            &&& w.den * inc_den <= u64::MAX
        })
        &&& nw.num + work * self.factor() * nw.den <= u64::MAX
        &&& forall|j: int|
            0 <= j < self.entries().len() ==> spec_ratio_le(nw, (#[trigger] self.entries()[j]).key)
    }

    /// The invariant: positive throughput and factor, valid ratios, and no
    /// key behind the counter.
    pub open spec fn wf(self) -> bool {
        &&& self.throughput() >= 1
        &&& self.factor() >= 1
        &&& ratio_wf(self.work_time())
        &&& ratio_wf(self.last_update())
        &&& forall|j: int|
            0 <= j < self.entries().len() ==> ratio_wf((#[trigger] self.entries()[j]).key)
                && spec_ratio_le(self.work_time(), self.entries()[j].key)
    }

    /// Creates an empty model with the given constant throughput and
    /// per-activity factor.
    pub fn new(throughput: u64, factor: u64) -> (r: FairThroughputSharingModel<A>)
        requires
            throughput >= 1,
            factor >= 1,
        ensures
            r.wf(),
            r.entries().len() == 0,
            r.throughput() == throughput,
            r.factor() == factor,
            r.work_time().num == 0 && r.work_time().den == 1,
            r.last_update().num == 0 && r.last_update().den == 1,
    {
        FairThroughputSharingModel {
            throughput,
            factor,
            entries: Vec::new(),
            work_time: Ratio::zero(),
            last_update: Ratio::zero(),
        }
    }

    /// Number of resident activities.
    pub fn len(&self) -> (r: usize)
        ensures
            r == self.entries().len(),
    {
        self.entries.len()
    }

    /// Admits an activity with the given positive work at time `now`,
    /// recomputing every resident activity's share first. Succeeds unless a
    /// time value would leave the representable range; on failure the model
    /// is unchanged.
    pub fn insert(&mut self, item: A, work: u64, now: Ratio) -> (ok: bool)
        requires
            old(self).wf(),
            ratio_wf(now),
            spec_ratio_le(old(self).last_update(), now),
            work >= 1,
        ensures
            final(self).wf(),
            final(self).throughput() == old(self).throughput(),
            final(self).factor() == old(self).factor(),
            ok == old(self).spec_insert_fits(work, now),
            !ok ==> *final(self) == *old(self),
            ok ==> {
                &&& final(self).entries().len() == old(self).entries().len() + 1
                &&& forall|j: int|
                    0 <= j < old(self).entries().len() ==> #[trigger] final(self).entries()[j]
                        == old(self).entries()[j]
                &&& final(self).entries().last().item == item
                &&& final(self).last_update() == now
                &&& ({
                    let w = final(self).work_time();
                    let key = final(self).entries().last().key;
                    &&& key.num == w.num + work * old(self).factor() * w.den
                    &&& key.den == w.den
                })
                &&& final(self).work_time() == old(self).spec_advanced_w(now)
            },
    {
        let n = self.entries.len();
        let new_w: Ratio;
        if n == 0 {
            new_w = self.work_time;
            proof {
                assert(new_w == old(self).spec_advanced_w(now));
            }
        } else {
            let dt = match ratio_sub(now, self.last_update) {
                Some(v) => v,
                None => {
                    proof {
                        assert(!old(self).spec_insert_fits(work, now));
                    }
                    return false;
                },
            };
            let inc = match ratio_mul_int(dt, self.throughput) {
                Some(v) => v,
                None => {
                    proof {
                        assert(!old(self).spec_insert_fits(work, now));
                    }
                    return false;
                },
            };
            let inc = match ratio_div_int(inc, n as u64) {
                Some(v) => v,
                None => {
                    proof {
                        assert(!old(self).spec_insert_fits(work, now));
                    }
                    return false;
                },
            };
            new_w = match ratio_add(self.work_time, inc) {
                Some(v) => v,
                None => {
                    proof {
                        assert(!old(self).spec_insert_fits(work, now));
                    }
                    return false;
                },
            };
            proof {
                assert(new_w == old(self).spec_advanced_w(now));
            }
        }
        let credit = match self.factor.checked_mul(work) {
            Some(v) => v,
            None => {
                proof {
                    assert(work * self.factor > u64::MAX) by (nonlinear_arith)
                        requires
                            self.factor * work > u64::MAX,
                    ;
                    assert(!old(self).spec_insert_fits(work, now));
                }
                return false;
            },
        };
        let key = match ratio_add(new_w, Ratio::from_int(credit)) {
            Some(v) => v,
            None => {
                proof {
                    assert(new_w.num + work * self.factor * new_w.den > u64::MAX)
                        by (nonlinear_arith)
                        requires
                            credit == self.factor * work,
                            new_w.num * 1 + credit * new_w.den > u64::MAX || new_w.den * 1
                                > u64::MAX,
                            new_w.den <= u64::MAX,
                            new_w.num <= u64::MAX,
                    ;
                    assert(!old(self).spec_insert_fits(work, now));
                }
                return false;
            },
        };
        proof {
            assert(key.num == new_w.num * 1 + credit * new_w.den);
            assert(key.den == new_w.den * 1);
            assert(credit * new_w.den == work * self.factor * new_w.den) by (nonlinear_arith)
                requires
                    credit == self.factor * work,
            ;
            assert(work * self.factor <= u64::MAX) by (nonlinear_arith)
                requires
                    credit == self.factor * work,
                    credit <= u64::MAX,
            ;
        }
        // Every resident key stays ahead of the advanced counter: each was
        // admitted with positive remaining credit at an earlier counter.
        let m = self.entries.len();
        let mut j: usize = 0;
        let mut all_ahead = true;
        while j < m
            invariant
                m == self.entries().len(),
                0 <= j <= m,
                self.wf(),
                *self == *old(self),
                ratio_wf(new_w),
                new_w == old(self).spec_advanced_w(now),
                all_ahead == forall|p: int|
                    0 <= p < j ==> spec_ratio_le(new_w, (#[trigger] self.entries()[p]).key),
            decreases m - j,
        {
            if !ratio_le(new_w, self.entries[j].key) {
                all_ahead = false;
            }
            proof {
                if all_ahead {
                    assert forall|p: int| 0 <= p < j + 1 implies spec_ratio_le(
                        new_w,
                        (#[trigger] self.entries()[p]).key,
                    ) by {}
                }
            }
            j += 1;
        }
        if !all_ahead {
            proof {
                let q = choose|q: int|
                    0 <= q < m && !spec_ratio_le(new_w, (#[trigger] self.entries()[q]).key);
                assert(!old(self).spec_insert_fits(work, now));
            }
            return false;
        }
        let ghost pre = self.entries@;
        self.entries.push(ModelEntry { key, item });
        self.work_time = new_w;
        self.last_update = now;
        proof {
            assert(spec_ratio_le(new_w, key)) by {
                assert(new_w.num * new_w.den <= key.num * new_w.den) by (nonlinear_arith)
                    requires
                        key.num >= new_w.num,
                        new_w.den >= 1,
                ;
            }
            assert forall|p: int|
                0 <= p < self.entries@.len() implies ratio_wf((#[trigger] self.entries@[p]).key)
                && spec_ratio_le(self.work_time, self.entries@[p].key) by {
                if p < pre.len() {
                    assert(self.entries@[p] == pre[p]);
                }
            }
        }
        true
    }

    /// The next completion: its exact time and the completing activity.
    /// Returns nothing when the model is empty or the time would leave the
    /// representable range.
    pub fn peek(&self) -> (r: Option<(Ratio, &A)>)
        requires
            self.wf(),
        ensures
            r matches Some(p) ==> {
                let es = self.entries();
                &&& es.len() > 0
                &&& is_first_key(es, first_key_index(es))
                &&& *p.1 == es[first_key_index(es)].item
                &&& completion_rel(
                    self.last_update(),
                    self.work_time(),
                    es[first_key_index(es)].key,
                    es.len() as u64,
                    self.throughput(),
                    p.0,
                )
            },
            r is None ==> self.entries().len() == 0 || !completion_fits(*self),
    {
        if self.entries.len() == 0 {
            return None;
        }
        let idx = find_first_key_idx(&self.entries);
        match completion_time(
            self.last_update,
            self.work_time,
            self.entries[idx].key,
            self.entries.len() as u64,
            self.throughput,
        ) {
            Some(t) => {
                proof {
                    lemma_first_key_exists(self.entries@);
                    lemma_first_key_unique(self.entries@, idx as int, first_key_index(self.entries@));
                }
                Some((t, &self.entries[idx].item))
            },
            None => None,
        }
    }

    /// Removes and returns the next completion: its exact time and the
    /// completing activity. The counter advances to the completed key and
    /// the clock to the completion time. Returns nothing when the model is
    /// empty or the time would leave the representable range; the model is
    /// then unchanged.
    pub fn pop(&mut self) -> (r: Option<(Ratio, A)>)
        requires
            old(self).wf(),
        ensures
            final(self).wf(),
            final(self).throughput() == old(self).throughput(),
            final(self).factor() == old(self).factor(),
            r is None ==> *final(self) == *old(self) && (old(self).entries().len() == 0
                || !completion_fits(*old(self))),
            r matches Some(p) ==> {
                let es = old(self).entries();
                let k = first_key_index(es);
                &&& es.len() > 0
                &&& is_first_key(es, k)
                &&& p.1 == es[k].item
                &&& completion_rel(
                    old(self).last_update(),
                    old(self).work_time(),
                    es[k].key,
                    es.len() as u64,
                    old(self).throughput(),
                    p.0,
                )
                &&& final(self).entries() == es.remove(k)
                &&& final(self).work_time() == es[k].key
                &&& final(self).last_update() == p.0
            },
    {
        if self.entries.len() == 0 {
            return None;
        }
        let idx = find_first_key_idx(&self.entries);
        proof {
            lemma_first_key_exists(self.entries@);
            lemma_first_key_unique(self.entries@, idx as int, first_key_index(self.entries@));
        }
        let t = match completion_time(
            self.last_update,
            self.work_time,
            self.entries[idx].key,
            self.entries.len() as u64,
            self.throughput,
        ) {
            Some(t) => t,
            None => {
                return None;
            },
        };
        let ghost pre = self.entries@;
        let entry = self.entries.remove(idx);
        self.work_time = entry.key;
        self.last_update = t;
        proof {
            assert forall|p: int|
                0 <= p < self.entries@.len() implies ratio_wf((#[trigger] self.entries@[p]).key)
                && spec_ratio_le(self.work_time, self.entries@[p].key) by {
                let pp: int = if p < idx {
                    p
                } else {
                    p + 1
                };
                assert(self.entries@[p] == pre[pp]);
                assert(spec_ratio_le(pre[idx as int].key, pre[pp].key));
            }
        }
        Some((t, entry.item))
    }
}

/// Holds iff `t` is exactly `last + (key - w) * n / tput` as rationals,
/// stated over the raw components.
pub open spec fn completion_rel(
    last: Ratio,
    w: Ratio,
    key: Ratio,
    n: u64,
    tput: u64,
    t: Ratio,
) -> bool {
    let sub_num = key.num * w.den - w.num * key.den;
    let sub_den = key.den * w.den;
    &&& t.num == last.num * (sub_den * tput) + (sub_num * n) * last.den
    &&& t.den == last.den * (sub_den * tput)
}

/// Whether the completion-time computation of the earliest entry stays in
/// the representable range.
pub open spec fn completion_fits<A>(m: FairThroughputSharingModel<A>) -> bool {
    let es = m.entries();
    let key = es[first_key_index(es)].key;
    let w = m.work_time();
    let sub_num = key.num * w.den - w.num * key.den;
    let sub_den = key.den * w.den;
    &&& sub_num <= u64::MAX
    &&& sub_den <= u64::MAX
    &&& sub_num * es.len() <= u64::MAX
    &&& sub_den * m.throughput() <= u64::MAX
    &&& m.last_update().num * (sub_den * m.throughput()) + (sub_num * es.len()) * m.last_update().den
        <= u64::MAX
    &&& m.last_update().den * (sub_den * m.throughput()) <= u64::MAX
}

/// Computes `last + (key - w) * n / tput` exactly.
fn completion_time(last: Ratio, w: Ratio, key: Ratio, n: u64, tput: u64) -> (r: Option<Ratio>)
    requires
        ratio_wf(last),
        ratio_wf(w),
        ratio_wf(key),
        spec_ratio_le(w, key),
        n >= 1,
        tput >= 1,
    ensures
        r matches Some(t) ==> ratio_wf(t) && completion_rel(last, w, key, n, tput, t),
        r is None ==> !({
            let sub_num = key.num * w.den - w.num * key.den;
            let sub_den = key.den * w.den;
            &&& sub_num <= u64::MAX
            &&& sub_den <= u64::MAX
            &&& sub_num * n <= u64::MAX
            &&& sub_den * tput <= u64::MAX
            &&& last.num * (sub_den * tput) + (sub_num * n) * last.den <= u64::MAX
            &&& last.den * (sub_den * tput) <= u64::MAX
        }),
{
    let sub = match ratio_sub(key, w) {
        Some(v) => v,
        None => {
            return None;
        },
    };
    let scaled = match ratio_mul_int(sub, n) {
        Some(v) => v,
        None => {
            return None;
        },
    };
    let scaled = match ratio_div_int(scaled, tput) {
        Some(v) => v,
        None => {
            return None;
        },
    };
    match ratio_add(last, scaled) {
        Some(t) => Some(t),
        None => None,
    }
}

/// Finds the position of the earliest-completing entry.
fn find_first_key_idx<A>(entries: &Vec<ModelEntry<A>>) -> (r: usize)
    requires
        entries@.len() > 0,
        forall|j: int| 0 <= j < entries@.len() ==> ratio_wf((#[trigger] entries@[j]).key),
    ensures
        is_first_key(entries@, r as int),
{
    let n = entries.len();
    let mut best: usize = 0;
    let mut k: usize = 1;
    while k < n
        invariant
            n == entries@.len(),
            0 <= best < k <= n,
            forall|j: int| 0 <= j < entries@.len() ==> ratio_wf((#[trigger] entries@[j]).key),
            forall|j: int|
                0 <= j < k ==> spec_ratio_le(entries@[best as int].key, (#[trigger] entries@[j]).key),
            forall|j: int|
                0 <= j < best ==> spec_ratio_lt(entries@[best as int].key, (#[trigger] entries@[j]).key),
        decreases n - k,
    {
        if ratio_lt(entries[k].key, entries[best].key) {
            proof {
                assert forall|j: int| 0 <= j < k + 1 implies spec_ratio_le(
                    entries@[k as int].key,
                    (#[trigger] entries@[j]).key,
                ) by {
                    if j < k {
                        lemma_ratio_lt_le_trans(
                            entries@[k as int].key,
                            entries@[best as int].key,
                            entries@[j].key,
                        );
                    }
                }
                assert forall|j: int| 0 <= j < k implies spec_ratio_lt(
                    entries@[k as int].key,
                    (#[trigger] entries@[j]).key,
                ) by {
                    lemma_ratio_lt_le_trans(
                        entries@[k as int].key,
                        entries@[best as int].key,
                        entries@[j].key,
                    );
                }
            }
            best = k;
        }
        k += 1;
    }
    best
}

/// The throughput-conservation law for constant throughput: over the
/// interval from the last update to a completion, the resource does
/// `tput * (t - last)` units of work, and that equals the `n` resident
/// activities each draining by `key - w`, the credit of the completing
/// activity. In cross-multiplied form over the exact rational components:
/// `tput * (t - last) == n * (key - w)`.
pub proof fn lemma_throughput_conservation(
    last: Ratio,
    w: Ratio,
    key: Ratio,
    n: u64,
    tput: u64,
    t: Ratio,
)
    requires
        ratio_wf(last),
        ratio_wf(w),
        ratio_wf(key),
        ratio_wf(t),
        n >= 1,
        tput >= 1,
        completion_rel(last, w, key, n, tput, t),
    ensures
        tput * ((t.num * last.den - last.num * t.den) * (key.den * w.den)) == n * ((key.num * w.den
            - w.num * key.den) * (t.den * last.den)),
{
    let sub_num = key.num * w.den - w.num * key.den;
    let sub_den = key.den * w.den;
    assert(t.num == last.num * (sub_den * tput) + (sub_num * n) * last.den && t.den == last.den * (
    sub_den * tput) ==> tput * ((t.num * last.den - last.num * t.den) * sub_den) == n * (sub_num * (
    t.den * last.den))) by (nonlinear_arith);
}

} // verus!
