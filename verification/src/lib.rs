//! A runtime animation-value cache with a composable easing library.
//!
//! Progress fractions and animated values are fixed-point numbers (see
//! [`fx`]); shaping functions are [`animators::Shape`] values evaluated by a
//! verified interpreter. The cache maps hashed identities to in-flight
//! animation records, computes each record's current value from an injected
//! monotonic clock reading, and reclaims finished records on request.

use vstd::prelude::*;

pub mod animators;
pub mod fx;

use crate::animators::{shape_val, shape_wf, Shape};
use crate::fx::{fraction_of, frac_of, fx_add, fx_clamp, fx_mul, fx_sub, Fixed, FX_ONE};
use std::collections::hash_map::DefaultHasher;
use std::hash::Hasher;
use vstd::std_specs::hash::DefaultHasherAdditionalSpecFns;

verus! {

broadcast use vstd::seq_lib::group_filter_ensures;

/// A shaping function value: a pure fraction-to-fraction transform with a
/// well-formedness contract on its tuning parameters.
pub trait Animator: Sized {
    /// Caller contract on the tuning parameters.
    spec fn wf(self) -> bool;

    /// The output fraction at input fraction `f`.
    spec fn val(self, f: int) -> int;

    /// Evaluate the shaping function at `f`.
    fn apply(&self, f: Fixed) -> (r: Fixed)
        requires
            self.wf(),
        ensures
            r@ == self.val(f@),
    ;
}

impl Animator for Shape {
    open spec fn wf(self) -> bool {
        shape_wf(self)
    }

    open spec fn val(self, f: int) -> int {
        shape_val(self, f)
    }

    fn apply(&self, f: Fixed) -> (r: Fixed) {
        self.eval(f)
    }
}

/// An animatable value: anything that supports linear interpolation by a
/// fixed-point fraction.
pub trait Animatable: Sized {
    /// The value `lerp` returns, as a function of the endpoints and the
    /// fraction.
    spec fn lerp_spec(self, end: Self, t: int) -> Self;

    /// Interpolate from `self` toward `end` by the fraction `t`. The
    /// fraction is not clamped: overshooting shaping functions are
    /// honoured.
    fn lerp(&self, end: &Self, t: Fixed) -> (r: Self)
        ensures
            r == self.lerp_spec(*end, t@),
    ;
}

impl Animatable for Fixed {
    open spec fn lerp_spec(self, end: Self, t: int) -> Self {
        Fixed { units: fx_add(self@, fx_mul(fx_sub(end@, self@), t)) as i64 }
    }

    fn lerp(&self, end: &Self, t: Fixed) -> (r: Self) {
        end.sub_sat(*self).mul_sat(t).add_sat(*self)
    }
}

/// One in-flight interpolation: the per-identity state of the cache.
/// Every field but `animating` is captured at creation and never changes;
/// creation marks the record active, and every subsequent query recomputes
/// `animating` before returning the record's value.
#[derive(Debug)]
pub struct CachedAnimation<T> {
    /// The stable 64-bit key this record animates, derived by hashing the
    /// caller's identifier.
    pub identity: u64,
    /// Liveness: true from creation, and recomputed on every subsequent
    /// query as whether progress is strictly inside the unit interval; a
    /// false flag marks the record for reclamation.
    pub animating: bool,
    /// The clock reading, in milliseconds, captured at creation.
    pub start_time: u64,
    /// The value the animation starts from.
    pub start_value: T,
    /// The value the animation moves toward.
    pub end_value: T,
    /// Timeline length in milliseconds; zero is degenerate and finishes
    /// immediately.
    pub duration: u64,
}

impl<T> CachedAnimation<T> {
    /// A fresh record: active, timestamped with the given clock reading.
    pub fn new(identity: u64, start_value: T, end_value: T, duration: u64, now: u64) -> (r: Self)
        ensures
            r == (CachedAnimation { identity, animating: true, start_time: now, start_value, end_value, duration }),
    {
        CachedAnimation { identity, animating: true, start_time: now, start_value, end_value, duration }
    }
}

/// Milliseconds elapsed on the record's timeline at clock reading `now`;
/// a clock that did not advance past the start yields zero.
pub open spec fn elapsed_of<T>(rec: CachedAnimation<T>, now: u64) -> int {
    if now >= rec.start_time {
        now - rec.start_time
    } else {
        0
    }
}

/// The record's raw progress fraction at `now`: elapsed time over
/// duration, saturating.
pub open spec fn progress_of<T>(rec: CachedAnimation<T>, now: u64) -> int {
    frac_of(elapsed_of(rec, now), rec.duration as int)
}

/// A record is live while its progress is strictly inside the unit
/// interval.
pub open spec fn live_at<T>(rec: CachedAnimation<T>, now: u64) -> bool {
    0 < progress_of(rec, now) < FX_ONE as int
}

/// The record as a subsequent (non-creating) query at `now` leaves it:
/// liveness recomputed, every captured field kept. A creating query
/// instead leaves its fresh record active.
pub open spec fn requeried<T>(rec: CachedAnimation<T>, now: u64) -> CachedAnimation<T> {
    CachedAnimation { animating: live_at(rec, now), ..rec }
}

/// The value a query returns for this record at `now` under animator `a`:
/// the progress fraction, clamped to the unit interval so a finished
/// timeline rests at its end, is shaped by `a` and interpolates the
/// captured endpoints; the shaped fraction itself is not clamped.
pub open spec fn value_of<T: Animatable, A: Animator>(rec: CachedAnimation<T>, a: A, now: u64) -> T {
    rec.start_value.lerp_spec(rec.end_value, a.val(fx_clamp(progress_of(rec, now))))
}

/// The stable 64-bit key derived from an identifier's bytes, as vstd
/// models the standard hasher: one write of the whole byte string,
/// finished.
pub open spec fn id_key(id: Seq<u8>) -> u64 {
    DefaultHasher::spec_finish(seq![id])
}

/// Hash an identifier's bytes to its stable key.
pub fn hash_id(id: &[u8]) -> (r: u64)
    ensures
        r == id_key(id@),
{
    let mut h = DefaultHasher::new();
    h.write(id);
    h.finish()
}

/// Identities pairwise distinct: the sequence is a well-formed map from
/// identity to record.
pub open spec fn distinct_ids<T>(s: Seq<CachedAnimation<T>>) -> bool {
    forall|p: int, q: int|
        0 <= p < q < s.len() ==> s[p].identity != s[q].identity
}

/// The records of `s` that are still animating, in order.
pub open spec fn live_records<T>(s: Seq<CachedAnimation<T>>) -> Seq<CachedAnimation<T>> {
    s.filter(|rec: CachedAnimation<T>| rec.animating)
}

/// Every element of the filtered sequence is an element of the sequence
/// it was filtered from.
proof fn lemma_live_records_membership<T>(s: Seq<CachedAnimation<T>>)
    ensures
        forall|x: CachedAnimation<T>|
            #[trigger] live_records(s).contains(x) ==> s.contains(x) && x.animating,
    decreases s.len(),
{
    reveal(Seq::filter);
    if s.len() > 0 {
        lemma_live_records_membership(s.drop_last());
        assert forall|x: CachedAnimation<T>|
            #[trigger] live_records(s).contains(x) implies s.contains(x) && x.animating by {
            if live_records(s.drop_last()).contains(x) {
                let i = choose|i: int|
                    0 <= i < s.drop_last().len() && s.drop_last()[i] == x;
                assert(s[i] == x);
            } else {
                assert(x == s.last());
                assert(s[s.len() - 1] == x);
            }
        }
    }
}

/// Filtering keeps identities pairwise distinct.
proof fn lemma_live_records_distinct<T>(s: Seq<CachedAnimation<T>>)
    requires
        distinct_ids(s),
    ensures
        distinct_ids(live_records(s)),
    decreases s.len(),
{
    reveal(Seq::filter);
    if s.len() > 0 {
        assert(distinct_ids(s.drop_last()));
        lemma_live_records_distinct(s.drop_last());
        lemma_live_records_membership(s.drop_last());
        let sub = live_records(s.drop_last());
        if s.last().animating {
            assert forall|p: int, q: int|
                0 <= p < q < live_records(s).len() implies live_records(s)[p].identity
                != live_records(s)[q].identity by {
                if q == live_records(s).len() - 1 {
                    assert(sub.contains(sub[p]));
                    let i = choose|i: int|
                        0 <= i < s.drop_last().len() && s.drop_last()[i] == sub[p];
                    assert(s[i] == sub[p]);
                    assert(s[i].identity != s[s.len() - 1].identity);
                }
            }
        }
    }
}

/// The hub of the cache: all animations currently in motion, keyed by
/// their hashed identity.
#[derive(Debug)]
pub struct Animus<T> {
    /// The in-flight records. Identities are pairwise distinct (`wf`).
    pub animations: Vec<CachedAnimation<T>>,
}

impl<T> Animus<T> {
    /// Well-formedness: the record list is a map, one record per identity.
    pub open spec fn wf(self) -> bool {
        distinct_ids(self.animations@)
    }

    /// Whether a record for key `k` is in the cache.
    pub open spec fn contains_key(self, k: u64) -> bool {
        exists|i: int|
            0 <= i < self.animations@.len() && self.animations@[i].identity == k
    }

    /// The record stored under key `k` (meaningful when `contains_key`).
    pub open spec fn record_of(self, k: u64) -> CachedAnimation<T> {
        self.animations@[choose|i: int|
            0 <= i < self.animations@.len() && self.animations@[i].identity == k]
    }

    /// An empty cache.
    pub fn new() -> (r: Self)
        ensures
            r.wf(),
            r.animations@.len() == 0,
    {
        Animus { animations: Vec::new() }
    }

    /// Coarse liveness signal: true iff the cache holds any record at
    /// all. Known imprecision, kept as the contract: it does not check
    /// whether any record is still active.
    pub fn is_animating(&self) -> (r: bool)
        ensures
            r == (self.animations@.len() > 0),
    {
        self.animations.len() > 0
    }

    /// Unconditionally empty the cache, abandoning all in-flight state.
    pub fn clear(&mut self)
        ensures
            final(self).wf(),
            final(self).animations@.len() == 0,
            forall|k: u64| !final(self).contains_key(k),
    {
        self.animations = Vec::new();
    }

    /// The position of key `k`'s record, if one exists.
    fn find_index(&self, key: u64) -> (r: Option<usize>)
        ensures
            match r {
                Some(i) => i < self.animations@.len() && self.animations@[i as int].identity
                    == key,
                None => !self.contains_key(key),
            },
    {
        let mut i: usize = 0;
        while i < self.animations.len()
            invariant
                i <= self.animations@.len(),
                forall|j: int| 0 <= j < i ==> self.animations@[j].identity != key,
            decreases self.animations@.len() - i,
        {
            if self.animations[i].identity == key {
                return Some(i);
            }
            i = i + 1;
        }
        None
    }
}

/// Under distinct identities, any index holding key `k` holds the one
/// record `record_of` denotes.
proof fn lemma_record_at<T>(a: Animus<T>, i: int, k: u64)
    requires
        a.wf(),
        0 <= i < a.animations@.len(),
        a.animations@[i].identity == k,
    ensures
        a.contains_key(k),
        a.record_of(k) == a.animations@[i],
{
    let j = choose|j: int|
        0 <= j < a.animations@.len() && a.animations@[j].identity == k;
    if j < i {
        assert(a.animations@[j].identity != a.animations@[i].identity);
    } else if j > i {
        assert(a.animations@[i].identity != a.animations@[j].identity);
    }
}

impl<T: Animatable> Animus<T> {
    /// Return the current value of the animation identified by `id` at
    /// clock reading `now`, creating the record on first sight.
    ///
    /// The identifier's bytes are hashed to a stable key. If no record
    /// exists for that key, one is created, timestamped `now`, capturing
    /// the endpoints and duration, and marked active — creation leaves the
    /// flag untouched, so an end-of-tick reclamation never destroys a
    /// record in its creation tick. The captured parameters then govern
    /// the timeline until reclamation, so re-querying a live record with
    /// different parameters neither restarts nor reinterprets it. On every
    /// subsequent query the record's liveness flag is recomputed before
    /// the value is returned; the record is never removed by a query. A
    /// finished record keeps returning the value at the end of its
    /// timeline until it is reclaimed.
    pub fn anim<A: Animator>(
        &mut self,
        id: &[u8],
        start_value: T,
        end_value: T,
        duration: u64,
        animator: &A,
        now: u64,
    ) -> (r: T)
        requires
            old(self).wf(),
            animator.wf(),
        ensures
            final(self).wf(),
            ({
                let key = id_key(id@);
                let gov = if old(self).contains_key(key) {
                    old(self).record_of(key)
                } else {
                    CachedAnimation {
                        identity: key,
                        animating: true,
                        start_time: now,
                        start_value,
                        end_value,
                        duration,
                    }
                };
                &&& r == value_of(gov, *animator, now)
                &&& final(self).animations@.len() == old(self).animations@.len() + (if old(
                    self,
                ).contains_key(key) {
                    0int
                } else {
                    1int
                })
                &&& final(self).contains_key(key)
                &&& final(self).record_of(key) == (if old(self).contains_key(key) {
                    requeried(gov, now)
                } else {
                    gov
                })
                &&& forall|k: u64|
                    k != key ==> (final(self).contains_key(k) <==> old(self).contains_key(k))
                &&& forall|k: u64|
                    k != key && old(self).contains_key(k) ==> final(self).record_of(k) == old(
                        self,
                    ).record_of(k)
            }),
    {
        let ghost pre = *self;
        let key = hash_id(id);
        let ghost held_old: bool;
        let ghost iv: int;
        let (rec, created): (CachedAnimation<T>, bool) = match self.find_index(key) {
            Some(i) => {
                proof {
                    held_old = true;
                    iv = i as int;
                    lemma_record_at(pre, iv, key);
                }
                (self.animations.remove(i), false)
            },
            None => {
                proof {
                    held_old = false;
                }
                (CachedAnimation::new(key, start_value, end_value, duration, now), true)
            },
        };
        let elapsed: u64 = if now >= rec.start_time {
            now - rec.start_time
        } else {
            0
        };
        let raw: Fixed = fraction_of(elapsed, rec.duration);
        let active: bool = created || (0 < raw.units && raw.units < FX_ONE);
        let shaped: Fixed = animator.apply(raw.clamp_unit());
        let r = rec.start_value.lerp(&rec.end_value, shaped);
        let rec2 = CachedAnimation { animating: active, ..rec };
        self.animations.push(rec2);
        proof {
            let s = pre.animations@;
            let s2 = self.animations@;
            if held_old {
                let s1 = s.remove(iv);
                assert(s2 == s1.push(rec2));
                assert forall|p: int| 0 <= p < s1.len() implies #[trigger] s1[p] == (if p < iv {
                    s[p]
                } else {
                    s[p + 1]
                }) by {}
                assert forall|p: int| 0 <= p < s1.len() implies (#[trigger] s1[p]).identity
                    != key by {
                    if p < iv {
                        assert(s[p].identity != s[iv].identity);
                    } else {
                        assert(s[iv].identity != s[p + 1].identity);
                    }
                }
                assert forall|p: int, q: int|
                    0 <= p < q < s2.len() implies s2[p].identity != s2[q].identity by {
                    if q < s2.len() - 1 {
                        let pp = if p < iv { p } else { p + 1 };
                        let qq = if q < iv { q } else { q + 1 };
                        assert(s[pp].identity != s[qq].identity);
                    }
                }
                assert(final(self).wf());
                lemma_record_at(*self, s2.len() - 1, key);
                assert forall|k: u64|
                    k != key implies (self.contains_key(k) <==> pre.contains_key(k)) by {
                    if self.contains_key(k) {
                        let m = choose|m: int| 0 <= m < s2.len() && s2[m].identity == k;
                        let mm = if m < iv { m } else { m + 1 };
                        assert(s[mm].identity == k);
                    }
                    if pre.contains_key(k) {
                        let m = choose|m: int| 0 <= m < s.len() && s[m].identity == k;
                        let mm = if m < iv { m } else { m - 1 };
                        assert(s2[mm].identity == k);
                    }
                }
                assert forall|k: u64|
                    k != key && pre.contains_key(k) implies self.record_of(k) == pre.record_of(
                    k,
                ) by {
                    let m = choose|m: int| 0 <= m < s.len() && s[m].identity == k;
                    lemma_record_at(pre, m, k);
                    let mm = if m < iv { m } else { m - 1 };
                    assert(s2[mm] == s[m]);
                    lemma_record_at(*self, mm, k);
                }
            } else {
                assert(s2 == s.push(rec2));
                assert forall|p: int, q: int|
                    0 <= p < q < s2.len() implies s2[p].identity != s2[q].identity by {
                    if q == s2.len() - 1 {
                        assert(s[p].identity != key);
                    }
                }
                assert(final(self).wf());
                lemma_record_at(*self, s2.len() - 1, key);
                assert forall|k: u64|
                    k != key implies (self.contains_key(k) <==> pre.contains_key(k)) by {
                    if self.contains_key(k) {
                        let m = choose|m: int| 0 <= m < s2.len() && s2[m].identity == k;
                        assert(s[m].identity == k);
                    }
                    if pre.contains_key(k) {
                        let m = choose|m: int| 0 <= m < s.len() && s[m].identity == k;
                        assert(s2[m].identity == k);
                    }
                }
                assert forall|k: u64|
                    k != key && pre.contains_key(k) implies self.record_of(k) == pre.record_of(
                    k,
                ) by {
                    let m = choose|m: int| 0 <= m < s.len() && s[m].identity == k;
                    lemma_record_at(pre, m, k);
                    lemma_record_at(*self, m, k);
                }
            }
        }
        r
    }

    /// Reclamation: remove every record no longer flagged as animating,
    /// keeping all live records with their state intact. Call once per
    /// logical tick, after the tick's queries; queries never remove
    /// records themselves.
    pub fn gc(&mut self)
        requires
            old(self).wf(),
        ensures
            final(self).wf(),
            final(self).animations@ == live_records(old(self).animations@),
            forall|k: u64|
                final(self).contains_key(k) <==> (old(self).contains_key(k) && old(
                    self,
                ).record_of(k).animating),
            forall|k: u64|
                final(self).contains_key(k) ==> final(self).record_of(k) == old(self).record_of(
                    k,
                ),
    {
        let ghost s = self.animations@;
        let mut i: usize = 0;
        let ghost mut j: int = 0;
        while i < self.animations.len()
            invariant
                0 <= j <= s.len(),
                i as int == live_records(s.take(j)).len(),
                self.animations@ == live_records(s.take(j)) + s.skip(j),
            decreases s.len() - j,
        {
            proof {
                assert(s.skip(j).len() > 0);
                assert(self.animations@[i as int] == s.skip(j)[0]);
                assert(s.skip(j)[0] == s[j]);
            }
            if self.animations[i].animating {
                i = i + 1;
                proof {
                    reveal(Seq::filter);
                    j = j + 1;
                    assert(s.take(j).drop_last() =~= s.take(j - 1));
                    assert(s.take(j).last() == s[j - 1]);
                    assert(live_records(s.take(j)) == live_records(s.take(j - 1)).push(s[j - 1]));
                    assert(live_records(s.take(j)) + s.skip(j) =~= live_records(s.take(j - 1))
                        + s.skip(j - 1));
                }
            } else {
                self.animations.remove(i);
                proof {
                    reveal(Seq::filter);
                    j = j + 1;
                    assert(s.take(j).drop_last() =~= s.take(j - 1));
                    assert(s.take(j).last() == s[j - 1]);
                    assert(live_records(s.take(j)) == live_records(s.take(j - 1)));
                    assert((live_records(s.take(j - 1)) + s.skip(j - 1)).remove(i as int)
                        =~= live_records(s.take(j)) + s.skip(j));
                }
            }
        }
        proof {
            assert(s.skip(j).len() == 0);
            assert(j == s.len());
            assert(s.take(j) =~= s);
            assert(self.animations@ =~= live_records(s));
            lemma_live_records_membership(s);
            lemma_live_records_distinct(s);
            let s2 = self.animations@;
            assert forall|k: u64|
                self.contains_key(k) implies (old(self).contains_key(k) && old(self).record_of(
                k,
            ).animating && self.record_of(k) == old(self).record_of(k)) by {
                let m = choose|m: int| 0 <= m < s2.len() && s2[m].identity == k;
                assert(s2.contains(s2[m]));
                let x = s2[m];
                let mm = choose|mm: int| 0 <= mm < s.len() && s[mm] == x;
                lemma_record_at(*old(self), mm, k);
                lemma_record_at(*self, m, k);
            }
            assert forall|k: u64|
                old(self).contains_key(k) && old(self).record_of(k).animating implies
                self.contains_key(k) by {
                let m = choose|m: int| 0 <= m < s.len() && s[m].identity == k;
                lemma_record_at(*old(self), m, k);
                assert(live_records(s).contains(s[m]));
                let mm = choose|mm: int| 0 <= mm < s2.len() && s2[mm] == s[m];
            }
        }
    }
}

impl<T> Default for Animus<T> {
    /// An empty cache.
    fn default() -> (r: Self)
        ensures
            r.wf(),
            r.animations@.len() == 0,
    {
        Animus { animations: Vec::new() }
    }
}

/// An already-finished, not-yet-reclaimed record is steady: any two
/// queries at or past the end of its timeline return the same value — the
/// value at the end of the timeline — and leave the record present and
/// inactive, with all captured fields intact.
pub proof fn lemma_finished_steady<T: Animatable, A: Animator>(
    rec: CachedAnimation<T>,
    a: A,
    now1: u64,
    now2: u64,
)
    requires
        progress_of(rec, now1) >= FX_ONE as int,
        progress_of(rec, now2) >= FX_ONE as int,
    ensures
        value_of(rec, a, now1) == value_of(rec, a, now2),
        value_of(rec, a, now1) == rec.start_value.lerp_spec(rec.end_value, a.val(FX_ONE as int)),
        !requeried(rec, now1).animating,
        requeried(rec, now1) == requeried(rec, now2),
        value_of(requeried(rec, now1), a, now2) == value_of(rec, a, now2),
{
}

} // verus!
