//! Bounded in-memory cache of validated judgment successes, in least-recently-used order.
//!
//! Time is a monotonic clock reading in nanoseconds supplied by the caller.

use vstd::prelude::*;

use crate::judgment::{
    ErrorKind, IdentityView, JudgmentError, JudgmentIdentity, JudgmentResult,
};
use vstd::utf8::encode_utf8;

verus! {

/// Limits of the cache: entries, estimated bytes and time to live (nanoseconds).
#[derive(Debug, Clone, PartialEq, Eq)]
pub struct CachePolicy {
    pub max_entries: usize,
    pub max_bytes: usize,
    pub ttl_nanos: u64,
}

impl CachePolicy {
    pub open spec fn is_valid(&self) -> bool {
        self.max_entries > 0 && self.max_bytes > 0 && self.ttl_nanos > 0
    }

    /// All three limits must be positive.
    pub fn validate(&self) -> (r: Result<(), JudgmentError>)
        ensures
            r is Ok <==> self.is_valid(),
            r matches Err(e) ==> e.error_kind() == ErrorKind::Configuration && e.error_text()
                == "cache entry, byte, and TTL limits must be positive"@,
    {
        if self.max_entries == 0 || self.max_bytes == 0 || self.ttl_nanos == 0 {
            return Err(
                JudgmentError::configuration("cache entry, byte, and TTL limits must be positive"),
            );
        }
        Ok(())
    }
}

#[derive(Debug, Clone, Copy, PartialEq, Eq)]
pub struct CacheCounters {
    pub expirations: u64,
    pub evictions: u64,
}

impl Default for CacheCounters {
    fn default() -> (r: Self)
        ensures
            r.expirations == 0,
            r.evictions == 0,
    {
        CacheCounters { expirations: 0, evictions: 0 }
    }
}

/// One cached success as the contracts see it.
pub struct CacheSlot {
    pub identity: IdentityView,
    pub result: JudgmentResult,
    pub inserted_at: u64,
    pub expires_at: u64,
    pub bytes: usize,
}

/// Content of the cache: slots from least to most recently used, the byte account and the
/// counters.
pub struct CacheView {
    pub slots: Seq<CacheSlot>,
    pub estimated_bytes: usize,
    pub counters: CacheCounters,
}

struct CacheEntry {
    identity: JudgmentIdentity,
    result: JudgmentResult,
    inserted_at: u64,
    expires_at: u64,
    estimated_bytes: usize,
}

impl CacheEntry {
    spec fn slot(self) -> CacheSlot {
        CacheSlot {
            identity: self.identity@,
            result: self.result,
            inserted_at: self.inserted_at,
            expires_at: self.expires_at,
            bytes: self.estimated_bytes,
        }
    }
}

/// Per-connection LRU cache. It keeps no disk representation and stores successes only.
pub struct JudgmentCache {
    entries: Vec<CacheEntry>,
    estimated_bytes: usize,
    counters: CacheCounters,
}

pub open spec fn sat_add(a: int, b: int, max: int) -> int {
    if a + b > max {
        max
    } else {
        a + b
    }
}

pub open spec fn sat_sub(a: int, b: int) -> int {
    if a < b {
        0
    } else {
        a - b
    }
}

/// Every identity occurs at most once.
pub open spec fn identities_distinct(slots: Seq<CacheSlot>) -> bool {
    forall|i: int, j: int|
        0 <= i < j < slots.len() ==> slots[i].identity != slots[j].identity
}

pub open spec fn holds(slots: Seq<CacheSlot>, id: IdentityView) -> bool {
    exists|k: int| 0 <= k < slots.len() && slots[k].identity == id
}

/// The position of `id` (meaningful when `holds`).
pub open spec fn position(slots: Seq<CacheSlot>, id: IdentityView) -> int {
    choose|k: int| 0 <= k < slots.len() && slots[k].identity == id
}

/// Slots without the one for `id`, and the byte account after its removal.
pub open spec fn without(slots: Seq<CacheSlot>, id: IdentityView) -> Seq<CacheSlot> {
    if holds(slots, id) {
        slots.remove(position(slots, id))
    } else {
        slots
    }
}

pub open spec fn bytes_without(slots: Seq<CacheSlot>, bytes: usize, id: IdentityView) -> usize {
    if holds(slots, id) {
        sat_sub(bytes as int, slots[position(slots, id)].bytes as int) as usize
    } else {
        bytes
    }
}

/// Expiry under a (possibly shorter) policy TTL: never later than `inserted_at + ttl`.
pub open spec fn retimed(slot: CacheSlot, ttl: u64) -> CacheSlot {
    if slot.inserted_at + ttl <= u64::MAX && slot.inserted_at + ttl < slot.expires_at {
        CacheSlot { expires_at: (slot.inserted_at + ttl) as u64, ..slot }
    } else {
        slot
    }
}

pub open spec fn retime_all(slots: Seq<CacheSlot>, ttl: u64) -> Seq<CacheSlot> {
    slots.map_values(|s: CacheSlot| retimed(s, ttl))
}

/// The slots still fresh at `now`, in order.
pub open spec fn fresh(slots: Seq<CacheSlot>, now: u64) -> Seq<CacheSlot>
    decreases slots.len(),
{
    if slots.len() == 0 {
        slots
    } else if now < slots.last().expires_at {
        fresh(slots.drop_last(), now).push(slots.last())
    } else {
        fresh(slots.drop_last(), now)
    }
}

/// Sum of the byte estimates of the slots that are stale at `now`.
pub open spec fn stale_bytes(slots: Seq<CacheSlot>, now: u64) -> int
    decreases slots.len(),
{
    if slots.len() == 0 {
        0
    } else if now < slots.last().expires_at {
        stale_bytes(slots.drop_last(), now)
    } else {
        stale_bytes(slots.drop_last(), now) + slots.last().bytes
    }
}

/// Removing the stale slots at `now`.
pub open spec fn pruned(v: CacheView, now: u64) -> CacheView {
    CacheView {
        slots: fresh(v.slots, now),
        estimated_bytes: sat_sub(v.estimated_bytes as int, stale_bytes(v.slots, now)) as usize,
        counters: CacheCounters {
            expirations: sat_add(
                v.counters.expirations as int,
                v.slots.len() - fresh(v.slots, now).len(),
                u64::MAX as int,
            ) as u64,
            ..v.counters
        },
    }
}

/// Evicting least recently used slots while the entry or byte limit is exceeded.
pub open spec fn evicted(v: CacheView, max_entries: usize, max_bytes: usize) -> CacheView
    decreases v.slots.len(),
{
    if (v.slots.len() > max_entries || v.estimated_bytes > max_bytes) && v.slots.len() > 0 {
        evicted(
            CacheView {
                slots: v.slots.drop_first(),
                estimated_bytes: sat_sub(v.estimated_bytes as int, v.slots[0].bytes as int)
                    as usize,
                counters: CacheCounters {
                    evictions: sat_add(v.counters.evictions as int, 1, u64::MAX as int) as u64,
                    ..v.counters
                },
            },
            max_entries,
            max_bytes,
        )
    } else {
        v
    }
}

/// Evicting least recently used slots until one more entry of `size` bytes fits.
pub open spec fn made_room(v: CacheView, size: usize, max_entries: usize, max_bytes: usize) -> CacheView
    decreases v.slots.len(),
{
    if (v.slots.len() >= max_entries || sat_add(
        v.estimated_bytes as int,
        size as int,
        usize::MAX as int,
    ) > max_bytes) && v.slots.len() > 0 {
        made_room(
            CacheView {
                slots: v.slots.drop_first(),
                estimated_bytes: sat_sub(v.estimated_bytes as int, v.slots[0].bytes as int)
                    as usize,
                counters: CacheCounters {
                    evictions: sat_add(v.counters.evictions as int, 1, u64::MAX as int) as u64,
                    ..v.counters
                },
            },
            size,
            max_entries,
            max_bytes,
        )
    } else {
        v
    }
}

/// The effect of applying a valid policy at `now`: expiry capped by the policy TTL, stale
/// slots dropped, then least recently used slots evicted down to the limits.
pub open spec fn reconciled(v: CacheView, now: u64, policy: CachePolicy) -> CacheView {
    evicted(
        pruned(CacheView { slots: retime_all(v.slots, policy.ttl_nanos), ..v }, now),
        policy.max_entries,
        policy.max_bytes,
    )
}

/// Text length in UTF-8 bytes.
pub open spec fn utf8_len(s: Seq<char>) -> nat {
    encode_utf8(s).len()
}

pub open spec fn opt_utf8_len(s: Option<Seq<char>>) -> nat {
    match s {
        Some(t) => utf8_len(t),
        None => 0,
    }
}

pub open spec fn texts_utf8_len(texts: Seq<Seq<char>>) -> nat
    decreases texts.len(),
{
    if texts.len() == 0 {
        0
    } else {
        texts_utf8_len(texts.drop_last()) + utf8_len(texts.last())
    }
}

/// Conservative accounting for key data, result payload and bookkeeping: 512 bytes plus six
/// times the canonical and text bytes plus the result payload (8 for a probability).
pub open spec fn entry_bytes(id: IdentityView, result: JudgmentResult) -> nat {
    let text = opt_utf8_len(id.criterion) + opt_utf8_len(id.question) + texts_utf8_len(id.choices)
        + utf8_len(id.provider_namespace) + utf8_len(id.endpoint) + utf8_len(id.requested_model)
        + opt_utf8_len(id.effective_model);
    let result_bytes: nat = match result {
        JudgmentResult::Noul(_) => 8,
        JudgmentResult::Choice(label) => utf8_len(label@),
    };
    512 + 6 * id.canonical_bytes.len() + 6 * text + result_bytes
}

pub open spec fn capped(v: nat) -> usize {
    if v > usize::MAX {
        usize::MAX
    } else {
        v as usize
    }
}

fn add_capped(a: usize, b: usize) -> (r: usize)
    ensures
        r == capped((a + b) as nat),
{
    a.saturating_add(b)
}

fn six_times(a: usize) -> (r: usize)
    ensures
        r == capped((6 * a) as nat),
{
    if a > usize::MAX / 6 {
        usize::MAX
    } else {
        a * 6
    }
}

fn utf8_length(s: &String) -> (r: usize)
    ensures
        r == utf8_len(s@),
{
    s.as_str().as_bytes().len()
}

fn opt_utf8_length(s: &Option<String>) -> (r: usize)
    ensures
        r == opt_utf8_len(s.deep_view()),
{
    match s {
        Some(t) => utf8_length(t),
        None => 0,
    }
}

fn texts_utf8_length(texts: &Vec<String>) -> (r: usize)
    ensures
        r == capped(texts_utf8_len(texts.deep_view())),
{
    let n = texts.len();
    let mut total: usize = 0;
    let mut i: usize = 0;
    while i < n
        invariant
            n == texts@.len(),
            i <= n,
            total == capped(texts_utf8_len(texts.deep_view().subrange(0, i as int))),
        decreases n - i,
    {
        assert(texts.deep_view().subrange(0, i + 1).drop_last() =~= texts.deep_view().subrange(
            0,
            i as int,
        ));
        total = add_capped(total, utf8_length(&texts[i]));
        i = i + 1;
    }
    assert(texts.deep_view().subrange(0, n as int) =~= texts.deep_view());
    total
}

impl Default for JudgmentCache {
    fn default() -> (r: Self)
        ensures
            r.wf(),
            r.view().slots.len() == 0,
            r.view().estimated_bytes == 0,
            r.view().counters == (CacheCounters { expirations: 0, evictions: 0 }),
    {
        JudgmentCache::new()
    }
}

/// What `lookup` gives and leaves at `now`: a stale entry is dropped and counted as an
/// expiry; a fresh one is served and becomes the most recently used.
pub open spec fn lookup_outcome(v: CacheView, id: IdentityView, now: u64) -> (Option<JudgmentResult>, CacheView) {
    if !holds(v.slots, id) {
        (None, v)
    } else {
        let k = position(v.slots, id);
        if now >= v.slots[k].expires_at {
            (
                None,
                CacheView {
                    slots: v.slots.remove(k),
                    estimated_bytes: sat_sub(v.estimated_bytes as int, v.slots[k].bytes as int)
                        as usize,
                    counters: CacheCounters {
                        expirations: sat_add(v.counters.expirations as int, 1, u64::MAX as int)
                            as u64,
                        ..v.counters
                    },
                },
            )
        } else {
            (Some(v.slots[k].result), CacheView { slots: v.slots.remove(k).push(v.slots[k]), ..v })
        }
    }
}

/// What `insert_success` reports and leaves: the policy is applied first; an entry over the
/// byte limit is not stored (an older entry for the identity is dropped); otherwise least
/// recently used entries make room and the entry becomes the most recently used.
pub open spec fn insertion(
    v: CacheView,
    id: IdentityView,
    result: JudgmentResult,
    now: u64,
    policy: CachePolicy,
) -> (bool, CacheView) {
                                if !policy.is_valid() || now + policy.ttl_nanos > u64::MAX {
                    (false, v)
                } else {
                    let v1 = reconciled(v, now, policy);
                    let size = capped(entry_bytes(id, result));
                    let v2 = CacheView {
                        slots: without(v1.slots, id),
                        estimated_bytes: bytes_without(v1.slots, v1.estimated_bytes, id),
                        counters: v1.counters,
                    };
                    if size > policy.max_bytes {
                        (false, v2)
                    } else {
                        let v3 = made_room(v2, size, policy.max_entries, policy.max_bytes);
                        if v3.slots.len() >= policy.max_entries || sat_add(
                            v3.estimated_bytes as int,
                            size as int,
                            usize::MAX as int,
                        ) > policy.max_bytes {
                            (false, v3)
                        } else {
                            (true, CacheView {
                                slots: v3.slots.push(
                                    CacheSlot {
                                        identity: id,
                                        result,
                                        inserted_at: now,
                                        expires_at: (now + policy.ttl_nanos) as u64,
                                        bytes: size,
                                    },
                                ),
                                estimated_bytes: sat_add(
                                    v3.estimated_bytes as int,
                                    size as int,
                                    usize::MAX as int,
                                ) as usize,
                                counters: v3.counters,
                            })
                        }
                    }
                }
            }

impl JudgmentCache {
    pub closed spec fn view(&self) -> CacheView {
        CacheView {
            slots: self.entries@.map_values(|e: CacheEntry| e.slot()),
            estimated_bytes: self.estimated_bytes,
            counters: self.counters,
        }
    }

    /// Identities are unique and every entry carries its byte estimate.
    pub closed spec fn wf(&self) -> bool {
        &&& identities_distinct(self.view().slots)
        &&& forall|i: int|
            0 <= i < self.entries@.len() ==> (#[trigger] self.entries@[i]).estimated_bytes
                == capped(entry_bytes(self.entries@[i].identity@, self.entries@[i].result))
    }

    /// An empty cache.
    pub fn new() -> (r: Self)
        ensures
            r.wf(),
            r.view().slots.len() == 0,
            r.view().estimated_bytes == 0,
            r.view().counters == (CacheCounters { expirations: 0, evictions: 0 }),
    {
        let r = JudgmentCache {
            entries: Vec::new(),
            estimated_bytes: 0,
            counters: CacheCounters { expirations: 0, evictions: 0 },
        };
        assert(r.view().slots =~= Seq::<CacheSlot>::empty());
        r
    }

    /// Conservative accounting for key data, result payload, and bookkeeping (saturating).
    pub fn estimated_entry_bytes(identity: &JudgmentIdentity, result: &JudgmentResult) -> (r:
        usize)
        ensures
            r == capped(entry_bytes(identity@, *result)),
    {
        let text = add_capped(
            add_capped(
                add_capped(
                    add_capped(
                        add_capped(
                            add_capped(
                                opt_utf8_length(&identity.criterion),
                                opt_utf8_length(&identity.question),
                            ),
                            texts_utf8_length(&identity.choices),
                        ),
                        utf8_length(&identity.provider_namespace),
                    ),
                    utf8_length(&identity.endpoint),
                ),
                utf8_length(&identity.requested_model),
            ),
            opt_utf8_length(&identity.effective_model),
        );
        let result_bytes: usize = match result {
            JudgmentResult::Noul(_) => 8,
            JudgmentResult::Choice(label) => utf8_length(label),
        };
        add_capped(
            add_capped(
                add_capped(512, six_times(identity.canonical_bytes.len())),
                six_times(text),
            ),
            result_bytes,
        )
    }

    pub fn is_empty(&self) -> (r: bool)
        ensures
            r == (self.view().slots.len() == 0),
    {
        self.entries.len() == 0
    }

    pub fn estimated_bytes(&self) -> (r: usize)
        ensures
            r == self.view().estimated_bytes,
    {
        self.estimated_bytes
    }

    pub fn counters(&self) -> (r: CacheCounters)
        ensures
            r == self.view().counters,
    {
        self.counters
    }
}


fn reversed_entries(v: Vec<CacheEntry>) -> (r: Vec<CacheEntry>)
    ensures
        r@ == v@.reverse(),
{
    let mut rest = v;
    let ghost all = v@;
    let mut out: Vec<CacheEntry> = Vec::new();
    while rest.len() > 0
        invariant
            out@.len() + rest@.len() == all.len(),
            rest@ == all.subrange(0, rest@.len() as int),
            forall|k: int| 0 <= k < out@.len() ==> #[trigger] out@[k] == all[all.len() - 1 - k],
        decreases rest@.len(),
    {
        let e = rest.pop().unwrap();
        out.push(e);
    }
    assert(out@ =~= all.reverse());
    out
}

proof fn lemma_remove_distinct(a: Seq<CacheSlot>, k: int)
    requires
        identities_distinct(a),
        0 <= k < a.len(),
    ensures
        identities_distinct(a.remove(k)),
        forall|i: int| 0 <= i < a.remove(k).len() ==> a.contains(#[trigger] a.remove(k)[i]),
        forall|i: int|
            0 <= i < a.len() && i != k ==> a.remove(k).contains(#[trigger] a[i]),
{
    let b = a.remove(k);
    assert forall|i: int, j: int| 0 <= i < j < b.len() implies b[i].identity
        != b[j].identity by {
        let x = if i < k {
            i
        } else {
            i + 1
        };
        let y = if j < k {
            j
        } else {
            j + 1
        };
        assert(b[i] == a[x]);
        assert(b[j] == a[y]);
    }
    assert forall|i: int| 0 <= i < b.len() implies a.contains(#[trigger] b[i]) by {
        if i < k {
            assert(b[i] == a[i]);
        } else {
            assert(b[i] == a[i + 1]);
        }
    }
    assert forall|i: int| 0 <= i < a.len() && i != k implies b.contains(#[trigger] a[i]) by {
        if i < k {
            assert(b[i] == a[i]);
        } else {
            assert(b[i - 1] == a[i]);
        }
    }
}

proof fn lemma_fresh_step(s: Seq<CacheSlot>, i: int, now: u64)
    requires
        0 <= i < s.len(),
    ensures
        fresh(s.subrange(0, i + 1), now) == (if now < s[i].expires_at {
            fresh(s.subrange(0, i), now).push(s[i])
        } else {
            fresh(s.subrange(0, i), now)
        }),
        stale_bytes(s.subrange(0, i + 1), now) == (if now < s[i].expires_at {
            stale_bytes(s.subrange(0, i), now)
        } else {
            stale_bytes(s.subrange(0, i), now) + s[i].bytes
        }),
{
    assert(s.subrange(0, i + 1).drop_last() =~= s.subrange(0, i));
}

proof fn lemma_fresh_in(s: Seq<CacheSlot>, now: u64)
    ensures
        fresh(s, now).len() <= s.len(),
        forall|i: int|
            0 <= i < fresh(s, now).len() ==> exists|w: int|
                0 <= w < s.len() && s[w] == #[trigger] fresh(s, now)[i],
    decreases s.len(),
{
    if s.len() > 0 {
        let d = s.drop_last();
        lemma_fresh_in(d, now);
        let f = fresh(s, now);
        let fd = fresh(d, now);
        assert forall|i: int| 0 <= i < f.len() implies exists|w: int|
            0 <= w < s.len() && s[w] == #[trigger] f[i] by {
            if i < fd.len() {
                assert(f[i] == fd[i]);
                let w = choose|w: int| 0 <= w < d.len() && d[w] == fd[i];
                assert(s[w] == d[w]);
            } else {
                assert(f[i] == s.last());
                assert(s[s.len() - 1] == s.last());
            }
        }
    }
}

proof fn lemma_fresh_distinct(s: Seq<CacheSlot>, now: u64)
    requires
        identities_distinct(s),
    ensures
        identities_distinct(fresh(s, now)),
    decreases s.len(),
{
    if s.len() > 0 {
        let d = s.drop_last();
        assert forall|i: int, j: int| 0 <= i < j < d.len() implies d[i].identity
            != d[j].identity by {
            assert(d[i] == s[i] && d[j] == s[j]);
        }
        lemma_fresh_distinct(d, now);
        lemma_fresh_in(d, now);
        let f = fresh(s, now);
        let fd = fresh(d, now);
        if now < s.last().expires_at {
            assert forall|i: int, j: int| 0 <= i < j < f.len() implies f[i].identity
                != f[j].identity by {
                assert(f[i] == fd[i]);
                if j == f.len() - 1 {
                    let w = choose|w: int| 0 <= w < d.len() && d[w] == #[trigger] fd[i];
                    assert(s[w] == d[w]);
                    assert(f[j] == s[s.len() - 1]);
                } else {
                    assert(f[j] == fd[j]);
                }
            }
        }
    }
}

impl JudgmentCache {
    /// Position of `identity`, if held.
    fn find(&self, identity: &JudgmentIdentity) -> (r: Option<usize>)
        requires
            self.wf(),
        ensures
            match r {
                Some(k) => k < self.view().slots.len() && self.view().slots[k as int].identity
                    == identity@ && holds(self.view().slots, identity@) && position(
                    self.view().slots,
                    identity@,
                ) == k,
                None => !holds(self.view().slots, identity@),
            },
    {
        let n = self.entries.len();
        let mut i: usize = 0;
        while i < n
            invariant
                self.wf(),
                n == self.entries@.len(),
                i <= n,
                forall|j: int| 0 <= j < i ==> (#[trigger] self.entries@[j]).identity@ != identity@,
            decreases n - i,
        {
            if self.entries[i].identity.same_identity(identity) {
                proof {
                    let slots = self.view().slots;
                    assert(slots[i as int].identity == identity@);
                    assert(holds(slots, identity@));
                    let p = position(slots, identity@);
                    assert(slots[p].identity == identity@);
                    if p < i {
                        assert(slots[p].identity != slots[i as int].identity);
                    } else if p > i {
                        assert(slots[i as int].identity != slots[p].identity);
                    }
                }
                return Some(i);
            }
            i = i + 1;
        }
        proof {
            if holds(self.view().slots, identity@) {
                let w = choose|w: int|
                    0 <= w < self.view().slots.len() && self.view().slots[w].identity == identity@;
                assert(self.entries@[w].identity@ != identity@);
            }
        }
        None
    }

    fn remove_at(&mut self, k: usize) -> (r: CacheEntry)
        requires
            old(self).wf(),
            k < old(self).view().slots.len(),
        ensures
            final(self).wf(),
            final(self).view().slots == old(self).view().slots.remove(k as int),
            final(self).view().estimated_bytes == sat_sub(
                old(self).view().estimated_bytes as int,
                old(self).view().slots[k as int].bytes as int,
            ),
            final(self).view().counters == old(self).view().counters,
            r.slot() == old(self).view().slots[k as int],
    {
        proof {
            lemma_remove_distinct(old(self).view().slots, k as int);
        }
        let e = self.entries.remove(k);
        self.estimated_bytes = self.estimated_bytes.saturating_sub(e.estimated_bytes);
        assert(self.view().slots =~= old(self).view().slots.remove(k as int));
        e
    }

    /// Drops the entry for `identity`, if any.
    fn remove(&mut self, identity: &JudgmentIdentity)
        requires
            old(self).wf(),
        ensures
            final(self).wf(),
            final(self).view().slots == without(old(self).view().slots, identity@),
            final(self).view().estimated_bytes == bytes_without(
                old(self).view().slots,
                old(self).view().estimated_bytes,
                identity@,
            ),
            final(self).view().counters == old(self).view().counters,
    {
        match self.find(identity) {
            Some(k) => {
                self.remove_at(k);
            },
            None => {},
        }
    }

    /// Looks `identity` up at `now`. A stale entry is removed and counted as an expiry; a
    /// fresh hit becomes the most recently used entry.
    pub fn lookup(&mut self, identity: &JudgmentIdentity, now: u64) -> (r: Option<JudgmentResult>)
        requires
            old(self).wf(),
        ensures
            final(self).wf(),
            (r, final(self).view()) == lookup_outcome(old(self).view(), identity@, now),
    {
        match self.find(identity) {
            None => None,
            Some(k) => {
                if now >= self.entries[k].expires_at {
                    self.remove_at(k);
                    self.counters.expirations = self.counters.expirations.saturating_add(1);
                    None
                } else {
                    let ghost v = self.view();
                    let result = self.entries[k].result.duplicate();
                    let e = self.entries.remove(k);
                    proof {
                        lemma_remove_distinct(v.slots, k as int);
                        assert forall|j: int| 0 <= j < v.slots.remove(k as int).len() implies #[trigger] v.slots.remove(k as int)[j].identity
                            != v.slots[k as int].identity by {
                            let w = choose|w: int|
                                0 <= w < v.slots.len() && v.slots[w] == v.slots.remove(k as int)[j];
                            if w == k {
                                assert(v.slots.remove(k as int).contains(v.slots[k as int]) == false) by {
                                    if v.slots.remove(k as int).contains(v.slots[k as int]) {
                                        let z = choose|z: int|
                                            0 <= z < v.slots.remove(k as int).len()
                                                && v.slots.remove(k as int)[z] == v.slots[k as int];
                                        let zz = if z < k {
                                            z
                                        } else {
                                            z + 1
                                        };
                                        assert(v.slots[zz] == v.slots.remove(k as int)[z]);
                                    }
                                }
                            }
                        }
                    }
                    self.entries.push(e);
                    assert(self.view().slots =~= v.slots.remove(k as int).push(v.slots[k as int]));
                    Some(result)
                }
            },
        }
    }
}

proof fn lemma_evicted_within(v: CacheView, me: usize, mb: usize)
    ensures
        evicted(v, me, mb).slots.len() <= me && evicted(v, me, mb).estimated_bytes <= mb
            || evicted(v, me, mb).slots.len() == 0,
        exists|d: int|
            0 <= d <= v.slots.len() && evicted(v, me, mb).slots == v.slots.subrange(
                d,
                v.slots.len() as int,
            ),
    decreases v.slots.len(),
{
    if (v.slots.len() > me || v.estimated_bytes > mb) && v.slots.len() > 0 {
        let next = CacheView {
            slots: v.slots.drop_first(),
            estimated_bytes: sat_sub(v.estimated_bytes as int, v.slots[0].bytes as int) as usize,
            counters: CacheCounters {
                evictions: sat_add(v.counters.evictions as int, 1, u64::MAX as int) as u64,
                ..v.counters
            },
        };
        lemma_evicted_within(next, me, mb);
        let d = choose|d: int|
            0 <= d <= next.slots.len() && evicted(next, me, mb).slots == next.slots.subrange(
                d,
                next.slots.len() as int,
            );
        assert(next.slots.subrange(d, next.slots.len() as int) =~= v.slots.subrange(
            d + 1,
            v.slots.len() as int,
        ));
    } else {
        assert(v.slots.subrange(0, v.slots.len() as int) =~= v.slots);
    }
}

proof fn lemma_made_room_suffix(v: CacheView, size: usize, me: usize, mb: usize)
    ensures
        exists|d: int|
            0 <= d <= v.slots.len() && made_room(v, size, me, mb).slots == v.slots.subrange(
                d,
                v.slots.len() as int,
            ),
    decreases v.slots.len(),
{
    if (v.slots.len() >= me || sat_add(v.estimated_bytes as int, size as int, usize::MAX as int)
        > mb) && v.slots.len() > 0 {
        let next = CacheView {
            slots: v.slots.drop_first(),
            estimated_bytes: sat_sub(v.estimated_bytes as int, v.slots[0].bytes as int) as usize,
            counters: CacheCounters {
                evictions: sat_add(v.counters.evictions as int, 1, u64::MAX as int) as u64,
                ..v.counters
            },
        };
        lemma_made_room_suffix(next, size, me, mb);
        let d = choose|d: int|
            0 <= d <= next.slots.len() && made_room(next, size, me, mb).slots
                == next.slots.subrange(d, next.slots.len() as int);
        assert(next.slots.subrange(d, next.slots.len() as int) =~= v.slots.subrange(
            d + 1,
            v.slots.len() as int,
        ));
    } else {
        assert(v.slots.subrange(0, v.slots.len() as int) =~= v.slots);
    }
}

proof fn lemma_suffix_distinct(s: Seq<CacheSlot>, d: int, id: IdentityView)
    requires
        identities_distinct(s),
        0 <= d <= s.len(),
        !holds(s, id),
    ensures
        identities_distinct(s.subrange(d, s.len() as int)),
        !holds(s.subrange(d, s.len() as int), id),
{
    let t = s.subrange(d, s.len() as int);
    assert forall|i: int, j: int| 0 <= i < j < t.len() implies t[i].identity != t[j].identity by {
        assert(t[i] == s[i + d] && t[j] == s[j + d]);
    }
    if holds(t, id) {
        let w = choose|w: int| 0 <= w < t.len() && t[w].identity == id;
        assert(t[w] == s[w + d]);
    }
}

proof fn lemma_without_not_held(s: Seq<CacheSlot>, id: IdentityView)
    requires
        identities_distinct(s),
    ensures
        identities_distinct(without(s, id)),
        !holds(without(s, id), id),
{
    if holds(s, id) {
        let k = position(s, id);
        lemma_remove_distinct(s, k);
        let t = s.remove(k);
        if holds(t, id) {
            let w = choose|w: int| 0 <= w < t.len() && t[w].identity == id;
            let x = if w < k {
                w
            } else {
                w + 1
            };
            assert(t[w] == s[x]);
            if x < k {
                assert(s[x].identity != s[k].identity);
            } else {
                assert(s[k].identity != s[x].identity);
            }
        }
    }
}

impl JudgmentCache {
    /// Caps every entry's expiry at its insertion time plus `ttl`.
    fn retime(&mut self, ttl: u64)
        requires
            old(self).wf(),
        ensures
            final(self).wf(),
            final(self).view() == (CacheView {
                slots: retime_all(old(self).view().slots, ttl),
                ..old(self).view()
            }),
    {
        let ghost v = self.view();
        let mut taken: Vec<CacheEntry> = Vec::new();
        std::mem::swap(&mut taken, &mut self.entries);
        let ghost all = taken@;
        let mut pending = reversed_entries(taken);
        let n = pending.len();
        let mut out: Vec<CacheEntry> = Vec::new();
        while pending.len() > 0
            invariant
                n == all.len(),
                pending@.len() <= n,
                forall|q: int|
                    0 <= q < pending@.len() ==> #[trigger] pending@[q] == all[all.len() - 1 - q],
                out@.len() == n - pending@.len(),
                forall|q: int|
                    0 <= q < out@.len() ==> (#[trigger] out@[q]).slot() == retimed(all[q].slot(), ttl)
                        && out@[q].identity@ == all[q].identity@ && out@[q].result == all[q].result
                        && out@[q].estimated_bytes == all[q].estimated_bytes,
            decreases pending@.len(),
        {
            let ghost q = out@.len() as int;
            let mut e = pending.pop().unwrap();
            assert(e == all[q]);
            match e.inserted_at.checked_add(ttl) {
                Some(limit) => {
                    if limit < e.expires_at {
                        e.expires_at = limit;
                    }
                },
                None => {},
            }
            out.push(e);
        }
        self.entries = out;
        proof {
            assert(self.view().slots =~= retime_all(v.slots, ttl));
            assert forall|i: int, j: int| 0 <= i < j < self.view().slots.len() implies self.view().slots[i].identity
                != self.view().slots[j].identity by {
                assert(v.slots[i].identity != v.slots[j].identity);
            }
        }
    }

    /// Removes the entries that are stale at `now`, counting each as an expiry.
    fn prune_expired(&mut self, now: u64)
        requires
            old(self).wf(),
        ensures
            final(self).wf(),
            final(self).view() == pruned(old(self).view(), now),
    {
        let ghost v = self.view();
        let mut taken: Vec<CacheEntry> = Vec::new();
        std::mem::swap(&mut taken, &mut self.entries);
        let ghost all = taken@;
        let ghost slots = v.slots;
        let mut pending = reversed_entries(taken);
        let n = pending.len();
        let mut kept: Vec<CacheEntry> = Vec::new();
        let mut bytes = self.estimated_bytes;
        let mut expirations = self.counters.expirations;
        assert(slots.subrange(0, 0) =~= Seq::<CacheSlot>::empty());
        while pending.len() > 0
            invariant
                n == all.len(),
                slots.len() == n,
                forall|q: int| 0 <= q < n ==> #[trigger] slots[q] == all[q].slot(),
                pending@.len() <= n,
                forall|q: int|
                    0 <= q < pending@.len() ==> #[trigger] pending@[q] == all[all.len() - 1 - q],
                kept@.map_values(|e: CacheEntry| e.slot()) == fresh(
                    slots.subrange(0, n - pending@.len()),
                    now,
                ),
                forall|q: int|
                    0 <= q < kept@.len() ==> exists|w: int|
                        0 <= w < n - pending@.len() && #[trigger] kept@[q] == all[w],
                bytes == sat_sub(
                    v.estimated_bytes as int,
                    stale_bytes(slots.subrange(0, n - pending@.len()), now),
                ),
                expirations == sat_add(
                    v.counters.expirations as int,
                    (n - pending@.len()) - kept@.len(),
                    u64::MAX as int,
                ),
                kept@.len() <= n - pending@.len(),
            decreases pending@.len(),
        {
            let ghost i = n - pending@.len();
            let e = pending.pop().unwrap();
            assert(e == all[i]);
            proof {
                lemma_fresh_step(slots, i, now);
            }
            if now >= e.expires_at {
                bytes = bytes.saturating_sub(e.estimated_bytes);
                expirations = expirations.saturating_add(1);
            } else {
                let ghost before = kept@;
                kept.push(e);
                assert(kept@.map_values(|e: CacheEntry| e.slot()) =~= before.map_values(
                    |e: CacheEntry| e.slot(),
                ).push(e.slot()));
            }
        }
        assert(slots.subrange(0, n as int) =~= slots);
        self.entries = kept;
        self.estimated_bytes = bytes;
        self.counters.expirations = expirations;
        proof {
            lemma_fresh_distinct(slots, now);
            assert forall|q: int| 0 <= q < self.entries@.len() implies (#[trigger] self.entries@[q]).estimated_bytes
                == capped(entry_bytes(self.entries@[q].identity@, self.entries@[q].result)) by {
                let w = choose|w: int| 0 <= w < n && self.entries@[q] == all[w];
            }
            assert(self.view().slots == fresh(slots, now));
        }
    }

    /// Evicts least recently used entries while a limit is exceeded.
    fn evict_to(&mut self, max_entries: usize, max_bytes: usize)
        requires
            old(self).wf(),
        ensures
            final(self).wf(),
            final(self).view() == evicted(old(self).view(), max_entries, max_bytes),
        decreases old(self).view().slots.len(),
    {
        if (self.entries.len() > max_entries || self.estimated_bytes > max_bytes)
            && self.entries.len() > 0 {
            let ghost v = self.view();
            self.remove_at(0);
            self.counters.evictions = self.counters.evictions.saturating_add(1);
            assert(self.view().slots =~= v.slots.drop_first());
            self.evict_to(max_entries, max_bytes);
        }
    }

    /// Evicts least recently used entries until an entry of `size` bytes fits.
    fn make_room(&mut self, size: usize, max_entries: usize, max_bytes: usize)
        requires
            old(self).wf(),
        ensures
            final(self).wf(),
            final(self).view() == made_room(old(self).view(), size, max_entries, max_bytes),
        decreases old(self).view().slots.len(),
    {
        if (self.entries.len() >= max_entries || self.estimated_bytes.saturating_add(size)
            > max_bytes) && self.entries.len() > 0 {
            let ghost v = self.view();
            self.remove_at(0);
            self.counters.evictions = self.counters.evictions.saturating_add(1);
            assert(self.view().slots =~= v.slots.drop_first());
            self.make_room(size, max_entries, max_bytes);
        }
    }

    /// Applies `policy` at `now`: expiry capped by the policy TTL, stale entries removed,
    /// least recently used entries evicted until the entry and byte limits hold. Returns
    /// false, changing nothing, for an invalid policy.
    pub fn reconcile_policy(&mut self, now: u64, policy: &CachePolicy) -> (r: bool)
        requires
            old(self).wf(),
        ensures
            final(self).wf(),
            r == policy.is_valid(),
            r ==> final(self).view() == reconciled(old(self).view(), now, *policy),
            !r ==> final(self).view() == old(self).view(),
            r ==> (final(self).view().slots.len() <= policy.max_entries
                && final(self).view().estimated_bytes <= policy.max_bytes)
                || final(self).view().slots.len() == 0,
    {
        if policy.validate().is_err() {
            return false;
        }
        let ghost v = self.view();
        self.retime(policy.ttl_nanos);
        self.prune_expired(now);
        let ghost p = self.view();
        self.evict_to(policy.max_entries, policy.max_bytes);
        proof {
            lemma_evicted_within(p, policy.max_entries, policy.max_bytes);
        }
        true
    }

    /// Applies the active limits before allowing an entry to be served; an invalid policy
    /// serves nothing and changes nothing.
    pub fn lookup_with_policy(
        &mut self,
        identity: &JudgmentIdentity,
        now: u64,
        policy: &CachePolicy,
    ) -> (r: Option<JudgmentResult>)
        requires
            old(self).wf(),
        ensures
            final(self).wf(),
            !policy.is_valid() ==> r is None && final(self).view() == old(self).view(),
            policy.is_valid() ==> (r, final(self).view()) == lookup_outcome(
                reconciled(old(self).view(), now, *policy),
                identity@,
                now,
            ),
    {
        if !self.reconcile_policy(now, policy) {
            return None;
        }
        self.lookup(identity, now)
    }

    /// Caches a validated success under `identity` at `now` with the policy's TTL. The policy
    /// is applied first; an entry larger than the byte limit is not stored (and an older
    /// entry for the identity is dropped); otherwise least recently used entries make room
    /// and the entry becomes the most recently used one.
    pub fn insert_success(
        &mut self,
        identity: JudgmentIdentity,
        result: JudgmentResult,
        now: u64,
        policy: &CachePolicy,
    ) -> (r: bool)
        requires
            old(self).wf(),
        ensures
            final(self).wf(),
            (r, final(self).view()) == insertion(old(self).view(), identity@, result, now, *policy),
            r ==> final(self).view().slots.len() <= policy.max_entries
                && final(self).view().estimated_bytes <= policy.max_bytes,
    {
        if policy.validate().is_err() {
            return false;
        }
        let expires_at = match now.checked_add(policy.ttl_nanos) {
            Some(e) => e,
            None => return false,
        };
        self.reconcile_policy(now, policy);
        let size = Self::estimated_entry_bytes(&identity, &result);
        if size > policy.max_bytes {
            self.remove(&identity);
            return false;
        }
        self.remove(&identity);
        let ghost v2 = self.view();
        proof {
            lemma_without_not_held(
                reconciled(old(self).view(), now, *policy).slots,
                identity@,
            );
        }
        self.make_room(size, policy.max_entries, policy.max_bytes);
        if self.entries.len() >= policy.max_entries || self.estimated_bytes.saturating_add(size)
            > policy.max_bytes {
            return false;
        }
        proof {
            lemma_made_room_suffix(v2, size, policy.max_entries, policy.max_bytes);
            let d = choose|d: int|
                0 <= d <= v2.slots.len() && made_room(
                    v2,
                    size,
                    policy.max_entries,
                    policy.max_bytes,
                ).slots == v2.slots.subrange(d, v2.slots.len() as int);
            lemma_suffix_distinct(v2.slots, d, identity@);
        }
        let ghost v3 = self.view();
        self.estimated_bytes = self.estimated_bytes.saturating_add(size);
        let ghost id = identity@;
        let ghost res = result;
        self.entries.push(
            CacheEntry { identity, result, inserted_at: now, expires_at, estimated_bytes: size },
        );
        proof {
            let slots = self.view().slots;
            assert(slots =~= v3.slots.push(
                CacheSlot { identity: id, result: res, inserted_at: now, expires_at, bytes: size },
            ));
            assert forall|i: int, j: int| 0 <= i < j < slots.len() implies slots[i].identity
                != slots[j].identity by {
                if j == slots.len() - 1 {
                    assert(slots[i] == v3.slots[i]);
                    if v3.slots[i].identity == id {
                        assert(holds(v3.slots, id));
                    }
                } else {
                    assert(v3.slots[i].identity != v3.slots[j].identity);
                }
            }
        }
        true
    }

    /// Caches the outcome only when it is a success.
    pub fn insert_outcome(
        &mut self,
        identity: JudgmentIdentity,
        outcome: &Result<JudgmentResult, JudgmentError>,
        now: u64,
        policy: &CachePolicy,
    ) -> (r: bool)
        requires
            old(self).wf(),
        ensures
            final(self).wf(),
            outcome is Err ==> !r && final(self).view() == old(self).view(),
            outcome matches Ok(result) ==> (r, final(self).view()) == insertion(
                old(self).view(),
                identity@,
                *result,
                now,
                *policy,
            ),
    {
        match outcome {
            Ok(result) => self.insert_success(identity, result.duplicate(), now, policy),
            Err(_) => false,
        }
    }

    /// Removes every entry and resets the byte account; returns the number removed.
    pub fn clear(&mut self) -> (r: usize)
        requires
            old(self).wf(),
        ensures
            final(self).wf(),
            r == old(self).view().slots.len(),
            final(self).view().slots.len() == 0,
            final(self).view().estimated_bytes == 0,
            final(self).view().counters == old(self).view().counters,
    {
        let removed = self.entries.len();
        self.entries.clear();
        self.estimated_bytes = 0;
        removed
    }

    /// Number of entries that are still fresh at `now`; stale ones are removed first.
    pub fn len(&mut self, now: u64) -> (r: usize)
        requires
            old(self).wf(),
        ensures
            final(self).wf(),
            final(self).view() == pruned(old(self).view(), now),
            r == final(self).view().slots.len(),
    {
        self.prune_expired(now);
        self.entries.len()
    }
}
proof fn lemma_suffix_keeps_distinct(s: Seq<CacheSlot>, d: int)
    requires
        identities_distinct(s),
        0 <= d <= s.len(),
    ensures
        identities_distinct(s.subrange(d, s.len() as int)),
{
    let t = s.subrange(d, s.len() as int);
    assert forall|i: int, j: int| 0 <= i < j < t.len() implies t[i].identity != t[j].identity by {
        assert(t[i] == s[i + d] && t[j] == s[j + d]);
    }
}

proof fn lemma_reconciled_distinct(v: CacheView, now: u64, policy: CachePolicy)
    requires
        identities_distinct(v.slots),
    ensures
        identities_distinct(reconciled(v, now, policy).slots),
{
    let r = retime_all(v.slots, policy.ttl_nanos);
    assert forall|i: int, j: int| 0 <= i < j < r.len() implies r[i].identity != r[j].identity by {
        assert(r[i].identity == v.slots[i].identity && r[j].identity == v.slots[j].identity);
    }
    lemma_fresh_distinct(r, now);
    let p = pruned(CacheView { slots: r, ..v }, now);
    lemma_evicted_within(p, policy.max_entries, policy.max_bytes);
    let d = choose|d: int|
        0 <= d <= p.slots.len() && evicted(p, policy.max_entries, policy.max_bytes).slots
            == p.slots.subrange(d, p.slots.len() as int);
    lemma_suffix_keeps_distinct(p.slots, d);
}

/// After a successful insertion the entry is the last slot, the only one for its identity.
proof fn lemma_inserted_last(
    v: CacheView,
    id: IdentityView,
    result: JudgmentResult,
    now: u64,
    policy: CachePolicy,
)
    requires
        identities_distinct(v.slots),
        insertion(v, id, result, now, policy).0,
    ensures
        ({
            let w = insertion(v, id, result, now, policy).1;
            &&& holds(w.slots, id)
            &&& position(w.slots, id) == w.slots.len() - 1
            &&& w.slots.last().result == result
            &&& w.slots.last().expires_at == now + policy.ttl_nanos
        }),
{
    let v1 = reconciled(v, now, policy);
    lemma_reconciled_distinct(v, now, policy);
    lemma_without_not_held(v1.slots, id);
    let size = capped(entry_bytes(id, result));
    let v2 = CacheView {
        slots: without(v1.slots, id),
        estimated_bytes: bytes_without(v1.slots, v1.estimated_bytes, id),
        counters: v1.counters,
    };
    lemma_made_room_suffix(v2, size, policy.max_entries, policy.max_bytes);
    let v3 = made_room(v2, size, policy.max_entries, policy.max_bytes);
    let d = choose|d: int|
        0 <= d <= v2.slots.len() && v3.slots == v2.slots.subrange(d, v2.slots.len() as int);
    lemma_suffix_distinct(v2.slots, d, id);
    let w = insertion(v, id, result, now, policy).1;
    let last = w.slots.len() - 1;
    assert(w.slots[last].identity == id);
    let k = position(w.slots, id);
    assert(0 <= k < w.slots.len() && w.slots[k].identity == id);
    if k != last {
        assert(w.slots[k] == v3.slots[k]);
        assert(holds(v3.slots, id));
    }
}

/// A well-formed cache holds each identity at most once, so the laws below apply to the view
/// of every cache the library builds.
pub proof fn lemma_wf_identities_distinct(cache: &JudgmentCache)
    requires
        cache.wf(),
    ensures
        identities_distinct(cache.view().slots),
{
}

/// A success cached at `now` is served by a lookup made before its time to live has passed.
pub proof fn law_cached_success_is_served(
    v: CacheView,
    id: IdentityView,
    result: JudgmentResult,
    now: u64,
    policy: CachePolicy,
    later: u64,
)
    requires
        identities_distinct(v.slots),
        insertion(v, id, result, now, policy).0,
        now <= later < now + policy.ttl_nanos,
    ensures
        lookup_outcome(insertion(v, id, result, now, policy).1, id, later).0 == Some(result),
{
    lemma_inserted_last(v, id, result, now, policy);
}

/// Once the time to live of a cached success has passed (the boundary included), a lookup
/// does not serve it.
pub proof fn law_cached_success_expires(
    v: CacheView,
    id: IdentityView,
    result: JudgmentResult,
    now: u64,
    policy: CachePolicy,
    later: u64,
)
    requires
        identities_distinct(v.slots),
        insertion(v, id, result, now, policy).0,
        later >= now + policy.ttl_nanos,
    ensures
        lookup_outcome(insertion(v, id, result, now, policy).1, id, later).0 is None,
{
    lemma_inserted_last(v, id, result, now, policy);
}

/// A successful insertion leaves the cache within the policy's entry and byte limits.
pub proof fn law_insertion_within_limits(
    v: CacheView,
    id: IdentityView,
    result: JudgmentResult,
    now: u64,
    policy: CachePolicy,
)
    requires
        insertion(v, id, result, now, policy).0,
    ensures
        insertion(v, id, result, now, policy).1.slots.len() <= policy.max_entries,
        insertion(v, id, result, now, policy).1.estimated_bytes <= policy.max_bytes,
{
}

} // verus!
