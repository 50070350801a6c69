use vstd::prelude::*;

use crate::codec::Codec;
use crate::paste::{custom_of, expired, Paste};

verus! {

/// The pastes of `ps` that are not expired at `now`, in their order.
pub open spec fn live(ps: Seq<Paste>, now: u64) -> Seq<Paste>
    decreases ps.len(),
{
    if ps.len() == 0 {
        Seq::empty()
    } else if expired(ps.last(), now) {
        live(ps.drop_last(), now)
    } else {
        live(ps.drop_last(), now).push(ps.last())
    }
}

/// `p` answers to slug `s`: by its custom URL or by its derived slug.
pub open spec fn claims(c: Codec, p: Paste, s: Seq<char>) -> bool {
    custom_of(p) == Some(s) || c.slug_of(p.id as nat) == s
}

/// `s` is the slug of some paste of `ps`.
pub open spec fn taken(c: Codec, ps: Seq<Paste>, s: Seq<char>) -> bool {
    exists|i: int| 0 <= i < ps.len() && claims(c, #[trigger] ps[i], s)
}

/// Two different pastes never share an identifier, and the custom URL of
/// one is neither the custom URL nor the derived slug of the other.
pub open spec fn compatible(c: Codec, a: Paste, b: Paste) -> bool {
    &&& a.id != b.id
    &&& custom_of(a) matches Some(u) ==> custom_of(b) != Some(u) && c.slug_of(b.id as nat) != u
}

/// The invariant of a registry's contents.
pub open spec fn consistent(c: Codec, ps: Seq<Paste>, last: Option<u64>) -> bool {
    &&& forall|i: int, j: int|
        0 <= i < ps.len() && 0 <= j < ps.len() && i != j ==> compatible(c, #[trigger] ps[i], #[trigger] ps[j])
    &&& forall|i: int| 0 <= i < ps.len() ==> (last matches Some(l) && #[trigger] ps[i].id <= l)
}

/// `id` was never issued before, where `last` is the last identifier issued.
pub open spec fn id_fresh(last: Option<u64>, id: u64) -> bool {
    match last {
        Some(l) => id > l,
        None => true,
    }
}

/// Adding `p` to `ps` puts no slug in doubt.
pub open spec fn slugs_free(c: Codec, ps: Seq<Paste>, p: Paste) -> bool {
    &&& custom_of(p) matches Some(u) ==> !taken(c, ps, u)
    &&& forall|i: int| 0 <= i < ps.len() ==> custom_of(#[trigger] ps[i]) != Some(c.slug_of(p.id as nat))
}

/// Why a paste was not inserted.
#[derive(Clone, Copy, Debug, PartialEq, Eq, Structural)]
pub enum InsertError {
    /// Its custom URL, or its derived slug, already names a live paste.
    SlugTaken,
    /// Its identifier is not above every identifier issued so far.
    IdReused,
}

/// The collection of pastes, with the codec that derives their slugs.
/// Every operation first drops the pastes that have expired.
pub struct Registry {
    codec: Codec,
    pastes: Vec<Paste>,
    last_id: Option<u64>,
}

impl Registry {
    pub closed spec fn contents(&self) -> Seq<Paste> {
        self.pastes@
    }

    pub closed spec fn codec_view(&self) -> Codec {
        self.codec
    }

    pub closed spec fn last_issued(&self) -> Option<u64> {
        self.last_id
    }

    pub closed spec fn wf(&self) -> bool {
        &&& self.codec.wf()
        &&& consistent(self.codec, self.pastes@, self.last_id)
    }

    pub fn new(codec: Codec) -> (r: Registry)
        requires
            codec.wf(),
        ensures
            r.wf(),
            r.contents() == Seq::<Paste>::empty(),
            r.codec_view() == codec,
            r.last_issued() is None,
    {
        Registry { codec, pastes: Vec::new(), last_id: None }
    }

    pub fn codec(&self) -> (r: &Codec)
        ensures
            *r == self.codec_view(),
    {
        &self.codec
    }

    pub fn len(&self) -> (r: usize)
        ensures
            r == self.contents().len(),
    {
        self.pastes.len()
    }

    pub fn get(&self, i: usize) -> (r: &Paste)
        requires
            i < self.contents().len(),
        ensures
            *r == self.contents()[i as int],
    {
        &self.pastes[i]
    }

    /// Drops every paste that is expired at `now`, keeping the order of the rest.
    pub fn sweep(&mut self, now: u64)
        requires
            old(self).wf(),
        ensures
            final(self).wf(),
            final(self).contents() == live(old(self).contents(), now),
            final(self).codec_view() == old(self).codec_view(),
            final(self).last_issued() == old(self).last_issued(),
    {
        let ghost orig = self.pastes@;
        let n = self.pastes.len();
        let mut i: usize = 0;
        let mut j: usize = 0;
        proof {
            assert(orig.subrange(0, 0) =~= Seq::<Paste>::empty());
            assert(orig.subrange(0, n as int) =~= orig);
        }
        while j < n
            invariant
                n == orig.len(),
                j <= n,
                i <= j,
                orig == old(self).pastes@,
                self.codec == old(self).codec,
                self.last_id == old(self).last_id,
                consistent(self.codec, orig, self.last_id),
                self.pastes@ == live(orig.subrange(0, j as int), now) + orig.subrange(j as int, n as int),
                i == live(orig.subrange(0, j as int), now).len(),
            decreases n - j,
        {
            let ghost before = live(orig.subrange(0, j as int), now);
            proof {
                let p = orig.subrange(0, j + 1);
                assert(p.drop_last() =~= orig.subrange(0, j as int));
                assert(p.last() == orig[j as int]);
                assert(self.pastes@[i as int] == orig[j as int]);
            }
            if self.pastes[i].is_expired(now) {
                self.pastes.remove(i);
                proof {
                    assert(self.pastes@ =~= before + orig.subrange(j + 1, n as int));
                }
            } else {
                i = i + 1;
                proof {
                    assert(self.pastes@ =~= before.push(orig[j as int]) + orig.subrange(j + 1, n as int));
                }
            }
            j = j + 1;
        }
        proof {
            assert(self.pastes@ =~= live(orig, now));
            lemma_live_consistent(self.codec, orig, self.last_id, now);
        }
    }

    /// Index of the live paste that answers to `slug`: the one whose custom URL
    /// it is, else the one whose derived slug it is; `None` where there is none.
    pub fn find_by_slug(&mut self, slug: &str, now: u64) -> (r: Option<usize>)
        requires
            old(self).wf(),
        ensures
            final(self).wf(),
            final(self).contents() == live(old(self).contents(), now),
            final(self).codec_view() == old(self).codec_view(),
            final(self).last_issued() == old(self).last_issued(),
            resolves(final(self).codec_view(), final(self).contents(), slug@, r),
            r matches Some(i) ==> !expired(final(self).contents()[i as int], now),
    {
        self.sweep(now);
        proof {
            law_sweep_leaves_no_expired(old(self).pastes@, now);
        }
        self.locate(slug)
    }

    /// `find_by_slug` on contents that are already swept.
    fn locate(&self, slug: &str) -> (r: Option<usize>)
        requires
            self.wf(),
        ensures
            resolves(self.codec_view(), self.contents(), slug@, r),
    {
        let target = String::from_str(slug);
        let n = self.pastes.len();
        let mut i: usize = 0;
        while i < n
            invariant
                n == self.pastes@.len(),
                i <= n,
                target@ == slug@,
                forall|k: int| 0 <= k < i ==> custom_of(#[trigger] self.pastes@[k]) != Some(slug@),
            decreases n - i,
        {
            match &self.pastes[i].custom_url {
                Some(u) => {
                    if *u == target {
                        return Some(i);
                    }
                },
                None => {},
            }
            i = i + 1;
        }
        let decoded = self.codec.decode(slug);
        let id = match decoded {
            None => {
                proof {
                    assert forall|k: int| 0 <= k < n implies !claims(
                        self.codec,
                        #[trigger] self.pastes@[k],
                        slug@,
                    ) by {
                        if self.codec.slug_of(self.pastes@[k].id as nat) == slug@ {
                            crate::codec::law_round_trip(&self.codec, self.pastes@[k].id);
                        }
                    }
                }
                return None;
            },
            Some(id) => id,
        };
        proof {
            crate::codec::law_round_trip(&self.codec, id);
        }
        let mut k: usize = 0;
        while k < n
            invariant
                n == self.pastes@.len(),
                k <= n,
                self.codec.decoded(slug@) == Some(id),
                self.codec.slug_of(id as nat) == slug@,
                forall|q: int| 0 <= q < n ==> custom_of(#[trigger] self.pastes@[q]) != Some(slug@),
                forall|q: int| 0 <= q < k ==> (#[trigger] self.pastes@[q]).id != id,
            decreases n - k,
        {
            if self.pastes[k].id == id {
                return Some(k);
            }
            k = k + 1;
        }
        proof {
            assert forall|q: int| 0 <= q < n implies !claims(self.codec, #[trigger] self.pastes@[q], slug@) by {
                if self.codec.slug_of(self.pastes@[q].id as nat) == slug@ {
                    crate::codec::lemma_slug_injective(&self.codec, self.pastes@[q].id as nat, id as nat);
                }
            }
        }
        None
    }

    /// Whether no live paste answers to `candidate`, by custom URL or derived slug.
    pub fn is_slug_available(&mut self, candidate: &str, now: u64) -> (r: bool)
        requires
            old(self).wf(),
        ensures
            final(self).wf(),
            final(self).contents() == live(old(self).contents(), now),
            final(self).codec_view() == old(self).codec_view(),
            final(self).last_issued() == old(self).last_issued(),
            r == !taken(final(self).codec_view(), final(self).contents(), candidate@),
    {
        self.sweep(now);
        self.locate(candidate).is_none()
    }

    /// Adds `paste` after the live pastes and returns its identifier; refuses an
    /// identifier that is not above every one issued so far, and a paste whose
    /// custom URL or derived slug already names a live paste.
    pub fn insert(&mut self, paste: Paste, now: u64) -> (r: Result<u64, InsertError>)
        requires
            old(self).wf(),
        ensures
            final(self).wf(),
            final(self).codec_view() == old(self).codec_view(),
            ({
                let swept = live(old(self).contents(), now);
                let fresh = id_fresh(old(self).last_issued(), paste.id);
                let free = slugs_free(old(self).codec_view(), swept, paste);
                &&& !fresh ==> r == Err::<u64, InsertError>(InsertError::IdReused)
                &&& fresh && !free ==> r == Err::<u64, InsertError>(InsertError::SlugTaken)
                &&& fresh && free ==> r == Ok::<u64, InsertError>(paste.id)
                &&& r is Ok ==> final(self).contents() == swept.push(paste) && final(self).last_issued() == Some(
                    paste.id,
                )
                &&& r is Err ==> final(self).contents() == swept && final(self).last_issued() == old(self).last_issued()
            }),
    {
        self.sweep(now);
        let fresh = match self.last_id {
            Some(l) => paste.id > l,
            None => true,
        };
        if !fresh {
            return Err(InsertError::IdReused);
        }
        match &paste.custom_url {
            Some(u) => {
                if self.locate(u.as_str()).is_some() {
                    return Err(InsertError::SlugTaken);
                }
            },
            None => {},
        }
        let own = self.codec.encode(paste.id);
        let n = self.pastes.len();
        let mut i: usize = 0;
        while i < n
            invariant
                n == self.pastes@.len(),
                i <= n,
                own@ == self.codec.slug_of(paste.id as nat),
                self.wf(),
                self.pastes@ == live(old(self).pastes@, now),
                self.codec == old(self).codec,
                self.last_id == old(self).last_id,
                id_fresh(self.last_id, paste.id),
                custom_of(paste) matches Some(u) ==> !taken(self.codec, self.pastes@, u),
                forall|k: int| 0 <= k < i ==> custom_of(#[trigger] self.pastes@[k]) != Some(own@),
            decreases n - i,
        {
            match &self.pastes[i].custom_url {
                Some(u) => {
                    if *u == own {
                        return Err(InsertError::SlugTaken);
                    }
                },
                None => {},
            }
            i = i + 1;
        }
        let id = paste.id;
        let ghost before = self.pastes@;
        let ghost p = paste;
        self.pastes.push(paste);
        self.last_id = Some(id);
        proof {
            let c = self.codec;
            let ps = self.pastes@;
            assert(ps == before.push(p));
            assert forall|a: int, b: int|
                0 <= a < ps.len() && 0 <= b < ps.len() && a != b implies compatible(
                c,
                #[trigger] ps[a],
                #[trigger] ps[b],
            ) by {
                if a == before.len() {
                    assert(ps[b] == before[b]);
                    assert(!claims(c, before[b], p.custom_url->0@) || custom_of(p) is None);
                } else if b == before.len() {
                    assert(ps[a] == before[a]);
                } else {
                    assert(ps[a] == before[a] && ps[b] == before[b]);
                }
            }
        }
        Ok(id)
    }

    /// Deletes the live paste that answers to `slug`, if there is one; does
    /// nothing otherwise.
    pub fn remove(&mut self, slug: &str, now: u64) -> (r: Option<u64>)
        requires
            old(self).wf(),
        ensures
            final(self).wf(),
            final(self).codec_view() == old(self).codec_view(),
            final(self).last_issued() == old(self).last_issued(),
            ({
                let swept = live(old(self).contents(), now);
                &&& !taken(old(self).codec_view(), swept, slug@) ==> r is None && final(self).contents() == swept
                &&& taken(old(self).codec_view(), swept, slug@) ==> exists|i: int|
                    0 <= i < swept.len() && claims(old(self).codec_view(), swept[i], slug@) && r == Some(
                        swept[i].id,
                    ) && final(self).contents() == swept.remove(i)
            }),
    {
        let found = self.find_by_slug(slug, now);
        match found {
            None => None,
            Some(i) => {
                let ghost before = self.pastes@;
                let p = self.pastes.remove(i);
                proof {
                    let ps = self.pastes@;
                    assert forall|a: int, b: int|
                        0 <= a < ps.len() && 0 <= b < ps.len() && a != b implies compatible(
                        self.codec,
                        #[trigger] ps[a],
                        #[trigger] ps[b],
                    ) by {
                        let a0 = if a < i { a } else { a + 1 };
                        let b0 = if b < i { b } else { b + 1 };
                        assert(ps[a] == before[a0] && ps[b] == before[b0]);
                    }
                    assert forall|a: int| 0 <= a < ps.len() implies (self.last_id matches Some(l)
                        && #[trigger] ps[a].id <= l) by {
                        let a0 = if a < i { a } else { a + 1 };
                        assert(ps[a] == before[a0]);
                    }
                }
                Some(p.id)
            },
        }
    }
}

/// `r` answers a lookup of `s` in `ps`: the paste whose custom URL is `s`,
/// else the paste whose derived slug is `s`, else nothing.
pub open spec fn resolves(c: Codec, ps: Seq<Paste>, s: Seq<char>, r: Option<usize>) -> bool {
    match r {
        Some(i) => i < ps.len() && (custom_of(ps[i as int]) == Some(s) || (!claims_custom(ps, s)
            && c.slug_of(ps[i as int].id as nat) == s)),
        None => !taken(c, ps, s),
    }
}

/// Some paste of `ps` answers to `s` by its custom URL.
pub open spec fn claims_custom(ps: Seq<Paste>, s: Seq<char>) -> bool {
    exists|i: int| 0 <= i < ps.len() && custom_of(#[trigger] ps[i]) == Some(s)
}

/// What survives a sweep is a part of what was there.
pub proof fn lemma_live_within(ps: Seq<Paste>, now: u64)
    ensures
        forall|i: int| 0 <= i < live(ps, now).len() ==> exists|k: int| 0 <= k < ps.len() && #[trigger] live(ps, now)[i] == ps[k],
        forall|i: int| 0 <= i < live(ps, now).len() ==> !expired(#[trigger] live(ps, now)[i], now),
    decreases ps.len(),
{
    if ps.len() > 0 {
        let init = ps.drop_last();
        lemma_live_within(init, now);
        assert forall|i: int| 0 <= i < live(ps, now).len() implies exists|k: int|
            0 <= k < ps.len() && #[trigger] live(ps, now)[i] == ps[k] by {
            if i < live(init, now).len() {
                let k = choose|k: int| 0 <= k < init.len() && live(init, now)[i] == init[k];
                assert(live(ps, now)[i] == ps[k]);
            } else {
                assert(live(ps, now)[i] == ps[ps.len() - 1]);
            }
        }
    }
}

/// A sweep keeps the registry's invariant.
proof fn lemma_live_consistent(c: Codec, ps: Seq<Paste>, last: Option<u64>, now: u64)
    requires
        consistent(c, ps, last),
    ensures
        consistent(c, live(ps, now), last),
    decreases ps.len(),
{
    if ps.len() > 0 {
        let init = ps.drop_last();
        assert(consistent(c, init, last)) by {
            assert forall|i: int, j: int|
                0 <= i < init.len() && 0 <= j < init.len() && i != j implies compatible(
                c,
                #[trigger] init[i],
                #[trigger] init[j],
            ) by {
                assert(init[i] == ps[i] && init[j] == ps[j]);
            }
            assert forall|i: int| 0 <= i < init.len() implies (last matches Some(l) && #[trigger] init[i].id <= l) by {
                assert(init[i] == ps[i]);
            }
        }
        lemma_live_consistent(c, init, last, now);
        lemma_live_within(init, now);
        let li = live(init, now);
        let x = ps.last();
        if !expired(x, now) {
            let l2 = li.push(x);
            assert forall|i: int, j: int|
                0 <= i < l2.len() && 0 <= j < l2.len() && i != j implies compatible(
                c,
                #[trigger] l2[i],
                #[trigger] l2[j],
            ) by {
                if i == li.len() {
                    let k = choose|k: int| 0 <= k < init.len() && li[j] == init[k];
                    assert(l2[j] == ps[k]);
                } else if j == li.len() {
                    let k = choose|k: int| 0 <= k < init.len() && li[i] == init[k];
                    assert(l2[i] == ps[k]);
                } else {
                    assert(l2[i] == li[i] && l2[j] == li[j]);
                }
            }
            assert forall|i: int| 0 <= i < l2.len() implies (last matches Some(l) && #[trigger] l2[i].id <= l) by {
                if i < li.len() {
                    assert(l2[i] == li[i]);
                } else {
                    assert(l2[i] == ps[ps.len() - 1]);
                }
            }
        }
    }
}

/// A sweep leaves no paste that is expired at that instant, so no lookup
/// after it can return one.
pub proof fn law_sweep_leaves_no_expired(ps: Seq<Paste>, now: u64)
    ensures
        forall|i: int| 0 <= i < live(ps, now).len() ==> !expired(#[trigger] live(ps, now)[i], now),
{
    lemma_live_within(ps, now);
}

/// A paste without an expiration survives every sweep.
pub proof fn law_unexpiring_kept(ps: Seq<Paste>, now: u64, k: int)
    requires
        0 <= k < ps.len(),
        ps[k].expiration is None,
    ensures
        live(ps, now).contains(ps[k]),
    decreases ps.len(),
{
    let init = ps.drop_last();
    if k == ps.len() - 1 {
        assert(live(ps, now) == live(init, now).push(ps[k]));
        assert(live(ps, now)[live(init, now).len() as int] == ps[k]);
    } else {
        law_unexpiring_kept(init, now, k);
        assert(init[k] == ps[k]);
        let j = choose|j: int| 0 <= j < live(init, now).len() && live(init, now)[j] == ps[k];
        assert(live(ps, now)[j] == ps[k]);
    }
}

/// Once a paste holding custom URL `u` is in the registry, a second paste
/// asking for the same `u` is refused while the first is not expired.
pub proof fn law_custom_url_claimed_once(c: Codec, ps: Seq<Paste>, first: Paste, second: Paste, now: u64)
    requires
        custom_of(first) is Some,
        custom_of(second) == custom_of(first),
        !expired(first, now),
    ensures
        !slugs_free(c, live(ps.push(first), now), second),
{
    let l = live(ps.push(first), now);
    assert(ps.push(first).drop_last() =~= ps);
    assert(l == live(ps, now).push(first));
    let k = live(ps, now).len() as int;
    assert(l[k] == first);
    assert(claims(c, l[k], custom_of(second)->0));
}

/// Sweeping contents that hold no expired paste changes nothing.
pub proof fn lemma_live_all(ps: Seq<Paste>, now: u64)
    requires
        forall|i: int| 0 <= i < ps.len() ==> !expired(#[trigger] ps[i], now),
    ensures
        live(ps, now) == ps,
    decreases ps.len(),
{
    if ps.len() > 0 {
        let init = ps.drop_last();
        assert forall|i: int| 0 <= i < init.len() implies !expired(#[trigger] init[i], now) by {
            assert(init[i] == ps[i]);
        }
        lemma_live_all(init, now);
        assert(!expired(ps[ps.len() - 1], now));
        assert(init.push(ps.last()) =~= ps);
    }
}

/// In consistent contents at most one paste answers to a slug.
pub proof fn lemma_single_claimant(c: Codec, ps: Seq<Paste>, last: Option<u64>, s: Seq<char>, i: int, j: int)
    requires
        c.wf(),
        consistent(c, ps, last),
        0 <= i < ps.len(),
        0 <= j < ps.len(),
        claims(c, ps[i], s),
        claims(c, ps[j], s),
    ensures
        i == j,
{
    if i != j {
        assert(compatible(c, ps[i], ps[j]));
        assert(compatible(c, ps[j], ps[i]));
        if custom_of(ps[i]) != Some(s) && custom_of(ps[j]) != Some(s) {
            crate::codec::lemma_slug_injective(&c, ps[i].id as nat, ps[j].id as nat);
        }
    }
}

/// Removing a slug twice in a row at one instant: the second removal finds
/// nothing and leaves the contents as the first one left them.
pub proof fn law_remove_idempotent(reg: Registry, s: Seq<char>, now: u64)
    requires
        reg.wf(),
    ensures
        ({
            let c = reg.codec_view();
            let swept = live(reg.contents(), now);
            &&& forall|i: int|
                0 <= i < swept.len() && claims(c, #[trigger] swept[i], s) ==> !taken(c, swept.remove(i), s)
                    && live(swept.remove(i), now) == swept.remove(i)
            &&& !taken(c, swept, s) ==> live(swept, now) == swept
        }),
{
    let c = reg.codec_view();
    let ps = reg.contents();
    let last = reg.last_issued();
    let swept = live(ps, now);
    lemma_live_consistent(c, ps, last, now);
    law_sweep_leaves_no_expired(ps, now);
    lemma_live_all(swept, now);
    assert forall|i: int|
        0 <= i < swept.len() && claims(c, #[trigger] swept[i], s) implies !taken(c, swept.remove(i), s)
        && live(swept.remove(i), now) == swept.remove(i) by {
        let rest = swept.remove(i);
        if taken(c, rest, s) {
            let k = choose|k: int| 0 <= k < rest.len() && claims(c, #[trigger] rest[k], s);
            let k0 = if k < i { k } else { k + 1 };
            assert(rest[k] == swept[k0]);
            lemma_single_claimant(c, swept, last, s, i, k0);
        }
        assert forall|q: int| 0 <= q < rest.len() implies !expired(#[trigger] rest[q], now) by {
            let q0 = if q < i { q } else { q + 1 };
            assert(rest[q] == swept[q0]);
        }
        lemma_live_all(rest, now);
    }
}

} // verus!
