//! Total orders on sort keys and a verified stable sort.
//!
//! Every ordered listing of the dashboard (job and routine tables, the
//! reliability ranking, the palette ranking, the attention and upcoming-run
//! panels) sorts by a composite key, breaking remaining ties by input order.
//! Keys implement [`TotalOrder`]; [`stable_sort`] permutes a vector of items
//! together with their keys.

use vstd::prelude::*;
use crate::text::{chars_of, list_has, same_text};

verus! {

/// A total preorder with an executable comparison.
pub trait TotalOrder: Sized {
    /// `self` sorts no later than `other`.
    spec fn key_le(self, other: Self) -> bool;

    proof fn lemma_refl(x: Self)
        ensures
            x.key_le(x),
    ;

    proof fn lemma_trans(x: Self, y: Self, z: Self)
        requires
            x.key_le(y),
            y.key_le(z),
        ensures
            x.key_le(z),
    ;

    proof fn lemma_total(x: Self, y: Self)
        ensures
            x.key_le(y) || y.key_le(x),
    ;

    /// Executable form of [`TotalOrder::key_le`].
    fn key_leq(&self, other: &Self) -> (r: bool)
        ensures
            r == self.key_le(*other),
    ;
}

/// Input positions `x` before `y` are correctly ordered: `x`'s key sorts no later than
/// `y`'s, and if the keys tie, `x` came first in the input.
pub open spec fn sorted_pair<K: TotalOrder>(keys: Seq<K>, x: int, y: int) -> bool {
    keys[x].key_le(keys[y]) && (keys[y].key_le(keys[x]) ==> x < y)
}

/// `perm` is a permutation of `0..n`.
pub open spec fn is_perm(perm: Seq<int>, n: int) -> bool {
    &&& perm.len() == n
    &&& forall|k: int| 0 <= k < n ==> 0 <= #[trigger] perm[k] < n
    &&& forall|a: int, b: int| 0 <= a < b < n ==> perm[a] != perm[b]
}

/// `out` lists the elements of `inp` in the order that `perm` gives.
pub open spec fn permuted<T>(out: Seq<T>, inp: Seq<T>, perm: Seq<int>) -> bool {
    &&& out.len() == perm.len()
    &&& forall|k: int| 0 <= k < perm.len() ==> #[trigger] out[k] == inp[perm[k]]
}

/// `perm` orders the positions of `keys` by key, ties kept in input order.
pub open spec fn stably_sorted<K: TotalOrder>(keys: Seq<K>, perm: Seq<int>) -> bool {
    forall|a: int, b: int| 0 <= a < b < perm.len() ==> sorted_pair(keys, #[trigger] perm[a], #[trigger] perm[b])
}

/// `out` is `inp` stably sorted by `keys` (the key of `inp[i]` is `keys[i]`).
pub open spec fn is_stable_sort<T, K: TotalOrder>(out: Seq<T>, inp: Seq<T>, keys: Seq<K>) -> bool {
    &&& keys.len() == inp.len()
    &&& exists|perm: Seq<int>|
        #![trigger is_perm(perm, inp.len() as int)]
        {
            &&& is_perm(perm, inp.len() as int)
            &&& permuted(out, inp, perm)
            &&& stably_sorted(keys, perm)
        }
}

/// `out` is `inp` stably sorted under the total preorder `le`: ordered by `le`, with
/// items that `le` ties kept in their input order.
pub open spec fn is_stable_sort_by<V>(out: Seq<V>, inp: Seq<V>, le: spec_fn(V, V) -> bool) -> bool {
    exists|perm: Seq<int>|
        #![trigger is_perm(perm, inp.len() as int)]
        {
            &&& is_perm(perm, inp.len() as int)
            &&& permuted(out, inp, perm)
            &&& forall|a: int, b: int|
                0 <= a < b < perm.len() ==> le(inp[#[trigger] perm[a]], inp[#[trigger] perm[b]])
                    && (le(inp[perm[b]], inp[perm[a]]) ==> perm[a] < perm[b])
        }
}

/// A stable sort by keys that order as `le` orders the items' views is a stable sort
/// of the views under `le`.
pub proof fn lemma_sorted_views<T: View, K: TotalOrder>(
    out: Seq<T>,
    inp: Seq<T>,
    keys: Seq<K>,
    perm: Seq<int>,
    le: spec_fn(T::V, T::V) -> bool,
)
    requires
        keys.len() == inp.len(),
        is_perm(perm, inp.len() as int),
        permuted(out, inp, perm),
        stably_sorted(keys, perm),
        forall|i: int, j: int|
            0 <= i < inp.len() && 0 <= j < inp.len() ==> (#[trigger] keys[i]).key_le(#[trigger] keys[j])
                == le(inp[i]@, inp[j]@),
    ensures
        is_stable_sort_by(out.map_values(|x: T| x@), inp.map_values(|x: T| x@), le),
{
    let vo = out.map_values(|x: T| x@);
    let vi = inp.map_values(|x: T| x@);
    assert(permuted(vo, vi, perm));
    assert forall|a: int, b: int| 0 <= a < b < perm.len() implies le(vi[#[trigger] perm[a]], vi[#[trigger] perm[b]])
        && (le(vi[perm[b]], vi[perm[a]]) ==> perm[a] < perm[b]) by {
        assert(sorted_pair(keys, perm[a], perm[b]));
    }
    assert(is_perm(perm, vi.len() as int));
}

/// `out` is `inp` stably sorted under `le`, a total preorder on the positions of `inp`:
/// ordered by `le`, positions that `le` ties kept in input order.
pub open spec fn is_stable_sort_at<V>(out: Seq<V>, inp: Seq<V>, le: spec_fn(int, int) -> bool) -> bool {
    exists|perm: Seq<int>|
        #![trigger is_perm(perm, inp.len() as int)]
        {
            &&& is_perm(perm, inp.len() as int)
            &&& permuted(out, inp, perm)
            &&& forall|a: int, b: int|
                0 <= a < b < perm.len() ==> le(#[trigger] perm[a], #[trigger] perm[b]) && (le(perm[b], perm[a])
                    ==> perm[a] < perm[b])
        }
}

/// A stable sort by keys that order as `le` orders positions is a stable sort of the
/// items' views under `le`.
pub proof fn lemma_sorted_at<T: View, K: TotalOrder>(
    out: Seq<T>,
    inp: Seq<T>,
    keys: Seq<K>,
    perm: Seq<int>,
    le: spec_fn(int, int) -> bool,
)
    requires
        keys.len() == inp.len(),
        is_perm(perm, inp.len() as int),
        permuted(out, inp, perm),
        stably_sorted(keys, perm),
        forall|i: int, j: int|
            0 <= i < inp.len() && 0 <= j < inp.len() ==> (#[trigger] keys[i]).key_le(#[trigger] keys[j]) == le(i, j),
    ensures
        is_stable_sort_at(out.map_values(|x: T| x@), inp.map_values(|x: T| x@), le),
{
    let vo = out.map_values(|x: T| x@);
    let vi = inp.map_values(|x: T| x@);
    assert(permuted(vo, vi, perm));
    assert forall|a: int, b: int| 0 <= a < b < perm.len() implies le(#[trigger] perm[a], #[trigger] perm[b]) && (le(
        perm[b],
        perm[a],
    ) ==> perm[a] < perm[b]) by {
        assert(sorted_pair(keys, perm[a], perm[b]));
    }
    assert(is_perm(perm, vi.len() as int));
}

/// Sorts `items` by `keys` (the key of `items[i]` is `keys[i]`), keeping tied items in
/// their input order; `keys` is permuted alongside. Returns the permutation applied.
pub fn stable_sort<T, K: TotalOrder>(items: &mut Vec<T>, keys: &mut Vec<K>) -> (perm: Ghost<Seq<int>>)
    requires
        old(items)@.len() == old(keys)@.len(),
    ensures
        is_perm(perm@, old(items)@.len() as int),
        permuted(final(items)@, old(items)@, perm@),
        permuted(final(keys)@, old(keys)@, perm@),
        stably_sorted(old(keys)@, perm@),
        is_stable_sort(final(items)@, old(items)@, old(keys)@),
{
    let ghost it0 = items@;
    let ghost ks0 = keys@;
    let n = items.len();
    let ghost mut p: Seq<int> = Seq::new(n as nat, |k: int| k);
    let mut i: usize = 0;
    while i < n
        invariant
            n == it0.len(),
            n == ks0.len(),
            i <= n,
            items@.len() == n,
            keys@.len() == n,
            is_perm(p, n as int),
            permuted(items@, it0, p),
            permuted(keys@, ks0, p),
            forall|k: int| i <= k < n ==> #[trigger] p[k] == k,
            forall|k: int| 0 <= k < i ==> #[trigger] p[k] < i,
            forall|a: int, b: int| 0 <= a < b < i ==> sorted_pair(ks0, #[trigger] p[a], #[trigger] p[b]),
        decreases n - i,
    {
        let mut j = i;
        while j > 0 && !keys[j - 1].key_leq(&keys[i])
            invariant
                j <= i < n,
                keys@.len() == n,
                forall|k: int| j <= k < i ==> !(#[trigger] keys@[k]).key_le(keys@[i as int]),
            decreases j,
        {
            j = j - 1;
        }
        let ghost old_p = p;
        let ghost old_keys = keys@;
        let x = items.remove(i);
        items.insert(j, x);
        let kx = keys.remove(i);
        keys.insert(j, kx);
        proof {
            let ii = i as int;
            let jj = j as int;
            p = old_p.remove(ii).insert(jj, ii);
            assert forall|k: int| 0 <= k < n implies #[trigger] p[k] == (if k < jj {
                old_p[k]
            } else if k == jj {
                ii
            } else if k <= ii {
                old_p[k - 1]
            } else {
                old_p[k]
            }) by {}
            assert(old_p[ii] == ii);
            // keys at the scanned range are strictly above the inserted key
            assert forall|k: int| jj <= k < ii implies ks0[ii].key_le(ks0[#[trigger] old_p[k]])
                && !ks0[old_p[k]].key_le(ks0[ii]) by {
                assert(old_keys[k] == ks0[old_p[k]]);
                assert(old_keys[ii] == ks0[old_p[ii]]);
                K::lemma_total(ks0[ii], ks0[old_p[k]]);
            }
            // keys before the insertion point are no later than the inserted key
            if jj > 0 {
                assert(old_keys[jj - 1] == ks0[old_p[jj - 1]]);
                assert(old_keys[ii] == ks0[old_p[ii]]);
                assert(old_keys[jj - 1].key_le(old_keys[ii]));
                assert forall|k: int| 0 <= k < jj implies ks0[#[trigger] old_p[k]].key_le(ks0[ii]) by {
                    if k < jj - 1 {
                        assert(sorted_pair(ks0, old_p[k], old_p[jj - 1]));
                        K::lemma_trans(ks0[old_p[k]], ks0[old_p[jj - 1]], ks0[ii]);
                    }
                }
            }
            assert forall|a: int, b: int| 0 <= a < b < n implies p[a] != p[b] by {
                assert(old_p[a] != old_p[b] || a == b);
                if a < jj && b > ii {
                } else if a == jj && b <= ii {
                    assert(old_p[b - 1] < ii);
                } else if a == jj && b > ii {
                    assert(old_p[b] == b);
                } else if a < jj && b == jj {
                    assert(old_p[a] < ii);
                } else if a < jj && jj < b && b <= ii {
                    assert(old_p[a] != old_p[b - 1]);
                } else if jj < a && a <= ii && jj < b && b <= ii {
                    assert(old_p[a - 1] != old_p[b - 1]);
                } else if jj < a && a <= ii && b > ii {
                    assert(old_p[a - 1] != old_p[b]);
                }
            }
            assert forall|k: int| 0 <= k < n implies 0 <= #[trigger] p[k] < n by {}
            assert forall|k: int| 0 <= k < n implies #[trigger] items@[k] == it0[p[k]] by {}
            assert forall|k: int| 0 <= k < n implies #[trigger] keys@[k] == ks0[p[k]] by {}
            assert forall|a: int, b: int| 0 <= a < b < ii + 1 implies sorted_pair(ks0, #[trigger] p[a], #[trigger] p[b]) by {
                if b < jj {
                    assert(sorted_pair(ks0, old_p[a], old_p[b]));
                } else if b == jj {
                    assert(ks0[old_p[a]].key_le(ks0[ii]));
                    assert(old_p[a] < ii);
                } else if a < jj {
                    assert(sorted_pair(ks0, old_p[a], old_p[b - 1]));
                } else if a == jj {
                    assert(ks0[ii].key_le(ks0[old_p[b - 1]]));
                    assert(!ks0[old_p[b - 1]].key_le(ks0[ii]));
                } else {
                    assert(sorted_pair(ks0, old_p[a - 1], old_p[b - 1]));
                }
            }
        }
        i = i + 1;
    }
    proof {
        assert(is_perm(p, it0.len() as int));
        assert(stably_sorted(ks0, p));
    }
    Ghost(p)
}

// ─── Key types ──────────────────────────────────────────────────────────────

impl TotalOrder for u64 {
    open spec fn key_le(self, other: Self) -> bool {
        self <= other
    }

    proof fn lemma_refl(x: Self) {
    }

    proof fn lemma_trans(x: Self, y: Self, z: Self) {
    }

    proof fn lemma_total(x: Self, y: Self) {
    }

    fn key_leq(&self, other: &Self) -> (r: bool) {
        *self <= *other
    }
}

impl TotalOrder for i64 {
    open spec fn key_le(self, other: Self) -> bool {
        self <= other
    }

    proof fn lemma_refl(x: Self) {
    }

    proof fn lemma_trans(x: Self, y: Self, z: Self) {
    }

    proof fn lemma_total(x: Self, y: Self) {
    }

    fn key_leq(&self, other: &Self) -> (r: bool) {
        *self <= *other
    }
}

impl TotalOrder for bool {
    /// `false` sorts before `true`, as `bool`'s `Ord` has it.
    open spec fn key_le(self, other: Self) -> bool {
        !self || other
    }

    proof fn lemma_refl(x: Self) {
    }

    proof fn lemma_trans(x: Self, y: Self, z: Self) {
    }

    proof fn lemma_total(x: Self, y: Self) {
    }

    fn key_leq(&self, other: &Self) -> (r: bool) {
        !*self || *other
    }
}

/// Lexicographic order of character sequences by code point, a proper prefix first.
/// On strings this is `String`'s `Ord` (UTF-8 byte order follows code point order).
pub open spec fn text_le(a: Seq<char>, b: Seq<char>) -> bool
    decreases a.len(),
{
    if a.len() == 0 {
        true
    } else if b.len() == 0 {
        false
    } else if a[0] < b[0] {
        true
    } else if a[0] > b[0] {
        false
    } else {
        text_le(a.drop_first(), b.drop_first())
    }
}

/// [`text_le`] is reflexive.
pub proof fn lemma_text_refl(a: Seq<char>)
    ensures
        text_le(a, a),
    decreases a.len(),
{
    if a.len() > 0 {
        lemma_text_refl(a.drop_first());
    }
}

/// [`text_le`] is transitive.
pub proof fn lemma_text_trans(a: Seq<char>, b: Seq<char>, c: Seq<char>)
    requires
        text_le(a, b),
        text_le(b, c),
    ensures
        text_le(a, c),
    decreases a.len(),
{
    if a.len() > 0 && b.len() > 0 && c.len() > 0 {
        if a[0] == b[0] && b[0] == c[0] {
            lemma_text_trans(a.drop_first(), b.drop_first(), c.drop_first());
        }
    }
}

/// Any two sequences are ordered one way or the other by [`text_le`].
pub proof fn lemma_text_total(a: Seq<char>, b: Seq<char>)
    ensures
        text_le(a, b) || text_le(b, a),
    decreases a.len(),
{
    if a.len() > 0 && b.len() > 0 && a[0] == b[0] {
        lemma_text_total(a.drop_first(), b.drop_first());
    }
}

/// Mutually `text_le` sequences are equal.
pub proof fn lemma_text_antisym(a: Seq<char>, b: Seq<char>)
    requires
        text_le(a, b),
        text_le(b, a),
    ensures
        a == b,
    decreases a.len(),
{
    if a.len() > 0 && b.len() > 0 {
        lemma_text_antisym(a.drop_first(), b.drop_first());
        assert(a[0] == b[0]);
        assert(a =~= seq![a[0]] + a.drop_first());
        assert(b =~= seq![b[0]] + b.drop_first());
    } else {
        assert(a =~= b);
    }
}

/// Executable [`text_le`].
pub fn text_leq(a: &[char], b: &[char]) -> (r: bool)
    ensures
        r == text_le(a@, b@),
{
    let mut i: usize = 0;
    proof {
        assert(a@.skip(0) =~= a@);
        assert(b@.skip(0) =~= b@);
    }
    while i < a.len() && i < b.len()
        invariant
            i <= a@.len(),
            i <= b@.len(),
            forall|k: int| 0 <= k < i ==> a@[k] == b@[k],
            text_le(a@, b@) == text_le(a@.skip(i as int), b@.skip(i as int)),
        decreases a@.len() - i,
    {
        let x = a[i];
        let y = b[i];
        proof {
            assert(a@.skip(i as int)[0] == a@[i as int]);
            assert(b@.skip(i as int)[0] == b@[i as int]);
        }
        if x < y {
            return true;
        }
        if x > y {
            return false;
        }
        proof {
            assert(a@.skip(i as int).drop_first() =~= a@.skip(i + 1));
            assert(b@.skip(i as int).drop_first() =~= b@.skip(i + 1));
            assert(a@[i as int] == b@[i as int]);
        }
        i = i + 1;
    }
    i == a.len()
}

/// A text key, ordered by [`text_le`].
pub struct Text {
    pub chars: Vec<char>,
}

impl TotalOrder for Text {
    open spec fn key_le(self, other: Self) -> bool {
        text_le(self.chars@, other.chars@)
    }

    proof fn lemma_refl(x: Self) {
        lemma_text_refl(x.chars@);
    }

    proof fn lemma_trans(x: Self, y: Self, z: Self) {
        lemma_text_trans(x.chars@, y.chars@, z.chars@);
    }

    proof fn lemma_total(x: Self, y: Self) {
        lemma_text_total(x.chars@, y.chars@);
    }

    fn key_leq(&self, other: &Self) -> (r: bool) {
        text_leq(self.chars.as_slice(), other.chars.as_slice())
    }
}

/// The reverse of `K`'s order.
pub struct Rev<K> {
    pub inner: K,
}

impl<K: TotalOrder> TotalOrder for Rev<K> {
    open spec fn key_le(self, other: Self) -> bool {
        other.inner.key_le(self.inner)
    }

    proof fn lemma_refl(x: Self) {
        K::lemma_refl(x.inner);
    }

    proof fn lemma_trans(x: Self, y: Self, z: Self) {
        K::lemma_trans(z.inner, y.inner, x.inner);
    }

    proof fn lemma_total(x: Self, y: Self) {
        K::lemma_total(x.inner, y.inner);
    }

    fn key_leq(&self, other: &Self) -> (r: bool) {
        other.inner.key_leq(&self.inner)
    }
}

/// `first`, then `second` where the firsts tie.
pub struct Pair<A, B> {
    pub first: A,
    pub second: B,
}

impl<A: TotalOrder, B: TotalOrder> TotalOrder for Pair<A, B> {
    open spec fn key_le(self, other: Self) -> bool {
        ||| self.first.key_le(other.first) && !other.first.key_le(self.first)
        ||| self.first.key_le(other.first) && other.first.key_le(self.first) && self.second.key_le(other.second)
    }

    proof fn lemma_refl(x: Self) {
        A::lemma_refl(x.first);
        B::lemma_refl(x.second);
    }

    proof fn lemma_trans(x: Self, y: Self, z: Self) {
        A::lemma_trans(x.first, y.first, z.first);
        if z.first.key_le(x.first) {
            A::lemma_trans(z.first, x.first, y.first);
            A::lemma_trans(y.first, z.first, x.first);
        }
        if x.first.key_le(y.first) && y.first.key_le(x.first) && y.first.key_le(z.first) && z.first.key_le(y.first) {
            B::lemma_trans(x.second, y.second, z.second);
        }
    }

    proof fn lemma_total(x: Self, y: Self) {
        A::lemma_total(x.first, y.first);
        B::lemma_total(x.second, y.second);
    }

    fn key_leq(&self, other: &Self) -> (r: bool) {
        let ab = self.first.key_leq(&other.first);
        let ba = other.first.key_leq(&self.first);
        if ab && !ba {
            true
        } else if ab && ba {
            self.second.key_leq(&other.second)
        } else {
            false
        }
    }
}

/// An optional instant where every present instant sorts before an absent one.
pub struct SoonestFirst {
    pub at: Option<i64>,
}

impl TotalOrder for SoonestFirst {
    open spec fn key_le(self, other: Self) -> bool {
        match (self.at, other.at) {
            (Some(a), Some(b)) => a <= b,
            (Some(_), None) => true,
            (None, Some(_)) => false,
            (None, None) => true,
        }
    }

    proof fn lemma_refl(x: Self) {
    }

    proof fn lemma_trans(x: Self, y: Self, z: Self) {
    }

    proof fn lemma_total(x: Self, y: Self) {
    }

    fn key_leq(&self, other: &Self) -> (r: bool) {
        match (self.at, other.at) {
            (Some(a), Some(b)) => a <= b,
            (Some(_), None) => true,
            (None, Some(_)) => false,
            (None, None) => true,
        }
    }
}

/// A column value of a table row: the variants sort in declaration order, values of one
/// variant by their own order.
pub enum ColKey {
    Text(Vec<char>),
    Soonest(Option<i64>),
    Flag(bool),
    Number(u64),
    /// An optional timestamp, absent first.
    Stamp(Option<u64>),
}

/// The position of a key's variant in [`ColKey`]'s declaration.
pub open spec fn col_rank(k: ColKey) -> int {
    match k {
        ColKey::Text(_) => 0,
        ColKey::Soonest(_) => 1,
        ColKey::Flag(_) => 2,
        ColKey::Number(_) => 3,
        ColKey::Stamp(_) => 4,
    }
}

/// Optional timestamps ascending, an absent one first.
pub open spec fn stamp_le(a: Option<u64>, b: Option<u64>) -> bool {
    match (a, b) {
        (Some(x), Some(y)) => x <= y,
        (Some(_), None) => false,
        (None, _) => true,
    }
}

impl TotalOrder for ColKey {
    open spec fn key_le(self, other: Self) -> bool {
        match (self, other) {
            (ColKey::Text(a), ColKey::Text(b)) => text_le(a@, b@),
            (ColKey::Soonest(a), ColKey::Soonest(b)) => (SoonestFirst { at: a }).key_le(SoonestFirst { at: b }),
            (ColKey::Flag(a), ColKey::Flag(b)) => !a || b,
            (ColKey::Number(a), ColKey::Number(b)) => a <= b,
            (ColKey::Stamp(a), ColKey::Stamp(b)) => stamp_le(a, b),
            _ => col_rank(self) <= col_rank(other),
        }
    }

    proof fn lemma_refl(x: Self) {
        if let ColKey::Text(a) = x {
            lemma_text_refl(a@);
        }
    }

    proof fn lemma_trans(x: Self, y: Self, z: Self) {
        match (x, y, z) {
            (ColKey::Text(a), ColKey::Text(b), ColKey::Text(c)) => lemma_text_trans(a@, b@, c@),
            _ => {},
        }
    }

    proof fn lemma_total(x: Self, y: Self) {
        match (x, y) {
            (ColKey::Text(a), ColKey::Text(b)) => lemma_text_total(a@, b@),
            _ => {},
        }
    }

    fn key_leq(&self, other: &Self) -> (r: bool) {
        match (self, other) {
            (ColKey::Text(a), ColKey::Text(b)) => text_leq(a.as_slice(), b.as_slice()),
            (ColKey::Soonest(a), ColKey::Soonest(b)) => (SoonestFirst { at: *a }).key_leq(&SoonestFirst { at: *b }),
            (ColKey::Flag(a), ColKey::Flag(b)) => !*a || *b,
            (ColKey::Number(a), ColKey::Number(b)) => *a <= *b,
            (ColKey::Stamp(a), ColKey::Stamp(b)) => match (a, b) {
                (Some(x), Some(y)) => *x <= *y,
                (Some(_), None) => false,
                (None, _) => true,
            },
            _ => {
                let ra: u8 = match self {
                    ColKey::Text(_) => 0,
                    ColKey::Soonest(_) => 1,
                    ColKey::Flag(_) => 2,
                    ColKey::Number(_) => 3,
                    ColKey::Stamp(_) => 4,
                };
                let rb: u8 = match other {
                    ColKey::Text(_) => 0,
                    ColKey::Soonest(_) => 1,
                    ColKey::Flag(_) => 2,
                    ColKey::Number(_) => 3,
                    ColKey::Stamp(_) => 4,
                };
                ra <= rb
            },
        }
    }
}

// ─── Sorted sets of strings ─────────────────────────────────────────────────

/// `v` is strictly increasing in text order: sorted, without duplicates.
pub open spec fn strictly_sorted(v: Seq<Seq<char>>) -> bool {
    forall|i: int, j: int| 0 <= i < j < v.len() ==> text_le(#[trigger] v[i], #[trigger] v[j]) && v[i] != v[j]
}

/// Where `s` stands in the sorted set `set`: whether it is there, and the position it
/// occupies or would be inserted at to keep `set` strictly sorted.
pub fn search_sorted(set: &Vec<String>, s: &str) -> (r: (usize, bool))
    requires
        strictly_sorted(set.deep_view()),
    ensures
        r.0 <= set@.len(),
        r.1 == set.deep_view().contains(s@),
        r.1 ==> r.0 < set@.len() && set.deep_view()[r.0 as int] == s@,
        !r.1 ==> strictly_sorted(set.deep_view().insert(r.0 as int, s@)),
{
    let ghost v0 = set.deep_view();
    let key = chars_of(s);
    let mut p: usize = 0;
    while p < set.len() && !text_leq(key.as_slice(), chars_of(set[p].as_str()).as_slice())
        invariant
            p <= set@.len(),
            set.deep_view() == v0,
            key@ == s@,
            forall|k: int| 0 <= k < p ==> !text_le(s@, #[trigger] v0[k]),
        decreases set@.len() - p,
    {
        p = p + 1;
    }
    if p < set.len() && same_text(set[p].as_str(), s) {
        proof {
            assert(v0[p as int] == s@);
        }
        return (p, true);
    }
    proof {
        if p < v0.len() {
            assert(text_le(s@, v0[p as int]));
            assert(v0[p as int] != s@);
        }
        assert forall|k: int| 0 <= k < v0.len() implies #[trigger] v0[k] != s@ by {
            if k < p {
                lemma_text_refl(s@);
            } else if k > p {
                assert(text_le(v0[p as int], v0[k]) && v0[p as int] != v0[k]);
                if v0[k] == s@ {
                    lemma_text_antisym(v0[p as int], v0[k]);
                }
            }
        }
        let v1 = v0.insert(p as int, s@);
        assert forall|i: int, j: int| 0 <= i < j < v1.len() implies text_le(#[trigger] v1[i], #[trigger] v1[j]) && v1[i]
            != v1[j] by {
            if i < p && j == p {
                lemma_text_total(s@, v0[i]);
            } else if i < p && j > p {
                assert(text_le(v0[i], v0[j - 1]) && v0[i] != v0[j - 1]);
            } else if i == p {
                assert(v0[j - 1] != s@);
                if j - 1 > p {
                    assert(text_le(v0[p as int], v0[j - 1]) && v0[p as int] != v0[j - 1]);
                    lemma_text_trans(s@, v0[p as int], v0[j - 1]);
                }
            } else if i > p {
                assert(text_le(v0[i - 1], v0[j - 1]) && v0[i - 1] != v0[j - 1]);
            }
        }
    }
    (p, false)
}

/// Adds `s` to the sorted set `set`.
pub fn insert_sorted(set: &mut Vec<String>, s: &String)
    requires
        strictly_sorted(old(set).deep_view()),
    ensures
        strictly_sorted(final(set).deep_view()),
        forall|x: Seq<char>| #[trigger] final(set).deep_view().contains(x) <==> (old(set).deep_view().contains(x) || x == s@),
{
    let ghost v0 = set.deep_view();
    let (p, found) = search_sorted(set, s.as_str());
    if found {
        return;
    }
    set.insert(p, s.clone());
    proof {
        let v1 = set.deep_view();
        assert(v1 =~= v0.insert(p as int, s@));
        assert forall|x: Seq<char>| #[trigger] v1.contains(x) <==> (v0.contains(x) || x == s@) by {
            if v0.contains(x) {
                let k = choose|k: int| 0 <= k < v0.len() && v0[k] == x;
                if k < p {
                    assert(v1[k] == x);
                } else {
                    assert(v1[k + 1] == x);
                }
            }
            if x == s@ {
                assert(v1[p as int] == x);
            }
            if v1.contains(x) {
                let k = choose|k: int| 0 <= k < v1.len() && v1[k] == x;
                if k < p {
                    assert(v0[k] == x);
                } else if k > p {
                    assert(v0[k - 1] == x);
                }
            }
        }
    }
}

/// Removes `s` from the sorted set `set`, if present.
pub fn remove_sorted(set: &mut Vec<String>, s: &String) -> (found: bool)
    requires
        strictly_sorted(old(set).deep_view()),
    ensures
        strictly_sorted(final(set).deep_view()),
        found == old(set).deep_view().contains(s@),
        forall|x: Seq<char>| #[trigger] final(set).deep_view().contains(x) <==> (old(set).deep_view().contains(x) && x != s@),
{
    let ghost v0 = set.deep_view();
    let mut p: usize = 0;
    while p < set.len() && !(set[p] == *s)
        invariant
            p <= set@.len(),
            set.deep_view() == v0,
            forall|k: int| 0 <= k < p ==> #[trigger] v0[k] != s@,
        decreases set@.len() - p,
    {
        p = p + 1;
    }
    if p == set.len() {
        proof {
            assert(!v0.contains(s@));
        }
        return false;
    }
    set.remove(p);
    proof {
        let v1 = set.deep_view();
        assert(v1 =~= v0.remove(p as int));
        assert(v0[p as int] == s@);
        assert forall|i: int, j: int| 0 <= i < j < v1.len() implies text_le(#[trigger] v1[i], #[trigger] v1[j]) && v1[i]
            != v1[j] by {
            let a = if i < p { i } else { i + 1 };
            let b = if j < p { j } else { j + 1 };
            assert(text_le(v0[a], v0[b]) && v0[a] != v0[b]);
        }
        assert forall|x: Seq<char>| #[trigger] v1.contains(x) <==> (v0.contains(x) && x != s@) by {
            if v0.contains(x) && x != s@ {
                let k = choose|k: int| 0 <= k < v0.len() && v0[k] == x;
                if k < p {
                    assert(v1[k] == x);
                } else {
                    assert(v1[k - 1] == x);
                }
            }
            if v1.contains(x) {
                let k = choose|k: int| 0 <= k < v1.len() && v1[k] == x;
                if k < p {
                    assert(v0[k] == x);
                } else {
                    assert(v0[k + 1] == x);
                    assert(v0[k + 1] != v0[p as int]);
                }
            }
        }
        assert(v0.contains(s@));
    }
    true
}

/// Keeps the members `x` of the sorted set `set` for which `among` holds `x` exactly
/// when `keep` is set.
pub fn retain_members(set: &mut Vec<String>, among: &Vec<String>, keep: bool)
    requires
        strictly_sorted(old(set).deep_view()),
    ensures
        strictly_sorted(final(set).deep_view()),
        forall|x: Seq<char>|
            #[trigger] final(set).deep_view().contains(x) <==> (old(set).deep_view().contains(x) && among.deep_view().contains(x)
                == keep),
{
    let ghost v0 = set.deep_view();
    let mut out: Vec<String> = Vec::new();
    let mut i: usize = 0;
    while i < set.len()
        invariant
            i <= set@.len(),
            set.deep_view() == v0,
            strictly_sorted(v0),
            strictly_sorted(out.deep_view()),
            forall|k: int| 0 <= k < out@.len() ==> exists|m: int| 0 <= m < i && #[trigger] v0[m] == out.deep_view()[k]
                && #[trigger] out.deep_view()[k] == v0[m],
            forall|k: int| 0 <= k < out@.len() ==> among.deep_view().contains(#[trigger] out.deep_view()[k]) == keep,
            forall|m: int| 0 <= m < i && among.deep_view().contains(#[trigger] v0[m]) == keep ==> out.deep_view().contains(v0[m]),
            out@.len() > 0 ==> exists|m: int| 0 <= m < i && v0[m] == out.deep_view().last(),
        decreases set@.len() - i,
    {
        let ghost o0 = out.deep_view();
        if list_has(among, set[i].as_str()) == keep {
            out.push(set[i].clone());
            proof {
                let o1 = out.deep_view();
                assert(o1 =~= o0.push(v0[i as int]));
                assert forall|a: int, b: int| 0 <= a < b < o1.len() implies text_le(#[trigger] o1[a], #[trigger] o1[b])
                    && o1[a] != o1[b] by {
                    if b == o1.len() - 1 && a < b {
                        let ml = choose|m: int| 0 <= m < i && v0[m] == o0.last();
                        if a < o0.len() - 1 {
                            assert(text_le(o0[a], o0[o0.len() - 1]));
                        } else {
                            lemma_text_refl(o0[a]);
                        }
                        assert(text_le(v0[ml], v0[i as int]) && v0[ml] != v0[i as int]);
                        lemma_text_trans(o0[a], v0[ml], v0[i as int]);
                        if o0[a] == v0[i as int] {
                            lemma_text_antisym(v0[ml], v0[i as int]);
                        }
                    }
                }
                assert forall|k: int| 0 <= k < o1.len() implies exists|m: int| 0 <= m < i + 1 && #[trigger] v0[m] == o1[k]
                    && #[trigger] o1[k] == v0[m] by {
                    if k < o0.len() {
                        let m = choose|m: int| 0 <= m < i && #[trigger] v0[m] == o0[k] && #[trigger] o0[k] == v0[m];
                        assert(v0[m] == o1[k]);
                    } else {
                        assert(v0[i as int] == o1[k]);
                    }
                }
                assert forall|m: int| 0 <= m < i + 1 && among.deep_view().contains(#[trigger] v0[m]) == keep implies o1.contains(
                    v0[m],
                ) by {
                    if m < i {
                        let k = choose|k: int| 0 <= k < o0.len() && o0[k] == v0[m];
                        assert(o1[k] == v0[m]);
                    } else {
                        assert(o1[o0.len() as int] == v0[m]);
                    }
                }
                assert(v0[i as int] == o1.last());
            }
        }
        i = i + 1;
    }
    proof {
        let o = out.deep_view();
        assert forall|x: Seq<char>| #[trigger] o.contains(x) <==> (v0.contains(x) && among.deep_view().contains(x) == keep) by {
            if o.contains(x) {
                let k = choose|k: int| 0 <= k < o.len() && o[k] == x;
                let m = choose|m: int| 0 <= m < i && #[trigger] v0[m] == o[k] && #[trigger] o[k] == v0[m];
                assert(v0[m] == x);
            }
            if v0.contains(x) && among.deep_view().contains(x) == keep {
                let m = choose|m: int| 0 <= m < v0.len() && v0[m] == x;
                assert(o.contains(v0[m]));
            }
        }
    }
    *set = out;
}

/// The distinct strings of `items`, as a sorted set.
pub fn sorted_set_of(items: &Vec<String>) -> (r: Vec<String>)
    ensures
        strictly_sorted(r.deep_view()),
        forall|x: Seq<char>| #[trigger] r.deep_view().contains(x) <==> items.deep_view().contains(x),
{
    let mut out: Vec<String> = Vec::new();
    let mut i: usize = 0;
    while i < items.len()
        invariant
            i <= items@.len(),
            strictly_sorted(out.deep_view()),
            forall|x: Seq<char>| #[trigger] out.deep_view().contains(x) <==> items.deep_view().take(i as int).contains(x),
        decreases items@.len() - i,
    {
        insert_sorted(&mut out, &items[i]);
        proof {
            let t0 = items.deep_view().take(i as int);
            let t1 = items.deep_view().take(i + 1);
            assert(t1 =~= t0.push(items.deep_view()[i as int]));
            assert forall|x: Seq<char>| #[trigger] t1.contains(x) <==> (t0.contains(x) || x == items.deep_view()[i as int]) by {
                if t1.contains(x) {
                    let k = choose|k: int| 0 <= k < t1.len() && t1[k] == x;
                    if k < t0.len() {
                        assert(t0[k] == x);
                    }
                }
                if t0.contains(x) {
                    let k = choose|k: int| 0 <= k < t0.len() && t0[k] == x;
                    assert(t1[k] == x);
                }
                if x == items.deep_view()[i as int] {
                    assert(t1[i as int] == x);
                }
            }
        }
        i = i + 1;
    }
    proof {
        assert(items.deep_view().take(items@.len() as int) =~= items.deep_view());
    }
    out
}

/// A permutation of `0..n` that only increases puts `k` at position `k`: no smaller.
proof fn lemma_rising_perm_low(perm: Seq<int>, n: int, k: int)
    requires
        is_perm(perm, n),
        forall|a: int, b: int| 0 <= a < b < n ==> perm[a] < perm[b],
        0 <= k < n,
    ensures
        perm[k] >= k,
    decreases k,
{
    if k > 0 {
        lemma_rising_perm_low(perm, n, k - 1);
        assert(perm[k - 1] < perm[k]);
    }
    assert(0 <= perm[k] < n);
}

/// A permutation of `0..n` that only increases puts `k` at position `k`: no larger.
proof fn lemma_rising_perm_high(perm: Seq<int>, n: int, k: int)
    requires
        is_perm(perm, n),
        forall|a: int, b: int| 0 <= a < b < n ==> perm[a] < perm[b],
        0 <= k < n,
    ensures
        perm[k] <= k,
    decreases n - k,
{
    assert(0 <= perm[k] < n);
    if k < n - 1 {
        lemma_rising_perm_high(perm, n, k + 1);
        assert(perm[k] < perm[k + 1]);
    }
}

/// A stable sort of items that all tie under `le` keeps them in input order.
pub proof fn lemma_stable_sort_of_ties<V>(out: Seq<V>, inp: Seq<V>, le: spec_fn(V, V) -> bool)
    requires
        is_stable_sort_by(out, inp, le),
        forall|a: int, b: int| 0 <= a < inp.len() && 0 <= b < inp.len() ==> #[trigger] le(inp[a], inp[b]),
    ensures
        out == inp,
{
    let n = inp.len() as int;
    let perm = choose|perm: Seq<int>|
        #![trigger is_perm(perm, n)]
        {
            &&& is_perm(perm, n)
            &&& permuted(out, inp, perm)
            &&& forall|a: int, b: int|
                0 <= a < b < perm.len() ==> le(inp[#[trigger] perm[a]], inp[#[trigger] perm[b]])
                    && (le(inp[perm[b]], inp[perm[a]]) ==> perm[a] < perm[b])
        };
    assert forall|a: int, b: int| 0 <= a < b < n implies perm[a] < perm[b] by {
        assert(0 <= perm[a] < n && 0 <= perm[b] < n);
        assert(le(inp[perm[b]], inp[perm[a]]));
        assert(le(inp[perm[a]], inp[perm[b]]));
    }
    assert forall|k: int| 0 <= k < n implies perm[k] == k by {
        lemma_rising_perm_low(perm, n, k);
        lemma_rising_perm_high(perm, n, k);
    }
    assert(out =~= inp) by {
        assert forall|k: int| 0 <= k < n implies out[k] == inp[k] by {
            assert(out[k] == inp[perm[k]]);
        }
    }
}

/// Every position `0..n` is reached by a permutation of `0..n`.
pub proof fn lemma_perm_onto(perm: Seq<int>, n: int, m: int)
    requires
        is_perm(perm, n),
        0 <= m < n,
    ensures
        exists|k: int| 0 <= k < n && perm[k] == m,
{
    broadcast use vstd::seq_lib::seq_to_set_is_finite;

    assert(perm.no_duplicates()) by {
        assert forall|i: int, j: int| 0 <= i < perm.len() && 0 <= j < perm.len() && i != j implies perm[i]
            != perm[j] by {
            if i < j {
                assert(perm[i] != perm[j]);
            } else {
                assert(perm[j] != perm[i]);
            }
        }
    }
    perm.unique_seq_to_set();
    vstd::set_lib::lemma_int_range(0, n);
    let range = vstd::set_lib::set_int_range(0, n);
    assert(perm.to_set().subset_of(range)) by {
        assert forall|v: int| perm.to_set().contains(v) implies range.contains(v) by {
            let k = choose|k: int| 0 <= k < perm.len() && perm[k] == v;
            assert(0 <= perm[k] < n);
        }
    }
    vstd::set_lib::lemma_subset_equality(perm.to_set(), range);
    assert(range.contains(m));
    assert(perm.to_set().contains(m));
    let k = choose|k: int| 0 <= k < perm.len() && perm[k] == m;
    assert(0 <= k < n && perm[k] == m);
}

/// Every string of `items` is one of `among`.
pub open spec fn all_among(items: Seq<Seq<char>>, among: Seq<Seq<char>>) -> bool {
    forall|i: int| 0 <= i < items.len() ==> among.contains(#[trigger] items[i])
}

/// Whether every string of `items` is one of `among` (see [`all_among`]).
pub fn all_listed(items: &Vec<String>, among: &Vec<String>) -> (r: bool)
    ensures
        r == all_among(items.deep_view(), among.deep_view()),
{
    let mut i: usize = 0;
    while i < items.len()
        invariant
            i <= items@.len(),
            forall|k: int| 0 <= k < i ==> among.deep_view().contains(#[trigger] items.deep_view()[k]),
        decreases items@.len() - i,
    {
        if !list_has(among, items[i].as_str()) {
            proof {
                assert(items.deep_view()[i as int] == items@[i as int]@);
            }
            return false;
        }
        proof {
            assert(items.deep_view()[i as int] == items@[i as int]@);
        }
        i = i + 1;
    }
    true
}

/// A stable sort lists each input item once and in `le` order: it has the input's length,
/// every listed item is an input item, every input item is listed, and no item comes after
/// one that `le` puts later.
pub proof fn lemma_stable_sort_by_shape<V>(out: Seq<V>, inp: Seq<V>, le: spec_fn(V, V) -> bool)
    requires
        is_stable_sort_by(out, inp, le),
    ensures
        out.len() == inp.len(),
        forall|a: int, b: int| 0 <= a < b < out.len() ==> le(#[trigger] out[a], #[trigger] out[b]),
        forall|k: int| 0 <= k < out.len() ==> inp.contains(#[trigger] out[k]),
        forall|j: int| 0 <= j < inp.len() ==> out.contains(#[trigger] inp[j]),
{
    let n = inp.len() as int;
    let perm = choose|perm: Seq<int>|
        #![trigger is_perm(perm, n)]
        {
            &&& is_perm(perm, n)
            &&& permuted(out, inp, perm)
            &&& forall|a: int, b: int|
                0 <= a < b < perm.len() ==> le(inp[#[trigger] perm[a]], inp[#[trigger] perm[b]])
                    && (le(inp[perm[b]], inp[perm[a]]) ==> perm[a] < perm[b])
        };
    assert forall|a: int, b: int| 0 <= a < b < out.len() implies le(#[trigger] out[a], #[trigger] out[b]) by {
        assert(out[a] == inp[perm[a]] && out[b] == inp[perm[b]]);
    }
    assert forall|k: int| 0 <= k < out.len() implies inp.contains(#[trigger] out[k]) by {
        assert(out[k] == inp[perm[k]]);
        assert(0 <= perm[k] < n);
    }
    assert forall|j: int| 0 <= j < inp.len() implies out.contains(#[trigger] inp[j]) by {
        lemma_perm_onto(perm, n, j);
        let k = choose|k: int| 0 <= k < n && perm[k] == j;
        assert(out[k] == inp[j]);
    }
}

} // verus!




