//! The coverage record that decides which of the competing pattern matches
//! keep the input offsets they span.
//!
//! A span is a pair `(start, end)` of byte offsets with `start <= end`. Spans
//! are offered one at a time, in the order the rules and their matches are
//! enumerated; the record holds, for each byte offset of the input, the index
//! of the span that currently claims it.

use vstd::prelude::*;

verus! {

/// `span` spans byte offset `i`.
pub open spec fn covers(span: (usize, usize), i: int) -> bool {
    span.0 <= i < span.1
}

/// The number of bytes `span` spans.
pub open spec fn span_len(span: (usize, usize)) -> int {
    span.1 - span.0
}

/// The two spans share at least one byte offset.
pub open spec fn overlap(a: (usize, usize), b: (usize, usize)) -> bool {
    a.0 < a.1 && b.0 < b.1 && a.0 < b.1 && b.0 < a.1
}

/// Every span lies within an input of `n` bytes, and each span's index fits
/// in a `usize`.
pub open spec fn spans_within(n: nat, spans: Seq<(usize, usize)>) -> bool {
    &&& spans.len() <= usize::MAX
    &&& forall|k: int| 0 <= k < spans.len() ==> #[trigger] spans[k].0 <= spans[k].1 <= n
}

/// Some offset of `span` is claimed by a span at least as long: the
/// newcomer is turned away.
pub open spec fn blocked(owner: Seq<Option<usize>>, spans: Seq<(usize, usize)>, span: (usize, usize)) -> bool {
    exists|i: int|
        covers(span, i) && #[trigger] owner[i] is Some && span_len(spans[owner[i]->Some_0 as int])
            >= span_len(span)
}

/// The record after span `k` takes over its offsets: it claims each of them,
/// and every claim it overlaps is dropped as a whole.
pub open spec fn claim(owner: Seq<Option<usize>>, spans: Seq<(usize, usize)>, k: int) -> Seq<Option<usize>> {
    Seq::new(
        owner.len(),
        |i: int|
            if covers(spans[k], i) {
                Some(k as usize)
            } else if owner[i] is Some && overlap(spans[owner[i]->Some_0 as int], spans[k]) {
                None
            } else {
                owner[i]
            },
    )
}

/// The record over an input of `n` bytes once the first `m` spans have been
/// offered.
pub open spec fn claims_after(n: nat, spans: Seq<(usize, usize)>, m: nat) -> Seq<Option<usize>>
    decreases m,
{
    if m == 0 {
        Seq::new(n, |i: int| None)
    } else {
        let prev = claims_after(n, spans, (m - 1) as nat);
        if blocked(prev, spans, spans[m - 1]) {
            prev
        } else {
            claim(prev, spans, m - 1)
        }
    }
}

/// Span `k` was taken when it was offered.
pub open spec fn accepted(n: nat, spans: Seq<(usize, usize)>, k: int) -> bool {
    !blocked(claims_after(n, spans, k as nat), spans, spans[k])
}

/// Span `k` was taken and still stands once every span has been offered:
/// an empty span claims nothing and so is never displaced.
pub open spec fn kept(n: nat, spans: Seq<(usize, usize)>, k: int) -> bool {
    &&& accepted(n, spans, k)
    &&& (spans[k].0 == spans[k].1 || claims_after(n, spans, spans.len())[spans[k].0 as int] == Some(
        k as usize,
    ))
}

/// The record is consistent with the first `m` spans: each claim names one of
/// them that spans the offset, and a span that claims one offset claims all
/// of its offsets.
pub open spec fn consistent(owner: Seq<Option<usize>>, spans: Seq<(usize, usize)>, m: nat) -> bool {
    &&& forall|i: int|
        0 <= i < owner.len() && #[trigger] owner[i] is Some ==> {
            let j = owner[i]->Some_0 as int;
            j < m && covers(spans[j], i)
        }
    &&& forall|i: int, y: int|
        0 <= i < owner.len() && #[trigger] owner[i] is Some && covers(
            spans[owner[i]->Some_0 as int],
            y,
        ) ==> #[trigger] owner[y] == owner[i]
}

proof fn lemma_claim_consistent(n: nat, owner: Seq<Option<usize>>, spans: Seq<(usize, usize)>, k: int)
    requires
        owner.len() == n,
        spans_within(n, spans),
        0 <= k < spans.len(),
        consistent(owner, spans, k as nat),
        !blocked(owner, spans, spans[k]),
    ensures
        consistent(claim(owner, spans, k), spans, (k + 1) as nat),
{
    let next = claim(owner, spans, k);
    let c = spans[k];
    assert(spans[k].0 <= spans[k].1 <= n);
    assert forall|i: int| 0 <= i < next.len() && #[trigger] next[i] is Some implies {
        let j = next[i]->Some_0 as int;
        j < k + 1 && covers(spans[j], i)
    } by {
        if !covers(c, i) {
            assert(owner[i] is Some);
        }
    }
    assert forall|i: int, y: int|
        0 <= i < next.len() && #[trigger] next[i] is Some && covers(
            spans[next[i]->Some_0 as int],
            y,
        ) implies #[trigger] next[y] == next[i] by {
        let j = next[i]->Some_0 as int;
        if j == k {
            assert(covers(c, i) || owner[i] == Some(k as usize));
            if !covers(c, i) {
                assert(owner[i]->Some_0 < k);
            }
            assert(covers(c, i));
        } else {
            assert(!covers(c, i));
            assert(owner[i] == Some(j as usize));
            assert(j < k);
            assert(covers(spans[j], i));
            assert(owner[y] == owner[i]);
            assert(0 <= y < n);
            if covers(c, y) {
                assert(overlap(spans[j], c));
            }
        }
    }
}

/// The record stays consistent however many spans have been offered.
pub proof fn lemma_claims_after_consistent(n: nat, spans: Seq<(usize, usize)>, m: nat)
    requires
        spans_within(n, spans),
        m <= spans.len(),
    ensures
        claims_after(n, spans, m).len() == n,
        consistent(claims_after(n, spans, m), spans, m),
    decreases m,
{
    if m > 0 {
        lemma_claims_after_consistent(n, spans, (m - 1) as nat);
        let prev = claims_after(n, spans, (m - 1) as nat);
        if !blocked(prev, spans, spans[m - 1]) {
            lemma_claim_consistent(n, prev, spans, m - 1);
        }
    }
}

proof fn lemma_holder_accepted(n: nat, spans: Seq<(usize, usize)>, m: nat, i: int)
    requires
        spans_within(n, spans),
        m <= spans.len(),
        0 <= i < n,
        claims_after(n, spans, m)[i] is Some,
    ensures
        accepted(n, spans, claims_after(n, spans, m)[i]->Some_0 as int),
    decreases m,
{
    if m > 0 {
        let prev = claims_after(n, spans, (m - 1) as nat);
        lemma_claims_after_consistent(n, spans, (m - 1) as nat);
        if blocked(prev, spans, spans[m - 1]) {
            lemma_holder_accepted(n, spans, (m - 1) as nat, i);
        } else if !covers(spans[m - 1], i) {
            lemma_holder_accepted(n, spans, (m - 1) as nat, i);
        }
    }
}

/// Once every byte of the input is claimed, the spans that were kept cover
/// the input exactly once: each byte lies in the kept span that the record
/// names for it, and no two kept spans share a byte.
pub proof fn lemma_full_coverage(n: nat, spans: Seq<(usize, usize)>)
    requires
        spans_within(n, spans),
        forall|i: int| 0 <= i < n ==> #[trigger] claims_after(n, spans, spans.len())[i] is Some,
    ensures
        forall|i: int|
            0 <= i < n ==> {
                let k = (#[trigger] claims_after(n, spans, spans.len())[i])->Some_0 as int;
                &&& 0 <= k < spans.len()
                &&& kept(n, spans, k)
                &&& covers(spans[k], i)
            },
        forall|a: int, b: int|
            0 <= a < b < spans.len() && #[trigger] kept(n, spans, a) && #[trigger] kept(n, spans, b)
                ==> !overlap(spans[a], spans[b]),
{
    let last = claims_after(n, spans, spans.len());
    lemma_claims_after_consistent(n, spans, spans.len());
    assert forall|i: int| 0 <= i < n implies {
        let k = (#[trigger] last[i])->Some_0 as int;
        &&& 0 <= k < spans.len()
        &&& kept(n, spans, k)
        &&& covers(spans[k], i)
    } by {
        let k = last[i]->Some_0 as int;
        assert(last[i] is Some);
        lemma_holder_accepted(n, spans, spans.len(), i);
        assert(covers(spans[k], spans[k].0 as int));
        assert(last[spans[k].0 as int] == last[i]);
    }
    assert forall|a: int, b: int|
        0 <= a < b < spans.len() && #[trigger] kept(n, spans, a) && #[trigger] kept(n, spans, b)
            implies !overlap(spans[a], spans[b]) by {
        if overlap(spans[a], spans[b]) {
            let y = if spans[a].0 < spans[b].0 { spans[b].0 as int } else { spans[a].0 as int };
            let sa = spans[a].0 as int;
            let sb = spans[b].0 as int;
            assert(last[sa] == Some(a as usize));
            assert(last[sb] == Some(b as usize));
            assert(covers(spans[a], y));
            assert(last[y] == last[sa]);
            assert(last[y] == last[sb]);
        }
    }
}

/// A span that is taken is strictly longer than every claim it overlaps, all
/// of which were offered earlier and lose all their bytes; a span that is
/// turned away meets an earlier claim at least as long, and the record stays
/// as it was. Equal lengths thus go to the span offered first.
pub proof fn lemma_priority(n: nat, spans: Seq<(usize, usize)>, k: int)
    requires
        spans_within(n, spans),
        0 <= k < spans.len(),
    ensures
        ({
            let prev = claims_after(n, spans, k as nat);
            let next = claims_after(n, spans, (k + 1) as nat);
            &&& accepted(n, spans, k) ==> forall|i: int|
                0 <= i < n && #[trigger] prev[i] is Some && overlap(
                    spans[prev[i]->Some_0 as int],
                    spans[k],
                ) ==> {
                    &&& prev[i]->Some_0 < k
                    &&& span_len(spans[prev[i]->Some_0 as int]) < span_len(spans[k])
                    &&& next[i] != prev[i]
                }
            &&& !accepted(n, spans, k) ==> {
                &&& next == prev
                &&& exists|i: int|
                    covers(spans[k], i) && #[trigger] prev[i] is Some && prev[i]->Some_0 < k
                        && span_len(spans[prev[i]->Some_0 as int]) >= span_len(spans[k])
            }
        }),
{
    let prev = claims_after(n, spans, k as nat);
    let next = claims_after(n, spans, (k + 1) as nat);
    lemma_claims_after_consistent(n, spans, k as nat);
    assert(spans[k].0 <= spans[k].1 <= n);
    if accepted(n, spans, k) {
        assert forall|i: int|
            0 <= i < n && #[trigger] prev[i] is Some && overlap(spans[prev[i]->Some_0 as int], spans[k])
                implies {
            &&& prev[i]->Some_0 < k
            &&& span_len(spans[prev[i]->Some_0 as int]) < span_len(spans[k])
            &&& next[i] != prev[i]
        } by {
            let j = prev[i]->Some_0 as int;
            assert(j < k);
            let y = if spans[j].0 < spans[k].0 { spans[k].0 as int } else { spans[j].0 as int };
            assert(covers(spans[j], y));
            assert(prev[y] == prev[i]);
            assert(covers(spans[k], y));
        }
    } else {
        let i = choose|i: int|
            covers(spans[k], i) && #[trigger] prev[i] is Some && span_len(spans[prev[i]->Some_0 as int])
                >= span_len(spans[k]);
        assert(prev[i]->Some_0 < k);
    }
}

/// Offer span `k` to the record: it is taken when no offset it spans is
/// claimed by a span at least as long, and the result says whether it was.
pub fn offer(owner: &mut Vec<Option<usize>>, spans: &Vec<(usize, usize)>, k: usize) -> (taken: bool)
    requires
        spans_within(old(owner)@.len(), spans@),
        k < spans@.len(),
        consistent(old(owner)@, spans@, k as nat),
    ensures
        taken == !blocked(old(owner)@, spans@, spans@[k as int]),
        final(owner)@ == if taken {
            claim(old(owner)@, spans@, k as int)
        } else {
            old(owner)@
        },
{
    let ghost n = owner@.len();
    let ghost orig = owner@;
    let (start, end) = spans[k];
    assert(spans@[k as int].0 <= spans@[k as int].1 <= n);
    let len = end - start;
    let mut i = start;
    while i < end
        invariant
            start <= i <= end <= n == owner@.len(),
            owner@ == orig,
            spans_within(n, spans@),
            k < spans@.len(),
            consistent(orig, spans@, k as nat),
            spans@[k as int] == (start, end),
            len == end - start,
            forall|x: int|
                start <= x < i && #[trigger] orig[x] is Some ==> span_len(
                    spans@[orig[x]->Some_0 as int],
                ) < len,
        decreases end - i,
    {
        if let Some(j) = owner[i] {
            assert(orig[i as int] is Some);
            assert(j < k);
            let (js, je) = spans[j];
            assert(spans@[j as int].0 <= spans@[j as int].1);
            if je - js >= len {
                assert(covers(spans@[k as int], i as int));
                return false;
            }
        }
        i = i + 1;
    }
    assert(!blocked(orig, spans@, spans@[k as int]));
    // Drop every claim that overlaps the newcomer.
    let mut x = start;
    while x < end
        invariant
            start <= x <= end <= n == owner@.len(),
            orig.len() == n,
            spans_within(n, spans@),
            k < spans@.len(),
            spans@[k as int] == (start, end),
            consistent(orig, spans@, k as nat),
            forall|y: int|
                0 <= y < n ==> #[trigger] owner@[y] == if orig[y] is Some && start < x && spans@[orig[
                    y
                ]->Some_0 as int].0 < x && start < spans@[orig[y]->Some_0 as int].1 {
                    None
                } else {
                    orig[y]
                },
        decreases end - x,
    {
        if let Some(j) = owner[x] {
            assert(orig[x as int] == Some(j));
            assert(orig[x as int] is Some);
            assert(j < k);
            let (js, je) = spans[j];
            assert(spans@[j as int].0 <= spans@[j as int].1 <= n);
            let mut y = js;
            let ghost before = owner@;
            while y < je
                invariant
                    js <= y <= je <= n == owner@.len(),
                    forall|z: int|
                        0 <= z < n ==> #[trigger] owner@[z] == if js <= z < y {
                            None
                        } else {
                            before[z]
                        },
                decreases je - y,
            {
                owner.set(y, None);
                y = y + 1;
            }
            assert forall|z: int| 0 <= z < n implies #[trigger] owner@[z] == if orig[z] is Some
                && start < x + 1 && spans@[orig[z]->Some_0 as int].0 < x + 1 && start < spans@[orig[
                z
            ]->Some_0 as int].1 {
                None
            } else {
                orig[z]
            } by {
                if js <= z < je {
                    assert(covers(spans@[j as int], z));
                    assert(orig[z] == orig[x as int]);
                } else if orig[z] is Some {
                    let jz = orig[z]->Some_0 as int;
                    assert(covers(spans@[jz], z));
                    if covers(spans@[jz], x as int) {
                        assert(orig[x as int] == orig[z]);
                    }
                }
            }
        } else {
            assert forall|z: int| 0 <= z < n implies #[trigger] owner@[z] == if orig[z] is Some
                && start < x + 1 && spans@[orig[z]->Some_0 as int].0 < x + 1 && start < spans@[orig[
                z
            ]->Some_0 as int].1 {
                None
            } else {
                orig[z]
            } by {
                if orig[z] is Some {
                    let jz = orig[z]->Some_0 as int;
                    assert(covers(spans@[jz], z));
                    if covers(spans@[jz], x as int) {
                        assert(orig[x as int] == orig[z]);
                    }
                }
            }
        }
        x = x + 1;
    }
    // Claim the newcomer's offsets.
    let mut y = start;
    let ghost cleared = owner@;
    while y < end
        invariant
            start <= y <= end <= n == owner@.len(),
            forall|z: int|
                0 <= z < n ==> #[trigger] owner@[z] == if start <= z < y {
                    Some(k)
                } else {
                    cleared[z]
                },
        decreases end - y,
    {
        owner.set(y, Some(k));
        y = y + 1;
    }
    assert(owner@ =~= claim(orig, spans@, k as int)) by {
        assert forall|z: int| 0 <= z < n implies owner@[z] == claim(orig, spans@, k as int)[z] by {
            if orig[z] is Some && !covers(spans@[k as int], z) {
                let jz = orig[z]->Some_0 as int;
                assert(covers(spans@[jz], z));
            }
        }
    }
    true
}

/// Offer every span in order to an empty record over an input of `n` bytes.
/// The result holds the final record and, for each span, whether it was taken
/// when offered.
pub fn resolve(n: usize, spans: &Vec<(usize, usize)>) -> (r: (Vec<Option<usize>>, Vec<bool>))
    requires
        spans_within(n as nat, spans@),
    ensures
        r.0@ == claims_after(n as nat, spans@, spans@.len()),
        r.1@.len() == spans@.len(),
        forall|k: int| 0 <= k < spans@.len() ==> #[trigger] r.1@[k] == accepted(n as nat, spans@, k),
{
    let mut owner: Vec<Option<usize>> = Vec::new();
    let mut i: usize = 0;
    while i < n
        invariant
            i <= n,
            owner@ == Seq::new(i as nat, |x: int| None::<usize>),
        decreases n - i,
    {
        owner.push(None);
        i = i + 1;
        assert(owner@ =~= Seq::new(i as nat, |x: int| None::<usize>));
    }
    let mut taken: Vec<bool> = Vec::new();
    let mut k: usize = 0;
    while k < spans.len()
        invariant
            k <= spans@.len(),
            spans_within(n as nat, spans@),
            owner@ == claims_after(n as nat, spans@, k as nat),
            taken@.len() == k,
            forall|j: int| 0 <= j < k ==> #[trigger] taken@[j] == accepted(n as nat, spans@, j),
        decreases spans@.len() - k,
    {
        proof {
            lemma_claims_after_consistent(n as nat, spans@, k as nat);
        }
        let t = offer(&mut owner, spans, k);
        taken.push(t);
        k = k + 1;
    }
    (owner, taken)
}

/// Span `a` comes before span `b` in reading order: it starts earlier, or at
/// the same offset and was offered first.
pub open spec fn reads_before(spans: Seq<(usize, usize)>, a: usize, b: usize) -> bool {
    spans[a as int].0 < spans[b as int].0 || (spans[a as int].0 == spans[b as int].0 && a < b)
}

/// `ord` lists exactly the kept spans, each once, in reading order.
pub open spec fn in_reading_order(n: nat, spans: Seq<(usize, usize)>, ord: Seq<usize>) -> bool {
    &&& forall|i: int, j: int| 0 <= i < j < ord.len() ==> reads_before(spans, #[trigger] ord[i], #[trigger] ord[j])
    &&& forall|x: usize| ord.contains(x) <==> x < spans.len() && kept(n, spans, x as int)
}

/// The first offset that no span claims, if there is one.
pub fn first_unclaimed(owner: &Vec<Option<usize>>) -> (r: Option<usize>)
    ensures
        r matches Some(p) ==> p < owner@.len() && owner@[p as int] is None,
        r matches Some(p) ==> forall|q: int| 0 <= q < p ==> #[trigger] owner@[q] is Some,
        r is None ==> forall|q: int| 0 <= q < owner@.len() ==> #[trigger] owner@[q] is Some,
{
    let mut i: usize = 0;
    while i < owner.len()
        invariant
            i <= owner@.len(),
            forall|q: int| 0 <= q < i ==> #[trigger] owner@[q] is Some,
        decreases owner@.len() - i,
    {
        if owner[i].is_none() {
            return Some(i);
        }
        i = i + 1;
    }
    None
}

/// The indices of the spans that were kept, in reading order.
pub fn reading_order(n: usize, spans: &Vec<(usize, usize)>, owner: &Vec<Option<usize>>, taken: &Vec<bool>) -> (r: Vec<usize>)
    requires
        spans_within(n as nat, spans@),
        owner@ == claims_after(n as nat, spans@, spans@.len()),
        taken@.len() == spans@.len(),
        forall|k: int| 0 <= k < spans@.len() ==> #[trigger] taken@[k] == accepted(n as nat, spans@, k),
    ensures
        forall|i: int, j: int| 0 <= i < j < r@.len() ==> reads_before(spans@, #[trigger] r@[i], #[trigger] r@[j]),
        forall|x: usize| r@.contains(x) <==> x < spans@.len() && kept(n as nat, spans@, x as int),
        in_reading_order(n as nat, spans@, r@),
{
    proof {
        lemma_claims_after_consistent(n as nat, spans@, spans@.len());
    }
    let mut r: Vec<usize> = Vec::new();
    let mut k: usize = 0;
    while k < spans.len()
        invariant
            k <= spans@.len(),
            spans_within(n as nat, spans@),
            owner@ == claims_after(n as nat, spans@, spans@.len()),
            owner@.len() == n,
            taken@.len() == spans@.len(),
            forall|k: int| 0 <= k < spans@.len() ==> #[trigger] taken@[k] == accepted(n as nat, spans@, k),
            forall|i: int, j: int| 0 <= i < j < r@.len() ==> reads_before(spans@, #[trigger] r@[i], #[trigger] r@[j]),
            forall|i: int| 0 <= i < r@.len() ==> #[trigger] r@[i] < k,
            forall|x: usize| r@.contains(x) <==> x < k && kept(n as nat, spans@, x as int),
        decreases spans@.len() - k,
    {
        let (start, end) = spans[k];
        assert(spans@[k as int].0 <= spans@[k as int].1 <= n);
        let keep = taken[k] && (start == end || owner[start] == Some(k));
        assert(keep == kept(n as nat, spans@, k as int));
        if keep {
            let mut p = r.len();
            while p > 0
                invariant
                    p <= r@.len(),
                    forall|i: int| 0 <= i < r@.len() ==> #[trigger] r@[i] < spans@.len(),
                    forall|q: int| p <= q < r@.len() ==> spans@[#[trigger] r@[q] as int].0 > start,
                ensures
                    p <= r@.len(),
                    forall|q: int| p <= q < r@.len() ==> spans@[#[trigger] r@[q] as int].0 > start,
                    p == 0 || spans@[r@[p - 1] as int].0 <= start,
                decreases p,
            {
                let (s, _) = spans[r[p - 1]];
                if s <= start {
                    break;
                }
                p = p - 1;
            }
            let ghost old_r = r@;
            r.insert(p, k);
            assert(r@ == old_r.insert(p as int, k));
            assert forall|i: int, j: int| 0 <= i < j < r@.len() implies reads_before(spans@, #[trigger] r@[i], #[trigger] r@[j]) by {
                if j < p {
                } else if j == p {
                    if i < p - 1 {
                        assert(reads_before(spans@, old_r[i], old_r[p - 1]));
                    }
                    assert(old_r[i] < k);
                } else if i < p {
                    if i < p - 1 {
                        assert(reads_before(spans@, old_r[i], old_r[p - 1]));
                    }
                    assert(reads_before(spans@, old_r[i], old_r[j - 1]));
                } else if i == p {
                    assert(spans@[old_r[j - 1] as int].0 > start);
                } else {
                    assert(reads_before(spans@, old_r[i - 1], old_r[j - 1]));
                }
            }
            assert forall|x: usize| r@.contains(x) <==> x < k + 1 && kept(n as nat, spans@, x as int) by {
                if r@.contains(x) {
                    let i = choose|i: int| 0 <= i < r@.len() && r@[i] == x;
                    if i != p {
                        let oi = if i < p { i } else { i - 1 };
                        assert(old_r[oi] == x);
                        assert(old_r.contains(x));
                    }
                }
                if x < k + 1 && kept(n as nat, spans@, x as int) {
                    if x < k {
                        assert(old_r.contains(x));
                        let i = choose|i: int| 0 <= i < old_r.len() && old_r[i] == x;
                        if i < p {
                            assert(r@[i] == x);
                        } else {
                            assert(r@[i + 1] == x);
                        }
                    } else {
                        assert(r@[p as int] == x);
                    }
                }
            }
        } else {
            assert forall|x: usize| r@.contains(x) <==> x < k + 1 && kept(n as nat, spans@, x as int) by {
                if r@.contains(x) {
                    let i = choose|i: int| 0 <= i < r@.len() && r@[i] == x;
                }
            }
        }
        k = k + 1;
    }
    r
}

} // verus!
