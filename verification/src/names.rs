//! Voter names: equality and order.
//!
//! A name is compared by its characters. Names are ordered as Rust orders
//! strings: lexicographically by the bytes of their UTF-8 encoding.

use itertools::Itertools;
use vstd::prelude::*;
use vstd::string::*;
use vstd::utf8::*;

verus! {

/// A voter's name as votes carry it.
pub type VoterName = &'static str;

/// A voter's name as messages and queries carry it.
pub type VoterId = String;

/// A voter's name as the contracts see it: the characters of the string.
pub type Name = Seq<char>;

/// Lexicographic order on byte strings: `a` comes strictly before `b`.
pub open spec fn bytes_lt(a: Seq<u8>, b: Seq<u8>) -> bool
    decreases a.len(),
{
    if b.len() == 0 {
        false
    } else if a.len() == 0 {
        true
    } else if a[0] != b[0] {
        a[0] < b[0]
    } else {
        bytes_lt(a.drop_first(), b.drop_first())
    }
}

/// The order of names: by the bytes of the UTF-8 encoding.
pub open spec fn name_lt(a: Name, b: Name) -> bool {
    bytes_lt(encode_utf8(a), encode_utf8(b))
}

/// Whether two string slices hold the same name.
pub fn same_name(a: &str, b: &str) -> (same: bool)
    ensures
        same == (a@ == b@),
{
    let x = a.as_bytes();
    let y = b.as_bytes();
    if x.len() != y.len() {
        return false;
    }
    let mut i: usize = 0;
    while i < x.len()
        invariant
            i <= x.len(),
            x.len() == y.len(),
            x@ == encode_utf8(a@),
            y@ == encode_utf8(b@),
            forall|j: int| 0 <= j < i ==> x@[j] == y@[j],
        decreases x.len() - i,
    {
        if x[i] != y[i] {
            return false;
        }
        i += 1;
    }
    proof {
        assert(x@ =~= y@);
        encode_utf8_decode_utf8(a@);
        encode_utf8_decode_utf8(b@);
    }
    true
}

/// No byte string comes before itself.
pub proof fn lemma_bytes_lt_irreflexive(a: Seq<u8>)
    ensures
        !bytes_lt(a, a),
    decreases a.len(),
{
    if a.len() > 0 {
        lemma_bytes_lt_irreflexive(a.drop_first());
    }
}

/// The order of byte strings is transitive.
pub proof fn lemma_bytes_lt_transitive(a: Seq<u8>, b: Seq<u8>, c: Seq<u8>)
    requires
        bytes_lt(a, b),
        bytes_lt(b, c),
    ensures
        bytes_lt(a, c),
    decreases a.len(),
{
    if a.len() > 0 && a[0] == b[0] && b[0] == c[0] {
        lemma_bytes_lt_transitive(a.drop_first(), b.drop_first(), c.drop_first());
    }
}

/// Of two different byte strings one comes before the other.
pub proof fn lemma_bytes_lt_total(a: Seq<u8>, b: Seq<u8>)
    ensures
        a == b || bytes_lt(a, b) || bytes_lt(b, a),
    decreases a.len(),
{
    if a.len() > 0 && b.len() > 0 && a[0] == b[0] {
        lemma_bytes_lt_total(a.drop_first(), b.drop_first());
        if a.drop_first() == b.drop_first() {
            assert(a =~= seq![a[0]] + a.drop_first());
            assert(b =~= seq![b[0]] + b.drop_first());
        }
    } else if a.len() == 0 && b.len() == 0 {
        assert(a =~= b);
    }
}

/// No name comes before itself.
pub proof fn lemma_name_lt_irreflexive(a: Name)
    ensures
        !name_lt(a, a),
{
    lemma_bytes_lt_irreflexive(encode_utf8(a));
}

/// The order of names is transitive.
pub proof fn lemma_name_lt_transitive(a: Name, b: Name, c: Name)
    requires
        name_lt(a, b),
        name_lt(b, c),
    ensures
        name_lt(a, c),
{
    lemma_bytes_lt_transitive(encode_utf8(a), encode_utf8(b), encode_utf8(c));
}

/// Of two different names one comes before the other.
pub proof fn lemma_name_lt_total(a: Name, b: Name)
    ensures
        a == b || name_lt(a, b) || name_lt(b, a),
{
    lemma_bytes_lt_total(encode_utf8(a), encode_utf8(b));
    encode_utf8_decode_utf8(a);
    encode_utf8_decode_utf8(b);
}

/// Whether the name `a` comes strictly before the name `b`.
pub fn name_before(a: &str, b: &str) -> (before: bool)
    ensures
        before == name_lt(a@, b@),
{
    let x = a.as_bytes();
    let y = b.as_bytes();
    let mut i: usize = 0;
    assert(x@.subrange(0, x@.len() as int) == x@);
    assert(y@.subrange(0, y@.len() as int) == y@);
    while i < x.len() && i < y.len()
        invariant
            i <= x.len(),
            i <= y.len(),
            x@ == encode_utf8(a@),
            y@ == encode_utf8(b@),
            bytes_lt(x@, y@) == bytes_lt(
                x@.subrange(i as int, x@.len() as int),
                y@.subrange(i as int, y@.len() as int),
            ),
        decreases x.len() - i,
    {
        let ghost xs = x@.subrange(i as int, x@.len() as int);
        let ghost ys = y@.subrange(i as int, y@.len() as int);
        assert(xs[0] == x@[i as int]);
        assert(ys[0] == y@[i as int]);
        if x[i] != y[i] {
            return x[i] < y[i];
        }
        assert(xs.drop_first() == x@.subrange(i + 1, x@.len() as int));
        assert(ys.drop_first() == y@.subrange(i + 1, y@.len() as int));
        i += 1;
    }
    i < y.len()
}

/// The names of `names` without repetitions: each where it first occurs.
pub open spec fn first_occurrences(names: Seq<Name>) -> Seq<Name>
    decreases names.len(),
{
    if names.len() == 0 {
        Seq::empty()
    } else {
        let before = first_occurrences(names.drop_last());
        if before.contains(names.last()) {
            before
        } else {
            before.push(names.last())
        }
    }
}

/// The first occurrences hold the same names as the sequence they are taken
/// from, each once.
pub proof fn lemma_first_occurrences(names: Seq<Name>)
    ensures
        first_occurrences(names).no_duplicates(),
        first_occurrences(names).len() <= names.len(),
        forall|n: Name| first_occurrences(names).contains(n) <==> names.contains(n),
        names.no_duplicates() ==> first_occurrences(names) == names,
        first_occurrences(names).len() == names.len() ==> names.no_duplicates(),
    decreases names.len(),
{
    if names.len() > 0 {
        let init = names.drop_last();
        let before = first_occurrences(init);
        let out = first_occurrences(names);
        lemma_first_occurrences(init);
        assert forall|n: Name| out.contains(n) <==> names.contains(n) by {
            if names.contains(n) {
                let i = choose|i: int| 0 <= i < names.len() && names[i] == n;
                if i < init.len() {
                    assert(init[i] == n);
                    assert(init.contains(n));
                    assert(before.contains(n));
                    let j = choose|j: int| 0 <= j < before.len() && before[j] == n;
                    assert(out[j] == n);
                } else {
                    if !before.contains(n) {
                        assert(out[before.len() as int] == n);
                    }
                }
            }
            if out.contains(n) {
                let j = choose|j: int| 0 <= j < out.len() && out[j] == n;
                if j < before.len() {
                    assert(before[j] == n);
                    assert(init.contains(n));
                    let i = choose|i: int| 0 <= i < init.len() && init[i] == n;
                    assert(names[i] == n);
                } else {
                    assert(names[names.len() - 1] == n);
                }
            }
        }
        if names.no_duplicates() {
            assert(init.no_duplicates());
            if init.contains(names.last()) {
                let i = choose|i: int| 0 <= i < init.len() && init[i] == names.last();
                assert(names[i] == names[names.len() - 1]);
            }
            assert(names =~= init.push(names.last()));
        }
        if out.len() == names.len() {
            assert(init.no_duplicates());
            assert(!init.contains(names.last()));
            assert(names =~= init.push(names.last()));
        }
    }
}

/// The names of `names` without repetitions, each where it first occurs.
///
/// Calls `Itertools::unique` of itertools on the names and collects what it
/// yields. The contract claims what the documentation of `unique` says: the
/// adaptor drops every element that was yielded before, by equality, and
/// keeps the others in the order in which they come.
#[verifier::external_body]
pub(crate) fn unique_names(names: Vec<VoterId>) -> (distinct: Vec<VoterId>)
    ensures
        distinct.deep_view() == first_occurrences(names.deep_view()),
{
    names.into_iter().unique().collect()
}

/// The names are strictly ascending.
pub open spec fn names_ascending(names: Seq<Name>) -> bool {
    forall|i: int, j: int| 0 <= i < j < names.len() ==> name_lt(names[i], names[j])
}

/// The names `names`, which are all different, in ascending order.
pub(crate) fn sort_names(names: &Vec<VoterId>) -> (sorted: Vec<VoterId>)
    requires
        names.deep_view().no_duplicates(),
    ensures
        names_ascending(sorted.deep_view()),
        sorted.len() == names.len(),
        forall|n: Name| sorted.deep_view().contains(n) <==> names.deep_view().contains(n),
{
    let mut sorted: Vec<VoterId> = Vec::new();
    let mut i: usize = 0;
    while i < names.len()
        invariant
            i <= names.len(),
            names.deep_view().no_duplicates(),
            names_ascending(sorted.deep_view()),
            sorted.len() == i,
            forall|n: Name|
                sorted.deep_view().contains(n) <==> names.deep_view().subrange(0, i as int).contains(
                    n,
                ),
        decreases names.len() - i,
    {
        let name = names[i].clone();
        let ghost taken = names.deep_view().subrange(0, i as int);
        let ghost before = sorted.deep_view();
        assert(name@ == names.deep_view()[i as int]);
        assert(!taken.contains(name@)) by {
            if taken.contains(name@) {
                let k = choose|k: int| 0 <= k < taken.len() && taken[k] == name@;
                assert(names.deep_view()[k] == names.deep_view()[i as int]);
            }
        }
        let mut at: usize = 0;
        while at < sorted.len() && name_before(sorted[at].as_str(), name.as_str())
            invariant
                at <= sorted.len(),
                before == sorted.deep_view(),
                forall|k: int| 0 <= k < at ==> name_lt(before[k], name@),
            decreases sorted.len() - at,
        {
            assert(sorted[at as int]@ == before[at as int]);
            at += 1;
        }
        proof {
            if at < sorted.len() {
                assert(sorted[at as int]@ == before[at as int]);
                assert(before.contains(before[at as int]));
                lemma_name_lt_total(before[at as int], name@);
                assert forall|k: int| at <= k < before.len() implies name_lt(name@, before[k]) by {
                    if k > at {
                        lemma_name_lt_transitive(name@, before[at as int], before[k]);
                    }
                }
            }
        }
        sorted.insert(at, name);
        proof {
            let after = sorted.deep_view();
            assert(after.len() == before.len() + 1);
            assert forall|k: int| 0 <= k < after.len() implies after[k] == (if k < at {
                before[k]
            } else if k == at {
                name@
            } else {
                before[k - 1]
            }) by {
                assert(after[k] == sorted@[k]@);
            }
            assert(names_ascending(after));
            let next = names.deep_view().subrange(0, i + 1);
            assert forall|n: Name| after.contains(n) <==> next.contains(n) by {
                if after.contains(n) {
                    let k = choose|k: int| 0 <= k < after.len() && after[k] == n;
                    if k == at {
                        assert(next[i as int] == n);
                    } else {
                        let b = if k < at {
                            k
                        } else {
                            k - 1
                        };
                        assert(before[b] == n);
                        assert(before.contains(n));
                        let t = choose|t: int| 0 <= t < taken.len() && taken[t] == n;
                        assert(next[t] == n);
                    }
                }
                if next.contains(n) {
                    let t = choose|t: int| 0 <= t < next.len() && next[t] == n;
                    if t == i {
                        assert(after[at as int] == n);
                    } else {
                        assert(taken[t] == n);
                        assert(before.contains(n));
                        let b = choose|b: int| 0 <= b < before.len() && before[b] == n;
                        if b < at {
                            assert(after[b] == n);
                        } else {
                            assert(after[b + 1] == n);
                        }
                    }
                }
            }
        }
        i += 1;
    }
    assert(names.deep_view().subrange(0, i as int) == names.deep_view());
    sorted
}

} // verus!
