//! Lists of names: in order, and with no name twice.

use vstd::prelude::*;

verus! {

/// Whether `a` comes before `b` in lexicographic order.
pub open spec fn bytes_before(a: Seq<u8>, b: Seq<u8>) -> bool
    decreases a.len(),
{
    if b.len() == 0 {
        false
    } else if a.len() == 0 {
        true
    } else if a[0] != b[0] {
        a[0] < b[0]
    } else {
        bytes_before(a.skip(1), b.skip(1))
    }
}

/// Whether the name `a` comes before `b` in the order of strings: that of
/// their UTF-8 bytes.
pub open spec fn name_before(a: Seq<char>, b: Seq<char>) -> bool {
    bytes_before(vstd::utf8::encode_utf8(a), vstd::utf8::encode_utf8(b))
}

/// Whether every name of `list` comes before all that follow it. Such a list
/// is sorted and holds no name twice.
pub open spec fn ascending(list: Seq<Seq<char>>) -> bool {
    forall|i: int, j: int|
        0 <= i < j < list.len() ==> name_before(#[trigger] list[i], #[trigger] list[j])
}

/// The texts of a list of strings.
pub open spec fn texts(v: Seq<String>) -> Seq<Seq<char>> {
    Seq::new(v.len(), |i: int| v[i]@)
}

proof fn lemma_bytes_irreflexive(a: Seq<u8>)
    ensures
        !bytes_before(a, a),
    decreases a.len(),
{
    if a.len() > 0 {
        lemma_bytes_irreflexive(a.skip(1));
    }
}

proof fn lemma_bytes_transitive(a: Seq<u8>, b: Seq<u8>, c: Seq<u8>)
    requires
        bytes_before(a, b),
        bytes_before(b, c),
    ensures
        bytes_before(a, c),
    decreases a.len(),
{
    if a.len() > 0 && a[0] == b[0] && b[0] == c[0] {
        lemma_bytes_transitive(a.skip(1), b.skip(1), c.skip(1));
    }
}

/// No name comes before itself.
pub proof fn name_order_is_irreflexive(a: Seq<char>)
    ensures
        !name_before(a, a),
{
    lemma_bytes_irreflexive(vstd::utf8::encode_utf8(a));
}

/// What comes before a name also comes before all that follow the name.
pub proof fn name_order_is_transitive(a: Seq<char>, b: Seq<char>, c: Seq<char>)
    requires
        name_before(a, b),
        name_before(b, c),
    ensures
        name_before(a, c),
{
    lemma_bytes_transitive(
        vstd::utf8::encode_utf8(a),
        vstd::utf8::encode_utf8(b),
        vstd::utf8::encode_utf8(c),
    );
}

/// A list in order is determined by the names that it holds.
pub proof fn ascending_list_is_unique(a: Seq<Seq<char>>, b: Seq<Seq<char>>)
    requires
        ascending(a),
        ascending(b),
        forall|n: Seq<char>| a.contains(n) <==> b.contains(n),
    ensures
        a == b,
    decreases a.len(),
{
    if a.len() == 0 {
        if b.len() > 0 {
            assert(b.contains(b[0]));
        }
    } else {
        assert(a.contains(a[0]));
        let k = choose|k: int| 0 <= k < b.len() && b[k] == a[0];
        assert(b.contains(b[0]));
        let m = choose|m: int| 0 <= m < a.len() && a[m] == b[0];
        if k > 0 && m > 0 {
            name_order_is_transitive(a[0], a[m], a[0]);
            name_order_is_irreflexive(a[0]);
        }
        assert(a[0] == b[0]);
        let s = a.skip(1);
        let t = b.skip(1);
        assert forall|i: int, j: int| 0 <= i < j < s.len() implies name_before(
            #[trigger] s[i],
            #[trigger] s[j],
        ) by {
            assert(name_before(a[i + 1], a[j + 1]));
        }
        assert forall|i: int, j: int| 0 <= i < j < t.len() implies name_before(
            #[trigger] t[i],
            #[trigger] t[j],
        ) by {
            assert(name_before(b[i + 1], b[j + 1]));
        }
        assert forall|n: Seq<char>| s.contains(n) <==> t.contains(n) by {
            lemma_tail_contains(a, n);
            lemma_tail_contains(b, n);
        }
        ascending_list_is_unique(s, t);
        assert(a == seq![a[0]] + s);
        assert(b == seq![b[0]] + t);
    }
}

proof fn lemma_tail_contains(a: Seq<Seq<char>>, n: Seq<char>)
    requires
        ascending(a),
        a.len() > 0,
    ensures
        a.skip(1).contains(n) <==> a.contains(n) && n != a[0],
{
    let s = a.skip(1);
    if s.contains(n) {
        let i = choose|i: int| 0 <= i < s.len() && s[i] == n;
        assert(a[i + 1] == n);
        assert(name_before(a[0], a[i + 1]));
        name_order_is_irreflexive(n);
    }
    if a.contains(n) && n != a[0] {
        let i = choose|i: int| 0 <= i < a.len() && a[i] == n;
        assert(s[i - 1] == n);
    }
}

/// Where one name stands to another in a list in order.
enum Place {
    Before,
    Same,
    After,
}

/// Where `a` stands to `b`.
fn place(a: &String, b: &String) -> (r: Place)
    ensures
        match r {
            Place::Before => name_before(a@, b@),
            Place::Same => a@ == b@,
            Place::After => name_before(b@, a@),
        },
{
    let x = a.as_str().as_bytes();
    let y = b.as_str().as_bytes();
    let mut i: usize = 0;
    assert(x@.skip(0) == x@ && y@.skip(0) == y@);
    while i < x.len() && i < y.len() && x[i] == y[i]
        invariant
            i <= x@.len(),
            i <= y@.len(),
            x@.take(i as int) == y@.take(i as int),
            bytes_before(x@, y@) == bytes_before(x@.skip(i as int), y@.skip(i as int)),
            bytes_before(y@, x@) == bytes_before(y@.skip(i as int), x@.skip(i as int)),
        decreases x@.len() - i,
    {
        assert(x@.skip(i as int).skip(1) == x@.skip(i + 1));
        assert(y@.skip(i as int).skip(1) == y@.skip(i + 1));
        assert(x@.take(i + 1) == x@.take(i as int).push(x@[i as int]));
        assert(y@.take(i + 1) == y@.take(i as int).push(y@[i as int]));
        i += 1;
    }
    if i < x.len() {
        if i < y.len() && x[i] < y[i] {
            Place::Before
        } else {
            Place::After
        }
    } else if i < y.len() {
        Place::Before
    } else {
        proof {
            assert(x@ == x@.take(i as int));
            assert(y@ == y@.take(i as int));
            crate::text::lemma_encoding_is_injective(a@, b@);
        }
        Place::Same
    }
}

/// Whether `n` is the text of one of the first `k` strings of `v`.
spec fn among(v: Seq<String>, k: int, n: Seq<char>) -> bool {
    exists|i: int| 0 <= i < k && #[trigger] v[i]@ == n
}

/// The names of two lists in order, as one list in order.
fn merge(a: &Vec<String>, b: &Vec<String>) -> (r: Vec<String>)
    requires
        ascending(texts(a@)),
        ascending(texts(b@)),
    ensures
        ascending(texts(r@)),
        forall|n: Seq<char>|
            texts(r@).contains(n) <==> texts(a@).contains(n) || texts(b@).contains(n),
{
    let mut out: Vec<String> = Vec::new();
    let mut i: usize = 0;
    let mut j: usize = 0;
    while i < a.len() || j < b.len()
        invariant
            i <= a@.len(),
            j <= b@.len(),
            ascending(texts(a@)),
            ascending(texts(b@)),
            ascending(texts(out@)),
            forall|n: Seq<char>|
                among(out@, out@.len() as int, n) <==> among(a@, i as int, n) || among(
                    b@,
                    j as int,
                    n,
                ),
            i < a@.len() ==> forall|k: int|
                0 <= k < out@.len() ==> name_before(#[trigger] out@[k]@, a@[i as int]@),
            j < b@.len() ==> forall|k: int|
                0 <= k < out@.len() ==> name_before(#[trigger] out@[k]@, b@[j as int]@),
        decreases a@.len() - i + b@.len() - j,
    {
        let from_a: bool;
        let from_b: bool;
        if i == a.len() {
            from_a = false;
            from_b = true;
        } else if j == b.len() {
            from_a = true;
            from_b = false;
        } else {
            match place(&a[i], &b[j]) {
                Place::Before => {
                    from_a = true;
                    from_b = false;
                },
                Place::Same => {
                    from_a = true;
                    from_b = true;
                },
                Place::After => {
                    from_a = false;
                    from_b = true;
                },
            }
        }
        let next = if from_a {
            a[i].clone()
        } else {
            b[j].clone()
        };
        let ghost before = out@;
        let ghost (i0, j0) = (i as int, j as int);
        out.push(next);
        if from_a {
            i += 1;
        }
        if from_b {
            j += 1;
        }
        proof {
            assert forall|p: int, q: int| 0 <= p < q < texts(out@).len() implies name_before(
                #[trigger] texts(out@)[p],
                #[trigger] texts(out@)[q],
            ) by {
                if q < before.len() {
                    assert(name_before(texts(before)[p], texts(before)[q]));
                } else {
                    assert(out@[p] == before[p]);
                }
            }
            assert forall|n: Seq<char>|
                among(out@, out@.len() as int, n) <==> among(a@, i as int, n) || among(
                    b@,
                    j as int,
                    n,
                ) by {
                lemma_among_push(before, next, n);
                lemma_among_step(a@, i0, i as int, n);
                lemma_among_step(b@, j0, j as int, n);
            }
            if i < a@.len() {
                assert forall|k: int| 0 <= k < out@.len() implies name_before(
                    #[trigger] out@[k]@,
                    a@[i as int]@,
                ) by {
                    lemma_next_is_later(before, a@, i0, i as int, k, next@);
                }
            }
            if j < b@.len() {
                assert forall|k: int| 0 <= k < out@.len() implies name_before(
                    #[trigger] out@[k]@,
                    b@[j as int]@,
                ) by {
                    lemma_next_is_later(before, b@, j0, j as int, k, next@);
                }
            }
        }
    }
    proof {
        assert forall|n: Seq<char>|
            texts(out@).contains(n) <==> texts(a@).contains(n) || texts(b@).contains(n) by {
            lemma_among_all(out@, n);
            lemma_among_all(a@, n);
            lemma_among_all(b@, n);
        }
    }
    out
}

proof fn lemma_among_all(v: Seq<String>, n: Seq<char>)
    ensures
        among(v, v.len() as int, n) <==> texts(v).contains(n),
{
    if among(v, v.len() as int, n) {
        let i = choose|i: int| 0 <= i < v.len() && #[trigger] v[i]@ == n;
        assert(texts(v)[i] == n);
    }
    if texts(v).contains(n) {
        let i = choose|i: int| 0 <= i < v.len() && texts(v)[i] == n;
        assert(v[i]@ == n);
    }
}

proof fn lemma_among_push(v: Seq<String>, s: String, n: Seq<char>)
    ensures
        among(v.push(s), v.len() as int + 1, n) <==> among(v, v.len() as int, n) || s@ == n,
{
    let w = v.push(s);
    if among(v, v.len() as int, n) {
        let i = choose|i: int| 0 <= i < v.len() && #[trigger] v[i]@ == n;
        assert(w[i]@ == n);
    }
    if s@ == n {
        assert(w[v.len() as int]@ == n);
    }
    if among(w, v.len() as int + 1, n) {
        let i = choose|i: int| 0 <= i < v.len() + 1 && #[trigger] w[i]@ == n;
        if i < v.len() {
            assert(v[i]@ == n);
        }
    }
}

proof fn lemma_among_step(v: Seq<String>, k: int, m: int, n: Seq<char>)
    requires
        0 <= k <= m <= k + 1,
        m <= v.len(),
    ensures
        among(v, m, n) <==> among(v, k, n) || (m > k && v[k]@ == n),
{
}

/// After the list took `next`, its names still come before the name at `m`.
proof fn lemma_next_is_later(
    before: Seq<String>,
    v: Seq<String>,
    k: int,
    m: int,
    p: int,
    next: Seq<char>,
)
    requires
        ascending(texts(v)),
        0 <= k <= m <= k + 1,
        m < v.len(),
        0 <= p <= before.len(),
        forall|q: int| 0 <= q < before.len() ==> name_before(#[trigger] before[q]@, v[k]@),
        m > k ==> next == v[k]@,
        m == k ==> name_before(next, v[k]@),
    ensures
        p < before.len() ==> name_before(before[p]@, v[m]@),
        name_before(next, v[m]@),
{
    if m > k {
        assert(name_before(texts(v)[k], texts(v)[m]));
        if p < before.len() {
            name_order_is_transitive(before[p]@, v[k]@, v[m]@);
        }
    }
}

/// The names of `v` from `lo` up to `hi`, in order and each once.
fn sorted_range(v: &Vec<String>, lo: usize, hi: usize) -> (r: Vec<String>)
    requires
        lo <= hi <= v@.len(),
    ensures
        ascending(texts(r@)),
        forall|n: Seq<char>|
            texts(r@).contains(n) <==> texts(v@.subrange(lo as int, hi as int)).contains(n),
    decreases hi - lo,
{
    if hi - lo <= 1 {
        let mut out: Vec<String> = Vec::new();
        if lo < hi {
            out.push(v[lo].clone());
        }
        assert(out@ == v@.subrange(lo as int, hi as int));
        out
    } else {
        let mid: usize = lo + (hi - lo) / 2;
        let left = sorted_range(v, lo, mid);
        let right = sorted_range(v, mid, hi);
        proof {
            let whole = texts(v@.subrange(lo as int, hi as int));
            let first = texts(v@.subrange(lo as int, mid as int));
            let second = texts(v@.subrange(mid as int, hi as int));
            assert(whole == first + second);
            assert forall|n: Seq<char>|
                whole.contains(n) <==> first.contains(n) || second.contains(n) by {
                if first.contains(n) {
                    let i = choose|i: int| 0 <= i < first.len() && first[i] == n;
                    assert(whole[i] == n);
                }
                if second.contains(n) {
                    let i = choose|i: int| 0 <= i < second.len() && second[i] == n;
                    assert(whole[first.len() + i] == n);
                }
            }
        }
        merge(&left, &right)
    }
}

/// The names of `v`, in order and each once.
pub(crate) fn sort_and_dedup(v: &Vec<String>) -> (r: Vec<String>)
    ensures
        ascending(texts(r@)),
        forall|n: Seq<char>| texts(r@).contains(n) <==> texts(v@).contains(n),
{
    assert(v@.subrange(0, v@.len() as int) == v@);
    sorted_range(v, 0, v.len())
}

} // verus!
