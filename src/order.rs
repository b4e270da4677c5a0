//! The order of strings (that of Rust's `str`: lexicographic on the UTF-8
//! bytes) and sorted, duplicate-free collections keyed by strings.
use vstd::prelude::*;
use vstd::utf8::*;

verus! {

/// Lexicographic order on byte sequences; a proper prefix comes first.
pub open spec fn bytes_lt(a: Seq<u8>, b: Seq<u8>) -> bool
    decreases a.len(),
{
    if b.len() == 0 {
        false
    } else if a.len() == 0 {
        true
    } else if a[0] != b[0] {
        a[0] < b[0]
    } else {
        bytes_lt(a.drop_first(), b.drop_first())
    }
}

/// Strict order on strings: lexicographic on their UTF-8 encodings.
pub open spec fn str_lt(a: Seq<char>, b: Seq<char>) -> bool {
    bytes_lt(encode_utf8(a), encode_utf8(b))
}

/// The strings of `s` strictly increase.
pub open spec fn sorted_strs(s: Seq<String>) -> bool {
    forall|i: int, j: int| 0 <= i < j < s.len() ==> str_lt(#[trigger] s[i]@, #[trigger] s[j]@)
}

/// The keys of the entries of `s` strictly increase.
pub open spec fn sorted_keys<V>(s: Seq<(String, V)>) -> bool {
    forall|i: int, j: int| 0 <= i < j < s.len() ==> str_lt(#[trigger] s[i].0@, #[trigger] s[j].0@)
}

/// Some string occurs twice in `s`.
pub open spec fn has_duplicate_str(s: Seq<String>) -> bool {
    exists|i: int, j: int| 0 <= i < j < s.len() && #[trigger] s[i]@ == #[trigger] s[j]@
}

/// Some key occurs twice among the entries of `s`.
pub open spec fn has_duplicate_key<V>(s: Seq<(String, V)>) -> bool {
    exists|i: int, j: int| 0 <= i < j < s.len() && #[trigger] s[i].0@ == #[trigger] s[j].0@
}

/// Some entry of `s` has the key `k`.
pub open spec fn has_key<V>(s: Seq<(String, V)>, k: Seq<char>) -> bool {
    exists|i: int| 0 <= i < s.len() && #[trigger] s[i].0@ == k
}

proof fn lemma_bytes_lt_irreflexive(a: Seq<u8>)
    ensures
        !bytes_lt(a, a),
    decreases a.len(),
{
    if a.len() > 0 {
        lemma_bytes_lt_irreflexive(a.drop_first());
    }
}

proof fn lemma_bytes_lt_transitive(a: Seq<u8>, b: Seq<u8>, c: Seq<u8>)
    requires
        bytes_lt(a, b),
        bytes_lt(b, c),
    ensures
        bytes_lt(a, c),
    decreases a.len(),
{
    if a.len() > 0 && a[0] == b[0] && b[0] == c[0] {
        lemma_bytes_lt_transitive(a.drop_first(), b.drop_first(), c.drop_first());
    }
}

proof fn lemma_bytes_lt_total(a: Seq<u8>, b: Seq<u8>)
    requires
        a != b,
    ensures
        bytes_lt(a, b) || bytes_lt(b, a),
    decreases a.len(),
{
    if a.len() > 0 && b.len() > 0 && a[0] == b[0] {
        if a.drop_first() == b.drop_first() {
            assert(a =~= seq![a[0]] + a.drop_first());
            assert(b =~= seq![b[0]] + b.drop_first());
        }
        lemma_bytes_lt_total(a.drop_first(), b.drop_first());
    } else if a.len() == 0 && b.len() == 0 {
        assert(a =~= b);
    }
}

/// No string comes before itself.
pub proof fn lemma_str_lt_irreflexive(a: Seq<char>)
    ensures
        !str_lt(a, a),
{
    lemma_bytes_lt_irreflexive(encode_utf8(a));
}

/// The string order is transitive.
pub proof fn lemma_str_lt_transitive(a: Seq<char>, b: Seq<char>, c: Seq<char>)
    requires
        str_lt(a, b),
        str_lt(b, c),
    ensures
        str_lt(a, c),
{
    lemma_bytes_lt_transitive(encode_utf8(a), encode_utf8(b), encode_utf8(c));
}

/// Of two different strings, one comes first.
pub proof fn lemma_str_lt_total(a: Seq<char>, b: Seq<char>)
    requires
        a != b,
    ensures
        str_lt(a, b) || str_lt(b, a),
{
    encode_utf8_decode_utf8(a);
    encode_utf8_decode_utf8(b);
    lemma_bytes_lt_total(encode_utf8(a), encode_utf8(b));
}

/// No two strings come each before the other.
pub proof fn lemma_str_lt_asymmetric(a: Seq<char>, b: Seq<char>)
    ensures
        !(str_lt(a, b) && str_lt(b, a)),
{
    if str_lt(a, b) && str_lt(b, a) {
        lemma_str_lt_transitive(a, b, a);
        lemma_str_lt_irreflexive(a);
    }
}

/// A strictly increasing list repeats no string.
pub proof fn lemma_sorted_strs_no_duplicate(s: Seq<String>)
    requires
        sorted_strs(s),
    ensures
        !has_duplicate_str(s),
{
    assert forall|i: int, j: int| 0 <= i < j < s.len() implies #[trigger] s[i]@ != #[trigger] s[j]@ by {
        lemma_str_lt_irreflexive(s[i]@);
    }
}

/// A list whose keys strictly increase repeats no key.
pub proof fn lemma_sorted_keys_no_duplicate<V>(s: Seq<(String, V)>)
    requires
        sorted_keys(s),
    ensures
        !has_duplicate_key(s),
{
    assert forall|i: int, j: int| 0 <= i < j < s.len() implies #[trigger] s[i].0@ != #[trigger] s[j].0@ by {
        lemma_str_lt_irreflexive(s[i].0@);
    }
}

/// Whether `a` comes before `b` in the order of `str`.
pub fn str_less(a: &str, b: &str) -> (r: bool)
    ensures
        r == str_lt(a@, b@),
{
    let x = a.as_bytes();
    let y = b.as_bytes();
    let mut i: usize = 0;
    assert(x@.skip(0) =~= x@);
    assert(y@.skip(0) =~= y@);
    while i < x.len() && i < y.len()
        invariant
            i <= x@.len(),
            i <= y@.len(),
            x@ == encode_utf8(a@),
            y@ == encode_utf8(b@),
            bytes_lt(x@, y@) == bytes_lt(x@.skip(i as int), y@.skip(i as int)),
        decreases x@.len() - i,
    {
        if x[i] != y[i] {
            return x[i] < y[i];
        }
        assert(x@.skip(i as int).drop_first() =~= x@.skip(i + 1));
        assert(y@.skip(i as int).drop_first() =~= y@.skip(i + 1));
        i += 1;
    }
    i == x.len() && i < y.len()
}

/// Inserts `k` into the strictly increasing `set`, unless it is there
/// already. Returns whether it was inserted.
pub fn insert_str(set: &mut Vec<String>, k: String) -> (inserted: bool)
    requires
        sorted_strs(old(set)@),
    ensures
        sorted_strs(final(set)@),
        inserted == !(exists|i: int| 0 <= i < old(set)@.len() && #[trigger] old(set)@[i]@ == k@),
        !inserted ==> final(set)@ == old(set)@,
        inserted ==> exists|p: int|
            0 <= p <= old(set)@.len() && final(set)@ == old(set)@.insert(p, k) && (forall|i: int|
                0 <= i < p ==> str_lt(#[trigger] old(set)@[i]@, k@)),
{
    let mut p: usize = 0;
    while p < set.len() && str_less(set[p].as_str(), k.as_str())
        invariant
            p <= set@.len(),
            sorted_strs(set@),
            forall|i: int| 0 <= i < p ==> str_lt(#[trigger] set@[i]@, k@),
        decreases set@.len() - p,
    {
        p += 1;
    }
    proof {
        // every later element is at least set[p], which is not below k
        assert forall|i: int| p <= i < set@.len() implies !str_lt(#[trigger] set@[i]@, k@) by {
            if i > p && str_lt(set@[i]@, k@) {
                lemma_str_lt_transitive(set@[p as int]@, set@[i]@, k@);
            }
        }
        assert forall|i: int| 0 <= i < p implies set@[i]@ != k@ by {
            lemma_str_lt_irreflexive(k@);
        }
    }
    if p < set.len() && set[p] == k {
        return false;
    }
    proof {
        assert forall|i: int| p <= i < set@.len() implies str_lt(k@, #[trigger] set@[i]@) by {
            if i > p {
                if set@[p as int]@ != k@ {
                    lemma_str_lt_total(set@[p as int]@, k@);
                    lemma_str_lt_transitive(k@, set@[p as int]@, set@[i]@);
                }
            } else {
                lemma_str_lt_total(set@[p as int]@, k@);
            }
        }
    }
    let ghost prev = set@;
    set.insert(p, k);
    proof {
        assert forall|i: int, j: int| 0 <= i < j < set@.len() implies str_lt(
            #[trigger] set@[i]@,
            #[trigger] set@[j]@,
        ) by {
            if i < p && j == p {
            } else if i < p && j > p {
                lemma_str_lt_transitive(prev[i]@, k@, prev[j - 1]@);
            }
        }
    }
    true
}

/// Inserts the entry `(k, v)` into `map`, whose keys strictly increase,
/// unless `k` is a key there already. Returns whether it was inserted.
pub fn insert_entry<V>(map: &mut Vec<(String, V)>, k: String, v: V) -> (inserted: bool)
    requires
        sorted_keys(old(map)@),
    ensures
        sorted_keys(final(map)@),
        inserted == !has_key(old(map)@, k@),
        !inserted ==> final(map)@ == old(map)@,
        inserted ==> exists|p: int|
            0 <= p <= old(map)@.len() && final(map)@ == old(map)@.insert(p, (k, v)) && (forall|
                i: int,
            | 0 <= i < p ==> str_lt(#[trigger] old(map)@[i].0@, k@)),
{
    let mut p: usize = 0;
    while p < map.len() && str_less(map[p].0.as_str(), k.as_str())
        invariant
            p <= map@.len(),
            sorted_keys(map@),
            forall|i: int| 0 <= i < p ==> str_lt(#[trigger] map@[i].0@, k@),
        decreases map@.len() - p,
    {
        p += 1;
    }
    proof {
        assert forall|i: int| p <= i < map@.len() implies !str_lt(#[trigger] map@[i].0@, k@) by {
            if i > p && str_lt(map@[i].0@, k@) {
                lemma_str_lt_transitive(map@[p as int].0@, map@[i].0@, k@);
            }
        }
        assert forall|i: int| 0 <= i < p implies map@[i].0@ != k@ by {
            lemma_str_lt_irreflexive(k@);
        }
    }
    if p < map.len() && map[p].0 == k {
        return false;
    }
    proof {
        assert forall|i: int| p <= i < map@.len() implies str_lt(k@, #[trigger] map@[i].0@) by {
            if i > p {
                if map@[p as int].0@ != k@ {
                    lemma_str_lt_total(map@[p as int].0@, k@);
                    lemma_str_lt_transitive(k@, map@[p as int].0@, map@[i].0@);
                }
            } else {
                lemma_str_lt_total(map@[p as int].0@, k@);
            }
        }
    }
    let ghost prev = map@;
    map.insert(p, (k, v));
    proof {
        assert forall|i: int, j: int| 0 <= i < j < map@.len() implies str_lt(
            #[trigger] map@[i].0@,
            #[trigger] map@[j].0@,
        ) by {
            if i < p && j == p {
            } else if i < p && j > p {
                lemma_str_lt_transitive(prev[i].0@, k@, prev[j - 1].0@);
            }
        }
    }
    true
}

/// `s[j]` is the first string of `s` equal to one before it: nothing
/// repeats before index `j`.
pub open spec fn first_repeat_str(s: Seq<String>, j: int) -> bool {
    &&& 0 <= j < s.len()
    &&& exists|i: int| 0 <= i < j && #[trigger] s[i]@ == s[j]@
    &&& !has_duplicate_str(s.take(j))
}

/// The key of `s[j]` is the first key of `s` equal to one before it: no key
/// repeats before index `j`.
pub open spec fn first_repeat_key<V>(s: Seq<(String, V)>, j: int) -> bool {
    &&& 0 <= j < s.len()
    &&& exists|i: int| 0 <= i < j && #[trigger] s[i].0@ == s[j].0@
    &&& !has_duplicate_key(s.take(j))
}

/// Finds the first entry whose key repeats an earlier key, if any.
pub fn find_repeated_key<V>(entries: &Vec<(String, V)>) -> (r: Option<usize>)
    ensures
        r is None <==> !has_duplicate_key(entries@),
        r is Some ==> first_repeat_key(entries@, r->0 as int),
{
    let mut j: usize = 0;
    while j < entries.len()
        invariant
            j <= entries@.len(),
            !has_duplicate_key(entries@.take(j as int)),
        decreases entries@.len() - j,
    {
        let mut i: usize = 0;
        while i < j
            invariant
                i <= j < entries@.len(),
                !has_duplicate_key(entries@.take(j as int)),
                forall|q: int| 0 <= q < i ==> #[trigger] entries@[q].0@ != entries@[j as int].0@,
            decreases j - i,
        {
            if entries[i].0 == entries[j].0 {
                assert(entries@[i as int].0@ == entries@[j as int].0@);
                return Some(j);
            }
            i += 1;
        }
        proof {
            let t0 = entries@.take(j as int);
            let t1 = entries@.take(j + 1);
            assert forall|a: int, b: int| 0 <= a < b < t1.len() implies #[trigger] t1[a].0@ != #[trigger] t1[b].0@ by {
                assert(t1[a] == entries@[a]);
                assert(t1[b] == entries@[b]);
                if b < j {
                    assert(t0[a] == entries@[a]);
                    assert(t0[b] == entries@[b]);
                }
            }
        }
        j += 1;
    }
    proof {
        assert(entries@.take(j as int) =~= entries@);
    }
    None
}

/// Some string of `s` has the view `v`.
pub open spec fn has_str(s: Seq<String>, v: Seq<char>) -> bool {
    exists|i: int| 0 <= i < s.len() && #[trigger] s[i]@ == v
}

/// Gathers `items` into a strictly increasing list. Fails with a string
/// that occurs twice, if any does; a list that already increases comes
/// back as it was.
pub fn collect_unique_strs(items: Vec<String>) -> (r: Result<Vec<String>, String>)
    ensures
        r is Err <==> has_duplicate_str(items@),
        r is Err ==> exists|j: int| first_repeat_str(items@, j) && #[trigger] items@[j]@ == r->Err_0@,
        r is Ok ==> sorted_strs(r->Ok_0@) && r->Ok_0@.len() == items@.len() && (forall|v: Seq<char>|
            has_str(r->Ok_0@, v) <==> has_str(items@, v)),
        sorted_strs(items@) ==> r is Ok && r->Ok_0@ == items@,
{
    let ghost orig = items@;
    let mut rest = items;
    let mut set: Vec<String> = Vec::new();
    let n = rest.len();
    let mut i: usize = 0;
    while rest.len() > 0
        invariant
            i + rest@.len() == n,
            n == orig.len(),
            orig == items@,
            rest@ == orig.skip(i as int),
            sorted_strs(set@),
            set@.len() == i,
            !has_duplicate_str(orig.take(i as int)),
            forall|v: Seq<char>| has_str(set@, v) <==> has_str(orig.take(i as int), v),
            sorted_strs(orig) ==> set@ == orig.take(i as int),
        decreases rest@.len(),
    {
        let k = rest.remove(0);
        assert(k == orig[i as int]);
        let ghost prev = set@;
        let ghost kv = k@;
        let dup = k.clone();
        if !insert_str(&mut set, k) {
            assert(has_str(prev, kv));
            assert(has_str(orig.take(i as int), kv));
            let ghost m = choose|m: int| 0 <= m < i && #[trigger] orig.take(i as int)[m]@ == kv;
            assert(orig.take(i as int)[m] == orig[m]);
            assert(orig[m]@ == kv && orig[i as int]@ == kv);
            assert(has_duplicate_str(orig));
            assert(first_repeat_str(orig, i as int));
            proof {
                if sorted_strs(orig) {
                    lemma_str_lt_irreflexive(kv);
                }
            }
            return Err(dup);
        }
        proof {
            let p = choose|p: int|
                0 <= p <= prev.len() && set@ == prev.insert(p, orig[i as int]) && (forall|q: int|
                    0 <= q < p ==> str_lt(#[trigger] prev[q]@, kv));
            let t1 = orig.take(i + 1);
            assert(t1 =~= orig.take(i as int).push(orig[i as int]));
            assert forall|v: Seq<char>| has_str(set@, v) <==> has_str(t1, v) by {
                if has_str(set@, v) {
                    let q = choose|q: int| 0 <= q < set@.len() && #[trigger] set@[q]@ == v;
                    if q < p {
                        assert(prev[q] == set@[q]);
                    } else if q > p {
                        assert(prev[q - 1] == set@[q]);
                    }
                    if q != p {
                        assert(has_str(prev, v));
                        let m = choose|m: int| 0 <= m < i && #[trigger] orig.take(i as int)[m]@ == v;
                        assert(t1[m] == orig.take(i as int)[m]);
                    } else {
                        assert(t1[i as int] == orig[i as int]);
                    }
                }
                if has_str(t1, v) {
                    let m = choose|m: int| 0 <= m < t1.len() && #[trigger] t1[m]@ == v;
                    if m < i {
                        assert(orig.take(i as int)[m] == t1[m]);
                        assert(has_str(prev, v));
                        let q = choose|q: int| 0 <= q < prev.len() && #[trigger] prev[q]@ == v;
                        if q < p {
                            assert(set@[q] == prev[q]);
                        } else {
                            assert(set@[q + 1] == prev[q]);
                        }
                    } else {
                        assert(set@[p] == orig[i as int]);
                    }
                }
            }
            assert forall|a: int, b: int| 0 <= a < b < t1.len() implies #[trigger] t1[a]@ != #[trigger] t1[b]@ by {
                if b < i {
                    assert(t1[a] == orig.take(i as int)[a]);
                    assert(t1[b] == orig.take(i as int)[b]);
                } else {
                    assert(t1[a] == orig.take(i as int)[a]);
                    if t1[a]@ == kv {
                        assert(has_str(orig.take(i as int), kv));
                        assert(has_str(prev, kv));
                    }
                }
            }
            if sorted_strs(orig) {
                if p < prev.len() {
                    assert(prev[p] == orig[p]);
                    assert(str_lt(orig[p]@, orig[i as int]@));
                    assert(set@[p + 1] == prev[p]);
                    assert(str_lt(set@[p]@, set@[p + 1]@));
                    lemma_str_lt_asymmetric(kv, orig[p]@);
                }
                assert(set@ =~= t1);
            }
        }
        i += 1;
    }
    assert(orig.take(n as int) =~= orig);
    Ok(set)
}

pub proof fn lemma_insert_contains<T>(prev: Seq<T>, p: int, x: T, e: T)
    requires
        0 <= p <= prev.len(),
    ensures
        prev.insert(p, x).contains(e) <==> (prev.contains(e) || e == x),
{
    let s = prev.insert(p, x);
    if s.contains(e) {
        let q = choose|q: int| 0 <= q < s.len() && s[q] == e;
        if q < p {
            assert(prev[q] == s[q]);
        } else if q > p {
            assert(prev[q - 1] == s[q]);
        }
    }
    if prev.contains(e) {
        let q = choose|q: int| 0 <= q < prev.len() && prev[q] == e;
        if q < p {
            assert(s[q] == prev[q]);
        } else {
            assert(s[q + 1] == prev[q]);
        }
    }
    if e == x {
        assert(s[p] == x);
    }
}

pub proof fn lemma_insert_has_key<V>(prev: Seq<(String, V)>, p: int, x: (String, V), k: Seq<char>)
    requires
        0 <= p <= prev.len(),
    ensures
        has_key(prev.insert(p, x), k) <==> (has_key(prev, k) || x.0@ == k),
{
    let s = prev.insert(p, x);
    if has_key(s, k) {
        let q = choose|q: int| 0 <= q < s.len() && #[trigger] s[q].0@ == k;
        if q < p {
            assert(prev[q] == s[q]);
        } else if q > p {
            assert(prev[q - 1] == s[q]);
        }
    }
    if has_key(prev, k) {
        let q = choose|q: int| 0 <= q < prev.len() && #[trigger] prev[q].0@ == k;
        if q < p {
            assert(s[q] == prev[q]);
        } else {
            assert(s[q + 1] == prev[q]);
        }
    }
    if x.0@ == k {
        assert(s[p] == x);
    }
}

/// Gathers `entries` into a list whose keys strictly increase. Fails with
/// a key that occurs twice, if any does; a list whose keys already increase
/// comes back as it was.
pub fn collect_unique_entries<V>(entries: Vec<(String, V)>) -> (r: Result<Vec<(String, V)>, String>)
    ensures
        r is Err <==> has_duplicate_key(entries@),
        r is Err ==> exists|j: int| first_repeat_key(entries@, j) && #[trigger] entries@[j].0@ == r->Err_0@,
        r is Ok ==> sorted_keys(r->Ok_0@) && r->Ok_0@.len() == entries@.len() && (forall|e: (String, V)|
            r->Ok_0@.contains(e) <==> entries@.contains(e)),
        sorted_keys(entries@) ==> r is Ok && r->Ok_0@ == entries@,
{
    let ghost orig = entries@;
    let mut rest = entries;
    let mut map: Vec<(String, V)> = Vec::new();
    let n = rest.len();
    let mut i: usize = 0;
    while rest.len() > 0
        invariant
            i + rest@.len() == n,
            n == orig.len(),
            orig == entries@,
            rest@ == orig.skip(i as int),
            sorted_keys(map@),
            map@.len() == i,
            !has_duplicate_key(orig.take(i as int)),
            forall|e: (String, V)| map@.contains(e) <==> orig.take(i as int).contains(e),
            forall|k: Seq<char>| has_key(map@, k) <==> has_key(orig.take(i as int), k),
            sorted_keys(orig) ==> map@ == orig.take(i as int),
        decreases rest@.len(),
    {
        let (k, v) = rest.remove(0);
        let ghost e = orig[i as int];
        assert((k, v) == e);
        let ghost prev = map@;
        let ghost kv = k@;
        let dup = k.clone();
        if !insert_entry(&mut map, k, v) {
            assert(has_key(orig.take(i as int), kv));
            let ghost m = choose|m: int| 0 <= m < i && #[trigger] orig.take(i as int)[m].0@ == kv;
            assert(orig.take(i as int)[m] == orig[m]);
            assert(orig[m].0@ == kv && orig[i as int].0@ == kv);
            assert(has_duplicate_key(orig));
            assert(first_repeat_key(orig, i as int));
            proof {
                if sorted_keys(orig) {
                    lemma_str_lt_irreflexive(kv);
                }
            }
            return Err(dup);
        }
        proof {
            let p = choose|p: int|
                0 <= p <= prev.len() && map@ == prev.insert(p, e) && (forall|q: int|
                    0 <= q < p ==> str_lt(#[trigger] prev[q].0@, kv));
            let t0 = orig.take(i as int);
            let t1 = orig.take(i + 1);
            assert(t1 =~= t0.insert(i as int, e));
            assert forall|x: (String, V)| map@.contains(x) <==> t1.contains(x) by {
                lemma_insert_contains(prev, p, e, x);
                lemma_insert_contains(t0, i as int, e, x);
            }
            assert forall|k2: Seq<char>| has_key(map@, k2) <==> has_key(t1, k2) by {
                lemma_insert_has_key(prev, p, e, k2);
                lemma_insert_has_key(t0, i as int, e, k2);
            }
            assert forall|a: int, b: int| 0 <= a < b < t1.len() implies #[trigger] t1[a].0@ != #[trigger] t1[b].0@ by {
                assert(t1[a] == t0[a]);
                if b < i {
                    assert(t1[b] == t0[b]);
                } else if t1[a].0@ == kv {
                    assert(has_key(t0, kv));
                }
            }
            if sorted_keys(orig) {
                if p < prev.len() {
                    assert(prev[p] == orig[p]);
                    assert(str_lt(orig[p].0@, orig[i as int].0@));
                    assert(map@[p + 1] == prev[p]);
                    assert(str_lt(map@[p].0@, map@[p + 1].0@));
                    lemma_str_lt_asymmetric(kv, orig[p].0@);
                }
                assert(map@ =~= t1);
            }
        }
        i += 1;
    }
    assert(orig.take(n as int) =~= orig);
    Ok(map)
}

/// Two strictly increasing lists that hold the same strings agree string by
/// string.
pub proof fn lemma_sorted_strs_unique(a: Seq<String>, b: Seq<String>)
    requires
        sorted_strs(a),
        sorted_strs(b),
        forall|v: Seq<char>| has_str(a, v) <==> has_str(b, v),
    ensures
        a.len() == b.len(),
        forall|i: int| 0 <= i < a.len() ==> #[trigger] a[i]@ == b[i]@,
    decreases a.len(),
{
    if a.len() == 0 {
        if b.len() > 0 {
            assert(has_str(b, b[0]@));
        }
    } else {
        assert(has_str(a, a[0]@));
        let j = choose|j: int| 0 <= j < b.len() && #[trigger] b[j]@ == a[0]@;
        assert(has_str(b, b[0]@));
        let k = choose|k: int| 0 <= k < a.len() && #[trigger] a[k]@ == b[0]@;
        if j > 0 {
            if k > 0 {
                lemma_str_lt_asymmetric(a[0]@, b[0]@);
            } else {
                lemma_str_lt_irreflexive(b[0]@);
            }
        }
        let ta = a.drop_first();
        let tb = b.drop_first();
        assert forall|v: Seq<char>| has_str(ta, v) <==> has_str(tb, v) by {
            if has_str(ta, v) {
                let m = choose|m: int| 0 <= m < ta.len() && #[trigger] ta[m]@ == v;
                assert(a[m + 1] == ta[m]);
                assert(has_str(a, v));
                let q = choose|q: int| 0 <= q < b.len() && #[trigger] b[q]@ == v;
                if q == 0 {
                    lemma_str_lt_irreflexive(a[0]@);
                }
                assert(tb[q - 1] == b[q]);
            }
            if has_str(tb, v) {
                let m = choose|m: int| 0 <= m < tb.len() && #[trigger] tb[m]@ == v;
                assert(b[m + 1] == tb[m]);
                assert(has_str(b, v));
                let q = choose|q: int| 0 <= q < a.len() && #[trigger] a[q]@ == v;
                if q == 0 {
                    lemma_str_lt_irreflexive(b[0]@);
                }
                assert(ta[q - 1] == a[q]);
            }
        }
        lemma_sorted_strs_unique(ta, tb);
        assert forall|i: int| 0 <= i < a.len() implies #[trigger] a[i]@ == b[i]@ by {
            if i > 0 {
                assert(ta[i - 1] == a[i]);
                assert(tb[i - 1] == b[i]);
            }
        }
    }
}

/// Whether the strings of `v` strictly increase.
pub fn is_sorted_strs(v: &Vec<String>) -> (r: bool)
    ensures
        r == sorted_strs(v@),
{
    if v.len() == 0 {
        return true;
    }
    let mut i: usize = 1;
    while i < v.len()
        invariant
            1 <= i <= v@.len(),
            forall|a: int, b: int| 0 <= a < b < i ==> str_lt(#[trigger] v@[a]@, #[trigger] v@[b]@),
        decreases v@.len() - i,
    {
        if !str_less(v[i - 1].as_str(), v[i].as_str()) {
            return false;
        }
        proof {
            assert forall|a: int, b: int| 0 <= a < b < i + 1 implies str_lt(#[trigger] v@[a]@, #[trigger] v@[b]@) by {
                if b == i && a < i - 1 {
                    lemma_str_lt_transitive(v@[a]@, v@[i - 1]@, v@[b]@);
                }
            }
        }
        i += 1;
    }
    true
}

/// Whether the keys of `v` strictly increase.
pub fn is_sorted_keys<V>(v: &Vec<(String, V)>) -> (r: bool)
    ensures
        r == sorted_keys(v@),
{
    if v.len() == 0 {
        return true;
    }
    let mut i: usize = 1;
    while i < v.len()
        invariant
            1 <= i <= v@.len(),
            forall|a: int, b: int| 0 <= a < b < i ==> str_lt(#[trigger] v@[a].0@, #[trigger] v@[b].0@),
        decreases v@.len() - i,
    {
        if !str_less(v[i - 1].0.as_str(), v[i].0.as_str()) {
            return false;
        }
        proof {
            assert forall|a: int, b: int| 0 <= a < b < i + 1 implies str_lt(#[trigger] v@[a].0@, #[trigger] v@[b].0@) by {
                if b == i && a < i - 1 {
                    lemma_str_lt_transitive(v@[a].0@, v@[i - 1].0@, v@[b].0@);
                }
            }
        }
        i += 1;
    }
    true
}

} // verus!
