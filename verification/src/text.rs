//! Byte-level text primitives: ASCII literals, whitespace trimming, searching,
//! splitting at separators, and the logical-line view of a byte stream that the
//! beatmap parser and serializer share.

use vstd::prelude::*;
use vstd::slice::{slice_index_get, slice_subrange, slice_to_vec};

verus! {

pub const NL: u8 = 10;
pub const COMMA: u8 = 44;
pub const COLON: u8 = 58;
pub const DOT: u8 = 46;
pub const MINUS: u8 = 45;
pub const SPACE: u8 = 32;

/// The bytes of an ASCII character sequence.
pub open spec fn ascii_bytes(s: Seq<char>) -> Seq<u8> {
    Seq::new(s.len(), |i: int| s[i] as u8)
}

/// Bytes counted as trailing whitespace by the line reader: space, tab,
/// carriage return, vertical tab, form feed.
pub open spec fn is_ws(b: u8) -> bool {
    b == 32 || b == 9 || b == 13 || b == 11 || b == 12
}

pub open spec fn no_nl(s: Seq<u8>) -> bool {
    forall|i: int| 0 <= i < s.len() ==> s[i] != NL
}

pub open spec fn is_blank(s: Seq<u8>) -> bool {
    forall|i: int| 0 <= i < s.len() ==> is_ws(s[i])
}

pub open spec fn is_comment(s: Seq<u8>) -> bool {
    s.len() >= 2 && s[0] == 47 && s[1] == 47
}

/// A line as the reader keeps it: non-empty, free of newlines, already
/// trimmed at its end, neither blank nor a comment.
pub open spec fn kept_ok(l: Seq<u8>) -> bool {
    &&& l.len() > 0
    &&& no_nl(l)
    &&& !is_ws(l[l.len() - 1])
    &&& !is_comment(l)
}

/// Byte-for-byte equality of two slices.
pub fn eq_bytes(a: &[u8], b: &[u8]) -> (r: bool)
    ensures
        r == (a@ == b@),
{
    if a.len() != b.len() {
        proof {
            assert(a@ != b@);
        }
        return false;
    }
    let mut i: usize = 0;
    while i < a.len()
        invariant
            0 <= i <= a@.len(),
            a@.len() == b@.len(),
            forall|j: int| 0 <= j < i ==> a@[j] == b@[j],
        decreases a@.len() - i,
    {
        if *slice_index_get(a, i) != *slice_index_get(b, i) {
            proof {
                assert(a@ != b@);
            }
            return false;
        }
        i = i + 1;
    }
    proof {
        assert(a@ =~= b@);
    }
    true
}

/// Whether `a` begins with `p`.
pub fn starts_with_bytes(a: &[u8], p: &[u8]) -> (r: bool)
    ensures
        r == (a@.len() >= p@.len() && a@.subrange(0, p@.len() as int) == p@),
{
    if a.len() < p.len() {
        return false;
    }
    let front = slice_subrange(a, 0, p.len());
    eq_bytes(front, p)
}

/// Copies `s[i..j]` into a fresh vector.
pub fn subvec(s: &[u8], i: usize, j: usize) -> (r: Vec<u8>)
    requires
        0 <= i <= j <= s@.len(),
    ensures
        r@ == s@.subrange(i as int, j as int),
{
    slice_to_vec(slice_subrange(s, i, j))
}

/// Appends all of `s` to `v`.
pub fn append_bytes(v: &mut Vec<u8>, s: &[u8])
    ensures
        final(v)@ == old(v)@ + s@,
{
    let mut i: usize = 0;
    while i < s.len()
        invariant
            0 <= i <= s@.len(),
            v@ == old(v)@ + s@.subrange(0, i as int),
        decreases s@.len() - i,
    {
        v.push(*slice_index_get(s, i));
        i = i + 1;
        proof {
            assert(old(v)@ + s@.subrange(0, i - 1) + seq![s@[i - 1]] =~= old(v)@ + s@.subrange(
                0,
                i as int,
            ));
        }
    }
    proof {
        assert(s@.subrange(0, s@.len() as int) =~= s@);
    }
}

/// Index of the first occurrence of `b` in `s`, or `s.len()` if absent.
pub open spec fn find_first(s: Seq<u8>, b: u8) -> int
    decreases s.len(),
{
    if s.len() == 0 {
        0
    } else if s[0] == b {
        0
    } else {
        1 + find_first(s.subrange(1, s.len() as int), b)
    }
}

pub proof fn lemma_find_first(s: Seq<u8>, b: u8)
    ensures
        0 <= find_first(s, b) <= s.len(),
        find_first(s, b) < s.len() ==> s[find_first(s, b)] == b,
        forall|i: int| 0 <= i < find_first(s, b) ==> s[i] != b,
    decreases s.len(),
{
    if s.len() == 0 {
    } else if s[0] == b {
    } else {
        let t = s.subrange(1, s.len() as int);
        lemma_find_first(t, b);
        assert forall|i: int| 0 <= i < find_first(s, b) implies s[i] != b by {
            if i > 0 {
                assert(s[i] == t[i - 1]);
            }
        }
    }
}

/// Any position whose earlier bytes all differ from `b` and which either
/// holds `b` or is the end is exactly `find_first`.
pub proof fn lemma_find_first_is(s: Seq<u8>, b: u8, k: int)
    requires
        0 <= k <= s.len(),
        forall|i: int| 0 <= i < k ==> s[i] != b,
        k < s.len() ==> s[k] == b,
    ensures
        find_first(s, b) == k,
    decreases s.len(),
{
    if s.len() == 0 {
    } else if s[0] == b {
        assert(k == 0);
    } else {
        let t = s.subrange(1, s.len() as int);
        assert(k >= 1);
        assert forall|i: int| 0 <= i < k - 1 implies t[i] != b by {
            assert(t[i] == s[i + 1]);
        }
        lemma_find_first_is(t, b, k - 1);
    }
}

/// Finds the first occurrence of `b` in `s` at or after `from`.
pub fn find_byte(s: &[u8], from: usize, b: u8) -> (r: usize)
    requires
        0 <= from <= s@.len(),
    ensures
        from <= r <= s@.len(),
        r - from == find_first(s@.subrange(from as int, s@.len() as int), b),
        r < s@.len() ==> s@[r as int] == b,
        forall|i: int| from <= i < r ==> s@[i] != b,
{
    let ghost tail = s@.subrange(from as int, s@.len() as int);
    let mut i: usize = from;
    while i < s.len()
        invariant
            from <= i <= s@.len(),
            tail == s@.subrange(from as int, s@.len() as int),
            forall|j: int| from <= j < i ==> s@[j] != b,
        decreases s@.len() - i,
    {
        if *slice_index_get(s, i) == b {
            proof {
                assert forall|j: int| 0 <= j < i - from implies tail[j] != b by {
                    assert(tail[j] == s@[from + j]);
                }
                assert(tail[i - from] == s@[i as int]);
                lemma_find_first_is(tail, b, i - from);
            }
            return i;
        }
        i = i + 1;
    }
    proof {
        assert forall|j: int| 0 <= j < tail.len() implies tail[j] != b by {
            assert(tail[j] == s@[from + j]);
        }
        lemma_find_first_is(tail, b, tail.len() as int);
    }
    s.len()
}

/// Appends all of `s` to `v`.
pub fn append_i16(v: &mut Vec<i16>, s: &[i16])
    ensures
        final(v)@ == old(v)@ + s@,
{
    let mut i: usize = 0;
    while i < s.len()
        invariant
            0 <= i <= s@.len(),
            v@ == old(v)@ + s@.subrange(0, i as int),
        decreases s@.len() - i,
    {
        v.push(*slice_index_get(s, i));
        i = i + 1;
        proof {
            assert(old(v)@ + s@.subrange(0, i - 1) + seq![s@[i - 1]] =~= old(v)@ + s@.subrange(
                0,
                i as int,
            ));
        }
    }
    proof {
        assert(s@.subrange(0, s@.len() as int) =~= s@);
    }
}

/// Index of the last occurrence of `b` in `s`, or `-1` if absent.
pub open spec fn find_last(s: Seq<u8>, b: u8) -> int
    decreases s.len(),
{
    if s.len() == 0 {
        -1
    } else if s[s.len() - 1] == b {
        s.len() - 1
    } else {
        find_last(s.drop_last(), b)
    }
}

/// Index of the last dot in `s`, or `-1` if it has none.
pub open spec fn find_last_dot(s: Seq<u8>) -> int {
    find_last(s, DOT)
}

pub proof fn lemma_find_last(s: Seq<u8>, b: u8)
    ensures
        -1 <= find_last(s, b) < s.len(),
        find_last(s, b) >= 0 ==> s[find_last(s, b)] == b,
        forall|i: int| find_last(s, b) < i < s.len() ==> s[i] != b,
    decreases s.len(),
{
    if s.len() == 0 {
    } else if s[s.len() - 1] == b {
    } else {
        lemma_find_last(s.drop_last(), b);
        assert forall|i: int| find_last(s, b) < i < s.len() implies s[i] != b by {
            if i < s.len() - 1 {
                assert(s.drop_last()[i] == s[i]);
            }
        }
    }
}

/// Finds the last occurrence of `b` in `s`, or `s.len()` if absent.
pub fn rfind_byte(s: &[u8], b: u8) -> (r: usize)
    ensures
        if find_last(s@, b) >= 0 {
            r == find_last(s@, b)
        } else {
            r == s@.len()
        },
{
    let mut j: usize = s.len();
    #[verifier::loop_isolation(false)]
    loop
        invariant
            0 <= j <= s@.len(),
            forall|i: int| j <= i < s@.len() ==> s@[i] != b,
        decreases j,
    {
        if j == 0 {
            proof {
                lemma_find_last(s@, b);
                if find_last(s@, b) >= 0 {
                    assert(s@[find_last(s@, b)] == b);
                    assert(false);
                }
            }
            return s.len();
        }
        if *slice_index_get(s, j - 1) == b {
            proof {
                lemma_find_last_is(s@, b, j - 1);
            }
            return j - 1;
        }
        j = j - 1;
    }
}

/// A position holding `b` with only non-`b` bytes after it is `find_last`.
pub proof fn lemma_find_last_is(s: Seq<u8>, b: u8, k: int)
    requires
        0 <= k < s.len(),
        s[k] == b,
        forall|i: int| k < i < s.len() ==> s[i] != b,
    ensures
        find_last(s, b) == k,
    decreases s.len(),
{
    if s[s.len() - 1] == b {
        assert(k == s.len() - 1);
    } else {
        assert(k < s.len() - 1);
        assert forall|i: int| k < i < s.drop_last().len() implies s.drop_last()[i] != b by {
            assert(s.drop_last()[i] == s[i]);
        }
        assert(s.drop_last()[k] == s[k]);
        lemma_find_last_is(s.drop_last(), b, k);
    }
}

/// `s` with trailing whitespace removed.
pub open spec fn trim_end_spec(s: Seq<u8>) -> Seq<u8>
    decreases s.len(),
{
    if s.len() > 0 && is_ws(s[s.len() - 1]) {
        trim_end_spec(s.drop_last())
    } else {
        s
    }
}

pub proof fn lemma_trim_end_props(s: Seq<u8>)
    ensures
        trim_end_spec(s).len() <= s.len(),
        trim_end_spec(s) == s.subrange(0, trim_end_spec(s).len() as int),
        trim_end_spec(s).len() > 0 ==> !is_ws(trim_end_spec(s)[trim_end_spec(s).len() - 1]),
        trim_end_spec(s).len() == 0 <==> is_blank(s),
    decreases s.len(),
{
    if s.len() > 0 && is_ws(s[s.len() - 1]) {
        lemma_trim_end_props(s.drop_last());
        assert(trim_end_spec(s) == trim_end_spec(s.drop_last()));
        assert(s.drop_last() == s.subrange(0, s.len() - 1));
        assert(trim_end_spec(s) =~= s.subrange(0, trim_end_spec(s).len() as int));
        if trim_end_spec(s).len() == 0 {
            assert forall|i: int| 0 <= i < s.len() implies is_ws(s[i]) by {
                if i < s.len() - 1 {
                    assert(s.drop_last()[i] == s[i]);
                }
            }
        } else {
            assert(!is_blank(s.drop_last()));
            let j = choose|j: int| 0 <= j < s.drop_last().len() && !is_ws(s.drop_last()[j]);
            assert(s[j] == s.drop_last()[j]);
            assert(!is_blank(s));
        }
    } else {
        assert(trim_end_spec(s) =~= s.subrange(0, s.len() as int));
        if s.len() > 0 {
            assert(!is_ws(s[s.len() - 1]));
            assert(!is_blank(s));
        }
    }
}

/// Removes trailing whitespace from `s`.
pub fn trim_end(s: &[u8]) -> (r: Vec<u8>)
    ensures
        r@ == trim_end_spec(s@),
{
    let mut j: usize = s.len();
    proof {
        assert(s@.subrange(0, s@.len() as int) =~= s@);
    }
    loop
        invariant
            0 <= j <= s@.len(),
            trim_end_spec(s@) == trim_end_spec(s@.subrange(0, j as int)),
        ensures
            0 <= j <= s@.len(),
            trim_end_spec(s@) == s@.subrange(0, j as int),
        decreases j,
    {
        if j == 0 {
            proof {
                assert(trim_end_spec(s@.subrange(0, 0)) =~= s@.subrange(0, 0));
            }
            break ;
        }
        let b = *slice_index_get(s, j - 1);
        if !(b == 32 || b == 9 || b == 13 || b == 11 || b == 12) {
            proof {
                let t = s@.subrange(0, j as int);
                assert(!is_ws(t[t.len() - 1]));
                assert(trim_end_spec(t) == t);
            }
            break ;
        }
        proof {
            assert(s@.subrange(0, j as int).drop_last() =~= s@.subrange(0, j - 1));
        }
        j = j - 1;
    }
    subvec(s, 0, j)
}

/// `s` split at every comma; always at least one field.
pub open spec fn split_commas(s: Seq<u8>) -> Seq<Seq<u8>>
    decreases s.len(),
{
    let k = find_first(s, COMMA);
    if 0 <= k < s.len() {
        seq![s.subrange(0, k)] + split_commas(s.subrange(k + 1, s.len() as int))
    } else {
        seq![s]
    }
}

/// The fields of `split_commas`, joined back with commas.
pub open spec fn join_commas(ls: Seq<Seq<u8>>) -> Seq<u8>
    decreases ls.len(),
{
    if ls.len() == 0 {
        Seq::empty()
    } else if ls.len() == 1 {
        ls[0]
    } else {
        ls[0] + seq![COMMA] + join_commas(ls.subrange(1, ls.len() as int))
    }
}

pub open spec fn no_byte(s: Seq<u8>, b: u8) -> bool {
    forall|i: int| 0 <= i < s.len() ==> s[i] != b
}

/// Splitting after a comma-free first field peels that field off.
pub proof fn lemma_split_commas_step(a: Seq<u8>, rest: Seq<u8>)
    requires
        no_byte(a, COMMA),
    ensures
        split_commas(a + seq![COMMA] + rest) == seq![a] + split_commas(rest),
{
    let s = a + seq![COMMA] + rest;
    assert forall|i: int| 0 <= i < a.len() implies s[i] != COMMA by {
        assert(s[i] == a[i]);
    }
    assert(s[a.len() as int] == COMMA);
    lemma_find_first_is(s, COMMA, a.len() as int);
    assert(s.subrange(0, a.len() as int) =~= a);
    assert(s.subrange(a.len() as int + 1, s.len() as int) =~= rest);
}

pub proof fn lemma_split_commas_len(s: Seq<u8>)
    ensures
        split_commas(s).len() >= 1,
    decreases s.len(),
{
    let k = find_first(s, COMMA);
    if 0 <= k < s.len() {
        lemma_split_commas_len(s.subrange(k + 1, s.len() as int));
    }
}

/// Joining the comma-split fields of `s` gives back `s`.
pub proof fn lemma_join_split_commas(s: Seq<u8>)
    ensures
        join_commas(split_commas(s)) == s,
    decreases s.len(),
{
    let k = find_first(s, COMMA);
    if 0 <= k < s.len() {
        let rest = s.subrange(k + 1, s.len() as int);
        lemma_join_split_commas(rest);
        lemma_split_commas_len(rest);
        let parts = seq![s.subrange(0, k)] + split_commas(rest);
        assert(parts.subrange(1, parts.len() as int) =~= split_commas(rest));
        assert(join_commas(parts) == s.subrange(0, k) + seq![COMMA] + join_commas(
            split_commas(rest),
        ));
        lemma_find_first(s, COMMA);
        assert(s.subrange(0, k) + seq![COMMA] + rest =~= s);
    }
}

/// Joining one more field appends a comma and the field.
pub proof fn lemma_join_commas_snoc(ls: Seq<Seq<u8>>, x: Seq<u8>)
    requires
        ls.len() >= 1,
    ensures
        join_commas(ls.push(x)) == join_commas(ls) + seq![COMMA] + x,
    decreases ls.len(),
{
    if ls.len() == 1 {
        let p = ls.push(x);
        assert(p.len() == 2);
        assert(p.subrange(1, 2) =~= seq![x]);
        assert(join_commas(seq![x]) == x);
        assert(join_commas(p) == p[0] + seq![COMMA] + x);
        assert(p[0] == ls[0]);
        assert(join_commas(ls) == ls[0]);
    } else {
        let t = ls.subrange(1, ls.len() as int);
        lemma_join_commas_snoc(t, x);
        let p = ls.push(x);
        assert(p.subrange(1, p.len() as int) =~= t.push(x));
        assert(join_commas(p) == p[0] + seq![COMMA] + join_commas(t.push(x)));
        assert(p[0] == ls[0]);
        assert(ls[0] + seq![COMMA] + (join_commas(t) + seq![COMMA] + x) =~= (ls[0] + seq![COMMA]
            + join_commas(t)) + seq![COMMA] + x);
    }
}

/// Every byte of a join satisfies what every field byte and the comma do.
pub proof fn lemma_join_commas_bytes(ls: Seq<Seq<u8>>, p: spec_fn(u8) -> bool)
    requires
        forall|t: int, j: int| 0 <= t < ls.len() && 0 <= j < ls[t].len() ==> p(#[trigger] ls[t][j]),
        p(COMMA),
    ensures
        forall|i: int| 0 <= i < join_commas(ls).len() ==> p(#[trigger] join_commas(ls)[i]),
    decreases ls.len(),
{
    if ls.len() <= 1 {
        if ls.len() == 1 {
            assert forall|i: int| 0 <= i < join_commas(ls).len() implies p(
                #[trigger] join_commas(ls)[i],
            ) by {
                assert(join_commas(ls)[i] == ls[0][i]);
            }
        }
    } else {
        let t = ls.subrange(1, ls.len() as int);
        assert forall|a: int, j: int|
            0 <= a < t.len() && 0 <= j < t[a].len() implies p(#[trigger] t[a][j]) by {
            assert(t[a] == ls[a + 1]);
        }
        lemma_join_commas_bytes(t, p);
        assert forall|i: int| 0 <= i < join_commas(ls).len() implies p(
            #[trigger] join_commas(ls)[i],
        ) by {
            let h = ls[0];
            if i < h.len() {
                assert(join_commas(ls)[i] == h[i]);
            } else if i == h.len() {
                assert(join_commas(ls)[i] == COMMA);
            } else {
                assert(join_commas(ls)[i] == join_commas(t)[i - h.len() - 1]);
            }
        }
    }
}

/// The last comma-split field is a suffix of the split string.
pub proof fn lemma_split_commas_last(s: Seq<u8>)
    ensures
        ({
            let lt = split_commas(s).last();
            lt.len() <= s.len() && lt =~= s.subrange(s.len() - lt.len(), s.len() as int)
        }),
    decreases s.len(),
{
    lemma_find_first(s, COMMA);
    let k = find_first(s, COMMA);
    if 0 <= k < s.len() {
        let rest = s.subrange(k + 1, s.len() as int);
        lemma_split_commas_last(rest);
        lemma_split_commas_len(rest);
        let parts = seq![s.subrange(0, k)] + split_commas(rest);
        assert(parts.last() == split_commas(rest).last());
        let lt = split_commas(rest).last();
        assert(rest.subrange(rest.len() - lt.len(), rest.len() as int) =~= s.subrange(
            s.len() - lt.len(),
            s.len() as int,
        ));
    } else {
        assert(split_commas(s).last() == s);
        assert(s =~= s.subrange(0, s.len() as int));
    }
}

/// The last byte of a join: the last field's last byte when that field is
/// non-empty, otherwise a comma (or nothing at all).
pub proof fn lemma_join_commas_last(ls: Seq<Seq<u8>>)
    requires
        ls.len() >= 1,
    ensures
        ls.last().len() > 0 ==> join_commas(ls).len() > 0 && join_commas(ls).last()
            == ls.last().last(),
        ls.last().len() == 0 ==> join_commas(ls).len() == 0 || join_commas(ls).last() == COMMA,
    decreases ls.len(),
{
    if ls.len() == 1 {
        assert(join_commas(ls) == ls[0]);
    } else {
        let t = ls.subrange(1, ls.len() as int);
        lemma_join_commas_last(t);
        assert(t.last() == ls.last());
        assert(join_commas(ls) == ls[0] + seq![COMMA] + join_commas(t));
        if join_commas(t).len() > 0 {
            assert(join_commas(ls).last() == join_commas(t).last());
        } else {
            assert(join_commas(ls).last() == COMMA);
        }
    }
}

/// Every byte of every comma-split field satisfies what every byte of `s`
/// satisfies, and no field contains a comma.
pub proof fn lemma_split_commas_bytes(s: Seq<u8>, p: spec_fn(u8) -> bool)
    requires
        forall|i: int| 0 <= i < s.len() ==> p(s[i]),
    ensures
        forall|t: int, j: int|
            0 <= t < split_commas(s).len() && 0 <= j < split_commas(s)[t].len() ==> p(
                split_commas(s)[t][j],
            ) && split_commas(s)[t][j] != COMMA,
    decreases s.len(),
{
    lemma_find_first(s, COMMA);
    let k = find_first(s, COMMA);
    if 0 <= k < s.len() {
        let rest = s.subrange(k + 1, s.len() as int);
        lemma_split_commas_bytes(rest, p);
        let parts = seq![s.subrange(0, k)] + split_commas(rest);
        assert forall|t: int, j: int|
            0 <= t < parts.len() && 0 <= j < parts[t].len() implies p(parts[t][j]) && parts[t][j]
            != COMMA by {
            if t == 0 {
                assert(parts[0] == s.subrange(0, k));
                assert(parts[t][j] == s[j]);
            } else {
                assert(parts[t] == split_commas(rest)[t - 1]);
            }
        }
    }
}

/// Splits `s` at every comma.
pub fn split_commas_vec(s: &[u8]) -> (r: Vec<Vec<u8>>)
    ensures
        r.deep_view() == split_commas(s@),
        r.len() >= 1,
{
    let mut acc: Vec<Vec<u8>> = Vec::new();
    let mut start: usize = 0;
    proof {
        assert(acc.deep_view() =~= Seq::<Seq<u8>>::empty());
        assert(s@.subrange(0, s@.len() as int) =~= s@);
        assert(acc.deep_view() + split_commas(s@) =~= split_commas(s@));
    }
    loop
        invariant_except_break
            0 <= start <= s@.len(),
            acc.deep_view() + split_commas(s@.subrange(start as int, s@.len() as int))
                == split_commas(s@),
        ensures
            acc.deep_view() == split_commas(s@),
        decreases s@.len() - start,
    {
        let ghost tail = s@.subrange(start as int, s@.len() as int);
        let ghost old_deep = acc.deep_view();
        let ghost old_vs = acc@;
        let k = find_byte(s, start, COMMA);
        let tok = subvec(s, start, k);
        acc.push(tok);
        proof {
            let d = acc.deep_view();
            assert forall|i: int| 0 <= i < old_deep.len() implies d[i] == old_deep[i] by {
                assert(acc@[i] == old_vs[i]);
            }
            assert(d[old_deep.len() as int] == tok@);
            assert(d =~= old_deep + seq![tok@]);
        }
        if k == s.len() {
            proof {
                assert(find_first(tail, COMMA) == tail.len());
                assert(split_commas(tail) == seq![tail]);
                assert(tok@ =~= tail);
                assert(old_deep + seq![tail] =~= old_deep + split_commas(tail));
            }
            break ;
        }
        proof {
            let rest = s@.subrange(k + 1, s@.len() as int);
            assert(find_first(tail, COMMA) == k - start);
            assert(tail.subrange(0, k - start) =~= tok@);
            assert(tail.subrange(k - start + 1, tail.len() as int) =~= rest);
            assert(split_commas(tail) == seq![tok@] + split_commas(rest));
            assert(old_deep + (seq![tok@] + split_commas(rest)) =~= (old_deep + seq![tok@])
                + split_commas(rest));
        }
        start = k + 1;
    }
    proof {
        lemma_split_commas_len(s@);
        assert(acc.len() == acc.deep_view().len());
    }
    acc
}

/// What the line reader keeps of one raw (newline-free) line: nothing for a
/// blank or comment line, otherwise the line with its end trimmed.
pub open spec fn kept_of(raw: Seq<u8>) -> Seq<Seq<u8>> {
    if is_blank(raw) || is_comment(raw) {
        Seq::empty()
    } else {
        seq![trim_end_spec(raw)]
    }
}

/// The logical lines of a byte stream: split at newlines, blanks and comments
/// dropped, ends trimmed.
pub open spec fn lines_of(s: Seq<u8>) -> Seq<Seq<u8>>
    decreases s.len(),
{
    if s.len() == 0 {
        Seq::empty()
    } else {
        let k = find_first(s, NL);
        if 0 <= k < s.len() {
            kept_of(s.subrange(0, k)) + lines_of(s.subrange(k + 1, s.len() as int))
        } else {
            kept_of(s)
        }
    }
}

/// Peels one raw line (followed by a newline) off the front of a stream.
pub proof fn lemma_lines_of_step(l: Seq<u8>, rest: Seq<u8>)
    requires
        no_nl(l),
    ensures
        lines_of(l + seq![NL] + rest) == kept_of(l) + lines_of(rest),
{
    let s = l + seq![NL] + rest;
    assert forall|i: int| 0 <= i < l.len() implies s[i] != NL by {
        assert(s[i] == l[i]);
    }
    assert(s[l.len() as int] == NL);
    lemma_find_first_is(s, NL, l.len() as int);
    assert(s.subrange(0, l.len() as int) =~= l);
    assert(s.subrange(l.len() as int + 1, s.len() as int) =~= rest);
}

/// Every kept line is non-empty, newline-free, end-trimmed, and no comment.
pub proof fn lemma_lines_of_kept(s: Seq<u8>)
    ensures
        forall|i: int| 0 <= i < lines_of(s).len() ==> kept_ok(#[trigger] lines_of(s)[i]),
    decreases s.len(),
{
    if s.len() == 0 {
    } else {
        lemma_find_first(s, NL);
        let k = find_first(s, NL);
        let raw = if 0 <= k < s.len() {
            s.subrange(0, k)
        } else {
            s
        };
        assert(no_nl(raw));
        lemma_trim_end_props(raw);
        if !(is_blank(raw) || is_comment(raw)) {
            let t = trim_end_spec(raw);
            assert(t.len() > 0);
            assert(no_nl(t)) by {
                assert forall|i: int| 0 <= i < t.len() implies t[i] != NL by {
                    assert(t[i] == raw[i]);
                }
            }
            assert(!is_comment(t)) by {
                if t.len() >= 2 {
                    assert(t[0] == raw[0] && t[1] == raw[1]);
                }
            }
            assert(kept_ok(t));
        }
        if 0 <= k < s.len() {
            let rest = s.subrange(k + 1, s.len() as int);
            lemma_lines_of_kept(rest);
            assert(lines_of(s) == kept_of(raw) + lines_of(rest));
            assert forall|i: int| 0 <= i < lines_of(s).len() implies kept_ok(
                #[trigger] lines_of(s)[i],
            ) by {
                if i < kept_of(raw).len() {
                    assert(lines_of(s)[i] == trim_end_spec(raw));
                } else {
                    assert(lines_of(s)[i] == lines_of(rest)[i - kept_of(raw).len()]);
                }
            }
        } else {
            assert(lines_of(s) == kept_of(raw));
        }
    }
}

/// Lines emitted one after another, each closed by a newline.
pub open spec fn emit_lines(ls: Seq<Seq<u8>>) -> Seq<u8>
    decreases ls.len(),
{
    if ls.len() == 0 {
        Seq::empty()
    } else {
        ls[0] + seq![NL] + emit_lines(ls.subrange(1, ls.len() as int))
    }
}

/// Emission distributes over concatenation of line lists.
pub proof fn lemma_emit_lines_append(a: Seq<Seq<u8>>, b: Seq<Seq<u8>>)
    ensures
        emit_lines(a + b) == emit_lines(a) + emit_lines(b),
    decreases a.len(),
{
    if a.len() == 0 {
        assert(a + b =~= b);
        assert(emit_lines(a) + emit_lines(b) =~= emit_lines(b));
    } else {
        let t = a.subrange(1, a.len() as int);
        lemma_emit_lines_append(t, b);
        assert((a + b).subrange(1, (a + b).len() as int) =~= t + b);
        assert((a + b)[0] == a[0]);
        assert(emit_lines(a + b) == a[0] + seq![NL] + (emit_lines(t) + emit_lines(b)));
        assert(a[0] + seq![NL] + (emit_lines(t) + emit_lines(b)) =~= (a[0] + seq![NL]
            + emit_lines(t)) + emit_lines(b));
    }
}

/// Appends one line and a newline to an output buffer.
pub fn push_line(out: &mut Vec<u8>, l: &[u8])
    ensures
        final(out)@ == old(out)@ + emit_lines(seq![l@]),
{
    append_bytes(out, l);
    out.push(NL);
    proof {
        assert(seq![l@].subrange(1, 1) =~= Seq::<Seq<u8>>::empty());
        assert(emit_lines(seq![l@]) == l@ + seq![NL] + emit_lines(Seq::<Seq<u8>>::empty()));
        assert(old(out)@ + l@ + seq![NL] =~= old(out)@ + emit_lines(seq![l@]));
    }
}

/// Appends every line of `ls`, each closed by a newline.
pub fn push_lines(out: &mut Vec<u8>, ls: &Vec<Vec<u8>>)
    ensures
        final(out)@ == old(out)@ + emit_lines(ls.deep_view()),
{
    let mut i: usize = 0;
    proof {
        assert(ls.deep_view().subrange(0, 0) =~= Seq::<Seq<u8>>::empty());
        assert(old(out)@ + emit_lines(Seq::<Seq<u8>>::empty()) =~= old(out)@);
    }
    while i < ls.len()
        invariant
            0 <= i <= ls.deep_view().len(),
            ls.deep_view().len() == ls@.len(),
            out@ == old(out)@ + emit_lines(ls.deep_view().subrange(0, i as int)),
        decreases ls@.len() - i,
    {
        let l = vstd::slice::slice_subrange((&ls[i]).as_slice(), 0, ls[i].len());
        push_line(out, l);
        proof {
            let d = ls.deep_view();
            assert(l@ =~= d[i as int]);
            lemma_emit_lines_append(d.subrange(0, i as int), seq![d[i as int]]);
            assert(d.subrange(0, i as int) + seq![d[i as int]] =~= d.subrange(0, i + 1));
            assert(old(out)@ + emit_lines(d.subrange(0, i as int)) + emit_lines(
                seq![d[i as int]],
            ) =~= old(out)@ + emit_lines(d.subrange(0, i + 1)));
        }
        i = i + 1;
    }
    proof {
        assert(ls.deep_view().subrange(0, ls.deep_view().len() as int) =~= ls.deep_view());
    }
}

/// Reading back emitted kept lines gives exactly those lines.
pub proof fn lemma_lines_of_emit(ls: Seq<Seq<u8>>, rest: Seq<u8>)
    requires
        forall|i: int| 0 <= i < ls.len() ==> kept_ok(#[trigger] ls[i]),
    ensures
        lines_of(emit_lines(ls) + rest) == ls + lines_of(rest),
    decreases ls.len(),
{
    if ls.len() == 0 {
        assert(emit_lines(ls) + rest =~= rest);
        assert(ls + lines_of(rest) =~= lines_of(rest));
    } else {
        let l = ls[0];
        let tl = ls.subrange(1, ls.len() as int);
        lemma_lines_of_emit(tl, rest);
        assert(emit_lines(ls) + rest =~= l + seq![NL] + (emit_lines(tl) + rest));
        lemma_lines_of_step(l, emit_lines(tl) + rest);
        assert(kept_ok(l));
        assert(!is_blank(l)) by {
            assert(!is_ws(l[l.len() - 1]));
        }
        assert(trim_end_spec(l) == l);
        assert(kept_of(l) == seq![l]);
        assert(seq![l] + (tl + lines_of(rest)) =~= ls + lines_of(rest));
    }
}

/// A single blank separator line disappears from the line view.
pub proof fn lemma_lines_of_blank(rest: Seq<u8>)
    ensures
        lines_of(seq![NL] + rest) == lines_of(rest),
{
    lemma_lines_of_step(Seq::empty(), rest);
    assert(Seq::<u8>::empty() + seq![NL] + rest =~= seq![NL] + rest);
    assert(kept_of(Seq::empty()) + lines_of(rest) =~= lines_of(rest));
}

/// The stream with a leading byte-order mark removed.
pub open spec fn strip_bom(s: Seq<u8>) -> Seq<u8> {
    if s.len() >= 3 && s[0] == 239 && s[1] == 187 && s[2] == 191 {
        s.subrange(3, s.len() as int)
    } else {
        s
    }
}

/// Trims the byte order mark from the start of a UTF-8 byte stream, if
/// present.
pub fn trim_utf8_bom(s: &[u8]) -> (r: Vec<u8>)
    ensures
        r@ == strip_bom(s@),
{
    if s.len() >= 3 && *slice_index_get(s, 0) == 239 && *slice_index_get(s, 1) == 187
        && *slice_index_get(s, 2) == 191 {
        subvec(s, 3, s.len())
    } else {
        proof {
            assert(s@.subrange(0, s@.len() as int) =~= s@);
        }
        subvec(s, 0, s.len())
    }
}

/// Splits a byte stream into its kept logical lines.
pub fn split_lines(s: &[u8]) -> (r: Vec<Vec<u8>>)
    ensures
        r.deep_view() == lines_of(s@),
        forall|i: int| 0 <= i < r.deep_view().len() ==> kept_ok(#[trigger] r.deep_view()[i]),
{
    let mut acc: Vec<Vec<u8>> = Vec::new();
    let mut start: usize = 0;
    proof {
        assert(acc.deep_view() =~= Seq::<Seq<u8>>::empty());
        assert(s@.subrange(0, s@.len() as int) =~= s@);
        assert(acc.deep_view() + lines_of(s@) =~= lines_of(s@));
    }
    loop
        invariant_except_break
            0 <= start <= s@.len(),
            acc.deep_view() + lines_of(s@.subrange(start as int, s@.len() as int)) == lines_of(
                s@,
            ),
        ensures
            acc.deep_view() == lines_of(s@),
        decreases s@.len() - start,
    {
        let ghost tail = s@.subrange(start as int, s@.len() as int);
        let k = find_byte(s, start, NL);
        let raw = subvec(s, start, k);
        let ghost rawv = raw@;
        proof {
            assert(no_nl(rawv)) by {
                assert forall|i: int| 0 <= i < rawv.len() implies rawv[i] != NL by {
                    assert(rawv[i] == s@[start + i]);
                }
            }
        }
        let trimmed = trim_end(raw.as_slice());
        let keep = if trimmed.len() == 0 {
            proof {
                lemma_trim_end_props(rawv);
            }
            false
        } else if raw.len() >= 2 && raw[0] == 47 && raw[1] == 47 {
            false
        } else {
            proof {
                lemma_trim_end_props(rawv);
            }
            true
        };
        proof {
            if keep {
                assert(kept_of(rawv) == seq![trimmed@]);
            } else {
                assert(kept_of(rawv) =~= Seq::<Seq<u8>>::empty());
            }
        }
        let ghost old_deep = acc.deep_view();
        let ghost old_vs = acc@;
        if keep {
            acc.push(trimmed);
            proof {
                let d = acc.deep_view();
                assert forall|i: int| 0 <= i < old_deep.len() implies d[i] == old_deep[i] by {
                    assert(acc@[i] == old_vs[i]);
                }
                assert(d[old_deep.len() as int] == trimmed@);
                assert(d =~= old_deep + kept_of(rawv));
            }
        } else {
            proof {
                assert(acc.deep_view() =~= old_deep + kept_of(rawv));
            }
        }
        if k == s.len() {
            proof {
                if tail.len() == 0 {
                    assert(kept_of(rawv) =~= Seq::<Seq<u8>>::empty());
                    assert(rawv =~= tail);
                    assert(is_blank(tail));
                    assert(lines_of(tail) =~= Seq::<Seq<u8>>::empty());
                    assert(old_deep + kept_of(rawv) =~= old_deep + lines_of(tail));
                } else {
                    assert(find_first(tail, NL) == k - start) by {
                        assert forall|i: int| 0 <= i < tail.len() implies tail[i] != NL by {
                            assert(tail[i] == s@[start + i]);
                        }
                        lemma_find_first_is(tail, NL, tail.len() as int);
                    }
                    assert(rawv =~= tail);
                    assert(lines_of(tail) == kept_of(tail));
                }
            }
            break ;
        }
        proof {
            let rest = s@.subrange(k + 1, s@.len() as int);
            assert(find_first(tail, NL) == k - start) by {
                assert forall|i: int| 0 <= i < k - start implies tail[i] != NL by {
                    assert(tail[i] == s@[start + i]);
                }
                assert(tail[k - start] == s@[k as int]);
                lemma_find_first_is(tail, NL, k - start);
            }
            assert(tail.subrange(0, k - start) =~= rawv);
            assert(tail.subrange(k - start + 1, tail.len() as int) =~= rest);
            assert(lines_of(tail) == kept_of(rawv) + lines_of(rest));
            assert(old_deep + (kept_of(rawv) + lines_of(rest)) =~= (old_deep + kept_of(rawv))
                + lines_of(rest));
        }
        start = k + 1;
    }
    proof {
        lemma_lines_of_kept(s@);
    }
    acc
}

} // verus!
