//! Character-level helpers on strings: splitting on a separator, joining
//! labels, substring search and lexicographic ordering.

use vstd::prelude::*;
use vstd::string::*;

verus! {

/// The pieces of `s` between occurrences of `sep`, in order; like `str::split`
/// with a single-character pattern it always yields at least one piece.
pub open spec fn split_on(s: Seq<char>, sep: char) -> Seq<Seq<char>>
    decreases s.len(),
{
    if s.len() == 0 {
        seq![Seq::<char>::empty()]
    } else {
        let rest = split_on(s.drop_last(), sep);
        if s.last() == sep {
            rest.push(Seq::<char>::empty())
        } else {
            rest.update(rest.len() - 1, rest.last().push(s.last()))
        }
    }
}

pub proof fn lemma_split_on_nonempty(s: Seq<char>, sep: char)
    ensures
        split_on(s, sep).len() >= 1,
    decreases s.len(),
{
    if s.len() > 0 {
        lemma_split_on_nonempty(s.drop_last(), sep);
    }
}

/// The pieces of `s` between occurrences of `sep`.
pub fn split_str(s: &str, sep: char) -> (parts: Vec<String>)
    ensures
        parts.deep_view() == split_on(s@, sep),
{
    let n: usize = s.unicode_len();
    let mut parts: Vec<String> = Vec::new();
    let mut start: usize = 0;
    let mut i: usize = 0;
    proof {
        assert(s@.take(0) =~= Seq::<char>::empty());
        assert(parts.deep_view() + seq![s@.subrange(0, 0)] =~= split_on(s@.take(0), sep));
    }
    while i < n
        invariant
            n == s@.len(),
            start <= i <= n,
            parts.deep_view() + seq![s@.subrange(start as int, i as int)] == split_on(
                s@.take(i as int),
                sep,
            ),
        decreases n - i,
    {
        let c: char = s.get_char(i);
        let ghost prefix = s@.take(i + 1);
        proof {
            assert(prefix.drop_last() =~= s@.take(i as int));
            assert(prefix.last() == c);
            lemma_split_on_nonempty(s@.take(i as int), sep);
        }
        if c == sep {
            let piece = String::from_str(s.substring_char(start, i));
            let ghost old_parts = parts.deep_view();
            parts.push(piece);
            proof {
                assert(parts.deep_view() =~= old_parts.push(s@.subrange(start as int, i as int)));
                assert(s@.subrange(i + 1, i + 1) =~= Seq::<char>::empty());
                assert(parts.deep_view() + seq![s@.subrange(i + 1, i + 1)] =~= split_on(
                    prefix,
                    sep,
                ));
            }
            start = i + 1;
        } else {
            proof {
                assert(s@.subrange(start as int, i + 1) =~= s@.subrange(
                    start as int,
                    i as int,
                ).push(c));
                assert(parts.deep_view() + seq![s@.subrange(start as int, i + 1)] =~= split_on(
                    prefix,
                    sep,
                ));
            }
        }
        i = i + 1;
    }
    let last = String::from_str(s.substring_char(start, n));
    let ghost old_parts = parts.deep_view();
    parts.push(last);
    proof {
        assert(s@.take(n as int) =~= s@);
        assert(parts.deep_view() =~= old_parts + seq![s@.subrange(start as int, n as int)]);
    }
    parts
}


/// The pieces joined with `sep` between consecutive pieces; like `join` on a
/// slice of strings.
pub open spec fn join_with(parts: Seq<Seq<char>>, sep: char) -> Seq<char>
    decreases parts.len(),
{
    if parts.len() == 0 {
        Seq::<char>::empty()
    } else if parts.len() == 1 {
        parts[0]
    } else {
        join_with(parts.drop_last(), sep).push(sep) + parts.last()
    }
}

/// The strings `parts[from..]` joined with `"."`.
pub fn join_dotted(parts: &Vec<String>, from: usize) -> (r: String)
    requires
        from <= parts.len(),
    ensures
        r@ == join_with(parts.deep_view().skip(from as int), '.'),
{
    let mut r = String::new();
    let mut k: usize = from;
    let ghost dv = parts.deep_view();
    proof {
        assert(dv.subrange(from as int, from as int) =~= Seq::<Seq<char>>::empty());
    }
    while k < parts.len()
        invariant
            from <= k <= parts.len(),
            dv == parts.deep_view(),
            r@ == join_with(dv.subrange(from as int, k as int), '.'),
        decreases parts.len() - k,
    {
        let ghost before = r@;
        proof {
            reveal_strlit(".");
            assert(dv.subrange(from as int, k + 1).drop_last() =~= dv.subrange(
                from as int,
                k as int,
            ));
        }
        if k > from {
            r.append(".");
        }
        r.append(parts[k].as_str());
        proof {
            if k > from {
                assert(r@ =~= before.push('.') + dv[k as int]);
            } else {
                assert(before =~= Seq::<char>::empty());
                assert(r@ =~= dv[k as int]);
            }
        }
        k = k + 1;
    }
    proof {
        assert(dv.subrange(from as int, parts.len() as int) =~= dv.skip(from as int));
    }
    r
}

/// Whether two strings are equal, character by character.
pub fn str_eq(a: &str, b: &str) -> (r: bool)
    ensures
        r == (a@ == b@),
{
    let n: usize = a.unicode_len();
    let m: usize = b.unicode_len();
    if n != m {
        return false;
    }
    let mut i: usize = 0;
    while i < n
        invariant
            n == a@.len(),
            m == b@.len(),
            n == m,
            i <= n,
            forall|j: int| 0 <= j < i ==> a@[j] == b@[j],
        decreases n - i,
    {
        if a.get_char(i) != b.get_char(i) {
            return false;
        }
        i = i + 1;
    }
    proof {
        assert(a@ =~= b@);
    }
    true
}

/// Whether `v` holds a string equal to `s`.
pub fn contains_str(v: &Vec<String>, s: &str) -> (r: bool)
    ensures
        r == v.deep_view().contains(s@),
{
    let mut i: usize = 0;
    while i < v.len()
        invariant
            i <= v.len(),
            forall|j: int| 0 <= j < i ==> v.deep_view()[j] != s@,
        decreases v.len() - i,
    {
        if str_eq(v[i].as_str(), s) {
            assert(v.deep_view()[i as int] == s@);
            return true;
        }
        i = i + 1;
    }
    false
}

/// `s` begins with `pat`.
pub open spec fn has_prefix(s: Seq<char>, pat: Seq<char>) -> bool {
    pat.len() <= s.len() && s.subrange(0, pat.len() as int) == pat
}

/// Whether `s` begins with `pat` (`str::starts_with` with a string pattern).
pub fn str_starts_with(s: &str, pat: &str) -> (r: bool)
    ensures
        r == has_prefix(s@, pat@),
{
    let n: usize = s.unicode_len();
    let m: usize = pat.unicode_len();
    if m > n {
        return false;
    }
    let mut k: usize = 0;
    while k < m
        invariant
            n == s@.len(),
            m == pat@.len(),
            m <= n,
            k <= m,
            forall|t: int| 0 <= t < k ==> s@[t] == pat@[t],
        decreases m - k,
    {
        if s.get_char(k) != pat.get_char(k) {
            proof {
                assert(s@.subrange(0, m as int)[k as int] != pat@[k as int]);
            }
            return false;
        }
        k = k + 1;
    }
    proof {
        assert(s@.subrange(0, m as int) =~= pat@);
    }
    true
}

/// Lexicographic order on character sequences by code point, the order of
/// `String` (UTF-8 preserves code point order byte by byte).
pub open spec fn lex_less(a: Seq<char>, b: Seq<char>) -> bool
    decreases a.len(),
{
    if a.len() == 0 {
        b.len() > 0
    } else if b.len() == 0 {
        false
    } else if a[0] < b[0] {
        true
    } else if a[0] > b[0] {
        false
    } else {
        lex_less(a.drop_first(), b.drop_first())
    }
}

pub proof fn lemma_lex_irreflexive(a: Seq<char>)
    ensures
        !lex_less(a, a),
    decreases a.len(),
{
    if a.len() > 0 {
        lemma_lex_irreflexive(a.drop_first());
    }
}

pub proof fn lemma_lex_transitive(a: Seq<char>, b: Seq<char>, c: Seq<char>)
    requires
        lex_less(a, b),
        lex_less(b, c),
    ensures
        lex_less(a, c),
    decreases a.len(),
{
    if a.len() > 0 && b.len() > 0 && c.len() > 0 {
        if a[0] == b[0] && b[0] == c[0] {
            lemma_lex_transitive(a.drop_first(), b.drop_first(), c.drop_first());
        }
    }
}

pub proof fn lemma_lex_total(a: Seq<char>, b: Seq<char>)
    ensures
        a != b ==> lex_less(a, b) || lex_less(b, a),
    decreases a.len(),
{
    if a.len() > 0 && b.len() > 0 {
        lemma_lex_total(a.drop_first(), b.drop_first());
        if a[0] == b[0] && a != b {
            if a.drop_first() == b.drop_first() {
                assert(a =~= seq![a[0]] + a.drop_first());
                assert(b =~= seq![b[0]] + b.drop_first());
            }
        }
    } else if a.len() == 0 && b.len() == 0 {
        assert(a =~= b);
    }
}

pub proof fn lemma_lex_asymmetric(a: Seq<char>, b: Seq<char>)
    ensures
        lex_less(a, b) ==> !lex_less(b, a),
{
    if lex_less(a, b) && lex_less(b, a) {
        lemma_lex_transitive(a, b, a);
        lemma_lex_irreflexive(a);
    }
}

/// Whether `a` orders strictly before `b`, as `a < b` does on strings.
pub fn str_less(a: &str, b: &str) -> (r: bool)
    ensures
        r == lex_less(a@, b@),
{
    let n: usize = a.unicode_len();
    let m: usize = b.unicode_len();
    let mut i: usize = 0;
    proof {
        assert(a@.skip(0) =~= a@);
        assert(b@.skip(0) =~= b@);
    }
    while i < n && i < m
        invariant
            n == a@.len(),
            m == b@.len(),
            i <= n,
            i <= m,
            lex_less(a@, b@) == lex_less(a@.skip(i as int), b@.skip(i as int)),
        decreases n - i,
    {
        let x: char = a.get_char(i);
        let y: char = b.get_char(i);
        proof {
            assert(a@.skip(i as int)[0] == x);
            assert(b@.skip(i as int)[0] == y);
            assert(a@.skip(i as int).drop_first() =~= a@.skip(i + 1));
            assert(b@.skip(i as int).drop_first() =~= b@.skip(i + 1));
        }
        if x < y {
            return true;
        }
        if x > y {
            return false;
        }
        i = i + 1;
    }
    i == n && i < m
}

/// `s` is strictly increasing in the order of `lex_less`, hence free of
/// repetitions.
pub open spec fn strictly_sorted(s: Seq<Seq<char>>) -> bool {
    forall|i: int, j: int| 0 <= i < j < s.len() ==> lex_less(#[trigger] s[i], #[trigger] s[j])
}

/// Adds `item` to the strictly sorted `v` unless it is there already.
pub fn insert_sorted_unique(v: &mut Vec<String>, item: String)
    requires
        strictly_sorted(old(v).deep_view()),
    ensures
        strictly_sorted(final(v).deep_view()),
        final(v).deep_view().to_set() == old(v).deep_view().to_set().insert(item@),
{
    let ghost old_dv = v.deep_view();
    let mut i: usize = 0;
    let mut searching: bool = true;
    while searching && i < v.len()
        invariant
            v.deep_view() == old_dv,
            strictly_sorted(old_dv),
            i <= v.len(),
            forall|j: int| 0 <= j < i ==> lex_less(#[trigger] old_dv[j], item@),
            !searching ==> i < v.len() && !lex_less(old_dv[i as int], item@),
        decreases v.len() - i, if searching { 1int } else { 0int },
    {
        if str_less(v[i].as_str(), item.as_str()) {
            i = i + 1;
        } else {
            searching = false;
        }
    }
    if i < v.len() && v[i] == item {
        proof {
            assert(old_dv[i as int] == item@);
            assert(old_dv.to_set().insert(item@) =~= old_dv.to_set());
        }
        return;
    }
    proof {
        if i < v.len() {
            lemma_lex_total(old_dv[i as int], item@);
            assert(lex_less(item@, old_dv[i as int]));
        }
    }
    v.insert(i, item);
    proof {
        let nv = v.deep_view();
        assert(nv =~= old_dv.insert(i as int, item@));
        assert forall|a: int, b: int| 0 <= a < b < nv.len() implies lex_less(
            #[trigger] nv[a],
            #[trigger] nv[b],
        ) by {
            if b == i {
            } else if a == i {
                if b > i + 1 {
                    lemma_lex_transitive(item@, old_dv[i as int], old_dv[b - 1]);
                }
            } else if a < i && b > i {
                assert(lex_less(old_dv[a], item@));
            }
        }
        assert forall|x: Seq<char>| nv.to_set().contains(x) <==> old_dv.to_set().insert(
            item@,
        ).contains(x) by {
            if nv.to_set().contains(x) {
                let k = choose|k: int| 0 <= k < nv.len() && nv[k] == x;
                if k < i {
                    assert(old_dv[k] == x);
                } else if k > i {
                    assert(old_dv[k - 1] == x);
                }
            }
            if old_dv.to_set().contains(x) && x != item@ {
                let k = choose|k: int| 0 <= k < old_dv.len() && old_dv[k] == x;
                if k < i {
                    assert(nv[k] == x);
                } else {
                    assert(nv[k + 1] == x);
                }
            }
            if x == item@ {
                assert(nv[i as int] == x);
            }
        }
        assert(nv.to_set() =~= old_dv.to_set().insert(item@));
    }
}

} // verus!
