use vstd::prelude::*;
use vstd::string::StrSliceExecFns;

verus! {

/// Lexicographic order on the suffixes from index `i` of two character
/// sequences, characters compared by code point; a proper prefix comes first.
pub open spec fn lex_less_from(a: Seq<char>, b: Seq<char>, i: nat) -> bool
    decreases a.len() - i,
{
    if i >= a.len() {
        i < b.len()
    } else if i >= b.len() {
        false
    } else if a[i as int] != b[i as int] {
        a[i as int] < b[i as int]
    } else {
        lex_less_from(a, b, i + 1)
    }
}

/// Whether the name `a` is listed before the name `b`.
pub open spec fn name_less(a: Seq<char>, b: Seq<char>) -> bool {
    lex_less_from(a, b, 0)
}

pub proof fn lemma_lex_irreflexive(a: Seq<char>, i: nat)
    ensures
        !lex_less_from(a, a, i),
    decreases a.len() - i,
{
    if i < a.len() {
        lemma_lex_irreflexive(a, i + 1);
    }
}

/// A name never precedes itself.
pub proof fn lemma_name_irreflexive(a: Seq<char>)
    ensures
        !name_less(a, a),
{
    lemma_lex_irreflexive(a, 0);
}

pub proof fn lemma_lex_transitive(a: Seq<char>, b: Seq<char>, c: Seq<char>, i: nat)
    requires
        lex_less_from(a, b, i),
        lex_less_from(b, c, i),
    ensures
        lex_less_from(a, c, i),
    decreases a.len() - i,
{
    if i < a.len() && i < b.len() && i < c.len() && a[i as int] == b[i as int] && b[i as int]
        == c[i as int] {
        lemma_lex_transitive(a, b, c, i + 1);
    }
}

/// Two sequences that agree before `i` and neither of which precedes the
/// other from `i` on are equal.
pub proof fn lemma_lex_total(a: Seq<char>, b: Seq<char>, i: nat)
    requires
        i <= a.len(),
        i <= b.len(),
        forall|j: int| 0 <= j < i ==> a[j] == b[j],
        !lex_less_from(a, b, i),
        !lex_less_from(b, a, i),
    ensures
        a == b,
    decreases a.len() - i,
{
    if i < a.len() && i < b.len() {
        if a[i as int] == b[i as int] {
            lemma_lex_total(a, b, i + 1);
        } else {
            assert(a[i as int] < b[i as int] || b[i as int] < a[i as int]);
        }
    } else {
        assert(a =~= b);
    }
}

/// Of two distinct names, one precedes the other.
pub proof fn lemma_name_total(a: Seq<char>, b: Seq<char>)
    requires
        a != b,
    ensures
        name_less(a, b) || name_less(b, a),
{
    if !name_less(a, b) && !name_less(b, a) {
        lemma_lex_total(a, b, 0);
    }
}

/// Every name precedes every later one: the names are ordered and distinct.
pub open spec fn strictly_sorted(s: Seq<Seq<char>>) -> bool {
    forall|x: int, y: int| 0 <= x < y < s.len() ==> name_less(s[x], s[y])
}

/// Inserting a name at the place where the names before it precede it and
/// the one after it does not (and differs from it) keeps the names sorted.
pub proof fn lemma_insert_sorted(s: Seq<Seq<char>>, p: int, n: Seq<char>)
    requires
        strictly_sorted(s),
        0 <= p <= s.len(),
        forall|x: int| 0 <= x < p ==> name_less(s[x], n),
        p < s.len() ==> !name_less(s[p], n) && s[p] != n,
    ensures
        strictly_sorted(s.insert(p, n)),
{
    let t = s.insert(p, n);
    assert forall|x: int, y: int| 0 <= x < y < t.len() implies name_less(t[x], t[y]) by {
        if y == p {
        } else if x == p {
            lemma_name_total(s[p], n);
            if y - 1 > p {
                assert(name_less(s[p], s[y - 1]));
                lemma_lex_transitive(n, s[p], s[y - 1], 0);
            }
        } else if x < p && y > p {
            assert(name_less(s[x], s[y - 1]));
        } else if x > p {
            assert(name_less(s[x - 1], s[y - 1]));
        }
    }
}

/// What a sequence holds after an insertion: what it held, and the new item.
pub proof fn lemma_insert_contains(s: Seq<Seq<char>>, p: int, n: Seq<char>)
    requires
        0 <= p <= s.len(),
    ensures
        forall|v: Seq<char>| #[trigger] s.insert(p, n).contains(v) <==> (s.contains(v) || v == n),
{
    let t = s.insert(p, n);
    assert(t[p] == n);
    assert forall|v: Seq<char>| #[trigger] t.contains(v) <==> (s.contains(v) || v == n) by {
        if s.contains(v) {
            let x = choose|x: int| 0 <= x < s.len() && s[x] == v;
            if x < p {
                assert(t[x] == v);
            } else {
                assert(t[x + 1] == v);
            }
        }
        if t.contains(v) && v != n {
            let x = choose|x: int| 0 <= x < t.len() && t[x] == v;
            if x < p {
                assert(s[x] == v);
            } else {
                assert(s[x - 1] == v);
            }
        }
    }
}

/// What a sequence holds after a push: what it held, and the new item.
pub proof fn lemma_push_contains(s: Seq<Seq<char>>, n: Seq<char>)
    ensures
        forall|v: Seq<char>| #[trigger] s.push(n).contains(v) <==> (s.contains(v) || v == n),
{
    let t = s.push(n);
    assert(t[s.len() as int] == n);
    assert forall|v: Seq<char>| #[trigger] t.contains(v) <==> (s.contains(v) || v == n) by {
        if s.contains(v) {
            let x = choose|x: int| 0 <= x < s.len() && s[x] == v;
            assert(t[x] == v);
        }
        if t.contains(v) && v != n {
            let x = choose|x: int| 0 <= x < t.len() && t[x] == v;
            assert(s[x] == v);
        }
    }
}

/// Whether the name `a` is listed before the name `b`.
pub fn name_precedes(a: &String, b: &String) -> (r: bool)
    ensures
        r == name_less(a@, b@),
{
    let sa = a.as_str();
    let sb = b.as_str();
    let la = sa.unicode_len();
    let lb = sb.unicode_len();
    let mut i: usize = 0;
    while i < la && i < lb
        invariant
            sa@ == a@,
            sb@ == b@,
            la == a@.len(),
            lb == b@.len(),
            i <= la,
            i <= lb,
            name_less(a@, b@) == lex_less_from(a@, b@, i as nat),
        decreases la - i,
    {
        let ca = sa.get_char(i);
        let cb = sb.get_char(i);
        if ca != cb {
            return ca < cb;
        }
        i += 1;
    }
    i == la && i < lb
}

} // verus!
