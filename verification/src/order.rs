//! Lexicographic (codepoint) order on names, and insertion into a sorted,
//! duplicate-free vector of names. This is the order the catalog is kept in.

use vstd::prelude::*;

verus! {

/// Strict lexicographic order on character sequences, comparing codepoints.
/// The empty sequence comes first; a proper prefix comes before any of its
/// extensions.
pub open spec fn lex_lt(a: Seq<char>, b: Seq<char>) -> bool
    decreases a.len(),
{
    if b.len() == 0 {
        false
    } else if a.len() == 0 {
        true
    } else if a[0] != b[0] {
        (a[0] as u32) < (b[0] as u32)
    } else {
        lex_lt(a.skip(1), b.skip(1))
    }
}

/// A sequence of names is strictly ascending: every earlier name is
/// lexicographically below every later one. This implies there are no
/// duplicates.
pub open spec fn views_sorted(s: Seq<String>) -> bool {
    forall|k: int, l: int| 0 <= k < l < s.len() ==> lex_lt(s[k]@, s[l]@)
}

/// Some name in `s` reads as `n`.
pub open spec fn seq_has(s: Seq<String>, n: Seq<char>) -> bool {
    exists|k: int| 0 <= k < s.len() && (#[trigger] s[k])@ == n
}

pub proof fn lemma_lex_lt_irreflexive(a: Seq<char>)
    ensures
        !lex_lt(a, a),
    decreases a.len(),
{
    if a.len() > 0 {
        lemma_lex_lt_irreflexive(a.skip(1));
    }
}

pub proof fn lemma_lex_lt_asymmetric(a: Seq<char>, b: Seq<char>)
    ensures
        !(lex_lt(a, b) && lex_lt(b, a)),
    decreases a.len(),
{
    if a.len() > 0 && b.len() > 0 && a[0] == b[0] {
        lemma_lex_lt_asymmetric(a.skip(1), b.skip(1));
    }
}

/// Totality: two distinct names are ordered one way or the other.
pub proof fn lemma_lex_lt_connected(a: Seq<char>, b: Seq<char>)
    ensures
        a != b ==> lex_lt(a, b) || lex_lt(b, a),
    decreases a.len(),
{
    if a.len() == 0 && b.len() == 0 {
        assert(a =~= b);
    }
    if a.len() > 0 && b.len() > 0 && a[0] != b[0] {
        // distinct characters have distinct codepoints
        vstd::utf8::char_u32_cast(a[0], a[0] as u32);
        vstd::utf8::char_u32_cast(b[0], b[0] as u32);
        assert((a[0] as u32) != (b[0] as u32));
    }
    if a.len() > 0 && b.len() > 0 && a[0] == b[0] {
        lemma_lex_lt_connected(a.skip(1), b.skip(1));
        if a.skip(1) == b.skip(1) {
            assert(a.skip(1).len() == a.len() - 1);
            assert(b.skip(1).len() == b.len() - 1);
            assert(a.len() == b.len());
            assert forall|i: int| 0 <= i < a.len() implies a[i] == b[i] by {
                if i > 0 {
                    assert(a.skip(1)[i - 1] == a[i]);
                    assert(b.skip(1)[i - 1] == b[i]);
                }
            }
            assert(a =~= b);
        }
    }
}

pub proof fn lemma_lex_lt_transitive(a: Seq<char>, b: Seq<char>, c: Seq<char>)
    requires
        lex_lt(a, b),
        lex_lt(b, c),
    ensures
        lex_lt(a, c),
    decreases a.len(),
{
    if a.len() > 0 && b.len() > 0 && c.len() > 0 && a[0] == b[0] && b[0] == c[0] {
        lemma_lex_lt_transitive(a.skip(1), b.skip(1), c.skip(1));
    }
}

/// Decides `lex_lt` on two strings by walking their characters.
pub fn str_lt(a: &str, b: &str) -> (r: bool)
    ensures
        r == lex_lt(a@, b@),
{
    let a_len = a.unicode_len();
    let b_len = b.unicode_len();
    let mut i: usize = 0;
    proof {
        assert(a@.skip(0) =~= a@);
        assert(b@.skip(0) =~= b@);
    }
    while i < a_len && i < b_len
        invariant
            a_len == a@.len(),
            b_len == b@.len(),
            i <= a_len,
            i <= b_len,
            lex_lt(a@, b@) == lex_lt(a@.skip(i as int), b@.skip(i as int)),
        decreases a_len - i,
    {
        let ca = a.get_char(i);
        let cb = b.get_char(i);
        if ca != cb {
            proof {
                assert(a@.skip(i as int)[0] == a@[i as int]);
                assert(b@.skip(i as int)[0] == b@[i as int]);
            }
            return (ca as u32) < (cb as u32);
        }
        proof {
            lemma_lex_lt_skip_step(a@, b@, i as int);
        }
        i = i + 1;
    }
    proof {
        if i == a_len {
            assert(a@.skip(i as int).len() == 0);
        } else {
            assert(b@.skip(i as int).len() == 0);
            assert(a@.skip(i as int).len() > 0);
        }
    }
    a_len < b_len
}

proof fn lemma_lex_lt_skip_step(a: Seq<char>, b: Seq<char>, i: int)
    requires
        0 <= i < a.len(),
        i < b.len(),
        a[i] == b[i],
    ensures
        lex_lt(a.skip(i), b.skip(i)) == lex_lt(a.skip(i + 1), b.skip(i + 1)),
{
    assert(a.skip(i)[0] == a[i]);
    assert(b.skip(i)[0] == b[i]);
    assert(a.skip(i).skip(1) =~= a.skip(i + 1));
    assert(b.skip(i).skip(1) =~= b.skip(i + 1));
}

/// Decides whether `p@` is a prefix of `s@` by walking the characters.
pub fn str_starts_with(s: &str, p: &str) -> (r: bool)
    ensures
        r == p@.is_prefix_of(s@),
{
    let s_len = s.unicode_len();
    let p_len = p.unicode_len();
    if p_len > s_len {
        return false;
    }
    let mut i: usize = 0;
    while i < p_len
        invariant
            s_len == s@.len(),
            p_len == p@.len(),
            p_len <= s_len,
            i <= p_len,
            forall|k: int| 0 <= k < i ==> s@[k] == p@[k],
        decreases p_len - i,
    {
        let cs = s.get_char(i);
        let cp = p.get_char(i);
        if cs != cp {
            proof {
                assert(s@.subrange(0, p@.len() as int)[i as int] == s@[i as int]);
            }
            return false;
        }
        i = i + 1;
    }
    proof {
        assert(p@ =~= s@.subrange(0, p@.len() as int));
    }
    true
}

/// Inserts `name` into a strictly sorted vector of names, keeping it
/// strictly sorted. A name already present is absorbed: the vector is
/// unchanged, so each name occurs at most once however often it is offered.
pub fn insert_name(acc: &mut Vec<String>, name: String)
    requires
        views_sorted(old(acc)@),
    ensures
        views_sorted(final(acc)@),
        forall|n: Seq<char>| seq_has(final(acc)@, n) <==> seq_has(old(acc)@, n) || n == name@,
{
    let mut p: usize = 0;
    while p < acc.len() && str_lt(acc[p].as_str(), name.as_str())
        invariant
            views_sorted(acc@),
            acc@ == old(acc)@,
            p <= acc@.len(),
            forall|k: int| 0 <= k < p ==> lex_lt((#[trigger] acc@[k])@, name@),
        decreases acc@.len() - p,
    {
        p = p + 1;
    }
    if p < acc.len() && !str_lt(name.as_str(), acc[p].as_str()) {
        // neither is below the other, so acc[p] already reads as `name`
        proof {
            lemma_lex_lt_connected(acc@[p as int]@, name@);
            assert(acc@[p as int]@ == name@);
        }
        return;
    }
    let ghost prior = acc@;
    let ghost name_g: String = name;
    acc.insert(p, name);
    proof {
        let pi = p as int;
        lemma_seq_insert_index(prior, pi, name_g);
        assert forall|k: int, l: int| 0 <= k < l < acc@.len() implies lex_lt(
            (#[trigger] acc@[k])@,
            (#[trigger] acc@[l])@,
        ) by {
            if k == pi && l > pi {
                // prior[p] (now shifted one to the right) lies strictly above `name`
                if l > pi + 1 {
                    lemma_lex_lt_transitive(name_g@, prior[pi]@, prior[l - 1]@);
                }
            }
        }
        assert forall|n: Seq<char>| seq_has(acc@, n) implies seq_has(prior, n) || n
            == name_g@ by {
            let k = choose|k: int| 0 <= k < acc@.len() && (#[trigger] acc@[k])@ == n;
            if k < pi {
                assert(prior[k]@ == n);
            } else if k > pi {
                assert(prior[k - 1]@ == n);
            }
        }
        assert forall|n: Seq<char>| seq_has(prior, n) || n == name_g@ implies seq_has(
            acc@,
            n,
        ) by {
            if seq_has(prior, n) {
                let k = choose|k: int| 0 <= k < prior.len() && (#[trigger] prior[k])@ == n;
                if k < pi {
                    assert(acc@[k]@ == n);
                } else {
                    assert(acc@[k + 1]@ == n);
                }
            } else {
                assert(acc@[pi]@ == n);
            }
        }
    }
}

/// Dropping the first name of a strictly sorted vector drops exactly that
/// name from the members.
proof fn lemma_sorted_skip_members(a: Seq<String>)
    requires
        views_sorted(a),
        a.len() > 0,
    ensures
        views_sorted(a.skip(1)),
        forall|n: Seq<char>| seq_has(a.skip(1), n) <==> seq_has(a, n) && n != (a[0])@,
{
    assert forall|k: int, l: int| 0 <= k < l < a.skip(1).len() implies lex_lt(
        (#[trigger] a.skip(1)[k])@,
        (#[trigger] a.skip(1)[l])@,
    ) by {
        assert(a.skip(1)[k] == a[k + 1]);
        assert(a.skip(1)[l] == a[l + 1]);
    }
    assert forall|n: Seq<char>| seq_has(a.skip(1), n) implies seq_has(a, n) && n != (a[0])@ by {
        let k = choose|k: int| 0 <= k < a.skip(1).len() && (#[trigger] a.skip(1)[k])@ == n;
        assert(a.skip(1)[k] == a[k + 1]);
        assert((a[k + 1])@ == n);
        assert(lex_lt((a[0])@, (a[k + 1])@));
        lemma_lex_lt_irreflexive((a[0])@);
    }
    assert forall|n: Seq<char>| seq_has(a, n) && n != (a[0])@ implies seq_has(a.skip(1), n) by {
        let k = choose|k: int| 0 <= k < a.len() && (#[trigger] a[k])@ == n;
        assert(k != 0);
        assert(a.skip(1)[k - 1] == a[k]);
        assert((a.skip(1)[k - 1])@ == n);
    }
}

/// A strictly sorted vector of names is determined, name for name, by which
/// names it holds: two sorted vectors with the same members agree at every
/// position.
pub proof fn lemma_sorted_views_unique(a: Seq<String>, b: Seq<String>)
    requires
        views_sorted(a),
        views_sorted(b),
        forall|n: Seq<char>| seq_has(a, n) <==> seq_has(b, n),
    ensures
        a.len() == b.len(),
        forall|k: int| 0 <= k < a.len() ==> (#[trigger] a[k])@ == (b[k])@,
    decreases a.len(),
{
    if a.len() == 0 {
        if b.len() > 0 {
            assert(seq_has(b, (b[0])@));
            assert(seq_has(a, (b[0])@));
            assert(false);
        }
    } else {
        assert(seq_has(a, (a[0])@));
        assert(seq_has(b, (a[0])@));
        // the two heads are each other's members' minimum, so they agree
        let k = choose|k: int| 0 <= k < b.len() && (#[trigger] b[k])@ == (a[0])@;
        if k > 0 {
            assert(lex_lt((b[0])@, (b[k])@));
            assert(seq_has(b, (b[0])@));
            assert(seq_has(a, (b[0])@));
            let l = choose|l: int| 0 <= l < a.len() && (#[trigger] a[l])@ == (b[0])@;
            if l > 0 {
                assert(lex_lt((a[0])@, (a[l])@));
                lemma_lex_lt_asymmetric((a[0])@, (b[0])@);
            } else {
                lemma_lex_lt_irreflexive((a[0])@);
            }
        }
        assert((a[0])@ == (b[0])@);
        lemma_sorted_skip_members(a);
        lemma_sorted_skip_members(b);
        assert forall|n: Seq<char>| seq_has(a.skip(1), n) <==> seq_has(b.skip(1), n) by {
            assert(seq_has(a.skip(1), n) <==> seq_has(a, n) && n != (a[0])@);
            assert(seq_has(b.skip(1), n) <==> seq_has(b, n) && n != (b[0])@);
        }
        lemma_sorted_views_unique(a.skip(1), b.skip(1));
        assert forall|k2: int| 0 <= k2 < a.len() implies (#[trigger] a[k2])@ == (b[k2])@ by {
            if k2 > 0 {
                assert(a.skip(1)[k2 - 1] == a[k2]);
                assert(b.skip(1)[k2 - 1] == b[k2]);
                assert((a.skip(1)[k2 - 1])@ == (b.skip(1)[k2 - 1])@);
            }
        }
    }
}

/// How the indices of a sequence shift when one element is inserted.
proof fn lemma_seq_insert_index(s: Seq<String>, pos: int, elt: String)
    requires
        0 <= pos <= s.len(),
    ensures
        s.insert(pos, elt).len() == s.len() + 1,
        forall|i: int| 0 <= i < pos ==> #[trigger] s.insert(pos, elt)[i] == s[i],
        forall|i: int| pos < i < s.len() + 1 ==> #[trigger] s.insert(pos, elt)[i] == s[i - 1],
        s.insert(pos, elt)[pos] == elt,
{
    s.insert_ensures(pos, elt);
    assert forall|i: int| pos < i < s.len() + 1 implies #[trigger] s.insert(pos, elt)[i] == s[i
        - 1] by {
        assert(s.insert(pos, elt)[(i - 1) + 1] == s[i - 1]);
    }
}

} // verus!
