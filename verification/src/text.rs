//! String ordering and helpers shared across the crate.
use vstd::prelude::*;

verus! {

/// Relies on `str`'s `PartialEq`: two string slices compare equal exactly
/// when their character sequences are equal.
pub assume_specification[ <str as PartialEq>::eq ](a: &str, b: &str) -> (r: bool)
    ensures
        r == (a@ == b@),
;

/// The views of a list of strings.
pub open spec fn string_views(v: Seq<String>) -> Seq<Seq<char>> {
    v.map_values(|s: String| s@)
}

/// Lexicographic order on character sequences by code point; the order that
/// Rust uses to compare strings.
pub open spec fn lex_le(a: Seq<char>, b: Seq<char>) -> bool
    decreases a.len(),
{
    if a.len() == 0 {
        true
    } else if b.len() == 0 {
        false
    } else if a[0] == b[0] {
        lex_le(a.skip(1), b.skip(1))
    } else {
        (a[0] as int) < (b[0] as int)
    }
}

/// A list of character sequences in ascending lexicographic order.
pub open spec fn sorted_le(s: Seq<Seq<char>>) -> bool {
    forall|p: int, q: int| 0 <= p < q < s.len() ==> lex_le(#[trigger] s[p], #[trigger] s[q])
}

/// The lexicographic order is reflexive.
pub proof fn lemma_lex_le_refl(a: Seq<char>)
    ensures
        lex_le(a, a),
    decreases a.len(),
{
    if a.len() > 0 {
        lemma_lex_le_refl(a.skip(1));
    }
}

/// The lexicographic order is total.
pub proof fn lemma_lex_le_total(a: Seq<char>, b: Seq<char>)
    ensures
        lex_le(a, b) || lex_le(b, a),
    decreases a.len(),
{
    if a.len() == 0 {
    } else if b.len() == 0 {
    } else if a[0] == b[0] {
        lemma_lex_le_total(a.skip(1), b.skip(1));
    } else {
        if !((a[0] as int) < (b[0] as int)) && !((b[0] as int) < (a[0] as int)) {
            assert((a[0] as int) == (b[0] as int));
            assert(a[0] == b[0]);
            assert(false);
        }
    }
}

/// The lexicographic order is transitive.
pub proof fn lemma_lex_le_trans(a: Seq<char>, b: Seq<char>, c: Seq<char>)
    requires
        lex_le(a, b),
        lex_le(b, c),
    ensures
        lex_le(a, c),
    decreases a.len(),
{
    if a.len() == 0 {
    } else {
        assert(b.len() > 0);
        assert(c.len() > 0);
        if a[0] == b[0] && b[0] == c[0] {
            lemma_lex_le_trans(a.skip(1), b.skip(1), c.skip(1));
        }
    }
}

/// Sequences that agree on a prefix compare the way their remainders do.
proof fn lemma_lex_le_skip(a: Seq<char>, b: Seq<char>, i: int)
    requires
        0 <= i <= a.len(),
        i <= b.len(),
        forall|m: int| 0 <= m < i ==> a[m] == b[m],
    ensures
        lex_le(a, b) == lex_le(a.skip(i), b.skip(i)),
    decreases i,
{
    if i > 0 {
        assert(a.len() > 0 && b.len() > 0);
        assert(a[0] == b[0]);
        lemma_lex_le_skip(a.skip(1), b.skip(1), i - 1);
        assert(a.skip(1).skip(i - 1) =~= a.skip(i));
        assert(b.skip(1).skip(i - 1) =~= b.skip(i));
    } else {
        assert(a.skip(0) =~= a);
        assert(b.skip(0) =~= b);
    }
}

/// Compares two strings in lexicographic order.
pub fn str_le(a: &str, b: &str) -> (r: bool)
    ensures
        r == lex_le(a@, b@),
{
    let la = a.unicode_len();
    let lb = b.unicode_len();
    let mut i: usize = 0;
    while i < la && i < lb
        invariant
            la == a@.len(),
            lb == b@.len(),
            i <= la,
            i <= lb,
            forall|m: int| 0 <= m < i ==> a@[m] == b@[m],
        decreases la - i,
    {
        let ca = a.get_char(i);
        let cb = b.get_char(i);
        if ca != cb {
            proof {
                lemma_lex_le_skip(a@, b@, i as int);
                assert(a@.skip(i as int)[0] == a@[i as int]);
                assert(b@.skip(i as int)[0] == b@[i as int]);
                assert(a@.skip(i as int).len() > 0 && b@.skip(i as int).len() > 0);
            }
            return (ca as u32) < (cb as u32);
        }
        i += 1;
    }
    proof {
        lemma_lex_le_skip(a@, b@, i as int);
        if i == la {
            assert(a@.skip(i as int).len() == 0);
        } else {
            assert(b@.skip(i as int).len() == 0);
            assert(a@.skip(i as int).len() > 0);
        }
    }
    la <= lb
}

/// Inserting an element anywhere in a sequence adds it to the multiset of
/// the sequence's elements.
proof fn lemma_to_multiset_insert<A>(s: Seq<A>, p: int, x: A)
    requires
        0 <= p <= s.len(),
    ensures
        s.insert(p, x).to_multiset() =~= s.to_multiset().insert(x),
{
    broadcast use vstd::seq_lib::group_to_multiset_ensures;

    let s2 = s.insert(p, x);
    assert(s2.remove(p) =~= s);
    assert(s2.remove(p).to_multiset() =~= s2.to_multiset().remove(s2[p]));
    assert(s2[p] == x);
    assert(s2.contains(x));
    assert(s2.to_multiset().count(x) > 0);
    assert forall|e: A| s2.to_multiset().count(e) == #[trigger] s.to_multiset().insert(x).count(
        e,
    ) by {
        if e == x {
            assert(s.to_multiset().count(x) == s2.to_multiset().remove(x).count(x));
        } else {
            assert(s.to_multiset().count(e) == s2.to_multiset().remove(x).count(e));
        }
    }
}

/// Sorts a list of strings in ascending lexicographic order. The result is a
/// rearrangement of the input: it holds the same character sequences with
/// the same multiplicities, in sorted order.
pub fn sort_strings(v: &Vec<String>) -> (r: Vec<String>)
    ensures
        sorted_le(string_views(r@)),
        string_views(r@).to_multiset() == string_views(v@).to_multiset(),
{
    broadcast use vstd::seq_lib::group_to_multiset_ensures;

    let n = v.len();
    let mut out: Vec<String> = Vec::new();
    proof {
        assert(string_views(out@) =~= Seq::<Seq<char>>::empty());
        assert(string_views(v@.take(0)) =~= Seq::<Seq<char>>::empty());
    }
    for idx in 0..n
        invariant
            n == v@.len(),
            out@.len() == idx,
            sorted_le(string_views(out@)),
            string_views(out@).to_multiset() == string_views(v@.take(idx as int)).to_multiset(),
    {
        let s = v[idx].clone();
        let mut p: usize = 0;
        while p < out.len() && str_le(out[p].as_str(), s.as_str())
            invariant
                p <= out@.len(),
                forall|m: int| 0 <= m < p ==> lex_le(string_views(out@)[m], s@),
            decreases out@.len() - p,
        {
            p += 1;
        }
        proof {
            if p < out@.len() {
                lemma_lex_le_total(string_views(out@)[p as int], s@);
                assert(lex_le(s@, string_views(out@)[p as int]));
            }
        }
        let ghost out0 = out@;
        let ghost views0 = string_views(out@);
        out.insert(p, s);
        proof {
            let views1 = string_views(out@);
            assert(out@ == out0.insert(p as int, s));
            assert(views1 =~= views0.insert(p as int, s@));
            lemma_to_multiset_insert(views0, p as int, s@);
            assert(views1.to_multiset() =~= views0.to_multiset().insert(s@));
            assert(v@.take(idx + 1) =~= v@.take(idx as int).push(v@[idx as int]));
            assert(string_views(v@.take(idx + 1)) =~= string_views(v@.take(idx as int)).push(
                v@[idx as int]@,
            ));
            string_views(v@.take(idx as int)).to_multiset_ensures();
            assert(string_views(v@.take(idx as int)).push(v@[idx as int]@).to_multiset()
                =~= string_views(v@.take(idx as int)).to_multiset().insert(v@[idx as int]@));
            assert(string_views(v@.take(idx + 1)) == string_views(v@.take(idx as int)).push(
                v@[idx as int]@,
            ));
            assert(string_views(v@.take(idx + 1)).to_multiset() =~= string_views(
                v@.take(idx as int),
            ).to_multiset().insert(s@));
            assert(sorted_le(views1)) by {
                assert forall|u: int, w: int| 0 <= u < w < views1.len() implies lex_le(
                    #[trigger] views1[u],
                    #[trigger] views1[w],
                ) by {
                    let gp = p as int;
                    if u < gp && w == gp {
                        assert(views1[u] == views0[u]);
                        assert(lex_le(views0[u], s@));
                    } else if u < gp && w > gp {
                        assert(views1[u] == views0[u] && views1[w] == views0[w - 1]);
                        if u == w - 1 {
                            lemma_lex_le_refl(views0[u]);
                        } else {
                            assert(lex_le(views0[u], views0[w - 1]));
                        }
                    } else if u == gp && w > gp {
                        assert(views1[u] == s@ && views1[w] == views0[w - 1]);
                        assert(lex_le(s@, views0[gp]));
                        if w - 1 == gp {
                        } else {
                            assert(lex_le(views0[gp], views0[w - 1]));
                            lemma_lex_le_trans(s@, views0[gp], views0[w - 1]);
                        }
                    } else if u > gp {
                        assert(views1[u] == views0[u - 1] && views1[w] == views0[w - 1]);
                        assert(lex_le(views0[u - 1], views0[w - 1]));
                    } else {
                        assert(u < gp && w < gp);
                        assert(views1[u] == views0[u] && views1[w] == views0[w]);
                        assert(lex_le(views0[u], views0[w]));
                    }
                }
            }
        }
    }
    proof {
        assert(v@.take(n as int) =~= v@);
    }
    out
}

/// The decimal digit character for a value below ten.
pub open spec fn dec_digit(d: int) -> char {
    if d == 0 {
        '0'
    } else if d == 1 {
        '1'
    } else if d == 2 {
        '2'
    } else if d == 3 {
        '3'
    } else if d == 4 {
        '4'
    } else if d == 5 {
        '5'
    } else if d == 6 {
        '6'
    } else if d == 7 {
        '7'
    } else if d == 8 {
        '8'
    } else {
        '9'
    }
}

/// The decimal rendering of a non-negative number.
pub open spec fn dec_rep(n: int) -> Seq<char>
    decreases n,
{
    if n < 10 {
        seq![dec_digit(n)]
    } else {
        dec_rep(n / 10).push(dec_digit(n % 10))
    }
}

/// The character of a single decimal digit.
fn digit_str(d: usize) -> (r: &'static str)
    requires
        d < 10,
    ensures
        r@ == seq![dec_digit(d as int)],
{
    proof {
        reveal_strlit("0");
        reveal_strlit("1");
        reveal_strlit("2");
        reveal_strlit("3");
        reveal_strlit("4");
        reveal_strlit("5");
        reveal_strlit("6");
        reveal_strlit("7");
        reveal_strlit("8");
        reveal_strlit("9");
    }
    let r = match d {
        0 => "0",
        1 => "1",
        2 => "2",
        3 => "3",
        4 => "4",
        5 => "5",
        6 => "6",
        7 => "7",
        8 => "8",
        _ => "9",
    };
    proof {
        assert(r@ =~= seq![dec_digit(d as int)]);
    }
    r
}

/// Renders a number in decimal.
pub fn usize_to_string(n: usize) -> (r: String)
    ensures
        r@ == dec_rep(n as int),
    decreases n,
{
    if n < 10 {
        let r = String::from_str(digit_str(n));
        proof {
            assert(r@ =~= dec_rep(n as int));
        }
        r
    } else {
        let mut r = usize_to_string(n / 10);
        r.append(digit_str(n % 10));
        proof {
            assert(r@ =~= dec_rep(n as int));
        }
        r
    }
}

} // verus!
