//! The order of strings: lexicographic by character code, which for UTF-8
//! text is the same as the byte-wise order of the encoded strings.
use vstd::prelude::*;
use vstd::string::*;

verus! {

/// `a` comes no later than `b`.
pub open spec fn text_le(a: Seq<char>, b: Seq<char>) -> bool
    decreases a.len(),
{
    if a.len() == 0 {
        true
    } else if b.len() == 0 {
        false
    } else if a[0] != b[0] {
        (a[0] as int) < (b[0] as int)
    } else {
        text_le(a.drop_first(), b.drop_first())
    }
}

/// Every text comes no later than itself.
pub proof fn lemma_text_le_reflexive(a: Seq<char>)
    ensures
        text_le(a, a),
    decreases a.len(),
{
    if a.len() > 0 {
        lemma_text_le_reflexive(a.drop_first());
    }
}

/// Of two texts, one comes no later than the other.
pub proof fn lemma_text_le_total(a: Seq<char>, b: Seq<char>)
    ensures
        text_le(a, b) || text_le(b, a),
    decreases a.len(),
{
    if a.len() > 0 && b.len() > 0 {
        if a[0] == b[0] {
            lemma_text_le_total(a.drop_first(), b.drop_first());
        } else {
            assert((a[0] as int) != (b[0] as int));
        }
    }
}

/// The order is transitive.
pub proof fn lemma_text_le_transitive(a: Seq<char>, b: Seq<char>, c: Seq<char>)
    requires
        text_le(a, b),
        text_le(b, c),
    ensures
        text_le(a, c),
    decreases a.len(),
{
    if a.len() > 0 && b.len() > 0 && c.len() > 0 {
        if a[0] == b[0] && b[0] == c[0] {
            lemma_text_le_transitive(a.drop_first(), b.drop_first(), c.drop_first());
        }
    }
}

/// Two texts that come no later than each other are equal.
pub proof fn lemma_text_le_antisymmetric(a: Seq<char>, b: Seq<char>)
    requires
        text_le(a, b),
        text_le(b, a),
    ensures
        a == b,
    decreases a.len(),
{
    if a.len() == 0 {
        assert(b.len() == 0);
        assert(a =~= b);
    } else {
        assert(b.len() > 0);
        if a[0] == b[0] {
            lemma_text_le_antisymmetric(a.drop_first(), b.drop_first());
            assert(a =~= seq![a[0]] + a.drop_first());
            assert(b =~= seq![b[0]] + b.drop_first());
        } else {
            assert(false);
        }
    }
}


/// `a` is an initial run of `b`.
pub open spec fn is_text_prefix(a: Seq<char>, b: Seq<char>) -> bool {
    a.len() <= b.len() && a == b.take(a.len() as int)
}

/// `a` and `b` agree before position `k` and differ at `k`.
pub open spec fn first_difference_at(a: Seq<char>, b: Seq<char>, k: int) -> bool {
    0 <= k < a.len() && k < b.len() && a.take(k) == b.take(k) && a[k] != b[k]
}

/// The order is that of character codes: `a` comes no later than `b`
/// exactly when `a` begins `b`, or at the first position where they differ
/// `a` has the smaller character code.
pub proof fn lemma_text_le_is_code_point_order(a: Seq<char>, b: Seq<char>)
    ensures
        text_le(a, b) <==> (is_text_prefix(a, b) || exists|k: int|
            first_difference_at(a, b, k) && (a[k] as int) < (b[k] as int)),
    decreases a.len(),
{
    if a.len() == 0 {
        assert(a =~= b.take(0));
    } else if b.len() == 0 {
        assert(!is_text_prefix(a, b));
    } else if a[0] != b[0] {
        assert(first_difference_at(a, b, 0)) by {
            assert(a.take(0) =~= b.take(0));
        }
        if is_text_prefix(a, b) {
            assert(a[0] == b.take(a.len() as int)[0]);
        }
        assert forall|k: int| first_difference_at(a, b, k) implies k == 0 by {
            if k > 0 {
                assert(a.take(k)[0] == b.take(k)[0]);
            }
        }
    } else {
        let a1 = a.drop_first();
        let b1 = b.drop_first();
        lemma_text_le_is_code_point_order(a1, b1);
        assert(is_text_prefix(a, b) <==> is_text_prefix(a1, b1)) by {
            if is_text_prefix(a, b) {
                assert(a1 =~= b1.take(a1.len() as int));
            }
            if is_text_prefix(a1, b1) {
                assert forall|i: int| 0 <= i < a.len() implies a[i] == b.take(a.len() as int)[i] by {
                    if i > 0 {
                        assert(a[i] == a1[i - 1]);
                        assert(a1[i - 1] == b1.take(a1.len() as int)[i - 1]);
                        assert(b[i] == b1[i - 1]);
                    }
                }
                assert(a =~= b.take(a.len() as int));
            }
        }
        if exists|k: int| first_difference_at(a, b, k) && (a[k] as int) < (b[k] as int) {
            let k = choose|k: int| first_difference_at(a, b, k) && (a[k] as int) < (b[k] as int);
            assert(k != 0);
            assert(a1.take(k - 1) =~= a.take(k).drop_first());
            assert(b1.take(k - 1) =~= b.take(k).drop_first());
            assert(first_difference_at(a1, b1, k - 1));
        }
        if exists|k: int| first_difference_at(a1, b1, k) && (a1[k] as int) < (b1[k] as int) {
            let k = choose|k: int| first_difference_at(a1, b1, k) && (a1[k] as int) < (b1[k] as int);
            assert(a.take(k + 1) =~= seq![a[0]] + a1.take(k));
            assert(b.take(k + 1) =~= seq![b[0]] + b1.take(k));
            assert(first_difference_at(a, b, k + 1));
        }
    }
}

/// For single characters, the order is that of their codes.
pub proof fn lemma_text_le_single_chars(c: char, d: char)
    ensures
        text_le(seq![c], seq![d]) <==> (c as int) <= (d as int),
{
    let a = seq![c];
    let b = seq![d];
    assert(a.drop_first() =~= Seq::<char>::empty());
    assert(b.drop_first() =~= Seq::<char>::empty());
    assert(a[0] == c && b[0] == d);
    if c == d {
        assert(text_le(a.drop_first(), b.drop_first()));
    } else {
        assert((c as int) != (d as int));
    }
}

/// Whether `a` comes no later than `b`.
pub fn text_less_or_equal(a: &str, b: &str) -> (le: bool)
    ensures
        le == text_le(a@, b@),
        le <==> (is_text_prefix(a@, b@) || exists|k: int|
            first_difference_at(a@, b@, k) && (a@[k] as int) < (b@[k] as int)),
{
    proof {
        lemma_text_le_is_code_point_order(a@, b@);
    }
    let n = a.unicode_len();
    let m = b.unicode_len();
    let mut i: usize = 0;
    assert(a@.skip(0) =~= a@);
    assert(b@.skip(0) =~= b@);
    while i < n && i < m
        invariant
            n == a@.len(),
            m == b@.len(),
            i <= n,
            i <= m,
            text_le(a@, b@) == text_le(a@.skip(i as int), b@.skip(i as int)),
            text_le(a@, b@) <==> (is_text_prefix(a@, b@) || exists|k: int|
                first_difference_at(a@, b@, k) && (a@[k] as int) < (b@[k] as int)),
        decreases n - i,
    {
        let x = a.get_char(i);
        let y = b.get_char(i);
        proof {
            let s = a@.skip(i as int);
            let t = b@.skip(i as int);
            assert(s[0] == x);
            assert(t[0] == y);
            assert(s.drop_first() =~= a@.skip(i + 1));
            assert(t.drop_first() =~= b@.skip(i + 1));
        }
        if x != y {
            return (x as u32) < (y as u32);
        }
        i = i + 1;
    }
    proof {
        if i == n {
            assert(a@.skip(i as int).len() == 0);
        } else {
            assert(b@.skip(i as int).len() == 0);
        }
    }
    i == n
}

} // verus!
