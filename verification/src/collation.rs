//! The filename collation the host expects: a case-insensitive ordinal
//! comparison, character by character, with lowercase letters folded to
//! uppercase before the code points are compared.
//!
//! The order is a total preorder — reflexive, transitive, and total, as the
//! lemmas below state — in which a name sorts before every extension of
//! itself, and two names that differ only in letter case compare equal (ties
//! are left to the sort, which keeps the arrival order).

use vstd::prelude::*;

verus! {

/// The sort key one character contributes: its code point, with the ASCII
/// lowercase letters folded onto the uppercase ones.
pub open spec fn fold_key(c: char) -> int {
    let u = c as int;
    if 97 <= u && u <= 122 {
        u - 32
    } else {
        u
    }
}

/// Three-way comparison of two filenames under the folded ordinal order:
/// -1 if `a` sorts before `b`, 0 if they are equal under the collation,
/// 1 if `a` sorts after `b`.
pub open spec fn name_cmp(a: Seq<char>, b: Seq<char>) -> int
    decreases a.len(),
{
    if a.len() == 0 && b.len() == 0 {
        0
    } else if a.len() == 0 {
        -1
    } else if b.len() == 0 {
        1
    } else if fold_key(a[0]) < fold_key(b[0]) {
        -1
    } else if fold_key(a[0]) > fold_key(b[0]) {
        1
    } else {
        name_cmp(a.drop_first(), b.drop_first())
    }
}

/// `a` sorts no later than `b` under the collation.
pub open spec fn name_le(a: Seq<char>, b: Seq<char>) -> bool {
    name_cmp(a, b) <= 0
}

/// The comparison only ever takes the three values -1, 0 and 1.
pub proof fn lemma_name_cmp_range(a: Seq<char>, b: Seq<char>)
    ensures
        -1 <= name_cmp(a, b) <= 1,
    decreases a.len(),
{
    if a.len() != 0 && b.len() != 0 && fold_key(a[0]) == fold_key(b[0]) {
        lemma_name_cmp_range(a.drop_first(), b.drop_first());
    }
}

/// Swapping the arguments negates the comparison.
pub proof fn lemma_name_cmp_antisym(a: Seq<char>, b: Seq<char>)
    ensures
        name_cmp(b, a) == -name_cmp(a, b),
    decreases a.len(),
{
    if a.len() != 0 && b.len() != 0 && fold_key(a[0]) == fold_key(b[0]) {
        lemma_name_cmp_antisym(a.drop_first(), b.drop_first());
    }
}

/// Every filename compares equal to itself.
pub proof fn lemma_name_cmp_refl(a: Seq<char>)
    ensures
        name_cmp(a, a) == 0,
    decreases a.len(),
{
    if a.len() != 0 {
        lemma_name_cmp_refl(a.drop_first());
    }
}

/// The collation is transitive.
pub proof fn lemma_name_cmp_trans(a: Seq<char>, b: Seq<char>, c: Seq<char>)
    requires
        name_cmp(a, b) <= 0,
        name_cmp(b, c) <= 0,
    ensures
        name_cmp(a, c) <= 0,
    decreases a.len(),
{
    if a.len() != 0 {
        if b.len() == 0 || c.len() == 0 {
            // One of the two premises would be 1, which is impossible.
        } else if fold_key(a[0]) == fold_key(b[0]) && fold_key(b[0]) == fold_key(c[0]) {
            lemma_name_cmp_trans(a.drop_first(), b.drop_first(), c.drop_first());
        }
    }
}

/// Any two filenames are ordered one way or the other: the collation is total.
pub proof fn lemma_name_le_total(a: Seq<char>, b: Seq<char>)
    ensures
        name_le(a, b) || name_le(b, a),
{
    lemma_name_cmp_range(a, b);
    lemma_name_cmp_antisym(a, b);
}

/// Executable form of `fold_key`.
fn fold_char(c: char) -> (k: u32)
    ensures
        k as int == fold_key(c),
{
    let u = c as u32;
    if 97 <= u && u <= 122 {
        u - 32
    } else {
        u
    }
}

/// Compares two filenames under the host collation; returns -1, 0 or 1
/// exactly as `name_cmp` does on the two character sequences.
pub fn compare_names(a: &str, b: &str) -> (r: i32)
    ensures
        r as int == name_cmp(a@, b@),
{
    let la = a.unicode_len();
    let lb = b.unicode_len();
    let mut i: usize = 0;
    proof {
        assert(a@.skip(0) =~= a@);
        assert(b@.skip(0) =~= b@);
    }
    while i < la && i < lb
        invariant
            i <= la,
            i <= lb,
            la == a@.len(),
            lb == b@.len(),
            name_cmp(a@, b@) == name_cmp(a@.skip(i as int), b@.skip(i as int)),
        decreases la - i,
    {
        let ca = a.get_char(i);
        let cb = b.get_char(i);
        let fa = fold_char(ca);
        let fb = fold_char(cb);
        proof {
            assert(a@.skip(i as int)[0] == a@[i as int]);
            assert(b@.skip(i as int)[0] == b@[i as int]);
        }
        if fa < fb {
            return -1;
        }
        if fa > fb {
            return 1;
        }
        proof {
            assert(a@.skip(i as int).drop_first() =~= a@.skip(i as int + 1));
            assert(b@.skip(i as int).drop_first() =~= b@.skip(i as int + 1));
        }
        i = i + 1;
    }
    proof {
        assert(a@.skip(i as int).len() == la - i);
        assert(b@.skip(i as int).len() == lb - i);
    }
    if la < lb {
        -1
    } else if la > lb {
        1
    } else {
        0
    }
}

} // verus!
