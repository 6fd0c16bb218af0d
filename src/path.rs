//! Paths inside an image and the order of names in a directory.

use vstd::prelude::*;

verus! {

/// The separator of path components.
pub const SEPARATOR: u8 = 0x2f;

/// The components of `s` up to byte `k`: those complete, and the one being read.
pub open spec fn split_upto(s: Seq<u8>, k: int) -> (Seq<Seq<u8>>, Seq<u8>)
    decreases k,
{
    if k <= 0 {
        (Seq::empty(), Seq::empty())
    } else {
        let (done, cur) = split_upto(s, k - 1);
        if s[k - 1] == SEPARATOR {
            if cur.len() > 0 {
                (done.push(cur), Seq::empty())
            } else {
                (done, Seq::empty())
            }
        } else {
            (done, cur.push(s[k - 1]))
        }
    }
}

/// The components of a path: the pieces between separators, empty ones left out.
pub open spec fn components(s: Seq<u8>) -> Seq<Seq<u8>> {
    let (done, cur) = split_upto(s, s.len() as int);
    if cur.len() > 0 {
        done.push(cur)
    } else {
        done
    }
}

/// Splits a path into its components.
pub fn split_path(s: &[u8]) -> (r: Vec<Vec<u8>>)
    ensures
        r@.map_values(|c: Vec<u8>| c@) == components(s@),
{
    let mut done: Vec<Vec<u8>> = Vec::new();
    let mut cur: Vec<u8> = Vec::new();
    let mut k: usize = 0;
    while k < s.len()
        invariant
            k <= s@.len(),
            split_upto(s@, k as int) == (done@.map_values(|c: Vec<u8>| c@), cur@),
        decreases s@.len() - k,
    {
        let ghost d0 = done@.map_values(|c: Vec<u8>| c@);
        if s[k] == SEPARATOR {
            if cur.len() > 0 {
                let ghost c0 = cur@;
                done.push(cur);
                cur = Vec::new();
                assert(done@.map_values(|c: Vec<u8>| c@) =~= d0.push(c0));
            }
            assert(cur@ =~= Seq::<u8>::empty());
        } else {
            cur.push(s[k]);
        }
        k = k + 1;
    }
    if cur.len() > 0 {
        let ghost d0 = done@.map_values(|c: Vec<u8>| c@);
        let ghost c0 = cur@;
        done.push(cur);
        assert(done@.map_values(|c: Vec<u8>| c@) =~= d0.push(c0));
    }
    done
}

/// Whether two byte strings are equal.
pub fn bytes_eq(a: &[u8], b: &[u8]) -> (r: bool)
    ensures
        r == (a@ == b@),
{
    if a.len() != b.len() {
        return false;
    }
    let mut k: usize = 0;
    while k < a.len()
        invariant
            k <= a@.len(),
            a@.len() == b@.len(),
            a@.subrange(0, k as int) == b@.subrange(0, k as int),
        decreases a@.len() - k,
    {
        if a[k] != b[k] {
            assert(a@[k as int] != b@[k as int]);
            return false;
        }
        k = k + 1;
        assert(a@.subrange(0, k as int) =~= a@.subrange(0, k - 1) .push(a@[k - 1]));
        assert(b@.subrange(0, k as int) =~= b@.subrange(0, k - 1) .push(b@[k - 1]));
    }
    assert(a@ =~= a@.subrange(0, k as int));
    assert(b@ =~= b@.subrange(0, k as int));
    true
}

/// An ASCII letter in lower case; other bytes as they are.
pub open spec fn lower(b: u8) -> u8 {
    if 0x41 <= b <= 0x5a {
        (b + 0x20) as u8
    } else {
        b
    }
}

/// Whether `a` comes before `b` in byte order, with ASCII letters put in
/// lower case where `fold_case` holds.
pub open spec fn lex_lt(a: Seq<u8>, b: Seq<u8>, fold_case: bool) -> bool
    decreases a.len(),
{
    if a.len() == 0 {
        b.len() > 0
    } else if b.len() == 0 {
        false
    } else {
        let x = if fold_case { lower(a[0]) } else { a[0] };
        let y = if fold_case { lower(b[0]) } else { b[0] };
        if x != y {
            x < y
        } else {
            lex_lt(a.drop_first(), b.drop_first(), fold_case)
        }
    }
}

/// Whether `a` and `b` are equal once ASCII letters are put in lower case.
pub open spec fn eq_fold(a: Seq<u8>, b: Seq<u8>) -> bool {
    a.len() == b.len() && forall|k: int| 0 <= k < a.len() ==> lower(#[trigger] a[k]) == lower(b[k])
}

/// The order of names in a directory: ASCII case-insensitive, ties broken by
/// byte order.
pub open spec fn name_lt(a: Seq<u8>, b: Seq<u8>) -> bool {
    lex_lt(a, b, true) || (eq_fold(a, b) && lex_lt(a, b, false))
}

/// The byte order, with or without case folding, is transitive.
pub proof fn lemma_lex_lt_trans(a: Seq<u8>, b: Seq<u8>, c: Seq<u8>, f: bool)
    requires
        lex_lt(a, b, f),
        lex_lt(b, c, f),
    ensures
        lex_lt(a, c, f),
    decreases a.len(),
{
    if a.len() > 0 && b.len() > 0 && c.len() > 0 {
        let x = if f { lower(a[0]) } else { a[0] };
        let y = if f { lower(b[0]) } else { b[0] };
        let z = if f { lower(c[0]) } else { c[0] };
        if x == y && y == z {
            lemma_lex_lt_trans(a.drop_first(), b.drop_first(), c.drop_first(), f);
        }
    }
}

/// Names equal up to case compare alike with every other name.
pub proof fn lemma_lex_fold_compat(a: Seq<u8>, b: Seq<u8>, c: Seq<u8>)
    requires
        eq_fold(a, b),
    ensures
        lex_lt(a, c, true) == lex_lt(b, c, true),
        lex_lt(c, a, true) == lex_lt(c, b, true),
    decreases a.len(),
{
    if a.len() > 0 && c.len() > 0 {
        assert(lower(a[0]) == lower(b[0]));
        assert(eq_fold(a.drop_first(), b.drop_first())) by {
            assert forall|k: int| 0 <= k < a.drop_first().len() implies lower(
                #[trigger] a.drop_first()[k],
            ) == lower(b.drop_first()[k]) by {
                assert(lower(a[k + 1]) == lower(b[k + 1]));
            }
        }
        lemma_lex_fold_compat(a.drop_first(), b.drop_first(), c.drop_first());
    }
}

/// No name comes before itself.
pub proof fn lemma_name_lt_irrefl(a: Seq<u8>)
    ensures
        !name_lt(a, a),
{
    lemma_lex_lt_irrefl(a, true);
    lemma_lex_lt_irrefl(a, false);
}

proof fn lemma_lex_lt_irrefl(a: Seq<u8>, f: bool)
    ensures
        !lex_lt(a, a, f),
    decreases a.len(),
{
    if a.len() > 0 {
        lemma_lex_lt_irrefl(a.drop_first(), f);
    }
}

/// The order of names in a directory is transitive.
pub proof fn lemma_name_lt_trans(a: Seq<u8>, b: Seq<u8>, c: Seq<u8>)
    requires
        name_lt(a, b),
        name_lt(b, c),
    ensures
        name_lt(a, c),
{
    if lex_lt(a, b, true) && lex_lt(b, c, true) {
        lemma_lex_lt_trans(a, b, c, true);
    } else if lex_lt(a, b, true) {
        lemma_lex_fold_compat(b, c, a);
    } else if lex_lt(b, c, true) {
        lemma_lex_fold_compat(a, b, c);
    } else {
        lemma_lex_lt_trans(a, b, c, false);
        assert(eq_fold(a, c)) by {
            assert forall|k: int| 0 <= k < a.len() implies lower(#[trigger] a[k]) == lower(c[k]) by {
                assert(lower(a[k]) == lower(b[k]));
                assert(lower(b[k]) == lower(c[k]));
            }
        }
    }
}

fn lower_byte(b: u8) -> (r: u8)
    ensures
        r == lower(b),
{
    if 0x41 <= b && b <= 0x5a {
        b + 0x20
    } else {
        b
    }
}

/// Whether `a` comes before `b` in byte order, with ASCII letters put in
/// lower case where `fold_case` holds.
fn lex_lt_from(a: &[u8], b: &[u8], fold_case: bool) -> (r: bool)
    ensures
        r == lex_lt(a@, b@, fold_case),
{
    let mut k: usize = 0;
    assert(a@.skip(0) =~= a@);
    assert(b@.skip(0) =~= b@);
    while k < a.len() && k < b.len()
        invariant
            k <= a@.len(),
            k <= b@.len(),
            lex_lt(a@, b@, fold_case) == lex_lt(a@.skip(k as int), b@.skip(k as int), fold_case),
        decreases a@.len() - k,
    {
        let x = if fold_case { lower_byte(a[k]) } else { a[k] };
        let y = if fold_case { lower_byte(b[k]) } else { b[k] };
        assert(a@.skip(k as int)[0] == a@[k as int]);
        assert(b@.skip(k as int)[0] == b@[k as int]);
        if x != y {
            return x < y;
        }
        assert(a@.skip(k as int).drop_first() =~= a@.skip(k + 1));
        assert(b@.skip(k as int).drop_first() =~= b@.skip(k + 1));
        k = k + 1;
    }
    k < b.len() && k >= a.len()
}

/// Whether `a` and `b` are equal once ASCII letters are put in lower case.
fn eq_fold_exec(a: &[u8], b: &[u8]) -> (r: bool)
    ensures
        r == eq_fold(a@, b@),
{
    if a.len() != b.len() {
        return false;
    }
    let mut k: usize = 0;
    while k < a.len()
        invariant
            k <= a@.len(),
            a@.len() == b@.len(),
            forall|j: int| 0 <= j < k ==> lower(#[trigger] a@[j]) == lower(b@[j]),
        decreases a@.len() - k,
    {
        if lower_byte(a[k]) != lower_byte(b[k]) {
            return false;
        }
        k = k + 1;
    }
    true
}

/// Whether the name `a` comes before the name `b` in a directory.
pub fn name_precedes(a: &[u8], b: &[u8]) -> (r: bool)
    ensures
        r == name_lt(a@, b@),
{
    if lex_lt_from(a, b, true) {
        return true;
    }
    eq_fold_exec(a, b) && lex_lt_from(a, b, false)
}

} // verus!
