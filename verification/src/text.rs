//! Character-level helpers on string slices: equality, prefixes and the
//! base type of a (possibly borrowed) type name.
use vstd::prelude::*;

verus! {

/// Compares two string slices character by character.
pub fn str_eq(a: &str, b: &str) -> (r: bool)
    ensures
        r == (a@ == b@),
{
    let n = a.unicode_len();
    let m = b.unicode_len();
    if n != m {
        return false;
    }
    let mut i: usize = 0;
    while i < n
        invariant
            n == a@.len(),
            m == b@.len(),
            n == m,
            i <= n,
            forall|j: int| 0 <= j < i ==> a@[j] == b@[j],
        decreases n - i,
    {
        if a.get_char(i) != b.get_char(i) {
            return false;
        }
        i = i + 1;
    }
    assert(a@ =~= b@);
    true
}

/// `p` is a prefix of `s`.
pub open spec fn has_prefix(s: Seq<char>, p: Seq<char>) -> bool {
    p.len() <= s.len() && s.take(p.len() as int) == p
}

/// The prefix `& `, as the token printer writes a borrow.
pub open spec fn ref_prefix() -> Seq<char> {
    seq!['&', ' ']
}

/// The word `mut ` that marks a mutable borrow.
pub open spec fn mut_word() -> Seq<char> {
    seq!['m', 'u', 't', ' ']
}

/// A character that can stand in an identifier.
pub open spec fn ident_char(c: char) -> bool {
    ('a' <= c && c <= 'z') || ('A' <= c && c <= 'Z') || ('0' <= c && c <= '9') || c == '_'
}

/// The end of the run of identifier characters of `s` that starts at `i`.
pub open spec fn ident_end(s: Seq<char>, i: int) -> int
    decreases s.len() - i,
{
    if i < 0 || i >= s.len() || !ident_char(s[i]) {
        i
    } else {
        ident_end(s, i + 1)
    }
}

/// The length of a lifetime and the space after it (`'a `) at the start of
/// `s`; 0 when `s` starts with none.
pub open spec fn lifetime_len(s: Seq<char>) -> int {
    if s.len() > 1 && s[0] == '\'' && ident_char(s[1]) && ident_end(s, 1) < s.len() && s[ident_end(s, 1)] == ' ' {
        ident_end(s, 1) + 1
    } else {
        0
    }
}

/// Where the `mut ` of a borrowed type would stand: after the borrow sign
/// and its lifetime, if any.
pub open spec fn after_lifetime(t: Seq<char>) -> int {
    2 + lifetime_len(t.skip(2))
}

/// The printed type `t` is a mutable borrow: `& mut T` or `& 'a mut T`.
pub open spec fn is_mut_borrow(t: Seq<char>) -> bool {
    has_prefix(t, ref_prefix()) && has_prefix(t.skip(after_lifetime(t)), mut_word())
}

/// The length of the borrow prefix of a printed type (0 for an owned type):
/// the borrow sign, a lifetime if there is one, and `mut ` if there is one.
pub open spec fn borrow_prefix_len(t: Seq<char>) -> int {
    if !has_prefix(t, ref_prefix()) {
        0
    } else if is_mut_borrow(t) {
        after_lifetime(t) + 4
    } else {
        after_lifetime(t)
    }
}

/// The type a parameter of printed type `t` holds: `t` without its borrow.
pub open spec fn base_type(t: Seq<char>) -> Seq<char> {
    t.skip(borrow_prefix_len(t))
}

pub proof fn lemma_ident_end(s: Seq<char>, i: int)
    requires
        0 <= i <= s.len(),
    ensures
        i <= ident_end(s, i) <= s.len(),
    decreases s.len() - i,
{
    if i < s.len() && ident_char(s[i]) {
        lemma_ident_end(s, i + 1);
    }
}

/// Whether `c` can stand in an identifier.
pub fn is_ident_char(c: char) -> (r: bool)
    ensures
        r == ident_char(c),
{
    ('a' <= c && c <= 'z') || ('A' <= c && c <= 'Z') || ('0' <= c && c <= '9') || c == '_'
}

/// Whether `s` starts with `p`, both given as slices.
pub fn starts_with_chars(s: &str, pv: &[char]) -> (r: bool)
    ensures
        r == has_prefix(s@, pv@),
{
    let ghost p = pv@;
    let n = s.unicode_len();
    let k = pv.len();
    if k > n {
        return false;
    }
    let mut i: usize = 0;
    while i < k
        invariant
            n == s@.len(),
            k == p.len(),
            pv@ == p,
            k <= n,
            i <= k,
            forall|j: int| 0 <= j < i ==> s@[j] == p[j],
        decreases k - i,
    {
        if s.get_char(i) != pv[i] {
            assert(s@.take(k as int)[i as int] != p[i as int]);
            return false;
        }
        i = i + 1;
    }
    assert(s@.take(k as int) =~= p);
    true
}

/// The length of the lifetime that starts the printed type `t` at position
/// 2, right after its borrow sign (see `lifetime_len`).
fn lifetime_length(t: &str) -> (r: usize)
    requires
        t@.len() >= 2,
    ensures
        r == lifetime_len(t@.skip(2)),
        r + 2 <= t@.len(),
{
    let ghost s = t@.skip(2);
    proof {
        if s.len() >= 1 {
            lemma_ident_end(s, 1);
        }
    }
    let n = t.unicode_len();
    if n < 4 || t.get_char(2) != '\'' || !is_ident_char(t.get_char(3)) {
        return 0;
    }
    let mut e: usize = 3;
    while e < n && is_ident_char(t.get_char(e))
        invariant
            n == t@.len(),
            3 <= e <= n,
            s == t@.skip(2),
            ident_end(s, 1) == ident_end(s, e - 2),
        decreases n - e,
    {
        assert(s[e - 2] == t@[e as int]);
        e = e + 1;
    }
    proof {
        if e < n {
            assert(s[e - 2] == t@[e as int]);
        }
        assert(ident_end(s, e - 2) == e - 2);
    }
    if e < n && t.get_char(e) == ' ' {
        assert(s[e - 2] == t@[e as int]);
        e - 1
    } else {
        0
    }
}

/// The length of the borrow prefix of the printed type `t`, and whether it
/// is a mutable borrow.
pub fn borrow_parts(t: &str) -> (r: (usize, bool))
    ensures
        r.0 == borrow_prefix_len(t@),
        r.1 == is_mut_borrow(t@),
        r.0 > 0 <==> has_prefix(t@, ref_prefix()),
{
    let n = t.unicode_len();
    let s: [char; 2] = ['&', ' '];
    assert(s@ =~= ref_prefix());
    if !starts_with_chars(t, s.as_slice()) {
        return (0, false);
    }
    let l = lifetime_length(t);
    let at = 2 + l;
    let mutw = "mut ";
    proof {
        reveal_strlit("mut ");
        assert(mutw@ =~= mut_word());
    }
    let has_mut = occurs_at(t, n, at, mutw, 4);
    proof {
        if has_mut {
            assert(t@.skip(at as int).take(4) =~= t@.subrange(at as int, at + 4));
        } else if at + 4 <= n {
            assert(t@.skip(at as int).take(4) =~= t@.subrange(at as int, at + 4));
        }
    }
    if has_mut {
        (at + 4, true)
    } else {
        (at, false)
    }
}

/// The length of the borrow prefix of the printed type `t`.
pub fn borrow_prefix_length(t: &str) -> (r: usize)
    ensures
        r == borrow_prefix_len(t@),
{
    borrow_parts(t).0
}

/// Whether a value of printed type `out_ty` can be handed to a parameter of
/// printed type `in_ty`: `out_ty` equals the base type of `in_ty`.
pub fn type_accepts(out_ty: &str, in_ty: &str) -> (r: bool)
    ensures
        r == (out_ty@ == base_type(in_ty@)),
{
    let k = borrow_prefix_length(in_ty);
    let n = in_ty.unicode_len();
    let m = out_ty.unicode_len();
    if n - k != m {
        assert(base_type(in_ty@).len() == n - k);
        return false;
    }
    let mut i: usize = 0;
    while i < m
        invariant
            n == in_ty@.len(),
            m == out_ty@.len(),
            k == borrow_prefix_len(in_ty@),
            k <= n,
            n - k == m,
            i <= m,
            forall|j: int| 0 <= j < i ==> out_ty@[j] == in_ty@[j + k],
        decreases m - i,
    {
        if out_ty.get_char(i) != in_ty.get_char(i + k) {
            assert(base_type(in_ty@)[i as int] == in_ty@[i + k]);
            return false;
        }
        i = i + 1;
    }
    assert(out_ty@ =~= base_type(in_ty@));
    true
}

} // verus!

verus! {

/// The decimal digit of `d` (below ten).
pub open spec fn digit_char(d: int) -> char {
    "0123456789"@[d]
}

/// The decimal notation of `n`.
pub open spec fn decimal(n: nat) -> Seq<char>
    decreases n,
{
    if n < 10 {
        seq![digit_char(n as int)]
    } else {
        decimal(n / 10) + seq![digit_char((n % 10) as int)]
    }
}

/// Appends the decimal notation of `n` to `s`.
pub fn push_decimal(s: &mut String, n: usize)
    ensures
        final(s)@ == old(s)@ + decimal(n as nat),
    decreases n,
{
    let digits = "0123456789";
    proof {
        reveal_strlit("0123456789");
    }
    if n >= 10 {
        push_decimal(s, n / 10);
    }
    let d = n % 10;
    let piece = digits.substring_char(d, d + 1);
    assert(piece@ =~= seq![digit_char(d as int)]);
    s.append(piece);
    assert(s@ =~= old(s)@ + decimal(n as nat));
}

/// `s` with every occurrence of `pat` from position `i` on, taken left to
/// right without overlap, replaced by `rep`.
pub open spec fn replace_from(s: Seq<char>, pat: Seq<char>, rep: Seq<char>, i: int) -> Seq<char>
    decreases s.len() - i,
{
    if i < 0 || i >= s.len() {
        Seq::empty()
    } else if pat.len() > 0 && i + pat.len() <= s.len() && s.subrange(i, i + pat.len() as int) == pat {
        rep + replace_from(s, pat, rep, i + pat.len() as int)
    } else {
        seq![s[i]] + replace_from(s, pat, rep, i + 1)
    }
}

/// `s` with every occurrence of `pat`, taken left to right without
/// overlap, replaced by `rep`.
pub open spec fn replace_all(s: Seq<char>, pat: Seq<char>, rep: Seq<char>) -> Seq<char> {
    replace_from(s, pat, rep, 0)
}

/// Whether `pat` occurs in `s` at position `i`.
fn occurs_at(s: &str, n: usize, i: usize, pat: &str, k: usize) -> (r: bool)
    requires
        n == s@.len(),
        k == pat@.len(),
        i <= n,
    ensures
        r == (i + k <= n && s@.subrange(i as int, i + k) == pat@),
{
    if k > n - i {
        return false;
    }
    let mut j: usize = 0;
    while j < k
        invariant
            n == s@.len(),
            k == pat@.len(),
            i + k <= n,
            j <= k,
            forall|m: int| 0 <= m < j ==> s@[i + m] == pat@[m],
        decreases k - j,
    {
        if s.get_char(i + j) != pat.get_char(j) {
            assert(s@.subrange(i as int, i + k)[j as int] != pat@[j as int]);
            return false;
        }
        j = j + 1;
    }
    assert(s@.subrange(i as int, i + k) =~= pat@);
    true
}

/// Appends `s`, with every occurrence of `pat` replaced by `rep`, to `out`.
pub fn push_replaced(out: &mut String, s: &str, pat: &str, rep: &str)
    ensures
        final(out)@ == old(out)@ + replace_all(s@, pat@, rep@),
{
    let n = s.unicode_len();
    let k = pat.unicode_len();
    let mut i: usize = 0;
    while i < n
        invariant
            n == s@.len(),
            k == pat@.len(),
            i <= n,
            old(out)@ + replace_from(s@, pat@, rep@, 0) == out@ + replace_from(s@, pat@, rep@, i as int),
        decreases n - i,
    {
        let ghost before = out@;
        if k > 0 && occurs_at(s, n, i, pat, k) {
            out.append(rep);
            proof {
                assert(replace_from(s@, pat@, rep@, i as int) == rep@ + replace_from(s@, pat@, rep@, i + k));
                assert(before + replace_from(s@, pat@, rep@, i as int) =~= out@ + replace_from(s@, pat@, rep@, i + k));
            }
            i = i + k;
        } else {
            let piece = s.substring_char(i, i + 1);
            out.append(piece);
            proof {
                assert(piece@ =~= seq![s@[i as int]]);
                assert(replace_from(s@, pat@, rep@, i as int) == seq![s@[i as int]] + replace_from(s@, pat@, rep@, i + 1));
                assert(before + replace_from(s@, pat@, rep@, i as int) =~= out@ + replace_from(s@, pat@, rep@, i + 1));
            }
            i = i + 1;
        }
    }
    assert(replace_from(s@, pat@, rep@, n as int) =~= Seq::<char>::empty());
    assert(out@ =~= old(out)@ + replace_all(s@, pat@, rep@));
}

} // verus!
