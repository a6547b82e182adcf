//! Byte-string vocabulary shared by the encodings: lexicographic order (the
//! order in which the storage layer sorts keys) and big-endian numbers.
use vstd::prelude::*;

verus! {

/// Strict lexicographic order on byte strings, the order of Rust's `[u8]`
/// comparison: a proper prefix sorts first.
pub open spec fn lex_lt(a: Seq<u8>, b: Seq<u8>) -> bool
    decreases a.len(),
{
    if a.len() == 0 {
        b.len() > 0
    } else if b.len() == 0 {
        false
    } else if a[0] < b[0] {
        true
    } else if a[0] == b[0] {
        lex_lt(a.drop_first(), b.drop_first())
    } else {
        false
    }
}

/// `256^k`.
pub open spec fn pow256(k: nat) -> nat
    decreases k,
{
    if k == 0 {
        1
    } else {
        256 * pow256((k - 1) as nat)
    }
}

/// The `n` low bytes of `v`, most significant first.
pub open spec fn be_seq(v: nat, n: nat) -> Seq<u8>
    decreases n,
{
    if n == 0 {
        Seq::empty()
    } else {
        be_seq(v / 256, (n - 1) as nat).push((v % 256) as u8)
    }
}

/// The number that big-endian bytes `s` stand for.
pub open spec fn be_value(s: Seq<u8>) -> nat
    decreases s.len(),
{
    if s.len() == 0 {
        0
    } else {
        be_value(s.drop_last()) * 256 + (s.last() as nat)
    }
}

/// Whether `p` is a prefix of `s`.
pub open spec fn is_prefix(p: Seq<u8>, s: Seq<u8>) -> bool {
    p.len() <= s.len() && s.subrange(0, p.len() as int) == p
}

pub proof fn lemma_pow256_positive(k: nat)
    ensures
        pow256(k) >= 1,
    decreases k,
{
    if k > 0 {
        lemma_pow256_positive((k - 1) as nat);
    }
}

pub proof fn lemma_pow256_mono(a: nat, b: nat)
    requires
        a <= b,
    ensures
        pow256(a) <= pow256(b),
    decreases b,
{
    if a < b {
        lemma_pow256_mono(a, (b - 1) as nat);
        lemma_pow256_positive((b - 1) as nat);
    }
}

pub proof fn lemma_be_seq_len(v: nat, n: nat)
    ensures
        be_seq(v, n).len() == n,
    decreases n,
{
    if n > 0 {
        lemma_be_seq_len(v / 256, (n - 1) as nat);
    }
}

/// Bytes written for `v` read back as `v`, when `v` fits.
pub proof fn lemma_be_value_of_seq(v: nat, n: nat)
    requires
        v < pow256(n),
    ensures
        be_value(be_seq(v, n)) == v,
    decreases n,
{
    if n > 0 {
        lemma_be_seq_len(v / 256, (n - 1) as nat);
        lemma_be_value_of_seq(v / 256, (n - 1) as nat);
        let s = be_seq(v, n);
        assert(s.drop_last() =~= be_seq(v / 256, (n - 1) as nat));
    }
}

/// Big-endian bytes stand for a number below `256^len`.
pub proof fn lemma_be_value_bound(s: Seq<u8>)
    ensures
        be_value(s) < pow256(s.len()),
    decreases s.len(),
{
    if s.len() > 0 {
        lemma_be_value_bound(s.drop_last());
    }
}

/// Writing the number that bytes stand for gives the same bytes back.
pub proof fn lemma_be_seq_of_value(s: Seq<u8>)
    ensures
        be_seq(be_value(s), s.len()) == s,
    decreases s.len(),
{
    if s.len() > 0 {
        let v = be_value(s);
        let d = be_value(s.drop_last());
        assert(v / 256 == d);
        assert(v % 256 == s.last());
        lemma_be_seq_of_value(s.drop_last());
        assert(be_seq(v, s.len()) =~= s);
    }
}

/// A common prefix does not change the order.
pub proof fn lemma_lex_common_prefix(p: Seq<u8>, a: Seq<u8>, b: Seq<u8>)
    ensures
        lex_lt(p + a, p + b) == lex_lt(a, b),
    decreases p.len(),
{
    if p.len() > 0 {
        assert((p + a).drop_first() =~= p.drop_first() + a);
        assert((p + b).drop_first() =~= p.drop_first() + b);
        lemma_lex_common_prefix(p.drop_first(), a, b);
    } else {
        assert(p + a =~= a);
        assert(p + b =~= b);
    }
}

/// At the first differing position the bytes decide the order.
pub proof fn lemma_lex_first_difference(p: Seq<u8>, x: u8, y: u8, a: Seq<u8>, b: Seq<u8>)
    requires
        x != y,
    ensures
        lex_lt(p + seq![x] + a, p + seq![y] + b) == (x < y),
{
    lemma_lex_common_prefix(p, seq![x] + a, seq![y] + b);
    assert(p + seq![x] + a =~= p + (seq![x] + a));
    assert(p + seq![y] + b =~= p + (seq![y] + b));
}

pub proof fn lemma_lex_irreflexive(a: Seq<u8>)
    ensures
        !lex_lt(a, a),
    decreases a.len(),
{
    if a.len() > 0 {
        lemma_lex_irreflexive(a.drop_first());
    }
}

pub proof fn lemma_lex_asymmetric(a: Seq<u8>, b: Seq<u8>)
    requires
        lex_lt(a, b),
    ensures
        !lex_lt(b, a),
    decreases a.len(),
{
    if a.len() > 0 && b.len() > 0 && a[0] == b[0] {
        lemma_lex_asymmetric(a.drop_first(), b.drop_first());
    }
}

pub proof fn lemma_lex_transitive(a: Seq<u8>, b: Seq<u8>, c: Seq<u8>)
    requires
        lex_lt(a, b),
        lex_lt(b, c),
    ensures
        lex_lt(a, c),
    decreases a.len(),
{
    if a.len() > 0 && b.len() > 0 && c.len() > 0 && a[0] == b[0] && b[0] == c[0] {
        lemma_lex_transitive(a.drop_first(), b.drop_first(), c.drop_first());
    }
}

/// Two strings are equal, or one sorts before the other.
pub proof fn lemma_lex_total(a: Seq<u8>, b: Seq<u8>)
    ensures
        a == b || lex_lt(a, b) || lex_lt(b, a),
    decreases a.len(),
{
    if a.len() > 0 && b.len() > 0 && a[0] == b[0] {
        lemma_lex_total(a.drop_first(), b.drop_first());
        if a.drop_first() == b.drop_first() {
            assert(a =~= seq![a[0]] + a.drop_first());
            assert(b =~= seq![b[0]] + b.drop_first());
        }
    } else if a.len() == 0 && b.len() == 0 {
        assert(a =~= b);
    }
}

/// Equal-length big-endian numbers compare as their bytes do, whatever follows.
pub proof fn lemma_be_seq_order(x: nat, y: nat, n: nat, a: Seq<u8>, b: Seq<u8>)
    requires
        x != y,
        x < pow256(n),
        y < pow256(n),
    ensures
        lex_lt(be_seq(x, n) + a, be_seq(y, n) + b) == (x < y),
    decreases n,
{
    if n == 0 {
        assert(false);
    } else {
        let m = (n - 1) as nat;
        let px = be_seq(x / 256, m);
        let py = be_seq(y / 256, m);
        let bx = (x % 256) as u8;
        let by = (y % 256) as u8;
        assert(be_seq(x, n) + a =~= px + (seq![bx] + a));
        assert(be_seq(y, n) + b =~= py + (seq![by] + b));
        if x / 256 == y / 256 {
            assert(bx != by);
            lemma_lex_first_difference(px, bx, by, a, b);
            assert(px + seq![bx] + a =~= px + (seq![bx] + a));
            assert(py + seq![by] + b =~= py + (seq![by] + b));
        } else {
            lemma_be_seq_order(x / 256, y / 256, m, seq![bx] + a, seq![by] + b);
        }
    }
}

/// The smallest byte string above every string that starts with `p`: the
/// last byte below 0xFF incremented, what follows it dropped; nothing when
/// every byte is 0xFF.
pub open spec fn successor(p: Seq<u8>) -> Option<Seq<u8>>
    decreases p.len(),
{
    if p.len() == 0 {
        None
    } else if p.last() < 0xff {
        Some(p.drop_last().push((p.last() + 1) as u8))
    } else {
        successor(p.drop_last())
    }
}

pub proof fn lemma_successor_cons(c: u8, p: Seq<u8>)
    ensures
        successor(seq![c] + p) == match successor(p) {
            Some(s) => Some(seq![c] + s),
            None => if c < 0xff {
                Some(seq![(c + 1) as u8])
            } else {
                None
            },
        },
    decreases p.len(),
{
    let q = seq![c] + p;
    if p.len() == 0 {
        assert(q =~= seq![c]);
        assert(q.last() == c);
        assert(q.drop_last() =~= Seq::<u8>::empty());
        assert(successor(Seq::<u8>::empty()) is None);
        if c < 0xff {
            assert(q.drop_last().push((c + 1) as u8) =~= seq![(c + 1) as u8]);
        }
    } else {
        assert(q.last() == p.last());
        assert(q.drop_last() =~= seq![c] + p.drop_last());
        if p.last() < 0xff {
            assert(successor(p) == Some(p.drop_last().push((p.last() + 1) as u8)));
            assert(q.drop_last().push((p.last() + 1) as u8) =~= seq![c] + p.drop_last().push(
                (p.last() + 1) as u8,
            ));
        } else {
            assert(successor(p) == successor(p.drop_last()));
            assert(successor(q) == successor(q.drop_last()));
            lemma_successor_cons(c, p.drop_last());
        }
    }
}

/// The strings starting with `p` are exactly those from `p` up to (not
/// including) its successor, so a prefix scan is a range scan.
pub proof fn lemma_prefix_range(p: Seq<u8>, k: Seq<u8>)
    ensures
        is_prefix(p, k) == (!lex_lt(k, p) && match successor(p) {
            Some(s) => lex_lt(k, s),
            None => true,
        }),
    decreases p.len(),
{
    if p.len() == 0 {
        assert(k.subrange(0, 0) =~= p);
    } else if k.len() == 0 {
        assert(!is_prefix(p, k));
        assert(lex_lt(k, p));
    } else {
        let c = p[0];
        let d = k[0];
        let pp = p.drop_first();
        let kk = k.drop_first();
        assert(p =~= seq![c] + pp);
        lemma_successor_cons(c, pp);
        lemma_prefix_range(pp, kk);
        if is_prefix(pp, kk) && c == d {
            assert(k.subrange(0, p.len() as int) =~= seq![c] + kk.subrange(0, pp.len() as int));
        }
        if is_prefix(p, k) {
            assert(kk.subrange(0, pp.len() as int) =~= k.subrange(0, p.len() as int).drop_first());
            assert(k.subrange(0, p.len() as int)[0] == d);
        }
        assert(is_prefix(p, k) == (c == d && is_prefix(pp, kk)));
        assert(lex_lt(k, p) == (d < c || (d == c && lex_lt(kk, pp))));
        match successor(pp) {
            Some(sp) => {
                let s2 = seq![c] + sp;
                assert(s2[0] == c);
                assert(s2.drop_first() =~= sp);
                assert(lex_lt(k, s2) == (d < c || (d == c && lex_lt(kk, sp))));
            },
            None => {
                if c < 0xff {
                    let s2 = seq![(c + 1) as u8];
                    assert(s2.drop_first().len() == 0);
                    assert(!lex_lt(kk, s2.drop_first()));
                    assert(lex_lt(k, s2) == (d < c + 1));
                }
            },
        }
    }
}

/// A string has no successor exactly when every byte of it is 0xFF (the
/// empty string included); otherwise the successor sorts above it.
pub proof fn lemma_successor_shape(p: Seq<u8>)
    ensures
        successor(p) is None <==> forall|i: int| 0 <= i < p.len() ==> p[i] == 0xff,
        successor(p) matches Some(s) ==> lex_lt(p, s),
    decreases p.len(),
{
    if p.len() > 0 {
        lemma_successor_shape(p.drop_last());
        if p.last() == 0xff {
            assert forall|i: int| 0 <= i < p.len() - 1 implies p.drop_last()[i] == p[i] by {}
            if forall|i: int| 0 <= i < p.len() - 1 ==> p[i] == 0xff {
                assert forall|i: int| 0 <= i < p.len() - 1 implies p.drop_last()[i] == 0xff by {}
            }
            if forall|i: int| 0 <= i < p.drop_last().len() ==> p.drop_last()[i] == 0xff {
                assert forall|i: int| 0 <= i < p.len() implies p[i] == 0xff by {
                    if i < p.len() - 1 {
                        assert(p.drop_last()[i] == p[i]);
                    }
                }
            }
        } else {
            assert(p[p.len() - 1] != 0xff);
        }
    }
    assert(is_prefix(p, p)) by {
        assert(p.subrange(0, p.len() as int) =~= p);
    }
    lemma_prefix_range(p, p);
}

/// Whether `a` sorts before `b`.
pub fn bytes_lt(a: &[u8], b: &[u8]) -> (r: bool)
    ensures
        r == lex_lt(a@, b@),
{
    let mut i: usize = 0;
    proof {
        assert(a@.subrange(0, a@.len() as int) =~= a@);
        assert(b@.subrange(0, b@.len() as int) =~= b@);
    }
    while i < a.len() && i < b.len() && a[i] == b[i]
        invariant
            i <= a.len(),
            i <= b.len(),
            lex_lt(a@, b@) == lex_lt(a@.subrange(i as int, a@.len() as int), b@.subrange(i as int, b@.len() as int)),
        decreases a.len() - i,
    {
        proof {
            let x = a@.subrange(i as int, a@.len() as int);
            let y = b@.subrange(i as int, b@.len() as int);
            assert(x.drop_first() =~= a@.subrange(i + 1, a@.len() as int));
            assert(y.drop_first() =~= b@.subrange(i + 1, b@.len() as int));
        }
        i = i + 1;
    }
    proof {
        assert(a@.subrange(0, a@.len() as int) =~= a@);
        assert(b@.subrange(0, b@.len() as int) =~= b@);
    }
    if i == a.len() {
        i < b.len()
    } else if i == b.len() {
        false
    } else {
        a[i] < b[i]
    }
}

/// Whether `s` starts with `p`.
pub fn starts_with(s: &[u8], p: &[u8]) -> (r: bool)
    ensures
        r == is_prefix(p@, s@),
{
    if p.len() > s.len() {
        return false;
    }
    let mut i: usize = 0;
    while i < p.len()
        invariant
            i <= p.len() <= s.len(),
            forall|j: int| 0 <= j < i ==> s@[j] == p@[j],
        decreases p.len() - i,
    {
        if s[i] != p[i] {
            proof {
                assert(s@.subrange(0, p@.len() as int)[i as int] != p@[i as int]);
            }
            return false;
        }
        i = i + 1;
    }
    proof {
        assert(s@.subrange(0, p@.len() as int) =~= p@);
    }
    true
}

/// Whether `a` and `b` are the same bytes.
pub fn bytes_eq(a: &[u8], b: &[u8]) -> (r: bool)
    ensures
        r == (a@ == b@),
{
    if a.len() != b.len() {
        return false;
    }
    let r = starts_with(a, b);
    proof {
        if r {
            assert(a@.subrange(0, b@.len() as int) =~= a@);
        } else {
            if a@ == b@ {
                assert(a@.subrange(0, b@.len() as int) =~= a@);
            }
        }
    }
    r
}

/// The successor of `prefix`: the smallest string above every string that
/// starts with it, or nothing when every byte is 0xFF.
pub fn prefix_successor(prefix: &[u8]) -> (r: Option<Vec<u8>>)
    ensures
        match r {
            Some(v) => successor(prefix@) == Some(v@),
            None => successor(prefix@) is None,
        },
        r is None <==> forall|i: int| 0 <= i < prefix@.len() ==> prefix@[i] == 0xff,
        r matches Some(v) ==> lex_lt(prefix@, v@),
{
    let mut succ: Vec<u8> = vstd::slice::slice_to_vec(prefix);
    while succ.len() > 0
        invariant
            successor(prefix@) == successor(succ@),
        decreases succ.len(),
    {
        let last = succ[succ.len() - 1];
        if last < 0xff {
            let ghost before = succ@;
            let n = succ.len() - 1;
            succ.set(n, last + 1);
            proof {
                assert(succ@ =~= before.drop_last().push((last + 1) as u8));
                lemma_successor_shape(prefix@);
            }
            return Some(succ);
        }
        succ.pop();
    }
    proof {
        lemma_successor_shape(prefix@);
    }
    None
}

} // verus!
