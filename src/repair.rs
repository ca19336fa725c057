use vstd::prelude::*;
use crate::text::{chars_of, is_ws, push_all, slice_chars, string_of, trim, trim_chars, trim_end, trim_start};

verus! {

/// `s[k]` and `s[k + 1]` are both `c`.
pub open spec fn pair_at(s: Seq<char>, c: char, k: int) -> bool {
    0 <= k && k + 1 < s.len() && s[k] == c && s[k + 1] == c
}

/// The first `k >= from` where `c` stands twice in a row, or -1.
pub open spec fn find_pair(s: Seq<char>, c: char, from: int) -> int
    decreases s.len() - from,
{
    if from < 0 || from + 1 >= s.len() {
        -1
    } else if s[from] == c && s[from + 1] == c {
        from
    } else {
        find_pair(s, c, from + 1)
    }
}

/// The first `k >= from` where `c` stands, or -1.
pub open spec fn find_char(s: Seq<char>, c: char, from: int) -> int
    decreases s.len() - from,
{
    if from < 0 || from >= s.len() {
        -1
    } else if s[from] == c {
        from
    } else {
        find_char(s, c, from + 1)
    }
}

/// `s[pos..]` with every markup tag (`<` up to the next `>`) taken out, scanning left to right.
pub open spec fn strip_tags_at(s: Seq<char>, pos: int) -> Seq<char>
    decreases s.len() - pos,
{
    let k = find_char(s, '<', pos);
    let m = find_char(s, '>', k + 1);
    if pos < 0 || pos > s.len() || k < pos || m <= k || m >= s.len() {
        s.subrange(pos, s.len() as int)
    } else {
        s.subrange(pos, k) + strip_tags_at(s, m + 1)
    }
}

pub open spec fn strip_tags(s: Seq<char>) -> Seq<char> {
    strip_tags_at(s, 0)
}

/// The expression of a placeholder: its inner text without markup, trimmed.
pub open spec fn clean_expr(x: Seq<char>) -> Seq<char> {
    trim(strip_tags(x))
}

/// The single clean placeholder token for expression `e`.
pub open spec fn token(e: Seq<char>) -> Seq<char> {
    seq!['{', '{', ' '] + e + seq![' ', '}', '}']
}

/// Placeholder repair of `s[pos..]`: each `{{ ... }}` (from the first `{{` to the first `}}`
/// after it) is rewritten as one clean token; the rest is kept.
pub open spec fn repair_at(s: Seq<char>, pos: int) -> Seq<char>
    decreases s.len() - pos,
{
    let i = find_pair(s, '{', pos);
    let j = find_pair(s, '}', i + 2);
    if pos < 0 || pos > s.len() || i < pos || j < i + 2 || j + 2 > s.len() {
        s.subrange(pos, s.len() as int)
    } else {
        s.subrange(pos, i) + token(clean_expr(s.subrange(i + 2, j))) + repair_at(s, j + 2)
    }
}

pub open spec fn repair(s: Seq<char>) -> Seq<char> {
    repair_at(s, 0)
}

/// No repaired expression in `s[pos..]` holds `}}` (which taking out markup can create,
/// as in `{{}<b>}x}}`).
pub open spec fn settled_at(s: Seq<char>, pos: int) -> bool
    decreases s.len() - pos,
{
    let i = find_pair(s, '{', pos);
    let j = find_pair(s, '}', i + 2);
    if pos < 0 || pos > s.len() || i < pos || j < i + 2 || j + 2 > s.len() {
        true
    } else {
        find_pair(clean_expr(s.subrange(i + 2, j)), '}', 0) < 0 && settled_at(s, j + 2)
    }
}

pub open spec fn settled(s: Seq<char>) -> bool {
    settled_at(s, 0)
}

pub open spec fn tag_free(t: Seq<char>) -> bool {
    forall|a: int, b: int| 0 <= a < b < t.len() ==> !(#[trigger] t[a] == '<' && #[trigger] t[b] == '>')
}

proof fn lemma_find_pair(s: Seq<char>, c: char, from: int)
    requires
        from >= 0,
    ensures
        ({
            let r = find_pair(s, c, from);
            (r == -1 && forall|k: int| from <= k ==> !#[trigger] pair_at(s, c, k)) || (from <= r
                && pair_at(s, c, r) && forall|k: int| from <= k < r ==> !#[trigger] pair_at(s, c, k))
        }),
    decreases s.len() - from,
{
    if from + 1 < s.len() && !(s[from] == c && s[from + 1] == c) {
        lemma_find_pair(s, c, from + 1);
    }
}

proof fn lemma_find_pair_is(s: Seq<char>, c: char, from: int, r: int)
    requires
        from >= 0,
        (r == -1 && forall|k: int| from <= k ==> !#[trigger] pair_at(s, c, k)) || (from <= r
            && pair_at(s, c, r) && forall|k: int| from <= k < r ==> !#[trigger] pair_at(s, c, k)),
    ensures
        find_pair(s, c, from) == r,
{
    lemma_find_pair(s, c, from);
}

proof fn lemma_find_char(s: Seq<char>, c: char, from: int)
    requires
        from >= 0,
    ensures
        ({
            let r = find_char(s, c, from);
            (r == -1 && forall|k: int| from <= k < s.len() ==> #[trigger] s[k] != c) || (from <= r
                < s.len() && s[r] == c && forall|k: int| from <= k < r ==> #[trigger] s[k] != c)
        }),
    decreases s.len() - from,
{
    if from < s.len() && s[from] != c {
        lemma_find_char(s, c, from + 1);
    }
}

/// Finding a pair in `x + y` past `x` is finding it in `y`.
proof fn lemma_find_pair_concat(x: Seq<char>, y: Seq<char>, c: char, k: int)
    requires
        k >= 0,
    ensures
        find_pair(x + y, c, x.len() + k) == (if find_pair(y, c, k) < 0 {
            -1
        } else {
            find_pair(y, c, k) + x.len()
        }),
{
    let s = x + y;
    let n = x.len() as int;
    lemma_find_pair(y, c, k);
    assert forall|q: int| n + k <= q implies #[trigger] pair_at(s, c, q) == pair_at(y, c, q - n) by {
        if q + 1 < s.len() {
            assert(s[q] == y[q - n]);
            assert(s[q + 1] == y[q + 1 - n]);
        }
    }
    let r = find_pair(y, c, k);
    if r < 0 {
        assert forall|q: int| n + k <= q implies !#[trigger] pair_at(s, c, q) by {
            assert(!pair_at(y, c, q - n));
        }
        lemma_find_pair_is(s, c, n + k, -1);
    } else {
        assert(pair_at(s, c, r + n));
        assert forall|q: int| n + k <= q < r + n implies !#[trigger] pair_at(s, c, q) by {
            assert(!pair_at(y, c, q - n));
        }
        lemma_find_pair_is(s, c, n + k, r + n);
    }
}

/// Repair past a prefix `x` of `x + y` is repair of `y`.
proof fn lemma_repair_concat(x: Seq<char>, y: Seq<char>, k: int)
    requires
        0 <= k <= y.len(),
    ensures
        repair_at(x + y, x.len() + k) == repair_at(y, k),
        settled_at(x + y, x.len() + k) == settled_at(y, k),
    decreases y.len() - k,
{
    let s = x + y;
    let n = x.len() as int;
    lemma_find_pair_concat(x, y, '{', k);
    let i = find_pair(y, '{', k);
    if i >= 0 {
        lemma_find_pair(y, '{', k);
        lemma_find_pair_concat(x, y, '}', i + 2);
        let j = find_pair(y, '}', i + 2);
        if j >= 0 {
            lemma_find_pair(y, '}', i + 2);
            lemma_repair_concat(x, y, j + 2);
            assert(s.subrange(n + k, n + i) =~= y.subrange(k, i));
            assert(s.subrange(n + i + 2, n + j) =~= y.subrange(i + 2, j));
        } else {
            assert(s.subrange(n + k, s.len() as int) =~= y.subrange(k, y.len() as int));
        }
    } else {
        assert(s.subrange(n + k, s.len() as int) =~= y.subrange(k, y.len() as int));
    }
}

proof fn lemma_strip_tags_tag_free(s: Seq<char>, pos: int)
    requires
        0 <= pos <= s.len(),
    ensures
        tag_free(strip_tags_at(s, pos)),
    decreases s.len() - pos,
{
    let k = find_char(s, '<', pos);
    lemma_find_char(s, '<', pos);
    if k >= 0 {
        let m = find_char(s, '>', k + 1);
        lemma_find_char(s, '>', k + 1);
        if m >= 0 {
            lemma_strip_tags_tag_free(s, m + 1);
            let a = s.subrange(pos, k);
            let b = strip_tags_at(s, m + 1);
            let t = a + b;
            assert forall|p: int, q: int| 0 <= p < q < t.len() implies !(#[trigger] t[p] == '<' && #[trigger] t[q] == '>') by {
                if p < a.len() {
                    assert(t[p] == s[pos + p]);
                } else {
                    assert(t[p] == b[p - a.len()]);
                    assert(t[q] == b[q - a.len()]);
                }
            }
        } else {
            let t = s.subrange(pos, s.len() as int);
            assert forall|p: int, q: int| 0 <= p < q < t.len() implies !(#[trigger] t[p] == '<' && #[trigger] t[q] == '>') by {
                assert(t[p] == s[pos + p]);
                assert(t[q] == s[pos + q]);
            }
        }
    } else {
        let t = s.subrange(pos, s.len() as int);
        assert forall|p: int, q: int| 0 <= p < q < t.len() implies !(#[trigger] t[p] == '<' && #[trigger] t[q] == '>') by {
            assert(t[p] == s[pos + p]);
        }
    }
}

proof fn lemma_strip_tags_of_tag_free(t: Seq<char>)
    requires
        tag_free(t),
    ensures
        strip_tags(t) == t,
{
    lemma_find_char(t, '<', 0);
    let k = find_char(t, '<', 0);
    if k >= 0 {
        lemma_find_char(t, '>', k + 1);
        let m = find_char(t, '>', k + 1);
        if m >= 0 {
            assert(t[k] == '<' && t[m] == '>');
        }
    }
    assert(t.subrange(0, t.len() as int) =~= t);
}

proof fn lemma_trim_start_sub(s: Seq<char>)
    ensures
        tag_free(s) ==> tag_free(trim_start(s)),
        !tag_free(s) || find_pair(s, '}', 0) >= 0 || find_pair(trim_start(s), '}', 0) < 0,
        trim_start(s).len() > 0 ==> !is_ws(trim_start(s)[0]),
        trim_start(s).len() > 0 ==> trim_start(s).last() == s.last(),
        trim_start(s).len() <= s.len(),
        trim_start(s) == s.subrange(s.len() - trim_start(s).len(), s.len() as int),
    decreases s.len(),
{
    if s.len() > 0 && is_ws(s[0]) {
        let t = s.drop_first();
        lemma_trim_start_sub(t);
        let r = trim_start(t);
        assert(s.subrange(s.len() - r.len(), s.len() as int) =~= t.subrange(t.len() - r.len(),
            t.len() as int));
        lemma_find_pair(s, '}', 0);
        lemma_find_pair(t, '}', 0);
        lemma_find_pair(r, '}', 0);
        if find_pair(s, '}', 0) < 0 {
            assert forall|k: int| 0 <= k implies !#[trigger] pair_at(t, '}', k) by {
                assert(!pair_at(s, '}', k + 1));
                if pair_at(t, '}', k) {
                    assert(s[k + 1] == t[k] && s[k + 2] == t[k + 1]);
                }
            }
            lemma_find_pair_is(t, '}', 0, -1);
        }
        if tag_free(s) {
            assert forall|a: int, b: int| 0 <= a < b < t.len() implies !(#[trigger] t[a] == '<' && #[trigger] t[b] == '>') by {
                assert(t[a] == s[a + 1] && t[b] == s[b + 1]);
            }
        }
    } else {
        assert(s.subrange(0, s.len() as int) =~= s);
    }
}

proof fn lemma_trim_end_sub(s: Seq<char>)
    ensures
        tag_free(s) ==> tag_free(trim_end(s)),
        find_pair(s, '}', 0) >= 0 || find_pair(trim_end(s), '}', 0) < 0,
        trim_end(s).len() > 0 ==> !is_ws(trim_end(s).last()),
        trim_end(s).len() > 0 ==> trim_end(s)[0] == s[0],
        trim_end(s).len() <= s.len(),
        trim_end(s) == s.subrange(0, trim_end(s).len() as int),
    decreases s.len(),
{
    if s.len() > 0 && is_ws(s.last()) {
        let t = s.drop_last();
        lemma_trim_end_sub(t);
        let r = trim_end(t);
        assert(s.subrange(0, r.len() as int) =~= t.subrange(0, r.len() as int));
        lemma_find_pair(s, '}', 0);
        lemma_find_pair(t, '}', 0);
        if find_pair(s, '}', 0) < 0 {
            assert forall|k: int| 0 <= k implies !#[trigger] pair_at(t, '}', k) by {
                assert(!pair_at(s, '}', k));
                if pair_at(t, '}', k) {
                    assert(s[k] == t[k] && s[k + 1] == t[k + 1]);
                }
            }
            lemma_find_pair_is(t, '}', 0, -1);
        }
        if tag_free(s) {
            assert forall|a: int, b: int| 0 <= a < b < t.len() implies !(#[trigger] t[a] == '<' && #[trigger] t[b] == '>') by {
                assert(t[a] == s[a] && t[b] == s[b]);
            }
        }
    } else {
        assert(s.subrange(0, s.len() as int) =~= s);
    }
}

/// A trimmed, markup-free expression comes back unchanged from a second cleaning.
proof fn lemma_clean_padded(c: Seq<char>)
    requires
        tag_free(c),
        c.len() > 0 ==> !is_ws(c[0]) && !is_ws(c.last()),
    ensures
        clean_expr(seq![' '] + c + seq![' ']) == c,
{
    let p = seq![' '] + c + seq![' '];
    assert forall|a: int, b: int| 0 <= a < b < p.len() implies !(#[trigger] p[a] == '<' && #[trigger] p[b] == '>') by {
        if 0 < a && b < p.len() - 1 {
            assert(p[a] == c[a - 1] && p[b] == c[b - 1]);
        }
    }
    lemma_strip_tags_of_tag_free(p);
    let q = c + seq![' '];
    assert(p.drop_first() =~= q);
    assert(is_ws(p[0]));
    assert(trim_start(p) == trim_start(q));
    if c.len() > 0 {
        assert(q[0] == c[0]);
        assert(trim_start(q) == q);
        assert(q.drop_last() =~= c);
        assert(is_ws(q.last()));
        assert(trim_end(q) == trim_end(c));
        assert(trim_end(c) == c);
    } else {
        assert(q.drop_first() =~= Seq::<char>::empty());
        assert(q[0] == ' ' && is_ws(q[0]));
        assert(trim_start(Seq::<char>::empty()) == Seq::<char>::empty());
        assert(trim_start(q) == Seq::<char>::empty());
        assert(p.subrange(0, 0) =~= Seq::<char>::empty());
    }
}

proof fn lemma_clean_shape(x: Seq<char>)
    ensures
        ({
            let c = clean_expr(x);
            tag_free(c) && (c.len() > 0 ==> !is_ws(c[0]) && !is_ws(c.last()))
        }),
{
    let t = strip_tags(x);
    lemma_strip_tags_tag_free(x, 0);
    lemma_trim_start_sub(t);
    let u = trim_start(t);
    lemma_trim_end_sub(u);
}

/// Where `s[pos..]` has its first `{{` at `i`, so has `s[pos..i] + t + b` at `i - pos`, if `t`
/// starts with `{{`.
proof fn lemma_token_open(s: Seq<char>, pos: int, i: int, a: Seq<char>, t: Seq<char>, b: Seq<char>)
    requires
        0 <= pos <= i,
        i + 1 < s.len(),
        a == s.subrange(pos, i),
        pair_at(s, '{', i),
        t.len() >= 2,
        t[0] == '{' && t[1] == '{',
        forall|k: int| pos <= k < i ==> !#[trigger] pair_at(s, '{', k),
    ensures
        find_pair(a + t + b, '{', 0) == a.len(),
{
    let r = a + t + b;
    let n = a.len() as int;
    assert forall|k: int| 0 <= k < n implies !#[trigger] pair_at(r, '{', k) by {
        assert(r[k] == s[pos + k]);
        if k + 1 < n {
            assert(r[k + 1] == s[pos + k + 1]);
        } else {
            assert(r[k + 1] == '{');
        }
        assert(!pair_at(s, '{', pos + k));
    }
    assert(r[n] == t[0] && r[n + 1] == t[1]);
    lemma_find_pair_is(r, '{', 0, n);
}

/// In `r`, where `token(c)` stands at `n`, the first `}}` from `n + 2` is the token's own.
proof fn lemma_token_close(r: Seq<char>, n: int, c: Seq<char>)
    requires
        0 <= n,
        n + token(c).len() <= r.len(),
        r.subrange(n, n + token(c).len()) == token(c),
        find_pair(c, '}', 0) < 0,
    ensures
        find_pair(r, '}', n + 2) == n + 4 + c.len(),
{
    let l = n + 4 + c.len();
    let t = token(c);
    assert forall|k: int| 0 <= k < t.len() implies #[trigger] r[n + k] == t[k] by {
        assert(r.subrange(n, n + t.len())[k] == r[n + k]);
    }
    lemma_find_pair(c, '}', 0);
    assert forall|k: int| n + 2 <= k < l implies !#[trigger] pair_at(r, '}', k) by {
        assert(r[k] == t[k - n]);
        assert(r[k + 1] == t[k + 1 - n]);
        if n + 3 <= k && k + 1 < n + 3 + c.len() {
            assert(t[k - n] == c[k - n - 3] && t[k + 1 - n] == c[k + 1 - n - 3]);
            assert(!pair_at(c, '}', k - n - 3));
        }
    }
    assert(r[l] == t[l - n]);
    assert(r[l + 1] == t[l + 1 - n]);
    assert(pair_at(r, '}', l));
    lemma_find_pair_is(r, '}', n + 2, l);
}

/// Placeholder repair changes nothing on its own output, wherever no cleaned expression
/// holds `}}`.
pub proof fn lemma_repair_idempotent(s: Seq<char>)
    requires
        settled(s),
    ensures
        repair(repair(s)) == repair(s),
{
    lemma_repair_idempotent_at(s, 0);
}

proof fn lemma_repair_idempotent_at(s: Seq<char>, pos: int)
    requires
        0 <= pos <= s.len(),
        settled_at(s, pos),
    ensures
        repair(repair_at(s, pos)) == repair_at(s, pos),
    decreases s.len() - pos,
{
    let i = find_pair(s, '{', pos);
    lemma_find_pair(s, '{', pos);
    let tail = s.subrange(pos, s.len() as int);
    let e = Seq::<char>::empty();
    assert(tail =~= e + tail);
    assert(s =~= s.subrange(0, pos) + tail);
    lemma_find_pair_concat(s.subrange(0, pos), tail, '{', 0);
    lemma_find_pair_concat(e, tail, '{', 0);
    if i >= 0 {
        let j = find_pair(s, '}', i + 2);
        lemma_find_pair(s, '}', i + 2);
        lemma_find_pair_concat(s.subrange(0, pos), tail, '}', i - pos + 2);
        lemma_find_pair_concat(e, tail, '}', i - pos + 2);
        if j >= 0 {
            lemma_repair_idempotent_at(s, j + 2);
            lemma_repair_step(s, pos, i, j);
        }
    }
}

/// One step of the induction: a token followed by an already stable remainder.
#[verifier::rlimit(50)]
proof fn lemma_repair_step(s: Seq<char>, pos: int, i: int, j: int)
    requires
        0 <= pos <= i,
        i + 2 <= j,
        j + 2 <= s.len(),
        pair_at(s, '{', i),
        forall|k: int| pos <= k < i ==> !#[trigger] pair_at(s, '{', k),
        i == find_pair(s, '{', pos),
        j == find_pair(s, '}', i + 2),
        settled_at(s, pos),
        repair(repair_at(s, j + 2)) == repair_at(s, j + 2),
    ensures
        repair(repair_at(s, pos)) == repair_at(s, pos),
{
    let a = s.subrange(pos, i);
    let c = clean_expr(s.subrange(i + 2, j));
    let b = repair_at(s, j + 2);
    lemma_clean_shape(s.subrange(i + 2, j));
    let head = a + token(c);
    let r = head + b;
    assert(repair_at(s, pos) == r);
    let n = a.len() as int;
    lemma_token_open(s, pos, i, a, token(c), b);
    let l = n + 3 + c.len() + 1;
    assert(r.subrange(n, n + token(c).len()) =~= token(c));
    lemma_token_close(r, n, c);
    assert(r.subrange(n + 2, l) =~= seq![' '] + c + seq![' ']);
    lemma_clean_padded(c);
    assert(r.subrange(0, n) =~= a);
    assert(head.len() == l + 2);
    lemma_repair_concat(head, b, 0);
    assert(repair_at(r, 0) =~= a + token(c) + repair_at(r, l + 2));
}

/// The first `k >= from` where `c` stands twice in a row.
fn find_pair_from(v: &[char], c: char, from: usize) -> (r: Option<usize>)
    requires
        from <= v@.len(),
    ensures
        match r {
            Some(k) => k == find_pair(v@, c, from as int) && from <= k && k + 1 < v@.len(),
            None => find_pair(v@, c, from as int) < 0,
        },
{
    let mut k: usize = from;
    while k < v.len() && k + 1 < v.len()
        invariant
            from <= k <= v@.len(),
            find_pair(v@, c, from as int) == find_pair(v@, c, k as int),
        decreases v@.len() - k,
    {
        if v[k] == c && v[k + 1] == c {
            return Some(k);
        }
        k = k + 1;
    }
    None
}

/// The first `k >= from` where `c` stands.
fn find_char_from(v: &[char], c: char, from: usize) -> (r: Option<usize>)
    requires
        from <= v@.len(),
    ensures
        match r {
            Some(k) => k == find_char(v@, c, from as int) && from <= k < v@.len(),
            None => find_char(v@, c, from as int) < 0,
        },
{
    let mut k: usize = from;
    while k < v.len()
        invariant
            from <= k <= v@.len(),
            find_char(v@, c, from as int) == find_char(v@, c, k as int),
        decreases v@.len() - k,
    {
        if v[k] == c {
            return Some(k);
        }
        k = k + 1;
    }
    None
}

/// The characters of `v` with every markup tag taken out.
pub fn strip_tags_chars(v: &[char]) -> (r: Vec<char>)
    ensures
        r@ == strip_tags(v@),
{
    let mut out: Vec<char> = Vec::new();
    let mut pos: usize = 0;
    let n = v.len();
    loop
        invariant
            n == v@.len(),
            pos <= v@.len(),
            out@ + strip_tags_at(v@, pos as int) == strip_tags(v@),
        decreases v@.len() - pos,
    {
        proof {
            lemma_find_char(v@, '<', pos as int);
        }
        let k = match find_char_from(v, '<', pos) {
            Some(k) => k,
            None => {
                let rest = slice_chars(v, pos, v.len());
                push_all(&mut out, &rest);
                return out;
            },
        };
        proof {
            lemma_find_char(v@, '>', k + 1);
        }
        let m = match find_char_from(v, '>', k + 1) {
            Some(m) => m,
            None => {
                let rest = slice_chars(v, pos, v.len());
                push_all(&mut out, &rest);
                return out;
            },
        };
        let part = slice_chars(v, pos, k);
        let ghost o0 = out@;
        push_all(&mut out, &part);
        proof {
            let t = strip_tags_at(v@, m + 1);
            assert(strip_tags_at(v@, pos as int) == part@ + t);
            assert(out@ + t =~= o0 + (part@ + t));
        }
        pos = m + 1;
    }
}

/// The text with every markup tag (`<` up to the next `>`) taken out.
pub fn remove_xml_tags(text: &str) -> (r: String)
    ensures
        r@ == strip_tags(text@),
{
    let v = chars_of(text);
    let w = strip_tags_chars(&v);
    string_of(&w)
}

/// Rewrites every placeholder `{{ ... }}` of the body text, whose inner text a rich-text
/// editor may have split over several formatting runs, as one clean `{{ expr }}` token.
#[verifier::rlimit(40)]
pub fn sanitize_broken_tags(xml: &str) -> (r: String)
    ensures
        r@ == repair(xml@),
{
    let v = chars_of(xml);
    let mut out: Vec<char> = Vec::new();
    let mut pos: usize = 0;
    let n = v.len();
    loop
        invariant
            v@ == xml@,
            n == v@.len(),
            pos <= v@.len(),
            out@ + repair_at(v@, pos as int) == repair(v@),
        decreases v@.len() - pos,
    {
        proof {
            lemma_find_pair(v@, '{', pos as int);
        }
        let i = match find_pair_from(&v, '{', pos) {
            Some(i) => i,
            None => {
                let rest = slice_chars(&v, pos, v.len());
                push_all(&mut out, &rest);
                assert(repair_at(v@, pos as int) == rest@);
                return string_of(&out);
            },
        };
        proof {
            lemma_find_pair(v@, '}', i + 2);
        }
        let j = match find_pair_from(&v, '}', i + 2) {
            Some(j) => j,
            None => {
                let rest = slice_chars(&v, pos, v.len());
                push_all(&mut out, &rest);
                assert(repair_at(v@, pos as int) == rest@);
                return string_of(&out);
            },
        };
        let before = slice_chars(&v, pos, i);
        let ghost o0 = out@;
        push_all(&mut out, &before);
        let inner = slice_chars(&v, i + 2, j);
        let stripped = strip_tags_chars(&inner);
        let expr = trim_chars(&stripped);
        out.push('{');
        out.push('{');
        out.push(' ');
        push_all(&mut out, &expr);
        out.push(' ');
        out.push('}');
        out.push('}');
        proof {
            let t = repair_at(v@, j + 2);
            let e = clean_expr(v@.subrange(i + 2, j as int));
            assert(repair_at(v@, pos as int) == before@ + token(e) + t);
            assert(out@ =~= o0 + before@ + token(e));
            assert(out@ + t =~= o0 + (before@ + token(e) + t));
        }
        pos = j + 2;
    }
}

} // verus!
