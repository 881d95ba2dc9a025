//! Character-level helpers on strings, with their meaning over `Seq<char>`.
use vstd::prelude::*;
use vstd::string::*;

verus! {

/// The characters of each string, in order.
pub open spec fn views_of(strings: Seq<String>) -> Seq<Seq<char>> {
    strings.map_values(|s: String| s@)
}

/// Lexicographic "strictly before" on character sequences, characters compared by
/// code point. This is the order of `str`: byte-wise comparison of UTF-8 encodings
/// orders strings exactly as their code points do.
pub open spec fn chars_lt(a: Seq<char>, b: Seq<char>) -> bool
    decreases a.len(),
{
    if a.len() == 0 {
        b.len() > 0
    } else if b.len() == 0 {
        false
    } else if a[0] != b[0] {
        (a[0] as int) < (b[0] as int)
    } else {
        chars_lt(a.drop_first(), b.drop_first())
    }
}

/// No sequence is strictly before itself.
pub proof fn lemma_chars_lt_irreflexive(a: Seq<char>)
    ensures
        !chars_lt(a, a),
    decreases a.len(),
{
    if a.len() > 0 {
        lemma_chars_lt_irreflexive(a.drop_first());
    }
}

/// Strictly-before is transitive.
pub proof fn lemma_chars_lt_transitive(a: Seq<char>, b: Seq<char>, c: Seq<char>)
    requires
        chars_lt(a, b),
        chars_lt(b, c),
    ensures
        chars_lt(a, c),
    decreases a.len(),
{
    if a.len() > 0 && b.len() > 0 && c.len() > 0 && a[0] == b[0] && b[0] == c[0] {
        lemma_chars_lt_transitive(a.drop_first(), b.drop_first(), c.drop_first());
    }
}

/// Two distinct sequences are ordered one way or the other.
pub proof fn lemma_chars_lt_total(a: Seq<char>, b: Seq<char>)
    ensures
        a == b || chars_lt(a, b) || chars_lt(b, a),
    decreases a.len(),
{
    if a.len() > 0 && b.len() > 0 {
        if a[0] == b[0] {
            lemma_chars_lt_total(a.drop_first(), b.drop_first());
            if a.drop_first() == b.drop_first() {
                assert(a =~= seq![a[0]] + a.drop_first());
                assert(b =~= seq![b[0]] + b.drop_first());
            }
        }
    } else if a.len() == 0 && b.len() == 0 {
        assert(a =~= b);
    }
}

/// The characters of `s`, in order.
pub fn chars_of(s: &str) -> (out: Vec<char>)
    ensures
        out@ == s@,
{
    let mut out: Vec<char> = Vec::new();
    for c in it: s.chars()
        invariant
            out@ == it.seq().take(it.index() as int),
    {
        out.push(c);
    }
    out
}

/// Whether `a` comes strictly before `b` in the order of strings.
pub fn str_lt(a: &str, b: &str) -> (lt: bool)
    ensures
        lt == chars_lt(a@, b@),
{
    let va = chars_of(a);
    let vb = chars_of(b);
    let mut i: usize = 0;
    proof {
        assert(va@.skip(0) =~= va@);
        assert(vb@.skip(0) =~= vb@);
    }
    while i < va.len() && i < vb.len()
        invariant
            i <= va@.len(),
            i <= vb@.len(),
            va@ == a@,
            vb@ == b@,
            chars_lt(a@, b@) == chars_lt(va@.skip(i as int), vb@.skip(i as int)),
        decreases va@.len() - i,
    {
        let ca = va[i];
        let cb = vb[i];
        if ca != cb {
            return ca < cb;
        }
        proof {
            assert(va@.skip(i as int).drop_first() =~= va@.skip(i + 1));
            assert(vb@.skip(i as int).drop_first() =~= vb@.skip(i + 1));
        }
        i = i + 1;
    }
    i < vb.len()
}

/// `s` with every trailing `/` removed.
pub open spec fn trim_trailing_slashes(s: Seq<char>) -> Seq<char>
    decreases s.len(),
{
    if s.len() > 0 && s.last() == '/' {
        trim_trailing_slashes(s.drop_last())
    } else {
        s
    }
}

/// `s` without its trailing `/` characters, as `str::trim_end_matches('/')` gives it.
pub fn trim_trailing_slash_chars(s: &str) -> (out: String)
    ensures
        out@ == trim_trailing_slashes(s@),
{
    let v = chars_of(s);
    let mut k: usize = v.len();
    proof {
        assert(s@.take(k as int) =~= s@);
    }
    while k > 0 && v[k - 1] == '/'
        invariant
            k <= v@.len(),
            v@ == s@,
            trim_trailing_slashes(s@) == trim_trailing_slashes(s@.take(k as int)),
        decreases k,
    {
        proof {
            assert(s@.take(k as int).drop_last() =~= s@.take(k - 1));
        }
        k = k - 1;
    }
    let kept = s.substring_char(0, k);
    proof {
        assert(s@.take(k as int) =~= s@.subrange(0, k as int));
    }
    String::from_str(kept)
}

/// Trimming keeps a prefix of `s` and removes only `/` characters; what it keeps does
/// not end in `/`.
pub proof fn lemma_trim_keeps_prefix(s: Seq<char>) -> (kept: int)
    ensures
        0 <= kept <= s.len(),
        trim_trailing_slashes(s) == s.take(kept),
        forall|j: int| kept <= j < s.len() ==> s[j] == '/',
        kept > 0 ==> s[kept - 1] != '/',
    decreases s.len(),
{
    if s.len() > 0 && s.last() == '/' {
        let k = lemma_trim_keeps_prefix(s.drop_last());
        assert(s.drop_last().take(k) =~= s.take(k));
        assert forall|j: int| k <= j < s.len() implies s[j] == '/' by {
            if j < s.len() - 1 {
                assert(s[j] == s.drop_last()[j]);
            }
        }
        if k > 0 {
            assert(s[k - 1] == s.drop_last()[k - 1]);
        }
        k
    } else {
        assert(s.take(s.len() as int) =~= s);
        s.len() as int
    }
}

/// `p` occurs in `s` as a contiguous run of characters.
pub open spec fn has_infix(s: Seq<char>, p: Seq<char>) -> bool {
    exists|i: int| 0 <= i && i + p.len() <= s.len() && #[trigger] s.subrange(i, i + p.len()) == p
}

/// Whether `p` occurs in `s`, as `str::contains` with a string pattern answers it.
pub fn contains_infix(s: &str, p: &str) -> (found: bool)
    ensures
        found == has_infix(s@, p@),
{
    let vs = chars_of(s);
    let vp = chars_of(p);
    if vp.len() > vs.len() {
        return false;
    }
    let last_start: usize = vs.len() - vp.len();
    let mut i: usize = 0;
    loop
        invariant
            vs@ == s@,
            vp@ == p@,
            last_start == vs@.len() - vp@.len(),
            vs@.len() <= usize::MAX,
            i <= last_start,
            forall|j: int| 0 <= j < i ==> #[trigger] s@.subrange(j, j + p@.len()) != p@,
        decreases last_start - i,
    {
        let mut m: usize = 0;
        while m < vp.len()
            invariant
                vs@ == s@,
                vp@ == p@,
                i <= last_start,
                last_start == vs@.len() - vp@.len(),
                m <= vp@.len(),
                i + vp@.len() <= vs@.len(),
                vs@.len() <= usize::MAX,
                forall|q: int| 0 <= q < m ==> vs@[i + q] == vp@[q],
            ensures
                m <= vp@.len(),
                forall|q: int| 0 <= q < m ==> vs@[i + q] == vp@[q],
                m < vp@.len() ==> vs@[i + m] != vp@[m as int],
            decreases vp@.len() - m,
        {
            if vs[i + m] != vp[m] {
                break;
            }
            m = m + 1;
        }
        if m == vp.len() {
            proof {
                assert(s@.subrange(i as int, i + p@.len()) =~= p@);
            }
            return true;
        }
        proof {
            assert(s@.subrange(i as int, i + p@.len())[m as int] != p@[m as int]);
        }
        if i == last_start {
            proof {
                assert forall|j: int| 0 <= j && j + p@.len() <= s@.len() implies #[trigger] s@.subrange(
                    j,
                    j + p@.len(),
                ) != p@ by {
                    assert(j <= i);
                }
            }
            return false;
        }
        i = i + 1;
    }
}

/// The parts, with `sep` between each two neighbours.
pub open spec fn join_with(parts: Seq<Seq<char>>, sep: Seq<char>) -> Seq<char>
    decreases parts.len(),
{
    if parts.len() == 0 {
        Seq::empty()
    } else if parts.len() == 1 {
        parts[0]
    } else {
        join_with(parts.drop_last(), sep) + sep + parts.last()
    }
}

/// The parts, with `sep` between each two neighbours, as `[String]::join` builds it.
pub fn join_strings(parts: &[String], sep: &str) -> (out: String)
    ensures
        out@ == join_with(views_of(parts@), sep@),
{
    let mut out = String::new();
    let ghost views = views_of(parts@);
    let mut i: usize = 0;
    proof {
        assert(views.take(0) =~= Seq::<Seq<char>>::empty());
    }
    while i < parts.len()
        invariant
            i <= parts@.len(),
            views == views_of(parts@),
            out@ == join_with(views.take(i as int), sep@),
        decreases parts@.len() - i,
    {
        if i != 0 {
            out.append(sep);
        }
        out.append(parts[i].as_str());
        proof {
            assert(views.take(i + 1).drop_last() =~= views.take(i as int));
            if i == 0 {
                assert(out@ =~= views.take(1)[0]);
            }
        }
        i = i + 1;
    }
    proof {
        assert(views.take(parts@.len() as int) =~= views);
    }
    out
}

/// Joining appends: no parts give the empty string, one part gives itself, and one
/// more part adds the separator and that part at the end. So every part appears, in
/// order, with exactly one separator between neighbours, as `[String]::join` builds it.
pub proof fn law_join_parts(parts: Seq<Seq<char>>, sep: Seq<char>, p: Seq<char>)
    ensures
        join_with(Seq::<Seq<char>>::empty(), sep) == Seq::<char>::empty(),
        join_with(seq![p], sep) == p,
        parts.len() > 0 ==> join_with(parts.push(p), sep) == join_with(parts, sep) + sep + p,
        join_with(parts, sep).len() == (if parts.len() == 0 {
            0
        } else {
            (parts.len() - 1) * sep.len()
        }) + parts.fold_left(0int, |acc: int, q: Seq<char>| acc + q.len()),
    decreases parts.len(),
{
    if parts.len() > 0 {
        assert(parts.push(p).drop_last() =~= parts);
        law_join_parts(parts.drop_last(), sep, parts.last());
        assert(parts =~= parts.drop_last().push(parts.last()));
        if parts.len() > 1 {
            assert((parts.len() - 1) * sep.len() == (parts.len() - 2) * sep.len() + sep.len())
                by (nonlinear_arith);
        }
    }
}

/// Strict string order is lexicographic: `a` comes before `b` exactly when, after a
/// common prefix of some length `k`, either `a` ends while `b` goes on, or the next
/// character of `a` has a smaller code point than that of `b`.
pub proof fn law_chars_lt_lexicographic(a: Seq<char>, b: Seq<char>)
    ensures
        chars_lt(a, b) <==> exists|k: int|
            #![trigger a.take(k), b.take(k)]
            0 <= k <= a.len() && k <= b.len() && a.take(k) == b.take(k) && ((k == a.len() && k
                < b.len()) || (k < a.len() && k < b.len() && (a[k] as int) < (b[k] as int))),
    decreases a.len(),
{
    if a.len() == 0 {
        if b.len() > 0 {
            assert(a.take(0) =~= b.take(0));
        }
    } else if b.len() == 0 {
    } else if a[0] != b[0] {
        if (a[0] as int) < (b[0] as int) {
            assert(a.take(0) =~= b.take(0));
        }
        if exists|k: int|
            #![trigger a.take(k), b.take(k)]
            0 <= k <= a.len() && k <= b.len() && a.take(k) == b.take(k) && ((k == a.len() && k
                < b.len()) || (k < a.len() && k < b.len() && (a[k] as int) < (b[k] as int))) {
            let k = choose|k: int|
                #![trigger a.take(k), b.take(k)]
                0 <= k <= a.len() && k <= b.len() && a.take(k) == b.take(k) && ((k == a.len() && k
                    < b.len()) || (k < a.len() && k < b.len() && (a[k] as int) < (b[k] as int)));
            if k > 0 {
                assert(a.take(k)[0] == b.take(k)[0]);
            }
        }
    } else {
        let ra = a.drop_first();
        let rb = b.drop_first();
        law_chars_lt_lexicographic(ra, rb);
        if chars_lt(ra, rb) {
            let k = choose|k: int|
                #![trigger ra.take(k), rb.take(k)]
                0 <= k <= ra.len() && k <= rb.len() && ra.take(k) == rb.take(k) && ((k == ra.len()
                    && k < rb.len()) || (k < ra.len() && k < rb.len() && (ra[k] as int) < (
                rb[k] as int)));
            assert(a.take(k + 1) =~= seq![a[0]] + ra.take(k));
            assert(b.take(k + 1) =~= seq![b[0]] + rb.take(k));
        }
        if exists|k: int|
            #![trigger a.take(k), b.take(k)]
            0 <= k <= a.len() && k <= b.len() && a.take(k) == b.take(k) && ((k == a.len() && k
                < b.len()) || (k < a.len() && k < b.len() && (a[k] as int) < (b[k] as int))) {
            let k = choose|k: int|
                #![trigger a.take(k), b.take(k)]
                0 <= k <= a.len() && k <= b.len() && a.take(k) == b.take(k) && ((k == a.len() && k
                    < b.len()) || (k < a.len() && k < b.len() && (a[k] as int) < (b[k] as int)));
            assert(k > 0);
            assert(ra.take(k - 1) =~= a.take(k).drop_first());
            assert(rb.take(k - 1) =~= b.take(k).drop_first());
        }
    }
}

} // verus!
