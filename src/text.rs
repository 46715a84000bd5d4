//! Character-level helpers on strings: splitting on a separator, prefix and
//! suffix tests, and decimal rendering.

use vstd::prelude::*;
use vstd::string::*;

verus! {

/// The characters of `s`, in order.
pub fn chars_of(s: &str) -> (r: Vec<char>)
    ensures
        r@ == s@,
{
    let mut out: Vec<char> = Vec::new();
    for c in it: s.chars()
        invariant
            it.seq() == s@,
            out@ == it.seq().take(it.index() as int),
    {
        out.push(c);
    }
    out
}


/// `sep` occurs in `s` at position `i`.
pub open spec fn occurs_at(s: Seq<char>, sep: Seq<char>, i: int) -> bool {
    0 <= i && i + sep.len() <= s.len() && s.subrange(i, i + sep.len()) == sep
}

/// The pieces of `s` between the occurrences of `sep`, found from left to
/// right without overlap (the pieces that `str::split` yields). There is
/// always at least one piece.
pub open spec fn split_by(s: Seq<char>, sep: Seq<char>) -> Seq<Seq<char>>
    decreases s.len(),
{
    if s.len() == 0 || sep.len() == 0 {
        seq![s]
    } else if occurs_at(s, sep, 0) {
        seq![Seq::<char>::empty()] + split_by(s.skip(sep.len() as int), sep)
    } else {
        let rest = split_by(s.skip(1), sep);
        rest.update(0, seq![s[0]] + rest[0])
    }
}

pub proof fn lemma_split_nonempty(s: Seq<char>, sep: Seq<char>)
    ensures
        split_by(s, sep).len() >= 1,
    decreases s.len(),
{
    if s.len() == 0 || sep.len() == 0 {
    } else if occurs_at(s, sep, 0) {
        lemma_split_nonempty(s.skip(sep.len() as int), sep);
    } else {
        lemma_split_nonempty(s.skip(1), sep);
    }
}

/// `sep` occurs nowhere in `s`.
pub open spec fn lacks(s: Seq<char>, sep: Seq<char>) -> bool {
    forall|i: int| !#[trigger] occurs_at(s, sep, i)
}

/// Splitting `a + t`, where no occurrence starts inside `a`: `a` joins the
/// first piece of `t`.
pub proof fn lemma_split_prefix(a: Seq<char>, t: Seq<char>, sep: Seq<char>)
    requires
        sep.len() > 0,
        forall|i: int| 0 <= i < a.len() ==> !#[trigger] occurs_at(a + t, sep, i),
    ensures
        split_by(a + t, sep) == split_by(t, sep).update(0, a + split_by(t, sep)[0]),
    decreases a.len(),
{
    lemma_split_nonempty(t, sep);
    let r = split_by(t, sep);
    if a.len() == 0 {
        assert(a + t =~= t);
        assert(a + r[0] =~= r[0]);
        assert(r.update(0, a + r[0]) =~= r);
    } else {
        let s = a + t;
        let a1 = a.skip(1);
        assert(s.skip(1) =~= a1 + t);
        assert forall|i: int| 0 <= i < a1.len() implies !#[trigger] occurs_at(a1 + t, sep, i) by {
            assert(!occurs_at(s, sep, i + 1));
            if i + sep.len() <= (a1 + t).len() {
                assert(s.subrange(i + 1, i + 1 + sep.len()) =~= (a1 + t).subrange(i, i + sep.len()));
            }
        }
        lemma_split_prefix(a1, t, sep);
        assert(!occurs_at(s, sep, 0));
        assert(seq![s[0]] + (a1 + r[0]) =~= a + r[0]);
        assert(split_by(s, sep) =~= r.update(0, a + r[0]));
    }
}

/// Splitting text that begins with `sep`: an empty piece comes first.
pub proof fn lemma_split_at_sep(b: Seq<char>, sep: Seq<char>)
    requires
        sep.len() > 0,
    ensures
        split_by(sep + b, sep) == seq![Seq::<char>::empty()] + split_by(b, sep),
{
    let s = sep + b;
    assert(s.subrange(0, sep.len() as int) =~= sep);
    assert(s.skip(sep.len() as int) =~= b);
}

/// What remains to be split from position `i`, when the piece in progress
/// began at `b`.
spec fn split_tail(s: Seq<char>, sep: Seq<char>, b: int, i: int) -> Seq<Seq<char>> {
    let r = split_by(s.skip(i), sep);
    seq![s.subrange(b, i) + r[0]] + r.skip(1)
}

pub fn occurs_at_exec(s: &Vec<char>, sep: &Vec<char>, i: usize) -> (r: bool)
    requires
        i <= s.len(),
    ensures
        r == occurs_at(s@, sep@, i as int),
{
    if sep.len() > s.len() - i {
        return false;
    }
    let mut k: usize = 0;
    while k < sep.len()
        invariant
            i + sep.len() <= s.len(),
            k <= sep.len(),
            forall|j: int| 0 <= j < k ==> s@[i + j] == sep@[j],
        decreases sep.len() - k,
    {
        if s[i + k] != sep[k] {
            assert(s@.subrange(i as int, i + sep.len())[k as int] != sep@[k as int]);
            return false;
        }
        k = k + 1;
    }
    assert(s@.subrange(i as int, i + sep.len()) =~= sep@);
    true
}

/// The bounds of each piece of `s` between occurrences of `sep`.
pub fn split_bounds(s: &Vec<char>, sep: &Vec<char>) -> (r: Vec<(usize, usize)>)
    requires
        sep.len() > 0,
    ensures
        r.len() == split_by(s@, sep@).len(),
        forall|k: int|
            #![trigger r[k]]
            0 <= k < r.len() ==> {
                &&& r[k].0 <= r[k].1 <= s.len()
                &&& s@.subrange(r[k].0 as int, r[k].1 as int) == split_by(s@, sep@)[k]
            },
{
    let mut out: Vec<(usize, usize)> = Vec::new();
    let mut b: usize = 0;
    let mut i: usize = 0;
    proof {
        lemma_split_nonempty(s@, sep@);
        assert(s@.skip(0) =~= s@);
        assert(s@.subrange(0, 0) + split_by(s@, sep@)[0] =~= split_by(s@, sep@)[0]);
        assert(split_tail(s@, sep@, 0, 0) =~= split_by(s@, sep@));
    }
    while i < s.len()
        invariant
            sep.len() > 0,
            b <= i <= s.len(),
            forall|k: int| 0 <= k < out.len() ==> #[trigger] out[k].0 <= out[k].1 <= s.len(),
            split_by(s@, sep@) == out@.map_values(|p: (usize, usize)| s@.subrange(p.0 as int, p.1 as int))
                + split_tail(s@, sep@, b as int, i as int),
        decreases s.len() - i,
    {
        let ghost t = s@.skip(i as int);
        proof {
            lemma_split_nonempty(t, sep@);
        }
        if occurs_at_exec(s, sep, i) {
            let ghost t2 = s@.skip(i + sep.len());
            proof {
                assert(t.subrange(0, sep.len() as int) =~= s@.subrange(i as int, i + sep.len()));
                assert(occurs_at(t, sep@, 0));
                assert(t.skip(sep.len() as int) =~= t2);
                lemma_split_nonempty(t2, sep@);
                assert(s@.subrange(i + sep.len(), i + sep.len()) + split_by(t2, sep@)[0]
                    =~= split_by(t2, sep@)[0]);
                assert(split_tail(s@, sep@, (i + sep.len()) as int, (i + sep.len()) as int)
                    =~= split_by(t2, sep@));
                assert(split_by(t, sep@) =~= seq![Seq::<char>::empty()] + split_by(t2, sep@));
                assert(split_tail(s@, sep@, b as int, i as int) =~= seq![s@.subrange(b as int, i as int)]
                    + split_by(t2, sep@));
            }
            let ghost prev = out@;
            out.push((b, i));
            proof {
                assert(out@.map_values(|p: (usize, usize)| s@.subrange(p.0 as int, p.1 as int))
                    =~= prev.map_values(|p: (usize, usize)| s@.subrange(p.0 as int, p.1 as int))
                    + seq![s@.subrange(b as int, i as int)]);
            }
            i = i + sep.len();
            b = i;
        } else {
            let ghost t2 = s@.skip(i + 1);
            proof {
                assert(t.skip(1) =~= t2);
                if t.len() >= sep.len() {
                    assert(t.subrange(0, sep.len() as int) =~= s@.subrange(i as int, i + sep.len()));
                }
                assert(!occurs_at(t, sep@, 0));
                lemma_split_nonempty(t2, sep@);
                assert(s@.subrange(b as int, i as int) + (seq![t[0]] + split_by(t2, sep@)[0])
                    =~= s@.subrange(b as int, i + 1) + split_by(t2, sep@)[0]);
                assert(split_by(t, sep@).skip(1) =~= split_by(t2, sep@).skip(1));
            }
            i = i + 1;
        }
    }
    proof {
        assert(s@.skip(i as int) =~= Seq::<char>::empty());
        assert(s@.subrange(b as int, i as int) + Seq::<char>::empty() =~= s@.subrange(b as int, i as int));
        assert(split_tail(s@, sep@, b as int, i as int) =~= seq![s@.subrange(b as int, i as int)]);
    }
    let ghost prev = out@;
    out.push((b, i));
    proof {
        assert(out@.map_values(|p: (usize, usize)| s@.subrange(p.0 as int, p.1 as int))
            =~= prev.map_values(|p: (usize, usize)| s@.subrange(p.0 as int, p.1 as int))
            + seq![s@.subrange(b as int, i as int)]);
        assert(split_by(s@, sep@) =~= out@.map_values(|p: (usize, usize)| s@.subrange(p.0 as int, p.1 as int)));
        assert forall|k: int| 0 <= k < out.len() implies
            s@.subrange(out[k].0 as int, out[k].1 as int) == split_by(s@, sep@)[k] by {
            assert(out@.map_values(|p: (usize, usize)| s@.subrange(p.0 as int, p.1 as int))[k]
                == s@.subrange(out[k].0 as int, out[k].1 as int));
        }
    }
    out
}


/// The character sequences of a list of strings.
pub open spec fn views(v: Seq<String>) -> Seq<Seq<char>> {
    v.map_values(|x: String| x@)
}

/// The pieces of `s` between the occurrences of `sep`, as strings.
pub fn split_text(s: &str, sep: &str) -> (r: Vec<String>)
    requires
        sep@.len() > 0,
    ensures
        views(r@) == split_by(s@, sep@),
{
    let cs = chars_of(s);
    let sp = chars_of(sep);
    let bounds = split_bounds(&cs, &sp);
    let mut out: Vec<String> = Vec::new();
    let mut k: usize = 0;
    while k < bounds.len()
        invariant
            k <= bounds.len(),
            cs@ == s@,
            sp@ == sep@,
            bounds.len() == split_by(s@, sep@).len(),
            forall|j: int|
                #![trigger bounds[j]]
                0 <= j < bounds.len() ==> {
                    &&& bounds[j].0 <= bounds[j].1 <= cs.len()
                    &&& s@.subrange(bounds[j].0 as int, bounds[j].1 as int) == split_by(s@, sep@)[j]
                },
            views(out@) == split_by(s@, sep@).take(k as int),
        decreases bounds.len() - k,
    {
        let (from, to) = bounds[k];
        let piece = s.substring_char(from, to).to_owned();
        let ghost prev = out@;
        out.push(piece);
        proof {
            assert(views(out@) =~= views(prev) + seq![piece@]);
            assert(split_by(s@, sep@).take(k + 1) =~= split_by(s@, sep@).take(k as int)
                + seq![split_by(s@, sep@)[k as int]]);
        }
        k = k + 1;
    }
    proof {
        assert(split_by(s@, sep@).take(k as int) =~= split_by(s@, sep@));
    }
    out
}

/// `s` begins with `pre`.
pub open spec fn has_prefix(s: Seq<char>, pre: Seq<char>) -> bool {
    pre.len() <= s.len() && s.take(pre.len() as int) == pre
}

/// `s` ends with `suf`.
pub open spec fn has_suffix(s: Seq<char>, suf: Seq<char>) -> bool {
    suf.len() <= s.len() && s.skip(s.len() - suf.len()) == suf
}

/// Whether the characters of `s` from `at` on agree with `pat`.
fn agrees_at(s: &Vec<char>, pat: &Vec<char>, at: usize) -> (r: bool)
    requires
        at + pat.len() == s.len(),
    ensures
        r == (s@.skip(at as int) == pat@),
{
    let mut k: usize = 0;
    while k < pat.len()
        invariant
            at + pat.len() == s.len(),
            k <= pat.len(),
            forall|j: int| 0 <= j < k ==> s@[at + j] == pat@[j],
        decreases pat.len() - k,
    {
        if s[at + k] != pat[k] {
            assert(s@.skip(at as int)[k as int] != pat@[k as int]);
            return false;
        }
        k = k + 1;
    }
    assert(s@.skip(at as int) =~= pat@);
    true
}

/// Whether `s` begins with `pre`.
pub fn starts_with(s: &str, pre: &str) -> (r: bool)
    ensures
        r == has_prefix(s@, pre@),
{
    let cs = chars_of(s);
    let ps = chars_of(pre);
    if ps.len() > cs.len() {
        return false;
    }
    let mut k: usize = 0;
    while k < ps.len()
        invariant
            ps.len() <= cs.len(),
            k <= ps.len(),
            cs@ == s@,
            ps@ == pre@,
            forall|j: int| 0 <= j < k ==> cs@[j] == ps@[j],
        decreases ps.len() - k,
    {
        if cs[k] != ps[k] {
            assert(s@.take(pre@.len() as int)[k as int] != pre@[k as int]);
            return false;
        }
        k = k + 1;
    }
    assert(s@.take(pre@.len() as int) =~= pre@);
    true
}

/// Whether `s` ends with `suf`.
pub fn ends_with(s: &str, suf: &str) -> (r: bool)
    ensures
        r == has_suffix(s@, suf@),
{
    let cs = chars_of(s);
    let ps = chars_of(suf);
    if ps.len() > cs.len() {
        return false;
    }
    agrees_at(&cs, &ps, cs.len() - ps.len())
}

/// The decimal digit for `d`.
pub open spec fn digit(d: nat) -> char {
    if d == 0 { '0' }
    else if d == 1 { '1' }
    else if d == 2 { '2' }
    else if d == 3 { '3' }
    else if d == 4 { '4' }
    else if d == 5 { '5' }
    else if d == 6 { '6' }
    else if d == 7 { '7' }
    else if d == 8 { '8' }
    else { '9' }
}

/// The decimal numeral of `n`, without leading zeros.
pub open spec fn decimal(n: nat) -> Seq<char>
    decreases n,
{
    if n < 10 {
        seq![digit(n)]
    } else {
        decimal(n / 10).push(digit(n % 10))
    }
}

/// The decimal numeral of `n`, with a leading `-` when it is negative.
pub open spec fn signed_decimal(n: int) -> Seq<char> {
    if n < 0 {
        seq!['-'] + decimal((-n) as nat)
    } else {
        decimal(n as nat)
    }
}

fn digit_text(d: u64) -> (r: &'static str)
    requires
        d < 10,
    ensures
        r@ == seq![digit(d as nat)],
{
    let r = if d == 0 { "0" }
        else if d == 1 { "1" }
        else if d == 2 { "2" }
        else if d == 3 { "3" }
        else if d == 4 { "4" }
        else if d == 5 { "5" }
        else if d == 6 { "6" }
        else if d == 7 { "7" }
        else if d == 8 { "8" }
        else { "9" };
    proof {
        reveal_strlit("0");
        reveal_strlit("1");
        reveal_strlit("2");
        reveal_strlit("3");
        reveal_strlit("4");
        reveal_strlit("5");
        reveal_strlit("6");
        reveal_strlit("7");
        reveal_strlit("8");
        reveal_strlit("9");
    }
    assert(r@ =~= seq![digit(d as nat)]);
    r
}

/// Renders `n` in decimal.
pub fn decimal_text(n: u64) -> (r: String)
    ensures
        r@ == decimal(n as nat),
    decreases n,
{
    if n < 10 {
        digit_text(n).to_owned()
    } else {
        let mut r = decimal_text(n / 10);
        r.append(digit_text(n % 10));
        r
    }
}

/// Renders `n` in decimal, with a leading `-` when it is negative.
pub fn signed_decimal_text(n: i32) -> (r: String)
    ensures
        r@ == signed_decimal(n as int),
{
    if n < 0 {
        let m: u64 = (0 - (n as i64)) as u64;
        let mut r = "-".to_owned();
        proof {
            reveal_strlit("-");
        }
        r.append(decimal_text(m).as_str());
        assert(r@ =~= seq!['-'] + decimal((-n) as nat));
        r
    } else {
        decimal_text(n as u64)
    }
}

} // verus!
