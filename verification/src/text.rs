//! Text primitives shared by the topic modules: splitting on `/`, joining,
//! character conversions and decimal rendering.
use vstd::prelude::*;

verus! {

/// Splits `s` on every `/`; the result always has at least one element and
/// empty levels (leading, trailing or doubled separators) are kept.
pub open spec fn split_levels(s: Seq<char>) -> Seq<Seq<char>>
    decreases s.len(),
{
    if s.len() == 0 {
        seq![Seq::<char>::empty()]
    } else {
        let prev = split_levels(s.drop_last());
        if s.last() == '/' {
            prev.push(Seq::<char>::empty())
        } else {
            prev.update(prev.len() - 1, prev.last().push(s.last()))
        }
    }
}

/// Joins levels with `/` between consecutive elements.
pub open spec fn join_levels(segs: Seq<Seq<char>>) -> Seq<char>
    decreases segs.len(),
{
    if segs.len() == 0 {
        Seq::<char>::empty()
    } else if segs.len() == 1 {
        segs[0]
    } else {
        join_levels(segs.drop_last()) + seq!['/'] + segs.last()
    }
}

/// No level holds a separator.
pub open spec fn no_sep_in_levels(segs: Seq<Seq<char>>) -> bool {
    forall|i: int, j: int| 0 <= i < segs.len() && 0 <= j < segs[i].len() ==> segs[i][j] != '/'
}

/// Decimal rendering of a natural number, without leading zeros.
pub open spec fn decimal(n: nat) -> Seq<char>
    decreases n,
{
    if n < 10 {
        seq![digit_char(n)]
    } else {
        decimal(n / 10).push(digit_char(n % 10))
    }
}

pub open spec fn digit_char(d: nat) -> char {
    if d == 0 {
        '0'
    } else if d == 1 {
        '1'
    } else if d == 2 {
        '2'
    } else if d == 3 {
        '3'
    } else if d == 4 {
        '4'
    } else if d == 5 {
        '5'
    } else if d == 6 {
        '6'
    } else if d == 7 {
        '7'
    } else if d == 8 {
        '8'
    } else {
        '9'
    }
}

pub proof fn lemma_split_nonempty(s: Seq<char>)
    ensures
        split_levels(s).len() >= 1,
        split_levels(s).len() <= s.len() + 1,
    decreases s.len(),
{
    if s.len() > 0 {
        lemma_split_nonempty(s.drop_last());
    }
}

proof fn lemma_split_no_sep(s: Seq<char>)
    ensures
        no_sep_in_levels(split_levels(s)),
    decreases s.len(),
{
    if s.len() > 0 {
        lemma_split_no_sep(s.drop_last());
        lemma_split_nonempty(s.drop_last());
    }
}

/// Joining the levels of a split gives back the text that was split.
pub proof fn lemma_join_split(s: Seq<char>)
    ensures
        join_levels(split_levels(s)) == s,
    decreases s.len(),
{
    if s.len() > 0 {
        let t = s.drop_last();
        lemma_join_split(t);
        lemma_split_nonempty(t);
        let p = split_levels(t);
        if s.last() == '/' {
            assert(p.push(Seq::<char>::empty()).drop_last() =~= p);
            assert(s =~= t + seq!['/'] + Seq::<char>::empty());
        } else {
            let q = p.update(p.len() - 1, p.last().push(s.last()));
            if p.len() == 1 {
                assert(s =~= p[0].push(s.last()));
            } else {
                assert(q.drop_last() =~= p.drop_last());
                assert(q.last() == p.last().push(s.last()));
                assert(join_levels(p) == join_levels(p.drop_last()) + seq!['/'] + p.last());
                assert(s =~= t.push(s.last()));
                assert(s =~= join_levels(p.drop_last()) + seq!['/'] + p.last().push(s.last()));
                assert(join_levels(q) == join_levels(q.drop_last()) + seq!['/'] + q.last());
            }
        }
    }
}

proof fn lemma_split_append_level(a: Seq<char>, b: Seq<char>)
    requires
        forall|j: int| 0 <= j < b.len() ==> b[j] != '/',
    ensures
        split_levels(a + seq!['/'] + b) == split_levels(a).push(b),
    decreases b.len(),
{
    if b.len() == 0 {
        assert((a + seq!['/'] + b).drop_last() =~= a);
        assert(b =~= Seq::<char>::empty());
    } else {
        let b0 = b.drop_last();
        lemma_split_append_level(a, b0);
        assert((a + seq!['/'] + b).drop_last() =~= a + seq!['/'] + b0);
        assert(b0.push(b.last()) =~= b);
        assert((a + seq!['/'] + b).last() == b[b.len() - 1]);
        let p = split_levels(a).push(b0);
        assert(p.update(p.len() - 1, p.last().push(b.last())) =~= split_levels(a).push(b));
    }
}

proof fn lemma_split_plain(b: Seq<char>)
    requires
        forall|j: int| 0 <= j < b.len() ==> b[j] != '/',
    ensures
        split_levels(b) == seq![b],
    decreases b.len(),
{
    if b.len() == 0 {
        assert(b =~= Seq::<char>::empty());
    } else {
        lemma_split_plain(b.drop_last());
        assert(b.drop_last().push(b.last()) =~= b);
        assert(b.last() == b[b.len() - 1]);
        assert(seq![b.drop_last()].update(0, b.drop_last().push(b.last())) =~= seq![b]);
    }
}

/// Splitting the join of separator-free levels gives back the levels.
pub proof fn lemma_split_join(segs: Seq<Seq<char>>)
    requires
        segs.len() >= 1,
        no_sep_in_levels(segs),
    ensures
        split_levels(join_levels(segs)) == segs,
    decreases segs.len(),
{
    if segs.len() == 1 {
        assert(forall|j: int| 0 <= j < segs[0].len() ==> segs[0][j] != '/');
        lemma_split_plain(segs[0]);
    } else {
        let init = segs.drop_last();
        assert(no_sep_in_levels(init)) by {
            assert forall|i: int, j: int| 0 <= i < init.len() && 0 <= j < init[i].len() implies init[i][j]
                != '/' by {
                assert(init[i] == segs[i]);
            }
        }
        lemma_split_join(init);
        assert(forall|j: int| 0 <= j < segs.last().len() ==> segs.last()[j] != '/') by {
            assert forall|j: int| 0 <= j < segs.last().len() implies segs.last()[j] != '/' by {
                assert(segs.last() == segs[segs.len() - 1]);
            }
        }
        lemma_split_append_level(join_levels(init), segs.last());
        assert(init.push(segs.last()) =~= segs);
    }
}

/// Collects the characters of a string slice.
pub fn str_to_chars(s: &str) -> (v: Vec<char>)
    ensures
        v@ == s@,
{
    let mut v: Vec<char> = Vec::new();
    let chars_it = s.chars();
    for c in it: chars_it
        invariant
            v@ == it.seq().take(it.index()),
            it.seq() == s@,
    {
        v.push(c);
    }
    v
}

/// Appends one character to a string.
#[verifier::external_body]
pub(crate) fn push_char(s: &mut String, c: char)
    ensures
        final(s)@ == old(s)@.push(c),
{
    s.push(c);
}

/// Builds a string from characters.
pub fn string_from_chars(v: &[char]) -> (s: String)
    ensures
        s@ == v@,
{
    let mut s = String::new();
    let mut i: usize = 0;
    while i < v.len()
        invariant
            i <= v.len(),
            s@ == v@.take(i as int),
        decreases v.len() - i,
    {
        push_char(&mut s, v[i]);
        i += 1;
        assert(v@.take(i as int) =~= v@.take(i - 1).push(v@[i - 1]));
    }
    assert(v@.take(v.len() as int) =~= v@);
    s
}

/// Copies a string.
pub fn copy_string(s: &String) -> (r: String)
    ensures
        r@ == s@,
{
    s.clone()
}

/// An owned copy of a string slice.
pub fn owned_string(t: &str) -> (s: String)
    ensures
        s@ == t@,
{
    t.to_owned()
}

/// Appends the characters of `t` to `s`.
pub fn append_chars(s: &mut String, t: &str)
    ensures
        final(s)@ == old(s)@ + t@,
{
    s.append(t);
}

/// Splits a text on `/` into its levels.
pub fn split_to_levels(s: &str) -> (v: Vec<String>)
    ensures
        v.deep_view() == split_levels(s@),
        v.len() >= 1,
{
    let chars = str_to_chars(s);
    let mut levels: Vec<String> = Vec::new();
    let mut cur = String::new();
    let mut i: usize = 0;
    while i < chars.len()
        invariant
            i <= chars.len(),
            chars@ == s@,
            levels.deep_view().push(cur@) == split_levels(chars@.take(i as int)),
        decreases chars.len() - i,
    {
        let c = chars[i];
        let ghost before = chars@.take(i as int);
        assert(chars@.take(i + 1).drop_last() =~= before);
        proof {
            lemma_split_nonempty(before);
        }
        if c == '/' {
            let done = cur;
            levels.push(done);
            cur = String::new();
            assert(levels.deep_view() =~= split_levels(before));
        } else {
            push_char(&mut cur, c);
        }
        i += 1;
        assert(levels.deep_view().push(cur@) =~= split_levels(chars@.take(i as int)));
    }
    levels.push(cur);
    assert(chars@.take(chars.len() as int) =~= chars@);
    assert(levels.deep_view() =~= split_levels(s@));
    levels
}

/// Joins levels with `/`.
pub fn join_to_string(levels: &Vec<String>) -> (s: String)
    ensures
        s@ == join_levels(levels.deep_view()),
{
    let mut s = String::new();
    let mut i: usize = 0;
    while i < levels.len()
        invariant
            i <= levels.len(),
            s@ == join_levels(levels.deep_view().take(i as int)),
        decreases levels.len() - i,
    {
        let ghost prev = levels.deep_view().take(i as int);
        if i > 0 {
            push_char(&mut s, '/');
        }
        s.append(levels[i].as_str());
        i += 1;
        proof {
            let cur = levels.deep_view().take(i as int);
            assert(cur.drop_last() =~= prev);
            if i == 1 {
                assert(s@ =~= cur[0]);
            } else {
                assert(s@ =~= join_levels(prev) + seq!['/'] + cur.last());
            }
        }
    }
    assert(levels.deep_view().take(levels.len() as int) =~= levels.deep_view());
    s
}

/// Renders `n` in decimal.
pub fn decimal_string(n: usize) -> (s: String)
    ensures
        s@ == decimal(n as nat),
    decreases n,
{
    if n < 10 {
        let mut s = String::new();
        push_char(&mut s, digit(n));
        s
    } else {
        let mut s = decimal_string(n / 10);
        push_char(&mut s, digit(n % 10));
        s
    }
}

fn digit(d: usize) -> (c: char)
    requires
        d < 10,
    ensures
        c == digit_char(d as nat),
{
    if d == 0 {
        '0'
    } else if d == 1 {
        '1'
    } else if d == 2 {
        '2'
    } else if d == 3 {
        '3'
    } else if d == 4 {
        '4'
    } else if d == 5 {
        '5'
    } else if d == 6 {
        '6'
    } else if d == 7 {
        '7'
    } else if d == 8 {
        '8'
    } else {
        '9'
    }
}

/// Character-wise equality of two texts.
pub fn chars_eq(a: &[char], b: &[char]) -> (r: bool)
    ensures
        r == (a@ == b@),
{
    if a.len() != b.len() {
        return false;
    }
    let mut i: usize = 0;
    while i < a.len()
        invariant
            i <= a.len(),
            a.len() == b.len(),
            forall|j: int| 0 <= j < i ==> a@[j] == b@[j],
        decreases a.len() - i,
    {
        if a[i] != b[i] {
            return false;
        }
        i += 1;
    }
    assert(a@ =~= b@);
    true
}

/// Equality of two strings by their characters.
pub fn string_eq(a: &String, b: &String) -> (r: bool)
    ensures
        r == (a@ == b@),
{
    *a == *b
}

} // verus!
