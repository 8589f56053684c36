//! Character-level helpers: whitespace, trimming, line splitting and joining.

use vstd::prelude::*;

verus! {

broadcast use vstd::string::group_string_axioms;

/// Relies on `String::push`: the character is appended to the string.
pub assume_specification[ String::push ](s: &mut String, ch: char)
    ensures
        final(s)@ == old(s)@.push(ch),
;

/// Unicode `White_Space`, the set that `char::is_whitespace` tests.
pub open spec fn is_ws(c: char) -> bool {
    let u = c as u32;
    (0x9 <= u <= 0xd) || u == 0x20 || u == 0x85 || u == 0xa0 || u == 0x1680 || (0x2000 <= u
        <= 0x200a) || u == 0x2028 || u == 0x2029 || u == 0x202f || u == 0x205f || u == 0x3000
}

/// Whether `c` is Unicode whitespace.
pub fn is_whitespace(c: char) -> (r: bool)
    ensures
        r == is_ws(c),
{
    let u = c as u32;
    (0x9 <= u && u <= 0xd) || u == 0x20 || u == 0x85 || u == 0xa0 || u == 0x1680 || (0x2000 <= u
        && u <= 0x200a) || u == 0x2028 || u == 0x2029 || u == 0x202f || u == 0x205f || u == 0x3000
}

/// `s` without its leading whitespace.
pub open spec fn trim_start(s: Seq<char>) -> Seq<char>
    decreases s.len(),
{
    if s.len() > 0 && is_ws(s[0]) {
        trim_start(s.drop_first())
    } else {
        s
    }
}

/// `s` without its trailing whitespace.
pub open spec fn trim_end(s: Seq<char>) -> Seq<char>
    decreases s.len(),
{
    if s.len() > 0 && is_ws(s.last()) {
        trim_end(s.drop_last())
    } else {
        s
    }
}

/// `s` without leading and trailing whitespace, as `str::trim` gives it.
pub open spec fn trim(s: Seq<char>) -> Seq<char> {
    trim_end(trim_start(s))
}

pub open spec fn all_ws(s: Seq<char>) -> bool {
    forall|i: int| 0 <= i < s.len() ==> is_ws(#[trigger] s[i])
}

pub open spec fn no_ws(s: Seq<char>) -> bool {
    forall|i: int| 0 <= i < s.len() ==> !is_ws(#[trigger] s[i])
}

pub open spec fn starts_with(s: Seq<char>, p: Seq<char>) -> bool {
    p.len() <= s.len() && s.take(p.len() as int) == p
}

/// The pieces of `s` between the `'\n'` characters: one more than there are newlines.
pub open spec fn split_newlines(s: Seq<char>) -> Seq<Seq<char>>
    decreases s.len(),
{
    if s.len() == 0 {
        seq![Seq::empty()]
    } else {
        let p = split_newlines(s.drop_last());
        if s.last() == '\n' {
            p.push(Seq::empty())
        } else {
            p.update(p.len() - 1, p.last().push(s.last()))
        }
    }
}

/// `s` without one trailing `'\r'`.
pub open spec fn strip_cr(s: Seq<char>) -> Seq<char> {
    if s.len() > 0 && s.last() == '\r' {
        s.drop_last()
    } else {
        s
    }
}

/// The lines of `s` as `str::lines` yields them: `s` is split at each `'\n'`, a piece
/// that a `'\n'` ended loses one trailing `'\r'`, and an empty last piece is no line.
pub open spec fn lines_of(s: Seq<char>) -> Seq<Seq<char>> {
    let p = split_newlines(s);
    let n = if p.last().len() == 0 {
        p.len() - 1
    } else {
        p.len() as int
    };
    Seq::new(
        n as nat,
        |i: int|
            if i < p.len() - 1 {
                strip_cr(p[i])
            } else {
                p[i]
            },
    )
}

/// The parts joined with a `'\n'` between each two.
pub open spec fn join_lines(parts: Seq<Seq<char>>) -> Seq<char>
    decreases parts.len(),
{
    if parts.len() == 0 {
        Seq::empty()
    } else if parts.len() == 1 {
        parts[0]
    } else {
        join_lines(parts.drop_last()).push('\n') + parts.last()
    }
}

pub proof fn lemma_split_newlines_nonempty(s: Seq<char>)
    ensures
        split_newlines(s).len() >= 1,
    decreases s.len(),
{
    if s.len() > 0 {
        lemma_split_newlines_nonempty(s.drop_last());
    }
}

/// Dropping the first `k` characters, all whitespace, leaves the same trimmed start.
pub proof fn lemma_trim_start_skip(s: Seq<char>, k: int)
    requires
        0 <= k <= s.len(),
        all_ws(s.take(k)),
    ensures
        trim_start(s) == trim_start(s.skip(k)),
    decreases k,
{
    if k > 0 {
        assert(s.take(k)[0] == s[0]);
        assert(s.drop_first().take(k - 1) =~= s.take(k).drop_first());
        assert(all_ws(s.drop_first().take(k - 1))) by {
            assert forall|i: int| 0 <= i < k - 1 implies is_ws(#[trigger] s.drop_first().take(k - 1)[i]) by {
                assert(s.drop_first().take(k - 1)[i] == s.take(k)[i + 1]);
            }
        }
        lemma_trim_start_skip(s.drop_first(), k - 1);
        assert(s.drop_first().skip(k - 1) =~= s.skip(k));
        assert(is_ws(s[0]));
        assert(trim_start(s) == trim_start(s.drop_first()));
    } else {
        assert(s.skip(0) =~= s);
    }
}

/// Dropping the last characters, all whitespace, leaves the same trimmed end.
pub proof fn lemma_trim_end_take(s: Seq<char>, k: int)
    requires
        0 <= k <= s.len(),
        all_ws(s.skip(k)),
    ensures
        trim_end(s) == trim_end(s.take(k)),
    decreases s.len() - k,
{
    if k < s.len() {
        assert(s.skip(k)[s.len() - 1 - k] == s.last());
        assert(all_ws(s.drop_last().skip(k))) by {
            assert forall|i: int| 0 <= i < s.len() - 1 - k implies is_ws(
                #[trigger] s.drop_last().skip(k)[i],
            ) by {
                assert(s.drop_last().skip(k)[i] == s.skip(k)[i]);
            }
        }
        lemma_trim_end_take(s.drop_last(), k);
        assert(s.drop_last().take(k) =~= s.take(k));
        assert(is_ws(s.last()));
        assert(trim_end(s) == trim_end(s.drop_last()));
    } else {
        assert(s.take(k) =~= s);
    }
}

/// Trimming the start of a sequence with one more character.
pub proof fn lemma_trim_start_push(x: Seq<char>, c: char)
    ensures
        trim_start(x.push(c)) == (if trim_start(x).len() == 0 {
            if is_ws(c) {
                Seq::<char>::empty()
            } else {
                seq![c]
            }
        } else {
            trim_start(x).push(c)
        }),
    decreases x.len(),
{
    if x.len() == 0 {
        assert(x.push(c) =~= seq![c]);
        assert(seq![c].drop_first() =~= Seq::<char>::empty());
        assert(trim_start(Seq::<char>::empty()) == Seq::<char>::empty());
        if is_ws(c) {
            assert(trim_start(seq![c]) == trim_start(seq![c].drop_first()));
        }
    } else {
        assert(x.push(c)[0] == x[0]);
        assert(x.push(c).drop_first() =~= x.drop_first().push(c));
        if is_ws(x[0]) {
            lemma_trim_start_push(x.drop_first(), c);
        }
    }
}

/// Trimming the end of a sequence with one more character.
pub proof fn lemma_trim_end_push(y: Seq<char>, c: char)
    ensures
        trim_end(y.push(c)) == (if is_ws(c) {
            trim_end(y)
        } else {
            y.push(c)
        }),
{
    assert(y.push(c).drop_last() =~= y);
}

/// Once something is left of the start, trimming the start passes over what follows.
pub proof fn lemma_trim_start_append(x: Seq<char>, z: Seq<char>)
    requires
        trim_start(x).len() > 0,
    ensures
        trim_start(x + z) == trim_start(x) + z,
    decreases x.len(),
{
    if x.len() > 0 {
        assert((x + z)[0] == x[0]);
        if is_ws(x[0]) {
            assert((x + z).drop_first() =~= x.drop_first() + z);
            lemma_trim_start_append(x.drop_first(), z);
        }
    }
}

/// A character that is not whitespace is kept, with what is before it, by trimming the end.
pub proof fn lemma_trim_end_keeps(w: Seq<char>, y: Seq<char>)
    requires
        w.len() > 0,
        !is_ws(w.last()),
    ensures
        trim_end(w + y).len() >= w.len(),
        trim_end(w + y).take(w.len() as int) == w,
    decreases y.len(),
{
    if y.len() == 0 {
        assert(w + y =~= w);
        assert(w.take(w.len() as int) =~= w);
    } else {
        assert((w + y).drop_last() =~= w + y.drop_last());
        lemma_trim_end_keeps(w, y.drop_last());
        if !is_ws((w + y).last()) {
            assert((w + y).take(w.len() as int) =~= w);
        }
    }
}

/// The trimmed end of a sequence is a prefix of it.
pub proof fn lemma_trim_end_prefix(y: Seq<char>)
    ensures
        trim_end(y).len() <= y.len(),
        trim_end(y) == y.take(trim_end(y).len() as int),
        trim_end(y).len() > 0 ==> !is_ws(trim_end(y).last()),
        trim_end(y).len() == 0 ==> all_ws(y),
    decreases y.len(),
{
    if y.len() == 0 {
        assert(y.take(0) =~= y);
    } else if is_ws(y.last()) {
        lemma_trim_end_prefix(y.drop_last());
        assert(y.drop_last().take(trim_end(y).len() as int) =~= y.take(trim_end(y).len() as int));
        if trim_end(y).len() == 0 {
            assert forall|i: int| 0 <= i < y.len() implies is_ws(#[trigger] y[i]) by {
                if i < y.len() - 1 {
                    assert(y.drop_last()[i] == y[i]);
                }
            }
        }
    } else {
        assert(y.take(y.len() as int) =~= y);
    }
}

/// The trimmed start of a sequence is a suffix of it, and does not begin with whitespace.
pub proof fn lemma_trim_start_suffix(x: Seq<char>)
    ensures
        trim_start(x).len() <= x.len(),
        trim_start(x) == x.skip(x.len() - trim_start(x).len()),
        trim_start(x).len() > 0 ==> !is_ws(trim_start(x)[0]),
        trim_start(x).len() == 0 ==> all_ws(x),
    decreases x.len(),
{
    if x.len() == 0 {
        assert(x.skip(0) =~= x);
    } else if is_ws(x[0]) {
        lemma_trim_start_suffix(x.drop_first());
        assert(x.drop_first().skip(x.len() - 1 - trim_start(x).len()) =~= x.skip(
            x.len() - trim_start(x).len(),
        ));
        if trim_start(x).len() == 0 {
            assert forall|i: int| 0 <= i < x.len() implies is_ws(#[trigger] x[i]) by {
                if i > 0 {
                    assert(x.drop_first()[i - 1] == x[i]);
                }
            }
        }
    } else {
        assert(x.skip(0) =~= x);
    }
}

/// The bounds of `s` without its leading and trailing whitespace.
pub fn trim_bounds(s: &[char]) -> (r: (usize, usize))
    ensures
        r.0 <= r.1 <= s@.len(),
        s@.subrange(r.0 as int, r.1 as int) == trim(s@),
{
    let mut lo: usize = 0;
    while lo < s.len() && is_whitespace(s[lo])
        invariant
            lo <= s@.len(),
            all_ws(s@.take(lo as int)),
        decreases s@.len() - lo,
    {
        assert(s@.take(lo as int + 1) =~= s@.take(lo as int).push(s@[lo as int]));
        lo = lo + 1;
    }
    proof {
        lemma_trim_start_skip(s@, lo as int);
        if lo < s@.len() {
            assert(s@.skip(lo as int)[0] == s@[lo as int]);
        }
        assert(trim_start(s@) == s@.skip(lo as int));
    }
    let mut hi: usize = s.len();
    while hi > lo && is_whitespace(s[hi - 1])
        invariant
            lo <= hi <= s@.len(),
            all_ws(s@.subrange(hi as int, s@.len() as int)),
        decreases hi,
    {
        assert(s@.subrange(hi - 1, s@.len() as int) =~= seq![s@[hi - 1]] + s@.subrange(
            hi as int,
            s@.len() as int,
        ));
        hi = hi - 1;
    }
    proof {
        let t = s@.skip(lo as int);
        let k = hi - lo;
        assert(t.skip(k) =~= s@.subrange(hi as int, s@.len() as int));
        lemma_trim_end_take(t, k);
        if k > 0 {
            assert(t.take(k).last() == s@[hi - 1]);
        }
        assert(t.take(k) =~= s@.subrange(lo as int, hi as int));
    }
    (lo, hi)
}

/// The characters of `s`, in order.
pub fn chars_of(s: &str) -> (r: Vec<char>)
    ensures
        r@ == s@,
{
    let mut r: Vec<char> = Vec::new();
    for c in it: s.chars()
        invariant
            r@ == it.seq().take(it.index() as int),
    {
        r.push(c);
    }
    r
}

/// The characters `s[lo..hi]` as a `String`.
pub fn string_of(s: &[char], lo: usize, hi: usize) -> (r: String)
    requires
        lo <= hi <= s@.len(),
    ensures
        r@ == s@.subrange(lo as int, hi as int),
{
    let mut r = String::new();
    let mut i = lo;
    while i < hi
        invariant
            lo <= i <= hi <= s@.len(),
            r@ == s@.subrange(lo as int, i as int),
        decreases hi - i,
    {
        r.push(s[i]);
        assert(s@.subrange(lo as int, i + 1) =~= s@.subrange(lo as int, i as int).push(s@[i as int]));
        i = i + 1;
    }
    r
}

/// `s` trimmed, as a `String`.
pub fn trimmed_string(s: &[char]) -> (r: String)
    ensures
        r@ == trim(s@),
{
    let (lo, hi) = trim_bounds(s);
    string_of(s, lo, hi)
}

/// Whether `s` begins with the characters of `p`.
pub fn has_prefix(s: &[char], p: &[char]) -> (r: bool)
    ensures
        r == starts_with(s@, p@),
{
    if p.len() > s.len() {
        return false;
    }
    let mut i: usize = 0;
    while i < p.len()
        invariant
            i <= p@.len() <= s@.len(),
            s@.take(i as int) == p@.take(i as int),
        decreases p@.len() - i,
    {
        if s[i] != p[i] {
            assert(s@.take(p@.len() as int)[i as int] != p@[i as int]);
            return false;
        }
        assert(s@.take(i + 1) =~= s@.take(i as int).push(s@[i as int]));
        assert(p@.take(i + 1) =~= p@.take(i as int).push(p@[i as int]));
        i = i + 1;
    }
    assert(p@.take(p@.len() as int) =~= p@);
    true
}

/// The lines of `s`, each without its line ending.
pub fn split_lines(s: &[char]) -> (r: Vec<Vec<char>>)
    ensures
        r@.len() == lines_of(s@).len(),
        forall|i: int| 0 <= i < r@.len() ==> (#[trigger] r@[i])@ == lines_of(s@)[i],
{
    let mut done: Vec<Vec<char>> = Vec::new();
    let mut cur: Vec<char> = Vec::new();
    let mut i: usize = 0;
    while i < s.len()
        invariant
            i <= s@.len(),
            split_newlines(s@.take(i as int)).len() == done@.len() + 1,
            forall|j: int|
                0 <= j < done@.len() ==> (#[trigger] done@[j])@ == strip_cr(
                    split_newlines(s@.take(i as int))[j],
                ),
            cur@ == split_newlines(s@.take(i as int)).last(),
        decreases s@.len() - i,
    {
        let c = s[i];
        proof {
            let t = s@.take(i + 1);
            assert(t.drop_last() =~= s@.take(i as int));
            assert(t.last() == c);
            lemma_split_newlines_nonempty(s@.take(i as int));
        }
        if c == '\n' {
            let mut line = cur;
            if line.len() > 0 && line[line.len() - 1] == '\r' {
                line.pop();
                assert(line@ =~= strip_cr(cur@));
            }
            done.push(line);
            cur = Vec::new();
        } else {
            cur.push(c);
        }
        i = i + 1;
    }
    proof {
        assert(s@.take(s@.len() as int) =~= s@);
        lemma_split_newlines_nonempty(s@);
    }
    if cur.len() > 0 {
        done.push(cur);
    }
    assert(done@.len() == lines_of(s@).len());
    done
}

/// The parts joined with a `'\n'` between each two.
pub fn join_with_newlines(parts: &Vec<String>) -> (r: String)
    ensures
        r@ == join_lines(parts@.map_values(|p: String| p@)),
{
    let ghost views = parts@.map_values(|p: String| p@);
    let mut r = String::new();
    let mut i: usize = 0;
    while i < parts.len()
        invariant
            i <= parts@.len(),
            views == parts@.map_values(|p: String| p@),
            r@ == join_lines(views.take(i as int)),
        decreases parts@.len() - i,
    {
        proof {
            assert(views.take(i + 1).drop_last() =~= views.take(i as int));
        }
        if i > 0 {
            r.push('\n');
        }
        r.append(parts[i].as_str());
        i = i + 1;
    }
    assert(views.take(parts@.len() as int) =~= views);
    r
}

/// Whether `s` holds exactly the characters of `t`.
pub fn same_text(s: &[char], t: &str) -> (r: bool)
    ensures
        r == (s@ == t@),
{
    let tc = chars_of(t);
    if tc.len() != s.len() {
        return false;
    }
    let mut i: usize = 0;
    while i < s.len()
        invariant
            i <= s@.len(),
            tc@ == t@,
            tc@.len() == s@.len(),
            forall|j: int| 0 <= j < i ==> s@[j] == tc@[j],
        decreases s@.len() - i,
    {
        if s[i] != tc[i] {
            return false;
        }
        i = i + 1;
    }
    assert(s@ =~= tc@);
    true
}

/// The characters `s[lo..hi]`.
pub fn sub_vec(s: &[char], lo: usize, hi: usize) -> (r: Vec<char>)
    requires
        lo <= hi <= s@.len(),
    ensures
        r@ == s@.subrange(lo as int, hi as int),
{
    let mut r: Vec<char> = Vec::new();
    let mut i = lo;
    while i < hi
        invariant
            lo <= i <= hi <= s@.len(),
            r@ == s@.subrange(lo as int, i as int),
        decreases hi - i,
    {
        assert(s@.subrange(lo as int, i + 1) =~= r@.push(s@[i as int]));
        r.push(s[i]);
        i = i + 1;
    }
    r
}

} // verus!
