//! Character-level helpers shared by the parser and the renderers.
use vstd::prelude::*;

verus! {

/// Relies on `String::push`: the character is appended at the end.
pub assume_specification[ String::push ](s: &mut String, ch: char)
    ensures
        final(s)@ == old(s)@.push(ch),
;

/// The characters of `s`, in order.
pub fn chars_of(s: &str) -> (r: Vec<char>)
    ensures
        r@ == s@,
{
    let mut v: Vec<char> = Vec::new();
    for c in it: s.chars()
        invariant
            v@ == it.seq().subrange(0, it.index() as int),
    {
        v.push(c);
    }
    v
}

/// A string holding `v[lo..hi]`.
pub fn string_from(v: &Vec<char>, lo: usize, hi: usize) -> (r: String)
    requires
        lo <= hi <= v@.len(),
    ensures
        r@ == v@.subrange(lo as int, hi as int),
{
    let mut s = String::new();
    let mut i: usize = lo;
    while i < hi
        invariant
            lo <= i <= hi <= v@.len(),
            s@ == v@.subrange(lo as int, i as int),
        decreases hi - i,
    {
        s.push(v[i]);
        assert(v@.subrange(lo as int, i + 1) == v@.subrange(lo as int, i as int).push(v@[i as int]));
        i = i + 1;
    }
    s
}


/// Whether `p` occurs in `l` at position `i`.
pub open spec fn has_at(l: Seq<char>, i: int, p: Seq<char>) -> bool {
    0 <= i && i + p.len() <= l.len() && l.subrange(i, i + p.len()) == p
}

/// Whether `p` occurs in `l` at position `i`.
pub fn matches_at(l: &Vec<char>, i: usize, p: &[char]) -> (r: bool)
    ensures
        r == has_at(l@, i as int, p@),
{
    if i > l.len() || p.len() > l.len() - i {
        return false;
    }
    let mut k: usize = 0;
    while k < p.len()
        invariant
            i + p@.len() <= l@.len(),
            l@.len() <= usize::MAX,
            k <= p@.len(),
            forall|j: int| 0 <= j < k ==> l@[i + j] == p@[j],
        decreases p.len() - k,
    {
        if l[i + k] != p[k] {
            assert(l@.subrange(i as int, i + p@.len())[k as int] != p@[k as int]);
            return false;
        }
        k = k + 1;
    }
    assert(l@.subrange(i as int, i + p@.len()) =~= p@);
    true
}

/// A line break is removed from the end of each line, together with a carriage
/// return right before it.
pub open spec fn strip_cr(l: Seq<char>) -> Seq<char> {
    if l.len() > 0 && l.last() == '\r' {
        l.drop_last()
    } else {
        l
    }
}

/// The lines completed so far in `t`, and the line being read.
pub open spec fn scan_lines(t: Seq<char>) -> (Seq<Seq<char>>, Seq<char>)
    decreases t.len(),
{
    if t.len() == 0 {
        (seq![], seq![])
    } else {
        let (done, cur) = scan_lines(t.drop_last());
        if t.last() == '\n' {
            (done.push(strip_cr(cur)), seq![])
        } else {
            (done, cur.push(t.last()))
        }
    }
}

/// The lines of `t`: split at each `\n`, with a `\r` right before it dropped;
/// the last line needs no terminator, and an empty text has no lines.
pub open spec fn lines_of(t: Seq<char>) -> Seq<Seq<char>> {
    let (done, cur) = scan_lines(t);
    if cur.len() == 0 {
        done
    } else {
        done.push(cur)
    }
}

/// `s` holds no line break.
pub open spec fn no_nl(s: Seq<char>) -> bool {
    forall|i: int| 0 <= i < s.len() ==> s[i] != '\n'
}

proof fn lemma_scan_no_nl(t: Seq<char>)
    ensures
        forall|k: int| 0 <= k < scan_lines(t).0.len() ==> no_nl(#[trigger] scan_lines(t).0[k]),
        no_nl(scan_lines(t).1),
    decreases t.len(),
{
    if t.len() > 0 {
        lemma_scan_no_nl(t.drop_last());
        let (done, cur) = scan_lines(t.drop_last());
        if t.last() == '\n' {
            assert(no_nl(strip_cr(cur)));
            assert forall|k: int| 0 <= k < scan_lines(t).0.len() implies no_nl(
                #[trigger] scan_lines(t).0[k],
            ) by {
                if k < done.len() {
                    assert(scan_lines(t).0[k] == done[k]);
                }
            }
        } else {
            assert forall|i: int| 0 <= i < cur.push(t.last()).len() implies cur.push(t.last())[i]
                != '\n' by {
                if i < cur.len() {
                    assert(cur.push(t.last())[i] == cur[i]);
                }
            }
        }
    }
}

/// No line of a text holds a line break.
pub proof fn lemma_lines_no_nl(t: Seq<char>)
    ensures
        forall|k: int| 0 <= k < lines_of(t).len() ==> no_nl(#[trigger] lines_of(t)[k]),
{
    lemma_scan_no_nl(t);
    let (done, cur) = scan_lines(t);
    assert forall|k: int| 0 <= k < lines_of(t).len() implies no_nl(#[trigger] lines_of(t)[k]) by {
        if k < done.len() {
            assert(lines_of(t)[k] == done[k]);
        }
    }
}

/// The views of a sequence of character vectors.
pub open spec fn views(v: Seq<Vec<char>>) -> Seq<Seq<char>> {
    v.map_values(|x: Vec<char>| x@)
}

/// Splits `t` into its lines.
pub fn split_lines(t: &Vec<char>) -> (r: Vec<Vec<char>>)
    ensures
        views(r@) == lines_of(t@),
{
    let mut done: Vec<Vec<char>> = Vec::new();
    let mut cur: Vec<char> = Vec::new();
    let mut i: usize = 0;
    while i < t.len()
        invariant
            i <= t@.len(),
            (views(done@), cur@) == scan_lines(t@.subrange(0, i as int)),
        decreases t.len() - i,
    {
        let c = t[i];
        assert(t@.subrange(0, i + 1).drop_last() == t@.subrange(0, i as int));
        if c == '\n' {
            if cur.len() > 0 && cur[cur.len() - 1] == '\r' {
                cur.pop();
            }
            let line = cur;
            done.push(line);
            cur = Vec::new();
            assert(views(done@) =~= scan_lines(t@.subrange(0, i + 1)).0);
        } else {
            cur.push(c);
        }
        i = i + 1;
    }
    assert(t@.subrange(0, i as int) == t@);
    if cur.len() > 0 {
        done.push(cur);
        assert(views(done@) =~= lines_of(t@));
    }
    done
}

/// The decimal digit with value `d`.
pub open spec fn digit_char(d: int) -> char {
    seq!['0', '1', '2', '3', '4', '5', '6', '7', '8', '9'][d]
}

/// The decimal numeral of `n`, without leading zeros.
pub open spec fn decimal(n: nat) -> Seq<char>
    decreases n,
{
    if n < 10 {
        seq![digit_char(n as int)]
    } else {
        decimal(n / 10).push(digit_char((n % 10) as int))
    }
}

/// Appends the decimal numeral of `n`.
pub fn push_decimal(s: &mut String, n: usize)
    ensures
        final(s)@ == old(s)@ + decimal(n as nat),
    decreases n,
{
    let digits: [char; 10] = ['0', '1', '2', '3', '4', '5', '6', '7', '8', '9'];
    assert(digits@ =~= seq!['0', '1', '2', '3', '4', '5', '6', '7', '8', '9']);
    if n >= 10 {
        push_decimal(s, n / 10);
    }
    s.push(digits[n % 10]);
    assert(final(s)@ =~= old(s)@ + decimal(n as nat));
}

/// The parts, with `sep` between each two.
pub open spec fn join(parts: Seq<Seq<char>>, sep: Seq<char>) -> Seq<char>
    decreases parts.len(),
{
    if parts.len() == 0 {
        seq![]
    } else if parts.len() == 1 {
        parts[0]
    } else {
        join(parts.drop_last(), sep) + sep + parts.last()
    }
}

/// Joining one part more adds the separator, unless it is the first.
pub proof fn lemma_join_push(parts: Seq<Seq<char>>, sep: Seq<char>, x: Seq<char>)
    ensures
        join(parts.push(x), sep) == if parts.len() == 0 {
            x
        } else {
            join(parts, sep) + sep + x
        },
{
    assert(parts.push(x).drop_last() =~= parts);
}

} // verus!
