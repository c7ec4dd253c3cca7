//! Character-level helpers: whitespace trimming and comma-separated lists.

use vstd::prelude::*;

verus! {

/// Whether a character has the Unicode `White_Space` property, as
/// `char::is_whitespace` tests it.
pub open spec fn white_space(c: char) -> bool {
    let u = c as u32;
    ||| 0x9 <= u <= 0xd
    ||| u == 0x20
    ||| u == 0x85
    ||| u == 0xa0
    ||| u == 0x1680
    ||| 0x2000 <= u <= 0x200a
    ||| u == 0x2028
    ||| u == 0x2029
    ||| u == 0x202f
    ||| u == 0x205f
    ||| u == 0x3000
}

fn is_whitespace(c: char) -> (r: bool)
    ensures
        r == white_space(c),
{
    let u = c as u32;
    (0x9 <= u && u <= 0xd) || u == 0x20 || u == 0x85 || u == 0xa0 || u == 0x1680 || (0x2000 <= u
        && u <= 0x200a) || u == 0x2028 || u == 0x2029 || u == 0x202f || u == 0x205f || u == 0x3000
}

/// The characters of the string, in order.
pub(crate) fn chars_of(s: &String) -> (r: Vec<char>)
    ensures
        r@ == s@,
{
    let mut out: Vec<char> = Vec::new();
    for c in it: s.as_str().chars()
        invariant
            out@ == it.history(),
    {
        out.push(c);
    }
    out
}

/// Relies on `String`'s `FromIterator<&char>`: a string made of exactly these characters.
#[verifier::external_body]
pub(crate) fn string_of(cs: &Vec<char>) -> (r: String)
    ensures
        r@ == cs@,
{
    cs.iter().collect()
}

/// The views of a sequence of strings.
pub open spec fn views(v: Seq<String>) -> Seq<Seq<char>> {
    v.map_values(|s: String| s@)
}

/// `s` without its leading whitespace.
pub open spec fn trim_start(s: Seq<char>) -> Seq<char>
    decreases s.len(),
{
    if s.len() > 0 && white_space(s[0]) {
        trim_start(s.drop_first())
    } else {
        s
    }
}

/// `s` without its trailing whitespace.
pub open spec fn trim_end(s: Seq<char>) -> Seq<char>
    decreases s.len(),
{
    if s.len() > 0 && white_space(s.last()) {
        trim_end(s.drop_last())
    } else {
        s
    }
}

/// `s` without leading and trailing whitespace.
pub open spec fn trim(s: Seq<char>) -> Seq<char> {
    trim_end(trim_start(s))
}

/// The pieces of `s` between commas, in order; `n` commas give `n + 1` pieces.
pub open spec fn split_commas(s: Seq<char>) -> Seq<Seq<char>>
    decreases s.len(),
{
    if s.len() == 0 {
        seq![Seq::empty()]
    } else {
        let p = split_commas(s.drop_last());
        if s.last() == ',' {
            p.push(Seq::empty())
        } else {
            p.update(p.len() - 1, p.last().push(s.last()))
        }
    }
}

/// The state names that one comma-separated argument lists: each piece
/// trimmed, empty pieces left out.
pub open spec fn state_list(s: Seq<char>) -> Seq<Seq<char>> {
    split_commas(s).map_values(|p: Seq<char>| trim(p)).filter(|t: Seq<char>| t.len() > 0)
}

proof fn lemma_split_nonempty(s: Seq<char>)
    ensures
        split_commas(s).len() >= 1,
    decreases s.len(),
{
    if s.len() > 0 {
        lemma_split_nonempty(s.drop_last());
    }
}

/// The characters of `cs` from `lo` up to `hi`, trimmed.
fn trimmed(cs: &Vec<char>, lo: usize, hi: usize) -> (r: Vec<char>)
    requires
        lo <= hi <= cs@.len(),
    ensures
        r@ == trim(cs@.subrange(lo as int, hi as int)),
{
    let mut i = lo;
    while i < hi && is_whitespace(cs[i])
        invariant
            lo <= i <= hi <= cs@.len(),
            trim_start(cs@.subrange(lo as int, hi as int)) == trim_start(
                cs@.subrange(i as int, hi as int),
            ),
        decreases hi - i,
    {
        assert(cs@.subrange(i as int, hi as int).drop_first() =~= cs@.subrange(
            i + 1,
            hi as int,
        ));
        i = i + 1;
    }
    let mut j = hi;
    while j > i && is_whitespace(cs[j - 1])
        invariant
            i <= j <= hi <= cs@.len(),
            trim_end(cs@.subrange(i as int, hi as int)) == trim_end(
                cs@.subrange(i as int, j as int),
            ),
        decreases j - i,
    {
        assert(cs@.subrange(i as int, j as int).drop_last() =~= cs@.subrange(
            i as int,
            j - 1,
        ));
        j = j - 1;
    }
    let mut r: Vec<char> = Vec::new();
    let mut k = i;
    while k < j
        invariant
            i <= k <= j <= cs@.len(),
            r@ =~= cs@.subrange(i as int, k as int),
        decreases j - k,
    {
        r.push(cs[k]);
        k = k + 1;
    }
    r
}

/// Splits one `--state` argument on commas, trims each piece and drops the
/// empty ones: `"a, b,,c"` lists `a`, `b` and `c`.
pub fn parse_state_arg(arg: &String) -> (r: Vec<String>)
    ensures
        views(r@) == state_list(arg@),
{
    let cs = chars_of(arg);
    let n = cs.len();
    let mut out: Vec<String> = Vec::new();
    let mut start: usize = 0;
    let mut i: usize = 0;
    proof {
        lemma_split_nonempty(cs@.take(0));
        assert(cs@.take(0) =~= Seq::<char>::empty());
        reveal(Seq::filter);
        assert(split_commas(cs@.take(0)).drop_last() =~= Seq::<Seq<char>>::empty());
    }
    while i < n
        invariant
            n == cs@.len(),
            start <= i <= n,
            split_commas(cs@.take(i as int)).len() >= 1,
            split_commas(cs@.take(i as int)).last() == cs@.subrange(start as int, i as int),
            views(out@) == split_commas(cs@.take(i as int)).drop_last().map_values(
                |p: Seq<char>| trim(p),
            ).filter(|t: Seq<char>| t.len() > 0),
        decreases n - i,
    {
        let ghost pieces = split_commas(cs@.take(i as int));
        assert(cs@.take(i + 1).drop_last() =~= cs@.take(i as int));
        if cs[i] == ',' {
            let piece = trimmed(&cs, start, i);
            proof {
                let np = split_commas(cs@.take(i + 1));
                assert(np == pieces.push(Seq::empty()));
                assert(np.drop_last() =~= pieces);
                let f = |p: Seq<char>| trim(p);
                assert(pieces.map_values(f).drop_last() =~= pieces.drop_last().map_values(f));
                reveal(Seq::filter);
            }
            if piece.len() > 0 {
                out.push(string_of(&piece));
            }
            start = i + 1;
            proof {
                assert(views(out@) =~= split_commas(cs@.take(i + 1)).drop_last().map_values(
                    |p: Seq<char>| trim(p),
                ).filter(|t: Seq<char>| t.len() > 0));
                assert(split_commas(cs@.take(i + 1)).last() =~= cs@.subrange(
                    start as int,
                    i + 1,
                ));
            }
        } else {
            proof {
                let np = split_commas(cs@.take(i + 1));
                assert(np == pieces.update(pieces.len() - 1, pieces.last().push(cs@[i as int])));
                assert(np.drop_last() =~= pieces.drop_last());
                assert(np.last() =~= cs@.subrange(start as int, i + 1));
            }
        }
        i = i + 1;
    }
    let piece = trimmed(&cs, start, n);
    let ghost pieces = split_commas(cs@.take(n as int));
    proof {
        assert(cs@.take(n as int) =~= cs@);
        let f = |p: Seq<char>| trim(p);
        assert(pieces.map_values(f).drop_last() =~= pieces.drop_last().map_values(f));
        reveal(Seq::filter);
    }
    if piece.len() > 0 {
        out.push(string_of(&piece));
    }
    proof {
        assert(views(out@) =~= state_list(arg@));
    }
    out
}

} // verus!
