use vstd::prelude::*;

verus! {

/// ASCII whitespace, as `u8::is_ascii_whitespace` defines it.
pub open spec fn is_ws(c: char) -> bool {
    c == ' ' || c == '\t' || c == '\n' || c == '\x0C' || c == '\r'
}

/// The text with leading ASCII whitespace removed.
pub open spec fn trim_start(s: Seq<char>) -> Seq<char>
    decreases s.len(),
{
    if s.len() > 0 && is_ws(s[0]) {
        trim_start(s.drop_first())
    } else {
        s
    }
}

/// The text with trailing ASCII whitespace removed.
pub open spec fn trim_end(s: Seq<char>) -> Seq<char>
    decreases s.len(),
{
    if s.len() > 0 && is_ws(s.last()) {
        trim_end(s.drop_last())
    } else {
        s
    }
}

/// Whitespace as `char::is_whitespace` has it: the Unicode `White_Space` property.
pub open spec fn is_space(c: char) -> bool {
    let u = c as u32;
    ||| 0x09 <= u <= 0x0D
    ||| u == 0x20
    ||| u == 0x85
    ||| u == 0xA0
    ||| u == 0x1680
    ||| 0x2000 <= u <= 0x200A
    ||| u == 0x2028
    ||| u == 0x2029
    ||| u == 0x202F
    ||| u == 0x205F
    ||| u == 0x3000
}

/// The text with trailing whitespace, in the Unicode sense, removed.
pub open spec fn trim_end_space(s: Seq<char>) -> Seq<char>
    decreases s.len(),
{
    if s.len() > 0 && is_space(s.last()) {
        trim_end_space(s.drop_last())
    } else {
        s
    }
}

/// The line holds nothing but whitespace, in the Unicode sense.
pub open spec fn is_blank_line(s: Seq<char>) -> bool {
    forall|j: int| 0 <= j < s.len() ==> is_space(#[trigger] s[j])
}

pub fn is_space_char(c: char) -> (r: bool)
    ensures
        r == is_space(c),
{
    let u = c as u32;
    (0x09 <= u && u <= 0x0D) || u == 0x20 || u == 0x85 || u == 0xA0 || u == 0x1680 || (0x2000
        <= u && u <= 0x200A) || u == 0x2028 || u == 0x2029 || u == 0x202F || u == 0x205F || u
        == 0x3000
}

/// The text with ASCII whitespace removed from both ends.
pub open spec fn trim(s: Seq<char>) -> Seq<char> {
    trim_end(trim_start(s))
}

pub fn is_ws_char(c: char) -> (r: bool)
    ensures
        r == is_ws(c),
{
    c == ' ' || c == '\t' || c == '\n' || c == '\x0C' || c == '\r'
}

/// Where the trimmed text starts and ends.
pub fn trim_bounds(s: &Vec<char>) -> (r: (usize, usize))
    ensures
        r.0 <= r.1 <= s.len(),
        trim(s@) == s@.subrange(r.0 as int, r.1 as int),
{
    let n = s.len();
    let mut a: usize = 0;
    proof {
        assert(s@ =~= s@.subrange(0, n as int));
    }
    while a < n && is_ws_char(s[a])
        invariant
            a <= n == s.len(),
            trim_start(s@) == trim_start(s@.subrange(a as int, n as int)),
        decreases n - a,
    {
        proof {
            assert(s@.subrange(a + 1, n as int) =~= s@.subrange(a as int, n as int).drop_first());
        }
        a = a + 1;
    }
    let mut b: usize = n;
    while b > a && is_ws_char(s[b - 1])
        invariant
            a <= b <= n == s.len(),
            trim_end(s@.subrange(a as int, n as int)) == trim_end(s@.subrange(a as int, b as int)),
        decreases b,
    {
        proof {
            assert(s@.subrange(a as int, b - 1) =~= s@.subrange(a as int, b as int).drop_last());
        }
        b = b - 1;
    }
    (a, b)
}

/// The text with trailing whitespace (in the Unicode sense) removed.
pub fn trim_end_of(s: &Vec<char>) -> (r: Vec<char>)
    ensures
        r@ == trim_end_space(s@),
{
    let mut b: usize = s.len();
    proof {
        assert(s@ =~= s@.subrange(0, s.len() as int));
    }
    while b > 0 && is_space_char(s[b - 1])
        invariant
            b <= s.len(),
            trim_end_space(s@) == trim_end_space(s@.subrange(0, b as int)),
        decreases b,
    {
        proof {
            assert(s@.subrange(0, b - 1) =~= s@.subrange(0, b as int).drop_last());
        }
        b = b - 1;
    }
    proof {
        assert(s@ =~= s@.subrange(0, s.len() as int));
    }
    copy_range(s, 0, b)
}

/// Whether the two texts are equal once each is trimmed.
pub fn trimmed_equal(x: &Vec<char>, y: &Vec<char>) -> (r: bool)
    ensures
        r == (trim(x@) == trim(y@)),
{
    let (xa, xb) = trim_bounds(x);
    let (ya, yb) = trim_bounds(y);
    if xb - xa != yb - ya {
        proof {
            assert(trim(x@).len() != trim(y@).len());
        }
        return false;
    }
    let mut i: usize = 0;
    while i < xb - xa
        invariant
            xa <= xb <= x.len(),
            ya <= yb <= y.len(),
            xb - xa == yb - ya,
            i <= xb - xa,
            trim(x@) == x@.subrange(xa as int, xb as int),
            trim(y@) == y@.subrange(ya as int, yb as int),
            x@.subrange(xa as int, xa + i) == y@.subrange(ya as int, ya + i),
        decreases xb - xa - i,
    {
        if x[xa + i] != y[ya + i] {
            proof {
                assert(x@.subrange(xa as int, xb as int)[i as int] != y@.subrange(
                    ya as int,
                    yb as int,
                )[i as int]);
                assert(trim(x@)[i as int] != trim(y@)[i as int]);
            }
            return false;
        }
        proof {
            assert(x@.subrange(xa as int, xa + i + 1) =~= x@.subrange(xa as int, xa + i).push(
                x@[xa + i],
            ));
            assert(y@.subrange(ya as int, ya + i + 1) =~= y@.subrange(ya as int, ya + i).push(
                y@[ya + i],
            ));
        }
        i = i + 1;
    }
    proof {
        assert(x@.subrange(xa as int, xb as int) =~= y@.subrange(ya as int, yb as int));
    }
    true
}

/// Whether the line holds nothing but whitespace, in the Unicode sense.
pub fn is_blank(s: &Vec<char>) -> (r: bool)
    ensures
        r == is_blank_line(s@),
{
    let mut i: usize = 0;
    while i < s.len()
        invariant
            i <= s.len(),
            forall|j: int| 0 <= j < i ==> is_space(#[trigger] s@[j]),
        decreases s.len() - i,
    {
        if !is_space_char(s[i]) {
            return false;
        }
        i = i + 1;
    }
    true
}

/// A copy of the characters in `[from, to)`.
pub fn copy_range(s: &Vec<char>, from: usize, to: usize) -> (r: Vec<char>)
    requires
        from <= to <= s.len(),
    ensures
        r@ == s@.subrange(from as int, to as int),
{
    let mut r: Vec<char> = Vec::new();
    append_range(&mut r, s, from, to);
    r
}

/// Appends the characters of `s` in `[from, to)` to `out`.
pub fn append_range(out: &mut Vec<char>, s: &Vec<char>, from: usize, to: usize)
    requires
        from <= to <= s.len(),
    ensures
        final(out)@ == old(out)@ + s@.subrange(from as int, to as int),
{
    let mut i: usize = from;
    while i < to
        invariant
            from <= i <= to <= s.len(),
            out@ == old(out)@ + s@.subrange(from as int, i as int),
        decreases to - i,
    {
        out.push(s[i]);
        proof {
            assert(s@.subrange(from as int, i + 1) =~= s@.subrange(from as int, i as int).push(
                s@[i as int],
            ));
        }
        i = i + 1;
    }
}

/// Appends all of `s`, then a line feed, to `out`.
pub fn append_line(out: &mut Vec<char>, s: &Vec<char>)
    ensures
        final(out)@ == old(out)@ + s@.push('\n'),
{
    append_range(out, s, 0, s.len());
    out.push('\n');
    proof {
        assert(s@.subrange(0, s.len() as int) =~= s@);
        assert(old(out)@ + s@ + seq!['\n'] =~= old(out)@ + s@.push('\n'));
    }
}

/// The lines of a text: the pieces between line feeds, in order. Like
/// `str::split('\n')`, an empty text has one empty line and a text that ends in a
/// line feed has an empty last line.
pub open spec fn split_lines(s: Seq<char>) -> Seq<Seq<char>>
    decreases s.len(),
{
    if s.len() == 0 {
        seq![Seq::<char>::empty()]
    } else {
        let prev = split_lines(s.drop_last());
        if s.last() == '\n' {
            prev.push(Seq::<char>::empty())
        } else {
            prev.update(prev.len() - 1, prev.last().push(s.last()))
        }
    }
}

pub proof fn lemma_split_lines_nonempty(s: Seq<char>)
    ensures
        split_lines(s).len() >= 1,
    decreases s.len(),
{
    if s.len() > 0 {
        lemma_split_lines_nonempty(s.drop_last());
    }
}

/// The texts that a vector of character vectors holds.
pub open spec fn views(v: Seq<Vec<char>>) -> Seq<Seq<char>> {
    v.map_values(|l: Vec<char>| l@)
}

/// Splits a text into its lines.
pub fn split_text_lines(s: &Vec<char>) -> (r: Vec<Vec<char>>)
    ensures
        views(r@) == split_lines(s@),
{
    let mut lines: Vec<Vec<char>> = Vec::new();
    let mut cur: Vec<char> = Vec::new();
    let mut i: usize = 0;
    while i < s.len()
        invariant
            i <= s.len(),
            views(lines@).push(cur@) == split_lines(s@.take(i as int)),
        decreases s.len() - i,
    {
        let c = s[i];
        proof {
            assert(s@.take(i + 1).drop_last() == s@.take(i as int));
            assert(s@.take(i + 1).last() == c);
        }
        if c == '\n' {
            let ghost before = views(lines@);
            let done = cur;
            lines.push(done);
            cur = Vec::new();
            proof {
                assert(views(lines@) =~= before.push(done@));
                assert(views(lines@).push(cur@) =~= before.push(done@).push(Seq::empty()));
            }
        } else {
            let ghost old_cur = cur@;
            cur.push(c);
            proof {
                assert(views(lines@).push(cur@) =~= views(lines@).push(old_cur).update(
                    views(lines@).len() as int,
                    old_cur.push(c),
                ));
            }
        }
        i = i + 1;
    }
    proof {
        assert(s@.take(s.len() as int) == s@);
    }
    let ghost before = views(lines@);
    lines.push(cur);
    proof {
        assert(views(lines@) =~= before.push(cur@));
    }
    lines
}

/// Relies on `String::push`: it appends the one character to the string.
pub assume_specification[ String::push ](s: &mut String, ch: char)
    ensures
        final(s)@ == old(s)@.push(ch),
;

/// The characters of a string slice, in order.
pub fn chars_of(s: &str) -> (r: Vec<char>)
    ensures
        r@ == s@,
{
    let mut r: Vec<char> = Vec::new();
    for c in it: s.chars()
        invariant
            r@ == it.seq().take(it.index() as int),
            it.seq() == s@,
    {
        r.push(c);
    }
    r
}

/// A string that holds the given characters.
pub fn string_of(v: &Vec<char>) -> (r: String)
    ensures
        r@ == v@,
{
    let mut r = String::new();
    let mut i: usize = 0;
    while i < v.len()
        invariant
            i <= v.len(),
            r@ == v@.take(i as int),
        decreases v.len() - i,
    {
        r.push(v[i]);
        proof {
            assert(v@.take(i + 1) == v@.take(i as int).push(v@[i as int]));
        }
        i = i + 1;
    }
    proof {
        assert(v@.take(v.len() as int) == v@);
    }
    r
}

} // verus!
