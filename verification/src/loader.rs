//! The lines of a Wavefront file: how a line is told from the next, which
//! lines are passed over, and what a face line says.
use vstd::prelude::*;

verus! {

/// The three vertices of a face, by their numbers in the file, counted from one.
#[derive(Clone, Copy, Debug, PartialEq, Eq, Structural)]
pub struct Triangle(pub u32, pub u32, pub u32);

/// The byte that ends a line.
pub const LINE_END: u8 = 10;

/// The byte `#`, which starts a comment line.
pub const COMMENT: u8 = 35;

/// The blank that stands between two numbers.
pub const BLANK: u8 = 32;

/// The byte `_`.
pub const UNDERSCORE: u8 = 95;

/// The letter `f`, which starts a face line.
pub const FACE: u8 = 102;

/// A blank, a tab, a carriage return or a line end.
pub open spec fn is_space(b: u8) -> bool {
    b == 32 || b == 9 || b == 13 || b == 10
}

/// One of the ten digits.
pub open spec fn is_digit(b: u8) -> bool {
    48 <= b <= 57
}

/// The first position from `at` on that holds no space.
pub open spec fn spaces_end(s: Seq<u8>, at: int) -> int
    decreases s.len() - at,
{
    if 0 <= at < s.len() && is_space(s[at]) {
        spaces_end(s, at + 1)
    } else {
        at
    }
}

/// The first position from `at` on that holds no underscore.
pub open spec fn underscores_end(s: Seq<u8>, at: int) -> int
    decreases s.len() - at,
{
    if 0 <= at < s.len() && s[at] == UNDERSCORE {
        underscores_end(s, at + 1)
    } else {
        at
    }
}

/// The end of the longest run from `at` on of digits, each followed by any
/// number of underscores.
pub open spec fn digits_end(s: Seq<u8>, at: int) -> int
    decreases s.len() - at, 0int,
{
    if 0 <= at < s.len() && is_digit(s[at]) {
        tail_end(s, at + 1)
    } else {
        at
    }
}

/// The end of a run of which the part before `at` ends in a digit or an
/// underscore: the underscores that follow are passed, then the run goes on.
pub open spec fn tail_end(s: Seq<u8>, at: int) -> int
    decreases s.len() - at, 1int,
{
    if 0 <= at < s.len() && s[at] == UNDERSCORE {
        tail_end(s, at + 1)
    } else {
        digits_end(s, at)
    }
}

/// Every position of `from..to` holds a digit.
pub open spec fn all_digits(s: Seq<u8>, from: int, to: int) -> bool {
    forall|i: int| from <= i < to ==> is_digit(#[trigger] s[i])
}

/// The number that the digits at the positions `from..to` write.
pub open spec fn number(s: Seq<u8>, from: int, to: int) -> int
    decreases to - from,
{
    if to <= from {
        0
    } else {
        number(s, from, to - 1) * 10 + (s[to - 1] - 48)
    }
}

/// The number at `at`, with the position behind it: a run of digits, each
/// followed by any number of underscores, is taken, and stands for a number
/// if it holds no underscore and the number fits 32 bits.
pub open spec fn spec_decimal(s: Seq<u8>, at: int) -> Option<(u32, usize)> {
    let end = digits_end(s, at);
    if 0 <= at < end && all_digits(s, at, end) && number(s, at, end) <= u32::MAX {
        Some((number(s, at, end) as u32, end as usize))
    } else {
        None
    }
}

/// The position behind `tag` with the spaces around it, if `tag` stands at
/// `at` behind any number of spaces.
pub open spec fn spec_after_tag(s: Seq<u8>, at: int, tag: Seq<u8>) -> Option<usize> {
    let start = spaces_end(s, at);
    if start + tag.len() <= s.len() && s.subrange(start, start + tag.len()) == tag {
        Some(spaces_end(s, start + tag.len()) as usize)
    } else {
        None
    }
}

/// Three numbers with one blank between each two, and the position behind them.
pub open spec fn spec_parse_triangle(s: Seq<u8>, at: int) -> Option<(Triangle, usize)> {
    match spec_decimal(s, at) {
        Some((t0, p)) => if p < s.len() && s[p as int] == BLANK {
            match spec_decimal(s, p + 1) {
                Some((t1, q)) => if q < s.len() && s[q as int] == BLANK {
                    match spec_decimal(s, q + 1) {
                        Some((t2, r)) => Some((Triangle(t0, t1, t2), r)),
                        None => None,
                    }
                } else {
                    None
                },
                None => None,
            }
        } else {
            None
        },
        None => None,
    }
}

/// What a face line says: the letter `f` with any spaces around it, then
/// three numbers. What follows them on the line is not read.
pub open spec fn spec_parse_face(s: Seq<u8>) -> Option<Triangle> {
    match spec_after_tag(s, 0, seq![FACE]) {
        Some(at) => match spec_parse_triangle(s, at as int) {
            Some((t, _)) => Some(t),
            None => None,
        },
        None => None,
    }
}

/// The end of the line that starts at `from`: the position of the next line
/// end, or the end of the text.
pub open spec fn spec_line_end(s: Seq<u8>, from: int) -> int
    decreases s.len() - from,
{
    if 0 <= from < s.len() && s[from] != LINE_END {
        spec_line_end(s, from + 1)
    } else {
        from
    }
}

/// Whether a line is passed over: an empty line, or one that starts with `#`.
pub open spec fn spec_skipped(line: Seq<u8>) -> bool {
    line.len() == 0 || line[0] == COMMENT
}

fn skip_spaces(input: &[u8], at: usize) -> (r: usize)
    requires
        at <= input@.len(),
    ensures
        r == spaces_end(input@, at as int),
        at <= r <= input@.len(),
{
    let mut i: usize = at;
    while i < input.len() && (input[i] == 32 || input[i] == 9 || input[i] == 13 || input[i] == 10)
        invariant
            at <= i <= input@.len(),
            spaces_end(input@, i as int) == spaces_end(input@, at as int),
        decreases input@.len() - i,
    {
        i += 1;
    }
    i
}

/// Reads the number at position `at`.
pub fn decimal(input: &[u8], at: usize) -> (r: Option<(u32, usize)>)
    requires
        at <= input@.len(),
    ensures
        r == spec_decimal(input@, at as int),
        r matches Some((_, next)) ==> at < next <= input@.len(),
{
    let len: usize = input.len();
    let mut i: usize = at;
    let mut value: u64 = 0;
    let mut plain: bool = true;
    let mut fits: bool = true;
    while i < len && 48 <= input[i] && input[i] <= 57
        invariant
            len == input@.len(),
            at <= i <= len,
            digits_end(input@, i as int) == digits_end(input@, at as int),
            plain == all_digits(input@, at as int, i as int),
            plain ==> number(input@, at as int, i as int) >= 0,
            plain && fits ==> value == number(input@, at as int, i as int),
            value <= u32::MAX,
            plain && !fits ==> number(input@, at as int, i as int) > u32::MAX,
        decreases len - i,
    {
        let ghost before = i;
        if fits {
            let next: u64 = value * 10 + (input[i] - 48) as u64;
            if next > 0xffff_ffff {
                fits = false;
            } else {
                value = next;
            }
        }
        i += 1;
        while i < len && input[i] == UNDERSCORE
            invariant
                len == input@.len(),
                at <= before < i <= len,
                tail_end(input@, i as int) == digits_end(input@, at as int),
                plain == all_digits(input@, at as int, i as int),
                plain ==> number(input@, at as int, i as int) >= 0,
                plain && fits ==> value == number(input@, at as int, i as int),
                value <= u32::MAX,
                plain && !fits ==> number(input@, at as int, i as int) > u32::MAX,
            decreases len - i,
        {
            assert(!is_digit(input@[i as int]));
            plain = false;
            i += 1;
        }
    }
    if at < i && plain && fits {
        Some((value as u32, i))
    } else {
        None
    }
}

/// Passes the spaces at `at`, then `tag`, then the spaces behind it.
pub fn after_tag(input: &[u8], at: usize, tag: &[u8]) -> (r: Option<usize>)
    requires
        at <= input@.len(),
    ensures
        r == spec_after_tag(input@, at as int, tag@),
        r matches Some(next) ==> at <= next <= input@.len(),
{
    let start: usize = skip_spaces(input, at);
    let count: usize = tag.len();
    let len: usize = input.len();
    if count > len - start {
        return None;
    }
    let mut i: usize = 0;
    while i < count
        invariant
            i <= count,
            count == tag@.len(),
            len == input@.len(),
            start + count <= len,
            start == spaces_end(input@, at as int),
            input@.subrange(start as int, start + i) == tag@.subrange(0, i as int),
        decreases count - i,
    {
        if input[start + i] != tag[i] {
            proof {
                let whole = input@.subrange(start as int, start + count);
                assert(whole[i as int] != tag@[i as int]);
            }
            return None;
        }
        proof {
            assert(input@.subrange(start as int, start + i + 1) =~= input@.subrange(
                start as int,
                start + i,
            ).push(input@[start + i]));
            assert(tag@.subrange(0, i + 1) =~= tag@.subrange(0, i as int).push(tag@[i as int]));
        }
        i += 1;
    }
    proof {
        assert(tag@.subrange(0, count as int) =~= tag@);
    }
    Some(skip_spaces(input, start + count))
}

/// Reads three numbers with one blank between each two.
pub fn parse_triangle(input: &[u8], at: usize) -> (r: Option<(Triangle, usize)>)
    requires
        at <= input@.len(),
    ensures
        r == spec_parse_triangle(input@, at as int),
{
    let Some((t0, p)) = decimal(input, at) else {
        return None;
    };
    if p >= input.len() || input[p] != BLANK {
        return None;
    }
    let Some((t1, q)) = decimal(input, p + 1) else {
        return None;
    };
    if q >= input.len() || input[q] != BLANK {
        return None;
    }
    let Some((t2, r)) = decimal(input, q + 1) else {
        return None;
    };
    Some((Triangle(t0, t1, t2), r))
}

/// Reads a face line.
pub fn parse_face(line: &[u8]) -> (r: Option<Triangle>)
    ensures
        r == spec_parse_face(line@),
{
    let tag: [u8; 1] = [FACE];
    let found = after_tag(line, 0, tag.as_slice());
    proof {
        assert(tag@ =~= seq![FACE]);
    }
    match found {
        Some(at) => match parse_triangle(line, at) {
            Some((t, _)) => Some(t),
            None => None,
        },
        None => None,
    }
}

/// Finds the end of the line that starts at `from`.
pub fn line_end(text: &[u8], from: usize) -> (r: usize)
    requires
        from <= text@.len(),
    ensures
        r == spec_line_end(text@, from as int),
        from <= r <= text@.len(),
{
    let mut i: usize = from;
    while i < text.len() && text[i] != LINE_END
        invariant
            from <= i <= text@.len(),
            spec_line_end(text@, i as int) == spec_line_end(text@, from as int),
        decreases text@.len() - i,
    {
        i += 1;
    }
    i
}

/// Whether a line is passed over.
pub fn skipped(line: &[u8]) -> (r: bool)
    ensures
        r == spec_skipped(line@),
{
    line.len() == 0 || line[0] == COMMENT
}

} // verus!
