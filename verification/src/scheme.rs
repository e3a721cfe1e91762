use vstd::prelude::*;

verus! {

/// A line the compiler ignores everywhere: it begins with the comment
/// marker `-- `.
pub open spec fn comment_line(l: Seq<char>) -> bool {
    l.len() >= 3 && l[0] == '-' && l[1] == '-' && l[2] == ' '
}

/// A separator line: exactly `----`.
pub open spec fn sep_line(l: Seq<char>) -> bool {
    l.len() == 4 && l[0] == '-' && l[1] == '-' && l[2] == '-' && l[3] == '-'
}

/// A non-empty line of decimal digits.
pub open spec fn digits_line(l: Seq<char>) -> bool {
    l.len() > 0 && forall|i: int| 0 <= i < l.len() ==> 0x30 <= (#[trigger] l[i]) as u32 <= 0x39
}

/// The number a digit line denotes.
pub open spec fn digits_val(l: Seq<char>) -> nat
    decreases l.len(),
{
    if l.len() == 0 {
        0
    } else {
        digits_val(l.drop_last()) * 10 + ((l.last() as u32 - 0x30) as nat)
    }
}

/// The lines after the first separator; everything before it is
/// documentation or comment and is skipped alike.
pub open spec fn past_sep(ls: Seq<Vec<char>>) -> Option<Seq<Vec<char>>>
    decreases ls.len(),
{
    if ls.len() == 0 {
        None
    } else if sep_line(ls.first()@) {
        Some(ls.drop_first())
    } else {
        past_sep(ls.drop_first())
    }
}

/// The first non-comment line and the lines after it.
pub open spec fn next_content(ls: Seq<Vec<char>>) -> Option<(Seq<char>, Seq<Vec<char>>)>
    decreases ls.len(),
{
    if ls.len() == 0 {
        None
    } else if comment_line(ls.first()@) {
        next_content(ls.drop_first())
    } else {
        Some((ls.first()@, ls.drop_first()))
    }
}

/// The concatenated characters of the non-comment lines before the first
/// separator: the initial-alphabet block.
pub open spec fn block_chars(ls: Seq<Vec<char>>) -> Seq<char>
    decreases ls.len(),
{
    if ls.len() == 0 {
        Seq::empty()
    } else if comment_line(ls.first()@) {
        block_chars(ls.drop_first())
    } else if sep_line(ls.first()@) {
        Seq::empty()
    } else {
        ls.first()@ + block_chars(ls.drop_first())
    }
}

/// The lines after the first non-comment separator, if any; else nothing.
pub open spec fn rest_after_block(ls: Seq<Vec<char>>) -> Seq<Vec<char>>
    decreases ls.len(),
{
    if ls.len() == 0 {
        Seq::empty()
    } else if comment_line(ls.first()@) {
        rest_after_block(ls.drop_first())
    } else if sep_line(ls.first()@) {
        ls.drop_first()
    } else {
        rest_after_block(ls.drop_first())
    }
}

/// The concatenated characters of all remaining non-comment lines: the
/// finalization-alphabet block, which no further separator ends.
pub open spec fn tail_chars(ls: Seq<Vec<char>>) -> Seq<char>
    decreases ls.len(),
{
    if ls.len() == 0 {
        Seq::empty()
    } else if comment_line(ls.first()@) {
        tail_chars(ls.drop_first())
    } else {
        ls.first()@ + tail_chars(ls.drop_first())
    }
}

/// Parsing state after the first separator: the next content line must be
/// the decimal symbol count.
pub open spec fn parse_from_size(ls: Seq<Vec<char>>) -> Option<(nat, Seq<char>, Seq<char>)> {
    match next_content(ls) {
        None => None,
        Some((num, rest)) => if digits_line(num) && digits_val(num) <= usize::MAX {
            parse_from_sep(rest, digits_val(num))
        } else {
            None
        },
    }
}

/// Parsing state after the symbol count: the next content line must be a
/// separator, then come the two character blocks.
pub open spec fn parse_from_sep(ls: Seq<Vec<char>>, size: nat) -> Option<(nat, Seq<char>, Seq<char>)> {
    match next_content(ls) {
        None => None,
        Some((l, body)) => if sep_line(l) {
            Some((size, block_chars(body), tail_chars(rest_after_block(body))))
        } else {
            None
        },
    }
}

/// What a scheme definition's lines denote: the declared symbol count, the
/// initial block's characters and the finalization block's characters, or
/// nothing when the layout is malformed.
pub open spec fn parse_def(ls: Seq<Vec<char>>) -> Option<(nat, Seq<char>, Seq<char>)> {
    match past_sep(ls) {
        None => None,
        Some(rest) => parse_from_size(rest),
    }
}

/// A digit prefix never denotes more than the whole line.
proof fn lemma_digits_prefix(l: Seq<char>, j: int)
    requires
        0 <= j <= l.len(),
    ensures
        digits_val(l.take(j)) <= digits_val(l),
    decreases l.len(),
{
    if j < l.len() {
        assert(l.drop_last().take(j) =~= l.take(j));
        lemma_digits_prefix(l.drop_last(), j);
    } else {
        assert(l.take(j) =~= l);
    }
}

/// Read a non-empty all-decimal line as a number, if it fits.
fn parse_digits(l: &Vec<char>) -> (r: Option<usize>)
    ensures
        match r {
            Some(v) => digits_line(l@) && digits_val(l@) == v as nat,
            None => !(digits_line(l@) && digits_val(l@) <= usize::MAX),
        },
{
    if l.len() == 0 {
        return None;
    }
    let mut v: usize = 0;
    let mut i: usize = 0;
    while i < l.len()
        invariant
            i <= l@.len(),
            v as nat == digits_val(l@.take(i as int)),
            forall|j: int| 0 <= j < i ==> 0x30 <= (#[trigger] l@[j]) as u32 <= 0x39,
        decreases l@.len() - i,
    {
        let cu = l[i] as u32;
        if cu < 0x30 || cu > 0x39 {
            return None;
        }
        let d = (cu - 0x30) as usize;
        proof {
            assert(l@.take(i + 1).drop_last() =~= l@.take(i as int));
            assert(l@.take(i + 1).last() == l@[i as int]);
            vstd::arithmetic::div_mod::lemma_fundamental_div_mod(usize::MAX - d, 10);
        }
        if v > (usize::MAX - d) / 10 {
            proof {
                lemma_digits_prefix(l@, i + 1);
            }
            return None;
        }
        v = v * 10 + d;
        i = i + 1;
    }
    proof {
        assert(l@.take(l@.len() as int) =~= l@);
    }
    Some(v)
}

/// Whether a line is exactly the separator `----`.
fn is_sep(l: &Vec<char>) -> (r: bool)
    ensures
        r == sep_line(l@),
{
    l.len() == 4 && l[0] == '-' && l[1] == '-' && l[2] == '-' && l[3] == '-'
}

/// Whether a line begins with the comment marker `-- `.
fn is_comment(l: &Vec<char>) -> (r: bool)
    ensures
        r == comment_line(l@),
{
    l.len() >= 3 && l[0] == '-' && l[1] == '-' && l[2] == ' '
}

/// Parse the lines of a scheme definition: documentation, a separator, the
/// decimal symbol count, a separator, the initial block, and optionally a
/// separator and the finalization block, with comment lines ignored
/// everywhere. Returns the declared size and the two character blocks,
/// ready for the table compiler, or nothing when the layout is malformed.
pub fn parse_scheme(lines: &Vec<Vec<char>>) -> (r: Option<(usize, Vec<char>, Vec<char>)>)
    ensures
        ({
            let p = parse_def(lines@);
            match r {
                Some(out) => p == Some((out.0 as nat, out.1@, out.2@)),
                None => p is None,
            }
        }),
{
    let n: usize = lines.len();
    proof {
        assert(lines@.skip(0) =~= lines@);
    }
    // Documentation: skip to the first separator.
    let mut i: usize = 0;
    while i < n && !is_sep(&lines[i])
        invariant
            i <= n,
            n == lines@.len(),
            parse_def(lines@) == match past_sep(lines@.skip(i as int)) {
                None => None,
                Some(rest) => parse_from_size(rest),
            },
        decreases n - i,
    {
        proof {
            assert(lines@.skip(i as int).drop_first() =~= lines@.skip(i + 1));
        }
        i = i + 1;
    }
    if i == n {
        return None;
    }
    proof {
        assert(lines@.skip(i as int).drop_first() =~= lines@.skip(i + 1));
    }
    // The declared symbol count: the next content line.
    let mut i: usize = i + 1;
    while i < n && is_comment(&lines[i])
        invariant
            i <= n,
            n == lines@.len(),
            parse_def(lines@) == parse_from_size(lines@.skip(i as int)),
        decreases n - i,
    {
        proof {
            assert(lines@.skip(i as int).drop_first() =~= lines@.skip(i + 1));
        }
        i = i + 1;
    }
    if i == n {
        return None;
    }
    proof {
        assert(lines@.skip(i as int).drop_first() =~= lines@.skip(i + 1));
    }
    let size: usize = match parse_digits(&lines[i]) {
        Some(v) => v,
        None => {
            return None;
        },
    };
    // The second separator: the next content line.
    let mut i: usize = i + 1;
    while i < n && is_comment(&lines[i])
        invariant
            i <= n,
            n == lines@.len(),
            parse_def(lines@) == parse_from_sep(lines@.skip(i as int), size as nat),
        decreases n - i,
    {
        proof {
            assert(lines@.skip(i as int).drop_first() =~= lines@.skip(i + 1));
        }
        i = i + 1;
    }
    if i == n {
        return None;
    }
    if !is_sep(&lines[i]) {
        return None;
    }
    proof {
        assert(lines@.skip(i as int).drop_first() =~= lines@.skip(i + 1));
    }
    // The initial block: content lines up to a separator or the end.
    let mut i: usize = i + 1;
    let mut init: Vec<char> = Vec::new();
    while i < n && !is_sep(&lines[i])
        invariant
            i <= n,
            n == lines@.len(),
            parse_def(lines@) == Some(
                (
                    size as nat,
                    init@ + block_chars(lines@.skip(i as int)),
                    tail_chars(rest_after_block(lines@.skip(i as int))),
                ),
            ),
        decreases n - i,
    {
        proof {
            assert(lines@.skip(i as int).drop_first() =~= lines@.skip(i + 1));
            assert(lines@.skip(i as int).first() == lines@[i as int]);
        }
        if !is_comment(&lines[i]) {
            let line = &lines[i];
            let ghost init0 = init@;
            let mut q: usize = 0;
            while q < line.len()
                invariant
                    q <= line@.len(),
                    init@ == init0 + line@.take(q as int),
                    i < n,
                    n == lines@.len(),
                    line@ == lines@[i as int]@,
                    !comment_line(line@),
                    !sep_line(line@),
                    parse_def(lines@) == Some(
                        (
                            size as nat,
                            init0 + block_chars(lines@.skip(i as int)),
                            tail_chars(rest_after_block(lines@.skip(i as int))),
                        ),
                    ),
                decreases line@.len() - q,
            {
                proof {
                    assert(init@.push(line@[q as int]) =~= init0 + line@.take(q + 1));
                }
                init.push(line[q]);
                q = q + 1;
            }
            proof {
                assert(line@.take(line@.len() as int) =~= line@);
                assert(lines@.skip(i as int).drop_first() =~= lines@.skip(i + 1));
                assert(init0 + (line@ + block_chars(lines@.skip(i + 1))) =~= (init0 + line@)
                    + block_chars(lines@.skip(i + 1)));
            }
        }
        i = i + 1;
    }
    // The finalization block: everything after the separator, if one came.
    let mut j: usize = i;
    if i < n {
        proof {
            assert(lines@.skip(i as int).first() == lines@[i as int]);
            assert(lines@.skip(i as int).drop_first() =~= lines@.skip(i + 1));
            assert(init@ + block_chars(lines@.skip(i as int)) =~= init@);
        }
        j = i + 1;
    } else {
        proof {
            assert(lines@.skip(i as int) =~= Seq::<Vec<char>>::empty());
            assert(init@ + block_chars(Seq::<Vec<char>>::empty()) =~= init@);
            assert(rest_after_block(Seq::<Vec<char>>::empty()) =~= Seq::<Vec<char>>::empty());
            assert(lines@.skip(j as int) =~= Seq::<Vec<char>>::empty());
        }
    }
    let mut fini: Vec<char> = Vec::new();
    while j < n
        invariant
            j <= n,
            n == lines@.len(),
            parse_def(lines@) == Some(
                (size as nat, init@, fini@ + tail_chars(lines@.skip(j as int))),
            ),
        decreases n - j,
    {
        proof {
            assert(lines@.skip(j as int).drop_first() =~= lines@.skip(j + 1));
            assert(lines@.skip(j as int).first() == lines@[j as int]);
        }
        if !is_comment(&lines[j]) {
            let line = &lines[j];
            let ghost fini0 = fini@;
            let mut q: usize = 0;
            while q < line.len()
                invariant
                    q <= line@.len(),
                    fini@ == fini0 + line@.take(q as int),
                    j < n,
                    n == lines@.len(),
                    line@ == lines@[j as int]@,
                    !comment_line(line@),
                    parse_def(lines@) == Some(
                        (
                            size as nat,
                            init@,
                            fini0 + tail_chars(lines@.skip(j as int)),
                        ),
                    ),
                decreases line@.len() - q,
            {
                proof {
                    assert(fini@.push(line@[q as int]) =~= fini0 + line@.take(q + 1));
                }
                fini.push(line[q]);
                q = q + 1;
            }
            proof {
                assert(line@.take(line@.len() as int) =~= line@);
                assert(fini0 + (line@ + tail_chars(lines@.skip(j + 1))) =~= (fini0 + line@)
                    + tail_chars(lines@.skip(j + 1)));
            }
        }
        j = j + 1;
    }
    proof {
        assert(lines@.skip(j as int) =~= Seq::<Vec<char>>::empty());
        assert(fini@ + tail_chars(Seq::<Vec<char>>::empty()) =~= fini@);
    }
    Some((size, init, fini))
}

} // verus!
