use vstd::prelude::*;
use vstd::string::*;

verus! {

/// The newline byte.
pub const NL: u8 = 10;

/// Number of newline bytes among the first `i` bytes of `s`; it is also the
/// zero-based line index that byte `i` belongs to.
pub open spec fn nl_upto(s: Seq<u8>, i: int) -> int
    decreases i,
{
    if i <= 0 {
        0
    } else {
        nl_upto(s, i - 1) + if s[i - 1] == NL {
            1int
        } else {
            0int
        }
    }
}

/// Number of newline bytes in `s`.
pub open spec fn newline_count(s: Seq<u8>) -> int {
    nl_upto(s, s.len() as int)
}

/// Number of lines of `s` as the storage service counts them: one per
/// newline-terminated segment, plus one for a trailing segment without a
/// final newline.
pub open spec fn line_count(s: Seq<u8>) -> int {
    if s.len() == 0 {
        0
    } else if s[s.len() - 1] == NL {
        newline_count(s)
    } else {
        newline_count(s) + 1
    }
}

proof fn lemma_nl_upto_bounds(s: Seq<u8>, i: int)
    requires
        0 <= i <= s.len(),
    ensures
        0 <= nl_upto(s, i) <= i,
    decreases i,
{
    if i > 0 {
        lemma_nl_upto_bounds(s, i - 1);
    }
}

/// For a newline-terminated file, the reported line count is exactly the
/// number of newline bytes: counting the `\n`-terminated lines and counting
/// the `\n` bytes agree.
pub proof fn lemma_line_count_newline_terminated(s: Seq<u8>)
    requires
        s.len() > 0,
        s[s.len() - 1] == NL,
    ensures
        line_count(s) == newline_count(s),
{
}

/// Counts the lines of `data` exactly as the storage service does when it
/// answers a file-size request: newline-terminated segments, plus a final
/// unterminated segment if any.
pub fn count_lines(data: &Vec<u8>) -> (r: u32)
    requires
        data@.len() <= u32::MAX,
    ensures
        r == line_count(data@),
{
    let n = data.len();
    let mut i: usize = 0;
    let mut nl: u32 = 0;
    while i < n
        invariant
            i <= n,
            n == data@.len(),
            n <= u32::MAX,
            nl == nl_upto(data@, i as int),
        decreases n - i,
    {
        proof {
            lemma_nl_upto_bounds(data@, i as int);
        }
        if data[i] == NL {
            nl = nl + 1;
        }
        i = i + 1;
    }
    if n == 0 {
        0
    } else if data[n - 1] == NL {
        nl
    } else {
        proof {
            lemma_nl_upto_bounds(data@, n as int);
            lemma_nl_upto_bounds(data@, n - 1);
            assert(newline_count(data@) == nl_upto(data@, n - 1) + 0);
        }
        nl + 1
    }
}

/// The bytes of `s` among the first `i` that belong to lines `start..=end`.
pub open spec fn selected_upto(s: Seq<u8>, start: int, end: int, i: int) -> Seq<u8>
    decreases i,
{
    if i <= 0 {
        Seq::empty()
    } else {
        selected_upto(s, start, end, i - 1) + if start <= nl_upto(s, i - 1) <= end {
            seq![s[i - 1]]
        } else {
            Seq::<u8>::empty()
        }
    }
}

/// The bytes of `s` that belong to lines `start..=end`.
pub open spec fn select_lines_spec(s: Seq<u8>, start: int, end: int) -> Seq<u8> {
    selected_upto(s, start, end, s.len() as int)
}

/// Keeps exactly the bytes of the lines numbered `start..=end`, the filter a
/// storage node applies when it streams a map task's line range.
pub fn select_lines(data: &Vec<u8>, start: u32, end: u32) -> (r: Vec<u8>)
    ensures
        r@ == select_lines_spec(data@, start as int, end as int),
{
    let n = data.len();
    let mut out: Vec<u8> = Vec::new();
    let mut line: u64 = 0;
    let mut i: usize = 0;
    while i < n
        invariant
            i <= n,
            n == data@.len(),
            line == nl_upto(data@, i as int),
            out@ == selected_upto(data@, start as int, end as int, i as int),
        decreases n - i,
    {
        proof {
            lemma_nl_upto_bounds(data@, i as int);
        }
        let b = data[i];
        if start as u64 <= line && line <= end as u64 {
            out.push(b);
        }
        proof {
            assert(selected_upto(data@, start as int, end as int, i + 1 as int) == selected_upto(
                data@,
                start as int,
                end as int,
                i as int,
            ) + if start <= nl_upto(data@, i as int) <= end {
                seq![data@[i as int]]
            } else {
                Seq::<u8>::empty()
            });
            if start as u64 <= line && line <= end as u64 {
                assert(out@.drop_last() + seq![data@[i as int]] =~= out@);
            } else {
                assert(out@ + Seq::<u8>::empty() =~= out@);
            }
        }
        if b == NL {
            line = line + 1;
        }
        i = i + 1;
    }
    out
}

/// Index of the first newline character of `s`, or its length when it has
/// none.
pub open spec fn first_nl(s: Seq<char>) -> int
    decreases s.len(),
{
    if s.len() == 0 {
        0
    } else if s[0] == '\n' {
        0
    } else {
        1 + first_nl(s.drop_first())
    }
}

proof fn lemma_first_nl_at(s: Seq<char>, j: int)
    requires
        0 <= j <= s.len(),
        forall|q: int| 0 <= q < j ==> s[q] != '\n',
        j == s.len() || s[j] == '\n',
    ensures
        first_nl(s) == j,
    decreases j,
{
    if j > 0 {
        assert(s[0] != '\n');
        assert forall|q: int| 0 <= q < j - 1 implies s.drop_first()[q] != '\n' by {
            assert(s.drop_first()[q] == s[q + 1]);
        }
        if j < s.len() {
            assert(s.drop_first()[j - 1] == s[j]);
        }
        lemma_first_nl_at(s.drop_first(), j - 1);
    } else {
        if s.len() > 0 {
            assert(s[0] == '\n');
        }
    }
}

/// A line with its terminator removed: a single trailing carriage return is
/// dropped when the line was ended by a newline.
pub open spec fn strip_cr(s: Seq<char>) -> Seq<char> {
    if s.len() > 0 && s[s.len() - 1] == '\r' {
        s.take(s.len() - 1)
    } else {
        s
    }
}

/// The lines of `s`: segments between newlines, each with a trailing
/// carriage return stripped; a final segment without a terminator is kept
/// as it stands, and a trailing terminator opens no empty line.
pub open spec fn split_lines_spec(s: Seq<char>) -> Seq<Seq<char>>
    decreases s.len(),
{
    if s.len() == 0 {
        Seq::empty()
    } else {
        let i = first_nl(s);
        if 0 <= i < s.len() {
            seq![strip_cr(s.subrange(0, i))] + split_lines_spec(s.skip(i + 1))
        } else {
            seq![s]
        }
    }
}

/// Splits executable output into its lines, the way the map worker reads
/// emitted keys from a task's standard output.
pub fn split_lines(s: &str) -> (r: Vec<String>)
    ensures
        r.deep_view() == split_lines_spec(s@),
{
    let n = s.unicode_len();
    let mut out: Vec<String> = Vec::new();
    let mut pos: usize = 0;
    proof {
        assert(s@.skip(0) =~= s@);
        assert(out.deep_view() =~= Seq::<Seq<char>>::empty());
        assert(out.deep_view() + split_lines_spec(s@) =~= split_lines_spec(s@));
    }
    while pos < n
        invariant
            pos <= n,
            n == s@.len(),
            out.deep_view() + split_lines_spec(s@.skip(pos as int)) =~= split_lines_spec(s@),
        decreases n - pos,
    {
        // find the next newline at or after pos
        let mut j: usize = pos;
        loop
            invariant
                pos <= j <= n,
                n == s@.len(),
                forall|q: int| pos <= q < j ==> s@[q] != '\n',
            ensures
                pos <= j <= n,
                j == n || s@[j as int] == '\n',
                forall|q: int| pos <= q < j ==> s@[q] != '\n',
            decreases n - j,
        {
            if j == n {
                break;
            }
            if s.get_char(j) == '\n' {
                break;
            }
            j = j + 1;
        }
        let ghost tail = s@.skip(pos as int);
        proof {
            assert forall|q: int| 0 <= q < j - pos implies tail[q] != '\n' by {
                assert(tail[q] == s@[pos + q]);
            }
            if j < n {
                assert(tail[j - pos] == s@[j as int]);
            }
            lemma_first_nl_at(tail, j - pos);
        }
        if j == n {
            // final segment without a terminator
            let seg = s.substring_char(pos, n).to_owned();
            proof {
                assert(tail =~= s@.subrange(pos as int, n as int));
                assert(split_lines_spec(tail) == seq![tail]);
            }
            out.push(seg);
            proof {
                assert(out.deep_view() =~= out.deep_view().drop_last() + seq![seg@]);
                assert(s@.skip(n as int).len() == 0);
                assert(out.deep_view() + split_lines_spec(s@.skip(n as int)) =~= out.deep_view());
            }
            pos = n;
        } else {
            // segment ended by the newline at j, minus a trailing '\r'
            let stop = if j > pos && s.get_char(j - 1) == '\r' {
                j - 1
            } else {
                j
            };
            let seg = s.substring_char(pos, stop).to_owned();
            proof {
                let i = first_nl(tail);
                assert(i == j - pos);
                assert(tail.subrange(0, i) =~= s@.subrange(pos as int, j as int));
                if j > pos && s@[j - 1] == '\r' {
                    assert(tail.subrange(0, i)[i - 1] == '\r');
                    assert(strip_cr(tail.subrange(0, i)) =~= s@.subrange(pos as int, j - 1));
                    assert(seg@ == strip_cr(tail.subrange(0, i)));
                } else {
                    if i > 0 {
                        assert(tail.subrange(0, i)[i - 1] == s@[j - 1]);
                    }
                    assert(strip_cr(tail.subrange(0, i)) =~= s@.subrange(pos as int, j as int));
                    assert(seg@ == strip_cr(tail.subrange(0, i)));
                }
                assert(tail.skip(i + 1) =~= s@.skip(j + 1 as int));
                assert(split_lines_spec(tail) == seq![strip_cr(tail.subrange(0, i))]
                    + split_lines_spec(s@.skip(j + 1 as int)));
            }
            out.push(seg);
            proof {
                assert(out.deep_view() =~= out.deep_view().drop_last() + seq![seg@]);
                assert(out.deep_view() + split_lines_spec(s@.skip(j + 1 as int)) =~= split_lines_spec(
                    s@,
                ));
            }
            pos = j + 1;
        }
    }
    proof {
        assert(s@.skip(pos as int).len() == 0);
        assert(split_lines_spec(s@.skip(pos as int)) =~= Seq::<Seq<char>>::empty());
        assert(out.deep_view() =~= split_lines_spec(s@));
    }
    out
}

} // verus!
