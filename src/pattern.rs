use vstd::prelude::*;

verus! {

/// The byte `\n`, which ends a line.
pub const NEWLINE: u8 = 10;

/// The byte `\r`, dropped before a newline.
pub const CARRIAGE_RETURN: u8 = 13;

/// The byte ` `, which separates the tokens of a line.
pub const SPACE: u8 = 32;

/// The byte `x`, the token that marks a live cell.
pub const ALIVE_SYMBOL: u8 = 120;

/// `s` cut at every `sep`, separators dropped: one more piece than there are
/// separators.
pub open spec fn split(s: Seq<u8>, sep: u8) -> Seq<Seq<u8>>
    decreases s.len(),
{
    if s.len() == 0 {
        seq![seq![]]
    } else {
        let rest = split(s.drop_last(), sep);
        if s.last() == sep {
            rest.push(seq![])
        } else {
            rest.update(rest.len() - 1, rest.last().push(s.last()))
        }
    }
}

proof fn lemma_split_not_empty(s: Seq<u8>, sep: u8)
    ensures
        split(s, sep).len() >= 1,
    decreases s.len(),
{
    if s.len() > 0 {
        lemma_split_not_empty(s.drop_last(), sep);
    }
}

pub open spec fn strip_cr(line: Seq<u8>) -> Seq<u8> {
    if line.len() > 0 && line.last() == CARRIAGE_RETURN {
        line.drop_last()
    } else {
        line
    }
}

/// The lines of `text`: cut at each newline, with a carriage return before a
/// newline dropped, and no empty line after a final newline.
pub open spec fn lines(text: Seq<u8>) -> Seq<Seq<u8>> {
    let pieces = split(text, NEWLINE);
    let ended = pieces.drop_last().map_values(|l: Seq<u8>| strip_cr(l));
    if pieces.last().len() == 0 {
        ended
    } else {
        ended.push(pieces.last())
    }
}

/// The live cells that the first `k` of `tokens`, the tokens of row `row`,
/// mark, left to right.
pub open spec fn token_cells(tokens: Seq<Seq<u8>>, row: int, k: int) -> Seq<(usize, usize)>
    decreases k,
{
    if k <= 0 {
        seq![]
    } else {
        token_cells(tokens, row, k - 1) + if tokens[k - 1] == seq![ALIVE_SYMBOL] {
            seq![(row as usize, (k - 1) as usize)]
        } else {
            seq![]
        }
    }
}

/// The live cells that the first `k` lines mark, row by row.
pub open spec fn lines_cells(ls: Seq<Seq<u8>>, k: int) -> Seq<(usize, usize)>
    decreases k,
{
    if k <= 0 {
        seq![]
    } else {
        let tokens = split(ls[k - 1], SPACE);
        lines_cells(ls, k - 1) + token_cells(tokens, k - 1, tokens.len() as int)
    }
}

/// The live cells that a pattern text marks: each line is a row, each token
/// of a line, between single spaces, a column; the token `x` is a live cell.
pub open spec fn pattern_cells(text: Seq<u8>) -> Seq<(usize, usize)> {
    lines_cells(lines(text), lines(text).len() as int)
}

pub open spec fn views(v: Seq<Vec<u8>>) -> Seq<Seq<u8>> {
    v.map_values(|p: Vec<u8>| p@)
}

/// Cuts `s` at every `sep`.
pub fn split_bytes(s: &[u8], sep: u8) -> (r: Vec<Vec<u8>>)
    ensures
        views(r@) == split(s@, sep),
{
    let mut done: Vec<Vec<u8>> = Vec::new();
    let mut cur: Vec<u8> = Vec::new();
    let mut i: usize = 0;
    while i < s.len()
        invariant
            i <= s@.len(),
            views(done@).push(cur@) == split(s@.subrange(0, i as int), sep),
        decreases s@.len() - i,
    {
        let ghost before = views(done@).push(cur@);
        proof {
            let p = s@.subrange(0, i + 1);
            assert(p.drop_last() =~= s@.subrange(0, i as int));
            assert(p.last() == s@[i as int]);
        }
        if s[i] == sep {
            done.push(cur);
            cur = Vec::new();
            assert(views(done@).push(cur@) =~= before.push(seq![]));
        } else {
            cur.push(s[i]);
            assert(views(done@).push(cur@) =~= before.update(before.len() - 1, before.last().push(s@[i as int])));
        }
        i += 1;
    }
    assert(s@.subrange(0, s@.len() as int) =~= s@);
    done.push(cur);
    done
}

/// The lines of `text`, as `lines` describes them.
pub fn split_lines(text: &[u8]) -> (r: Vec<Vec<u8>>)
    ensures
        views(r@) == lines(text@),
{
    let mut pieces = split_bytes(text, NEWLINE);
    let ghost all = views(pieces@);
    proof {
        lemma_split_not_empty(text@, NEWLINE);
    }
    let last = match pieces.pop() {
        Some(l) => l,
        None => Vec::new(),
    };
    let ghost ended = all.drop_last().map_values(|l: Seq<u8>| strip_cr(l));
    proof {
        assert(views(pieces@) =~= all.drop_last());
        assert(last@ == all.last());
    }
    let mut out: Vec<Vec<u8>> = Vec::new();
    let n = pieces.len();
    let mut k: usize = 0;
    while k < n
        invariant
            n == pieces@.len(),
            n == all.len() - 1,
            k <= n,
            ended == all.drop_last().map_values(|l: Seq<u8>| strip_cr(l)),
            forall|m: int| k <= m < n ==> (#[trigger] pieces@[m])@ == all[m],
            views(out@) == ended.subrange(0, k as int),
        decreases n - k,
    {
        let mut line: Vec<u8> = Vec::new();
        std::mem::swap(&mut line, &mut pieces[k]);
        assert(line@ == all[k as int]);
        let len = line.len();
        if len > 0 && line[len - 1] == CARRIAGE_RETURN {
            line.pop();
            assert(line@ =~= strip_cr(all[k as int]));
        }
        assert(line@ == strip_cr(all[k as int]));
        assert(ended[k as int] == strip_cr(all[k as int]));
        let ghost prev = out@;
        assert(views(prev).len() == prev.len());
        assert(prev.len() == k);
        out.push(line);
        assert forall|m: int| 0 <= m <= k implies #[trigger] views(out@)[m] == ended[m] by {
            if m < k {
                assert(out@[m] == prev[m]);
                assert(views(prev)[m] == ended.subrange(0, k as int)[m]);
            }
        }
        assert(views(out@) =~= ended.subrange(0, k + 1));
        k += 1;
    }
    assert(ended.subrange(0, n as int) =~= ended);
    if last.len() > 0 {
        out.push(last);
        assert(views(out@) =~= ended.push(all.last()));
    }
    out
}

/// The number of rows of a pattern text and the live cells it marks, row
/// by row and left to right within a row.
pub fn parse_pattern(text: &[u8]) -> (r: (usize, Vec<(usize, usize)>))
    ensures
        r.0 == lines(text@).len(),
        r.1@ == pattern_cells(text@),
{
    let ls = split_lines(text);
    let ghost g = lines(text@);
    let mut out: Vec<(usize, usize)> = Vec::new();
    let mut i: usize = 0;
    while i < ls.len()
        invariant
            views(ls@) == g,
            i <= ls@.len(),
            out@ == lines_cells(g, i as int),
        decreases ls@.len() - i,
    {
        let tokens = split_bytes(ls[i].as_slice(), SPACE);
        let ghost t = split(g[i as int], SPACE);
        assert(ls@[i as int]@ == g[i as int]);
        let mut j: usize = 0;
        while j < tokens.len()
            invariant
                views(ls@) == g,
                i < ls@.len(),
                views(tokens@) == t,
                t == split(g[i as int], SPACE),
                j <= tokens@.len(),
                out@ == lines_cells(g, i as int) + token_cells(t, i as int, j as int),
            decreases tokens@.len() - j,
        {
            let ghost before = out@;
            let token = &tokens[j];
            assert(token@ == t[j as int]);
            if token.len() == 1 && token[0] == ALIVE_SYMBOL {
                assert(token@ =~= seq![ALIVE_SYMBOL]);
                out.push((i, j));
                assert(out@ =~= lines_cells(g, i as int) + token_cells(t, i as int, j + 1));
            } else {
                assert(token@ != seq![ALIVE_SYMBOL] ==> token_cells(t, i as int, j + 1) =~= token_cells(t, i as int, j as int));
                assert(token@ != seq![ALIVE_SYMBOL]) by {
                    if token@ == seq![ALIVE_SYMBOL] {
                        assert(token@.len() == 1 && token@[0] == ALIVE_SYMBOL);
                    }
                }
            }
            j += 1;
        }
        assert(lines_cells(g, i + 1) == lines_cells(g, i as int) + token_cells(t, i as int, t.len() as int));
        i += 1;
    }
    (ls.len(), out)
}

} // verus!
