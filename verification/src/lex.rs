use vstd::prelude::*;
use crate::ops::Pos;

verus! {

/// One token as the lexer's specification sees it: its characters and the
/// line and column it was reported at.
pub struct LexTok {
    pub word: Seq<char>,
    pub line: int,
    pub col: int,
}

/// The tokens of one line from position `k` on, given the word collected
/// so far, its starting column, and whether a double quote is open. A
/// comment mark outside quotes ends the line; spaces outside quotes flush
/// the collected word (advancing the column count past it); the word
/// still being collected when the line ends is always emitted, even
/// empty.
pub open spec fn lex_line_from(
    cs: Seq<char>, k: int, word: Seq<char>, col: int, instring: bool, line: int,
) -> Seq<LexTok>
    decreases cs.len() - k,
{
    if k < 0 || k >= cs.len() {
        Seq::empty().push(LexTok { word, line, col })
    } else {
        let c = cs[k];
        if !instring && c == '#' {
            Seq::empty().push(LexTok { word, line, col })
        } else if c == '"' {
            lex_line_from(cs, k + 1, word.push(c), col, !instring, line)
        } else if !instring && c == ' ' {
            if word.len() == 0 {
                lex_line_from(cs, k + 1, word, col, instring, line)
            } else {
                Seq::empty().push(LexTok { word, line, col })
                    + lex_line_from(cs, k + 1, Seq::empty(), col + word.len() + 1, instring,
                        line)
            }
        } else {
            lex_line_from(cs, k + 1, word.push(c), col, instring, line)
        }
    }
}

/// All tokens of the lines from index `i` on; line numbers are counted
/// from one, columns from one.
pub open spec fn lex_lines(lines: Seq<String>, i: int) -> Seq<LexTok>
    decreases lines.len() - i,
{
    if i < 0 || i >= lines.len() {
        Seq::empty()
    } else {
        lex_line_from(lines[i]@, 0, Seq::empty(), 1, false, i + 1) + lex_lines(lines, i + 1)
    }
}

/// The produced token list as the specification sees it.
pub open spec fn toks_view(r: Seq<(String, Pos)>) -> Seq<LexTok>
    decreases r.len(),
{
    if r.len() == 0 {
        Seq::empty()
    } else {
        toks_view(r.drop_last()).push(LexTok {
            word: r.last().0@,
            line: r.last().1.0 as int,
            col: r.last().1.1 as int,
        })
    }
}

proof fn lemma_toks_view_push(r: Seq<(String, Pos)>, t: (String, Pos))
    ensures
        toks_view(r.push(t)) == toks_view(r).push(LexTok {
            word: t.0@,
            line: t.1.0 as int,
            col: t.1.1 as int,
        }),
{
    assert(r.push(t).drop_last() =~= r);
}

/// Split source lines into `(word, position)` tokens: words are separated
/// by spaces, double quotes keep spaces and comment marks inside one
/// word, and everything after `#` on a line is dropped. Every position
/// carries `path`. The length bound on each line is a machine limit on
/// the column counter.
pub fn lex(lines: &Vec<String>, path: &String) -> (r: Vec<(String, Pos)>)
    requires
        forall|q: int| 0 <= q < lines@.len() ==> (#[trigger] lines@[q])@.len() + 2 < usize::MAX,
    ensures
        toks_view(r@) == lex_lines(lines@, 0),
        forall|k: int| 0 <= k < r@.len() ==> (#[trigger] r@[k].1.2)@ == path@,
{
    let mut r: Vec<(String, Pos)> = Vec::new();
    let nl = lines.len();
    let mut i: usize = 0;
    proof {
        assert(toks_view(r@) =~= Seq::<LexTok>::empty());
        assert(toks_view(r@) + lex_lines(lines@, 0) =~= lex_lines(lines@, 0));
    }
    while i < nl
        invariant
            nl == lines@.len(),
            i <= nl,
            forall|q: int| 0 <= q < lines@.len()
                ==> (#[trigger] lines@[q])@.len() + 2 < usize::MAX,
            toks_view(r@) + lex_lines(lines@, i as int) == lex_lines(lines@, 0),
            forall|k: int| 0 <= k < r@.len() ==> (#[trigger] r@[k].1.2)@ == path@,
        decreases nl - i,
    {
        let line = &lines[i];
        let cn = line.as_str().unicode_len();
        let mut word = String::new();
        let mut wlen: usize = 0;
        let mut col: usize = 1;
        let mut instring = false;
        let mut stop = false;
        let mut k: usize = 0;
        let lineno = i + 1;
        let ghost cs = lines@[i as int]@;
        proof {
            assert((toks_view(r@) + (lex_line_from(cs, 0, Seq::empty(), 1, false,
                lineno as int) + lex_lines(lines@, i as int + 1)))
                =~= (toks_view(r@) + lex_line_from(cs, 0, Seq::empty(), 1, false,
                    lineno as int)) + lex_lines(lines@, i as int + 1));
        }
        while k < cn && !stop
            invariant
                nl == lines@.len(),
                i < nl,
                lineno == i + 1,
                cs == lines@[i as int]@,
                line@ == cs,
                cn == cs.len(),
                cn + 2 < usize::MAX,
                k <= cn,
                wlen == word@.len(),
                col + wlen <= k + 1,
                (toks_view(r@) + lex_line_from(cs, k as int, word@, col as int, instring,
                    lineno as int)) + lex_lines(lines@, i as int + 1)
                    == lex_lines(lines@, 0),
                stop ==> lex_line_from(cs, k as int, word@, col as int, instring, lineno as int)
                    == Seq::<LexTok>::empty().push(LexTok {
                        word: word@,
                        line: lineno as int,
                        col: col as int,
                    }),
                forall|q: int| 0 <= q < r@.len() ==> (#[trigger] r@[q].1.2)@ == path@,
            decreases cn - k + (if stop { 0int } else { 1int }),
        {
            let c = line.as_str().get_char(k);
            if !instring && c == '#' {
                stop = true;
            } else if c == '"' {
                crate::strutil::push_char(&mut word, c);
                wlen = wlen + 1;
                instring = !instring;
                k += 1;
            } else if !instring && c == ' ' {
                if wlen > 0 {
                    let ghost oldword = word@;
                    let ghost oldcol = col as int;
                    let ghost done = toks_view(r@);
                    let tok = (word, (lineno, col, path.clone()));
                    proof {
                        lemma_toks_view_push(r@, tok);
                    }
                    r.push(tok);
                    col = col + wlen + 1;
                    word = String::new();
                    wlen = 0;
                    proof {
                        let vt = LexTok { word: oldword, line: lineno as int, col: oldcol };
                        assert(toks_view(r@) == done.push(vt));
                        assert(lex_line_from(cs, k as int, oldword, oldcol, instring,
                            lineno as int)
                            == Seq::<LexTok>::empty().push(vt)
                                + lex_line_from(cs, (k + 1) as int, Seq::<char>::empty(),
                                    oldcol + oldword.len() + 1, instring, lineno as int));
                        assert(word@ =~= Seq::<char>::empty());
                        assert((toks_view(r@) + lex_line_from(cs, (k + 1) as int, word@,
                            col as int, instring, lineno as int))
                            + lex_lines(lines@, i as int + 1)
                            =~= (done + lex_line_from(cs, k as int, oldword, oldcol, instring,
                                lineno as int)) + lex_lines(lines@, i as int + 1));
                    }
                } else {
                    proof {
                        assert(word@ =~= Seq::<char>::empty());
                    }
                }
                k += 1;
            } else {
                crate::strutil::push_char(&mut word, c);
                wlen = wlen + 1;
                k += 1;
            }
        }
        let ghost endword = word@;
        let ghost endcol = col as int;
        let ghost done2 = toks_view(r@);
        let tok = (word, (lineno, col, path.clone()));
        proof {
            lemma_toks_view_push(r@, tok);
        }
        r.push(tok);
        proof {
            let vt = LexTok { word: endword, line: lineno as int, col: endcol };
            if !stop {
                assert(k == cn);
            }
            assert(lex_line_from(cs, k as int, endword, endcol, instring, lineno as int)
                == Seq::<LexTok>::empty().push(vt));
            assert(toks_view(r@) == done2.push(vt));
            assert((toks_view(r@) + lex_lines(lines@, i as int + 1))
                =~= (done2 + lex_line_from(cs, k as int, endword, endcol, instring,
                    lineno as int)) + lex_lines(lines@, i as int + 1));
        }
        i += 1;
    }

    r
}

} // verus!
