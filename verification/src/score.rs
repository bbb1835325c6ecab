//! Scoring of a two-column round list: each line names an opponent move
//! (A, B or C) and an own move (X, Y or Z), separated by one space, and
//! is worth the move's value (X 1, Y 2, Z 3) plus the round's outcome
//! (win 6, draw 3, loss 0). The total is the sum over all lines.

use vstd::prelude::*;
use vstd::string::StringSliceAdditionalSpecFns;

verus! {

/// Index of the first line feed in b, or b.len() when there is none.
pub open spec fn nl_at(b: Seq<u8>) -> nat
    decreases b.len(),
{
    if b.len() == 0 {
        0
    } else if b[0] == 10 {
        0
    } else {
        1 + nl_at(b.drop_first())
    }
}

/// A line with one trailing carriage return removed.
pub open spec fn strip_cr(l: Seq<u8>) -> Seq<u8> {
    if l.len() > 0 && l[l.len() - 1] == 13 {
        l.drop_last()
    } else {
        l
    }
}

/// The lines of a byte string, as str::lines splits them: at every line
/// feed, a carriage return directly before a line feed or at the end is
/// dropped, and a final line feed does not open another line.
pub open spec fn lines_of(b: Seq<u8>) -> Seq<Seq<u8>>
    decreases b.len(),
{
    if b.len() == 0 {
        Seq::empty()
    } else {
        let i = if nl_at(b) <= b.len() {
            nl_at(b) as int
        } else {
            b.len() as int
        };
        if i == b.len() {
            seq![strip_cr(b)]
        } else {
            seq![strip_cr(b.take(i))] + lines_of(b.skip(i + 1))
        }
    }
}

/// The score of one line: own move's value plus the round's outcome.
/// Lines of any other shape score zero (and are rejected by [`a`]).
pub open spec fn score_of(l: Seq<u8>) -> int {
    if l == seq![65u8, 32u8, 88u8] {
        4
    } else if l == seq![65u8, 32u8, 89u8] {
        8
    } else if l == seq![65u8, 32u8, 90u8] {
        3
    } else if l == seq![66u8, 32u8, 88u8] {
        1
    } else if l == seq![66u8, 32u8, 89u8] {
        5
    } else if l == seq![66u8, 32u8, 90u8] {
        9
    } else if l == seq![67u8, 32u8, 88u8] {
        7
    } else if l == seq![67u8, 32u8, 89u8] {
        2
    } else if l == seq![67u8, 32u8, 90u8] {
        6
    } else {
        0
    }
}

/// The line is one of the nine round descriptions.
pub open spec fn valid_line(l: Seq<u8>) -> bool {
    score_of(l) > 0
}

/// The sum of the scores of a sequence of lines.
pub open spec fn total_score(ls: Seq<Seq<u8>>) -> int
    decreases ls.len(),
{
    if ls.len() == 0 {
        0
    } else {
        score_of(ls.first()) + total_score(ls.drop_first())
    }
}

/// [`nl_at`] is the first line-feed position: everything before it is
/// another byte, and it is a line feed unless it is the end.
proof fn lemma_nl_at_first(s: Seq<u8>, m: int)
    requires
        0 <= m <= s.len(),
        forall|i: int| 0 <= i < m ==> s[i] != 10,
        m < s.len() ==> s[m] == 10,
    ensures
        nl_at(s) == m,
    decreases s.len(),
{
    if s.len() == 0 {
    } else if s[0] == 10 {
        assert(m == 0);
    } else {
        let rest = s.drop_first();
        assert(forall|i: int| 0 <= i < m - 1 ==> rest[i] == s[i + 1] && s[i + 1] != 10);
        lemma_nl_at_first(rest, m - 1);
    }
}

/// Scores lie between 0 and 9, so a total is bounded by 9 per line.
proof fn lemma_total_bounds(ls: Seq<Seq<u8>>)
    ensures
        0 <= total_score(ls) <= 9 * ls.len(),
    decreases ls.len(),
{
    if ls.len() > 0 {
        lemma_total_bounds(ls.drop_first());
    }
}

/// The total of a line followed by more lines is its score plus their
/// total.
proof fn lemma_total_cons(l: Seq<u8>, rest: Seq<Seq<u8>>)
    ensures
        total_score(seq![l] + rest) == score_of(l) + total_score(rest),
{
    let s = seq![l] + rest;
    assert(s.first() == l);
    assert(s.drop_first() =~= rest);
}

/// Scores a round list: the sum of the scores of its lines. Every line
/// must be one of the nine round descriptions, and the input is bounded
/// so that the 32-bit total cannot overflow.
pub fn a(input: &str) -> (r: i32)
    requires
        input.spec_bytes().len() <= 0x0800_0000,
        forall|i: int|
            0 <= i < lines_of(input.spec_bytes()).len() ==> valid_line(
                #[trigger] lines_of(input.spec_bytes())[i],
            ),
    ensures
        r as int == total_score(lines_of(input.spec_bytes())),
{
    let b: &[u8] = input.as_bytes();
    let n: usize = b.len();
    let mut pos: usize = 0;
    let mut total: i32 = 0;
    proof {
        assert(b@.subrange(0, n as int) =~= b@);
    }
    while pos < n
        invariant
            b@ == input.spec_bytes(),
            n == b@.len(),
            n <= 0x0800_0000,
            0 <= pos <= n,
            0 <= total <= 9 * pos,
            total as int + total_score(lines_of(b@.subrange(pos as int, n as int)))
                == total_score(lines_of(b@)),
            forall|i: int|
                0 <= i < lines_of(b@.subrange(pos as int, n as int)).len() ==> valid_line(
                    #[trigger] lines_of(b@.subrange(pos as int, n as int))[i],
                ),
        decreases n - pos,
    {
        let ghost s = b@.subrange(pos as int, n as int);
        let mut j: usize = pos;
        while j < n && b[j] != 10
            invariant
                pos <= j <= n,
                n == b@.len(),
                forall|i: int| pos <= i < j ==> b@[i] != 10,
            decreases n - j,
        {
            j = j + 1;
        }
        proof {
            assert(forall|i: int|
                0 <= i < j - pos ==> s[i] == b@[pos + i] && b@[pos + i] != 10);
            lemma_nl_at_first(s, j as int - pos as int);
        }
        let mut end: usize = j;
        if end > pos && b[end - 1] == 13 {
            end = end - 1;
        }
        let ghost l = strip_cr(s.take(nl_at(s) as int));
        proof {
            assert(s.take(j as int - pos as int) =~= b@.subrange(pos as int, j as int));
            assert(l =~= b@.subrange(pos as int, end as int));
            // l is the first line of the suffix, so it is valid
            if j < n {
                assert(lines_of(s)[0] == l);
            } else {
                assert(lines_of(s) =~= seq![l]);
            }
            assert(valid_line(l));
        }
        let sc: i32;
        if end - pos == 3 {
            let c0: u8 = b[pos];
            let c1: u8 = b[pos + 1];
            let c2: u8 = b[pos + 2];
            proof {
                assert(l.len() == 3);
                assert(l[0] == c0 && l[1] == c1 && l[2] == c2);
            }
            if c0 == 65 && c1 == 32 && c2 == 88 {
                sc = 4;
                proof {
                    assert(l =~= seq![65u8, 32u8, 88u8]);
                }
            } else if c0 == 65 && c1 == 32 && c2 == 89 {
                sc = 8;
                proof {
                    assert(l =~= seq![65u8, 32u8, 89u8]);
                }
            } else if c0 == 65 && c1 == 32 && c2 == 90 {
                sc = 3;
                proof {
                    assert(l =~= seq![65u8, 32u8, 90u8]);
                }
            } else if c0 == 66 && c1 == 32 && c2 == 88 {
                sc = 1;
                proof {
                    assert(l =~= seq![66u8, 32u8, 88u8]);
                }
            } else if c0 == 66 && c1 == 32 && c2 == 89 {
                sc = 5;
                proof {
                    assert(l =~= seq![66u8, 32u8, 89u8]);
                }
            } else if c0 == 66 && c1 == 32 && c2 == 90 {
                sc = 9;
                proof {
                    assert(l =~= seq![66u8, 32u8, 90u8]);
                }
            } else if c0 == 67 && c1 == 32 && c2 == 88 {
                sc = 7;
                proof {
                    assert(l =~= seq![67u8, 32u8, 88u8]);
                }
            } else if c0 == 67 && c1 == 32 && c2 == 89 {
                sc = 2;
                proof {
                    assert(l =~= seq![67u8, 32u8, 89u8]);
                }
            } else if c0 == 67 && c1 == 32 && c2 == 90 {
                sc = 6;
                proof {
                    assert(l =~= seq![67u8, 32u8, 90u8]);
                }
            } else {
                proof {
                    assert(false);
                }
                sc = 0;
            }
        } else {
            proof {
                assert(l.len() != 3);
                assert(false);
            }
            sc = 0;
        }
        assert(sc as int == score_of(l));
        total = total + sc;
        let old_pos: usize = pos;
        if j < n {
            pos = j + 1;
        } else {
            pos = n;
        }
        proof {
            let s2 = b@.subrange(pos as int, n as int);
            if j < n {
                assert(s.skip(j as int - old_pos as int + 1) =~= s2);
                assert(lines_of(s) == seq![l] + lines_of(s2));
                lemma_total_cons(l, lines_of(s2));
                assert forall|i: int| 0 <= i < lines_of(s2).len() implies valid_line(
                    #[trigger] lines_of(s2)[i],
                ) by {
                    assert(lines_of(s)[i + 1] == lines_of(s2)[i]);
                }
            } else {
                assert(lines_of(s) =~= seq![l] + Seq::<Seq<u8>>::empty());
                lemma_total_cons(l, Seq::empty());
                assert(s2 =~= Seq::<u8>::empty());
            }
        }
    }
    proof {
        assert(b@.subrange(pos as int, n as int) =~= Seq::<u8>::empty());
    }
    total
}

} // verus!
