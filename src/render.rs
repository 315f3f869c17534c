use vstd::prelude::*;

use crate::matrix::{lemma_cell_in_bounds, Matrix};

verus! {

/// The character of a decimal digit.
pub open spec fn digit_char(d: int) -> char {
    if d == 0 {
        '0'
    } else if d == 1 {
        '1'
    } else if d == 2 {
        '2'
    } else if d == 3 {
        '3'
    } else if d == 4 {
        '4'
    } else if d == 5 {
        '5'
    } else if d == 6 {
        '6'
    } else if d == 7 {
        '7'
    } else if d == 8 {
        '8'
    } else {
        '9'
    }
}

/// Decimal digits of `n`, most significant first, without leading zeros.
pub open spec fn nat_text(n: nat) -> Seq<char>
    decreases n,
{
    if n < 10 {
        seq![digit_char(n as int)]
    } else {
        nat_text(n / 10) + seq![digit_char((n % 10) as int)]
    }
}

/// Decimal text of `x`, with a leading `-` when negative.
pub open spec fn int_text(x: int) -> Seq<char> {
    if x < 0 {
        seq!['-'] + nat_text((-x) as nat)
    } else {
        nat_text(x as nat)
    }
}

/// `items` joined with `sep` between neighbours, nothing before the first or
/// after the last.
pub open spec fn joined(items: Seq<Seq<char>>, sep: Seq<char>) -> Seq<char>
    decreases items.len(),
{
    if items.len() == 0 {
        Seq::empty()
    } else if items.len() == 1 {
        items[0]
    } else {
        joined(items.drop_last(), sep) + sep + items.last()
    }
}

/// Row `i` of `m`: its entries separated by single spaces.
pub open spec fn row_text(m: &Matrix, i: int) -> Seq<char> {
    joined(Seq::new(m.col as nat, |j: int| int_text(m.entry(i, j) as int)), seq![' '])
}

/// `m` as `{r0e0 r0e1 ..., r1e0 r1e1 ..., ...}`.
pub open spec fn matrix_text(m: &Matrix) -> Seq<char> {
    seq!['{'] + joined(Seq::new(m.row as nat, |i: int| row_text(m, i)), seq![',', ' ']) + seq!['}']
}

/// `m` as `Matrix(row=R, col=C, {...})`.
pub open spec fn matrix_debug_text(m: &Matrix) -> Seq<char> {
    seq!['M', 'a', 't', 'r', 'i', 'x', '(', 'r', 'o', 'w', '=']
        + nat_text(m.row as nat)
        + seq![',', ' ', 'c', 'o', 'l', '=']
        + nat_text(m.col as nat)
        + seq![',', ' ']
        + matrix_text(m)
        + seq![')']
}

fn digit_str(d: u64) -> (r: &'static str)
    requires
        d < 10,
    ensures
        r@ == seq![digit_char(d as int)],
{
    proof {
        reveal_strlit("0");
        reveal_strlit("1");
        reveal_strlit("2");
        reveal_strlit("3");
        reveal_strlit("4");
        reveal_strlit("5");
        reveal_strlit("6");
        reveal_strlit("7");
        reveal_strlit("8");
        reveal_strlit("9");
    }
    if d == 0 {
        "0"
    } else if d == 1 {
        "1"
    } else if d == 2 {
        "2"
    } else if d == 3 {
        "3"
    } else if d == 4 {
        "4"
    } else if d == 5 {
        "5"
    } else if d == 6 {
        "6"
    } else if d == 7 {
        "7"
    } else if d == 8 {
        "8"
    } else {
        "9"
    }
}

/// Appends the decimal digits of `n`.
pub fn push_nat(s: &mut String, n: u64)
    ensures
        final(s)@ == old(s)@ + nat_text(n as nat),
    decreases n,
{
    if n >= 10 {
        push_nat(s, n / 10);
    }
    s.append(digit_str(n % 10));
    assert(final(s)@ =~= old(s)@ + nat_text(n as nat));
}

/// Appends the decimal text of `x`.
pub fn push_int(s: &mut String, x: i64)
    ensures
        final(s)@ == old(s)@ + int_text(x as int),
{
    if x < 0 {
        proof {
            reveal_strlit("-");
        }
        s.append("-");
        let magnitude: u64 = (0i128 - x as i128) as u64;
        push_nat(s, magnitude);
        assert(final(s)@ =~= old(s)@ + int_text(x as int));
    } else {
        push_nat(s, x as u64);
    }
}

/// Appends row `i` of `m`.
fn push_row(s: &mut String, m: &Matrix, i: usize)
    requires
        m.wf(),
        i < m.row,
    ensures
        final(s)@ == old(s)@ + row_text(m, i as int),
{
    let ghost items = Seq::new(m.col as nat, |j: int| int_text(m.entry(i as int, j) as int));
    let ghost start = s@;
    let mut j: usize = 0;
    while j < m.col
        invariant
            m.wf(),
            i < m.row,
            j <= m.col,
            items == Seq::new(m.col as nat, |t: int| int_text(m.entry(i as int, t) as int)),
            s@ == start + joined(items.take(j as int), seq![' ']),
        decreases m.col - j,
    {
        let ghost before = s@;
        if j > 0 {
            proof {
                reveal_strlit(" ");
                assert(" "@ =~= seq![' ']);
            }
            s.append(" ");
        }
        let ghost sep_done = s@;
        proof {
            lemma_cell_in_bounds(i as int, j as int, m.row as int, m.col as int);
        }
        push_int(s, m.data[i * m.col + j]);
        proof {
            let next = items.take(j + 1);
            assert(next.drop_last() =~= items.take(j as int));
            assert(next.last() == int_text(m.entry(i as int, j as int) as int));
            if j == 0 {
                assert(sep_done == start);
                assert(joined(next, seq![' ']) == next[0]);
            } else {
                assert(sep_done =~= before + seq![' ']);
            }
            assert(s@ =~= start + joined(next, seq![' ']));
        }
        j = j + 1;
    }
    assert(items.take(m.col as int) =~= items);
}

impl Matrix {
    /// The matrix as `{r0e0 r0e1 ..., r1e0 r1e1 ..., ...}`: rows joined by
    /// `", "`, the entries of a row by a single space.
    pub fn display_string(&self) -> (r: String)
        requires
            self.wf(),
        ensures
            r@ == matrix_text(self),
    {
        let ghost items = Seq::new(self.row as nat, |i: int| row_text(self, i));
        proof {
            reveal_strlit("{");
            reveal_strlit("}");
        }
        let mut s = String::from_str("{");
        let mut i: usize = 0;
        while i < self.row
            invariant
                self.wf(),
                i <= self.row,
                items == Seq::new(self.row as nat, |t: int| row_text(self, t)),
                s@ == seq!['{'] + joined(items.take(i as int), seq![',', ' ']),
            decreases self.row - i,
        {
            let ghost before = s@;
            if i > 0 {
                proof {
                    reveal_strlit(", ");
                    assert(", "@ =~= seq![',', ' ']);
                }
                s.append(", ");
            }
            let ghost sep_done = s@;
            push_row(&mut s, self, i);
            proof {
                let next = items.take(i + 1);
                assert(next.drop_last() =~= items.take(i as int));
                assert(next.last() == row_text(self, i as int));
                if i == 0 {
                    assert(sep_done =~= seq!['{']);
                    assert(joined(next, seq![',', ' ']) == next[0]);
                } else {
                    assert(sep_done =~= before + seq![',', ' ']);
                }
                assert(s@ =~= seq!['{'] + joined(next, seq![',', ' ']));
            }
            i = i + 1;
        }
        s.append("}");
        assert(items.take(self.row as int) =~= items);
        assert(s@ =~= matrix_text(self));
        s
    }

    /// The matrix as `Matrix(row=R, col=C, {...})`.
    pub fn debug_string(&self) -> (r: String)
        requires
            self.wf(),
        ensures
            r@ == matrix_debug_text(self),
    {
        proof {
            reveal_strlit("Matrix(row=");
            reveal_strlit(", col=");
            reveal_strlit(", ");
            reveal_strlit(")");
        }
        let mut s = String::from_str("Matrix(row=");
        push_nat(&mut s, self.row as u64);
        s.append(", col=");
        push_nat(&mut s, self.col as u64);
        s.append(", ");
        let body = self.display_string();
        s.append(body.as_str());
        s.append(")");
        assert(s@ =~= matrix_debug_text(self));
        s
    }
}

} // verus!
