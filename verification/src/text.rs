use vstd::prelude::*;

verus! {

use crate::is_digit_char;
use vstd::string::*;

/// Horizontal whitespace (and a stray carriage return) that line trimming removes.
pub open spec fn is_space(c: char) -> bool {
    c == ' ' || c == '\t' || c == '\r'
}

/// The pieces of `s` between newline characters.  Always at least one piece;
/// a trailing newline yields a final empty piece.
pub open spec fn split_lines(s: Seq<char>) -> Seq<Seq<char>>
    decreases s.len(),
{
    if s.len() == 0 {
        seq![Seq::<char>::empty()]
    } else if s[0] == '\n' {
        seq![Seq::<char>::empty()] + split_lines(s.drop_first())
    } else {
        let rest = split_lines(s.drop_first());
        seq![seq![s[0]] + rest[0]] + rest.drop_first()
    }
}

/// The lines of `s` as a text of rows: the newline-separated pieces, except
/// that a trailing newline does not open a last, empty line.
pub open spec fn rows_of(s: Seq<char>) -> Seq<Seq<char>> {
    let p = split_lines(s);
    if s.len() > 0 && s.last() == '\n' {
        p.drop_last()
    } else {
        p
    }
}

pub open spec fn trim_front(s: Seq<char>) -> Seq<char>
    decreases s.len(),
{
    if s.len() > 0 && is_space(s[0]) {
        trim_front(s.drop_first())
    } else {
        s
    }
}

pub open spec fn trim_back(s: Seq<char>) -> Seq<char>
    decreases s.len(),
{
    if s.len() > 0 && is_space(s.last()) {
        trim_back(s.drop_last())
    } else {
        s
    }
}

/// A line with surrounding whitespace removed.
pub open spec fn trimmed(s: Seq<char>) -> Seq<char> {
    trim_back(trim_front(s))
}

pub open spec fn digits_only(s: Seq<char>) -> bool {
    forall|k: int| 0 <= k < s.len() ==> is_digit_char(#[trigger] s[k])
}

/// The numeric value of a digit character.
pub open spec fn digit_val(c: char) -> u8 {
    (c as u32 - 48) as u8
}

/// Splitting is determined by the first newline: if `s` has no newline before
/// position `e`, and `e` is either the end or a newline, the pieces are the
/// prefix plus the pieces of what follows the newline.
pub proof fn lemma_split_scan(s: Seq<char>, e: int)
    requires
        0 <= e <= s.len(),
        forall|j: int| 0 <= j < e ==> s[j] != '\n',
        e == s.len() || s[e] == '\n',
    ensures
        e == s.len() ==> split_lines(s) == seq![s],
        e < s.len() ==> split_lines(s) == seq![s.take(e)] + split_lines(s.skip(e + 1)),
    decreases e,
{
    if e == 0 {
        if e == s.len() {
            assert(split_lines(s) =~~= seq![s]);
        } else {
            assert(s[0] == '\n');
            assert(s.drop_first() =~= s.skip(1));
            assert(s.take(0) =~= Seq::<char>::empty());
            assert(split_lines(s) =~= seq![s.take(0)] + split_lines(s.skip(1)));
        }
    } else {
        let d = s.drop_first();
        assert(d =~= s.skip(1));
        lemma_split_scan(d, e - 1);
        if e == s.len() {
            assert(split_lines(d) == seq![d]);
            assert(seq![s[0]] + d =~= s);
            assert(split_lines(s) =~= seq![s]);
        } else {
            assert(split_lines(d) == seq![d.take(e - 1)] + split_lines(d.skip(e)));
            assert(seq![s[0]] + d.take(e - 1) =~= s.take(e));
            assert(d.skip(e) =~= s.skip(e + 1));
            assert(split_lines(s) =~= seq![s.take(e)] + split_lines(s.skip(e + 1)));
        }
    }
}

/// Splitting always yields at least one piece.
pub proof fn lemma_split_len(s: Seq<char>)
    ensures
        split_lines(s).len() >= 1,
    decreases s.len(),
{
    if s.len() == 0 {
    } else {
        lemma_split_len(s.drop_first());
    }
}

/// A text ending in a newline splits into at least two pieces.
pub proof fn lemma_split_trailing_newline(s: Seq<char>)
    requires
        s.len() > 0,
        s.last() == '\n',
    ensures
        split_lines(s).len() >= 2,
    decreases s.len(),
{
    lemma_split_len(s.drop_first());
    if s.len() == 1 {
        assert(s[0] == '\n');
    } else {
        let d = s.drop_first();
        assert(d.last() == s.last());
        lemma_split_trailing_newline(d);
    }
}

/// Front trimming removes exactly the leading run of whitespace.
pub proof fn lemma_trim_front_scan(s: Seq<char>, a: int)
    requires
        0 <= a <= s.len(),
        forall|j: int| 0 <= j < a ==> is_space(s[j]),
        a == s.len() || !is_space(s[a]),
    ensures
        trim_front(s) == s.skip(a),
    decreases a,
{
    if a == 0 {
        assert(trim_front(s) =~= s.skip(0));
    } else {
        let d = s.drop_first();
        assert(d =~= s.skip(1));
        lemma_trim_front_scan(d, a - 1);
        assert(d.skip(a - 1) =~= s.skip(a));
    }
}

/// Back trimming removes exactly the trailing run of whitespace.
pub proof fn lemma_trim_back_scan(s: Seq<char>, b: int)
    requires
        0 <= b <= s.len(),
        forall|j: int| b <= j < s.len() ==> is_space(s[j]),
        b == 0 || !is_space(s[b - 1]),
    ensures
        trim_back(s) == s.take(b),
    decreases s.len() - b,
{
    if b == s.len() {
        assert(trim_back(s) =~= s.take(b));
    } else {
        let d = s.drop_last();
        assert(d =~= s.take(s.len() - 1));
        lemma_trim_back_scan(d, b);
        assert(d.take(b) =~= s.take(b));
    }
}

/// The text of the first `n` rows of a row-major grid of characters: each
/// row's `w` cells followed by a newline.
pub open spec fn rows_text(g: Seq<char>, w: int, n: int) -> Seq<char>
    decreases n,
{
    if n <= 0 {
        Seq::<char>::empty()
    } else {
        rows_text(g, w, n - 1) + g.subrange((n - 1) * w, n * w) + "\n"@
    }
}

/// Trimming does not touch a non-empty line of digits.
pub proof fn lemma_trim_digits(s: Seq<char>)
    requires
        digits_only(s),
    ensures
        trimmed(s) == s,
{
    reveal_strlit("\n");
    if s.len() > 0 {
        assert(!is_space(s[0]));
        assert(!is_space(s.last()));
    }
    lemma_trim_front_scan(s, 0);
    assert(s.skip(0) =~= s);
    lemma_trim_back_scan(s, s.len() as int);
    assert(s.take(s.len() as int) =~= s);
}

/// Grid text peels from the front: the first row, a newline, and the text
/// of the remaining rows over the rest of the grid.
proof fn lemma_rows_text_peel(g: Seq<char>, w: int, n: int)
    requires
        w >= 1,
        n >= 1,
        g.len() >= n * w,
    ensures
        rows_text(g, w, n) == g.subrange(0, w) + "\n"@ + rows_text(g.skip(w), w, n - 1),
    decreases n,
{
    reveal_strlit("\n");
    if n == 1 {
        assert(1 * w == w && 0 * w == 0);
        assert(rows_text(g, w, 0) =~= Seq::<char>::empty());
        assert(rows_text(g.skip(w), w, 0) =~= Seq::<char>::empty());
        assert(rows_text(g, w, 1) =~= g.subrange(0, w) + "\n"@ + rows_text(g.skip(w), w, 0));
    } else {
        assert((n - 1) * w <= n * w) by (nonlinear_arith)
            requires
                w >= 1,
                n >= 1,
        ;
        lemma_rows_text_peel(g, w, n - 1);
        assert((n - 1) * w >= w) by (nonlinear_arith)
            requires
                n >= 2,
                w >= 1,
        ;
        assert(n * w >= (n - 1) * w) by (nonlinear_arith)
            requires
                w >= 1,
                n >= 1,
        ;
        let gs = g.skip(w);
        assert(g.subrange((n - 1) * w, n * w) =~= gs.subrange((n - 1) * w - w, n * w - w));
        assert((n - 1) * w - w == (n - 2) * w && n * w - w == (n - 1) * w) by (nonlinear_arith);
        assert(rows_text(gs, w, n - 1)
            == rows_text(gs, w, n - 2) + gs.subrange((n - 2) * w, (n - 1) * w) + "\n"@);
        assert(rows_text(g, w, n)
            =~= g.subrange(0, w) + "\n"@ + rows_text(gs, w, n - 1));
    }
}

/// Rendered grid text parses back into its rows: splitting the text of `h`
/// digit rows yields exactly those rows and one final empty piece.
#[verifier::spinoff_prover]
#[verifier::rlimit(60)]
pub proof fn lemma_text_rows(g: Seq<char>, w: int, h: int)
    requires
        w >= 1,
        h >= 1,
        g.len() == w * h,
        forall|i: int| 0 <= i < g.len() ==> crate::is_digit_char(#[trigger] g[i]),
    ensures
        rows_text(g, w, h).len() > 0,
        rows_text(g, w, h).last() == '\n',
        rows_of(rows_text(g, w, h)).len() == h,
        forall|y: int| 0 <= y < h
            ==> rows_of(rows_text(g, w, h))[y] =~= g.subrange(y * w, (y + 1) * w),
    decreases h,
{
    reveal_strlit("\n");
    let t = rows_text(g, w, h);
    assert(h * w <= g.len()) by (nonlinear_arith)
        requires
            g.len() == w * h,
    ;
    assert(w <= g.len()) by (nonlinear_arith)
        requires
            g.len() == w * h,
            w >= 1,
            h >= 1,
    ;
    assert(0 <= (h - 1) * w && (h - 1) * w + w == h * w && h * w <= g.len())
        by (nonlinear_arith)
        requires
            g.len() == w * h,
            w >= 1,
            h >= 1,
    ;
    lemma_rows_text_peel(g, w, h);
    let row0 = g.subrange(0, w);
    assert(t.len() >= w + 1);
    assert(t.last() == '\n') by {
        assert(t == rows_text(g, w, h - 1) + g.subrange((h - 1) * w, h * w) + "\n"@);
        assert("\n"@.len() == 1 && "\n"@[0] == '\n');
    }
    // the first newline of the text stands right after the first row
    assert(forall|j: int| 0 <= j < w ==> t[j] == row0[j] && t[j] != '\n');
    assert(t[w as int] == '\n') by {
        assert(t == row0 + "\n"@ + rows_text(g.skip(w), w, h - 1));
        assert((row0 + "\n"@)[w as int] == '\n');
    }
    lemma_split_scan(t, w);
    let rest = t.skip(w + 1);
    assert(rest =~= rows_text(g.skip(w), w, h - 1));
    assert(t.take(w) =~= row0);
    if h == 1 {
        assert(rest =~= Seq::<char>::empty());
        assert(split_lines(rest) == seq![Seq::<char>::empty()]);
        assert(split_lines(t) == seq![row0] + seq![Seq::<char>::empty()]);
        assert(rows_of(t) =~= seq![row0]);
        assert(rows_of(t)[0] =~= g.subrange(0, w));
    } else {
        let gs = g.skip(w);
        assert(gs.len() == w * (h - 1)) by (nonlinear_arith)
            requires
                g.len() == w * h,
                gs.len() == g.len() - w,
                w >= 1,
                h >= 2,
        ;
        lemma_text_rows(gs, w, h - 1);
        let ts = rows_text(gs, w, h - 1);
        assert(split_lines(t) == seq![row0] + split_lines(ts));
        assert(ts.len() > 0 && ts.last() == '\n');
        assert(rows_of(ts) == split_lines(ts).drop_last());
        assert(rows_of(t) =~= seq![row0] + rows_of(ts)) by {
            assert(rows_of(t) == split_lines(t).drop_last());
            assert(split_lines(t).drop_last() =~= seq![row0] + split_lines(ts).drop_last());
        }
        assert forall|y: int| 0 <= y < h
            implies rows_of(t)[y] =~= g.subrange(y * w, (y + 1) * w) by {
            if y == 0 {
                assert(rows_of(t)[0] == row0);
            } else {
                assert(rows_of(t)[y] == rows_of(ts)[y - 1]);
                assert(rows_of(ts)[y - 1] =~= gs.subrange((y - 1) * w, ((y - 1) + 1) * w));
                assert(((y - 1) + 1) * w == y * w) by (nonlinear_arith);
                assert(rows_of(ts)[y - 1] =~= gs.subrange((y - 1) * w, y * w));
                assert(0 <= (y - 1) * w && (y - 1) * w + w == y * w
                    && y * w + w == (y + 1) * w && (y + 1) * w <= g.len())
                    by (nonlinear_arith)
                    requires
                        1 <= y < h,
                        w >= 1,
                        g.len() == w * h,
                ;
                assert(gs.subrange((y - 1) * w, y * w)
                    =~= g.subrange(y * w, (y + 1) * w)) by {
                    assert forall|q: int| 0 <= q < w
                        implies #[trigger] gs.subrange((y - 1) * w, y * w)[q]
                            == g.subrange(y * w, (y + 1) * w)[q] by {
                        assert(gs.subrange((y - 1) * w, y * w)[q] == gs[(y - 1) * w + q]);
                        assert(gs[(y - 1) * w + q] == g[w + (y - 1) * w + q]);
                    }
                }
            }
        }
    }
}

/// The characters of a string, as a vector.
pub fn str_chars(s: &str) -> (r: Vec<char>)
    ensures
        r@ == s@,
{
    let n = s.unicode_len();
    let mut r: Vec<char> = Vec::new();
    let mut i: usize = 0;
    while i < n
        invariant
            i <= n,
            n == s@.len(),
            r@ == s@.take(i as int),
        decreases n - i,
    {
        let c = s.get_char(i);
        r.push(c);
        proof {
            assert(r@ =~= s@.take(i + 1));
        }
        i += 1;
    }
    proof {
        assert(r@ =~= s@);
    }
    r
}

pub fn is_space_char(c: char) -> (r: bool)
    ensures
        r == is_space(c),
{
    c == ' ' || c == '\t' || c == '\r'
}

} // verus!
