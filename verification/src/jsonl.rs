//! Framing of JSON Lines input.
//!
//! The input is cut at every `'\n'`; each piece is trimmed of leading and
//! trailing white space (Unicode `White_Space`, which includes `'\r'`), and
//! the pieces left empty are skipped. Every kept line carries its 1-based
//! line number. Decoding a line into a document is not done here.
use vstd::prelude::*;

verus! {

/// Is `c` a Unicode `White_Space` code point?
pub open spec fn is_white_space(c: char) -> bool {
    let u = c as u32;
    ||| 0x09 <= u <= 0x0d
    ||| u == 0x20
    ||| u == 0x85
    ||| u == 0xa0
    ||| u == 0x1680
    ||| 0x2000 <= u <= 0x200a
    ||| u == 0x2028
    ||| u == 0x2029
    ||| u == 0x202f
    ||| u == 0x205f
    ||| u == 0x3000
}

/// Whether `c` is white space, in the sense of [`is_white_space`] (the set
/// that `char::is_whitespace` documents).
pub fn white_space(c: char) -> (r: bool)
    ensures
        r == is_white_space(c),
{
    let u = c as u32;
    (0x09 <= u && u <= 0x0d) || u == 0x20 || u == 0x85 || u == 0xa0 || u == 0x1680 || (0x2000
        <= u && u <= 0x200a) || u == 0x2028 || u == 0x2029 || u == 0x202f || u == 0x205f || u
        == 0x3000
}

/// `String::push`: appends one character.
pub assume_specification[ String::push ](s: &mut String, ch: char)
    ensures
        final(s)@ == old(s)@.push(ch),
;

/// The pieces of `s` between `'\n'` characters: one more than there are
/// newlines.
pub open spec fn newline_pieces(s: Seq<char>) -> Seq<Seq<char>>
    decreases s.len(),
{
    if s.len() == 0 {
        seq![Seq::empty()]
    } else {
        let p = newline_pieces(s.drop_last());
        if s.last() == '\n' {
            p.push(Seq::empty())
        } else {
            p.update(p.len() - 1, p.last().push(s.last()))
        }
    }
}

/// `s` without its leading white space.
pub open spec fn trim_start(s: Seq<char>) -> Seq<char>
    decreases s.len(),
{
    if s.len() > 0 && is_white_space(s[0]) {
        trim_start(s.drop_first())
    } else {
        s
    }
}

/// `s` without its trailing white space.
pub open spec fn trim_end(s: Seq<char>) -> Seq<char>
    decreases s.len(),
{
    if s.len() > 0 && is_white_space(s.last()) {
        trim_end(s.drop_last())
    } else {
        s
    }
}

/// `s` without leading and trailing white space.
pub open spec fn trimmed(s: Seq<char>) -> Seq<char> {
    trim_end(trim_start(s))
}

/// The kept lines of `pieces`: (1-based number, trimmed text) for each
/// piece whose trimmed text is not empty, in order.
pub open spec fn kept_lines(pieces: Seq<Seq<char>>) -> Seq<(nat, Seq<char>)>
    decreases pieces.len(),
{
    if pieces.len() == 0 {
        Seq::empty()
    } else {
        let rest = kept_lines(pieces.drop_last());
        let t = trimmed(pieces.last());
        if t.len() > 0 {
            rest.push((pieces.len(), t))
        } else {
            rest
        }
    }
}

/// The lines that `raw` frames.
pub open spec fn jsonl_frames(raw: Seq<char>) -> Seq<(nat, Seq<char>)> {
    kept_lines(newline_pieces(raw))
}

/// One kept line of JSON Lines input.
#[derive(Debug, Clone)]
pub struct JsonlLine {
    /// 1-based line number in the input.
    pub number: usize,
    /// The line without leading and trailing white space; never empty.
    pub text: String,
}

/// The model of a framed line.
pub open spec fn line_model(l: JsonlLine) -> (nat, Seq<char>) {
    (l.number as nat, l.text@)
}

/// The piece list is never empty.
proof fn lemma_newline_pieces_len(s: Seq<char>)
    ensures
        newline_pieces(s).len() >= 1,
        newline_pieces(s).len() <= s.len() + 1,
    decreases s.len(),
{
    if s.len() > 0 {
        lemma_newline_pieces_len(s.drop_last());
    }
}

/// The trimmed text of `cs`, as a string.
fn trim_chars(cs: &Vec<char>) -> (r: String)
    ensures
        r@ == trimmed(cs@),
{
    let ghost s = cs@;
    let n = cs.len();
    let mut a: usize = 0;
    assert(s.skip(0) =~= s);
    while a < n && white_space(cs[a])
        invariant
            n == s.len(),
            s == cs@,
            0 <= a <= n,
            trim_start(s) == trim_start(s.skip(a as int)),
        decreases n - a,
    {
        assert(s.skip(a as int).drop_first() =~= s.skip(a + 1));
        a += 1;
    }
    assert(trim_start(s) == s.skip(a as int)) by {
        if a < n {
            assert(s.skip(a as int)[0] == s[a as int]);
        }
    }
    let mut b: usize = n;
    while b > a && white_space(cs[b - 1])
        invariant
            n == s.len(),
            s == cs@,
            0 <= a <= b <= n,
            trimmed(s) == trim_end(s.subrange(a as int, b as int)),
        decreases b - a,
    {
        assert(s.subrange(a as int, b as int).drop_last() =~= s.subrange(a as int, b - 1));
        b -= 1;
    }
    assert(s.skip(a as int) =~= s.subrange(a as int, n as int));
    let mut r = String::new();
    let mut k: usize = a;
    while k < b
        invariant
            s == cs@,
            0 <= a <= k <= b <= n,
            n == s.len(),
            r@ == s.subrange(a as int, k as int),
        decreases b - k,
    {
        r.push(cs[k]);
        assert(r@ =~= s.subrange(a as int, k + 1));
        k += 1;
    }
    r
}

/// Frame `raw` into its kept lines, as [`jsonl_frames`] states them.
pub fn jsonl_lines(raw: &str) -> (r: Vec<JsonlLine>)
    ensures
        r@.map_values(|l: JsonlLine| line_model(l)) == jsonl_frames(raw@),
{
    let total = raw.unicode_len();
    let ghost mut done: Seq<Seq<char>> = Seq::empty();
    let mut cur: Vec<char> = Vec::new();
    let mut pieces: usize = 0;
    let mut out: Vec<JsonlLine> = Vec::new();
    for c in it: raw.chars()
        invariant
            total == raw@.len(),
            it.seq() == raw@,
            newline_pieces(raw@.take(it.index() as int)) == done.push(cur@),
            pieces == done.len(),
            done.len() + cur@.len() <= it.index(),
            out@.map_values(|l: JsonlLine| line_model(l)) == kept_lines(done),
    {
        let ghost prefix = raw@.take(it.index() as int);
        assert(raw@.take(it.index() + 1).drop_last() =~= prefix);
        if c == '\n' {
            let text = trim_chars(&cur);
            let ghost piece = cur@;
            if !text.as_str().is_empty() {
                out.push(JsonlLine { number: pieces + 1, text });
            }
            proof {
                assert(done.push(piece).drop_last() =~= done);
                assert(newline_pieces(raw@.take(it.index() + 1)) == done.push(piece).push(Seq::empty()));
                done = done.push(piece);
            }
            assert(out@.map_values(|l: JsonlLine| line_model(l)) =~= kept_lines(done));
            cur = Vec::new();
            pieces += 1;
        } else {
            cur.push(c);
            assert(newline_pieces(raw@.take(it.index() + 1)) =~= done.push(cur@));
        }
    }
    assert(raw@.take(raw@.len() as int) =~= raw@);
    let text = trim_chars(&cur);
    let ghost piece = cur@;
    if !text.as_str().is_empty() {
        assert(cur@.len() > 0) by {
            if cur@.len() == 0 {
                assert(trimmed(cur@) =~= Seq::<char>::empty());
            }
        }
        out.push(JsonlLine { number: pieces + 1, text });
    }
    proof {
        let all = done.push(piece);
        assert(all.drop_last() =~= done);
    }
    assert(out@.map_values(|l: JsonlLine| line_model(l)) =~= kept_lines(done.push(piece)));
    out
}

} // verus!
