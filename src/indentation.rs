use vstd::prelude::*;

verus! {

/// Whether the element at `i` opens a non-empty line: it follows the start of
/// the text or a line break, and is not itself a line break.
pub open spec fn opens_line<T>(s: Seq<T>, i: int, nl: T) -> bool {
    (i == 0 || s[i - 1] == nl) && s[i] != nl
}

/// The output that the element at `i` contributes: itself, preceded by `pad`
/// when it opens a non-empty line.
pub open spec fn piece<T>(s: Seq<T>, i: int, nl: T, pad: Seq<T>) -> Seq<T> {
    if opens_line(s, i, nl) {
        pad.push(s[i])
    } else {
        seq![s[i]]
    }
}

/// The pieces of the elements in `lo..hi`, in order.
pub open spec fn pieces<T>(s: Seq<T>, lo: int, hi: int, nl: T, pad: Seq<T>) -> Seq<T>
    decreases hi - lo,
{
    if hi <= lo {
        Seq::empty()
    } else {
        pieces(s, lo, hi - 1, nl, pad) + piece(s, hi - 1, nl, pad)
    }
}

/// How many elements in `lo..hi` open a non-empty line.
pub open spec fn opened_lines<T>(s: Seq<T>, lo: int, hi: int, nl: T) -> nat
    decreases hi - lo,
{
    if hi <= lo {
        0
    } else {
        opened_lines(s, lo, hi - 1, nl) + if opens_line(s, hi - 1, nl) {
            1nat
        } else {
            0nat
        }
    }
}

/// `s` with `pad` put in front of every non-empty line; empty lines stay empty.
pub open spec fn indented<T>(s: Seq<T>, nl: T, pad: Seq<T>) -> Seq<T> {
    pieces(s, 0, s.len() as int, nl, pad)
}

pub open spec fn spaces(n: nat) -> Seq<u8> {
    Seq::new(n, |i: int| 32u8)
}

pub open spec fn space_chars(n: nat) -> Seq<char> {
    Seq::new(n, |i: int| ' ')
}

/// The bytes `s` with every non-empty line shifted right by `n` spaces.
pub open spec fn indent_bytes(s: Seq<u8>, n: nat) -> Seq<u8> {
    indented(s, 10u8, spaces(n))
}

/// The text `s` with every non-empty line shifted right by `n` spaces.
pub open spec fn indent_chars(s: Seq<char>, n: nat) -> Seq<char> {
    indented(s, '\n', space_chars(n))
}

/// How many elements stand between position `i` and the line break before it
/// (or the start of `s`).
pub open spec fn column<T>(s: Seq<T>, i: int, nl: T) -> nat
    decreases i,
{
    if i <= 0 {
        0
    } else if s[i - 1] == nl {
        0
    } else {
        column(s, i - 1, nl) + 1
    }
}

/// Whether the char at `i` is a carriage return that, with the line break after
/// it, ends a line.
pub open spec fn ends_line_with_cr(s: Seq<char>, i: int) -> bool {
    s[i] == '\r' && i + 1 < s.len() && s[i + 1] == '\n'
}

/// Whether the char at `i` lies in the first `n` columns of its line and is
/// neither a space nor part of a line ending.
pub open spec fn blocks_unindent(s: Seq<char>, i: int, n: nat) -> bool {
    s[i] != '\n' && !ends_line_with_cr(s, i) && column(s, i, '\n') < n && s[i] != ' '
}

/// The chars of `s[..hi]` that remain when the first `n` columns of every line
/// are taken away and each line ending (`\n` or `\r\n`) becomes `\n`.
pub open spec fn kept(s: Seq<char>, hi: int, n: nat) -> Seq<char>
    decreases hi,
{
    if hi <= 0 {
        Seq::empty()
    } else if s[hi - 1] == '\n' {
        kept(s, hi - 1, n).push('\n')
    } else if ends_line_with_cr(s, hi - 1) || column(s, hi - 1, '\n') < n {
        kept(s, hi - 1, n)
    } else {
        kept(s, hi - 1, n).push(s[hi - 1])
    }
}

/// `s` with the first `n` columns of every line removed, each line ending in
/// `\n`, the last one too unless `s` is empty.
pub open spec fn unindent_chars(s: Seq<char>, n: nat) -> Seq<char> {
    if s.len() > 0 && s.last() != '\n' {
        kept(s, s.len() as int, n).push('\n')
    } else {
        kept(s, s.len() as int, n)
    }
}

/// The first `n` columns counted at `i`: the column, or `n` beyond it.
pub open spec fn capped_column(s: Seq<char>, i: int, n: nat) -> nat {
    if column(s, i, '\n') < n {
        column(s, i, '\n')
    } else {
        n
    }
}

/// `s`, with a line break appended when it is neither empty nor ends in one.
pub open spec fn with_tailing_linebreak<T>(s: Seq<T>, nl: T) -> Seq<T> {
    if s.len() > 0 && s.last() != nl {
        s.push(nl)
    } else {
        s
    }
}

pub proof fn lemma_indented_tailing_linebreak<T>(s: Seq<T>, nl: T, pad: Seq<T>)
    ensures
        indented(with_tailing_linebreak(s, nl), nl, pad) == if s.len() > 0 && s.last() != nl {
            indented(s, nl, pad).push(nl)
        } else {
            indented(s, nl, pad)
        },
{
    if s.len() > 0 && s.last() != nl {
        let t = s.push(nl);
        lemma_pieces_prefix(s, t, 0, s.len() as int, nl, pad);
        assert(piece(t, s.len() as int, nl, pad) =~= seq![nl]);
        assert(indented(t, nl, pad) =~= indented(s, nl, pad).push(nl));
    }
}

pub proof fn lemma_pieces_front<T>(s: Seq<T>, lo: int, hi: int, nl: T, pad: Seq<T>)
    requires
        lo < hi,
    ensures
        pieces(s, lo, hi, nl, pad) == piece(s, lo, nl, pad) + pieces(s, lo + 1, hi, nl, pad),
    decreases hi - lo,
{
    if hi - 1 > lo {
        lemma_pieces_front(s, lo, hi - 1, nl, pad);
        assert(pieces(s, lo, hi, nl, pad) =~= piece(s, lo, nl, pad) + pieces(s, lo + 1, hi, nl, pad));
    } else {
        assert(pieces(s, lo, lo, nl, pad) =~= Seq::<T>::empty());
        assert(pieces(s, lo + 1, hi, nl, pad) =~= Seq::<T>::empty());
        assert(pieces(s, lo, hi, nl, pad) =~= piece(s, lo, nl, pad) + pieces(s, lo + 1, hi, nl, pad));
    }
}

pub proof fn lemma_pieces_len<T>(s: Seq<T>, lo: int, hi: int, nl: T, pad: Seq<T>)
    requires
        lo <= hi,
    ensures
        pieces(s, lo, hi, nl, pad).len() == (hi - lo) + opened_lines(s, lo, hi, nl) * pad.len(),
    decreases hi - lo,
{
    if hi > lo {
        lemma_pieces_len(s, lo, hi - 1, nl, pad);
        assert(piece(s, hi - 1, nl, pad).len() == 1 + if opens_line(s, hi - 1, nl) { pad.len() as int } else { 0 });
        assert(opened_lines(s, lo, hi, nl) * pad.len() == opened_lines(s, lo, hi - 1, nl)
            * pad.len() + (if opens_line(s, hi - 1, nl) { pad.len() as int } else { 0 }))
            by (nonlinear_arith)
            requires
                opened_lines(s, lo, hi, nl) == opened_lines(s, lo, hi - 1, nl) + if opens_line(
                    s,
                    hi - 1,
                    nl,
                ) {
                    1nat
                } else {
                    0nat
                },
        ;
    } else {
        assert(opened_lines(s, lo, hi, nl) == 0);
        assert(opened_lines(s, lo, hi, nl) * pad.len() == 0) by (nonlinear_arith)
            requires opened_lines(s, lo, hi, nl) == 0;
    }
}

/// The pieces of `lo..hi` only read the elements in `lo - 1..hi`.
pub proof fn lemma_pieces_prefix<T>(s: Seq<T>, t: Seq<T>, lo: int, hi: int, nl: T, pad: Seq<T>)
    requires
        0 <= lo <= hi <= s.len(),
        hi <= t.len(),
        forall|i: int| 0 <= i < hi ==> s[i] == t[i],
    ensures
        pieces(s, lo, hi, nl, pad) == pieces(t, lo, hi, nl, pad),
        opened_lines(s, lo, hi, nl) == opened_lines(t, lo, hi, nl),
    decreases hi - lo,
{
    if hi > lo {
        lemma_pieces_prefix(s, t, lo, hi - 1, nl, pad);
    }
}

/// A number of leading spaces.
#[derive(Clone, Copy, PartialEq, Eq, Debug)]
pub struct Indentation(pub usize);

/// Why a text cannot be unindented.
#[derive(Clone, Debug, PartialEq, Eq)]
pub enum Unindent_Error {
    NON_WS_IN_INDENTATION,
}

impl Indentation {
    /// The text with `self.0` spaces in front of every non-empty line, each line
    /// ending in a line break.
    pub fn indent_str(self, text: &str) -> (r: String)
        ensures
            r@ == indent_chars(with_tailing_linebreak(text@, '\n'), self.0 as nat),
    {
        indent_lines(text, self.0)
    }

    /// The text with the first `self.0` columns of every line removed; fails
    /// where one of those columns holds something else than a space.
    pub fn unindent_str(self, text: &str) -> (r: Result<String, Unindent_Error>)
        ensures
            match r {
                Ok(t) => t@ == unindent_chars(text@, self.0 as nat)
                    && !exists|i: int| 0 <= i < text@.len() && blocks_unindent(text@, i, self.0 as nat),
                Err(e) => e == Unindent_Error::NON_WS_IN_INDENTATION
                    && exists|i: int| 0 <= i < text@.len() && blocks_unindent(text@, i, self.0 as nat),
            },
    {
        unindent_lines(text, self.0)
    }

    /// The indentation written out: `self.0` spaces.
    pub fn to_spaces(self) -> (r: String)
        ensures
            r@ == space_chars(self.0 as nat),
    {
        let mut r = String::new();
        let mut i: usize = 0;
        while i < self.0
            invariant
                i <= self.0,
                r@ == space_chars(i as nat),
            decreases self.0 - i,
        {
            push_char(&mut r, ' ');
            i = i + 1;
            assert(r@ =~= space_chars(i as nat));
        }
        r
    }
}

/// Relies on `String::push`: appends one char to the text.
#[verifier::external_body]
pub(crate) fn push_char(s: &mut String, c: char)
    ensures
        final(s)@ == old(s)@.push(c),
{
    s.push(c)
}

/// Whether the text's last char is `c`.
fn ends_with_char(s: &str, c: char) -> (r: bool)
    ensures
        r == (s@.len() > 0 && s@.last() == c),
{
    let mut last_is_c = false;
    for d in it: s.chars()
        invariant
            it.seq() == s@,
            last_is_c == (it.index() > 0 && s@[it.index() - 1] == c),
    {
        assert(d == s@[it.index() as int]);
        last_is_c = d == c;
    }
    last_is_c
}

fn indent_lines(input: &str, indentation: usize) -> (r: String)
    ensures
        r@ == indent_chars(with_tailing_linebreak(input@, '\n'), indentation as nat),
{
    let ghost pad = space_chars(indentation as nat);
    let mut output = String::new();
    let mut at_line_start = true;
    let mut last_is_linebreak = false;
    for c in it: input.chars()
        invariant
            it.seq() == input@,
            pad == space_chars(indentation as nat),
            output@ == pieces(input@, 0, it.index() as int, '\n', pad),
            at_line_start == (it.index() == 0 || input@[it.index() - 1] == '\n'),
            last_is_linebreak == (it.index() > 0 && input@[it.index() - 1] == '\n'),
    {
        let ghost i = it.index() as int;
        assert(c == input@[i]);
        if at_line_start && c != '\n' {
            let mut k: usize = 0;
            while k < indentation
                invariant
                    k <= indentation,
                    pad == space_chars(indentation as nat),
                    output@ == pieces(input@, 0, i, '\n', pad) + space_chars(k as nat),
                decreases indentation - k,
            {
                push_char(&mut output, ' ');
                k = k + 1;
                assert(output@ =~= pieces(input@, 0, i, '\n', pad) + space_chars(k as nat));
            }
        }
        push_char(&mut output, c);
        assert(pieces(input@, 0, i + 1, '\n', pad) == pieces(input@, 0, i, '\n', pad) + piece(input@, i, '\n', pad));
        assert(output@ =~= pieces(input@, 0, i + 1, '\n', pad));
        at_line_start = c == '\n';
        last_is_linebreak = c == '\n';
    }
    proof {
        lemma_indented_tailing_linebreak(input@, '\n', pad);
    }
    if !input.is_empty() && !last_is_linebreak {
        push_char(&mut output, '\n');
    }
    output
}

/// Takes the char `c`, at `i` of `s`, into the unindented `output`, where it is
/// not a carriage return ending a line; `col` is its capped column.
fn unindent_char(output: &mut String, col: &mut usize, c: char, indentation: usize, Ghost(s): Ghost<Seq<char>>, Ghost(i): Ghost<int>) -> (ok: bool)
    requires
        0 <= i < s.len(),
        s[i] == c,
        !ends_line_with_cr(s, i),
        old(output)@ == kept(s, i, indentation as nat),
        *old(col) == capped_column(s, i, indentation as nat),
    ensures
        ok ==> final(output)@ == kept(s, i + 1, indentation as nat),
        ok ==> i + 1 < s.len() ==> *final(col) == capped_column(s, i + 1, indentation as nat),
        ok == !blocks_unindent(s, i, indentation as nat),
{
    if c == '\n' {
        push_char(output, c);
        *col = 0;
    } else if *col < indentation {
        if c != ' ' {
            return false;
        }
        *col = *col + 1;
    } else {
        push_char(output, c);
    }
    proof {
        assert(final(output)@ =~= kept(s, i + 1, indentation as nat));
    }
    true
}

fn unindent_lines(input: &str, indentation: usize) -> (r: Result<String, Unindent_Error>)
    ensures
        match r {
            Ok(t) => t@ == unindent_chars(input@, indentation as nat)
                && !exists|i: int| 0 <= i < input@.len() && blocks_unindent(input@, i, indentation as nat),
            Err(e) => e == Unindent_Error::NON_WS_IN_INDENTATION
                && exists|i: int| 0 <= i < input@.len() && blocks_unindent(input@, i, indentation as nat),
        },
{
    let ghost s = input@;
    let ghost n = indentation as nat;
    let mut output = String::new();
    let mut col: usize = 0;
    let mut last_is_linebreak = false;
    // a carriage return whose fate hangs on the next char
    let mut pending = false;
    for c in it: input.chars()
        invariant
            it.seq() == s,
            s == input@,
            n == indentation as nat,
            pending ==> it.index() > 0 && s[it.index() - 1] == '\r',
            output@ == kept(s, it.index() - if pending { 1int } else { 0int }, n),
            it.index() - (if pending { 1int } else { 0int }) < s.len()
                ==> col == capped_column(s, it.index() - if pending { 1int } else { 0int }, n),
            last_is_linebreak == (it.index() > 0 && s[it.index() - 1] == '\n'),
            forall|j: int| 0 <= j < it.index() - (if pending { 1int } else { 0int }) ==> !blocks_unindent(s, j, n),
    {
        let ghost i = it.index() as int;
        assert(c == s[i]);
        if pending {
            pending = false;
            if c == '\n' {
                assert(ends_line_with_cr(s, i - 1));
                assert(kept(s, i, n) == kept(s, i - 1, n));
                assert(!blocks_unindent(s, i - 1, n));
                if col < indentation {
                    col = col + 1;
                }
                assert(col == capped_column(s, i, n));
            } else {
                assert(!ends_line_with_cr(s, i - 1));
                if !unindent_char(&mut output, &mut col, '\r', indentation, Ghost(s), Ghost(i - 1)) {
                    return Err(Unindent_Error::NON_WS_IN_INDENTATION);
                }
            }
        }
        if c == '\r' {
            pending = true;
        } else {
            assert(!ends_line_with_cr(s, i));
            if !unindent_char(&mut output, &mut col, c, indentation, Ghost(s), Ghost(i)) {
                return Err(Unindent_Error::NON_WS_IN_INDENTATION);
            }
        }
        last_is_linebreak = c == '\n';
    }
    if pending {
        pending = false;
        let ghost i = s.len() - 1;
        assert(!ends_line_with_cr(s, i));
        if !unindent_char(&mut output, &mut col, '\r', indentation, Ghost(s), Ghost(i)) {
            return Err(Unindent_Error::NON_WS_IN_INDENTATION);
        }
    }
    if !input.is_empty() && !last_is_linebreak {
        push_char(&mut output, '\n');
    }
    Ok(output)
}

/// Appends a line break to a text that is not empty and does not end in one.
pub fn ensure_tailing_linebreak(xs: String) -> (r: String)
    ensures
        r@ == with_tailing_linebreak(xs@, '\n'),
{
    let mut xs = xs;
    if !xs.as_str().is_empty() && !ends_with_char(xs.as_str(), '\n') {
        push_char(&mut xs, '\n');
    }
    xs
}

/// Counts the bytes of `buf[start..]` that open a non-empty line.
fn count_opened_lines(buf: &Vec<u8>, start: usize) -> (r: usize)
    requires
        start <= buf.len(),
    ensures
        r == opened_lines(buf@.subrange(start as int, buf.len() as int), 0, buf.len() - start, 10u8),
{
    let ghost s = buf@.subrange(start as int, buf.len() as int);
    let mut count: usize = 0;
    let mut i: usize = start;
    while i < buf.len()
        invariant
            start <= i <= buf.len(),
            s == buf@.subrange(start as int, buf.len() as int),
            count == opened_lines(s, 0, i - start, 10u8),
            count <= i - start,
        decreases buf.len() - i,
    {
        if (i == start || buf[i - 1] == 10u8) && buf[i] != 10u8 {
            count = count + 1;
        }
        i = i + 1;
    }
    count
}

/// The number of bytes that `indent_subrange(buf, start, width)` adds, or
/// `None` where the grown buffer's length would not fit in a `usize`.
pub fn indent_growth(buf: &Vec<u8>, start: usize, width: usize) -> (r: Option<usize>)
    requires
        start <= buf.len(),
    ensures
        ({
            let grow = opened_lines(buf@.subrange(start as int, buf.len() as int), 0, buf.len() - start, 10u8) * width;
            match r {
                Some(g) => g == grow && buf.len() + grow <= usize::MAX,
                None => buf.len() + grow > usize::MAX,
            }
        }),
{
    let count = count_opened_lines(buf, start);
    if width == 0 {
        assert(count * width == 0) by (nonlinear_arith) requires width == 0;
        return Some(0);
    }
    let room: usize = usize::MAX - buf.len();
    if count > room / width {
        assert(count * width > room) by (nonlinear_arith)
            requires count > room / width, width > 0;
        None
    } else {
        assert(count * width <= room) by (nonlinear_arith)
            requires count <= room / width, width > 0;
        Some(count * width)
    }
}

/// Shifts every non-empty line of `buf[start..]` right by `width` spaces, in
/// place, leaving `buf[..start]` as it was. The bytes are moved in one pass from
/// the end towards `start`, after one growth of the buffer.
pub fn indent_subrange(buf: &mut Vec<u8>, start: usize, width: usize)
    requires
        start <= old(buf).len(),
        old(buf).len() + opened_lines(old(buf)@.subrange(start as int, old(buf).len() as int), 0, old(buf).len() - start, 10u8) * width <= usize::MAX,
    ensures
        final(buf)@ == old(buf)@.subrange(0, start as int) + indent_bytes(old(buf)@.subrange(start as int, old(buf).len() as int), width as nat),
{
    let ghost old_buf = buf@;
    let len = buf.len();
    let ghost s = old_buf.subrange(start as int, len as int);
    let ghost l = s.len() as int;
    let count = count_opened_lines(buf, start);
    let growth: usize = count * width;
    proof {
        lemma_pieces_len(s, 0, l, 10u8, spaces(width as nat));
    }
    buf.resize(len + growth, 32u8);
    let mut r: usize = len - start;
    let mut dst: usize = len + growth;
    proof {
        assert(buf@.subrange(dst as int, (len + growth) as int) =~= pieces(s, l, l, 10u8, spaces(width as nat)));
        assert(buf@.subrange(0, start + r) =~= old_buf.subrange(0, start + r));
    }
    while r > 0
        invariant
            start + r <= len,
            len == old_buf.len(),
            s == old_buf.subrange(start as int, len as int),
            l == len - start,
            buf.len() == len + growth,
            growth == opened_lines(s, 0, l, 10u8) * width,
            len + growth <= usize::MAX,
            dst == start + r + opened_lines(s, 0, r as int, 10u8) * width,
            dst <= len + growth,
            buf@.subrange(0, start + r) == old_buf.subrange(0, start + r),
            buf@.subrange(dst as int, (len + growth) as int) == pieces(s, r as int, l, 10u8, spaces(width as nat)),
        decreases r,
    {
        let ghost r0 = r as int;
        r = r - 1;
        let c = buf[start + r];
        let opens = (r == 0 || buf[start + r - 1] == 10u8) && c != 10u8;
        let ghost pw = opened_lines(s, 0, r as int, 10u8) * width;
        proof {
            assert(old_buf.subrange(0, start + r0)[start + r] == old_buf[start + r]);
            assert(c == s[r as int]);
            if r > 0 {
                assert(old_buf.subrange(0, start + r0)[start + r - 1] == old_buf[start + r - 1]);
                assert(buf[start + r - 1] == s[r - 1]);
            }
            assert(opens == opens_line(s, r as int, 10u8));
            let p = opened_lines(s, 0, r as int, 10u8);
            assert(opened_lines(s, 0, r0, 10u8) == p + if opens { 1nat } else { 0nat });
            if opens {
                assert((p + 1) * width == p * width + width) by (nonlinear_arith);
            }
        }
        dst = dst - 1;
        buf.set(dst, c);
        proof {
            assert(buf@.subrange(dst as int, (len + growth) as int) =~= seq![c] + pieces(s, r + 1, l, 10u8, spaces(width as nat)));
            assert(buf@.subrange(0, start + r) =~= old_buf.subrange(0, start + r));
        }
        if opens {
            let mut k: usize = 0;
            while k < width
                invariant
                    k <= width,
                    start + r < len,
                    len == old_buf.len(),
                    pw >= 0,
                    dst == start + r + pw + (width - k),
                    len + growth <= usize::MAX,
                    dst <= len + growth,
                    buf.len() == len + growth,
                    buf@.subrange(0, start + r) == old_buf.subrange(0, start + r),
                    buf@.subrange(dst as int, (len + growth) as int) == spaces(k as nat) + seq![c] + pieces(s, r + 1, l, 10u8, spaces(width as nat)),
                decreases width - k,
            {
                let ghost prev = buf@;
                dst = dst - 1;
                buf.set(dst, 32u8);
                k = k + 1;
                proof {
                    assert(buf@.subrange(dst + 1, (len + growth) as int) =~= prev.subrange(dst + 1, (len + growth) as int));
                    assert(spaces(k as nat) =~= seq![32u8] + spaces((k - 1) as nat));
                    assert(buf@.subrange(dst as int, (len + growth) as int) =~= seq![32u8] + buf@.subrange(dst + 1, (len + growth) as int));
                    assert(spaces(k as nat) + seq![c] + pieces(s, r + 1, l, 10u8, spaces(width as nat)) =~= seq![32u8] + (spaces((k - 1) as nat) + seq![c] + pieces(s, r + 1, l, 10u8, spaces(width as nat))));
                    assert(buf@.subrange(dst as int, (len + growth) as int) =~= spaces(k as nat) + seq![c] + pieces(s, r + 1, l, 10u8, spaces(width as nat)));
                    assert(buf@.subrange(0, start + r) =~= old_buf.subrange(0, start + r));
                }
            }
        }
        proof {
            lemma_pieces_front(s, r as int, l, 10u8, spaces(width as nat));
            assert(buf@.subrange(dst as int, (len + growth) as int) =~= pieces(s, r as int, l, 10u8, spaces(width as nat)));
        }
    }
    proof {
        assert(opened_lines(s, 0, 0, 10u8) * width == 0);
        assert(buf@ =~= buf@.subrange(0, start as int) + buf@.subrange(start as int, (len + growth) as int));
    }
}

} // verus!
