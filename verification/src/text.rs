//! The text form of a board: four rows separated by `|`, each of four decimal
//! magnitudes separated by one space.

use vstd::prelude::*;
use vstd::string::StringExecFns;

verus! {

/// `String::push` of the standard library, as its documentation has it, not
/// proved here: it appends the given character to the end of the string.
pub assume_specification[ String::push ](s: &mut String, c: char)
    ensures
        final(s)@ == old(s)@.push(c),
;

/// A character that ends a token.
pub open spec fn is_separator(c: char) -> bool {
    c == ' ' || c == '|'
}

/// `c` is one of the decimal digits.
pub open spec fn is_digit(c: char) -> bool {
    '0' <= c && c <= '9'
}

/// The decimal digit that `c` stands for.
pub open spec fn digit_value(c: char) -> int {
    c as int - 48
}

/// The character for the decimal digit `d`.
pub open spec fn digit_char(d: int) -> char {
    (48 + d) as char
}

/// Every character of `s` is a decimal digit.
pub open spec fn all_digits(s: Seq<char>) -> bool {
    forall|i: int| 0 <= i < s.len() ==> is_digit(#[trigger] s[i])
}

/// The number that a run of decimal digits stands for.
pub open spec fn digits_value(s: Seq<char>) -> int
    decreases s.len(),
{
    if s.len() == 0 {
        0
    } else {
        10 * digits_value(s.drop_last()) + digit_value(s.last())
    }
}

/// A token without its optional leading `+`.
pub open spec fn unsigned_part(t: Seq<char>) -> Seq<char> {
    if t.len() > 0 && t[0] == '+' {
        t.subrange(1, t.len() as int)
    } else {
        t
    }
}

/// The magnitude that a token stands for: an optional `+`, then one or more
/// decimal digits whose value is at most 255. Any other token stands for none.
pub open spec fn token_value(t: Seq<char>) -> Option<u8> {
    let d = unsigned_part(t);
    if d.len() > 0 && all_digits(d) && digits_value(d) <= 255 {
        Some(digits_value(d) as u8)
    } else {
        None
    }
}

/// Length of the token at the start of `s`: the characters before the first separator.
pub open spec fn token_end(s: Seq<char>) -> int
    decreases s.len(),
{
    if s.len() == 0 || is_separator(s[0]) {
        0
    } else {
        1 + token_end(s.drop_first())
    }
}

/// The separator that follows cell `k`: `|` at the end of a row, a space elsewhere.
pub open spec fn separator_after(k: int) -> char {
    if k % 4 == 3 {
        '|'
    } else {
        ' '
    }
}

/// The magnitudes of cells `k` to 15 that the text `s` holds, if it holds
/// exactly those: each a token, each but the last followed by its separator.
pub open spec fn parse_tokens(s: Seq<char>, k: int) -> Option<Seq<u8>>
    decreases 16 - k,
{
    let e = token_end(s);
    match token_value(s.subrange(0, e)) {
        None => None,
        Some(v) => if k >= 15 {
            if e == s.len() {
                Some(seq![v])
            } else {
                None
            }
        } else if e < s.len() && s[e] == separator_after(k) {
            match parse_tokens(s.subrange(e + 1, s.len() as int), k + 1) {
                None => None,
                Some(rest) => Some(seq![v] + rest),
            }
        } else {
            None
        },
    }
}

/// The sixteen magnitudes that a board text holds, or none when it is malformed.
pub open spec fn parse_text(s: Seq<char>) -> Option<Seq<u8>> {
    parse_tokens(s, 0)
}

/// A magnitude in decimal, without sign or leading zeros.
pub open spec fn number_text(v: u8) -> Seq<char> {
    if v < 10 {
        seq![digit_char(v as int)]
    } else if v < 100 {
        seq![digit_char(v as int / 10), digit_char(v as int % 10)]
    } else {
        seq![digit_char(v as int / 100), digit_char(v as int / 10 % 10), digit_char(v as int % 10)]
    }
}

/// The text of cells `k` to 15.
pub open spec fn cells_text(cells: Seq<u8>, k: int) -> Seq<char>
    decreases 16 - k,
{
    if k >= 15 {
        number_text(cells[15])
    } else {
        number_text(cells[k]) + seq![separator_after(k)] + cells_text(cells, k + 1)
    }
}

/// The text of a board with the given sixteen magnitudes.
pub open spec fn board_text(cells: Seq<u8>) -> Seq<char> {
    cells_text(cells, 0)
}

/// From cell `k` on, `s` is a board text in which every magnitude is written
/// without sign or leading zeros.
pub open spec fn plain_text(s: Seq<char>, k: int) -> bool
    decreases 16 - k,
{
    let e = token_end(s);
    let t = s.subrange(0, e);
    match token_value(t) {
        None => false,
        Some(v) => t == number_text(v) && if k >= 15 {
            e == s.len()
        } else {
            e < s.len() && s[e] == separator_after(k) && plain_text(
                s.subrange(e + 1, s.len() as int),
                k + 1,
            )
        },
    }
}

/// The token at the start of `s` ends at the first separator.
proof fn lemma_token_end(s: Seq<char>, e: int)
    requires
        0 <= e <= s.len(),
        forall|i: int| 0 <= i < e ==> !is_separator(#[trigger] s[i]),
        e == s.len() || is_separator(s[e]),
    ensures
        token_end(s) == e,
    decreases e,
{
    if e > 0 {
        lemma_token_end(s.drop_first(), e - 1);
    }
}

/// The value of a run of digits is at least the value of any of its starts.
proof fn lemma_digits_bounds(d: Seq<char>, j: int)
    requires
        all_digits(d),
        0 <= j <= d.len(),
    ensures
        0 <= digits_value(d.subrange(0, j)) <= digits_value(d),
    decreases d.len(),
{
    if d.len() == 0 {
        assert(d.subrange(0, j) =~= d);
    } else if j == d.len() {
        assert(d.subrange(0, j) =~= d);
        lemma_digits_bounds(d.drop_last(), j - 1);
        assert(is_digit(d.last()));
    } else {
        lemma_digits_bounds(d.drop_last(), j);
        assert(d.drop_last().subrange(0, j) =~= d.subrange(0, j));
        assert(is_digit(d.last()));
    }
}

/// The decimal text of a magnitude stands for that magnitude.
proof fn lemma_number_text(v: u8)
    ensures
        token_value(number_text(v)) == Some(v),
        1 <= number_text(v).len() <= 3,
        all_digits(number_text(v)),
{
    let t = number_text(v);
    assert(all_digits(t));
    assert(unsigned_part(t) == t);
    assert(digits_value(Seq::<char>::empty()) == 0);
    assert(forall|d: int| 0 <= d < 10 ==> digit_value(#[trigger] digit_char(d)) == d);
    if v < 10 {
        assert(t.drop_last() =~= Seq::<char>::empty());
        assert(digits_value(t) == v);
    } else if v < 100 {
        let a = seq![digit_char(v as int / 10)];
        assert(t.drop_last() =~= a);
        assert(a.drop_last() =~= Seq::<char>::empty());
        assert(digits_value(a) == v as int / 10);
        assert(digits_value(t) == v);
    } else {
        let b = seq![digit_char(v as int / 100), digit_char(v as int / 10 % 10)];
        let a = seq![digit_char(v as int / 100)];
        assert(t.drop_last() =~= b);
        assert(b.drop_last() =~= a);
        assert(a.drop_last() =~= Seq::<char>::empty());
        assert(digits_value(a) == v as int / 100);
        assert(digits_value(b) == v as int / 10);
        assert(digits_value(t) == v);
    }
}

/// The characters of `s` in order.
pub fn to_chars(s: &str) -> (v: Vec<char>)
    ensures
        v@ == s@,
{
    let mut v: Vec<char> = Vec::new();
    for c in it: s.chars()
        invariant
            it.seq() == s@,
            v@ == it.seq().subrange(0, it.index() as int),
    {
        v.push(c);
    }
    assert(v@ =~= s@);
    v
}

/// The magnitude that the token `chars[from..to]` stands for.
pub fn parse_number(chars: &Vec<char>, from: usize, to: usize) -> (r: Option<u8>)
    requires
        from <= to <= chars@.len(),
    ensures
        r == token_value(chars@.subrange(from as int, to as int)),
{
    let ghost t = chars@.subrange(from as int, to as int);
    let mut i: usize = from;
    if i < to && chars[i] == '+' {
        i = i + 1;
    }
    let ghost d = unsigned_part(t);
    let start: usize = i;
    assert(d =~= chars@.subrange(start as int, to as int));
    if i == to {
        return None;
    }
    let mut acc: u32 = 0;
    assert(d.subrange(0, 0) =~= Seq::<char>::empty());
    while i < to
        invariant
            from <= start <= i <= to <= chars@.len(),
            d == unsigned_part(chars@.subrange(from as int, to as int)),
            d == chars@.subrange(start as int, to as int),
            acc <= 255,
            acc == digits_value(d.subrange(0, i - start)),
            all_digits(d.subrange(0, i - start)),
        decreases to - i,
    {
        let c: char = chars[i];
        if !(c >= '0' && c <= '9') {
            assert(!is_digit(d[i - start]));
            return None;
        }
        let digit: u32 = c as u32 - '0' as u32;
        proof {
            let longer = d.subrange(0, i + 1 - start);
            assert(longer.drop_last() =~= d.subrange(0, i - start));
            assert(longer.last() == c);
            assert forall|j: int| 0 <= j < longer.len() implies is_digit(#[trigger] longer[j]) by {
                if j < i - start {
                    assert(longer[j] == d.subrange(0, i - start)[j]);
                }
            }
        }
        acc = acc * 10 + digit;
        if acc > 255 {
            proof {
                if all_digits(d) {
                    lemma_digits_bounds(d, i + 1 - start);
                }
            }
            return None;
        }
        i = i + 1;
    }
    assert(d.subrange(0, d.len() as int) =~= d);
    Some(acc as u8)
}

/// `cells` followed by what `rest` holds, when it holds anything.
pub open spec fn prepend(cells: Seq<u8>, rest: Option<Seq<u8>>) -> Option<Seq<u8>> {
    match rest {
        None => None,
        Some(r) => Some(cells + r),
    }
}

/// The sixteen magnitudes of a board text, or `None` when the text is malformed.
pub fn parse_cells(chars: &Vec<char>) -> (r: Option<Vec<u8>>)
    ensures
        match r {
            Some(v) => parse_text(chars@) == Some(v@) && v@.len() == 16,
            None => parse_text(chars@) is None,
        },
{
    let n: usize = chars.len();
    let mut cells: Vec<u8> = Vec::new();
    let mut from: usize = 0;
    let mut k: usize = 0;
    assert(chars@.subrange(0, n as int) =~= chars@);
    assert(Seq::<u8>::empty() + parse_tokens(chars@, 0).unwrap() =~= parse_tokens(
        chars@,
        0,
    ).unwrap());
    while k < 16
        invariant
            k <= 16,
            n == chars@.len(),
            from <= n,
            cells@.len() == k,
            k < 16 ==> parse_text(chars@) == prepend(
                cells@,
                parse_tokens(chars@.subrange(from as int, n as int), k as int),
            ),
            k == 16 ==> parse_text(chars@) == Some(cells@),
        decreases 16 - k,
    {
        let ghost s = chars@.subrange(from as int, n as int);
        let mut e: usize = from;
        while e < n && chars[e] != ' ' && chars[e] != '|'
            invariant
                from <= e <= n,
                n == chars@.len(),
                forall|i: int| from <= i < e ==> !is_separator(#[trigger] chars@[i]),
            decreases n - e,
        {
            e = e + 1;
        }
        proof {
            assert forall|i: int| 0 <= i < e - from implies !is_separator(#[trigger] s[i]) by {
                assert(s[i] == chars@[from + i]);
            }
            lemma_token_end(s, e - from);
            assert(s.subrange(0, e - from) =~= chars@.subrange(from as int, e as int));
        }
        let value = parse_number(chars, from, e);
        match value {
            None => {
                return None;
            },
            Some(v) => {
                if k == 15 {
                    if e != n {
                        return None;
                    }
                    proof {
                        assert(cells@ + seq![v] =~= cells@.push(v));
                    }
                    cells.push(v);
                    k = k + 1;
                } else {
                    let sep: char = if k % 4 == 3 {
                        '|'
                    } else {
                        ' '
                    };
                    if e >= n || chars[e] != sep {
                        return None;
                    }
                    proof {
                        assert(s[e - from] == chars@[e as int]);
                        assert(s.subrange(e - from + 1, s.len() as int) =~= chars@.subrange(
                            e + 1,
                            n as int,
                        ));
                        let rest = parse_tokens(chars@.subrange(e + 1, n as int), k + 1);
                        if rest is Some {
                            assert(cells@ + (seq![v] + rest.unwrap()) =~= cells@.push(v)
                                + rest.unwrap());
                        }
                    }
                    cells.push(v);
                    from = e + 1;
                    k = k + 1;
                }
            },
        }
    }
    Some(cells)
}

/// Appends the decimal text of `v` to `out`.
pub fn push_number(out: &mut String, v: u8)
    ensures
        final(out)@ == old(out)@ + number_text(v),
{
    if v >= 100 {
        out.push((48u8 + v / 100) as char);
    }
    if v >= 10 {
        out.push((48u8 + v / 10 % 10) as char);
    }
    out.push((48u8 + v % 10) as char);
    assert(out@ =~= old(out)@ + number_text(v));
}

/// The text of a board with the given sixteen magnitudes.
pub fn render_cells(cells: &Vec<u8>) -> (out: String)
    requires
        cells@.len() == 16,
    ensures
        out@ == board_text(cells@),
{
    let mut out = String::new();
    let mut k: usize = 0;
    assert(out@ + cells_text(cells@, 0) =~= cells_text(cells@, 0));
    while k < 15
        invariant
            k <= 15,
            cells@.len() == 16,
            board_text(cells@) == out@ + cells_text(cells@, k as int),
        decreases 15 - k,
    {
        let ghost before = out@;
        push_number(&mut out, cells[k]);
        out.push(
            if k % 4 == 3 {
                '|'
            } else {
                ' '
            },
        );
        assert(out@ + cells_text(cells@, k + 1) =~= before + cells_text(cells@, k as int));
        k = k + 1;
    }
    push_number(&mut out, cells[15]);
    out
}

/// Reading a rendered board gives back its sixteen magnitudes, and the rendered
/// text carries no sign or leading zero.
pub proof fn lemma_parse_of_render(cells: Seq<u8>, k: int)
    requires
        cells.len() == 16,
        0 <= k <= 15,
    ensures
        parse_tokens(cells_text(cells, k), k) == Some(cells.subrange(k, 16)),
        plain_text(cells_text(cells, k), k),
    decreases 15 - k,
{
    let s = cells_text(cells, k);
    let t = number_text(cells[k]);
    lemma_number_text(cells[k]);
    assert forall|i: int| 0 <= i < t.len() implies !is_separator(#[trigger] s[i]) by {
        assert(s[i] == t[i]);
        assert(is_digit(t[i]));
    }
    if k == 15 {
        lemma_token_end(s, t.len() as int);
        assert(s.subrange(0, t.len() as int) =~= t);
        assert(seq![cells[15]] =~= cells.subrange(15, 16));
    } else {
        let rest = cells_text(cells, k + 1);
        assert(s[t.len() as int] == separator_after(k));
        lemma_token_end(s, t.len() as int);
        assert(s.subrange(0, t.len() as int) =~= t);
        assert(s.subrange(t.len() as int + 1, s.len() as int) =~= rest);
        lemma_parse_of_render(cells, k + 1);
        assert(seq![cells[k]] + cells.subrange(k + 1, 16) =~= cells.subrange(k, 16));
    }
}

/// Rendering what a plainly written board text holds gives back the text.
pub proof fn lemma_render_of_parse(s: Seq<char>, cells: Seq<u8>, k: int)
    requires
        0 <= k <= 15,
        cells.len() == 16,
        plain_text(s, k),
        parse_tokens(s, k) == Some(cells.subrange(k, 16)),
    ensures
        cells_text(cells, k) == s,
    decreases 15 - k,
{
    lemma_token_end_bounds(s);
    let e = token_end(s);
    let t = s.subrange(0, e);
    let v = token_value(t).unwrap();
    if k == 15 {
        assert(cells.subrange(15, 16)[0] == cells[15]);
        assert(t =~= s);
    } else {
        let tail = s.subrange(e + 1, s.len() as int);
        let rest = parse_tokens(tail, k + 1).unwrap();
        assert(cells.subrange(k, 16)[0] == cells[k]);
        let whole = seq![v] + rest;
        assert(whole == cells.subrange(k, 16));
        assert(rest =~= whole.subrange(1, whole.len() as int));
        assert(whole.subrange(1, whole.len() as int) =~= cells.subrange(k + 1, 16));
        lemma_render_of_parse(tail, cells, k + 1);
        assert(t + seq![separator_after(k)] + tail =~= s);
    }
}

/// A token is no longer than the text it starts.
proof fn lemma_token_end_bounds(s: Seq<char>)
    ensures
        0 <= token_end(s) <= s.len(),
    decreases s.len(),
{
    if s.len() > 0 && !is_separator(s[0]) {
        lemma_token_end_bounds(s.drop_first());
    }
}

/// Round trip from text: a board text in which every magnitude is written
/// without sign or leading zeros holds sixteen magnitudes, and rendering them
/// gives back the text, character for character.
pub proof fn lemma_text_round_trip(s: Seq<char>)
    requires
        plain_text(s, 0),
    ensures
        parse_text(s) is Some,
        parse_text(s).unwrap().len() == 16,
        board_text(parse_text(s).unwrap()) == s,
{
    lemma_plain_text_parses(s, 0);
    let cells = parse_text(s).unwrap();
    assert(cells.subrange(0, 16) =~= cells);
    lemma_render_of_parse(s, cells, 0);
}

/// Round trip from magnitudes: reading the rendered text of any sixteen
/// magnitudes gives them back.
pub proof fn lemma_cells_round_trip(cells: Seq<u8>)
    requires
        cells.len() == 16,
    ensures
        parse_text(board_text(cells)) == Some(cells),
        plain_text(board_text(cells), 0),
{
    lemma_parse_of_render(cells, 0);
    assert(cells.subrange(0, 16) =~= cells);
}

/// A plainly written board text holds a magnitude for every cell.
proof fn lemma_plain_text_parses(s: Seq<char>, k: int)
    requires
        0 <= k <= 15,
        plain_text(s, k),
    ensures
        parse_tokens(s, k) is Some,
        parse_tokens(s, k).unwrap().len() == 16 - k,
    decreases 15 - k,
{
    lemma_token_end_bounds(s);
    if k < 15 {
        lemma_plain_text_parses(s.subrange(token_end(s) + 1, s.len() as int), k + 1);
    }
}

/// The texts of a list of strings.
pub open spec fn texts_of(parts: Seq<String>) -> Seq<Seq<char>> {
    Seq::new(parts.len(), |i: int| parts[i]@)
}

/// The texts of `parts` in order, with `sep` between neighbours.
pub open spec fn joined(parts: Seq<Seq<char>>, sep: Seq<char>) -> Seq<char>
    decreases parts.len(),
{
    if parts.len() == 0 {
        Seq::empty()
    } else if parts.len() == 1 {
        parts[0]
    } else {
        joined(parts.drop_last(), sep) + sep + parts.last()
    }
}

/// Calls `itertools::join` on strings. The contract is that crate's word, not
/// proved here: the result holds the strings of `parts` in order with `sep`
/// between neighbours, and is empty for no parts.
#[verifier::external_body]
pub(crate) fn join(parts: &Vec<String>, sep: &str) -> (out: String)
    ensures
        out@ == joined(texts_of(parts@), sep@),
{
    itertools::join(parts, sep)
}

/// The text of a grid of sixteen cell texts, rows `0` to `n - 1`: each row on
/// a line of its own, its cells side by side.
pub open spec fn grid_rows(cells: Seq<Seq<char>>, n: int) -> Seq<char>
    decreases n,
{
    if n <= 0 {
        Seq::empty()
    } else {
        grid_rows(cells, n - 1) + seq!['\n'] + joined(
            cells.subrange(4 * (n - 1), 4 * n),
            Seq::empty(),
        )
    }
}

/// The text of a grid of sixteen cell texts.
pub open spec fn grid_text(cells: Seq<Seq<char>>) -> Seq<char> {
    grid_rows(cells, 4)
}

/// Lays sixteen cell texts out as a grid: a line break, then the four cells
/// of a row side by side, for each row.
pub fn fmt_board(cells: &Vec<String>) -> (out: String)
    requires
        cells@.len() == 16,
    ensures
        out@ == grid_text(texts_of(cells@)),
{
    let mut out = String::new();
    let mut r: usize = 0;
    proof {
        reveal_strlit("");
        assert(""@ =~= Seq::<char>::empty());
    }
    while r < 4
        invariant
            r <= 4,
            cells@.len() == 16,
            ""@ == Seq::<char>::empty(),
            out@ == grid_rows(texts_of(cells@), r as int),
        decreases 4 - r,
    {
        let mut row: Vec<String> = Vec::new();
        let mut c: usize = 0;
        while c < 4
            invariant
                c <= 4,
                r < 4,
                cells@.len() == 16,
                row@.len() == c,
                forall|j: int| 0 <= j < c ==> (#[trigger] row@[j])@ == cells@[4 * r + j]@,
            decreases 4 - c,
        {
            row.push(cells[4 * r + c].clone());
            c = c + 1;
        }
        assert(texts_of(row@) =~= texts_of(cells@).subrange(4 * r, 4 * (r + 1)));
        let line = join(&row, "");
        out.push('\n');
        out.append(line.as_str());
        r = r + 1;
    }
    out
}

} // verus!
