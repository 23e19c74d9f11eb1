//! Characters, whitespace-separated fields and decimal numbers.
//!
//! The graph format is line oriented and its lines are made of fields
//! separated by white space.  This module states what a field and a number
//! are, and holds the scanners that find them in a buffer of characters.

use vstd::prelude::*;

verus! {

/// Whether `c` is white space: a character with the Unicode property
/// `White_Space`.
pub open spec fn is_space(c: char) -> bool {
    let u = c as u32;
    ||| 0x09 <= u <= 0x0D
    ||| u == 0x20
    ||| u == 0x85
    ||| u == 0xA0
    ||| u == 0x1680
    ||| 0x2000 <= u <= 0x200A
    ||| u == 0x2028
    ||| u == 0x2029
    ||| u == 0x202F
    ||| u == 0x205F
    ||| u == 0x3000
}

/// Whether `c` is one of `0` to `9`.
pub open spec fn is_digit(c: char) -> bool {
    0x30 <= c as u32 <= 0x39
}

/// The value of a decimal digit; zero for any other character.
pub open spec fn digit_value(c: char) -> nat {
    if is_digit(c) {
        (c as u32 - 0x30) as nat
    } else {
        0
    }
}

/// Whether `s` holds decimal digits only.
pub open spec fn all_digits(s: Seq<char>) -> bool {
    forall|i: int| 0 <= i < s.len() ==> is_digit(#[trigger] s[i])
}

/// The number that a string of digits denotes in base ten.
pub open spec fn decimal_value(s: Seq<char>) -> nat
    decreases s.len(),
{
    if s.len() == 0 {
        0
    } else {
        10 * decimal_value(s.drop_last()) + digit_value(s.last())
    }
}

/// A field without its sign: one leading `+` is allowed and dropped.
pub open spec fn unsigned_part(s: Seq<char>) -> Seq<char> {
    if s.len() > 0 && s[0] == '+' {
        s.drop_first()
    } else {
        s
    }
}

/// The number that a field denotes, if it is one.
///
/// A number is an optional `+` followed by at least one digit and nothing
/// else, and its value fits a `usize`.
pub open spec fn parse_number(s: Seq<char>) -> Option<usize> {
    let d = unsigned_part(s);
    if d.len() > 0 && all_digits(d) && decimal_value(d) <= usize::MAX {
        Some(decimal_value(d) as usize)
    } else {
        None
    }
}

/// What parts a text: white space between the fields of a line, or the line
/// feed between the lines of a file.
#[derive(Debug, Clone, Copy, PartialEq, Eq, Structural)]
pub enum Separator {
    Blank,
    LineFeed,
}

impl Separator {
    /// Whether `c` is a separator of this kind.
    pub open spec fn parts(self, c: char) -> bool {
        match self {
            Separator::Blank => is_space(c),
            Separator::LineFeed => c == '\n',
        }
    }

    /// Whether `c` is a separator of this kind.
    pub fn is_at(self, c: char) -> (b: bool)
        ensures
            b == self.parts(c),
    {
        match self {
            Separator::Blank => is_whitespace(c),
            Separator::LineFeed => c == '\n',
        }
    }
}

/// The length of the longest prefix of `s` that holds no separator.
pub open spec fn run_len(sep: Separator, s: Seq<char>) -> nat
    decreases s.len(),
{
    if s.len() == 0 || sep.parts(s[0]) {
        0
    } else {
        1 + run_len(sep, s.drop_first())
    }
}

/// The pieces of `s`: its maximal runs of characters other than separators,
/// from left to right.  No piece is empty.
pub open spec fn pieces(sep: Separator, s: Seq<char>) -> Seq<Seq<char>>
    decreases s.len(),
{
    if s.len() == 0 {
        Seq::empty()
    } else if sep.parts(s[0]) {
        pieces(sep, s.drop_first())
    } else {
        let k = run_len(sep, s) as int;
        proof {
            lemma_run_len_bounds(sep, s);
        }
        seq![s.subrange(0, k)] + pieces(sep, s.subrange(k, s.len() as int))
    }
}

/// The fields of a line: what stands between white space.
pub open spec fn fields(s: Seq<char>) -> Seq<Seq<char>> {
    pieces(Separator::Blank, s)
}

/// The lines of a text that hold anything at all.
pub open spec fn lines(s: Seq<char>) -> Seq<Seq<char>> {
    pieces(Separator::LineFeed, s)
}

/// What is left of `fs` once its first `k` entries are gone.
pub open spec fn after<A>(fs: Seq<A>, k: nat) -> Seq<A> {
    if k <= fs.len() {
        fs.subrange(k as int, fs.len() as int)
    } else {
        Seq::empty()
    }
}

/// The numbers among `fs`, in order, without the fields that are no numbers.
pub open spec fn numbers(fs: Seq<Seq<char>>) -> Seq<usize>
    decreases fs.len(),
{
    if fs.len() == 0 {
        Seq::empty()
    } else {
        match parse_number(fs[0]) {
            Some(n) => seq![n] + numbers(fs.drop_first()),
            None => numbers(fs.drop_first()),
        }
    }
}

/// The decimal digit that stands for `d`, for `d` below ten.
pub open spec fn digit_char(d: nat) -> char {
    (0x30 + d) as u8 as char
}

/// `n` written in base ten, without sign or leading zeros.
pub open spec fn decimal_digits(n: nat) -> Seq<char>
    decreases n,
{
    if n < 10 {
        seq![digit_char(n)]
    } else {
        decimal_digits(n / 10).push(digit_char(n % 10))
    }
}

/// A run is never longer than its string, and is empty only before a
/// separator or at the end.
pub proof fn lemma_run_len_bounds(sep: Separator, s: Seq<char>)
    ensures
        run_len(sep, s) <= s.len(),
        s.len() > 0 && !sep.parts(s[0]) ==> run_len(sep, s) >= 1,
    decreases s.len(),
{
    if s.len() > 0 && !sep.parts(s[0]) {
        lemma_run_len_bounds(sep, s.drop_first());
    }
}

/// Reading more digits never makes the number smaller.
pub proof fn lemma_decimal_value_prefix(s: Seq<char>, k: int)
    requires
        0 <= k <= s.len(),
    ensures
        decimal_value(s.take(k)) <= decimal_value(s),
    decreases s.len() - k,
{
    if k == s.len() {
        assert(s.take(k) =~= s);
    } else {
        lemma_decimal_value_prefix(s, k + 1);
        assert(s.take(k + 1).drop_last() =~= s.take(k));
    }
}

/// The characters of `s`, in order.
pub fn chars_of(s: &str) -> (out: Vec<char>)
    ensures
        out@ == s@,
{
    let mut out: Vec<char> = Vec::new();
    for c in it: s.chars()
        invariant
            out@ == it.seq().take(it.index() as int),
    {
        out.push(c);
    }
    out
}

/// Whether `c` is white space.
pub fn is_whitespace(c: char) -> (b: bool)
    ensures
        b == is_space(c),
{
    let u: u32 = c as u32;
    (0x09 <= u && u <= 0x0D) || u == 0x20 || u == 0x85 || u == 0xA0 || u == 0x1680 || (0x2000 <= u
        && u <= 0x200A) || u == 0x2028 || u == 0x2029 || u == 0x202F || u == 0x205F || u == 0x3000
}

/// Where the piece that starts at `from` ends: the index of the first
/// separator at or after `from`, or `to` if there is none.
pub fn piece_end(sep: Separator, chars: &Vec<char>, from: usize, to: usize) -> (end: usize)
    requires
        from <= to <= chars.len(),
    ensures
        from <= end <= to,
        end - from == run_len(sep, chars@.subrange(from as int, to as int)),
{
    let mut j: usize = from;
    while j < to && !sep.is_at(chars[j])
        invariant
            from <= j <= to <= chars.len(),
            run_len(sep, chars@.subrange(from as int, to as int)) == (j - from) + run_len(
                sep,
                chars@.subrange(j as int, to as int),
            ),
        decreases to - j,
    {
        proof {
            let s = chars@.subrange(j as int, to as int);
            assert(s[0] == chars@[j as int]);
            assert(s.drop_first() =~= chars@.subrange(j + 1, to as int));
        }
        j += 1;
    }
    proof {
        let s = chars@.subrange(j as int, to as int);
        if j < to {
            assert(s[0] == chars@[j as int]);
        }
    }
    j
}

/// Reads the field `chars[from..to]` as a number.
pub fn parse_usize(chars: &Vec<char>, from: usize, to: usize) -> (r: Option<usize>)
    requires
        from <= to <= chars.len(),
    ensures
        r == parse_number(chars@.subrange(from as int, to as int)),
{
    let ghost field = chars@.subrange(from as int, to as int);
    let mut i: usize = from;
    if i < to && chars[i] == '+' {
        i += 1;
    }
    let start: usize = i;
    let ghost d = chars@.subrange(start as int, to as int);
    proof {
        if from < to {
            assert(field[0] == chars@[from as int]);
        }
        assert(d =~= unsigned_part(field));
    }
    if i == to {
        return None;
    }
    let mut acc: usize = 0;
    while i < to
        invariant
            from <= start <= i <= to <= chars.len(),
            d == chars@.subrange(start as int, to as int),
            d == unsigned_part(chars@.subrange(from as int, to as int)),
            all_digits(d.take(i - start)),
            acc == decimal_value(d.take(i - start)),
        decreases to - i,
    {
        let u: u32 = chars[i] as u32;
        proof {
            assert(d[i - start] == chars@[i as int]);
        }
        if u < 0x30 || u > 0x39 {
            return None;
        }
        let v: usize = (u - 0x30) as usize;
        proof {
            lemma_decimal_value_prefix(d, i - start + 1);
            assert(d.take(i - start + 1).drop_last() =~= d.take(i - start));
        }
        if acc > (usize::MAX - v) / 10 {
            return None;
        }
        acc = acc * 10 + v;
        i += 1;
    }
    proof {
        assert(d.take(i - start) =~= d);
    }
    Some(acc)
}

/// The numbers among the fields of `chars[from..to]`, leaving out the first
/// `skip` fields whatever they hold.
pub fn numeric_fields(chars: &Vec<char>, from: usize, to: usize, skip: usize) -> (out: Vec<usize>)
    requires
        from <= to <= chars.len(),
    ensures
        out@ == numbers(after(fields(chars@.subrange(from as int, to as int)), skip as nat)),
{
    let mut out: Vec<usize> = Vec::new();
    let mut i: usize = from;
    let mut left: usize = skip;
    proof {
        assert(Seq::<usize>::empty() + numbers(
            after(fields(chars@.subrange(from as int, to as int)), skip as nat),
        ) =~= numbers(after(fields(chars@.subrange(from as int, to as int)), skip as nat)));
    }
    while i < to
        invariant
            from <= i <= to <= chars.len(),
            numbers(after(fields(chars@.subrange(from as int, to as int)), skip as nat)) == out@
                + numbers(after(fields(chars@.subrange(i as int, to as int)), left as nat)),
        decreases to - i,
    {
        let ghost s = chars@.subrange(i as int, to as int);
        proof {
            assert(s[0] == chars@[i as int]);
        }
        if is_whitespace(chars[i]) {
            proof {
                assert(s.drop_first() =~= chars@.subrange(i + 1, to as int));
            }
            i += 1;
        } else {
            let end = piece_end(Separator::Blank, chars, i, to);
            let ghost k = (end - i) as int;
            let ghost head = s.subrange(0, k);
            let ghost tail = fields(s.subrange(k, s.len() as int));
            proof {
                lemma_run_len_bounds(Separator::Blank, s);
                assert(head =~= chars@.subrange(i as int, end as int));
                assert(s.subrange(k, s.len() as int) =~= chars@.subrange(end as int, to as int));
                assert(fields(s) == seq![head] + tail);
            }
            if left > 0 {
                proof {
                    assert(after(seq![head] + tail, left as nat) =~= after(tail, (left - 1) as nat));
                }
                left -= 1;
            } else {
                let ghost before = out@;
                proof {
                    assert(after(seq![head] + tail, 0) =~= seq![head] + tail);
                    assert(after(tail, 0) =~= tail);
                    assert((seq![head] + tail).drop_first() =~= tail);
                    assert((seq![head] + tail)[0] == head);
                }
                match parse_usize(chars, i, end) {
                    Some(n) => {
                        out.push(n);
                        proof {
                            assert(before + (seq![n] + numbers(tail)) =~= before.push(n) + numbers(
                                tail,
                            ));
                        }
                    },
                    None => {},
                }
            }
            i = end;
        }
    }
    proof {
        let s = chars@.subrange(i as int, to as int);
        assert(s.len() == 0);
        assert(after(fields(s), left as nat) =~= Seq::<Seq<char>>::empty());
        assert(out@ + Seq::<usize>::empty() =~= out@);
    }
    out
}

/// How many fields `chars[from..to]` holds after its first `skip` fields.
pub fn field_count(chars: &Vec<char>, from: usize, to: usize, skip: usize) -> (count: usize)
    requires
        from <= to <= chars.len(),
    ensures
        count == after(fields(chars@.subrange(from as int, to as int)), skip as nat).len(),
{
    let mut count: usize = 0;
    let mut i: usize = from;
    let mut left: usize = skip;
    while i < to
        invariant
            from <= i <= to <= chars.len(),
            count <= i - from,
            after(fields(chars@.subrange(from as int, to as int)), skip as nat).len() == count
                + after(fields(chars@.subrange(i as int, to as int)), left as nat).len(),
        decreases to - i,
    {
        let ghost s = chars@.subrange(i as int, to as int);
        proof {
            assert(s[0] == chars@[i as int]);
        }
        if is_whitespace(chars[i]) {
            proof {
                assert(s.drop_first() =~= chars@.subrange(i + 1, to as int));
            }
            i += 1;
        } else {
            let end = piece_end(Separator::Blank, chars, i, to);
            let ghost k = (end - i) as int;
            let ghost head = s.subrange(0, k);
            let ghost tail = fields(s.subrange(k, s.len() as int));
            proof {
                lemma_run_len_bounds(Separator::Blank, s);
                assert(s.subrange(k, s.len() as int) =~= chars@.subrange(end as int, to as int));
                assert(fields(s) == seq![head] + tail);
            }
            if left > 0 {
                proof {
                    assert(after(seq![head] + tail, left as nat) =~= after(tail, (left - 1) as nat));
                }
                left -= 1;
            } else {
                proof {
                    assert(after(seq![head] + tail, 0) =~= seq![head] + tail);
                    assert(after(tail, 0) =~= tail);
                }
                count += 1;
            }
            i = end;
        }
    }
    proof {
        let s = chars@.subrange(i as int, to as int);
        assert(s.len() == 0);
        assert(after(fields(s), left as nat) =~= Seq::<Seq<char>>::empty());
    }
    count
}

/// Among two fields there are two numbers exactly when each of them is one.
pub proof fn lemma_two_numbers(fs: Seq<Seq<char>>)
    requires
        fs.len() == 2,
    ensures
        numbers(fs).len() <= 2,
        numbers(fs).len() == 2 <==> parse_number(fs[0]) is Some && parse_number(fs[1]) is Some,
        numbers(fs).len() == 2 ==> numbers(fs)[0] == parse_number(fs[0])->0 && numbers(fs)[1]
            == parse_number(fs[1])->0,
{
    let one = fs.drop_first();
    let none = one.drop_first();
    assert(one.len() == 1 && one[0] == fs[1]);
    assert(none.len() == 0);
    assert(numbers(none) =~= Seq::<usize>::empty());
    assert(numbers(one).len() <= 1);
}

/// `String::push` of the standard library appends one character to the end
/// of the string and leaves the rest as it was.
pub assume_specification[ String::push ](s: &mut String, c: char)
    ensures
        final(s)@ == old(s)@.push(c),
;

/// The characters `chars[from..to]` as a string.
pub fn string_of(chars: &Vec<char>, from: usize, to: usize) -> (out: String)
    requires
        from <= to <= chars.len(),
    ensures
        out@ == chars@.subrange(from as int, to as int),
{
    let mut out = String::new();
    let mut i: usize = from;
    while i < to
        invariant
            from <= i <= to <= chars.len(),
            out@ == chars@.subrange(from as int, i as int),
        decreases to - i,
    {
        out.push(chars[i]);
        proof {
            assert(chars@.subrange(from as int, i as int).push(chars@[i as int])
                =~= chars@.subrange(from as int, i + 1));
        }
        i += 1;
    }
    out
}

/// Appends `n`, written in base ten, to `out`.
pub fn push_decimal(out: &mut String, n: usize)
    ensures
        final(out)@ == old(out)@ + decimal_digits(n as nat),
    decreases n,
{
    if n >= 10 {
        push_decimal(out, n / 10);
    }
    let d: u8 = (n % 10) as u8;
    out.push((0x30 + d) as char);
    proof {
        if n >= 10 {
            assert(old(out)@ + decimal_digits((n / 10) as nat).push(digit_char((n % 10) as nat))
                =~= (old(out)@ + decimal_digits((n / 10) as nat)).push(
                digit_char((n % 10) as nat),
            ));
        } else {
            assert(old(out)@ + seq![digit_char(n as nat)] =~= old(out)@.push(digit_char(n as nat)));
        }
    }
}

} // verus!
