use vstd::prelude::*;
use crate::instruction::{is_digit, digit_value, number_of, digits_end, decode, instruction_of, is_repeatable, IR, Instruction};
use crate::text::{chars_of, string_of};

verus! {

pub open spec fn is_bracket(c: char) -> bool {
    c == '[' || c == ']'
}

/// Characters whose runs are always written out one by one: the brackets,
/// whose positions the bracket table needs, and output, which the decoder
/// never repeats.
pub open spec fn kept_literal(c: char) -> bool {
    is_bracket(c) || c == '.'
}

pub open spec fn digit_char(d: nat) -> char {
    if d == 0 {
        '0'
    } else if d == 1 {
        '1'
    } else if d == 2 {
        '2'
    } else if d == 3 {
        '3'
    } else if d == 4 {
        '4'
    } else if d == 5 {
        '5'
    } else if d == 6 {
        '6'
    } else if d == 7 {
        '7'
    } else if d == 8 {
        '8'
    } else {
        '9'
    }
}

/// The decimal digits of `n`, most significant first.
pub open spec fn decimal(n: nat) -> Seq<char>
    decreases n,
{
    if n < 10 {
        seq![digit_char(n)]
    } else {
        decimal(n / 10).push(digit_char(n % 10))
    }
}

/// The length of the run of equal characters that starts at `i`.
pub open spec fn run_len(s: Seq<char>, i: int) -> nat
    decreases s.len() - i,
{
    if 0 <= i && i + 1 < s.len() && s[i + 1] == s[i] {
        1 + run_len(s, i + 1)
    } else {
        1
    }
}

/// How a run of `k` copies of `c` is written: literally when it is short or
/// kept literal, else as its count followed by the character.
pub open spec fn encode_run(c: char, k: nat) -> Seq<char> {
    if k <= 2 || kept_literal(c) {
        Seq::new(k, |j: int| c)
    } else {
        decimal(k).push(c)
    }
}

/// The encoding of `s` from position `i` on, run by maximal run.
pub open spec fn encode_from(s: Seq<char>, i: int) -> Seq<char>
    decreases s.len() - i via encode_from_decreases
{
    if 0 <= i < s.len() {
        encode_run(s[i], run_len(s, i)) + encode_from(s, i + run_len(s, i))
    } else {
        Seq::empty()
    }
}

#[via_fn]
proof fn encode_from_decreases(s: Seq<char>, i: int) {
    if 0 <= i < s.len() {
        lemma_run_len_bounds(s, i);
    }
}

proof fn lemma_run_len_bounds(s: Seq<char>, i: int)
    requires
        0 <= i < s.len(),
    ensures
        1 <= run_len(s, i) <= s.len() - i,
    decreases s.len() - i,
{
    if i + 1 < s.len() && s[i + 1] == s[i] {
        lemma_run_len_bounds(s, i + 1);
    }
}

pub open spec fn encode(s: Seq<char>) -> Seq<char> {
    encode_from(s, 0)
}

/// The text after every `[-]` has been replaced by `|`, scanning left to
/// right without overlap.
pub open spec fn clear_loops(s: Seq<char>) -> Seq<char>
    decreases s.len(),
{
    if s.len() >= 3 && s[0] == '[' && s[1] == '-' && s[2] == ']' {
        seq!['|'] + clear_loops(s.skip(3))
    } else if s.len() == 0 {
        Seq::empty()
    } else {
        seq![s[0]] + clear_loops(s.skip(1))
    }
}

proof fn lemma_decimal_digits(n: nat)
    ensures
        forall|k: int| 0 <= k < decimal(n).len() ==> is_digit(#[trigger] decimal(n)[k]),
        number_of(decimal(n)) == n,
        decimal(n).len() >= 1,
    decreases n,
{
    if n < 10 {
        assert(decimal(n).drop_last() =~= Seq::<char>::empty());
        assert(number_of(Seq::<char>::empty()) == 0);
        assert(digit_value(digit_char(n)) == n);
        assert(number_of(decimal(n)) == n);
    } else {
        lemma_decimal_digits(n / 10);
        assert(digit_value(digit_char(n % 10)) == n % 10);
        let d = decimal(n);
        assert(d.drop_last() =~= decimal(n / 10));
        assert(n == (n / 10) * 10 + n % 10);
        assert(number_of(d) == n);
    }
}

fn digit_to_char(d: usize) -> (c: char)
    requires
        d < 10,
    ensures
        c == digit_char(d as nat),
{
    match d {
        0 => '0',
        1 => '1',
        2 => '2',
        3 => '3',
        4 => '4',
        5 => '5',
        6 => '6',
        7 => '7',
        8 => '8',
        _ => '9',
    }
}

proof fn lemma_digits_end_at(t: Seq<char>, i: int, n: int)
    requires
        0 <= i <= n < t.len(),
        forall|k: int| i <= k < n ==> is_digit(#[trigger] t[k]),
        !is_digit(t[n]),
    ensures
        digits_end(t, i) == n,
    decreases n - i,
{
    if i < n {
        lemma_digits_end_at(t, i + 1, n);
    }
}

/// The decoder reads back what the encoder writes for a long run: at the
/// start of the count, whatever follows, it yields the run's length, the
/// instruction and the position just past the run's character.
pub proof fn decoder_reads_encoded_run(c: char, k: nat, rest: Seq<char>)
    requires
        3 <= k <= usize::MAX,
        is_repeatable(instruction_of(c)),
        decimal(k).len() + 1 + rest.len() <= usize::MAX,
    ensures
        decode(encode_run(c, k) + rest, 0) == IR::CntSym(
            k as usize,
            instruction_of(c),
            (decimal(k).len() + 1) as usize,
        ),
{
    let t = encode_run(c, k) + rest;
    let n = decimal(k).len() as int;
    lemma_decimal_digits(k);
    assert(t[n] == c);
    assert forall|j: int| 0 <= j < n implies is_digit(#[trigger] t[j]) by {
        assert(t[j] == decimal(k)[j]);
    }
    lemma_digits_end_at(t, 0, n);
    assert(t.subrange(0, n) =~= decimal(k));
}

/// The instructions that decoding `t` from its start yields, a counted
/// instruction standing for that many copies of it.
pub open spec fn decoded(t: Seq<char>) -> Seq<Instruction>
    decreases t.len(),
{
    match decode(t, 0) {
        IR::Sym(k, next) => if 0 < next <= t.len() {
            seq![k] + decoded(t.skip(next as int))
        } else {
            Seq::empty()
        },
        IR::CntSym(n, k, next) => if 0 < next <= t.len() {
            Seq::new(n as nat, |j: int| k) + decoded(t.skip(next as int))
        } else {
            Seq::empty()
        },
        IR::Eof => Seq::empty(),
    }
}

/// One of the eight characters of the instruction alphabet.
pub open spec fn is_operator(c: char) -> bool {
    c == '+' || c == '-' || c == '<' || c == '>' || c == '[' || c == ']' || c == '.' || c == ','
}

proof fn lemma_decimal_short(k: nat)
    requires
        k >= 3,
    ensures
        decimal(k).len() + 1 <= k,
    decreases k,
{
    if k < 10 {
        assert(decimal(k).len() == 1);
    } else {
        assert(decimal(k).len() == decimal(k / 10).len() + 1);
        if k / 10 >= 3 {
            lemma_decimal_short(k / 10);
        } else {
            assert(decimal(k / 10).len() == 1);
        }
    }
}

proof fn lemma_run_same(s: Seq<char>, i: int)
    requires
        0 <= i < s.len(),
    ensures
        forall|j: int| i <= j < i + run_len(s, i) ==> #[trigger] s[j] == s[i],
    decreases s.len() - i,
{
    lemma_run_len_bounds(s, i);
    if i + 1 < s.len() && s[i + 1] == s[i] {
        lemma_run_same(s, i + 1);
    }
}

proof fn lemma_encode_len(s: Seq<char>, i: int)
    requires
        0 <= i <= s.len(),
    ensures
        encode_from(s, i).len() <= s.len() - i,
    decreases s.len() - i,
{
    if i < s.len() {
        let k = run_len(s, i);
        lemma_run_len_bounds(s, i);
        lemma_encode_len(s, i + k);
        if k >= 3 && !kept_literal(s[i]) {
            lemma_decimal_short(k);
        }
    }
}

/// The encoding is never longer than the text it encodes.
pub proof fn encoding_never_lengthens(s: Seq<char>)
    ensures
        encode(s).len() <= s.len(),
{
    lemma_encode_len(s, 0);
}

proof fn lemma_decoded_literal(c: char, k: nat, rest: Seq<char>)
    requires
        !is_digit(c),
        k + rest.len() <= usize::MAX,
    ensures
        decoded(Seq::new(k, |j: int| c) + rest) == Seq::new(k, |j: int| instruction_of(c)) + decoded(rest),
    decreases k,
{
    let t = Seq::new(k, |j: int| c) + rest;
    if k == 0 {
        assert(t =~= rest);
        assert(Seq::new(k, |j: int| instruction_of(c)) + decoded(rest) =~= decoded(rest));
    } else {
        assert(t[0] == c);
        assert(digits_end(t, 0) == 0);
        assert(t.subrange(0, 0) =~= Seq::<char>::empty());
        assert(decode(t, 0) == IR::Sym(instruction_of(c), 1));
        let shorter = Seq::new((k - 1) as nat, |j: int| c);
        assert(t.skip(1) =~= shorter + rest);
        lemma_decoded_literal(c, (k - 1) as nat, rest);
        assert(seq![instruction_of(c)] + Seq::new((k - 1) as nat, |j: int| instruction_of(c))
            =~= Seq::new(k, |j: int| instruction_of(c)));
        assert(decoded(t) == seq![instruction_of(c)] + decoded(t.skip(1)));
        assert(decoded(t) =~= Seq::new(k, |j: int| instruction_of(c)) + decoded(rest));
    }
}

proof fn lemma_decoded_run(c: char, k: nat, rest: Seq<char>)
    requires
        is_operator(c),
        1 <= k <= usize::MAX,
        encode_run(c, k).len() + rest.len() <= usize::MAX,
    ensures
        decoded(encode_run(c, k) + rest) == Seq::new(k, |j: int| instruction_of(c)) + decoded(rest),
{
    if k <= 2 || kept_literal(c) {
        lemma_decoded_literal(c, k, rest);
    } else {
        let t = encode_run(c, k) + rest;
        let n = decimal(k).len() as int;
        decoder_reads_encoded_run(c, k, rest);
        assert(t.skip(n + 1) =~= rest);
        assert(decoded(t) == Seq::new(k, |j: int| instruction_of(c)) + decoded(t.skip(n + 1)));
    }
}

proof fn lemma_decoded_encode_from(s: Seq<char>, i: int)
    requires
        0 <= i <= s.len() <= usize::MAX,
        forall|j: int| 0 <= j < s.len() ==> is_operator(#[trigger] s[j]),
    ensures
        decoded(encode_from(s, i)) == s.skip(i).map_values(|c: char| instruction_of(c)),
    decreases s.len() - i,
{
    if i == s.len() {
        assert(encode_from(s, i) =~= Seq::<char>::empty());
        assert(decoded(Seq::<char>::empty()) == Seq::<Instruction>::empty());
        assert(s.skip(i).map_values(|c: char| instruction_of(c)) =~= Seq::<Instruction>::empty());
    } else {
        let c = s[i];
        let k = run_len(s, i);
        lemma_run_len_bounds(s, i);
        lemma_run_same(s, i);
        lemma_encode_len(s, i);
        lemma_encode_len(s, i + k);
        lemma_decoded_encode_from(s, i + k);
        let rest = encode_from(s, i + k);
        assert(encode_from(s, i) == encode_run(c, k) + rest);
        lemma_decoded_run(c, k, rest);
        assert(s.skip(i).map_values(|c: char| instruction_of(c)) =~= Seq::new(k, |j: int| instruction_of(c))
            + s.skip(i + k).map_values(|c: char| instruction_of(c)));
    }
}

/// Encoding keeps the instruction sequence: decoding the encoding of a
/// program over the eight operators gives back exactly its instructions.
pub proof fn encoding_keeps_instructions(s: Seq<char>)
    requires
        s.len() <= usize::MAX,
        forall|j: int| 0 <= j < s.len() ==> is_operator(#[trigger] s[j]),
    ensures
        decoded(encode(s)) == s.map_values(|c: char| instruction_of(c)),
{
    lemma_decoded_encode_from(s, 0);
    assert(s.skip(0) =~= s);
}

/// The brackets of a text, in order.
pub open spec fn brackets_in(t: Seq<char>) -> Seq<char> {
    t.filter(|c: char| is_bracket(c))
}

proof fn lemma_no_brackets(t: Seq<char>)
    requires
        forall|j: int| 0 <= j < t.len() ==> !is_bracket(#[trigger] t[j]),
    ensures
        brackets_in(t) == Seq::<char>::empty(),
    decreases t.len(),
{
    reveal(Seq::filter);
    if t.len() > 0 {
        lemma_no_brackets(t.drop_last());
    }
}

proof fn lemma_brackets_from(s: Seq<char>, i: int)
    requires
        0 <= i <= s.len(),
    ensures
        brackets_in(encode_from(s, i)) == brackets_in(s.skip(i)),
    decreases s.len() - i,
{
    if i == s.len() {
        assert(encode_from(s, i) =~= s.skip(i));
    } else {
        let c = s[i];
        let k = run_len(s, i);
        lemma_run_len_bounds(s, i);
        lemma_run_same(s, i);
        lemma_brackets_from(s, i + k);
        let run = s.subrange(i, i + k);
        assert(run =~= Seq::new(k, |j: int| c));
        assert(s.skip(i) =~= run + s.skip(i + k));
        Seq::filter_distributes_over_add(run, s.skip(i + k), |c: char| is_bracket(c));
        Seq::filter_distributes_over_add(encode_run(c, k), encode_from(s, i + k), |c: char| is_bracket(c));
        if !is_bracket(c) {
            lemma_no_brackets(run);
            lemma_decimal_digits(k);
            assert forall|j: int| 0 <= j < encode_run(c, k).len() implies !is_bracket(#[trigger] encode_run(c, k)[j]) by {
                if !(k <= 2 || kept_literal(c)) && j < decimal(k).len() {
                    assert(is_digit(decimal(k)[j]));
                }
            }
            lemma_no_brackets(encode_run(c, k));
        } else {
            assert(encode_run(c, k) == run);
        }
    }
}

/// Brackets are never counted: the encoding holds the same brackets, in
/// the same order, as the text.
pub proof fn encoding_keeps_brackets(s: Seq<char>)
    ensures
        brackets_in(encode(s)) == brackets_in(s),
{
    lemma_brackets_from(s, 0);
    assert(s.skip(0) =~= s);
}

/// The text with every `|` written back as `[-]`.
pub open spec fn restore_loops(t: Seq<char>) -> Seq<char>
    decreases t.len(),
{
    if t.len() == 0 {
        Seq::empty()
    } else if t[0] == '|' {
        seq!['[', '-', ']'] + restore_loops(t.skip(1))
    } else {
        seq![t[0]] + restore_loops(t.skip(1))
    }
}

/// The loop-clear rewrite changes nothing but the idiom: on a text without
/// `|`, writing each `|` back as `[-]` gives the text again.
pub proof fn clear_loops_is_undone(s: Seq<char>)
    requires
        forall|j: int| 0 <= j < s.len() ==> #[trigger] s[j] != '|',
    ensures
        restore_loops(clear_loops(s)) == s,
    decreases s.len(),
{
    if s.len() == 0 {
        assert(clear_loops(s) =~= Seq::<char>::empty());
    } else if s.len() >= 3 && s[0] == '[' && s[1] == '-' && s[2] == ']' {
        let rest = s.skip(3);
        assert forall|j: int| 0 <= j < rest.len() implies #[trigger] rest[j] != '|' by {
            assert(rest[j] == s[j + 3]);
        }
        clear_loops_is_undone(rest);
        let t = clear_loops(s);
        assert(t == seq!['|'] + clear_loops(rest));
        assert(t.skip(1) =~= clear_loops(rest));
        assert(restore_loops(t) =~= s);
    } else {
        let rest = s.skip(1);
        assert forall|j: int| 0 <= j < rest.len() implies #[trigger] rest[j] != '|' by {
            assert(rest[j] == s[j + 1]);
        }
        clear_loops_is_undone(rest);
        let t = clear_loops(s);
        assert(t == seq![s[0]] + clear_loops(rest));
        assert(t[0] == s[0]);
        assert(t.skip(1) =~= clear_loops(rest));
        assert(restore_loops(t) =~= s);
    }
}

/// Appends the decimal digits of `n`.
fn push_decimal(out: &mut Vec<char>, n: usize)
    ensures
        final(out)@ == old(out)@ + decimal(n as nat),
    decreases n,
{
    if n >= 10 {
        push_decimal(out, n / 10);
    }
    let c = digit_to_char(n % 10);
    out.push(c);
    assert(final(out)@ =~= old(out)@ + decimal(n as nat));
}

/// Appends the encoding of a run of `k` copies of `c`.
fn push_run(out: &mut Vec<char>, c: char, k: usize)
    ensures
        final(out)@ == old(out)@ + encode_run(c, k as nat),
{
    if k <= 2 || c == '[' || c == ']' || c == '.' {
        let mut j: usize = 0;
        while j < k
            invariant
                j <= k,
                out@ == old(out)@ + Seq::new(j as nat, |t: int| c),
            decreases k - j,
        {
            out.push(c);
            j = j + 1;
            assert(out@ =~= old(out)@ + Seq::new(j as nat, |t: int| c));
        }
    } else {
        push_decimal(out, k);
        out.push(c);
        assert(out@ =~= old(out)@ + encode_run(c, k as nat));
    }
}

/// Run-length encodes program text: each maximal run of three or more equal
/// characters other than brackets and output becomes its count followed by the
/// character; everything else is copied.
pub fn rle(e: &str) -> (r: String)
    ensures
        r@ == encode(e@),
{
    let s = chars_of(e);
    let len = s.len();
    let mut out: Vec<char> = Vec::new();
    let mut i: usize = 0;
    while i < len
        invariant
            i <= len,
            len == s@.len(),
            encode(s@) == out@ + encode_from(s@, i as int),
        decreases len - i,
    {
        let c = s[i];
        let mut j: usize = i;
        while j + 1 < len && s[j + 1] == c
            invariant
                i <= j < len,
                len == s@.len(),
                s@[j as int] == c,
                run_len(s@, i as int) == (j - i) + run_len(s@, j as int),
            decreases len - j,
        {
            j = j + 1;
        }
        let k = j + 1 - i;
        assert(run_len(s@, i as int) == k);
        push_run(&mut out, c, k);
        assert(encode_from(s@, i as int) == encode_run(c, k as nat) + encode_from(s@, (i + k) as int));
        assert(out@ + encode_from(s@, (i + k) as int) =~= encode(s@));
        i = j + 1;
    }
    string_of(&out)
}

/// Replaces every `[-]` (a loop that decrements the cell to zero) by the
/// single zeroing instruction `|`.
pub fn optimize_zero_loop(s: &str) -> (r: String)
    ensures
        r@ == clear_loops(s@),
{
    let v = chars_of(s);
    let len = v.len();
    let mut out: Vec<char> = Vec::new();
    let mut i: usize = 0;
    assert(v@.skip(0) =~= v@);
    while i < len
        invariant
            i <= len,
            len == v@.len(),
            clear_loops(v@) == out@ + clear_loops(v@.skip(i as int)),
        decreases len - i,
    {
        let ghost rest = v@.skip(i as int);
        if len - i >= 3 && v[i] == '[' && v[i + 1] == '-' && v[i + 2] == ']' {
            out.push('|');
            assert(rest.skip(3) =~= v@.skip(i + 3));
            assert(out@ + clear_loops(v@.skip(i + 3)) =~= clear_loops(v@));
            i = i + 3;
        } else {
            out.push(v[i]);
            assert(rest.skip(1) =~= v@.skip(i + 1));
            assert(rest[0] == v@[i as int]);
            assert(out@ + clear_loops(v@.skip(i + 1)) =~= clear_loops(v@));
            i = i + 1;
        }
    }
    assert(v@.skip(len as int) =~= Seq::<char>::empty());
    string_of(&out)
}

} // verus!
