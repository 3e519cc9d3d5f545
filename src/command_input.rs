//! The text notation of squares and moves, and the command line that it is typed into.
use vstd::prelude::*;

use vstd::string::StrSliceExecFns;

use crate::chess_board::NUM_FILES;
use vstd::utf8::encode_utf8;

verus! {

/// Whether `c` names a file: `a` up to the letter of the last file.
pub open spec fn spec_is_valid_file(c: char) -> bool {
    'a' <= c && (c as int) < ('a' as int) + NUM_FILES
}

/// Whether `c` is an ASCII decimal digit.
pub open spec fn is_digit(c: char) -> bool {
    '0' <= c <= '9'
}

/// The letter of file `file`.
pub open spec fn file_letter(file: int) -> char {
    (('a' as int) + file) as char
}

/// The character of decimal digit `d`.
pub open spec fn digit_char(d: int) -> char {
    (('0' as int) + d) as char
}

/// The decimal digits of `n`, most significant first, with no leading zero.
pub open spec fn decimal_digits(n: nat) -> Seq<char>
    decreases n,
{
    if n < 10 {
        seq![digit_char(n as int)]
    } else {
        decimal_digits(n / 10).push(digit_char((n % 10) as int))
    }
}

/// `x` in decimal, with a leading `-` when negative.
pub open spec fn decimal(x: int) -> Seq<char> {
    if x < 0 {
        seq!['-'] + decimal_digits((-x) as nat)
    } else {
        decimal_digits(x as nat)
    }
}

/// The value of a run of decimal digits.
pub open spec fn digits_value(s: Seq<char>) -> nat
    decreases s.len(),
{
    if s.len() == 0 {
        0
    } else {
        digits_value(s.drop_last()) * 10 + (s.last() as nat - '0' as nat) as nat
    }
}

/// Whether every character of `s` is a decimal digit.
pub open spec fn all_digits(s: Seq<char>) -> bool {
    forall|i: int| 0 <= i < s.len() ==> is_digit(#[trigger] s[i])
}

/// The integer written by `s` in the form that `isize` parsing takes: an optional `+` or `-`
/// and at least one decimal digit, with a value representable as an `isize`.
pub open spec fn parse_int(s: Seq<char>) -> Option<int> {
    let signed = s.len() > 0 && (s[0] == '+' || s[0] == '-');
    let body = if signed { s.drop_first() } else { s };
    let value = if s.len() > 0 && s[0] == '-' { -digits_value(body) } else { digits_value(body) as int };
    if body.len() > 0 && all_digits(body) && isize::MIN <= value <= isize::MAX {
        Some(value)
    } else {
        None
    }
}

/// The notation of square `[rank, file]`: the file's letter, then the rank counted from one.
pub open spec fn spec_format(c: [isize; 2]) -> Seq<char> {
    seq![file_letter(c[1] as int)] + decimal(c[0] + 1)
}

/// The square that notation `s` names: a file letter, then a rank counted from one.
pub open spec fn spec_parse_position(s: Seq<char>) -> Option<[isize; 2]> {
    if s.len() == 0 || !spec_is_valid_file(s[0]) {
        None
    } else {
        match parse_int(s.drop_first()) {
            Some(n) => if n - 1 >= isize::MIN {
                Some([(n - 1) as isize, (s[0] as int - 'a' as int) as isize])
            } else {
                None
            },
            None => None,
        }
    }
}

/// Relies on `String::push`: appends one character.
#[verifier::external_body]
fn push_char(s: &mut String, c: char)
    ensures
        final(s)@ == old(s)@.push(c),
{
    s.push(c)
}

/// Relies on `String::pop`: removes and returns the last character, or returns `None` on an
/// empty string.
#[verifier::external_body]
fn pop_char(s: &mut String) -> (r: Option<char>)
    ensures
        old(s)@.len() == 0 ==> r.is_none() && final(s)@ == old(s)@,
        old(s)@.len() > 0 ==> r == Some(old(s)@.last()) && final(s)@ == old(s)@.drop_last(),
{
    s.pop()
}

/// The characters of `s`.
fn chars_of(s: &str) -> (r: Vec<char>)
    ensures
        r@ == s@,
{
    let n = s.unicode_len();
    let mut r: Vec<char> = Vec::new();
    let mut i: usize = 0;
    while i < n
        invariant
            n == s@.len(),
            i <= n,
            r@ == s@.subrange(0, i as int),
        decreases n - i,
    {
        r.push(s.get_char(i));
        i += 1;
    }
    r
}

/// Whether `character` names a file.
pub fn is_valid_file(character: char) -> (r: bool)
    ensures
        r == spec_is_valid_file(character),
{
    character >= 'a' && (character as u32) < ('a' as u32) + NUM_FILES as u32
}

fn is_ascii_digit(c: char) -> (r: bool)
    ensures
        r == is_digit(c),
{
    '0' <= c && c <= '9'
}

/// Appends the decimal digits of `n` to `out`.
fn push_digits(out: &mut Vec<char>, n: u128)
    ensures
        final(out)@ == old(out)@ + decimal_digits(n as nat),
    decreases n,
{
    if n >= 10 {
        push_digits(out, n / 10);
    }
    let d = (n % 10) as u32;
    out.push(char_from_digit(d));
    proof {
        if n >= 10 {
            assert(final(out)@ =~= old(out)@ + decimal_digits(n as nat));
        } else {
            assert(final(out)@ =~= old(out)@ + decimal_digits(n as nat));
        }
    }
}

fn char_from_digit(d: u32) -> (r: char)
    requires
        d < 10,
    ensures
        r == digit_char(d as int),
{
    if d == 0 { '0' } else if d == 1 { '1' } else if d == 2 { '2' } else if d == 3 { '3' }
    else if d == 4 { '4' } else if d == 5 { '5' } else if d == 6 { '6' } else if d == 7 { '7' }
    else if d == 8 { '8' } else { '9' }
}

/// The notation of square `[rank, file]`, e.g. `a1` for `[0, 0]`.
pub fn format_file_and_rank(c: [isize; 2]) -> (r: String)
    requires
        0 <= c[1] < NUM_FILES,
        c[0] < isize::MAX,
    ensures
        r@ == spec_format(c),
{
    let mut out: Vec<char> = Vec::new();
    out.push(file_char(c[1] as u8));
    let shown = c[0] as i128 + 1;
    if shown < 0 {
        out.push('-');
        push_digits(&mut out, (-shown) as u128);
    } else {
        push_digits(&mut out, shown as u128);
    }
    assert(out@ =~= spec_format(c));
    let mut s = String::new();
    let mut i: usize = 0;
    while i < out.len()
        invariant
            i <= out@.len(),
            s@ == out@.subrange(0, i as int),
        decreases out.len() - i,
    {
        push_char(&mut s, out[i]);
        i += 1;
        assert(s@ =~= out@.subrange(0, i as int));
    }
    assert(out@.subrange(0, out@.len() as int) =~= out@);
    s
}

fn file_char(file: u8) -> (r: char)
    requires
        file < NUM_FILES,
    ensures
        r == file_letter(file as int),
{
    if file == 0 { 'a' } else if file == 1 { 'b' } else if file == 2 { 'c' } else if file == 3 { 'd' }
    else if file == 4 { 'e' } else if file == 5 { 'f' } else if file == 6 { 'g' } else { 'h' }
}

/// A run of digits is worth at least any of its prefixes.
proof fn lemma_digits_prefix(s: Seq<char>, k: int)
    requires
        0 <= k <= s.len(),
    ensures
        digits_value(s) >= digits_value(s.subrange(0, k)),
    decreases s.len(),
{
    if k < s.len() {
        assert(s.drop_last().subrange(0, k) =~= s.subrange(0, k));
        lemma_digits_prefix(s.drop_last(), k);
    } else {
        assert(s.subrange(0, k) =~= s);
    }
}

/// The value of the characters `s[start..]` read as an `isize`, as `parse_int` states it.
fn parse_isize(s: &Vec<char>, start: usize) -> (r: Option<isize>)
    requires
        start <= s@.len(),
    ensures
        r matches Some(v) ==> parse_int(s@.subrange(start as int, s@.len() as int)) == Some(
            v as int,
        ),
        r is None <==> parse_int(s@.subrange(start as int, s@.len() as int)) is None,
{
    let ghost t = s@.subrange(start as int, s@.len() as int);
    let mut i = start;
    let mut negative = false;
    if i < s.len() && (s[i] == '+' || s[i] == '-') {
        negative = s[i] == '-';
        i += 1;
    }
    assert(negative == (t.len() > 0 && t[0] == '-'));
    let body_start = i;
    let ghost body = s@.subrange(body_start as int, s@.len() as int);
    assert(body =~= (if t.len() > 0 && (t[0] == '+' || t[0] == '-') { t.drop_first() } else { t }));
    if body_start == s.len() {
        return None;
    }
    let mut acc: u64 = 0;
    while i < s.len()
        invariant
            body_start <= i <= s@.len(),
            body == s@.subrange(body_start as int, s@.len() as int),
            all_digits(s@.subrange(body_start as int, i as int)),
            acc == digits_value(s@.subrange(body_start as int, i as int)),
            t == s@.subrange(start as int, s@.len() as int),
            body =~= (if t.len() > 0 && (t[0] == '+' || t[0] == '-') { t.drop_first() } else { t }),
            negative == (t.len() > 0 && t[0] == '-'),
            body.len() > 0,
        decreases s.len() - i,
    {
        let c = s[i];
        if !is_ascii_digit(c) {
            assert(!is_digit(body[i - body_start]));
            return None;
        }
        let ghost prefix = s@.subrange(body_start as int, i as int + 1);
        assert(prefix.drop_last() =~= s@.subrange(body_start as int, i as int));
        let d = (c as u32 - '0' as u32) as u64;
        let next = match acc.checked_mul(10) {
            Some(x) => x.checked_add(d),
            None => None,
        };
        match next {
            Some(v) => {
                acc = v;
            },
            None => {
                proof {
                    assert(digits_value(prefix) == acc * 10 + d);
                    assert(acc * 10 + d > u64::MAX);
                    if all_digits(body) {
                        assert(prefix =~= body.subrange(0, i - body_start + 1));
                        lemma_digits_prefix(body, i - body_start + 1);
                    }
                }
                return None;
            },
        }
        i += 1;
        assert(all_digits(s@.subrange(body_start as int, i as int))) by {
            assert forall|j: int| 0 <= j < prefix.len() implies is_digit(#[trigger] prefix[j]) by {
                if j < prefix.len() - 1 {
                    assert(prefix[j] == s@.subrange(body_start as int, i - 1)[j]);
                }
            }
        }
    }
    assert(s@.subrange(body_start as int, i as int) =~= body);
    let value: i128 = if negative {
        -(acc as i128)
    } else {
        acc as i128
    };
    if value < isize::MIN as i128 || value > isize::MAX as i128 {
        None
    } else {
        Some(value as isize)
    }
}

/// The square that notation `position` names, such as `a1` for `[0, 0]`; `None` unless it is a
/// file letter followed by a rank counted from one.
pub fn parse_position(position: &str) -> (r: Option<[isize; 2]>)
    ensures
        r == spec_parse_position(position@),
{
    let chars = chars_of(position);
    position_of(&chars)
}

/// The square that the characters `chars` name.
fn position_of(chars: &Vec<char>) -> (r: Option<[isize; 2]>)
    ensures
        r == spec_parse_position(chars@),
{
    if chars.len() == 0 {
        return None;
    }
    let file = chars[0];
    if !is_valid_file(file) {
        return None;
    }
    assert(chars@.subrange(1, chars@.len() as int) =~= chars@.drop_first());
    let rank = match parse_isize(&chars, 1) {
        Some(n) => n,
        None => return None,
    };
    match rank.checked_sub(1) {
        Some(rank) => Some([rank, (file as u32 - 'a' as u32) as isize]),
        None => None,
    }
}

/// Reading back the notation of a square gives the square: `parse(format(c)) == c`, for every
/// square on the files whose rank counted from one is representable.
pub proof fn lemma_notation_round_trip(c: [isize; 2])
    requires
        0 <= c[1] < NUM_FILES,
        c[0] < isize::MAX,
    ensures
        spec_parse_position(spec_format(c)) == Some(c),
{
    let s = spec_format(c);
    let n = c[0] + 1;
    assert(s.drop_first() =~= decimal(n));
    lemma_decimal_parses(n);
    assert(spec_parse_position(s) == Some([c[0], c[1]]));
    assert([c[0], c[1]] =~= c);
}

proof fn lemma_digit_char(d: int)
    requires
        0 <= d < 10,
    ensures
        digit_char(d) as int == '0' as int + d,
        is_digit(digit_char(d)),
{
    if d == 0 {} else if d == 1 {} else if d == 2 {} else if d == 3 {} else if d == 4 {}
    else if d == 5 {} else if d == 6 {} else if d == 7 {} else if d == 8 {} else {}
}

proof fn lemma_decimal_digits_parse(n: nat)
    ensures
        decimal_digits(n).len() > 0,
        all_digits(decimal_digits(n)),
        digits_value(decimal_digits(n)) == n,
        decimal_digits(n)[0] != '+' && decimal_digits(n)[0] != '-',
    decreases n,
{
    lemma_digit_char((n % 10) as int);
    if n < 10 {
        let s = decimal_digits(n);
        assert(s.drop_last() =~= Seq::<char>::empty());
        assert(s.last() == digit_char(n as int));
        assert(digits_value(s) == digits_value(s.drop_last()) * 10 + (s.last() as nat - '0' as nat) as nat);
    }
    if n >= 10 {
        lemma_decimal_digits_parse(n / 10);
        let s = decimal_digits(n);
        assert(s.drop_last() =~= decimal_digits(n / 10));
        assert(s.last() == digit_char((n % 10) as int));
        assert((n / 10) * 10 + n % 10 == n) by (nonlinear_arith);
        assert(digits_value(s) == digits_value(s.drop_last()) * 10 + (s.last() as nat - '0' as nat) as nat);
        assert forall|i: int| 0 <= i < s.len() implies is_digit(#[trigger] s[i]) by {
            if i < s.len() - 1 {
                assert(s[i] == decimal_digits(n / 10)[i]);
            }
        }
    }
}

proof fn lemma_decimal_parses(n: int)
    requires
        isize::MIN <= n <= isize::MAX,
    ensures
        parse_int(decimal(n)) == Some(n),
{
    if n < 0 {
        lemma_decimal_digits_parse((-n) as nat);
        assert(decimal(n).drop_first() =~= decimal_digits((-n) as nat));
    } else {
        lemma_decimal_digits_parse(n as nat);
    }
}

/// Whether `c` has the Unicode `White_Space` property, which separates the words of a
/// command.
pub open spec fn is_white_space(c: char) -> bool {
    let x = c as int;
    (0x9 <= x <= 0xd) || x == 0x20 || x == 0x85 || x == 0xa0 || x == 0x1680 || (0x2000 <= x
        <= 0x200a) || x == 0x2028 || x == 0x2029 || x == 0x202f || x == 0x205f || x == 0x3000
}

/// The words of `s`: its maximal runs of characters that are not white space, in order.
pub open spec fn words(s: Seq<char>) -> Seq<Seq<char>>
    decreases s.len(),
{
    if s.len() == 0 {
        seq![]
    } else {
        let before = words(s.drop_last());
        let c = s.last();
        if is_white_space(c) {
            before
        } else if s.len() >= 2 && !is_white_space(s[s.len() - 2]) {
            before.drop_last().push(before.last().push(c))
        } else {
            before.push(seq![c])
        }
    }
}

fn is_space(c: char) -> (r: bool)
    ensures
        r == is_white_space(c),
{
    let x = c as u32;
    (0x9 <= x && x <= 0xd) || x == 0x20 || x == 0x85 || x == 0xa0 || x == 0x1680 || (0x2000 <= x
        && x <= 0x200a) || x == 0x2028 || x == 0x2029 || x == 0x202f || x == 0x205f || x == 0x3000
}

/// The words of `s`, each as its characters.
fn split_words(s: &Vec<char>) -> (r: Vec<Vec<char>>)
    ensures
        r@.map_values(|w: Vec<char>| w@) == words(s@),
{
    let mut done: Vec<Vec<char>> = Vec::new();
    let mut current: Vec<char> = Vec::new();
    let mut i: usize = 0;
    while i < s.len()
        invariant
            i <= s@.len(),
            words(s@.subrange(0, i as int)) == done@.map_values(|w: Vec<char>| w@) + (if current@.len() > 0 {
                seq![current@]
            } else {
                seq![]
            }),
            (current@.len() > 0) == (i > 0 && !is_white_space(s@[i - 1])),
        decreases s.len() - i,
    {
        let c = s[i];
        let ghost prefix = s@.subrange(0, i as int + 1);
        let ghost old_done = done@.map_values(|w: Vec<char>| w@);
        let ghost old_current = current@;
        let ghost before = words(prefix.drop_last());
        assert(prefix.drop_last() =~= s@.subrange(0, i as int));
        assert(prefix.last() == c);
        if is_space(c) {
            if current.len() > 0 {
                let word = current;
                current = Vec::new();
                done.push(word);
                assert(done@.map_values(|w: Vec<char>| w@) =~= old_done.push(word@));
                assert(words(prefix) == before);
                assert(before =~= old_done + seq![old_current]);
                assert(words(prefix) =~= done@.map_values(|w: Vec<char>| w@));
            } else {
                assert(words(prefix) == before);
                assert(before =~= old_done);
            }
        } else {
            current.push(c);
            proof {
                if old_current.len() > 0 {
                    assert(prefix[prefix.len() - 2] == s@[i - 1]);
                    assert(before =~= old_done.push(old_current));
                    assert(before.drop_last() =~= old_done);
                    assert(words(prefix) == before.drop_last().push(before.last().push(c)));
                    assert(words(prefix) =~= old_done + seq![current@]);
                } else {
                    assert(before =~= old_done);
                    assert(words(prefix) == before.push(seq![c]));
                    assert(current@ =~= seq![c]);
                    assert(words(prefix) =~= old_done + seq![current@]);
                }
            }
        }
        i += 1;
        assert(words(s@.subrange(0, i as int)) == done@.map_values(|w: Vec<char>| w@) + (if current@.len() > 0 {
            seq![current@]
        } else {
            seq![]
        })) by {
            assert(s@.subrange(0, i as int) =~= prefix);
            assert(done@.map_values(|w: Vec<char>| w@) + (if current@.len() > 0 {
                seq![current@]
            } else {
                seq![]
            }) =~= words(prefix));
        }
    }
    if current.len() > 0 {
        done.push(current);
    }
    assert(s@.subrange(0, s@.len() as int) =~= s@);
    assert(done@.map_values(|w: Vec<char>| w@) =~= words(s@));
    done
}

/// A command typed by a player.
#[derive(Clone, Copy, Debug, PartialEq, Eq)]
pub enum MoveCommand {
    /// Move the piece on `start` to `end`: two squares, such as `e2 e4`.
    MovePiece { start: [isize; 2], end: [isize; 2] },
    /// Look at a rank, or pick a promotion: `:` and a number counted from one.
    MoveView { rank: isize },
    /// Look at the starting ranks again: `:` alone.
    Home,
}

/// The move command that words `w` spell: exactly two squares.
pub open spec fn spec_move_command(w: Seq<Seq<char>>) -> Option<MoveCommand> {
    if w.len() == 2 {
        match (spec_parse_position(w[0]), spec_parse_position(w[1])) {
            (Some(start), Some(end)) => Some(MoveCommand::MovePiece { start, end }),
            _ => None,
        }
    } else {
        None
    }
}

/// The view command that words `w` spell: exactly one word, `:` followed by nothing or by a
/// number counted from one.
pub open spec fn spec_view_command(w: Seq<Seq<char>>) -> Option<MoveCommand> {
    if w.len() == 1 && w[0].len() >= 1 && w[0][0] == ':' {
        let destination = w[0].drop_first();
        if destination.len() == 0 {
            Some(MoveCommand::Home)
        } else {
            match parse_int(destination) {
                Some(n) => if n - 1 >= isize::MIN {
                    Some(MoveCommand::MoveView { rank: (n - 1) as isize })
                } else {
                    None
                },
                None => None,
            }
        }
    } else {
        None
    }
}

/// The command that `command` spells: a view command when it starts with `:`, else a move.
pub open spec fn spec_from_command(command: Seq<char>) -> Option<MoveCommand> {
    if command.len() > 0 && command[0] == ':' {
        spec_view_command(words(command))
    } else {
        spec_move_command(words(command))
    }
}

impl MoveCommand {
    /// The command that `command` spells, or `None` when it spells none.
    pub fn from_command(command: &str) -> (r: Option<Self>)
        ensures
            r == spec_from_command(command@),
    {
        let chars = chars_of(command);
        let tokens = split_words(&chars);
        if chars.len() > 0 && chars[0] == ':' {
            Self::parse_view_command(&tokens)
        } else {
            Self::parse_move_command(&tokens)
        }
    }

    fn parse_move_command(tokens: &Vec<Vec<char>>) -> (r: Option<Self>)
        ensures
            r == spec_move_command(tokens@.map_values(|w: Vec<char>| w@)),
    {
        let ghost w = tokens@.map_values(|w: Vec<char>| w@);
        if tokens.len() != 2 {
            return None;
        }
        assert(w[0] == tokens@[0]@ && w[1] == tokens@[1]@);
        let start = match position_of(&tokens[0]) {
            Some(p) => p,
            None => return None,
        };
        let end = match position_of(&tokens[1]) {
            Some(p) => p,
            None => return None,
        };
        Some(MoveCommand::MovePiece { start, end })
    }

    fn parse_view_command(tokens: &Vec<Vec<char>>) -> (r: Option<Self>)
        ensures
            r == spec_view_command(tokens@.map_values(|w: Vec<char>| w@)),
    {
        let ghost w = tokens@.map_values(|w: Vec<char>| w@);
        if tokens.len() != 1 {
            return None;
        }
        let word = &tokens[0];
        assert(w[0] == word@);
        if word.len() == 0 || word[0] != ':' {
            return None;
        }
        if word.len() == 1 {
            assert(w[0].drop_first().len() == 0);
            return Some(MoveCommand::Home);
        }
        assert(word@.subrange(1, word@.len() as int) =~= w[0].drop_first());
        match parse_isize(word, 1) {
            Some(n) => match n.checked_sub(1) {
                Some(rank) => Some(MoveCommand::MoveView { rank }),
                None => None,
            },
            None => None,
        }
    }
}

/// `c` with an ASCII capital made small; every other character unchanged.
pub open spec fn ascii_lower(c: char) -> char {
    if 'A' <= c <= 'Z' {
        ((c as int) + 32) as char
    } else {
        c
    }
}

/// Whether `c` may be typed after `command`, judged by the last character typed, by the first,
/// and by how many words there are. On a start of a command (`command_prefix`) this takes
/// exactly the characters that keep it a start of a command
/// (`lemma_next_valid_keeps_command_prefix`).
pub open spec fn spec_next_valid(command: Seq<char>, c: char) -> bool {
    if command.len() == 0 {
        c == ':' || spec_is_valid_file(c)
    } else if c == ' ' && (command[0] == ':' || words(command).len() >= 2) {
        false
    } else {
        let last = command.last();
        if last == ' ' {
            spec_is_valid_file(c)
        } else if last == ':' || spec_is_valid_file(last) {
            is_digit(c) || c == '-'
        } else if is_digit(last) || last == '-' {
            is_digit(c) || c == ' '
        } else {
            false
        }
    }
}

/// What the command line holds after `c` is typed on `command`: backspace removes the last
/// character; any other character, made small, is appended when the command stays within
/// its length and the character may follow.
pub open spec fn spec_typed(command: Seq<char>, c: char) -> Seq<char> {
    if c == '\x08' {
        if command.len() > 0 {
            command.drop_last()
        } else {
            command
        }
    } else if (encode_utf8(command).len() as usize) < CommandInput::MAX_COMMAND_LENGTH && spec_next_valid(
        command,
        ascii_lower(c),
    ) {
        command.push(ascii_lower(c))
    } else {
        command
    }
}

/// The text that a player is typing.
pub struct CommandInput {
    pub command: String,
}

impl Default for CommandInput {
    /// An empty command line.
    fn default() -> (r: Self)
        ensures
            r.command@ == Seq::<char>::empty(),
            command_prefix(r.command@),
    {
        CommandInput { command: String::new() }
    }
}

fn to_ascii_lowercase(c: char) -> (r: char)
    ensures
        r == ascii_lower(c),
{
    if 'A' <= c && c <= 'Z' {
        ((c as u8) + 32) as char
    } else {
        c
    }
}

impl CommandInput {
    /// The longest command, in bytes, that the command line takes.
    pub const MAX_COMMAND_LENGTH: usize = 20;

    /// The last character typed, if any.
    pub fn last_character(&self) -> (r: Option<char>)
        ensures
            r == if self.command@.len() > 0 {
                Some(self.command@.last())
            } else {
                None::<char>
            },
    {
        let text = self.command.as_str();
        let n = text.unicode_len();
        if n == 0 {
            None
        } else {
            Some(text.get_char(n - 1))
        }
    }

    /// Whether `character` may be typed next.
    pub fn is_next_character_valid(&self, character: char) -> (r: bool)
        ensures
            r == spec_next_valid(self.command@, character),
            command_prefix(self.command@) ==> (r == command_prefix(
                self.command@.push(character),
            )),
    {
        proof {
            if command_prefix(self.command@) {
                lemma_next_valid_keeps_command_prefix(self.command@, character);
            }
        }
        let last_character = match self.last_character() {
            Some(c) => c,
            None => return character == ':' || is_valid_file(character),
        };
        let first_character = self.command.as_str().get_char(0);
        if character == ' ' {
            if first_character == ':' {
                return false;
            }
            let chars = chars_of(self.command.as_str());
            let tokens = split_words(&chars);
            if tokens.len() >= 2 {
                return false;
            }
        }
        if last_character == ' ' {
            is_valid_file(character)
        } else if last_character == ':' || is_valid_file(last_character) {
            is_ascii_digit(character) || character == '-'
        } else if is_ascii_digit(last_character) || last_character == '-' {
            is_ascii_digit(character) || character == ' '
        } else {
            false
        }
    }

    /// Handles one typed character: backspace removes the last character; any other is made
    /// small and appended when the command stays within its length and the character may
    /// follow.
    pub fn type_character(&mut self, character: char)
        ensures
            final(self).command@ == spec_typed(old(self).command@, character),
            command_prefix(old(self).command@) ==> command_prefix(final(self).command@),
    {
        proof {
            if command_prefix(self.command@) {
                lemma_next_valid_keeps_command_prefix(self.command@, ascii_lower(character));
                if self.command@.len() > 0 {
                    lemma_command_prefix_drop_last(self.command@);
                }
            }
        }
        if character == '\x08' {
            pop_char(&mut self.command);
        } else {
            let character = to_ascii_lowercase(character);
            if self.command.as_str().len() < Self::MAX_COMMAND_LENGTH && self.is_next_character_valid(character) {
                push_char(&mut self.command, character);
            }
        }
    }
}

/// Whether `s` starts a number as the command line takes it: a `-` or a digit first, then
/// digits; the empty start included.
pub open spec fn number_start(s: Seq<char>) -> bool {
    forall|i: int|
        0 <= i < s.len() ==> if i == 0 {
            s[0] == '-' || is_digit(s[0])
        } else {
            is_digit(#[trigger] s[i])
        }
}

/// Whether `s` starts a square: a file letter, then the start of a number.
pub open spec fn square_start(s: Seq<char>) -> bool {
    s.len() >= 1 && spec_is_valid_file(s[0]) && number_start(s.drop_first())
}

/// Whether `s` is a start of a command: empty; `:` and the start of a number; the start of a
/// square; or a square with a number, one space, and the start of a second square.
pub open spec fn command_prefix(s: Seq<char>) -> bool {
    ||| s.len() == 0
    ||| s[0] == ':' && number_start(s.drop_first())
    ||| square_start(s)
    ||| exists|i: int|
        0 < i < s.len() && #[trigger] s[i] == ' ' && square_start(s.subrange(0, i)) && i >= 2 && (
        i + 1 == s.len() || square_start(s.subrange(i + 1, s.len() as int)))
}

/// Text without white space is at most one word.
proof fn lemma_one_word(s: Seq<char>)
    requires
        forall|i: int| 0 <= i < s.len() ==> !is_white_space(#[trigger] s[i]),
    ensures
        words(s).len() <= 1,
        s.len() > 0 ==> words(s).len() == 1,
    decreases s.len(),
{
    if s.len() > 0 {
        let t = s.drop_last();
        assert forall|i: int| 0 <= i < t.len() implies !is_white_space(#[trigger] t[i]) by {
            assert(t[i] == s[i]);
        }
        lemma_one_word(t);
        if s.len() >= 2 {
            assert(!is_white_space(s[s.len() - 2]));
        }
    }
}

/// Adding characters never takes a word away.
proof fn lemma_words_grow(s: Seq<char>)
    requires
        s.len() > 0,
    ensures
        words(s).len() >= words(s.drop_last()).len(),
{
}

/// Text with a word, then white space, then another word, has at least two words.
proof fn lemma_two_words(s: Seq<char>, a: int, i: int, b: int)
    requires
        0 <= a < i < b < s.len(),
        !is_white_space(s[a]),
        is_white_space(s[i]),
        !is_white_space(s[b]),
    ensures
        words(s).len() >= 2,
    decreases s.len(),
{
    let t = s.drop_last();
    if b < s.len() - 1 {
        lemma_two_words(t, a, i, b);
        lemma_words_grow(s);
    } else if !is_white_space(s[s.len() - 2]) {
        assert(i < s.len() - 2);
        lemma_two_words(t, a, i, s.len() - 2);
    } else {
        lemma_some_word(t, a);
    }
}

/// Text with a character that is not white space has a word.
proof fn lemma_some_word(s: Seq<char>, a: int)
    requires
        0 <= a < s.len(),
        !is_white_space(s[a]),
    ensures
        words(s).len() >= 1,
    decreases s.len(),
{
    if a < s.len() - 1 {
        lemma_some_word(s.drop_last(), a);
        lemma_words_grow(s);
    }
}

/// A start of a square holds no space, no white space and no `:`.
proof fn lemma_square_start_plain(t: Seq<char>)
    requires
        square_start(t),
    ensures
        forall|k: int|
            0 <= k < t.len() ==> (#[trigger] t[k]) != ' ' && t[k] != ':' && !is_white_space(t[k]),
{
    assert forall|k: int| 0 <= k < t.len() implies (#[trigger] t[k]) != ' ' && t[k] != ':'
        && !is_white_space(t[k]) by {
        if k > 0 {
            assert(t[k] == t.drop_first()[k - 1]);
        }
    }
}

/// A start of a number stays one when a digit is appended, and stops being one when a space
/// or a `:` is; a `-` may only start it.
proof fn lemma_number_push(t: Seq<char>, c: char)
    requires
        number_start(t),
    ensures
        number_start(t.push(c)) == (is_digit(c) || (t.len() == 0 && c == '-')),
{
    let u = t.push(c);
    if is_digit(c) || (t.len() == 0 && c == '-') {
        assert forall|i: int| 0 <= i < u.len() implies if i == 0 {
            u[0] == '-' || is_digit(u[0])
        } else {
            is_digit(#[trigger] u[i])
        } by {
            if i < t.len() {
                assert(u[i] == t[i]);
            }
        }
    } else {
        assert(u[t.len() as int] == c);
    }
}

/// On a start of a command, the editor's rule takes exactly the characters that keep it a
/// start of a command.
pub proof fn lemma_next_valid_keeps_command_prefix(cmd: Seq<char>, c: char)
    requires
        command_prefix(cmd),
    ensures
        spec_next_valid(cmd, c) == command_prefix(cmd.push(c)),
{
    let s = cmd.push(c);
    let n = cmd.len() as int;
    assert(s[n] == c);
    assert forall|k: int| 0 <= k < n implies s[k] == cmd[k] by {}
    if n == 0 {
        assert(s.drop_first() =~= Seq::<char>::empty());
        assert(s =~= seq![c]);
        if c == ':' || spec_is_valid_file(c) {
        } else {
            assert(!square_start(s));
        }
    } else if cmd[0] == ':' {
        let rest = cmd.drop_first();
        assert(s.drop_first() =~= rest.push(c));
        lemma_number_push(rest, c);
        assert(!square_start(s));
        assert(!square_start(cmd));
        assert forall|i: int| 0 < i < s.len() && #[trigger] s[i] == ' ' implies !square_start(
            s.subrange(0, i),
        ) by {
            assert(s.subrange(0, i)[0] == ':');
        }
        if n >= 2 {
            assert(rest[n - 2] == cmd[n - 1]);
            if n > 2 {
                assert(is_digit(rest[n - 2]));
            }
        }
    } else if square_start(cmd) {
        lemma_square_start_plain(cmd);
        let rest = cmd.drop_first();
        assert(s.drop_first() =~= rest.push(c));
        lemma_number_push(rest, c);
        assert forall|i: int| 0 <= i < n implies !is_white_space(#[trigger] cmd[i]) by {}
        lemma_one_word(cmd);
        if n >= 2 {
            assert(rest[n - 2] == cmd[n - 1]);
            if n > 2 {
                assert(is_digit(rest[n - 2]));
            }
        }
        if c == ' ' {
            if n >= 2 {
                assert(s.subrange(0, n) =~= cmd);
                assert(s[n] == ' ');
            } else {
                assert forall|i: int| 0 < i < s.len() && #[trigger] s[i] == ' ' implies !(
                square_start(s.subrange(0, i)) && i >= 2) by {}
            }
        } else {
            assert forall|i: int| 0 < i < s.len() implies #[trigger] s[i] != ' ' by {
                if i < n {
                    assert(s[i] == cmd[i]);
                }
            }
        }
    } else {
        let i = choose|i: int|
            0 < i < cmd.len() && #[trigger] cmd[i] == ' ' && square_start(cmd.subrange(0, i))
                && i >= 2 && (i + 1 == cmd.len() || square_start(
                cmd.subrange(i + 1, cmd.len() as int),
            ));
        let w1 = cmd.subrange(0, i);
        lemma_square_start_plain(w1);
        assert(cmd[0] == w1[0]);
        assert(s.subrange(0, i) =~= w1);
        assert(!square_start(s)) by {
            if square_start(s) {
                lemma_square_start_plain(s);
                assert(s[i] == ' ');
            }
        }
        // the only space is at `i`, unless `c` is one
        if i + 1 == n {
            assert(cmd.last() == ' ');
            assert(s.subrange(i + 1, s.len() as int) =~= seq![c]);
            assert(seq![c].drop_first() =~= Seq::<char>::empty());
            if c == ' ' {
                assert forall|j: int| 0 < j < s.len() && #[trigger] s[j] == ' ' implies !(
                square_start(s.subrange(0, j)) && (j + 1 == s.len() || square_start(
                    s.subrange(j + 1, s.len() as int),
                ))) by {
                    if j < i {
                        assert(w1[j] == s[j]);
                    } else if j != i {
                        assert(j == n);
                        assert(s.subrange(0, j)[i] == ' ');
                        if square_start(s.subrange(0, j)) {
                            lemma_square_start_plain(s.subrange(0, j));
                        }
                    }
                }
            } else if spec_is_valid_file(c) {
                assert(square_start(s.subrange(i + 1, s.len() as int)));
            } else {
                assert forall|j: int| 0 < j < s.len() && #[trigger] s[j] == ' ' implies !(
                square_start(s.subrange(0, j)) && (j + 1 == s.len() || square_start(
                    s.subrange(j + 1, s.len() as int),
                ))) by {
                    if j < i {
                        assert(w1[j] == s[j]);
                    }
                    assert(j == i);
                }
            }
        } else {
            let w2 = cmd.subrange(i + 1, n);
            lemma_square_start_plain(w2);
            assert(w2[0] == cmd[i + 1]);
            assert(!is_white_space(cmd[0]));
            assert(is_white_space(cmd[i]));
            lemma_two_words(cmd, 0, i, i + 1);
            let rest2 = w2.drop_first();
            assert(s.subrange(i + 1, s.len() as int) =~= w2.push(c));
            assert(w2.push(c).drop_first() =~= rest2.push(c));
            lemma_number_push(rest2, c);
            if w2.len() >= 2 {
                assert(rest2[w2.len() - 2] == cmd[n - 1]);
                if w2.len() > 2 {
                    assert(is_digit(rest2[w2.len() - 2]));
                }
            }
            assert(cmd.last() == w2.last());
            assert forall|j: int| 0 < j < s.len() && #[trigger] s[j] == ' ' && j != i implies !(
            square_start(s.subrange(0, j))) by {
                if j < i {
                    assert(w1[j] == s[j]);
                } else {
                    assert(s.subrange(0, j)[i] == ' ');
                    if square_start(s.subrange(0, j)) {
                        lemma_square_start_plain(s.subrange(0, j));
                    }
                }
            }
            if c == ' ' {
                assert(!square_start(w2.push(c))) by {
                    if square_start(w2.push(c)) {
                        lemma_square_start_plain(w2.push(c));
                        assert(w2.push(c)[w2.len() as int] == ' ');
                    }
                }
            }
        }
    }
}

/// Removing the last character of a start of a command leaves a start of a command.
pub proof fn lemma_command_prefix_drop_last(cmd: Seq<char>)
    requires
        command_prefix(cmd),
        cmd.len() > 0,
    ensures
        command_prefix(cmd.drop_last()),
{
    let t = cmd.drop_last();
    if t.len() == 0 {
    } else if cmd[0] == ':' {
        assert(t.drop_first() =~= cmd.drop_first().drop_last());
        assert(t[0] == ':');
    } else if square_start(cmd) {
        assert(t.drop_first() =~= cmd.drop_first().drop_last());
        assert(t[0] == cmd[0]);
    } else {
        let i = choose|i: int|
            0 < i < cmd.len() && #[trigger] cmd[i] == ' ' && square_start(cmd.subrange(0, i))
                && i >= 2 && (i + 1 == cmd.len() || square_start(
                cmd.subrange(i + 1, cmd.len() as int),
            ));
        if i + 1 == cmd.len() {
            assert(t =~= cmd.subrange(0, i));
        } else {
            let w2 = cmd.subrange(i + 1, cmd.len() as int);
            assert(t.subrange(0, i) =~= cmd.subrange(0, i));
            assert(t[i] == ' ');
            if w2.len() > 1 {
                assert(t.subrange(i + 1, t.len() as int) =~= w2.drop_last());
                assert(w2.drop_last().drop_first() =~= w2.drop_first().drop_last());
                assert(w2.drop_last()[0] == w2[0]);
            }
        }
    }
}

} // verus!
