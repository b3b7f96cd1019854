//! The text-command grammar: control commands, statement parsing, and
//! statement execution against a table.
//!
//! A line is trimmed of surrounding whitespace and split on single spaces;
//! `insert <id> <username> <email>` and `select` are the two statements,
//! and `.help` / `.exit` the two control commands.

use vstd::prelude::*;
use vstd::string::*;
use vstd::utf8::encode_utf8;

use crate::codec::{
    decode_err_msg, spec_decoded_email, spec_decoded_id, spec_decoded_username, spec_row_bytes,
};
use crate::row::Row;
use crate::table::{spec_capacity, Table};
use crate::text::spec_pad_bytes;
use crate::{COLUMN_EMAIL_SIZE, COLUMN_USERNAME_SIZE};

verus! {

/// A control command: what a line beginning with `.` may name.
#[derive(Debug, PartialEq)]
pub enum Command {
    Help,
    Exit,
}

/// A statement: one of the two operations the table supports.
#[derive(Debug, PartialEq)]
pub enum Statement {
    Select,
    Insert(Row),
}

/// What executing a control command asks the surrounding loop to do:
/// print a piece of text, or stop the process.
#[derive(Debug, PartialEq)]
pub enum CommandEffect {
    Output(String),
    Exit,
}

/// The whitespace characters trimmed off a line's ends: Unicode's
/// White_Space set, the one `str::trim` removes.
pub open spec fn is_space_char(c: char) -> bool {
    let u = c as u32;
    ||| (0x9 <= u && u <= 0xd)
    ||| u == 0x20
    ||| u == 0x85
    ||| u == 0xa0
    ||| u == 0x1680
    ||| (0x2000 <= u && u <= 0x200a)
    ||| u == 0x2028
    ||| u == 0x2029
    ||| u == 0x202f
    ||| u == 0x205f
    ||| u == 0x3000
}

/// `s` without its leading whitespace.
pub open spec fn trim_start_spec(s: Seq<char>) -> Seq<char>
    decreases s.len(),
{
    if s.len() > 0 && is_space_char(s[0]) {
        trim_start_spec(s.drop_first())
    } else {
        s
    }
}

/// `s` without its trailing whitespace.
pub open spec fn trim_end_spec(s: Seq<char>) -> Seq<char>
    decreases s.len(),
{
    if s.len() > 0 && is_space_char(s.last()) {
        trim_end_spec(s.drop_last())
    } else {
        s
    }
}

/// `s` without leading or trailing whitespace.
pub open spec fn spec_trim(s: Seq<char>) -> Seq<char> {
    trim_end_spec(trim_start_spec(s))
}

/// Index of the first space in `s`, or a negative value if there is none.
pub open spec fn first_space(s: Seq<char>) -> int
    decreases s.len(),
{
    if s.len() == 0 {
        -1
    } else if s[0] == ' ' {
        0
    } else {
        let r = first_space(s.drop_first());
        if r < 0 {
            -1
        } else {
            r + 1
        }
    }
}

/// `s` split on every single space, the way `split(' ')` splits: `n`
/// spaces yield `n + 1` tokens, and an empty input yields one empty token.
pub open spec fn split_spaces(s: Seq<char>) -> Seq<Seq<char>>
    decreases s.len(),
{
    let i = first_space(s);
    if i < 0 || i >= s.len() {
        seq![s]
    } else {
        seq![s.take(i)] + split_spaces(s.skip(i + 1))
    }
}

/// The first space really is one, and nothing before it is.
pub proof fn lemma_first_space(s: Seq<char>)
    ensures
        first_space(s) < 0 ==> forall|j: int| 0 <= j < s.len() ==> s[j] != ' ',
        first_space(s) >= 0 ==> {
            &&& first_space(s) < s.len()
            &&& s[first_space(s)] == ' '
            &&& forall|j: int| 0 <= j < first_space(s) ==> s[j] != ' '
        },
    decreases s.len(),
{
    if s.len() == 0 {
    } else if s[0] == ' ' {
    } else {
        lemma_first_space(s.drop_first());
        let r = first_space(s.drop_first());
        if r >= 0 {
            assert forall|j: int| 0 <= j < first_space(s) implies s[j] != ' ' by {
                if j > 0 {
                    assert(s.drop_first()[j - 1] != ' ');
                }
            }
        } else {
            assert forall|j: int| 0 <= j < s.len() implies s[j] != ' ' by {
                if j > 0 {
                    assert(s.drop_first()[j - 1] != ' ');
                }
            }
        }
    }
}

/// Where the first space of `s` is known, `first_space` finds exactly it.
pub proof fn lemma_first_space_at(s: Seq<char>, i: int)
    requires
        0 <= i < s.len(),
        s[i] == ' ',
        forall|j: int| 0 <= j < i ==> s[j] != ' ',
    ensures
        first_space(s) == i,
    decreases s.len(),
{
    if i == 0 {
    } else {
        assert forall|j: int| 0 <= j < i - 1 implies s.drop_first()[j] != ' ' by {
            assert(s[j + 1] != ' ');
        }
        assert(s.drop_first()[i - 1] == ' ');
        lemma_first_space_at(s.drop_first(), i - 1);
    }
}

/// Where `s` holds no space at all, `first_space` reports none.
pub proof fn lemma_first_space_none(s: Seq<char>)
    requires
        forall|j: int| 0 <= j < s.len() ==> s[j] != ' ',
    ensures
        first_space(s) < 0,
{
    lemma_first_space(s);
    if first_space(s) >= 0 {
        assert(s[first_space(s)] == ' ');
    }
}

/// Whether two string slices hold the same characters.
pub fn str_eq(a: &str, b: &str) -> (r: bool)
    ensures
        r == (a@ == b@),
{
    let sa = String::from_str(a);
    let sb = String::from_str(b);
    sa == sb
}

/// Copies `s` with leading and trailing whitespace removed.
pub fn trim(s: &str) -> (r: String)
    ensures
        r@ == spec_trim(s@),
{
    let n = s.unicode_len();
    proof {
        assert(s@.skip(0) =~= s@);
    }
    let mut a: usize = 0;
    while a < n && is_space(s.get_char(a))
        invariant
            a <= n,
            n == s@.len(),
            trim_start_spec(s@) == trim_start_spec(s@.skip(a as int)),
        decreases n - a,
    {
        proof {
            let t = s@.skip(a as int);
            assert(t[0] == s@[a as int]);
            assert(t.drop_first() =~= s@.skip(a + 1));
        }
        a = a + 1;
    }
    proof {
        let t = s@.skip(a as int);
        if a < n {
            assert(t[0] == s@[a as int]);
        }
        assert(trim_start_spec(t) == t);
    }
    let mut b: usize = n;
    while b > a && is_space(s.get_char(b - 1))
        invariant
            a <= b <= n,
            n == s@.len(),
            trim_start_spec(s@) == s@.skip(a as int),
            trim_end_spec(s@.subrange(a as int, n as int)) == trim_end_spec(
                s@.subrange(a as int, b as int),
            ),
        decreases b,
    {
        proof {
            let t = s@.subrange(a as int, b as int);
            assert(t.last() == s@[b - 1]);
            assert(t.drop_last() =~= s@.subrange(a as int, b - 1));
        }
        b = b - 1;
    }
    proof {
        let t = s@.subrange(a as int, b as int);
        if b > a {
            assert(t.last() == s@[b - 1]);
        }
        assert(trim_end_spec(t) == t);
        assert(s@.skip(a as int) =~= s@.subrange(a as int, n as int));
    }
    let sub = s.substring_char(a, b);
    let r = String::from_str(sub);
    proof {
        assert(sub@ =~= s@.subrange(a as int, b as int));
    }
    r
}

/// Whether `c` is one of the characters [`is_space_char`] names.
fn is_space(c: char) -> (r: bool)
    ensures
        r == is_space_char(c),
{
    let u = c as u32;
    (0x9 <= u && u <= 0xd) || u == 0x20 || u == 0x85 || u == 0xa0 || u == 0x1680 || (0x2000 <= u
        && u <= 0x200a) || u == 0x2028 || u == 0x2029 || u == 0x202f || u == 0x205f || u == 0x3000
}

/// Splits `s` on every single space, like `split(' ')`.
pub fn split_on_spaces(s: &str) -> (r: Vec<String>)
    ensures
        r@.len() == split_spaces(s@).len(),
        forall|k: int| 0 <= k < r@.len() ==> (#[trigger] r@[k])@ == split_spaces(s@)[k],
{
    let n = s.unicode_len();
    let mut r: Vec<String> = Vec::new();
    let mut start: usize = 0;
    let mut i: usize = 0;
    proof {
        assert(s@.skip(0) =~= s@);
    }
    while i < n
        invariant
            start <= i <= n,
            n == s@.len(),
            forall|j: int| start <= j < i ==> s@[j] != ' ',
            split_spaces(s@).len() == r@.len() + split_spaces(s@.skip(start as int)).len(),
            forall|k: int|
                0 <= k < r@.len() ==> (#[trigger] r@[k])@ == split_spaces(s@)[k],
            forall|k: int|
                0 <= k < split_spaces(s@.skip(start as int)).len() ==> #[trigger] split_spaces(
                    s@.skip(start as int),
                )[k] == split_spaces(s@)[r@.len() + k],
        decreases n - i,
    {
        if s.get_char(i) == ' ' {
            let tok = s.substring_char(start, i);
            let ghost t = s@.skip(start as int);
            let ghost olds = start as int;
            let ghost oldlen = r@.len() as int;
            proof {
                assert forall|j: int| 0 <= j < i - start implies t[j] != ' ' by {
                    assert(s@[start + j] != ' ');
                }
                assert(t[i - start] == ' ');
                lemma_first_space_at(t, i - start);
                assert(t.take(i - start) =~= s@.subrange(start as int, i as int));
                assert(t.skip(i - start + 1) =~= s@.skip(i + 1));
                assert(tok@ == t.take(i - start));
                assert(split_spaces(t) =~= seq![t.take(i - start)] + split_spaces(
                    s@.skip(i + 1),
                ));
            }
            r.push(String::from_str(tok));
            start = i + 1;
            proof {
                assert(split_spaces(t)[0] == t.take(i - olds));
                assert(r@[oldlen]@ == split_spaces(s@)[oldlen]);
                assert forall|k: int|
                    0 <= k < split_spaces(s@.skip(start as int)).len() implies #[trigger] split_spaces(
                    s@.skip(start as int),
                )[k] == split_spaces(s@)[r@.len() + k] by {
                    assert(split_spaces(t)[k + 1] == split_spaces(s@.skip(start as int))[k]);
                    assert(split_spaces(t)[k + 1] == split_spaces(s@)[oldlen + k + 1]);
                }
            }
        }
        i = i + 1;
    }
    let tok = s.substring_char(start, n);
    let ghost t = s@.skip(start as int);
    let ghost oldlen = r@.len() as int;
    proof {
        assert forall|j: int| 0 <= j < t.len() implies t[j] != ' ' by {
            assert(s@[start + j] != ' ');
        }
        lemma_first_space_none(t);
        assert(split_spaces(t) =~= seq![t]);
        assert(tok@ =~= t);
        assert(split_spaces(t)[0] == t);
        assert(split_spaces(s@)[oldlen] == t);
        assert(split_spaces(s@).len() == oldlen + 1);
    }
    r.push(String::from_str(tok));
    r
}

/// The numeric value of a digit string, most significant digit first.
pub open spec fn dec_value(s: Seq<char>) -> int
    decreases s.len(),
{
    if s.len() == 0 {
        0
    } else {
        dec_value(s.drop_last()) * 10 + (s.last() as u32 - '0' as u32)
    }
}

/// Whether `c` is a decimal digit.
pub open spec fn is_digit_char(c: char) -> bool {
    '0' as u32 <= c as u32 <= '9' as u32
}

/// Whether every character of `s` is a decimal digit.
pub open spec fn all_digits(s: Seq<char>) -> bool {
    forall|j: int| 0 <= j < s.len() ==> is_digit_char(#[trigger] s[j])
}

/// What `str::parse::<u32>` yields on `s`: an optional leading `+`, then
/// one or more digits whose value fits in 32 bits; anything else fails.
pub open spec fn spec_parse_u32(s: Seq<char>) -> Option<u32> {
    let body = if s.len() > 0 && s[0] == '+' {
        s.drop_first()
    } else {
        s
    };
    if body.len() > 0 && all_digits(body) && dec_value(body) <= u32::MAX {
        Some(dec_value(body) as u32)
    } else {
        None
    }
}

/// A digit string's value only grows as more digits are read.
proof fn lemma_dec_value_mono(s: Seq<char>, k: int)
    requires
        all_digits(s),
        0 <= k <= s.len(),
    ensures
        0 <= dec_value(s.take(k)) <= dec_value(s),
    decreases s.len(),
{
    if s.len() == 0 {
    } else {
        assert(all_digits(s.drop_last()));
        assert(s.last() as u32 >= '0' as u32);
        lemma_dec_value_mono(s.drop_last(), if k > s.len() - 1 {
            s.len() - 1
        } else {
            k
        });
        if k == s.len() {
            assert(s.take(k) =~= s);
        } else {
            assert(s.take(k) =~= s.drop_last().take(k));
        }
        assert(dec_value(s) >= dec_value(s.drop_last()));
    }
}

/// Parses an unsigned 32-bit integer the way `str::parse::<u32>` does.
pub fn parse_u32(s: &str) -> (r: Option<u32>)
    ensures
        r == spec_parse_u32(s@),
{
    let n = s.unicode_len();
    let mut i: usize = 0;
    if n > 0 && s.get_char(0) == '+' {
        i = 1;
    }
    let ghost body = if s@.len() > 0 && s@[0] == '+' {
        s@.drop_first()
    } else {
        s@
    };
    proof {
        assert(body =~= s@.skip(i as int));
    }
    if i >= n {
        proof {
            assert(body.len() == 0);
        }
        return None;
    }
    let mut val: u64 = 0;
    let mut j: usize = i;
    proof {
        assert(body.take(0) =~= Seq::<char>::empty());
    }
    while j < n
        invariant
            i <= j <= n,
            n == s@.len(),
            body == (if s@.len() > 0 && s@[0] == '+' {
                s@.drop_first()
            } else {
                s@
            }),
            body == s@.skip(i as int),
            body.len() == n - i,
            all_digits(body.take(j - i)),
            val == dec_value(body.take(j - i)),
            val <= u32::MAX,
        decreases n - j,
    {
        let c = s.get_char(j);
        let cu = c as u32;
        proof {
            assert(body[j - i] == s@[j as int]);
        }
        if cu < '0' as u32 || cu > '9' as u32 {
            proof {
                assert(!is_digit_char(body[j - i]));
                assert(!all_digits(body));
            }
            return None;
        }
        let d = cu - '0' as u32;
        let nv = val * 10 + d as u64;
        proof {
            let t = body.take(j - i + 1);
            assert(t.drop_last() =~= body.take(j - i));
            assert(t.last() == body[j - i]);
            assert(nv == dec_value(t));
            assert(all_digits(t));
        }
        if nv > u32::MAX as u64 {
            proof {
                if all_digits(body) {
                    lemma_dec_value_mono(body, j - i + 1);
                    assert(dec_value(body) >= dec_value(body.take(j - i + 1)));
                    assert(dec_value(body) > u32::MAX);
                }
            }
            return None;
        }
        val = nv;
        j = j + 1;
    }
    proof {
        assert(body.take(n - i) =~= body);
        assert(all_digits(body));
        assert(dec_value(body) == val);
    }
    Some(val as u32)
}

/// Parses a trimmed control line: `.exit` and `.help` are the two
/// commands; anything else is unknown.
pub fn parse_command(line: String) -> (r: Result<Command, &'static str>)
    ensures
        spec_trim(line@) == ".exit"@ ==> r == Ok::<Command, &'static str>(Command::Exit),
        spec_trim(line@) == ".help"@ ==> r == Ok::<Command, &'static str>(Command::Help),
        spec_trim(line@) != ".exit"@ && spec_trim(line@) != ".help"@ ==> (r matches Err(m) && m@
            == "unknown command"@),
{
    proof {
        reveal_strlit(".exit");
        reveal_strlit(".help");
        assert(".exit"@[1] != ".help"@[1]);
    }
    let t = trim(line.as_str());
    if str_eq(t.as_str(), ".exit") {
        Ok(Command::Exit)
    } else if str_eq(t.as_str(), ".help") {
        Ok(Command::Help)
    } else {
        Err("unknown command")
    }
}

/// Turns a control command into the effect the surrounding loop performs:
/// help prints its one line of text, exit stops the process.
pub fn execute_command(command: Command) -> (r: CommandEffect)
    ensures
        command == Command::Help ==> (r matches CommandEffect::Output(s) && s@ == "help"@),
        command == Command::Exit ==> r == CommandEffect::Exit,
{
    match command {
        Command::Help => CommandEffect::Output(String::from_str("help")),
        Command::Exit => CommandEffect::Exit,
    }
}

/// Parses the arguments of an `insert` statement: exactly an id, a
/// username and an email, the id a 32-bit number; the row is built with
/// both text columns canonicalized.
pub fn parse_insert(words: &[&str]) -> (r: Result<Statement, &'static str>)
    ensures
        words@.len() != 3 ==> (r matches Err(m) && m@ == "invalid insert expected 3 args"@),
        words@.len() == 3 && spec_parse_u32(words@[0]@) is None ==> (r matches Err(m) && m@
            == "invalid id. not a number"@),
        words@.len() == 3 && spec_parse_u32(words@[0]@) is Some ==> (r matches Ok(st)
            && st matches Statement::Insert(row) && {
            &&& row.id == spec_parse_u32(words@[0]@)->0
            &&& encode_utf8(row.username@) == spec_pad_bytes(
                encode_utf8(words@[1]@),
                COLUMN_USERNAME_SIZE as int,
            )
            &&& encode_utf8(row.email@) == spec_pad_bytes(
                encode_utf8(words@[2]@),
                COLUMN_EMAIL_SIZE as int,
            )
        }),
{
    if words.len() == 3 {
        let w0: &str = *vstd::slice::slice_index_get(words, 0);
        match parse_u32(w0) {
            Some(id) => {
                let w1: &str = *vstd::slice::slice_index_get(words, 1);
                let w2: &str = *vstd::slice::slice_index_get(words, 2);
                Ok(Statement::Insert(Row::new(id, w1, w2)))
            },
            None => Err("invalid id. not a number"),
        }
    } else {
        Err("invalid insert expected 3 args")
    }
}

/// The tokens of a statement line: trimmed, then split on single spaces.
pub open spec fn spec_tokens(line: Seq<char>) -> Seq<Seq<char>> {
    split_spaces(spec_trim(line))
}

/// Parses a statement line: a leading `insert` token hands the remaining
/// tokens to [`parse_insert`], the single token `select` is a select, and
/// anything else is unknown.
pub fn parse_statement(line: String) -> (r: Result<Statement, &'static str>)
    ensures
        ({
            let toks = spec_tokens(line@);
            &&& (toks[0] == "insert"@ && toks.len() != 4 ==> (r matches Err(m) && m@
                == "invalid insert expected 3 args"@))
            &&& (toks[0] == "insert"@ && toks.len() == 4 && spec_parse_u32(toks[1]) is None ==> (
            r matches Err(m) && m@ == "invalid id. not a number"@))
            &&& (toks[0] == "insert"@ && toks.len() == 4 && spec_parse_u32(toks[1]) is Some
                ==> (r matches Ok(st) && st matches Statement::Insert(row) && {
                &&& row.id == spec_parse_u32(toks[1])->0
                &&& encode_utf8(row.username@) == spec_pad_bytes(
                    encode_utf8(toks[2]),
                    COLUMN_USERNAME_SIZE as int,
                )
                &&& encode_utf8(row.email@) == spec_pad_bytes(
                    encode_utf8(toks[3]),
                    COLUMN_EMAIL_SIZE as int,
                )
            }))
            &&& (toks[0] != "insert"@ && toks.len() == 1 && toks[0] == "select"@ ==> r
                == Ok::<Statement, &'static str>(Statement::Select))
            &&& (toks[0] != "insert"@ && !(toks.len() == 1 && toks[0] == "select"@) ==> (
            r matches Err(m) && m@ == "unknown command"@))
        }),
{
    let trimmed = trim(line.as_str());
    let parts = split_on_spaces(trimmed.as_str());
    let ghost toks = spec_tokens(line@);
    proof {
        assert(parts@.len() == toks.len());
        assert(parts@.len() >= 1);
    }
    let first: &String = &parts[0];
    if str_eq(first.as_str(), "insert") {
        let mut rest: Vec<&str> = Vec::new();
        let mut k: usize = 1;
        while k < parts.len()
            invariant
                1 <= k <= parts@.len(),
                rest@.len() == k - 1,
                toks == spec_tokens(line@),
                parts@.len() == toks.len(),
                forall|m: int| 0 <= m < parts@.len() ==> (#[trigger] parts@[m])@ == toks[m],
                forall|m: int| 0 <= m < rest@.len() ==> (#[trigger] rest@[m])@ == toks[m + 1],
            decreases parts@.len() - k,
        {
            let w: &String = &parts[k];
            rest.push(w.as_str());
            k = k + 1;
        }
        parse_insert(rest.as_slice())
    } else if parts.len() == 1 && str_eq(first.as_str(), "select") {
        Ok(Statement::Select)
    } else {
        Err("unknown command")
    }
}

/// The character of one decimal digit.
pub open spec fn digit_char(d: int) -> char {
    ((d + '0' as u32) as u32) as char
}

/// The decimal digits of `n`, most significant first.
pub open spec fn dec_digits(n: int) -> Seq<char>
    decreases n,
{
    if n < 0 {
        seq![]
    } else if n < 10 {
        seq![digit_char(n)]
    } else {
        dec_digits(n / 10) + seq![digit_char(n % 10)]
    }
}

/// One digit as a string slice.
fn digit_str(d: u32) -> (r: &'static str)
    requires
        d < 10,
    ensures
        r@ == seq![digit_char(d as int)],
{
    let r: &'static str = match d {
        0 => "0",
        1 => "1",
        2 => "2",
        3 => "3",
        4 => "4",
        5 => "5",
        6 => "6",
        7 => "7",
        8 => "8",
        _ => "9",
    };
    proof {
        reveal_strlit("0");
        reveal_strlit("1");
        reveal_strlit("2");
        reveal_strlit("3");
        reveal_strlit("4");
        reveal_strlit("5");
        reveal_strlit("6");
        reveal_strlit("7");
        reveal_strlit("8");
        reveal_strlit("9");
        vstd::utf8::char_u32_cast('0', 48);
        vstd::utf8::char_u32_cast('1', 49);
        vstd::utf8::char_u32_cast('2', 50);
        vstd::utf8::char_u32_cast('3', 51);
        vstd::utf8::char_u32_cast('4', 52);
        vstd::utf8::char_u32_cast('5', 53);
        vstd::utf8::char_u32_cast('6', 54);
        vstd::utf8::char_u32_cast('7', 55);
        vstd::utf8::char_u32_cast('8', 56);
        vstd::utf8::char_u32_cast('9', 57);
        assert(r@ =~= seq![digit_char(d as int)]);
    }
    r
}

/// Renders `x` in decimal.
pub fn render_u32(x: u32) -> (r: String)
    ensures
        r@ == dec_digits(x as int),
    decreases x,
{
    if x < 10 {
        String::from_str(digit_str(x))
    } else {
        let mut s = render_u32(x / 10);
        s.append(digit_str(x % 10));
        proof {
            assert(s@ =~= dec_digits(x as int));
        }
        s
    }
}

/// How one row is displayed: its id in decimal and both text columns
/// trimmed of surrounding whitespace, in a named-field layout.
pub open spec fn spec_render_row(id: u32, uname: Seq<char>, email: Seq<char>) -> Seq<char> {
    "Row { id: "@ + dec_digits(id as int) + ", username: \""@ + spec_trim(uname)
        + "\", email: \""@ + spec_trim(email) + "\" }"@
}

/// Renders one row for display.
pub fn render_row(row: &Row) -> (r: String)
    ensures
        r@ == spec_render_row(row.id, row.username@, row.email@),
{
    let mut out = String::from_str("Row { id: ");
    let digits = render_u32(row.id);
    out.append(digits.as_str());
    out.append(", username: \"");
    let uname = trim(row.username.as_str());
    out.append(uname.as_str());
    out.append("\", email: \"");
    let email = trim(row.email.as_str());
    out.append(email.as_str());
    out.append("\" }");
    proof {
        assert(out@ =~= spec_render_row(row.id, row.username@, row.email@));
    }
    out
}

/// The display form of a sequence of rows, one per line.
pub open spec fn spec_render_rows(rows: Seq<Row>) -> Seq<char>
    decreases rows.len(),
{
    if rows.len() == 0 {
        Seq::empty()
    } else {
        spec_render_rows(rows.drop_last()) + spec_render_row(
            rows.last().id,
            rows.last().username@,
            rows.last().email@,
        ) + "\n"@
    }
}

/// Renders a sequence of rows, one per line.
pub fn render_rows(rows: &Vec<Row>) -> (r: String)
    ensures
        r@ == spec_render_rows(rows@),
{
    let mut out = String::new();
    let mut k: usize = 0;
    proof {
        assert(rows@.take(0) =~= Seq::<Row>::empty());
    }
    while k < rows.len()
        invariant
            k <= rows@.len(),
            out@ == spec_render_rows(rows@.take(k as int)),
        decreases rows@.len() - k,
    {
        let rr = render_row(&rows[k]);
        out.append(rr.as_str());
        out.append("\n");
        proof {
            let t = rows@.take(k + 1);
            assert(t.drop_last() =~= rows@.take(k as int));
            assert(t.last() == rows@[k as int]);
        }
        k = k + 1;
    }
    proof {
        assert(rows@.take(rows@.len() as int) =~= rows@);
    }
    out
}

/// The display form of the table's enumeration: each slot in logical
/// order, decoded and rendered one per line.
pub open spec fn spec_table_render(t: Table, n: int) -> Seq<char>
    decreases n,
{
    if n <= 0 {
        Seq::empty()
    } else {
        spec_table_render(t, n - 1) + spec_render_row(
            spec_decoded_id(t.slot_bytes(n - 1)),
            spec_decoded_username(t.slot_bytes(n - 1)),
            spec_decoded_email(t.slot_bytes(n - 1)),
        ) + "\n"@
    }
}

/// Rows whose fields are the decoded slots render as the table renders.
proof fn lemma_render_rows_table(rows: Seq<Row>, t: Table, n: int)
    requires
        n == rows.len(),
        forall|i: int|
            0 <= i < n ==> {
                &&& (#[trigger] rows[i]).id == spec_decoded_id(t.slot_bytes(i))
                &&& rows[i].username@ == spec_decoded_username(t.slot_bytes(i))
                &&& rows[i].email@ == spec_decoded_email(t.slot_bytes(i))
            },
    ensures
        spec_render_rows(rows) == spec_table_render(t, n),
    decreases n,
{
    if n > 0 {
        lemma_render_rows_table(rows.drop_last(), t, n - 1);
    }
}

/// Executes one statement against the table.  An insert encodes the row
/// into its slot and answers with empty output; a select renders every
/// stored record in slot order.  Errors pass through from the table.
pub fn execute_statment(statement: Statement, table: &mut Table) -> (r: Result<
    String,
    &'static str,
>)
    requires
        old(table).wf(),
        statement matches Statement::Insert(row) ==> (!old(table).spec_full() ==> (row.id as int)
            < spec_capacity()),
    ensures
        final(table).wf(),
        final(table).row_size == old(table).row_size,
        final(table).pager.store@ == old(table).pager.store@,
        final(table).pager.file_size == old(table).pager.file_size,
        statement matches Statement::Insert(row) ==> {
            &&& (r is Ok <==> !old(table).spec_full())
            &&& (r matches Ok(out) ==> out@ == Seq::<char>::empty())
            &&& (r matches Err(m) ==> m@ == "Table is full"@ && *final(table) == *old(table))
            &&& (r is Ok ==> {
                &&& final(table).nb_rows == old(table).nb_rows + 1
                &&& final(table).slot_bytes(row.id as int) == spec_row_bytes(row)
                &&& forall|i: int|
                    0 <= i < spec_capacity() && i != row.id as int
                        ==> #[trigger] final(table).slot_bytes(i) == old(table).slot_bytes(i)
            })
        },
        statement matches Statement::Select ==> {
            &&& (r is Ok <==> old(table).rows_decodable())
            &&& (r matches Ok(out) ==> out@ == spec_table_render(
                *old(table),
                old(table).nb_rows as int,
            ))
            &&& (r matches Err(m) ==> m@ == decode_err_msg())
            &&& final(table).nb_rows == old(table).nb_rows
            &&& forall|i: int|
                0 <= i < spec_capacity() ==> #[trigger] final(table).slot_bytes(i) == old(
                    table,
                ).slot_bytes(i)
        },
{
    match statement {
        Statement::Insert(row) => {
            let out = String::new();
            match table.insert_row(&row) {
                Ok(_) => Ok(out),
                Err(e) => Err(e),
            }
        },
        Statement::Select => {
            match table.select_row() {
                Ok(rows) => {
                    let out = render_rows(&rows);
                    proof {
                        lemma_render_rows_table(
                            rows@,
                            *old(table),
                            old(table).nb_rows as int,
                        );
                    }
                    Ok(out)
                },
                Err(e) => Err(e),
            }
        },
    }
}

} // verus!
