//! Where the store keeps its files: the commit log's segments lie in
//! `<root>/commitlog`, those of a queue's index in `<root>/index/<topic>/<queue_id>`,
//! and a segment's file is named by its first address, as twenty decimal digits.

use vstd::prelude::*;
use vstd::string::StringExecFns;
use vstd::string::is_ascii_spec_bytes;

verus! {

/// The number of digits of a segment's file name.
pub const SEGMENT_NAME_WIDTH: usize = 20;

/// The character of a decimal digit.
pub open spec fn digit_char(d: nat) -> char {
    if d == 0 {
        '0'
    } else if d == 1 {
        '1'
    } else if d == 2 {
        '2'
    } else if d == 3 {
        '3'
    } else if d == 4 {
        '4'
    } else if d == 5 {
        '5'
    } else if d == 6 {
        '6'
    } else if d == 7 {
        '7'
    } else if d == 8 {
        '8'
    } else {
        '9'
    }
}

/// Whether a character is a decimal digit.
pub open spec fn is_digit(c: char) -> bool {
    '0' <= c <= '9'
}

/// The number that a decimal digit stands for.
pub open spec fn digit_value(c: char) -> nat {
    (c as nat - '0' as nat) as nat
}

/// A number in decimal digits, without leading zeros.
pub open spec fn decimal(n: nat) -> Seq<char>
    decreases n,
{
    if n < 10 {
        seq![digit_char(n)]
    } else {
        decimal(n / 10).push(digit_char(n % 10))
    }
}

/// The last `width` decimal digits of a number, with leading zeros.
pub open spec fn padded_decimal(n: nat, width: nat) -> Seq<char>
    decreases width,
{
    if width == 0 {
        Seq::empty()
    } else {
        padded_decimal(n / 10, (width - 1) as nat).push(digit_char(n % 10))
    }
}

/// Whether the characters are decimal digits, and at least one.
pub open spec fn is_decimal(s: Seq<char>) -> bool {
    s.len() > 0 && forall|i: int| 0 <= i < s.len() ==> is_digit(#[trigger] s[i])
}

/// The number that decimal digits stand for.
pub open spec fn decimal_value(s: Seq<char>) -> nat
    decreases s.len(),
{
    if s.len() == 0 {
        0
    } else {
        decimal_value(s.drop_last()) * 10 + digit_value(s.last())
    }
}

/// Ten to the power of `e`.
pub open spec fn pow10(e: nat) -> nat
    decreases e,
{
    if e == 0 {
        1
    } else {
        10 * pow10((e - 1) as nat)
    }
}

/// The name of the file of the segment that starts at `start_offset`.
pub open spec fn segment_name(start_offset: nat) -> Seq<char> {
    padded_decimal(start_offset, SEGMENT_NAME_WIDTH as nat)
}

/// The directory of the commit log's segments under `root`.
pub open spec fn commit_log_path(root: Seq<char>) -> Seq<char> {
    root + seq!['/', 'c', 'o', 'm', 'm', 'i', 't', 'l', 'o', 'g']
}

/// The directory of all indexes under `root`.
pub open spec fn index_root_path(root: Seq<char>) -> Seq<char> {
    root + seq!['/', 'i', 'n', 'd', 'e', 'x']
}

/// The directory of the index of the queue `queue_id` of `topic` under the
/// directory of all indexes.
pub open spec fn queue_index_path(index_root: Seq<char>, topic: Seq<char>, queue_id: nat) -> Seq<
    char,
> {
    index_root + seq!['/'] + topic + seq!['/'] + decimal(queue_id)
}

/// A number that has no more than `width` digits is the value of its last `width`
/// digits, which are digits indeed.
pub proof fn lemma_padded_decimal_value(n: nat, width: nat)
    requires
        n < pow10(width),
    ensures
        padded_decimal(n, width).len() == width,
        forall|i: int| 0 <= i < width ==> is_digit(#[trigger] padded_decimal(n, width)[i]),
        decimal_value(padded_decimal(n, width)) == n,
    decreases width,
{
    if width > 0 {
        let rest = padded_decimal(n / 10, (width - 1) as nat);
        lemma_padded_decimal_value(n / 10, (width - 1) as nat);
        let all = padded_decimal(n, width);
        assert(all.drop_last() =~= rest);
        assert(all.last() == digit_char(n % 10));
        assert(digit_value(digit_char(n % 10)) == n % 10);
        assert forall|i: int| 0 <= i < width implies is_digit(#[trigger] all[i]) by {
            if i < width - 1 {
                assert(all[i] == rest[i]);
            }
        }
    }
}

/// The name of a segment's file is twenty digits that stand for the segment's
/// first address.
pub proof fn lemma_segment_name_round_trip(start_offset: nat)
    requires
        start_offset <= u64::MAX,
    ensures
        segment_name(start_offset).len() == SEGMENT_NAME_WIDTH,
        is_decimal(segment_name(start_offset)),
        decimal_value(segment_name(start_offset)) == start_offset,
{
    reveal_with_fuel(pow10, 21);
    assert(pow10(20) == 100_000_000_000_000_000_000nat);
    lemma_padded_decimal_value(start_offset, SEGMENT_NAME_WIDTH as nat);
}

/// The digits that stand before others in a number stand for no more than all of
/// them do.
pub proof fn lemma_decimal_value_grows(s: Seq<char>, i: int)
    requires
        0 <= i <= s.len(),
    ensures
        decimal_value(s.subrange(0, i)) <= decimal_value(s),
    decreases s.len() - i,
{
    if i == s.len() {
        assert(s.subrange(0, i) =~= s);
    } else {
        lemma_decimal_value_grows(s.drop_last(), i);
        assert(s.drop_last().subrange(0, i) =~= s.subrange(0, i));
    }
}

/// The text of one decimal digit.
fn digit_str(d: u64) -> (s: &'static str)
    requires
        d < 10,
    ensures
        s@ == seq![digit_char(d as nat)],
{
    proof {
        reveal_strlit("0");
        reveal_strlit("1");
        reveal_strlit("2");
        reveal_strlit("3");
        reveal_strlit("4");
        reveal_strlit("5");
        reveal_strlit("6");
        reveal_strlit("7");
        reveal_strlit("8");
        reveal_strlit("9");
    }
    let s = if d == 0 {
        "0"
    } else if d == 1 {
        "1"
    } else if d == 2 {
        "2"
    } else if d == 3 {
        "3"
    } else if d == 4 {
        "4"
    } else if d == 5 {
        "5"
    } else if d == 6 {
        "6"
    } else if d == 7 {
        "7"
    } else if d == 8 {
        "8"
    } else {
        "9"
    };
    assert(s@ =~= seq![digit_char(d as nat)]);
    s
}

/// Writes a number in decimal digits, without leading zeros.
pub fn decimal_string(n: u64) -> (text: String)
    ensures
        text@ == decimal(n as nat),
{
    let mut text = String::from_str(digit_str(n % 10));
    let mut rest = n / 10;
    while rest > 0
        invariant
            decimal(n as nat) == (if rest > 0 {
                decimal(rest as nat) + text@
            } else {
                text@
            }),
        decreases rest,
    {
        let ghost before = text@;
        let digit = String::from_str(digit_str(rest % 10));
        text = digit.concat(text.as_str());
        proof {
            if rest < 10 {
                assert(decimal(rest as nat) =~= seq![digit_char(rest as nat)]);
            } else {
                assert(decimal(rest as nat) + before =~= decimal((rest / 10) as nat) + text@);
            }
        }
        rest = rest / 10;
    }
    text
}

/// The name of the file of the segment that starts at `start_offset`: the address
/// in twenty decimal digits, with leading zeros.
pub fn segment_file_name(start_offset: usize) -> (name: String)
    ensures
        name@ == segment_name(start_offset as nat),
{
    let mut name = String::new();
    let mut rest = start_offset as u64;
    let mut i: usize = 0;
    while i < SEGMENT_NAME_WIDTH
        invariant
            i <= SEGMENT_NAME_WIDTH,
            segment_name(start_offset as nat) == padded_decimal(
                rest as nat,
                (SEGMENT_NAME_WIDTH - i) as nat,
            ) + name@,
        decreases SEGMENT_NAME_WIDTH - i,
    {
        let ghost before = name@;
        let digit = String::from_str(digit_str(rest % 10));
        name = digit.concat(name.as_str());
        proof {
            let width = (SEGMENT_NAME_WIDTH - i) as nat;
            assert(padded_decimal(rest as nat, width) + before =~= padded_decimal(
                (rest / 10) as nat,
                (width - 1) as nat,
            ) + name@);
        }
        rest = rest / 10;
        i = i + 1;
    }
    assert(name@ =~= padded_decimal(rest as nat, 0) + name@);
    name
}

/// Reads the first address of a segment off its file's name: the number that the
/// name stands for, where the name is made of decimal digits and the number is a
/// `usize`.
pub fn parse_segment_name(name: &str) -> (r: Option<usize>)
    ensures
        r is Some <==> is_decimal(name@) && decimal_value(name@) <= usize::MAX,
        r matches Some(start_offset) ==> start_offset == decimal_value(name@),
{
    if !name.is_ascii() {
        assert(!is_decimal(name@)) by {
            if is_decimal(name@) {
                assert forall|i: int| 0 <= i < name@.len() implies '\0' <= #[trigger] name@[i]
                    <= '\u{7f}' by {
                    assert(is_digit(name@[i]));
                }
            }
        }
        return None;
    }
    let bytes = name.as_bytes();
    proof {
        is_ascii_spec_bytes(name);
    }
    let n = bytes.len();
    assert(n == name@.len());
    assert forall|j: int| 0 <= j < n implies '\0' <= (#[trigger] name@[j]) <= '\u{7f}' && bytes@[j]
        == name@[j] as u8 by {
        assert(bytes@[j] == Seq::new(name@.len(), |i: int| name@.index(i) as u8)[j]);
    }
    if n == 0 {
        return None;
    }
    let mut value: usize = 0;
    let mut i: usize = 0;
    while i < n
        invariant
            i <= n,
            n == name@.len(),
            n == bytes@.len(),
            forall|j: int|
                0 <= j < n ==> '\0' <= (#[trigger] name@[j]) <= '\u{7f}' && bytes@[j] == name@[j] as u8,
            forall|j: int| 0 <= j < i ==> is_digit(#[trigger] name@[j]),
            value == decimal_value(name@.subrange(0, i as int)),
        decreases n - i,
    {
        let b = bytes[i];
        assert('\0' <= name@[i as int] <= '\u{7f}' && b == name@[i as int] as u8);
        if b < 48 || b > 57 {
            assert(!is_digit(name@[i as int]));
            return None;
        }
        let d = (b - 48) as usize;
        proof {

            let prefix = name@.subrange(0, i + 1);
            assert(prefix.drop_last() =~= name@.subrange(0, i as int));
            assert(prefix.last() == name@[i as int]);
            assert(digit_value(name@[i as int]) == d);
            lemma_decimal_value_grows(name@, i + 1);
        }
        if value > (usize::MAX - d) / 10 {
            return None;
        }
        value = value * 10 + d;
        i = i + 1;
    }
    assert(name@.subrange(0, n as int) =~= name@);
    Some(value)
}

/// The directory of the commit log's segments under `root`.
pub fn commit_log_dir(root: &str) -> (dir: String)
    ensures
        dir@ == commit_log_path(root@),
{
    proof {
        reveal_strlit("/commitlog");
    }
    let dir = String::from_str(root).concat("/commitlog");
    assert(dir@ =~= commit_log_path(root@));
    dir
}

/// The directory of all indexes under `root`.
pub fn index_root_dir(root: &str) -> (dir: String)
    ensures
        dir@ == index_root_path(root@),
{
    proof {
        reveal_strlit("/index");
    }
    let dir = String::from_str(root).concat("/index");
    assert(dir@ =~= index_root_path(root@));
    dir
}

/// The directory of the index of the queue `queue_id` of `topic` under the
/// directory of all indexes.
pub fn queue_index_dir(index_root: &str, topic: &str, queue_id: u32) -> (dir: String)
    ensures
        dir@ == queue_index_path(index_root@, topic@, queue_id as nat),
{
    proof {
        reveal_strlit("/");
    }
    let id = decimal_string(queue_id as u64);
    let dir = String::from_str(index_root).concat("/").concat(topic).concat("/").concat(
        id.as_str(),
    );
    assert(dir@ =~= queue_index_path(index_root@, topic@, queue_id as nat));
    dir
}

} // verus!
